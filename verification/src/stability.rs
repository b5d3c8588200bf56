use vstd::prelude::*;

use crate::counts::{lemma_occurrences_prefix, lemma_text_counts_occurrences, occurrences, text_counts};
use crate::entries::{
    entry_lt, keep_flagged, law_sorted_unique_depends_on_entries, law_sorted_unique_of_sorted,
    sorted_unique, strictly_sorted, EntryView,
};
use crate::fill::{blank_entry, fill_all_from, fill_similar_from, fill_similar_spec, first_similar, table_fits, MatchState};
use crate::keys::lemma_numbered_key_nonempty;
use crate::pipeline::{all_keys_numbered, keys_of, known_keys, pipeline_spec, similarity_table};
use crate::sort::{key_in_order, sort_from};
use crate::text::{join_paragraphs, joinable, law_join_then_split, paragraphs, text_lt};

verus! {

/// The texts of a list of entries.
pub open spec fn texts_of(s: Seq<EntryView>) -> Seq<Seq<char>> {
    s.map_values(|e: EntryView| e.1)
}

/// The update depends on the old entries only through which entries occur:
/// lists with the same entries, in any order and with any repeats, give the
/// same result.
pub proof fn law_pipeline_depends_on_entries(
    a1: Seq<EntryView>,
    a2: Seq<EntryView>,
    used: Seq<Seq<char>>,
    text: Seq<char>,
    sim: Seq<Seq<bool>>,
)
    requires
        forall|x: EntryView| #[trigger] a1.contains(x) <==> a2.contains(x),
    ensures
        pipeline_spec(a1, used, text, sim) == pipeline_spec(a2, used, text, sim),
{
    law_sorted_unique_depends_on_entries(a1, a2);
    assert forall|j: int| 0 <= j < a1.len() implies exists|k: int|
        0 <= k < a2.len() && #[trigger] a1[j] == a2[k] by {
        assert(a1.contains(a1[j]));
        assert(a2.contains(a1[j]));
    }
    assert forall|j: int| 0 <= j < a2.len() implies exists|k: int|
        0 <= k < a1.len() && #[trigger] a2[j] == a1[k] by {
        assert(a2.contains(a2[j]));
        assert(a1.contains(a2[j]));
    }
    if all_keys_numbered(a1, used) {
        assert forall|j: int| 0 <= j < a2.len() implies #[trigger] crate::keys::key_number(
            a2[j].0,
        ) is Some by {
            let k = choose|k: int| 0 <= k < a1.len() && a2[j] == a1[k];
            assert(crate::keys::key_number(a1[k].0) is Some);
        }
    }
    if all_keys_numbered(a2, used) {
        assert forall|j: int| 0 <= j < a1.len() implies #[trigger] crate::keys::key_number(
            a1[j].0,
        ) is Some by {
            let k = choose|k: int| 0 <= k < a2.len() && a1[j] == a2[k];
            assert(crate::keys::key_number(a2[k].0) is Some);
        }
    }
    assert(all_keys_numbered(a1, used) == all_keys_numbered(a2, used));
    assert forall|n: usize| #[trigger] known_keys(a1, used).contains(n) <==> known_keys(
        a2,
        used,
    ).contains(n) by {
        if exists|j: int| 0 <= j < a1.len() && #[trigger] crate::keys::key_number(a1[j].0) == Some(n) {
            let j = choose|j: int| 0 <= j < a1.len() && #[trigger] crate::keys::key_number(a1[j].0) == Some(n);
            let k = choose|k: int| 0 <= k < a2.len() && a1[j] == a2[k];
            assert(crate::keys::key_number(a2[k].0) == Some(n));
        }
        if exists|j: int| 0 <= j < a2.len() && #[trigger] crate::keys::key_number(a2[j].0) == Some(n) {
            let j = choose|j: int| 0 <= j < a2.len() && #[trigger] crate::keys::key_number(a2[j].0) == Some(n);
            let k = choose|k: int| 0 <= k < a1.len() && a2[j] == a1[k];
            assert(crate::keys::key_number(a1[k].0) == Some(n));
        }
    }
    assert(known_keys(a1, used) =~= known_keys(a2, used));
}

/// The matching state after the first `i` texts of unchanged entries have
/// each taken their own entry.
pub open spec fn diagonal_state(old: Seq<EntryView>, ts: Seq<Seq<char>>, i: int) -> MatchState {
    (
        Seq::new(ts.len(), |q: int| if q < i { old[q] } else { blank_entry() }),
        Seq::new(old.len(), |q: int| q >= i),
        Map::new(
            |t: Seq<char>| text_counts(ts).contains_key(t),
            |t: Seq<char>| (text_counts(ts)[t] - occurrences(ts.take(i), t)) as usize,
        ),
    )
}

proof fn lemma_first_similar_at(present: Seq<bool>, row: Seq<bool>, j: int, i: int)
    requires
        0 <= j <= i < present.len(),
        forall|q: int| j <= q < i ==> !present[q],
        present[i] && row[i],
    ensures
        first_similar(present, row, j) == Some(i),
    decreases i - j,
{
    if j < i {
        lemma_first_similar_at(present, row, j + 1, i);
    }
}

proof fn lemma_fill_diagonal(old: Seq<EntryView>, ts: Seq<Seq<char>>, sim: Seq<Seq<bool>>, i: int)
    requires
        ts == texts_of(old),
        ts.len() <= usize::MAX,
        table_fits(sim, ts.len() as int, ts.len() as int),
        forall|q: int| 0 <= q < ts.len() ==> #[trigger] sim[q][q],
        0 <= i <= ts.len(),
    ensures
        fill_similar_from(ts, old, sim, i, diagonal_state(old, ts, i)) == Some(
            diagonal_state(old, ts, ts.len() as int),
        ),
    decreases ts.len() - i,
{
    let n = ts.len() as int;
    if i < n {
        let st = diagonal_state(old, ts, i);
        let nx = diagonal_state(old, ts, i + 1);
        let t = ts[i];
        assert(sim[i].len() == n);
        lemma_first_similar_at(st.1, sim[i], 0, i);
        lemma_text_counts_occurrences(ts);
        lemma_occurrences_prefix(ts, i, t);
        crate::counts::lemma_occurrences_nonneg(ts.take(i));
        assert(occurrences(ts.take(i), t) >= 0);
        assert(occurrences(ts, t) > 0);
        assert(text_counts(ts).contains_key(t));
        assert(text_counts(ts)[t] == occurrences(ts, t));
        assert(st.2.contains_key(t));
        assert(st.2[t] > 0);
        let a2 = st.0.update(i, (old[i].0, t));
        let p2 = st.1.update(i, false);
        let c2 = st.2.insert(t, (st.2[t] - 1) as usize);
        assert(a2 =~= nx.0);
        assert(p2 =~= nx.1);
        assert forall|u: Seq<char>| #[trigger] c2.contains_key(u) implies c2[u] == nx.2[u] by {
            lemma_occurrences_prefix(ts, i, u);
        }
        assert(c2 =~= nx.2);
        lemma_fill_diagonal(old, ts, sim, i + 1);
    }
}

proof fn lemma_fill_all_nothing_blank(
    keys: Set<usize>,
    ts: Seq<Seq<char>>,
    counts: Map<Seq<char>, usize>,
    a: Seq<EntryView>,
    i: int,
)
    requires
        a.len() == ts.len(),
        0 <= i,
        forall|q: int| 0 <= q < a.len() ==> (#[trigger] a[q]).0.len() > 0,
    ensures
        fill_all_from(keys, ts, counts, a, i) == Some((a, counts)),
    decreases ts.len() - i,
{
    if i < ts.len() {
        assert(a[i].0.len() > 0);
        lemma_fill_all_nothing_blank(keys, ts, counts, a, i + 1);
    }
}

proof fn lemma_sort_in_order(a: Seq<EntryView>, i: int, keys: Set<usize>)
    requires
        0 <= i,
        forall|q: int| 0 <= q < a.len() ==> #[trigger] key_in_order(a, q),
    ensures
        sort_from(a, i, keys) == Some(a),
    decreases a.len() - i,
{
    if i < a.len() {
        assert(key_in_order(a, i));
        lemma_sort_in_order(a, i + 1, keys);
    }
}

proof fn lemma_keep_none(s: Seq<EntryView>, keep: Seq<bool>, j: int)
    requires
        forall|q: int| 0 <= q < keep.len() ==> !keep[q],
        keep.len() == s.len(),
    ensures
        keep_flagged(s, keep, j) == Seq::<EntryView>::empty(),
    decreases s.len() - j,
{
    if 0 <= j < s.len() {
        lemma_keep_none(s, keep, j + 1);
    }
}

/// Running the update on the unchanged text gives the same entries back and
/// adds no unused keys: where the old entries have strictly increasing keys,
/// each with a number, their texts join and split back unchanged, and each
/// text counts as similar to itself.
pub proof fn law_unchanged_text_keeps_keys(
    old: Seq<EntryView>,
    used: Seq<Seq<char>>,
    sim: Seq<Seq<bool>>,
)
    requires
        old.len() <= usize::MAX,
        forall|i: int, j: int| 0 <= i < j < old.len() ==> text_lt(#[trigger] old[i].0, #[trigger] old[j].0),
        all_keys_numbered(old, used),
        joinable(texts_of(old)),
        table_fits(sim, old.len() as int, old.len() as int),
        forall|q: int| 0 <= q < old.len() ==> #[trigger] sim[q][q],
    ensures
        pipeline_spec(old, used, join_paragraphs(texts_of(old)), sim) == Some((old, used)),
{
    let ts = texts_of(old);
    let n = old.len() as int;
    law_join_then_split(ts);
    assert(strictly_sorted(old));
    law_sorted_unique_of_sorted(old);
    let st0 = diagonal_state(old, ts, 0);
    assert(ts.take(0) =~= Seq::<Seq<char>>::empty());
    assert(st0.0 =~= Seq::new(ts.len(), |i: int| blank_entry()));
    assert(st0.1 =~= Seq::new(old.len(), |j: int| true));
    lemma_text_counts_occurrences(ts);
    assert(st0.2 =~= text_counts(ts));
    lemma_fill_diagonal(old, ts, sim, 0);
    assert(fill_similar_spec(ts, old, sim, text_counts(ts)) == Some(diagonal_state(old, ts, n)));
    let stn = diagonal_state(old, ts, n);
    assert(stn.0 =~= old);
    let keys = known_keys(old, used);
    assert forall|q: int| 0 <= q < old.len() implies (#[trigger] old[q]).0.len() > 0 by {
        lemma_numbered_key_nonempty(old[q].0);
    }
    lemma_fill_all_nothing_blank(keys, ts, stn.2, old, 0);
    assert forall|q: int| 0 <= q < old.len() implies #[trigger] key_in_order(old, q) by {
        if q > 0 {
            assert(text_lt(old[q - 1].0, old[q].0));
        }
        if q + 1 < old.len() {
            assert(text_lt(old[q].0, old[q + 1].0));
        }
    }
    lemma_sort_in_order(old, 0, keys);
    lemma_keep_none(old, stn.1, 0);
    assert(keys_of(Seq::<EntryView>::empty()) + used =~= used);
}

/// The same for a similarity relation under which every text is similar to
/// itself.
pub proof fn law_unchanged_text_keeps_keys_reflexive(
    old: Seq<EntryView>,
    used: Seq<Seq<char>>,
    sim: spec_fn(Seq<char>, Seq<char>) -> bool,
)
    requires
        old.len() <= usize::MAX,
        forall|i: int, j: int| 0 <= i < j < old.len() ==> text_lt(#[trigger] old[i].0, #[trigger] old[j].0),
        all_keys_numbered(old, used),
        joinable(texts_of(old)),
        forall|t: Seq<char>| #[trigger] sim(t, t),
    ensures
        pipeline_spec(
            old,
            used,
            join_paragraphs(texts_of(old)),
            similarity_table(sim, sorted_unique(old), paragraphs(join_paragraphs(texts_of(old)))),
        ) == Some((old, used)),
{
    let ts = texts_of(old);
    law_join_then_split(ts);
    assert(strictly_sorted(old));
    law_sorted_unique_of_sorted(old);
    let table = similarity_table(sim, old, ts);
    assert forall|q: int| 0 <= q < old.len() implies #[trigger] table[q][q] by {
        assert(table[q][q] == sim(old[q].1, ts[q]));
    }
    law_unchanged_text_keeps_keys(old, used, table);
}

} // verus!
