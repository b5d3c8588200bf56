use vstd::prelude::*;

use std::collections::BTreeSet;

use crate::counts::{text_counts, TextCounts};
use crate::entries::{entries_view, keep_flagged, sorted_unique, texts_view, EntrySet, EntryView};
use crate::fill::{
    fill_all_from, fill_all_strings, fill_similar_checked, fill_similar_spec, table_fits, table_view,
};
use crate::keys::{get_key_number, key_number};
use crate::sort::{try_alphabetical_sort, sort_spec};
use crate::text::{paragraphs, string_to_array};

verus! {

/// The keys of a list of entries.
pub open spec fn keys_of(s: Seq<EntryView>) -> Seq<Seq<char>> {
    s.map_values(|e: EntryView| e.0)
}

/// Every old key and every used key has a number.
pub open spec fn all_keys_numbered(old: Seq<EntryView>, used: Seq<Seq<char>>) -> bool {
    &&& forall|j: int| 0 <= j < old.len() ==> #[trigger] key_number(old[j].0) is Some
    &&& forall|j: int| 0 <= j < used.len() ==> #[trigger] key_number(used[j]) is Some
}

/// The numbers of the old keys and of the used keys.
pub open spec fn known_keys(old: Seq<EntryView>, used: Seq<Seq<char>>) -> Set<usize> {
    Set::new(
        |n: usize|
            (exists|j: int| 0 <= j < old.len() && #[trigger] key_number(old[j].0) == Some(n)) || (
            exists|j: int| 0 <= j < used.len() && #[trigger] key_number(used[j]) == Some(n)),
    )
}

/// What the pipeline gives for the old entries, the keys used before, the new
/// text and the similarity table (`sim[i][j]`: the `j`-th old entry, in set
/// order, is similar to the `i`-th paragraph). The paragraphs first take the
/// keys of similar old entries, then the rest get new keys, then keys out of
/// order are replaced. The second part lists the keys of the old entries that
/// no paragraph took, in set order, then the used keys. `None` where the
/// computation cannot finish: a key without a number, an overflow, a search
/// without end.
pub open spec fn pipeline_spec(
    old: Seq<EntryView>,
    used: Seq<Seq<char>>,
    text: Seq<char>,
    sim: Seq<Seq<bool>>,
) -> Option<(Seq<EntryView>, Seq<Seq<char>>)> {
    let paras = paragraphs(text);
    let set = sorted_unique(old);
    match fill_similar_spec(paras, set, sim, text_counts(paras)) {
        None => None,
        Some((answer, present, counts)) => {
            if !all_keys_numbered(old, used) {
                None
            } else {
                let keys = known_keys(old, used);
                match fill_all_from(keys, paras, counts, answer, 0) {
                    None => None,
                    Some((filled, _)) => match sort_spec(filled, keys) {
                        None => None,
                        Some(sorted) => Some((sorted, keys_of(keep_flagged(set, present, 0)) + used)),
                    },
                }
            }
        },
    }
}

pub open spec fn outcome_view(r: Option<(Vec<(String, String)>, Vec<String>)>) -> Option<
    (Seq<EntryView>, Seq<Seq<char>>),
> {
    match r {
        Some((a, k)) => Some((entries_view(a@), texts_view(k@))),
        None => None,
    }
}

/// The numbers of the old keys and the used keys; `None` where one has none.
fn collect_keys(old_array: &Vec<(String, String)>, used_keys: &Vec<String>) -> (res: Option<
    BTreeSet<usize>,
>)
    ensures
        match res {
            Some(k) => all_keys_numbered(entries_view(old_array@), texts_view(used_keys@)) && k@
                == known_keys(entries_view(old_array@), texts_view(used_keys@)),
            None => !all_keys_numbered(entries_view(old_array@), texts_view(used_keys@)),
        },
{
    let ghost old = entries_view(old_array@);
    let ghost used = texts_view(used_keys@);
    let mut keys: BTreeSet<usize> = BTreeSet::new();
    let mut i: usize = 0;
    while i < old_array.len()
        invariant
            i <= old_array.len(),
            old == entries_view(old_array@),
            forall|j: int| 0 <= j < i ==> #[trigger] key_number(old[j].0) is Some,
            forall|n: usize|
                keys@.contains(n) <==> exists|j: int|
                    0 <= j < i && #[trigger] key_number(old[j].0) == Some(n),
        decreases old_array.len() - i,
    {
        match get_key_number(old_array[i].0.as_str()) {
            None => {
                return None;
            },
            Some(n) => {
                keys.insert(n);
                assert(key_number(old[i as int].0) == Some(n));
            },
        }
        i += 1;
    }
    let mut u: usize = 0;
    while u < used_keys.len()
        invariant
            u <= used_keys.len(),
            old == entries_view(old_array@),
            used == texts_view(used_keys@),
            forall|j: int| 0 <= j < old.len() ==> #[trigger] key_number(old[j].0) is Some,
            forall|j: int| 0 <= j < u ==> #[trigger] key_number(used[j]) is Some,
            forall|n: usize|
                keys@.contains(n) <==> (exists|j: int|
                    0 <= j < old.len() && #[trigger] key_number(old[j].0) == Some(n)) || (exists|
                    j: int,
                |
                    0 <= j < u && #[trigger] key_number(used[j]) == Some(n)),
        decreases used_keys.len() - u,
    {
        match get_key_number(used_keys[u].as_str()) {
            None => {
                return None;
            },
            Some(n) => {
                keys.insert(n);
                assert(key_number(used[u as int]) == Some(n));
            },
        }
        u += 1;
    }
    assert(keys@ =~= known_keys(old, used));
    Some(keys)
}

/// The pipeline, with the similarity answers given as a table (see
/// `pipeline_spec`); `None` where the computation does not finish.
pub fn pipeline_with_table(
    old_array: Vec<(String, String)>,
    used_keys: Vec<String>,
    new_string: &str,
    similar: &Vec<Vec<bool>>,
) -> (res: Option<(Vec<(String, String)>, Vec<String>)>)
    requires
        all_keys_numbered(entries_view(old_array@), texts_view(used_keys@)),
        table_fits(
            table_view(similar@),
            paragraphs(new_string@).len() as int,
            sorted_unique(entries_view(old_array@)).len() as int,
        ),
    ensures
        outcome_view(res) == pipeline_spec(
            entries_view(old_array@),
            texts_view(used_keys@),
            new_string@,
            table_view(similar@),
        ),
{
    let paras = string_to_array(new_string);
    assert(texts_view(paras@) == paragraphs(new_string@));
    let mut set = EntrySet::from_entries(&old_array);
    let mut counts = TextCounts::from_texts(&paras);
    let mut answer = match fill_similar_checked(&paras, &mut set, &mut counts, similar) {
        None => {
            return None;
        },
        Some(a) => a,
    };
    let keys = match collect_keys(&old_array, &used_keys) {
        None => {
            return None;
        },
        Some(k) => k,
    };
    if !fill_all_strings(&keys, &paras, &mut counts, &mut answer) {
        return None;
    }
    if !try_alphabetical_sort(&mut answer, &keys) {
        return None;
    }
    let remaining = set.entries();
    let ghost rest = set@;
    let mut unused: Vec<String> = Vec::new();
    let mut j: usize = 0;
    while j < remaining.len()
        invariant
            j <= remaining.len(),
            entries_view(remaining@) == rest,
            texts_view(unused@) == keys_of(rest).take(j as int),
        decreases remaining.len() - j,
    {
        let ghost before = texts_view(unused@);
        unused.push(remaining[j].0.clone());
        assert(texts_view(unused@) =~= before.push(rest[j as int].0));
        assert(keys_of(rest).take(j + 1) =~= keys_of(rest).take(j as int).push(rest[j as int].0));
        j += 1;
    }
    assert(keys_of(rest).take(j as int) =~= keys_of(rest));
    let ghost head = texts_view(unused@);
    let mut u: usize = 0;
    while u < used_keys.len()
        invariant
            u <= used_keys.len(),
            texts_view(unused@) == head + texts_view(used_keys@).take(u as int),
        decreases used_keys.len() - u,
    {
        let ghost before = texts_view(unused@);
        unused.push(used_keys[u].clone());
        assert(texts_view(unused@) =~= before.push(used_keys@[u as int]@));
        assert(texts_view(used_keys@).take(u + 1) =~= texts_view(used_keys@).take(u as int).push(
            used_keys@[u as int]@,
        ));
        assert(texts_view(unused@) =~= head + texts_view(used_keys@).take(u + 1));
        u += 1;
    }
    assert(texts_view(used_keys@).take(u as int) =~= texts_view(used_keys@));
    Some((answer, unused))
}

} // verus!

verus! {

/// Whether the similarity test `f` answers as the relation `sim` does.
pub open spec fn answers_as<F: Fn(&str, &str) -> bool>(
    f: F,
    sim: spec_fn(Seq<char>, Seq<char>) -> bool,
) -> bool {
    forall|a: &str, b: &str, r: bool| #[trigger] f.ensures((a, b), r) ==> r == sim(a@, b@)
}

/// The similarity table that `sim` gives: row `i` for paragraph `i`, column
/// `j` for the `j`-th old entry, comparing the entry's text with the paragraph.
pub open spec fn similarity_table(
    sim: spec_fn(Seq<char>, Seq<char>) -> bool,
    set: Seq<EntryView>,
    paras: Seq<Seq<char>>,
) -> Seq<Seq<bool>> {
    Seq::new(paras.len(), |i: int| Seq::new(set.len(), |j: int| sim(set[j].1, paras[i])))
}

/// Gives the paragraphs of `new_string` keys: a paragraph takes over the key
/// of the first old entry (in set order) whose text `similar` finds similar
/// to it; the others get new keys between their neighbours' keys; keys out of
/// order are replaced. Returns the paragraphs with their keys and the keys no
/// paragraph took, followed by `used_keys`. Every old key and used key must
/// have a number. `None` where the computation does not finish on the keys
/// it makes (a new key without a number, an overflow, a search without end).
/// `similar` is asked once for each old entry and paragraph, with the old
/// entry's text first.
pub fn pipeline<F: Fn(&str, &str) -> bool>(
    old_array: Vec<(String, String)>,
    used_keys: Vec<String>,
    new_string: &str,
    similar: F,
) -> (res: Option<(Vec<(String, String)>, Vec<String>)>)
    requires
        all_keys_numbered(entries_view(old_array@), texts_view(used_keys@)),
        forall|a: &str, b: &str| #[trigger] similar.requires((a, b)),
    ensures
        exists|t: Seq<Seq<bool>>|
            table_fits(
                t,
                paragraphs(new_string@).len() as int,
                sorted_unique(entries_view(old_array@)).len() as int,
            ) && outcome_view(res) == pipeline_spec(
                entries_view(old_array@),
                texts_view(used_keys@),
                new_string@,
                t,
            ),
        forall|sim: spec_fn(Seq<char>, Seq<char>) -> bool| #[trigger]
            answers_as(similar, sim) ==> outcome_view(res) == pipeline_spec(
                entries_view(old_array@),
                texts_view(used_keys@),
                new_string@,
                similarity_table(
                    sim,
                    sorted_unique(entries_view(old_array@)),
                    paragraphs(new_string@),
                ),
            ),
{
    let paras = string_to_array(new_string);
    let set = EntrySet::from_entries(&old_array);
    let ghost ps = paragraphs(new_string@);
    let ghost es = set@;
    let entries = set.entries();
    let n = paras.len();
    let m = entries.len();
    let mut table: Vec<Vec<bool>> = Vec::new();
    let mut i: usize = 0;
    while i < n
        invariant
            n == paras.len(),
            m == entries.len(),
            texts_view(paras@) == ps,
            entries_view(entries@) == es,
            i <= n,
            table.len() == i,
            forall|q: int| 0 <= q < i ==> #[trigger] table@[q]@.len() == m,
            forall|a: &str, b: &str| #[trigger] similar.requires((a, b)),
            forall|sim: spec_fn(Seq<char>, Seq<char>) -> bool| #[trigger]
                answers_as(similar, sim) ==> forall|q: int, j: int|
                    0 <= q < i && 0 <= j < m ==> #[trigger] table@[q]@[j] == sim(es[j].1, ps[q]),
        decreases n - i,
    {
        let mut row: Vec<bool> = Vec::new();
        let mut j: usize = 0;
        while j < m
            invariant
                n == paras.len(),
                m == entries.len(),
                texts_view(paras@) == ps,
                entries_view(entries@) == es,
                i < n,
                j <= m,
                row.len() == j,
                forall|a: &str, b: &str| #[trigger] similar.requires((a, b)),
                forall|sim: spec_fn(Seq<char>, Seq<char>) -> bool| #[trigger]
                    answers_as(similar, sim) ==> forall|k: int|
                        0 <= k < j ==> #[trigger] row@[k] == sim(es[k].1, ps[i as int]),
            decreases m - j,
        {
            let a = entries[j].1.as_str();
            let b = paras[i].as_str();
            let r = similar(a, b);
            assert(a@ == es[j as int].1);
            assert(b@ == ps[i as int]);
            row.push(r);
            j += 1;
        }
        table.push(row);
        i += 1;
    }
    let res = pipeline_with_table(old_array, used_keys, new_string, &table);
    assert(table_fits(table_view(table@), ps.len() as int, es.len() as int));
    assert forall|sim: spec_fn(Seq<char>, Seq<char>) -> bool| #[trigger]
        answers_as(similar, sim) implies table_view(table@) == similarity_table(sim, es, ps) by {
        assert(table_view(table@) =~= similarity_table(sim, es, ps)) by {
            assert forall|q: int| 0 <= q < ps.len() implies #[trigger] table_view(table@)[q]
                =~= similarity_table(sim, es, ps)[q] by {}
        }
    }
    res
}

} // verus!

verus! {

/// Every paragraph of the new text comes out in its place, with its text and
/// a key that is not empty. The list of unused keys ends with the used keys,
/// and each key before them is the key of an old entry.
pub proof fn law_pipeline_keys_every_paragraph(
    old: Seq<EntryView>,
    used: Seq<Seq<char>>,
    text: Seq<char>,
    sim: Seq<Seq<bool>>,
)
    ensures
        pipeline_spec(old, used, text, sim) matches Some((answer, unused)) ==> {
            &&& answer.len() == paragraphs(text).len()
            &&& forall|q: int|
                0 <= q < answer.len() ==> #[trigger] answer[q].1 == paragraphs(text)[q]
                    && answer[q].0.len() > 0
            &&& unused.len() >= used.len()
            &&& unused.skip(unused.len() - used.len()) == used
            &&& forall|q: int|
                0 <= q < unused.len() - used.len() ==> exists|j: int|
                    0 <= j < old.len() && #[trigger] old[j].0 == #[trigger] unused[q]
        },
{
    let paras = paragraphs(text);
    let set = sorted_unique(old);
    if let Some((answer, unused)) = pipeline_spec(old, used, text, sim) {
        let (matched, present, counts) = fill_similar_spec(paras, set, sim, text_counts(paras))->0;
        let keys = known_keys(old, used);
        crate::entries::law_sorted_unique(old);
        assert forall|j: int| 0 <= j < set.len() implies (#[trigger] set[j]).0.len() > 0 by {
            assert(set.contains(set[j]));
            let k = choose|k: int| 0 <= k < old.len() && old[k] == set[j];
            crate::keys::lemma_numbered_key_nonempty(old[k].0);
        }
        crate::fill::law_fill_similar_shape(paras, set, sim, text_counts(paras));
        crate::fill::law_fill_all_keys_every_text(keys, paras, counts, matched);
        let (filled, _) = fill_all_from(keys, paras, counts, matched, 0)->0;
        crate::sort::law_sort_keeps_texts(filled, keys);
        assert forall|q: int| 0 <= q < answer.len() implies #[trigger] answer[q].1 == paras[q]
            && answer[q].0.len() > 0 by {
            assert(answer[q].1 == filled[q].1);
        }
        let rest = keep_flagged(set, present, 0);
        crate::entries::lemma_keep_flagged_subset(set, present, 0);
        assert(unused == keys_of(rest) + used);
        assert(unused.skip(unused.len() - used.len()) =~= used);
        assert forall|q: int| 0 <= q < unused.len() - used.len() implies exists|j: int|
            0 <= j < old.len() && #[trigger] old[j].0 == #[trigger] unused[q] by {
            assert(unused[q] == rest[q].0);
            assert(rest.contains(rest[q]));
            assert(set.contains(rest[q]));
            let k = choose|k: int| 0 <= k < old.len() && old[k] == rest[q];
            assert(old[k].0 == unused[q]);
        }
    }
}

} // verus!

verus! {

/// The unused keys are the used keys after the keys of the old entries that
/// no paragraph took; those come in set order (they are the keys of a
/// sub-list of the ordered old entries), and they are at least as many as the
/// old entries less the paragraphs.
pub proof fn law_pipeline_unused_keys(
    old: Seq<EntryView>,
    used: Seq<Seq<char>>,
    text: Seq<char>,
    sim: Seq<Seq<bool>>,
)
    ensures
        pipeline_spec(old, used, text, sim) matches Some((answer, unused)) ==> exists|
            rest: Seq<EntryView>,
        |
            {
                &&& unused == keys_of(rest) + used
                &&& exists|idx: Seq<int>| #[trigger]
                    crate::entries::places_of(sorted_unique(old), rest, idx, 0)
                &&& rest.len() + paragraphs(text).len() >= sorted_unique(old).len()
            },
{
    let paras = paragraphs(text);
    let set = sorted_unique(old);
    if let Some((answer, unused)) = pipeline_spec(old, used, text, sim) {
        let (matched, present, counts) = fill_similar_spec(paras, set, sim, text_counts(paras))->0;
        crate::fill::law_fill_similar_takes_at_most_one_per_text(
            paras,
            set,
            sim,
            text_counts(paras),
        );
        let rest = keep_flagged(set, present, 0);
        crate::entries::lemma_keep_flagged_places(set, present, 0);
        assert(unused == keys_of(rest) + used);
    }
}

} // verus!

verus! {

/// The numbers the pipeline keeps clear of when it makes new keys are those
/// of the old keys and of the used keys: each of them is among them, and
/// nothing else is.
pub proof fn law_known_keys_are_old_and_used_numbers(old: Seq<EntryView>, used: Seq<Seq<char>>)
    ensures
        forall|j: int|
            0 <= j < used.len() && #[trigger] key_number(used[j]) is Some ==> known_keys(
                old,
                used,
            ).contains(key_number(used[j])->0),
        forall|j: int|
            0 <= j < old.len() && #[trigger] key_number(old[j].0) is Some ==> known_keys(
                old,
                used,
            ).contains(key_number(old[j].0)->0),
        forall|n: usize| #[trigger]
            known_keys(old, used).contains(n) ==> (exists|j: int|
                0 <= j < old.len() && #[trigger] key_number(old[j].0) == Some(n)) || (exists|j: int|
                0 <= j < used.len() && #[trigger] key_number(used[j]) == Some(n)),
{
}

proof fn lemma_fill_all_long(
    keys: Set<usize>,
    texts: Seq<Seq<char>>,
    counts: Map<Seq<char>, usize>,
    a: Seq<EntryView>,
    i: int,
)
    requires
        0 <= i,
    ensures
        fill_all_from(keys, texts, counts, a, i) is Some && i < texts.len() ==> a.len()
            >= texts.len(),
    decreases texts.len() - i,
{
    if i < texts.len() && i < a.len() {
        if a[i].1.len() == 0 && a[i].0.len() == 0 {
            if let Some(k) = crate::unique::unique_key_spec(a, i, keys) {
                let t = texts[i];
                let a2 = a.update(i, (k, t));
                if counts.contains_key(t) {
                    lemma_fill_all_long(
                        keys,
                        texts,
                        counts.insert(t, (counts[t] - 1) as usize),
                        a2,
                        i + 1,
                    );
                } else {
                    lemma_fill_all_long(keys, texts, counts, a2, i + 1);
                }
            }
        } else {
            lemma_fill_all_long(keys, texts, counts, a, i + 1);
        }
    }
}

proof fn lemma_sort_in_order(a: Seq<EntryView>, keys: Set<usize>, i: int)
    requires
        0 <= i,
        forall|q: int| 0 < q < a.len() ==> crate::text::text_lt(#[trigger] a[q - 1].0, a[q].0),
    ensures
        crate::sort::sort_from(a, i, keys) == Some(a),
    decreases a.len() - i,
{
    if i < a.len() {
        if i > 0 {
            assert(crate::text::text_lt(a[i - 1].0, a[i].0));
        }
        if i + 1 < a.len() {
            assert(crate::text::text_lt(a[(i + 1) - 1].0, a[i + 1].0));
        }
        assert(crate::sort::key_in_order(a, i));
        lemma_sort_in_order(a, keys, i + 1);
    }
}

/// In `c`, the nearest non-empty keys before and after `i` have the numbers
/// `l` and `r`.
pub open spec fn neighbour_numbers(c: Seq<EntryView>, i: int, l: usize, r: usize) -> bool {
    &&& crate::unique::left_key_index(c, i) matches Some(a) && key_number(c[a].0) == Some(l)
    &&& crate::unique::right_key_index(c, i + 1) matches Some(b) && key_number(c[b].0) == Some(r)
}

/// `m` is the number of one of the old keys or of one of the used keys.
pub open spec fn old_or_used_number(old: Seq<EntryView>, used: Seq<Seq<char>>, m: usize) -> bool {
    ||| exists|j: int| 0 <= j < old.len() && #[trigger] key_number(old[j].0) == Some(m)
    ||| exists|j: int| 0 <= j < used.len() && #[trigger] key_number(used[j]) == Some(m)
}

proof fn lemma_new_key_at(
    old: Seq<EntryView>,
    used: Seq<Seq<char>>,
    paras: Seq<Seq<char>>,
    c: Seq<EntryView>,
    i: int,
    keys: Set<usize>,
    k: Seq<char>,
    l: usize,
    rn: usize,
)
    requires
        keys == known_keys(old, used),
        0 <= i < paras.len(),
        i < c.len(),
        c[i] == crate::fill::blank_entry(),
        crate::unique::unique_key_spec(c, i, keys) is Some,
        k == crate::fill::fill_step(c, i, paras, keys).0,
        neighbour_numbers(c, i, l, rn),
        l < rn,
        exists|m: usize| l < m < rn && !#[trigger] old_or_used_number(old, used, m),
    ensures
        key_number(k) matches Some(n) && l < n < rn && !old_or_used_number(old, used, n) && (forall|
            m: usize,
        | l < m < n ==> #[trigger] old_or_used_number(old, used, m)),
{
    assert(k == crate::unique::unique_key_spec(c, i, keys)->0);
    let m0 = choose|m: usize| l < m < rn && !#[trigger] old_or_used_number(old, used, m);
    assert(!keys.contains(m0));
    crate::unique::law_key_between_least_free(c, i, keys, l, rn);
    let n = key_number(k)->0;
    assert(!keys.contains(n));
    assert forall|m: usize| l < m < n implies #[trigger] old_or_used_number(old, used, m) by {
        assert(keys.contains(m));
    }
}

#[verifier::spinoff_prover]
proof fn lemma_new_keys_between(
    old: Seq<EntryView>,
    used: Seq<Seq<char>>,
    paras: Seq<Seq<char>>,
    answer: Seq<EntryView>,
    f: Seq<EntryView>,
    keys: Set<usize>,
)
    requires
        keys == known_keys(old, used),
        answer.len() >= paras.len(),
        f.len() == answer.len(),
        forall|i: int|
            0 <= i < answer.len() ==> #[trigger] f[i] == crate::fill::fill_step(
                f.take(i) + answer.skip(i),
                i,
                paras,
                keys,
            ),
        forall|i: int|
            0 <= i < paras.len() && i < answer.len() && answer[i].1.len() == 0 && answer[i].0.len()
                == 0 ==> #[trigger] crate::unique::unique_key_spec(f.take(i) + answer.skip(i), i, keys)
                is Some,
    ensures
        forall|i: int, l: usize, rn: usize|
            0 <= i < paras.len() && answer[i] == crate::fill::blank_entry()
                && #[trigger] neighbour_numbers(f.take(i) + answer.skip(i), i, l, rn) && l < rn
                && (exists|m: usize| l < m < rn && !#[trigger] old_or_used_number(old, used, m))
                ==> (key_number(f[i].0) matches Some(n) && l < n < rn
                && !old_or_used_number(old, used, n)
                && (forall|m: usize| l < m < n ==> #[trigger] old_or_used_number(old, used, m))),
{
    assert forall|i: int, l: usize, rn: usize|
        0 <= i < paras.len() && answer[i] == crate::fill::blank_entry()
            && #[trigger] neighbour_numbers(f.take(i) + answer.skip(i), i, l, rn) && l < rn
            && (exists|m: usize| l < m < rn && !#[trigger] old_or_used_number(old, used, m))
            implies (key_number(f[i].0) matches Some(n) && l < n < rn
            && !old_or_used_number(old, used, n)
            && (forall|m: usize| l < m < n ==> #[trigger] old_or_used_number(old, used, m))) by {
        let c = f.take(i) + answer.skip(i);
        assert(c[i] == answer[i]);
        assert(answer[i].1.len() == 0 && answer[i].0.len() == 0);
        assert(f[i] == crate::fill::fill_step(c, i, paras, keys));
        lemma_new_key_at(old, used, paras, c, i, keys, f[i].0, l, rn);
    }
}

/// A new paragraph (one that took no old key) that the pipeline keys between
/// two neighbour keys with numbers `l < r`, where some number between them is
/// neither the number of an old key nor that of a used key, gets the least
/// number above `l` that is neither. The entries so keyed are then put
/// through the pass that replaces keys out of order, which returns them as
/// they are where their keys are already in order.
#[verifier::spinoff_prover]
pub proof fn law_pipeline_new_key_avoids_old_and_used_numbers(
    old: Seq<EntryView>,
    used: Seq<Seq<char>>,
    text: Seq<char>,
    sim: Seq<Seq<bool>>,
)
    ensures
        pipeline_spec(old, used, text, sim) matches Some((r, _unused)) ==> {
            let paras = paragraphs(text);
            let matched = fill_similar_spec(paras, sorted_unique(old), sim, text_counts(paras))->0;
            let answer = matched.0;
            let keys = known_keys(old, used);
            let f = (fill_all_from(keys, paras, matched.2, answer, 0)->0).0;
            &&& answer.len() >= paras.len()
            &&& f.len() == answer.len()
            &&& crate::sort::sort_spec(f, keys) == Some(r)
            &&& ((forall|q: int| 0 < q < f.len() ==> crate::text::text_lt(#[trigger] f[q - 1].0, f[q].0))
                ==> r == f)
            &&& forall|i: int, l: usize, rn: usize|
                0 <= i < paras.len() && answer[i] == crate::fill::blank_entry()
                    && #[trigger] neighbour_numbers(f.take(i) + answer.skip(i), i, l, rn) && l < rn
                    && (exists|m: usize| l < m < rn && !#[trigger] old_or_used_number(old, used, m))
                    ==> (key_number(f[i].0) matches Some(n) && l < n < rn
                    && !old_or_used_number(old, used, n)
                    && (forall|m: usize| l < m < n ==> #[trigger] old_or_used_number(old, used, m)))
        },
{
    if let Some((r, _unused)) = pipeline_spec(old, used, text, sim) {
        let paras = paragraphs(text);
        let matched = fill_similar_spec(paras, sorted_unique(old), sim, text_counts(paras))->0;
        let answer = matched.0;
        let keys = known_keys(old, used);
        let f = (fill_all_from(keys, paras, matched.2, answer, 0)->0).0;
        crate::fill::law_fill_all_entry_by_entry(keys, paras, matched.2, answer);
        lemma_fill_all_long(keys, paras, matched.2, answer, 0);
        if (forall|q: int| 0 < q < f.len() ==> crate::text::text_lt(#[trigger] f[q - 1].0, f[q].0)) {
            lemma_sort_in_order(f, keys, 0);
        }
        lemma_new_keys_between(old, used, paras, answer, f, keys);
    }
}

} // verus!
