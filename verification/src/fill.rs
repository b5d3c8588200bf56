use vstd::prelude::*;

use std::collections::BTreeSet;

use crate::counts::TextCounts;
use crate::entries::{entries_view, keep_flagged, texts_view, EntrySet, EntryView};
use crate::unique::{try_get_unique_key, unique_key_spec};

verus! {

/// A table of similarity answers, row by row.
pub open spec fn table_view(t: Seq<Vec<bool>>) -> Seq<Seq<bool>> {
    t.map_values(|r: Vec<bool>| r@)
}

/// The first old entry from `j` on that is still present and similar
/// (by `row`) to the text at hand.
pub open spec fn first_similar(present: Seq<bool>, row: Seq<bool>, j: int) -> Option<int>
    decreases present.len() - j,
{
    if j < 0 || j >= present.len() {
        None
    } else if present[j] && row[j] {
        Some(j)
    } else {
        first_similar(present, row, j + 1)
    }
}

/// The state after matching texts with old entries: the answer so far, which
/// old entries are still present, and the counts.
pub type MatchState = (Seq<EntryView>, Seq<bool>, Map<Seq<char>, usize>);

/// Matching from text `i` on. A text takes over the key of the first present
/// old entry similar to it (`sim[i][j]`), which leaves the set, when its
/// count is above zero; its count then goes down by one. `None` where a text
/// that has a similar entry has no count.
pub open spec fn fill_similar_from(
    texts: Seq<Seq<char>>,
    old: Seq<EntryView>,
    sim: Seq<Seq<bool>>,
    i: int,
    st: MatchState,
) -> Option<MatchState>
    decreases texts.len() - i,
{
    if i < 0 || i >= texts.len() {
        Some(st)
    } else {
        let (answer, present, counts) = st;
        match first_similar(present, sim[i], 0) {
            None => fill_similar_from(texts, old, sim, i + 1, st),
            Some(j) => {
                let t = texts[i];
                if !counts.contains_key(t) {
                    None
                } else if counts[t] > 0 {
                    fill_similar_from(
                        texts,
                        old,
                        sim,
                        i + 1,
                        (
                            answer.update(i, (old[j].0, t)),
                            present.update(j, false),
                            counts.insert(t, (counts[t] - 1) as usize),
                        ),
                    )
                } else {
                    fill_similar_from(texts, old, sim, i + 1, st)
                }
            },
        }
    }
}

/// An empty key with an empty text.
pub open spec fn blank_entry() -> EntryView {
    (Seq::empty(), Seq::empty())
}

/// What `fill_similar_strings` does: every text starts with a blank entry,
/// every old entry is present.
pub open spec fn fill_similar_spec(
    texts: Seq<Seq<char>>,
    old: Seq<EntryView>,
    sim: Seq<Seq<bool>>,
    counts: Map<Seq<char>, usize>,
) -> Option<MatchState> {
    fill_similar_from(
        texts,
        old,
        sim,
        0,
        (Seq::new(texts.len(), |i: int| blank_entry()), Seq::new(old.len(), |j: int| true), counts),
    )
}

/// The shape of a similarity table: a row for each text, a column for each
/// old entry.
pub open spec fn table_fits(sim: Seq<Seq<bool>>, rows: int, cols: int) -> bool {
    &&& sim.len() == rows
    &&& forall|i: int| 0 <= i < rows ==> #[trigger] sim[i].len() == cols
}

fn first_similar_exec(present: &Vec<bool>, row: &Vec<bool>) -> (res: Option<usize>)
    requires
        row.len() == present.len(),
    ensures
        match res {
            Some(j) => j < present.len() && first_similar(present@, row@, 0) == Some(j as int),
            None => first_similar(present@, row@, 0) is None,
        },
{
    let mut j: usize = 0;
    while j < present.len()
        invariant
            row.len() == present.len(),
            j <= present.len(),
            first_similar(present@, row@, 0) == first_similar(present@, row@, j as int),
        decreases present.len() - j,
    {
        if present[j] && row[j] {
            return Some(j);
        }
        j += 1;
    }
    None
}

/// `fill_similar_spec` computed; `None` where it is `None`.
pub(crate) fn fill_similar_checked(
    new_array: &Vec<String>,
    set: &mut EntrySet,
    counts: &mut TextCounts,
    similar: &Vec<Vec<bool>>,
) -> (res: Option<Vec<(String, String)>>)
    requires
        table_fits(table_view(similar@), new_array.len() as int, old(set)@.len() as int),
    ensures
        match fill_similar_spec(
            texts_view(new_array@),
            old(set)@,
            table_view(similar@),
            old(counts)@,
        ) {
            Some((answer, present, left)) => res matches Some(a) && entries_view(a@) == answer
                && final(set)@ == keep_flagged(old(set)@, present, 0) && final(counts)@ == left,
            None => res is None,
        },
{
    let ghost texts = texts_view(new_array@);
    let ghost sim = table_view(similar@);
    let ghost old_items = set@;
    let ghost goal = fill_similar_spec(texts, old_items, sim, counts@);
    let n = new_array.len();
    let m = set.entries().len();
    let mut answer: Vec<(String, String)> = Vec::new();
    let mut k: usize = 0;
    while k < n
        invariant
            k <= n,
            entries_view(answer@) == Seq::new(k as nat, |q: int| blank_entry()),
        decreases n - k,
    {
        let ghost before = entries_view(answer@);
        let key = String::new();
        let text = String::new();
        answer.push((key, text));
        assert(entries_view(answer@) =~= before.push(blank_entry()));
        k += 1;
        assert(entries_view(answer@) =~= Seq::new(k as nat, |q: int| blank_entry()));
    }
    let mut present: Vec<bool> = Vec::new();
    k = 0;
    while k < m
        invariant
            k <= m,
            present.len() == k,
            forall|q: int| 0 <= q < k ==> present@[q],
        decreases m - k,
    {
        present.push(true);
        k += 1;
    }
    assert(entries_view(answer@) =~= Seq::new(texts.len(), |i: int| blank_entry()));
    assert(present@ =~= Seq::new(old_items.len(), |j: int| true));
    let mut i: usize = 0;
    while i < n
        invariant
            n == new_array.len(),
            m == old_items.len(),
            texts == texts_view(new_array@),
            sim == table_view(similar@),
            old_items == set@,
            table_fits(sim, n as int, m as int),
            i <= n,
            answer.len() == n,
            present.len() == m,
            goal == fill_similar_spec(texts, old_items, sim, old(counts)@),
            old_items == old(set)@,
            goal == fill_similar_from(
                texts,
                old_items,
                sim,
                i as int,
                (entries_view(answer@), present@, counts@),
            ),
        decreases n - i,
    {
        assert(sim[i as int] == similar@[i as int]@);
        match first_similar_exec(&present, &similar[i]) {
            None => {},
            Some(j) => {
                let text = new_array[i].as_str();
                match counts.get(text) {
                    None => {
                        return None;
                    },
                    Some(c) => {
                        if c > 0 {
                            let key = set.entries()[j].0.clone();
                            let ghost before = entries_view(answer@);
                            answer.set(i, (key, new_array[i].clone()));
                            assert(entries_view(answer@) =~= before.update(
                                i as int,
                                (old_items[j as int].0, texts[i as int]),
                            ));
                            present.set(j, false);
                            counts.set(text, c - 1);
                        }
                    },
                }
            },
        }
        i += 1;
    }
    set.retain_flagged(&present);
    Some(answer)
}

/// Gives each text the key of the first old entry similar to it
/// (`similar[i][j]` says whether old entry `j` is similar to text `i`), where
/// that text is still expected (its count is above zero): the entry leaves
/// the set and the count goes down by one. The answer has one entry per text,
/// blank where no key was found.
pub fn match_similar_strings(
    new_array: &Vec<String>,
    old_array_hashset: &mut EntrySet,
    new_string_hashset: &mut TextCounts,
    similar: &Vec<Vec<bool>>,
) -> (res: Vec<(String, String)>)
    requires
        table_fits(table_view(similar@), new_array.len() as int, old(old_array_hashset)@.len() as int),
        fill_similar_spec(
            texts_view(new_array@),
            old(old_array_hashset)@,
            table_view(similar@),
            old(new_string_hashset)@,
        ) is Some,
    ensures
        fill_similar_spec(
            texts_view(new_array@),
            old(old_array_hashset)@,
            table_view(similar@),
            old(new_string_hashset)@,
        ) matches Some((answer, present, left)) && entries_view(res@) == answer
            && final(old_array_hashset)@ == keep_flagged(old(old_array_hashset)@, present, 0)
            && final(new_string_hashset)@ == left,
{
    match fill_similar_checked(new_array, old_array_hashset, new_string_hashset, similar) {
        Some(a) => a,
        None => {
            assert(false);
            Vec::new()
        },
    }
}

/// Matches the texts with the old entries as `match_similar_strings` does,
/// and answers with the old entries that no text took: those left in the
/// set, in its order. Where every text found its entry, nothing is left.
pub fn fill_similar_strings(
    new_array: &Vec<String>,
    old_array_hashset: &mut EntrySet,
    new_string_hashset: &mut TextCounts,
    similar: &Vec<Vec<bool>>,
) -> (res: Vec<(String, String)>)
    requires
        table_fits(table_view(similar@), new_array.len() as int, old(old_array_hashset)@.len() as int),
        fill_similar_spec(
            texts_view(new_array@),
            old(old_array_hashset)@,
            table_view(similar@),
            old(new_string_hashset)@,
        ) is Some,
    ensures
        fill_similar_spec(
            texts_view(new_array@),
            old(old_array_hashset)@,
            table_view(similar@),
            old(new_string_hashset)@,
        ) matches Some((answer, present, left))
            && final(old_array_hashset)@ == keep_flagged(old(old_array_hashset)@, present, 0)
            && final(new_string_hashset)@ == left,
        entries_view(res@) == final(old_array_hashset)@,
{
    let _matched = match_similar_strings(new_array, old_array_hashset, new_string_hashset, similar);
    let left = old_array_hashset.entries();
    let mut res: Vec<(String, String)> = Vec::new();
    let mut k: usize = 0;
    while k < left.len()
        invariant
            k <= left.len(),
            entries_view(res@) == entries_view(left@).take(k as int),
        decreases left.len() - k,
    {
        let ghost before = entries_view(res@);
        let key = left[k].0.clone();
        let text = left[k].1.clone();
        res.push((key, text));
        assert(entries_view(res@) =~= before.push(entries_view(left@)[k as int]));
        assert(entries_view(res@) =~= entries_view(left@).take(k + 1));
        k += 1;
    }
    assert(entries_view(left@).take(left.len() as int) =~= entries_view(left@));
    res
}

/// Filling the blank entries from `i` on: each blank entry gets the key
/// `unique_key_spec` gives it (seeing the keys given before it) and its
/// text; the text's count, where it has one, goes down by one. `None` where
/// a key cannot be computed, the answer is too short, or a count would go
/// below zero.
pub open spec fn fill_all_from(
    keys: Set<usize>,
    texts: Seq<Seq<char>>,
    counts: Map<Seq<char>, usize>,
    a: Seq<EntryView>,
    i: int,
) -> Option<(Seq<EntryView>, Map<Seq<char>, usize>)>
    decreases texts.len() - i,
{
    if i < 0 || i >= texts.len() {
        Some((a, counts))
    } else if i >= a.len() {
        None
    } else if a[i].1.len() == 0 && a[i].0.len() == 0 {
        match unique_key_spec(a, i, keys) {
            None => None,
            Some(k) => {
                let a2 = a.update(i, (k, texts[i]));
                let t = texts[i];
                if counts.contains_key(t) {
                    if counts[t] == 0 {
                        None
                    } else {
                        fill_all_from(keys, texts, counts.insert(t, (counts[t] - 1) as usize), a2, i + 1)
                    }
                } else {
                    fill_all_from(keys, texts, counts, a2, i + 1)
                }
            },
        }
    } else {
        fill_all_from(keys, texts, counts, a, i + 1)
    }
}

/// `fill_all_from` from the start, computed: `false` where it is `None`.
pub(crate) fn fill_all_strings(
    old_keys: &BTreeSet<usize>,
    new_array: &Vec<String>,
    new_string_hashset: &mut TextCounts,
    old_answer: &mut Vec<(String, String)>,
) -> (ok: bool)
    ensures
        ok == fill_all_from(
            old_keys@,
            texts_view(new_array@),
            old(new_string_hashset)@,
            entries_view(old(old_answer)@),
            0,
        ) is Some,
        ok ==> fill_all_from(
            old_keys@,
            texts_view(new_array@),
            old(new_string_hashset)@,
            entries_view(old(old_answer)@),
            0,
        ) == Some((entries_view(final(old_answer)@), final(new_string_hashset)@)),
{
    let ghost texts = texts_view(new_array@);
    let ghost goal = fill_all_from(
        old_keys@,
        texts,
        new_string_hashset@,
        entries_view(old_answer@),
        0,
    );
    let n = new_array.len();
    let mut i: usize = 0;
    while i < n
        invariant
            n == new_array.len(),
            texts == texts_view(new_array@),
            i <= n,
            goal == fill_all_from(
                old_keys@,
                texts,
                old(new_string_hashset)@,
                entries_view(old(old_answer)@),
                0,
            ),
            goal == fill_all_from(
                old_keys@,
                texts,
                new_string_hashset@,
                entries_view(old_answer@),
                i as int,
            ),
        decreases n - i,
    {
        if i >= old_answer.len() {
            return false;
        }
        if old_answer[i].1.as_str().is_empty() && old_answer[i].0.as_str().is_empty() {
            let ghost a = entries_view(old_answer@);
            match try_get_unique_key(old_answer, i, old_keys) {
                None => {
                    return false;
                },
                Some(k) => {
                    let ghost kv = k@;
                    old_answer.set(i, (k, new_array[i].clone()));
                    assert(entries_view(old_answer@) =~= a.update(i as int, (kv, texts[i as int])));
                    let text = new_array[i].as_str();
                    match new_string_hashset.get(text) {
                        Some(c) => {
                            if c == 0 {
                                return false;
                            }
                            new_string_hashset.set(text, c - 1);
                        },
                        None => {},
                    }
                },
            }
        }
        i += 1;
    }
    true
}

} // verus!

verus! {

/// The entry at `q` is blank, or holds the text at `q` under a key that is
/// not empty.
pub open spec fn slot_ok(texts: Seq<Seq<char>>, a: Seq<EntryView>, q: int) -> bool {
    a[q] == blank_entry() || (a[q].1 == texts[q] && a[q].0.len() > 0)
}

proof fn lemma_first_similar(present: Seq<bool>, row: Seq<bool>, j: int)
    ensures
        first_similar(present, row, j) matches Some(k) ==> 0 <= k < present.len() && present[k]
            && row[k],
    decreases present.len() - j,
{
    if 0 <= j < present.len() && !(present[j] && row[j]) {
        lemma_first_similar(present, row, j + 1);
    }
}

proof fn lemma_fill_similar_from(
    texts: Seq<Seq<char>>,
    old: Seq<EntryView>,
    sim: Seq<Seq<bool>>,
    i: int,
    st: MatchState,
)
    requires
        st.0.len() == texts.len(),
        st.1.len() == old.len(),
        forall|q: int| 0 <= q < texts.len() ==> #[trigger] slot_ok(texts, st.0, q),
        forall|j: int| 0 <= j < old.len() ==> (#[trigger] old[j]).0.len() > 0,
    ensures
        fill_similar_from(texts, old, sim, i, st) matches Some(r) ==> {
            &&& r.0.len() == texts.len()
            &&& r.1.len() == old.len()
            &&& forall|q: int| 0 <= q < texts.len() ==> #[trigger] slot_ok(texts, r.0, q)
        },
    decreases texts.len() - i,
{
    if 0 <= i < texts.len() {
        let (answer, present, counts) = st;
        lemma_first_similar(present, sim[i], 0);
        match first_similar(present, sim[i], 0) {
            None => lemma_fill_similar_from(texts, old, sim, i + 1, st),
            Some(j) => {
                let t = texts[i];
                if counts.contains_key(t) {
                    if counts[t] > 0 {
                        let a2 = answer.update(i, (old[j].0, t));
                        assert(old[j].0.len() > 0);
                        assert forall|q: int| 0 <= q < texts.len() implies #[trigger] slot_ok(
                            texts,
                            a2,
                            q,
                        ) by {
                            if q != i {
                                assert(slot_ok(texts, answer, q));
                            }
                        }
                        lemma_fill_similar_from(
                            texts,
                            old,
                            sim,
                            i + 1,
                            (a2, present.update(j, false), counts.insert(t, (counts[t] - 1) as usize)),
                        );
                    } else {
                        lemma_fill_similar_from(texts, old, sim, i + 1, st);
                    }
                }
            },
        }
    }
}

/// After matching, each text's entry is blank or holds that text under a key
/// of an old entry (which is not empty where old keys are not).
pub proof fn law_fill_similar_shape(
    texts: Seq<Seq<char>>,
    old: Seq<EntryView>,
    sim: Seq<Seq<bool>>,
    counts: Map<Seq<char>, usize>,
)
    requires
        forall|j: int| 0 <= j < old.len() ==> (#[trigger] old[j]).0.len() > 0,
    ensures
        fill_similar_spec(texts, old, sim, counts) matches Some(r) ==> {
            &&& r.0.len() == texts.len()
            &&& r.1.len() == old.len()
            &&& forall|q: int| 0 <= q < texts.len() ==> #[trigger] slot_ok(texts, r.0, q)
        },
{
    let a0 = Seq::new(texts.len(), |i: int| blank_entry());
    assert forall|q: int| 0 <= q < texts.len() implies #[trigger] slot_ok(texts, a0, q) by {}
    lemma_fill_similar_from(texts, old, sim, 0, (a0, Seq::new(old.len(), |j: int| true), counts));
}

#[verifier::spinoff_prover]
proof fn lemma_fill_all_from(
    keys: Set<usize>,
    texts: Seq<Seq<char>>,
    counts: Map<Seq<char>, usize>,
    a: Seq<EntryView>,
    i: int,
)
    requires
        0 <= i <= texts.len(),
        a.len() == texts.len(),
        forall|q: int| 0 <= q < i ==> #[trigger] a[q].1 == texts[q] && a[q].0.len() > 0,
        forall|q: int| i <= q < texts.len() ==> #[trigger] slot_ok(texts, a, q),
    ensures
        fill_all_from(keys, texts, counts, a, i) matches Some((f, _)) ==> {
            &&& f.len() == texts.len()
            &&& forall|q: int|
                0 <= q < texts.len() ==> #[trigger] f[q].1 == texts[q] && f[q].0.len() > 0
        },
    decreases texts.len() - i,
{
    if i < texts.len() {
        assert(slot_ok(texts, a, i));
        if a[i].1.len() == 0 && a[i].0.len() == 0 {
            if let Some(k) = unique_key_spec(a, i, keys) {
                crate::unique::law_unique_key_nonempty(a, i, keys);
                let a2 = a.update(i, (k, texts[i]));
                assert forall|q: int| i + 1 <= q < texts.len() implies #[trigger] slot_ok(
                    texts,
                    a2,
                    q,
                ) by {
                    assert(slot_ok(texts, a, q));
                }
                let t = texts[i];
                if counts.contains_key(t) {
                    if counts[t] != 0 {
                        lemma_fill_all_from(
                            keys,
                            texts,
                            counts.insert(t, (counts[t] - 1) as usize),
                            a2,
                            i + 1,
                        );
                        assert(fill_all_from(keys, texts, counts, a, i) == fill_all_from(
                            keys,
                            texts,
                            counts.insert(t, (counts[t] - 1) as usize),
                            a2,
                            i + 1,
                        ));
                    }
                } else {
                    lemma_fill_all_from(keys, texts, counts, a2, i + 1);
                    assert(fill_all_from(keys, texts, counts, a, i) == fill_all_from(
                        keys,
                        texts,
                        counts,
                        a2,
                        i + 1,
                    ));
                }
            }
        } else {
            assert(a[i] != blank_entry());
            lemma_fill_all_from(keys, texts, counts, a, i + 1);
        }
    }
}

/// Filling after matching leaves every text at its place with a key that is
/// not empty.
pub proof fn law_fill_all_keys_every_text(
    keys: Set<usize>,
    texts: Seq<Seq<char>>,
    counts: Map<Seq<char>, usize>,
    a: Seq<EntryView>,
)
    requires
        a.len() == texts.len(),
        forall|q: int| 0 <= q < texts.len() ==> #[trigger] slot_ok(texts, a, q),
    ensures
        fill_all_from(keys, texts, counts, a, 0) matches Some((f, _)) ==> {
            &&& f.len() == texts.len()
            &&& forall|q: int|
                0 <= q < texts.len() ==> #[trigger] f[q].1 == texts[q] && f[q].0.len() > 0
        },
{
    lemma_fill_all_from(keys, texts, counts, a, 0);
}

} // verus!

verus! {

proof fn lemma_fill_similar_count(
    texts: Seq<Seq<char>>,
    old: Seq<EntryView>,
    sim: Seq<Seq<bool>>,
    i: int,
    st: MatchState,
)
    requires
        st.1.len() == old.len(),
        0 <= i <= texts.len(),
        crate::entries::count_kept(st.1, 0) + i >= old.len(),
    ensures
        fill_similar_from(texts, old, sim, i, st) matches Some(r) ==> {
            &&& r.1.len() == old.len()
            &&& crate::entries::count_kept(r.1, 0) + texts.len() >= old.len()
        },
    decreases texts.len() - i,
{
    if i < texts.len() {
        let (answer, present, counts) = st;
        lemma_first_similar(present, sim[i], 0);
        match first_similar(present, sim[i], 0) {
            None => lemma_fill_similar_count(texts, old, sim, i + 1, st),
            Some(j) => {
                let t = texts[i];
                if counts.contains_key(t) {
                    if counts[t] > 0 {
                        crate::entries::lemma_count_kept_clear(present, j, 0);
                        lemma_fill_similar_count(
                            texts,
                            old,
                            sim,
                            i + 1,
                            (
                                answer.update(i, (old[j].0, t)),
                                present.update(j, false),
                                counts.insert(t, (counts[t] - 1) as usize),
                            ),
                        );
                    } else {
                        lemma_fill_similar_count(texts, old, sim, i + 1, st);
                    }
                }
            },
        }
    }
}

/// Matching takes at most one old entry per text: the entries left over,
/// with the texts, are at least as many as the old entries.
pub proof fn law_fill_similar_takes_at_most_one_per_text(
    texts: Seq<Seq<char>>,
    old: Seq<EntryView>,
    sim: Seq<Seq<bool>>,
    counts: Map<Seq<char>, usize>,
)
    ensures
        fill_similar_spec(texts, old, sim, counts) matches Some(r) ==> {
            &&& r.1.len() == old.len()
            &&& crate::entries::count_kept(r.1, 0) + texts.len() >= old.len()
        },
{
    crate::entries::lemma_count_kept_all(old.len(), 0);
    lemma_fill_similar_count(
        texts,
        old,
        sim,
        0,
        (Seq::new(texts.len(), |i: int| blank_entry()), Seq::new(old.len(), |j: int| true), counts),
    );
}

} // verus!

verus! {

/// How many of the first `n` entries of `a` are filled (not blank) and hold
/// the text `t`.
pub open spec fn filled_count(a: Seq<EntryView>, t: Seq<char>, n: int) -> int
    decreases n,
{
    if n <= 0 {
        0
    } else {
        filled_count(a, t, n - 1) + if a[n - 1] != blank_entry() && a[n - 1].1 == t {
            1int
        } else {
            0int
        }
    }
}

/// The entry at `q` holds the text at `q` under the key of old entry `j`,
/// which the table marks as similar to that text.
pub open spec fn took_entry(
    texts: Seq<Seq<char>>,
    old: Seq<EntryView>,
    sim: Seq<Seq<bool>>,
    a: Seq<EntryView>,
    q: int,
    j: int,
) -> bool {
    &&& 0 <= j < old.len()
    &&& sim[q][j]
    &&& a[q] == (old[j].0, texts[q])
}

/// What holds of the matching state once the texts before `i` are done.
pub open spec fn match_inv(
    texts: Seq<Seq<char>>,
    old: Seq<EntryView>,
    sim: Seq<Seq<bool>>,
    counts0: Map<Seq<char>, usize>,
    i: int,
    st: MatchState,
) -> bool {
    let (a, present, counts) = st;
    &&& 0 <= i <= texts.len()
    &&& a.len() == texts.len()
    &&& present.len() == old.len()
    &&& forall|q: int| i <= q < texts.len() ==> #[trigger] a[q] == blank_entry()
    &&& forall|q: int|
        0 <= q < i && #[trigger] a[q] != blank_entry() ==> exists|j: int|
            !present[j] && #[trigger] took_entry(texts, old, sim, a, q, j)
    &&& forall|j: int|
        0 <= j < old.len() && !#[trigger] present[j] ==> exists|q: int|
            0 <= q < i && #[trigger] took_entry(texts, old, sim, a, q, j)
    &&& counts.dom() == counts0.dom()
    &&& forall|t: Seq<char>|
        counts0.contains_key(t) ==> counts0[t] == counts[t] + #[trigger] filled_count(a, t, i)
}

proof fn lemma_filled_count_frame(a: Seq<EntryView>, b: Seq<EntryView>, t: Seq<char>, n: int)
    requires
        forall|q: int| 0 <= q < n ==> a[q] == b[q],
    ensures
        filled_count(a, t, n) == filled_count(b, t, n),
    decreases n,
{
    if n > 0 {
        lemma_filled_count_frame(a, b, t, n - 1);
    }
}

/// Text `i` finds no entry (or has no count left): the state stays, and what
/// holds of it holds one text further.
proof fn lemma_match_skip(
    texts: Seq<Seq<char>>,
    old: Seq<EntryView>,
    sim: Seq<Seq<bool>>,
    counts0: Map<Seq<char>, usize>,
    i: int,
    st: MatchState,
)
    requires
        match_inv(texts, old, sim, counts0, i, st),
        i < texts.len(),
    ensures
        match_inv(texts, old, sim, counts0, i + 1, st),
{
    let (a, present, counts) = st;
    assert(a[i] == blank_entry());
    assert forall|t: Seq<char>| counts0.contains_key(t) implies counts0[t] == counts[t]
        + #[trigger] filled_count(a, t, i + 1) by {
        assert(filled_count(a, t, i + 1) == filled_count(a, t, i));
    }
    assert forall|j: int| 0 <= j < old.len() && !#[trigger] present[j] implies exists|q: int|
        0 <= q < i + 1 && #[trigger] took_entry(texts, old, sim, a, q, j) by {
        let q = choose|q: int| 0 <= q < i && #[trigger] took_entry(texts, old, sim, a, q, j);
        assert(took_entry(texts, old, sim, a, q, j));
    }
}

/// Text `i` takes old entry `j`: what holds of the state holds of the new
/// one, one text further.
proof fn lemma_match_take(
    texts: Seq<Seq<char>>,
    old: Seq<EntryView>,
    sim: Seq<Seq<bool>>,
    counts0: Map<Seq<char>, usize>,
    i: int,
    st: MatchState,
    j: int,
)
    requires
        match_inv(texts, old, sim, counts0, i, st),
        i < texts.len(),
        0 <= j < old.len(),
        st.1[j],
        sim[i][j],
        old[j].0.len() > 0,
        st.2.contains_key(texts[i]),
        st.2[texts[i]] > 0,
    ensures
        match_inv(
            texts,
            old,
            sim,
            counts0,
            i + 1,
            (
                st.0.update(i, (old[j].0, texts[i])),
                st.1.update(j, false),
                st.2.insert(texts[i], (st.2[texts[i]] - 1) as usize),
            ),
        ),
{
    let (a, present, counts) = st;
    let t = texts[i];
    let a2 = a.update(i, (old[j].0, t));
    let p2 = present.update(j, false);
    let c2 = counts.insert(t, (counts[t] - 1) as usize);
    assert(a2[i] != blank_entry()) by {
        assert(a2[i].0.len() > 0);
    }
    assert(took_entry(texts, old, sim, a2, i, j));
    assert forall|q: int| 0 <= q < i + 1 && #[trigger] a2[q] != blank_entry() implies exists|
        k: int,
    | !p2[k] && #[trigger] took_entry(texts, old, sim, a2, q, k) by {
        if q == i {
            assert(!p2[j] && took_entry(texts, old, sim, a2, q, j));
        } else {
            assert(a[q] == a2[q]);
            let k = choose|k: int| !present[k] && #[trigger] took_entry(texts, old, sim, a, q, k);
            assert(!p2[k] && took_entry(texts, old, sim, a2, q, k));
        }
    }
    assert forall|k: int| 0 <= k < old.len() && !#[trigger] p2[k] implies exists|q: int|
        0 <= q < i + 1 && #[trigger] took_entry(texts, old, sim, a2, q, k) by {
        if k == j {
            assert(took_entry(texts, old, sim, a2, i, j));
        } else {
            assert(!present[k]);
            let q = choose|q: int| 0 <= q < i && #[trigger] took_entry(texts, old, sim, a, q, k);
            assert(a2[q] == a[q]);
            assert(took_entry(texts, old, sim, a2, q, k));
        }
    }
    assert(c2.dom() =~= counts.dom());
    assert forall|u: Seq<char>| counts0.contains_key(u) implies counts0[u] == c2[u]
        + #[trigger] filled_count(a2, u, i + 1) by {
        lemma_filled_count_frame(a, a2, u, i);
        assert(filled_count(a, u, i) == filled_count(a2, u, i));
        assert(counts0[u] == counts[u] + filled_count(a, u, i));
        if u == t {
            assert(filled_count(a2, u, i + 1) == filled_count(a2, u, i) + 1);
        } else {
            assert(filled_count(a2, u, i + 1) == filled_count(a2, u, i));
        }
    }
    assert forall|q: int| i + 1 <= q < texts.len() implies #[trigger] a2[q] == blank_entry() by {
        assert(a[q] == blank_entry());
    }
    assert(c2.dom() == counts0.dom());
    assert(a2.len() == texts.len());
    assert(p2.len() == old.len());
}

proof fn lemma_match_inv(
    texts: Seq<Seq<char>>,
    old: Seq<EntryView>,
    sim: Seq<Seq<bool>>,
    counts0: Map<Seq<char>, usize>,
    i: int,
    st: MatchState,
)
    requires
        match_inv(texts, old, sim, counts0, i, st),
        forall|j: int| 0 <= j < old.len() ==> (#[trigger] old[j]).0.len() > 0,
    ensures
        fill_similar_from(texts, old, sim, i, st) matches Some(r) ==> match_inv(
            texts,
            old,
            sim,
            counts0,
            texts.len() as int,
            r,
        ),
    decreases texts.len() - i,
{
    if i < texts.len() {
        let (a, present, counts) = st;
        lemma_first_similar(present, sim[i], 0);
        match first_similar(present, sim[i], 0) {
            None => {
                lemma_match_skip(texts, old, sim, counts0, i, st);
                lemma_match_inv(texts, old, sim, counts0, i + 1, st);
            },
            Some(j) => {
                let t = texts[i];
                if counts.contains_key(t) {
                    if counts[t] > 0 {
                        assert(old[j].0.len() > 0);
                        lemma_match_take(texts, old, sim, counts0, i, st, j);
                        lemma_match_inv(
                            texts,
                            old,
                            sim,
                            counts0,
                            i + 1,
                            (
                                a.update(i, (old[j].0, t)),
                                present.update(j, false),
                                counts.insert(t, (counts[t] - 1) as usize),
                            ),
                        );
                    } else {
                        lemma_match_skip(texts, old, sim, counts0, i, st);
                        lemma_match_inv(texts, old, sim, counts0, i + 1, st);
                    }
                }
            },
        }
    }
}

proof fn lemma_filled_count_bound(a: Seq<EntryView>, texts: Seq<Seq<char>>, t: Seq<char>, n: int)
    requires
        0 <= n <= texts.len(),
        forall|q: int| 0 <= q < n && #[trigger] a[q] != blank_entry() ==> a[q].1 == texts[q],
    ensures
        filled_count(a, t, n) <= crate::counts::occurrences(texts.take(n), t),
    decreases n,
{
    if n > 0 {
        lemma_filled_count_bound(a, texts, t, n - 1);
        assert(texts.take(n).drop_last() =~= texts.take(n - 1));
        if a[n - 1] != blank_entry() {
            assert(a[n - 1].1 == texts[n - 1]);
        }
    }
}

/// After matching, where old keys are not empty: each entry of the answer is
/// blank or holds its own text under the key of an old entry that left the
/// set and that the table marks as similar to that text; every old entry
/// that left the set was taken so by some text; the same texts are counted,
/// and each count went down by the number of entries that hold its text,
/// which is at most the number of times the text occurs.
pub proof fn law_matching_takes_similar_entries(
    texts: Seq<Seq<char>>,
    old: Seq<EntryView>,
    sim: Seq<Seq<bool>>,
    counts: Map<Seq<char>, usize>,
)
    requires
        forall|j: int| 0 <= j < old.len() ==> (#[trigger] old[j]).0.len() > 0,
    ensures
        fill_similar_spec(texts, old, sim, counts) matches Some((a, present, left)) ==> {
            &&& a.len() == texts.len()
            &&& present.len() == old.len()
            &&& forall|q: int|
                0 <= q < texts.len() && #[trigger] a[q] != blank_entry() ==> exists|j: int|
                    !present[j] && #[trigger] took_entry(texts, old, sim, a, q, j)
            &&& forall|j: int|
                0 <= j < old.len() && !#[trigger] present[j] ==> exists|q: int|
                    0 <= q < texts.len() && #[trigger] took_entry(texts, old, sim, a, q, j)
            &&& left.dom() == counts.dom()
            &&& forall|t: Seq<char>|
                counts.contains_key(t) ==> counts[t] == left[t] + #[trigger] filled_count(
                    a,
                    t,
                    texts.len() as int,
                )
            &&& forall|t: Seq<char>|
                #[trigger] filled_count(a, t, texts.len() as int) <= crate::counts::occurrences(
                    texts,
                    t,
                )
        },
{
    let a0 = Seq::new(texts.len(), |i: int| blank_entry());
    let st0: MatchState = (a0, Seq::new(old.len(), |j: int| true), counts);
    assert forall|t: Seq<char>| counts.contains_key(t) implies counts[t] == counts[t]
        + #[trigger] filled_count(a0, t, 0) by {}
    assert(match_inv(texts, old, sim, counts, 0, st0));
    lemma_match_inv(texts, old, sim, counts, 0, st0);
    if let Some((a, present, left)) = fill_similar_spec(texts, old, sim, counts) {
        let n = texts.len() as int;
        assert forall|q: int| 0 <= q < n && #[trigger] a[q] != blank_entry() implies a[q].1
            == texts[q] by {
            let j = choose|j: int| !present[j] && #[trigger] took_entry(texts, old, sim, a, q, j);
            assert(took_entry(texts, old, sim, a, q, j));
        }
        assert(texts.take(n) =~= texts);
        assert forall|t: Seq<char>| #[trigger] filled_count(a, t, n) <= crate::counts::occurrences(
            texts,
            t,
        ) by {
            lemma_filled_count_bound(a, texts, t, n);
        }
    }
}

} // verus!

verus! {

/// What filling does at `i` to the entries `c` as they stand when it gets
/// there: a blank entry at the place of a text gets the key
/// `unique_key_spec` gives and that text; any other entry stays.
pub open spec fn fill_step(
    c: Seq<EntryView>,
    i: int,
    texts: Seq<Seq<char>>,
    keys: Set<usize>,
) -> EntryView {
    if i < texts.len() && c[i].1.len() == 0 && c[i].0.len() == 0 {
        (unique_key_spec(c, i, keys)->0, texts[i])
    } else {
        c[i]
    }
}

/// How many entries of `s` from `i` on, at the place of a text equal to
/// `t`, are blank.
pub open spec fn blanks_from(s: Seq<EntryView>, texts: Seq<Seq<char>>, t: Seq<char>, i: int) -> int
    decreases texts.len() - i,
{
    if i < 0 || i >= texts.len() {
        0
    } else {
        blanks_from(s, texts, t, i + 1) + if i < s.len() && s[i] == blank_entry() && texts[i]
            == t {
            1int
        } else {
            0int
        }
    }
}

proof fn lemma_blanks_from_frame(
    s: Seq<EntryView>,
    s2: Seq<EntryView>,
    texts: Seq<Seq<char>>,
    t: Seq<char>,
    i: int,
)
    requires
        0 <= i,
        s.len() == s2.len(),
        forall|q: int| i <= q < s.len() ==> s[q] == s2[q],
    ensures
        blanks_from(s, texts, t, i) == blanks_from(s2, texts, t, i),
    decreases texts.len() - i,
{
    if i < texts.len() {
        lemma_blanks_from_frame(s, s2, texts, t, i + 1);
    }
}

#[verifier::rlimit(60)]
#[verifier::spinoff_prover]
proof fn lemma_fill_all_steps(
    keys: Set<usize>,
    texts: Seq<Seq<char>>,
    counts: Map<Seq<char>, usize>,
    s: Seq<EntryView>,
    i: int,
)
    requires
        0 <= i <= s.len(),
    ensures
        fill_all_from(keys, texts, counts, s, i) matches Some((r, left)) ==> {
            &&& r.len() == s.len()
            &&& r.take(i) == s.take(i)
            &&& forall|q: int|
                i <= q < s.len() ==> #[trigger] r[q] == fill_step(r.take(q) + s.skip(q), q, texts, keys)
            &&& left.dom() == counts.dom()
            &&& forall|t: Seq<char>|
                counts.contains_key(t) ==> counts[t] == left[t] + #[trigger] blanks_from(
                    s,
                    texts,
                    t,
                    i,
                )
        },
    decreases texts.len() - i,
{
    if i >= texts.len() {
        assert(s.take(i) =~= s.take(i));
        assert forall|q: int| i <= q < s.len() implies #[trigger] s[q] == fill_step(
            s.take(q) + s.skip(q),
            q,
            texts,
            keys,
        ) by {
            assert(s.take(q) + s.skip(q) =~= s);
        }
    } else if i >= s.len() {
    } else if s[i].1.len() == 0 && s[i].0.len() == 0 {
        if let Some(k) = unique_key_spec(s, i, keys) {
            crate::unique::law_unique_key_nonempty(s, i, keys);
            let t = texts[i];
            let s2 = s.update(i, (k, t));
            let counts2 = if counts.contains_key(t) {
                counts.insert(t, (counts[t] - 1) as usize)
            } else {
                counts
            };
            if !counts.contains_key(t) || counts[t] != 0 {
                assert(fill_all_from(keys, texts, counts, s, i) == fill_all_from(
                    keys,
                    texts,
                    counts2,
                    s2,
                    i + 1,
                ));
                lemma_fill_all_steps(keys, texts, counts2, s2, i + 1);
                if let Some((r, left)) = fill_all_from(keys, texts, counts2, s2, i + 1) {
                    assert(r.take(i) =~= s.take(i)) by {
                        assert(r.take(i) =~= r.take(i + 1).take(i));
                        assert(s2.take(i + 1).take(i) =~= s.take(i));
                    }
                    assert forall|q: int| i <= q < s.len() implies #[trigger] r[q] == fill_step(
                        r.take(q) + s.skip(q),
                        q,
                        texts,
                        keys,
                    ) by {
                        if q == i {
                            assert(r.take(i) + s.skip(i) =~= s);
                            assert(r[i] == r.take(i + 1)[i]);
                        } else {
                            assert(s2.skip(q) =~= s.skip(q));
                        }
                    }
                    assert(s[i] == blank_entry());
                    assert forall|u: Seq<char>| counts.contains_key(u) implies counts[u] == left[u]
                        + #[trigger] blanks_from(s, texts, u, i) by {
                        lemma_blanks_from_frame(s, s2, texts, u, i + 1);
                        assert(counts2.contains_key(u));
                        if u == t {
                            assert(blanks_from(s, texts, u, i) == blanks_from(s, texts, u, i + 1)
                                + 1);
                        } else {
                            assert(blanks_from(s, texts, u, i) == blanks_from(s, texts, u, i + 1));
                        }
                    }
                    assert(left.dom() == counts2.dom());
                    assert(counts2.dom() =~= counts.dom());
                }
            }
        }
    } else {
        lemma_fill_all_steps(keys, texts, counts, s, i + 1);
        if let Some((r, left)) = fill_all_from(keys, texts, counts, s, i + 1) {
            assert(r.take(i) =~= s.take(i)) by {
                assert(r.take(i) =~= r.take(i + 1).take(i));
                assert(s.take(i + 1).take(i) =~= s.take(i));
            }
            assert forall|q: int| i <= q < s.len() implies #[trigger] r[q] == fill_step(
                r.take(q) + s.skip(q),
                q,
                texts,
                keys,
            ) by {
                if q == i {
                    assert(r.take(i) + s.skip(i) =~= s);
                    assert(r[i] == r.take(i + 1)[i]);
                }
            }
            assert(s[i] != blank_entry());
            assert forall|u: Seq<char>| counts.contains_key(u) implies counts[u] == left[u]
                + #[trigger] blanks_from(s, texts, u, i) by {
                assert(blanks_from(s, texts, u, i) == blanks_from(s, texts, u, i + 1));
            }
        }
    }
}

proof fn lemma_fill_found_step(
    keys: Set<usize>,
    texts: Seq<Seq<char>>,
    s: Seq<EntryView>,
    s2: Seq<EntryView>,
    r: Seq<EntryView>,
    i: int,
    k: Seq<char>,
)
    requires
        0 <= i < s.len(),
        i < texts.len(),
        s2 == s.update(i, (k, texts[i])),
        unique_key_spec(s, i, keys) == Some(k),
        r.len() == s.len(),
        r.take(i + 1) == s2.take(i + 1),
        forall|q: int|
            i + 1 <= q < texts.len() && q < s2.len() && s2[q].1.len() == 0 && s2[q].0.len() == 0
                ==> #[trigger] unique_key_spec(r.take(q) + s2.skip(q), q, keys) is Some,
    ensures
        forall|q: int|
            i <= q < texts.len() && q < s.len() && s[q].1.len() == 0 && s[q].0.len() == 0
                ==> #[trigger] unique_key_spec(r.take(q) + s.skip(q), q, keys) is Some,
{
    assert forall|q: int|
        i <= q < texts.len() && q < s.len() && s[q].1.len() == 0 && s[q].0.len() == 0 implies #[trigger] unique_key_spec(
        r.take(q) + s.skip(q),
        q,
        keys,
    ) is Some by {
        if q == i {
            assert(r.take(i) =~= r.take(i + 1).take(i));
            assert(s2.take(i + 1).take(i) =~= s.take(i));
            assert(r.take(i) + s.skip(i) =~= s);
        } else {
            assert(s2.skip(q) =~= s.skip(q));
            assert(s2[q] == s[q]);
        }
    }
}

#[verifier::rlimit(80)]
#[verifier::spinoff_prover]
proof fn lemma_fill_all_found(
    keys: Set<usize>,
    texts: Seq<Seq<char>>,
    counts: Map<Seq<char>, usize>,
    s: Seq<EntryView>,
    i: int,
)
    requires
        0 <= i <= s.len(),
    ensures
        fill_all_from(keys, texts, counts, s, i) matches Some((r, left)) ==> forall|q: int|
            i <= q < texts.len() && q < s.len() && s[q].1.len() == 0 && s[q].0.len() == 0
                ==> #[trigger] unique_key_spec(r.take(q) + s.skip(q), q, keys) is Some,
    decreases texts.len() - i,
{
    if i < texts.len() && i < s.len() {
        if s[i].1.len() == 0 && s[i].0.len() == 0 {
            if let Some(k) = unique_key_spec(s, i, keys) {
                let t = texts[i];
                let s2 = s.update(i, (k, t));
                let counts2 = if counts.contains_key(t) {
                    counts.insert(t, (counts[t] - 1) as usize)
                } else {
                    counts
                };
                if !counts.contains_key(t) || counts[t] != 0 {
                    assert(fill_all_from(keys, texts, counts, s, i) == fill_all_from(
                        keys,
                        texts,
                        counts2,
                        s2,
                        i + 1,
                    ));
                    lemma_fill_all_found(keys, texts, counts2, s2, i + 1);
                    lemma_fill_all_steps(keys, texts, counts2, s2, i + 1);
                    if let Some((r, left)) = fill_all_from(keys, texts, counts2, s2, i + 1) {
                        lemma_fill_found_step(keys, texts, s, s2, r, i, k);
                    }
                }
            }
        } else {
            lemma_fill_all_found(keys, texts, counts, s, i + 1);
        }
    }
}

/// Filling entry by entry: the entry at `i` becomes `fill_step` of the
/// entries as they stand then (those before `i` already filled, those from
/// `i` on as they were), so a blank entry gets the key search's answer on
/// the entries filled so far and every other entry stays. The same texts are
/// counted, and each count goes down by the number of blank entries at the
/// places of that text.
pub proof fn law_fill_all_entry_by_entry(
    keys: Set<usize>,
    texts: Seq<Seq<char>>,
    counts: Map<Seq<char>, usize>,
    a: Seq<EntryView>,
)
    ensures
        fill_all_from(keys, texts, counts, a, 0) matches Some((f, left)) ==> {
            &&& f.len() == a.len()
            &&& forall|i: int|
                0 <= i < a.len() ==> #[trigger] f[i] == fill_step(f.take(i) + a.skip(i), i, texts, keys)
            &&& forall|i: int|
                0 <= i < texts.len() && i < a.len() && a[i].1.len() == 0 && a[i].0.len() == 0
                    ==> #[trigger] unique_key_spec(f.take(i) + a.skip(i), i, keys) is Some
            &&& left.dom() == counts.dom()
            &&& forall|t: Seq<char>|
                counts.contains_key(t) ==> counts[t] == left[t] + #[trigger] blanks_from(
                    a,
                    texts,
                    t,
                    0,
                )
        },
{
    lemma_fill_all_steps(keys, texts, counts, a, 0);
    lemma_fill_all_found(keys, texts, counts, a, 0);
}

} // verus!
