use vstd::prelude::*;

use std::collections::BTreeSet;

use crate::entries::{entries_view, entry_view, EntryView};
use crate::text::{str_less, text_lt};
use crate::unique::{try_get_unique_key, unique_key_spec};

verus! {

/// Whether the key at `i` lies strictly between the keys of its neighbours
/// (those that exist).
pub open spec fn key_in_order(a: Seq<EntryView>, i: int) -> bool {
    &&& (i > 0 ==> text_lt(a[i - 1].0, a[i].0))
    &&& (i + 1 < a.len() ==> text_lt(a[i].0, a[i + 1].0))
}

/// One pass over the entries from `i` on: each key that is not strictly
/// between its neighbours' keys is replaced by `unique_key_spec`, which sees
/// the keys already replaced. `None` where a replacement cannot be computed.
pub open spec fn sort_from(a: Seq<EntryView>, i: int, keys: Set<usize>) -> Option<Seq<EntryView>>
    decreases a.len() - i,
{
    if i < 0 || i >= a.len() {
        Some(a)
    } else if a.len() > 1 && !key_in_order(a, i) {
        match unique_key_spec(a, i, keys) {
            Some(k) => sort_from(a.update(i, (k, a[i].1)), i + 1, keys),
            None => None,
        }
    } else {
        sort_from(a, i + 1, keys)
    }
}

/// What `alphabetical_sort` makes of the entries.
pub open spec fn sort_spec(a: Seq<EntryView>, keys: Set<usize>) -> Option<Seq<EntryView>> {
    sort_from(a, 0, keys)
}

/// The pass of `alphabetical_sort` on every input: `true` with the entries
/// `sort_spec` gives, or `false` where `sort_spec` is `None` (the pass
/// stopped at an entry for which no key could be found; the entries before
/// it are rewritten). Either way the entries stay as many, each with its
/// text.
pub fn try_alphabetical_sort(array: &mut Vec<(String, String)>, old_keys: &BTreeSet<usize>) -> (ok: bool)
    ensures
        final(array).len() == old(array).len(),
        forall|i: int|
            0 <= i < old(array).len() ==> #[trigger] final(array)@[i].1@ == old(array)@[i].1@,
        ok == sort_spec(entries_view(old(array)@), old_keys@) is Some,
        ok ==> Some(entries_view(final(array)@)) == sort_spec(
            entries_view(old(array)@),
            old_keys@,
        ),
{
    let ghost goal = sort_spec(entries_view(array@), old_keys@);
    let n = array.len();
    let mut i: usize = 0;
    while i < n
        invariant
            n == array.len(),
            n == old(array).len(),
            forall|q: int| 0 <= q < n ==> #[trigger] array@[q].1@ == old(array)@[q].1@,
            i <= n,
            goal == sort_from(entries_view(array@), i as int, old_keys@),
            goal == sort_spec(entries_view(old(array)@), old_keys@),
        decreases n - i,
    {
        let ghost a = entries_view(array@);
        let in_order = (i == 0 || str_less(array[i - 1].0.as_str(), array[i].0.as_str())) && (i + 1
            >= n || str_less(array[i].0.as_str(), array[i + 1].0.as_str()));
        assert(in_order == key_in_order(a, i as int));
        if n > 1 && !in_order {
            match try_get_unique_key(array, i, old_keys) {
                Some(k) => {
                    let text = array[i].1.clone();
                    let ghost kv = k@;
                    array.set(i, (k, text));
                    assert(entries_view(array@) =~= a.update(i as int, (kv, a[i as int].1)));
                },
                None => {
                    return false;
                },
            }
        }
        i += 1;
    }
    true
}

/// One pass that gives each entry whose key is out of order with its
/// neighbours a new key from `get_unique_key`; the texts stay as they are.
pub fn alphabetical_sort(array: &mut Vec<(String, String)>, old_keys: &BTreeSet<usize>)
    requires
        sort_spec(entries_view(old(array)@), old_keys@) is Some,
    ensures
        Some(entries_view(final(array)@)) == sort_spec(entries_view(old(array)@), old_keys@),
        final(array).len() == old(array).len(),
        forall|i: int|
            0 <= i < old(array).len() ==> #[trigger] final(array)@[i].1@ == old(array)@[i].1@,
{
    let ok = try_alphabetical_sort(array, old_keys);
    proof {
        law_sort_keeps_texts(entries_view(old(array)@), old_keys@);
        assert forall|i: int| 0 <= i < old(array).len() implies #[trigger] array@[i].1@
            == old(array)@[i].1@ by {
            assert(entries_view(array@)[i].1 == entries_view(old(array)@)[i].1);
        }
    }
}

} // verus!

verus! {

proof fn lemma_sort_from(a: Seq<EntryView>, i: int, keys: Set<usize>)
    ensures
        sort_from(a, i, keys) matches Some(r) ==> {
            &&& r.len() == a.len()
            &&& forall|q: int|
                0 <= q < a.len() ==> #[trigger] r[q].1 == a[q].1 && (r[q].0 == a[q].0 || r[q].0.len()
                    > 0)
        },
    decreases a.len() - i,
{
    if 0 <= i < a.len() {
        if a.len() > 1 && !key_in_order(a, i) {
            if let Some(k) = unique_key_spec(a, i, keys) {
                crate::unique::law_unique_key_nonempty(a, i, keys);
                let a2 = a.update(i, (k, a[i].1));
                lemma_sort_from(a2, i + 1, keys);
            }
        } else {
            lemma_sort_from(a, i + 1, keys);
        }
    }
}

/// Sorting keeps every entry in its place with its text; a key is either
/// kept or replaced by a key that is not empty.
pub proof fn law_sort_keeps_texts(a: Seq<EntryView>, keys: Set<usize>)
    ensures
        sort_spec(a, keys) matches Some(r) ==> {
            &&& r.len() == a.len()
            &&& forall|q: int|
                0 <= q < a.len() ==> #[trigger] r[q].1 == a[q].1 && (r[q].0 == a[q].0 || r[q].0.len()
                    > 0)
        },
{
    lemma_sort_from(a, 0, keys);
}

} // verus!

verus! {

/// What the pass does at `i` to the entries `c` as they stand when it gets
/// there: a key out of order with its neighbours is replaced by
/// `unique_key_spec`, the text stays; otherwise the entry stays.
pub open spec fn sort_step(c: Seq<EntryView>, i: int, keys: Set<usize>) -> EntryView {
    if c.len() > 1 && !key_in_order(c, i) {
        (unique_key_spec(c, i, keys)->0, c[i].1)
    } else {
        c[i]
    }
}

#[verifier::rlimit(60)]
#[verifier::spinoff_prover]
proof fn lemma_sort_from_steps(s: Seq<EntryView>, i: int, keys: Set<usize>)
    requires
        0 <= i <= s.len(),
    ensures
        sort_from(s, i, keys) matches Some(r) ==> {
            &&& r.len() == s.len()
            &&& r.take(i) == s.take(i)
            &&& forall|q: int|
                i <= q < s.len() ==> #[trigger] r[q] == sort_step(r.take(q) + s.skip(q), q, keys)
        },
    decreases s.len() - i,
{
    if i < s.len() {
        if s.len() > 1 && !key_in_order(s, i) {
            if let Some(k) = unique_key_spec(s, i, keys) {
                let s2 = s.update(i, (k, s[i].1));
                lemma_sort_from_steps(s2, i + 1, keys);
                if let Some(r) = sort_from(s2, i + 1, keys) {
                    assert(r.take(i) =~= s.take(i)) by {
                        assert(r.take(i) =~= r.take(i + 1).take(i));
                        assert(s2.take(i + 1).take(i) =~= s.take(i));
                    }
                    assert forall|q: int| i <= q < s.len() implies #[trigger] r[q] == sort_step(
                        r.take(q) + s.skip(q),
                        q,
                        keys,
                    ) by {
                        if q == i {
                            assert(r.take(i) + s.skip(i) =~= s);
                            assert(r[i] == r.take(i + 1)[i]);
                        } else {
                            assert(s2.skip(q) =~= s.skip(q));
                        }
                    }
                }
            }
        } else {
            lemma_sort_from_steps(s, i + 1, keys);
            if let Some(r) = sort_from(s, i + 1, keys) {
                assert(r.take(i) =~= s.take(i)) by {
                    assert(r.take(i) =~= r.take(i + 1).take(i));
                    assert(s.take(i + 1).take(i) =~= s.take(i));
                }
                assert forall|q: int| i <= q < s.len() implies #[trigger] r[q] == sort_step(
                    r.take(q) + s.skip(q),
                    q,
                    keys,
                ) by {
                    if q == i {
                        assert(r.take(i) + s.skip(i) =~= s);
                        assert(r[i] == r.take(i + 1)[i]);
                    }
                }
            }
        }
    } else {
        assert(s.take(i) =~= s);
    }
}

/// The pass entry by entry: the entry at `i` becomes `sort_step` of the
/// entries as they stand then, those before `i` already rewritten, those
/// from `i` on as they were.
pub proof fn law_sort_entry_by_entry(a: Seq<EntryView>, keys: Set<usize>)
    ensures
        sort_spec(a, keys) matches Some(r) ==> {
            &&& r.len() == a.len()
            &&& forall|i: int|
                0 <= i < a.len() ==> #[trigger] r[i] == sort_step(r.take(i) + a.skip(i), i, keys)
        },
{
    lemma_sort_from_steps(a, 0, keys);
}

} // verus!
