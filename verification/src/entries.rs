use vstd::prelude::*;

verus! {

/// A key and its text, as plain character sequences.
pub type EntryView = (Seq<char>, Seq<char>);

pub open spec fn entry_view(e: (String, String)) -> EntryView {
    (e.0@, e.1@)
}

/// The keys and texts of a list of entries.
pub open spec fn entries_view(v: Seq<(String, String)>) -> Seq<EntryView> {
    v.map_values(|e: (String, String)| entry_view(e))
}

/// The texts of a list of strings.
pub open spec fn texts_view(v: Seq<String>) -> Seq<Seq<char>> {
    v.map_values(|s: String| s@)
}

pub open spec fn opt_text(o: Option<String>) -> Option<Seq<char>> {
    match o {
        Some(s) => Some(s@),
        None => None,
    }
}

} // verus!

verus! {

/// Strict order on entries: by key, then by text (the order of `(String, String)`).
pub open spec fn entry_lt(a: EntryView, b: EntryView) -> bool {
    crate::text::text_lt(a.0, b.0) || (a.0 == b.0 && crate::text::text_lt(a.1, b.1))
}

/// `e` put into the ordered `s` before the first entry above it, unless `s`
/// already holds it.
pub open spec fn insert_sorted(s: Seq<EntryView>, e: EntryView) -> Seq<EntryView>
    decreases s.len(),
{
    if s.len() == 0 {
        seq![e]
    } else if entry_lt(e, s[0]) {
        seq![e] + s
    } else if e == s[0] {
        s
    } else {
        seq![s[0]] + insert_sorted(s.drop_first(), e)
    }
}

/// The entries of `s` in increasing order, each once (what collecting them
/// into a `BTreeSet` gives).
pub open spec fn sorted_unique(s: Seq<EntryView>) -> Seq<EntryView>
    decreases s.len(),
{
    if s.len() == 0 {
        Seq::empty()
    } else {
        insert_sorted(sorted_unique(s.drop_last()), s.last())
    }
}

/// An ordered set of entries (key, text), ordered by key, then by text.
///
/// vstd specifies `BTreeSet` only for element types whose order it knows,
/// and it knows none for `String`; so the set is a `Vec` kept strictly
/// sorted, which gives the same order and the same uniqueness.
pub struct EntrySet {
    items: Vec<(String, String)>,
}

impl EntrySet {
    /// The entries are in strictly increasing order, so none occurs twice.
    #[verifier::type_invariant]
    closed spec fn ordered(self) -> bool {
        strictly_sorted(entries_view(self.items@))
    }
}

impl View for EntrySet {
    type V = Seq<EntryView>;

    closed spec fn view(&self) -> Seq<EntryView> {
        entries_view(self.items@)
    }
}

fn entry_less(a: &(String, String), b: &(String, String)) -> (res: bool)
    ensures
        res == entry_lt(entry_view(*a), entry_view(*b)),
{
    crate::text::str_less(a.0.as_str(), b.0.as_str()) || (a.0 == b.0 && crate::text::str_less(
        a.1.as_str(),
        b.1.as_str(),
    ))
}

impl EntrySet {
    /// The entries of `v`, ordered, each once.
    pub fn from_entries(v: &Vec<(String, String)>) -> (res: EntrySet)
        ensures
            res@ == sorted_unique(entries_view(v@)),
    {
        let mut items: Vec<(String, String)> = Vec::new();
        let mut i: usize = 0;
        while i < v.len()
            invariant
                i <= v.len(),
                entries_view(items@) == sorted_unique(entries_view(v@).take(i as int)),
            decreases v.len() - i,
        {
            let ghost cur = entries_view(items@);
            let ghost e = entry_view(v@[i as int]);
            assert(entries_view(v@).take(i + 1).drop_last() =~= entries_view(v@).take(i as int));
            assert(sorted_unique(entries_view(v@).take(i + 1)) == insert_sorted(cur, e));
            let mut j: usize = 0;
            assert(cur.skip(0) =~= cur);
            while j < items.len() && !entry_less(&v[i], &items[j]) && !(v[i].0 == items[j].0
                && v[i].1 == items[j].1)
                invariant
                    j <= items.len(),
                    i < v.len(),
                    cur == entries_view(items@),
                    e == entry_view(v@[i as int]),
                    insert_sorted(cur, e) == cur.take(j as int) + insert_sorted(cur.skip(j as int), e),
                decreases items.len() - j,
            {
                assert(cur.skip(j as int)[0] == cur[j as int]);
                assert(cur.skip(j as int).drop_first() =~= cur.skip(j + 1));
                assert(cur.take(j + 1) =~= cur.take(j as int).push(cur[j as int]));
                j += 1;
            }
            if j < items.len() && v[i].0 == items[j].0 && v[i].1 == items[j].1 {
                assert(cur.skip(j as int)[0] == cur[j as int]);
                proof {
                    crate::text::lemma_text_lt_irreflexive(e.0);
                    crate::text::lemma_text_lt_irreflexive(e.1);
                }
                assert(cur.take(j as int) + cur.skip(j as int) =~= cur);
            } else {
                let item = (v[i].0.clone(), v[i].1.clone());
                items.insert(j, item);
                proof {
                    if j < cur.len() {
                        assert(cur.skip(j as int)[0] == cur[j as int]);
                    }
                }
                assert(entries_view(items@) =~= cur.take(j as int) + insert_sorted(
                    cur.skip(j as int),
                    e,
                ));
            }
            i += 1;
        }
        assert(entries_view(v@).take(v.len() as int) =~= entries_view(v@));
        proof {
            law_sorted_unique(entries_view(v@));
        }
        EntrySet { items }
    }

    /// The entries, in strictly increasing order.
    pub fn entries(&self) -> (res: &Vec<(String, String)>)
        ensures
            entries_view(res@) == self@,
            strictly_sorted(self@),
    {
        proof {
            use_type_invariant(self);
        }
        &self.items
    }

    /// The entries of `items` whose flag in `keep` is set, in order.
    pub(crate) fn retain_flagged(&mut self, keep: &Vec<bool>)
        requires
            keep.len() == old(self)@.len(),
        ensures
            final(self)@ == keep_flagged(old(self)@, keep@, 0),
    {
        proof {
            use_type_invariant(&*self);
        }
        let ghost s = self@;
        let mut out: Vec<(String, String)> = Vec::new();
        let mut j: usize = 0;
        assert(entries_view(out@) + keep_flagged(s, keep@, 0) =~= keep_flagged(s, keep@, 0));
        while j < self.items.len()
            invariant
                s == entries_view(self.items@),
                keep.len() == s.len(),
                j <= s.len(),
                entries_view(out@) + keep_flagged(s, keep@, j as int) == keep_flagged(
                    s,
                    keep@,
                    0,
                ),
            decreases s.len() - j,
        {
            if keep[j] {
                let item = (self.items[j].0.clone(), self.items[j].1.clone());
                let ghost before = entries_view(out@);
                out.push(item);
                assert(entries_view(out@) =~= before.push(s[j as int]));
                assert(before + keep_flagged(s, keep@, j as int) =~= entries_view(out@)
                    + keep_flagged(s, keep@, j + 1));
            }
            j += 1;
        }
        assert(entries_view(out@) =~= entries_view(out@) + keep_flagged(s, keep@, j as int));
        proof {
            lemma_keep_flagged_sorted(s, keep@, 0);
        }
        self.items = out;
    }
}

/// The entries of `s` from `j` on whose flag is set, in order.
pub open spec fn keep_flagged(s: Seq<EntryView>, keep: Seq<bool>, j: int) -> Seq<EntryView>
    decreases s.len() - j,
{
    if j < 0 || j >= s.len() {
        Seq::empty()
    } else if keep[j] {
        seq![s[j]] + keep_flagged(s, keep, j + 1)
    } else {
        keep_flagged(s, keep, j + 1)
    }
}

} // verus!

verus! {

/// Each entry is below every later one.
pub open spec fn strictly_sorted(s: Seq<EntryView>) -> bool {
    forall|i: int, j: int| 0 <= i < j < s.len() ==> entry_lt(#[trigger] s[i], #[trigger] s[j])
}

proof fn lemma_entry_lt_transitive(a: EntryView, b: EntryView, c: EntryView)
    requires
        entry_lt(a, b),
        entry_lt(b, c),
    ensures
        entry_lt(a, c),
{
    if crate::text::text_lt(a.0, b.0) && crate::text::text_lt(b.0, c.0) {
        crate::text::lemma_text_lt_transitive(a.0, b.0, c.0);
    } else if a.0 == b.0 && b.0 == c.0 {
        crate::text::lemma_text_lt_transitive(a.1, b.1, c.1);
    }
}

proof fn lemma_entry_lt_total(a: EntryView, b: EntryView)
    requires
        a != b,
    ensures
        entry_lt(a, b) || entry_lt(b, a),
{
    if a.0 != b.0 {
        crate::text::lemma_text_lt_total(a.0, b.0);
    } else {
        crate::text::lemma_text_lt_total(a.1, b.1);
    }
}

proof fn lemma_insert_sorted(s: Seq<EntryView>, e: EntryView)
    requires
        strictly_sorted(s),
    ensures
        strictly_sorted(insert_sorted(s, e)),
        forall|x: EntryView| #[trigger] insert_sorted(s, e).contains(x) <==> (s.contains(x) || x == e),
    decreases s.len(),
{
    let r = insert_sorted(s, e);
    if s.len() == 0 {
        assert forall|x: EntryView| #[trigger] r.contains(x) <==> (s.contains(x) || x == e) by {
            if x == e {
                assert(r[0] == e);
            }
        }
    } else if entry_lt(e, s[0]) {
        assert forall|i: int, j: int| 0 <= i < j < r.len() implies entry_lt(
            #[trigger] r[i],
            #[trigger] r[j],
        ) by {
            if i == 0 {
                if j > 1 {
                    lemma_entry_lt_transitive(e, s[0], s[j - 1]);
                }
            } else {
                assert(entry_lt(s[i - 1], s[j - 1]));
            }
        }
        assert forall|x: EntryView| #[trigger] r.contains(x) <==> (s.contains(x) || x == e) by {
            if s.contains(x) {
                let k = choose|k: int| 0 <= k < s.len() && s[k] == x;
                assert(r[k + 1] == x);
            }
            if x == e {
                assert(r[0] == e);
            }
        }
    } else if e == s[0] {
        assert(s.contains(s[0]));
    } else {
        let rest = insert_sorted(s.drop_first(), e);
        lemma_insert_sorted(s.drop_first(), e);
        lemma_entry_lt_total(e, s[0]);
        assert(r == seq![s[0]] + rest);
        assert forall|x: EntryView| #[trigger] r.contains(x) <==> (s.contains(x) || x == e) by {
            if r.contains(x) {
                let k = choose|k: int| 0 <= k < r.len() && r[k] == x;
                if k > 0 {
                    assert(rest[k - 1] == x);
                    assert(rest.contains(x));
                    if s.drop_first().contains(x) {
                        let q = choose|q: int| 0 <= q < s.drop_first().len() && s.drop_first()[q] == x;
                        assert(s[q + 1] == x);
                    }
                }
            }
            if s.contains(x) {
                let k = choose|k: int| 0 <= k < s.len() && s[k] == x;
                if k > 0 {
                    assert(s.drop_first()[k - 1] == x);
                    assert(rest.contains(x));
                    let q = choose|q: int| 0 <= q < rest.len() && rest[q] == x;
                    assert(r[q + 1] == x);
                } else {
                    assert(r[0] == x);
                }
            }
            if x == e {
                assert(rest.contains(e));
                let q = choose|q: int| 0 <= q < rest.len() && rest[q] == e;
                assert(r[q + 1] == e);
            }
        }
        assert forall|i: int, j: int| 0 <= i < j < r.len() implies entry_lt(
            #[trigger] r[i],
            #[trigger] r[j],
        ) by {
            if i == 0 {
                assert(rest.contains(r[j]));
                if r[j] != e {
                    assert(s.drop_first().contains(r[j]));
                    let q = choose|q: int| 0 <= q < s.drop_first().len() && s.drop_first()[q] == r[j];
                    assert(s[q + 1] == r[j]);
                }
            } else {
                assert(r[i] == rest[i - 1] && r[j] == rest[j - 1]);
            }
        }
    }
}

/// Collecting entries into the ordered set keeps each entry that occurs and
/// adds none, and leaves them in strictly increasing order, so each once.
pub proof fn law_sorted_unique(s: Seq<EntryView>)
    ensures
        strictly_sorted(sorted_unique(s)),
        forall|x: EntryView| #[trigger] sorted_unique(s).contains(x) <==> s.contains(x),
    decreases s.len(),
{
    if s.len() > 0 {
        law_sorted_unique(s.drop_last());
        lemma_insert_sorted(sorted_unique(s.drop_last()), s.last());
        assert forall|x: EntryView| #[trigger] sorted_unique(s).contains(x) <==> s.contains(x) by {
            if s.drop_last().contains(x) {
                let k = choose|k: int| 0 <= k < s.drop_last().len() && s.drop_last()[k] == x;
                assert(s[k] == x);
            }
            if s.contains(x) {
                let k = choose|k: int| 0 <= k < s.len() && s[k] == x;
                if k < s.len() - 1 {
                    assert(s.drop_last()[k] == x);
                }
            }
        }
    }
}

} // verus!

verus! {

/// The flagged entries are entries of the list.
pub proof fn lemma_keep_flagged_subset(s: Seq<EntryView>, keep: Seq<bool>, j: int)
    ensures
        forall|x: EntryView| #[trigger] keep_flagged(s, keep, j).contains(x) ==> s.contains(x),
    decreases s.len() - j,
{
    if 0 <= j < s.len() {
        lemma_keep_flagged_subset(s, keep, j + 1);
        let rest = keep_flagged(s, keep, j + 1);
        if keep[j] {
            assert forall|x: EntryView| #[trigger] keep_flagged(s, keep, j).contains(x) implies s.contains(
                x,
            ) by {
                let r = keep_flagged(s, keep, j);
                let k = choose|k: int| 0 <= k < r.len() && r[k] == x;
                if k > 0 {
                    assert(rest[k - 1] == x);
                    assert(rest.contains(x));
                } else {
                    assert(s[j] == x);
                }
            }
        }
    }
}

} // verus!

verus! {

proof fn lemma_keep_flagged_sorted(s: Seq<EntryView>, keep: Seq<bool>, j: int)
    requires
        strictly_sorted(s),
        0 <= j,
    ensures
        strictly_sorted(keep_flagged(s, keep, j)),
        forall|q: int|
            0 <= q < keep_flagged(s, keep, j).len() ==> exists|k: int|
                j <= k < s.len() && #[trigger] keep_flagged(s, keep, j)[q] == s[k],
    decreases s.len() - j,
{
    if j < s.len() {
        lemma_keep_flagged_sorted(s, keep, j + 1);
        let rest = keep_flagged(s, keep, j + 1);
        if keep[j] {
            let r = keep_flagged(s, keep, j);
            assert(r == seq![s[j]] + rest);
            assert forall|q: int| 0 <= q < r.len() implies exists|k: int|
                j <= k < s.len() && #[trigger] r[q] == s[k] by {
                if q > 0 {
                    assert(r[q] == rest[q - 1]);
                    let k = choose|k: int| j + 1 <= k < s.len() && rest[q - 1] == s[k];
                } else {
                    assert(r[0] == s[j]);
                }
            }
            assert forall|a: int, b: int| 0 <= a < b < r.len() implies entry_lt(
                #[trigger] r[a],
                #[trigger] r[b],
            ) by {
                assert(r[b] == rest[b - 1]);
                let kb = choose|k: int| j + 1 <= k < s.len() && rest[b - 1] == s[k];
                if a == 0 {
                    assert(entry_lt(s[j], s[kb]));
                } else {
                    assert(r[a] == rest[a - 1]);
                }
            }
        }
    }
}

} // verus!

verus! {

/// The order on entries is asymmetric, hence irreflexive.
pub proof fn lemma_entry_lt_asymmetric(a: EntryView, b: EntryView)
    requires
        entry_lt(a, b),
    ensures
        !entry_lt(b, a),
        a != b,
{
    crate::text::lemma_text_lt_irreflexive(a.0);
    crate::text::lemma_text_lt_irreflexive(a.1);
    if crate::text::text_lt(a.0, b.0) {
        crate::text::lemma_text_lt_asymmetric(a.0, b.0);
    } else {
        crate::text::lemma_text_lt_asymmetric(a.1, b.1);
    }
}

proof fn lemma_sorted_tail(s: Seq<EntryView>)
    requires
        strictly_sorted(s),
        s.len() > 0,
    ensures
        strictly_sorted(s.drop_first()),
        forall|x: EntryView| #[trigger]
            s.drop_first().contains(x) <==> (s.contains(x) && x != s[0]),
{
    let d = s.drop_first();
    assert forall|i: int, j: int| 0 <= i < j < d.len() implies entry_lt(#[trigger] d[i], #[trigger] d[j]) by {
        assert(d[i] == s[i + 1] && d[j] == s[j + 1]);
    }
    assert forall|x: EntryView| #[trigger] d.contains(x) <==> (s.contains(x) && x != s[0]) by {
        if d.contains(x) {
            let k = choose|k: int| 0 <= k < d.len() && d[k] == x;
            assert(s[k + 1] == x);
            assert(entry_lt(s[0], s[k + 1]));
            lemma_entry_lt_asymmetric(s[0], s[k + 1]);
        }
        if s.contains(x) && x != s[0] {
            let k = choose|k: int| 0 <= k < s.len() && s[k] == x;
            assert(d[k - 1] == x);
        }
    }
}

/// Two strictly increasing lists with the same entries are the same list.
pub proof fn lemma_sorted_same_entries(s: Seq<EntryView>, t: Seq<EntryView>)
    requires
        strictly_sorted(s),
        strictly_sorted(t),
        forall|x: EntryView| #[trigger] s.contains(x) <==> t.contains(x),
    ensures
        s == t,
    decreases s.len(),
{
    if s.len() == 0 {
        if t.len() > 0 {
            assert(t.contains(t[0]));
            assert(s.contains(t[0]));
            assert(false);
        }
        assert(s =~= t);
    } else if t.len() == 0 {
        assert(s.contains(s[0]));
        assert(t.contains(s[0]));
        assert(false);
    } else {
        assert(s.contains(s[0]));
        assert(t.contains(t[0]));
        assert(t.contains(s[0]));
        assert(s.contains(t[0]));
        let k = choose|k: int| 0 <= k < t.len() && t[k] == s[0];
        let m = choose|m: int| 0 <= m < s.len() && s[m] == t[0];
        if k > 0 && m > 0 {
            assert(entry_lt(t[0], t[k]));
            assert(entry_lt(s[0], s[m]));
            lemma_entry_lt_asymmetric(s[0], t[0]);
        }
        assert(s[0] == t[0]);
        lemma_sorted_tail(s);
        lemma_sorted_tail(t);
        lemma_sorted_same_entries(s.drop_first(), t.drop_first());
        assert(s =~= seq![s[0]] + s.drop_first());
        assert(t =~= seq![t[0]] + t.drop_first());
    }
}

/// Entries that are already strictly increasing are their own ordered set.
pub proof fn law_sorted_unique_of_sorted(s: Seq<EntryView>)
    requires
        strictly_sorted(s),
    ensures
        sorted_unique(s) == s,
{
    law_sorted_unique(s);
    lemma_sorted_same_entries(sorted_unique(s), s);
}

/// Lists with the same entries, in any order and with any repeats, give the
/// same ordered set.
pub proof fn law_sorted_unique_depends_on_entries(s: Seq<EntryView>, t: Seq<EntryView>)
    requires
        forall|x: EntryView| #[trigger] s.contains(x) <==> t.contains(x),
    ensures
        sorted_unique(s) == sorted_unique(t),
{
    law_sorted_unique(s);
    law_sorted_unique(t);
    assert forall|x: EntryView| #[trigger] sorted_unique(s).contains(x) <==> sorted_unique(
        t,
    ).contains(x) by {
        assert(s.contains(x) <==> t.contains(x));
    }
    lemma_sorted_same_entries(sorted_unique(s), sorted_unique(t));
}

} // verus!

verus! {

/// How many flags from `j` on are set.
pub open spec fn count_kept(keep: Seq<bool>, j: int) -> int
    decreases keep.len() - j,
{
    if j < 0 || j >= keep.len() {
        0
    } else {
        (if keep[j] {
            1int
        } else {
            0int
        }) + count_kept(keep, j + 1)
    }
}

/// Clearing one set flag lowers the count by one.
pub proof fn lemma_count_kept_clear(p: Seq<bool>, j: int, k: int)
    requires
        0 <= k,
        0 <= j < p.len(),
    ensures
        count_kept(p.update(j, false), k) == count_kept(p, k) - (if k <= j && p[j] {
            1int
        } else {
            0int
        }),
    decreases p.len() - k,
{
    if k < p.len() {
        lemma_count_kept_clear(p, j, k + 1);
    }
}

/// All flags set count the whole length.
pub proof fn lemma_count_kept_all(n: nat, k: int)
    requires
        0 <= k <= n,
    ensures
        count_kept(Seq::new(n, |q: int| true), k) == n - k,
    decreases n - k,
{
    if k < n {
        lemma_count_kept_all(n, k + 1);
    }
}

/// `idx` lists strictly increasing places of `s`, from `j` on, that hold the
/// entries of `r` in order: `r` is a sub-list of `s[j..]`.
pub open spec fn places_of(s: Seq<EntryView>, r: Seq<EntryView>, idx: Seq<int>, j: int) -> bool {
    &&& idx.len() == r.len()
    &&& forall|q: int| 0 <= q < idx.len() ==> j <= #[trigger] idx[q] < s.len() && r[q] == s[idx[q]]
    &&& forall|q1: int, q2: int| 0 <= q1 < q2 < idx.len() ==> #[trigger] idx[q1] < #[trigger] idx[q2]
}

/// The flagged entries are as many as the set flags, and they are a sub-list
/// of the list from `j` on.
pub proof fn lemma_keep_flagged_places(s: Seq<EntryView>, keep: Seq<bool>, j: int)
    requires
        keep.len() == s.len(),
        0 <= j,
    ensures
        keep_flagged(s, keep, j).len() == count_kept(keep, j),
        exists|idx: Seq<int>| #[trigger] places_of(s, keep_flagged(s, keep, j), idx, j),
    decreases s.len() - j,
{
    if j >= s.len() {
        let idx = Seq::<int>::empty();
        assert(places_of(s, keep_flagged(s, keep, j), idx, j));
    } else {
        lemma_keep_flagged_places(s, keep, j + 1);
        let rest = keep_flagged(s, keep, j + 1);
        let idx0 = choose|idx: Seq<int>| #[trigger] places_of(s, rest, idx, j + 1);
        let r = keep_flagged(s, keep, j);
        if keep[j] {
            let idx = seq![j] + idx0;
            assert(r == seq![s[j]] + rest);
            assert forall|q: int| 0 <= q < idx.len() implies j <= #[trigger] idx[q] < s.len()
                && r[q] == s[idx[q]] by {
                if q > 0 {
                    assert(idx[q] == idx0[q - 1]);
                    assert(r[q] == rest[q - 1]);
                }
            }
            assert forall|q1: int, q2: int| 0 <= q1 < q2 < idx.len() implies #[trigger] idx[q1]
                < #[trigger] idx[q2] by {
                assert(idx[q2] == idx0[q2 - 1]);
                if q1 > 0 {
                    assert(idx[q1] == idx0[q1 - 1]);
                }
            }
            assert(places_of(s, r, idx, j));
        } else {
            assert(r == rest);
            assert(places_of(s, r, idx0, j));
        }
    }
}

} // verus!
