use vstd::prelude::*;

use crate::entries::texts_view;

verus! {

/// The map that a list of (text, count) pairs stands for.
pub open spec fn pairs_map(s: Seq<(Seq<char>, usize)>) -> Map<Seq<char>, usize>
    decreases s.len(),
{
    if s.len() == 0 {
        Map::empty()
    } else {
        pairs_map(s.drop_last()).insert(s.last().0, s.last().1)
    }
}

/// No text occurs twice among the pairs.
pub open spec fn distinct_texts(s: Seq<(Seq<char>, usize)>) -> bool {
    forall|i: int, j: int| 0 <= i < s.len() && 0 <= j < s.len() && i != j ==> s[i].0 != s[j].0
}

/// How often each text occurs in `ts`.
pub open spec fn text_counts(ts: Seq<Seq<char>>) -> Map<Seq<char>, usize>
    decreases ts.len(),
{
    if ts.len() == 0 {
        Map::empty()
    } else {
        let m = text_counts(ts.drop_last());
        let t = ts.last();
        m.insert(
            t,
            if m.contains_key(t) {
                (m[t] + 1) as usize
            } else {
                1
            },
        )
    }
}

proof fn lemma_pairs_map_at(s: Seq<(Seq<char>, usize)>, j: int)
    requires
        distinct_texts(s),
        0 <= j < s.len(),
    ensures
        pairs_map(s).contains_key(s[j].0),
        pairs_map(s)[s[j].0] == s[j].1,
    decreases s.len(),
{
    if j < s.len() - 1 {
        lemma_pairs_map_at(s.drop_last(), j);
        assert(s[s.len() - 1].0 != s[j].0);
    }
}

proof fn lemma_pairs_map_absent(s: Seq<(Seq<char>, usize)>, t: Seq<char>)
    requires
        forall|j: int| 0 <= j < s.len() ==> s[j].0 != t,
    ensures
        !pairs_map(s).contains_key(t),
    decreases s.len(),
{
    if s.len() > 0 {
        lemma_pairs_map_absent(s.drop_last(), t);
    }
}

proof fn lemma_pairs_map_update(s: Seq<(Seq<char>, usize)>, j: int, v: usize)
    requires
        distinct_texts(s),
        0 <= j < s.len(),
    ensures
        pairs_map(s.update(j, (s[j].0, v))) == pairs_map(s).insert(s[j].0, v),
    decreases s.len(),
{
    let u = s.update(j, (s[j].0, v));
    if j == s.len() - 1 {
        assert(u.drop_last() =~= s.drop_last());
        lemma_pairs_map_absent(s.drop_last(), s[j].0);
        assert(pairs_map(s).insert(s[j].0, v) =~= pairs_map(s.drop_last()).insert(s[j].0, v));
    } else {
        assert(u.drop_last() =~= s.drop_last().update(j, (s[j].0, v)));
        lemma_pairs_map_update(s.drop_last(), j, v);
        assert(s.last().0 != s[j].0);
        assert(pairs_map(u) =~= pairs_map(s).insert(s[j].0, v));
    }
}

proof fn lemma_text_counts_bound(ts: Seq<Seq<char>>)
    requires
        ts.len() <= usize::MAX,
    ensures
        forall|t: Seq<char>| #[trigger]
            text_counts(ts).contains_key(t) ==> 1 <= text_counts(ts)[t] <= ts.len(),
    decreases ts.len(),
{
    if ts.len() > 0 {
        let m = text_counts(ts.drop_last());
        lemma_text_counts_bound(ts.drop_last());
        assert forall|t: Seq<char>| #[trigger]
            text_counts(ts).contains_key(t) implies 1 <= text_counts(ts)[t] <= ts.len() by {
            if t != ts.last() {
                assert(m.contains_key(t));
            }
        }
    }
}

/// How many times each text is still expected: a map from texts to counts.
///
/// vstd specifies `BTreeMap` only for key types whose order it knows, and it
/// knows none for `String`; so the map is a `Vec` of pairs in which no text
/// occurs twice.
pub struct TextCounts {
    items: Vec<(String, usize)>,
}

impl TextCounts {
    pub closed spec fn pairs(self) -> Seq<(Seq<char>, usize)> {
        self.items@.map_values(|p: (String, usize)| (p.0@, p.1))
    }

    #[verifier::type_invariant]
    closed spec fn texts_distinct(self) -> bool {
        distinct_texts(self.pairs())
    }
}

impl View for TextCounts {
    type V = Map<Seq<char>, usize>;

    closed spec fn view(&self) -> Map<Seq<char>, usize> {
        pairs_map(self.pairs())
    }
}

impl TextCounts {
    /// No texts.
    pub fn new() -> (res: TextCounts)
        ensures
            res@ == Map::<Seq<char>, usize>::empty(),
    {
        let res = TextCounts { items: Vec::new() };
        assert(res.pairs() =~= Seq::<(Seq<char>, usize)>::empty());
        res
    }

    fn find(&self, t: &str) -> (res: Option<usize>)
        ensures
            match res {
                Some(j) => j < self.pairs().len() && self.pairs()[j as int].0 == t@,
                None => forall|j: int| 0 <= j < self.pairs().len() ==> self.pairs()[j].0 != t@,
            },
    {
        let text = t.to_string();
        let mut j: usize = 0;
        while j < self.items.len()
            invariant
                j <= self.items.len(),
                text@ == t@,
                forall|k: int| 0 <= k < j ==> self.pairs()[k].0 != t@,
            decreases self.items.len() - j,
        {
            if self.items[j].0 == text {
                return Some(j);
            }
            j += 1;
        }
        None
    }

    /// The count of `t`, if it has one.
    pub fn get(&self, t: &str) -> (res: Option<usize>)
        ensures
            res == (if self@.contains_key(t@) {
                Some(self@[t@])
            } else {
                None::<usize>
            }),
    {
        proof {
            use_type_invariant(self);
        }
        match self.find(t) {
            Some(j) => {
                proof {
                    lemma_pairs_map_at(self.pairs(), j as int);
                }
                Some(self.items[j].1)
            },
            None => {
                proof {
                    lemma_pairs_map_absent(self.pairs(), t@);
                }
                None
            },
        }
    }

    /// Sets the count of `t` to `v`.
    pub fn set(&mut self, t: &str, v: usize)
        ensures
            final(self)@ == old(self)@.insert(t@, v),
    {
        proof {
            use_type_invariant(&*self);
        }
        let ghost p = self.pairs();
        match self.find(t) {
            Some(j) => {
                let text = self.items[j].0.clone();
                let mut items: Vec<(String, usize)> = Vec::new();
                std::mem::swap(&mut items, &mut self.items);
                proof {
                    lemma_pairs_map_update(p, j as int, v);
                }
                items.set(j, (text, v));
                assert(items@.map_values(|q: (String, usize)| (q.0@, q.1)) =~= p.update(
                    j as int,
                    (p[j as int].0, v),
                ));
                self.items = items;
            },
            None => {
                let mut items: Vec<(String, usize)> = Vec::new();
                std::mem::swap(&mut items, &mut self.items);
                items.push((t.to_string(), v));
                assert(items@.map_values(|q: (String, usize)| (q.0@, q.1)) =~= p.push((t@, v)));
                assert(p.push((t@, v)).drop_last() =~= p);
                self.items = items;
            },
        }
    }

    /// How often each text occurs in `texts`.
    pub fn from_texts(texts: &Vec<String>) -> (res: TextCounts)
        ensures
            res@ == text_counts(texts_view(texts@)),
    {
        let mut res = TextCounts::new();
        let mut i: usize = 0;
        while i < texts.len()
            invariant
                i <= texts.len(),
                res@ == text_counts(texts_view(texts@).take(i as int)),
            decreases texts.len() - i,
        {
            let ghost ts = texts_view(texts@).take(i + 1);
            assert(ts.drop_last() =~= texts_view(texts@).take(i as int));
            assert(ts.last() == texts@[i as int]@);
            proof {
                lemma_text_counts_bound(texts_view(texts@).take(i as int));
            }
            match res.get(texts[i].as_str()) {
                Some(c) => res.set(texts[i].as_str(), c + 1),
                None => res.set(texts[i].as_str(), 1),
            }
            i += 1;
        }
        assert(texts_view(texts@).take(texts.len() as int) =~= texts_view(texts@));
        res
    }
}

} // verus!

verus! {

/// How often `t` occurs in `ts`.
pub open spec fn occurrences(ts: Seq<Seq<char>>, t: Seq<char>) -> int
    decreases ts.len(),
{
    if ts.len() == 0 {
        0
    } else {
        occurrences(ts.drop_last(), t) + if ts.last() == t {
            1int
        } else {
            0int
        }
    }
}

/// The count of a text is the number of its occurrences; texts that do not
/// occur have no count.
pub proof fn lemma_text_counts_occurrences(ts: Seq<Seq<char>>)
    requires
        ts.len() <= usize::MAX,
    ensures
        forall|t: Seq<char>| #[trigger]
            text_counts(ts).contains_key(t) <==> occurrences(ts, t) > 0,
        forall|t: Seq<char>| #[trigger]
            text_counts(ts).contains_key(t) ==> text_counts(ts)[t] == occurrences(ts, t),
    decreases ts.len(),
{
    if ts.len() > 0 {
        let d = ts.drop_last();
        lemma_text_counts_occurrences(d);
        lemma_text_counts_bound(d);
        lemma_occurrences_nonneg(d);
        assert forall|t: Seq<char>| #[trigger]
            text_counts(ts).contains_key(t) <==> occurrences(ts, t) > 0 by {
            assert(occurrences(d, t) >= 0);
            assert(text_counts(d).contains_key(t) <==> occurrences(d, t) > 0);
        }
        assert forall|t: Seq<char>| #[trigger]
            text_counts(ts).contains_key(t) implies text_counts(ts)[t] == occurrences(ts, t) by {
            assert(occurrences(d, t) >= 0);
            assert(text_counts(d).contains_key(t) <==> occurrences(d, t) > 0);
            if text_counts(d).contains_key(t) {
                assert(text_counts(d)[t] == occurrences(d, t));
            }
        }
    } else {
        assert forall|t: Seq<char>| #[trigger]
            text_counts(ts).contains_key(t) <==> occurrences(ts, t) > 0 by {}
    }
}

pub proof fn lemma_occurrences_nonneg(ts: Seq<Seq<char>>)
    ensures
        forall|t: Seq<char>| #[trigger] occurrences(ts, t) >= 0,
    decreases ts.len(),
{
    if ts.len() > 0 {
        lemma_occurrences_nonneg(ts.drop_last());
        assert forall|t: Seq<char>| #[trigger] occurrences(ts, t) >= 0 by {
            assert(occurrences(ts.drop_last(), t) >= 0);
        }
    } else {
        assert forall|t: Seq<char>| #[trigger] occurrences(ts, t) >= 0 by {}
    }
}

/// Counting over one more text of a prefix adds that text's occurrence, and
/// no prefix holds more occurrences than the whole.
pub proof fn lemma_occurrences_prefix(ts: Seq<Seq<char>>, i: int, t: Seq<char>)
    requires
        0 <= i < ts.len(),
    ensures
        occurrences(ts.take(i + 1), t) == occurrences(ts.take(i), t) + if ts[i] == t {
            1int
        } else {
            0int
        },
        occurrences(ts.take(i + 1), t) <= occurrences(ts, t),
    decreases ts.len(),
{
    assert(ts.take(i + 1).drop_last() =~= ts.take(i));
    if i + 1 < ts.len() {
        lemma_occurrences_prefix(ts.drop_last(), i, t);
        assert(ts.drop_last().take(i + 1) =~= ts.take(i + 1));
        assert(ts.drop_last().take(i) =~= ts.take(i));
        lemma_occurrences_nonneg(ts.drop_last());
    } else {
        assert(ts.take(i + 1) =~= ts);
    }
}

} // verus!
