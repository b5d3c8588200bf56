use vstd::prelude::*;

verus! {

/// Appends one character to a string (`String::push`).
#[verifier::external_body]
pub(crate) fn push_char(s: &mut String, c: char)
    ensures
        final(s)@ == old(s)@.push(c),
{
    s.push(c);
}

/// The characters of a string, in order.
pub(crate) fn chars_of(s: &str) -> (res: Vec<char>)
    ensures
        res@ == s@,
{
    let mut res: Vec<char> = Vec::new();
    for c in it: s.chars()
        invariant
            res@ == it.seq().take(it.index() as int),
            it.seq() == s@,
    {
        res.push(c);
    }
    res
}

/// The string made of the characters `cs[lo..hi]`.
pub(crate) fn string_of_range(cs: &Vec<char>, lo: usize, hi: usize) -> (res: String)
    requires
        lo <= hi <= cs.len(),
    ensures
        res@ == cs@.subrange(lo as int, hi as int),
{
    let mut res = String::new();
    let mut i: usize = lo;
    while i < hi
        invariant
            lo <= i <= hi <= cs.len(),
            res@ == cs@.subrange(lo as int, i as int),
        decreases hi - i,
    {
        push_char(&mut res, cs[i]);
        i += 1;
        assert(res@ =~= cs@.subrange(lo as int, i as int));
    }
    res
}

/// The string made of the given characters.
pub(crate) fn string_of(cs: &Vec<char>) -> (res: String)
    ensures
        res@ == cs@,
{
    let res = string_of_range(cs, 0, cs.len());
    assert(cs@.subrange(0, cs@.len() as int) =~= cs@);
    res
}

/// Strict lexicographic order on texts, character by character: the order of
/// `<` on Rust strings (UTF-8 byte order agrees with code point order).
pub open spec fn text_lt(a: Seq<char>, b: Seq<char>) -> bool
    decreases a.len(),
{
    if b.len() == 0 {
        false
    } else if a.len() == 0 {
        true
    } else if a[0] != b[0] {
        (a[0] as u32) < (b[0] as u32)
    } else {
        text_lt(a.drop_first(), b.drop_first())
    }
}

/// No text is below itself.
pub proof fn lemma_text_lt_irreflexive(a: Seq<char>)
    ensures
        !text_lt(a, a),
    decreases a.len(),
{
    if a.len() > 0 {
        lemma_text_lt_irreflexive(a.drop_first());
    }
}

proof fn lemma_text_lt_skip(a: Seq<char>, b: Seq<char>, i: int)
    requires
        0 <= i < a.len(),
        i < b.len(),
        a[i] == b[i],
    ensures
        text_lt(a.skip(i), b.skip(i)) == text_lt(a.skip(i + 1), b.skip(i + 1)),
{
    assert(a.skip(i).drop_first() =~= a.skip(i + 1));
    assert(b.skip(i).drop_first() =~= b.skip(i + 1));
}

/// `a < b` on texts.
pub(crate) fn text_less(a: &Vec<char>, b: &Vec<char>) -> (res: bool)
    ensures
        res == text_lt(a@, b@),
{
    let mut i: usize = 0;
    assert(a@.skip(0) =~= a@);
    assert(b@.skip(0) =~= b@);
    while i < a.len() && i < b.len() && a[i] == b[i]
        invariant
            i <= a.len(),
            i <= b.len(),
            text_lt(a@, b@) == text_lt(a@.skip(i as int), b@.skip(i as int)),
        decreases a.len() - i,
    {
        proof {
            lemma_text_lt_skip(a@, b@, i as int);
        }
        i += 1;
    }
    if i == b.len() {
        false
    } else if i == a.len() {
        true
    } else {
        assert(a@.skip(i as int)[0] == a@[i as int]);
        assert(b@.skip(i as int)[0] == b@[i as int]);
        (a[i] as u32) < (b[i] as u32)
    }
}

/// `a < b` on strings.
pub(crate) fn str_less(a: &str, b: &str) -> (res: bool)
    ensures
        res == text_lt(a@, b@),
{
    let ca = chars_of(a);
    let cb = chars_of(b);
    text_less(&ca, &cb)
}

/// Whether a blank line (two newlines) starts at `i`.
pub open spec fn blank_at(s: Seq<char>, i: int) -> bool {
    0 <= i && i + 1 < s.len() && s[i] == '\n' && s[i + 1] == '\n'
}

/// The pieces of `s[start..]` cut at each blank line, scanning from `i`
/// (no blank line starts in `s[start..i]`), leftmost first.
pub open spec fn split_from(s: Seq<char>, start: int, i: int) -> Seq<Seq<char>>
    decreases s.len() - i,
{
    if i + 1 >= s.len() {
        seq![s.subrange(start, s.len() as int)]
    } else if blank_at(s, i) {
        seq![s.subrange(start, i)] + split_from(s, i + 2, i + 2)
    } else {
        split_from(s, start, i + 1)
    }
}

/// The paragraphs of a text: the pieces between blank lines, as
/// `str::split("\n\n")` gives them.
pub open spec fn paragraphs(s: Seq<char>) -> Seq<Seq<char>> {
    split_from(s, 0, 0)
}

/// Texts joined with a blank line between each two.
pub open spec fn join_paragraphs(ps: Seq<Seq<char>>) -> Seq<char>
    decreases ps.len(),
{
    if ps.len() == 0 {
        Seq::empty()
    } else if ps.len() == 1 {
        ps[0]
    } else {
        ps[0] + seq!['\n', '\n'] + join_paragraphs(ps.drop_first())
    }
}

/// Whether a blank line occurs anywhere in `s`.
pub open spec fn has_blank(s: Seq<char>) -> bool {
    exists|k: int| #[trigger] blank_at(s, k)
}

/// Splits a text into its paragraphs.
pub fn string_to_array(s: &str) -> (res: Vec<String>)
    ensures
        res@.map_values(|p: String| p@) == paragraphs(s@),
{
    let cs = chars_of(s);
    let ghost t = cs@;
    let mut res: Vec<String> = Vec::new();
    let mut start: usize = 0;
    let mut i: usize = 0;
    while cs.len() - i > 1
        invariant
            t == cs@,
            start <= i,
            i <= cs.len(),
            res@.map_values(|p: String| p@) + split_from(t, start as int, i as int) == paragraphs(t),
        decreases cs.len() - i,
    {
        if cs[i] == '\n' && cs[i + 1] == '\n' {
            let piece = string_of_range(&cs, start, i);
            let ghost before = res@;
            res.push(piece);
            assert(res@.map_values(|p: String| p@) =~= before.map_values(|p: String| p@).push(
                piece@,
            ));
            i = i + 2;
            start = i;
        } else {
            i = i + 1;
        }
    }
    let last = string_of_range(&cs, start, cs.len());
    let ghost before = res@;
    res.push(last);
    assert(res@.map_values(|p: String| p@) =~= before.map_values(|p: String| p@).push(last@));
    res
}

} // verus!

verus! {

proof fn lemma_split_from(s: Seq<char>, start: int, i: int)
    requires
        0 <= start <= i <= s.len(),
        forall|k: int| start <= k < i ==> !blank_at(s, k),
    ensures
        split_from(s, start, i).len() >= 1,
        join_paragraphs(split_from(s, start, i)) == s.subrange(start, s.len() as int),
        forall|q: int|
            0 <= q < split_from(s, start, i).len() ==> !has_blank(
                #[trigger] split_from(s, start, i)[q],
            ),
    decreases s.len() - i,
{
    if i + 1 >= s.len() {
        let p = s.subrange(start, s.len() as int);
        assert(split_from(s, start, i) == seq![p]);
        assert forall|k: int| !blank_at(p, k) by {
            if blank_at(p, k) {
                assert(p[k] == s[start + k] && p[k + 1] == s[start + k + 1]);
                assert(blank_at(s, start + k));
            }
        }
    } else if blank_at(s, i) {
        let p = s.subrange(start, i);
        let rest = split_from(s, i + 2, i + 2);
        lemma_split_from(s, i + 2, i + 2);
        assert(split_from(s, start, i) == seq![p] + rest);
        assert((seq![p] + rest).drop_first() =~= rest);
        assert(s.subrange(start, s.len() as int) =~= p + seq!['\n', '\n'] + s.subrange(
            i + 2,
            s.len() as int,
        ));
        assert forall|k: int| !blank_at(p, k) by {
            if blank_at(p, k) {
                assert(p[k] == s[start + k] && p[k + 1] == s[start + k + 1]);
                assert(blank_at(s, start + k));
            }
        }
        assert forall|q: int| 0 <= q < (seq![p] + rest).len() implies !has_blank(
            #[trigger] (seq![p] + rest)[q],
        ) by {
            if q > 0 {
                assert((seq![p] + rest)[q] == rest[q - 1]);
            }
        }
    } else {
        lemma_split_from(s, start, i + 1);
    }
}

/// Splitting a text into paragraphs loses nothing: joining the paragraphs
/// with a blank line between each two gives the text back, there is at least
/// one paragraph, and no paragraph holds a blank line.
pub proof fn law_paragraphs_join_back(s: Seq<char>)
    ensures
        paragraphs(s).len() >= 1,
        join_paragraphs(paragraphs(s)) == s,
        forall|q: int| 0 <= q < paragraphs(s).len() ==> !has_blank(#[trigger] paragraphs(s)[q]),
{
    lemma_split_from(s, 0, 0);
    assert(s.subrange(0, s.len() as int) =~= s);
}

} // verus!

verus! {

/// The order on texts is transitive.
pub proof fn lemma_text_lt_transitive(a: Seq<char>, b: Seq<char>, c: Seq<char>)
    requires
        text_lt(a, b),
        text_lt(b, c),
    ensures
        text_lt(a, c),
    decreases a.len(),
{
    if a.len() > 0 && b.len() > 0 && c.len() > 0 && a[0] == b[0] && b[0] == c[0] {
        lemma_text_lt_transitive(a.drop_first(), b.drop_first(), c.drop_first());
    }
}

/// The order on texts is asymmetric.
pub proof fn lemma_text_lt_asymmetric(a: Seq<char>, b: Seq<char>)
    requires
        text_lt(a, b),
    ensures
        !text_lt(b, a),
    decreases a.len(),
{
    if a.len() > 0 && b.len() > 0 && a[0] == b[0] {
        lemma_text_lt_asymmetric(a.drop_first(), b.drop_first());
    }
}

pub proof fn lemma_char_code_injective(a: char, b: char)
    requires
        a != b,
    ensures
        (a as u32) != (b as u32),
{
}

/// Of two different texts, one is below the other.
pub proof fn lemma_text_lt_total(a: Seq<char>, b: Seq<char>)
    requires
        a != b,
    ensures
        text_lt(a, b) || text_lt(b, a),
    decreases a.len(),
{
    if a.len() > 0 && b.len() > 0 && a[0] == b[0] {
        if a.drop_first() == b.drop_first() {
            assert(a =~= seq![a[0]] + a.drop_first());
            assert(b =~= seq![b[0]] + b.drop_first());
        }
        lemma_text_lt_total(a.drop_first(), b.drop_first());
    } else if a.len() == 0 && b.len() == 0 {
        assert(a =~= b);
    } else if a.len() > 0 && b.len() > 0 {
        lemma_char_code_injective(a[0], b[0]);
    }
}

} // verus!

verus! {

/// Texts that joined with blank lines split back into themselves: at least
/// one, none holding a blank line, none but the last ending with a newline.
pub open spec fn joinable(ts: Seq<Seq<char>>) -> bool {
    &&& ts.len() >= 1
    &&& forall|q: int| 0 <= q < ts.len() ==> !has_blank(#[trigger] ts[q])
    &&& forall|q: int| 0 <= q < ts.len() - 1 ==> !((#[trigger] ts[q]).len() > 0 && ts[q].last() == '\n')
}

proof fn lemma_scan_to(s: Seq<char>, start: int, i: int, k: int)
    requires
        start <= i <= k,
        k + 1 < s.len(),
        forall|q: int| i <= q < k ==> !blank_at(s, q),
    ensures
        split_from(s, start, i) == split_from(s, start, k),
    decreases k - i,
{
    if i < k {
        lemma_scan_to(s, start, i + 1, k);
    }
}

proof fn lemma_scan_to_end(s: Seq<char>, start: int, i: int)
    requires
        start <= i,
        forall|q: int| i <= q ==> !blank_at(s, q),
    ensures
        split_from(s, start, i) == seq![s.subrange(start, s.len() as int)],
    decreases s.len() - i,
{
    if i + 1 < s.len() {
        lemma_scan_to_end(s, start, i + 1);
    }
}

proof fn lemma_split_join(p: Seq<char>, ts: Seq<Seq<char>>)
    requires
        joinable(ts),
    ensures
        split_from(p + join_paragraphs(ts), p.len() as int, p.len() as int) == ts,
    decreases ts.len(),
{
    let s = p + join_paragraphs(ts);
    let t0 = ts[0];
    let a = p.len() as int;
    let b = a + t0.len();
    if ts.len() == 1 {
        assert(s =~= p + t0);
    } else {
        assert(s =~= p + t0 + seq!['\n', '\n'] + join_paragraphs(ts.drop_first()));
    }
    assert(s.subrange(a, b) =~= t0);
    assert(!has_blank(t0));
    assert forall|q: int| a <= q < b implies !blank_at(s, q) by {
        if blank_at(s, q) {
            if q + 1 < b {
                assert(s[q] == t0[q - a] && s[q + 1] == t0[q + 1 - a]);
                assert(blank_at(t0, q - a));
            } else {
                assert(ts.len() > 1);
                assert(s[q] == t0[q - a]);
                assert(t0.last() == t0[q - a]);
            }
        }
    }
    if ts.len() == 1 {
        assert(s.len() == b);
        lemma_scan_to_end(s, a, a);
    } else {
        let rest = ts.drop_first();
        let p2 = p + t0 + seq!['\n', '\n'];
        assert(s =~= p2 + join_paragraphs(rest));
        assert(blank_at(s, b));
        lemma_scan_to(s, a, a, b);
        assert forall|q: int| 0 <= q < rest.len() implies !has_blank(#[trigger] rest[q]) by {
            assert(rest[q] == ts[q + 1]);
        }
        assert forall|q: int| 0 <= q < rest.len() - 1 implies !((#[trigger] rest[q]).len() > 0
            && rest[q].last() == '\n') by {
            assert(rest[q] == ts[q + 1]);
        }
        lemma_split_join(p2, rest);
        assert(p2.len() == b + 2);
        assert(ts =~= seq![t0] + rest);
    }
}

/// Joining texts with blank lines and splitting the result again gives the
/// same texts, where none holds a blank line and none but the last ends with
/// a newline.
pub proof fn law_join_then_split(ts: Seq<Seq<char>>)
    requires
        joinable(ts),
    ensures
        paragraphs(join_paragraphs(ts)) == ts,
{
    lemma_split_join(Seq::empty(), ts);
    assert(Seq::<char>::empty() + join_paragraphs(ts) =~= join_paragraphs(ts));
}

} // verus!
