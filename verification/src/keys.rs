use vstd::prelude::*;

use crate::text::{chars_of, string_of};

verus! {

/// An ASCII decimal digit (what `char::is_digit(10)` accepts).
pub open spec fn is_digit(c: char) -> bool {
    48 <= (c as u32) <= 57
}

/// The value of a decimal digit.
pub open spec fn digit_value(c: char) -> int {
    (c as u32) - 48
}

/// The character of a decimal digit `d` (`0 <= d <= 9`).
pub open spec fn digit_char(d: int) -> char {
    if d == 0 {
        '0'
    } else if d == 1 {
        '1'
    } else if d == 2 {
        '2'
    } else if d == 3 {
        '3'
    } else if d == 4 {
        '4'
    } else if d == 5 {
        '5'
    } else if d == 6 {
        '6'
    } else if d == 7 {
        '7'
    } else if d == 8 {
        '8'
    } else {
        '9'
    }
}

pub open spec fn all_digits(d: Seq<char>) -> bool {
    forall|i: int| 0 <= i < d.len() ==> is_digit(#[trigger] d[i])
}

/// The number that a string of decimal digits denotes.
pub open spec fn digits_value(d: Seq<char>) -> int
    decreases d.len(),
{
    if d.len() == 0 {
        0
    } else {
        digits_value(d.drop_last()) * 10 + digit_value(d.last())
    }
}

/// What `usize::from_str` reads from `s`, before the bound of `usize`: an
/// optional `+`, then one or more decimal digits.
pub open spec fn numeral_value(s: Seq<char>) -> Option<int> {
    let d = if s.len() > 0 && s[0] == '+' {
        s.drop_first()
    } else {
        s
    };
    if d.len() > 0 && all_digits(d) {
        Some(digits_value(d))
    } else {
        None
    }
}

/// Where the part of `s[..n]` after its last `:` starts (0 when there is none).
pub open spec fn segment_start(s: Seq<char>, n: int) -> int
    decreases n,
{
    if n <= 0 {
        0
    } else if s[n - 1] == ':' {
        n
    } else {
        segment_start(s, n - 1)
    }
}

/// The part of a key after its last `:` (the whole key when it has none).
pub open spec fn key_segment(key: Seq<char>) -> Seq<char> {
    key.skip(segment_start(key, key.len() as int))
}

/// The number of a key such as `"mow:12"`: its last `:`-separated part read
/// as a `usize`; `None` where that part is no numeral or does not fit.
pub open spec fn key_number(key: Seq<char>) -> Option<usize> {
    match numeral_value(key_segment(key)) {
        Some(v) => if v <= usize::MAX {
            Some(v as usize)
        } else {
            None
        },
        None => None,
    }
}

/// Where the run of digits that ends `s[..n]` starts.
pub open spec fn digits_start(s: Seq<char>, n: int) -> int
    decreases n,
{
    if n <= 0 {
        0
    } else if is_digit(s[n - 1]) {
        digits_start(s, n - 1)
    } else {
        n
    }
}

/// `s` without its trailing decimal digits.
pub open spec fn trim_digits(s: Seq<char>) -> Seq<char> {
    s.take(digits_start(s, s.len() as int))
}

/// The decimal numeral of `n`, without leading zeros.
pub open spec fn decimal(n: nat) -> Seq<char>
    decreases n,
{
    if n < 10 {
        seq![digit_char(n as int)]
    } else {
        decimal(n / 10).push(digit_char((n % 10) as int))
    }
}

/// The decimal numeral of `n` padded on the left with zeros to `width`
/// characters (as `format!("{:0width$}", n)` writes it).
pub open spec fn zero_padded(n: nat, width: int) -> Seq<char> {
    let d = decimal(n);
    if d.len() >= width {
        d
    } else {
        Seq::new((width - d.len()) as nat, |i: int| '0') + d
    }
}

/// What `add_usize_i32` subtracts for a negative offset `y`: `y.wrapping_abs()`
/// converted to `usize`, so that `i32::MIN` stands for `2^BITS - 2^31`.
pub open spec fn offset_subtrahend(y: i32) -> int {
    if y == i32::MIN {
        usize::MAX + 1 + i32::MIN
    } else {
        -y
    }
}

/// `x` moved by the offset `y`, where the result fits in a `usize`.
pub open spec fn add_offset(x: usize, y: i32) -> Option<usize> {
    let r = if y >= 0 {
        x + y
    } else {
        x - offset_subtrahend(y)
    };
    if 0 <= r <= usize::MAX {
        Some(r as usize)
    } else {
        None
    }
}

/// `key` with its trailing digits replaced by `n` written in `width` digits.
pub open spec fn renumbered(key: Seq<char>, n: usize, width: int) -> Seq<char> {
    trim_digits(key) + zero_padded(n as nat, width)
}

/// Adds a signed offset to a `usize`; `None` where the result is below zero
/// or above `usize::MAX`. As in `x.checked_sub(y.wrapping_abs() as usize)`,
/// the offset `i32::MIN` subtracts `2^BITS - 2^31`, not `2^31`.
pub fn add_usize_i32(x: usize, y: i32) -> (res: Option<usize>)
    ensures
        res == add_offset(x, y),
{
    if y < 0 {
        let sub: usize = if y == i32::MIN {
            usize::MAX - 2147483647
        } else {
            (-y) as usize
        };
        x.checked_sub(sub)
    } else {
        x.checked_add(y as usize)
    }
}

proof fn lemma_digits_value_nonneg(d: Seq<char>)
    requires
        all_digits(d),
    ensures
        digits_value(d) >= 0,
    decreases d.len(),
{
    if d.len() > 0 {
        lemma_digits_value_nonneg(d.drop_last());
    }
}

proof fn lemma_digits_value_prefix(d: Seq<char>, k: int)
    requires
        all_digits(d),
        0 <= k <= d.len(),
    ensures
        digits_value(d.take(k)) <= digits_value(d),
    decreases d.len(),
{
    if k < d.len() {
        assert(d.drop_last().take(k) =~= d.take(k));
        lemma_digits_value_prefix(d.drop_last(), k);
        lemma_digits_value_nonneg(d.drop_last());
        assert(is_digit(d[d.len() - 1]));
    } else {
        assert(d.take(k) =~= d);
    }
}

pub(crate) proof fn lemma_segment_start_bounds(s: Seq<char>, n: int)
    requires
        0 <= n <= s.len(),
    ensures
        0 <= segment_start(s, n) <= n,
    decreases n,
{
    if n > 0 && s[n - 1] != ':' {
        lemma_segment_start_bounds(s, n - 1);
    }
}

/// Where the key's last part starts, and that part's number.
pub(crate) fn parse_key(cs: &Vec<char>) -> (res: (usize, Option<usize>))
    ensures
        res.0 == segment_start(cs@, cs@.len() as int),
        res.1 == key_number(cs@),
{
    let mut s: usize = cs.len();
    while s > 0 && cs[s - 1] != ':'
        invariant
            s <= cs.len(),
            segment_start(cs@, cs@.len() as int) == segment_start(cs@, s as int),
        decreases s,
    {
        s -= 1;
    }
    let ghost seg = cs@.skip(s as int);
    assert(seg == key_segment(cs@));
    let mut p: usize = s;
    if p < cs.len() && cs[p] == '+' {
        p += 1;
    }
    let ghost d = cs@.subrange(p as int, cs@.len() as int);
    assert(d =~= (if seg.len() > 0 && seg[0] == '+' { seg.drop_first() } else { seg }));
    if p == cs.len() {
        return (s, None);
    }
    assert(key_number(cs@) == (if all_digits(d) && digits_value(d) <= usize::MAX {
        Some(digits_value(d) as usize)
    } else {
        None::<usize>
    }));
    let mut v: usize = 0;
    let mut k: usize = p;
    assert(cs@.subrange(p as int, p as int) =~= Seq::<char>::empty());
    while k < cs.len()
        invariant
            p <= k <= cs.len(),
            s == segment_start(cs@, cs@.len() as int),
            d == cs@.subrange(p as int, cs@.len() as int),
            key_number(cs@) == (if all_digits(d) && digits_value(d) <= usize::MAX {
                Some(digits_value(d) as usize)
            } else {
                None::<usize>
            }),
            all_digits(cs@.subrange(p as int, k as int)),
            v == digits_value(cs@.subrange(p as int, k as int)),
        decreases cs.len() - k,
    {
        let c = cs[k];
        let code = c as u32;
        if code < 48 || code > 57 {
            assert(d[k - p] == c);
            return (s, None);
        }
        let ghost next = cs@.subrange(p as int, k + 1);
        assert(next.drop_last() =~= cs@.subrange(p as int, k as int));
        assert(next.last() == c);
        let digit: usize = (code - 48) as usize;
        match v.checked_mul(10) {
            None => {
                proof {
                    if all_digits(d) {
                        assert(d.take(k + 1 - p) =~= next);
                        lemma_digits_value_prefix(d, k + 1 - p);
                        lemma_digits_value_nonneg(cs@.subrange(p as int, k as int));
                    }
                }
                return (s, None);
            },
            Some(m) => match m.checked_add(digit) {
                None => {
                    proof {
                        if all_digits(d) {
                            assert(d.take(k + 1 - p) =~= next);
                            lemma_digits_value_prefix(d, k + 1 - p);
                        }
                    }
                    return (s, None);
                },
                Some(n) => {
                    v = n;
                },
            },
        }
        k += 1;
        assert(all_digits(cs@.subrange(p as int, k as int))) by {
            assert forall|i: int| 0 <= i < k - p implies is_digit(
                #[trigger] cs@.subrange(p as int, k as int)[i],
            ) by {
                if i < k - 1 - p {
                    assert(cs@.subrange(p as int, k - 1)[i] == cs@.subrange(p as int, k as int)[i]);
                }
            }
        }
    }
    assert(d =~= cs@.subrange(p as int, k as int));
    (s, Some(v))
}

fn digit_to_char(d: usize) -> (c: char)
    requires
        d < 10,
    ensures
        c == digit_char(d as int),
{
    if d == 0 {
        '0'
    } else if d == 1 {
        '1'
    } else if d == 2 {
        '2'
    } else if d == 3 {
        '3'
    } else if d == 4 {
        '4'
    } else if d == 5 {
        '5'
    } else if d == 6 {
        '6'
    } else if d == 7 {
        '7'
    } else if d == 8 {
        '8'
    } else {
        '9'
    }
}

/// `n` in decimal, padded on the left with zeros to `width` digits.
fn zero_padded_chars(n: usize, width: usize) -> (res: Vec<char>)
    ensures
        res@ == zero_padded(n as nat, width as int),
{
    let mut out: Vec<char> = Vec::new();
    let mut m: usize = n;
    while m >= 10
        invariant
            decimal(n as nat) == decimal(m as nat) + out@,
        decreases m,
    {
        let c = digit_to_char(m % 10);
        let ghost before = out@;
        out.insert(0, c);
        assert(out@ =~= seq![c] + before);
        assert(decimal(m as nat) == decimal((m / 10) as nat).push(c));
        assert(decimal(m as nat) + before =~= decimal((m / 10) as nat) + out@);
        m = m / 10;
    }
    let c = digit_to_char(m);
    let ghost before = out@;
    out.insert(0, c);
    assert(out@ =~= decimal(n as nat));
    let dlen: usize = out.len();
    assert(Seq::new(0, |i: int| '0') + decimal(n as nat) =~= decimal(n as nat));
    while out.len() < width
        invariant
            out.len() >= dlen,
            out.len() == dlen || out.len() <= width,
            dlen == decimal(n as nat).len(),
            out@ == Seq::new((out.len() - dlen) as nat, |i: int| '0') + decimal(n as nat),
        decreases width - out.len(),
    {
        out.insert(0, '0');
        assert(out@ =~= Seq::new((out.len() - dlen) as nat, |i: int| '0') + decimal(n as nat));
    }
    if dlen >= width {
        assert(out@ =~= decimal(n as nat));
    } else {
        assert(out.len() == width);
    }
    out
}

/// The key with its number moved by `df` and written with as many digits as
/// its last part has, plus `extra`; `None` where the moved number does not
/// fit in a `usize`.
pub(crate) fn change_key_number(key: &Vec<char>, df: i32, extra: usize) -> (res: Option<String>)
    requires
        key_number(key@) is Some,
        key_segment(key@).len() + extra <= usize::MAX,
    ensures
        res matches Some(k) ==> add_offset(key_number(key@)->0, df) matches Some(n) && k@
            == renumbered(key@, n, key_segment(key@).len() + extra),
        res is None ==> add_offset(key_number(key@)->0, df) is None,
{
    let (s, num) = parse_key(key);
    proof {
        lemma_segment_start_bounds(key@, key@.len() as int);
    }
    let number = match num {
        Some(v) => v,
        None => {
            return None;
        },
    };
    let width: usize = key.len() - s + extra;
    let n = match add_usize_i32(number, df) {
        Some(n) => n,
        None => {
            return None;
        },
    };
    let mut t: usize = key.len();
    while t > 0 && 48 <= key[t - 1] as u32 && key[t - 1] as u32 <= 57
        invariant
            t <= key.len(),
            digits_start(key@, key@.len() as int) == digits_start(key@, t as int),
        decreases t,
    {
        t -= 1;
    }
    let mut out: Vec<char> = Vec::new();
    let mut i: usize = 0;
    while i < t
        invariant
            i <= t <= key.len(),
            out@ == key@.take(i as int),
        decreases t - i,
    {
        out.push(key[i]);
        i += 1;
        assert(out@ =~= key@.take(i as int));
    }
    let digits = zero_padded_chars(n, width);
    let mut j: usize = 0;
    let ghost head = out@;
    while j < digits.len()
        invariant
            j <= digits.len(),
            out@ == head + digits@.take(j as int),
        decreases digits.len() - j,
    {
        out.push(digits[j]);
        j += 1;
        assert(out@ =~= head + digits@.take(j as int));
    }
    assert(digits@.take(digits.len() as int) =~= digits@);
    Some(string_of(&out))
}

/// The number of a key: its part after the last `:`, read as a `usize`.
pub fn get_key_number(key: &str) -> (res: Option<usize>)
    ensures
        res == key_number(key@),
{
    let cs = chars_of(key);
    parse_key(&cs).1
}

} // verus!

verus! {

proof fn lemma_digit_char(d: int)
    requires
        0 <= d <= 9,
    ensures
        is_digit(digit_char(d)),
        digit_value(digit_char(d)) == d,
{
}

proof fn lemma_decimal(n: nat)
    ensures
        decimal(n).len() >= 1,
        all_digits(decimal(n)),
        digits_value(decimal(n)) == n,
    decreases n,
{
    if n < 10 {
        lemma_digit_char(n as int);
        assert(decimal(n).drop_last() =~= Seq::<char>::empty());
        assert(digits_value(decimal(n)) == digits_value(Seq::<char>::empty()) * 10 + digit_value(digit_char(n as int)));
        assert(digits_value(decimal(n)) == n);
    } else {
        lemma_decimal(n / 10);
        lemma_digit_char((n % 10) as int);
        let d = decimal(n);
        assert(d.drop_last() =~= decimal(n / 10));
        assert(d.last() == digit_char((n % 10) as int));
        assert(digits_value(d) == digits_value(decimal(n / 10)) * 10 + (n % 10));
        assert((n / 10) * 10 + n % 10 == n) by (nonlinear_arith);
    }
}

proof fn lemma_zeros_value(k: nat)
    ensures
        digits_value(Seq::new(k, |i: int| '0')) == 0,
    decreases k,
{
    if k > 0 {
        assert(Seq::new(k, |i: int| '0').drop_last() =~= Seq::new((k - 1) as nat, |i: int| '0'));
        lemma_zeros_value((k - 1) as nat);
    }
}

proof fn lemma_leading_zeros(k: nat, d: Seq<char>)
    ensures
        digits_value(Seq::new(k, |i: int| '0') + d) == digits_value(d),
    decreases d.len(),
{
    let z = Seq::new(k, |i: int| '0');
    if d.len() == 0 {
        assert(z + d =~= z);
        lemma_zeros_value(k);
    } else {
        assert((z + d).drop_last() =~= z + d.drop_last());
        lemma_leading_zeros(k, d.drop_last());
    }
}

pub(crate) proof fn lemma_zero_padded(n: nat, width: int)
    ensures
        zero_padded(n, width).len() >= 1,
        all_digits(zero_padded(n, width)),
        digits_value(zero_padded(n, width)) == n,
{
    lemma_decimal(n);
    let d = decimal(n);
    if d.len() < width {
        let k = (width - d.len()) as nat;
        lemma_leading_zeros(k, d);
        let p = Seq::new(k, |i: int| '0') + d;
        assert forall|i: int| 0 <= i < p.len() implies is_digit(#[trigger] p[i]) by {
            if i >= k {
                assert(p[i] == d[i - k]);
            }
        }
    }
}

proof fn lemma_segment_start_facts(s: Seq<char>, n: int)
    requires
        0 <= n <= s.len(),
    ensures
        0 <= segment_start(s, n) <= n,
        segment_start(s, n) > 0 ==> s[segment_start(s, n) - 1] == ':',
        forall|k: int| segment_start(s, n) <= k < n ==> s[k] != ':',
    decreases n,
{
    if n > 0 && s[n - 1] != ':' {
        lemma_segment_start_facts(s, n - 1);
    }
}

proof fn lemma_segment_start_skip(s: Seq<char>, m: int, n: int)
    requires
        0 <= m <= n <= s.len(),
        forall|k: int| m <= k < n ==> s[k] != ':',
    ensures
        segment_start(s, n) == segment_start(s, m),
    decreases n - m,
{
    if n > m {
        lemma_segment_start_skip(s, m, n - 1);
    }
}

proof fn lemma_digits_start_skip(s: Seq<char>, m: int, n: int)
    requires
        0 <= m <= n <= s.len(),
        forall|k: int| m <= k < n ==> is_digit(s[k]),
        m == 0 || !is_digit(s[m - 1]),
    ensures
        digits_start(s, n) == m,
    decreases n - m,
{
    if n > m {
        lemma_digits_start_skip(s, m, n - 1);
    }
}

/// A key whose trailing digits are replaced by a number keeps everything
/// before them, and its number then reads back as that number.
pub proof fn law_renumbered_key_reads_back(key: Seq<char>, n: usize, width: int)
    requires
        key_number(key) is Some,
    ensures
        key_number(renumbered(key, n, width)) == Some(n),
        trim_digits(renumbered(key, n, width)) == trim_digits(key),
        key_segment(renumbered(key, n, width)).len() >= zero_padded(n as nat, width).len(),
{
    let len = key.len() as int;
    let ss = segment_start(key, len);
    lemma_segment_start_facts(key, len);
    let seg = key.skip(ss);
    let plus = seg.len() > 0 && seg[0] == '+';
    let p: int = if plus {
        ss + 1
    } else {
        ss
    };
    let d = key.subrange(p, len);
    assert(d =~= (if plus {
        seg.drop_first()
    } else {
        seg
    }));
    assert forall|k: int| p <= k < len implies is_digit(key[k]) by {
        assert(key[k] == d[k - p]);
    }
    lemma_digits_start_skip(key, p, len);
    let z = zero_padded(n as nat, width);
    lemma_zero_padded(n as nat, width);
    let r = renumbered(key, n, width);
    assert(r =~= key.take(p) + z);
    let rl = r.len() as int;
    assert forall|k: int| p <= k < rl implies is_digit(r[k]) by {
        assert(r[k] == z[k - p]);
    }
    if p > 0 {
        assert(r[p - 1] == key[p - 1]);
    }
    lemma_digits_start_skip(r, p, rl);
    assert(trim_digits(r) =~= trim_digits(key));
    assert forall|k: int| ss <= k < rl implies r[k] != ':' by {
        if k >= p {
            assert(r[k] == z[k - p]);
        } else {
            assert(r[k] == key[k]);
        }
    }
    lemma_segment_start_skip(r, ss, rl);
    if ss > 0 {
        assert(r[ss - 1] == key[ss - 1]);
    }
    assert(segment_start(r, ss) == ss);
    let rseg = r.skip(ss);
    assert(rseg == key_segment(r));
    if plus {
        assert(rseg[0] == '+');
        assert(rseg.drop_first() =~= z);
    } else {
        assert(rseg =~= z);
        assert(is_digit(z[0]));
    }
}

/// Moving a key's number by an offset and reading the key back gives the
/// moved number.
pub proof fn law_changed_key_number(key: Seq<char>, df: i32, k: Seq<char>, width: int)
    requires
        key_number(key) is Some,
        add_offset(key_number(key)->0, df) is Some,
        k == renumbered(key, add_offset(key_number(key)->0, df)->0, width),
    ensures
        key_number(k) == add_offset(key_number(key)->0, df),
{
    law_renumbered_key_reads_back(key, add_offset(key_number(key)->0, df)->0, width);
}

/// A key written as a prefix, a `:` and the decimal numeral of a number
/// reads back as that number, whatever the prefix holds.
pub proof fn law_key_number_reads_decimal(prefix: Seq<char>, n: usize)
    ensures
        key_number(prefix + seq![':'] + decimal(n as nat)) == Some(n),
{
    let d = decimal(n as nat);
    lemma_decimal(n as nat);
    let key = prefix + seq![':'] + d;
    let p = prefix.len() as int;
    let len = key.len() as int;
    assert forall|k: int| p + 1 <= k < len implies key[k] != ':' by {
        assert(key[k] == d[k - p - 1]);
        assert(is_digit(d[k - p - 1]));
    }
    lemma_segment_start_skip(key, p + 1, len);
    assert(key[p] == ':');
    assert(segment_start(key, p + 1) == p + 1);
    assert(key_segment(key) =~= d);
    assert(is_digit(d[0]));
}

/// A key with no digits after its last `:`, such as `"a"`, has no number.
pub proof fn law_unnumbered_key()
    ensures
        key_number(seq!['a']) is None,
        key_number(seq!['x', ':']) is None,
{
    assert(segment_start(seq!['a'], 0) == 0);
    assert(key_segment(seq!['a']) =~= seq!['a']);
    assert(!is_digit('a'));
    assert(segment_start(seq!['x', ':'], 2) == 2);
    assert(key_segment(seq!['x', ':']) =~= Seq::<char>::empty());
}

/// Moving a number by an offset and back again gives the number back.
pub proof fn law_offset_undone(x: usize, y: i32)
    requires
        y > i32::MIN,
        add_offset(x, y) is Some,
    ensures
        add_offset(add_offset(x, y)->0, (-y) as i32) == Some(x),
{
}

} // verus!

verus! {

/// A key with a number is not empty.
pub(crate) proof fn lemma_numbered_key_nonempty(key: Seq<char>)
    requires
        key_number(key) is Some,
    ensures
        key.len() > 0,
{
    lemma_segment_start_facts(key, key.len() as int);
}

} // verus!

verus! {

/// A key whose last part is plain decimal digits (no sign) that fit in a
/// `usize`.
pub open spec fn plain_number_key(key: Seq<char>) -> bool {
    let seg = key_segment(key);
    &&& seg.len() > 0
    &&& all_digits(seg)
    &&& digits_value(seg) <= usize::MAX
}

/// A key up to and including its last `:` (empty when it has none).
pub open spec fn key_prefix(key: Seq<char>) -> Seq<char> {
    key.take(segment_start(key, key.len() as int))
}

/// A key with a plain number is its prefix followed by its digits, its number
/// is the value of those digits, and trimming its digits leaves the prefix.
pub proof fn lemma_plain_number_key(key: Seq<char>)
    requires
        plain_number_key(key),
    ensures
        key == key_prefix(key) + key_segment(key),
        key_number(key) == Some(digits_value(key_segment(key)) as usize),
        0 <= digits_value(key_segment(key)) <= usize::MAX,
        trim_digits(key) == key_prefix(key),
{
    lemma_digits_value_nonneg(key_segment(key));
    let len = key.len() as int;
    let ss = segment_start(key, len);
    lemma_segment_start_facts(key, len);
    let seg = key_segment(key);
    assert(key =~= key.take(ss) + seg);
    assert(is_digit(seg[0]));
    assert forall|k: int| ss <= k < len implies is_digit(key[k]) by {
        assert(key[k] == seg[k - ss]);
    }
    lemma_digits_start_skip(key, ss, len);
}

proof fn lemma_digit_char_of(c: char)
    requires
        is_digit(c),
    ensures
        digit_char(digit_value(c)) == c,
{
    let e = digit_char(digit_value(c));
    lemma_digit_char(digit_value(c));
    if e != c {
        crate::text::lemma_char_code_injective(e, c);
    }
}

proof fn lemma_zeros_push(k: nat)
    ensures
        Seq::new(k, |i: int| '0').push('0') == Seq::new(k + 1, |i: int| '0'),
{
    assert(Seq::new(k, |i: int| '0').push('0') =~= Seq::new(k + 1, |i: int| '0'));
}

/// Plain digits written back at their own width give the same digits.
pub proof fn lemma_padded_self(d: Seq<char>)
    requires
        all_digits(d),
        d.len() > 0,
    ensures
        zero_padded(digits_value(d) as nat, d.len() as int) == d,
    decreases d.len(),
{
    lemma_digits_value_nonneg(d);
    let v = digits_value(d);
    let c = d.last();
    assert(is_digit(c));
    lemma_digit_char_of(c);
    if d.len() == 1 {
        assert(d.drop_last() =~= Seq::<char>::empty());
        assert(decimal(v as nat) =~= d);
    } else {
        let d1 = d.drop_last();
        assert forall|i: int| 0 <= i < d1.len() implies is_digit(#[trigger] d1[i]) by {
            assert(d1[i] == d[i]);
        }
        lemma_padded_self(d1);
        lemma_digits_value_nonneg(d1);
        let v1 = digits_value(d1);
        let dc = digit_value(c);
        assert(v == v1 * 10 + dc);
        lemma_decimal(v1 as nat);
        if v1 > 0 {
            assert((v1 * 10 + dc) / 10 == v1 && (v1 * 10 + dc) % 10 == dc) by (nonlinear_arith)
                requires
                    0 <= dc < 10,
                    v1 > 0,
            ;
            assert(decimal(v as nat) == decimal(v1 as nat).push(c));
            let k1 = d1.len() - decimal(v1 as nat).len();
            assert(d =~= d1.push(c));
            if k1 > 0 {
                assert(d1 == Seq::new(k1 as nat, |i: int| '0') + decimal(v1 as nat));
                assert(d =~= Seq::new(k1 as nat, |i: int| '0') + decimal(v as nat));
            } else {
                assert(d1 == decimal(v1 as nat));
                assert(d =~= decimal(v as nat));
            }
        } else {
            assert(decimal(0) == seq!['0']);
            assert(decimal(v as nat) =~= seq![c]);
            let k = (d1.len() - 1) as nat;
            if k > 0 {
                assert(d1 == Seq::new(k, |i: int| '0') + seq!['0']);
            } else {
                assert(d1 =~= seq!['0']);
            }
            assert(d1 =~= Seq::new(d1.len(), |i: int| '0'));
            assert(d =~= Seq::new(d1.len(), |i: int| '0') + decimal(v as nat));
        }
    }
}

/// Ten times the value of plain digits, written one digit wider, is those
/// digits with a `0` appended.
pub proof fn lemma_padded_times_ten(d: Seq<char>)
    requires
        all_digits(d),
        d.len() > 0,
    ensures
        zero_padded((10 * digits_value(d)) as nat, d.len() + 1int) == d.push('0'),
{
    lemma_padded_self(d);
    lemma_digits_value_nonneg(d);
    let v = digits_value(d);
    lemma_decimal(v as nat);
    if v == 0 {
        assert(decimal(0) == seq!['0']);
        let k = (d.len() - 1) as nat;
        if k > 0 {
            assert(d == Seq::new(k, |i: int| '0') + seq!['0']);
        } else {
            assert(d =~= seq!['0']);
        }
        assert(d =~= Seq::new(d.len(), |i: int| '0'));
        assert(d.push('0') =~= Seq::new(d.len(), |i: int| '0') + decimal(0));
    } else {
        assert((10 * v) / 10 == v && (10 * v) % 10 == 0) by (nonlinear_arith)
            requires
                v > 0,
        ;
        assert(decimal((10 * v) as nat) == decimal(v as nat).push(digit_char(0)));
        let k = d.len() - decimal(v as nat).len();
        if k > 0 {
            assert(d == Seq::new(k as nat, |i: int| '0') + decimal(v as nat));
            assert(d.push('0') =~= Seq::new(k as nat, |i: int| '0') + decimal((10 * v) as nat));
        } else {
            assert(d == decimal(v as nat));
            assert(d.push('0') =~= decimal((10 * v) as nat));
        }
    }
}

} // verus!
