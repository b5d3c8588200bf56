use vstd::prelude::*;

use std::collections::BTreeSet;

use crate::entries::{entries_view, opt_text, EntryView};
use crate::keys::{
    add_offset, change_key_number, digits_value, key_number, key_segment, parse_key, renumbered,
};
use crate::text::chars_of;

verus! {

/// The index of the nearest entry before `pos` whose key is not empty.
pub open spec fn left_key_index(e: Seq<EntryView>, pos: int) -> Option<int>
    decreases pos,
{
    if pos <= 0 {
        None
    } else if e[pos - 1].0.len() > 0 {
        Some(pos - 1)
    } else {
        left_key_index(e, pos - 1)
    }
}

/// The index of the first entry at or after `j` whose key is not empty.
pub open spec fn right_key_index(e: Seq<EntryView>, j: int) -> Option<int>
    decreases e.len() - j,
{
    if j < 0 || j >= e.len() {
        None
    } else if e[j].0.len() > 0 {
        Some(j)
    } else {
        right_key_index(e, j + 1)
    }
}

/// `r` multiplied by ten until it is at least `l` (unchanged when `r <= 0`).
pub open spec fn scale_up(l: int, r: int) -> int
    decreases (if l > r {
        l - r
    } else {
        0
    }),
{
    if l <= r || r <= 0 {
        r
    } else {
        scale_up(l, r * 10)
    }
}

/// The least number in `lo..hi` that `keys` does not hold.
pub open spec fn first_free(keys: Set<usize>, lo: int, hi: int) -> Option<int>
    decreases hi - lo,
{
    if lo >= hi {
        None
    } else if !keys.contains(lo as usize) {
        Some(lo)
    } else {
        first_free(keys, lo + 1, hi)
    }
}

/// The least number from `n` on that `keys` does not hold (it may pass `usize::MAX`).
pub open spec fn free_slot(keys: Set<usize>, n: int) -> int
    decreases usize::MAX + 1 - n,
{
    if n < 0 || n > usize::MAX || !keys.contains(n as usize) {
        n
    } else {
        free_slot(keys, n + 1)
    }
}

/// `key` with its number moved by `df` and `extra` more digits; `None` where
/// the key has no number, the width or the moved number does not fit.
pub open spec fn change_key_spec(key: Seq<char>, df: i32, extra: int) -> Option<Seq<char>> {
    match key_number(key) {
        None => None,
        Some(n) => {
            let w: int = key_segment(key).len() + extra;
            if w > usize::MAX {
                None
            } else {
                match add_offset(n, df) {
                    Some(m) => Some(renumbered(key, m, w)),
                    None => None,
                }
            }
        },
    }
}

/// A new key for a place between the keys `x` and `y`.
///
/// The number of `y` is multiplied by ten until it is at least that of `x`.
/// The first number strictly between them that `keys` does not hold is
/// written with `x`'s width. Where there is none, one more digit is appended
/// to `x`'s number: `10 * l`, or the next number up that `keys` does not
/// hold. `None` where the work cannot finish: a key without a number, a right
/// number of zero below the left one, or an overflow.
pub open spec fn key_between(x: Seq<char>, y: Seq<char>, keys: Set<usize>) -> Option<Seq<char>> {
    match (key_number(x), key_number(y)) {
        (Some(l), Some(r)) => {
            if l > r && r == 0 {
                None
            } else {
                let rr = scale_up(l as int, r as int);
                if rr > usize::MAX || l == usize::MAX {
                    None
                } else {
                    match first_free(keys, l + 1, rr) {
                        Some(i) => if i - l > i32::MAX {
                            None
                        } else {
                            change_key_spec(x, (i - l) as i32, 0)
                        },
                        None => {
                            let n = free_slot(keys, 10 * l);
                            let w: int = key_segment(x).len() + 1int;
                            if n > usize::MAX || w > usize::MAX {
                                None
                            } else {
                                match add_offset(l, (n - l) as i32) {
                                    Some(m) => Some(renumbered(x, m, w)),
                                    None => Some(y),
                                }
                            }
                        },
                    }
                }
            }
        },
        _ => None,
    }
}

/// The key that `get_unique_key` gives the entry at `pos`: derived from the
/// nearest non-empty keys before and after it. `None` where no key can be
/// computed: a neighbouring key without a number, an overflow, or a search
/// that would not end.
pub open spec fn unique_key_spec(e: Seq<EntryView>, pos: int, keys: Set<usize>) -> Option<
    Seq<char>,
> {
    if pos < 0 || pos > e.len() {
        None
    } else {
        match (left_key_index(e, pos), right_key_index(e, pos + 1)) {
            (Some(a), Some(b)) => key_between(e[a].0, e[b].0, keys),
            (Some(a), None) => change_key_spec(e[a].0, 1, 0),
            (None, Some(b)) => change_key_spec(e[b].0, 0, 0),
            (None, None) => Some(seq!['a']),
        }
    }
}

proof fn lemma_scale_up_grows(l: int, r: int)
    requires
        l > r > 0,
    ensures
        scale_up(l, r) >= r * 10,
    decreases l - r,
{
    assert(scale_up(l, r) == scale_up(l, r * 10));
    if l > r * 10 {
        lemma_scale_up_grows(l, r * 10);
    } else {
        assert(scale_up(l, r * 10) == r * 10);
    }
}

/// `change_key_spec` computed: `None` where it is `None`.
fn change_key_checked(key: &Vec<char>, df: i32, extra: usize) -> (res: Option<String>)
    requires
        extra <= 1,
    ensures
        opt_text(res) == change_key_spec(key@, df, extra as int),
{
    let (s, num) = parse_key(key);
    if num.is_none() {
        return None;
    }
    proof {
        crate::keys::lemma_segment_start_bounds(key@, key@.len() as int);
    }
    if key.len() - s > usize::MAX - extra {
        return None;
    }
    change_key_number(key, df, extra)
}

/// `key_between` computed.
#[verifier::loop_isolation(false)]
fn key_between_exec(x: &Vec<char>, y: &Vec<char>, y_text: &String, keys: &BTreeSet<usize>) -> (res:
    Option<String>)
    requires
        y_text@ == y@,
    ensures
        opt_text(res) == key_between(x@, y@, keys@),
{
    let (xs, xn) = parse_key(x);
    let (_ys, yn) = parse_key(y);
    let (left, r) = match (xn, yn) {
        (Some(l), Some(r)) => (l, r),
        _ => {
            return None;
        },
    };
    if left > r && r == 0 {
        return None;
    }
    let mut right: usize = r;
    while left > right
        invariant
            right > 0 || left <= right,
            scale_up(left as int, r as int) == scale_up(left as int, right as int),
        decreases (if left > right {
            left - right
        } else {
            0
        }),
    {
        match right.checked_mul(10) {
            Some(v) => {
                right = v;
            },
            None => {
                proof {
                    lemma_scale_up_grows(left as int, right as int);
                }
                return None;
            },
        }
    }
    if left == usize::MAX {
        return None;
    }
    let mut i: usize = left + 1;
    while i < right
        invariant
            left < i,
            first_free(keys@, left + 1, right as int) == first_free(keys@, i as int, right as int),
        decreases right - i,
    {
        if !keys.contains(&i) {
            if i - left > 2147483647 {
                return None;
            }
            let df: i32 = (i - left) as i32;
            return change_key_checked(x, df, 0);
        }
        i += 1;
    }
    proof {
        crate::keys::lemma_segment_start_bounds(x@, x@.len() as int);
    }
    let mut base: usize = match left.checked_mul(9) {
        Some(b) => b,
        None => {
            return None;
        },
    };
    loop
        invariant
            free_slot(keys@, 10 * left) == free_slot(keys@, base + left),
        decreases usize::MAX - base,
    {
        if base > usize::MAX - left {
            assert(free_slot(keys@, base + left) == base + left);
            assert(first_free(keys@, left + 1, right as int) is None);
            assert(scale_up(left as int, r as int) == right);
            return None;
        }
        if !keys.contains(&(base + left)) {
            break;
        }
        if base == usize::MAX {
            assert(free_slot(keys@, base + left) == free_slot(keys@, base + left + 1));
            assert(free_slot(keys@, base + left + 1) == base + left + 1);
            assert(first_free(keys@, left + 1, right as int) is None);
            assert(scale_up(left as int, r as int) == right);
            return None;
        }
        base += 1;
    }
    if x.len() - xs > usize::MAX - 1 {
        return None;
    }
    let df: i32 = #[verifier::truncate] (base as i32);
    match change_key_number(x, df, 1) {
        Some(k) => Some(k),
        None => Some(y_text.clone()),
    }
}

/// The key `get_unique_key` would give, or `None` on the inputs where it
/// cannot give one (`unique_key_spec` is `None` there: a neighbour key
/// without a number, a number past `usize`, or no free number).
pub fn try_get_unique_key(entries: &Vec<(String, String)>, pos: usize, keys: &BTreeSet<usize>) -> (res:
    Option<String>)
    ensures
        opt_text(res) == unique_key_spec(entries_view(entries@), pos as int, keys@),
{
    let ghost e = entries_view(entries@);
    if pos > entries.len() {
        return None;
    }
    let mut a: usize = pos;
    while a > 0 && entries[a - 1].0.as_str().is_empty()
        invariant
            a <= pos <= entries.len(),
            e == entries_view(entries@),
            left_key_index(e, pos as int) == left_key_index(e, a as int),
        decreases a,
    {
        a -= 1;
    }
    let mut b: usize = if pos < entries.len() {
        pos + 1
    } else {
        pos
    };
    while b < entries.len() && entries[b].0.as_str().is_empty()
        invariant
            pos + 1 <= b || (b == pos && pos == entries.len()),
            e == entries_view(entries@),
            right_key_index(e, pos + 1) == right_key_index(e, b as int),
        decreases entries.len() - b,
    {
        b += 1;
    }
    let has_left = a > 0;
    let has_right = b < entries.len();
    if has_left && has_right {
        let x = chars_of(entries[a - 1].0.as_str());
        let y = chars_of(entries[b].0.as_str());
        key_between_exec(&x, &y, &entries[b].0, keys)
    } else if has_left {
        let x = chars_of(entries[a - 1].0.as_str());
        change_key_checked(&x, 1, 0)
    } else if has_right {
        let y = chars_of(entries[b].0.as_str());
        change_key_checked(&y, 0, 0)
    } else {
        let mut k = String::new();
        crate::text::push_char(&mut k, 'a');
        assert(k@ =~= seq!['a']);
        Some(k)
    }
}

} // verus!

verus! {

/// A key for the entry at `pos` that fits between the nearest non-empty keys
/// around it and avoids `old_keys` where it can; the entries are not changed.
pub fn get_unique_key(
    old_answer: &mut Vec<(String, String)>,
    pos: usize,
    old_keys: &BTreeSet<usize>,
) -> (res: String)
    requires
        unique_key_spec(entries_view(old(old_answer)@), pos as int, old_keys@) is Some,
    ensures
        *final(old_answer) == *old(old_answer),
        Some(res@) == unique_key_spec(entries_view(old(old_answer)@), pos as int, old_keys@),
{
    match try_get_unique_key(old_answer, pos, old_keys) {
        Some(k) => k,
        None => {
            assert(false);
            String::new()
        },
    }
}

} // verus!

verus! {

proof fn lemma_right_key_index(e: Seq<EntryView>, j: int)
    ensures
        right_key_index(e, j) matches Some(b) ==> j <= b < e.len() && e[b].0.len() > 0,
    decreases e.len() - j,
{
    if 0 <= j < e.len() && e[j].0.len() == 0 {
        lemma_right_key_index(e, j + 1);
    }
}

proof fn lemma_change_key_nonempty(key: Seq<char>, df: i32, extra: int)
    ensures
        change_key_spec(key, df, extra) matches Some(k) ==> k.len() > 0,
{
    if let Some(k) = change_key_spec(key, df, extra) {
        let w: int = key_segment(key).len() + extra;
        crate::keys::lemma_zero_padded(add_offset(key_number(key)->0, df)->0 as nat, w);
    }
}

/// A key that `get_unique_key` gives is never empty.
pub proof fn law_unique_key_nonempty(e: Seq<EntryView>, pos: int, keys: Set<usize>)
    ensures
        unique_key_spec(e, pos, keys) matches Some(k) ==> k.len() > 0,
{
    if 0 <= pos <= e.len() {
        lemma_right_key_index(e, pos + 1);
        match (left_key_index(e, pos), right_key_index(e, pos + 1)) {
            (Some(a), Some(b)) => {
                let x = e[a].0;
                lemma_change_key_nonempty(x, 0, 0);
                if let (Some(l), Some(r)) = (key_number(x), key_number(e[b].0)) {
                    let rr = scale_up(l as int, r as int);
                    if let Some(i) = first_free(keys, l + 1, rr) {
                        lemma_change_key_nonempty(x, (i - l) as i32, 0);
                    } else {
                        let n = free_slot(keys, 10 * l);
                        let w: int = key_segment(x).len() + 1int;
                        if let Some(m) = add_offset(l, (n - l) as i32) {
                            crate::keys::lemma_zero_padded(m as nat, w);
                        }
                    }
                }
            },
            (Some(a), None) => {
                lemma_change_key_nonempty(e[a].0, 1, 0);
            },
            (None, Some(b)) => {
                lemma_change_key_nonempty(e[b].0, 0, 0);
            },
            (None, None) => {},
        }
    }
}

} // verus!

verus! {

proof fn lemma_left_agrees(a: Seq<EntryView>, b: Seq<EntryView>, n: int, pos: int)
    requires
        a.len() == b.len(),
        0 <= n <= pos,
        forall|j: int| 0 <= j < a.len() && j != pos ==> a[j] == b[j],
        pos < a.len(),
    ensures
        left_key_index(a, n) == left_key_index(b, n),
        left_key_index(a, n) matches Some(k) ==> 0 <= k < n,
    decreases n,
{
    if n > 0 {
        assert(a[n - 1] == b[n - 1]);
        lemma_left_agrees(a, b, n - 1, pos);
    }
}

proof fn lemma_right_agrees(a: Seq<EntryView>, b: Seq<EntryView>, j: int, pos: int)
    requires
        a.len() == b.len(),
        pos < j,
        forall|k: int| 0 <= k < a.len() && k != pos ==> a[k] == b[k],
    ensures
        right_key_index(a, j) == right_key_index(b, j),
    decreases a.len() - j,
{
    if 0 <= j < a.len() {
        assert(a[j] == b[j]);
        lemma_right_agrees(a, b, j + 1, pos);
    }
}

/// The key for a place does not depend on what that place holds: lists that
/// differ only there get the same key.
pub proof fn law_unique_key_ignores_its_place(
    a: Seq<EntryView>,
    b: Seq<EntryView>,
    pos: int,
    keys: Set<usize>,
)
    requires
        a.len() == b.len(),
        0 <= pos < a.len(),
        forall|j: int| 0 <= j < a.len() && j != pos ==> a[j] == b[j],
    ensures
        unique_key_spec(a, pos, keys) == unique_key_spec(b, pos, keys),
{
    lemma_left_agrees(a, b, pos, pos);
    lemma_right_agrees(a, b, pos + 1, pos);
    lemma_right_key_index(a, pos + 1);
    if let Some(k) = left_key_index(a, pos) {
        assert(a[k] == b[k]);
    }
    if let Some(k) = right_key_index(a, pos + 1) {
        assert(a[k] == b[k]);
    }
}

} // verus!

verus! {

/// `first_free` gives the least number in `lo..hi` that `keys` does not
/// hold; `None` when `keys` holds them all.
pub proof fn lemma_first_free(keys: Set<usize>, lo: int, hi: int)
    requires
        0 <= lo,
        hi <= usize::MAX + 1,
    ensures
        first_free(keys, lo, hi) matches Some(m) ==> {
            &&& lo <= m < hi
            &&& !keys.contains(m as usize)
            &&& forall|k: int| lo <= k < m ==> #[trigger] keys.contains(k as usize)
        },
        first_free(keys, lo, hi) is None ==> forall|k: int|
            lo <= k < hi ==> #[trigger] keys.contains(k as usize),
    decreases hi - lo,
{
    if lo < hi && keys.contains(lo as usize) {
        lemma_first_free(keys, lo + 1, hi);
    }
}

/// Scaling multiplies `r` by the least power of ten that brings it to `l` or
/// above.
pub proof fn lemma_scale_up_power(l: int, r: int)
    requires
        r > 0,
    ensures
        exists|k: nat|
            {
                &&& scale_up(l, r) == r * #[trigger] vstd::arithmetic::power::pow(10, k)
                &&& scale_up(l, r) >= l
                &&& (k > 0 ==> r * vstd::arithmetic::power::pow(10, (k - 1) as nat) < l)
            },
    decreases (if l > r {
        l - r
    } else {
        0
    }),
{
    reveal(vstd::arithmetic::power::pow);
    if l <= r {
        assert(vstd::arithmetic::power::pow(10, 0) == 1);
        assert(r * vstd::arithmetic::power::pow(10, 0) == r);
    } else {
        lemma_scale_up_power(l, r * 10);
        let k = choose|k: nat|
            {
                &&& scale_up(l, r * 10) == (r * 10) * #[trigger] vstd::arithmetic::power::pow(10, k)
                &&& scale_up(l, r * 10) >= l
                &&& (k > 0 ==> (r * 10) * vstd::arithmetic::power::pow(10, (k - 1) as nat) < l)
            };
        let p = vstd::arithmetic::power::pow(10, k);
        assert(vstd::arithmetic::power::pow(10, k + 1) == 10 * p);
        assert((r * 10) * p == r * (10 * p)) by (nonlinear_arith);
        if k > 0 {
            let q = vstd::arithmetic::power::pow(10, (k - 1) as nat);
            assert(vstd::arithmetic::power::pow(10, k) == 10 * q);
            assert((r * 10) * q == r * (10 * q)) by (nonlinear_arith);
        } else {
            assert(vstd::arithmetic::power::pow(10, 0) == 1);
            assert(r * 1 == r);
        }
        assert(scale_up(l, r) == r * vstd::arithmetic::power::pow(10, k + 1));
    }
}

/// After the last key: the left key's number plus one, at its width.
pub proof fn law_key_after_last(e: Seq<EntryView>, pos: int, keys: Set<usize>)
    requires
        0 <= pos <= e.len(),
        left_key_index(e, pos) is Some,
        right_key_index(e, pos + 1) is None,
        crate::keys::plain_number_key(e[left_key_index(e, pos)->0].0),
        key_number(e[left_key_index(e, pos)->0].0)->0 < usize::MAX,
        e[left_key_index(e, pos)->0].0.len() <= usize::MAX,
    ensures
        ({
            let x = e[left_key_index(e, pos)->0].0;
            unique_key_spec(e, pos, keys) == Some(
                crate::keys::key_prefix(x) + crate::keys::zero_padded(
                    (key_number(x)->0 + 1) as nat,
                    key_segment(x).len() as int,
                ),
            )
        }),
{
    let x = e[left_key_index(e, pos)->0].0;
    crate::keys::lemma_plain_number_key(x);
    crate::keys::lemma_segment_start_bounds(x, x.len() as int);
}

/// Before the first key: the right key itself.
pub proof fn law_key_before_first(e: Seq<EntryView>, pos: int, keys: Set<usize>)
    requires
        0 <= pos <= e.len(),
        left_key_index(e, pos) is None,
        right_key_index(e, pos + 1) is Some,
        crate::keys::plain_number_key(e[right_key_index(e, pos + 1)->0].0),
        e[right_key_index(e, pos + 1)->0].0.len() <= usize::MAX,
    ensures
        unique_key_spec(e, pos, keys) == Some(e[right_key_index(e, pos + 1)->0].0),
{
    let y = e[right_key_index(e, pos + 1)->0].0;
    let seg = key_segment(y);
    crate::keys::lemma_plain_number_key(y);
    crate::keys::lemma_segment_start_bounds(y, y.len() as int);
    crate::keys::lemma_padded_self(seg);
    let v = key_number(y)->0;
    assert(v == digits_value(seg));
    assert(add_offset(v, 0) == Some(v));
    assert(renumbered(y, v, seg.len() as int) == y);
    assert(change_key_spec(y, 0, 0) == Some(y));
}

/// Between two keys, where a free number lies below the scaled right number:
/// the least such number, at the left key's width.
pub proof fn law_key_between_free(e: Seq<EntryView>, pos: int, keys: Set<usize>)
    requires
        0 <= pos <= e.len(),
        left_key_index(e, pos) is Some,
        right_key_index(e, pos + 1) is Some,
        crate::keys::plain_number_key(e[left_key_index(e, pos)->0].0),
        e[left_key_index(e, pos)->0].0.len() <= usize::MAX,
        ({
            let l = key_number(e[left_key_index(e, pos)->0].0)->0;
            let y = e[right_key_index(e, pos + 1)->0].0;
            &&& key_number(y) is Some
            &&& (key_number(y)->0 > 0 || l <= key_number(y)->0)
            &&& scale_up(l as int, key_number(y)->0 as int) <= usize::MAX
            &&& l < usize::MAX
            &&& first_free(keys, l + 1, scale_up(l as int, key_number(y)->0 as int)) is Some
            &&& first_free(keys, l + 1, scale_up(l as int, key_number(y)->0 as int))->0 - l
                <= i32::MAX
        }),
    ensures
        ({
            let x = e[left_key_index(e, pos)->0].0;
            let y = e[right_key_index(e, pos + 1)->0].0;
            let m = first_free(keys, key_number(x)->0 + 1, scale_up(key_number(x)->0 as int, key_number(y)->0 as int))->0;
            unique_key_spec(e, pos, keys) == Some(
                crate::keys::key_prefix(x) + crate::keys::zero_padded(
                    m as nat,
                    key_segment(x).len() as int,
                ),
            )
        }),
{
    let x = e[left_key_index(e, pos)->0].0;
    let y = e[right_key_index(e, pos + 1)->0].0;
    let l = key_number(x)->0;
    let r = key_number(y)->0;
    crate::keys::lemma_plain_number_key(x);
    crate::keys::lemma_segment_start_bounds(x, x.len() as int);
    lemma_first_free(keys, l + 1, scale_up(l as int, r as int));
}

/// Between two keys, where every number below the scaled right number is
/// taken and ten times the left number is free: the left key with a `0`
/// appended.
pub proof fn law_key_between_append_zero(e: Seq<EntryView>, pos: int, keys: Set<usize>)
    requires
        0 <= pos <= e.len(),
        left_key_index(e, pos) is Some,
        right_key_index(e, pos + 1) is Some,
        crate::keys::plain_number_key(e[left_key_index(e, pos)->0].0),
        e[left_key_index(e, pos)->0].0.len() < usize::MAX,
        ({
            let l = key_number(e[left_key_index(e, pos)->0].0)->0;
            let y = e[right_key_index(e, pos + 1)->0].0;
            &&& key_number(y) is Some
            &&& (key_number(y)->0 > 0 || l <= key_number(y)->0)
            &&& scale_up(l as int, key_number(y)->0 as int) <= usize::MAX
            &&& l < usize::MAX
            &&& first_free(keys, l + 1, scale_up(l as int, key_number(y)->0 as int)) is None
            &&& 10 * l <= usize::MAX
            &&& !keys.contains((10 * l) as usize)
            &&& 9 * l <= i32::MAX
        }),
    ensures
        unique_key_spec(e, pos, keys) == Some(e[left_key_index(e, pos)->0].0.push('0')),
{
    let x = e[left_key_index(e, pos)->0].0;
    let l = key_number(x)->0;
    crate::keys::lemma_plain_number_key(x);
    crate::keys::lemma_segment_start_bounds(x, x.len() as int);
    assert(free_slot(keys, 10 * l) == 10 * l);
    assert(((10 * l - l) as i32) == 9 * l);
    assert(add_offset(l, (10 * l - l) as i32) == Some((10 * l) as usize));
    let seg = key_segment(x);
    crate::keys::lemma_padded_times_ten(seg);
    assert(digits_value(seg) == l);
    assert(crate::keys::zero_padded((10 * l) as nat, seg.len() + 1int) == seg.push('0'));
    assert(x.push('0') =~= crate::keys::key_prefix(x) + seg.push('0'));
    assert(renumbered(x, (10 * l) as usize, key_segment(x).len() + 1int) =~= x.push('0'));
}

} // verus!

verus! {

/// Between two keys with numbers `l < r`, where some number strictly between
/// them is not in `keys`: the key found has the least number above `l` that
/// is not in `keys`.
pub proof fn law_key_between_least_free(
    e: Seq<EntryView>,
    pos: int,
    keys: Set<usize>,
    l: usize,
    r: usize,
)
    requires
        0 <= pos <= e.len(),
        left_key_index(e, pos) matches Some(a) && key_number(e[a].0) == Some(l),
        right_key_index(e, pos + 1) matches Some(b) && key_number(e[b].0) == Some(r),
        l < r,
        exists|m: usize| l < m < r && !keys.contains(m),
        unique_key_spec(e, pos, keys) is Some,
    ensures
        key_number(unique_key_spec(e, pos, keys)->0) matches Some(n) && {
            &&& l < n < r
            &&& !keys.contains(n)
            &&& forall|m: usize| l < m < n ==> keys.contains(m)
        },
{
    let a = left_key_index(e, pos)->0;
    let b = right_key_index(e, pos + 1)->0;
    let x = e[a].0;
    let y = e[b].0;
    assert(scale_up(l as int, r as int) == r);
    lemma_first_free(keys, l + 1, r as int);
    let m0 = choose|m: usize| l < m < r && !keys.contains(m);
    assert(!keys.contains(m0 as int as usize));
    let n = first_free(keys, l + 1, r as int)->0;
    assert(first_free(keys, l + 1, r as int) is Some);
    let k = unique_key_spec(e, pos, keys)->0;
    assert(n - l <= i32::MAX);
    let df = (n - l) as i32;
    assert(change_key_spec(x, df, 0) == Some(k));
    assert(add_offset(l, df) == Some(n as usize));
    crate::keys::law_changed_key_number(x, df, k, key_segment(x).len() as int);
    assert forall|m: usize| l < m < n implies keys.contains(m) by {
        assert(keys.contains(m as int as usize));
    }
}

} // verus!
