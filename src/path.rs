//! The path a client opens a window with: `x/y/width/height/title`.
use vstd::prelude::*;

verus! {

/// The separator between the fields of a path.
pub const SEPARATOR: char = '/';

/// Position of the first separator at or after `i`, or the length of `s`.
pub open spec fn next_sep(s: Seq<char>, i: int) -> int
    decreases s.len() - i,
{
    if i >= s.len() {
        s.len() as int
    } else if s[i] == SEPARATOR {
        i
    } else {
        next_sep(s, i + 1)
    }
}

/// Where field `k` of `s` starts; past `s.len()` when `s` has fewer fields.
pub open spec fn field_start(s: Seq<char>, k: nat) -> int
    decreases k,
{
    if k == 0 {
        0
    } else {
        let p = field_start(s, (k - 1) as nat);
        if p > s.len() {
            p
        } else {
            next_sep(s, p) + 1
        }
    }
}

/// Field `k` of `s`, empty where it is missing.
pub open spec fn field(s: Seq<char>, k: nat) -> Seq<char> {
    let p = field_start(s, k);
    if p > s.len() {
        Seq::empty()
    } else {
        s.subrange(p, next_sep(s, p))
    }
}

/// The title: all that follows the fourth separator, separators included.
pub open spec fn title_of(s: Seq<char>) -> Seq<char> {
    let p = field_start(s, 4);
    if p > s.len() {
        Seq::empty()
    } else {
        s.subrange(p, s.len() as int)
    }
}

pub open spec fn is_digit(c: char) -> bool {
    '0' <= c && c <= '9'
}

pub open spec fn all_digits(s: Seq<char>) -> bool {
    s.len() > 0 && forall|i: int| 0 <= i < s.len() ==> is_digit(#[trigger] s[i])
}

/// The value of a string of decimal digits.
pub open spec fn digits_value(s: Seq<char>) -> int
    decreases s.len(),
{
    if s.len() == 0 {
        0
    } else {
        digits_value(s.drop_last()) * 10 + (s.last() as int - '0' as int)
    }
}

/// The integer that `s` writes: an optional sign, then one or more digits.
pub open spec fn integer_of(s: Seq<char>) -> Option<int> {
    if s.len() > 0 && s[0] == '-' && all_digits(s.skip(1)) {
        Some(-digits_value(s.skip(1)))
    } else if s.len() > 0 && s[0] == '+' && all_digits(s.skip(1)) {
        Some(digits_value(s.skip(1)))
    } else if all_digits(s) {
        Some(digits_value(s))
    } else {
        None
    }
}

/// The `i32` that `s` writes, or 0 where it writes none or one out of range.
pub open spec fn i32_or_zero(s: Seq<char>) -> i32 {
    match integer_of(s) {
        Some(v) => if i32::MIN <= v <= i32::MAX {
            v as i32
        } else {
            0
        },
        None => 0,
    }
}

/// What an open path asks for.
#[derive(Clone, Debug, PartialEq, Eq)]
pub struct WindowRequest {
    pub x: i32,
    pub y: i32,
    pub width: i32,
    pub height: i32,
    pub title: Vec<char>,
}

/// The request that path `s` spells.
pub open spec fn request_matches(r: WindowRequest, s: Seq<char>) -> bool {
    &&& r.x == i32_or_zero(field(s, 0))
    &&& r.y == i32_or_zero(field(s, 1))
    &&& r.width == i32_or_zero(field(s, 2))
    &&& r.height == i32_or_zero(field(s, 3))
    &&& r.title@ == title_of(s)
}

/// Position of the first separator at or after `i`, or the length of `s`.
pub fn find_sep(s: &Vec<char>, i: usize) -> (r: usize)
    requires
        i <= s@.len(),
    ensures
        r as int == next_sep(s@, i as int),
        i <= r <= s@.len(),
{
    let mut j = i;
    while j < s.len()
        invariant
            i <= j <= s@.len(),
            next_sep(s@, i as int) == next_sep(s@, j as int),
        decreases s@.len() - j,
    {
        if s[j] == SEPARATOR {
            return j;
        }
        j = j + 1;
    }
    j
}

/// Bound past which a digit string no longer fits an `i32`.
const DIGITS_CAP: i64 = 2147483649;

/// Reads `s[from..to]` as an `i32`, with 0 for anything that is not one.
pub fn parse_i32(s: &Vec<char>, from: usize, to: usize) -> (r: i32)
    requires
        from <= to <= s@.len(),
    ensures
        r == i32_or_zero(s@.subrange(from as int, to as int)),
{
    let ghost f = s@.subrange(from as int, to as int);
    if from == to {
        return 0;
    }
    let mut start = from;
    let mut negative = false;
    if s[from] == '-' || s[from] == '+' {
        negative = s[from] == '-';
        start = from + 1;
    }
    let ghost d = s@.subrange(start as int, to as int);
    assert(start > from ==> d =~= f.skip(1));
    assert(start == from ==> d =~= f);
    if start == to {
        return 0;
    }
    let mut acc: i64 = 0;
    let mut i = start;
    while i < to
        invariant
            from <= start <= i <= to <= s@.len(),
            d == s@.subrange(start as int, to as int),
            f == s@.subrange(from as int, to as int),
            start == from || start == from + 1,
            start > from ==> d =~= f.skip(1),
            start == from ==> d =~= f,
            start > from ==> (s@[from as int] == '-' || s@[from as int] == '+'),
            start == from ==> (s@[from as int] != '-' && s@[from as int] != '+'),
            negative == (start > from && s@[from as int] == '-'),
            forall|k: int| start <= k < i ==> is_digit(#[trigger] s@[k]),
            digits_value(s@.subrange(start as int, i as int)) >= 0,
            acc as int == if digits_value(s@.subrange(start as int, i as int)) < DIGITS_CAP {
                digits_value(s@.subrange(start as int, i as int))
            } else {
                DIGITS_CAP as int
            },
        decreases to - i,
    {
        let c = s[i];
        if !('0' <= c && c <= '9') {
            assert(d[i - start] == c);
            assert(!all_digits(d));
            assert(f[0] == s@[from as int]);
            assert(start > from ==> !is_digit(f[0]));
            return 0;
        }
        let ghost prev = s@.subrange(start as int, i as int);
        let ghost next = s@.subrange(start as int, i + 1);
        assert(next.drop_last() =~= prev);
        assert(next.last() == c);
        let digit = (c as u32 - '0' as u32) as i64;
        let grown = acc * 10 + digit;
        acc = if grown < DIGITS_CAP {
            grown
        } else {
            DIGITS_CAP
        };
        i = i + 1;
    }
    assert(s@.subrange(start as int, to as int) =~= d);
    assert(all_digits(d));
    if acc >= DIGITS_CAP {
        return 0;
    }
    let v = if negative {
        -acc
    } else {
        acc
    };
    if v < i32::MIN as i64 || v > i32::MAX as i64 {
        0
    } else {
        v as i32
    }
}

/// Splits an open path into its position, size and title.
pub fn parse_request(s: &Vec<char>) -> (r: WindowRequest)
    ensures
        request_matches(r, s@),
{
    let ghost v = s@;
    let e0 = find_sep(s, 0);
    let x = parse_i32(s, 0, e0);
    assert(field(v, 0) == v.subrange(0, e0 as int));
    let mut y: i32 = 0;
    let mut width: i32 = 0;
    let mut height: i32 = 0;
    let mut title: Vec<char> = Vec::new();
    proof {
        reveal_with_fuel(field_start, 2);
    }
    if e0 < s.len() {
        let e1 = find_sep(s, e0 + 1);
        y = parse_i32(s, e0 + 1, e1);
        assert(field_start(v, 1) == e0 + 1);
        if e1 < s.len() {
            let e2 = find_sep(s, e1 + 1);
            width = parse_i32(s, e1 + 1, e2);
            assert(field_start(v, 2) == e1 + 1);
            if e2 < s.len() {
                let e3 = find_sep(s, e2 + 1);
                height = parse_i32(s, e2 + 1, e3);
                assert(field_start(v, 3) == e2 + 1);
                if e3 < s.len() {
                    assert(field_start(v, 4) == e3 + 1);
                    let mut i = e3 + 1;
                    while i < s.len()
                        invariant
                            e3 + 1 <= i <= s@.len(),
                            title@ == s@.subrange(e3 + 1, i as int),
                        decreases s@.len() - i,
                    {
                        title.push(s[i]);
                        i = i + 1;
                        assert(title@ =~= s@.subrange(e3 + 1, i as int));
                    }
                    assert(title@ == title_of(v));
                } else {
                    assert(field_start(v, 4) > v.len());
                    assert(title@ =~= title_of(v));
                }
            } else {
                assert(field_start(v, 3) > v.len());
                assert(field_start(v, 4) > v.len());
                assert(title@ =~= title_of(v));
            }
        } else {
            assert(field_start(v, 2) > v.len());
            assert(field_start(v, 3) > v.len());
            assert(field_start(v, 4) > v.len());
            assert(title@ =~= title_of(v));
        }
    } else {
        assert(field_start(v, 1) > v.len());
        assert(field_start(v, 2) > v.len());
        assert(field_start(v, 3) > v.len());
        assert(field_start(v, 4) > v.len());
        assert(title@ =~= title_of(v));
    }
    WindowRequest { x, y, width, height, title }
}

} // verus!
