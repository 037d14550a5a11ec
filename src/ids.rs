//! Numeric identifiers written in decimal or hexadecimal digits: digits only,
//! no sign, and a value that fits the target width.
use vstd::prelude::*;
use crate::chars::{trim_ws, trim_char, trim_ws_range, trim_char_range};
use crate::error::Error;

verus! {

/// The value of an ASCII digit or letter (`'a'` and `'A'` are ten); 99 for anything else.
pub open spec fn digit_value(c: char) -> int {
    if '0' <= c && c <= '9' {
        c as int - '0' as int
    } else if 'a' <= c && c <= 'z' {
        c as int - 'a' as int + 10
    } else if 'A' <= c && c <= 'Z' {
        c as int - 'A' as int + 10
    } else {
        99
    }
}

pub open spec fn all_digits(s: Seq<char>, radix: int) -> bool {
    forall|i: int| 0 <= i < s.len() ==> #[trigger] digit_value(s[i]) < radix
}

/// The number that the digits of `s` spell in base `radix`, most significant first.
pub open spec fn digits_value(s: Seq<char>, radix: int) -> int
    decreases s.len(),
{
    if s.len() == 0 {
        0
    } else {
        digits_value(s.drop_last(), radix) * radix + digit_value(s.last())
    }
}

/// An unsigned number below `bound` written in base `radix`, or `None` where `s`
/// is empty, holds a character that is not a digit of the base (a sign included),
/// or is too large.
pub open spec fn parse_number(s: Seq<char>, radix: int, bound: int) -> Option<int> {
    let b = s;
    if b.len() > 0 && all_digits(b, radix) && digits_value(b, radix) < bound {
        Some(digits_value(b, radix))
    } else {
        None
    }
}

/// `s` without one leading `0x`.
pub open spec fn strip_hex_prefix(s: Seq<char>) -> Seq<char> {
    if s.len() >= 2 && s[0] == '0' && s[1] == 'x' {
        s.skip(2)
    } else {
        s
    }
}

/// `[xxxx]` or `[0xxxxx]` with surrounding whitespace: the hexadecimal identifier inside.
pub open spec fn raw_id(s: Seq<char>) -> Option<int> {
    parse_number(strip_hex_prefix(trim_char(trim_char(trim_ws(s), '['), ']')), 16, 0x10000)
}

proof fn lemma_digits_value_nonneg(s: Seq<char>, radix: int)
    requires
        radix >= 1,
        all_digits(s, radix),
    ensures
        digits_value(s, radix) >= 0,
    decreases s.len(),
{
    if s.len() > 0 {
        assert(all_digits(s.drop_last(), radix)) by {
            assert forall|i: int| 0 <= i < s.drop_last().len() implies #[trigger] digit_value(
                s.drop_last()[i],
            ) < radix by {
                assert(s.drop_last()[i] == s[i]);
            }
        }
        lemma_digits_value_nonneg(s.drop_last(), radix);
        let v = digits_value(s.drop_last(), radix);
        assert(v * radix >= 0) by (nonlinear_arith)
            requires
                v >= 0,
                radix >= 1,
        ;
        assert(digit_value(s[s.len() - 1]) < radix);
    }
}

/// A number only grows as digits are appended.
proof fn lemma_digits_value_prefix(s: Seq<char>, k: int, radix: int)
    requires
        radix >= 1,
        0 <= k <= s.len(),
        all_digits(s, radix),
    ensures
        digits_value(s.take(k), radix) <= digits_value(s, radix),
    decreases s.len(),
{
    if k < s.len() {
        let t = s.drop_last();
        assert(all_digits(t, radix)) by {
            assert forall|i: int| 0 <= i < t.len() implies #[trigger] digit_value(t[i])
                < radix by {
                assert(t[i] == s[i]);
            }
        }
        lemma_digits_value_prefix(t, k, radix);
        assert(t.take(k) =~= s.take(k));
        lemma_digits_value_nonneg(t, radix);
        let v = digits_value(t, radix);
        assert(v * radix >= v) by (nonlinear_arith)
            requires
                v >= 0,
                radix >= 1,
        ;
        assert(digit_value(s[s.len() - 1]) < radix);
        assert(digit_value(s[s.len() - 1]) >= 0);
    } else {
        assert(s.take(k) =~= s);
    }
}

pub open spec fn power(radix: int, n: nat) -> int
    decreases n,
{
    if n == 0 {
        1
    } else {
        power(radix, (n - 1) as nat) * radix
    }
}

/// `n` digits of base `radix` spell a number below `radix` to the `n`.
pub proof fn lemma_digits_value_bound(s: Seq<char>, radix: int)
    requires
        radix >= 1,
        all_digits(s, radix),
    ensures
        0 <= digits_value(s, radix) < power(radix, s.len()),
    decreases s.len(),
{
    lemma_digits_value_nonneg(s, radix);
    if s.len() > 0 {
        let t = s.drop_last();
        assert(all_digits(t, radix)) by {
            assert forall|i: int| 0 <= i < t.len() implies #[trigger] digit_value(t[i])
                < radix by {
                assert(t[i] == s[i]);
            }
        }
        lemma_digits_value_bound(t, radix);
        let v = digits_value(t, radix);
        let d = digit_value(s[s.len() - 1]);
        let pw = power(radix, t.len());
        assert(d < radix);
        assert(d >= 0);
        assert(v * radix + d < pw * radix) by (nonlinear_arith)
            requires
                0 <= v < pw,
                0 <= d < radix,
        ;
    }
}

fn digit_of(c: char) -> (d: u32)
    ensures
        d as int == digit_value(c),
{
    if '0' <= c && c <= '9' {
        (c as u32) - ('0' as u32)
    } else if 'a' <= c && c <= 'z' {
        (c as u32) - ('a' as u32) + 10
    } else if 'A' <= c && c <= 'Z' {
        (c as u32) - ('A' as u32) + 10
    } else {
        99
    }
}

/// Reads `cs[lo..hi]` as an unsigned number in base `radix` below `bound`.
pub fn parse_number_range(cs: &Vec<char>, lo: usize, hi: usize, radix: u32, bound: u32) -> (r:
    Option<u32>)
    requires
        lo <= hi <= cs@.len(),
        2 <= radix <= 36,
        1 <= bound <= 0x10000,
    ensures
        match parse_number(cs@.subrange(lo as int, hi as int), radix as int, bound as int) {
            Some(v) => 0 <= v < bound && r == Some(v as u32),
            None => r is None,
        },
{
    let ghost s = cs@.subrange(lo as int, hi as int);
    let start = lo;
    let ghost b = cs@.subrange(start as int, hi as int);
    if start == hi {
        return None;
    }
    let mut acc: u32 = 0;
    let mut i = start;
    while i < hi
        invariant
            lo <= start <= i <= hi <= cs@.len(),
            s == cs@.subrange(lo as int, hi as int),
            b == cs@.subrange(start as int, hi as int),
            b == s,
            b.len() > 0,
            2 <= radix <= 36,
            1 <= bound <= 0x10000,
            acc < bound,
            all_digits(b.take(i - start), radix as int),
            acc as int == digits_value(b.take(i - start), radix as int),
        decreases hi - i,
    {
        let d = digit_of(cs[i]);
        if d >= radix {
            assert(b[i - start] == cs@[i as int]);
            assert(!all_digits(b, radix as int));
            return None;
        }
        assert(b.take(i - start + 1).drop_last() =~= b.take(i - start));
        assert(b.take(i - start + 1).last() == cs@[i as int]);
        assert(all_digits(b.take(i - start + 1), radix as int)) by {
            assert forall|j: int| 0 <= j < b.take(i - start + 1).len() implies #[trigger] digit_value(
                b.take(i - start + 1)[j],
            ) < radix by {
                if j < i - start {
                    assert(b.take(i - start + 1)[j] == b.take(i - start)[j]);
                }
            }
        }
        assert((acc as int) * (radix as int) <= 0x10000 * 36) by (nonlinear_arith)
            requires
                acc < 0x10000,
                radix <= 36,
        ;
        let next: u64 = (acc as u64) * (radix as u64) + (d as u64);
        assert(digits_value(b.take(i - start + 1), radix as int) == next as int);
        if next >= bound as u64 {
            proof {
                if all_digits(b, radix as int) {
                    lemma_digits_value_prefix(b, i - start + 1, radix as int);
                }
                assert(parse_number(s, radix as int, bound as int) is None);
            }
            return None;
        }
        acc = next as u32;
        i = i + 1;
    }
    assert(b.take(i - start) =~= b);
    proof {
        lemma_digits_value_nonneg(b, radix as int);
    }
    Some(acc)
}

/// Reads a hexadecimal identifier written as `[xxxx]`, possibly with whitespace around it.
pub fn id_from_raw(cs: &Vec<char>, lo: usize, hi: usize) -> (r: Result<u16, Error>)
    requires
        lo <= hi <= cs@.len(),
    ensures
        match raw_id(cs@.subrange(lo as int, hi as int)) {
            Some(v) => r == Ok::<u16, Error>(v as u16),
            None => r == Err::<u16, Error>(Error::ParseError),
        },
{
    let (a0, b0) = trim_ws_range(cs, lo, hi);
    let (a1, b1) = trim_char_range(cs, a0, b0, '[');
    let (a2, b2) = trim_char_range(cs, a1, b1, ']');
    let ghost inner = cs@.subrange(a2 as int, b2 as int);
    let mut a2 = a2;
    if b2 - a2 >= 2 && cs[a2] == '0' && cs[a2 + 1] == 'x' {
        a2 = a2 + 2;
        assert(inner.skip(2) =~= cs@.subrange(a2 as int, b2 as int));
    } else {
        if b2 - a2 >= 2 {
            assert(inner[0] == cs@[a2 as int] && inner[1] == cs@[a2 + 1]);
        }
    }
    assert(cs@.subrange(a2 as int, b2 as int) == strip_hex_prefix(inner));
    let p = parse_number_range(cs, a2, b2, 16, 0x10000);
    assert(parse_number(cs@.subrange(a2 as int, b2 as int), 16, 0x10000) == raw_id(
        cs@.subrange(lo as int, hi as int),
    ));
    match p {
        Some(v) => {
            assert(v < 0x10000);
            Ok(v as u16)
        },
        None => Err(Error::ParseError),
    }
}

} // verus!
