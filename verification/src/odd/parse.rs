//! Byte-level parsing of integer literals, as the odds' string forms need it:
//! ASCII whitespace trimming, an optional sign, and a run of decimal digits.

use vstd::prelude::*;

verus! {

/// ASCII whitespace, the bytes that trimming removes.
pub open spec fn is_ascii_space(b: u8) -> bool {
    b == 32 || (9 <= b <= 13)
}

/// An ASCII decimal digit.
pub open spec fn is_digit(b: u8) -> bool {
    48 <= b <= 57
}

/// The sequence with its leading ASCII whitespace removed.
pub open spec fn trim_front(s: Seq<u8>) -> Seq<u8>
    decreases s.len(),
{
    if s.len() > 0 && is_ascii_space(s.first()) {
        trim_front(s.skip(1))
    } else {
        s
    }
}

/// The sequence with its trailing ASCII whitespace removed.
pub open spec fn trim_back(s: Seq<u8>) -> Seq<u8>
    decreases s.len(),
{
    if s.len() > 0 && is_ascii_space(s.last()) {
        trim_back(s.take(s.len() - 1))
    } else {
        s
    }
}

/// The sequence with whitespace removed from both ends.
pub open spec fn trimmed(s: Seq<u8>) -> Seq<u8> {
    trim_back(trim_front(s))
}

/// Every byte is a decimal digit.
pub open spec fn all_digits(s: Seq<u8>) -> bool {
    forall|i: int| 0 <= i < s.len() ==> is_digit(#[trigger] s[i])
}

/// The value of a digit string, most significant digit first.
pub open spec fn digits_value(s: Seq<u8>) -> int
    decreases s.len(),
{
    if s.len() == 0 {
        0
    } else {
        digits_value(s.take(s.len() - 1)) * 10 + (s.last() - 48)
    }
}

/// The digit run of an unsigned literal: everything after an optional `+`.
pub open spec fn uint_body(s: Seq<u8>) -> Seq<u8> {
    if s.len() > 0 && s.first() == 43 {
        s.skip(1)
    } else {
        s
    }
}

/// A well-formed unsigned literal: an optional `+`, then at least one digit.
pub open spec fn is_uint_str(s: Seq<u8>) -> bool {
    uint_body(s).len() > 0 && all_digits(uint_body(s))
}

/// The digit run of a signed literal: everything after an optional sign.
pub open spec fn int_body(s: Seq<u8>) -> Seq<u8> {
    if s.len() > 0 && (s.first() == 43 || s.first() == 45) {
        s.skip(1)
    } else {
        s
    }
}

/// The literal carries a leading minus sign.
pub open spec fn int_is_negative(s: Seq<u8>) -> bool {
    s.len() > 0 && s.first() == 45
}

/// A well-formed signed literal: an optional sign, then at least one digit.
pub open spec fn is_int_str(s: Seq<u8>) -> bool {
    int_body(s).len() > 0 && all_digits(int_body(s))
}

/// The value of a signed literal.
pub open spec fn int_value(s: Seq<u8>) -> int {
    if int_is_negative(s) {
        -digits_value(int_body(s))
    } else {
        digits_value(int_body(s))
    }
}

/// What parsing an unsigned 32-bit literal yields: the value when the
/// (already trimmed) bytes are well formed and in range, nothing otherwise.
pub open spec fn parse_u32_spec(s: Seq<u8>) -> Option<u32> {
    if is_uint_str(s) && digits_value(uint_body(s)) <= u32::MAX {
        Some(digits_value(uint_body(s)) as u32)
    } else {
        None
    }
}

/// What parsing a signed 64-bit literal yields.
pub open spec fn parse_i64_spec(s: Seq<u8>) -> Option<i64> {
    if is_int_str(s) && i64::MIN <= int_value(s) <= i64::MAX {
        Some(int_value(s) as i64)
    } else {
        None
    }
}

/// The first position at or after `i` holding byte `b`, or the length if
/// there is none.
pub open spec fn find_byte(s: Seq<u8>, b: u8, i: int) -> int
    decreases s.len() - i,
{
    if !(0 <= i < s.len()) {
        s.len() as int
    } else if s[i] == b {
        i
    } else {
        find_byte(s, b, i + 1)
    }
}

/// A digit string is worth at least any of its prefixes (and at least zero).
proof fn lemma_digits_value_prefix_le(s: Seq<u8>, n: int)
    requires
        all_digits(s),
        0 <= n <= s.len(),
    ensures
        0 <= digits_value(s.take(n)) <= digits_value(s),
    decreases s.len() - n,
{
    if n == s.len() {
        assert(s.take(n) =~= s);
        lemma_digits_value_nonneg(s);
    } else {
        lemma_digits_value_prefix_le(s, n + 1);
        let t = s.take(n + 1);
        assert(t.take(n) =~= s.take(n));
        lemma_digits_value_nonneg(s.take(n));
        assert(digits_value(t) == digits_value(s.take(n)) * 10 + (t.last() - 48));
        assert(is_digit(s[n]));
    }
}

/// A digit string is worth at least zero.
proof fn lemma_digits_value_nonneg(s: Seq<u8>)
    requires
        all_digits(s),
    ensures
        digits_value(s) >= 0,
    decreases s.len(),
{
    if s.len() > 0 {
        assert(all_digits(s.take(s.len() - 1)));
        lemma_digits_value_nonneg(s.take(s.len() - 1));
        assert(is_digit(s.last()));
    }
}

/// ASCII whitespace, decided at run time.
fn is_space_byte(b: u8) -> (r: bool)
    ensures
        r == is_ascii_space(b),
{
    b == 32 || (9 <= b && b <= 13)
}

/// Parse the bytes `start..end`, trimmed of surrounding ASCII whitespace, as
/// an unsigned 32-bit decimal literal with an optional leading `+`.
pub(crate) fn parse_u32_trimmed(bytes: &[u8], start: usize, end: usize) -> (r: Option<u32>)
    requires
        start <= end <= bytes@.len(),
    ensures
        r == parse_u32_spec(trimmed(bytes@.subrange(start as int, end as int))),
{
    let ghost whole = bytes@.subrange(start as int, end as int);
    let mut lo: usize = start;
    let mut hi: usize = end;
    while lo < hi && is_space_byte(bytes[lo])
        invariant
            start <= lo <= hi <= end <= bytes@.len(),
            hi == end,
            trim_front(whole) == trim_front(bytes@.subrange(lo as int, end as int)),
            whole == bytes@.subrange(start as int, end as int),
        decreases hi - lo,
    {
        proof {
            assert(bytes@.subrange(lo as int, end as int).skip(1) =~= bytes@.subrange(
                lo as int + 1,
                end as int,
            ));
        }
        lo = lo + 1;
    }
    proof {
        assert(trim_front(whole) == bytes@.subrange(lo as int, end as int));
    }
    while hi > lo && is_space_byte(bytes[hi - 1])
        invariant
            start <= lo <= hi <= end <= bytes@.len(),
            trim_front(whole) == bytes@.subrange(lo as int, end as int),
            trim_back(bytes@.subrange(lo as int, end as int)) == trim_back(
                bytes@.subrange(lo as int, hi as int),
            ),
            whole == bytes@.subrange(start as int, end as int),
        decreases hi,
    {
        proof {
            let cur = bytes@.subrange(lo as int, hi as int);
            assert(cur.take(cur.len() - 1) =~= bytes@.subrange(lo as int, hi as int - 1));
        }
        hi = hi - 1;
    }
    let ghost part = bytes@.subrange(lo as int, hi as int);
    proof {
        assert(trimmed(whole) == part);
    }
    // optional leading plus
    let mut i: usize = lo;
    if i < hi && bytes[i] == 43 {
        i = i + 1;
        proof {
            assert(part.skip(1) =~= bytes@.subrange(lo as int + 1, hi as int));
        }
    }
    let ghost body = bytes@.subrange(i as int, hi as int);
    proof {
        assert(uint_body(part) == body);
    }
    if i == hi {
        // no digits at all
        return None;
    }
    let ghost body_start = i as int;
    let mut value: u64 = 0;
    while i < hi
        invariant
            0 <= body_start <= i as int <= hi <= bytes@.len(),
            start <= end <= bytes@.len(),
            body == bytes@.subrange(body_start, hi as int),
            uint_body(trimmed(bytes@.subrange(start as int, end as int))) == body,
            body.len() > 0,
            all_digits(bytes@.subrange(body_start, i as int)),
            value == digits_value(bytes@.subrange(body_start, i as int)),
            value <= u32::MAX,
        decreases hi - i,
    {
        let b = bytes[i];
        if b < 48 || b > 57 {
            proof {
                assert(body[i as int - body_start] == b);
            }
            return None;
        }
        value = value * 10 + (b - 48) as u64;
        proof {
            let prev = bytes@.subrange(body_start, i as int);
            let cur = bytes@.subrange(body_start, i as int + 1);
            assert(cur.take(cur.len() - 1) =~= prev);
            assert(cur.last() == b);
            assert(all_digits(cur)) by {
                assert(forall|j: int|
                    0 <= j < prev.len() ==> cur[j] == #[trigger] prev[j] && is_digit(prev[j]));
            }
        }
        i = i + 1;
        if value > 0xffff_ffff {
            proof {
                let done = bytes@.subrange(body_start, i as int);
                if all_digits(body) {
                    assert(done =~= body.take(i as int - body_start));
                    lemma_digits_value_prefix_le(body, i as int - body_start);
                }
            }
            return None;
        }
    }
    proof {
        assert(bytes@.subrange(body_start, hi as int) =~= body);
    }
    Some(value as u32)
}

/// Parse the whole byte string as a signed 64-bit decimal literal with an
/// optional leading sign. No whitespace is accepted.
pub(crate) fn parse_i64_all(bytes: &[u8]) -> (r: Option<i64>)
    ensures
        r == parse_i64_spec(bytes@),
{
    let n = bytes.len();
    let mut i: usize = 0;
    let mut negative: bool = false;
    if n > 0 && (bytes[0] == 43 || bytes[0] == 45) {
        negative = bytes[0] == 45;
        i = 1;
        proof {
            assert(bytes@.skip(1) =~= bytes@.subrange(1, n as int));
        }
    }
    let ghost body = bytes@.subrange(i as int, n as int);
    proof {
        assert(int_body(bytes@) == body);
        assert(int_is_negative(bytes@) == negative);
        assert(bytes@.subrange(0, n as int) =~= bytes@);
    }
    if i == n {
        return None;
    }
    let ghost body_start = i as int;
    let mut value: u128 = 0;
    while i < n
        invariant
            0 <= body_start <= i as int <= n == bytes@.len(),
            body == bytes@.subrange(body_start, n as int),
            int_body(bytes@) == body,
            int_is_negative(bytes@) == negative,
            body.len() > 0,
            all_digits(bytes@.subrange(body_start, i as int)),
            value == digits_value(bytes@.subrange(body_start, i as int)),
            value <= 0x8000_0000_0000_0000u128,
        decreases n - i,
    {
        let b = bytes[i];
        if b < 48 || b > 57 {
            proof {
                assert(body[i as int - body_start] == b);
            }
            return None;
        }
        value = value * 10 + (b - 48) as u128;
        proof {
            let prev = bytes@.subrange(body_start, i as int);
            let cur = bytes@.subrange(body_start, i as int + 1);
            assert(cur.take(cur.len() - 1) =~= prev);
            assert(cur.last() == b);
            assert(all_digits(cur)) by {
                assert(forall|j: int|
                    0 <= j < prev.len() ==> cur[j] == #[trigger] prev[j] && is_digit(prev[j]));
            }
        }
        i = i + 1;
        if value > 0x8000_0000_0000_0000u128 {
            proof {
                let done = bytes@.subrange(body_start, i as int);
                if all_digits(body) {
                    assert(done =~= body.take(i as int - body_start));
                    lemma_digits_value_prefix_le(body, i as int - body_start);
                }
            }
            return None;
        }
    }
    proof {
        assert(bytes@.subrange(body_start, n as int) =~= body);
    }
    if negative {
        if value == 0x8000_0000_0000_0000u128 {
            Some(i64::MIN)
        } else {
            Some(-((value as u64) as i64))
        }
    } else {
        if value > 0x7fff_ffff_ffff_ffffu128 {
            None
        } else {
            Some(value as i64)
        }
    }
}

} // verus!
