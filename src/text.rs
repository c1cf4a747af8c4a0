use vstd::prelude::*;
use vstd::utf8::encode_utf8;

verus! {

/// The bytes of one input row.
pub open spec fn line_bytes(s: String) -> Seq<u8> {
    encode_utf8(s@)
}

/// Whether byte `b` occurs in `bytes`.
pub fn contains_byte(bytes: &[u8], b: u8) -> (r: bool)
    ensures
        r == bytes@.contains(b),
{
    let mut i: usize = 0;
    while i < bytes.len()
        invariant
            i <= bytes@.len(),
            forall|k: int| 0 <= k < i ==> bytes@[k] != b,
        decreases bytes.len() - i,
    {
        if bytes[i] == b {
            assert(bytes@[i as int] == b);
            return true;
        }
        i += 1;
    }
    false
}

/// The byte `0`.
pub const DIGIT_ZERO: u8 = 48;

/// The byte `9`.
pub const DIGIT_NINE: u8 = 57;

pub open spec fn is_digit(b: u8) -> bool {
    DIGIT_ZERO <= b <= DIGIT_NINE
}

pub open spec fn all_digits(s: Seq<u8>) -> bool {
    forall|k: int| 0 <= k < s.len() ==> #[trigger] is_digit(s[k])
}

/// The number that a string of decimal digits spells.
pub open spec fn decimal_value(s: Seq<u8>) -> nat
    decreases s.len(),
{
    if s.len() == 0 {
        0
    } else {
        10 * decimal_value(s.drop_last()) + (s.last() - DIGIT_ZERO) as nat
    }
}

/// What `parse_decimal` returns: the value of a non-empty run of digits that
/// fits in a `u64`.
pub open spec fn decimal_of(s: Seq<u8>) -> Option<u64> {
    if s.len() > 0 && all_digits(s) && decimal_value(s) <= u64::MAX {
        Some(decimal_value(s) as u64)
    } else {
        None
    }
}

/// A longer run of digits is worth at least as much as its prefix.
proof fn lemma_decimal_prefix(s: Seq<u8>, k: int)
    requires
        0 <= k <= s.len(),
        all_digits(s),
    ensures
        decimal_value(s.subrange(0, k)) <= decimal_value(s),
    decreases s.len() - k,
{
    if k < s.len() {
        lemma_decimal_prefix(s, k + 1);
        let t = s.subrange(0, k + 1);
        assert(t.drop_last() == s.subrange(0, k));
        assert(is_digit(s[k]));
    } else {
        assert(s.subrange(0, k) == s);
    }
}

/// Reads an unsigned decimal number that fills all of `bytes`.
pub fn parse_decimal(bytes: &[u8]) -> (r: Option<u64>)
    ensures
        r == decimal_of(bytes@),
{
    if bytes.len() == 0 {
        return None;
    }
    let mut v: u64 = 0;
    let mut i: usize = 0;
    while i < bytes.len()
        invariant
            i <= bytes@.len(),
            bytes@.len() > 0,
            all_digits(bytes@.subrange(0, i as int)),
            v == decimal_value(bytes@.subrange(0, i as int)),
        decreases bytes.len() - i,
    {
        let b = bytes[i];
        let ghost next = bytes@.subrange(0, i as int + 1);
        assert(next.drop_last() == bytes@.subrange(0, i as int));
        if b < DIGIT_ZERO || b > DIGIT_NINE {
            assert(!is_digit(bytes@[i as int]));
            return None;
        }
        let d = (b - DIGIT_ZERO) as u64;
        if v > (u64::MAX - d) / 10 {
            proof {
                assert(all_digits(next));
                if all_digits(bytes@) {
                    lemma_decimal_prefix(bytes@, i as int + 1);
                }
            }
            return None;
        }
        v = v * 10 + d;
        i += 1;
    }
    assert(bytes@.subrange(0, bytes@.len() as int) == bytes@);
    Some(v)
}

/// Position of the first `b` in `s`, if any.
pub open spec fn first_index(s: Seq<u8>, b: u8) -> Option<int> {
    if s.contains(b) {
        Some(choose|k: int| 0 <= k < s.len() && s[k] == b && forall|j: int| 0 <= j < k ==> s[j] != b)
    } else {
        None
    }
}

/// The first position of `b` in `bytes`.
pub fn find_byte(bytes: &[u8], b: u8) -> (r: Option<usize>)
    ensures
        match r {
            Some(k) => k < bytes@.len() && first_index(bytes@, b) == Some(k as int),
            None => first_index(bytes@, b) is None,
        },
{
    let mut i: usize = 0;
    while i < bytes.len()
        invariant
            i <= bytes@.len(),
            forall|k: int| 0 <= k < i ==> bytes@[k] != b,
        decreases bytes.len() - i,
    {
        if bytes[i] == b {
            proof {
                let s = bytes@;
                assert(s.contains(b));
                let c = choose|k: int|
                    0 <= k < s.len() && s[k] == b && forall|j: int| 0 <= j < k ==> s[j] != b;
                assert(0 <= i < s.len() && s[i as int] == b && forall|j: int|
                    0 <= j < i ==> s[j] != b);
                if c < i {
                    assert(s[c] != b);
                } else if c > i {
                    assert(s[i as int] != b);
                }
            }
            return Some(i);
        }
        i += 1;
    }
    None
}

/// The byte `-`.
pub const MINUS: u8 = 45;

/// The byte `+`.
pub const PLUS: u8 = 43;

/// What `parse_signed` returns: a number with an optional sign that fits in
/// an `i32`.
pub open spec fn signed_of(s: Seq<u8>) -> Option<i32> {
    if s.len() > 0 && s[0] == MINUS {
        let m = s.subrange(1, s.len() as int);
        if m.len() > 0 && all_digits(m) && decimal_value(m) <= 0x8000_0000 {
            Some((0 - decimal_value(m)) as i32)
        } else {
            None
        }
    } else {
        let m = if s.len() > 0 && s[0] == PLUS { s.subrange(1, s.len() as int) } else { s };
        if m.len() > 0 && all_digits(m) && decimal_value(m) <= 0x7fff_ffff {
            Some(decimal_value(m) as i32)
        } else {
            None
        }
    }
}

/// Reads a decimal `i32`, with an optional leading `-` or `+`, that fills all
/// of `bytes`.
pub fn parse_signed(bytes: &[u8]) -> (r: Option<i32>)
    ensures
        r == signed_of(bytes@),
{
    let n = bytes.len();
    if n > 0 && bytes[0] == MINUS {
        match parse_decimal(&bytes[1..n]) {
            Some(m) => {
                if m <= 0x8000_0000 {
                    Some((0 - (m as i64)) as i32)
                } else {
                    None
                }
            },
            None => {
                proof {
                    let m = bytes@.subrange(1, n as int);
                    if m.len() > 0 && all_digits(m) {
                        assert(decimal_value(m) > u64::MAX);
                    }
                }
                None
            },
        }
    } else {
        let digits = if n > 0 && bytes[0] == PLUS {
            &bytes[1..n]
        } else {
            bytes
        };
        match parse_decimal(digits) {
            Some(m) => {
                if m <= 0x7fff_ffff {
                    Some(m as i32)
                } else {
                    None
                }
            },
            None => None,
        }
    }
}

} // verus!
