//! Fragment file names and the `<data>+<erasure>` pattern.

use crate::error::ErasureError;
use vstd::prelude::*;
use vstd::string::StringSliceAdditionalSpecFns;

verus! {

pub open spec fn is_digit(b: u8) -> bool {
    48 <= b <= 57
}

/// Number of leading ASCII digits.
pub open spec fn digit_run(s: Seq<u8>) -> nat
    decreases s.len(),
{
    if s.len() == 0 || !is_digit(s[0]) {
        0
    } else {
        1 + digit_run(s.subrange(1, s.len() as int))
    }
}

/// Decimal value of ASCII digits.
pub open spec fn digits_value(s: Seq<u8>) -> nat
    decreases s.len(),
{
    if s.len() == 0 {
        0
    } else {
        digits_value(s.drop_last()) * 10 + (s.last() - 48) as nat
    }
}

/// `.d.block` for `kind == 'd'`, `.e.block` for `kind == 'e'`.
pub open spec fn block_suffix(kind: u8) -> Seq<u8> {
    seq![46u8, kind, 46u8, 98u8, 108u8, 111u8, 99u8, 107u8]
}

/// The part number that a fragment file name starts with: digits followed by
/// `.d.block` or `.e.block`; anything may follow.
pub open spec fn name_part_number(s: Seq<u8>) -> Option<nat> {
    let d = digit_run(s) as int;
    if d >= 1 && s.len() >= d + 8 && (s.subrange(d, d + 8) == block_suffix(100u8)
        || s.subrange(d, d + 8) == block_suffix(101u8)) {
        Some(digits_value(s.subrange(0, d)))
    } else {
        None
    }
}

/// The two numbers of a pattern that is exactly `<digits>+<digits>`.
pub open spec fn pattern_numbers(s: Seq<u8>) -> Option<(nat, nat)> {
    let d = digit_run(s) as int;
    let rest = s.subrange(d + 1, s.len() as int);
    if d >= 1 && s.len() >= d + 2 && s[d] == 43u8 && digit_run(rest) == rest.len() {
        Some((digits_value(s.subrange(0, d as int)), digits_value(rest)))
    } else {
        None
    }
}

proof fn lemma_digit_run_step(s: Seq<u8>, start: int, i: int)
    requires
        0 <= start <= i,
        i <= s.len(),
        forall|t: int| start <= t < i ==> is_digit(s[t]),
        i == s.len() || !is_digit(s[i]),
    ensures
        digit_run(s.subrange(start, s.len() as int)) == i - start,
    decreases i - start,
{
    let sub = s.subrange(start, s.len() as int);
    if start < i {
        assert(sub.subrange(1, sub.len() as int) =~= s.subrange(start + 1, s.len() as int));
        lemma_digit_run_step(s, start + 1, i);
    }
}

/// Scans the digits of `b` from `start`: where they end, and their value if
/// it fits in a `u64`.
fn scan_digits(b: &[u8], start: usize) -> (r: (usize, Option<u64>))
    requires
        start <= b.len(),
    ensures
        r.0 == start + digit_run(b@.subrange(start as int, b.len() as int)),
        r.0 <= b.len(),
        match r.1 {
            Some(v) => v == digits_value(b@.subrange(start as int, r.0 as int)),
            None => digits_value(b@.subrange(start as int, r.0 as int)) > u64::MAX,
        },
{
    let mut i: usize = start;
    let mut value: Option<u64> = Some(0);
    proof {
        assert(b@.subrange(start as int, start as int) =~= Seq::<u8>::empty());
    }
    while i < b.len() && 48 <= b[i] && b[i] <= 57
        invariant
            start <= i <= b.len(),
            forall|t: int| start <= t < i ==> is_digit(b@[t]),
            match value {
                Some(v) => v == digits_value(b@.subrange(start as int, i as int)),
                None => digits_value(b@.subrange(start as int, i as int)) > u64::MAX,
            },
        decreases b.len() - i,
    {
        let d = (b[i] - 48) as u64;
        let ghost prev = b@.subrange(start as int, i as int);
        proof {
            let next = b@.subrange(start as int, i + 1);
            assert(next.drop_last() =~= prev);
            assert(next.last() == b@[i as int]);
        }
        value = match value {
            Some(v) => {
                if v > (u64::MAX - d) / 10 {
                    None
                } else {
                    Some(v * 10 + d)
                }
            },
            None => None,
        };
        i = i + 1;
    }
    proof {
        lemma_digit_run_step(b@, start as int, i as int);
    }
    (i, value)
}

/// The part number that a fragment file name carries; `None` where the name
/// is not `<digits>.d.block...` or `<digits>.e.block...`, or the number does
/// not fit.
pub fn get_part_number_from_file_name(file_name: &str) -> (r: Option<usize>)
    ensures
        r matches Some(n) ==> name_part_number(file_name.spec_bytes()) == Some(n as nat),
        (name_part_number(file_name.spec_bytes()) matches Some(v) && v <= usize::MAX) ==> r is Some,
{
    let b = file_name.as_bytes();
    let (d, value) = scan_digits(b, 0);
    proof {
        assert(b@.subrange(0, b.len() as int) =~= b@);
    }
    if d < 1 || b.len() - d < 8 {
        return None;
    }
    if b[d] != 46u8 || (b[d + 1] != 100u8 && b[d + 1] != 101u8) || b[d + 2] != 46u8 || b[d + 3]
        != 98u8 || b[d + 4] != 108u8 || b[d + 5] != 111u8 || b[d + 6] != 99u8 || b[d + 7] != 107u8 {
        proof {
            let sub = b@.subrange(d as int, d + 8);
            if sub == block_suffix(100u8) || sub == block_suffix(101u8) {
                assert(sub[0] == b@[d as int]);
                assert(sub[1] == b@[d + 1]);
                assert(sub[2] == b@[d + 2]);
                assert(sub[3] == b@[d + 3]);
                assert(sub[4] == b@[d + 4]);
                assert(sub[5] == b@[d + 5]);
                assert(sub[6] == b@[d + 6]);
                assert(sub[7] == b@[d + 7]);
            }
        }
        return None;
    }
    proof {
        let sub = b@.subrange(d as int, d + 8);
        if b@[d + 1] == 100u8 {
            assert(sub =~= block_suffix(100u8));
        } else {
            assert(sub =~= block_suffix(101u8));
        }
    }
    match value {
        Some(v) => {
            if v > usize::MAX as u64 {
                None
            } else {
                Some(v as usize)
            }
        },
        None => None,
    }
}

/// A `<data>+<erasure>` pattern: the number of data and of erasure fragments.
#[derive(Clone, Copy, Debug, PartialEq, Eq, Structural)]
pub struct PartsParam(pub u64, pub u64);

impl PartsParam {
    /// Parses a pattern that is exactly `<digits>+<digits>`; anything else,
    /// or a number that does not fit in a `u64`, is a `FormatError`.
    pub fn from_str(s: &str) -> (r: Result<PartsParam, ErasureError>)
        ensures
            match r {
                Ok(p) => pattern_numbers(s.spec_bytes()) == Some((p.0 as nat, p.1 as nat)),
                Err(e) => e == ErasureError::FormatError && !(pattern_numbers(s.spec_bytes()) matches Some(
                    v,
                ) && v.0 <= u64::MAX && v.1 <= u64::MAX),
            },
    {
        let b = s.as_bytes();
        let (d, first) = scan_digits(b, 0);
        proof {
            assert(b@.subrange(0, b.len() as int) =~= b@);
        }
        if d < 1 || b.len() - d < 2 || b[d] != 43u8 {
            return Err(ErasureError::FormatError);
        }
        let (e, second) = scan_digits(b, d + 1);
        if e != b.len() {
            return Err(ErasureError::FormatError);
        }
        match (first, second) {
            (Some(x), Some(y)) => Ok(PartsParam(x, y)),
            _ => Err(ErasureError::FormatError),
        }
    }
}

} // verus!
