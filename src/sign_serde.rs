//! The names under which a fragment's sign is stored in the manifest.

use crate::bignum::Sign;
use crate::error::ErasureError;
use vstd::prelude::*;
use vstd::string::StringExecFns;

verus! {

/// `minus`, `no_sign` or `plus`.
pub open spec fn sign_name(s: Sign) -> Seq<char> {
    match s {
        Sign::Minus => seq!['m', 'i', 'n', 'u', 's'],
        Sign::NoSign => seq!['n', 'o', '_', 's', 'i', 'g', 'n'],
        Sign::Plus => seq!['p', 'l', 'u', 's'],
    }
}

/// The sign that a stored name denotes, if any.
pub open spec fn sign_of_name(n: Seq<char>) -> Option<Sign> {
    if n == sign_name(Sign::Minus) {
        Some(Sign::Minus)
    } else if n == sign_name(Sign::NoSign) {
        Some(Sign::NoSign)
    } else if n == sign_name(Sign::Plus) {
        Some(Sign::Plus)
    } else {
        None
    }
}

/// The stored name of a sign.
pub fn serialize(data: &Sign) -> (r: String)
    ensures
        r@ == sign_name(*data),
{
    match data {
        Sign::Minus => {
            let r = String::from_str("minus");
            proof {
                reveal_strlit("minus");
            }
            r
        },
        Sign::NoSign => {
            let r = String::from_str("no_sign");
            proof {
                reveal_strlit("no_sign");
            }
            r
        },
        Sign::Plus => {
            let r = String::from_str("plus");
            proof {
                reveal_strlit("plus");
            }
            r
        },
    }
}

/// The sign that a stored name denotes; any other name is a `FormatError`.
pub fn deserialize(s: &String) -> (r: Result<Sign, ErasureError>)
    ensures
        match r {
            Ok(x) => sign_of_name(s@) == Some(x),
            Err(e) => sign_of_name(s@) is None && e == ErasureError::FormatError,
        },
{
    let minus = serialize(&Sign::Minus);
    let no_sign = serialize(&Sign::NoSign);
    let plus = serialize(&Sign::Plus);
    if *s == minus {
        Ok(Sign::Minus)
    } else if *s == no_sign {
        Ok(Sign::NoSign)
    } else if *s == plus {
        Ok(Sign::Plus)
    } else {
        Err(ErasureError::FormatError)
    }
}

/// A sign read back from its stored name is the sign that was stored.
pub proof fn lemma_sign_name_round_trip(s: Sign)
    ensures
        sign_of_name(sign_name(s)) == Some(s),
{
    assert(sign_name(Sign::Minus) != sign_name(Sign::NoSign));
    assert(sign_name(Sign::Minus)[0] != sign_name(Sign::Plus)[0]);
    assert(sign_name(Sign::NoSign)[0] != sign_name(Sign::Plus)[0]);
}

} // verus!
