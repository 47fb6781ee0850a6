//! Signed arbitrary-precision integers held as a sign and little-endian
//! magnitude bytes; arithmetic is delegated to `num_bigint`.

use num_bigint::BigInt;
use num_bigint::Sign as NumSign;
use vstd::prelude::*;

verus! {

/// The sign of a fragment's value, stored beside its magnitude.
#[derive(Clone, Copy, Debug, PartialEq, Eq, Structural)]
pub enum Sign {
    Minus,
    NoSign,
    Plus,
}

/// Value of little-endian base-256 digits.
pub open spec fn le_value(s: Seq<u8>) -> nat
    decreases s.len(),
{
    if s.len() == 0 {
        0
    } else {
        s[0] as nat + 256 * le_value(s.subrange(1, s.len() as int))
    }
}

/// Minimal little-endian digits of `n` (empty for zero).
pub open spec fn le_digits(n: nat) -> Seq<u8>
    decreases n,
{
    if n == 0 {
        Seq::empty()
    } else {
        seq![(n % 256) as u8] + le_digits(n / 256)
    }
}

/// The byte expansion that `num_bigint` hands out for a magnitude: zero is one
/// zero byte, anything else its minimal digits.
pub open spec fn bytes_of(n: nat) -> Seq<u8> {
    if n == 0 {
        seq![0u8]
    } else {
        le_digits(n)
    }
}

pub open spec fn sign_of(v: int) -> Sign {
    if v < 0 {
        Sign::Minus
    } else if v == 0 {
        Sign::NoSign
    } else {
        Sign::Plus
    }
}

pub open spec fn abs(v: int) -> nat {
    if v < 0 {
        (-v) as nat
    } else {
        v as nat
    }
}

/// Integer division rounding toward zero, as Rust's integer types divide.
pub open spec fn trunc_div(a: int, b: int) -> int {
    let q = (abs(a) / abs(b)) as int;
    if (a < 0) != (b < 0) {
        -q
    } else {
        q
    }
}

/// A signed big integer: a sign and the little-endian bytes of its magnitude.
#[derive(Clone, Debug)]
pub struct BigNum {
    pub sign: Sign,
    pub mag: Vec<u8>,
}

impl BigNum {
    /// The integer denoted; `NoSign` denotes zero whatever the bytes hold.
    pub open spec fn value(&self) -> int {
        match self.sign {
            Sign::Minus => -(le_value(self.mag@) as int),
            Sign::NoSign => 0,
            Sign::Plus => le_value(self.mag@) as int,
        }
    }

    /// The canonical form that the arithmetic hands back.
    pub open spec fn canonical(&self) -> bool {
        self.sign == sign_of(self.value()) && self.mag@ == bytes_of(abs(self.value()))
    }

}

/// Relies on `num_bigint`'s `BigInt::from_bytes_le`, `Add` and `to_bytes_le`:
/// exact addition, handed back with the minimal magnitude bytes.
#[verifier::external_body]
pub(crate) fn big_add(a: &BigNum, b: &BigNum) -> (r: BigNum)
    ensures
        r.value() == a.value() + b.value(),
        r.canonical(),
{
    let sa = match a.sign { Sign::Minus => NumSign::Minus, Sign::NoSign => NumSign::NoSign, Sign::Plus => NumSign::Plus };
    let sb = match b.sign { Sign::Minus => NumSign::Minus, Sign::NoSign => NumSign::NoSign, Sign::Plus => NumSign::Plus };
    let (s, mag) = (BigInt::from_bytes_le(sa, &a.mag) + BigInt::from_bytes_le(sb, &b.mag)).to_bytes_le();
    let sign = match s { NumSign::Minus => Sign::Minus, NumSign::NoSign => Sign::NoSign, NumSign::Plus => Sign::Plus };
    BigNum { sign, mag }
}

/// Relies on `num_bigint`'s `Mul<i64> for BigInt`: exact multiplication.
#[verifier::external_body]
pub(crate) fn big_mul_i64(a: &BigNum, k: i64) -> (r: BigNum)
    ensures
        r.value() == a.value() * k,
        r.canonical(),
{
    let sa = match a.sign { Sign::Minus => NumSign::Minus, Sign::NoSign => NumSign::NoSign, Sign::Plus => NumSign::Plus };
    let (s, mag) = (BigInt::from_bytes_le(sa, &a.mag) * k).to_bytes_le();
    let sign = match s { NumSign::Minus => Sign::Minus, NumSign::NoSign => Sign::NoSign, NumSign::Plus => Sign::Plus };
    BigNum { sign, mag }
}

/// Relies on `num_bigint`'s `Div<i64> for BigInt`, which divides the magnitude
/// and keeps the sign rule of the primitive integers: it rounds toward zero.
/// It panics on a zero divisor.
#[verifier::external_body]
pub(crate) fn big_div_i64(a: &BigNum, d: i64) -> (r: BigNum)
    requires
        d != 0,
    ensures
        r.value() == trunc_div(a.value(), d as int),
        r.canonical(),
{
    let sa = match a.sign { Sign::Minus => NumSign::Minus, Sign::NoSign => NumSign::NoSign, Sign::Plus => NumSign::Plus };
    let (s, mag) = (BigInt::from_bytes_le(sa, &a.mag) / d).to_bytes_le();
    let sign = match s { NumSign::Minus => Sign::Minus, NumSign::NoSign => Sign::NoSign, NumSign::Plus => Sign::Plus };
    BigNum { sign, mag }
}

/// A non-empty digit string whose top digit is not zero denotes a positive number.
pub proof fn lemma_top_nonzero_positive(s: Seq<u8>)
    requires
        s.len() > 0,
        s[s.len() - 1] != 0,
    ensures
        le_value(s) > 0,
    decreases s.len(),
{
    if s.len() > 1 {
        let rest = s.subrange(1, s.len() as int);
        assert(rest[rest.len() - 1] == s[s.len() - 1]);
        lemma_top_nonzero_positive(rest);
    }
}

/// Minimal digits are recovered from their value.
pub proof fn lemma_digits_of_value(s: Seq<u8>)
    requires
        s.len() > 0,
        s[s.len() - 1] != 0,
    ensures
        le_digits(le_value(s)) == s,
    decreases s.len(),
{
    let n = le_value(s);
    let rest = s.subrange(1, s.len() as int);
    lemma_top_nonzero_positive(s);
    assert(n % 256 == s[0] as nat && n / 256 == le_value(rest)) by (nonlinear_arith)
        requires
            n == s[0] as nat + 256 * le_value(rest),
            s[0] < 256,
    ;
    if s.len() == 1 {
        assert(le_value(rest) == 0);
        assert(le_digits(0) =~= Seq::<u8>::empty());
        assert(le_digits(n) =~= s);
    } else {
        assert(rest[rest.len() - 1] == s[s.len() - 1]);
        lemma_digits_of_value(rest);
        assert(le_digits(n) =~= s);
    }
}

/// A zero top digit adds nothing to the value.
pub proof fn lemma_drop_zero_top(s: Seq<u8>)
    requires
        s.len() > 0,
        s[s.len() - 1] == 0,
    ensures
        le_value(s) == le_value(s.drop_last()),
    decreases s.len(),
{
    if s.len() == 1 {
        assert(le_value(s.subrange(1, 1)) == 0);
        assert(le_value(s.drop_last()) == 0);
    } else {
        let rest = s.subrange(1, s.len() as int);
        assert(rest[rest.len() - 1] == 0);
        lemma_drop_zero_top(rest);
        assert(rest.drop_last() =~= s.drop_last().subrange(1, s.len() - 1));
    }
}

/// Builds the canonical form of `sign` applied to the magnitude `mag`.
pub fn canonical_form(sign: Sign, mag: &Vec<u8>) -> (r: BigNum)
    ensures
        r.canonical(),
        r.value() == (BigNum { sign, mag: *mag }).value(),
{
    let mut n: usize = mag.len();
    proof {
        assert(mag@.subrange(0, mag.len() as int) =~= mag@);
    }
    while n > 0 && mag[n - 1] == 0
        invariant
            n <= mag.len(),
            le_value(mag@.subrange(0, n as int)) == le_value(mag@),
        decreases n,
    {
        proof {
            let t = mag@.subrange(0, n as int);
            lemma_drop_zero_top(t);
            assert(t.drop_last() =~= mag@.subrange(0, n - 1));
        }
        n = n - 1;
    }
    if n == 0 || sign == Sign::NoSign {
        proof {
            assert(le_value(seq![0u8]) == 0) by {
                assert(seq![0u8].subrange(1, 1) =~= Seq::<u8>::empty());
                assert(le_value(Seq::<u8>::empty()) == 0);
                assert(le_value(seq![0u8]) == 0u8 as nat + 256 * le_value(seq![0u8].subrange(1, 1)));
            }
            assert(n == 0 ==> mag@.subrange(0, n as int) =~= Seq::<u8>::empty());
            assert(le_value(Seq::<u8>::empty()) == 0);
        }
        let zero = vec![0u8];
        assert(zero@ =~= seq![0u8]);
        return BigNum { sign: Sign::NoSign, mag: zero };
    }
    let mut out: Vec<u8> = Vec::new();
    let mut i: usize = 0;
    while i < n
        invariant
            i <= n <= mag.len(),
            out@ == mag@.subrange(0, i as int),
        decreases n - i,
    {
        out.push(mag[i]);
        i = i + 1;
        proof {
            assert(out@ =~= mag@.subrange(0, i as int));
        }
    }
    proof {
        lemma_top_nonzero_positive(out@);
        lemma_digits_of_value(out@);
    }
    BigNum { sign, mag: out }
}

}
