//! The reversible byte <-> integer codec of fragments.
//!
//! A data fragment's bytes are framed by a head of `0xFF` filler bytes and one
//! trailing `0xFF` byte before they are read as a little-endian magnitude, so
//! that the integer's width always reflects the framed length and the head
//! holds a sentinel word that shows whether interpolation borrowed from it.
//! Erasure fragments are plain magnitudes.

use crate::bignum::{
    abs, big_add, bytes_of, canonical_form, le_digits, le_value, lemma_digits_of_value,
    lemma_top_nonzero_positive, BigNum, Sign,
};
use crate::error::ErasureError;
use vstd::prelude::*;

verus! {

/// Length of the head filler for a fragment whose data plus tail byte is
/// `tail_padded_len` bytes long.
pub open spec fn padding_for(tail_padded_len: nat) -> nat {
    (8 - tail_padded_len % 8 + 16) as nat
}

/// Head padding of a data fragment holding `data_len` bytes.
pub open spec fn head_padding(data_len: nat) -> nat {
    padding_for(data_len + 1)
}

pub open spec fn filler(n: nat) -> Seq<u8> {
    Seq::new(n, |_i: int| 0xFFu8)
}

pub open spec fn zeros(n: nat) -> Seq<u8> {
    Seq::new(n, |_i: int| 0u8)
}

/// The framed bytes of a data fragment.
pub open spec fn framed(data: Seq<u8>) -> Seq<u8> {
    filler(head_padding(data.len())) + data + seq![0xFFu8]
}

/// `sign` applied to the magnitude `n`.
pub open spec fn signed(sign: Sign, n: nat) -> int {
    match sign {
        Sign::Minus => -(n as int),
        Sign::NoSign => 0,
        Sign::Plus => n as int,
    }
}

/// The integer that a fragment's stored bytes encode.
pub open spec fn encoded_value(raw: Seq<u8>, sign: Sign, is_erasure: bool) -> int {
    if is_erasure {
        signed(sign, le_value(raw))
    } else {
        signed(sign, le_value(framed(raw)))
    }
}

/// The head padding recorded for a fragment loaded from `raw`.
pub open spec fn encoded_padding(raw: Seq<u8>, is_erasure: bool) -> nat {
    if is_erasure {
        0
    } else {
        head_padding(raw.len())
    }
}

/// The sentinel word, the last whole 64-bit word inside the head padding, is
/// present and all ones.
pub open spec fn sentinel_intact(m: Seq<u8>, padding: nat) -> bool {
    let w = padding / 8;
    &&& w >= 1
    &&& m.len() >= 8 * w
    &&& forall|i: int| 8 * w - 8 <= i < 8 * w ==> m[i] == 0xFFu8
}

/// The magnitude of `v` as little-endian bytes in whole 64-bit words (none
/// for zero).
pub open spec fn word_bytes(v: int) -> Seq<u8> {
    word_aligned(le_digits(abs(v)))
}

/// A data fragment's value after undoing a borrow that reached its head.
pub open spec fn borrow_corrected(v: int, padding: nat) -> int {
    if sentinel_intact(word_bytes(v), padding) {
        v
    } else {
        v - 1
    }
}

/// Bytes extended with zeros to a whole number of 64-bit words.
pub open spec fn word_aligned(m: Seq<u8>) -> Seq<u8> {
    m + zeros(((8 - m.len() % 8) % 8) as nat)
}

/// The bytes stored for a fragment of value `v`, or `None` where the value
/// does not fit the recorded head padding.
pub open spec fn decoded(v: int, padding: nat, is_erasure: bool) -> Option<Seq<u8>> {
    if is_erasure {
        Some(word_bytes(v))
    } else if padding < 8 {
        None
    } else {
        let m = word_bytes(borrow_corrected(v, padding));
        if m.len() < padding + 1 {
            None
        } else {
            Some(m.subrange(padding as int, m.len() - 1))
        }
    }
}

/// Head padding for a fragment of `tail_padded_len` bytes (data plus the tail
/// byte): enough filler to make the framed length a multiple of eight, plus two
/// whole words.
pub fn calc_padding_size(tail_padded_len: usize) -> (r: usize)
    ensures
        r == padding_for(tail_padded_len as nat),
        17 <= r <= 24,
{
    8 - tail_padded_len % 8 + 8 * 2
}

/// Reads a fragment's stored bytes as an integer with the given sign; returns
/// it with the head padding used (zero for erasure fragments).
pub fn encode(raw: &Vec<u8>, sign: Sign, is_erasure: bool) -> (r: (BigNum, usize))
    requires
        raw.len() + 32 <= usize::MAX,
    ensures
        r.0.canonical(),
        r.0.value() == encoded_value(raw@, sign, is_erasure),
        r.1 == encoded_padding(raw@, is_erasure),
{
    if is_erasure {
        let v = canonical_form(sign, raw);
        return (v, 0);
    }
    let padding = calc_padding_size(raw.len() + 1);
    let mut bytes: Vec<u8> = Vec::new();
    let mut i: usize = 0;
    while i < padding
        invariant
            i <= padding,
            bytes@ == filler(i as nat),
        decreases padding - i,
    {
        bytes.push(0xFFu8);
        i = i + 1;
        proof {
            assert(bytes@ =~= filler(i as nat));
        }
    }
    let mut k: usize = 0;
    while k < raw.len()
        invariant
            k <= raw.len(),
            padding == head_padding(raw.len() as nat),
            bytes@ == filler(padding as nat) + raw@.subrange(0, k as int),
        decreases raw.len() - k,
    {
        bytes.push(raw[k]);
        k = k + 1;
        proof {
            assert(bytes@ =~= filler(padding as nat) + raw@.subrange(0, k as int));
        }
    }
    bytes.push(0xFFu8);
    proof {
        assert(raw@.subrange(0, raw.len() as int) =~= raw@);
        assert(bytes@ =~= framed(raw@));
    }
    let v = canonical_form(sign, &bytes);
    (v, padding)
}

/// Whether the sentinel word of `m` is intact.
fn check_sentinel(m: &Vec<u8>, padding: usize) -> (r: bool)
    ensures
        r == sentinel_intact(m@, padding as nat),
{
    let w = padding / 8;
    if w < 1 || m.len() / 8 < w {
        return false;
    }
    let mut i: usize = 8 * w - 8;
    while i < 8 * w
        invariant
            1 <= w,
            w == padding / 8,
            8 * w <= m.len(),
            8 * w - 8 <= i <= 8 * w,
            forall|t: int| 8 * w - 8 <= t < i ==> m@[t] == 0xFFu8,
        decreases 8 * w - i,
    {
        if m[i] != 0xFFu8 {
            assert(!(m@[i as int] == 0xFFu8));
            assert(!sentinel_intact(m@, padding as nat));
            return false;
        }
        i = i + 1;
    }
    true
}

/// The stored bytes of a data fragment whose corrected magnitude bytes are `m`.
fn unframe(m: &Vec<u8>, padding: usize) -> (r: Result<Vec<u8>, ErasureError>)
    ensures
        match r {
            Ok(b) => m.len() >= padding + 1 && b@ == m@.subrange(padding as int, m.len() - 1),
            Err(e) => m.len() < padding + 1 && e == ErasureError::CodecError,
        },
{
    if m.len() < 1 || m.len() - 1 < padding {
        return Err(ErasureError::CodecError);
    }
    let end = m.len() - 1;
    let mut out: Vec<u8> = Vec::new();
    let mut i: usize = padding;
    while i < end
        invariant
            padding <= i <= end,
            end == m.len() - 1,
            out@ == m@.subrange(padding as int, i as int),
        decreases end - i,
    {
        out.push(m[i]);
        i = i + 1;
        proof {
            assert(out@ =~= m@.subrange(padding as int, i as int));
        }
    }
    Ok(out)
}

/// The magnitude of a canonical value in whole 64-bit words.
fn aligned_magnitude(value: &BigNum) -> (out: Vec<u8>)
    requires
        value.canonical(),
    ensures
        out@ == word_bytes(value.value()),
{
    let mut out: Vec<u8> = Vec::new();
    if value.sign != Sign::NoSign {
        let mut i: usize = 0;
        while i < value.mag.len()
            invariant
                i <= value.mag.len(),
                out@ == value.mag@.subrange(0, i as int),
            decreases value.mag.len() - i,
        {
            out.push(value.mag[i]);
            i = i + 1;
            proof {
                assert(out@ =~= value.mag@.subrange(0, i as int));
            }
        }
        proof {
            assert(out@ =~= value.mag@);
        }
    } else {
        proof {
            assert(out@ =~= le_digits(0));
        }
    }
    let ghost digits = out@;
    while out.len() % 8 != 0
        invariant
            digits.len() <= out.len() <= digits.len() + 8,
            out@ == digits + zeros((out.len() - digits.len()) as nat),
            out.len() % 8 != 0 ==> out.len() - digits.len() < (8 - digits.len() % 8) % 8,
            out.len() % 8 == 0 ==> out.len() - digits.len() == (8 - digits.len() % 8) % 8,
        decreases digits.len() + 8 - out.len(),
    {
        out.push(0u8);
        proof {
            assert(out@ =~= digits + zeros((out.len() - digits.len()) as nat));
        }
    }
    out
}

/// Writes out a fragment's value as the bytes to store, from its magnitude
/// in whole 64-bit words. For a data fragment whose sentinel word was
/// disturbed by a borrow the value is first decremented by one; then the head
/// padding and the tail byte are stripped. An erasure fragment is stored as
/// those words.
pub fn decode(value: &BigNum, padding: usize, is_erasure: bool) -> (r: Result<
    Vec<u8>,
    ErasureError,
>)
    requires
        value.canonical(),
    ensures
        match r {
            Ok(b) => decoded(value.value(), padding as nat, is_erasure) == Some(b@),
            Err(e) => decoded(value.value(), padding as nat, is_erasure) is None && e
                == ErasureError::CodecError,
        },
{
    let m = aligned_magnitude(value);
    if is_erasure {
        return Ok(m);
    }
    if padding < 8 {
        return Err(ErasureError::CodecError);
    }
    if check_sentinel(&m, padding) {
        unframe(&m, padding)
    } else {
        let minus_one = BigNum { sign: Sign::Minus, mag: vec![1u8] };
        proof {
            assert(minus_one.mag@.subrange(1, 1) =~= Seq::<u8>::empty());
            assert(le_value(Seq::<u8>::empty()) == 0);
            assert(le_value(minus_one.mag@) == 1);
        }
        let corrected = big_add(value, &minus_one);
        let m2 = aligned_magnitude(&corrected);
        unframe(&m2, padding)
    }
}

/// Round trip: the bytes of a data fragment, read as an integer and written
/// back with the head padding recorded at load, come back unchanged.
pub proof fn lemma_round_trip(data: Seq<u8>)
    ensures
        decoded(encoded_value(data, Sign::Plus, false), encoded_padding(data, false), false)
            == Some(data),
{
    let s = framed(data);
    let pad = head_padding(data.len());
    assert(s[s.len() - 1] == 0xFFu8);
    lemma_top_nonzero_positive(s);
    lemma_digits_of_value(s);
    let v = encoded_value(data, Sign::Plus, false);
    assert(v == le_value(s) as int);
    assert(le_digits(abs(v)) == s);
    assert((pad + data.len() + 1) % 8 == 0) by (nonlinear_arith)
        requires
            pad == 8 - (data.len() + 1) % 8 + 16,
    ;
    assert(s.len() % 8 == 0);
    assert(word_bytes(v) =~= s);
    let w = pad / 8;
    assert(17 <= pad <= 24);
    assert(2 <= w <= 3);
    assert(8 * w <= pad);
    assert forall|i: int| 8 * w - 8 <= i < 8 * w implies s[i] == 0xFFu8 by {
        assert(s[i] == filler(pad)[i]);
    }
    assert(sentinel_intact(s, pad));
    assert(borrow_corrected(v, pad) == v);
    assert(s.subrange(pad as int, s.len() - 1) =~= data);
}

pub open spec fn pow256(n: nat) -> nat
    decreases n,
{
    if n == 0 {
        1
    } else {
        256 * pow256((n - 1) as nat)
    }
}

proof fn lemma_le_value_concat(a: Seq<u8>, b: Seq<u8>)
    ensures
        le_value(a + b) == le_value(a) + pow256(a.len()) * le_value(b),
    decreases a.len(),
{
    if a.len() == 0 {
        assert(a + b =~= b);
    } else {
        let rest = a.subrange(1, a.len() as int);
        lemma_le_value_concat(rest, b);
        assert((a + b).subrange(1, (a + b).len() as int) =~= rest + b);
        let p = pow256(rest.len());
        let lb = le_value(b);
        let ab = a + b;
        assert(le_value(ab) == ab[0] as nat + 256 * le_value(ab.subrange(1, ab.len() as int)));
        assert(ab[0] == a[0]);
        assert(le_value(a) == a[0] as nat + 256 * le_value(rest));
        assert(pow256(a.len()) == 256 * p);
        assert(256 * (le_value(rest) + p * lb) == 256 * le_value(rest) + (256 * p) * lb)
            by (nonlinear_arith);
    }
}

proof fn lemma_filler_value(n: nat)
    ensures
        le_value(filler(n)) + 1 == pow256(n),
    decreases n,
{
    if n > 0 {
        lemma_filler_value((n - 1) as nat);
        assert(filler(n).subrange(1, n as int) =~= filler((n - 1) as nat));
    } else {
        assert(filler(0) =~= Seq::<u8>::empty());
    }
}

proof fn lemma_digits_shift(n: nat, m: nat)
    requires
        m > 0,
    ensures
        le_digits(pow256(n) * m) == zeros(n) + le_digits(m),
    decreases n,
{
    if n == 0 {
        assert(pow256(0) == 1);
        assert(pow256(0) * m == m) by (nonlinear_arith)
            requires
                pow256(0) == 1,
        ;
        assert(zeros(0) + le_digits(m) =~= le_digits(m));
    } else {
        let k = pow256((n - 1) as nat) * m;
        lemma_digits_shift((n - 1) as nat, m);
        assert(pow256(n) * m == 256 * k) by (nonlinear_arith)
            requires
                pow256(n) == 256 * pow256((n - 1) as nat),
                k == pow256((n - 1) as nat) * m,
        ;
        assert(k > 0) by (nonlinear_arith)
            requires
                pow256((n - 1) as nat) > 0,
                m > 0,
                k == pow256((n - 1) as nat) * m,
        ;
        assert((256 * k) % 256 == 0 && (256 * k) / 256 == k) by (nonlinear_arith);
        assert(256 * k != 0);
        assert(le_digits((256 * k) as nat) == seq![((256 * k) % 256) as u8] + le_digits(((256 * k) / 256) as nat));
        assert(((256 * k) % 256) as u8 == 0u8);
        assert(le_digits(pow256(n) * m) == seq![0u8] + le_digits(k));
        assert(zeros(n) + le_digits(m) =~= seq![0u8] + (zeros((n - 1) as nat) + le_digits(m)));
    }
}

proof fn lemma_pow256_positive(n: nat)
    ensures
        pow256(n) > 0,
    decreases n,
{
    if n > 0 {
        lemma_pow256_positive((n - 1) as nat);
    }
}

/// A data fragment rebuilt one above or one below its true value still
/// decodes to its bytes: one below leaves the sentinel word intact and only
/// touches the head filler; one above carries through the whole head, which
/// the sentinel word shows and decoding undoes.
pub proof fn lemma_decode_tolerates_off_by_one(data: Seq<u8>, e: int)
    requires
        -1 <= e <= 1,
    ensures
        decoded(encoded_value(data, Sign::Plus, false) + e, encoded_padding(data, false), false) == Some(
            data,
        ),
{
    lemma_round_trip(data);
    let s = framed(data);
    let pad = head_padding(data.len());
    let v = encoded_value(data, Sign::Plus, false);
    let w = pad / 8;
    assert(17 <= pad <= 24 && 2 <= w <= 3 && 8 * w <= pad);
    assert(s[s.len() - 1] == 0xFFu8);
    lemma_top_nonzero_positive(s);
    lemma_digits_of_value(s);
    assert(v == le_value(s) as int);
    if e == -1 {
        let t = s.update(0, 0xFEu8);
        assert(t.subrange(1, t.len() as int) =~= s.subrange(1, s.len() as int));
        assert(le_value(t) + 1 == le_value(s));
        assert(t[t.len() - 1] == 0xFFu8);
        lemma_top_nonzero_positive(t);
        lemma_digits_of_value(t);
        assert(bytes_of(abs(v + e)) == t);
        assert forall|i: int| 8 * w - 8 <= i < 8 * w implies t[i] == 0xFFu8 by {
            assert(s[i] == filler(pad)[i]);
        }
        assert(sentinel_intact(t, pad));
        assert(t.subrange(pad as int, t.len() - 1) =~= s.subrange(pad as int, s.len() - 1));
    } else if e == 1 {
        let upper = data + seq![0xFFu8];
        assert(s =~= filler(pad) + upper);
        lemma_le_value_concat(filler(pad), upper);
        lemma_filler_value(pad);
        let m = le_value(upper);
        assert(upper[upper.len() - 1] == 0xFFu8);
        lemma_top_nonzero_positive(upper);
        let f = le_value(filler(pad));
        let pp = pow256(pad);
        assert(v == f + pp * m);
        assert(v + 1 == pp * (m + 1)) by (nonlinear_arith)
            requires
                v == f + pp * m,
                f + 1 == pp,
        ;
        lemma_digits_shift(pad, (m + 1) as nat);
        let t = le_digits(pow256(pad) * (m + 1));
        assert(t == zeros(pad) + le_digits((m + 1) as nat));
        lemma_pow256_positive(pad);
        assert(pow256(pad) * (m + 1) > 0) by (nonlinear_arith)
            requires
                pow256(pad) > 0,
                m + 1 > 0,
        ;
        assert(bytes_of(abs(v + e)) == t);
        assert(t[8 * w - 8] == 0u8);
        assert(word_bytes(v + e) == word_aligned(t));
        assert(word_aligned(t)[8 * w - 8] == 0u8);
        assert(!sentinel_intact(word_aligned(t), pad));
        assert(borrow_corrected(v + e, pad) == v);
    }
}

proof fn lemma_zeros_value(n: nat)
    ensures
        le_value(zeros(n)) == 0,
    decreases n,
{
    if n > 0 {
        assert(zeros(n).subrange(1, n as int) =~= zeros((n - 1) as nat));
        lemma_zeros_value((n - 1) as nat);
    } else {
        assert(zeros(0) =~= Seq::<u8>::empty());
    }
}

proof fn lemma_value_of_digits(n: nat)
    ensures
        le_value(le_digits(n)) == n,
    decreases n,
{
    if n > 0 {
        lemma_value_of_digits(n / 256);
        let d = le_digits(n);
        assert(d.subrange(1, d.len() as int) =~= le_digits(n / 256));
        assert(d[0] as nat == n % 256);
    } else {
        assert(le_digits(0) =~= Seq::<u8>::empty());
    }
}

/// Round trip of an erasure fragment: the bytes stored for a value, read
/// back with the value's sign, give the value.
pub proof fn lemma_erasure_round_trip(v: int)
    ensures
        decoded(v, 0, true) matches Some(b) && encoded_value(b, crate::bignum::sign_of(v), true) == v,
{
    let d = le_digits(abs(v));
    let b = word_aligned(d);
    lemma_le_value_concat(d, zeros(((8 - d.len() % 8) % 8) as nat));
    lemma_zeros_value(((8 - d.len() % 8) % 8) as nat);
    lemma_value_of_digits(abs(v));
    assert(le_value(b) == abs(v));
}

} // verus!
