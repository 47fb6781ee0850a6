//! Fragments and their metadata.

use crate::bignum::{big_div_i64, big_mul_i64, canonical_form, BigNum, Sign};
use crate::codec::{decode, decoded, encode, encoded_padding, encoded_value};
use crate::error::ErasureError;
use crate::interp::{calc_lagrange_item_at_x, lagrange_den, lagrange_num, lemma_den_nonzero, lemma_trunc_div_cross};
use crate::ratio::Fraction;
use vstd::prelude::*;
use vstd::string::StringExecFns;

verus! {

pub open spec fn digit_char(d: nat) -> char {
    seq!['0', '1', '2', '3', '4', '5', '6', '7', '8', '9'][d as int]
}

/// Decimal digits of `n`, most significant first.
pub open spec fn decimal_chars(n: nat) -> Seq<char>
    decreases n,
{
    if n < 10 {
        seq![digit_char(n)]
    } else {
        decimal_chars(n / 10).push(digit_char(n % 10))
    }
}

/// `.d.block` for a data fragment, `.e.block` for an erasure fragment.
pub open spec fn kind_suffix(is_erasure: bool) -> Seq<char> {
    if is_erasure {
        seq!['.', 'e', '.', 'b', 'l', 'o', 'c', 'k']
    } else {
        seq!['.', 'd', '.', 'b', 'l', 'o', 'c', 'k']
    }
}

/// The character of one decimal digit.
fn digit_str(d: u64) -> (r: &'static str)
    requires
        d < 10,
    ensures
        r@ == seq![digit_char(d as nat)],
{
    match d {
        0 => {
            proof {
                reveal_strlit("0");
            }
            "0"
        },
        1 => {
            proof {
                reveal_strlit("1");
            }
            "1"
        },
        2 => {
            proof {
                reveal_strlit("2");
            }
            "2"
        },
        3 => {
            proof {
                reveal_strlit("3");
            }
            "3"
        },
        4 => {
            proof {
                reveal_strlit("4");
            }
            "4"
        },
        5 => {
            proof {
                reveal_strlit("5");
            }
            "5"
        },
        6 => {
            proof {
                reveal_strlit("6");
            }
            "6"
        },
        7 => {
            proof {
                reveal_strlit("7");
            }
            "7"
        },
        8 => {
            proof {
                reveal_strlit("8");
            }
            "8"
        },
        _ => {
            proof {
                reveal_strlit("9");
            }
            "9"
        },
    }
}

/// Decimal digits of `n`, most significant first, without leading zeros.
fn decimal_string(n: u64) -> (r: String)
    ensures
        r@ == decimal_chars(n as nat),
    decreases n,
{
    if n < 10 {
        let s = digit_str(n);
        String::from_str(s)
    } else {
        let mut s = decimal_string(n / 10);
        s.append(digit_str(n % 10));
        s
    }
}

/// Describes one fragment: the geometry of the set it belongs to, its index,
/// the sign of its value and the head padding used when it was read.
#[derive(Clone, Debug)]
pub struct DataBlockMeta {
    /// Number of data fragments.
    pub data_parts: u64,
    /// This fragment's index.
    pub curr_part: u64,
    /// Number of erasure fragments.
    pub erasure_parts: u64,
    pub sign: Sign,
    pub padding: usize,
    /// Directory that holds the fragment files and the manifest.
    pub work_dir: String,
}

impl DataBlockMeta {
    /// Metadata for a fragment of a fresh encode: positive, no padding yet
    /// (it is recomputed when the fragment is read).
    pub fn load_from_params(work_dir: String, data_parts: u64, curr_part: u64, erasure_parts: u64) -> (r: Self)
        ensures
            r.data_parts == data_parts,
            r.curr_part == curr_part,
            r.erasure_parts == erasure_parts,
            r.sign == Sign::Plus,
            r.padding == 0,
            r.work_dir@ == work_dir@,
    {
        DataBlockMeta { data_parts, curr_part, erasure_parts, sign: Sign::Plus, padding: 0, work_dir }
    }

    pub open spec fn spec_is_erasure(&self) -> bool {
        self.curr_part >= self.data_parts
    }

    /// A fragment is an erasure fragment when its index is past the data fragments.
    pub fn is_erasure_type(&self) -> (r: bool)
        ensures
            r == self.spec_is_erasure(),
    {
        self.curr_part >= self.data_parts
    }

    /// Name of this fragment's file inside the working directory:
    /// `<index>.d.block` or `<index>.e.block`.
    pub fn get_file_name(&self) -> (r: String)
        ensures
            r@ == decimal_chars(self.curr_part as nat) + kind_suffix(self.spec_is_erasure()),
    {
        let mut name = decimal_string(self.curr_part);
        if self.is_erasure_type() {
            name.append(".e.block");
            proof {
                reveal_strlit(".e.block");
            }
        } else {
            name.append(".d.block");
            proof {
                reveal_strlit(".d.block");
            }
        }
        name
    }

    /// `L_j(x)` for this fragment's index `j`, which must be among the known
    /// indices `xs`, with `j`; `None` only where the coefficient does not fit
    /// in machine words.
    #[allow(non_snake_case)]
    pub fn calc_L_item_k_on_x(&self, xs: &[u64], x: u64) -> (r: (u64, Option<Fraction>))
        requires
            xs@.contains(self.curr_part),
        ensures
            r.0 == self.curr_part,
            r.1 matches Some(f) ==> f.wf() && f.lowest() && f.denotes(
                lagrange_num(xs@, self.curr_part as int, x as int),
                lagrange_den(xs@, self.curr_part as int),
            ),
            crate::interp::coefficient_fits(xs@, self.curr_part, x) ==> r.1 is Some,
    {
        let j = self.curr_part;
        (j, calc_lagrange_item_at_x(xs, j, x))
    }

    /// A field-for-field copy.
    pub fn duplicate(&self) -> (r: Self)
        ensures
            r.data_parts == self.data_parts,
            r.curr_part == self.curr_part,
            r.erasure_parts == self.erasure_parts,
            r.sign == self.sign,
            r.padding == self.padding,
            r.work_dir@ == self.work_dir@,
    {
        DataBlockMeta {
            data_parts: self.data_parts,
            curr_part: self.curr_part,
            erasure_parts: self.erasure_parts,
            sign: self.sign,
            padding: self.padding,
            work_dir: self.work_dir.clone(),
        }
    }
}

/// A fragment: its value and its metadata.
#[derive(Debug)]
pub struct DataBlock {
    pub data: BigNum,
    pub meta: DataBlockMeta,
}

impl DataBlock {
    /// Reads a fragment from its stored bytes: the value is the framed bytes
    /// (data fragment) or the bytes themselves (erasure fragment) read as a
    /// little-endian magnitude with the recorded sign, and the head padding is
    /// recomputed. An erasure fragment is stored in whole 64-bit words: any
    /// other length is a `CodecError`.
    pub fn load_data(meta: DataBlockMeta, raw: &Vec<u8>) -> (res: Result<Self, ErasureError>)
        requires
            raw.len() + 32 <= usize::MAX,
        ensures
            res is Err <==> meta.spec_is_erasure() && raw.len() % 8 != 0,
            res matches Err(e) ==> e == ErasureError::CodecError,
            res matches Ok(r) ==> {
                &&& r.data.canonical()
                &&& r.data.value() == encoded_value(raw@, meta.sign, meta.spec_is_erasure())
                &&& r.meta.padding == encoded_padding(raw@, meta.spec_is_erasure())
                &&& r.meta.data_parts == meta.data_parts
                &&& r.meta.curr_part == meta.curr_part
                &&& r.meta.erasure_parts == meta.erasure_parts
                &&& r.meta.sign == meta.sign
                &&& r.meta.work_dir@ == meta.work_dir@
            },
    {
        if meta.is_erasure_type() && raw.len() % 8 != 0 {
            return Err(ErasureError::CodecError);
        }
        let mut meta = meta;
        let (data, padding) = encode(raw, meta.sign, meta.is_erasure_type());
        meta.padding = padding;
        Ok(DataBlock { data, meta })
    }

    /// The bytes to store for this fragment; `CodecError` where its value does
    /// not fit its recorded head padding.
    pub fn dump_data(self) -> (r: Result<Vec<u8>, ErasureError>)
        ensures
            match r {
                Ok(b) => decoded(self.data.value(), self.meta.padding as nat, self.meta.spec_is_erasure())
                    == Some(b@),
                Err(e) => decoded(self.data.value(), self.meta.padding as nat, self.meta.spec_is_erasure()) is None
                    && e == ErasureError::CodecError,
            },
    {
        let value = canonical_form(self.data.sign, &self.data.mag);
        decode(&value, self.meta.padding, self.meta.is_erasure_type())
    }

    /// This fragment's term `y_j * L_j(x)` of the interpolation at `x`, with
    /// truncating division; `None` where the coefficient cannot be computed.
    pub fn calc_lagrange_item(&self, xs: &[u64], x: u64) -> (r: Option<BigNum>)
        requires
            xs@.contains(self.meta.curr_part),
        ensures
            r matches Some(v) ==> v.canonical() && v.value() == crate::interp::lagrange_term(
                self.data.value(),
                xs@,
                self.meta.curr_part as int,
                x as int,
            ),
            crate::interp::coefficient_fits(xs@, self.meta.curr_part, x) ==> r is Some,
    {
        let (_, k) = self.meta.calc_L_item_k_on_x(xs, x);
        match k {
            None => None,
            Some(f) => {
                let t = big_mul_i64(&self.data, f.numer);
                let v = big_div_i64(&t, f.denom);
                proof {
                    let y = self.data.value();
                    let j = self.meta.curr_part as int;
                    let n = lagrange_num(xs@, j, x as int);
                    let d = lagrange_den(xs@, j);
                    lemma_den_nonzero(xs@, j);
                    assert((y * f.numer) * d == (y * n) * f.denom) by (nonlinear_arith)
                        requires
                            f.numer * d == n * f.denom,
                    ;
                    lemma_trunc_div_cross(y * f.numer, f.denom as int, y * n, d);
                }
                Some(v)
            },
        }
    }

    pub fn get_curr_part(&self) -> (r: u64)
        ensures
            r == self.meta.curr_part,
    {
        self.meta.curr_part
    }

    /// `(data_parts, curr_part, erasure_parts)`.
    pub fn get_parts_params(&self) -> (r: (u64, u64, u64))
        ensures
            r == (self.meta.data_parts, self.meta.curr_part, self.meta.erasure_parts),
    {
        (self.meta.data_parts, self.meta.curr_part, self.meta.erasure_parts)
    }
}

} // verus!
