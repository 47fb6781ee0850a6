//! Manifest records: fragment metadata in the form it is stored, with the
//! sign by name.

use crate::bignum::Sign;
use crate::block::DataBlockMeta;
use crate::error::ErasureError;
use crate::sign_serde::{deserialize, lemma_sign_name_round_trip, serialize, sign_name, sign_of_name};
use vstd::prelude::*;

verus! {

/// A manifest record as it is stored: the metadata with the sign by name.
#[derive(Clone, Debug)]
pub struct MetaRecord {
    pub data_parts: u64,
    pub curr_part: u64,
    pub erasure_parts: u64,
    pub sign: String,
    pub padding: usize,
    pub work_dir: String,
}

/// The stored form of a metadata record, field by field.
pub open spec fn record_fields(r: MetaRecord) -> (u64, u64, u64, Seq<char>, usize, Seq<char>) {
    (r.data_parts, r.curr_part, r.erasure_parts, r.sign@, r.padding, r.work_dir@)
}

/// The fields of metadata, with the sign by name.
pub open spec fn meta_fields(m: DataBlockMeta) -> (u64, u64, u64, Seq<char>, usize, Seq<char>) {
    (m.data_parts, m.curr_part, m.erasure_parts, sign_name(m.sign), m.padding, m.work_dir@)
}

/// The metadata that a stored record denotes, if its sign name is known.
pub open spec fn record_meta(r: MetaRecord) -> Option<(u64, u64, u64, Sign, usize, Seq<char>)> {
    match sign_of_name(r.sign@) {
        Some(s) => Some((r.data_parts, r.curr_part, r.erasure_parts, s, r.padding, r.work_dir@)),
        None => None,
    }
}

pub open spec fn plain_fields(m: DataBlockMeta) -> (u64, u64, u64, Sign, usize, Seq<char>) {
    (m.data_parts, m.curr_part, m.erasure_parts, m.sign, m.padding, m.work_dir@)
}

impl MetaRecord {
    /// The record stored for `meta`.
    pub fn from_meta(meta: &DataBlockMeta) -> (r: MetaRecord)
        ensures
            record_fields(r) == meta_fields(*meta),
    {
        MetaRecord {
            data_parts: meta.data_parts,
            curr_part: meta.curr_part,
            erasure_parts: meta.erasure_parts,
            sign: serialize(&meta.sign),
            padding: meta.padding,
            work_dir: meta.work_dir.clone(),
        }
    }

    /// The metadata this record denotes; an unknown sign name is a
    /// `FormatError`.
    pub fn to_meta(&self) -> (r: Result<DataBlockMeta, ErasureError>)
        ensures
            match r {
                Ok(m) => record_meta(*self) == Some(plain_fields(m)),
                Err(e) => record_meta(*self) is None && e == ErasureError::FormatError,
            },
    {
        let sign = match deserialize(&self.sign) {
            Ok(s) => s,
            Err(e) => {
                return Err(e);
            },
        };
        Ok(DataBlockMeta {
            data_parts: self.data_parts,
            curr_part: self.curr_part,
            erasure_parts: self.erasure_parts,
            sign,
            padding: self.padding,
            work_dir: self.work_dir.clone(),
        })
    }
}

/// Manifest idempotence, record by record: the metadata read back from the
/// record stored for `m` is `m`, field for field.
pub proof fn lemma_manifest_round_trip(m: DataBlockMeta, r: MetaRecord)
    requires
        record_fields(r) == meta_fields(m),
    ensures
        record_meta(r) == Some(plain_fields(m)),
{
    lemma_sign_name_round_trip(m.sign);
}

} // verus!
