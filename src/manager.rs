//! Encode and rebuild workflows over a working set of fragments. Reading and
//! writing files is left to the caller: the workflows take fragment contents
//! and hand back the metadata and bytes to store.

use crate::bignum::sign_of;
use crate::block::{DataBlock, DataBlockMeta};
use crate::codec::{
    decode, decoded, encoded_padding, encoded_value, lemma_erasure_round_trip, lemma_round_trip,
};
use crate::error::ErasureError;
use crate::interp::{
    all_coefficients_fit, block_indices, block_points, distinct, interp_value,
    interpolate_all_and_dump, lemma_single_point, lowest_block, lowest_meta, missing_upto,
    total_parts,
};
use crate::names::PartsParam;
use vstd::prelude::*;

verus! {

/// Two metadata records agree field for field.
pub open spec fn same_meta(a: DataBlockMeta, b: DataBlockMeta) -> bool {
    &&& a.data_parts == b.data_parts
    &&& a.curr_part == b.curr_part
    &&& a.erasure_parts == b.erasure_parts
    &&& a.sign == b.sign
    &&& a.padding == b.padding
    &&& a.work_dir@ == b.work_dir@
}

/// The head padding recorded for index `idx` by the first manifest record
/// that has it.
pub open spec fn recorded_padding(records: Seq<DataBlockMeta>, idx: u64) -> Option<usize>
    decreases records.len(),
{
    if records.len() == 0 {
        None
    } else if records[0].curr_part == idx {
        Some(records[0].padding)
    } else {
        recorded_padding(records.subrange(1, records.len() as int), idx)
    }
}

/// Head padding of a rebuilt fragment: none for an erasure fragment; for a
/// data fragment the one the manifest recorded when it was read, else that of
/// the first known fragment.
pub open spec fn rebuilt_padding(records: Seq<DataBlockMeta>, b0: DataBlockMeta, idx: u64) -> usize {
    if idx >= b0.data_parts {
        0
    } else {
        match recorded_padding(records, idx) {
            Some(p) => p,
            None => b0.padding,
        }
    }
}

/// A fragment file to write: its metadata and its bytes.
#[derive(Debug)]
pub struct FragmentFile {
    pub meta: DataBlockMeta,
    pub bytes: Vec<u8>,
}

/// What a reconstruction produces: the full manifest, in index order, and
/// the files of the fragments that were computed.
#[derive(Debug)]
pub struct Reconstruction {
    pub metas: Vec<DataBlockMeta>,
    pub outputs: Vec<FragmentFile>,
}

/// The working set: the known fragments and the manifest they came from.
#[derive(Debug)]
pub struct Manager {
    pub blocks: Vec<DataBlock>,
    pub records: Vec<DataBlockMeta>,
}

/// A stored content can be read as the fragment that `rec` describes.
pub open spec fn loadable(rec: DataBlockMeta, raw: Seq<u8>) -> bool {
    raw.len() + 32 <= usize::MAX && !(rec.spec_is_erasure() && raw.len() % 8 != 0)
}

/// `b` is the fragment read from `raw` as record `rec` describes it.
pub open spec fn loaded_from(b: DataBlock, rec: DataBlockMeta, raw: Seq<u8>) -> bool {
    &&& b.meta.data_parts == rec.data_parts
    &&& b.meta.curr_part == rec.curr_part
    &&& b.meta.erasure_parts == rec.erasure_parts
    &&& b.meta.sign == rec.sign
    &&& b.meta.work_dir@ == rec.work_dir@
    &&& b.meta.padding == encoded_padding(raw, rec.spec_is_erasure())
    &&& b.data.canonical()
    &&& b.data.value() == encoded_value(raw, rec.sign, rec.spec_is_erasure())
}

/// Positions of the present entries, in order.
pub open spec fn present_positions(c: Seq<Option<Vec<u8>>>) -> Seq<int>
    decreases c.len(),
{
    if c.len() == 0 {
        Seq::empty()
    } else if c.last() is Some {
        present_positions(c.drop_last()).push(c.len() - 1)
    } else {
        present_positions(c.drop_last())
    }
}

proof fn lemma_missing_prefix(xs: Seq<u64>, m: nat, n: nat)
    requires
        m <= n,
    ensures
        missing_upto(xs, m).len() <= missing_upto(xs, n).len(),
        forall|t: int| 0 <= t < missing_upto(xs, m).len() ==> missing_upto(xs, m)[t] == missing_upto(xs, n)[t],
    decreases n,
{
    if m < n {
        lemma_missing_prefix(xs, m, (n - 1) as nat);
    }
}

fn find_recorded_padding(records: &Vec<DataBlockMeta>, idx: u64) -> (r: Option<usize>)
    ensures
        r == recorded_padding(records@, idx),
{
    let mut i: usize = 0;
    proof {
        assert(records@.subrange(0, records.len() as int) =~= records@);
    }
    while i < records.len()
        invariant
            i <= records.len(),
            recorded_padding(records@, idx) == recorded_padding(records@.subrange(i as int, records.len() as int), idx),
        decreases records.len() - i,
    {
        let ghost rest = records@.subrange(i as int, records.len() as int);
        proof {
            assert(rest.subrange(1, rest.len() as int) =~= records@.subrange(i + 1, records.len() as int));
        }
        if records[i].curr_part == idx {
            return Some(records[i].padding);
        }
        i = i + 1;
    }
    None
}

fn find_block(blocks: &Vec<DataBlock>, idx: u64) -> (r: Option<usize>)
    ensures
        r matches Some(p) ==> p < blocks.len() && blocks@[p as int].meta.curr_part == idx,
        r is None ==> !block_indices(blocks@).contains(idx),
{
    let mut i: usize = 0;
    while i < blocks.len()
        invariant
            i <= blocks.len(),
            forall|t: int| 0 <= t < i ==> blocks@[t].meta.curr_part != idx,
        decreases blocks.len() - i,
    {
        if blocks[i].meta.curr_part == idx {
            return Some(i);
        }
        i = i + 1;
    }
    proof {
        if block_indices(blocks@).contains(idx) {
            let t = choose|t: int| 0 <= t < blocks.len() && block_indices(blocks@)[t] == idx;
            assert(blocks@[t].meta.curr_part == idx);
        }
    }
    None
}

impl Manager {
    /// Rebuilding this working set is owed: the known fragments have distinct
    /// indices and are at least as many as the data fragments, every needed
    /// Lagrange coefficient fits in machine words, and every computed value
    /// fits the head padding it will be stored with.
    pub open spec fn rebuildable(&self) -> bool {
        let blocks = self.blocks@;
        let xs = block_indices(blocks);
        let b0 = lowest_meta(blocks);
        let miss = missing_upto(xs, total_parts(b0) as nat);
        &&& blocks.len() > 0
        &&& distinct(xs)
        &&& blocks.len() >= b0.data_parts
        &&& total_parts(b0) <= u64::MAX
        &&& forall|x: u64| x < total_parts(b0) && !xs.contains(x) ==> all_coefficients_fit(blocks, xs, x)
        &&& forall|k: int|
            0 <= k < miss.len() ==> (decoded(
                interp_value(block_points(blocks), xs, miss[k] as int),
                rebuilt_padding(self.records@, b0, miss[k]) as nat,
                miss[k] >= b0.data_parts,
            ) is Some)
    }

    /// The working set of a fresh encode: data fragment `k` read from
    /// `contents[k]`, positive, for every `k` below the number of data
    /// fragments. `InternalInvariantViolation` where the number of contents
    /// differs from it; `CodecError` where a content is too long to frame.
    pub fn new(parts_params: PartsParam, work_dir: &String, contents: &Vec<Vec<u8>>) -> (r: Result<Self, ErasureError>)
        ensures
            contents.len() != parts_params.0 ==> r == Err::<Self, ErasureError>(ErasureError::InternalInvariantViolation),
            contents.len() == parts_params.0 && (forall|k: int| 0 <= k < contents.len() ==> contents@[k].len() + 32 <= usize::MAX)
                ==> r is Ok,
            r matches Ok(m) ==> {
                &&& m.blocks.len() == contents.len()
                &&& m.records.len() == contents.len()
                &&& forall|k: int| 0 <= k < m.blocks.len() ==> {
                    let b = #[trigger] m.blocks@[k];
                    &&& b.meta.data_parts == parts_params.0
                    &&& b.meta.erasure_parts == parts_params.1
                    &&& b.meta.curr_part == k
                    &&& b.meta.sign == crate::bignum::Sign::Plus
                    &&& b.meta.work_dir@ == work_dir@
                    &&& b.meta.padding == encoded_padding(contents@[k]@, false)
                    &&& b.data.canonical()
                    &&& b.data.value() == encoded_value(contents@[k]@, crate::bignum::Sign::Plus, false)
                    &&& same_meta(m.records@[k], b.meta)
                }
            },
    {
        let PartsParam(data_parts, erasure_parts) = parts_params;
        if contents.len() as u64 != data_parts {
            return Err(ErasureError::InternalInvariantViolation);
        }
        let mut blocks: Vec<DataBlock> = Vec::new();
        let mut records: Vec<DataBlockMeta> = Vec::new();
        let mut k: usize = 0;
        while k < contents.len()
            invariant
                contents.len() == data_parts,
                data_parts == parts_params.0,
                erasure_parts == parts_params.1,
                k <= contents.len(),
                blocks.len() == k,
                records.len() == k,
                forall|t: int| 0 <= t < k ==> {
                    let b = #[trigger] blocks@[t];
                    &&& b.meta.data_parts == data_parts
                    &&& b.meta.erasure_parts == erasure_parts
                    &&& b.meta.curr_part == t
                    &&& b.meta.sign == crate::bignum::Sign::Plus
                    &&& b.meta.work_dir@ == work_dir@
                    &&& b.meta.padding == encoded_padding(contents@[t]@, false)
                    &&& b.data.canonical()
                    &&& b.data.value() == encoded_value(contents@[t]@, crate::bignum::Sign::Plus, false)
                    &&& same_meta(records@[t], b.meta)
                },
            decreases contents.len() - k,
        {
            if contents[k].len() > usize::MAX - 32 {
                return Err(ErasureError::CodecError);
            }
            let meta = DataBlockMeta::load_from_params(work_dir.clone(), data_parts, k as u64, erasure_parts);
            let block = match DataBlock::load_data(meta, &contents[k]) {
                Ok(b) => b,
                Err(e) => {
                    return Err(e);
                },
            };
            records.push(block.meta.duplicate());
            blocks.push(block);
            k = k + 1;
        }
        Ok(Manager { blocks, records })
    }

    /// The working set of a rebuild: the manifest `meta_list`, and the
    /// fragments whose files could be read, `contents[k]` being the file of
    /// record `k`, ordered by index. `InternalInvariantViolation` where the
    /// two lists differ in length; `CodecError` where a present content cannot
    /// be read as its fragment (an erasure fragment not in whole words, or a
    /// content too long to frame).
    pub fn load_from_meta(meta_list: Vec<DataBlockMeta>, contents: &Vec<Option<Vec<u8>>>) -> (r: Result<Self, ErasureError>)
        ensures
            contents.len() != meta_list.len() ==> r == Err::<Self, ErasureError>(ErasureError::InternalInvariantViolation),
            contents.len() == meta_list.len() ==> (r is Ok <==> forall|k: int|
                0 <= k < contents.len() && contents@[k] is Some ==> loadable(meta_list@[k], contents@[k]->0@)),
            r matches Err(e) ==> e == ErasureError::InternalInvariantViolation || e == ErasureError::CodecError,
            r matches Ok(m) ==> {
                &&& m.records@ == meta_list@
                &&& m.blocks.len() == present_positions(contents@).len()
                &&& forall|a: int, b: int| 0 <= a < b < m.blocks.len() ==> m.blocks@[a].meta.curr_part
                    <= m.blocks@[b].meta.curr_part
                &&& exists|origin: Seq<int>| {
                    &&& origin.len() == m.blocks.len()
                    &&& forall|a: int, b: int| 0 <= a < b < origin.len() ==> origin[a] != origin[b]
                    &&& forall|t: int| 0 <= t < origin.len() ==> {
                        &&& 0 <= #[trigger] origin[t] < contents.len()
                        &&& contents@[origin[t]] is Some
                        &&& loaded_from(m.blocks@[t], meta_list@[origin[t]], contents@[origin[t]]->0@)
                    }
                }
            },
    {
        if contents.len() != meta_list.len() {
            return Err(ErasureError::InternalInvariantViolation);
        }
        let mut loaded: Vec<DataBlock> = Vec::new();
        let mut k: usize = 0;
        let ghost mut pk: Seq<int> = Seq::empty();
        proof {
            assert(contents@.subrange(0, 0) =~= Seq::<Option<Vec<u8>>>::empty());
        }
        while k < contents.len()
            invariant
                contents.len() == meta_list.len(),
                k <= contents.len(),
                forall|t: int| 0 <= t < k && contents@[t] is Some ==> loadable(meta_list@[t], contents@[t]->0@),
                pk == present_positions(contents@.subrange(0, k as int)),
                loaded.len() == pk.len(),
                forall|t: int| 0 <= t < loaded.len() ==> 0 <= #[trigger] pk[t] < k,
                forall|t: int| 0 <= t < loaded.len() ==> contents@[#[trigger] pk[t]] is Some,
                forall|t: int| 0 <= t < loaded.len() ==> loaded_from(#[trigger] loaded@[t], meta_list@[pk[t]], contents@[pk[t]]->0@),
                forall|a: int, b: int| 0 <= a < b < loaded.len() ==> pk[a] < pk[b],
            decreases contents.len() - k,
        {
            let ghost before = pk;
            proof {
                assert(contents@.subrange(0, k + 1).drop_last() =~= contents@.subrange(0, k as int));
                assert(contents@.subrange(0, k + 1).last() == contents@[k as int]);
                if contents@[k as int] is Some {
                    assert(present_positions(contents@.subrange(0, k + 1)) == before.push(k as int));
                } else {
                    assert(present_positions(contents@.subrange(0, k + 1)) == before);
                }
            }
            match &contents[k] {
                Some(raw) => {
                    if raw.len() > usize::MAX - 32 {
                        return Err(ErasureError::CodecError);
                    }
                    let block = match DataBlock::load_data(meta_list[k].duplicate(), raw) {
                        Ok(b) => b,
                        Err(e) => {
                            return Err(e);
                        },
                    };
                    let ghost old_loaded = loaded@;
                    loaded.push(block);
                    proof {
                        let after = present_positions(contents@.subrange(0, k + 1));
                        assert(raw@ == contents@[k as int]->0@);
                        assert forall|t: int| 0 <= t < loaded.len() implies {
                            &&& 0 <= after[t] < k + 1
                            &&& contents@[after[t]] is Some
                            &&& loaded_from(#[trigger] loaded@[t], meta_list@[after[t]], contents@[after[t]]->0@)
                        } by {
                            if t < old_loaded.len() {
                                assert(loaded@[t] == old_loaded[t]);
                                assert(after[t] == before[t]);
                                assert(0 <= before[t] < k);
                                assert(contents@[before[t]] is Some);
                            }
                        }
                        assert forall|a: int, b: int| 0 <= a < b < loaded.len() implies after[a] < after[b] by {
                            assert(after[a] == before[a]);
                            assert(0 <= before[a] < k);
                            if b < old_loaded.len() {
                                assert(after[b] == before[b]);
                            }
                        }
                    }
                },
                None => {
                    proof {
                        let after = present_positions(contents@.subrange(0, k + 1));
                        assert forall|t: int| 0 <= t < loaded.len() implies {
                            &&& 0 <= after[t] < k + 1
                            &&& contents@[after[t]] is Some
                            &&& loaded_from(#[trigger] loaded@[t], meta_list@[after[t]], contents@[after[t]]->0@)
                        } by {
                            assert(after == before);
                        }
                    }
                },
            }
            proof {
                pk = present_positions(contents@.subrange(0, k + 1));
            }
            k = k + 1;
        }
        proof {
            assert(contents@.subrange(0, contents.len() as int) =~= contents@);
        }
        let ghost pos = present_positions(contents@);
        let ghost mut rest: Seq<int> = pos;
        proof {
            assert forall|t: int| 0 <= t < loaded.len() implies {
                &&& 0 <= #[trigger] rest[t] < contents.len()
                &&& contents@[rest[t]] is Some
                &&& loaded_from(loaded@[t], meta_list@[rest[t]], contents@[rest[t]]->0@)
            } by {
                assert(loaded_from(loaded@[t], meta_list@[pos[t]], contents@[pos[t]]->0@));
            }
        }
        let ghost mut origin: Seq<int> = Seq::empty();
        let ghost total = loaded.len();
        let mut blocks: Vec<DataBlock> = Vec::new();
        while loaded.len() > 0
            invariant
                contents.len() == meta_list.len(),
                rest.len() == loaded.len(),
                origin.len() == blocks.len(),
                loaded.len() + blocks.len() == total,
                total == pos.len(),
                forall|t: int| 0 <= t < loaded.len() ==> {
                    &&& 0 <= #[trigger] rest[t] < contents.len()
                    &&& contents@[rest[t]] is Some
                    &&& loaded_from(loaded@[t], meta_list@[rest[t]], contents@[rest[t]]->0@)
                },
                forall|t: int| 0 <= t < blocks.len() ==> {
                    &&& 0 <= #[trigger] origin[t] < contents.len()
                    &&& contents@[origin[t]] is Some
                    &&& loaded_from(blocks@[t], meta_list@[origin[t]], contents@[origin[t]]->0@)
                },
                forall|a: int, b: int| 0 <= a < b < rest.len() ==> rest[a] != rest[b],
                forall|a: int, b: int| 0 <= a < b < origin.len() ==> origin[a] != origin[b],
                forall|a: int, b: int| 0 <= a < origin.len() && 0 <= b < rest.len() ==> origin[a] != rest[b],
                forall|a: int, b: int| 0 <= a < b < blocks.len() ==> blocks@[a].meta.curr_part
                    <= blocks@[b].meta.curr_part,
                forall|a: int, b: int| 0 <= a < blocks.len() && 0 <= b < loaded.len() ==> blocks@[a].meta.curr_part
                    <= loaded@[b].meta.curr_part,
            decreases loaded.len(),
        {
            let mut best: usize = 0;
            let mut u: usize = 1;
            while u < loaded.len()
                invariant
                    best < loaded.len(),
                    1 <= u <= loaded.len(),
                    forall|t: int| 0 <= t < u ==> loaded@[best as int].meta.curr_part <= loaded@[t].meta.curr_part,
                decreases loaded.len() - u,
            {
                if loaded[u].meta.curr_part < loaded[best].meta.curr_part {
                    best = u;
                }
                u = u + 1;
            }
            let ghost old_loaded = loaded@;
            let ghost o = rest[best as int];
            let b = loaded.remove(best);
            proof {
                origin = origin.push(o);
                rest = rest.remove(best as int);
                assert forall|t: int| 0 <= t < loaded.len() implies {
                    &&& 0 <= #[trigger] rest[t] < contents.len()
                    &&& contents@[rest[t]] is Some
                    &&& loaded_from(loaded@[t], meta_list@[rest[t]], contents@[rest[t]]->0@)
                } by {
                    if t < best {
                        assert(loaded@[t] == old_loaded[t]);
                    } else {
                        assert(loaded@[t] == old_loaded[t + 1]);
                    }
                }
            }
            blocks.push(b);
            proof {
                assert forall|a: int, c: int| 0 <= a < blocks.len() && 0 <= c < loaded.len() implies blocks@[a].meta.curr_part
                    <= loaded@[c].meta.curr_part by {
                    if c < best {
                        assert(loaded@[c] == old_loaded[c]);
                    } else {
                        assert(loaded@[c] == old_loaded[c + 1]);
                    }
                }
            }
        }
        proof {
            assert(origin.len() == blocks.len());
        }
        Ok(Manager { blocks, records: meta_list })
    }

    /// `(data_parts, erasure_parts)` of the first known fragment.
    pub fn get_parts_params(&self) -> (r: Option<(u64, u64)>)
        ensures
            self.blocks.len() == 0 <==> r is None,
            r matches Some(p) ==> p == (self.blocks@[0].meta.data_parts, self.blocks@[0].meta.erasure_parts),
    {
        if self.blocks.len() == 0 {
            return None;
        }
        Some((self.blocks[0].meta.data_parts, self.blocks[0].meta.erasure_parts))
    }

    /// Completes the working set: every fragment in
    /// `[0, data_parts + erasure_parts)` whose index is not known is
    /// interpolated from the known ones. Returns the full manifest in index
    /// order (known fragments keep their metadata) and, for each computed
    /// fragment in index order, the bytes to store. Fewer known fragments than
    /// data fragments is a `GeometryError`. It succeeds on every working set
    /// that is `rebuildable`.
    pub fn reconstruct_parts(self) -> (r: Result<Reconstruction, ErasureError>)
        ensures
            self.rebuildable() ==> r is Ok,
            self.blocks.len() > 0 && self.blocks.len() < lowest_meta(self.blocks@).data_parts <==> (r
                matches Err(e) && e == ErasureError::GeometryError),
            r matches Ok(out) ==> {
                let blocks = self.blocks@;
                let b0 = lowest_meta(blocks);
                let xs = block_indices(blocks);
                let miss = missing_upto(xs, total_parts(b0) as nat);
                &&& blocks.len() > 0
                &&& out.metas.len() == total_parts(b0)
                &&& out.outputs.len() == miss.len()
                &&& forall|i: int| 0 <= i < out.metas.len() ==> (#[trigger] out.metas@[i]).curr_part == i
                &&& forall|i: int| 0 <= i < out.metas.len() && xs.contains(i as u64) ==> exists|p: int|
                    0 <= p < blocks.len() && blocks[p].meta.curr_part == i && same_meta(
                        #[trigger] out.metas@[i],
                        blocks[p].meta,
                    )
                &&& forall|k: int| 0 <= k < out.outputs.len() ==> {
                    let f = #[trigger] out.outputs@[k];
                    let x = miss[k];
                    let v = interp_value(block_points(blocks), xs, x as int);
                    &&& same_meta(f.meta, out.metas@[x as int])
                    &&& f.meta.curr_part == x
                    &&& f.meta.data_parts == b0.data_parts
                    &&& f.meta.erasure_parts == b0.erasure_parts
                    &&& f.meta.work_dir@ == b0.work_dir@
                    &&& f.meta.sign == sign_of(v)
                    &&& f.meta.padding == rebuilt_padding(self.records@, b0, x)
                    &&& decoded(v, f.meta.padding as nat, x >= b0.data_parts) == Some(f.bytes@)
                }
            },
    {
        let mut xs: Vec<u64> = Vec::new();
        let mut j: usize = 0;
        while j < self.blocks.len()
            invariant
                j <= self.blocks.len(),
                xs@ == block_indices(self.blocks@).subrange(0, j as int),
            decreases self.blocks.len() - j,
        {
            xs.push(self.blocks[j].meta.curr_part);
            j = j + 1;
            proof {
                assert(xs@ =~= block_indices(self.blocks@).subrange(0, j as int));
            }
        }
        proof {
            assert(xs@ =~= block_indices(self.blocks@));
        }
        proof {
            if self.rebuildable() {
                assert forall|k: int| 0 <= k < self.blocks.len() implies xs@.contains(
                    #[trigger] self.blocks@[k].meta.curr_part,
                ) by {
                    assert(xs@[k] == self.blocks@[k].meta.curr_part);
                }
            }
        }
        let rebuilt = match interpolate_all_and_dump(&self.blocks, xs.as_slice()) {
            Ok(v) => v,
            Err(e) => {
                return Err(e);
            },
        };
        let ghost blocks = self.blocks@;
        let ghost miss_all = missing_upto(xs@, total_parts(lowest_meta(blocks)) as nat);
        let best = lowest_block(&self.blocks);
        let b0 = &self.blocks[best].meta;
        let total = b0.data_parts + b0.erasure_parts;
        let mut metas: Vec<DataBlockMeta> = Vec::new();
        let mut outputs: Vec<FragmentFile> = Vec::new();
        let mut k: usize = 0;
        let mut i: u64 = 0;
        while i < total
            invariant
                blocks == self.blocks@,
                blocks.len() > 0,
                b0 == &lowest_meta(blocks),
                self.rebuildable() ==> forall|q: int|
                    0 <= q < miss_all.len() ==> (decoded(
                        interp_value(block_points(blocks), xs@, miss_all[q] as int),
                        rebuilt_padding(self.records@, *b0, miss_all[q]) as nat,
                        miss_all[q] >= b0.data_parts,
                    ) is Some),
                blocks.len() >= b0.data_parts,
                total == total_parts(*b0),
                xs@ == block_indices(blocks),
                miss_all == missing_upto(xs@, total as nat),
                rebuilt.len() == miss_all.len(),
                forall|t: int|
                    0 <= t < rebuilt.len() ==> {
                        &&& (#[trigger] rebuilt@[t]).data.canonical()
                        &&& rebuilt@[t].data.value() == interp_value(block_points(blocks), xs@, miss_all[t] as int)
                        &&& crate::interp::rebuilt_meta_ok(rebuilt@[t].meta, *b0, miss_all[t], rebuilt@[t].data.value())
                    },
                i <= total,
                k == missing_upto(xs@, i as nat).len(),
                metas.len() == i,
                outputs.len() == k,
                forall|t: int| 0 <= t < metas.len() ==> (#[trigger] metas@[t]).curr_part == t,
                forall|t: int| 0 <= t < metas.len() && xs@.contains(t as u64) ==> exists|p: int|
                    0 <= p < blocks.len() && blocks[p].meta.curr_part == t && same_meta(
                        #[trigger] metas@[t],
                        blocks[p].meta,
                    ),
                forall|q: int| 0 <= q < outputs.len() ==> {
                    let f = #[trigger] outputs@[q];
                    let x = miss_all[q];
                    let v = interp_value(block_points(blocks), xs@, x as int);
                    &&& x < i
                    &&& same_meta(f.meta, metas@[x as int])
                    &&& f.meta.curr_part == x
                    &&& f.meta.data_parts == b0.data_parts
                    &&& f.meta.erasure_parts == b0.erasure_parts
                    &&& f.meta.work_dir@ == b0.work_dir@
                    &&& f.meta.sign == sign_of(v)
                    &&& f.meta.padding == rebuilt_padding(self.records@, *b0, x)
                    &&& decoded(v, f.meta.padding as nat, x >= b0.data_parts) == Some(f.bytes@)
                },
            decreases total - i,
        {
            proof {
                lemma_missing_prefix(xs@, i as nat, (i + 1) as nat);
                lemma_missing_prefix(xs@, (i + 1) as nat, total as nat);
                lemma_missing_prefix(xs@, i as nat, total as nat);
            }
            match find_block(&self.blocks, i) {
                Some(p) => {
                    proof {
                        assert(block_indices(blocks)[p as int] == i);
                        assert(xs@.contains(i));
                        assert(missing_upto(xs@, (i + 1) as nat) == missing_upto(xs@, i as nat));
                    }
                    metas.push(self.blocks[p].meta.duplicate());
                    proof {
                        assert(same_meta(metas@[i as int], blocks[p as int].meta));
                    }
                },
                None => {
                    proof {
                        assert(!xs@.contains(i));
                        assert(missing_upto(xs@, (i + 1) as nat) == missing_upto(xs@, i as nat).push(i));
                        assert(miss_all[k as int] == i);
                    }
                    let rb = &rebuilt[k];
                    let mut m = rb.meta.duplicate();
                    if i < b0.data_parts {
                        match find_recorded_padding(&self.records, i) {
                            Some(pad) => {
                                m.padding = pad;
                            },
                            None => {},
                        }
                    }
                    let bytes = match decode(&rb.data, m.padding, i >= b0.data_parts) {
                        Ok(b) => b,
                        Err(e) => {
                            return Err(e);
                        },
                    };
                    outputs.push(FragmentFile { meta: m.duplicate(), bytes });
                    metas.push(m);
                    k = k + 1;
                },
            }
            i = i + 1;
        }
        Ok(Reconstruction { metas, outputs })
    }
}

/// The byte ranges `(start, length)` that split a source of `file_size`
/// bytes into `data_parts` fragments: each `file_size / data_parts` long, the
/// last one taking the remainder. Zero data fragments is a `FormatError`.
pub fn chunk_ranges(file_size: u64, data_parts: u64) -> (r: Result<Vec<(u64, u64)>, ErasureError>)
    ensures
        data_parts == 0 <==> r is Err,
        r matches Err(e) ==> e == ErasureError::FormatError,
        r matches Ok(v) ==> {
            let chunk = file_size / data_parts;
            &&& v.len() == data_parts
            &&& forall|k: int|
                0 <= k < v.len() ==> {
                    &&& (#[trigger] v@[k]).0 == k * chunk
                    &&& v@[k].1 == if k == data_parts - 1 {
                        file_size - k * chunk
                    } else {
                        chunk as int
                    }
                }
        },
{
    if data_parts == 0 {
        return Err(ErasureError::FormatError);
    }
    let chunk = file_size / data_parts;
    let mut v: Vec<(u64, u64)> = Vec::new();
    let mut k: u64 = 0;
    while k < data_parts
        invariant
            data_parts > 0,
            chunk == file_size / data_parts,
            k <= data_parts,
            v.len() == k,
            forall|t: int|
                0 <= t < v.len() ==> {
                    &&& (#[trigger] v@[t]).0 == t * chunk
                    &&& v@[t].1 == if t == data_parts - 1 {
                        file_size - t * chunk
                    } else {
                        chunk as int
                    }
                },
        decreases data_parts - k,
    {
        proof {
            assert(k * chunk <= data_parts * chunk) by (nonlinear_arith)
                requires
                    k <= data_parts,
            ;
            assert(data_parts * chunk <= file_size) by (nonlinear_arith)
                requires
                    chunk == file_size / data_parts,
                    data_parts > 0,
            ;
        }
        let start = k * chunk;
        let len = if k == data_parts - 1 {
            file_size - start
        } else {
            chunk
        };
        v.push((start, len));
        k = k + 1;
    }
    Ok(v)
}

/// Reconstruction with a single data fragment, end to end: the erasure
/// fragment derived from it at index `e`, stored and read back, rebuilds the
/// data fragment's bytes exactly.
pub proof fn lemma_single_data_fragment_rebuild(data: Seq<u8>, e: u64)
    ensures
        ({
            let v = encoded_value(data, crate::bignum::Sign::Plus, false);
            let ev = interp_value(seq![(0u64, v)], seq![0u64], e as int);
            decoded(ev, 0, true) matches Some(stored) && {
                let w = encoded_value(stored, sign_of(ev), true);
                let back = interp_value(seq![(e, w)], seq![e], 0);
                decoded(back, encoded_padding(data, false), false) == Some(data)
            }
        }),
{
    let v = encoded_value(data, crate::bignum::Sign::Plus, false);
    lemma_single_point(0u64, v, e as int);
    lemma_erasure_round_trip(v);
    let stored = decoded(v, 0, true)->0;
    let w = encoded_value(stored, sign_of(v), true);
    lemma_single_point(e, w, 0);
    lemma_round_trip(data);
}

} // verus!
