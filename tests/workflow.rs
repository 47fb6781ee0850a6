use erasure_code::bignum::{BigNum, Sign};
use erasure_code::block::{DataBlock, DataBlockMeta};
use erasure_code::cli::Commands;
use erasure_code::codec::{calc_padding_size, decode, encode};
use erasure_code::error::ErasureError;
use erasure_code::fitter::BigUintFitter;
use erasure_code::manager::{chunk_ranges, Manager, Reconstruction};
use erasure_code::names::{get_part_number_from_file_name, PartsParam};
use erasure_code::manifest::MetaRecord;
use erasure_code::sign_serde::{deserialize, serialize};

/// Runs an encode of `source` in memory: the data fragments' contents and the
/// reconstruction that derives the erasure fragments.
fn encode_source(source: &[u8], data_parts: u64, erasure_parts: u64) -> (Vec<Vec<u8>>, Reconstruction) {
    let ranges = chunk_ranges(source.len() as u64, data_parts).unwrap();
    let contents: Vec<Vec<u8>> = ranges
        .iter()
        .map(|&(start, len)| source[start as usize..(start + len) as usize].to_vec())
        .collect();
    let mgr = Manager::new(PartsParam(data_parts, erasure_parts), &"/tmp/ec".to_string(), &contents).unwrap();
    let rec = mgr.reconstruct_parts().unwrap();
    (contents, rec)
}

/// All fragment files after an encode, by index.
fn all_files(contents: &[Vec<u8>], rec: &Reconstruction) -> Vec<Vec<u8>> {
    let mut files: Vec<Vec<u8>> = contents.to_vec();
    for f in &rec.outputs {
        assert_eq!(f.meta.curr_part as usize, files.len());
        files.push(f.bytes.clone());
    }
    files
}

/// Rebuilds from the files whose index is in `keep`; returns the merged output.
fn rebuild(metas: &[DataBlockMeta], files: &[Vec<u8>], keep: &[usize]) -> Result<Vec<u8>, ErasureError> {
    let contents: Vec<Option<Vec<u8>>> = (0..files.len())
        .map(|i| if keep.contains(&i) { Some(files[i].clone()) } else { None })
        .collect();
    let metas: Vec<DataBlockMeta> = metas.iter().map(|m| m.duplicate()).collect();
    let data_parts = metas[0].data_parts as usize;
    let mgr = Manager::load_from_meta(metas, &contents)?;
    let rec = mgr.reconstruct_parts()?;
    let mut out = Vec::new();
    for i in 0..data_parts {
        match &contents[i] {
            Some(b) => out.extend_from_slice(b),
            None => {
                let f = rec.outputs.iter().find(|f| f.meta.curr_part as usize == i).unwrap();
                out.extend_from_slice(&f.bytes);
            }
        }
    }
    Ok(out)
}

fn subsets(n: usize, k: usize) -> Vec<Vec<usize>> {
    let mut out = Vec::new();
    for mask in 0u32..(1 << n) {
        if mask.count_ones() as usize == k {
            out.push((0..n).filter(|i| mask & (1 << i) != 0).collect());
        }
    }
    out
}

#[test]
fn padding_sizes() {
    assert_eq!(calc_padding_size(1), 23);
    assert_eq!(calc_padding_size(3), 21);
    assert_eq!(calc_padding_size(8), 24);
    assert_eq!(calc_padding_size(9), 23);
    assert_eq!(calc_padding_size(16), 24);
}

#[test]
fn codec_round_trip() {
    let cases: Vec<Vec<u8>> = vec![
        vec![1],
        vec![0],
        vec![0, 0, 0, 0],
        vec![0xFF; 13],
        vec![0xFF, 0, 0xFF, 0],
        (0..=255u8).collect(),
        b"hello world".to_vec(),
        vec![0; 64],
    ];
    for raw in cases {
        let meta = DataBlockMeta::load_from_params("d".to_string(), 3, 1, 2);
        let b = DataBlock::load_data(meta, &raw).unwrap();
        assert_eq!(b.meta.padding, calc_padding_size(raw.len() + 1));
        assert_eq!((b.meta.padding + raw.len() + 1) % 8, 0);
        assert_eq!(b.dump_data().unwrap(), raw);
    }
}

#[test]
fn codec_frames_data_fragments() {
    let (v, padding) = encode(&vec![0x12, 0x34], Sign::Plus, false);
    assert_eq!(padding, 21);
    let mut expected = vec![0xFF; 21];
    expected.extend_from_slice(&[0x12, 0x34, 0xFF]);
    assert_eq!(v.sign, Sign::Plus);
    assert_eq!(v.mag, expected);
}

#[test]
fn codec_erasure_fragments_are_plain_words() {
    let (v, padding) = encode(&vec![5, 0, 0, 0, 0, 0, 0, 0], Sign::Minus, true);
    assert_eq!(padding, 0);
    assert_eq!(v.sign, Sign::Minus);
    assert_eq!(v.mag, vec![5]);
    assert_eq!(decode(&v, 0, true).unwrap(), vec![5, 0, 0, 0, 0, 0, 0, 0]);
    let zero = BigNum { sign: Sign::NoSign, mag: vec![0] };
    assert_eq!(decode(&zero, 0, true).unwrap(), Vec::<u8>::new());
}

#[test]
fn codec_corrects_a_borrow() {
    // framed value of [0x41] plus one: the low head bytes wrap to zero and the
    // carry reaches the data; decoding subtracts it again
    let (v, padding) = encode(&vec![0x41], Sign::Plus, false);
    let mut mag = vec![0u8; padding];
    mag.push(0x42);
    mag.push(0xFF);
    let plus_one = BigNum { sign: Sign::Plus, mag };
    assert_eq!(decode(&plus_one, padding, false).unwrap(), vec![0x41]);
    // one less than the framed value leaves the sentinel word alone
    let mut mag = v.mag.clone();
    mag[0] = 0xFE;
    let minus_one = BigNum { sign: Sign::Plus, mag };
    assert_eq!(decode(&minus_one, padding, false).unwrap(), vec![0x41]);
}

#[test]
fn codec_error_on_inconsistent_geometry() {
    let (v, _) = encode(&vec![1, 2, 3], Sign::Plus, false);
    assert_eq!(decode(&v, 4, false).err(), Some(ErasureError::CodecError));
    assert_eq!(decode(&v, 40, false).err(), Some(ErasureError::CodecError));
    let mut meta = DataBlockMeta::load_from_params("d".to_string(), 2, 0, 1);
    meta.padding = 3;
    let b = DataBlock { data: v, meta };
    assert_eq!(b.dump_data().err(), Some(ErasureError::CodecError));
}

#[test]
fn test_integration1() {
    let data_parts = 2;
    let erasure_parts = 1;
    let xs = [0u64, 1];
    let contents = [b"erasure ".to_vec(), b"coding!".to_vec()];
    let blocks: Vec<DataBlock> = xs
        .iter()
        .map(|&idx| {
            let meta = DataBlockMeta::load_from_params("/tmp/erasure_test".to_string(), data_parts, idx, erasure_parts);
            DataBlock::load_data(meta, &contents[idx as usize]).unwrap()
        })
        .collect();
    let rebuilt = erasure_code::interp::interpolate_all_and_dump(&blocks, &xs).unwrap();
    assert_eq!(rebuilt.len(), 1);
    assert_eq!(rebuilt[0].meta.curr_part, 2);
    assert_eq!(rebuilt[0].meta.padding, 0);
    let bytes = rebuilt.into_iter().next().unwrap().dump_data().unwrap();
    assert_eq!(bytes.len() % 8, 0);
}

#[test]
fn test_transmute() {
    let meta = DataBlockMeta::load_from_params("/tmp/erasure_test".to_string(), 1, 0, 1);
    let mut d = DataBlock::load_data(meta, &b"abc".to_vec()).unwrap();
    d.meta.curr_part = 100;
    let bytes = d.dump_data().unwrap();
    let mut expected = vec![0xFF; 20];
    expected.extend_from_slice(b"abc");
    expected.push(0xFF);
    assert_eq!(bytes, expected);
}

#[test]
fn example_five_bytes_two_plus_one() {
    let source = b"hello";
    let (contents, rec) = encode_source(source, 2, 1);
    assert_eq!(contents, vec![b"he".to_vec(), b"llo".to_vec()]);
    assert_eq!(rec.metas.len(), 3);
    assert_eq!(rec.outputs.len(), 1);
    assert_eq!(rec.outputs[0].meta.curr_part, 2);
    assert_eq!(rec.outputs[0].meta.get_file_name(), "2.e.block");
    let files = all_files(&contents, &rec);
    assert_eq!(rebuild(&rec.metas, &files, &[1, 2]).unwrap(), source.to_vec());
    assert_eq!(rebuild(&rec.metas, &files, &[0, 2]).unwrap(), source.to_vec());
    assert_eq!(rebuild(&rec.metas, &files, &[0, 1]).unwrap(), source.to_vec());
}

#[test]
fn reconstruction_from_any_subset() {
    let sources: Vec<Vec<u8>> = vec![
        b"The quick brown fox jumps over the lazy dog".to_vec(),
        vec![0u8; 30],
        vec![0xFFu8; 30],
        (0..100u8).collect(),
    ];
    for source in &sources {
        for &(k, r) in &[(2u64, 2u64), (3, 2), (4, 1)] {
            let (contents, rec) = encode_source(source, k, r);
            let files = all_files(&contents, &rec);
            for keep in subsets((k + r) as usize, k as usize) {
                assert_eq!(rebuild(&rec.metas, &files, &keep).unwrap(), *source, "k={k} r={r} keep={keep:?}");
            }
        }
    }
}

#[test]
fn boundary_single_data_fragment() {
    let source = b"abcdef";
    let (contents, rec) = encode_source(source, 1, 2);
    assert_eq!(rec.outputs.len(), 2);
    let files = all_files(&contents, &rec);
    assert_eq!(rebuild(&rec.metas, &files, &[1]).unwrap(), source.to_vec());
    assert_eq!(rebuild(&rec.metas, &files, &[2]).unwrap(), source.to_vec());
}

#[test]
fn boundary_no_erasure_fragments() {
    let source = b"split and merge";
    let (contents, rec) = encode_source(source, 3, 0);
    assert_eq!(rec.outputs.len(), 0);
    assert_eq!(rec.metas.len(), 3);
    let files = all_files(&contents, &rec);
    assert_eq!(rebuild(&rec.metas, &files, &[0, 1, 2]).unwrap(), source.to_vec());
}

#[test]
fn rebuild_with_too_few_fragments_fails() {
    let source = b"not enough";
    let (contents, rec) = encode_source(source, 3, 1);
    let files = all_files(&contents, &rec);
    assert_eq!(rebuild(&rec.metas, &files, &[0, 3]).err(), Some(ErasureError::GeometryError));
}

#[test]
fn manifest_lists_every_fragment_in_order() {
    let (_, rec) = encode_source(b"0123456789", 3, 2);
    for (i, m) in rec.metas.iter().enumerate() {
        assert_eq!(m.curr_part as usize, i);
        assert_eq!(m.data_parts, 3);
        assert_eq!(m.erasure_parts, 2);
        if i >= 3 {
            assert_eq!(m.padding, 0);
        } else {
            assert!(m.padding >= 17 && m.padding <= 24);
        }
    }
}

#[test]
fn manager_input_mismatch() {
    let contents = vec![b"a".to_vec()];
    assert_eq!(Manager::new(PartsParam(2, 1), &"d".to_string(), &contents).err().unwrap(), ErasureError::InternalInvariantViolation);
    let metas = vec![DataBlockMeta::load_from_params("d".to_string(), 1, 0, 1)];
    assert_eq!(Manager::load_from_meta(metas, &vec![]).err().unwrap(), ErasureError::InternalInvariantViolation);
}

#[test]
fn manager_parts_params() {
    let contents = vec![b"ab".to_vec(), b"cd".to_vec()];
    let mgr = Manager::new(PartsParam(2, 3), &"d".to_string(), &contents).unwrap();
    assert_eq!(mgr.get_parts_params(), Some((2, 3)));
    let empty = Manager::load_from_meta(vec![], &vec![]).unwrap();
    assert_eq!(empty.get_parts_params(), None);
    assert_eq!(empty.reconstruct_parts().err(), Some(ErasureError::InternalInvariantViolation));
}

#[test]
fn split_ranges() {
    assert_eq!(chunk_ranges(5, 2).unwrap(), vec![(0, 2), (2, 3)]);
    assert_eq!(chunk_ranges(10, 3).unwrap(), vec![(0, 3), (3, 3), (6, 4)]);
    assert_eq!(chunk_ranges(2, 3).unwrap(), vec![(0, 0), (0, 0), (0, 2)]);
    assert_eq!(chunk_ranges(7, 0).err(), Some(ErasureError::FormatError));
}

#[test]
fn pattern_parsing() {
    assert_eq!(PartsParam::from_str("2+1"), Ok(PartsParam(2, 1)));
    assert_eq!(PartsParam::from_str("10+25"), Ok(PartsParam(10, 25)));
    assert_eq!(PartsParam::from_str("18446744073709551615+0"), Ok(PartsParam(u64::MAX, 0)));
    for bad in ["", "2", "2+", "+1", "a+1", "2+1x", " 2+1", "2 +1", "2-1", "18446744073709551616+1"] {
        assert_eq!(PartsParam::from_str(bad), Err(ErasureError::FormatError), "{bad}");
    }
}

#[test]
fn file_name_parsing() {
    assert_eq!(get_part_number_from_file_name("12.d.block"), Some(12));
    assert_eq!(get_part_number_from_file_name("3.e.block"), Some(3));
    assert_eq!(get_part_number_from_file_name("0.e.block.bak"), Some(0));
    assert_eq!(get_part_number_from_file_name("x.d.block"), None);
    assert_eq!(get_part_number_from_file_name("12.x.block"), None);
    assert_eq!(get_part_number_from_file_name("12.d.bloc"), None);
    assert_eq!(get_part_number_from_file_name("meta.json"), None);
    assert_eq!(get_part_number_from_file_name("99999999999999999999999.d.block"), None);
}

#[test]
fn file_names() {
    let d = DataBlockMeta::load_from_params("d".to_string(), 3, 0, 2);
    assert_eq!(d.get_file_name(), "0.d.block");
    let e = DataBlockMeta::load_from_params("d".to_string(), 3, 17, 20);
    assert_eq!(e.get_file_name(), "17.e.block");
    assert!(e.is_erasure_type());
    assert!(!d.is_erasure_type());
    assert_eq!(get_part_number_from_file_name(&e.get_file_name()), Some(17));
}

#[test]
fn sign_names_round_trip() {
    for s in [Sign::Minus, Sign::NoSign, Sign::Plus] {
        assert_eq!(deserialize(&serialize(&s)), Ok(s));
    }
    assert_eq!(serialize(&Sign::NoSign), "no_sign");
    assert_eq!(deserialize(&"positive".to_string()), Err(ErasureError::FormatError));
}

#[test]
fn fitter_normalize() {
    let mut f = BigUintFitter { data: vec![1, 2, 0, 0] };
    f.normalize();
    assert_eq!(f.data, vec![1, 2]);
    let mut z = BigUintFitter { data: vec![0, 0] };
    z.normalize();
    assert!(z.data.is_empty());
}

#[test]
fn rebuild_refuses_to_overwrite_without_force() {
    let rebuild = Commands::Rebuild { data_dir: "d".to_string(), output_file_name: "o".to_string(), force: false };
    assert!(rebuild.may_write_output(false));
    assert!(!rebuild.may_write_output(true));
    let forced = Commands::Rebuild { data_dir: "d".to_string(), output_file_name: "o".to_string(), force: true };
    assert!(forced.may_write_output(true));
    let create = Commands::Create { file_name: "f".to_string(), data_dir: "d".to_string(), pattern: "3+2".to_string() };
    assert!(create.may_write_output(true));
}

#[test]
fn manifest_record_round_trip() {
    let (_, rec) = encode_source(b"manifest records", 3, 2);
    for m in &rec.metas {
        let r = MetaRecord::from_meta(m);
        let back = r.to_meta().unwrap();
        assert_eq!(back.data_parts, m.data_parts);
        assert_eq!(back.curr_part, m.curr_part);
        assert_eq!(back.erasure_parts, m.erasure_parts);
        assert_eq!(back.sign, m.sign);
        assert_eq!(back.padding, m.padding);
        assert_eq!(back.work_dir, m.work_dir);
    }
    let mut bad = MetaRecord::from_meta(&rec.metas[0]);
    bad.sign = "positive".to_string();
    assert_eq!(bad.to_meta().err(), Some(ErasureError::FormatError));
}

#[test]
fn test_integration2() {
    let xs = [2u64, 0];
    let (contents, rec) = encode_source(b"erasure coding!!", 2, 1);
    let files = all_files(&contents, &rec);
    let blocks: Vec<DataBlock> = rec
        .metas
        .iter()
        .filter(|meta| xs.contains(&meta.curr_part))
        .map(|meta| DataBlock::load_data(meta.duplicate(), &files[meta.curr_part as usize]).unwrap())
        .collect();
    let rebuilt = erasure_code::interp::interpolate_all_and_dump(&blocks, &xs).unwrap();
    assert_eq!(rebuilt.len(), 1);
    assert_eq!(rebuilt[0].meta.curr_part, 1);
    let b = rebuilt.into_iter().next().unwrap();
    assert_eq!(b.meta.padding, rec.metas[1].padding);
    assert_eq!(b.dump_data().unwrap(), contents[1]);
}

#[test]
fn erasure_fragment_must_be_whole_words() {
    let meta = DataBlockMeta::load_from_params("d".to_string(), 2, 2, 1);
    assert_eq!(DataBlock::load_data(meta, &vec![1, 2, 3]).err().map(|_| ()), Some(()));
    let meta = DataBlockMeta::load_from_params("d".to_string(), 2, 2, 1);
    assert!(matches!(DataBlock::load_data(meta, &vec![1, 2, 3]), Err(ErasureError::CodecError)));
    let (contents, rec) = encode_source(b"abcdef", 2, 1);
    let mut files = all_files(&contents, &rec);
    files[2].push(0);
    let c: Vec<Option<Vec<u8>>> = files.iter().map(|f| Some(f.clone())).collect();
    let metas: Vec<DataBlockMeta> = rec.metas.iter().map(|m| m.duplicate()).collect();
    assert_eq!(Manager::load_from_meta(metas, &c).err().unwrap(), ErasureError::CodecError);
}

#[test]
fn loaded_fragments_are_ordered_by_index() {
    let metas = vec![
        DataBlockMeta::load_from_params("d".to_string(), 2, 1, 1),
        DataBlockMeta::load_from_params("d".to_string(), 2, 0, 1),
    ];
    let contents = vec![Some(b"cd".to_vec()), Some(b"ab".to_vec())];
    let mgr = Manager::load_from_meta(metas, &contents).unwrap();
    assert_eq!(mgr.blocks[0].meta.curr_part, 0);
    assert_eq!(mgr.blocks[1].meta.curr_part, 1);
    assert_eq!(mgr.records[0].curr_part, 1);
}

#[test]
fn data_fragment_decodes_from_whole_words() {
    let mut mag = vec![0xFFu8; 24];
    mag.push(0x01);
    let v = BigNum { sign: Sign::Plus, mag };
    assert_eq!(decode(&v, 24, false).unwrap(), vec![1, 0, 0, 0, 0, 0, 0]);
    let zero = BigNum { sign: Sign::NoSign, mag: vec![0] };
    assert_eq!(decode(&zero, 24, false).err(), Some(ErasureError::CodecError));
}
