use erasure_code::block::{DataBlock, DataBlockMeta};
use erasure_code::interp::{calc_lagrange_item_at_x, interpolate_all_and_dump, interpolate_one};
use erasure_code::bignum::{BigNum, Sign};
use erasure_code::error::ErasureError;
use erasure_code::ratio::Fraction;
use num_rational::Ratio;

fn block(idx: u64, data_parts: u64, erasure_parts: u64, raw: &[u8]) -> DataBlock {
    let meta = DataBlockMeta::load_from_params("/tmp/ec".to_string(), data_parts, idx, erasure_parts);
    DataBlock::load_data(meta, &raw.to_vec()).unwrap()
}

#[test]
fn test_lagrange3() {
    let xs = vec![0u64, 1, 2, 3];
    let ys = vec![b'g' as u64, b'x' as u64, b'd' as u64, b'n' as u64];
    let mut sum = Ratio::from_integer(0i64);
    for (&j, y) in xs.iter().zip(ys) {
        let k = calc_lagrange_item_at_x(&xs, j, 2).unwrap();
        sum += Ratio::new(k.numer, k.denom) * y as i64;
    }
    println!("{sum}");
    assert_eq!(sum, Ratio::from_integer(b'd' as i64));

    let mut sum = Ratio::from_integer(0i64);
    let xs = vec![1u64, 3, 4, 5];
    let ys = vec![b'x' as u64, b'n' as u64, 217, 488];
    for (&j, y) in xs.iter().zip(ys) {
        let k = calc_lagrange_item_at_x(&xs, j, 2).unwrap();
        sum += Ratio::new(k.numer, k.denom) * y as i64;
    }
    println!("{sum}");
}

#[test]
fn test_lagrange4() {
    let xs = (0..=20u64).collect::<Vec<_>>();
    for j in 0..24 {
        for x in 0..24 {
            let k = calc_lagrange_item_at_x(&xs, j, x);
            println!("j = {j}, x = {x} => k = {k:?}");
            if xs.contains(&j) {
                let k = k.unwrap();
                assert!(k.denom > 0);
                if xs.contains(&x) {
                    let expected = if x == j { 1 } else { 0 };
                    assert_eq!(k, Fraction { numer: expected, denom: 1 });
                }
            }
        }
        println!("===============\n")
    }
}

#[test]
fn lagrange_coefficient_exact_value() {
    // (5-1)(5-2)(5-3) / ((0-1)(0-2)(0-3)) = 24 / -6 = -4
    let k = calc_lagrange_item_at_x(&[0, 1, 2, 3], 0, 5).unwrap();
    assert_eq!(k, Fraction { numer: -4, denom: 1 });
    // (2-0)/(1-0) * (2-3)/(1-3) = 2 * 1/2 = 1
    let k = calc_lagrange_item_at_x(&[0, 1, 3], 1, 2).unwrap();
    assert_eq!(k, Fraction { numer: 1, denom: 1 });
    // (4-0)/(3-0) = 4/3, reduced with positive denominator
    let k = calc_lagrange_item_at_x(&[0, 3], 3, 4).unwrap();
    assert_eq!(k, Fraction { numer: 4, denom: 3 });
    let k = calc_lagrange_item_at_x(&[0, 3], 0, 4).unwrap();
    assert_eq!(k, Fraction { numer: -1, denom: 3 });
}

#[test]
fn lagrange_coefficient_too_large_is_none() {
    let xs = (0..40u64).collect::<Vec<_>>();
    assert_eq!(calc_lagrange_item_at_x(&xs, 0, 1000), None);
    assert_eq!(calc_lagrange_item_at_x(&[0, 1], 0, u64::MAX), None);
}

#[test]
fn lagrange_item_scales_value() {
    // value 7 at index 0, known {0, 1}, target 2: L_0(2) = -1, term = -7
    let b = DataBlock { data: BigNum { sign: Sign::Plus, mag: vec![7] }, meta: DataBlockMeta::load_from_params("d".to_string(), 2, 0, 1) };
    let t = b.calc_lagrange_item(&[0, 1], 2).unwrap();
    assert_eq!(t.sign, Sign::Minus);
    assert_eq!(t.mag, vec![7]);
    // L_0(2) over {0, 3} = (2-3)/(0-3) = 1/3; 7/3 truncates to 2
    let t = b.calc_lagrange_item(&[0, 3], 2).unwrap();
    assert_eq!(t.sign, Sign::Plus);
    assert_eq!(t.mag, vec![2]);
}

#[test]
fn interpolation_order_independent() {
    let a = block(0, 3, 2, b"abc");
    let b = block(1, 3, 2, b"def");
    let c = block(2, 3, 2, b"ghi");
    let one = vec![block(0, 3, 2, b"abc"), block(1, 3, 2, b"def"), block(2, 3, 2, b"ghi")];
    let other = vec![c, a, b];
    for x in 3..5u64 {
        let v1 = interpolate_one(&one, &[0, 1, 2], x).unwrap();
        let v2 = interpolate_one(&other, &[2, 0, 1], x).unwrap();
        let v3 = interpolate_one(&other, &[1, 2, 0], x).unwrap();
        assert_eq!(v1.sign, v2.sign);
        assert_eq!(v1.mag, v2.mag);
        assert_eq!(v1.mag, v3.mag);
    }
}

#[test]
fn interpolation_of_known_line() {
    // y = 10 + 5x through indices 0 and 1; value at 3 is 25
    let blocks = vec![
        DataBlock { data: BigNum { sign: Sign::Plus, mag: vec![10] }, meta: DataBlockMeta::load_from_params("d".to_string(), 2, 0, 2) },
        DataBlock { data: BigNum { sign: Sign::Plus, mag: vec![15] }, meta: DataBlockMeta::load_from_params("d".to_string(), 2, 1, 2) },
    ];
    let v = interpolate_one(&blocks, &[0, 1], 3).unwrap();
    assert_eq!(v.sign, Sign::Plus);
    assert_eq!(v.mag, vec![25]);
    let rebuilt = interpolate_all_and_dump(&blocks, &[0, 1]).unwrap();
    assert_eq!(rebuilt.len(), 2);
    assert_eq!(rebuilt[0].meta.curr_part, 2);
    assert_eq!(rebuilt[0].data.mag, vec![20]);
    assert_eq!(rebuilt[1].meta.curr_part, 3);
    assert_eq!(rebuilt[1].data.mag, vec![25]);
    assert_eq!(rebuilt[1].meta.padding, 0);
}

#[test]
fn interpolation_negative_values() {
    // y = 10 - 8x: value at 2 is -6
    let blocks = vec![
        DataBlock { data: BigNum { sign: Sign::Plus, mag: vec![10] }, meta: DataBlockMeta::load_from_params("d".to_string(), 2, 0, 1) },
        DataBlock { data: BigNum { sign: Sign::Plus, mag: vec![2] }, meta: DataBlockMeta::load_from_params("d".to_string(), 2, 1, 1) },
    ];
    let rebuilt = interpolate_all_and_dump(&blocks, &[0, 1]).unwrap();
    assert_eq!(rebuilt[0].data.sign, Sign::Minus);
    assert_eq!(rebuilt[0].meta.sign, Sign::Minus);
    assert_eq!(rebuilt[0].data.mag, vec![6]);
}

#[test]
fn interpolation_needs_enough_fragments() {
    let blocks = vec![block(2, 2, 1, b"xyz\0\0\0\0\0")];
    assert_eq!(interpolate_all_and_dump(&blocks, &[2]).err(), Some(ErasureError::GeometryError));
}

#[test]
fn interpolation_rejects_bad_known_sets() {
    let empty: Vec<DataBlock> = Vec::new();
    assert_eq!(interpolate_all_and_dump(&empty, &[]).err(), Some(ErasureError::InternalInvariantViolation));
    let dup = vec![block(0, 2, 1, b"ab"), block(0, 2, 1, b"ab")];
    assert_eq!(interpolate_all_and_dump(&dup, &[0, 0]).err(), Some(ErasureError::InternalInvariantViolation));
    let blocks = vec![block(0, 2, 1, b"ab"), block(1, 2, 1, b"cd")];
    assert_eq!(interpolate_all_and_dump(&blocks, &[0, 2]).err(), Some(ErasureError::InternalInvariantViolation));
}

#[test]
fn rebuilt_metadata_independent_of_fragment_order() {
    let d0 = || block(0, 2, 1, b"abc");
    let e2 = || {
        let meta = DataBlockMeta::load_from_params("/tmp/ec".to_string(), 2, 2, 1);
        DataBlock::load_data(meta, &vec![7, 0, 0, 0, 0, 0, 0, 0]).unwrap()
    };
    let one = vec![d0(), e2()];
    let other = vec![e2(), d0()];
    let r1 = interpolate_all_and_dump(&one, &[0, 2]).unwrap();
    let r2 = interpolate_all_and_dump(&other, &[2, 0]).unwrap();
    assert_eq!(r1.len(), 1);
    assert_eq!(r2.len(), 1);
    assert_eq!(r1[0].meta.curr_part, 1);
    assert_eq!(r1[0].meta.padding, r2[0].meta.padding);
    assert_eq!(r1[0].meta.padding, 20);
    assert_eq!(r1[0].data.mag, r2[0].data.mag);
    assert_eq!(r1[0].data.sign, r2[0].data.sign);
}

#[test]
fn lagrange_coefficient_in_lowest_terms_any_order() {
    let a = calc_lagrange_item_at_x(&[0, 2, 4, 6], 2, 3).unwrap();
    let b = calc_lagrange_item_at_x(&[6, 4, 0, 2], 2, 3).unwrap();
    assert_eq!(a, b);
    // (3-0)(3-4)(3-6) / ((2-0)(2-4)(2-6)) = 9/16
    assert_eq!(a, Fraction { numer: 9, denom: 16 });
}
