//! Reconstruction of missing fragments by Lagrange interpolation.
//!
//! Each known fragment `j` contributes `y_j * L_j(x)` to the value at a
//! missing index `x`, where `L_j(x)` is the product over the other known
//! indices `i` of `(x - i) / (j - i)`. The coefficient is kept as a reduced
//! machine fraction; each term is divided with truncation before the terms
//! are summed as big integers.

use crate::bignum::{abs, big_add, big_div_i64, big_mul_i64, trunc_div, BigNum, Sign};
use crate::block::{DataBlock, DataBlockMeta};
use crate::error::ErasureError;
use crate::ratio::{iabs, lemma_lowest_unique, ratio_mul, ratio_new, Fraction};
use vstd::arithmetic::div_mod::lemma_fundamental_div_mod;
use vstd::arithmetic::div_mod::lemma_fundamental_div_mod_converse;
use vstd::prelude::*;

verus! {

/// Indices below this bound keep every difference of two of them, and its
/// negation, inside `i64`.
pub const INDEX_LIMIT: u64 = 0x4000_0000_0000_0000;

pub open spec fn num_factor(i: u64, j: int, x: int) -> int {
    if i as int != j {
        x - i
    } else {
        1
    }
}

pub open spec fn den_factor(i: u64, j: int) -> int {
    if i as int != j {
        j - i
    } else {
        1
    }
}

/// Numerator of `L_j(x)` over the points `xs`: the product of `x - i`.
pub open spec fn lagrange_num(xs: Seq<u64>, j: int, x: int) -> int
    decreases xs.len(),
{
    if xs.len() == 0 {
        1
    } else {
        lagrange_num(xs.drop_last(), j, x) * num_factor(xs.last(), j, x)
    }
}

/// Denominator of `L_j(x)` over the points `xs`: the product of `j - i`.
pub open spec fn lagrange_den(xs: Seq<u64>, j: int) -> int
    decreases xs.len(),
{
    if xs.len() == 0 {
        1
    } else {
        lagrange_den(xs.drop_last(), j) * den_factor(xs.last(), j)
    }
}

pub open spec fn num_bound_factor(i: u64, j: int, x: int) -> int {
    if i as int != j && iabs(x - i) > 1 {
        iabs(x - i)
    } else {
        1
    }
}

/// Product of the numerator factors' magnitudes, zero factors counted as one.
pub open spec fn num_bound(xs: Seq<u64>, j: int, x: int) -> int
    decreases xs.len(),
{
    if xs.len() == 0 {
        1
    } else {
        num_bound(xs.drop_last(), j, x) * num_bound_factor(xs.last(), j, x)
    }
}

/// Product of the denominator factors' magnitudes.
pub open spec fn den_bound(xs: Seq<u64>, j: int) -> int
    decreases xs.len(),
{
    if xs.len() == 0 {
        1
    } else {
        den_bound(xs.drop_last(), j) * iabs(den_factor(xs.last(), j))
    }
}

/// `L_j(x)` can be computed in machine words: the indices are small and the
/// unreduced products fit in `i64`.
pub open spec fn coefficient_fits(xs: Seq<u64>, j: u64, x: u64) -> bool {
    &&& j < INDEX_LIMIT
    &&& x < INDEX_LIMIT
    &&& forall|k: int| 0 <= k < xs.len() ==> xs[k] < INDEX_LIMIT
    &&& num_bound(xs, j as int, x as int) <= i64::MAX
    &&& den_bound(xs, j as int) <= i64::MAX
}

pub proof fn lemma_bounds_positive(xs: Seq<u64>, j: int, x: int)
    ensures
        num_bound(xs, j, x) >= 1,
        den_bound(xs, j) >= 1,
    decreases xs.len(),
{
    if xs.len() > 0 {
        lemma_bounds_positive(xs.drop_last(), j, x);
        let a = num_bound(xs.drop_last(), j, x);
        let b = num_bound_factor(xs.last(), j, x);
        let c = den_bound(xs.drop_last(), j);
        let d = iabs(den_factor(xs.last(), j));
        assert(a * b >= 1) by (nonlinear_arith)
            requires
                a >= 1,
                b >= 1,
        ;
        assert(c * d >= 1) by (nonlinear_arith)
            requires
                c >= 1,
                d >= 1,
        ;
    }
}

pub proof fn lemma_bounds_prefix(xs: Seq<u64>, k: int, j: int, x: int)
    requires
        0 <= k <= xs.len(),
    ensures
        num_bound(xs.subrange(0, k), j, x) <= num_bound(xs, j, x),
        den_bound(xs.subrange(0, k), j) <= den_bound(xs, j),
    decreases xs.len(),
{
    if k == xs.len() {
        assert(xs.subrange(0, k) =~= xs);
    } else {
        let init = xs.drop_last();
        lemma_bounds_prefix(init, k, j, x);
        assert(init.subrange(0, k) =~= xs.subrange(0, k));
        lemma_bounds_positive(init, j, x);
        let a = num_bound(init, j, x);
        let b = num_bound_factor(xs.last(), j, x);
        let c = den_bound(init, j);
        let d = iabs(den_factor(xs.last(), j));
        assert(a <= a * b) by (nonlinear_arith)
            requires
                a >= 1,
                b >= 1,
        ;
        assert(c <= c * d) by (nonlinear_arith)
            requires
                c >= 1,
                d >= 1,
        ;
    }
}

proof fn lemma_denotes_step(an: int, ad: int, cn: int, cd: int, n: int, d: int, fx: int, fd: int, rn: int, rd: int)
    requires
        ad > 0,
        cd > 0,
        an * d == n * ad,
        cn * fd == fx * cd,
        rn * (ad * cd) == (an * cn) * rd,
    ensures
        rn * (d * fd) == (n * fx) * rd,
{
    assert((an * cn) * (d * fd) == (n * fx) * (ad * cd)) by (nonlinear_arith)
        requires
            an * d == n * ad,
            cn * fd == fx * cd,
    ;
    assert(rn * (d * fd) * (ad * cd) == (n * fx) * rd * (ad * cd)) by (nonlinear_arith)
        requires
            rn * (ad * cd) == (an * cn) * rd,
            (an * cn) * (d * fd) == (n * fx) * (ad * cd),
    ;
    assert(ad * cd > 0) by (nonlinear_arith)
        requires
            ad > 0,
            cd > 0,
    ;
    assert(rn * (d * fd) == (n * fx) * rd) by (nonlinear_arith)
        requires
            rn * (d * fd) * (ad * cd) == (n * fx) * rd * (ad * cd),
            ad * cd > 0,
    ;
}

/// `L_j(x)` over the points `xs`, as a fraction in lowest terms with a
/// positive denominator, multiplied up factor by factor as `num_rational`
/// reduces. Success is owed where the unreduced products fit in machine words
/// (`coefficient_fits`); beyond that it may still succeed, or give `None` when
/// a reduced partial product does not fit.
pub fn calc_lagrange_item_at_x(xs: &[u64], j: u64, x: u64) -> (r: Option<Fraction>)
    ensures
        r matches Some(f) ==> f.wf() && f.lowest() && f.denotes(
            lagrange_num(xs@, j as int, x as int),
            lagrange_den(xs@, j as int),
        ),
        coefficient_fits(xs@, j, x) ==> r is Some,
{
    if j >= INDEX_LIMIT || x >= INDEX_LIMIT {
        return None;
    }
    let mut acc = Fraction { numer: 1, denom: 1 };
    proof {
        assert forall|k: int| k > 1 implies !(#[trigger] (acc.numer as int % k) == 0 && acc.denom as int % k
            == 0) by {
            assert(1int % k == 1) by (nonlinear_arith)
                requires
                    k > 1,
            ;
        }
    }
    let mut k: usize = 0;
    proof {
        assert(xs@.subrange(0, 0) =~= Seq::<u64>::empty());
        lemma_bounds_positive(xs@, j as int, x as int);
    }
    while k < xs.len()
        invariant
            k <= xs.len(),
            j < INDEX_LIMIT,
            x < INDEX_LIMIT,
            acc.wf(),
            acc.lowest(),
            acc.denotes(
                lagrange_num(xs@.subrange(0, k as int), j as int, x as int),
                lagrange_den(xs@.subrange(0, k as int), j as int),
            ),
            iabs(acc.numer as int) <= num_bound(xs@.subrange(0, k as int), j as int, x as int),
            acc.denom <= den_bound(xs@.subrange(0, k as int), j as int),
        decreases xs.len() - k,
    {
        let i = xs[k];
        let ghost pre = xs@.subrange(0, k as int);
        let ghost post = xs@.subrange(0, k + 1);
        proof {
            assert(post.drop_last() =~= pre);
            assert(post.last() == i);
            lemma_bounds_prefix(xs@, k + 1, j as int, x as int);
            lemma_bounds_positive(pre, j as int, x as int);
        }
        if i >= INDEX_LIMIT {
            return None;
        }
        if i != j {
            let c = ratio_new(x as i64 - i as i64, j as i64 - i as i64);
            proof {
                let (an, cn, ad, cd) = (acc.numer as int, c.numer as int, acc.denom as int, c.denom as int);
                assert(-0x4000_0000_0000_0000_0000_0000_0000_0000 <= an * cn <= 0x4000_0000_0000_0000_0000_0000_0000_0000) by (nonlinear_arith)
                    requires
                        -0x8000_0000_0000_0000 < an < 0x8000_0000_0000_0000,
                        -0x8000_0000_0000_0000 < cn < 0x8000_0000_0000_0000,
                ;
                assert(0 <= ad * cd <= 0x4000_0000_0000_0000_0000_0000_0000_0000) by (nonlinear_arith)
                    requires
                        0 < ad < 0x8000_0000_0000_0000,
                        0 < cd < 0x8000_0000_0000_0000,
                ;
            }
            let pn: i128 = acc.numer as i128 * c.numer as i128;
            let pd: i128 = acc.denom as i128 * c.denom as i128;
            proof {
                let a = iabs(acc.numer as int);
                let b = iabs(c.numer as int);
                let nb = num_bound(pre, j as int, x as int);
                let fb = num_bound_factor(i, j as int, x as int);
                assert(iabs(acc.numer * c.numer) <= nb * fb) by (nonlinear_arith)
                    requires
                        a == iabs(acc.numer as int),
                        b == iabs(c.numer as int),
                        0 <= a <= nb,
                        0 <= b <= fb,
                ;
                let db = den_bound(pre, j as int);
                let fd = iabs(den_factor(i, j as int));
                assert(acc.denom * c.denom <= db * fd) by (nonlinear_arith)
                    requires
                        0 < acc.denom <= db,
                        0 < c.denom <= fd,
                ;
            }
            if pn > i64::MAX as i128 || pn < -(i64::MAX as i128) || pd > i64::MAX as i128 {
                return None;
            }
            let next = ratio_mul(acc, c);
            proof {
                lemma_denotes_step(
                    acc.numer as int,
                    acc.denom as int,
                    c.numer as int,
                    c.denom as int,
                    lagrange_num(pre, j as int, x as int),
                    lagrange_den(pre, j as int),
                    x - i,
                    j - i,
                    next.numer as int,
                    next.denom as int,
                );
            }
            acc = next;
        } else {
            proof {
                let nb = num_bound(pre, j as int, x as int);
                let db = den_bound(pre, j as int);
                assert(nb * 1 == nb && db * 1 == db);
                let n0 = lagrange_num(pre, j as int, x as int);
                let d0 = lagrange_den(pre, j as int);
                assert(n0 * 1 == n0 && d0 * 1 == d0);
            }
        }
        k = k + 1;
    }
    proof {
        assert(xs@.subrange(0, xs.len() as int) =~= xs@);
    }
    Some(acc)
}

pub proof fn lemma_den_nonzero(xs: Seq<u64>, j: int)
    ensures
        lagrange_den(xs, j) != 0,
    decreases xs.len(),
{
    if xs.len() > 0 {
        lemma_den_nonzero(xs.drop_last(), j);
        let a = lagrange_den(xs.drop_last(), j);
        let b = den_factor(xs.last(), j);
        assert(a * b != 0) by (nonlinear_arith)
            requires
                a != 0,
                b != 0,
        ;
    }
}

proof fn lemma_div_cross(a: int, b: int, c: int, d: int)
    requires
        a >= 0,
        b > 0,
        c >= 0,
        d > 0,
        a * d == c * b,
    ensures
        a / b == c / d,
{
    lemma_fundamental_div_mod(a, b);
    let q = a / b;
    let r = a % b;
    assert((c - q * d) * b == r * d) by (nonlinear_arith)
        requires
            a == b * q + r,
            a * d == c * b,
    ;
    assert(0 <= c - q * d < d) by (nonlinear_arith)
        requires
            (c - q * d) * b == r * d,
            0 <= r < b,
            b > 0,
            d > 0,
    ;
    lemma_fundamental_div_mod_converse(c, d, q, c - q * d);
}

/// Truncating division gives the same result on two fractions that denote the
/// same rational number.
pub proof fn lemma_trunc_div_cross(p: int, q: int, pp: int, qq: int)
    requires
        q > 0,
        qq != 0,
        p * qq == pp * q,
    ensures
        trunc_div(p, q) == trunc_div(pp, qq),
{
    assert(abs(p) * abs(qq) == abs(pp) * abs(q)) by (nonlinear_arith)
        requires
            p * qq == pp * q,
    ;
    lemma_div_cross(abs(p) as int, abs(q) as int, abs(pp) as int, abs(qq) as int);
    if p == 0 {
        assert(pp * q == 0);
        assert(pp == 0) by (nonlinear_arith)
            requires
                pp * q == 0,
                q > 0,
        ;
    } else if qq > 0 {
        assert((p < 0) == (pp < 0)) by (nonlinear_arith)
            requires
                p * qq == pp * q,
                q > 0,
                qq > 0,
                p != 0,
        ;
    } else {
        assert((p < 0) != (pp < 0)) by (nonlinear_arith)
            requires
                p * qq == pp * q,
                q > 0,
                qq < 0,
                p != 0,
        ;
    }
}

/// Contribution of a known point `(j, y)` to the value at `x`.
pub open spec fn lagrange_term(y: int, xs: Seq<u64>, j: int, x: int) -> int {
    trunc_div(y * lagrange_num(xs, j, x), lagrange_den(xs, j))
}

/// The interpolated value at `x` from the known points `(index, value)`,
/// with `xs` the known indices.
pub open spec fn interp_value(points: Seq<(u64, int)>, xs: Seq<u64>, x: int) -> int
    decreases points.len(),
{
    if points.len() == 0 {
        0
    } else {
        interp_value(points.drop_last(), xs, x) + lagrange_term(
            points.last().1,
            xs,
            points.last().0 as int,
            x,
        )
    }
}

/// The known points that a set of fragments gives.
pub open spec fn block_points(blocks: Seq<DataBlock>) -> Seq<(u64, int)> {
    Seq::new(blocks.len(), |k: int| (blocks[k].meta.curr_part, blocks[k].data.value()))
}

pub open spec fn block_indices(blocks: Seq<DataBlock>) -> Seq<u64> {
    Seq::new(blocks.len(), |k: int| blocks[k].meta.curr_part)
}

/// Every coefficient that interpolating at `x` needs fits in machine words.
pub open spec fn all_coefficients_fit(blocks: Seq<DataBlock>, xs: Seq<u64>, x: u64) -> bool {
    forall|k: int| 0 <= k < blocks.len() ==> coefficient_fits(xs, #[trigger] blocks[k].meta.curr_part, x)
}

/// The value at index `part_num` interpolated from the known fragments
/// `blocks`, whose indices are `xs`; `None` where a coefficient does
/// not fit in machine words.
pub fn interpolate_one(blocks: &Vec<DataBlock>, xs: &[u64], part_num: u64) -> (r: Option<BigNum>)
    ensures
        r matches Some(v) ==> v.canonical() && v.value() == interp_value(
            block_points(blocks@),
            xs@,
            part_num as int,
        ),
        all_coefficients_fit(blocks@, xs@, part_num) ==> r is Some,
{
    let zero = vec![0u8];
    proof {
        assert(zero@ =~= seq![0u8]);
    }
    let mut acc = BigNum { sign: Sign::NoSign, mag: zero };
    let ghost pts = block_points(blocks@);
    let mut k: usize = 0;
    proof {
        assert(pts.subrange(0, 0) =~= Seq::<(u64, int)>::empty());
    }
    while k < blocks.len()
        invariant
            k <= blocks.len(),
            pts == block_points(blocks@),
            acc.canonical(),
            acc.value() == interp_value(pts.subrange(0, k as int), xs@, part_num as int),
        decreases blocks.len() - k,
    {
        let b = &blocks[k];
        let f = match calc_lagrange_item_at_x(xs, b.meta.curr_part, part_num) {
            Some(f) => f,
            None => {
                proof {
                    assert(!coefficient_fits(xs@, blocks@[k as int].meta.curr_part, part_num));
                }
                return None;
            },
        };
        let t = big_mul_i64(&b.data, f.numer);
        let t2 = big_div_i64(&t, f.denom);
        proof {
            let y = b.data.value();
            let j = b.meta.curr_part as int;
            let n = lagrange_num(xs@, j, part_num as int);
            let d = lagrange_den(xs@, j);
            lemma_den_nonzero(xs@, j);
            assert((y * f.numer) * d == (y * n) * f.denom) by (nonlinear_arith)
                requires
                    f.numer * d == n * f.denom,
            ;
            lemma_trunc_div_cross(y * f.numer, f.denom as int, y * n, d);
            let post = pts.subrange(0, k + 1);
            assert(post.drop_last() =~= pts.subrange(0, k as int));
            assert(post.last() == (b.meta.curr_part, y));
        }
        acc = big_add(&acc, &t2);
        k = k + 1;
    }
    proof {
        assert(pts.subrange(0, blocks.len() as int) =~= pts);
    }
    Some(acc)
}

pub open spec fn distinct(s: Seq<u64>) -> bool {
    forall|a: int, b: int| 0 <= a < b < s.len() ==> s[a] != s[b]
}

/// The indices below `n` that are not in `xs`, in increasing order.
pub open spec fn missing_upto(xs: Seq<u64>, n: nat) -> Seq<u64>
    decreases n,
{
    if n == 0 {
        Seq::empty()
    } else if xs.contains((n - 1) as u64) {
        missing_upto(xs, (n - 1) as nat)
    } else {
        missing_upto(xs, (n - 1) as nat).push((n - 1) as u64)
    }
}

/// The indices that `missing_upto` lists are below `n` and not known.
pub proof fn lemma_missing_not_known(xs: Seq<u64>, n: nat)
    ensures
        forall|t: int|
            0 <= t < missing_upto(xs, n).len() ==> !xs.contains(#[trigger] missing_upto(xs, n)[t])
                && missing_upto(xs, n)[t] < n,
    decreases n,
{
    if n > 0 {
        let prev = missing_upto(xs, (n - 1) as nat);
        lemma_missing_not_known(xs, (n - 1) as nat);
        assert forall|t: int| 0 <= t < missing_upto(xs, n).len() implies !xs.contains(
            #[trigger] missing_upto(xs, n)[t],
        ) && missing_upto(xs, n)[t] < n by {
            if t < prev.len() {
                assert(missing_upto(xs, n)[t] == prev[t]);
            }
        }
    }
}

/// The known fragments and their index list agree: no index twice on either
/// side, as many of each, every fragment's index listed.
pub open spec fn consistent(blocks: Seq<DataBlock>, xs: Seq<u64>) -> bool {
    &&& distinct(xs)
    &&& distinct(block_indices(blocks))
    &&& xs.len() == blocks.len()
    &&& forall|k: int| 0 <= k < blocks.len() ==> xs.contains(#[trigger] blocks[k].meta.curr_part)
}

/// Metadata of the known fragment with the lowest index (the first such one
/// if an index repeats).
pub open spec fn lowest_meta(blocks: Seq<DataBlock>) -> DataBlockMeta
    decreases blocks.len(),
{
    if blocks.len() <= 1 {
        blocks[0].meta
    } else {
        let r = lowest_meta(blocks.drop_last());
        if blocks.last().meta.curr_part < r.curr_part {
            blocks.last().meta
        } else {
            r
        }
    }
}

/// The lowest-index metadata belongs to one of the fragments, and no fragment
/// has a lower index; with distinct indices it therefore does not depend on
/// the order of the fragments.
pub proof fn lemma_lowest_meta(blocks: Seq<DataBlock>)
    requires
        blocks.len() > 0,
    ensures
        exists|k: int| 0 <= k < blocks.len() && blocks[k].meta == lowest_meta(blocks),
        forall|k: int| 0 <= k < blocks.len() ==> lowest_meta(blocks).curr_part <= #[trigger] blocks[k].meta.curr_part,
    decreases blocks.len(),
{
    if blocks.len() > 1 {
        let init = blocks.drop_last();
        lemma_lowest_meta(init);
        let k0 = choose|k: int| 0 <= k < init.len() && init[k].meta == lowest_meta(init);
        assert(blocks[k0] == init[k0]);
        assert forall|k: int| 0 <= k < blocks.len() implies lowest_meta(blocks).curr_part <= #[trigger] blocks[k].meta.curr_part by {
            if k < init.len() {
                assert(blocks[k] == init[k]);
            }
        }
    } else {
        assert(blocks[0].meta == lowest_meta(blocks));
    }
}

pub(crate) fn lowest_block(blocks: &Vec<DataBlock>) -> (r: usize)
    requires
        blocks.len() > 0,
    ensures
        r < blocks.len(),
        blocks@[r as int].meta == lowest_meta(blocks@),
{
    let mut best: usize = 0;
    let mut t: usize = 1;
    proof {
        assert(blocks@.subrange(0, 1).len() == 1);
        assert(blocks@.subrange(0, 1)[0] == blocks@[0]);
    }
    while t < blocks.len()
        invariant
            1 <= t <= blocks.len(),
            best < t,
            blocks@[best as int].meta == lowest_meta(blocks@.subrange(0, t as int)),
        decreases blocks.len() - t,
    {
        proof {
            let post = blocks@.subrange(0, t + 1);
            assert(post.drop_last() =~= blocks@.subrange(0, t as int));
            assert(post.last() == blocks@[t as int]);
        }
        if blocks[t].meta.curr_part < blocks[best].meta.curr_part {
            best = t;
        }
        t = t + 1;
    }
    proof {
        assert(blocks@.subrange(0, blocks.len() as int) =~= blocks@);
    }
    best
}

/// Total number of fragments that a fragment's metadata describes.
pub open spec fn total_parts(m: DataBlockMeta) -> int {
    m.data_parts + m.erasure_parts
}

/// A rebuilt fragment's metadata: that of `b0` with index `x`, the sign of
/// `value` and, for an erasure fragment, no padding.
pub open spec fn rebuilt_meta_ok(r: DataBlockMeta, b0: DataBlockMeta, x: u64, value: int) -> bool {
    &&& r.data_parts == b0.data_parts
    &&& r.erasure_parts == b0.erasure_parts
    &&& r.work_dir@ == b0.work_dir@
    &&& r.curr_part == x
    &&& r.sign == crate::bignum::sign_of(value)
    &&& r.padding == if x >= b0.data_parts { 0 } else { b0.padding }
}

fn contains_index(xs: &[u64], v: u64) -> (r: bool)
    ensures
        r == xs@.contains(v),
{
    let mut i: usize = 0;
    while i < xs.len()
        invariant
            i <= xs.len(),
            forall|t: int| 0 <= t < i ==> xs@[t] != v,
        decreases xs.len() - i,
    {
        if xs[i] == v {
            return true;
        }
        i = i + 1;
    }
    false
}

fn all_distinct(xs: &[u64]) -> (r: bool)
    ensures
        r == distinct(xs@),
{
    let mut a: usize = 0;
    while a < xs.len()
        invariant
            a <= xs.len(),
            forall|p: int, q: int| 0 <= p < a && p < q < xs.len() ==> xs@[p] != xs@[q],
        decreases xs.len() - a,
    {
        let mut b: usize = a + 1;
        while b < xs.len()
            invariant
                a < xs.len(),
                a + 1 <= b <= xs.len(),
                forall|p: int, q: int| 0 <= p < a && p < q < xs.len() ==> xs@[p] != xs@[q],
                forall|q: int| a < q < b ==> xs@[a as int] != xs@[q],
            decreases xs.len() - b,
        {
            if xs[a] == xs[b] {
                return false;
            }
            b = b + 1;
        }
        a = a + 1;
    }
    true
}

/// Computes every fragment in `[0, data_parts + erasure_parts)` whose index is
/// not among the known indices `xs`, in increasing index order, from the known
/// fragments `blocks`. Geometry and metadata come from the known fragment with
/// the lowest index, so the order of `blocks` does not matter. Known indices
/// are never recomputed.
pub fn interpolate_all_and_dump(blocks: &Vec<DataBlock>, xs: &[u64]) -> (r: Result<
    Vec<DataBlock>,
    ErasureError,
>)
    ensures
        blocks.len() == 0 ==> r == Err::<Vec<DataBlock>, ErasureError>(
            ErasureError::InternalInvariantViolation,
        ),
        blocks.len() > 0 && xs.len() < lowest_meta(blocks@).data_parts <==> r == Err::<
            Vec<DataBlock>,
            ErasureError,
        >(ErasureError::GeometryError),
        blocks.len() == 0 || !consistent(blocks@, xs@) || total_parts(lowest_meta(blocks@)) > u64::MAX
            ==> r is Err,
        r matches Ok(out) ==> {
            let b0 = lowest_meta(blocks@);
            let miss = missing_upto(xs@, total_parts(b0) as nat);
            &&& blocks.len() > 0
            &&& consistent(blocks@, xs@)
            &&& xs.len() >= b0.data_parts
            &&& out.len() == miss.len()
            &&& forall|k: int|
                0 <= k < out.len() ==> {
                    &&& !xs@.contains((#[trigger] out[k]).meta.curr_part)
                    &&& out[k].meta.curr_part < total_parts(b0)
                    &&& out[k].data.canonical()
                    &&& out[k].data.value() == interp_value(
                        block_points(blocks@),
                        xs@,
                        miss[k] as int,
                    )
                    &&& rebuilt_meta_ok(out[k].meta, b0, miss[k], out[k].data.value())
                }
        },
        ({
            &&& blocks.len() > 0
            &&& consistent(blocks@, xs@)
            &&& xs.len() >= lowest_meta(blocks@).data_parts
            &&& total_parts(lowest_meta(blocks@)) <= u64::MAX
            &&& forall|x: u64|
                x < total_parts(lowest_meta(blocks@)) && !xs@.contains(x) ==> all_coefficients_fit(
                    blocks@,
                    xs@,
                    x,
                )
        }) ==> r is Ok,
{
    if blocks.len() == 0 {
        return Err(ErasureError::InternalInvariantViolation);
    }
    let best = lowest_block(blocks);
    let b0 = &blocks[best].meta;
    if (xs.len() as u64) < b0.data_parts {
        return Err(ErasureError::GeometryError);
    }
    if b0.data_parts > u64::MAX - b0.erasure_parts {
        return Err(ErasureError::InternalInvariantViolation);
    }
    let mut idxs: Vec<u64> = Vec::new();
    let mut k: usize = 0;
    while k < blocks.len()
        invariant
            k <= blocks.len(),
            blocks.len() > 0,
            xs.len() >= lowest_meta(blocks@).data_parts,
            b0 == &lowest_meta(blocks@),
            idxs@ == block_indices(blocks@).subrange(0, k as int),
            forall|t: int| 0 <= t < k ==> xs@.contains(#[trigger] blocks@[t].meta.curr_part),
        decreases blocks.len() - k,
    {
        if !contains_index(xs, blocks[k].meta.curr_part) {
            return Err(ErasureError::InternalInvariantViolation);
        }
        idxs.push(blocks[k].meta.curr_part);
        k = k + 1;
        proof {
            assert(idxs@ =~= block_indices(blocks@).subrange(0, k as int));
        }
    }
    proof {
        assert(idxs@ =~= block_indices(blocks@));
    }
    if xs.len() != blocks.len() || !all_distinct(xs) || !all_distinct(idxs.as_slice()) {
        return Err(ErasureError::InternalInvariantViolation);
    }
    let total = b0.data_parts + b0.erasure_parts;
    let mut out: Vec<DataBlock> = Vec::new();
    let mut part_num: u64 = 0;
    while part_num < total
        invariant
            blocks.len() > 0,
            xs.len() >= lowest_meta(blocks@).data_parts,
            b0 == &lowest_meta(blocks@),
            total == total_parts(*b0),
            part_num <= total,
            out.len() == missing_upto(xs@, part_num as nat).len(),
            forall|t: int|
                0 <= t < out.len() ==> {
                    &&& (#[trigger] out[t]).data.canonical()
                    &&& out[t].data.value() == interp_value(
                        block_points(blocks@),
                        xs@,
                        missing_upto(xs@, part_num as nat)[t] as int,
                    )
                    &&& rebuilt_meta_ok(
                        out[t].meta,
                        *b0,
                        missing_upto(xs@, part_num as nat)[t],
                        out[t].data.value(),
                    )
                },
            ({
                &&& consistent(blocks@, xs@)
                &&& forall|x: u64|
                    x < total_parts(*b0) && !xs@.contains(x) ==> all_coefficients_fit(
                        blocks@,
                        xs@,
                        x,
                    )
            }) ==> forall|x: u64| x < total && !xs@.contains(x) ==> all_coefficients_fit(blocks@, xs@, x),
        decreases total - part_num,
    {
        let ghost before = missing_upto(xs@, part_num as nat);
        if contains_index(xs, part_num) {
            proof {
                assert(missing_upto(xs@, (part_num + 1) as nat) == before);
            }
        } else {
            let value = match interpolate_one(blocks, xs, part_num) {
                Some(v) => v,
                None => {
                    return Err(ErasureError::InternalInvariantViolation);
                },
            };
            let mut meta = b0.duplicate();
            meta.curr_part = part_num;
            meta.sign = value.sign;
            if part_num >= b0.data_parts {
                meta.padding = 0;
            }
            let ghost v = value.value();
            out.push(DataBlock { data: value, meta });
            proof {
                let after = missing_upto(xs@, (part_num + 1) as nat);
                assert(after == before.push(part_num));
                assert forall|t: int| 0 <= t < out.len() implies {
                    &&& (#[trigger] out[t]).data.canonical()
                    &&& out[t].data.value() == interp_value(block_points(blocks@), xs@, after[t] as int)
                    &&& rebuilt_meta_ok(out[t].meta, *b0, after[t], out[t].data.value())
                } by {
                    if t < out.len() - 1 {
                        assert(after[t] == before[t]);
                    }
                }
            }
        }
        part_num = part_num + 1;
    }
    proof {
        lemma_missing_not_known(xs@, total as nat);
    }
    Ok(out)
}

proof fn lemma_num_remove(s: Seq<u64>, k: int, j: int, x: int)
    requires
        0 <= k < s.len(),
    ensures
        lagrange_num(s, j, x) == lagrange_num(s.remove(k), j, x) * num_factor(s[k], j, x),
    decreases s.len(),
{
    if k == s.len() - 1 {
        assert(s.remove(k) =~= s.drop_last());
    } else {
        let init = s.drop_last();
        lemma_num_remove(init, k, j, x);
        assert(s.remove(k).drop_last() =~= init.remove(k));
        assert(s.remove(k).last() == s.last());
        let a = lagrange_num(init.remove(k), j, x);
        let b = num_factor(s[k], j, x);
        let c = num_factor(s.last(), j, x);
        assert((a * b) * c == (a * c) * b) by (nonlinear_arith);
    }
}

proof fn lemma_den_remove(s: Seq<u64>, k: int, j: int)
    requires
        0 <= k < s.len(),
    ensures
        lagrange_den(s, j) == lagrange_den(s.remove(k), j) * den_factor(s[k], j),
    decreases s.len(),
{
    if k == s.len() - 1 {
        assert(s.remove(k) =~= s.drop_last());
    } else {
        let init = s.drop_last();
        lemma_den_remove(init, k, j);
        assert(s.remove(k).drop_last() =~= init.remove(k));
        assert(s.remove(k).last() == s.last());
        let a = lagrange_den(init.remove(k), j);
        let b = den_factor(s[k], j);
        let c = den_factor(s.last(), j);
        assert((a * b) * c == (a * c) * b) by (nonlinear_arith);
    }
}

proof fn lemma_interp_remove(p: Seq<(u64, int)>, k: int, xs: Seq<u64>, x: int)
    requires
        0 <= k < p.len(),
    ensures
        interp_value(p, xs, x) == interp_value(p.remove(k), xs, x) + lagrange_term(
            p[k].1,
            xs,
            p[k].0 as int,
            x,
        ),
    decreases p.len(),
{
    if k == p.len() - 1 {
        assert(p.remove(k) =~= p.drop_last());
    } else {
        let init = p.drop_last();
        lemma_interp_remove(init, k, xs, x);
        assert(p.remove(k).drop_last() =~= init.remove(k));
        assert(p.remove(k).last() == p.last());
    }
}

/// Splits off the last element of `s1` and finds it in `s2`.
proof fn lemma_match_last<A>(s1: Seq<A>, s2: Seq<A>) -> (k: int)
    requires
        s1.len() > 0,
        s1.to_multiset() == s2.to_multiset(),
    ensures
        0 <= k < s2.len(),
        s2[k] == s1.last(),
        s1.drop_last().to_multiset() == s2.remove(k).to_multiset(),
{
    broadcast use vstd::seq_lib::group_to_multiset_ensures, vstd::multiset::group_multiset_axioms;

    let a = s1.last();
    let init = s1.drop_last();
    assert(init.push(a) =~= s1);
    assert(s1.to_multiset().count(a) > 0);
    assert(s2.contains(a));
    let k = choose|k: int| 0 <= k < s2.len() && s2[k] == a;
    assert(s2.remove(k).to_multiset() =~= s2.to_multiset().remove(a));
    assert(init.to_multiset() =~= init.to_multiset().insert(a).remove(a));
    k
}

proof fn lemma_num_perm(s1: Seq<u64>, s2: Seq<u64>, j: int, x: int)
    requires
        s1.to_multiset() == s2.to_multiset(),
    ensures
        lagrange_num(s1, j, x) == lagrange_num(s2, j, x),
        lagrange_den(s1, j) == lagrange_den(s2, j),
    decreases s1.len(),
{
    broadcast use vstd::seq_lib::group_to_multiset_ensures;

    if s1.len() == 0 {
        assert(s2.to_multiset().len() == 0);
        assert(s2.len() == 0);
    } else {
        let k = lemma_match_last(s1, s2);
        lemma_num_perm(s1.drop_last(), s2.remove(k), j, x);
        lemma_num_remove(s2, k, j, x);
        lemma_den_remove(s2, k, j);
    }
}

proof fn lemma_interp_perm(p1: Seq<(u64, int)>, p2: Seq<(u64, int)>, xs: Seq<u64>, x: int)
    requires
        p1.to_multiset() == p2.to_multiset(),
    ensures
        interp_value(p1, xs, x) == interp_value(p2, xs, x),
    decreases p1.len(),
{
    broadcast use vstd::seq_lib::group_to_multiset_ensures;

    if p1.len() == 0 {
        assert(p2.to_multiset().len() == 0);
        assert(p2.len() == 0);
    } else {
        let k = lemma_match_last(p1, p2);
        lemma_interp_perm(p1.drop_last(), p2.remove(k), xs, x);
        lemma_interp_remove(p2, k, xs, x);
    }
}

/// Order independence: the interpolated value at `x` depends only on which
/// known points there are and which known indices there are, not on the order
/// in which either is given.
pub proof fn lemma_order_independent(
    p1: Seq<(u64, int)>,
    p2: Seq<(u64, int)>,
    xs1: Seq<u64>,
    xs2: Seq<u64>,
    x: int,
)
    requires
        p1.to_multiset() == p2.to_multiset(),
        xs1.to_multiset() == xs2.to_multiset(),
    ensures
        interp_value(p1, xs1, x) == interp_value(p2, xs2, x),
{
    lemma_interp_perm(p1, p2, xs1, x);
    lemma_interp_same_points(p2, xs1, xs2, x);
}

proof fn lemma_interp_same_points(p: Seq<(u64, int)>, xs1: Seq<u64>, xs2: Seq<u64>, x: int)
    requires
        xs1.to_multiset() == xs2.to_multiset(),
    ensures
        interp_value(p, xs1, x) == interp_value(p, xs2, x),
    decreases p.len(),
{
    if p.len() > 0 {
        lemma_interp_same_points(p.drop_last(), xs1, xs2, x);
        lemma_num_perm(xs1, xs2, p.last().0 as int, x);
    }
}

/// With a single data fragment there is nothing to interpolate: every index
/// gets the value of the one known fragment.
pub proof fn lemma_single_point(j: u64, y: int, x: int)
    ensures
        interp_value(seq![(j, y)], seq![j], x) == y,
{
    let p = seq![(j, y)];
    let xs = seq![j];
    assert(xs.drop_last() =~= Seq::<u64>::empty());
    assert(xs.last() == j);
    assert(lagrange_num(Seq::<u64>::empty(), j as int, x) == 1);
    assert(lagrange_den(Seq::<u64>::empty(), j as int) == 1);
    assert(num_factor(j, j as int, x) == 1);
    assert(den_factor(j, j as int) == 1);
    assert(lagrange_num(xs, j as int, x) == 1);
    assert(lagrange_den(xs, j as int) == 1);
    assert(p.drop_last() =~= Seq::<(u64, int)>::empty());
    assert(y * 1 == y);
    assert(abs(1) == 1);
    assert((abs(y) / 1) as int == abs(y) as int);
    assert(trunc_div(y, 1) == y);
    assert(p.last() == (j, y));
    assert(interp_value(Seq::<(u64, int)>::empty(), xs, x) == 0);
    assert(lagrange_term(y, xs, j as int, x) == y);
}

/// When every index below `n` is known, nothing is missing: no fragment is
/// interpolated.
pub proof fn lemma_nothing_missing(xs: Seq<u64>, n: nat)
    requires
        forall|i: u64| i < n ==> xs.contains(i),
    ensures
        missing_upto(xs, n).len() == 0,
    decreases n,
{
    if n > 0 {
        assert(xs.contains((n - 1) as u64));
        lemma_nothing_missing(xs, (n - 1) as nat);
    }
}

/// The Lagrange coefficient in lowest terms does not depend on the order of
/// the known indices: two results for the same indices in any order are the
/// same fraction.
pub proof fn lemma_coefficient_order_independent(
    f1: Fraction,
    f2: Fraction,
    xs1: Seq<u64>,
    xs2: Seq<u64>,
    j: int,
    x: int,
)
    requires
        xs1.to_multiset() == xs2.to_multiset(),
        f1.wf() && f1.lowest() && f1.denotes(lagrange_num(xs1, j, x), lagrange_den(xs1, j)),
        f2.wf() && f2.lowest() && f2.denotes(lagrange_num(xs2, j, x), lagrange_den(xs2, j)),
    ensures
        f1 == f2,
{
    lemma_num_perm(xs1, xs2, j, x);
    lemma_den_nonzero(xs1, j);
    let n = lagrange_num(xs1, j, x);
    let d = lagrange_den(xs1, j);
    let (a, b, c, e) = (f1.numer as int, f1.denom as int, f2.numer as int, f2.denom as int);
    assert((a * e - c * b) * d == 0) by (nonlinear_arith)
        requires
            a * d == n * b,
            c * d == n * e,
    ;
    assert(a * e == c * b) by (nonlinear_arith)
        requires
            (a * e - c * b) * d == 0,
            d != 0,
    ;
    lemma_lowest_unique(f1, f2);
}

/// With distinct indices, the metadata that rebuilt fragments copy is the
/// same whatever the order of the known fragments.
pub proof fn lemma_lowest_meta_order_independent(b1: Seq<DataBlock>, b2: Seq<DataBlock>)
    requires
        b1.len() > 0,
        b1.to_multiset() == b2.to_multiset(),
        distinct(block_indices(b1)),
    ensures
        lowest_meta(b1) == lowest_meta(b2),
{
    broadcast use vstd::seq_lib::group_to_multiset_ensures;

    assert(b1.to_multiset().len() == b1.len());
    assert(b2.to_multiset().len() == b2.len());
    assert(b2.len() == b1.len());
    lemma_lowest_meta(b1);
    lemma_lowest_meta(b2);
    let k1 = choose|k: int| 0 <= k < b1.len() && b1[k].meta == lowest_meta(b1);
    let k2 = choose|k: int| 0 <= k < b2.len() && b2[k].meta == lowest_meta(b2);
    assert(b1.to_multiset().count(b2[k2]) > 0) by {
        assert(b2.contains(b2[k2]));
    }
    assert(b1.contains(b2[k2]));
    let k3 = choose|k: int| 0 <= k < b1.len() && b1[k] == b2[k2];
    assert(b2.to_multiset().count(b1[k1]) > 0) by {
        assert(b1.contains(b1[k1]));
    }
    assert(b2.contains(b1[k1]));
    let k4 = choose|k: int| 0 <= k < b2.len() && b2[k] == b1[k1];
    assert(b1[k1].meta.curr_part <= b1[k3].meta.curr_part);
    assert(b2[k2].meta.curr_part <= b2[k4].meta.curr_part);
    assert(b1[k1].meta.curr_part == b1[k3].meta.curr_part);
    if k1 != k3 {
        assert(block_indices(b1)[k1] == block_indices(b1)[k3]);
        if k1 < k3 {
            assert(block_indices(b1)[k1] != block_indices(b1)[k3]);
        } else {
            assert(block_indices(b1)[k3] != block_indices(b1)[k1]);
        }
    }
}

} // verus!
