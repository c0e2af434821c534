use crate::aligned::{block_count, lemma_block_count_bounds, pack_opts, Packed};
use vstd::arithmetic::div_mod::{
    lemma_basic_div, lemma_div_nonincreasing, lemma_hoist_over_denominator,
    lemma_mod_multiples_vanish, lemma_small_mod,
};
use vstd::arithmetic::mul::lemma_mul_inequality;
use vstd::prelude::*;

verus! {

/// Which way the dataset's blocks are laid out.
pub enum FlattenAxis {
    /// Sample-major: all of one sample's blocks in order, then the next
    /// sample's.
    Row,
    /// Chunk-major: for each chunk index in turn, every sample's block for
    /// that chunk stands contiguously — the layout the distance kernels
    /// traverse.
    Column,
}

/// Uniform shape: every sample holds as many feature positions as the first.
pub open spec fn uniform_rows(data: Seq<Vec<Option<u8>>>) -> bool {
    forall|i: int| 0 <= i < data.len() ==> #[trigger] data[i]@.len() == data[0]@.len()
}

/// Cuts each of the `n` samples into `K = block_count(m, c)` width-`c`
/// blocks and lays the `K * n` blocks out along the chosen axis.
///
/// Chunk-major (`Column`): block `kk * n + i` is sample `i`'s block for
/// chunk `kk`, so `r[b]` holds sample `b % n`, chunk `b / n`.
/// Sample-major (`Row`): block `i * K + kk` is sample `i`'s block for chunk
/// `kk`, so `r[b]` holds sample `b / K`, chunk `b % K`.
pub fn flatten(data: Vec<Vec<Option<u8>>>, axis: FlattenAxis, c: usize) -> (r: Vec<Packed>)
    requires
        c >= 1,
        uniform_rows(data@),
    ensures
        data@.len() == 0 ==> r@.len() == 0,
        data@.len() >= 1 ==> r@.len() == block_count(data@[0]@.len(), c as nat) * data@.len(),
        axis is Column ==> forall|b: int|
            0 <= b < r@.len() ==> r@[b]@ == pack_opts(
                data@[b % (data@.len() as int)]@.skip((b / (data@.len() as int)) * (c as int)),
                c as nat,
            ),
        axis is Row ==> forall|b: int|
            0 <= b < r@.len() ==> r@[b]@ == pack_opts(
                data@[b / block_count(data@[0]@.len(), c as nat)]@.skip(
                    (b % block_count(data@[0]@.len(), c as nat)) * (c as int),
                ),
                c as nat,
            ),
{
    let n = data.len();
    if n == 0 {
        let r: Vec<Packed> = Vec::new();
        return r;
    }
    let m = data[0].len();
    proof {
        lemma_block_count_bounds(m as nat, c as nat);
        if m >= 1 {
            lemma_div_nonincreasing((m - 1) as int, c as int);
        }
    }
    let k: usize = if m == 0 {
        0
    } else {
        (m - 1) / c + 1
    };
    let ghost kg = block_count(m as nat, c as nat);
    let mut out: Vec<Packed> = Vec::new();
    match axis {
        FlattenAxis::Column => {
            let mut kk: usize = 0;
            while kk < k
                invariant
                    c >= 1,
                    uniform_rows(data@),
                    n == data@.len(),
                    n >= 1,
                    m == data@[0]@.len(),
                    kg == block_count(m as nat, c as nat),
                    k == kg,
                    kk <= k,
                    out@.len() == kk * n,
                    forall|b: int|
                        0 <= b < out@.len() ==> out@[b]@ == pack_opts(
                            data@[b % (n as int)]@.skip((b / (n as int)) * (c as int)),
                            c as nat,
                        ),
                decreases k - kk,
            {
                proof {
                    lemma_block_count_bounds(m as nat, c as nat);
                    lemma_mul_inequality(kk as int, kg - 1, c as int);
                }
                let start = kk * c;
                let mut i: usize = 0;
                while i < n
                    invariant
                        c >= 1,
                        uniform_rows(data@),
                        n == data@.len(),
                        n >= 1,
                        m == data@[0]@.len(),
                        start == kk * c,
                        start < m,
                        i <= n,
                        out@.len() == kk * n + i,
                        forall|b: int|
                            0 <= b < out@.len() ==> out@[b]@ == pack_opts(
                                data@[b % (n as int)]@.skip((b / (n as int)) * (c as int)),
                                c as nat,
                            ),
                    decreases n - i,
                {
                    assert(data@[i as int]@.len() == m);
                    let blk = Packed::from_opts_at(&data[i], start, c);
                    out.push(blk);
                    proof {
                        let b = kk * n + i;
                        lemma_mod_multiples_vanish(kk as int, i as int, n as int);
                        lemma_small_mod(i as nat, n as nat);
                        assert((n as int) * (kk as int) + i == b) by (nonlinear_arith)
                            requires
                                b == kk * n + i,
                        ;
                        lemma_hoist_over_denominator(i as int, kk as int, n as nat);
                        lemma_basic_div(i as int, n as int);
                        assert(b % (n as int) == i);
                        assert(b / (n as int) == kk);
                    }
                    i = i + 1;
                }
                kk = kk + 1;
                proof {
                    assert(kk * n == (kk - 1) * n + n) by (nonlinear_arith);
                }
            }
            proof {
                assert(out@.len() == kg * n);
            }
        },
        FlattenAxis::Row => {
            let mut i: usize = 0;
            while i < n
                invariant
                    c >= 1,
                    uniform_rows(data@),
                    n == data@.len(),
                    n >= 1,
                    m == data@[0]@.len(),
                    kg == block_count(m as nat, c as nat),
                    k == kg,
                    i <= n,
                    out@.len() == i * k,
                    forall|b: int|
                        0 <= b < out@.len() ==> out@[b]@ == pack_opts(
                            data@[b / (k as int)]@.skip((b % (k as int)) * (c as int)),
                            c as nat,
                        ),
                decreases n - i,
            {
                let mut kk: usize = 0;
                while kk < k
                    invariant
                        c >= 1,
                        uniform_rows(data@),
                        n == data@.len(),
                        n >= 1,
                        m == data@[0]@.len(),
                        kg == block_count(m as nat, c as nat),
                        k == kg,
                        i < n,
                        kk <= k,
                        out@.len() == i * k + kk,
                        forall|b: int|
                            0 <= b < out@.len() ==> out@[b]@ == pack_opts(
                                data@[b / (k as int)]@.skip((b % (k as int)) * (c as int)),
                                c as nat,
                            ),
                    decreases k - kk,
                {
                    proof {
                        lemma_block_count_bounds(m as nat, c as nat);
                        lemma_mul_inequality(kk as int, kg - 1, c as int);
                    }
                    let start = kk * c;
                    assert(data@[i as int]@.len() == m);
                    let blk = Packed::from_opts_at(&data[i], start, c);
                    out.push(blk);
                    proof {
                        let b = i * k + kk;
                        lemma_mod_multiples_vanish(i as int, kk as int, k as int);
                        lemma_small_mod(kk as nat, k as nat);
                        assert((k as int) * (i as int) + kk == b) by (nonlinear_arith)
                            requires
                                b == i * k + kk,
                        ;
                        lemma_hoist_over_denominator(kk as int, i as int, k as nat);
                        lemma_basic_div(kk as int, k as int);
                        assert(b % (k as int) == kk);
                        assert(b / (k as int) == i);
                    }
                    kk = kk + 1;
                }
                i = i + 1;
                proof {
                    assert(i * k == (i - 1) * k + k) by (nonlinear_arith);
                }
            }
            proof {
                assert(out@.len() == n * kg);
                assert(n * kg == kg * n) by (nonlinear_arith);
            }
        },
    }
    out
}

} // verus!
