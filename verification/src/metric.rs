use crate::aligned::{sentinel, Packed};
use std::collections::HashMap;
use vstd::prelude::*;

verus! {

broadcast use vstd::std_specs::hash::group_hash_axioms;

/// The per-column frequency maps, as mathematical maps.
pub open spec fn table_view(vc: Seq<HashMap<u8, u128>>) -> Seq<Map<u8, u128>> {
    Seq::new(vc.len(), |col: int| vc[col]@)
}

/// What one position contributes between two block values: nothing when both
/// are missing, the value's column frequency on a match, the penalty
/// otherwise (mismatch, or missing against present).
pub open spec fn cross_term(a: u8, b: u8, cnt: Map<u8, u128>, penalty: int) -> int {
    if a == sentinel() && b == sentinel() {
        0
    } else if a == b {
        cnt[a] as int
    } else {
        penalty
    }
}

/// A sample's self-contribution over the first `take` positions of its
/// block for the chunk whose columns start at `base`: the sum of the column
/// frequencies of its present values.
pub open spec fn self_contrib(block: Seq<u8>, tv: Seq<Map<u8, u128>>, base: int, take: int) -> int
    decreases take,
{
    if take <= 0 {
        0
    } else {
        self_contrib(block, tv, base, take - 1) + (if block[take - 1] == sentinel() {
            0
        } else {
            tv[base + take - 1][block[take - 1]] as int
        })
    }
}

/// The cross-contribution of two samples' blocks over the first `take`
/// positions of the chunk whose columns start at `base`.
pub open spec fn cross_contrib(
    a: Seq<u8>,
    b: Seq<u8>,
    tv: Seq<Map<u8, u128>>,
    base: int,
    take: int,
    penalty: int,
) -> int
    decreases take,
{
    if take <= 0 {
        0
    } else {
        cross_contrib(a, b, tv, base, take - 1, penalty) + cross_term(
            a[take - 1],
            b[take - 1],
            tv[base + take - 1],
            penalty,
        )
    }
}

/// Self-contributions only grow as more positions are taken in.
pub proof fn lemma_self_contrib_nondecreasing(
    block: Seq<u8>,
    tv: Seq<Map<u8, u128>>,
    base: int,
    t1: int,
    t2: int,
)
    requires
        0 <= t1 <= t2,
    ensures
        self_contrib(block, tv, base, t1) <= self_contrib(block, tv, base, t2),
    decreases t2,
{
    if t1 < t2 {
        lemma_self_contrib_nondecreasing(block, tv, base, t1, t2 - 1);
    }
}

/// Cross-contributions only grow as more positions are taken in, as long as
/// the penalty is not negative.
pub proof fn lemma_cross_contrib_nondecreasing(
    a: Seq<u8>,
    b: Seq<u8>,
    tv: Seq<Map<u8, u128>>,
    base: int,
    t1: int,
    t2: int,
    penalty: int,
)
    requires
        0 <= t1 <= t2,
        penalty >= 0,
    ensures
        cross_contrib(a, b, tv, base, t1, penalty) <= cross_contrib(a, b, tv, base, t2, penalty),
    decreases t2,
{
    if t1 < t2 {
        lemma_cross_contrib_nondecreasing(a, b, tv, base, t1, t2 - 1, penalty);
    }
}

/// A sample whose block holds only sentinel values over the taken positions
/// contributes nothing to its self-distance for that chunk.
pub proof fn lemma_self_all_missing_is_zero(
    block: Seq<u8>,
    tv: Seq<Map<u8, u128>>,
    base: int,
    take: int,
)
    requires
        forall|p: int| 0 <= p < take ==> block[p] == sentinel(),
    ensures
        self_contrib(block, tv, base, take) == 0,
    decreases take,
{
    if take > 0 {
        lemma_self_all_missing_is_zero(block, tv, base, take - 1);
    }
}

/// Two samples that are both missing every taken position of a chunk
/// contribute nothing to their cross-distance for that chunk.
pub proof fn lemma_cross_all_missing_is_zero(
    a: Seq<u8>,
    b: Seq<u8>,
    tv: Seq<Map<u8, u128>>,
    base: int,
    take: int,
    penalty: int,
)
    requires
        forall|p: int| 0 <= p < take ==> a[p] == sentinel() && b[p] == sentinel(),
    ensures
        cross_contrib(a, b, tv, base, take, penalty) == 0,
    decreases take,
{
    if take > 0 {
        lemma_cross_all_missing_is_zero(a, b, tv, base, take - 1, penalty);
    }
}

/// The cross formula is commutative in the two blocks.
pub proof fn lemma_cross_contrib_symmetric(
    a: Seq<u8>,
    b: Seq<u8>,
    tv: Seq<Map<u8, u128>>,
    base: int,
    take: int,
    penalty: int,
)
    ensures
        cross_contrib(a, b, tv, base, take, penalty) == cross_contrib(b, a, tv, base, take, penalty),
    decreases take,
{
    if take > 0 {
        lemma_cross_contrib_symmetric(a, b, tv, base, take - 1, penalty);
    }
}

/// A sample's self-contribution is its cross-contribution with itself:
/// the diagonal of the matrix follows the same formula as the rest.
pub proof fn lemma_self_is_cross_with_self(
    block: Seq<u8>,
    tv: Seq<Map<u8, u128>>,
    base: int,
    take: int,
    penalty: int,
)
    ensures
        self_contrib(block, tv, base, take) == cross_contrib(block, block, tv, base, take, penalty),
    decreases take,
{
    if take > 0 {
        lemma_self_is_cross_with_self(block, tv, base, take - 1, penalty);
    }
}

/// One sample's contribution to its own distance for one chunk: for each of
/// the first `take` positions whose value is present (not the sentinel), the
/// value's frequency in its column, summed.
pub fn distance_self(
    data: &Packed,
    value_count: &Vec<HashMap<u8, u128>>,
    kk: usize,
    take: usize,
) -> (r: u128)
    requires
        take <= data@.len(),
        kk * data@.len() + take <= value_count@.len(),
        forall|p: int|
            0 <= p < take && #[trigger] data@[p] != sentinel() ==> table_view(value_count@)[
                kk * data@.len() + p
            ].contains_key(data@[p]),
        self_contrib(
            data@,
            table_view(value_count@),
            kk * data@.len(),
            take as int,
        ) <= u128::MAX,
    ensures
        r == self_contrib(data@, table_view(value_count@), kk * data@.len(), take as int),
{
    let c = data.len();
    let vc_len = value_count.len();
    let base = kk * c;
    let ghost tv = table_view(value_count@);
    let mut acc: u128 = 0;
    let mut p: usize = 0;
    while p < take
        invariant
            take <= data@.len(),
            c == data@.len(),
            base == kk * c,
            vc_len == value_count@.len(),
            base + take <= value_count@.len(),
            tv == table_view(value_count@),
            forall|q: int|
                0 <= q < take && #[trigger] data@[q] != sentinel() ==> tv[base + q].contains_key(
                    data@[q],
                ),
            self_contrib(data@, tv, base as int, take as int) <= u128::MAX,
            p <= take,
            acc == self_contrib(data@, tv, base as int, p as int),
        decreases take - p,
    {
        let v = data.get(p);
        if v != 0u8 {
            let col = base + p;
            assert(tv[col as int].contains_key(v));
            assert(tv[col as int] == value_count@[col as int]@);
            let cnt = *value_count[col].get(&v).unwrap();
            proof {
                lemma_self_contrib_nondecreasing(data@, tv, base as int, p + 1, take as int);
            }
            acc = acc + cnt;
        }
        p = p + 1;
    }
    acc
}

/// The cross-contribution of two samples' blocks for one chunk: positions
/// where both values are missing are skipped; a match adds the value's
/// column frequency; anything else adds the penalty `default`.
pub fn distance_other(
    data_a: &Packed,
    data_b: &Packed,
    value_count: &Vec<HashMap<u8, u128>>,
    kk: usize,
    take: usize,
    default: u128,
) -> (r: u128)
    requires
        data_a@.len() == data_b@.len(),
        take <= data_a@.len(),
        kk * data_a@.len() + take <= value_count@.len(),
        forall|p: int|
            0 <= p < take && #[trigger] data_a@[p] == #[trigger] data_b@[p] && data_a@[p]
                != sentinel() ==> table_view(value_count@)[kk * data_a@.len() + p].contains_key(
                data_a@[p],
            ),
        cross_contrib(
            data_a@,
            data_b@,
            table_view(value_count@),
            kk * data_a@.len(),
            take as int,
            default as int,
        ) <= u128::MAX,
    ensures
        r == cross_contrib(
            data_a@,
            data_b@,
            table_view(value_count@),
            kk * data_a@.len(),
            take as int,
            default as int,
        ),
{
    let c = data_a.len();
    let vc_len = value_count.len();
    let base = kk * c;
    let ghost tv = table_view(value_count@);
    let mut acc: u128 = 0;
    let mut p: usize = 0;
    while p < take
        invariant
            data_a@.len() == data_b@.len(),
            take <= data_a@.len(),
            c == data_a@.len(),
            base == kk * c,
            vc_len == value_count@.len(),
            base + take <= value_count@.len(),
            tv == table_view(value_count@),
            forall|q: int|
                0 <= q < take && #[trigger] data_a@[q] == #[trigger] data_b@[q] && data_a@[q]
                    != sentinel() ==> tv[base + q].contains_key(data_a@[q]),
            cross_contrib(data_a@, data_b@, tv, base as int, take as int, default as int)
                <= u128::MAX,
            p <= take,
            acc == cross_contrib(data_a@, data_b@, tv, base as int, p as int, default as int),
        decreases take - p,
    {
        let a = data_a.get(p);
        let b = data_b.get(p);
        proof {
            lemma_cross_contrib_nondecreasing(
                data_a@,
                data_b@,
                tv,
                base as int,
                p + 1,
                take as int,
                default as int,
            );
        }
        if a != 0u8 || b != 0u8 {
            if a == b {
                let col = base + p;
                assert(tv[col as int].contains_key(a));
                assert(tv[col as int] == value_count@[col as int]@);
                let cnt = *value_count[col].get(&a).unwrap();
                acc = acc + cnt;
            } else {
                acc = acc + default;
            }
        }
        p = p + 1;
    }
    acc
}

} // verus!
