use crate::aligned::{block_count, lemma_block_count_bounds, opt_val, pack_opts, sentinel};
use crate::flatten::{flatten, uniform_rows, FlattenAxis};
use crate::metric::{
    cross_contrib, cross_term, distance_other, distance_self, lemma_self_is_cross_with_self,
    self_contrib, table_view,
};
use std::collections::HashMap;
use vstd::arithmetic::div_mod::{
    lemma_basic_div, lemma_div_by_multiple, lemma_hoist_over_denominator,
    lemma_mod_multiples_vanish, lemma_small_mod,
};
use vstd::arithmetic::mul::lemma_mul_inequality;
use vstd::prelude::*;

verus! {

broadcast use vstd::std_specs::hash::group_hash_axioms;

/// No stored code equals the sentinel. Packing overloads the element type's
/// zero as the "missing" mark, so a real observation of that code would be
/// misread as missing; the value domain must exclude it.
pub open spec fn no_sentinel_values(data: Seq<Vec<Option<u8>>>) -> bool {
    forall|i: int, p: int|
        0 <= i < data.len() && 0 <= p < data[i]@.len() ==> #[trigger] data[i]@[p] != Some(
            sentinel(),
        )
}

/// How many of the first `upto` samples hold code `v` in feature column
/// `col`; missing values are not counted.
pub open spec fn col_count(data: Seq<Vec<Option<u8>>>, col: int, v: u8, upto: int) -> int
    decreases upto,
{
    if upto <= 0 {
        0
    } else {
        col_count(data, col, v, upto - 1) + (if data[upto - 1]@[col] == Some(v) {
            1int
        } else {
            0int
        })
    }
}

/// A column count is never negative and never exceeds the number of samples
/// counted.
pub proof fn lemma_col_count_bounds(data: Seq<Vec<Option<u8>>>, col: int, v: u8, upto: int)
    requires
        upto >= 0,
    ensures
        0 <= col_count(data, col, v, upto) <= upto,
    decreases upto,
{
    if upto > 0 {
        lemma_col_count_bounds(data, col, v, upto - 1);
    }
}

/// A sample that holds `v` in column `col` puts that column's count of `v`
/// above zero.
pub proof fn lemma_col_count_positive(
    data: Seq<Vec<Option<u8>>>,
    col: int,
    v: u8,
    i: int,
    upto: int,
)
    requires
        0 <= i < upto,
        data[i]@[col] == Some(v),
    ensures
        col_count(data, col, v, upto) >= 1,
    decreases upto,
{
    if i < upto - 1 {
        lemma_col_count_positive(data, col, v, i, upto - 1);
    } else {
        lemma_col_count_bounds(data, col, v, upto - 1);
    }
}

/// The frequency table `tv` holds, for each of the first `m` columns,
/// exactly the observed values of that column, each mapped to its
/// occurrence count over the whole dataset.
pub open spec fn counts_table(data: Seq<Vec<Option<u8>>>, m: int, tv: Seq<Map<u8, u128>>) -> bool {
    &&& tv.len() == m
    &&& forall|col: int, v: u8|
        0 <= col < m ==> {
            &&& (#[trigger] tv[col].contains_key(v) <==> col_count(
                data,
                col,
                v,
                data.len() as int,
            ) > 0)
            &&& (tv[col].contains_key(v) ==> tv[col][v] == col_count(
                data,
                col,
                v,
                data.len() as int,
            ))
        }
}

/// What feature `k` contributes to the naive, unchunked distance between
/// samples `i` and `j`: nothing when both are missing, the value's column
/// count on a match, and the penalty — the sample count — otherwise.
pub open spec fn naive_term(data: Seq<Vec<Option<u8>>>, i: int, j: int, k: int) -> int {
    match (data[i]@[k], data[j]@[k]) {
        (Option::None, Option::None) => 0,
        (Option::Some(x), Option::Some(y)) => if x == y {
            col_count(data, k, x, data.len() as int)
        } else {
            data.len() as int
        },
        _ => data.len() as int,
    }
}

/// The naive distance restricted to the first `k` features.
pub open spec fn naive_prefix(data: Seq<Vec<Option<u8>>>, i: int, j: int, k: int) -> int
    decreases k,
{
    if k <= 0 {
        0
    } else {
        naive_prefix(data, i, j, k - 1) + naive_term(data, i, j, k - 1)
    }
}

/// The naive distance restricted to the `len` features starting at `lo`.
pub open spec fn naive_range(data: Seq<Vec<Option<u8>>>, i: int, j: int, lo: int, len: int) -> int
    decreases len,
{
    if len <= 0 {
        0
    } else {
        naive_range(data, i, j, lo, len - 1) + naive_term(data, i, j, lo + len - 1)
    }
}

/// The reference oracle: the distance between samples `i` and `j` by the
/// naive algorithm, iterating every feature directly without chunking.
pub open spec fn naive_distance(data: Seq<Vec<Option<u8>>>, i: int, j: int) -> int {
    naive_prefix(data, i, j, data[0]@.len() as int)
}

/// Every feature's contribution lies between zero and the sample count.
pub proof fn lemma_naive_term_bounds(data: Seq<Vec<Option<u8>>>, i: int, j: int, k: int)
    ensures
        0 <= naive_term(data, i, j, k) <= data.len(),
{
    match (data[i]@[k], data[j]@[k]) {
        (Option::Some(x), Option::Some(y)) => {
            lemma_col_count_bounds(data, k, x, data.len() as int);
        },
        _ => {},
    }
}

/// The naive distance over `k` features lies between zero and
/// `k * data.len()`.
pub proof fn lemma_naive_prefix_bounds(data: Seq<Vec<Option<u8>>>, i: int, j: int, k: int)
    requires
        k >= 0,
    ensures
        0 <= naive_prefix(data, i, j, k) <= k * data.len(),
    decreases k,
{
    if k > 0 {
        lemma_naive_prefix_bounds(data, i, j, k - 1);
        lemma_naive_term_bounds(data, i, j, k - 1);
        assert(k * data.len() == (k - 1) * data.len() + data.len()) by (nonlinear_arith);
    }
}

/// Feature positions sum up chunk by chunk: the first `lo + len` features
/// contribute what the first `lo` contribute plus the range of `len`
/// features starting at `lo`.
pub proof fn lemma_naive_prefix_split(
    data: Seq<Vec<Option<u8>>>,
    i: int,
    j: int,
    lo: int,
    len: int,
)
    requires
        lo >= 0,
        len >= 0,
    ensures
        naive_prefix(data, i, j, lo + len) == naive_prefix(data, i, j, lo) + naive_range(
            data,
            i,
            j,
            lo,
            len,
        ),
    decreases len,
{
    if len > 0 {
        lemma_naive_prefix_split(data, i, j, lo, len - 1);
    }
}

/// The formula is commutative in the two samples, so the lower triangle of
/// the matrix, though never computed, is implied equal to the upper one.
pub proof fn lemma_naive_distance_symmetric(data: Seq<Vec<Option<u8>>>, i: int, j: int)
    ensures
        naive_distance(data, i, j) == naive_distance(data, j, i),
{
    lemma_naive_prefix_symmetric(data, i, j, data[0]@.len() as int);
}

/// Symmetry of the naive distance over any feature prefix.
pub proof fn lemma_naive_prefix_symmetric(data: Seq<Vec<Option<u8>>>, i: int, j: int, k: int)
    ensures
        naive_prefix(data, i, j, k) == naive_prefix(data, j, i, k),
    decreases k,
{
    if k > 0 {
        lemma_naive_prefix_symmetric(data, i, j, k - 1);
    }
}

/// The heart of the blocked algorithm's correctness: over one chunk, the
/// cross-contribution computed from two packed blocks equals the naive
/// range over the same feature positions, provided no stored value equals
/// the sentinel and the table holds the true counts.
pub proof fn lemma_blocked_chunk_equals_naive(
    data: Seq<Vec<Option<u8>>>,
    tv: Seq<Map<u8, u128>>,
    a: Seq<u8>,
    b: Seq<u8>,
    i: int,
    j: int,
    start: int,
    take: int,
    c: nat,
)
    requires
        no_sentinel_values(data),
        counts_table(data, data[0]@.len() as int, tv),
        0 <= i < data.len(),
        0 <= j < data.len(),
        data[i]@.len() == data[0]@.len(),
        data[j]@.len() == data[0]@.len(),
        a == pack_opts(data[i]@.skip(start), c),
        b == pack_opts(data[j]@.skip(start), c),
        0 <= start,
        take <= c,
        start + take <= data[0]@.len(),
    ensures
        cross_contrib(a, b, tv, start, take, data.len() as int) == naive_range(
            data,
            i,
            j,
            start,
            take,
        ),
    decreases take,
{
    if take > 0 {
        lemma_blocked_chunk_equals_naive(data, tv, a, b, i, j, start, take - 1, c);
        let p = take - 1;
        let col = start + p;
        assert(data[i]@.skip(start)[p] == data[i]@[col]);
        assert(data[j]@.skip(start)[p] == data[j]@[col]);
        assert(a[p] == opt_val(data[i]@[col]));
        assert(b[p] == opt_val(data[j]@[col]));
        match (data[i]@[col], data[j]@[col]) {
            (Option::Some(x), Option::Some(y)) => {
                assert(data[i]@[col] != Some(sentinel()));
                assert(data[j]@[col] != Some(sentinel()));
                if x == y {
                    lemma_col_count_positive(data, col, x, i, data.len() as int);
                    assert(tv[col].contains_key(x));
                    assert(tv[col][x] == col_count(data, col, x, data.len() as int));
                }
            },
            _ => {},
        }
        assert(cross_term(a[p], b[p], tv[col], data.len() as int) == naive_term(data, i, j, col));
    }
}

/// Every non-sentinel value of a packed block is a key of its column's
/// frequency map: what the kernels need in order not to miss a lookup.
pub proof fn lemma_chunk_keys_present(
    data: Seq<Vec<Option<u8>>>,
    tv: Seq<Map<u8, u128>>,
    blk: Seq<u8>,
    i: int,
    start: int,
    take: int,
    c: nat,
)
    requires
        no_sentinel_values(data),
        counts_table(data, data[0]@.len() as int, tv),
        0 <= i < data.len(),
        data[i]@.len() == data[0]@.len(),
        blk == pack_opts(data[i]@.skip(start), c),
        0 <= start,
        take <= c,
        start + take <= data[0]@.len(),
    ensures
        forall|p: int|
            0 <= p < take && #[trigger] blk[p] != sentinel() ==> tv[start + p].contains_key(
                blk[p],
            ),
{
    assert forall|p: int| 0 <= p < take && #[trigger] blk[p] != sentinel() implies tv[start
        + p].contains_key(blk[p]) by {
        let col = start + p;
        assert(data[i]@.skip(start)[p] == data[i]@[col]);
        assert(blk[p] == opt_val(data[i]@[col]));
        match data[i]@[col] {
            Option::Some(x) => {
                lemma_col_count_positive(data, col, x, i, data.len() as int);
                assert(tv[col].contains_key(x));
            },
            Option::None => {},
        }
    }
}

/// Scans the dataset once and produces one frequency map per feature
/// column: observed value to occurrence count, missing values excluded.
pub fn build_value_counts(data: &Vec<Vec<Option<u8>>>, m: usize) -> (r: Vec<HashMap<u8, u128>>)
    requires
        forall|i: int| 0 <= i < data@.len() ==> #[trigger] data@[i]@.len() >= m,
    ensures
        r@.len() == m,
        counts_table(data@, m as int, table_view(r@)),
{
    let n = data.len();
    let mut r: Vec<HashMap<u8, u128>> = Vec::new();
    let mut j: usize = 0;
    while j < m
        invariant
            forall|i: int| 0 <= i < data@.len() ==> #[trigger] data@[i]@.len() >= m,
            n == data@.len(),
            j <= m,
            r@.len() == j,
            forall|col: int, v: u8|
                0 <= col < j ==> {
                    &&& (#[trigger] r@[col]@.contains_key(v) <==> col_count(
                        data@,
                        col,
                        v,
                        n as int,
                    ) > 0)
                    &&& (r@[col]@.contains_key(v) ==> r@[col]@[v] == col_count(
                        data@,
                        col,
                        v,
                        n as int,
                    ))
                },
        decreases m - j,
    {
        let mut map: HashMap<u8, u128> = HashMap::new();
        let mut i: usize = 0;
        while i < n
            invariant
                forall|i2: int| 0 <= i2 < data@.len() ==> #[trigger] data@[i2]@.len() >= m,
                n == data@.len(),
                j < m,
                i <= n,
                forall|v: u8|
                    #[trigger] map@.contains_key(v) <==> col_count(data@, j as int, v, i as int)
                        > 0,
                forall|v: u8|
                    map@.contains_key(v) ==> map@[v] == col_count(data@, j as int, v, i as int),
            decreases n - i,
        {
            let row = &data[i];
            let o = row[j];
            match o {
                None => {},
                Some(v) => {
                    proof {
                        lemma_col_count_bounds(data@, j as int, v, i as int);
                    }
                    let cur = match map.get(&v) {
                        Some(x) => *x,
                        None => 0u128,
                    };
                    map.insert(v, cur + 1);
                },
            }
            i = i + 1;
        }
        r.push(map);
        j = j + 1;
    }
    proof {
        assert(table_view(r@).len() == m);
        assert(counts_table(data@, m as int, table_view(r@)));
    }
    r
}

/// How many feature positions the first `kk` chunks of width `c` cover:
/// `kk * c`, capped at the feature count `m`.
spec fn covered_upto(m: int, c: int, kk: int) -> int {
    if kk * c <= m {
        kk * c
    } else {
        m
    }
}

/// Chunk-major layout arithmetic: block `kk * n + i` decomposes back into
/// sample `i` and chunk `kk`.
proof fn lemma_flat_index(n: int, kk: int, i: int)
    requires
        n >= 1,
        0 <= i < n,
        0 <= kk,
    ensures
        (kk * n + i) % n == i,
        (kk * n + i) / n == kk,
{
    lemma_mod_multiples_vanish(kk, i, n);
    lemma_small_mod(i as nat, n as nat);
    assert(n * kk + i == kk * n + i) by (nonlinear_arith);
    lemma_hoist_over_denominator(i, kk, n as nat);
    lemma_basic_div(i, n);
    assert(i + kk * n == kk * n + i);
}

/// The whole performance path: builds the frequency table, reorganizes the
/// dataset into the chunk-major packed layout, and accumulates the two
/// kernels chunk by chunk into an `n × n` matrix. The result's upper
/// triangle, diagonal included, carries exactly the naive, unchunked
/// distances; the lower triangle is left at zero and is implied equal by
/// symmetry.
pub fn compute_distance_matrix(data: Vec<Vec<Option<u8>>>, c: usize) -> (r: Vec<Vec<u128>>)
    requires
        c >= 1,
        uniform_rows(data@),
        no_sentinel_values(data@),
    ensures
        r@.len() == data@.len(),
        forall|i: int| 0 <= i < data@.len() ==> #[trigger] r@[i]@.len() == data@.len(),
        forall|i: int, j: int|
            #![trigger r@[i]@[j]]
            0 <= i <= j < data@.len() ==> r@[i]@[j] as int == naive_distance(data@, i, j),
        forall|i: int, j: int|
            #![trigger r@[i]@[j]]
            0 <= j < i < data@.len() ==> r@[i]@[j] == 0,
{
    let ghost datag = data@;
    let n = data.len();
    let mut matrix: Vec<Vec<u128>> = Vec::new();
    let mut i0: usize = 0;
    while i0 < n
        invariant
            i0 <= n,
            matrix@.len() == i0,
            forall|i2: int| 0 <= i2 < i0 ==> #[trigger] matrix@[i2]@.len() == n,
            forall|i2: int, j2: int|
                #![trigger matrix@[i2]@[j2]]
                0 <= i2 < i0 && 0 <= j2 < n ==> matrix@[i2]@[j2] == 0,
        decreases n - i0,
    {
        let mut row: Vec<u128> = Vec::new();
        let mut j0: usize = 0;
        while j0 < n
            invariant
                j0 <= n,
                row@.len() == j0,
                forall|j2: int| 0 <= j2 < j0 ==> #[trigger] row@[j2] == 0,
            decreases n - j0,
        {
            row.push(0u128);
            j0 = j0 + 1;
        }
        matrix.push(row);
        i0 = i0 + 1;
    }
    if n == 0 {
        return matrix;
    }
    let m = data[0].len();
    let value_counts = build_value_counts(&data, m);
    let ghost tv = table_view(value_counts@);
    let flattened = flatten(data, FlattenAxis::Column, c);
    proof {
        lemma_block_count_bounds(m as nat, c as nat);
    }
    let ghost kg = block_count(m as nat, c as nat);
    let flen = flattened.len();
    proof {
        lemma_div_by_multiple(kg, n as int);
    }
    let k = flen / n;
    let penalty = n as u128;
    proof {
        assert(covered_upto(m as int, c as int, 0) == 0);
        assert forall|i2: int, j2: int| 0 <= i2 <= j2 < n implies matrix@[i2]@[j2] as int
            == naive_prefix(datag, i2, j2, 0) by {
            assert(matrix@[i2]@[j2] == 0);
        }
    }
    let mut kk: usize = 0;
    while kk < k
        invariant
            c >= 1,
            n >= 1,
            n == datag.len(),
            m == datag[0]@.len(),
            uniform_rows(datag),
            no_sentinel_values(datag),
            value_counts@.len() == m,
            tv == table_view(value_counts@),
            counts_table(datag, m as int, tv),
            kg == block_count(m as nat, c as nat),
            k == kg,
            flattened@.len() == kg * n,
            flen == flattened@.len(),
            forall|b: int|
                0 <= b < flattened@.len() ==> #[trigger] flattened@[b]@ == pack_opts(
                    datag[b % (n as int)]@.skip((b / (n as int)) * (c as int)),
                    c as nat,
                ),
            penalty == n as u128,
            kk <= k,
            matrix@.len() == n,
            forall|i2: int| 0 <= i2 < n ==> #[trigger] matrix@[i2]@.len() == n,
            forall|i2: int, j2: int|
                #![trigger matrix@[i2]@[j2]]
                0 <= j2 < i2 < n ==> matrix@[i2]@[j2] == 0,
            forall|i2: int, j2: int|
                #![trigger matrix@[i2]@[j2]]
                0 <= i2 <= j2 < n ==> matrix@[i2]@[j2] as int == naive_prefix(
                    datag,
                    i2,
                    j2,
                    covered_upto(m as int, c as int, kk as int),
                ),
        decreases k - kk,
    {
        proof {
            lemma_block_count_bounds(m as nat, c as nat);
            lemma_mul_inequality(kk as int, kg - 1, c as int);
        }
        let start = kk * c;
        let rem = m - start;
        let take = if rem < c {
            rem
        } else {
            c
        };
        let hi = start + take;
        proof {
            assert((kk + 1) * (c as int) == kk * (c as int) + c) by (nonlinear_arith);
            assert(covered_upto(m as int, c as int, kk as int) == start);
            assert(covered_upto(m as int, c as int, kk as int + 1) == hi);
        }
        let mut i: usize = 0;
        while i < n
            invariant
                c >= 1,
                n >= 1,
                n == datag.len(),
                m == datag[0]@.len(),
                uniform_rows(datag),
                no_sentinel_values(datag),
                value_counts@.len() == m,
                tv == table_view(value_counts@),
                counts_table(datag, m as int, tv),
                kg == block_count(m as nat, c as nat),
                k == kg,
                flattened@.len() == kg * n,
                flen == flattened@.len(),
                forall|b: int|
                    0 <= b < flattened@.len() ==> #[trigger] flattened@[b]@ == pack_opts(
                        datag[b % (n as int)]@.skip((b / (n as int)) * (c as int)),
                        c as nat,
                    ),
                penalty == n as u128,
                kk < k,
                start == kk * c,
                start < m,
                take <= c,
                hi == start + take,
                hi <= m,
                start == covered_upto(m as int, c as int, kk as int),
                hi == covered_upto(m as int, c as int, kk as int + 1),
                i <= n,
                matrix@.len() == n,
                forall|i2: int| 0 <= i2 < n ==> #[trigger] matrix@[i2]@.len() == n,
                forall|i2: int, j2: int|
                    #![trigger matrix@[i2]@[j2]]
                    0 <= j2 < i2 < n ==> matrix@[i2]@[j2] == 0,
                forall|i2: int, j2: int|
                    #![trigger matrix@[i2]@[j2]]
                    0 <= i2 <= j2 < n && i2 < i ==> matrix@[i2]@[j2] as int == naive_prefix(
                        datag,
                        i2,
                        j2,
                        hi as int,
                    ),
                forall|i2: int, j2: int|
                    #![trigger matrix@[i2]@[j2]]
                    0 <= i2 <= j2 < n && i2 >= i ==> matrix@[i2]@[j2] as int == naive_prefix(
                        datag,
                        i2,
                        j2,
                        start as int,
                    ),
            decreases n - i,
        {
            proof {
                lemma_mul_inequality(kk as int, k as int - 1, n as int);
                assert((k as int - 1) * (n as int) + n == (k as int) * (n as int))
                    by (nonlinear_arith);
                lemma_flat_index(n as int, kk as int, i as int);
            }
            let bi = kk * n + i;
            proof {
                assert(flattened@[bi as int]@ == pack_opts(
                    datag[i as int]@.skip((kk as int) * (c as int)),
                    c as nat,
                ));
                assert(datag[i as int]@.len() == m);
                lemma_chunk_keys_present(
                    datag,
                    tv,
                    flattened@[bi as int]@,
                    i as int,
                    start as int,
                    take as int,
                    c as nat,
                );
                lemma_self_is_cross_with_self(
                    flattened@[bi as int]@,
                    tv,
                    start as int,
                    take as int,
                    n as int,
                );
                lemma_blocked_chunk_equals_naive(
                    datag,
                    tv,
                    flattened@[bi as int]@,
                    flattened@[bi as int]@,
                    i as int,
                    i as int,
                    start as int,
                    take as int,
                    c as nat,
                );
                lemma_naive_prefix_split(datag, i as int, i as int, start as int, take as int);
                lemma_naive_prefix_bounds(datag, i as int, i as int, hi as int);
                lemma_naive_prefix_bounds(datag, i as int, i as int, start as int);
                assert((hi as int) * (n as int) <= (m as int) * (n as int)) by (nonlinear_arith)
                    requires
                        hi <= m,
                        n >= 0,
                ;
                assert((m as int) * (n as int) <= u128::MAX as int) by (nonlinear_arith)
                    requires
                        m <= u64::MAX,
                        n <= u64::MAX,
                ;
            }
            let ds = distance_self(&flattened[bi], &value_counts, kk, take);
            let cur = matrix[i][i];
            matrix[i][i] = cur + ds;
            let mut j = i + 1;
            while j < n
                invariant
                    c >= 1,
                    n >= 1,
                    n == datag.len(),
                    m == datag[0]@.len(),
                    uniform_rows(datag),
                    no_sentinel_values(datag),
                    value_counts@.len() == m,
                    tv == table_view(value_counts@),
                    counts_table(datag, m as int, tv),
                    kg == block_count(m as nat, c as nat),
                    k == kg,
                    flattened@.len() == kg * n,
                    flen == flattened@.len(),
                    forall|b: int|
                        0 <= b < flattened@.len() ==> #[trigger] flattened@[b]@ == pack_opts(
                            datag[b % (n as int)]@.skip((b / (n as int)) * (c as int)),
                            c as nat,
                        ),
                    penalty == n as u128,
                    kk < k,
                    start == kk * c,
                    start < m,
                    take <= c,
                    hi == start + take,
                    hi <= m,
                    i < n,
                    i < j,
                    j <= n,
                    bi == kk * n + i,
                    bi < flattened@.len(),
                    flattened@[bi as int]@ == pack_opts(
                        datag[i as int]@.skip((kk as int) * (c as int)),
                        c as nat,
                    ),
                    matrix@.len() == n,
                    forall|i2: int| 0 <= i2 < n ==> #[trigger] matrix@[i2]@.len() == n,
                    forall|i2: int, j2: int|
                        #![trigger matrix@[i2]@[j2]]
                        0 <= j2 < i2 < n ==> matrix@[i2]@[j2] == 0,
                    forall|i2: int, j2: int|
                        #![trigger matrix@[i2]@[j2]]
                        0 <= i2 <= j2 < n && i2 < i ==> matrix@[i2]@[j2] as int == naive_prefix(
                            datag,
                            i2,
                            j2,
                            hi as int,
                        ),
                    matrix@[i as int]@[i as int] as int == naive_prefix(
                        datag,
                        i as int,
                        i as int,
                        hi as int,
                    ),
                    forall|j2: int|
                        i < j2 < j ==> #[trigger] matrix@[i as int]@[j2] as int == naive_prefix(
                            datag,
                            i as int,
                            j2,
                            hi as int,
                        ),
                    forall|j2: int|
                        j <= j2 < n ==> #[trigger] matrix@[i as int]@[j2] as int == naive_prefix(
                            datag,
                            i as int,
                            j2,
                            start as int,
                        ),
                    forall|i2: int, j2: int|
                        #![trigger matrix@[i2]@[j2]]
                        i < i2 <= j2 < n ==> matrix@[i2]@[j2] as int == naive_prefix(
                            datag,
                            i2,
                            j2,
                            start as int,
                        ),
                decreases n - j,
            {
                proof {
                    lemma_mul_inequality(kk as int, k as int - 1, n as int);
                    assert((k as int - 1) * (n as int) + n == (k as int) * (n as int))
                        by (nonlinear_arith);
                    lemma_flat_index(n as int, kk as int, j as int);
                }
                let bj = kk * n + j;
                proof {
                    assert(flattened@[bj as int]@ == pack_opts(
                        datag[j as int]@.skip((kk as int) * (c as int)),
                        c as nat,
                    ));
                    assert(datag[i as int]@.len() == m);
                    assert(datag[j as int]@.len() == m);
                    lemma_chunk_keys_present(
                        datag,
                        tv,
                        flattened@[bi as int]@,
                        i as int,
                        start as int,
                        take as int,
                        c as nat,
                    );
                    lemma_blocked_chunk_equals_naive(
                        datag,
                        tv,
                        flattened@[bi as int]@,
                        flattened@[bj as int]@,
                        i as int,
                        j as int,
                        start as int,
                        take as int,
                        c as nat,
                    );
                    lemma_naive_prefix_split(datag, i as int, j as int, start as int, take as int);
                    lemma_naive_prefix_bounds(datag, i as int, j as int, hi as int);
                    lemma_naive_prefix_bounds(datag, i as int, j as int, start as int);
                    assert((hi as int) * (n as int) <= (m as int) * (n as int))
                        by (nonlinear_arith)
                        requires
                            hi <= m,
                            n >= 0,
                    ;
                    assert((m as int) * (n as int) <= u128::MAX as int) by (nonlinear_arith)
                        requires
                            m <= u64::MAX,
                            n <= u64::MAX,
                    ;
                }
                let dx = distance_other(
                    &flattened[bi],
                    &flattened[bj],
                    &value_counts,
                    kk,
                    take,
                    penalty,
                );
                let cur2 = matrix[i][j];
                matrix[i][j] = cur2 + dx;
                j = j + 1;
            }
            i = i + 1;
        }
        kk = kk + 1;
    }
    proof {
        lemma_block_count_bounds(m as nat, c as nat);
        assert(covered_upto(m as int, c as int, k as int) == m);
    }
    matrix
}

} // verus!
