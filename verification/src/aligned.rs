use vstd::arithmetic::div_mod::{
    lemma_basic_div, lemma_div_nonincreasing, lemma_div_plus_one, lemma_fundamental_div_mod,
    lemma_mod_division_less_than_divisor,
};
use vstd::arithmetic::mul::lemma_mul_inequality;
use vstd::prelude::*;

verus! {

/// The sentinel standing for "no data supplied here": the element type's zero.
/// A real categorical code equal to this value is indistinguishable from a
/// missing value once packed; callers must keep it out of the value domain.
pub open spec fn sentinel() -> u8 {
    0u8
}

/// The scalar a packed position holds for an optional source value:
/// a present value is kept, a missing one becomes the sentinel.
pub open spec fn opt_val(o: Option<u8>) -> u8 {
    match o {
        Some(v) => v,
        None => sentinel(),
    }
}

/// Packing a sequence of plain values into width `c`: the first
/// `min(c, src.len())` positions hold the source values in order, the rest
/// hold the sentinel; values beyond position `c` are discarded.
pub open spec fn pack_vals(src: Seq<u8>, c: nat) -> Seq<u8> {
    Seq::new(c, |p: int| if p < src.len() { src[p] } else { sentinel() })
}

/// Packing a sequence of optional values into width `c`: present values are
/// kept, missing ones and positions past the source become the sentinel,
/// values beyond position `c` are discarded.
pub open spec fn pack_opts(src: Seq<Option<u8>>, c: nat) -> Seq<u8> {
    Seq::new(c, |p: int| if p < src.len() { opt_val(src[p]) } else { sentinel() })
}

/// The number of width-`c` blocks a source of length `len` is cut into:
/// `ceil(len / c)`.
pub open spec fn block_count(len: nat, c: nat) -> int {
    (len + c - 1) / (c as int)
}

/// Bounds tying `block_count` to the source length: `block_count(len, c)`
/// blocks of width `c` cover the whole source, and every block but the one
/// past the end starts strictly inside it.
pub proof fn lemma_block_count_bounds(len: nat, c: nat)
    requires
        c >= 1,
    ensures
        block_count(len, c) >= 0,
        len == 0 ==> block_count(len, c) == 0,
        len >= 1 ==> block_count(len, c) == (len - 1) / (c as int) + 1,
        block_count(len, c) * c >= len,
        len >= 1 ==> (block_count(len, c) - 1) * c < len,
{
    let d = c as int;
    let x = len as int;
    if len == 0 {
        lemma_basic_div(d - 1, d);
    } else {
        lemma_div_plus_one(x - 1, d);
        assert(x + d - 1 == d + (x - 1));
        let q = (x - 1) / d;
        let r = (x - 1) % d;
        lemma_fundamental_div_mod(x - 1, d);
        lemma_mod_division_less_than_divisor(x - 1, d);
        assert(block_count(len, c) == q + 1);
        assert(x - 1 == d * q + r);
        assert(q * d == x - 1 - r) by (nonlinear_arith)
            requires
                x - 1 == d * q + r,
        ;
        assert((q + 1) * d == q * d + d) by (nonlinear_arith);
    }
}

/// Packing leaves the first `min(c, len)` source values in place, pads the
/// tail with the sentinel, and never reads past position `c` of the source.
pub proof fn lemma_pack_truncates_and_pads(src: Seq<u8>, c: nat)
    ensures
        pack_vals(src, c).len() == c,
        forall|p: int| 0 <= p < c && p < src.len() ==> pack_vals(src, c)[p] == src[p],
        forall|p: int| src.len() <= p < c ==> pack_vals(src, c)[p] == sentinel(),
        src.len() >= c ==> pack_vals(src, c) == pack_vals(src.take(c as int), c),
{
    if src.len() >= c {
        assert(pack_vals(src, c) =~= pack_vals(src.take(c as int), c));
    }
}

/// The optional-source packing behaves the same way: present values are
/// kept in place up to `min(c, len)`, everything after the source is the
/// sentinel, and nothing past position `c` of the source is read.
pub proof fn lemma_pack_opts_truncates_and_pads(src: Seq<Option<u8>>, c: nat)
    ensures
        pack_opts(src, c).len() == c,
        forall|p: int| 0 <= p < c && p < src.len() ==> pack_opts(src, c)[p] == opt_val(src[p]),
        forall|p: int| src.len() <= p < c ==> pack_opts(src, c)[p] == sentinel(),
        src.len() >= c ==> pack_opts(src, c) == pack_opts(src.take(c as int), c),
{
    if src.len() >= c {
        assert(pack_opts(src, c) =~= pack_opts(src.take(c as int), c));
    }
}

/// Packing is idempotent: a sequence that already came out of a width-`c`
/// packing packs back to itself.
pub proof fn lemma_pack_idempotent(src: Seq<u8>, c: nat)
    ensures
        pack_vals(pack_vals(src, c), c) == pack_vals(src, c),
{
    assert(pack_vals(pack_vals(src, c), c) =~= pack_vals(src, c));
}

/// A fixed-width block: a container of exactly `c` scalar elements, where `c`
/// is the block width chosen at construction. Short or long sources are
/// silently padded with the sentinel or truncated; no construction fails.
pub struct Packed {
    data: Vec<u8>,
}

impl View for Packed {
    type V = Seq<u8>;

    closed spec fn view(&self) -> Seq<u8> {
        self.data@
    }
}

impl Packed {
    /// A block of width `c` holding only sentinel values.
    pub fn new(c: usize) -> (r: Packed)
        ensures
            r@ == pack_vals(Seq::<u8>::empty(), c as nat),
            r@.len() == c,
            forall|p: int| 0 <= p < c ==> r@[p] == sentinel(),
    {
        let mut data: Vec<u8> = Vec::new();
        let mut p: usize = 0;
        while p < c
            invariant
                p <= c,
                data@.len() == p,
                forall|q: int| 0 <= q < p ==> data@[q] == sentinel(),
            decreases c - p,
        {
            data.push(0u8);
            p = p + 1;
        }
        let r = Packed { data };
        proof {
            assert(r@ =~= pack_vals(Seq::<u8>::empty(), c as nat));
        }
        r
    }

    /// A block of width `c` with every position holding `value`.
    pub fn from_value(value: u8, c: usize) -> (r: Packed)
        ensures
            r@.len() == c,
            forall|p: int| 0 <= p < c ==> r@[p] == value,
    {
        let mut data: Vec<u8> = Vec::new();
        let mut p: usize = 0;
        while p < c
            invariant
                p <= c,
                data@.len() == p,
                forall|q: int| 0 <= q < p ==> data@[q] == value,
            decreases c - p,
        {
            data.push(value);
            p = p + 1;
        }
        Packed { data }
    }

    /// The block of width `c` holding `src[start ..]`, truncated or padded
    /// with the sentinel to exactly `c` elements.
    pub fn from_vals_at(src: &Vec<u8>, start: usize, c: usize) -> (r: Packed)
        requires
            start <= src@.len(),
        ensures
            r@ == pack_vals(src@.skip(start as int), c as nat),
    {
        let mut data: Vec<u8> = Vec::new();
        let mut p: usize = 0;
        while p < c
            invariant
                start <= src@.len(),
                p <= c,
                data@.len() == p,
                forall|q: int|
                    0 <= q < p ==> data@[q] == (if start + q < src@.len() {
                        src@[start + q]
                    } else {
                        sentinel()
                    }),
            decreases c - p,
        {
            let v = if p < src.len() - start {
                src[start + p]
            } else {
                0u8
            };
            data.push(v);
            p = p + 1;
        }
        let r = Packed { data };
        proof {
            assert(r@ =~= pack_vals(src@.skip(start as int), c as nat));
        }
        r
    }

    /// The block of width `c` holding `src[start ..]` with missing values
    /// mapped to the sentinel, truncated or padded to exactly `c` elements.
    pub fn from_opts_at(src: &Vec<Option<u8>>, start: usize, c: usize) -> (r: Packed)
        requires
            start <= src@.len(),
        ensures
            r@ == pack_opts(src@.skip(start as int), c as nat),
    {
        let mut data: Vec<u8> = Vec::new();
        let mut p: usize = 0;
        while p < c
            invariant
                start <= src@.len(),
                p <= c,
                data@.len() == p,
                forall|q: int|
                    0 <= q < p ==> data@[q] == (if start + q < src@.len() {
                        opt_val(src@[start + q])
                    } else {
                        sentinel()
                    }),
            decreases c - p,
        {
            let v = if p < src.len() - start {
                match src[start + p] {
                    Some(x) => x,
                    None => 0u8,
                }
            } else {
                0u8
            };
            data.push(v);
            p = p + 1;
        }
        let r = Packed { data };
        proof {
            assert(r@ =~= pack_opts(src@.skip(start as int), c as nat));
        }
        r
    }

    /// The sentinel against which kernel code compares block positions.
    pub fn cmp_default(&self) -> (r: u8)
        ensures
            r == sentinel(),
    {
        0u8
    }

    /// The block width: how many elements the block holds.
    pub fn len(&self) -> (r: usize)
        ensures
            r == self@.len(),
    {
        self.data.len()
    }

    /// The element at position `i`.
    pub fn get(&self, i: usize) -> (r: u8)
        requires
            i < self@.len(),
        ensures
            r == self@[i as int],
    {
        self.data[i]
    }

    /// The block's elements in order, for sequential traversal.
    pub fn iter(&self) -> (r: &Vec<u8>)
        ensures
            r@ == self@,
    {
        &self.data
    }
}

/// Cutting a whole source sequence into consecutive width-`c` blocks,
/// the last one padded with the sentinel.
pub trait Packable {
    /// The `block_count(vec.len(), c)` blocks of `vec`, in order; block `b`
    /// holds `vec[b * c ..]` truncated or padded to width `c`.
    fn consume_vec(vec: Vec<u8>, c: usize) -> (r: Vec<Packed>)
        requires
            c >= 1,
        ensures
            r@.len() == block_count(vec@.len(), c as nat),
            forall|b: int|
                0 <= b < r@.len() ==> r@[b]@ == pack_vals(vec@.skip(b * (c as int)), c as nat),
    ;

    /// The blocks of an optional-valued source: as `consume_vec`, with
    /// missing values mapped to the sentinel.
    fn consume_option_vec(vec: Vec<Option<u8>>, c: usize) -> (r: Vec<Packed>)
        requires
            c >= 1,
        ensures
            r@.len() == block_count(vec@.len(), c as nat),
            forall|b: int|
                0 <= b < r@.len() ==> r@[b]@ == pack_opts(vec@.skip(b * (c as int)), c as nat),
    ;
}

impl Packable for Packed {
    fn consume_vec(vec: Vec<u8>, c: usize) -> (r: Vec<Packed>) {
        let n = vec.len();
        proof {
            lemma_block_count_bounds(vec@.len(), c as nat);
            if n >= 1 {
                lemma_div_nonincreasing((n - 1) as int, c as int);
            }
        }
        let nblocks: usize = if n == 0 {
            0
        } else {
            (n - 1) / c + 1
        };
        let mut out: Vec<Packed> = Vec::new();
        let mut b: usize = 0;
        while b < nblocks
            invariant
                c >= 1,
                vec@.len() == n,
                nblocks == block_count(n as nat, c as nat),
                b <= nblocks,
                out@.len() == b,
                forall|bb: int|
                    0 <= bb < b ==> out@[bb]@ == pack_vals(
                        vec@.skip(bb * (c as int)),
                        c as nat,
                    ),
            decreases nblocks - b,
        {
            proof {
                lemma_block_count_bounds(vec@.len(), c as nat);
                lemma_mul_inequality(b as int, block_count(n as nat, c as nat) - 1, c as int);
            }
            let start = b * c;
            let blk = Packed::from_vals_at(&vec, start, c);
            out.push(blk);
            b = b + 1;
        }
        out
    }

    fn consume_option_vec(vec: Vec<Option<u8>>, c: usize) -> (r: Vec<Packed>) {
        let n = vec.len();
        proof {
            lemma_block_count_bounds(vec@.len(), c as nat);
            if n >= 1 {
                lemma_div_nonincreasing((n - 1) as int, c as int);
            }
        }
        let nblocks: usize = if n == 0 {
            0
        } else {
            (n - 1) / c + 1
        };
        let mut out: Vec<Packed> = Vec::new();
        let mut b: usize = 0;
        while b < nblocks
            invariant
                c >= 1,
                vec@.len() == n,
                nblocks == block_count(n as nat, c as nat),
                b <= nblocks,
                out@.len() == b,
                forall|bb: int|
                    0 <= bb < b ==> out@[bb]@ == pack_opts(
                        vec@.skip(bb * (c as int)),
                        c as nat,
                    ),
            decreases nblocks - b,
        {
            proof {
                lemma_block_count_bounds(vec@.len(), c as nat);
                lemma_mul_inequality(b as int, block_count(n as nat, c as nat) - 1, c as int);
            }
            let start = b * c;
            let blk = Packed::from_opts_at(&vec, start, c);
            out.push(blk);
            b = b + 1;
        }
        out
    }
}

} // verus!
