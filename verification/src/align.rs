//! Rounding to multiples of an alignment and counting aligned blocks.
use vstd::prelude::*;

verus! {

/// The number of `bound`-sized blocks that cover `val`.
pub open spec fn blocks_up(val: int, bound: int) -> int {
    (val + bound - 1) / bound
}

/// `val` rounded up to a multiple of `bound`.
pub fn align_up(val: u32, bound: u32) -> (r: u32)
    requires
        bound > 0,
        blocks_up(val as int, bound as int) * bound <= u32::MAX,
    ensures
        r == blocks_up(val as int, bound as int) * bound,
{
    count_blocks_aligned_up(val, bound) * bound
}

/// `val` rounded down to a multiple of `bound`.
pub fn align_down(val: u32, bound: u32) -> (r: u32)
    requires
        bound > 0,
    ensures
        r == val / bound * bound,
{
    let q = val / bound;
    assert(q * bound <= val) by (nonlinear_arith)
        requires
            bound > 0,
            q == val / bound,
    ;
    q * bound
}

/// The number of `bound`-sized blocks that cover `val`.
pub fn count_blocks_aligned_up(val: u32, bound: u32) -> (r: u32)
    requires
        bound > 0,
    ensures
        r == blocks_up(val as int, bound as int),
{
    let q = val / bound;
    proof {
        lemma_blocks_up(val as int, bound as int);
    }
    if val % bound != 0 {
        assert(q < 0xffff_ffff) by (nonlinear_arith)
            requires
                bound > 0,
                q == val / bound,
                val % bound != 0,
                val <= 0xffff_ffff,
        ;
        q + 1
    } else {
        q
    }
}

/// The number of whole `bound`-sized blocks in `val`.
pub fn count_blocks_aligned_down(val: u32, bound: u32) -> (r: u32)
    requires
        bound > 0,
    ensures
        r == val / bound,
{
    val / bound
}

proof fn lemma_blocks_up(v: int, a: int)
    requires
        v >= 0,
        a > 0,
    ensures
        blocks_up(v, a) == v / a + if v % a != 0 {
            1int
        } else {
            0int
        },
{
    let q = v / a;
    let r = v % a;
    assert(v == q * a + r && 0 <= r < a) by (nonlinear_arith)
        requires
            a > 0,
            q == v / a,
            r == v % a,
    ;
    if r == 0 {
        assert((q * a + a - 1) / a == q) by (nonlinear_arith)
            requires
                a > 0,
        ;
    } else {
        assert((q * a + r + a - 1) / a == q + 1) by (nonlinear_arith)
            requires
                a > 0,
                0 < r < a,
        ;
    }
}

/// Aligning up gives the least multiple of `bound` not below `val`, and
/// aligning down the greatest multiple not above it.
pub proof fn lemma_alignment(val: int, bound: int)
    requires
        val >= 0,
        bound > 0,
    ensures
        blocks_up(val, bound) * bound >= val,
        blocks_up(val, bound) * bound < val + bound,
        (blocks_up(val, bound) * bound) % bound == 0,
        val / bound * bound <= val,
        val / bound * bound > val - bound,
        (val / bound * bound) % bound == 0,
        val % bound == 0 ==> blocks_up(val, bound) * bound == val && val / bound * bound == val,
{
    lemma_blocks_up(val, bound);
    let q = val / bound;
    let r = val % bound;
    assert(val == q * bound + r && 0 <= r < bound) by (nonlinear_arith)
        requires
            bound > 0,
            q == val / bound,
            r == val % bound,
    ;
    assert((q * bound) % bound == 0 && ((q + 1) * bound) % bound == 0) by (nonlinear_arith)
        requires
            bound > 0,
    ;
    assert((q + 1) * bound == q * bound + bound) by (nonlinear_arith);
}

} // verus!
