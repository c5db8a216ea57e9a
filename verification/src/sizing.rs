//! Tree sizing for the ECRS block tree: how many data blocks a file needs,
//! how wide the index-block tree is at each depth, and how many index blocks
//! there are in total.

use vstd::prelude::*;

verus! {

/// Size of a full data block, in bytes.
pub const DBLOCK_SIZE_IN_BYTES: u64 = 32 * 1024;

/// How many child CHKs one index block can hold.
pub const IBLOCK_CHK_CAPACITY: u64 = 256;

/// Ceiling division.
pub open spec fn ceil_div(x: nat, k: nat) -> nat {
    (((x + k - 1) as int) / (k as int)) as nat
}

/// Number of data blocks a file of `len` bytes splits into.
pub open spec fn spec_d_block_count(len: nat) -> nat {
    ceil_div(len, DBLOCK_SIZE_IN_BYTES as nat)
}

/// Number of depth-zero index blocks for `d` data blocks.
pub open spec fn spec_depth_zero_width(d: nat) -> nat {
    if d == 1 {
        1
    } else {
        ceil_div(d, IBLOCK_CHK_CAPACITY as nat)
    }
}

/// Width of the next-higher tree depth, given the current depth's width.
pub open spec fn next_width(w: nat) -> nat {
    if w > IBLOCK_CHK_CAPACITY {
        ceil_div(w, IBLOCK_CHK_CAPACITY as nat)
    } else {
        1
    }
}

/// Width of the index-block tree `nth` depths above depth zero, where `w0` is
/// the depth-zero width. Depths past the root have width zero.
pub open spec fn spec_width_at(w0: nat, nth: nat) -> nat
    decreases nth,
{
    if nth == 0 {
        w0
    } else if w0 == 1 {
        0
    } else {
        spec_width_at(next_width(w0), (nth - 1) as nat)
    }
}

/// Sum of the widths of all depths above a depth of width `w`, up to and
/// including the root.
pub open spec fn spec_sum_of_higher_widths(w: nat) -> nat
    decreases w,
        via sum_of_higher_widths_decreases
{
    if w == 0 {
        1
    } else if w == 1 {
        0
    } else {
        next_width(w) + spec_sum_of_higher_widths(next_width(w))
    }
}

#[via_fn]
proof fn sum_of_higher_widths_decreases(w: nat) {
    if w > 1 {
        lemma_next_width_shrinks(w);
    }
}

/// The width of the next depth is strictly smaller, so the tree ends.
pub proof fn lemma_next_width_shrinks(w: nat)
    requires
        w >= 2,
    ensures
        next_width(w) < w,
{
    if w > IBLOCK_CHK_CAPACITY {
        assert((w + 255) / 256 < w) by (nonlinear_arith)
            requires
                w > 256,
        ;
    }
}

/// One step of the width chain: the width one depth up is the `next_width`
/// of the current one while the current depth is populated by two or more
/// blocks, and zero once the root is passed.
pub proof fn lemma_width_step(w0: nat, n: nat)
    requires
        w0 >= 1,
    ensures
        spec_width_at(w0, (n + 1) as nat) == (if spec_width_at(w0, n) >= 2 {
            next_width(spec_width_at(w0, n))
        } else {
            0
        }),
    decreases n,
{
    if n == 0 {
        if w0 >= 2 {
            assert(spec_width_at(w0, 1) == spec_width_at(next_width(w0), 0));
        }
    } else if w0 >= 2 {
        lemma_width_step(next_width(w0), (n - 1) as nat);
        assert(spec_width_at(w0, (n + 1) as nat) == spec_width_at(next_width(w0), n));
        assert(spec_width_at(w0, n) == spec_width_at(next_width(w0), (n - 1) as nat));
    }
}

/// Past a depth of width one, every higher depth is empty.
pub proof fn lemma_width_past(w0: nat, n: nat, k: nat)
    requires
        w0 >= 1,
        spec_width_at(w0, n) <= 1,
        n < k,
    ensures
        spec_width_at(w0, k) == 0,
    decreases k - n,
{
    lemma_width_step(w0, n);
    if n + 1 < k {
        lemma_width_past(w0, (n + 1) as nat, k);
    }
}

/// How many depths lie between depth zero and the root of the width chain
/// that starts at `w`.
pub open spec fn spec_chain_height(w: nat) -> nat
    decreases w,
        via chain_height_decreases
{
    if w <= 1 {
        0
    } else {
        1 + spec_chain_height(next_width(w))
    }
}

#[via_fn]
proof fn chain_height_decreases(w: nat) {
    if w > 1 {
        lemma_next_width_shrinks(w);
    }
}

/// The chain reaches width one exactly at its height, and is wider below.
pub proof fn lemma_chain_height_width(w: nat)
    requires
        w >= 1,
    ensures
        spec_width_at(w, spec_chain_height(w)) == 1,
        forall|n: nat| n < spec_chain_height(w) ==> spec_width_at(w, n) >= 2,
    decreases w,
{
    if w >= 2 {
        lemma_next_width_shrinks(w);
        lemma_next_width_is_ceil(w);
        lemma_chain_height_width(next_width(w));
        assert forall|n: nat| n < spec_chain_height(w) implies spec_width_at(w, n) >= 2 by {
            if n >= 1 {
                assert(spec_width_at(w, n) == spec_width_at(next_width(w), (n - 1) as nat));
            }
        }
    }
}

/// Width one pins the depth: only the chain's height reaches it.
pub proof fn lemma_root_level_unique(w: nat, n: nat)
    requires
        w >= 1,
        spec_width_at(w, n) == 1,
    ensures
        n == spec_chain_height(w),
{
    lemma_chain_height_width(w);
    if n > spec_chain_height(w) {
        lemma_width_past(w, spec_chain_height(w), n);
    }
}

/// A populated depth and everything above it fit inside the whole tree that
/// the chain spans.
pub proof fn lemma_sum_chain_bound(w0: nat, n: nat)
    requires
        w0 >= 1,
        spec_width_at(w0, n) >= 1,
    ensures
        spec_sum_of_higher_widths(spec_width_at(w0, n)) + spec_width_at(w0, n) <= w0
            + spec_sum_of_higher_widths(w0),
    decreases n,
{
    if n >= 1 {
        let wp = spec_width_at(w0, (n - 1) as nat);
        lemma_width_step(w0, (n - 1) as nat);
        assert(wp >= 2);
        lemma_sum_chain_bound(w0, (n - 1) as nat);
    }
}

/// Total number of index blocks for `d` data blocks.
pub open spec fn spec_total_i_block_count(d: nat) -> nat {
    spec_depth_zero_width(d) + spec_sum_of_higher_widths(spec_depth_zero_width(d))
}

/// The tree above any depth holds at most as many blocks as the depth itself,
/// once the depth is populated.
pub proof fn lemma_sum_of_higher_widths_le(w: nat)
    requires
        w >= 1,
    ensures
        spec_sum_of_higher_widths(w) <= w,
    decreases w,
{
    if w >= 2 {
        lemma_next_width_shrinks(w);
        lemma_sum_of_higher_widths_le(next_width(w));
    }
}

/// Completing the last group: when `p` full groups of `k` lie strictly
/// below `total` and one more group reaches it, `p + 1` groups cover
/// everything.
pub proof fn lemma_group_count(total: nat, k: nat, p: nat)
    requires
        k >= 1,
        k * p < total,
        total <= k * (p + 1),
    ensures
        ceil_div(total, k) == p + 1,
{
    assert((total + k - 1) as int / k as int == p + 1) by (nonlinear_arith)
        requires
            k >= 1,
            k * p < total,
            total <= k * (p + 1),
    ;
}

/// The depth-zero width is the ceiling division for every populated file.
pub proof fn lemma_depth_zero_is_ceil(d: nat)
    requires
        d >= 1,
    ensures
        spec_depth_zero_width(d) == ceil_div(d, IBLOCK_CHK_CAPACITY as nat),
        spec_depth_zero_width(d) >= 1,
{
    assert((d + 255) as int / 256 >= 1 && (1 + 255) as int / 256 == 1) by (nonlinear_arith)
        requires
            d >= 1,
    ;
}

/// The next width up the tree is the ceiling division of the current one.
pub proof fn lemma_next_width_is_ceil(w: nat)
    requires
        w >= 1,
    ensures
        next_width(w) == ceil_div(w, IBLOCK_CHK_CAPACITY as nat),
        next_width(w) >= 1,
{
    if w <= IBLOCK_CHK_CAPACITY {
        assert((w + 255) as int / 256 == 1) by (nonlinear_arith)
            requires
                1 <= w <= 256,
        ;
    } else {
        assert((w + 255) as int / 256 >= 1) by (nonlinear_arith)
            requires
                w >= 1,
        ;
    }
}

/// Scaling a ceiling division: the count of groups never exceeds what the
/// bound allows.
pub proof fn lemma_ceil_div_le(x: nat, k: nat, b: nat)
    requires
        k >= 1,
        x <= k * b,
    ensures
        ceil_div(x, k) <= b,
{
    assert((x + k - 1) as int / k as int <= b) by (nonlinear_arith)
        requires
            k >= 1,
            x <= k * b,
    ;
}

/// The groups cover the total: rounding up and scaling back reaches it.
pub proof fn lemma_ceil_div_covers(x: nat, k: nat)
    requires
        k >= 1,
    ensures
        x <= ceil_div(x, k) * k,
{
    assert(x <= ((x + k - 1) as int / k as int) * k) by (nonlinear_arith)
        requires
            k >= 1,
    ;
}

/// Every group but the last is full: group `i` starts strictly inside the
/// total.
pub proof fn lemma_group_start(total: nat, k: nat, i: nat)
    requires
        k >= 1,
        i < ceil_div(total, k),
    ensures
        k * i < total,
{
    assert(i < (total + k - 1) as int / k as int ==> k * i < total) by (nonlinear_arith)
        requires
            k >= 1,
    ;
}

/// Number of data blocks needed for a file of `file_length` bytes.
pub fn calculate_d_block_count(file_length: u64) -> (r: u64)
    ensures
        r == spec_d_block_count(file_length as nat),
{
    let rem = file_length % DBLOCK_SIZE_IN_BYTES;
    let div = file_length / DBLOCK_SIZE_IN_BYTES;
    if rem == 0 {
        div
    } else {
        div + 1
    }
}

/// Number of depth-zero index blocks for `d_block_count` data blocks.
pub fn calculate_depth_zero_i_block_count(d_block_count: u64) -> (r: u64)
    ensures
        r == spec_depth_zero_width(d_block_count as nat),
{
    if d_block_count == 1 {
        return 1;
    }
    let rem = d_block_count % IBLOCK_CHK_CAPACITY;
    let div = d_block_count / IBLOCK_CHK_CAPACITY;
    if rem == 0 {
        return div;
    }
    div + 1
}

/// One step of the width chain.
fn step_width(w: u64) -> (r: u64)
    requires
        w >= 2,
    ensures
        r == next_width(w as nat),
        r < w,
{
    proof {
        lemma_next_width_shrinks(w as nat);
    }
    if w > IBLOCK_CHK_CAPACITY {
        let div = w / IBLOCK_CHK_CAPACITY;
        let rem = w % IBLOCK_CHK_CAPACITY;
        if rem != 0 {
            div + 1
        } else {
            div
        }
    } else {
        1
    }
}

/// Remaining loop steps when accumulating the width chain from width `w`.
spec fn width_chain_measure(w: nat) -> nat {
    if w == 0 {
        1
    } else if w == 1 {
        0
    } else {
        w
    }
}

/// Total number of index blocks (all depths together) for `d_block_count`
/// data blocks.
pub fn calculate_total_i_block_count(d_block_count: u64) -> (r: u64)
    ensures
        r == spec_total_i_block_count(d_block_count as nat),
{
    let mut cur_i_block_count = calculate_depth_zero_i_block_count(d_block_count);
    let mut total_count: u64 = cur_i_block_count;
    proof {
        let w0 = spec_depth_zero_width(d_block_count as nat);
        assert((d_block_count as nat + 255) as int / 256 <= 0x1_0000_0000_0000_0000int)
            by (nonlinear_arith)
            requires
                d_block_count <= u64::MAX,
        ;
        if w0 >= 1 {
            lemma_sum_of_higher_widths_le(w0);
        }
    }
    while cur_i_block_count != 1
        invariant
            total_count + spec_sum_of_higher_widths(cur_i_block_count as nat)
                == spec_total_i_block_count(d_block_count as nat),
            spec_total_i_block_count(d_block_count as nat) <= u64::MAX,
        decreases width_chain_measure(cur_i_block_count as nat),
    {
        if cur_i_block_count == 0 {
            cur_i_block_count = 1;
        } else {
            proof {
                lemma_next_width_shrinks(cur_i_block_count as nat);
            }
            cur_i_block_count = step_width(cur_i_block_count);
        }
        total_count = total_count + cur_i_block_count;
    }
    total_count
}

/// Width of the index-block tree at depth `nth` for `d_block_count` data
/// blocks; zero for depths past the root.
pub fn calculate_nth_depth_i_block_count(d_block_count: u64, nth: u64) -> (r: u64)
    ensures
        r == spec_width_at(spec_depth_zero_width(d_block_count as nat), nth as nat),
{
    let mut cur_i_block_count = calculate_depth_zero_i_block_count(d_block_count);
    let mut loop_count: u64 = 0;
    if nth == 0 {
        return cur_i_block_count;
    }
    while loop_count < nth && cur_i_block_count != 1
        invariant
            loop_count < nth,
            spec_width_at(cur_i_block_count as nat, (nth - loop_count) as nat) == spec_width_at(
                spec_depth_zero_width(d_block_count as nat),
                nth as nat,
            ),
        decreases nth - loop_count,
    {
        let ghost prev_cur = cur_i_block_count as nat;
        let ghost prev_lc = loop_count as nat;
        loop_count = loop_count + 1;
        if cur_i_block_count >= 2 {
            cur_i_block_count = step_width(cur_i_block_count);
        } else {
            cur_i_block_count = 1;
        }
        proof {
            assert(cur_i_block_count as nat == next_width(prev_cur));
            assert(spec_width_at(prev_cur, (nth - prev_lc) as nat) == spec_width_at(
                next_width(prev_cur),
                (nth - prev_lc - 1) as nat,
            ));
        }
        if loop_count == nth {
            return cur_i_block_count;
        }
        if cur_i_block_count == 1 {
            assert(spec_width_at(1, (nth - loop_count) as nat) == 0);
            return 0;
        }
    }
    0
}

} // verus!
