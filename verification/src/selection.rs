//! Snapping a dragged selection to whole blocks of samples.
use vstd::prelude::*;

verus! {

/// One end of the current selection.
#[derive(Debug, Clone, Copy, PartialEq, Eq, Structural)]
pub enum SelectionEdge {
    Left,
    Right,
}

/// The block size used for snapping: at least one sample and at most `i64::MAX`.
pub open spec fn effective_block_size(block_size: u64) -> int {
    if block_size < 1 {
        1
    } else if block_size > i64::MAX {
        i64::MAX as int
    } else {
        block_size as int
    }
}

/// The first block whose start is a valid sample index: `ceil(i64::MIN / size)`.
pub open spec fn min_block(size: int) -> int {
    -(0x8000_0000_0000_0000int / size)
}

/// The last block whose start is a valid sample index: `floor(i64::MAX / size)`.
pub open spec fn max_block(size: int) -> int {
    0x7fff_ffff_ffff_ffffint / size
}

/// `x` limited to `lo..=hi`.
pub open spec fn clamp_int(x: int, lo: int, hi: int) -> int {
    if x < lo {
        lo
    } else if x > hi {
        hi
    } else {
        x
    }
}

/// The snapped selection in blocks, `(start, end)` with `end` exclusive: the span between the
/// two rounded positions, widened by one block (to the left when asked and possible, or when
/// there is no room on the right) if both round to the same block boundary.
pub open spec fn snapped_blocks(anchor: int, current: int, size: int, toward_left: bool) -> (int, int) {
    let a = clamp_int(anchor, min_block(size), max_block(size));
    let c = clamp_int(current, min_block(size), max_block(size));
    let start = if a <= c {
        a
    } else {
        c
    };
    let end = if a <= c {
        c
    } else {
        a
    };
    if start == end {
        if (toward_left && start > min_block(size)) || end == max_block(size) {
            (start - 1, end)
        } else {
            (start, end + 1)
        }
    } else {
        (start, end)
    }
}

proof fn lemma_block_bounds(size: int)
    requires
        1 <= size <= i64::MAX,
    ensures
        min_block(size) * size >= i64::MIN,
        max_block(size) * size <= i64::MAX,
        min_block(size) <= -1,
        max_block(size) >= 1,
{
    let p = 0x8000_0000_0000_0000int;
    let q = 0x7fff_ffff_ffff_ffffint;
    assert((p / size) * size <= p) by (nonlinear_arith)
        requires
            size >= 1,
            p >= 0,
    {
        vstd::arithmetic::div_mod::lemma_fundamental_div_mod(p, size);
    }
    assert((q / size) * size <= q) by (nonlinear_arith)
        requires
            size >= 1,
            q >= 0,
    {
        vstd::arithmetic::div_mod::lemma_fundamental_div_mod(q, size);
    }
    assert(p / size >= 1) by (nonlinear_arith)
        requires
            1 <= size <= q,
            p == q + 1,
    {
        vstd::arithmetic::div_mod::lemma_div_is_ordered(size, p, size);
    }
    assert(q / size >= 1) by (nonlinear_arith)
        requires
            1 <= size <= q,
    {
        vstd::arithmetic::div_mod::lemma_div_is_ordered(size, q, size);
    }
    let m = p / size;
    assert(min_block(size) == -m);
    assert((-m) * size == -(m * size)) by (nonlinear_arith);
}

proof fn lemma_scaled_in_range(b: int, size: int)
    requires
        1 <= size <= i64::MAX,
        min_block(size) <= b <= max_block(size),
    ensures
        i64::MIN <= b * size <= i64::MAX,
{
    lemma_block_bounds(size);
    let lo = min_block(size);
    let hi = max_block(size);
    assert(lo * size <= b * size <= hi * size) by (nonlinear_arith)
        requires
            lo <= b <= hi,
            size >= 1,
    ;
}

/// Snap a selection dragged from `anchor_block` to `current_block` (each the drag position
/// divided by the block size and rounded) to block boundaries: returns the sample range
/// `(start, end)`, end exclusive, covering at least one whole block of
/// `max(1, min(block_size, i64::MAX))` samples.
pub fn snapped_selection_range(
    anchor_block: i128,
    current_block: i128,
    block_size: u64,
    toward_left: bool,
) -> (r: (i64, i64))
    ensures
        r.0 == snapped_blocks(
            anchor_block as int,
            current_block as int,
            effective_block_size(block_size),
            toward_left,
        ).0 * effective_block_size(block_size),
        r.1 == snapped_blocks(
            anchor_block as int,
            current_block as int,
            effective_block_size(block_size),
            toward_left,
        ).1 * effective_block_size(block_size),
{
    let size: i128 = if block_size < 1 {
        1
    } else if block_size > 0x7fff_ffff_ffff_ffffu64 {
        0x7fff_ffff_ffff_ffff
    } else {
        block_size as i128
    };
    proof {
        lemma_block_bounds(size as int);
    }
    let min_b: i128 = 0 - 0x8000_0000_0000_0000i128 / size;
    let max_b: i128 = 0x7fff_ffff_ffff_ffffi128 / size;
    let a = if anchor_block < min_b {
        min_b
    } else if anchor_block > max_b {
        max_b
    } else {
        anchor_block
    };
    let c = if current_block < min_b {
        min_b
    } else if current_block > max_b {
        max_b
    } else {
        current_block
    };
    let mut start = if a <= c {
        a
    } else {
        c
    };
    let mut end = if a <= c {
        c
    } else {
        a
    };
    if start == end {
        if (toward_left && start > min_b) || end == max_b {
            start = start - 1;
        } else {
            end = end + 1;
        }
    }
    proof {
        lemma_scaled_in_range(start as int, size as int);
        lemma_scaled_in_range(end as int, size as int);
    }
    ((start * size) as i64, (end * size) as i64)
}

/// Law: a snapped selection covers at least one whole block and both ends lie on block
/// boundaries inside the sample index range.
pub proof fn snapped_selection_is_whole_blocks(
    anchor: int,
    current: int,
    block_size: u64,
    toward_left: bool,
)
    ensures
        ({
            let size = effective_block_size(block_size);
            let (start, end) = snapped_blocks(anchor, current, size, toward_left);
            &&& start < end
            &&& i64::MIN <= start * size
            &&& end * size <= i64::MAX
            &&& start * size < end * size
        }),
{
    let size = effective_block_size(block_size);
    let (start, end) = snapped_blocks(anchor, current, size, toward_left);
    lemma_block_bounds(size);
    lemma_scaled_in_range(start, size);
    lemma_scaled_in_range(end, size);
    assert(start * size < end * size) by (nonlinear_arith)
        requires
            start < end,
            size >= 1,
    ;
}

/// Law: the snapped selection is the smallest run of whole blocks that holds both rounded drag
/// positions (each limited to the valid blocks) and at least one block: it holds both
/// positions, and is exactly as long as the distance between them, or one block when they
/// coincide. A one-block selection grows to the left when asked and possible, and to the right
/// when not asked and possible.
pub proof fn snapped_selection_spans_the_drag(anchor: int, current: int, block_size: u64, toward_left: bool)
    ensures
        ({
            let size = effective_block_size(block_size);
            let a = clamp_int(anchor, min_block(size), max_block(size));
            let c = clamp_int(current, min_block(size), max_block(size));
            let (start, end) = snapped_blocks(anchor, current, size, toward_left);
            &&& start <= a <= end
            &&& start <= c <= end
            &&& a != c ==> end - start == if a < c {
                c - a
            } else {
                a - c
            }
            &&& a == c ==> end - start == 1
            &&& a == c && toward_left && a > min_block(size) ==> start == a - 1
            &&& a == c && !toward_left && a < max_block(size) ==> end == a + 1
        }),
{
    lemma_block_bounds(effective_block_size(block_size));
}

} // verus!
