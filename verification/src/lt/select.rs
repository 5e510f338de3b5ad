//! Choosing which blocks a packet combines.

use crate::distributions::{selects, Distribution, UNIT};
use vstd::prelude::*;

verus! {

/// Moves `count` blocks, drawn without replacement, to the front of
/// `blocks` and drops the others: a partial Fisher-Yates shuffle.
pub fn select_blocks(distribution: &mut Distribution, blocks: &mut Vec<u32>, count: usize)
    requires
        old(distribution).well_formed(),
        count <= old(blocks)@.len(),
    ensures
        final(distribution).well_formed(),
        final(distribution).limit() == old(distribution).limit(),
        final(distribution).table() == old(distribution).table(),
        final(blocks)@.len() == count,
        forall|i: int|
            0 <= i < count ==> old(blocks)@.contains(#[trigger] final(blocks)@[i]),
        old(blocks)@.no_duplicates() ==> final(blocks)@.no_duplicates(),
{
    let len = blocks.len();
    let mut i: usize = 0;
    while i < count
        invariant
            i <= count <= len,
            len == blocks@.len(),
            len == old(blocks)@.len(),
            distribution.well_formed(),
            distribution.limit() == old(distribution).limit(),
            distribution.table() == old(distribution).table(),
            forall|k: int| 0 <= k < len ==> old(blocks)@.contains(#[trigger] blocks@[k]),
            old(blocks)@.no_duplicates() ==> blocks@.no_duplicates(),
        decreases count - i,
    {
        let j = distribution.query_interior_rng_usize(i, len);
        let ghost before = blocks@;
        let first = blocks[i];
        let second = blocks[j];
        blocks[i] = second;
        blocks[j] = first;
        proof {
            assert forall|k: int| 0 <= k < len implies old(blocks)@.contains(
                #[trigger] blocks@[k],
            ) by {
                if k == i {
                    assert(blocks@[k] == before[j as int]);
                } else if k == j {
                    assert(blocks@[k] == before[i as int]);
                } else {
                    assert(blocks@[k] == before[k]);
                }
            }
            if before.no_duplicates() {
                assert forall|a: int, b: int|
                    0 <= a < len && 0 <= b < len && a != b implies blocks@[a] != blocks@[b] by {
                    let from_a = if a == i {
                        j as int
                    } else if a == j {
                        i as int
                    } else {
                        a
                    };
                    let from_b = if b == i {
                        j as int
                    } else if b == j {
                        i as int
                    } else {
                        b
                    };
                    assert(blocks@[a] == before[from_a]);
                    assert(blocks@[b] == before[from_b]);
                    assert(from_a != from_b);
                }
            }
        }
        i += 1;
    }
    let ghost shuffled = blocks@;
    blocks.truncate(count);
    proof {
        assert forall|k: int| 0 <= k < count implies old(blocks)@.contains(
            #[trigger] blocks@[k],
        ) by {
            assert(blocks@[k] == shuffled[k]);
        }
        if shuffled.no_duplicates() {
            assert forall|a: int, b: int|
                0 <= a < count && 0 <= b < count && a != b implies blocks@[a] != blocks@[b] by {
                assert(blocks@[a] == shuffled[a]);
                assert(blocks@[b] == shuffled[b]);
            }
        }
    }
}

/// The number of blocks that a packet of the drawn `degree` combines where
/// `available` blocks are on hand: the degree, cut to what there is.
pub open spec fn combined_count(available: int, degree: int) -> int {
    if available < degree {
        available
    } else {
        degree
    }
}

/// Draws a degree and leaves that many of `blocks`, drawn without
/// replacement: all of them where the degree exceeds their number. The
/// degree is the one that some draw below `UNIT` selects from the table.
pub fn choose_blocks_to_combine(distribution: &mut Distribution, blocks: &mut Vec<u32>)
    requires
        old(distribution).well_formed(),
    ensures
        final(distribution).well_formed(),
        final(distribution).limit() == old(distribution).limit(),
        final(distribution).table() == old(distribution).table(),
        exists|selector: u64, degree: int|
            selector < UNIT && #[trigger] selects(old(distribution).table(), selector, degree)
                && final(blocks)@.len() == combined_count(old(blocks)@.len() as int, degree),
        final(blocks)@.len() <= old(blocks)@.len(),
        final(blocks)@.len() <= old(distribution).limit(),
        old(blocks)@.len() >= 1 ==> final(blocks)@.len() >= 1,
        forall|i: int|
            0 <= i < final(blocks)@.len() ==> old(blocks)@.contains(#[trigger] final(blocks)@[i]),
        old(blocks)@.no_duplicates() ==> final(blocks)@.no_duplicates(),
{
    let degree = distribution.query() as usize;
    let ghost selector = choose|selector: u64|
        selector < UNIT && selects(old(distribution).table(), selector, degree as int);
    let blocks_to_combine = if blocks.len() < degree {
        blocks.len()
    } else {
        degree
    };
    select_blocks(distribution, blocks, blocks_to_combine);
    assert(selects(old(distribution).table(), selector, degree as int) && blocks@.len()
        == combined_count(old(blocks)@.len() as int, degree as int));
}

} // verus!
