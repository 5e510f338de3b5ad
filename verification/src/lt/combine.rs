//! Combining blocks by exclusive-or: what a packet's block is made of, and
//! what is left of it once the known blocks are taken out again.

use crate::block::{
    lemma_xor_assoc, lemma_xor_cancel, lemma_xor_swap, lemma_xor_zero, xor_bytes, zero_bytes,
    BLOCK_BYTES,
};
use vstd::prelude::*;

verus! {

/// `start` combined, in order, with the blocks that `ids` name in `blocks`.
pub open spec fn reduce(blocks: Map<u32, Seq<u8>>, start: Seq<u8>, ids: Seq<u32>) -> Seq<u8>
    decreases ids.len(),
{
    if ids.len() == 0 {
        start
    } else {
        xor_bytes(reduce(blocks, start, ids.drop_last()), blocks[ids.last()])
    }
}

/// The exclusive-or of the blocks that `ids` name in `blocks`: the block of a
/// packet with these ids.
pub open spec fn combine(blocks: Map<u32, Seq<u8>>, ids: Seq<u32>) -> Seq<u8> {
    reduce(blocks, zero_bytes(), ids)
}

/// The ids among `ids` that are in `known`, in their order.
pub open spec fn present(known: Set<u32>, ids: Seq<u32>) -> Seq<u32>
    decreases ids.len(),
{
    if ids.len() == 0 {
        Seq::empty()
    } else if known.contains(ids.last()) {
        present(known, ids.drop_last()).push(ids.last())
    } else {
        present(known, ids.drop_last())
    }
}

/// The ids among `ids` that are not in `known`, in their order.
pub open spec fn missing(known: Set<u32>, ids: Seq<u32>) -> Seq<u32>
    decreases ids.len(),
{
    if ids.len() == 0 {
        Seq::empty()
    } else if known.contains(ids.last()) {
        missing(known, ids.drop_last())
    } else {
        missing(known, ids.drop_last()).push(ids.last())
    }
}

/// The ids among `ids` other than `id`, in their order.
pub open spec fn others(ids: Seq<u32>, id: u32) -> Seq<u32>
    decreases ids.len(),
{
    if ids.len() == 0 {
        Seq::empty()
    } else if ids.last() == id {
        others(ids.drop_last(), id)
    } else {
        others(ids.drop_last(), id).push(ids.last())
    }
}

/// Every id of `ids` names a block of full width in `blocks`.
pub open spec fn names_blocks(blocks: Map<u32, Seq<u8>>, ids: Seq<u32>) -> bool {
    forall|i: int|
        0 <= i < ids.len() ==> blocks.dom().contains(#[trigger] ids[i]) && blocks[ids[i]].len()
            == BLOCK_BYTES
}

/// Every block of `blocks` has the full width.
pub open spec fn full_width(blocks: Map<u32, Seq<u8>>) -> bool {
    forall|id: u32| blocks.dom().contains(id) ==> (#[trigger] blocks[id]).len() == BLOCK_BYTES
}

/// `part` holds no block that `whole` does not hold too.
pub open spec fn agrees(part: Map<u32, Seq<u8>>, whole: Map<u32, Seq<u8>>) -> bool {
    forall|id: u32| #[trigger]
        part.dom().contains(id) ==> whole.dom().contains(id) && part[id] == whole[id]
}

/// The ids that `present` keeps are the known ones of `ids`, and those that
/// `missing` keeps are the others.
pub proof fn lemma_present_missing(known: Set<u32>, ids: Seq<u32>)
    ensures
        present(known, ids).len() + missing(known, ids).len() == ids.len(),
        forall|i: int|
            0 <= i < present(known, ids).len() ==> known.contains(
                #[trigger] present(known, ids)[i],
            ) && ids.contains(present(known, ids)[i]),
        forall|i: int|
            0 <= i < missing(known, ids).len() ==> !known.contains(
                #[trigger] missing(known, ids)[i],
            ) && ids.contains(missing(known, ids)[i]),
        forall|i: int|
            0 <= i < ids.len() && !known.contains(#[trigger] ids[i]) ==> missing(
                known,
                ids,
            ).contains(ids[i]),
    decreases ids.len(),
{
    if ids.len() > 0 {
        let front = ids.drop_last();
        lemma_present_missing(known, front);
        assert forall|i: int| 0 <= i < present(known, ids).len() implies known.contains(
            #[trigger] present(known, ids)[i],
        ) && ids.contains(present(known, ids)[i]) by {
            if i < present(known, front).len() {
                let j = choose|j: int| 0 <= j < front.len() && front[j] == present(known, front)[i];
                assert(ids[j] == present(known, ids)[i]);
            } else {
                assert(ids[ids.len() - 1] == present(known, ids)[i]);
            }
        }
        assert forall|i: int| 0 <= i < missing(known, ids).len() implies !known.contains(
            #[trigger] missing(known, ids)[i],
        ) && ids.contains(missing(known, ids)[i]) by {
            if i < missing(known, front).len() {
                let j = choose|j: int| 0 <= j < front.len() && front[j] == missing(known, front)[i];
                assert(ids[j] == missing(known, ids)[i]);
            } else {
                assert(ids[ids.len() - 1] == missing(known, ids)[i]);
            }
        }
        assert forall|i: int| 0 <= i < ids.len() && !known.contains(
            #[trigger] ids[i],
        ) implies missing(known, ids).contains(ids[i]) by {
            if i < front.len() {
                assert(front[i] == ids[i]);
                let j = choose|j: int|
                    0 <= j < missing(known, front).len() && missing(known, front)[j] == front[i];
                assert(missing(known, ids)[j] == ids[i]);
            } else {
                assert(missing(known, ids)[missing(known, ids).len() - 1] == ids[i]);
            }
        }
    }
}

/// Where `id` is the only id that is missing, and it occurs once, the known
/// ids are all the others.
pub proof fn lemma_present_others(known: Set<u32>, ids: Seq<u32>, id: u32)
    requires
        !known.contains(id),
        missing(known, ids).len() == 0 || missing(known, ids) == seq![id],
    ensures
        present(known, ids) == others(ids, id),
        forall|i: int| 0 <= i < others(ids, id).len() ==> known.contains(#[trigger] others(ids, id)[i]),
        others(ids, id).len() + missing(known, ids).len() == ids.len(),
    decreases ids.len(),
{
    if ids.len() > 0 {
        let front = ids.drop_last();
        let last = ids.last();
        if known.contains(last) {
            lemma_present_others(known, front, id);
        } else {
            let rest = missing(known, front);
            assert(missing(known, ids) == rest.push(last));
            assert(rest.push(last).len() == 1);
            assert(rest.len() == 0);
            assert(rest.push(last)[0] == last);
            assert(seq![id][0] == id);
            assert(last == id);
            lemma_present_others(known, front, id);
        }
    }
}

/// A prefix of `ids` misses no more ids than `ids` does.
pub proof fn lemma_missing_prefix(known: Set<u32>, ids: Seq<u32>, n: int)
    requires
        0 <= n <= ids.len(),
    ensures
        missing(known, ids.take(n)).len() <= missing(known, ids).len(),
    decreases ids.len(),
{
    if n == ids.len() {
        assert(ids.take(n) =~= ids);
    } else {
        assert(ids.drop_last().take(n) =~= ids.take(n));
        lemma_missing_prefix(known, ids.drop_last(), n);
    }
}

/// Combining changes no width.
pub proof fn lemma_reduce_len(blocks: Map<u32, Seq<u8>>, start: Seq<u8>, ids: Seq<u32>)
    ensures
        reduce(blocks, start, ids).len() == start.len(),
    decreases ids.len(),
{
    if ids.len() > 0 {
        lemma_reduce_len(blocks, start, ids.drop_last());
    }
}

/// Combining `start` with blocks one by one is combining it with their
/// exclusive-or.
pub proof fn lemma_reduce_is_xor(blocks: Map<u32, Seq<u8>>, start: Seq<u8>, ids: Seq<u32>)
    requires
        start.len() == BLOCK_BYTES,
        names_blocks(blocks, ids),
    ensures
        reduce(blocks, start, ids) == xor_bytes(start, combine(blocks, ids)),
    decreases ids.len(),
{
    if ids.len() == 0 {
        lemma_xor_zero(start);
    } else {
        let front = ids.drop_last();
        assert(names_blocks(blocks, front)) by {
            assert forall|i: int| 0 <= i < front.len() implies blocks.dom().contains(
                #[trigger] front[i],
            ) && blocks[front[i]].len() == BLOCK_BYTES by {
                assert(front[i] == ids[i]);
            }
        }
        lemma_reduce_is_xor(blocks, start, front);
        lemma_reduce_len(blocks, zero_bytes(), front);
        assert(ids.last() == ids[ids.len() - 1]);
        lemma_xor_assoc(start, combine(blocks, front), blocks[ids.last()]);
    }
}

/// Two maps that hold the same blocks under `ids` combine them alike.
pub proof fn lemma_reduce_agree(
    part: Map<u32, Seq<u8>>,
    whole: Map<u32, Seq<u8>>,
    start: Seq<u8>,
    ids: Seq<u32>,
)
    requires
        forall|i: int| 0 <= i < ids.len() ==> part[#[trigger] ids[i]] == whole[ids[i]],
    ensures
        reduce(part, start, ids) == reduce(whole, start, ids),
    decreases ids.len(),
{
    if ids.len() > 0 {
        let front = ids.drop_last();
        assert forall|i: int| 0 <= i < front.len() implies part[#[trigger] front[i]]
            == whole[front[i]] by {
            assert(front[i] == ids[i]);
        }
        lemma_reduce_agree(part, whole, start, front);
        assert(ids.last() == ids[ids.len() - 1]);
    }
}

/// Taking the known blocks out of a combination leaves the combination of
/// the others.
pub proof fn lemma_combine_split(blocks: Map<u32, Seq<u8>>, known: Set<u32>, ids: Seq<u32>)
    requires
        names_blocks(blocks, ids),
    ensures
        xor_bytes(combine(blocks, ids), combine(blocks, present(known, ids))) == combine(
            blocks,
            missing(known, ids),
        ),
    decreases ids.len(),
{
    if ids.len() == 0 {
        lemma_xor_zero(zero_bytes());
    } else {
        let front = ids.drop_last();
        let last = ids.last();
        assert(last == ids[ids.len() - 1]);
        assert(names_blocks(blocks, front)) by {
            assert forall|i: int| 0 <= i < front.len() implies blocks.dom().contains(
                #[trigger] front[i],
            ) && blocks[front[i]].len() == BLOCK_BYTES by {
                assert(front[i] == ids[i]);
            }
        }
        lemma_combine_split(blocks, known, front);
        let all = combine(blocks, front);
        let kept = combine(blocks, present(known, front));
        let rest = combine(blocks, missing(known, front));
        lemma_reduce_len(blocks, zero_bytes(), front);
        lemma_reduce_len(blocks, zero_bytes(), present(known, front));
        lemma_reduce_len(blocks, zero_bytes(), missing(known, front));
        if known.contains(last) {
            assert(present(known, ids).drop_last() =~= present(known, front));
            lemma_xor_cancel(all, kept, blocks[last]);
        } else {
            assert(missing(known, ids).drop_last() =~= missing(known, front));
            lemma_xor_swap(all, kept, blocks[last]);
        }
    }
}

/// A packet with exactly one unknown id yields that block: its combined
/// block, reduced by the known blocks it names, is the block of the unknown
/// id.
pub proof fn lemma_reduce_isolates(
    source: Map<u32, Seq<u8>>,
    decoded: Map<u32, Seq<u8>>,
    ids: Seq<u32>,
    unknown: u32,
)
    requires
        names_blocks(source, ids),
        agrees(decoded, source),
        missing(decoded.dom(), ids) == seq![unknown],
    ensures
        reduce(decoded, combine(source, ids), present(decoded.dom(), ids)) == source[unknown],
{
    let known = decoded.dom();
    let kept = present(known, ids);
    lemma_present_missing(known, ids);
    assert(missing(known, ids)[0] == unknown);
    assert(ids.contains(unknown));
    assert forall|i: int| 0 <= i < kept.len() implies decoded[#[trigger] kept[i]]
        == source[kept[i]] by {
        assert(known.contains(kept[i]));
    }
    lemma_reduce_agree(decoded, source, combine(source, ids), kept);
    assert(names_blocks(source, kept)) by {
        assert forall|i: int| 0 <= i < kept.len() implies source.dom().contains(
            #[trigger] kept[i],
        ) && source[kept[i]].len() == BLOCK_BYTES by {
            assert(ids.contains(kept[i]));
        }
    }
    lemma_reduce_len(source, zero_bytes(), ids);
    lemma_reduce_is_xor(source, combine(source, ids), kept);
    lemma_combine_split(source, known, ids);
    let alone = seq![unknown];
    assert(alone.drop_last() =~= Seq::<u32>::empty());
    assert(alone.last() == unknown);
    assert(reduce(source, zero_bytes(), alone.drop_last()) == zero_bytes());
    assert(combine(source, alone) == xor_bytes(zero_bytes(), source[unknown]));
    lemma_xor_zero(source[unknown]);
}

} // verus!
