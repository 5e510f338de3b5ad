//! Scanning a packet against the decoded blocks, reducing it by them, and
//! the peeling loop that these two drive.

use crate::block::Block;
use crate::lt::combine::{
    agrees, lemma_missing_prefix, lemma_present_missing, lemma_present_others,
    lemma_reduce_agree, lemma_reduce_isolates, missing, others, present, reduce,
};
use crate::lt::packet::{LtPacket, PacketView};
use crate::lt::peeling::{
    derived, encodes, faithful, lemma_missing_resolved, lemma_missing_superset,
    lemma_settled_holds, lemma_yields_stable, peeled, settled, spent, stalled, yields,
    DecoderView,
};
use crate::lt::pool::StalePool;
use std::collections::HashMap;
use vstd::prelude::*;

verus! {

/// The blocks of a map of blocks, as byte strings.
pub open spec fn block_views(blocks: Map<u32, Block>) -> Map<u32, Seq<u8>> {
    Map::new(|id: u32| blocks.dom().contains(id), |id: u32| blocks[id]@)
}

/// What a scan of a packet's ids against the decoded blocks finds.
pub enum Scan {
    /// Every id is decoded.
    Spent,
    /// Exactly one id is not decoded; `known` holds the others, in the
    /// packet's order.
    Single { id: u32, known: Vec<u32> },
    /// Two ids or more are not decoded; `near` is the first of them.
    Stalled { near: u32 },
}

/// Scans `ids` once for the ids that are not decoded. The scan stops at the
/// second.
pub fn scan(decoded: &HashMap<u32, Block>, ids: &Vec<u32>) -> (found: Scan)
    ensures
        match found {
            Scan::Spent => missing(decoded@.dom(), ids@).len() == 0,
            Scan::Single { id, known } => missing(decoded@.dom(), ids@) == seq![id] && known@
                == present(decoded@.dom(), ids@),
            Scan::Stalled { near } => missing(decoded@.dom(), ids@).len() >= 2 && ids@.contains(
                near,
            ) && !decoded@.dom().contains(near),
        },
{
    let ghost dom = decoded@.dom();
    let mut known: Vec<u32> = Vec::new();
    let mut remainder: Option<u32> = None;
    let mut i: usize = 0;
    while i < ids.len()
        invariant
            i <= ids.len(),
            dom == decoded@.dom(),
            known@ == present(dom, ids@.take(i as int)),
            match remainder {
                Some(id) => missing(dom, ids@.take(i as int)) == seq![id] && ids@.contains(id)
                    && !dom.contains(id),
                None => missing(dom, ids@.take(i as int)).len() == 0,
            },
        decreases ids.len() - i,
    {
        let id = ids[i];
        proof {
            assert(ids@.take(i + 1).drop_last() =~= ids@.take(i as int));
            assert(ids@.take(i + 1).last() == id);
            assert(ids@[i as int] == id);
        }
        if decoded.contains_key(&id) {
            known.push(id);
        } else {
            match remainder {
                Some(near) => {
                    proof {
                        lemma_missing_prefix(dom, ids@, i + 1);
                    }
                    return Scan::Stalled { near };
                },
                None => {
                    remainder = Some(id);
                    assert(missing(dom, ids@.take(i + 1)) =~= seq![id]);
                },
            }
        }
        i += 1;
    }
    assert(ids@.take(i as int) =~= ids@);
    match remainder {
        Some(id) => Scan::Single { id, known },
        None => Scan::Spent,
    }
}

/// Takes the decoded blocks that `known` names out of `start`.
pub fn reduce_block(decoded: &HashMap<u32, Block>, start: Block, known: &Vec<u32>) -> (block:
    Block)
    requires
        forall|i: int| 0 <= i < known@.len() ==> decoded@.dom().contains(#[trigger] known@[i]),
    ensures
        block@ == reduce(block_views(decoded@), start@, known@),
{
    let mut block = start;
    let mut i: usize = 0;
    while i < known.len()
        invariant
            i <= known.len(),
            forall|i: int| 0 <= i < known@.len() ==> decoded@.dom().contains(#[trigger] known@[i]),
            block@ == reduce(block_views(decoded@), start@, known@.take(i as int)),
        decreases known.len() - i,
    {
        let id = known[i];
        proof {
            assert(known@.take(i + 1).drop_last() =~= known@.take(i as int));
            assert(known@.take(i + 1).last() == id);
            assert(decoded@.dom().contains(known@[i as int]));
        }
        match decoded.get(&id) {
            Some(other) => {
                block.xor_assign(other);
            },
            None => {},
        }
        i += 1;
    }
    assert(known@.take(i as int) =~= known@);
    block
}

/// A set of block ids holds at most as many ids as there are.
pub proof fn lemma_ids_bounded(ids: Set<u32>)
    requires
        ids.finite(),
    ensures
        ids.len() <= 0x1_0000_0000,
{
    let all = Set::<u32>::full();
    <u32 as vstd::set_lib::FiniteFull>::full_properties();
    vstd::set_lib::range_set_properties::<u32>(0u32, u32::MAX);
    assert(all =~= Set::<u32>::range(0u32, u32::MAX).insert(u32::MAX));
    vstd::set_lib::lemma_len_subset(ids, all);
}

/// The state of a decoder that holds `decoded` and `pool`.
pub open spec fn state_of(decoded: Map<u32, Block>, pool: StalePool) -> DecoderView {
    DecoderView { decoded: block_views(decoded), stale: pool@ }
}

/// Takes `packet` in and peels as far as it goes: while some packet names
/// exactly one unknown block, that block is decoded, and the packets that
/// name it are looked at again.
pub fn peel(decoded: &mut HashMap<u32, Block>, pool: &mut StalePool, packet: LtPacket)
    requires
        old(pool).wf(old(decoded)@.dom()),
        forall|held: PacketView| #[trigger]
            old(pool)@.contains(held) ==> stalled(old(decoded)@.dom(), held),
    ensures
        final(pool).wf(final(decoded)@.dom()),
        forall|held: PacketView| #[trigger]
            final(pool)@.contains(held) ==> stalled(final(decoded)@.dom(), held),
        peeled(
            state_of(old(decoded)@, *old(pool)),
            packet@,
            state_of(final(decoded)@, *final(pool)),
        ),
        forall|source: Map<u32, Seq<u8>>|
            faithful(source, state_of(old(decoded)@, *old(pool))) && encodes(source, packet@)
                ==> #[trigger] faithful(source, state_of(final(decoded)@, *final(pool))),
{
    let ghost start = state_of(decoded@, *pool);
    let ghost packets = start.stale.insert(packet@);
    let ghost arrived = packet@;
    let mut fresh: Vec<LtPacket> = Vec::new();
    fresh.push(packet);
    assert(fresh@[0]@ == arrived);
    while fresh.len() > 0
        invariant
            pool.wf(decoded@.dom()),
            decoded@.dom().finite(),
            start == state_of(old(decoded)@, *old(pool)),
            packets == start.stale.insert(arrived),
            forall|held: PacketView| #[trigger]
                pool@.contains(held) ==> stalled(decoded@.dom(), held) && packets.contains(held),
            forall|k: int| 0 <= k < fresh@.len() ==> packets.contains(#[trigger] fresh@[k]@),
            forall|held: PacketView| #[trigger]
                packets.contains(held) ==> pool@.contains(held) || spent(decoded@.dom(), held)
                    || exists|k: int| 0 <= k < fresh@.len() && fresh@[k]@ == held,
            agrees(start.decoded, block_views(decoded@)),
            forall|id: u32|
                decoded@.dom().contains(id) && !start.decoded.dom().contains(id)
                    ==> #[trigger] derived(block_views(decoded@), packets, id),
            forall|other: Set<u32>|
                start.decoded.dom().subset_of(other) && #[trigger] settled(other, packets)
                    ==> decoded@.dom().subset_of(other),
            forall|source: Map<u32, Seq<u8>>|
                #[trigger] faithful(source, start) && encodes(source, arrived) ==> agrees(
                    block_views(decoded@),
                    source,
                ),
        decreases 0x1_0000_0000 - decoded@.dom().len(), fresh.len(),
    {
        let ghost dom = decoded@.dom();
        let ghost waiting = fresh@;
        let ghost views = block_views(decoded@);
        let ghost held_before = pool@;
        proof {
            lemma_ids_bounded(dom);
        }
        match fresh.pop() {
            Some(current) => {
                let ghost popped = current@;
                assert(popped == waiting[waiting.len() - 1]@);
                assert(packets.contains(popped));
                match scan(decoded, current.combined_blocks()) {
                    Scan::Stalled { near } => {
                        pool.park(current, near, Ghost(dom));
                        proof {
                            assert forall|held: PacketView| #[trigger]
                                packets.contains(held) implies pool@.contains(held) || spent(
                                dom,
                                held,
                            ) || exists|k: int| 0 <= k < fresh@.len() && fresh@[k]@ == held by {
                                if !held_before.contains(held) && !spent(dom, held) && held
                                    != popped {
                                    let k = choose|k: int|
                                        0 <= k < waiting.len() && waiting[k]@ == held;
                                    assert(fresh@[k]@ == held);
                                }
                            }
                        }
                    },
                    Scan::Spent => {
                        proof {
                            assert forall|held: PacketView| #[trigger]
                                packets.contains(held) implies pool@.contains(held) || spent(
                                dom,
                                held,
                            ) || exists|k: int| 0 <= k < fresh@.len() && fresh@[k]@ == held by {
                                if !held_before.contains(held) && !spent(dom, held) {
                                    let k = choose|k: int|
                                        0 <= k < waiting.len() && waiting[k]@ == held;
                                    assert(fresh@[k]@ == held);
                                }
                            }
                        }
                    },
                    Scan::Single { id, known } => {
                        let (ids, data) = current.into_parts();
                        proof {
                            lemma_present_missing(dom, ids@);
                            assert(missing(dom, ids@)[0] == id);
                            assert(!dom.contains(id));
                        }
                        let block = reduce_block(decoded, data, &known);
                        decoded.insert(id, block);
                        let ghost wider = decoded@.dom();
                        let ghost rest = fresh@;
                        proof {
                            assert(wider =~= dom.insert(id));
                            assert(wider.remove(id) =~= dom);
                            assert(block_views(decoded@) =~= views.insert(id, block@));
                        }
                        pool.release(decoded, id, &mut fresh);
                        proof {
                            lemma_ids_bounded(wider);
                            assert(agrees(start.decoded, block_views(decoded@)));
                            assert(agrees(views, block_views(decoded@)));
                            assert forall|other: u32|
                                wider.contains(other) && !start.decoded.dom().contains(
                                    other,
                                ) implies #[trigger] derived(
                                block_views(decoded@),
                                packets,
                                other,
                            ) by {
                                if other == id {
                                    lemma_present_others(dom, ids@, id);
                                    let rest = others(ids@, id);
                                    assert forall|i: int| 0 <= i < rest.len() implies views[
                                    #[trigger] rest[i]] == block_views(decoded@)[rest[i]] by {
                                        assert(dom.contains(rest[i]));
                                    }
                                    lemma_reduce_agree(
                                        views,
                                        block_views(decoded@),
                                        popped.data,
                                        rest,
                                    );
                                    assert(yields(block_views(decoded@), popped, id));
                                } else {
                                    assert(dom.contains(other));
                                    assert(derived(views, packets, other));
                                    let from = choose|from: PacketView|
                                        packets.contains(from) && yields(views, from, other);
                                    assert(views.dom().contains(other));
                                    lemma_yields_stable(views, block_views(decoded@), from, other);
                                }
                            }
                            assert forall|held: PacketView| #[trigger]
                                packets.contains(held) implies pool@.contains(held) || spent(
                                wider,
                                held,
                            ) || exists|k: int|
                                0 <= k < fresh@.len() && fresh@[k]@ == held by {
                                if held == popped {
                                    lemma_missing_resolved(dom, id, ids@);
                                } else if held_before.contains(held) {
                                } else if spent(dom, held) {
                                    lemma_missing_superset(dom, wider, held.ids);
                                } else {
                                    let k = choose|k: int|
                                        0 <= k < waiting.len() && waiting[k]@ == held;
                                    assert(fresh@.take(rest.len() as int)[k] == rest[k]);
                                    assert(fresh@[k]@ == held);
                                }
                            }
                            assert forall|k: int| 0 <= k < fresh@.len() implies packets.contains(
                                #[trigger] fresh@[k]@,
                            ) by {
                                if k < rest.len() {
                                    assert(fresh@.take(rest.len() as int)[k] == rest[k]);
                                } else {
                                    assert(held_before.contains(fresh@[k]@));
                                }
                            }
                            assert forall|other: Set<u32>|
                                start.decoded.dom().subset_of(other) && #[trigger] settled(
                                    other,
                                    packets,
                                ) implies wider.subset_of(other) by {
                                assert(dom.subset_of(other));
                                lemma_settled_holds(dom, other, packets, popped, id);
                            }
                            assert forall|source: Map<u32, Seq<u8>>|
                                #[trigger] faithful(source, start) && encodes(
                                    source,
                                    arrived,
                                ) implies agrees(block_views(decoded@), source) by {
                                assert(encodes(source, popped));
                                assert(views.dom() =~= dom);
                                lemma_reduce_isolates(source, views, ids@, id);
                                assert(ids@.contains(id));
                            }
                        }
                    },
                }
            },
            None => {},
        }
    }
    proof {
        let known = decoded@.dom();
        let after = state_of(decoded@, *pool);
        assert forall|held: PacketView| #[trigger] packets.contains(held) implies missing(
            known,
            held.ids,
        ).len() != 1 by {
            if pool@.contains(held) {
                assert(stalled(known, held));
            }
        }
        assert(settled(known, packets));
        assert(after.decoded.dom() =~= known);
        assert(start.decoded.dom() =~= old(decoded)@.dom());
        assert forall|held: PacketView| #[trigger]
            after.stale.contains(held) <==> packets.contains(held) && stalled(known, held) by {
            if packets.contains(held) && stalled(known, held) {
                assert(!spent(known, held));
            }
        }
        assert(agrees(start.decoded, after.decoded));
        assert forall|id: u32|
            known.contains(id) && !start.decoded.dom().contains(id) implies #[trigger] derived(
            after.decoded,
            packets,
            id,
        ) by {
            assert(derived(block_views(decoded@), packets, id));
        }
        assert forall|other: Set<u32>|
            start.decoded.dom().subset_of(other) && #[trigger] settled(
                other,
                packets,
            ) implies after.decoded.dom().subset_of(other) by {
            assert(known.subset_of(other));
        }
        assert forall|source: Map<u32, Seq<u8>>|
            faithful(source, start) && encodes(source, arrived) implies #[trigger] faithful(
            source,
            after,
        ) by {
            assert forall|held: PacketView| #[trigger] after.stale.contains(held) implies encodes(
                source,
                held,
            ) by {
                assert(packets.contains(held));
            }
        }
    }
}

} // verus!
