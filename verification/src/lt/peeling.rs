//! What the peeling decoder computes, stated over sets of packets.
//!
//! A packet with exactly one unknown block id yields that block. Decoding it
//! may leave other packets with one unknown id, and so on. The decoder stops
//! when no packet it holds has exactly one unknown id: the set of decoded ids
//! is then the least one with that property.

use crate::lt::combine::{
    agrees, combine, full_width, lemma_present_missing, lemma_reduce_agree, missing, names_blocks,
    others, reduce,
};
use crate::lt::packet::PacketView;
use vstd::prelude::*;

verus! {

/// The state of a decoder: the blocks it has recovered, by id, and the
/// packets it holds back because they name two or more unknown blocks.
pub struct DecoderView {
    pub decoded: Map<u32, Seq<u8>>,
    pub stale: Set<PacketView>,
}

/// The packet names at least two ids outside `known`.
pub open spec fn stalled(known: Set<u32>, packet: PacketView) -> bool {
    missing(known, packet.ids).len() >= 2
}

/// The packet names no id outside `known`.
pub open spec fn spent(known: Set<u32>, packet: PacketView) -> bool {
    missing(known, packet.ids).len() == 0
}

/// No packet of `packets` names exactly one id outside `known`: peeling has
/// nothing left to do.
pub open spec fn settled(known: Set<u32>, packets: Set<PacketView>) -> bool {
    forall|packet: PacketView| #[trigger]
        packets.contains(packet) ==> missing(known, packet.ids).len() != 1
}

/// The packet's block is the exclusive-or of the blocks of `source` that its
/// ids name.
pub open spec fn encodes(source: Map<u32, Seq<u8>>, packet: PacketView) -> bool {
    names_blocks(source, packet.ids) && packet.data == combine(source, packet.ids)
}

/// Every block of the state is a block of `source`, and every packet it
/// holds back encodes `source`.
pub open spec fn faithful(source: Map<u32, Seq<u8>>, state: DecoderView) -> bool {
    &&& agrees(state.decoded, source)
    &&& forall|packet: PacketView| #[trigger]
        state.stale.contains(packet) ==> encodes(source, packet)
}

/// The invariant of a decoder: its blocks have the full width, and every
/// packet it holds back names two unknown blocks or more.
pub open spec fn well_formed(state: DecoderView) -> bool {
    &&& state.decoded.dom().finite()
    &&& full_width(state.decoded)
    &&& forall|packet: PacketView| #[trigger]
        state.stale.contains(packet) ==> stalled(state.decoded.dom(), packet)
}

/// `packet` yields block `id` of `decoded`: it names the block once, every
/// other block it names is decoded, and the block is what is left of the
/// packet's block when those others are taken out.
pub open spec fn yields(decoded: Map<u32, Seq<u8>>, packet: PacketView, id: u32) -> bool {
    let rest = others(packet.ids, id);
    &&& rest.len() + 1 == packet.ids.len()
    &&& forall|i: int| 0 <= i < rest.len() ==> decoded.dom().contains(#[trigger] rest[i])
    &&& decoded[id] == reduce(decoded, packet.data, rest)
}

/// Some packet of `packets` yields block `id` of `decoded`.
pub open spec fn derived(decoded: Map<u32, Seq<u8>>, packets: Set<PacketView>, id: u32) -> bool {
    exists|packet: PacketView| packets.contains(packet) && yields(decoded, packet, id)
}

/// `after` is the state that peeling reaches from `before` on `packet`.
///
/// No block is lost or changed, and every new block is yielded by a packet.
/// The packets held back are those of before and the new one, as far as
/// they still name two unknown blocks; none is left with exactly one.
/// Nothing is decoded without need: the decoded ids lie in every superset of
/// the old ones that leaves no packet with exactly one unknown id.
pub open spec fn peeled(before: DecoderView, packet: PacketView, after: DecoderView) -> bool {
    let packets = before.stale.insert(packet);
    let known = after.decoded.dom();
    &&& agrees(before.decoded, after.decoded)
    &&& forall|id: u32|
        known.contains(id) && !before.decoded.dom().contains(id) ==> #[trigger] derived(
            after.decoded,
            packets,
            id,
        )
    &&& settled(known, packets)
    &&& forall|held: PacketView| #[trigger]
        after.stale.contains(held) <==> packets.contains(held) && stalled(known, held)
    &&& forall|other: Set<u32>|
        before.decoded.dom().subset_of(other) && #[trigger] settled(other, packets)
            ==> known.subset_of(other)
}

/// An id that `ids` does not name can become known without changing which
/// ids are missing.
pub proof fn lemma_missing_unnamed(known: Set<u32>, id: u32, ids: Seq<u32>)
    requires
        !ids.contains(id),
    ensures
        missing(known.insert(id), ids) == missing(known, ids),
    decreases ids.len(),
{
    if ids.len() > 0 {
        let front = ids.drop_last();
        assert(!front.contains(id)) by {
            if front.contains(id) {
                let j = choose|j: int| 0 <= j < front.len() && front[j] == id;
                assert(ids[j] == id);
            }
        }
        lemma_missing_unnamed(known, id, front);
        assert(ids[ids.len() - 1] != id);
    }
}

/// Once the only missing id is known, none is missing.
pub proof fn lemma_missing_resolved(known: Set<u32>, id: u32, ids: Seq<u32>)
    requires
        missing(known, ids) == seq![id],
    ensures
        missing(known.insert(id), ids).len() == 0,
{
    let wider = known.insert(id);
    lemma_present_missing(known, ids);
    lemma_present_missing(wider, ids);
    if missing(wider, ids).len() > 0 {
        let other = missing(wider, ids)[0];
        assert(ids.contains(other));
        let j = choose|j: int| 0 <= j < ids.len() && ids[j] == other;
        assert(!known.contains(ids[j]));
        assert(missing(known, ids).contains(ids[j]));
        let k = choose|k: int| 0 <= k < missing(known, ids).len() && missing(known, ids)[k] == other;
        assert(seq![id][k] == id);
    }
}

/// Under a larger set of known ids, the missing ids are those that were
/// missing before and still are.
pub proof fn lemma_missing_superset(known: Set<u32>, wider: Set<u32>, ids: Seq<u32>)
    requires
        known.subset_of(wider),
    ensures
        missing(wider, ids) == missing(wider, missing(known, ids)),
    decreases ids.len(),
{
    if ids.len() > 0 {
        let front = ids.drop_last();
        let last = ids.last();
        lemma_missing_superset(known, wider, front);
        if !known.contains(last) {
            let pushed = missing(known, front).push(last);
            assert(pushed.drop_last() =~= missing(known, front));
            assert(pushed.last() == last);
        }
    }
}

/// A set that leaves no packet with exactly one unknown id holds the one id
/// that a packet is missing under a smaller set.
pub proof fn lemma_settled_holds(
    known: Set<u32>,
    other: Set<u32>,
    packets: Set<PacketView>,
    packet: PacketView,
    id: u32,
)
    requires
        known.subset_of(other),
        settled(other, packets),
        packets.contains(packet),
        missing(known, packet.ids) == seq![id],
    ensures
        other.contains(id),
{
    lemma_missing_superset(known, other, packet.ids);
    let alone = seq![id];
    assert(alone.drop_last() =~= Seq::<u32>::empty());
    assert(alone.last() == id);
    assert(missing(other, alone.drop_last()).len() == 0);
    if !other.contains(id) {
        assert(missing(other, alone).len() == 1);
    }
}

/// A packet that yields a block goes on yielding it when more blocks are
/// decoded.
pub proof fn lemma_yields_stable(
    decoded: Map<u32, Seq<u8>>,
    wider: Map<u32, Seq<u8>>,
    packet: PacketView,
    id: u32,
)
    requires
        yields(decoded, packet, id),
        decoded.dom().contains(id),
        agrees(decoded, wider),
    ensures
        yields(wider, packet, id),
{
    let rest = others(packet.ids, id);
    assert forall|i: int| 0 <= i < rest.len() implies decoded[#[trigger] rest[i]]
        == wider[rest[i]] by {
        assert(decoded.dom().contains(rest[i]));
    }
    lemma_reduce_agree(decoded, wider, packet.data, rest);
}

/// Feeding a decoder the packet it has just been fed changes nothing.
pub proof fn lemma_receive_idempotent(
    start: DecoderView,
    packet: PacketView,
    once: DecoderView,
    twice: DecoderView,
)
    requires
        peeled(start, packet, once),
        peeled(once, packet, twice),
    ensures
        twice.decoded == once.decoded,
        twice.stale == once.stale,
{
    let first = start.stale.insert(packet);
    let second = once.stale.insert(packet);
    let known = once.decoded.dom();
    assert(settled(known, second)) by {
        assert forall|held: PacketView| #[trigger] second.contains(held) implies missing(
            known,
            held.ids,
        ).len() != 1 by {
            assert(first.contains(held));
        }
    }
    assert(known.subset_of(known));
    assert(twice.decoded.dom().subset_of(known));
    assert(twice.decoded.dom() =~= known);
    assert(twice.decoded =~= once.decoded);
    assert forall|held: PacketView| twice.stale.contains(held) <==> once.stale.contains(
        held,
    ) by {
        if second.contains(held) && stalled(known, held) {
            assert(first.contains(held));
        }
    }
    assert(twice.stale =~= once.stale);
}

/// No more ids are missing than there are ids.
pub proof fn lemma_missing_len(known: Set<u32>, ids: Seq<u32>)
    ensures
        missing(known, ids).len() <= ids.len(),
    decreases ids.len(),
{
    if ids.len() > 0 {
        lemma_missing_len(known, ids.drop_last());
    }
}

/// `after` is what peeling reaches from `before` once all of `packets` have
/// been taken in: the least state that leaves none of them, and none of the
/// packets held back before, with exactly one unknown id.
pub open spec fn peeled_all(before: DecoderView, packets: Set<PacketView>, after: DecoderView) -> bool {
    let all = before.stale.union(packets);
    let known = after.decoded.dom();
    &&& agrees(before.decoded, after.decoded)
    &&& settled(known, all)
    &&& forall|held: PacketView| #[trigger]
        after.stale.contains(held) <==> all.contains(held) && stalled(known, held)
    &&& forall|other: Set<u32>|
        before.decoded.dom().subset_of(other) && #[trigger] settled(other, all)
            ==> known.subset_of(other)
}

/// Taking one packet in is taking in the set of that packet.
pub proof fn lemma_peeled_one(before: DecoderView, packet: PacketView, after: DecoderView)
    requires
        peeled(before, packet, after),
    ensures
        peeled_all(before, set![packet], after),
{
    assert(before.stale.union(set![packet]) =~= before.stale.insert(packet));
}

/// Taking a packet in after a set of packets is taking in the set with that
/// packet.
pub proof fn lemma_peeled_more(
    start: DecoderView,
    packets: Set<PacketView>,
    middle: DecoderView,
    packet: PacketView,
    end: DecoderView,
)
    requires
        peeled_all(start, packets, middle),
        peeled(middle, packet, end),
    ensures
        peeled_all(start, packets.insert(packet), end),
{
    let before = start.stale.union(packets);
    let step = middle.stale.insert(packet);
    let all = start.stale.union(packets.insert(packet));
    let reached = middle.decoded.dom();
    let known = end.decoded.dom();
    assert(all =~= before.insert(packet));
    assert(reached.subset_of(known));
    assert forall|held: PacketView| #[trigger] all.contains(held) implies missing(
        known,
        held.ids,
    ).len() != 1 by {
        if !step.contains(held) {
            assert(before.contains(held));
            assert(!stalled(reached, held));
            lemma_missing_superset(reached, known, held.ids);
            assert(missing(reached, held.ids) =~= Seq::<u32>::empty());
        }
    }
    assert forall|held: PacketView| #[trigger]
        end.stale.contains(held) <==> all.contains(held) && stalled(known, held) by {
        if all.contains(held) && stalled(known, held) && held != packet {
            lemma_missing_superset(reached, known, held.ids);
            lemma_missing_len(known, missing(reached, held.ids));
            assert(middle.stale.contains(held));
        }
        if end.stale.contains(held) {
            assert(step.contains(held));
        }
    }
    assert forall|other: Set<u32>|
        start.decoded.dom().subset_of(other) && #[trigger] settled(
            other,
            all,
        ) implies known.subset_of(other) by {
        assert(settled(other, before)) by {
            assert forall|held: PacketView| #[trigger] before.contains(held) implies missing(
                other,
                held.ids,
            ).len() != 1 by {
                assert(all.contains(held));
            }
        }
        assert(reached.subset_of(other));
        assert(settled(other, step)) by {
            assert forall|held: PacketView| #[trigger] step.contains(held) implies missing(
                other,
                held.ids,
            ).len() != 1 by {
                assert(all.contains(held));
            }
        }
    }
}

/// What peeling reaches on a set of packets is decided by the set: the same
/// ids are decoded and the same packets are held back, whatever the order
/// the packets came in.
pub proof fn lemma_peeled_all_unique(
    before: DecoderView,
    packets: Set<PacketView>,
    one: DecoderView,
    other: DecoderView,
)
    requires
        peeled_all(before, packets, one),
        peeled_all(before, packets, other),
    ensures
        one.decoded.dom() == other.decoded.dom(),
        one.stale == other.stale,
{
    let all = before.stale.union(packets);
    assert(before.decoded.dom().subset_of(one.decoded.dom()));
    assert(before.decoded.dom().subset_of(other.decoded.dom()));
    assert(settled(one.decoded.dom(), all));
    assert(settled(other.decoded.dom(), all));
    assert(one.decoded.dom().subset_of(other.decoded.dom()));
    assert(other.decoded.dom().subset_of(one.decoded.dom()));
    assert(one.decoded.dom() =~= other.decoded.dom());
    assert(one.stale =~= other.stale);
}

/// Two packets lead to the same decoded ids and the same packets held back
/// in either order. Where both orders decode the blocks of one blob, they
/// decode the same blocks.
pub proof fn lemma_order_free(
    start: DecoderView,
    first: PacketView,
    second: PacketView,
    after_first: DecoderView,
    forward: DecoderView,
    after_second: DecoderView,
    backward: DecoderView,
)
    requires
        peeled(start, first, after_first),
        peeled(after_first, second, forward),
        peeled(start, second, after_second),
        peeled(after_second, first, backward),
    ensures
        forward.decoded.dom() == backward.decoded.dom(),
        forward.stale == backward.stale,
        forall|source: Map<u32, Seq<u8>>|
            agrees(forward.decoded, source) && agrees(backward.decoded, source)
                ==> forward.decoded == backward.decoded,
{
    lemma_peeled_one(start, first, after_first);
    lemma_peeled_more(start, set![first], after_first, second, forward);
    lemma_peeled_one(start, second, after_second);
    lemma_peeled_more(start, set![second], after_second, first, backward);
    assert(set![first].insert(second) =~= set![second].insert(first));
    lemma_peeled_all_unique(start, set![first].insert(second), forward, backward);
    assert forall|source: Map<u32, Seq<u8>>|
        agrees(forward.decoded, source) && agrees(
            backward.decoded,
            source,
        ) implies forward.decoded == backward.decoded by {
        assert(forward.decoded =~= backward.decoded);
    }
}

/// Peeling loses no block: the decoded ids only grow.
pub proof fn lemma_receive_monotonic(before: DecoderView, packet: PacketView, after: DecoderView)
    requires
        peeled(before, packet, after),
        after.decoded.dom().finite(),
    ensures
        before.decoded.dom().subset_of(after.decoded.dom()),
        before.decoded.dom().len() <= after.decoded.dom().len(),
{
    assert(before.decoded.dom().subset_of(after.decoded.dom()));
    vstd::set_lib::lemma_len_subset(before.decoded.dom(), after.decoded.dom());
}

} // verus!
