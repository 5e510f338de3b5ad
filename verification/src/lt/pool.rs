//! The pool of packets that a decoder holds back.

use crate::block::Block;
use crate::lt::packet::{LtPacket, PacketView};
use crate::lt::peeling::{lemma_missing_unnamed, spent, stalled};
use crate::lt::scan::{scan, Scan};
use std::collections::HashMap;
use vstd::prelude::*;

verus! {

/// What the packets of `held` hold, in their order.
pub open spec fn views(held: Seq<LtPacket>) -> Seq<PacketView> {
    Seq::new(held.len(), |i: int| held[i]@)
}

/// Adds `slot` to the slots listed under `id`.
fn index_add(index: &mut HashMap<u32, Vec<usize>>, id: u32, slot: usize)
    ensures
        final(index)@.dom() == old(index)@.dom().insert(id),
        forall|other: u32| other != id && old(index)@.contains_key(other) ==> final(index)@[other]
            == #[trigger] old(index)@[other],
        final(index)@[id]@ == (if old(index)@.contains_key(id) {
            old(index)@[id]@
        } else {
            Seq::<usize>::empty()
        }).push(slot),
{
    let mut list = match index.remove(&id) {
        Some(list) => list,
        None => Vec::new(),
    };
    list.push(slot);
    index.insert(id, list);
    assert(final(index)@.dom() =~= old(index)@.dom().insert(id));
}

/// The packets that a decoder holds back, each in a slot of its own, with an
/// index from block ids to the slots whose packets name them.
#[derive(Debug)]
pub struct StalePool {
    slots: Vec<Option<LtPacket>>,
    index: HashMap<u32, Vec<usize>>,
}

impl StalePool {
    /// The ids of the packet in `slot`.
    pub closed spec fn slot_ids(&self, slot: int) -> Seq<u32> {
        self.slots@[slot]->Some_0@.ids
    }

    /// `slot` holds `packet`.
    pub closed spec fn holds(&self, slot: int, packet: PacketView) -> bool {
        0 <= slot < self.slots@.len() && self.slots@[slot] is Some && self.slots@[slot]->Some_0@
            == packet
    }

    /// The packets held.
    pub closed spec fn view(&self) -> Set<PacketView> {
        Set::new(|packet: PacketView| exists|slot: int| self.holds(slot, packet))
    }

    /// The index lists `slot` under `id`.
    pub closed spec fn listed(&self, id: u32, slot: int) -> bool {
        self.index@.contains_key(id) && exists|i: int|
            0 <= i < self.index@[id]@.len() && self.index@[id]@[i] == slot
    }

    /// Every held packet is listed in the index under each of its ids that
    /// is not in `known`.
    pub closed spec fn indexed(&self, known: Set<u32>) -> bool {
        forall|slot: int, j: int|
            0 <= slot < self.slots@.len() && self.slots@[slot] is Some && 0 <= j < self.slot_ids(
                slot,
            ).len() && !known.contains(#[trigger] self.slot_ids(slot)[j]) ==> self.listed(
                self.slot_ids(slot)[j],
                slot,
            )
    }

    /// The index lists slots of the pool only.
    pub closed spec fn in_bounds(&self) -> bool {
        forall|id: u32, i: int|
            self.index@.contains_key(id) && 0 <= i < self.index@[id]@.len() ==> (
            #[trigger] self.index@[id]@[i]) < self.slots@.len()
    }

    /// No two slots hold equal packets.
    pub closed spec fn distinct(&self) -> bool {
        forall|first: int, second: int|
            0 <= first < self.slots@.len() && 0 <= second < self.slots@.len() && first != second
                && (#[trigger] self.slots@[first]) is Some && (#[trigger] self.slots@[second])
                is Some ==> self.slots@[first]->Some_0@ != self.slots@[second]->Some_0@
    }

    /// The invariant of the pool, given the ids that are decoded.
    pub closed spec fn wf(&self, known: Set<u32>) -> bool {
        self.indexed(known) && self.in_bounds() && self.distinct()
    }

    /// The empty pool.
    pub fn new() -> (pool: StalePool)
        ensures
            pool@ == Set::<PacketView>::empty(),
            forall|known: Set<u32>| #[trigger] pool.wf(known),
    {
        let pool = StalePool { slots: Vec::new(), index: HashMap::new() };
        assert(pool@ =~= Set::<PacketView>::empty());
        pool
    }

    /// Looks for a packet equal to `packet` among those listed under `id`.
    fn has_copy(&self, packet: &LtPacket, id: u32) -> (found: bool)
        ensures
            found ==> self@.contains(packet@),
            !found ==> forall|slot: int| #[trigger]
                self.listed(id, slot) ==> !self.holds(slot, packet@),
    {
        match self.index.get(&id) {
            Some(list) => {
                let mut i: usize = 0;
                while i < list.len()
                    invariant
                        i <= list.len(),
                        forall|k: int|
                            0 <= k < i ==> !self.holds((#[trigger] list@[k]) as int, packet@),
                    decreases list.len() - i,
                {
                    let slot = list[i];
                    if slot < self.slots.len() {
                        match &self.slots[slot] {
                            Some(held) => {
                                if *held == *packet {
                                    assert(self.holds(slot as int, packet@));
                                    return true;
                                }
                            },
                            None => {},
                        }
                    }
                    i += 1;
                }
                assert forall|slot: int| #[trigger] self.listed(id, slot) implies !self.holds(
                    slot,
                    packet@,
                ) by {
                    let k = choose|k: int| 0 <= k < list@.len() && list@[k] == slot;
                    assert(!self.holds(list@[k] as int, packet@));
                }
            },
            None => {},
        }
        false
    }

    /// Takes `packet` into the pool, unless the pool holds an equal packet.
    /// Such a packet is listed under `near`, an unknown id of `packet`.
    pub(crate) fn park(&mut self, packet: LtPacket, near: u32, Ghost(known): Ghost<Set<u32>>)
        requires
            old(self).wf(known),
            packet@.ids.contains(near),
            !known.contains(near),
        ensures
            final(self).wf(known),
            final(self)@ == old(self)@.insert(packet@),
    {
        let slot = self.slots.len();
        let ids = packet.combined_blocks().clone();
        let ghost view = packet@;
        assert(ids@ == view.ids);
        if self.has_copy(&packet, near) {
            assert(self@ =~= old(self)@.insert(view));
            return;
        }
        proof {
            assert forall|s: int| !old(self).holds(s, view) by {
                if old(self).holds(s, view) {
                    let j = choose|j: int| 0 <= j < view.ids.len() && view.ids[j] == near;
                    assert(old(self).slot_ids(s)[j] == near);
                    assert(old(self).listed(near, s));
                }
            }
        }
        self.slots.push(Some(packet));
        let ghost parked = self.slots@;
        let mut j: usize = 0;
        while j < ids.len()
            invariant
                j <= ids.len(),
                self.slots@ == parked,
                slot + 1 == parked.len(),
                parked[slot as int] is Some,
                parked[slot as int]->Some_0@.ids == ids@,
                parked.take(slot as int) == old(self).slots@,
                old(self).wf(known),
                self.in_bounds(),
                forall|id: u32, s: int| old(self).listed(id, s) ==> #[trigger] self.listed(id, s),
                forall|k: int| 0 <= k < j ==> self.listed(#[trigger] ids@[k], slot as int),
            decreases ids.len() - j,
        {
            let id = ids[j];
            let ghost before = self.index@;
            let ghost was = *self;
            index_add(&mut self.index, id, slot);
            proof {
                let list = self.index@[id]@;
                assert(list[list.len() - 1] == slot);
                assert(self.listed(id, slot as int));
                assert forall|other: u32, s: int| was.listed(other, s) implies self.listed(
                    other,
                    s,
                ) by {
                    let i = choose|i: int| 0 <= i < before[other]@.len() && before[other]@[i] == s;
                    if other == id {
                        assert(list[i] == s);
                    } else {
                        assert(self.index@[other] == before[other]);
                    }
                }
                assert forall|other: u32, s: int| old(self).listed(other, s) implies self.listed(
                    other,
                    s,
                ) by {
                    assert(was.listed(other, s));
                }
                assert forall|k: int| 0 <= k < j + 1 implies self.listed(
                    #[trigger] ids@[k],
                    slot as int,
                ) by {
                    if k < j {
                        assert(was.listed(ids@[k], slot as int));
                    }
                }
                assert forall|other: u32, i: int|
                    self.index@.contains_key(other) && 0 <= i < self.index@[other]@.len() implies (
                #[trigger] self.index@[other]@[i]) < self.slots@.len() by {
                    if other == id {
                        if i < list.len() - 1 {
                            assert(before.contains_key(id));
                            assert(before[id]@[i] == list[i]);
                        }
                    } else {
                        assert(before.contains_key(other));
                        assert(self.index@[other] == before[other]);
                        assert(before[other]@[i] < parked.len());
                    }
                }
            }
            j += 1;
        }
        proof {
            assert(self.holds(slot as int, view));
            assert forall|held: PacketView| self@.contains(held) <==> old(self)@.insert(
                view,
            ).contains(held) by {
                if old(self)@.contains(held) {
                    let s = choose|s: int| old(self).holds(s, held);
                    assert(parked[s] == old(self).slots@[s]);
                    assert(self.holds(s, held));
                }
                if self@.contains(held) {
                    let s = choose|s: int| self.holds(s, held);
                    if s != slot {
                        assert(parked[s] == old(self).slots@[s]);
                        assert(old(self).holds(s, held));
                    }
                }
            }
            assert(self@ =~= old(self)@.insert(view));
            assert forall|first: int, second: int|
                0 <= first < self.slots@.len() && 0 <= second < self.slots@.len() && first
                    != second && (#[trigger] self.slots@[first]) is Some && (
                #[trigger] self.slots@[second]) is Some implies self.slots@[first]->Some_0@
                != self.slots@[second]->Some_0@ by {
                if first < slot {
                    assert(parked[first] == old(self).slots@[first]);
                }
                if second < slot {
                    assert(parked[second] == old(self).slots@[second]);
                }
                if first == slot {
                    assert(!old(self).holds(second, view));
                }
                if second == slot {
                    assert(!old(self).holds(first, view));
                }
            }
            assert forall|s: int, k: int|
                0 <= s < self.slots@.len() && self.slots@[s] is Some && 0 <= k < self.slot_ids(
                    s,
                ).len() && !known.contains(#[trigger] self.slot_ids(s)[k]) implies self.listed(
                self.slot_ids(s)[k],
                s,
            ) by {
                if s < slot {
                    assert(old(self).slots@[s] == parked[s]);
                    assert(old(self).slot_ids(s)[k] == self.slot_ids(s)[k]);
                    assert(old(self).listed(old(self).slot_ids(s)[k], s));
                }
            }
        }
    }

    /// A slot below `end` holds `packet`.
    pub closed spec fn holds_below(&self, end: int, packet: PacketView) -> bool {
        exists|slot: int| 0 <= slot < end && self.holds(slot, packet)
    }

    /// The packets held, in the order of their slots, each once.
    pub(crate) fn packets(&self, Ghost(known): Ghost<Set<u32>>) -> (held: Vec<LtPacket>)
        requires
            self.wf(known),
        ensures
            views(held@).to_set() == self@,
            views(held@).no_duplicates(),
    {
        let mut held: Vec<LtPacket> = Vec::new();
        let mut slot: usize = 0;
        while slot < self.slots.len()
            invariant
                slot <= self.slots.len(),
                self.distinct(),
                forall|i: int|
                    0 <= i < held@.len() ==> self.holds_below(
                        slot as int,
                        #[trigger] views(held@)[i],
                    ),
                forall|packet: PacketView| #[trigger]
                    self.holds_below(slot as int, packet) ==> views(held@).contains(packet),
                views(held@).no_duplicates(),
            decreases self.slots.len() - slot,
        {
            let ghost before = held@;
            match &self.slots[slot] {
                Some(packet) => {
                    held.push(packet.clone());
                    proof {
                        assert(self.holds(slot as int, packet@));
                        assert(views(held@)[held@.len() - 1] == packet@);
                        assert forall|i: int| 0 <= i < before.len() implies views(before)[i]
                            != packet@ by {
                            let s = choose|s: int| 0 <= s < slot && self.holds(s, views(before)[i]);
                            assert(self.slots@[s] is Some && self.slots@[slot as int] is Some);
                        }
                        assert forall|i: int, j: int|
                            0 <= i < held@.len() && 0 <= j < held@.len() && i != j implies views(
                            held@,
                        )[i] != views(held@)[j] by {
                            if i < before.len() {
                                assert(views(held@)[i] == views(before)[i]);
                            }
                            if j < before.len() {
                                assert(views(held@)[j] == views(before)[j]);
                            }
                        }
                    }
                },
                None => {},
            }
            proof {
                assert forall|i: int| 0 <= i < held@.len() implies self.holds_below(
                    slot + 1,
                    #[trigger] views(held@)[i],
                ) by {
                    if i < before.len() {
                        assert(views(held@)[i] == views(before)[i]);
                        let s = choose|s: int| 0 <= s < slot && self.holds(s, views(before)[i]);
                        assert(self.holds(s, views(held@)[i]));
                    } else {
                        assert(self.holds(slot as int, views(held@)[i]));
                    }
                }
                assert forall|packet: PacketView| #[trigger]
                    self.holds_below(slot + 1, packet) implies views(held@).contains(packet) by {
                    let s = choose|s: int| 0 <= s < slot + 1 && self.holds(s, packet);
                    if s < slot {
                        assert(self.holds_below(slot as int, packet));
                        let i = choose|i: int| 0 <= i < before.len() && views(before)[i] == packet;
                        assert(views(held@)[i] == packet);
                    } else {
                        assert(views(held@)[held@.len() - 1] == packet);
                    }
                }
            }
            slot += 1;
        }
        proof {
            assert forall|packet: PacketView| self@.contains(packet) <==> views(held@).to_set().contains(
                packet,
            ) by {
                if self@.contains(packet) {
                    let s = choose|s: int| self.holds(s, packet);
                    assert(self.holds_below(slot as int, packet));
                }
                if views(held@).contains(packet) {
                    let i = choose|i: int| 0 <= i < held@.len() && views(held@)[i] == packet;
                    let s = choose|s: int| 0 <= s < slot && self.holds(s, views(held@)[i]);
                    assert(self.holds(s, packet));
                }
            }
            assert(views(held@).to_set() =~= self@);
        }
        held
    }

    /// Emptying a slot keeps the invariant.
    proof fn lemma_emptied(was: StalePool, now: StalePool, slot: int, known: Set<u32>)
        requires
            was.wf(known),
            now.index@ == was.index@,
            0 <= slot < was.slots@.len(),
            now.slots@ == was.slots@.update(slot, None::<LtPacket>),
        ensures
            now.wf(known),
    {
        assert forall|s: int, j: int|
            0 <= s < now.slots@.len() && now.slots@[s] is Some && 0 <= j < now.slot_ids(s).len()
                && !known.contains(#[trigger] now.slot_ids(s)[j]) implies now.listed(
            now.slot_ids(s)[j],
            s,
        ) by {
            let named = now.slot_ids(s)[j];
            assert(was.slots@[s] == now.slots@[s]);
            assert(was.slot_ids(s)[j] == named);
            assert(was.listed(named, s));
            let i = choose|i: int| 0 <= i < was.index@[named]@.len() && was.index@[named]@[i] == s;
            assert(now.index@[named]@[i] == s);
        }
        assert forall|id: u32, i: int|
            now.index@.contains_key(id) && 0 <= i < now.index@[id]@.len() implies (
        #[trigger] now.index@[id]@[i]) < now.slots@.len() by {
            assert(was.index@[id]@[i] < was.slots@.len());
        }
        assert forall|first: int, second: int|
            0 <= first < now.slots@.len() && 0 <= second < now.slots@.len() && first != second && (
            #[trigger] now.slots@[first]) is Some && (#[trigger] now.slots@[second])
                is Some implies now.slots@[first]->Some_0@ != now.slots@[second]->Some_0@ by {
            assert(was.slots@[first] == now.slots@[first]);
            assert(was.slots@[second] == now.slots@[second]);
        }
    }

    /// Once an id is decoded, its list can leave the index.
    proof fn lemma_unlisted(was: StalePool, now: StalePool, id: u32, known: Set<u32>)
        requires
            was.wf(known),
            now.slots@ == was.slots@,
            now.index@ == was.index@.remove(id),
        ensures
            now.wf(known.insert(id)),
    {
        assert forall|s: int, j: int|
            0 <= s < now.slots@.len() && now.slots@[s] is Some && 0 <= j < now.slot_ids(s).len()
                && !known.insert(id).contains(#[trigger] now.slot_ids(s)[j]) implies now.listed(
            now.slot_ids(s)[j],
            s,
        ) by {
            let named = now.slot_ids(s)[j];
            assert(was.slot_ids(s)[j] == named);
            assert(!known.contains(named));
            assert(was.listed(named, s));
            let i = choose|i: int| 0 <= i < was.index@[named]@.len() && was.index@[named]@[i] == s;
            assert(now.index@.contains_key(named));
            assert(now.index@[named]@[i] == s);
        }
        assert forall|other: u32, i: int|
            now.index@.contains_key(other) && 0 <= i < now.index@[other]@.len() implies (
        #[trigger] now.index@[other]@[i]) < now.slots@.len() by {
            assert(was.index@.contains_key(other));
            assert(was.index@[other]@[i] < was.slots@.len());
        }
        assert forall|first: int, second: int|
            0 <= first < now.slots@.len() && 0 <= second < now.slots@.len() && first != second && (
            #[trigger] now.slots@[first]) is Some && (#[trigger] now.slots@[second])
                is Some implies now.slots@[first]->Some_0@ != now.slots@[second]->Some_0@ by {
            assert(was.slots@[first] == now.slots@[first]);
            assert(was.slots@[second] == now.slots@[second]);
        }
    }

    /// A packet that is held and names an id that is not decoded is listed
    /// under that id.
    proof fn lemma_listed(&self, known: Set<u32>, slot: int, id: u32)
        requires
            self.wf(known),
            0 <= slot < self.slots@.len(),
            self.slots@[slot] is Some,
            self.slots@[slot]->Some_0@.ids.contains(id),
            !known.contains(id),
        ensures
            self.index@.contains_key(id),
            exists|k: int| 0 <= k < self.index@[id]@.len() && self.index@[id]@[k] == slot,
    {
        let ids = self.slot_ids(slot);
        let j = choose|j: int| 0 <= j < ids.len() && ids[j] == id;
        assert(self.slot_ids(slot)[j] == id);
        assert(self.listed(id, slot));
    }

    /// The index lists slots of the pool only.
    proof fn lemma_in_bounds(&self, known: Set<u32>, id: u32)
        requires
            self.wf(known),
            self.index@.contains_key(id),
        ensures
            forall|k: int|
                0 <= k < self.index@[id]@.len() ==> (#[trigger] self.index@[id]@[k])
                    < self.slots@.len(),
    {
    }

    /// Looks again at the packets listed under `id`, which has just been
    /// decoded. A packet that still names two unknown ids stays. One that
    /// names exactly one leaves the pool for `fresh`; one that names none
    /// leaves it for good.
    pub(crate) fn release(&mut self, decoded: &HashMap<u32, Block>, id: u32, fresh: &mut Vec<LtPacket>)
        requires
            decoded@.dom().contains(id),
            old(self).wf(decoded@.dom().remove(id)),
            forall|packet: PacketView| #[trigger]
                old(self)@.contains(packet) ==> stalled(decoded@.dom().remove(id), packet),
        ensures
            final(self).wf(decoded@.dom()),
            forall|packet: PacketView| #[trigger]
                final(self)@.contains(packet) <==> old(self)@.contains(packet) && stalled(
                    decoded@.dom(),
                    packet,
                ),
            final(fresh)@.len() >= old(fresh)@.len(),
            final(fresh)@.take(old(fresh)@.len() as int) == old(fresh)@,
            forall|k: int|
                old(fresh)@.len() <= k < final(fresh)@.len() ==> old(self)@.contains(
                    #[trigger] final(fresh)@[k]@,
                ),
            forall|packet: PacketView| #[trigger]
                old(self)@.contains(packet) ==> final(self)@.contains(packet) || spent(
                    decoded@.dom(),
                    packet,
                ) || exists|k: int|
                    old(fresh)@.len() <= k < final(fresh)@.len() && final(fresh)@[k]@ == packet,
    {
        let ghost dom = decoded@.dom();
        let ghost before = dom.remove(id);
        let ghost start = fresh@;
        let ghost old_slots = self.slots@;
        let ghost old_index = self.index@;
        let list = match self.index.remove(&id) {
            Some(list) => list,
            None => Vec::new(),
        };
        proof {
            assert(before.insert(id) =~= dom);
            StalePool::lemma_unlisted(*old(self), *self, id, before);
            assert forall|s: int| 0 <= s < old_slots.len() && (
            #[trigger] self.slots@[s]) is Some implies stalled(dom, self.slots@[s]->Some_0@)
                || exists|k: int| 0 <= k < list@.len() && list@[k] == s by {
                let packet = self.slots@[s]->Some_0@;
                assert(old(self).holds(s, packet));
                assert(old(self)@.contains(packet));
                assert(stalled(before, packet));
                if packet.ids.contains(id) {
                    old(self).lemma_listed(before, s, id);
                    let k = choose|k: int| 0 <= k < old_index[id]@.len() && old_index[id]@[k] == s;
                    assert(list@[k] == s);
                } else {
                    lemma_missing_unnamed(before, id, packet.ids);
                }
            }
            if old_index.contains_key(id) {
                old(self).lemma_in_bounds(before, id);
            }
        }
        let mut i: usize = 0;
        while i < list.len()
            invariant
                i <= list.len(),
                dom == decoded@.dom(),
                self.slots@.len() == old_slots.len(),
                old_slots == old(self).slots@,
                start == old(fresh)@,
                self.wf(dom),
                forall|k: int| 0 <= k < list@.len() ==> (#[trigger] list@[k]) < old_slots.len(),
                forall|s: int|
                    0 <= s < old_slots.len() && (#[trigger] self.slots@[s]) is Some
                        ==> self.slots@[s] == old_slots[s],
                forall|s: int|
                    0 <= s < old_slots.len() && (#[trigger] self.slots@[s]) is Some ==> stalled(
                        dom,
                        self.slots@[s]->Some_0@,
                    ) || exists|k: int| i <= k < list@.len() && list@[k] == s,
                forall|s: int|
                    0 <= s < old_slots.len() && (#[trigger] old_slots[s]) is Some && stalled(
                        dom,
                        old_slots[s]->Some_0@,
                    ) ==> self.slots@[s] == old_slots[s],
                forall|s: int|
                    0 <= s < old_slots.len() && (#[trigger] old_slots[s]) is Some
                        ==> self.slots@[s] == old_slots[s] || spent(dom, old_slots[s]->Some_0@)
                        || exists|k: int|
                        start.len() <= k < fresh@.len() && fresh@[k]@ == old_slots[s]->Some_0@,
                fresh@.len() >= start.len(),
                fresh@.take(start.len() as int) == start,
                forall|k: int|
                    start.len() <= k < fresh@.len() ==> old(self)@.contains(#[trigger] fresh@[k]@),
            decreases list.len() - i,
        {
            let slot = list[i];
            let ghost slots_before = self.slots@;
            let ghost fresh_before = fresh@;
            let ghost was = *self;
            let mut gone = false;
            match &self.slots[slot] {
                Some(packet) => {
                    match scan(decoded, packet.combined_blocks()) {
                        Scan::Stalled { .. } => {},
                        Scan::Single { .. } => {
                            let copy = packet.clone();
                            fresh.push(copy);
                            proof {
                                assert(old(self).holds(slot as int, packet@));
                                assert(fresh@[fresh@.len() - 1]@ == packet@);
                            }
                            gone = true;
                        },
                        Scan::Spent => {
                            gone = true;
                        },
                    }
                },
                None => {},
            }
            if gone {
                self.slots.set(slot, None);
                proof {
                    StalePool::lemma_emptied(was, *self, slot as int, dom);
                }
            }
            proof {
                assert(fresh@.take(start.len() as int) =~= start);
                assert forall|k: int| start.len() <= k < fresh@.len() implies old(self)@.contains(
                    #[trigger] fresh@[k]@,
                ) by {
                    if k < fresh_before.len() {
                        assert(fresh@[k] == fresh_before[k]);
                    }
                }
                assert forall|s: int|
                    0 <= s < old_slots.len() && (#[trigger] self.slots@[s]) is Some implies stalled(
                    dom,
                    self.slots@[s]->Some_0@,
                ) || exists|k: int| i + 1 <= k < list@.len() && list@[k] == s by {
                    assert(slots_before[s] is Some);
                    if !stalled(dom, self.slots@[s]->Some_0@) {
                        let k = choose|k: int| i <= k < list@.len() && list@[k] == s;
                        assert(k != i);
                    }
                }
                assert forall|s: int|
                    0 <= s < old_slots.len() && (#[trigger] old_slots[s]) is Some
                        implies self.slots@[s] == old_slots[s] || spent(
                    dom,
                    old_slots[s]->Some_0@,
                ) || exists|k: int|
                    start.len() <= k < fresh@.len() && fresh@[k]@ == old_slots[s]->Some_0@ by {
                    if s == slot && gone {
                        assert(slots_before[s] == old_slots[s]);
                        if !spent(dom, old_slots[s]->Some_0@) {
                            assert(fresh@[fresh@.len() - 1]@ == old_slots[s]->Some_0@);
                        }
                    } else if slots_before[s] != old_slots[s] && !spent(
                        dom,
                        old_slots[s]->Some_0@,
                    ) {
                        let k = choose|k: int|
                            start.len() <= k < fresh_before.len() && fresh_before[k]@
                                == old_slots[s]->Some_0@;
                        assert(fresh@[k] == fresh_before[k]);
                    }
                }
            }
            i += 1;
        }
        proof {
            assert forall|packet: PacketView| #[trigger]
                self@.contains(packet) <==> old(self)@.contains(packet) && stalled(
                    dom,
                    packet,
                ) by {
                if self@.contains(packet) {
                    let s = choose|s: int| self.holds(s, packet);
                    assert(self.slots@[s] is Some);
                    assert(old(self).holds(s, packet));
                }
                if old(self)@.contains(packet) && stalled(dom, packet) {
                    let s = choose|s: int| old(self).holds(s, packet);
                    assert(old_slots[s] is Some);
                    assert(self.holds(s, packet));
                }
            }
            assert forall|packet: PacketView| #[trigger]
                old(self)@.contains(packet) implies self@.contains(packet) || spent(dom, packet)
                || exists|k: int| start.len() <= k < fresh@.len() && fresh@[k]@ == packet by {
                let s = choose|s: int| old(self).holds(s, packet);
                assert(old_slots[s] is Some);
                if self.slots@[s] == old_slots[s] {
                    assert(self.holds(s, packet));
                }
            }
        }
    }
}

} // verus!
