//! Per-instance symmetric NAT: a bidirectional translation table over an
//! arena of port slots, with a free list fed by reclamation.
use vstd::prelude::*;
use std::collections::HashMap;
use crate::flow::Flow;

verus! {

broadcast use vstd::std_specs::hash::group_hash_axioms;

/// Pack a flow into one integer key: the four fields concatenated.
pub open spec fn spec_encode(f: Flow) -> u128 {
    ((f.src_ip as u128) << 64) | ((f.dst_ip as u128) << 32) | ((f.src_port as u128) << 16) | (
    f.dst_port as u128)
}

proof fn lemma_encode_parts(a1: u32, a2: u32, a3: u16, a4: u16, b1: u32, b2: u32, b3: u16, b4: u16)
    requires
        ((a1 as u128) << 64) | ((a2 as u128) << 32) | ((a3 as u128) << 16) | (a4 as u128) == ((
        b1 as u128) << 64) | ((b2 as u128) << 32) | ((b3 as u128) << 16) | (b4 as u128),
    ensures
        a1 == b1 && a2 == b2 && a3 == b3 && a4 == b4,
{
    assert(((a1 as u128) << 64) | ((a2 as u128) << 32) | ((a3 as u128) << 16) | (a4 as u128) == ((
    b1 as u128) << 64) | ((b2 as u128) << 32) | ((b3 as u128) << 16) | (b4 as u128) ==> a1 == b1
        && a2 == b2 && a3 == b3 && a4 == b4) by (bit_vector);
}

/// The key is one-to-one: equal keys come from equal flows.
pub proof fn lemma_encode_injective(a: Flow, b: Flow)
    requires
        spec_encode(a) == spec_encode(b),
    ensures
        a == b,
{
    lemma_encode_parts(
        a.src_ip,
        a.dst_ip,
        a.src_port,
        a.dst_port,
        b.src_ip,
        b.dst_ip,
        b.src_port,
        b.dst_port,
    );
}

/// Compute the table key of a flow.
pub fn encode_flow(f: &Flow) -> (r: u128)
    ensures
        r == spec_encode(*f),
{
    ((f.src_ip as u128) << 64u128) | ((f.dst_ip as u128) << 32u128) | ((f.src_port as u128)
        << 16u128) | (f.dst_port as u128)
}

/// The translated flow: the original with its source endpoint replaced by
/// the NAT's public address and the allocated port.
pub open spec fn spec_translated(f: Flow, nat_ip: u32, port: u16) -> Flow {
    Flow { src_ip: nat_ip, src_port: port, dst_ip: f.dst_ip, dst_port: f.dst_port }
}

/// One live translation: an original flow bound to a translated flow on an
/// allocated port. `claimed` is set once the distributed coordinator has
/// confirmed that no other instance owns the port; until then the entry is
/// provisional.
#[derive(Clone, Copy, PartialEq, Eq, Structural, Debug)]
pub struct TranslationEntry {
    pub original: Flow,
    pub translated: Flow,
    pub allocated_port: u16,
    pub last_used: u64,
    pub claimed: bool,
}

/// The state of one port slot: unallocated, reserved for a peer instance
/// (seeded from the shared store or after a claim conflict), or bound to a
/// live translation.
#[derive(Clone, Copy, PartialEq, Eq, Structural, Debug)]
pub enum PortState {
    Free,
    Reserved,
    Bound(TranslationEntry),
}

/// The entry of a `Bound` slot.
pub open spec fn slot_entry(s: PortState) -> TranslationEntry
    recommends
        s is Bound,
{
    match s {
        PortState::Bound(e) => e,
        _ => arbitrary(),
    }
}

/// The translation table of one NAT instance. Slot `i` governs port
/// `1024 + i`; `forward` indexes the live slots by their original flow;
/// `free_list` holds the slots returned by reclamation, popped before the
/// cursor (the arena's length) advances.
pub struct NatTable {
    pub nat_ip: u32,
    pub forward: HashMap<u128, u16>,
    pub slots: Vec<PortState>,
    pub free_list: Vec<u16>,
}

impl NatTable {
    /// A reply-shaped flow: addressed to the NAT's own translatable
    /// endpoint range. Only such flows can match a reverse entry; an
    /// unknown flow of this shape is dropped, never allocated, so a
    /// translated endpoint never collides with a client's.
    pub open spec fn is_return_shaped(self, f: Flow) -> bool {
        f.dst_ip == self.nat_ip && 1024 <= f.dst_port < 65535
    }

    /// Every bound slot's entry is consistent with its index and is in
    /// the forward index.
    pub open spec fn wf_slots(self) -> bool {
        forall|i: int|
            0 <= i < self.slots@.len() && self.slots@[i] is Bound ==> {
                let e = slot_entry(#[trigger] self.slots@[i]);
                &&& e.allocated_port == 1024 + i
                &&& e.translated == spec_translated(e.original, self.nat_ip, e.allocated_port)
                &&& !self.is_return_shaped(e.original)
                &&& self.forward@.contains_key(spec_encode(e.original))
                &&& self.forward@[spec_encode(e.original)] == 1024 + i
            }
    }

    /// The forward index points exactly at the bound slots.
    pub open spec fn wf_forward(self) -> bool {
        forall|k: u128|
            #[trigger] self.forward@.contains_key(k) ==> {
                let p = self.forward@[k];
                &&& 1024 <= p < 65535
                &&& p - 1024 < self.slots@.len()
                &&& self.slots@[p - 1024] is Bound
                &&& spec_encode(slot_entry(self.slots@[p - 1024]).original) == k
            }
    }

    /// The free list holds exactly the `Free` slots, each once.
    pub open spec fn wf_free(self) -> bool {
        &&& (forall|j: int|
            0 <= j < self.free_list@.len() ==> (#[trigger] self.free_list@[j]) < self.slots@.len()
                && self.slots@[self.free_list@[j] as int] is Free)
        &&& (forall|i: int|
            0 <= i < self.slots@.len() && self.slots@[i] is Free ==> self.free_list@.contains(
                #[trigger] (i as u16),
            ))
        &&& (forall|j1: int, j2: int|
            0 <= j1 < j2 < self.free_list@.len() ==> self.free_list@[j1] != self.free_list@[j2])
    }

    /// The table invariant.
    pub open spec fn wf(self) -> bool {
        &&& self.slots@.len() <= 64511
        &&& self.wf_slots()
        &&& self.wf_forward()
        &&& self.wf_free()
    }

    /// The original flow of slot `i` is in the forward index.
    pub open spec fn has_forward(self, f: Flow) -> bool {
        self.forward@.contains_key(spec_encode(f))
    }

    /// `f` matches the reverse direction of the entry on its destination
    /// port's slot.
    pub open spec fn has_return(self, f: Flow) -> bool {
        &&& self.is_return_shaped(f)
        &&& f.dst_port - 1024 < self.slots@.len()
        &&& self.slots@[f.dst_port - 1024] is Bound
        &&& slot_entry(self.slots@[f.dst_port - 1024]).translated.spec_reverse() == f
    }

    /// What the table maps `f` to: the translated flow for an original
    /// flow, the reverse of the original for a reply flow. The table holds
    /// both directions of every binding.
    pub open spec fn lookup(self, f: Flow) -> Option<Flow> {
        if self.has_forward(f) {
            Option::Some(slot_entry(self.slots@[self.forward@[spec_encode(f)] - 1024]).translated)
        } else if self.has_return(f) {
            Option::Some(slot_entry(self.slots@[f.dst_port - 1024]).original.spec_reverse())
        } else {
            Option::None
        }
    }

    /// The slot a lookup hit lives in.
    pub open spec fn hit_slot(self, f: Flow) -> int {
        if self.has_forward(f) {
            self.forward@[spec_encode(f)] - 1024
        } else {
            f.dst_port - 1024
        }
    }

    /// A fresh port can be handed out: the free list is non-empty or the
    /// arena has not reached the pool size.
    pub open spec fn can_allocate(self) -> bool {
        self.free_list@.len() > 0 || self.slots@.len() < 64511
    }

    /// The slot the next allocation uses.
    pub open spec fn next_slot(self) -> int {
        if self.free_list@.len() > 0 {
            self.free_list@.last() as int
        } else {
            self.slots@.len() as int
        }
    }

    /// The port the next allocation hands out.
    pub open spec fn next_port(self) -> u16 {
        (1024 + self.next_slot()) as u16
    }

    /// An empty table for the given public address.
    pub fn new(nat_ip: u32) -> (t: NatTable)
        ensures
            t.wf(),
            t.nat_ip == nat_ip,
            t.forward@ == Map::<u128, u16>::empty(),
            t.slots@ == Seq::<PortState>::empty(),
            t.free_list@ == Seq::<u16>::empty(),
    {
        let t = NatTable {
            nat_ip,
            forward: HashMap::new(),
            slots: Vec::new(),
            free_list: Vec::new(),
        };
        proof {
            assert(t.slots@ =~= Seq::<PortState>::empty());
            assert(t.free_list@ =~= Seq::<u16>::empty());
        }
        t
    }
}

/// Unbinding one slot — it leaves `Bound` while its key leaves the
/// forward index — preserves the slot and index invariants, whatever the
/// slot becomes. Shared by invalidation and reclamation.
proof fn lemma_unbind_wf(pre: NatTable, post: NatTable, idx: int)
    requires
        pre.wf(),
        0 <= idx < pre.slots@.len(),
        pre.slots@[idx] is Bound,
        post.nat_ip == pre.nat_ip,
        post.slots@.len() == pre.slots@.len(),
        !(post.slots@[idx] is Bound),
        forall|m: int|
            0 <= m < pre.slots@.len() && m != idx ==> post.slots@[m] == #[trigger] pre.slots@[m],
        post.forward@ == pre.forward@.remove(spec_encode(slot_entry(pre.slots@[idx]).original)),
    ensures
        post.wf_slots(),
        post.wf_forward(),
{
    let key = spec_encode(slot_entry(pre.slots@[idx]).original);
    assert forall|k: u128| #[trigger] post.forward@.contains_key(k) implies {
        let p = post.forward@[k];
        &&& 1024 <= p < 65535
        &&& p - 1024 < post.slots@.len()
        &&& post.slots@[p - 1024] is Bound
        &&& spec_encode(slot_entry(post.slots@[p - 1024]).original) == k
    } by {
        assert(pre.forward@.contains_key(k));
        let p = pre.forward@[k];
        if p - 1024 == idx {
            assert(k == key);
            assert(false);
        }
        assert(post.slots@[p - 1024] == pre.slots@[p - 1024]);
    }
    assert forall|i2: int| 0 <= i2 < post.slots@.len() && post.slots@[i2] is Bound implies {
        let e2 = slot_entry(#[trigger] post.slots@[i2]);
        &&& e2.allocated_port == 1024 + i2
        &&& e2.translated == spec_translated(e2.original, post.nat_ip, e2.allocated_port)
        &&& !post.is_return_shaped(e2.original)
        &&& post.forward@.contains_key(spec_encode(e2.original))
        &&& post.forward@[spec_encode(e2.original)] == 1024 + i2
    } by {
        assert(i2 != idx);
        assert(post.slots@[i2] == pre.slots@[i2]);
        let e2 = slot_entry(pre.slots@[i2]);
        assert(pre.forward@[spec_encode(e2.original)] == 1024 + i2);
        if spec_encode(e2.original) == key {
            assert(pre.forward@[key] == 1024 + idx);
            assert(false);
        }
    }
}

/// A change that touches no bound slot and leaves the forward index as it
/// is preserves the slot and index invariants. Shared by the seeding
/// paths (growing the arena with free slots, reserving a free slot).
proof fn lemma_keep_bound_wf(pre: NatTable, post: NatTable)
    requires
        pre.wf_slots(),
        pre.wf_forward(),
        post.nat_ip == pre.nat_ip,
        post.forward@ == pre.forward@,
        post.slots@.len() >= pre.slots@.len(),
        forall|m: int|
            0 <= m < pre.slots@.len() && pre.slots@[m] is Bound ==> post.slots@[m]
                == #[trigger] pre.slots@[m],
        forall|m: int|
            0 <= m < post.slots@.len() && #[trigger] post.slots@[m] is Bound ==> m
                < pre.slots@.len() && pre.slots@[m] is Bound,
    ensures
        post.wf_slots(),
        post.wf_forward(),
{
    assert forall|k: u128| #[trigger] post.forward@.contains_key(k) implies {
        let p = post.forward@[k];
        &&& 1024 <= p < 65535
        &&& p - 1024 < post.slots@.len()
        &&& post.slots@[p - 1024] is Bound
        &&& spec_encode(slot_entry(post.slots@[p - 1024]).original) == k
    } by {
        let p = pre.forward@[k];
        assert(pre.slots@[p - 1024] is Bound);
        assert(post.slots@[p - 1024] == pre.slots@[p - 1024]);
    }
    assert forall|i2: int| 0 <= i2 < post.slots@.len() && post.slots@[i2] is Bound implies {
        let e2 = slot_entry(#[trigger] post.slots@[i2]);
        &&& e2.allocated_port == 1024 + i2
        &&& e2.translated == spec_translated(e2.original, post.nat_ip, e2.allocated_port)
        &&& !post.is_return_shaped(e2.original)
        &&& post.forward@.contains_key(spec_encode(e2.original))
        &&& post.forward@[spec_encode(e2.original)] == 1024 + i2
    } by {
        assert(pre.slots@[i2] is Bound);
        assert(post.slots@[i2] == pre.slots@[i2]);
    }
}

/// A reply-shaped flow is never a stored original flow.
proof fn lemma_return_shaped_no_forward(t: NatTable, f: Flow)
    requires
        t.wf(),
        t.is_return_shaped(f),
    ensures
        !t.has_forward(f),
{
    if t.has_forward(f) {
        let p = t.forward@[spec_encode(f)];
        let e = slot_entry(t.slots@[p - 1024]);
        lemma_encode_injective(e.original, f);
    }
}

/// What one `translate` call does to the table: the post-state and result
/// in each of the four cases — hit (either direction, timestamp
/// refreshed), unknown reply-shaped flow (dropped, nothing changed),
/// exhausted pool (dropped, nothing changed), and allocation.
pub open spec fn translate_post(
    pre: NatTable,
    post: NatTable,
    flow: Flow,
    now: u64,
    r: Option<Flow>,
) -> bool {
    &&& (pre.lookup(flow) is Some ==> {
        let i = pre.hit_slot(flow);
        &&& r == pre.lookup(flow)
        &&& post.slots@ == pre.slots@.update(
            i,
            PortState::Bound(TranslationEntry { last_used: now, ..slot_entry(pre.slots@[i]) }),
        )
        &&& post.forward@ == pre.forward@
        &&& post.free_list@ == pre.free_list@
    })
    &&& (pre.lookup(flow) is None && pre.is_return_shaped(flow) ==> r is None && post == pre)
    &&& (pre.lookup(flow) is None && !pre.is_return_shaped(flow) && !pre.can_allocate() ==> r
        is None && post == pre)
    &&& (pre.lookup(flow) is None && !pre.is_return_shaped(flow) && pre.can_allocate() ==> {
        let i = pre.next_slot();
        let p = pre.next_port();
        let t = spec_translated(flow, pre.nat_ip, p);
        let e = TranslationEntry {
            original: flow,
            translated: t,
            allocated_port: p,
            last_used: now,
            claimed: false,
        };
        &&& r == Option::Some(t)
        &&& post.slots@ == (if pre.free_list@.len() > 0 {
            pre.slots@.update(i, PortState::Bound(e))
        } else {
            pre.slots@.push(PortState::Bound(e))
        })
        &&& post.forward@ == pre.forward@.insert(spec_encode(flow), p)
        &&& post.free_list@ == (if pre.free_list@.len() > 0 {
            pre.free_list@.drop_last()
        } else {
            pre.free_list@
        })
    })
}

impl NatTable {
    /// Translate one packet's flow, allocating on first sight.
    ///
    /// On a hit in either direction the entry's timestamp is refreshed and
    /// the stored translation returned. On a miss: a reply-shaped flow is
    /// dropped (no binding exists for it); otherwise a port is allocated —
    /// from the free list first, else by advancing the arena — and the
    /// flow is bound both ways, provisionally (`claimed` false) until the
    /// coordinator confirms the port. With the pool exhausted the flow is
    /// dropped, never silently overwritten. `translate_post` states the
    /// post-state and result case by case.
    pub fn translate(&mut self, flow: Flow, now: u64) -> (r: Option<Flow>)
        requires
            old(self).wf(),
        ensures
            final(self).wf(),
            final(self).nat_ip == old(self).nat_ip,
            r is Some ==> final(self).lookup(flow) == r,
            translate_post(*old(self), *final(self), flow, now, r),
    {
        if flow.dst_ip == self.nat_ip && flow.dst_port >= 1024 && flow.dst_port < 65535 {
            proof {
                lemma_return_shaped_no_forward(*self, flow);
            }
            let idx = (flow.dst_port - 1024) as usize;
            if idx < self.slots.len() {
                let st = self.slots[idx];
                match st {
                    PortState::Bound(e) => {
                        let rev = e.translated.reverse_flow();
                        if rev == flow {
                            let e2 = TranslationEntry { last_used: now, ..e };
                            self.slots[idx] = PortState::Bound(e2);
                            return Some(e.original.reverse_flow());
                        } else {
                            return None;
                        }
                    },
                    _ => {
                        return None;
                    },
                }
            } else {
                return None;
            }
        }
        let key = encode_flow(&flow);
        let port_opt: Option<u16> = match self.forward.get(&key) {
            Some(p) => Some(*p),
            None => None,
        };
        match port_opt {
            Some(port) => {
                let idx = (port - 1024) as usize;
                let st = self.slots[idx];
                match st {
                    PortState::Bound(e) => {
                        proof {
                            lemma_encode_injective(e.original, flow);
                        }
                        let e2 = TranslationEntry { last_used: now, ..e };
                        self.slots[idx] = PortState::Bound(e2);
                        return Some(e.translated);
                    },
                    _ => {
                        proof {
                            assert(false);
                        }
                        return None;
                    },
                }
            },
            None => {
                if self.free_list.len() > 0 {
                    let popped = self.free_list.pop();
                    match popped {
                        Some(i) => {
                            let idx = i as usize;
                            let port: u16 = 1024 + i;
                            let t = Flow {
                                src_ip: self.nat_ip,
                                src_port: port,
                                dst_ip: flow.dst_ip,
                                dst_port: flow.dst_port,
                            };
                            let e = TranslationEntry {
                                original: flow,
                                translated: t,
                                allocated_port: port,
                                last_used: now,
                                claimed: false,
                            };
                            self.slots[idx] = PortState::Bound(e);
                            self.forward.insert(key, port);
                            proof {
                                lemma_alloc_wf(*old(self), *self, flow, now, true);
                            }
                            Some(t)
                        },
                        None => {
                            proof {
                                assert(false);
                            }
                            None
                        },
                    }
                } else if self.slots.len() < 64511 {
                    let idx = self.slots.len();
                    let port: u16 = (1024 + idx) as u16;
                    let t = Flow {
                        src_ip: self.nat_ip,
                        src_port: port,
                        dst_ip: flow.dst_ip,
                        dst_port: flow.dst_port,
                    };
                    let e = TranslationEntry {
                        original: flow,
                        translated: t,
                        allocated_port: port,
                        last_used: now,
                        claimed: false,
                    };
                    self.slots.push(PortState::Bound(e));
                    self.forward.insert(key, port);
                    proof {
                        lemma_alloc_wf(*old(self), *self, flow, now, false);
                    }
                    Some(t)
                } else {
                    None
                }
            },
        }
    }
}

/// Allocation preserves the table invariant.
proof fn lemma_alloc_wf(pre: NatTable, post: NatTable, flow: Flow, now: u64, from_free: bool)
    requires
        pre.wf(),
        !pre.is_return_shaped(flow),
        !pre.has_forward(flow),
        pre.can_allocate(),
        from_free <==> pre.free_list@.len() > 0,
        post.nat_ip == pre.nat_ip,
        ({
            let i = pre.next_slot();
            let p = pre.next_port();
            let t = spec_translated(flow, pre.nat_ip, p);
            let e = TranslationEntry {
                original: flow,
                translated: t,
                allocated_port: p,
                last_used: now,
                claimed: false,
            };
            &&& post.slots@ == (if from_free {
                pre.slots@.update(i, PortState::Bound(e))
            } else {
                pre.slots@.push(PortState::Bound(e))
            })
            &&& post.forward@ == pre.forward@.insert(spec_encode(flow), p)
            &&& post.free_list@ == (if from_free {
                pre.free_list@.drop_last()
            } else {
                pre.free_list@
            })
        }),
    ensures
        post.wf(),
{
    let i = pre.next_slot();
    let p = pre.next_port();
    let key = spec_encode(flow);
    assert forall|i2: int| 0 <= i2 < post.slots@.len() && post.slots@[i2] is Bound implies {
        let e2 = slot_entry(#[trigger] post.slots@[i2]);
        &&& e2.allocated_port == 1024 + i2
        &&& e2.translated == spec_translated(e2.original, post.nat_ip, e2.allocated_port)
        &&& !post.is_return_shaped(e2.original)
        &&& post.forward@.contains_key(spec_encode(e2.original))
        &&& post.forward@[spec_encode(e2.original)] == 1024 + i2
    } by {
        if i2 != i {
            assert(post.slots@[i2] == pre.slots@[i2]);
            let e2 = slot_entry(pre.slots@[i2]);
            if spec_encode(e2.original) == key {
                assert(pre.forward@.contains_key(key));
            }
        }
    }
    assert forall|k: u128| #[trigger] post.forward@.contains_key(k) implies {
        let pk = post.forward@[k];
        &&& 1024 <= pk < 65535
        &&& pk - 1024 < post.slots@.len()
        &&& post.slots@[pk - 1024] is Bound
        &&& spec_encode(slot_entry(post.slots@[pk - 1024]).original) == k
    } by {
        if k != key {
            assert(pre.forward@.contains_key(k));
            let pk = pre.forward@[k];
            assert(pre.slots@[pk - 1024] is Bound);
            assert(post.slots@[pk - 1024] == pre.slots@[pk - 1024]);
        }
    }
    assert forall|j: int| 0 <= j < post.free_list@.len() implies (#[trigger] post.free_list@[j])
        < post.slots@.len() && post.slots@[post.free_list@[j] as int] is Free by {
        assert(post.free_list@[j] == pre.free_list@[j]);
        if from_free {
            assert(pre.free_list@[j] != pre.free_list@[pre.free_list@.len() - 1]);
        }
    }
    assert forall|i2: int| 0 <= i2 < post.slots@.len() && post.slots@[i2] is Free implies post
        .free_list@.contains(#[trigger] (i2 as u16)) by {
        assert(i2 != i);
        assert(pre.slots@[i2] is Free);
        assert(pre.free_list@.contains(i2 as u16));
        let j = choose|j: int| 0 <= j < pre.free_list@.len() && pre.free_list@[j] == i2 as u16;
        if from_free {
            assert(j != pre.free_list@.len() - 1);
            assert(post.free_list@[j] == i2 as u16);
        } else {
            assert(post.free_list@[j] == i2 as u16);
        }
    }
}

impl NatTable {
    /// Mark the entry on `port` as confirmed by the coordinator.
    pub fn confirm_claimed(&mut self, port: u16) -> (r: bool)
        requires
            old(self).wf(),
        ensures
            final(self).wf(),
            final(self).nat_ip == old(self).nat_ip,
            r == (1024 <= port < 65535 && port - 1024 < old(self).slots@.len() && old(
                self,
            ).slots@[port - 1024] is Bound),
            r ==> final(self).slots@ == old(self).slots@.update(
                port - 1024,
                PortState::Bound(
                    TranslationEntry {
                        claimed: true,
                        ..slot_entry(old(self).slots@[port - 1024])
                    },
                ),
            ) && final(self).forward@ == old(self).forward@ && final(self).free_list@ == old(
                self,
            ).free_list@,
            !r ==> *final(self) == *old(self),
    {
        if port < 1024 || port >= 65535 {
            return false;
        }
        let idx = (port - 1024) as usize;
        if idx >= self.slots.len() {
            return false;
        }
        let st = self.slots[idx];
        match st {
            PortState::Bound(e) => {
                let e2 = TranslationEntry { claimed: true, ..e };
                self.slots[idx] = PortState::Bound(e2);
                true
            },
            _ => false,
        }
    }

    /// Drop the entry on `port` after a claim conflict: a peer instance
    /// owns the port, so the slot becomes `Reserved` — it will not be
    /// handed out again — and the flow will be re-translated onto a fresh
    /// port by its next packet.
    pub fn invalidate(&mut self, port: u16) -> (r: bool)
        requires
            old(self).wf(),
        ensures
            final(self).wf(),
            final(self).nat_ip == old(self).nat_ip,
            r == (1024 <= port < 65535 && port - 1024 < old(self).slots@.len() && old(
                self,
            ).slots@[port - 1024] is Bound),
            r ==> final(self).slots@ == old(self).slots@.update(port - 1024, PortState::Reserved)
                && final(self).forward@ == old(self).forward@.remove(
                spec_encode(slot_entry(old(self).slots@[port - 1024]).original),
            ) && final(self).free_list@ == old(self).free_list@,
            !r ==> *final(self) == *old(self),
    {
        if port < 1024 || port >= 65535 {
            return false;
        }
        let idx = (port - 1024) as usize;
        if idx >= self.slots.len() {
            return false;
        }
        let st = self.slots[idx];
        match st {
            PortState::Bound(e) => {
                let key = encode_flow(&e.original);
                self.slots[idx] = PortState::Reserved;
                self.forward.remove(&key);
                proof {
                    lemma_unbind_wf(*old(self), *self, idx as int);
                }
                true
            },
            _ => false,
        }
    }
}

/// The entry has sat idle for at least `idle` ticks at time `now`.
pub open spec fn spec_expired(e: TranslationEntry, now: u64, idle: u64) -> bool {
    e.last_used + idle <= now
}

impl NatTable {
    /// Idle-timeout reclamation sweep: every entry idle for at least
    /// `idle` ticks is removed — both directions at once — and its slot
    /// returned to the free list. Returns the reclaimed ports, in
    /// ascending order, so the caller can release their shared-store
    /// bindings.
    pub fn reclaim(&mut self, now: u64, idle: u64) -> (freed: Vec<u16>)
        requires
            old(self).wf(),
        ensures
            final(self).wf(),
            final(self).nat_ip == old(self).nat_ip,
            final(self).slots@.len() == old(self).slots@.len(),
            forall|m: int|
                0 <= m < old(self).slots@.len() ==> final(self).slots@[m] == (if old(
                    self,
                ).slots@[m] is Bound && spec_expired(
                    slot_entry(#[trigger] old(self).slots@[m]),
                    now,
                    idle,
                ) {
                    PortState::Free
                } else {
                    old(self).slots@[m]
                }),
            forall|k: u128|
                #[trigger] final(self).forward@.contains_key(k) <==> (old(
                    self,
                ).forward@.contains_key(k) && !spec_expired(
                    slot_entry(old(self).slots@[old(self).forward@[k] - 1024]),
                    now,
                    idle,
                )),
            forall|k: u128|
                #[trigger] final(self).forward@.contains_key(k) ==> final(self).forward@[k] == old(
                    self,
                ).forward@[k],
            forall|p: u16|
                #[trigger] freed@.contains(p) <==> (1024 <= p < 65535 && p - 1024 < old(
                    self,
                ).slots@.len() && old(self).slots@[p - 1024] is Bound && spec_expired(
                    slot_entry(old(self).slots@[p - 1024]),
                    now,
                    idle,
                )),
            forall|j1: int, j2: int| 0 <= j1 < j2 < freed@.len() ==> freed@[j1] < freed@[j2],
            final(self).free_list@.len() == old(self).free_list@.len() + freed@.len(),
            forall|j: int|
                0 <= j < old(self).free_list@.len() ==> #[trigger] final(self).free_list@[j] == old(
                    self,
                ).free_list@[j],
            forall|j: int|
                0 <= j < freed@.len() ==> final(self).free_list@[old(self).free_list@.len() + j]
                    == #[trigger] freed@[j] - 1024,
    {
        let mut freed: Vec<u16> = Vec::new();
        let mut i: usize = 0;
        while i < self.slots.len()
            invariant
                old(self).wf(),
                self.wf(),
                self.nat_ip == old(self).nat_ip,
                self.slots@.len() == old(self).slots@.len(),
                0 <= i <= self.slots@.len(),
                forall|m: int|
                    0 <= m < i ==> self.slots@[m] == (if old(self).slots@[m] is Bound
                        && spec_expired(slot_entry(#[trigger] old(self).slots@[m]), now, idle) {
                        PortState::Free
                    } else {
                        old(self).slots@[m]
                    }),
                forall|m: int|
                    i <= m < self.slots@.len() ==> #[trigger] self.slots@[m] == old(
                        self,
                    ).slots@[m],
                forall|k: u128|
                    #[trigger] self.forward@.contains_key(k) <==> (old(
                        self,
                    ).forward@.contains_key(k) && !(old(self).forward@[k] - 1024 < i
                        && spec_expired(
                        slot_entry(old(self).slots@[old(self).forward@[k] - 1024]),
                        now,
                        idle,
                    ))),
                forall|k: u128|
                    #[trigger] self.forward@.contains_key(k) ==> self.forward@[k] == old(
                        self,
                    ).forward@[k],
                forall|p: u16|
                    #[trigger] freed@.contains(p) <==> (1024 <= p && p - 1024 < i && old(
                        self,
                    ).slots@[p - 1024] is Bound && spec_expired(
                        slot_entry(old(self).slots@[p - 1024]),
                        now,
                        idle,
                    )),
                forall|j1: int, j2: int| 0 <= j1 < j2 < freed@.len() ==> freed@[j1] < freed@[j2],
                forall|j: int| 0 <= j < freed@.len() ==> #[trigger] freed@[j] - 1024 < i,
                self.free_list@.len() == old(self).free_list@.len() + freed@.len(),
                forall|j: int|
                    0 <= j < old(self).free_list@.len() ==> #[trigger] self.free_list@[j] == old(
                        self,
                    ).free_list@[j],
                forall|j: int|
                    0 <= j < freed@.len() ==> self.free_list@[old(self).free_list@.len() + j]
                        == #[trigger] freed@[j] - 1024,
            decreases self.slots@.len() - i,
        {
            let st = self.slots[i];
            match st {
                PortState::Bound(e) => {
                    if e.last_used <= now && now - e.last_used >= idle {
                        let key = encode_flow(&e.original);
                        let ghost pre = *self;
                        let ghost freed_pre = freed@;
                        self.slots[i] = PortState::Free;
                        self.forward.remove(&key);
                        self.free_list.push(i as u16);
                        freed.push(e.allocated_port);
                        proof {
                            let post = *self;
                            assert(e.allocated_port == 1024 + i);
                            lemma_unbind_wf(pre, post, i as int);
                            assert forall|j: int| 0 <= j < post.free_list@.len() implies (
                            #[trigger] post.free_list@[j]) < post.slots@.len()
                                && post.slots@[post.free_list@[j] as int] is Free by {
                                if j < pre.free_list@.len() {
                                    assert(pre.free_list@[j] < pre.slots@.len());
                                    assert(pre.slots@[pre.free_list@[j] as int] is Free);
                                    assert(pre.free_list@[j] != i as u16);
                                } else {
                                    assert(post.free_list@[j] == i as u16);
                                }
                            }
                            assert forall|i2: int|
                                0 <= i2 < post.slots@.len() && post.slots@[i2] is Free implies post
                                .free_list@.contains(#[trigger] (i2 as u16)) by {
                                if i2 != i {
                                    assert(pre.slots@[i2] is Free);
                                    let j = choose|j: int|
                                        0 <= j < pre.free_list@.len() && pre.free_list@[j]
                                            == i2 as u16;
                                    assert(post.free_list@[j] == i2 as u16);
                                } else {
                                    assert(post.free_list@[post.free_list@.len() - 1]
                                        == i2 as u16);
                                }
                            }
                            assert forall|j1: int, j2: int|
                                0 <= j1 < j2 < post.free_list@.len() implies post.free_list@[j1]
                                != post.free_list@[j2] by {
                                if j2 == post.free_list@.len() - 1 {
                                    assert(pre.free_list@[j1] != i as u16);
                                }
                            }
                            assert(freed@ == freed_pre.push(e.allocated_port));
                            assert forall|p: u16| #[trigger] freed@.contains(p) implies (1024 <= p
                                && p - 1024 < i + 1 && old(self).slots@[p - 1024] is Bound
                                && spec_expired(
                                slot_entry(old(self).slots@[p - 1024]),
                                now,
                                idle,
                            )) by {
                                let j = choose|j: int|
                                    0 <= j < freed@.len() && freed@[j] == p;
                                if j < freed@.len() - 1 {
                                    assert(freed_pre[j] == p);
                                    assert(freed_pre.contains(p));
                                } else {
                                    assert(p == e.allocated_port);
                                }
                            }
                            assert(freed@[freed@.len() - 1] == e.allocated_port);
                            assert(freed@.contains(e.allocated_port));
                            assert forall|p: u16| (1024 <= p && p - 1024 < i + 1 && old(
                                self,
                            ).slots@[p - 1024] is Bound && spec_expired(
                                slot_entry(old(self).slots@[p - 1024]),
                                now,
                                idle,
                            )) implies #[trigger] freed@.contains(p) by {
                                if p - 1024 < i {
                                    assert(freed_pre.contains(p));
                                    let j = choose|j: int|
                                        0 <= j < freed_pre.len() && freed_pre[j] == p;
                                    assert(freed@[j] == p);
                                }
                            }
                        }
                    }
                },
                _ => {},
            }
            i = i + 1;
        }
        freed
    }
}

impl NatTable {
    /// Take `port` out of circulation because a peer instance owns it:
    /// used at startup to seed the table from the shared store's bindings,
    /// so a restarted instance does not re-claim ports already owned by
    /// peers. Grows the arena up to the port's slot if needed; a slot
    /// already bound locally is left as it is (the claim path settles the
    /// conflict). Returns whether `port` lies in the translatable range.
    pub fn seed_reserved(&mut self, port: u16) -> (r: bool)
        requires
            old(self).wf(),
        ensures
            final(self).wf(),
            final(self).nat_ip == old(self).nat_ip,
            r == (1024 <= port < 65535),
            !r ==> *final(self) == *old(self),
            r ==> {
                let idx = port - 1024;
                &&& final(self).slots@.len() == (if idx + 1 > old(self).slots@.len() {
                    idx + 1
                } else {
                    old(self).slots@.len() as int
                })
                &&& final(self).forward@ == old(self).forward@
                &&& (forall|m: int|
                    0 <= m < final(self).slots@.len() ==> final(self).slots@[m] == (if m == idx
                        && (m >= old(self).slots@.len() || old(self).slots@[m] is Free) {
                        PortState::Reserved
                    } else if m < old(self).slots@.len() {
                        old(self).slots@[m]
                    } else {
                        PortState::Free
                    }))
            },
    {
        if port < 1024 || port >= 65535 {
            return false;
        }
        let idx = (port - 1024) as usize;
        while self.slots.len() <= idx
            invariant
                old(self).wf(),
                self.wf(),
                idx <= 64510,
                self.nat_ip == old(self).nat_ip,
                self.forward@ == old(self).forward@,
                old(self).slots@.len() <= self.slots@.len(),
                self.slots@.len() <= idx + 1 || self.slots@.len() == old(self).slots@.len(),
                forall|m: int|
                    0 <= m < self.slots@.len() ==> #[trigger] self.slots@[m] == (if m < old(
                        self,
                    ).slots@.len() {
                        old(self).slots@[m]
                    } else {
                        PortState::Free
                    }),
            decreases idx + 1 - self.slots@.len(),
        {
            let n = self.slots.len() as u16;
            let ghost pre = *self;
            self.slots.push(PortState::Free);
            self.free_list.push(n);
            proof {
                let post = *self;
                assert forall|m: int|
                    0 <= m < post.slots@.len() && #[trigger] post.slots@[m] is Bound implies m
                    < pre.slots@.len() && pre.slots@[m] is Bound by {
                    assert(m != pre.slots@.len());
                }
                lemma_keep_bound_wf(pre, post);
                assert forall|i2: int|
                    0 <= i2 < post.slots@.len() && post.slots@[i2] is Free implies post
                    .free_list@.contains(#[trigger] (i2 as u16)) by {
                    if i2 < pre.slots@.len() {
                        assert(pre.slots@[i2] is Free);
                        assert(pre.free_list@.contains(i2 as u16));
                        let j = choose|j: int|
                            0 <= j < pre.free_list@.len() && pre.free_list@[j] == i2 as u16;
                        assert(post.free_list@[j] == i2 as u16);
                    } else {
                        assert(post.free_list@[post.free_list@.len() - 1] == i2 as u16);
                    }
                }
                assert forall|j1: int, j2: int|
                    0 <= j1 < j2 < post.free_list@.len() implies post.free_list@[j1]
                    != post.free_list@[j2] by {
                    if j2 == post.free_list@.len() - 1 {
                        assert(pre.free_list@[j1] < pre.slots@.len());
                    }
                }
            }
        }
        let st = self.slots[idx];
        match st {
            PortState::Free => {
                let mut pos: usize = 0;
                let target: u16 = port - 1024;
                while pos < self.free_list.len() && self.free_list[pos] != target
                    invariant
                        0 <= pos <= self.free_list@.len(),
                        target == idx as u16,
                        forall|m: int| 0 <= m < pos ==> self.free_list@[m] != target,
                    decreases self.free_list@.len() - pos,
                {
                    pos = pos + 1;
                }
                proof {
                    assert(self.free_list@.contains(idx as u16));
                    let j = choose|j: int|
                        0 <= j < self.free_list@.len() && self.free_list@[j] == idx as u16;
                    assert(j >= pos);
                    assert(pos < self.free_list@.len());
                }
                let ghost pre = *self;
                self.free_list.remove(pos);
                self.slots[idx] = PortState::Reserved;
                proof {
                    let post = *self;
                    assert(pre.free_list@[pos as int] == idx as u16);
                    assert forall|m: int|
                        0 <= m < post.slots@.len() && #[trigger] post.slots@[m] is Bound implies m
                        < pre.slots@.len() && pre.slots@[m] is Bound by {
                        assert(m != idx);
                    }
                    lemma_keep_bound_wf(pre, post);
                    assert forall|j: int| 0 <= j < post.free_list@.len() implies (#[trigger] post
                        .free_list@[j]) < post.slots@.len()
                        && post.slots@[post.free_list@[j] as int] is Free by {
                        if j < pos {
                            assert(post.free_list@[j] == pre.free_list@[j]);
                            assert(pre.free_list@[j] != idx as u16);
                        } else {
                            assert(post.free_list@[j] == pre.free_list@[j + 1]);
                            assert(pre.free_list@[j + 1] != pre.free_list@[pos as int]);
                        }
                    }
                    assert forall|i2: int|
                        0 <= i2 < post.slots@.len() && post.slots@[i2] is Free implies post
                        .free_list@.contains(#[trigger] (i2 as u16)) by {
                        assert(i2 != idx);
                        assert(pre.slots@[i2] is Free);
                        let j = choose|j: int|
                            0 <= j < pre.free_list@.len() && pre.free_list@[j] == i2 as u16;
                        assert(j != pos);
                        if j < pos {
                            assert(post.free_list@[j] == i2 as u16);
                        } else {
                            assert(post.free_list@[j - 1] == i2 as u16);
                        }
                    }
                    assert forall|j1: int, j2: int|
                        0 <= j1 < j2 < post.free_list@.len() implies post.free_list@[j1]
                        != post.free_list@[j2] by {
                        let k1: int = if j1 < pos {
                            j1
                        } else {
                            j1 + 1
                        };
                        let k2: int = if j2 < pos {
                            j2
                        } else {
                            j2 + 1
                        };
                        assert(post.free_list@[j1] == pre.free_list@[k1]);
                        assert(post.free_list@[j2] == pre.free_list@[k2]);
                    }
                }
                true
            },
            _ => true,
        }
    }
}

/// No two live entries of one table hold the same allocated port.
pub proof fn lemma_ports_unique(t: NatTable, i: int, j: int)
    requires
        t.wf(),
        0 <= i < t.slots@.len(),
        0 <= j < t.slots@.len(),
        t.slots@[i] is Bound,
        t.slots@[j] is Bound,
        slot_entry(t.slots@[i]).allocated_port == slot_entry(t.slots@[j]).allocated_port,
    ensures
        i == j,
{
}

/// NAT round trip: whatever the table translates `f` to, it translates the
/// reply flow `reverse(t)` back to `reverse(f)`.
pub proof fn lemma_nat_round_trip(t: NatTable, f: Flow, tr: Flow)
    requires
        t.wf(),
        t.lookup(f) == Option::Some(tr),
    ensures
        t.lookup(tr.spec_reverse()) == Option::Some(f.spec_reverse()),
{
    if t.has_forward(f) {
        let p = t.forward@[spec_encode(f)];
        let e = slot_entry(t.slots@[p - 1024]);
        lemma_encode_injective(e.original, f);
        assert(tr == e.translated);
        let back = tr.spec_reverse();
        assert(t.is_return_shaped(back));
        lemma_return_shaped_no_forward(t, back);
        assert(back.dst_port - 1024 == p - 1024);
        assert(t.has_return(back));
        crate::flow::lemma_reverse_involution(tr);
        assert(t.lookup(back) == Option::Some(e.original.spec_reverse()));
        assert(e.original == f);
    } else {
        assert(t.has_return(f));
        let s = f.dst_port - 1024;
        let e = slot_entry(t.slots@[s]);
        assert(tr == e.original.spec_reverse());
        crate::flow::lemma_reverse_involution(e.original);
        assert(tr.spec_reverse() == e.original);
        assert(t.has_forward(e.original));
        assert(t.forward@[spec_encode(e.original)] == 1024 + s);
        assert(t.lookup(tr.spec_reverse()) == Option::Some(e.translated));
        crate::flow::lemma_reverse_involution(e.translated);
        assert(f.spec_reverse() == e.translated);
    }
}

} // verus!
