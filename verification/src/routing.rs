//! Dispatcher routing: per-road FIFO queues and registered dispatchers.
//!
//! Every submitted ticket is either buffered in its road's queue or, when
//! a dispatcher serves the road, moved to the road's outbox, from which
//! the caller hands tickets to that dispatcher's connection, oldest
//! first. Registration drains a road's queue, in order, into its outbox;
//! unregistration puts unsent outbox tickets back as the queue. The
//! module keeps, for each road, the whole submission history and the
//! delivered prefix, and its invariant states first-in first-out
//! delivery: the history is exactly the delivered tickets, then the
//! in-flight outbox, then the queue, in order.

use crate::engine::{clone_ticket, tickets_view};
use crate::msg::{Ticket, TicketV};
use vstd::prelude::*;

verus! {

/// A registered dispatcher: its identity and the roads it serves.
pub struct DispatcherHandle {
    pub id: u64,
    pub roads: Vec<u16>,
}

/// The view of a dispatcher handle.
#[verifier::ext_equal]
pub struct HandleV {
    pub id: u64,
    pub roads: Seq<u16>,
}

impl View for DispatcherHandle {
    type V = HandleV;

    open spec fn view(&self) -> HandleV {
        HandleV { id: self.id, roads: self.roads@ }
    }
}

/// One road's routing state: the dispatcher serving it, if any, the
/// tickets assigned to that dispatcher but not yet sent, and the
/// tickets waiting for a dispatcher.
pub struct RoadEntry {
    pub road: u16,
    pub queue: Vec<Ticket>,
    pub outbox: Vec<Ticket>,
    pub holder: Option<u64>,
}

/// The view of a road entry.
#[verifier::ext_equal]
pub struct RoadV {
    pub road: u16,
    pub queue: Seq<TicketV>,
    pub outbox: Seq<TicketV>,
    pub holder: Option<u64>,
}

impl View for RoadEntry {
    type V = RoadV;

    open spec fn view(&self) -> RoadV {
        RoadV {
            road: self.road,
            queue: tickets_view(self.queue@),
            outbox: tickets_view(self.outbox@),
            holder: self.holder,
        }
    }
}

/// Routes tickets to dispatchers, road by road, first in first out.
pub struct Routing {
    roads: Vec<RoadEntry>,
    dispatchers: Vec<DispatcherHandle>,
    history: Ghost<Map<u16, Seq<TicketV>>>,
    delivered: Ghost<Map<u16, Seq<TicketV>>>,
}

impl Routing {
    /// The per-road states.
    pub closed spec fn spec_roads(&self) -> Seq<RoadV> {
        self.roads@.map_values(|e: RoadEntry| e@)
    }

    /// The registered dispatchers, in registration order.
    pub closed spec fn spec_dispatchers(&self) -> Seq<HandleV> {
        self.dispatchers@.map_values(|d: DispatcherHandle| d@)
    }

    /// Every ticket ever submitted for `road`, in submission order.
    pub closed spec fn history_of(&self, road: u16) -> Seq<TicketV> {
        if self.history@.dom().contains(road) {
            self.history@[road]
        } else {
            Seq::empty()
        }
    }

    /// Every ticket handed out for `road`, in the order handed out.
    pub closed spec fn delivered_of(&self, road: u16) -> Seq<TicketV> {
        if self.delivered@.dom().contains(road) {
            self.delivered@[road]
        } else {
            Seq::empty()
        }
    }

    /// The index of `road` in the per-road states, if present.
    pub open spec fn road_index(&self, road: u16) -> Option<int> {
        if exists|i: int| 0 <= i < self.spec_roads().len() && self.spec_roads()[i].road == road {
            Option::Some(
                choose|i: int|
                    0 <= i < self.spec_roads().len() && self.spec_roads()[i].road == road,
            )
        } else {
            Option::None
        }
    }

    /// The index of dispatcher `id`, if registered.
    pub open spec fn dispatcher_index(&self, id: u64) -> Option<int> {
        if exists|j: int|
            0 <= j < self.spec_dispatchers().len() && self.spec_dispatchers()[j].id == id {
            Option::Some(
                choose|j: int|
                    0 <= j < self.spec_dispatchers().len() && self.spec_dispatchers()[j].id == id,
            )
        } else {
            Option::None
        }
    }

    /// The dispatcher serving `road`, if any.
    pub open spec fn holder_of(&self, road: u16) -> Option<u64> {
        match self.road_index(road) {
            Option::Some(i) => self.spec_roads()[i].holder,
            Option::None => Option::None,
        }
    }

    /// The pending queue of `road`; a road never submitted to has none.
    pub open spec fn queue_of(&self, road: u16) -> Seq<TicketV> {
        match self.road_index(road) {
            Option::Some(i) => self.spec_roads()[i].queue,
            Option::None => Seq::empty(),
        }
    }

    /// The tickets of `road` assigned to its dispatcher and not yet sent.
    pub open spec fn inflight_of(&self, road: u16) -> Seq<TicketV> {
        match self.road_index(road) {
            Option::Some(i) => self.spec_roads()[i].outbox,
            Option::None => Seq::empty(),
        }
    }

    /// The roads dispatcher `id` serves.
    pub open spec fn roads_of(&self, id: u64) -> Seq<u16> {
        match self.dispatcher_index(id) {
            Option::Some(j) => self.spec_dispatchers()[j].roads,
            Option::None => Seq::empty(),
        }
    }

    /// The routing invariant. Roads and dispatcher identities are
    /// unique; a holder is a registered dispatcher serving the road; a
    /// held road has an empty queue; an unheld road has an empty outbox;
    /// every subscribed road is held; queued tickets lie on their road;
    /// and per road, history is the delivered tickets, then the outbox,
    /// then the queue.
    pub open spec fn wf(&self) -> bool {
        &&& forall|i: int, j: int|
            0 <= i < j < self.spec_roads().len() ==> (#[trigger] self.spec_roads()[i]).road != (
            #[trigger] self.spec_roads()[j]).road
        &&& forall|i: int, j: int|
            0 <= i < j < self.spec_dispatchers().len() ==> (
            #[trigger] self.spec_dispatchers()[i]).id != (
            #[trigger] self.spec_dispatchers()[j]).id
        &&& forall|i: int|
            0 <= i < self.spec_roads().len() && (#[trigger] self.spec_roads()[i]).holder is Some
                ==> (self.dispatcher_index(self.spec_roads()[i].holder->0) matches Option::Some(j)
                && self.spec_dispatchers()[j].roads.contains(self.spec_roads()[i].road))
        &&& forall|i: int|
            0 <= i < self.spec_roads().len() && (#[trigger] self.spec_roads()[i]).holder is Some
                ==> self.spec_roads()[i].queue.len() == 0
        &&& forall|i: int|
            0 <= i < self.spec_roads().len() && (#[trigger] self.spec_roads()[i]).holder is None
                ==> self.spec_roads()[i].outbox.len() == 0
        &&& forall|j: int, k: int|
            #![trigger self.spec_dispatchers()[j].roads[k]]
            0 <= j < self.spec_dispatchers().len() && 0 <= k
                < self.spec_dispatchers()[j].roads.len() ==> self.holder_of(
                self.spec_dispatchers()[j].roads[k],
            ) is Some
        &&& forall|i: int, k: int|
            #![trigger self.spec_roads()[i].queue[k]]
            0 <= i < self.spec_roads().len() && 0 <= k
                < self.spec_roads()[i].queue.len() ==> self.spec_roads()[i].queue[k].road
                == self.spec_roads()[i].road
        &&& forall|i: int, k: int|
            #![trigger self.spec_roads()[i].outbox[k]]
            0 <= i < self.spec_roads().len() && 0 <= k
                < self.spec_roads()[i].outbox.len() ==> self.spec_roads()[i].outbox[k].road
                == self.spec_roads()[i].road
        &&& forall|road: u16|
            #![trigger self.history_of(road)]
            self.history_of(road) == self.delivered_of(road) + self.inflight_of(road)
                + self.queue_of(road)
        &&& forall|road: u16|
            #![trigger self.queue_of(road)]
            self.road_index(road) is None ==> self.history_of(road) == Seq::<TicketV>::empty()
                && self.delivered_of(road) == Seq::<TicketV>::empty()
    }

    /// Routing with no roads, no dispatchers, and no history.
    pub fn new() -> (r: Routing)
        ensures
            r.wf(),
            r.spec_roads() == Seq::<RoadV>::empty(),
            r.spec_dispatchers() == Seq::<HandleV>::empty(),
            forall|road: u16| r.history_of(road) == Seq::<TicketV>::empty(),
            forall|road: u16| r.delivered_of(road) == Seq::<TicketV>::empty(),
            forall|road: u16| r.holder_of(road) is None,
            forall|road: u16| r.queue_of(road) == Seq::<TicketV>::empty(),
            forall|road: u16| r.inflight_of(road) == Seq::<TicketV>::empty(),
            forall|id: u64| r.dispatcher_index(id) is None,
    {
        let r = Routing {
            roads: Vec::new(),
            dispatchers: Vec::new(),
            history: Ghost(Map::empty()),
            delivered: Ghost(Map::empty()),
        };
        proof {
            assert(r.spec_roads() =~= Seq::<RoadV>::empty());
            assert(r.spec_dispatchers() =~= Seq::<HandleV>::empty());
            assert forall|road: u16|
                #![trigger r.history_of(road)]
                r.history_of(road) == r.delivered_of(road) + r.inflight_of(road) + r.queue_of(
                    road,
                ) by {
                assert(r.delivered_of(road) + r.inflight_of(road) + r.queue_of(road)
                    =~= Seq::<TicketV>::empty());
            }
        }
        r
    }

    /// With equal dispatcher identities in equal order, lookups by
    /// identity agree.
    proof fn lemma_dispatcher_index_same(a: Routing, b: Routing)
        requires
            b.spec_dispatchers().len() == a.spec_dispatchers().len(),
            forall|j: int|
                0 <= j < a.spec_dispatchers().len() ==> (#[trigger] b.spec_dispatchers()[j]).id
                    == a.spec_dispatchers()[j].id,
            forall|i: int, j: int|
                0 <= i < j < a.spec_dispatchers().len() ==> (
                #[trigger] a.spec_dispatchers()[i]).id != (#[trigger] a.spec_dispatchers()[j]).id,
        ensures
            forall|id: u64| #[trigger] b.dispatcher_index(id) == a.dispatcher_index(id),
    {
        assert forall|id: u64| #[trigger] b.dispatcher_index(id) == a.dispatcher_index(id) by {
            if exists|j: int|
                0 <= j < a.spec_dispatchers().len() && a.spec_dispatchers()[j].id == id {
                let j = choose|j: int|
                    0 <= j < a.spec_dispatchers().len() && a.spec_dispatchers()[j].id == id;
                assert(b.spec_dispatchers()[j].id == id);
                let jb = choose|k: int|
                    0 <= k < b.spec_dispatchers().len() && b.spec_dispatchers()[k].id == id;
                assert(a.spec_dispatchers()[jb].id == id);
                if j < jb {
                    assert(a.spec_dispatchers()[j].id != a.spec_dispatchers()[jb].id);
                } else if jb < j {
                    assert(a.spec_dispatchers()[jb].id != a.spec_dispatchers()[j].id);
                }
            } else {
                if exists|k: int|
                    0 <= k < b.spec_dispatchers().len() && b.spec_dispatchers()[k].id == id {
                    let k = choose|k: int|
                        0 <= k < b.spec_dispatchers().len() && b.spec_dispatchers()[k].id == id;
                    assert(a.spec_dispatchers()[k].id == id);
                }
            }
        }
    }

    /// With equal road keys in equal order, lookups by road agree.
    proof fn lemma_road_index_same(a: Routing, b: Routing)
        requires
            b.spec_roads().len() == a.spec_roads().len(),
            forall|i: int|
                0 <= i < a.spec_roads().len() ==> (#[trigger] b.spec_roads()[i]).road
                    == a.spec_roads()[i].road,
            forall|i: int, j: int|
                0 <= i < j < a.spec_roads().len() ==> (#[trigger] a.spec_roads()[i]).road != (
                #[trigger] a.spec_roads()[j]).road,
        ensures
            forall|r: u16| #[trigger] b.road_index(r) == a.road_index(r),
    {
        assert forall|r: u16| #[trigger] b.road_index(r) == a.road_index(r) by {
            if exists|i: int| 0 <= i < a.spec_roads().len() && a.spec_roads()[i].road == r {
                let i = choose|i: int|
                    0 <= i < a.spec_roads().len() && a.spec_roads()[i].road == r;
                assert(b.spec_roads()[i].road == r);
                let ib = choose|k: int|
                    0 <= k < b.spec_roads().len() && b.spec_roads()[k].road == r;
                assert(a.spec_roads()[ib].road == r);
                if i < ib {
                    assert(a.spec_roads()[i].road != a.spec_roads()[ib].road);
                } else if ib < i {
                    assert(a.spec_roads()[ib].road != a.spec_roads()[i].road);
                }
            } else {
                if exists|k: int| 0 <= k < b.spec_roads().len() && b.spec_roads()[k].road == r {
                    let k = choose|k: int|
                        0 <= k < b.spec_roads().len() && b.spec_roads()[k].road == r;
                    assert(a.spec_roads()[k].road == r);
                }
            }
        }
    }

    /// After appending an entry for a fresh road, lookups of other
    /// roads agree, and the fresh road finds the new entry.
    proof fn lemma_road_index_push(a: Routing, b: Routing, road: u16)
        requires
            b.spec_roads().len() == a.spec_roads().len() + 1,
            forall|i: int|
                0 <= i < a.spec_roads().len() ==> #[trigger] b.spec_roads()[i]
                    == a.spec_roads()[i],
            b.spec_roads().last().road == road,
            a.road_index(road) is None,
            forall|i: int, j: int|
                0 <= i < j < a.spec_roads().len() ==> (#[trigger] a.spec_roads()[i]).road != (
                #[trigger] a.spec_roads()[j]).road,
        ensures
            forall|r: u16| r != road ==> #[trigger] b.road_index(r) == a.road_index(r),
            b.road_index(road) == Option::Some(a.spec_roads().len() as int),
            forall|i: int, j: int|
                0 <= i < j < b.spec_roads().len() ==> (#[trigger] b.spec_roads()[i]).road != (
                #[trigger] b.spec_roads()[j]).road,
    {
        let n = a.spec_roads().len() as int;
        assert forall|i: int| 0 <= i < n implies (#[trigger] a.spec_roads()[i]).road != road by {
            if a.spec_roads()[i].road == road {
                assert(a.road_index(road) is Some);
            }
        }
        assert(b.spec_roads()[n].road == road);
        let ib = choose|k: int| 0 <= k < b.spec_roads().len() && b.spec_roads()[k].road == road;
        assert(b.road_index(road) == Option::Some(ib));
        if ib < n {
            assert(a.spec_roads()[ib].road == road);
        }
        assert forall|r: u16| r != road implies #[trigger] b.road_index(r) == a.road_index(r) by {
            if exists|i: int| 0 <= i < a.spec_roads().len() && a.spec_roads()[i].road == r {
                let i = choose|i: int|
                    0 <= i < a.spec_roads().len() && a.spec_roads()[i].road == r;
                assert(b.spec_roads()[i].road == r);
                let k = choose|k: int|
                    0 <= k < b.spec_roads().len() && b.spec_roads()[k].road == r;
                assert(k != n);
                assert(a.spec_roads()[k].road == r);
                if i < k {
                    assert(a.spec_roads()[i].road != a.spec_roads()[k].road);
                } else if k < i {
                    assert(a.spec_roads()[k].road != a.spec_roads()[i].road);
                }
            } else {
                if exists|k: int| 0 <= k < b.spec_roads().len() && b.spec_roads()[k].road == r {
                    let k = choose|k: int|
                        0 <= k < b.spec_roads().len() && b.spec_roads()[k].road == r;
                    assert(k != n);
                    assert(a.spec_roads()[k].road == r);
                }
            }
        }
    }

    /// Submitting onto a fresh road entry preserves the invariant.
    proof fn lemma_submit_new_entry(a: Routing, b: Routing, t: TicketV)
        requires
            a.wf(),
            a.road_index(t.road) is None,
            b.spec_roads() == a.spec_roads().push(
                RoadV {
                    road: t.road,
                    queue: seq![t],
                    outbox: Seq::empty(),
                    holder: Option::None,
                },
            ),
            b.spec_dispatchers() == a.spec_dispatchers(),
            b.history@ == a.history@.insert(t.road, a.history_of(t.road).push(t)),
            b.delivered@ == a.delivered@,
        ensures
            b.wf(),
            b.history_of(t.road) == a.history_of(t.road).push(t),
            forall|r: u16| r != t.road ==> b.history_of(r) == a.history_of(r),
            forall|r: u16| b.delivered_of(r) == a.delivered_of(r),
            forall|r: u16| b.holder_of(r) == a.holder_of(r),
            b.queue_of(t.road) == a.queue_of(t.road).push(t),
            forall|r: u16| r != t.road ==> b.queue_of(r) == a.queue_of(r),
            forall|r: u16| b.inflight_of(r) == a.inflight_of(r),
    {
        let n = a.spec_roads().len() as int;
        Self::lemma_road_index_push(a, b, t.road);
        assert(b.queue_of(t.road) =~= a.queue_of(t.road).push(t));
        assert forall|r: u16| r != t.road implies b.holder_of(r) == a.holder_of(r)
            && b.queue_of(r) == a.queue_of(r) && b.inflight_of(r) == a.inflight_of(r) by {
            assert(b.road_index(r) == a.road_index(r));
            if a.road_index(r) is Some {
                let i = a.road_index(r)->0;
                assert(b.spec_roads()[i] == a.spec_roads()[i]);
            }
        }
        assert(b.holder_of(t.road) == a.holder_of(t.road));
        assert(b.inflight_of(t.road) =~= a.inflight_of(t.road));
        assert forall|road: u16|
            #![trigger b.history_of(road)]
            b.history_of(road) == b.delivered_of(road) + b.inflight_of(road) + b.queue_of(
                road,
            ) by {
            if road == t.road {
                assert(a.history_of(road) == Seq::<TicketV>::empty());
                assert(a.delivered_of(road) == Seq::<TicketV>::empty());
                assert(b.history_of(road) =~= Seq::<TicketV>::empty().push(t));
                assert(b.delivered_of(road) + b.inflight_of(road) + b.queue_of(road)
                    =~= Seq::<TicketV>::empty().push(t));
            } else {
                assert(b.history_of(road) == a.history_of(road));
                assert(a.history_of(road) == a.delivered_of(road) + a.inflight_of(road)
                    + a.queue_of(road));
            }
        }
        assert forall|road: u16|
            #![trigger b.queue_of(road)]
            b.road_index(road) is None implies b.history_of(road) == Seq::<TicketV>::empty()
            && b.delivered_of(road) == Seq::<TicketV>::empty() by {
            assert(road != t.road);
            assert(b.road_index(road) == a.road_index(road));
        }
        assert forall|i: int|
            0 <= i < b.spec_roads().len() && (#[trigger] b.spec_roads()[i]).holder
                is Some implies (b.dispatcher_index(b.spec_roads()[i].holder->0) matches
        Option::Some(j) && b.spec_dispatchers()[j].roads.contains(b.spec_roads()[i].road)) by {
            assert(i < n);
            assert(b.spec_roads()[i] == a.spec_roads()[i]);
        }
        assert forall|j: int, k: int|
            #![trigger b.spec_dispatchers()[j].roads[k]]
            0 <= j < b.spec_dispatchers().len() && 0 <= k
                < b.spec_dispatchers()[j].roads.len() implies b.holder_of(
                b.spec_dispatchers()[j].roads[k],
            ) is Some by {
            let r = a.spec_dispatchers()[j].roads[k];
            assert(a.holder_of(r) is Some);
            assert(b.holder_of(r) == a.holder_of(r));
        }
    }

    /// Submitting into an existing entry preserves the invariant:
    /// the ticket is queued when the road is unserved, and assigned to
    /// the road's outbox when it is served.
    proof fn lemma_submit_entry(a: Routing, b: Routing, t: TicketV, i: int)
        requires
            a.wf(),
            a.road_index(t.road) == Option::Some(i),
            a.spec_roads()[i].holder is Some ==> b.spec_roads() == a.spec_roads().update(
                i,
                RoadV { outbox: a.spec_roads()[i].outbox.push(t), ..a.spec_roads()[i] },
            ),
            a.spec_roads()[i].holder is None ==> b.spec_roads() == a.spec_roads().update(
                i,
                RoadV { queue: a.spec_roads()[i].queue.push(t), ..a.spec_roads()[i] },
            ),
            b.spec_dispatchers() == a.spec_dispatchers(),
            b.history@ == a.history@.insert(t.road, a.history_of(t.road).push(t)),
            b.delivered@ == a.delivered@,
        ensures
            b.wf(),
            b.history_of(t.road) == a.history_of(t.road).push(t),
            forall|r: u16| r != t.road ==> b.history_of(r) == a.history_of(r),
            forall|r: u16| b.delivered_of(r) == a.delivered_of(r),
            forall|r: u16| b.holder_of(r) == a.holder_of(r),
            a.holder_of(t.road) is Some ==> b.inflight_of(t.road) == a.inflight_of(t.road).push(
                t,
            ) && (forall|r: u16| b.queue_of(r) == a.queue_of(r)),
            a.holder_of(t.road) is None ==> b.queue_of(t.road) == a.queue_of(t.road).push(t) && (
            forall|r: u16| b.inflight_of(r) == a.inflight_of(r)),
            forall|r: u16| r != t.road ==> b.queue_of(r) == a.queue_of(r),
            forall|r: u16| r != t.road ==> b.inflight_of(r) == a.inflight_of(r),
    {
        assert(0 <= i < a.spec_roads().len() && a.spec_roads()[i].road == t.road);
        Self::lemma_road_index_same(a, b);
        assert(b.road_index(t.road) == Option::Some(i));
        assert forall|r: u16| r != t.road implies b.holder_of(r) == a.holder_of(r)
            && b.queue_of(r) == a.queue_of(r) && b.inflight_of(r) == a.inflight_of(r) by {
            assert(b.road_index(r) == a.road_index(r));
            if a.road_index(r) is Some {
                let k = a.road_index(r)->0;
                assert(k != i);
                assert(b.spec_roads()[k] == a.spec_roads()[k]);
            }
        }
        assert(b.holder_of(t.road) == a.holder_of(t.road));
        assert forall|road: u16|
            #![trigger b.history_of(road)]
            b.history_of(road) == b.delivered_of(road) + b.inflight_of(road) + b.queue_of(
                road,
            ) by {
            assert(a.history_of(road) == a.delivered_of(road) + a.inflight_of(road) + a.queue_of(
                road,
            ));
            if road == t.road {
                if a.spec_roads()[i].holder is Some {
                    assert(a.queue_of(road).len() == 0);
                    assert(b.delivered_of(road) + b.inflight_of(road) + b.queue_of(road) =~= (
                    a.delivered_of(road) + a.inflight_of(road) + a.queue_of(road)).push(t));
                } else {
                    assert(b.delivered_of(road) + b.inflight_of(road) + b.queue_of(road) =~= (
                    a.delivered_of(road) + a.inflight_of(road) + a.queue_of(road)).push(t));
                }
            }
        }
        assert forall|road: u16|
            #![trigger b.queue_of(road)]
            b.road_index(road) is None implies b.history_of(road) == Seq::<TicketV>::empty()
            && b.delivered_of(road) == Seq::<TicketV>::empty() by {
            assert(b.road_index(road) == a.road_index(road));
            assert(road != t.road);
        }
        assert forall|k: int|
            0 <= k < b.spec_roads().len() && (#[trigger] b.spec_roads()[k]).holder
                is Some implies (b.dispatcher_index(b.spec_roads()[k].holder->0) matches
        Option::Some(j) && b.spec_dispatchers()[j].roads.contains(b.spec_roads()[k].road)) by {
            assert(a.spec_roads()[k].holder == b.spec_roads()[k].holder);
            assert(a.spec_roads()[k].road == b.spec_roads()[k].road);
        }
        assert forall|j: int, k: int|
            #![trigger b.spec_dispatchers()[j].roads[k]]
            0 <= j < b.spec_dispatchers().len() && 0 <= k
                < b.spec_dispatchers()[j].roads.len() implies b.holder_of(
                b.spec_dispatchers()[j].roads[k],
            ) is Some by {
            let r = a.spec_dispatchers()[j].roads[k];
            assert(a.holder_of(r) is Some);
            assert(b.holder_of(r) == a.holder_of(r));
        }
    }

    /// Submit a ticket: assign it to the outbox of the road's serving
    /// dispatcher, or append it to the road's queue when unserved.
    pub fn submit(&mut self, t: Ticket)
        requires
            old(self).wf(),
        ensures
            final(self).wf(),
            final(self).history_of(t@.road) == old(self).history_of(t@.road).push(t@),
            forall|r: u16| r != t@.road ==> final(self).history_of(r) == old(self).history_of(r),
            forall|r: u16| final(self).delivered_of(r) == old(self).delivered_of(r),
            forall|r: u16| final(self).holder_of(r) == old(self).holder_of(r),
            final(self).spec_dispatchers() == old(self).spec_dispatchers(),
            old(self).holder_of(t@.road) is Some ==> final(self).inflight_of(t@.road) == old(self).inflight_of(t@.road).push(t@) && (forall|r: u16|
                final(self).queue_of(r) == old(self).queue_of(r)),
            old(self).holder_of(t@.road) is None ==> final(self).queue_of(t@.road) == old(self).queue_of(t@.road).push(t@) && (forall|r: u16|
                final(self).inflight_of(r) == old(self).inflight_of(r)),
            forall|r: u16| r != t@.road ==> final(self).queue_of(r) == old(self).queue_of(r),
            forall|r: u16| r != t@.road ==> final(self).inflight_of(r) == old(self).inflight_of(
                r,
            ),
    {
        let road = t.road;
        let ghost tv = t@;
        let ghost oldself = *old(self);
        match self.find_road(road) {
            None => {
                let mut queue: Vec<Ticket> = Vec::new();
                queue.push(t);
                self.roads.push(RoadEntry { road, queue, outbox: Vec::new(), holder: None });
                proof {
                    self.history@ = self.history@.insert(road, oldself.history_of(road).push(tv));
                    assert(self.spec_roads() =~~= oldself.spec_roads().push(
                        (RoadV {
                            road,
                            queue: seq![tv],
                            outbox: Seq::empty(),
                            holder: Option::None,
                        }),
                    ));
                    Self::lemma_submit_new_entry(oldself, *self, tv);
                }
            },
            Some(i) => {
                proof {
                    assert(oldself.road_index(road) == Option::Some(i as int));
                }
                if self.roads[i].holder.is_some() {
                    let entry = &mut self.roads[i];
                    entry.outbox.push(t);
                    proof {
                        self.history@ = self.history@.insert(
                            road,
                            oldself.history_of(road).push(tv),
                        );
                        assert(self.spec_roads() =~~= oldself.spec_roads().update(
                            i as int,
                            (RoadV {
                                outbox: oldself.spec_roads()[i as int].outbox.push(tv),
                                ..oldself.spec_roads()[i as int]
                            }),
                        ));
                        Self::lemma_submit_entry(oldself, *self, tv, i as int);
                    }
                } else {
                    let entry = &mut self.roads[i];
                    entry.queue.push(t);
                    proof {
                        self.history@ = self.history@.insert(
                            road,
                            oldself.history_of(road).push(tv),
                        );
                        assert(self.spec_roads() =~~= oldself.spec_roads().update(
                            i as int,
                            (RoadV {
                                queue: oldself.spec_roads()[i as int].queue.push(tv),
                                ..oldself.spec_roads()[i as int]
                            }),
                        ));
                        Self::lemma_submit_entry(oldself, *self, tv, i as int);
                    }
                }
            },
        }
    }

    /// After appending a handle with a fresh identity, lookups of other
    /// identities agree, and the fresh one finds the new handle.
    proof fn lemma_dispatcher_index_push(a: Routing, b: Routing, id: u64)
        requires
            b.spec_dispatchers().len() == a.spec_dispatchers().len() + 1,
            forall|j: int|
                0 <= j < a.spec_dispatchers().len() ==> #[trigger] b.spec_dispatchers()[j]
                    == a.spec_dispatchers()[j],
            b.spec_dispatchers().last().id == id,
            a.dispatcher_index(id) is None,
            forall|i: int, j: int|
                0 <= i < j < a.spec_dispatchers().len() ==> (
                #[trigger] a.spec_dispatchers()[i]).id != (#[trigger] a.spec_dispatchers()[j]).id,
        ensures
            forall|id2: u64|
                id2 != id ==> #[trigger] b.dispatcher_index(id2) == a.dispatcher_index(id2),
            b.dispatcher_index(id) == Option::Some(a.spec_dispatchers().len() as int),
            forall|i: int, j: int|
                0 <= i < j < b.spec_dispatchers().len() ==> (
                #[trigger] b.spec_dispatchers()[i]).id != (#[trigger] b.spec_dispatchers()[j]).id,
    {
        let n = a.spec_dispatchers().len() as int;
        assert forall|i: int| 0 <= i < n implies (#[trigger] a.spec_dispatchers()[i]).id != id by {
            if a.spec_dispatchers()[i].id == id {
                assert(a.dispatcher_index(id) is Some);
            }
        }
        assert(b.spec_dispatchers()[n].id == id);
        let ib = choose|k: int|
            0 <= k < b.spec_dispatchers().len() && b.spec_dispatchers()[k].id == id;
        assert(b.dispatcher_index(id) == Option::Some(ib));
        if ib < n {
            assert(a.spec_dispatchers()[ib].id == id);
        }
        assert forall|id2: u64| id2 != id implies #[trigger] b.dispatcher_index(id2)
            == a.dispatcher_index(id2) by {
            if exists|j: int|
                0 <= j < a.spec_dispatchers().len() && a.spec_dispatchers()[j].id == id2 {
                let j = choose|j: int|
                    0 <= j < a.spec_dispatchers().len() && a.spec_dispatchers()[j].id == id2;
                assert(b.spec_dispatchers()[j].id == id2);
                let k = choose|k: int|
                    0 <= k < b.spec_dispatchers().len() && b.spec_dispatchers()[k].id == id2;
                assert(k != n);
                assert(a.spec_dispatchers()[k].id == id2);
                if j < k {
                    assert(a.spec_dispatchers()[j].id != a.spec_dispatchers()[k].id);
                } else if k < j {
                    assert(a.spec_dispatchers()[k].id != a.spec_dispatchers()[j].id);
                }
            } else {
                if exists|k: int|
                    0 <= k < b.spec_dispatchers().len() && b.spec_dispatchers()[k].id == id2 {
                    let k = choose|k: int|
                        0 <= k < b.spec_dispatchers().len() && b.spec_dispatchers()[k].id == id2;
                    assert(k != n);
                    assert(a.spec_dispatchers()[k].id == id2);
                }
            }
        }
    }

    /// Register dispatcher `id` for `roads`: it becomes the server of
    /// every listed road that has none, and each such road's pending
    /// queue drains, in order, into its outbox.
    pub fn register_dispatcher(&mut self, id: u64, roads: Vec<u16>)
        requires
            old(self).wf(),
            old(self).dispatcher_index(id) is None,
        ensures
            final(self).wf(),
            final(self).dispatcher_index(id) is Some,
            final(self).roads_of(id) == roads@,
            forall|id2: u64|
                id2 != id ==> final(self).roads_of(id2) == old(self).roads_of(id2) && (final(
                    self).dispatcher_index(id2) is Some <==> old(self).dispatcher_index(id2)
                    is Some),
            forall|r: u16| final(self).history_of(r) == old(self).history_of(r),
            forall|r: u16| final(self).delivered_of(r) == old(self).delivered_of(r),
            forall|r: u16|
                #![trigger final(self).holder_of(r)]
                roads@.contains(r) && old(self).holder_of(r) is None ==> final(self).holder_of(r)
                    == Option::Some(id) && final(self).inflight_of(r) == old(self).queue_of(r)
                    && final(self).queue_of(r) == Seq::<TicketV>::empty(),
            forall|r: u16|
                #![trigger final(self).holder_of(r)]
                !(roads@.contains(r) && old(self).holder_of(r) is None) ==> final(self).holder_of(
                    r,
                ) == old(self).holder_of(r) && final(self).inflight_of(r) == old(self).inflight_of(
                    r,
                ) && final(self).queue_of(r) == old(self).queue_of(r),
    {
        let ghost oldself = *old(self);
        let mut k: usize = 0;
        while k < roads.len()
            invariant
                k <= roads@.len(),
                oldself.wf(),
                oldself.dispatcher_index(id) is None,
                self.spec_dispatchers() == oldself.spec_dispatchers(),
                self.history@ == oldself.history@,
                self.delivered@ == oldself.delivered@,
                forall|i: int, j: int|
                    0 <= i < j < self.spec_roads().len() ==> (
                    #[trigger] self.spec_roads()[i]).road != (#[trigger] self.spec_roads()[j]).road,
                forall|i: int|
                    0 <= i < self.spec_roads().len() && (#[trigger] self.spec_roads()[i]).holder
                        is Some ==> self.spec_roads()[i].queue.len() == 0,
                forall|i: int|
                    0 <= i < self.spec_roads().len() && (#[trigger] self.spec_roads()[i]).holder
                        is None ==> self.spec_roads()[i].outbox.len() == 0,
                forall|i: int, k2: int|
                    #![trigger self.spec_roads()[i].queue[k2]]
                    0 <= i < self.spec_roads().len() && 0 <= k2
                        < self.spec_roads()[i].queue.len() ==> self.spec_roads()[i].queue[k2].road
                        == self.spec_roads()[i].road,
                forall|road: u16|
                    #![trigger self.history_of(road)]
                    self.history_of(road) == self.delivered_of(road) + self.inflight_of(road)
                        + self.queue_of(road),
                forall|road: u16|
                    #![trigger self.queue_of(road)]
                    self.road_index(road) is None ==> self.history_of(road)
                        == Seq::<TicketV>::empty() && self.delivered_of(road)
                        == Seq::<TicketV>::empty(),
                forall|i: int|
                    0 <= i < self.spec_roads().len() && (#[trigger] self.spec_roads()[i]).holder
                        is Some && self.spec_roads()[i].holder->0 != id ==> (
                    self.dispatcher_index(self.spec_roads()[i].holder->0) matches Option::Some(j)
                        && self.spec_dispatchers()[j].roads.contains(self.spec_roads()[i].road)),
                forall|j: int, k2: int|
                    #![trigger self.spec_dispatchers()[j].roads[k2]]
                    0 <= j < self.spec_dispatchers().len() && 0 <= k2
                        < self.spec_dispatchers()[j].roads.len() ==> self.holder_of(
                        self.spec_dispatchers()[j].roads[k2],
                    ) is Some,
                forall|r: u16|
                    #![trigger self.holder_of(r)]
                    self.holder_of(r) == Option::Some(id) ==> oldself.holder_of(r) is None && (
                    exists|m: int| 0 <= m < k && roads@[m] == r) && self.queue_of(r)
                        == Seq::<TicketV>::empty() && self.inflight_of(r) == oldself.queue_of(r),
                forall|r: u16|
                    #![trigger self.holder_of(r)]
                    self.holder_of(r) != Option::Some(id) ==> self.holder_of(r)
                        == oldself.holder_of(r) && self.queue_of(r) == oldself.queue_of(r)
                        && self.inflight_of(r) == oldself.inflight_of(r),
                forall|m: int| 0 <= m < k ==> self.holder_of(#[trigger] roads@[m]) is Some,
            decreases roads@.len() - k,
        {
            let r = roads[k];
            let ghost prev = *self;
            match self.find_road(r) {
                None => {
                    self.roads.push(
                        RoadEntry { road: r, queue: Vec::new(), outbox: Vec::new(), holder: Some(id) },
                    );
                    proof {
                        assert(self.spec_roads() =~~= prev.spec_roads().push(
                            (RoadV {
                                road: r,
                                queue: Seq::empty(),
                                outbox: Seq::empty(),
                                holder: Option::Some(id),
                            }),
                        ));
                        Self::lemma_road_index_push(prev, *self, r);
                        assert(self.holder_of(r) == Option::Some(id));
                        assert(self.queue_of(r) =~= Seq::<TicketV>::empty());
                        assert(self.inflight_of(r) =~= Seq::<TicketV>::empty());
                        assert(oldself.queue_of(r) =~= Seq::<TicketV>::empty());
                        assert forall|r2: u16| r2 != r implies self.holder_of(r2)
                            == prev.holder_of(r2) && self.queue_of(r2) == prev.queue_of(r2)
                            && self.inflight_of(r2) == prev.inflight_of(r2) by {
                            assert(self.road_index(r2) == prev.road_index(r2));
                            if prev.road_index(r2) is Some {
                                let i2 = prev.road_index(r2)->0;
                                assert(self.spec_roads()[i2] == prev.spec_roads()[i2]);
                            }
                        }
                        assert forall|road: u16|
                            #![trigger self.history_of(road)]
                            self.history_of(road) == self.delivered_of(road) + self.inflight_of(
                                road,
                            ) + self.queue_of(road) by {
                            if road == r {
                                assert(prev.road_index(r) is None);
                                assert(prev.history_of(r) == Seq::<TicketV>::empty());
                                assert(prev.delivered_of(r) == Seq::<TicketV>::empty());
                                assert(self.delivered_of(road) + self.inflight_of(road)
                                    + self.queue_of(road) =~= Seq::<TicketV>::empty());
                            } else {
                                assert(self.history_of(road) == prev.history_of(road));
                            }
                        }
                        assert forall|road: u16|
                            #![trigger self.queue_of(road)]
                            self.road_index(road) is None implies self.history_of(road)
                            == Seq::<TicketV>::empty() && self.delivered_of(road)
                            == Seq::<TicketV>::empty() by {
                            assert(road != r);
                            assert(self.road_index(road) == prev.road_index(road));
                            let q = prev.queue_of(road);
                            assert(prev.history_of(road) == Seq::<TicketV>::empty());
                            assert(prev.delivered_of(road) == Seq::<TicketV>::empty());
                        }
                        assert forall|i: int|
                            0 <= i < self.spec_roads().len() && (
                            #[trigger] self.spec_roads()[i]).holder is Some
                                && self.spec_roads()[i].holder->0 != id implies (
                        self.dispatcher_index(self.spec_roads()[i].holder->0) matches
                        Option::Some(j) && self.spec_dispatchers()[j].roads.contains(
                            self.spec_roads()[i].road,
                        )) by {
                            assert(i < prev.spec_roads().len());
                            assert(self.spec_roads()[i] == prev.spec_roads()[i]);
                        }
                        assert forall|j: int, k2: int|
                            #![trigger self.spec_dispatchers()[j].roads[k2]]
                            0 <= j < self.spec_dispatchers().len() && 0 <= k2
                                < self.spec_dispatchers()[j].roads.len() implies self.holder_of(
                            self.spec_dispatchers()[j].roads[k2],
                        ) is Some by {
                            let r2 = prev.spec_dispatchers()[j].roads[k2];
                            assert(prev.holder_of(r2) is Some);
                            if r2 != r {
                                assert(self.holder_of(r2) == prev.holder_of(r2));
                            }
                        }
                        assert(prev.holder_of(r) != Option::Some(id));
                        assert(oldself.holder_of(r) is None);
                        assert(oldself.queue_of(r) == prev.queue_of(r));
                        assert(roads@[k as int] == r);
                        assert forall|r2: u16|
                            #![trigger self.holder_of(r2)]
                            self.holder_of(r2) == Option::Some(id) implies oldself.holder_of(r2)
                            is None && (exists|m: int| 0 <= m < k + 1 && roads@[m] == r2)
                            && self.queue_of(r2) == Seq::<TicketV>::empty() && self.inflight_of(r2)
                            == oldself.queue_of(r2) by {
                            if r2 == r {
                                assert(roads@[k as int] == r2);
                            } else {
                                assert(self.road_index(r2) == prev.road_index(r2));
                                if prev.road_index(r2) is Some {
                                    let i2 = prev.road_index(r2)->0;
                                    assert(self.spec_roads()[i2] == prev.spec_roads()[i2]);
                                }
                                assert(self.holder_of(r2) == prev.holder_of(r2));
                                assert(prev.holder_of(r2) == Option::Some(id));
                                let m = choose|m: int| 0 <= m < k && roads@[m] == r2;
                                assert(0 <= m < k + 1 && roads@[m] == r2);
                                assert(self.queue_of(r2) == prev.queue_of(r2));
                                assert(self.inflight_of(r2) == prev.inflight_of(r2));
                            }
                        }
                        assert forall|r2: u16|
                            #![trigger self.holder_of(r2)]
                            self.holder_of(r2) != Option::Some(id) implies self.holder_of(r2)
                            == oldself.holder_of(r2) && self.queue_of(r2) == oldself.queue_of(r2)
                            && self.inflight_of(r2) == oldself.inflight_of(r2) by {
                            assert(r2 != r);
                            assert(self.road_index(r2) == prev.road_index(r2));
                            if prev.road_index(r2) is Some {
                                let i2 = prev.road_index(r2)->0;
                                assert(self.spec_roads()[i2] == prev.spec_roads()[i2]);
                            }
                            assert(self.holder_of(r2) == prev.holder_of(r2));
                            assert(prev.holder_of(r2) != Option::Some(id));
                        }
                    }
                },
                Some(i) => {
                    proof {
                        assert(prev.road_index(r) == Option::Some(i as int));
                    }
                    if self.roads[i].holder.is_none() {
                        let entry = &mut self.roads[i];
                        core::mem::swap(&mut entry.queue, &mut entry.outbox);
                        entry.holder = Some(id);
                        proof {
                            assert(self.spec_roads() =~~= prev.spec_roads().update(
                                i as int,
                                (RoadV {
                                    road: r,
                                    queue: Seq::empty(),
                                    outbox: prev.spec_roads()[i as int].queue,
                                    holder: Option::Some(id),
                                }),
                            ));
                            Self::lemma_road_index_same(prev, *self);
                            assert(self.road_index(r) == Option::Some(i as int));
                            assert(self.holder_of(r) == Option::Some(id));
                            assert(self.queue_of(r) =~= Seq::<TicketV>::empty());
                            assert(prev.spec_roads()[i as int].outbox.len() == 0);
                            assert(self.inflight_of(r) == prev.queue_of(r));
                            assert forall|r2: u16| r2 != r implies self.holder_of(r2)
                                == prev.holder_of(r2) && self.queue_of(r2) == prev.queue_of(r2)
                                && self.inflight_of(r2) == prev.inflight_of(r2) by {
                                assert(self.road_index(r2) == prev.road_index(r2));
                                if prev.road_index(r2) is Some {
                                    let i2 = prev.road_index(r2)->0;
                                    assert(i2 != i as int);
                                    assert(self.spec_roads()[i2] == prev.spec_roads()[i2]);
                                }
                            }
                            assert forall|road: u16|
                                #![trigger self.history_of(road)]
                                self.history_of(road) == self.delivered_of(road)
                                    + self.inflight_of(road) + self.queue_of(road) by {
                                assert(prev.history_of(road) == prev.delivered_of(road)
                                    + prev.inflight_of(road) + prev.queue_of(road));
                                if road == r {
                                    assert(prev.inflight_of(r) =~= Seq::<TicketV>::empty());
                                    assert(self.delivered_of(r) + self.inflight_of(r)
                                        + self.queue_of(r) =~= prev.delivered_of(r)
                                        + prev.inflight_of(r) + prev.queue_of(r));
                                }
                            }
                            assert forall|road: u16|
                                #![trigger self.queue_of(road)]
                                self.road_index(road) is None implies self.history_of(road)
                                == Seq::<TicketV>::empty() && self.delivered_of(road)
                                == Seq::<TicketV>::empty() by {
                                assert(self.road_index(road) == prev.road_index(road));
                                assert(road != r);
                                let q = prev.queue_of(road);
                                assert(prev.history_of(road) == Seq::<TicketV>::empty());
                                assert(prev.delivered_of(road) == Seq::<TicketV>::empty());
                            }
                            assert forall|i2: int|
                                0 <= i2 < self.spec_roads().len() && (
                                #[trigger] self.spec_roads()[i2]).holder is Some
                                    && self.spec_roads()[i2].holder->0 != id implies (
                            self.dispatcher_index(self.spec_roads()[i2].holder->0) matches
                            Option::Some(j) && self.spec_dispatchers()[j].roads.contains(
                                self.spec_roads()[i2].road,
                            )) by {
                                assert(i2 != i as int);
                                assert(self.spec_roads()[i2] == prev.spec_roads()[i2]);
                            }
                            assert forall|j: int, k2: int|
                                #![trigger self.spec_dispatchers()[j].roads[k2]]
                                0 <= j < self.spec_dispatchers().len() && 0 <= k2
                                    < self.spec_dispatchers()[j].roads.len() implies self.holder_of(
                                self.spec_dispatchers()[j].roads[k2],
                            ) is Some by {
                                let r2 = prev.spec_dispatchers()[j].roads[k2];
                                assert(prev.holder_of(r2) is Some);
                                if r2 != r {
                                    assert(self.holder_of(r2) == prev.holder_of(r2));
                                }
                            }
                            assert(prev.holder_of(r) != Option::Some(id));
                            assert(oldself.holder_of(r) is None);
                            assert(oldself.queue_of(r) == prev.queue_of(r));
                            assert(roads@[k as int] == r);
                            assert forall|r2: u16|
                                #![trigger self.holder_of(r2)]
                                self.holder_of(r2) == Option::Some(id) implies oldself.holder_of(r2)
                                is None && (exists|m: int| 0 <= m < k + 1 && roads@[m] == r2)
                                && self.queue_of(r2) == Seq::<TicketV>::empty() && self.inflight_of(r2)
                                == oldself.queue_of(r2) by {
                                if r2 == r {
                                    assert(roads@[k as int] == r2);
                                } else {
                                    assert(self.road_index(r2) == prev.road_index(r2));
                                    if prev.road_index(r2) is Some {
                                        let i2 = prev.road_index(r2)->0;
                                        assert(self.spec_roads()[i2] == prev.spec_roads()[i2]);
                                    }
                                    assert(self.holder_of(r2) == prev.holder_of(r2));
                                    assert(prev.holder_of(r2) == Option::Some(id));
                                    let m = choose|m: int| 0 <= m < k && roads@[m] == r2;
                                    assert(0 <= m < k + 1 && roads@[m] == r2);
                                    assert(self.queue_of(r2) == prev.queue_of(r2));
                                    assert(self.inflight_of(r2) == prev.inflight_of(r2));
                                }
                            }
                            assert forall|r2: u16|
                                #![trigger self.holder_of(r2)]
                                self.holder_of(r2) != Option::Some(id) implies self.holder_of(r2)
                                == oldself.holder_of(r2) && self.queue_of(r2) == oldself.queue_of(r2)
                                && self.inflight_of(r2) == oldself.inflight_of(r2) by {
                                assert(r2 != r);
                                assert(self.road_index(r2) == prev.road_index(r2));
                                if prev.road_index(r2) is Some {
                                    let i2 = prev.road_index(r2)->0;
                                    assert(self.spec_roads()[i2] == prev.spec_roads()[i2]);
                                }
                                assert(self.holder_of(r2) == prev.holder_of(r2));
                                assert(prev.holder_of(r2) != Option::Some(id));
                            }
                        }
                    }
                },
            }
            proof {
                assert(self.holder_of(roads@[k as int]) is Some);
            }
            k = k + 1;
        }
        let ghost before_push = *self;
        self.dispatchers.push(DispatcherHandle { id, roads });
        proof {
            assert(self.spec_dispatchers() =~~= before_push.spec_dispatchers().push(
                (HandleV { id, roads: roads@ }),
            ));
            assert(self.spec_roads() == before_push.spec_roads());
            Self::lemma_dispatcher_index_push(before_push, *self, id);
            let n = before_push.spec_dispatchers().len() as int;
            assert(self.dispatcher_index(id) == Option::Some(n));
            assert(self.roads_of(id) == roads@);
            assert forall|r: u16| self.holder_of(r) == before_push.holder_of(r) && self.queue_of(r)
                == before_push.queue_of(r) && self.inflight_of(r) == before_push.inflight_of(
                r,
            ) by {}
            assert forall|i: int|
                0 <= i < self.spec_roads().len() && (#[trigger] self.spec_roads()[i]).holder
                    is Some implies (self.dispatcher_index(self.spec_roads()[i].holder->0) matches
            Option::Some(j) && self.spec_dispatchers()[j].roads.contains(
                self.spec_roads()[i].road,
            )) by {
                let h = self.spec_roads()[i].holder->0;
                if h == id {
                    assert(before_push.holder_of(before_push.spec_roads()[i].road)
                        == Option::Some(id)) by {
                        let rr = before_push.spec_roads()[i].road;
                        let w = choose|w: int|
                            0 <= w < before_push.spec_roads().len()
                                && before_push.spec_roads()[w].road == rr;
                        if w < i {
                            assert(before_push.spec_roads()[w].road
                                != before_push.spec_roads()[i as int].road);
                        } else if i < w {
                            assert(before_push.spec_roads()[i as int].road
                                != before_push.spec_roads()[w].road);
                        }
                    }
                    let m = choose|m: int|
                        0 <= m < roads@.len() && roads@[m] == before_push.spec_roads()[i].road;
                    assert(self.spec_dispatchers()[n].roads[m] == before_push.spec_roads()[i].road);
                    assert(self.spec_dispatchers()[n].roads.contains(self.spec_roads()[i].road));
                } else {
                    assert(self.dispatcher_index(h) == before_push.dispatcher_index(h));
                    assert(before_push.dispatcher_index(h) is Some);
                    let j = before_push.dispatcher_index(h)->0;
                    assert(self.spec_dispatchers()[j] == before_push.spec_dispatchers()[j]);
                }
            }
            assert forall|j: int, k2: int|
                #![trigger self.spec_dispatchers()[j].roads[k2]]
                0 <= j < self.spec_dispatchers().len() && 0 <= k2
                    < self.spec_dispatchers()[j].roads.len() implies self.holder_of(
                self.spec_dispatchers()[j].roads[k2],
            ) is Some by {
                if j < n {
                    let r2 = before_push.spec_dispatchers()[j].roads[k2];
                    assert(before_push.holder_of(r2) is Some);
                } else {
                    assert(self.spec_dispatchers()[j].roads == roads@);
                    assert(before_push.holder_of(roads@[k2]) is Some);
                }
            }
            assert forall|id2: u64| id2 != id implies self.roads_of(id2) == oldself.roads_of(id2)
                && (self.dispatcher_index(id2) is Some <==> oldself.dispatcher_index(id2)
                is Some) by {
                assert(self.dispatcher_index(id2) == before_push.dispatcher_index(id2));
            }
            assert forall|road: u16|
                #![trigger self.history_of(road)]
                self.history_of(road) == self.delivered_of(road) + self.inflight_of(road)
                    + self.queue_of(road) by {
                assert(before_push.history_of(road) == before_push.delivered_of(road)
                    + before_push.inflight_of(road) + before_push.queue_of(road));
            }
            assert forall|road: u16|
                #![trigger self.queue_of(road)]
                self.road_index(road) is None implies self.history_of(road)
                == Seq::<TicketV>::empty() && self.delivered_of(road)
                == Seq::<TicketV>::empty() by {
                let q = before_push.queue_of(road);
                assert(before_push.road_index(road) is None);
                assert(before_push.history_of(road) == Seq::<TicketV>::empty());
                assert(before_push.delivered_of(road) == Seq::<TicketV>::empty());
            }
            assert forall|r: u16|
                #![trigger final(self).holder_of(r)]
                roads@.contains(r) && oldself.holder_of(r) is None implies self.holder_of(r)
                == Option::Some(id) && self.inflight_of(r) == oldself.queue_of(r)
                && self.queue_of(r) == Seq::<TicketV>::empty() by {
                let m = choose|m: int| 0 <= m < roads@.len() && roads@[m] == r;
                assert(before_push.holder_of(roads@[m]) is Some);
                if before_push.holder_of(r) != Option::Some(id) {
                    assert(before_push.holder_of(r) == oldself.holder_of(r));
                }
            }
            assert forall|r: u16|
                #![trigger final(self).holder_of(r)]
                !(roads@.contains(r) && oldself.holder_of(r) is None) implies self.holder_of(r)
                == oldself.holder_of(r) && self.inflight_of(r) == oldself.inflight_of(r)
                && self.queue_of(r) == oldself.queue_of(r) by {
                if before_push.holder_of(r) == Option::Some(id) {
                    assert(oldself.holder_of(r) is None);
                    let m = choose|m: int|
                        0 <= m < roads@.len() && roads@[m] == r;
                    assert(roads@.contains(r));
                } else {
                    assert(before_push.holder_of(r) == oldself.holder_of(r));
                    assert(oldself.holder_of(r) is None ==> oldself.inflight_of(r)
                        =~= Seq::<TicketV>::empty());
                }
            }
        }
    }

    /// After removing the handle at `j`, its identity is gone and
    /// lookups of other identities find the same handles.
    proof fn lemma_dispatcher_index_remove(a: Routing, b: Routing, id: u64, j: int)
        requires
            forall|i2: int, j2: int|
                0 <= i2 < j2 < a.spec_dispatchers().len() ==> (
                #[trigger] a.spec_dispatchers()[i2]).id != (
                #[trigger] a.spec_dispatchers()[j2]).id,
            0 <= j < a.spec_dispatchers().len(),
            a.spec_dispatchers()[j].id == id,
            b.spec_dispatchers() == a.spec_dispatchers().remove(j),
        ensures
            b.dispatcher_index(id) is None,
            forall|id2: u64|
                id2 != id ==> ((#[trigger] b.dispatcher_index(id2)) is Some <==> a.dispatcher_index(
                    id2,
                ) is Some),
            forall|id2: u64|
                id2 != id && b.dispatcher_index(id2) is Some
                    ==> b.spec_dispatchers()[b.dispatcher_index(id2)->0] == a.spec_dispatchers()[(
                #[trigger] a.dispatcher_index(id2))->0],
            forall|i2: int, j2: int|
                0 <= i2 < j2 < b.spec_dispatchers().len() ==> (
                #[trigger] b.spec_dispatchers()[i2]).id != (
                #[trigger] b.spec_dispatchers()[j2]).id,
    {
        let n = a.spec_dispatchers().len() as int;
        assert(b.spec_dispatchers().len() == n - 1);
        assert forall|m: int| 0 <= m < n - 1 implies #[trigger] b.spec_dispatchers()[m] == (if m
            < j {
            a.spec_dispatchers()[m]
        } else {
            a.spec_dispatchers()[m + 1]
        }) by {}
        assert forall|m: int| 0 <= m < n && m != j implies (#[trigger] a.spec_dispatchers()[m]).id
            != id by {
            if m < j {
                assert(a.spec_dispatchers()[m].id != a.spec_dispatchers()[j].id);
            } else {
                assert(a.spec_dispatchers()[j].id != a.spec_dispatchers()[m].id);
            }
        }
        assert(b.dispatcher_index(id) is None) by {
            if exists|k: int|
                0 <= k < b.spec_dispatchers().len() && b.spec_dispatchers()[k].id == id {
                let k = choose|k: int|
                    0 <= k < b.spec_dispatchers().len() && b.spec_dispatchers()[k].id == id;
                if k < j {
                    assert(a.spec_dispatchers()[k].id == id);
                } else {
                    assert(a.spec_dispatchers()[k + 1].id == id);
                }
            }
        }
        assert forall|id2: u64| id2 != id implies ((#[trigger] b.dispatcher_index(id2)) is Some
            <==> a.dispatcher_index(id2) is Some) && (b.dispatcher_index(id2) is Some
            ==> b.spec_dispatchers()[b.dispatcher_index(id2)->0]
            == a.spec_dispatchers()[a.dispatcher_index(id2)->0]) by {
            if exists|k: int|
                0 <= k < a.spec_dispatchers().len() && a.spec_dispatchers()[k].id == id2 {
                let k = choose|k: int|
                    0 <= k < a.spec_dispatchers().len() && a.spec_dispatchers()[k].id == id2;
                assert(k != j);
                if k < j {
                    assert(b.spec_dispatchers()[k].id == id2);
                } else {
                    assert(b.spec_dispatchers()[k - 1].id == id2);
                }
                let kb = choose|m: int|
                    0 <= m < b.spec_dispatchers().len() && b.spec_dispatchers()[m].id == id2;
                let ka = if kb < j {
                    kb
                } else {
                    kb + 1
                };
                assert(a.spec_dispatchers()[ka].id == id2);
                if ka < k {
                    assert(a.spec_dispatchers()[ka].id != a.spec_dispatchers()[k].id);
                } else if k < ka {
                    assert(a.spec_dispatchers()[k].id != a.spec_dispatchers()[ka].id);
                }
                assert(b.spec_dispatchers()[kb] == a.spec_dispatchers()[ka]);
            } else {
                if exists|m: int|
                    0 <= m < b.spec_dispatchers().len() && b.spec_dispatchers()[m].id == id2 {
                    let m = choose|m: int|
                        0 <= m < b.spec_dispatchers().len() && b.spec_dispatchers()[m].id == id2;
                    if m < j {
                        assert(a.spec_dispatchers()[m].id == id2);
                    } else {
                        assert(a.spec_dispatchers()[m + 1].id == id2);
                    }
                }
            }
        }
        assert forall|i2: int, j2: int|
            0 <= i2 < j2 < b.spec_dispatchers().len() implies (
        #[trigger] b.spec_dispatchers()[i2]).id != (#[trigger] b.spec_dispatchers()[j2]).id by {
            let ai = if i2 < j {
                i2
            } else {
                i2 + 1
            };
            let aj = if j2 < j {
                j2
            } else {
                j2 + 1
            };
            assert(b.spec_dispatchers()[i2] == a.spec_dispatchers()[ai]);
            assert(b.spec_dispatchers()[j2] == a.spec_dispatchers()[aj]);
            assert(a.spec_dispatchers()[ai].id != a.spec_dispatchers()[aj].id);
        }
    }

    /// Unregister dispatcher `id`. Each road it served passes to
    /// another dispatcher serving that road, keeping its in-flight
    /// tickets; a road with no other dispatcher gets them back as its
    /// queue, in order, for a later registration to drain.
    #[verifier::rlimit(100)]
    pub fn unregister_dispatcher(&mut self, id: u64)
        requires
            old(self).wf(),
        ensures
            final(self).wf(),
            final(self).dispatcher_index(id) is None,
            forall|id2: u64|
                id2 != id ==> (final(self).dispatcher_index(id2) is Some <==> old(self).dispatcher_index(id2) is Some) && final(self).roads_of(id2) == old(self).roads_of(id2),
            forall|r: u16| final(self).history_of(r) == old(self).history_of(r),
            forall|r: u16| final(self).delivered_of(r) == old(self).delivered_of(r),
            forall|r: u16|
                #![trigger final(self).holder_of(r)]
                old(self).holder_of(r) != Option::Some(id) ==> final(self).holder_of(r) == old(self).holder_of(r) && final(self).queue_of(r) == old(self).queue_of(r) && final(self).inflight_of(r) == old(self).inflight_of(r),
            forall|r: u16|
                #![trigger final(self).holder_of(r)]
                old(self).holder_of(r) == Option::Some(id) ==> ((final(self).holder_of(r) is Some
                    && final(self).holder_of(r) != Option::Some(id) && final(self).inflight_of(r)
                    == old(self).inflight_of(r) && final(self).queue_of(r)
                    == Seq::<TicketV>::empty()) || (final(self).holder_of(r) is None && final(self).queue_of(r) == old(self).inflight_of(r) && final(self).inflight_of(r)
                    == Seq::<TicketV>::empty())),
    {
        let ghost oldself = *old(self);
        let j = match self.find_dispatcher(id) {
            None => {
                return ;
            },
            Some(j) => j,
        };
        let _removed = self.dispatchers.remove(j);
        proof {
            assert(self.spec_dispatchers() =~~= oldself.spec_dispatchers().remove(j as int));
            Self::lemma_dispatcher_index_remove(oldself, *self, id, j as int);
            assert(self.spec_roads() == oldself.spec_roads());
            assert forall|road: u16|
                #![trigger self.history_of(road)]
                self.history_of(road) == self.delivered_of(road) + self.inflight_of(road)
                    + self.queue_of(road) by {
                assert(oldself.history_of(road) == oldself.delivered_of(road)
                    + oldself.inflight_of(road) + oldself.queue_of(road));
            }
            assert forall|road: u16|
                #![trigger self.queue_of(road)]
                self.road_index(road) is None implies self.history_of(road)
                == Seq::<TicketV>::empty() && self.delivered_of(road)
                == Seq::<TicketV>::empty() by {
                let q = oldself.queue_of(road);
            }
        }
        let ghost base = *self;
        let mut i: usize = 0;
        while i < self.roads.len()
            invariant
                i <= self.spec_roads().len(),
                oldself.wf(),
                base.spec_dispatchers() == self.spec_dispatchers(),
                base.spec_roads() == oldself.spec_roads(),
                base.dispatcher_index(id) is None,
                forall|id2: u64|
                    id2 != id ==> ((#[trigger] self.dispatcher_index(id2)) is Some
                        <==> oldself.dispatcher_index(id2) is Some),
                forall|id2: u64|
                    id2 != id && self.dispatcher_index(id2) is Some
                        ==> self.spec_dispatchers()[self.dispatcher_index(id2)->0]
                        == oldself.spec_dispatchers()[(#[trigger] oldself.dispatcher_index(
                        id2,
                    ))->0],
                forall|i2: int, j2: int|
                    0 <= i2 < j2 < self.spec_dispatchers().len() ==> (
                    #[trigger] self.spec_dispatchers()[i2]).id != (
                    #[trigger] self.spec_dispatchers()[j2]).id,
                self.history@ == oldself.history@,
                self.delivered@ == oldself.delivered@,
                self.spec_roads().len() == oldself.spec_roads().len(),
                forall|i2: int, j2: int|
                    0 <= i2 < j2 < self.spec_roads().len() ==> (
                    #[trigger] self.spec_roads()[i2]).road != (#[trigger] self.spec_roads()[j2]).road,
                forall|i2: int|
                    0 <= i2 < self.spec_roads().len() ==> (#[trigger] self.spec_roads()[i2]).road
                        == oldself.spec_roads()[i2].road,
                forall|i2: int|
                    0 <= i2 < self.spec_roads().len() && oldself.spec_roads()[i2].holder
                        != Option::Some(id) ==> #[trigger] self.spec_roads()[i2]
                        == oldself.spec_roads()[i2],
                forall|i2: int|
                    i <= i2 < self.spec_roads().len() ==> #[trigger] self.spec_roads()[i2]
                        == oldself.spec_roads()[i2],
                forall|i2: int|
                    0 <= i2 < i && oldself.spec_roads()[i2].holder == Option::Some(id) ==> (((
                    #[trigger] self.spec_roads()[i2]).holder is Some && self.spec_roads()[i2].holder
                        != Option::Some(id) && self.spec_roads()[i2].outbox
                        == oldself.spec_roads()[i2].outbox && self.spec_roads()[i2].queue
                        == oldself.spec_roads()[i2].queue) || (self.spec_roads()[i2].holder is None
                        && self.spec_roads()[i2].queue == oldself.spec_roads()[i2].outbox
                        && self.spec_roads()[i2].outbox.len() == 0)),
                forall|i2: int|
                    0 <= i2 < self.spec_roads().len() && (#[trigger] self.spec_roads()[i2]).holder
                        is Some && self.spec_roads()[i2].holder->0 != id ==> (
                    self.dispatcher_index(self.spec_roads()[i2].holder->0) matches Option::Some(j2)
                        && self.spec_dispatchers()[j2].roads.contains(self.spec_roads()[i2].road)),
                forall|i2: int|
                    0 <= i2 < i ==> (#[trigger] self.spec_roads()[i2]).holder != Option::Some(id),
                forall|i2: int|
                    0 <= i2 < self.spec_roads().len() && (#[trigger] self.spec_roads()[i2]).holder
                        is Some ==> self.spec_roads()[i2].queue.len() == 0,
                forall|i2: int|
                    0 <= i2 < self.spec_roads().len() && (#[trigger] self.spec_roads()[i2]).holder
                        is None ==> self.spec_roads()[i2].outbox.len() == 0,
                forall|i2: int, k: int|
                    #![trigger self.spec_roads()[i2].queue[k]]
                    0 <= i2 < self.spec_roads().len() && 0 <= k
                        < self.spec_roads()[i2].queue.len() ==> self.spec_roads()[i2].queue[k].road
                        == self.spec_roads()[i2].road,
                forall|i2: int, k: int|
                    #![trigger self.spec_roads()[i2].outbox[k]]
                    0 <= i2 < self.spec_roads().len() && 0 <= k
                        < self.spec_roads()[i2].outbox.len() ==> self.spec_roads()[i2].outbox[k].road
                        == self.spec_roads()[i2].road,
                forall|j2: int, k: int|
                    #![trigger self.spec_dispatchers()[j2].roads[k]]
                    0 <= j2 < self.spec_dispatchers().len() && 0 <= k
                        < self.spec_dispatchers()[j2].roads.len() ==> self.holder_of(
                        self.spec_dispatchers()[j2].roads[k],
                    ) is Some,
                forall|road: u16|
                    #![trigger self.history_of(road)]
                    self.history_of(road) == self.delivered_of(road) + self.inflight_of(road)
                        + self.queue_of(road),
                forall|road: u16|
                    #![trigger self.queue_of(road)]
                    self.road_index(road) is None ==> self.history_of(road)
                        == Seq::<TicketV>::empty() && self.delivered_of(road)
                        == Seq::<TicketV>::empty(),
            decreases self.spec_roads().len() - i,
        {
            let held = match self.roads[i].holder {
                Some(h) => h == id,
                None => false,
            };
            if held {
                let road = self.roads[i].road;
                let ghost prev = *self;
                proof {
                    assert(prev.spec_roads()[i as int].road == road);
                    let w = choose|w: int|
                        0 <= w < prev.spec_roads().len() && prev.spec_roads()[w].road == road;
                    if w < i {
                        assert(prev.spec_roads()[w].road != prev.spec_roads()[i as int].road);
                    } else if i < w {
                        assert(prev.spec_roads()[i as int].road != prev.spec_roads()[w].road);
                    }
                    assert(prev.road_index(road) == Option::Some(i as int));
                }
                match self.find_subscriber(road) {
                    Some(id2) => {
                        let entry = &mut self.roads[i];
                        entry.holder = Some(id2);
                        proof {
                            assert(self.spec_roads() =~~= prev.spec_roads().update(
                                i as int,
                                (RoadV {
                                    holder: Option::Some(id2),
                                    ..prev.spec_roads()[i as int]
                                }),
                            ));
                            Self::lemma_road_index_same(prev, *self);
                            assert(id2 != id) by {
                                if id2 == id {
                                    assert(self.dispatcher_index(id) is Some);
                                }
                            }
                            assert forall|road2: u16|
                                #![trigger self.history_of(road2)]
                                self.history_of(road2) == self.delivered_of(road2)
                                    + self.inflight_of(road2) + self.queue_of(road2) by {
                                assert(prev.history_of(road2) == prev.delivered_of(road2)
                                    + prev.inflight_of(road2) + prev.queue_of(road2));
                                assert(self.road_index(road2) == prev.road_index(road2));
                                if prev.road_index(road2) is Some {
                                    let i2 = prev.road_index(road2)->0;
                                    if i2 != i as int {
                                        assert(self.spec_roads()[i2] == prev.spec_roads()[i2]);
                                    }
                                }
                            }
                            assert forall|road2: u16|
                                #![trigger self.queue_of(road2)]
                                self.road_index(road2) is None implies self.history_of(road2)
                                == Seq::<TicketV>::empty() && self.delivered_of(road2)
                                == Seq::<TicketV>::empty() by {
                                assert(self.road_index(road2) == prev.road_index(road2));
                                let q = prev.queue_of(road2);
                            }
                            assert forall|j2: int, k: int|
                                #![trigger self.spec_dispatchers()[j2].roads[k]]
                                0 <= j2 < self.spec_dispatchers().len() && 0 <= k
                                    < self.spec_dispatchers()[j2].roads.len() implies self.holder_of(
                                self.spec_dispatchers()[j2].roads[k],
                            ) is Some by {
                                let r2 = prev.spec_dispatchers()[j2].roads[k];
                                assert(prev.holder_of(r2) is Some);
                                assert(self.road_index(r2) == prev.road_index(r2));
                                if prev.road_index(r2) is Some {
                                    let i2 = prev.road_index(r2)->0;
                                    if i2 != i as int {
                                        assert(self.spec_roads()[i2] == prev.spec_roads()[i2]);
                                    }
                                }
                            }
                        }
                    },
                    None => {
                        let entry = &mut self.roads[i];
                        core::mem::swap(&mut entry.queue, &mut entry.outbox);
                        entry.holder = None;
                        proof {
                            assert(self.spec_roads() =~~= prev.spec_roads().update(
                                i as int,
                                (RoadV {
                                    road,
                                    queue: prev.spec_roads()[i as int].outbox,
                                    outbox: Seq::empty(),
                                    holder: Option::None,
                                }),
                            ));
                            Self::lemma_road_index_same(prev, *self);
                            assert(prev.spec_roads()[i as int].queue.len() == 0);
                            assert forall|road2: u16|
                                #![trigger self.history_of(road2)]
                                self.history_of(road2) == self.delivered_of(road2)
                                    + self.inflight_of(road2) + self.queue_of(road2) by {
                                assert(prev.history_of(road2) == prev.delivered_of(road2)
                                    + prev.inflight_of(road2) + prev.queue_of(road2));
                                assert(self.road_index(road2) == prev.road_index(road2));
                                if road2 == road {
                                    assert(self.delivered_of(road2) + self.inflight_of(road2)
                                        + self.queue_of(road2) =~= prev.delivered_of(road2)
                                        + prev.inflight_of(road2) + prev.queue_of(road2));
                                } else {
                                    if prev.road_index(road2) is Some {
                                        let i2 = prev.road_index(road2)->0;
                                        assert(i2 != i as int);
                                        assert(self.spec_roads()[i2] == prev.spec_roads()[i2]);
                                    }
                                }
                            }
                            assert forall|road2: u16|
                                #![trigger self.queue_of(road2)]
                                self.road_index(road2) is None implies self.history_of(road2)
                                == Seq::<TicketV>::empty() && self.delivered_of(road2)
                                == Seq::<TicketV>::empty() by {
                                assert(self.road_index(road2) == prev.road_index(road2));
                                let q = prev.queue_of(road2);
                            }
                            assert forall|j2: int, k: int|
                                #![trigger self.spec_dispatchers()[j2].roads[k]]
                                0 <= j2 < self.spec_dispatchers().len() && 0 <= k
                                    < self.spec_dispatchers()[j2].roads.len() implies self.holder_of(
                                self.spec_dispatchers()[j2].roads[k],
                            ) is Some by {
                                let r2 = prev.spec_dispatchers()[j2].roads[k];
                                assert(prev.holder_of(r2) is Some);
                                assert(r2 != road) by {
                                    if r2 == road {
                                        assert(!self.spec_dispatchers()[j2].roads.contains(road));
                                    }
                                }
                                assert(self.road_index(r2) == prev.road_index(r2));
                                if prev.road_index(r2) is Some {
                                    let i2 = prev.road_index(r2)->0;
                                    assert(i2 != i as int);
                                    assert(self.spec_roads()[i2] == prev.spec_roads()[i2]);
                                }
                            }
                        }
                    },
                }
            }
            i = i + 1;
        }
        proof {
            Self::lemma_road_index_same(oldself, *self);
            assert forall|r: u16|
                #![trigger final(self).holder_of(r)]
                oldself.holder_of(r) != Option::Some(id) implies self.holder_of(r)
                == oldself.holder_of(r) && self.queue_of(r) == oldself.queue_of(r)
                && self.inflight_of(r) == oldself.inflight_of(r) by {
                assert(self.road_index(r) == oldself.road_index(r));
                if oldself.road_index(r) is Some {
                    let i2 = oldself.road_index(r)->0;
                    assert(self.spec_roads()[i2] == oldself.spec_roads()[i2]);
                }
            }
            assert forall|r: u16|
                #![trigger final(self).holder_of(r)]
                oldself.holder_of(r) == Option::Some(id) implies ((self.holder_of(r) is Some
                    && self.holder_of(r) != Option::Some(id) && self.inflight_of(r)
                    == oldself.inflight_of(r) && self.queue_of(r) == Seq::<TicketV>::empty()) || (
                self.holder_of(r) is None && self.queue_of(r) == oldself.inflight_of(r)
                    && self.inflight_of(r) == Seq::<TicketV>::empty())) by {
                assert(self.road_index(r) == oldself.road_index(r));
                let i2 = oldself.road_index(r)->0;
                assert(self.spec_roads()[i2].holder != Option::Some(id));
                if oldself.spec_roads()[i2].holder == Option::Some(id) {
                    assert(oldself.spec_roads()[i2].queue.len() == 0);
                    if self.spec_roads()[i2].holder is None {
                        assert(self.inflight_of(r) =~= Seq::<TicketV>::empty());
                    } else {
                        assert(self.queue_of(r) =~= Seq::<TicketV>::empty());
                    }
                }
            }
            assert forall|i2: int|
                0 <= i2 < self.spec_roads().len() && (#[trigger] self.spec_roads()[i2]).holder
                    is Some implies (self.dispatcher_index(self.spec_roads()[i2].holder->0) matches
            Option::Some(j2) && self.spec_dispatchers()[j2].roads.contains(
                self.spec_roads()[i2].road,
            )) by {
                assert(self.spec_roads()[i2].holder->0 != id);
            }
        }
    }

    /// The first registered dispatcher serving `road`, if any.
    fn find_subscriber(&self, road: u16) -> (r: Option<u64>)
        requires
            forall|i2: int, j2: int|
                0 <= i2 < j2 < self.spec_dispatchers().len() ==> (
                #[trigger] self.spec_dispatchers()[i2]).id != (
                #[trigger] self.spec_dispatchers()[j2]).id,
        ensures
            r is None ==> forall|j: int|
                0 <= j < self.spec_dispatchers().len() ==> !(
                #[trigger] self.spec_dispatchers()[j]).roads.contains(road),
            r matches Option::Some(id2) ==> (self.dispatcher_index(id2) matches Option::Some(j)
                && self.spec_dispatchers()[j].roads.contains(road)),
    {
        let mut j: usize = 0;
        while j < self.dispatchers.len()
            invariant
                j <= self.spec_dispatchers().len(),
                forall|i2: int, j2: int|
                    0 <= i2 < j2 < self.spec_dispatchers().len() ==> (
                    #[trigger] self.spec_dispatchers()[i2]).id != (
                    #[trigger] self.spec_dispatchers()[j2]).id,
                forall|k: int|
                    0 <= k < j ==> !(#[trigger] self.spec_dispatchers()[k]).roads.contains(road),
            decreases self.spec_dispatchers().len() - j,
        {
            let handle = &self.dispatchers[j];
            let mut m: usize = 0;
            let mut found: bool = false;
            while m < handle.roads.len()
                invariant
                    m <= handle.roads@.len(),
                    !found,
                    0 <= j < self.spec_dispatchers().len(),
                    *handle == self.dispatchers@[j as int],
                    forall|i2: int, j2: int|
                        0 <= i2 < j2 < self.spec_dispatchers().len() ==> (
                        #[trigger] self.spec_dispatchers()[i2]).id != (
                        #[trigger] self.spec_dispatchers()[j2]).id,
                    forall|k: int| 0 <= k < m ==> handle.roads@[k] != road,
                decreases handle.roads@.len() - m,
            {
                if handle.roads[m] == road {
                    proof {
                        assert(self.spec_dispatchers()[j as int].roads[m as int] == road);
                        assert(self.spec_dispatchers()[j as int].roads.contains(road));
                        let k = choose|k: int|
                            0 <= k < self.spec_dispatchers().len()
                                && self.spec_dispatchers()[k].id
                                == self.spec_dispatchers()[j as int].id;
                        if k < j {
                            assert(self.spec_dispatchers()[k].id
                                != self.spec_dispatchers()[j as int].id);
                        } else if j < k {
                            assert(self.spec_dispatchers()[j as int].id
                                != self.spec_dispatchers()[k].id);
                        }
                    }
                    return Some(handle.id);
                }
                m = m + 1;
            }
            proof {
                assert forall|k: int|
                    0 <= k < handle.roads@.len() implies handle.roads@[k] != road by {}
                assert(!self.spec_dispatchers()[j as int].roads.contains(road));
            }
            j = j + 1;
        }
        None
    }

    /// Find the index of `road` among the entries.
    fn find_road(&self, road: u16) -> (r: Option<usize>)
        requires
            forall|i: int, j: int|
                0 <= i < j < self.spec_roads().len() ==> (#[trigger] self.spec_roads()[i]).road
                    != (#[trigger] self.spec_roads()[j]).road,
        ensures
            match self.road_index(road) {
                Option::Some(i) => r == Option::Some(i as usize) && 0 <= i
                    < self.spec_roads().len() && self.spec_roads()[i].road == road,
                Option::None => r is None,
            },
            r matches Option::Some(u) ==> self.road_index(road) == Option::Some(u as int),
    {
        let mut i: usize = 0;
        while i < self.roads.len()
            invariant
                i <= self.spec_roads().len(),
                forall|i2: int, j2: int|
                    0 <= i2 < j2 < self.spec_roads().len() ==> (
                    #[trigger] self.spec_roads()[i2]).road != (
                    #[trigger] self.spec_roads()[j2]).road,
                forall|k: int| 0 <= k < i ==> (#[trigger] self.spec_roads()[k]).road != road,
            decreases self.spec_roads().len() - i,
        {
            if self.roads[i].road == road {
                proof {
                    assert(self.spec_roads()[i as int].road == road);
                    let k = choose|k: int|
                        0 <= k < self.spec_roads().len() && self.spec_roads()[k].road == road;
                    if k < i {
                        assert(self.spec_roads()[k].road != road);
                    } else if i < k {
                        assert(self.spec_roads()[i as int].road != self.spec_roads()[k].road);
                    }
                }
                return Some(i);
            }
            i = i + 1;
        }
        proof {
            assert forall|k: int|
                0 <= k < self.spec_roads().len() implies (#[trigger] self.spec_roads()[k]).road
                != road by {}
        }
        None
    }

    /// Find the index of dispatcher `id`.
    fn find_dispatcher(&self, id: u64) -> (r: Option<usize>)
        requires
            forall|i: int, j: int|
                0 <= i < j < self.spec_dispatchers().len() ==> (
                #[trigger] self.spec_dispatchers()[i]).id != (
                #[trigger] self.spec_dispatchers()[j]).id,
        ensures
            match self.dispatcher_index(id) {
                Option::Some(j) => r == Option::Some(j as usize) && 0 <= j
                    < self.spec_dispatchers().len() && self.spec_dispatchers()[j].id == id,
                Option::None => r is None,
            },
            r matches Option::Some(u) ==> self.dispatcher_index(id) == Option::Some(u as int),
    {
        let mut i: usize = 0;
        while i < self.dispatchers.len()
            invariant
                i <= self.spec_dispatchers().len(),
                forall|i2: int, j2: int|
                    0 <= i2 < j2 < self.spec_dispatchers().len() ==> (
                    #[trigger] self.spec_dispatchers()[i2]).id != (
                    #[trigger] self.spec_dispatchers()[j2]).id,
                forall|k: int| 0 <= k < i ==> (#[trigger] self.spec_dispatchers()[k]).id != id,
            decreases self.spec_dispatchers().len() - i,
        {
            if self.dispatchers[i].id == id {
                proof {
                    assert(self.spec_dispatchers()[i as int].id == id);
                    let k = choose|k: int|
                        0 <= k < self.spec_dispatchers().len() && self.spec_dispatchers()[k].id
                            == id;
                    if k < i {
                        assert(self.spec_dispatchers()[k].id != id);
                    } else if i < k {
                        assert(self.spec_dispatchers()[i as int].id
                            != self.spec_dispatchers()[k].id);
                    }
                }
                return Some(i);
            }
            i = i + 1;
        }
        proof {
            assert forall|k: int|
                0 <= k < self.spec_dispatchers().len() implies (
                #[trigger] self.spec_dispatchers()[k]).id != id by {}
        }
        None
    }

    /// The first road entry, in entry order, that dispatcher `id`
    /// serves and whose outbox is not empty.
    pub open spec fn first_pending(s: Seq<RoadV>, id: u64) -> Option<int>
        decreases s.len(),
    {
        if s.len() == 0 {
            Option::None
        } else if s[0].holder == Option::Some(id) && s[0].outbox.len() > 0 {
            Option::Some(0)
        } else {
            match Self::first_pending(s.drop_first(), id) {
                Option::Some(i) => Option::Some(i + 1),
                Option::None => Option::None,
            }
        }
    }

    /// The first pending entry is the lowest index that is served by
    /// `id` with a nonempty outbox.
    proof fn lemma_first_pending_at(s: Seq<RoadV>, id: u64, i: int)
        requires
            0 <= i < s.len(),
            s[i].holder == Option::Some(id) && s[i].outbox.len() > 0,
            forall|k: int|
                0 <= k < i ==> !((#[trigger] s[k]).holder == Option::Some(id) && s[k].outbox.len()
                    > 0),
        ensures
            Self::first_pending(s, id) == Option::Some(i),
        decreases s.len(),
    {
        if i > 0 {
            assert(s.drop_first()[i - 1] == s[i]);
            assert forall|k: int|
                0 <= k < i - 1 implies !((#[trigger] s.drop_first()[k]).holder == Option::Some(id)
                && s.drop_first()[k].outbox.len() > 0) by {
                assert(s.drop_first()[k] == s[k + 1]);
            }
            Self::lemma_first_pending_at(s.drop_first(), id, i - 1);
        }
    }

    /// With no served entry pending, there is no first pending entry.
    proof fn lemma_first_pending_none(s: Seq<RoadV>, id: u64)
        requires
            forall|k: int|
                0 <= k < s.len() ==> !((#[trigger] s[k]).holder == Option::Some(id)
                    && s[k].outbox.len() > 0),
        ensures
            Self::first_pending(s, id) is None,
        decreases s.len(),
    {
        if s.len() > 0 {
            assert forall|k: int|
                0 <= k < s.drop_first().len() implies !((#[trigger] s.drop_first()[k]).holder
                == Option::Some(id) && s.drop_first()[k].outbox.len() > 0) by {
                assert(s.drop_first()[k] == s[k + 1]);
            }
            Self::lemma_first_pending_none(s.drop_first(), id);
        }
    }

    /// The next ticket owed to dispatcher `id`, without handing it out.
    pub fn peek_output(&self, id: u64) -> (r: Option<Ticket>)
        requires
            self.wf(),
        ensures
            match Self::first_pending(self.spec_roads(), id) {
                Option::Some(i) => r matches Option::Some(t) && t@
                    == self.spec_roads()[i].outbox[0],
                Option::None => r is None,
            },
            r is None <==> (forall|road: u16|
                self.holder_of(road) == Option::Some(id) ==> self.inflight_of(road).len() == 0),
            r matches Option::Some(t) ==> exists|road: u16|
                #[trigger] self.holder_of(road) == Option::Some(id) && self.inflight_of(
                    road,
                ).len() > 0 && t@ == self.inflight_of(road)[0] && t@.road == road,
    {
        let mut i: usize = 0;
        while i < self.roads.len()
            invariant
                self.wf(),
                i <= self.spec_roads().len(),
                forall|k: int|
                    0 <= k < i ==> !((#[trigger] self.spec_roads()[k]).holder == Option::Some(id)
                        && self.spec_roads()[k].outbox.len() > 0),
            decreases self.spec_roads().len() - i,
        {
            let held = match self.roads[i].holder {
                Some(h) => h == id,
                None => false,
            };
            if held && self.roads[i].outbox.len() > 0 {
                proof {
                    Self::lemma_first_pending_at(self.spec_roads(), id, i as int);
                    let road = self.spec_roads()[i as int].road;
                    let w = choose|w: int|
                        0 <= w < self.spec_roads().len() && self.spec_roads()[w].road == road;
                    if w < i {
                        assert(self.spec_roads()[w].road != self.spec_roads()[i as int].road);
                    } else if i < w {
                        assert(self.spec_roads()[i as int].road != self.spec_roads()[w].road);
                    }
                    assert(self.road_index(road) == Option::Some(i as int));
                    assert(self.holder_of(road) == Option::Some(id));
                    assert(self.inflight_of(road) == self.spec_roads()[i as int].outbox);
                    assert(self.spec_roads()[i as int].outbox[0].road == road);
                }
                return Some(clone_ticket(&self.roads[i].outbox[0]));
            }
            i = i + 1;
        }
        proof {
            Self::lemma_first_pending_none(self.spec_roads(), id);
            assert forall|road: u16|
                self.holder_of(road) == Option::Some(id) implies self.inflight_of(road).len()
                == 0 by {
                if self.road_index(road) is Some {
                    let k = self.road_index(road)->0;
                    assert(!(self.spec_roads()[k].holder == Option::Some(id)
                        && self.spec_roads()[k].outbox.len() > 0));
                }
            }
        }
        None
    }

    /// Hand the next ticket owed to dispatcher `id` out for sending:
    /// it moves from its road's outbox to the delivered record.
    pub fn confirm_output(&mut self, id: u64)
        requires
            old(self).wf(),
        ensures
            final(self).wf(),
            final(self).spec_dispatchers() == old(self).spec_dispatchers(),
            forall|r: u16| final(self).history_of(r) == old(self).history_of(r),
            forall|r: u16| final(self).holder_of(r) == old(self).holder_of(r),
            forall|r: u16| final(self).queue_of(r) == old(self).queue_of(r),
            match Self::first_pending(old(self).spec_roads(), id) {
                Option::Some(i) => {
                    let road = old(self).spec_roads()[i].road;
                    old(self).holder_of(road) == Option::Some(id) && old(self).inflight_of(
                        road,
                    ).len() > 0 && old(self).inflight_of(road)[0].road == road && final(self).delivered_of(road) == old(self).delivered_of(road).push(
                        old(self).spec_roads()[i].outbox[0],
                    ) && final(self).inflight_of(road) == old(self).inflight_of(
                        road,
                    ).drop_first() && old(self).inflight_of(road) == old(self).spec_roads()[i].outbox
                        && (forall|r: u16|
                        r != road ==> final(self).delivered_of(r) == old(self).delivered_of(r)
                            && final(self).inflight_of(r) == old(self).inflight_of(r))
                },
                Option::None => (forall|road: u16|
                    old(self).holder_of(road) == Option::Some(id) ==> old(self).inflight_of(
                        road,
                    ).len() == 0) && (forall|r: u16|
                    final(self).delivered_of(r) == old(self).delivered_of(r) && final(self).inflight_of(r) == old(self).inflight_of(r)) && final(self).spec_roads()
                    == old(self).spec_roads(),
            },
    {
        let ghost oldself = *old(self);
        let mut i: usize = 0;
        while i < self.roads.len()
            invariant
                *self == oldself,
                oldself == *old(self),
                oldself.wf(),
                i <= self.spec_roads().len(),
                forall|k: int|
                    0 <= k < i ==> !((#[trigger] self.spec_roads()[k]).holder == Option::Some(id)
                        && self.spec_roads()[k].outbox.len() > 0),
            decreases self.spec_roads().len() - i,
        {
            let held = match self.roads[i].holder {
                Some(h) => h == id,
                None => false,
            };
            if held && self.roads[i].outbox.len() > 0 {
                proof {
                    Self::lemma_first_pending_at(self.spec_roads(), id, i as int);
                }
                let road = self.roads[i].road;
                proof {
                    assert(oldself.spec_roads()[i as int].road == road);
                    let w = choose|w: int|
                        0 <= w < oldself.spec_roads().len() && oldself.spec_roads()[w].road == road;
                    if w < i {
                        assert(oldself.spec_roads()[w].road != oldself.spec_roads()[i as int].road);
                    } else if i < w {
                        assert(oldself.spec_roads()[i as int].road != oldself.spec_roads()[w].road);
                    }
                    assert(oldself.road_index(road) == Option::Some(i as int));
                    assert(oldself.holder_of(road) == Option::Some(id));
                    assert(oldself.inflight_of(road) == oldself.spec_roads()[i as int].outbox);
                    assert(oldself.spec_roads()[i as int].outbox[0].road == road);
                }
                let entry = &mut self.roads[i];
                let t = entry.outbox.remove(0);
                proof {
                    let tv = t@;
                    assert(tv == oldself.spec_roads()[i as int].outbox[0]);
                    self.delivered@ = self.delivered@.insert(
                        road,
                        oldself.delivered_of(road).push(tv),
                    );
                    assert(self.spec_roads() =~~= oldself.spec_roads().update(
                        i as int,
                        (RoadV {
                            outbox: oldself.spec_roads()[i as int].outbox.drop_first(),
                            ..oldself.spec_roads()[i as int]
                        }),
                    ));
                    Self::lemma_road_index_same(oldself, *self);
                    assert(self.spec_dispatchers() == oldself.spec_dispatchers());
                    Self::lemma_dispatcher_index_same(oldself, *self);
                    assert(self.road_index(road) == Option::Some(i as int));
                    assert forall|r: u16| r != road implies self.delivered_of(r)
                        == oldself.delivered_of(r) && self.inflight_of(r) == oldself.inflight_of(
                        r,
                    ) && self.queue_of(r) == oldself.queue_of(r) && self.holder_of(r)
                        == oldself.holder_of(r) by {
                        assert(self.road_index(r) == oldself.road_index(r));
                        if oldself.road_index(r) is Some {
                            let i2 = oldself.road_index(r)->0;
                            assert(i2 != i as int);
                            assert(self.spec_roads()[i2] == oldself.spec_roads()[i2]);
                        }
                    }
                    assert forall|road2: u16|
                        #![trigger self.history_of(road2)]
                        self.history_of(road2) == self.delivered_of(road2) + self.inflight_of(
                            road2,
                        ) + self.queue_of(road2) by {
                        assert(oldself.history_of(road2) == oldself.delivered_of(road2)
                            + oldself.inflight_of(road2) + oldself.queue_of(road2));
                        if road2 == road {
                            let ob = oldself.spec_roads()[i as int].outbox;
                            assert(ob =~= seq![tv] + ob.drop_first());
                            assert(oldself.delivered_of(road) + ob + oldself.queue_of(road)
                                =~= oldself.delivered_of(road).push(tv) + ob.drop_first()
                                + oldself.queue_of(road));
                        }
                    }
                    assert forall|road2: u16|
                        #![trigger self.queue_of(road2)]
                        self.road_index(road2) is None implies self.history_of(road2)
                        == Seq::<TicketV>::empty() && self.delivered_of(road2)
                        == Seq::<TicketV>::empty() by {
                        assert(self.road_index(road2) == oldself.road_index(road2));
                        assert(road2 != road);
                        let q = oldself.queue_of(road2);
                    }
                    assert forall|i2: int, k: int|
                        #![trigger self.spec_roads()[i2].outbox[k]]
                        0 <= i2 < self.spec_roads().len() && 0 <= k
                            < self.spec_roads()[i2].outbox.len() implies self.spec_roads()[i2].outbox[k].road
                        == self.spec_roads()[i2].road by {
                        if i2 == i as int {
                            assert(self.spec_roads()[i2].outbox[k]
                                == oldself.spec_roads()[i2].outbox[k + 1]);
                        }
                    }
                    assert forall|i2: int|
                        0 <= i2 < self.spec_roads().len() && (
                        #[trigger] self.spec_roads()[i2]).holder is Some implies (
                    self.dispatcher_index(self.spec_roads()[i2].holder->0) matches Option::Some(j2)
                        && self.spec_dispatchers()[j2].roads.contains(
                        self.spec_roads()[i2].road,
                    )) by {
                        assert(self.spec_roads()[i2].holder == oldself.spec_roads()[i2].holder);
                        assert(self.spec_roads()[i2].road == oldself.spec_roads()[i2].road);
                        let h = oldself.spec_roads()[i2].holder->0;
                        assert(self.dispatcher_index(h) == oldself.dispatcher_index(h));
                    }
                }
                return ;
            }
            i = i + 1;
        }
        proof {
            Self::lemma_first_pending_none(self.spec_roads(), id);
            assert forall|road: u16|
                oldself.holder_of(road) == Option::Some(id) implies oldself.inflight_of(
                road,
            ).len() == 0 by {
                if oldself.road_index(road) is Some {
                    let k = oldself.road_index(road)->0;
                    assert(!(self.spec_roads()[k].holder == Option::Some(id)
                        && self.spec_roads()[k].outbox.len() > 0));
                }
            }
        }
    }

    /// First-in first-out delivery per road: every ticket ever
    /// submitted for a road is accounted for, in submission order, by
    /// the delivered record, then the in-flight outbox, then the queue.
    pub proof fn lemma_routing_fifo(r: &Routing, road: u16)
        requires
            r.wf(),
        ensures
            r.history_of(road) == r.delivered_of(road) + r.inflight_of(road) + r.queue_of(road),
    {
    }

    /// Whether dispatcher `id` is registered.
    pub fn has_dispatcher(&self, id: u64) -> (r: bool)
        requires
            self.wf(),
        ensures
            r <==> self.dispatcher_index(id) is Some,
    {
        self.find_dispatcher(id).is_some()
    }
}

} // verus!
