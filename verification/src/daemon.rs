//! The daemon: the shared state behind all connections.
//!
//! A camera's observation is recorded, paired against every earlier
//! observation of the same plate on the same road, and each violating
//! pair, taken in order of its later timestamp, is minted as a ticket
//! unless a day it covers is already claimed for the plate; minted
//! tickets go to the routing layer for the road's dispatcher, or wait
//! in the road's queue.

use crate::engine::{clone_ticket, covers, tickets_view, TicketEngine};
use crate::msg::{IAmCamera, Plate, Ticket, TicketV};
use crate::routing::Routing;
use crate::store::{
    clamped_speed, gather_candidates, lemma_gather_valid, limit_lookup, mile_delta,
    valid_candidate, Observation, ObservationV, Store,
};
use vstd::prelude::*;

verus! {

/// Whether every day the candidate covers is unclaimed for its plate.
pub open spec fn offer_ok(claimed: Set<(Seq<char>, int)>, t: TicketV) -> bool {
    forall|d: int| covers(t, d) ==> !claimed.contains((t.plate, d))
}

/// The claimed days after minting `t`.
pub open spec fn claim_days(claimed: Set<(Seq<char>, int)>, t: TicketV) -> Set<(Seq<char>, int)> {
    claimed.union(Set::new(|pd: (Seq<char>, int)| pd.0 == t.plate && covers(t, pd.1)))
}

/// The tickets minted when the candidates are offered in order under
/// the per-day cap, starting from `claimed`.
pub open spec fn process_minted(claimed: Set<(Seq<char>, int)>, cs: Seq<TicketV>) -> Seq<TicketV>
    decreases cs.len(),
{
    if cs.len() == 0 {
        Seq::empty()
    } else if offer_ok(claimed, cs[0]) {
        seq![cs[0]] + process_minted(claim_days(claimed, cs[0]), cs.drop_first())
    } else {
        process_minted(claimed, cs.drop_first())
    }
}

/// The claimed days after offering the candidates in order.
pub open spec fn process_claimed(claimed: Set<(Seq<char>, int)>, cs: Seq<TicketV>) -> Set<
    (Seq<char>, int),
>
    decreases cs.len(),
{
    if cs.len() == 0 {
        claimed
    } else if offer_ok(claimed, cs[0]) {
        process_claimed(claim_days(claimed, cs[0]), cs.drop_first())
    } else {
        process_claimed(claimed, cs.drop_first())
    }
}

/// Offering one more candidate mints it exactly when its days are
/// still unclaimed after the ones before it.
pub proof fn lemma_process_push(claimed: Set<(Seq<char>, int)>, cs: Seq<TicketV>, t: TicketV)
    ensures
        process_minted(claimed, cs.push(t)) == process_minted(claimed, cs) + (if offer_ok(
            process_claimed(claimed, cs),
            t,
        ) {
            seq![t]
        } else {
            Seq::<TicketV>::empty()
        }),
        process_claimed(claimed, cs.push(t)) == (if offer_ok(process_claimed(claimed, cs), t) {
            claim_days(process_claimed(claimed, cs), t)
        } else {
            process_claimed(claimed, cs)
        }),
    decreases cs.len(),
{
    if cs.len() == 0 {
        assert(cs.push(t)[0] == t);
        assert(cs.push(t).drop_first() =~= Seq::<TicketV>::empty());
        assert(process_minted(claimed, cs) == Seq::<TicketV>::empty());
        assert(process_claimed(claimed, cs) == claimed);
        if offer_ok(claimed, t) {
            assert(process_minted(claim_days(claimed, t), Seq::<TicketV>::empty())
                == Seq::<TicketV>::empty());
            assert(process_claimed(claim_days(claimed, t), Seq::<TicketV>::empty()) == claim_days(
                claimed,
                t,
            ));
            assert(process_minted(claimed, cs.push(t)) =~= process_minted(claimed, cs) + seq![t]);
        } else {
            assert(process_minted(claimed, Seq::<TicketV>::empty()) == Seq::<TicketV>::empty());
            assert(process_claimed(claimed, Seq::<TicketV>::empty()) == claimed);
            assert(process_minted(claimed, cs.push(t)) =~= process_minted(claimed, cs)
                + Seq::<TicketV>::empty());
        }
    } else {
        assert(cs.push(t)[0] == cs[0]);
        assert(cs.push(t).drop_first() =~= cs.drop_first().push(t));
        if offer_ok(claimed, cs[0]) {
            lemma_process_push(claim_days(claimed, cs[0]), cs.drop_first(), t);
            assert(seq![cs[0]] + (process_minted(claim_days(claimed, cs[0]), cs.drop_first()) + (
            if offer_ok(process_claimed(claimed, cs), t) {
                seq![t]
            } else {
                Seq::<TicketV>::empty()
            })) =~= (seq![cs[0]] + process_minted(claim_days(claimed, cs[0]), cs.drop_first())) + (
            if offer_ok(process_claimed(claimed, cs), t) {
                seq![t]
            } else {
                Seq::<TicketV>::empty()
            }));
        } else {
            lemma_process_push(claimed, cs.drop_first(), t);
        }
    }
}

/// The observation a camera's `Plate` message denotes.
pub open spec fn obs_of(camera: IAmCamera, p: crate::msg::PlateV) -> ObservationV {
    ObservationV { plate: p.plate, road: camera.road, mile: camera.mile, timestamp: p.timestamp }
}

/// The limit in force for the camera's road: the first ever reported.
pub open spec fn eff_limit(limits: Seq<(u16, u16)>, camera: IAmCamera) -> u16 {
    match limit_lookup(limits, camera.road) {
        Option::Some(l) => l,
        Option::None => camera.limit,
    }
}

/// The shared state: observations and limits, the ticket engine, and
/// per-road ticket routing.
pub struct Daemon {
    store: Store,
    engine: TicketEngine,
    routing: Routing,
}

impl Daemon {
    /// Every recorded observation, in arrival order.
    pub closed spec fn spec_observations(&self) -> Seq<ObservationV> {
        self.store.spec_observations()
    }

    /// The recorded road limits, first report first.
    pub closed spec fn spec_limits(&self) -> Seq<(u16, u16)> {
        self.store.spec_limits()
    }

    /// Every minted ticket, in mint order.
    pub closed spec fn spec_minted(&self) -> Seq<TicketV> {
        self.engine.spec_minted()
    }

    /// The claimed (plate, day) pairs.
    pub closed spec fn spec_claimed(&self) -> Set<(Seq<char>, int)> {
        self.engine.spec_claimed()
    }

    /// Every ticket ever submitted for `road`, in submission order.
    pub closed spec fn history_of(&self, road: u16) -> Seq<TicketV> {
        self.routing.history_of(road)
    }

    /// Every ticket handed out for `road`, in the order handed out.
    pub closed spec fn delivered_of(&self, road: u16) -> Seq<TicketV> {
        self.routing.delivered_of(road)
    }

    /// The pending queue of `road`.
    pub closed spec fn queue_of(&self, road: u16) -> Seq<TicketV> {
        self.routing.queue_of(road)
    }

    /// The tickets of `road` assigned to its dispatcher, not yet sent.
    pub closed spec fn inflight_of(&self, road: u16) -> Seq<TicketV> {
        self.routing.inflight_of(road)
    }

    /// The dispatcher serving `road`, if any.
    pub closed spec fn holder_of(&self, road: u16) -> Option<u64> {
        self.routing.holder_of(road)
    }

    /// Whether dispatcher `id` is registered.
    pub closed spec fn spec_registered(&self, id: u64) -> bool {
        self.routing.dispatcher_index(id) is Some
    }

    /// The roads dispatcher `id` serves.
    pub closed spec fn roads_of(&self, id: u64) -> Seq<u16> {
        self.routing.roads_of(id)
    }

    /// The road entries, for locating pending output.
    pub closed spec fn spec_roads(&self) -> Seq<crate::routing::RoadV> {
        self.routing.spec_roads()
    }

    /// The daemon invariant: the engine and routing invariants hold,
    /// and every minted ticket is in time order, carries the rounded
    /// capped speed of its pair, and strictly violates the posted limit
    /// of its road, which is on record.
    pub closed spec fn wf(&self) -> bool {
        &&& self.engine.wf()
        &&& self.routing.wf()
        &&& forall|k: int|
            0 <= k < self.spec_minted().len() ==> {
                let t = #[trigger] self.spec_minted()[k];
                valid_candidate(t, eff_limit_of(self.spec_limits(), t.road))
                    && limit_lookup(self.spec_limits(), t.road) is Some
            }
    }

    /// A daemon with no observations, no tickets, and no dispatchers.
    pub fn new() -> (r: Daemon)
        ensures
            r.wf(),
            r.spec_observations() == Seq::<ObservationV>::empty(),
            r.spec_limits() == Seq::<(u16, u16)>::empty(),
            r.spec_minted() == Seq::<TicketV>::empty(),
            r.spec_claimed() == Set::<(Seq<char>, int)>::empty(),
            forall|road: u16| r.history_of(road) == Seq::<TicketV>::empty(),
            forall|road: u16| r.delivered_of(road) == Seq::<TicketV>::empty(),
            forall|road: u16| r.holder_of(road) is None,
            forall|road: u16| r.queue_of(road) == Seq::<TicketV>::empty(),
            forall|road: u16| r.inflight_of(road) == Seq::<TicketV>::empty(),
            forall|id: u64| !r.spec_registered(id),
    {
        let r = Daemon { store: Store::new(), engine: TicketEngine::new(), routing: Routing::new() };
        proof {
            assert forall|id: u64| !r.spec_registered(id) by {}
        }
        r
    }

    /// Record a camera's observation: store it, pair it against every
    /// earlier observation of the same plate on the same road, and,
    /// in order of later timestamp, mint each violating pair whose
    /// covered days are unclaimed, routing each minted ticket.
    pub fn record_plate(&mut self, camera: IAmCamera, plate: Plate)
        requires
            old(self).wf(),
        ensures
            final(self).wf(),
            final(self).spec_observations() == old(self).spec_observations().push(
                obs_of(camera, plate@),
            ),
            final(self).spec_limits() == (match limit_lookup(old(self).spec_limits(), camera.road) {
                Option::Some(_) => old(self).spec_limits(),
                Option::None => old(self).spec_limits().push((camera.road, camera.limit)),
            }),
            final(self).spec_minted() == old(self).spec_minted() + process_minted(
                old(self).spec_claimed(),
                gather_candidates(
                    old(self).spec_observations(),
                    obs_of(camera, plate@),
                    eff_limit(old(self).spec_limits(), camera),
                ),
            ),
            final(self).spec_claimed() == process_claimed(
                old(self).spec_claimed(),
                gather_candidates(
                    old(self).spec_observations(),
                    obs_of(camera, plate@),
                    eff_limit(old(self).spec_limits(), camera),
                ),
            ),
            final(self).history_of(camera.road) == old(self).history_of(camera.road)
                + process_minted(
                old(self).spec_claimed(),
                gather_candidates(
                    old(self).spec_observations(),
                    obs_of(camera, plate@),
                    eff_limit(old(self).spec_limits(), camera),
                ),
            ),
            forall|r: u16| r != camera.road ==> final(self).history_of(r) == old(self).history_of(r),
            forall|r: u16| final(self).delivered_of(r) == old(self).delivered_of(r),
            forall|r: u16| final(self).holder_of(r) == old(self).holder_of(r),
            forall|id: u64| final(self).spec_registered(id) == old(self).spec_registered(id),
            forall|id: u64| final(self).roads_of(id) == old(self).roads_of(id),
            old(self).holder_of(camera.road) is Some ==> final(self).inflight_of(camera.road)
                == old(self).inflight_of(camera.road) + process_minted(
                old(self).spec_claimed(),
                gather_candidates(
                    old(self).spec_observations(),
                    obs_of(camera, plate@),
                    eff_limit(old(self).spec_limits(), camera),
                ),
            ) && (forall|r: u16| final(self).queue_of(r) == old(self).queue_of(r)),
            old(self).holder_of(camera.road) is None ==> final(self).queue_of(camera.road) == old(self).queue_of(camera.road) + process_minted(
                old(self).spec_claimed(),
                gather_candidates(
                    old(self).spec_observations(),
                    obs_of(camera, plate@),
                    eff_limit(old(self).spec_limits(), camera),
                ),
            ) && (forall|r: u16| final(self).inflight_of(r) == old(self).inflight_of(r)),
            forall|r: u16|
                r != camera.road ==> final(self).queue_of(r) == old(self).queue_of(r) && final(self).inflight_of(r) == old(self).inflight_of(r),
    {
        let road = camera.road;
        let limit = self.store.road_limit(road, camera.limit);
        let obs = Observation {
            plate: crate::engine::clone_string(&plate.plate),
            road,
            mile: camera.mile,
            timestamp: plate.timestamp,
        };
        proof {
            assert(obs@ == obs_of(camera, plate@));
            assert(limit == eff_limit(old(self).spec_limits(), camera));
        }
        let mut cands = self.store.record(obs, limit);
        let ghost cs = tickets_view(cands@);
        let ghost old_claimed = self.engine.spec_claimed();
        let ghost old_minted = self.engine.spec_minted();
        let ghost old_routing_hist = self.routing.history_of(road);
        proof {
            lemma_gather_valid(old(self).spec_observations(), obs_of(camera, plate@), limit);
            assert(limit_lookup(self.store.spec_limits(), road) == Option::Some(limit));
        }
        let ghost done: int = 0;
        let mut m: usize = 0;
        while m < cands.len()
            invariant
                m <= cands@.len(),
                cs == tickets_view(cands@),
                old(self).wf(),
                limit == eff_limit(old(self).spec_limits(), camera),
                limit_lookup(self.store.spec_limits(), road) == Option::Some(limit),
                forall|k: int|
                    0 <= k < cs.len() ==> valid_candidate(#[trigger] cs[k], limit) && cs[k].road
                        == road,
                self.store.spec_limits() == (match limit_lookup(
                    old(self).spec_limits(),
                    camera.road,
                ) {
                    Option::Some(_) => old(self).spec_limits(),
                    Option::None => old(self).spec_limits().push((camera.road, camera.limit)),
                }),
                self.store.spec_observations() == old(self).spec_observations().push(
                    obs_of(camera, plate@),
                ),
                old_claimed == old(self).spec_claimed(),
                old_minted == old(self).spec_minted(),
                old_routing_hist == old(self).history_of(camera.road),
                self.engine.wf(),
                self.routing.wf(),
                self.engine.spec_minted() == old_minted + process_minted(
                    old_claimed,
                    cs.take(m as int),
                ),
                self.engine.spec_claimed() == process_claimed(old_claimed, cs.take(m as int)),
                self.routing.history_of(road) == old_routing_hist + process_minted(
                    old_claimed,
                    cs.take(m as int),
                ),
                forall|r: u16|
                    r != road ==> self.routing.history_of(r) == old(self).routing.history_of(r),
                forall|r: u16| self.routing.delivered_of(r) == old(self).routing.delivered_of(r),
                forall|r: u16| self.routing.holder_of(r) == old(self).routing.holder_of(r),
                self.routing.spec_dispatchers() == old(self).routing.spec_dispatchers(),
                old(self).routing.holder_of(road) is Some ==> self.routing.inflight_of(road) == old(self).routing.inflight_of(road) + process_minted(old_claimed, cs.take(m as int)) && (
                forall|r: u16| self.routing.queue_of(r) == old(self).routing.queue_of(r)),
                old(self).routing.holder_of(road) is None ==> self.routing.queue_of(road) == old(self).routing.queue_of(road) + process_minted(old_claimed, cs.take(m as int)) && (
                forall|r: u16| self.routing.inflight_of(r) == old(self).routing.inflight_of(r)),
                forall|r: u16|
                    r != road ==> self.routing.queue_of(r) == old(self).routing.queue_of(r)
                        && self.routing.inflight_of(r) == old(self).routing.inflight_of(r),
            decreases cands@.len() - m,
        {
            let t = clone_ticket(&cands[m]);
            let ghost tv = t@;
            proof {
                assert(tv == cs[m as int]);
                assert(valid_candidate(tv, limit));
                assert(cs.take(m as int + 1) =~= cs.take(m as int).push(tv));
                lemma_process_push(old_claimed, cs.take(m as int), tv);
            }
            let minted = self.engine.offer(t);
            if minted {
                let t2 = clone_ticket(&cands[m]);
                proof {
                    assert(offer_ok(process_claimed(old_claimed, cs.take(m as int)), tv));
                    assert(process_minted(old_claimed, cs.take(m as int + 1)) =~= process_minted(
                        old_claimed,
                        cs.take(m as int),
                    ).push(tv));
                }
                self.routing.submit(t2);
                proof {
                    assert(self.routing.history_of(road) =~= old_routing_hist + process_minted(
                        old_claimed,
                        cs.take(m as int + 1),
                    ));
                    if old(self).routing.holder_of(road) is Some {
                        assert(self.routing.inflight_of(road) =~= old(self).routing.inflight_of(
                            road,
                        ) + process_minted(old_claimed, cs.take(m as int + 1)));
                    } else {
                        assert(self.routing.queue_of(road) =~= old(self).routing.queue_of(road)
                            + process_minted(old_claimed, cs.take(m as int + 1)));
                    }
                    assert(self.engine.spec_minted() =~= old_minted + process_minted(
                        old_claimed,
                        cs.take(m as int + 1),
                    ));
                }
            } else {
                proof {
                    assert(!offer_ok(process_claimed(old_claimed, cs.take(m as int)), tv));
                    assert(process_minted(old_claimed, cs.take(m as int + 1)) =~= process_minted(
                        old_claimed,
                        cs.take(m as int),
                    ));
                    assert(self.engine.spec_minted() =~= old_minted + process_minted(
                        old_claimed,
                        cs.take(m as int + 1),
                    ));
                }
            }
            m = m + 1;
        }
        proof {
            assert(cs.take(cs.len() as int) =~= cs);
            // The minted-ticket invariant: old tickets keep their
            // recorded limits; new ones are valid for the road's limit,
            // which is now on record.
            assert forall|k: int| 0 <= k < self.spec_minted().len() implies {
                let t = #[trigger] self.spec_minted()[k];
                valid_candidate(t, eff_limit_of(self.spec_limits(), t.road)) && limit_lookup(
                    self.spec_limits(),
                    t.road,
                ) is Some
            } by {
                let t = self.spec_minted()[k];
                lemma_limit_lookup_stable(old(self).spec_limits(), self.spec_limits(), t.road);
                if k < old_minted.len() {
                    assert(old(self).spec_minted()[k] == t);
                } else {
                    let newly = process_minted(old_claimed, cs);
                    assert(t == newly[k - old_minted.len()]);
                    lemma_process_minted_elems(old_claimed, cs);
                    let w = choose|w: int| 0 <= w < cs.len() && cs[w] == t;
                    assert(valid_candidate(t, limit));
                    assert(limit_lookup(self.spec_limits(), road) == Option::Some(limit));
                }
            }
        }
    }

    /// Register dispatcher `id` for `roads`: it serves every listed
    /// road that lacked a dispatcher, whose queued tickets drain, in
    /// order, to its output.
    pub fn register_dispatcher(&mut self, id: u64, roads: Vec<u16>)
        requires
            old(self).wf(),
            !old(self).spec_registered(id),
        ensures
            final(self).wf(),
            final(self).spec_registered(id),
            final(self).roads_of(id) == roads@,
            final(self).spec_minted() == old(self).spec_minted(),
            final(self).spec_observations() == old(self).spec_observations(),
            forall|r: u16| final(self).history_of(r) == old(self).history_of(r),
            forall|r: u16| final(self).delivered_of(r) == old(self).delivered_of(r),
            forall|r: u16|
                #![trigger final(self).holder_of(r)]
                roads@.contains(r) && old(self).holder_of(r) is None ==> final(self).holder_of(r)
                    == Option::Some(id) && final(self).inflight_of(r) == old(self).queue_of(r)
                    && final(self).queue_of(r) == Seq::<TicketV>::empty(),
            forall|r: u16|
                #![trigger final(self).holder_of(r)]
                !(roads@.contains(r) && old(self).holder_of(r) is None) ==> final(self).holder_of(
                    r,
                ) == old(self).holder_of(r) && final(self).inflight_of(r) == old(self).inflight_of(
                    r,
                ) && final(self).queue_of(r) == old(self).queue_of(r),
    {
        self.routing.register_dispatcher(id, roads);
    }

    /// Unregister dispatcher `id`; its roads pass to other dispatchers
    /// or get their unsent tickets back as queues.
    pub fn unregister_dispatcher(&mut self, id: u64)
        requires
            old(self).wf(),
        ensures
            final(self).wf(),
            !final(self).spec_registered(id),
            final(self).spec_minted() == old(self).spec_minted(),
            final(self).spec_observations() == old(self).spec_observations(),
            forall|r: u16| final(self).history_of(r) == old(self).history_of(r),
            forall|r: u16| final(self).delivered_of(r) == old(self).delivered_of(r),
            forall|r: u16|
                #![trigger final(self).holder_of(r)]
                old(self).holder_of(r) != Option::Some(id) ==> final(self).holder_of(r) == old(self).holder_of(r) && final(self).queue_of(r) == old(self).queue_of(r) && final(self).inflight_of(r) == old(self).inflight_of(r),
            forall|r: u16|
                #![trigger final(self).holder_of(r)]
                old(self).holder_of(r) == Option::Some(id) ==> ((final(self).holder_of(r) is Some
                    && final(self).holder_of(r) != Option::Some(id) && final(self).inflight_of(r)
                    == old(self).inflight_of(r) && final(self).queue_of(r)
                    == Seq::<TicketV>::empty()) || (final(self).holder_of(r) is None && final(self).queue_of(r) == old(self).inflight_of(r) && final(self).inflight_of(r)
                    == Seq::<TicketV>::empty())),
    {
        self.routing.unregister_dispatcher(id);
    }

    /// The next ticket owed to dispatcher `id`, without handing it out.
    pub fn peek_output(&self, id: u64) -> (r: Option<Ticket>)
        requires
            self.wf(),
        ensures
            match Routing::first_pending(self.spec_roads(), id) {
                Option::Some(i) => r matches Option::Some(t) && t@
                    == self.spec_roads()[i].outbox[0],
                Option::None => r is None,
            },
            r is None <==> (forall|road: u16|
                self.holder_of(road) == Option::Some(id) ==> self.inflight_of(road).len() == 0),
            r matches Option::Some(t) ==> exists|road: u16|
                #[trigger] self.holder_of(road) == Option::Some(id) && self.inflight_of(
                    road,
                ).len() > 0 && t@ == self.inflight_of(road)[0] && t@.road == road,
    {
        let r = self.routing.peek_output(id);
        proof {
            if r is Some {
                let t = r->0;
                let road = choose|road: u16|
                    #[trigger] self.routing.holder_of(road) == Option::Some(id)
                        && self.routing.inflight_of(road).len() > 0 && t@
                        == self.routing.inflight_of(road)[0] && t@.road == road;
                assert(self.holder_of(road) == Option::Some(id) && self.inflight_of(road).len() > 0
                    && t@ == self.inflight_of(road)[0] && t@.road == road);
            } else {
                assert forall|road: u16|
                    self.holder_of(road) == Option::Some(id) implies self.inflight_of(road).len()
                    == 0 by {
                    assert(self.routing.holder_of(road) == Option::Some(id));
                }
            }
        }
        r
    }

    /// Hand the next ticket owed to dispatcher `id` out for sending.
    pub fn confirm_output(&mut self, id: u64)
        requires
            old(self).wf(),
        ensures
            final(self).wf(),
            final(self).spec_minted() == old(self).spec_minted(),
            final(self).spec_observations() == old(self).spec_observations(),
            forall|r: u16| final(self).history_of(r) == old(self).history_of(r),
            forall|r: u16| final(self).holder_of(r) == old(self).holder_of(r),
            forall|r: u16| final(self).queue_of(r) == old(self).queue_of(r),
            match Routing::first_pending(old(self).spec_roads(), id) {
                Option::Some(i) => {
                    let road = old(self).spec_roads()[i].road;
                    old(self).holder_of(road) == Option::Some(id) && old(self).inflight_of(
                        road,
                    ).len() > 0 && old(self).inflight_of(road)[0].road == road && final(
                        self).delivered_of(road) == old(self).delivered_of(road).push(
                        old(self).spec_roads()[i].outbox[0],
                    ) && final(self).inflight_of(road) == old(self).inflight_of(
                        road,
                    ).drop_first() && old(self).inflight_of(road) == old(self).spec_roads()[i].outbox && (forall|r: u16|
                        r != road ==> final(self).delivered_of(r) == old(self).delivered_of(r)
                            && final(self).inflight_of(r) == old(self).inflight_of(r))
                },
                Option::None => (forall|road: u16|
                    old(self).holder_of(road) == Option::Some(id) ==> old(self).inflight_of(
                        road,
                    ).len() == 0) && (forall|r: u16|
                    final(self).delivered_of(r) == old(self).delivered_of(r) && final(
                        self).inflight_of(r) == old(self).inflight_of(r)) && final(
                    self).spec_roads() == old(self).spec_roads(),
            },
    {
        self.routing.confirm_output(id);
        proof {
            let fp = Routing::first_pending(old(self).spec_roads(), id);
            if fp is Some {
                let i = fp->0;
                let road = old(self).spec_roads()[i].road;
                assert(old(self).routing.holder_of(road) == Option::Some(id));
                assert forall|r2: u16|
                    r2 != road implies self.delivered_of(r2) == old(self).delivered_of(r2)
                    && self.inflight_of(r2) == old(self).inflight_of(r2) by {
                    assert(self.routing.delivered_of(r2) == old(self).routing.delivered_of(r2));
                    assert(self.routing.inflight_of(r2) == old(self).routing.inflight_of(r2));
                }
            } else {
                assert forall|road: u16|
                    old(self).holder_of(road) == Option::Some(id) implies old(self).inflight_of(
                    road,
                ).len() == 0 by {
                    assert(old(self).routing.holder_of(road) == Option::Some(id));
                }
                assert forall|r2: u16|
                    self.delivered_of(r2) == old(self).delivered_of(r2) && self.inflight_of(r2)
                    == old(self).inflight_of(r2) by {
                    assert(self.routing.delivered_of(r2) == old(self).routing.delivered_of(r2));
                    assert(self.routing.inflight_of(r2) == old(self).routing.inflight_of(r2));
                }
            }
        }
    }

    /// Whether dispatcher `id` is registered.
    pub fn has_dispatcher(&self, id: u64) -> (r: bool)
        requires
            self.wf(),
        ensures
            r == self.spec_registered(id),
    {
        self.routing.has_dispatcher(id)
    }

    /// Per-plate per-day uniqueness: the day ranges of two distinct
    /// minted tickets for one plate never share a day.
    pub proof fn lemma_per_day_uniqueness(&self, i: int, j: int, d: int)
        requires
            self.wf(),
            0 <= i < self.spec_minted().len(),
            0 <= j < self.spec_minted().len(),
            i != j,
            self.spec_minted()[i].plate == self.spec_minted()[j].plate,
            covers(self.spec_minted()[i], d),
        ensures
            !covers(self.spec_minted()[j], d),
    {
        crate::engine::lemma_per_day_uniqueness(&self.engine, i, j, d);
    }

    /// Speed correctness: every minted ticket is in time order, carries
    /// the rounded capped speed of its observations, and strictly
    /// violates its road's recorded limit.
    pub proof fn lemma_speed_correct(&self, k: int)
        requires
            self.wf(),
            0 <= k < self.spec_minted().len(),
        ensures
            ({
                let t = self.spec_minted()[k];
                &&& t.timestamp1 < t.timestamp2
                &&& t.speed == clamped_speed(
                    mile_delta(t.mile1, t.mile2),
                    t.timestamp2 - t.timestamp1,
                )
                &&& limit_lookup(self.spec_limits(), t.road) is Some
                &&& crate::engine::is_violation(
                    mile_delta(t.mile1, t.mile2),
                    t.timestamp2 - t.timestamp1,
                    limit_lookup(self.spec_limits(), t.road)->0,
                )
            }),
    {
        assert(valid_candidate(
            self.spec_minted()[k],
            eff_limit_of(self.spec_limits(), self.spec_minted()[k].road),
        ));
    }

    /// First-in first-out delivery per road, over the whole history.
    pub proof fn lemma_fifo(&self, road: u16)
        requires
            self.wf(),
        ensures
            self.history_of(road) == self.delivered_of(road) + self.inflight_of(road)
                + self.queue_of(road),
    {
        Routing::lemma_routing_fifo(&self.routing, road);
    }
}

/// The recorded limit of `road`, or zero when none is on record.
pub open spec fn eff_limit_of(limits: Seq<(u16, u16)>, road: u16) -> u16 {
    match limit_lookup(limits, road) {
        Option::Some(l) => l,
        Option::None => 0u16,
    }
}

/// A recorded limit never changes: lookups in the extended record give
/// the same result.
proof fn lemma_limit_lookup_stable(a: Seq<(u16, u16)>, b: Seq<(u16, u16)>, road: u16)
    requires
        b == a || exists|r2: u16, l2: u16|
            b == a.push((r2, l2)) && limit_lookup(a, r2) is None,
    ensures
        limit_lookup(a, road) is Some ==> limit_lookup(b, road) == limit_lookup(a, road),
    decreases a.len(),
{
    if b == a {
    } else {
        let (r2, l2) = choose|r2: u16, l2: u16|
            b == a.push((r2, l2)) && limit_lookup(a, r2) is None;
        if limit_lookup(a, road) is Some {
            lemma_limit_lookup_push_other(a, r2, l2, road);
        }
    }
}

/// Appending a pair leaves lookups of already recorded roads unchanged.
proof fn lemma_limit_lookup_push_other(a: Seq<(u16, u16)>, r2: u16, l2: u16, road: u16)
    requires
        limit_lookup(a, road) is Some,
    ensures
        limit_lookup(a.push((r2, l2)), road) == limit_lookup(a, road),
    decreases a.len(),
{
    assert(a.len() > 0);
    assert(a.push((r2, l2))[0] == a[0]);
    if a[0].0 != road {
        assert(a.push((r2, l2)).drop_first() =~= a.drop_first().push((r2, l2)));
        lemma_limit_lookup_push_other(a.drop_first(), r2, l2, road);
    }
}

/// Every ticket that the ordered offering mints is one of the
/// candidates.
proof fn lemma_process_minted_elems(claimed: Set<(Seq<char>, int)>, cs: Seq<TicketV>)
    ensures
        forall|k: int|
            0 <= k < process_minted(claimed, cs).len() ==> exists|w: int|
                0 <= w < cs.len() && cs[w] == #[trigger] process_minted(claimed, cs)[k],
    decreases cs.len(),
{
    if cs.len() > 0 {
        if offer_ok(claimed, cs[0]) {
            lemma_process_minted_elems(claim_days(claimed, cs[0]), cs.drop_first());
            assert forall|k: int| 0 <= k < process_minted(claimed, cs).len() implies exists|w: int|
                0 <= w < cs.len() && cs[w] == #[trigger] process_minted(claimed, cs)[k] by {
                if k == 0 {
                    assert(cs[0] == process_minted(claimed, cs)[0]);
                } else {
                    let v = process_minted(claim_days(claimed, cs[0]), cs.drop_first())[k - 1];
                    assert(process_minted(claimed, cs)[k] == v);
                    let w = choose|w: int| 0 <= w < cs.drop_first().len() && cs.drop_first()[w] == v;
                    assert(cs[w + 1] == v);
                }
            }
        } else {
            lemma_process_minted_elems(claimed, cs.drop_first());
            assert forall|k: int| 0 <= k < process_minted(claimed, cs).len() implies exists|w: int|
                0 <= w < cs.len() && cs[w] == #[trigger] process_minted(claimed, cs)[k] by {
                let v = process_minted(claimed, cs.drop_first())[k];
                assert(process_minted(claimed, cs)[k] == v);
                let w = choose|w: int| 0 <= w < cs.drop_first().len() && cs.drop_first()[w] == v;
                assert(cs[w + 1] == v);
            }
        }
    }
}

} // verus!
