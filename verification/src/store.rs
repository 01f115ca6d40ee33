//! The observation store: every recorded plate observation, the posted
//! limit of each road, and the candidate tickets a new observation
//! yields against every earlier observation of the same plate on the
//! same road.
//!
//! Candidates are produced sorted by their later timestamp, so the
//! ticket engine considers short spans first and fits more tickets
//! under the per-day cap.

use crate::engine::{is_violation, speed100_of, tickets_view};
use crate::msg::{Ticket, TicketV};
use vstd::prelude::*;

verus! {

/// A single camera report: a plate seen at a mile on a road at a time.
#[derive(Clone, Debug, PartialEq, Eq)]
pub struct Observation {
    pub plate: String,
    pub road: u16,
    pub mile: u16,
    pub timestamp: u32,
}

/// The view of an observation.
#[verifier::ext_equal]
pub struct ObservationV {
    pub plate: Seq<char>,
    pub road: u16,
    pub mile: u16,
    pub timestamp: u32,
}

impl View for Observation {
    type V = ObservationV;

    open spec fn view(&self) -> ObservationV {
        ObservationV {
            plate: self.plate@,
            road: self.road,
            mile: self.mile,
            timestamp: self.timestamp,
        }
    }
}

/// The views of a list of observations.
pub open spec fn obs_view(s: Seq<Observation>) -> Seq<ObservationV> {
    s.map_values(|o: Observation| o@)
}

/// The absolute distance between two mile markers.
pub open spec fn mile_delta(a: u16, b: u16) -> int {
    if a <= b {
        b - a
    } else {
        a - b
    }
}

/// The encoded speed of a pair: the rounded value, capped at the
/// largest encodable speed.
pub open spec fn clamped_speed(dm: int, dt: int) -> u16 {
    if speed100_of(dm, dt) > 0xffff {
        0xffffu16
    } else {
        speed100_of(dm, dt) as u16
    }
}

/// The candidate ticket of an earlier observation `o` against the new
/// observation `n` of the same plate on the same road: ordered by
/// time, skipped when simultaneous, and kept only when the average
/// speed strictly exceeds `limit`.
pub open spec fn candidate_of(o: ObservationV, n: ObservationV, limit: u16) -> Option<TicketV> {
    let e = if o.timestamp <= n.timestamp {
        o
    } else {
        n
    };
    let l = if o.timestamp <= n.timestamp {
        n
    } else {
        o
    };
    if e.timestamp == l.timestamp {
        Option::None
    } else {
        let dm = mile_delta(e.mile, l.mile);
        let dt = l.timestamp - e.timestamp;
        if is_violation(dm, dt, limit) {
            Option::Some(
                TicketV {
                    plate: n.plate,
                    road: n.road,
                    mile1: e.mile,
                    timestamp1: e.timestamp,
                    mile2: l.mile,
                    timestamp2: l.timestamp,
                    speed: clamped_speed(dm, dt),
                },
            )
        } else {
            Option::None
        }
    }
}

/// Insertion before the first element with a strictly later second
/// timestamp, keeping earlier equal keys in place.
pub open spec fn insert_by_ts2(s: Seq<TicketV>, t: TicketV) -> Seq<TicketV>
    decreases s.len(),
{
    if s.len() == 0 {
        seq![t]
    } else if s[0].timestamp2 <= t.timestamp2 {
        seq![s[0]] + insert_by_ts2(s.drop_first(), t)
    } else {
        seq![t] + s
    }
}

/// Every candidate of the earlier observations against `n`, sorted by
/// second timestamp.
pub open spec fn gather_candidates(prior: Seq<ObservationV>, n: ObservationV, limit: u16) -> Seq<
    TicketV,
>
    decreases prior.len(),
{
    if prior.len() == 0 {
        Seq::empty()
    } else {
        let rest = gather_candidates(prior.drop_last(), n, limit);
        let o = prior.last();
        if o.plate == n.plate && o.road == n.road {
            match candidate_of(o, n, limit) {
                Option::Some(t) => insert_by_ts2(rest, t),
                Option::None => rest,
            }
        } else {
            rest
        }
    }
}

/// A candidate ticket is well formed for its limit: in time order,
/// a strict violation, and carrying the rounded, capped speed.
pub open spec fn valid_candidate(t: TicketV, limit: u16) -> bool {
    &&& t.timestamp1 < t.timestamp2
    &&& is_violation(mile_delta(t.mile1, t.mile2), t.timestamp2 - t.timestamp1, limit)
    &&& t.speed == clamped_speed(mile_delta(t.mile1, t.mile2), t.timestamp2 - t.timestamp1)
}

/// Non-decreasing second timestamps.
pub open spec fn sorted_by_ts2(s: Seq<TicketV>) -> bool {
    forall|i: int, j: int| 0 <= i < j < s.len() ==> s[i].timestamp2 <= s[j].timestamp2
}

/// Insertion yields the original elements plus the inserted one.
pub proof fn lemma_insert_by_ts2_elems(s: Seq<TicketV>, t: TicketV)
    ensures
        insert_by_ts2(s, t).len() == s.len() + 1,
        forall|k: int|
            0 <= k < insert_by_ts2(s, t).len() ==> (#[trigger] insert_by_ts2(s, t)[k] == t || exists|
                m: int,
            | 0 <= m < s.len() && s[m] == insert_by_ts2(s, t)[k]),
    decreases s.len(),
{
    if s.len() == 0 {
    } else if s[0].timestamp2 <= t.timestamp2 {
        lemma_insert_by_ts2_elems(s.drop_first(), t);
        assert forall|k: int| 0 <= k < insert_by_ts2(s, t).len() implies (
        #[trigger] insert_by_ts2(s, t)[k] == t || exists|m: int|
            0 <= m < s.len() && s[m] == insert_by_ts2(s, t)[k]) by {
            if k == 0 {
                assert(s[0] == insert_by_ts2(s, t)[0]);
            } else {
                let v = insert_by_ts2(s, t)[k];
                assert(v == insert_by_ts2(s.drop_first(), t)[k - 1]);
                if v != t {
                    let m = choose|m: int| 0 <= m < s.drop_first().len() && s.drop_first()[m] == v;
                    assert(s[m + 1] == v);
                }
            }
        }
    }
}

/// Insertion into a sorted sequence stays sorted.
pub proof fn lemma_insert_by_ts2_sorted(s: Seq<TicketV>, t: TicketV)
    requires
        sorted_by_ts2(s),
    ensures
        sorted_by_ts2(insert_by_ts2(s, t)),
    decreases s.len(),
{
    if s.len() == 0 {
    } else if s[0].timestamp2 <= t.timestamp2 {
        assert(sorted_by_ts2(s.drop_first())) by {
            assert forall|i: int, j: int|
                0 <= i < j < s.drop_first().len() implies s.drop_first()[i].timestamp2
                <= s.drop_first()[j].timestamp2 by {
                assert(s.drop_first()[i] == s[i + 1] && s.drop_first()[j] == s[j + 1]);
            }
        }
        lemma_insert_by_ts2_sorted(s.drop_first(), t);
        lemma_insert_by_ts2_elems(s.drop_first(), t);
        let r = insert_by_ts2(s, t);
        assert forall|i: int, j: int| 0 <= i < j < r.len() implies r[i].timestamp2
            <= r[j].timestamp2 by {
            if i == 0 {
                let v = insert_by_ts2(s.drop_first(), t)[j - 1];
                assert(r[j] == v);
                if v == t {
                } else {
                    let m = choose|m: int| 0 <= m < s.drop_first().len() && s.drop_first()[m] == v;
                    assert(s[m + 1] == v);
                    assert(s[0].timestamp2 <= s[m + 1].timestamp2);
                }
            } else {
                assert(r[i] == insert_by_ts2(s.drop_first(), t)[i - 1]);
                assert(r[j] == insert_by_ts2(s.drop_first(), t)[j - 1]);
            }
        }
    }
}

/// Every gathered candidate is a valid candidate for the new
/// observation's plate and road.
pub proof fn lemma_gather_valid(prior: Seq<ObservationV>, n: ObservationV, limit: u16)
    ensures
        forall|k: int|
            0 <= k < gather_candidates(prior, n, limit).len() ==> {
                let t = #[trigger] gather_candidates(prior, n, limit)[k];
                valid_candidate(t, limit) && t.plate == n.plate && t.road == n.road
            },
    decreases prior.len(),
{
    if prior.len() > 0 {
        lemma_gather_valid(prior.drop_last(), n, limit);
        let rest = gather_candidates(prior.drop_last(), n, limit);
        let o = prior.last();
        if o.plate == n.plate && o.road == n.road {
            match candidate_of(o, n, limit) {
                Option::Some(t) => {
                    lemma_insert_by_ts2_elems(rest, t);
                    assert(valid_candidate(t, limit) && t.plate == n.plate && t.road == n.road);
                    assert forall|k: int|
                        0 <= k < gather_candidates(prior, n, limit).len() implies {
                            let t2 = #[trigger] gather_candidates(prior, n, limit)[k];
                            valid_candidate(t2, limit) && t2.plate == n.plate && t2.road == n.road
                        } by {
                        let t2 = gather_candidates(prior, n, limit)[k];
                        if t2 != t {
                            let m = choose|m: int| 0 <= m < rest.len() && rest[m] == t2;
                        }
                    }
                },
                Option::None => {},
            }
        }
    }
}

/// The gathered candidates come sorted by second timestamp.
pub proof fn lemma_gather_sorted(prior: Seq<ObservationV>, n: ObservationV, limit: u16)
    ensures
        sorted_by_ts2(gather_candidates(prior, n, limit)),
    decreases prior.len(),
{
    if prior.len() > 0 {
        lemma_gather_sorted(prior.drop_last(), n, limit);
        let rest = gather_candidates(prior.drop_last(), n, limit);
        let o = prior.last();
        if o.plate == n.plate && o.road == n.road {
            match candidate_of(o, n, limit) {
                Option::Some(t) => {
                    lemma_insert_by_ts2_sorted(rest, t);
                },
                Option::None => {},
            }
        }
    }
}

/// Insertion at the first position whose key is strictly later.
proof fn lemma_insert_by_ts2_split(s: Seq<TicketV>, t: TicketV, j: int)
    requires
        0 <= j <= s.len(),
        forall|k: int| 0 <= k < j ==> (#[trigger] s[k]).timestamp2 <= t.timestamp2,
        j < s.len() ==> s[j].timestamp2 > t.timestamp2,
    ensures
        insert_by_ts2(s, t) == s.take(j) + seq![t] + s.skip(j),
    decreases s.len(),
{
    if s.len() == 0 {
        assert(insert_by_ts2(s, t) =~= s.take(j) + seq![t] + s.skip(j));
    } else if j == 0 {
        assert(s.take(0) =~= Seq::<TicketV>::empty());
        assert(s.skip(0) =~= s);
        assert(insert_by_ts2(s, t) =~= s.take(0) + seq![t] + s.skip(0));
    } else {
        assert(s[0].timestamp2 <= t.timestamp2);
        assert forall|k: int| 0 <= k < j - 1 implies (#[trigger] s.drop_first()[k]).timestamp2
            <= t.timestamp2 by {
            assert(s.drop_first()[k] == s[k + 1]);
        }
        if j - 1 < s.drop_first().len() {
            assert(s.drop_first()[j - 1] == s[j]);
        }
        lemma_insert_by_ts2_split(s.drop_first(), t, j - 1);
        assert(insert_by_ts2(s, t) =~= s.take(j) + seq![t] + s.skip(j));
    }
}

/// First-match lookup of a road's posted limit.
pub open spec fn limit_lookup(s: Seq<(u16, u16)>, road: u16) -> Option<u16>
    decreases s.len(),
{
    if s.len() == 0 {
        Option::None
    } else if s[0].0 == road {
        Option::Some(s[0].1)
    } else {
        limit_lookup(s.drop_first(), road)
    }
}

/// Holds every observation ever recorded and each road's posted limit.
pub struct Store {
    observations: Vec<Observation>,
    limits: Vec<(u16, u16)>,
}

impl Store {
    /// Every recorded observation, in arrival order.
    pub closed spec fn spec_observations(&self) -> Seq<ObservationV> {
        obs_view(self.observations@)
    }

    /// The recorded road limits, first report first.
    pub closed spec fn spec_limits(&self) -> Seq<(u16, u16)> {
        self.limits@
    }

    /// An empty store.
    pub fn new() -> (r: Store)
        ensures
            r.spec_observations() == Seq::<ObservationV>::empty(),
            r.spec_limits() == Seq::<(u16, u16)>::empty(),
    {
        let r = Store { observations: Vec::new(), limits: Vec::new() };
        proof {
            assert(r.spec_observations() =~= Seq::<ObservationV>::empty());
        }
        r
    }

    /// The road's effective limit: the first ever reported wins; a
    /// first report is recorded.
    pub fn road_limit(&mut self, road: u16, limit: u16) -> (r: u16)
        ensures
            final(self).spec_observations() == old(self).spec_observations(),
            match limit_lookup(old(self).spec_limits(), road) {
                Option::Some(l) => r == l && final(self).spec_limits() == old(self).spec_limits(),
                Option::None => r == limit && final(self).spec_limits() == old(
                    self,
                ).spec_limits().push((road, limit)),
            },
            limit_lookup(final(self).spec_limits(), road) == Option::Some(r),
    {
        proof {
            assert(self.limits@.skip(0) =~= self.limits@);
        }
        let mut i: usize = 0;
        while i < self.limits.len()
            invariant
                i <= self.limits@.len(),
                forall|k: int| 0 <= k < i ==> (#[trigger] self.limits@[k]).0 != road,
                limit_lookup(self.limits@, road) == limit_lookup(
                    self.limits@.skip(i as int),
                    road,
                ),
            decreases self.limits@.len() - i,
        {
            let pair = self.limits[i];
            proof {
                assert(self.limits@.skip(i as int)[0] == self.limits@[i as int]);
                assert(self.limits@.skip(i as int).drop_first() =~= self.limits@.skip(i as int + 1));
            }
            if pair.0 == road {
                return pair.1;
            }
            i = i + 1;
        }
        proof {
            assert(self.limits@.skip(i as int) =~= Seq::<(u16, u16)>::empty());
        }
        let ghost oldlim = self.limits@;
        self.limits.push((road, limit));
        proof {
            lemma_limit_lookup_push_absent(oldlim, road, limit);
        }
        limit
    }

    /// Record an observation and return the candidate tickets it forms
    /// with every earlier observation of the same plate on the same
    /// road, sorted by second timestamp.
    pub fn record(&mut self, obs: Observation, limit: u16) -> (cands: Vec<Ticket>)
        ensures
            final(self).spec_observations() == old(self).spec_observations().push(obs@),
            final(self).spec_limits() == old(self).spec_limits(),
            tickets_view(cands@) == gather_candidates(old(self).spec_observations(), obs@, limit),
    {
        let mut cands: Vec<Ticket> = Vec::new();
        let mut i: usize = 0;
        while i < self.observations.len()
            invariant
                i <= self.observations@.len(),
                *self == *old(self),
                tickets_view(cands@) == gather_candidates(
                    old(self).spec_observations().take(i as int),
                    obs@,
                    limit,
                ),
            decreases self.observations@.len() - i,
        {
            let ghost prior = old(self).spec_observations().take(i as int);
            let ghost rest = gather_candidates(prior, obs@, limit);
            proof {
                assert(old(self).spec_observations().take(i as int + 1).drop_last() =~= prior);
                assert(old(self).spec_observations().take(i as int + 1).last()
                    == old(self).spec_observations()[i as int]);
            }
            let o = &self.observations[i];
            if o.road == obs.road && o.plate.eq(&obs.plate) {
                let same_time = o.timestamp == obs.timestamp;
                if !same_time {
                    let (e_mile, e_ts, l_mile, l_ts) = if o.timestamp <= obs.timestamp {
                        (o.mile, o.timestamp, obs.mile, obs.timestamp)
                    } else {
                        (obs.mile, obs.timestamp, o.mile, o.timestamp)
                    };
                    let dm: u16 = if e_mile <= l_mile {
                        l_mile - e_mile
                    } else {
                        e_mile - l_mile
                    };
                    let dt: u32 = l_ts - e_ts;
                    proof {
                        assert((limit as int) * (dt as int) <= 0xffff * 0xffff_ffff)
                            by (nonlinear_arith)
                            requires
                                limit as int <= 0xffff,
                                dt as int <= 0xffff_ffff,
                        ;
                    }
                    if 3600u64 * (dm as u64) > (limit as u64) * (dt as u64) {
                        let speed = crate::engine::encoded_speed(dm, dt);
                        let t = Ticket {
                            plate: crate::engine::clone_string(&obs.plate),
                            road: obs.road,
                            mile1: e_mile,
                            timestamp1: e_ts,
                            mile2: l_mile,
                            timestamp2: l_ts,
                            speed,
                        };
                        proof {
                            assert(candidate_of(
                                old(self).spec_observations()[i as int],
                                obs@,
                                limit,
                            ) == Option::Some(t@));
                        }
                        // Find the insertion point: before the first
                        // candidate with a strictly later second timestamp.
                        let mut j: usize = 0;
                        while j < cands.len() && cands[j].timestamp2 <= t.timestamp2
                            invariant
                                j <= cands@.len(),
                                forall|k: int|
                                    0 <= k < j ==> (#[trigger] tickets_view(
                                        cands@,
                                    )[k]).timestamp2 <= t@.timestamp2,
                            decreases cands@.len() - j,
                        {
                            proof {
                                assert(tickets_view(cands@)[j as int].timestamp2
                                    == cands@[j as int]@.timestamp2);
                            }
                            j = j + 1;
                        }
                        let ghost oldcands = cands@;
                        proof {
                            if (j as int) < cands@.len() {
                                assert(tickets_view(cands@)[j as int].timestamp2 > t@.timestamp2);
                            }
                            lemma_insert_by_ts2_split(tickets_view(cands@), t@, j as int);
                        }
                        cands.insert(j, t);
                        proof {
                            assert(tickets_view(cands@) =~= tickets_view(oldcands).take(j as int)
                                + seq![t@] + tickets_view(oldcands).skip(j as int));
                            assert(tickets_view(cands@) == insert_by_ts2(rest, t@));
                        }
                    } else {
                        proof {
                            assert(candidate_of(
                                old(self).spec_observations()[i as int],
                                obs@,
                                limit,
                            ) is None);
                        }
                    }
                } else {
                    proof {
                        assert(candidate_of(
                            old(self).spec_observations()[i as int],
                            obs@,
                            limit,
                        ) is None);
                    }
                }
            }
            i = i + 1;
        }
        proof {
            assert(old(self).spec_observations().take(self.observations@.len() as int) =~= old(
                self,
            ).spec_observations());
        }
        self.observations.push(obs);
        proof {
            assert(self.spec_observations() =~= old(self).spec_observations().push(obs@));
        }
        cands
    }
}

/// Appending a pair for an absent road makes lookup find it.
proof fn lemma_limit_lookup_push_absent(s: Seq<(u16, u16)>, road: u16, limit: u16)
    requires
        limit_lookup(s, road) is None,
    ensures
        limit_lookup(s.push((road, limit)), road) == Option::Some(limit),
    decreases s.len(),
{
    if s.len() == 0 {
        assert(s.push((road, limit))[0] == (road, limit));
    } else {
        assert(s[0].0 != road);
        assert(s.push((road, limit))[0] == s[0]);
        assert(s.push((road, limit)).drop_first() =~= s.drop_first().push((road, limit)));
        lemma_limit_lookup_push_absent(s.drop_first(), road, limit);
    }
}

} // verus!
