//! The ticket engine: speed computation and the per-plate per-day cap.
//!
//! A candidate ticket is minted only when none of the calendar days it
//! covers has been claimed for its plate by an earlier ticket; minting
//! claims every covered day. A ticket covers every day from the day of
//! its first timestamp through the day of its second.

use crate::msg::{Ticket, TicketV};
use vstd::prelude::*;

verus! {

/// The day index of a timestamp: whole days since the epoch.
pub open spec fn day_of(ts: u32) -> int {
    ts as int / 86400
}

/// The day index of a timestamp.
pub fn day(ts: u32) -> (r: u32)
    ensures
        r == day_of(ts),
{
    ts / 86400
}

/// One hundred times the average speed in miles per hour over `dm` miles
/// and `dt` seconds, rounded half up.
pub open spec fn speed100_of(dm: int, dt: int) -> int {
    (720000 * dm + dt) / (2 * dt)
}

/// Whether `dm` miles in `dt` seconds strictly exceeds `limit` miles
/// per hour.
pub open spec fn is_violation(dm: int, dt: int, limit: u16) -> bool {
    3600 * dm > (limit as int) * dt
}

/// The encoded speed of a ticket: the rounded value, capped at the
/// largest encodable speed.
pub fn encoded_speed(dm: u16, dt: u32) -> (r: u16)
    requires
        dt > 0,
    ensures
        r == if speed100_of(dm as int, dt as int) > 0xffff {
            0xffffu16
        } else {
            speed100_of(dm as int, dt as int) as u16
        },
{
    let v: u64 = (720000u64 * (dm as u64) + (dt as u64)) / (2 * (dt as u64));
    if v > 0xffff {
        0xffff
    } else {
        v as u16
    }
}

/// A strict violation yields a rounded encoded speed of at least one
/// hundred times the limit.
pub proof fn lemma_violation_speed(dm: int, dt: int, limit: u16)
    requires
        0 < dt,
        0 <= dm,
        is_violation(dm, dt, limit),
    ensures
        speed100_of(dm, dt) >= 100 * limit,
{
    let l = limit as int;
    assert(3600 * dm >= l * dt + 1);
    assert(720000 * dm + dt >= (2 * dt) * (100 * l) + 200 + dt) by (nonlinear_arith)
        requires
            3600 * dm >= l * dt + 1,
            dt > 0,
    ;
    assert((720000 * dm + dt) / (2 * dt) >= 100 * l) by (nonlinear_arith)
        requires
            720000 * dm + dt >= (2 * dt) * (100 * l) + 200 + dt,
            dt > 0,
    ;
}

/// The days a ticket covers, as bounds: every `d` with
/// `day_of(timestamp1) <= d <= day_of(timestamp2)`.
pub open spec fn covers(t: TicketV, d: int) -> bool {
    day_of(t.timestamp1) <= d <= day_of(t.timestamp2)
}

/// A ticket the engine accepts: its observations are in time order.
pub open spec fn ordered_ticket(t: TicketV) -> bool {
    t.timestamp1 < t.timestamp2
}

/// The view of a minted-ticket list.
pub open spec fn tickets_view(s: Seq<Ticket>) -> Seq<TicketV> {
    s.map_values(|t: Ticket| t@)
}

/// Enforces the per-plate per-day cap and records every minted ticket.
pub struct TicketEngine {
    claimed: Vec<(String, u32)>,
    minted: Vec<Ticket>,
}

impl TicketEngine {
    /// The set of claimed (plate, day) pairs.
    pub closed spec fn spec_claimed(&self) -> Set<(Seq<char>, int)> {
        Set::new(
            |pd: (Seq<char>, int)|
                exists|i: int|
                    0 <= i < self.claimed@.len() && self.claimed@[i].0@ == pd.0
                        && self.claimed@[i].1 as int == pd.1,
        )
    }

    /// Every ticket minted so far, in mint order.
    pub closed spec fn spec_minted(&self) -> Seq<TicketV> {
        tickets_view(self.minted@)
    }

    /// Whether some minted ticket for `plate` covers day `d`.
    pub open spec fn minted_covers(&self, plate: Seq<char>, d: int) -> bool {
        exists|i: int|
            0 <= i < self.spec_minted().len() && self.spec_minted()[i].plate == plate && covers(
                self.spec_minted()[i],
                d,
            )
    }

    /// The engine's invariant: minted tickets are in time order, the
    /// claimed set is exactly the days covered by minted tickets, and no
    /// two minted tickets for one plate share a day.
    pub open spec fn wf(&self) -> bool {
        &&& forall|i: int|
            0 <= i < self.spec_minted().len() ==> ordered_ticket(#[trigger] self.spec_minted()[i])
        &&& forall|p: Seq<char>, d: int|
            self.spec_claimed().contains((p, d)) <==> self.minted_covers(p, d)
        &&& forall|i: int, j: int, d: int|
            #![trigger covers(self.spec_minted()[i], d), covers(self.spec_minted()[j], d)]
            0 <= i < self.spec_minted().len() && 0 <= j < self.spec_minted().len() && i != j
                && self.spec_minted()[i].plate == self.spec_minted()[j].plate && covers(
                self.spec_minted()[i],
                d,
            ) ==> !covers(self.spec_minted()[j], d)
    }

    /// An engine with nothing claimed and nothing minted.
    pub fn new() -> (r: TicketEngine)
        ensures
            r.wf(),
            r.spec_claimed() == Set::<(Seq<char>, int)>::empty(),
            r.spec_minted() == Seq::<TicketV>::empty(),
    {
        let r = TicketEngine { claimed: Vec::new(), minted: Vec::new() };
        proof {
            assert(r.spec_claimed() =~= Set::<(Seq<char>, int)>::empty());
            assert(r.spec_minted() =~= Seq::<TicketV>::empty());
        }
        r
    }

    /// Offer a candidate ticket: mint it unless a day it covers is
    /// already claimed for its plate; minting claims its days.
    pub fn offer(&mut self, t: Ticket) -> (r: bool)
        requires
            old(self).wf(),
            ordered_ticket(t@),
        ensures
            final(self).wf(),
            r <==> forall|d: int| covers(t@, d) ==> !old(self).spec_claimed().contains((t@.plate, d)),
            r ==> final(self).spec_minted() == old(self).spec_minted().push(t@),
            r ==> final(self).spec_claimed() == old(self).spec_claimed().union(
                Set::new(|pd: (Seq<char>, int)| pd.0 == t@.plate && covers(t@, pd.1)),
            ),
            !r ==> final(self).spec_minted() == old(self).spec_minted() && final(self).spec_claimed() == old(self).spec_claimed(),
    {
        let d1 = day(t.timestamp1);
        let d2 = day(t.timestamp2);
        let mut i: usize = 0;
        while i < self.claimed.len()
            invariant
                i <= self.claimed@.len(),
                *self == *old(self),
                self.wf(),
                d1 as int == day_of(t.timestamp1),
                d2 as int == day_of(t.timestamp2),
                forall|k: int|
                    0 <= k < i ==> !(#[trigger] self.claimed@[k].0@ == t.plate@ && d1
                        <= self.claimed@[k].1 <= d2),
            decreases self.claimed@.len() - i,
        {
            let pair = &self.claimed[i];
            if pair.1 >= d1 && pair.1 <= d2 && pair.0.eq(&t.plate) {
                proof {
                    assert(old(self).spec_claimed().contains((t@.plate, self.claimed@[i as int].1 as int)));
                    assert(covers(t@, self.claimed@[i as int].1 as int));
                }
                return false;
            }
            i = i + 1;
        }
        proof {
            assert forall|d: int| covers(t@, d) implies !old(self).spec_claimed().contains(
                (t@.plate, d),
            ) by {
                if old(self).spec_claimed().contains((t@.plate, d)) {
                    let k = choose|k: int|
                        0 <= k < self.claimed@.len() && self.claimed@[k].0@ == t@.plate
                            && self.claimed@[k].1 as int == d;
                    assert(!(self.claimed@[k].0@ == t.plate@ && d1 <= self.claimed@[k].1 <= d2));
                }
            }
        }
        let ghost old_claimed = self.spec_claimed();
        let mut d = d1;
        while d <= d2
            invariant
                d1 <= d <= d2 + 1,
                self.minted@ == old(self).minted@,
                d1 as int == day_of(t.timestamp1),
                d2 as int == day_of(t.timestamp2),
                self.spec_claimed() =~= old_claimed.union(
                    Set::new(
                        |pd: (Seq<char>, int)| pd.0 == t@.plate && d1 as int <= pd.1 < d as int,
                    ),
                ),
            decreases d2 + 1 - d,
        {
            let ghost prev_vec = self.claimed@;
            let ghost before = self.spec_claimed();
            let plate_copy = clone_string(&t.plate);
            self.claimed.push((plate_copy, d));
            proof {
                assert(self.claimed@ == prev_vec.push((plate_copy, d)));
                assert(self.claimed@.last().0@ == t@.plate && self.claimed@.last().1 == d);
                assert forall|pd: (Seq<char>, int)| self.spec_claimed().contains(pd) implies (
                before.contains(pd) || pd == (t@.plate, d as int)) by {
                    let k = choose|k: int|
                        0 <= k < self.claimed@.len() && self.claimed@[k].0@ == pd.0
                            && self.claimed@[k].1 as int == pd.1;
                    if k < prev_vec.len() {
                        assert(prev_vec[k] == self.claimed@[k]);
                        assert(before.contains(pd));
                    } else {
                        assert(self.claimed@[k] == (plate_copy, d));
                    }
                }
                assert forall|pd: (Seq<char>, int)| before.contains(pd) implies
                    self.spec_claimed().contains(pd) by {
                    let k = choose|k: int|
                        0 <= k < prev_vec.len() && prev_vec[k].0@ == pd.0 && prev_vec[k].1 as int
                            == pd.1;
                    assert(self.claimed@[k] == prev_vec[k]);
                }
                assert(self.spec_claimed().contains((t@.plate, d as int)));
                assert(self.spec_claimed() =~= before.insert((t@.plate, d as int)));
                assert(self.spec_claimed() =~= old_claimed.union(
                    Set::new(
                        |pd: (Seq<char>, int)|
                            pd.0 == t@.plate && d1 as int <= pd.1 < d as int + 1,
                    ),
                ));
            }
            d = d + 1;
        }
        self.minted.push(t);
        proof {
            assert(self.minted@ == old(self).minted@.push(t));
            assert(self.spec_minted() =~= old(self).spec_minted().push(t@));
            let newm = self.spec_minted();
            let oldm = old(self).spec_minted();
            let n = oldm.len() as int;
            assert(newm.len() == n + 1);
            assert(newm[n] == t@);
            assert(forall|i: int| 0 <= i < n ==> newm[i] == oldm[i]);
            let claimed_now = self.spec_claimed();
            assert(claimed_now =~= old_claimed.union(
                Set::new(|pd: (Seq<char>, int)| pd.0 == t@.plate && covers(t@, pd.1)),
            ));
            // Ticket ordering is preserved and holds of the new ticket.
            assert forall|i: int| 0 <= i < newm.len() implies ordered_ticket(#[trigger] newm[i]) by {
                if i < n {
                    assert(ordered_ticket(oldm[i]));
                }
            }
            // The claimed set is exactly the days covered by minted tickets.
            assert forall|p: Seq<char>, dd: int| claimed_now.contains((p, dd)) implies
                self.minted_covers(p, dd) by {
                if old_claimed.contains((p, dd)) {
                    assert(old(self).minted_covers(p, dd));
                    let i = choose|i: int|
                        0 <= i < oldm.len() && oldm[i].plate == p && covers(oldm[i], dd);
                    assert(newm[i].plate == p && covers(newm[i], dd));
                } else {
                    assert(newm[n].plate == p && covers(newm[n], dd));
                }
            }
            assert forall|p: Seq<char>, dd: int| self.minted_covers(p, dd) implies
                claimed_now.contains((p, dd)) by {
                let i = choose|i: int|
                    0 <= i < newm.len() && newm[i].plate == p && covers(newm[i], dd);
                if i < n {
                    assert(oldm[i].plate == p && covers(oldm[i], dd));
                    assert(old(self).minted_covers(p, dd));
                    assert(old_claimed.contains((p, dd)));
                }
            }
            // No two minted tickets for one plate share a day: a day the
            // new ticket covers was unclaimed, so no old ticket covers it.
            assert forall|i: int, j: int, dd: int|
                0 <= i < newm.len() && 0 <= j < newm.len() && i != j && newm[i].plate
                    == newm[j].plate && covers(newm[i], dd) implies !covers(newm[j], dd) by {
                if i < n && j < n {
                    assert(covers(oldm[i], dd));
                    lemma_per_day_uniqueness(old(self), i, j, dd);
                } else if i == n && j < n {
                    if covers(newm[j], dd) {
                        assert(oldm[j].plate == t@.plate && covers(oldm[j], dd));
                        assert(old(self).minted_covers(t@.plate, dd));
                        assert(old_claimed.contains((t@.plate, dd)));
                        assert(covers(t@, dd));
                    }
                } else if i < n && j == n {
                    if covers(newm[j], dd) {
                        assert(covers(t@, dd));
                        assert(oldm[i].plate == t@.plate && covers(oldm[i], dd));
                        assert(old(self).minted_covers(t@.plate, dd));
                        assert(old_claimed.contains((t@.plate, dd)));
                    }
                }
            }
        }
        true
    }
}

/// A copy of a string with the same characters.
pub fn clone_string(s: &String) -> (r: String)
    ensures
        r@ == s@,
{
    s.clone()
}

/// A copy of a ticket with the same view.
pub fn clone_ticket(t: &Ticket) -> (r: Ticket)
    ensures
        r@ == t@,
{
    Ticket {
        plate: clone_string(&t.plate),
        road: t.road,
        mile1: t.mile1,
        timestamp1: t.timestamp1,
        mile2: t.mile2,
        timestamp2: t.timestamp2,
        speed: t.speed,
    }
}

/// Per-plate per-day uniqueness: for one plate, the day ranges of two
/// distinct minted tickets never share a day.
pub proof fn lemma_per_day_uniqueness(e: &TicketEngine, i: int, j: int, d: int)
    requires
        e.wf(),
        0 <= i < e.spec_minted().len(),
        0 <= j < e.spec_minted().len(),
        i != j,
        e.spec_minted()[i].plate == e.spec_minted()[j].plate,
        covers(e.spec_minted()[i], d),
    ensures
        !covers(e.spec_minted()[j], d),
{
}

} // verus!
