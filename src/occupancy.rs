use vstd::prelude::*;
use crate::journey::{leg_hi, leg_lo, valid_leg, Leg};
use crate::network::Network;

verus! {

/// Sum of the counts of the recorded legs.
pub open spec fn total_count(legs: Seq<(Leg, u32)>) -> int
    decreases legs.len(),
{
    if legs.len() == 0 {
        0
    } else {
        total_count(legs.drop_last()) + legs.last().1
    }
}

/// Entry `k` of the range code of the legs: each leg adds its count where it
/// boards and takes it away where it alights.
pub open spec fn range_code(net: &Network, legs: Seq<(Leg, u32)>, k: int) -> int
    decreases legs.len(),
{
    if legs.len() == 0 {
        0
    } else {
        let (leg, c) = legs.last();
        range_code(net, legs.drop_last(), k) + (if k == leg_lo(net, leg) {
            c as int
        } else {
            0
        }) - (if k == leg_hi(net, leg) {
            c as int
        } else {
            0
        })
    }
}

/// Occupancy of entry `k`: the counts of the legs that ride from that
/// stop-order to the next, that is whose range `[lo, hi)` holds `k`.
pub open spec fn occupancy(net: &Network, legs: Seq<(Leg, u32)>, k: int) -> int
    decreases legs.len(),
{
    if legs.len() == 0 {
        0
    } else {
        let (leg, c) = legs.last();
        occupancy(net, legs.drop_last(), k) + (if leg_lo(net, leg) <= k < leg_hi(net, leg) {
            c as int
        } else {
            0
        })
    }
}

pub open spec fn all_valid(net: &Network, legs: Seq<(Leg, u32)>) -> bool {
    forall|i: int| 0 <= i < legs.len() ==> valid_leg(net, (#[trigger] legs[i]).0)
}

/// Per-entry counters of a round: legs are range-coded into them, and
/// `finalize` turns the codes into occupancies by a prefix sum over each trip.
pub struct OccupancyBuffer {
    counts: Vec<i32>,
    total: u64,
    legs: Ghost<Seq<(Leg, u32)>>,
}

impl OccupancyBuffer {
    /// The legs recorded so far, each with its count.
    pub closed spec fn legs(&self) -> Seq<(Leg, u32)> {
        self.legs@
    }

    pub closed spec fn wf(&self, net: &Network) -> bool {
        &&& self.counts@.len() == net.stop_times@.len()
        &&& self.total == total_count(self.legs@)
        &&& self.total <= i32::MAX
        &&& all_valid(net, self.legs@)
        &&& forall|k: int|
            0 <= k < self.counts@.len() ==> #[trigger] self.counts@[k] == range_code(
                net,
                self.legs@,
                k,
            )
    }

    /// A buffer with one zero counter per stop-time entry.
    pub fn new(net: &Network) -> (r: OccupancyBuffer)
        ensures
            r.wf(net),
            r.legs() == Seq::<(Leg, u32)>::empty(),
    {
        let n = net.stop_times.len();
        let mut counts: Vec<i32> = Vec::new();
        let mut i: usize = 0;
        while i < n
            invariant
                n == net.stop_times@.len(),
                0 <= i <= n,
                counts@.len() == i,
                forall|k: int| 0 <= k < i ==> #[trigger] counts@[k] == 0,
            decreases n - i,
        {
            counts.push(0);
            i = i + 1;
        }
        OccupancyBuffer { counts, total: 0, legs: Ghost(Seq::empty()) }
    }

    /// Sum of the counts of the recorded legs.
    pub fn total(&self, net: &Network) -> (r: u64)
        requires
            self.wf(net),
        ensures
            r == total_count(self.legs()),
            r <= i32::MAX,
    {
        self.total
    }

    /// The counters as they stand: the range code of the recorded legs.
    pub fn range_codes(&self, net: &Network) -> (r: &Vec<i32>)
        requires
            self.wf(net),
        ensures
            r@.len() == net.stop_times@.len(),
            forall|k: int| 0 <= k < r@.len() ==> #[trigger] r@[k] == range_code(net, self.legs(), k),
    {
        &self.counts
    }

    /// Range-codes one leg ridden by `count` agents.
    pub fn add_leg(&mut self, net: &Network, leg: Leg, count: u32)
        requires
            net.wf(),
            old(self).wf(net),
            valid_leg(net, leg),
            total_count(old(self).legs()) + count <= i32::MAX,
        ensures
            final(self).wf(net),
            final(self).legs() == old(self).legs().push((leg, count)),
    {
        let ghost legs = self.legs@.push((leg, count));
        proof {
            lemma_code_bounded(net, self.legs@);
            assert(legs.drop_last() =~= self.legs@);
        }
        let (start, _end) = net.trip_range(leg.trip.route_idx as usize, leg.trip.trip_order as usize);
        let lo = start + leg.boarded_stop_order as usize;
        let hi = start + leg.arrival_stop_order as usize;
        let c = count as i32;
        let v = self.counts[lo];
        self.counts.set(lo, v + c);
        let w = self.counts[hi];
        self.counts.set(hi, w - c);
        self.total = self.total + count as u64;
        self.legs = Ghost(legs);
        proof {
            assert(legs.last() == (leg, count));
            assert(lo == leg_lo(net, leg) && hi == leg_hi(net, leg));
            assert forall|k: int| 0 <= k < self.counts@.len() implies #[trigger] self.counts@[k]
                == range_code(net, legs, k) by {
                assert(range_code(net, legs, k) == range_code(net, old(self).legs@, k) + (if k == lo {
                    count as int
                } else {
                    0
                }) - (if k == hi {
                    count as int
                } else {
                    0
                }));
            }
            assert forall|i: int| 0 <= i < legs.len() implies valid_leg(net, (#[trigger] legs[i]).0) by {
                if i < legs.len() - 1 {
                    assert(legs[i] == old(self).legs@[i]);
                }
            }
        }
    }

    /// Turns the range codes into occupancies: a prefix sum over each trip.
    pub fn finalize(self, net: &Network) -> (r: Vec<i32>)
        requires
            net.wf(),
            self.wf(net),
        ensures
            r@.len() == net.stop_times@.len(),
            forall|k: int|
                0 <= k < r@.len() ==> #[trigger] r@[k] == occupancy(net, self.legs(), k),
            forall|k: int| 0 <= k < r@.len() ==> #[trigger] r@[k] >= 0,
    {
        let ghost legs = self.legs@;
        let mut counts = self.counts;
        proof {
            lemma_code_bounded(net, legs);
        }
        let mut route_idx: usize = 0;
        let mut pos: usize = 0;
        while route_idx < net.routes.len()
            invariant
                net.wf(),
                all_valid(net, legs),
                total_count(legs) <= i32::MAX,
                counts@.len() == net.stop_times@.len(),
                0 <= route_idx <= net.routes@.len(),
                pos == crate::network::layout_end(net.routes@, route_idx as int),
                forall|k: int| 0 <= k < pos ==> #[trigger] counts@[k] == occupancy(net, legs, k),
                forall|k: int|
                    pos <= k < counts@.len() ==> #[trigger] counts@[k] == range_code(net, legs, k),
                forall|k: int| 0 <= k < counts@.len() ==> -total_count(legs) <= #[trigger] range_code(net, legs, k) <= total_count(legs),
            decreases net.routes@.len() - route_idx,
        {
            let num_trips = net.routes[route_idx].num_trips;
            let num_stops = net.routes[route_idx].num_stops;
            let mut trip: usize = 0;
            while trip < num_trips
                invariant
                    net.wf(),
                    all_valid(net, legs),
                    total_count(legs) <= i32::MAX,
                    counts@.len() == net.stop_times@.len(),
                    0 <= route_idx < net.routes@.len(),
                    num_trips == net.routes@[route_idx as int].num_trips,
                    num_stops == net.routes@[route_idx as int].num_stops,
                    0 <= trip <= num_trips,
                    pos == net.routes@[route_idx as int].stop_times_idx + trip * num_stops,
                    trip < num_trips ==> pos == net.trip_start(route_idx as int, trip as int),
                    trip == num_trips ==> pos == crate::network::layout_end(net.routes@, route_idx + 1),
                    forall|k: int| 0 <= k < pos ==> #[trigger] counts@[k] == occupancy(net, legs, k),
                    forall|k: int|
                        pos <= k < counts@.len() ==> #[trigger] counts@[k] == range_code(
                            net,
                            legs,
                            k,
                        ),
                    forall|k: int| 0 <= k < counts@.len() ==> -total_count(legs) <= #[trigger] range_code(net, legs, k) <= total_count(legs),
                decreases num_trips - trip,
            {
                let (start, end) = net.trip_range(route_idx, trip);
                proof {
                    net.lemma_trip_in_bounds(route_idx as int, trip as int);
                }
                if start < end {
                    proof {
                        lemma_trip_start(net, legs, route_idx as int, trip as int);
                        lemma_occupancy_bounded(net, legs, start as int);
                    }
                    let mut i: usize = start;
                    while i + 1 < end
                        invariant
                            net.wf(),
                            all_valid(net, legs),
                            total_count(legs) <= i32::MAX,
                            counts@.len() == net.stop_times@.len(),
                            start <= i < end,
                            end <= counts@.len(),
                            forall|k: int| 0 <= k <= i ==> #[trigger] counts@[k] == occupancy(net, legs, k),
                            forall|k: int|
                                i < k < counts@.len() ==> #[trigger] counts@[k] == range_code(
                                    net,
                                    legs,
                                    k,
                                ),
                            forall|k: int| 0 <= k < counts@.len() ==> -total_count(legs) <= #[trigger] range_code(net, legs, k) <= total_count(legs),
                        decreases end - i,
                    {
                        proof {
                            lemma_occupancy_step(net, legs, i as int);
                            lemma_occupancy_bounded(net, legs, i as int + 1);
                        }
                        let a = counts[i];
                        let b = counts[i + 1];
                        counts.set(i + 1, b + a);
                        i = i + 1;
                    }
                }
                pos = end;
                trip = trip + 1;
                proof {
                    assert(pos == net.routes@[route_idx as int].stop_times_idx + trip * num_stops) by (nonlinear_arith)
                        requires
                            pos == net.routes@[route_idx as int].stop_times_idx + (trip - 1) * num_stops + num_stops,
                    ;
                    if trip == num_trips {
                        assert(trip * num_stops == crate::network::route_size(net.routes@[route_idx as int]));
                    }
                }
            }
            route_idx = route_idx + 1;
        }
        proof {
            assert forall|k: int| 0 <= k < counts@.len() implies #[trigger] counts@[k] >= 0 by {
                lemma_occupancy_bounded(net, legs, k);
            }
        }
        counts
    }
}

/// Range codes are bounded by the total count.
pub proof fn lemma_code_bounded(net: &Network, legs: Seq<(Leg, u32)>)
    ensures
        total_count(legs) >= 0,
        forall|k: int|
            -total_count(legs) <= #[trigger] range_code(net, legs, k) <= total_count(legs),
    decreases legs.len(),
{
    if legs.len() > 0 {
        lemma_code_bounded(net, legs.drop_last());
        assert forall|k: int|
            -total_count(legs) <= #[trigger] range_code(net, legs, k) <= total_count(legs) by {
            assert(-total_count(legs.drop_last()) <= range_code(net, legs.drop_last(), k));
        }
    }
}

/// Counts are never negative, nor their sum.
pub proof fn lemma_total_count_nonneg(legs: Seq<(Leg, u32)>)
    ensures
        total_count(legs) >= 0,
    decreases legs.len(),
{
    if legs.len() > 0 {
        lemma_total_count_nonneg(legs.drop_last());
    }
}

/// Occupancies lie between zero and the total count.
pub proof fn lemma_occupancy_bounded(net: &Network, legs: Seq<(Leg, u32)>, k: int)
    ensures
        0 <= occupancy(net, legs, k) <= total_count(legs),
    decreases legs.len(),
{
    if legs.len() > 0 {
        lemma_occupancy_bounded(net, legs.drop_last(), k);
    }
}

/// Within a trip, the occupancy of the next entry is that of this one plus the
/// next entry's range code: the agents boarding there minus those alighting.
pub proof fn lemma_occupancy_step(net: &Network, legs: Seq<(Leg, u32)>, k: int)
    requires
        all_valid(net, legs),
    ensures
        occupancy(net, legs, k + 1) == occupancy(net, legs, k) + range_code(net, legs, k + 1),
    decreases legs.len(),
{
    if legs.len() > 0 {
        let rest = legs.drop_last();
        assert forall|i: int| 0 <= i < rest.len() implies valid_leg(net, (#[trigger] rest[i]).0) by {
            assert(rest[i] == legs[i]);
        }
        assert(valid_leg(net, legs[legs.len() - 1].0));
        lemma_occupancy_step(net, rest, k);
    }
}

/// At the first entry of a trip no leg is under way, so the occupancy is the
/// range code itself.
pub proof fn lemma_trip_start(net: &Network, legs: Seq<(Leg, u32)>, route_idx: int, trip_order: int)
    requires
        net.wf(),
        all_valid(net, legs),
        net.valid_trip(route_idx, trip_order),
        net.trip_len(route_idx) > 0,
    ensures
        occupancy(net, legs, net.trip_start(route_idx, trip_order)) == range_code(
            net,
            legs,
            net.trip_start(route_idx, trip_order),
        ),
    decreases legs.len(),
{
    if legs.len() > 0 {
        let rest = legs.drop_last();
        assert forall|i: int| 0 <= i < rest.len() implies valid_leg(net, (#[trigger] rest[i]).0) by {
            assert(rest[i] == legs[i]);
        }
        lemma_trip_start(net, rest, route_idx, trip_order);
        let leg = legs[legs.len() - 1].0;
        assert(valid_leg(net, leg));
        let r = leg.trip.route_idx as int;
        let t = leg.trip.trip_order as int;
        if r != route_idx || t != trip_order {
            net.lemma_trips_disjoint(r, t, route_idx, trip_order);
        }
    }
}

} // verus!

verus! {

/// Recording a leg ridden by `count` agents raises the occupancy by exactly
/// `count` on every entry of its trip from the stop-order where it boards up to,
/// not including, the one where it alights, and leaves every other entry of the
/// network as it was.
pub proof fn lemma_leg_adds_its_count(net: &Network, legs: Seq<(Leg, u32)>, leg: Leg, count: u32)
    requires
        net.wf(),
        valid_leg(net, leg),
    ensures
        forall|i: int|
            0 <= i < net.trip_len(leg.trip.route_idx as int) ==> #[trigger] occupancy(
                net,
                legs.push((leg, count)),
                net.trip_start(leg.trip.route_idx as int, leg.trip.trip_order as int) + i,
            ) == occupancy(
                net,
                legs,
                net.trip_start(leg.trip.route_idx as int, leg.trip.trip_order as int) + i,
            ) + if leg.boarded_stop_order <= i < leg.arrival_stop_order {
                count as int
            } else {
                0
            },
        forall|k: int|
            !(leg_lo(net, leg) <= k < leg_hi(net, leg)) ==> #[trigger] occupancy(
                net,
                legs.push((leg, count)),
                k,
            ) == occupancy(net, legs, k),
{
    assert(legs.push((leg, count)).drop_last() =~= legs);
    assert(legs.push((leg, count)).last() == (leg, count));
}

/// Sum of the occupancy changes over the first `m` steps of a range starting at `s`.
pub open spec fn occupancy_change_sum(net: &Network, legs: Seq<(Leg, u32)>, s: int, m: int) -> int
    decreases m,
{
    if m <= 0 {
        0
    } else {
        occupancy_change_sum(net, legs, s, m - 1) + (occupancy(net, legs, s + m) - occupancy(
            net,
            legs,
            s + m - 1,
        ))
    }
}

/// Boardings minus alightings at entries `s + 1` to `s + m`.
pub open spec fn net_boardings(net: &Network, legs: Seq<(Leg, u32)>, s: int, m: int) -> int
    decreases m,
{
    if m <= 0 {
        0
    } else {
        net_boardings(net, legs, s, m - 1) + range_code(net, legs, s + m)
    }
}

/// Summed over a trip, the changes of occupancy from one stop-order to the
/// next equal the boardings minus the alightings at the trip's stops.
pub proof fn lemma_changes_are_net_boardings(net: &Network, legs: Seq<(Leg, u32)>, s: int, m: int)
    requires
        all_valid(net, legs),
    ensures
        occupancy_change_sum(net, legs, s, m) == net_boardings(net, legs, s, m),
    decreases m,
{
    if m > 0 {
        lemma_changes_are_net_boardings(net, legs, s, m - 1);
        lemma_occupancy_step(net, legs, s + m - 1);
    }
}

/// A single leg on a trip whose range starts at `t0`, boarding at stop-order `b`
/// and alighting at `a` with `c` agents, range-codes to `c` at `t0 + b`, `-c` at
/// `t0 + a` and zero elsewhere; after the prefix sum the occupancy is `c` on
/// `[t0 + b, t0 + a)` and zero elsewhere.
pub proof fn lemma_single_leg(net: &Network, leg: Leg, c: u32)
    requires
        net.wf(),
        valid_leg(net, leg),
    ensures
        forall|k: int|
            #[trigger] range_code(net, seq![(leg, c)], k) == if k == leg_lo(net, leg) {
                c as int
            } else if k == leg_hi(net, leg) {
                -c
            } else {
                0
            },
        forall|k: int|
            #[trigger] occupancy(net, seq![(leg, c)], k) == if leg_lo(net, leg) <= k < leg_hi(
                net,
                leg,
            ) {
                c as int
            } else {
                0
            },
{
    let s = seq![(leg, c)];
    assert(s.drop_last() =~= Seq::<(Leg, u32)>::empty());
    assert(s.last() == (leg, c));
    assert(leg_lo(net, leg) < leg_hi(net, leg));
    assert forall|k: int|
        #[trigger] range_code(net, s, k) == if k == leg_lo(net, leg) {
            c as int
        } else if k == leg_hi(net, leg) {
            -c
        } else {
            0
        } by {
        assert(range_code(net, s.drop_last(), k) == 0);
    }
    assert forall|k: int|
        #[trigger] occupancy(net, s, k) == if leg_lo(net, leg) <= k < leg_hi(net, leg) {
            c as int
        } else {
            0
        } by {
        assert(occupancy(net, s.drop_last(), k) == 0);
    }
}

/// Occupancy contributed by one counted leg at entry `k`.
pub open spec fn leg_load(net: &Network, e: (Leg, u32), k: int) -> int {
    if leg_lo(net, e.0) <= k < leg_hi(net, e.0) {
        e.1 as int
    } else {
        0
    }
}

/// Range code contributed by one counted leg at entry `k`.
pub open spec fn leg_code(net: &Network, e: (Leg, u32), k: int) -> int {
    (if k == leg_lo(net, e.0) {
        e.1 as int
    } else {
        0
    }) - (if k == leg_hi(net, e.0) {
        e.1 as int
    } else {
        0
    })
}

/// Taking one leg out of a list takes its contribution out of every entry.
pub proof fn lemma_remove_leg(net: &Network, s: Seq<(Leg, u32)>, i: int, k: int)
    requires
        0 <= i < s.len(),
    ensures
        occupancy(net, s, k) == occupancy(net, s.remove(i), k) + leg_load(net, s[i], k),
        range_code(net, s, k) == range_code(net, s.remove(i), k) + leg_code(net, s[i], k),
    decreases s.len(),
{
    if i == s.len() - 1 {
        assert(s.remove(i) =~= s.drop_last());
    } else {
        lemma_remove_leg(net, s.drop_last(), i, k);
        assert(s.remove(i).drop_last() =~= s.drop_last().remove(i));
        assert(s.remove(i).last() == s.last());
        assert(s.drop_last()[i] == s[i]);
    }
}

/// The occupancy and the range code do not depend on the order in which legs
/// are recorded: the same legs, in any order, give the same values at every
/// entry. So concurrent recording of legs yields the same population count
/// whatever the interleaving.
pub proof fn lemma_order_independent(net: &Network, a: Seq<(Leg, u32)>, b: Seq<(Leg, u32)>)
    requires
        a.to_multiset() == b.to_multiset(),
    ensures
        forall|k: int| #[trigger] occupancy(net, a, k) == occupancy(net, b, k),
        forall|k: int| #[trigger] range_code(net, a, k) == range_code(net, b, k),
    decreases a.len(),
{
    broadcast use vstd::seq_lib::group_to_multiset_ensures;
    broadcast use vstd::multiset::group_multiset_axioms;

    if a.len() == 0 {
        assert(b.to_multiset().len() == 0);
        assert(b.len() == 0);
    } else {
        let x = a.last();
        let rest = a.drop_last();
        assert(rest.push(x) =~= a);
        assert(a.to_multiset() =~= rest.to_multiset().insert(x));
        assert(b.to_multiset().count(x) > 0);
        assert(b.contains(x));
        let i = choose|i: int| 0 <= i < b.len() && b[i] == x;
        let b2 = b.remove(i);
        assert(b2.to_multiset() == b.to_multiset().remove(x));
        assert(b2.to_multiset() =~= rest.to_multiset());
        lemma_order_independent(net, rest, b2);
        assert forall|k: int| #[trigger] occupancy(net, a, k) == occupancy(net, b, k) by {
            lemma_remove_leg(net, b, i, k);
            assert(occupancy(net, rest, k) == occupancy(net, b2, k));
            assert(occupancy(net, a, k) == occupancy(net, rest, k) + leg_load(net, x, k));
        }
        assert forall|k: int| #[trigger] range_code(net, a, k) == range_code(net, b, k) by {
            lemma_remove_leg(net, b, i, k);
            assert(range_code(net, rest, k) == range_code(net, b2, k));
            assert(range_code(net, a, k) == range_code(net, rest, k) + leg_code(net, x, k));
        }
    }
}

} // verus!
