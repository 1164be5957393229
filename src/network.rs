use vstd::prelude::*;

verus! {

/// Index of a stop in the network.
pub type StopIndex = u32;

/// Seconds since the start of the service day.
pub type Timestamp = u32;

/// The calendar day a network was built for.
#[derive(Clone, Copy, Debug, PartialEq, Eq, Structural)]
pub struct ServiceDate {
    pub year: i32,
    pub month: u32,
    pub day: u32,
}

/// Arrival and departure of one trip at one of its stops.
#[derive(Clone, Copy, Debug, PartialEq, Eq, Structural)]
pub struct StopTime {
    pub arrival_time: Timestamp,
    pub departure_time: Timestamp,
}

/// A route: an ordered list of `num_stops` stops (`stops`) served by `num_trips` trips.
/// The stop times of its trips lie one trip after another in the network's flat
/// stop-time array, starting at `stop_times_idx`.
#[derive(Debug)]
pub struct Route {
    pub stops: Vec<StopIndex>,
    pub num_stops: usize,
    pub num_trips: usize,
    pub stop_times_idx: usize,
    pub trip_ids: Vec<String>,
}

/// A timetable in flat layout: every trip owns a contiguous range of `stop_times`,
/// and the routes, in order, tile the whole array.
pub struct Network {
    pub date: ServiceDate,
    pub stop_names: Vec<String>,
    pub routes: Vec<Route>,
    pub stop_times: Vec<StopTime>,
}

/// Number of stop-time entries taken by a route.
pub open spec fn route_size(r: Route) -> int {
    r.num_trips * r.num_stops
}

/// Number of stop-time entries taken by the first `n` routes.
pub open spec fn layout_end(routes: Seq<Route>, n: int) -> int
    decreases n,
{
    if n <= 0 {
        0
    } else {
        layout_end(routes, n - 1) + route_size(routes[n - 1])
    }
}

impl Network {
    /// The layout is sound: each route starts where the previous one ends, the last
    /// one ends at the end of `stop_times`, each trip has an identifier and each
    /// route lists its stops.
    pub open spec fn wf(&self) -> bool {
        &&& forall|r: int|
            0 <= r < self.routes@.len() ==> {
                &&& (#[trigger] self.routes@[r]).stop_times_idx == layout_end(self.routes@, r)
                &&& self.routes@[r].trip_ids@.len() == self.routes@[r].num_trips
                &&& self.routes@[r].stops@.len() == self.routes@[r].num_stops
            }
        &&& layout_end(self.routes@, self.routes@.len() as int) == self.stop_times@.len()
    }

    pub open spec fn valid_trip(&self, route_idx: int, trip_order: int) -> bool {
        &&& 0 <= route_idx < self.routes@.len()
        &&& 0 <= trip_order < self.routes@[route_idx].num_trips
    }

    /// First stop-time entry of a trip.
    pub open spec fn trip_start(&self, route_idx: int, trip_order: int) -> int {
        self.routes@[route_idx].stop_times_idx + trip_order * self.routes@[route_idx].num_stops
    }

    /// Number of stop-time entries of a trip of the given route.
    pub open spec fn trip_len(&self, route_idx: int) -> int {
        self.routes@[route_idx].num_stops as int
    }

    /// Whether the layout is sound, computed.
    pub fn is_well_formed(&self) -> (r: bool)
        ensures
            r == self.wf(),
    {
        let num_entries = self.stop_times.len();
        let mut end: usize = 0;
        let mut i: usize = 0;
        while i < self.routes.len()
            invariant
                0 <= i <= self.routes@.len(),
                end == layout_end(self.routes@, i as int),
                num_entries == self.stop_times@.len(),
                forall|r: int|
                    0 <= r < i ==> {
                        &&& (#[trigger] self.routes@[r]).stop_times_idx == layout_end(
                            self.routes@,
                            r,
                        )
                        &&& self.routes@[r].trip_ids@.len() == self.routes@[r].num_trips
                        &&& self.routes@[r].stops@.len() == self.routes@[r].num_stops
                    },
            decreases self.routes@.len() - i,
        {
            let route = &self.routes[i];
            if route.stop_times_idx != end || route.trip_ids.len() != route.num_trips
                || route.stops.len() != route.num_stops {
                return false;
            }
            let size = route.num_trips.checked_mul(route.num_stops);
            match size {
                None => {
                    proof {
                        assert(layout_end(self.routes@, i + 1) == end + route_size(self.routes@[i as int]));
                        lemma_layout_end_monotone(self.routes@, i as int + 1, self.routes@.len() as int);
                    }
                    return false;
                },
                Some(size) => {
                    match end.checked_add(size) {
                        None => {
                            proof {
                                assert(layout_end(self.routes@, i + 1) == end + size);
                                        lemma_layout_end_monotone(
                                    self.routes@,
                                    i as int + 1,
                                    self.routes@.len() as int,
                                );
                            }
                            return false;
                        },
                        Some(e) => {
                            end = e;
                        },
                    }
                },
            }
            i = i + 1;
        }
        end == num_entries
    }

    /// Range `[start, end)` of the stop-time entries of a trip.
    pub fn trip_range(&self, route_idx: usize, trip_order: usize) -> (r: (usize, usize))
        requires
            self.wf(),
            self.valid_trip(route_idx as int, trip_order as int),
        ensures
            r.0 == self.trip_start(route_idx as int, trip_order as int),
            r.1 == r.0 + self.trip_len(route_idx as int),
            r.1 <= self.stop_times@.len(),
    {
        let num_entries = self.stop_times.len();
        proof {
            self.lemma_trip_in_bounds(route_idx as int, trip_order as int);
            assert(num_entries == self.stop_times@.len());
            let ns = self.routes@[route_idx as int].num_stops as int;
            assert(0 <= trip_order * ns) by (nonlinear_arith)
                requires
                    0 <= ns,
            ;
        }
        let route = &self.routes[route_idx];
        let start = route.stop_times_idx + trip_order * route.num_stops;
        (start, start + route.num_stops)
    }

    /// Looks a stop up by name: the first stop that bears it.
    pub fn get_stop_idx_from_name(&self, name: &String) -> (r: Option<StopIndex>)
        ensures
            match r {
                Some(i) => first_stop_named(self.stop_names@, name@, i as int),
                None => no_stop_named(self.stop_names@, name@),
            },
            r == stop_of(self.stop_names@, name@),
    {
        let mut i: usize = 0;
        while i < self.stop_names.len()
            invariant
                0 <= i <= self.stop_names@.len(),
                forall|j: int| 0 <= j < i ==> (#[trigger] self.stop_names@[j])@ != name@,
            decreases self.stop_names@.len() - i,
        {
            if i > StopIndex::MAX as usize {
                return None;
            }
            if self.stop_names[i] == *name {
                proof {
                    lemma_stop_of(self.stop_names@, name@, i as int);
                }
                return Some(i as StopIndex);
            }
            i = i + 1;
        }
        proof {
            lemma_stop_of_none(self.stop_names@, name@);
        }
        None
    }

    /// A trip's entries lie inside its route's part of the layout, and so inside the array.
    pub proof fn lemma_trip_in_bounds(&self, route_idx: int, trip_order: int)
        requires
            self.wf(),
            self.valid_trip(route_idx, trip_order),
        ensures
            layout_end(self.routes@, route_idx) <= self.trip_start(route_idx, trip_order),
            self.trip_start(route_idx, trip_order) + self.trip_len(route_idx) <= layout_end(
                self.routes@,
                route_idx + 1,
            ),
            layout_end(self.routes@, route_idx + 1) <= self.stop_times@.len(),
    {
        let route = self.routes@[route_idx];
        let t = trip_order;
        let ns = route.num_stops as int;
        let nt = route.num_trips as int;
        assert(0 <= t * ns) by (nonlinear_arith)
            requires
                0 <= t,
                0 <= ns,
        ;
        assert(t * ns + ns <= nt * ns) by (nonlinear_arith)
            requires
                0 <= t < nt,
                0 <= ns,
        ;
        lemma_layout_end_monotone(self.routes@, route_idx + 1, self.routes@.len() as int);
    }

    /// The ranges of two different trips do not overlap.
    pub proof fn lemma_trips_disjoint(&self, r1: int, t1: int, r2: int, t2: int)
        requires
            self.wf(),
            self.valid_trip(r1, t1),
            self.valid_trip(r2, t2),
            r1 != r2 || t1 != t2,
        ensures
            self.trip_start(r1, t1) + self.trip_len(r1) <= self.trip_start(r2, t2) || self.trip_start(
                r2,
                t2,
            ) + self.trip_len(r2) <= self.trip_start(r1, t1),
    {
        self.lemma_trip_in_bounds(r1, t1);
        self.lemma_trip_in_bounds(r2, t2);
        if r1 < r2 {
            lemma_layout_end_monotone(self.routes@, r1 + 1, r2);
        } else if r2 < r1 {
            lemma_layout_end_monotone(self.routes@, r2 + 1, r1);
        } else {
            let ns = self.trip_len(r1);
            if t1 < t2 {
                assert(t1 * ns + ns <= t2 * ns) by (nonlinear_arith)
                    requires
                        t1 < t2,
                        0 <= ns,
                ;
            } else {
                assert(t2 * ns + ns <= t1 * ns) by (nonlinear_arith)
                    requires
                        t2 < t1,
                        0 <= ns,
                ;
            }
        }
    }
}

/// `i` is the first stop named `name`.
pub open spec fn first_stop_named(names: Seq<String>, name: Seq<char>, i: int) -> bool {
    &&& 0 <= i < names.len()
    &&& names[i]@ == name
    &&& forall|j: int| 0 <= j < i ==> (#[trigger] names[j])@ != name
}

/// No stop with an index that fits a `StopIndex` is named `name`.
pub open spec fn no_stop_named(names: Seq<String>, name: Seq<char>) -> bool {
    forall|j: int| 0 <= j < names.len() && j <= StopIndex::MAX ==> (#[trigger] names[j])@ != name
}

/// The stop that a lookup by name gives: the first one bearing the name, if its
/// index fits a `StopIndex`.
pub open spec fn stop_of(names: Seq<String>, name: Seq<char>) -> Option<StopIndex> {
    if exists|i: int| #[trigger] first_stop_named(names, name, i) && i <= StopIndex::MAX {
        Some((choose|i: int| #[trigger] first_stop_named(names, name, i) && i <= StopIndex::MAX) as StopIndex)
    } else {
        None
    }
}

/// The first stop bearing a name is the one the lookup gives.
pub proof fn lemma_stop_of(names: Seq<String>, name: Seq<char>, i: int)
    requires
        first_stop_named(names, name, i),
        i <= StopIndex::MAX,
    ensures
        stop_of(names, name) == Some(i as StopIndex),
{
    let j = choose|j: int| #[trigger] first_stop_named(names, name, j) && j <= StopIndex::MAX;
    assert(first_stop_named(names, name, j));
    if j < i {
        assert(names[j]@ != name);
    } else if i < j {
        assert(names[i]@ != name);
    }
}

/// Where no stop with a small enough index bears the name, the lookup gives none.
pub proof fn lemma_stop_of_none(names: Seq<String>, name: Seq<char>)
    requires
        no_stop_named(names, name),
    ensures
        stop_of(names, name) == None::<StopIndex>,
{
    if exists|i: int| #[trigger] first_stop_named(names, name, i) && i <= StopIndex::MAX {
        let i = choose|i: int| #[trigger] first_stop_named(names, name, i) && i <= StopIndex::MAX;
        assert(names[i]@ == name);
    }
}

/// Routes later in the layout end later.
pub proof fn lemma_layout_end_monotone(routes: Seq<Route>, a: int, b: int)
    requires
        0 <= a <= b,
    ensures
        layout_end(routes, a) <= layout_end(routes, b),
    decreases b - a,
{
    if a < b {
        lemma_layout_end_monotone(routes, a, b - 1);
        let r = routes[b - 1];
        assert(0 <= r.num_trips * r.num_stops) by (nonlinear_arith);
    }
}

} // verus!
