use vstd::prelude::*;
use crate::journey::{
    valid_leg, AgentJourney, AgentJourneyResult, Cost, Journey, JourneyError, Leg,
};
use crate::network::{Network, StopIndex, Timestamp};
use crate::occupancy::{total_count, OccupancyBuffer};

verus! {

/// Number of agents travelling together.
pub type AgentCount = u32;

/// Number of agents on a trip segment.
pub type PopulationCount = i32;

/// Demand sharing an origin and a departure instant: one count per destination.
#[derive(Debug)]
pub struct SimulationStep {
    pub departure_time: Timestamp,
    pub origin_stop: StopIndex,
    pub dest_stops: Vec<StopIndex>,
    pub counts: Vec<AgentCount>,
}

/// Sum of a sequence of counts.
pub open spec fn sum_counts(s: Seq<u32>) -> int
    decreases s.len(),
{
    if s.len() == 0 {
        0
    } else {
        sum_counts(s.drop_last()) + s.last()
    }
}

impl SimulationStep {
    /// The destinations, in order.
    pub open spec fn dests(&self) -> Seq<StopIndex> {
        self.dest_stops@
    }

    /// The count of each destination.
    pub open spec fn counts(&self) -> Seq<AgentCount> {
        self.counts@
    }

    /// One count per destination.
    pub open spec fn wf(&self) -> bool {
        self.dest_stops@.len() == self.counts@.len()
    }

    /// A step with no destination yet.
    pub fn new(departure_time: Timestamp, origin_stop: StopIndex) -> (r: SimulationStep)
        ensures
            r.wf(),
            r.departure_time == departure_time,
            r.origin_stop == origin_stop,
            r.dests() == Seq::<StopIndex>::empty(),
            r.counts() == Seq::<AgentCount>::empty(),
    {
        SimulationStep { departure_time, origin_stop, dest_stops: Vec::new(), counts: Vec::new() }
    }

    /// Number of destinations.
    pub fn len(&self) -> (r: usize)
        requires
            self.wf(),
        ensures
            r == self.dests().len(),
            r == self.counts().len(),
    {
        self.dest_stops.len()
    }

    /// Total number of agents over all destinations.
    pub fn count(&self) -> (r: u64)
        requires
            self.wf(),
            self.counts().len() <= u32::MAX,
        ensures
            r == sum_counts(self.counts()),
    {
        let mut sum: u64 = 0;
        let mut i: usize = 0;
        while i < self.counts.len()
            invariant
                0 <= i <= self.counts@.len(),
                self.counts@.len() <= u32::MAX,
                sum == sum_counts(self.counts@.take(i as int)),
                sum <= i * u32::MAX,
            decreases self.counts@.len() - i,
        {
            proof {
                assert(self.counts@.take(i + 1).drop_last() =~= self.counts@.take(i as int));
                assert((i + 1) * u32::MAX == i * u32::MAX + u32::MAX) by (nonlinear_arith);
                assert((i + 1) * u32::MAX <= u32::MAX * u32::MAX) by (nonlinear_arith)
                    requires
                        i + 1 <= u32::MAX,
                ;
            }
            sum = sum + self.counts[i] as u64;
            i = i + 1;
        }
        proof {
            assert(self.counts@.take(i as int) =~= self.counts@);
        }
        sum
    }

    /// Adds a destination with its count.
    pub fn push(&mut self, dest_stop: StopIndex, count: AgentCount)
        requires
            old(self).wf(),
        ensures
            final(self).wf(),
            final(self).departure_time == old(self).departure_time,
            final(self).origin_stop == old(self).origin_stop,
            final(self).dests() == old(self).dests().push(dest_stop),
            final(self).counts() == old(self).counts().push(count),
    {
        self.dest_stops.push(dest_stop);
        self.counts.push(count);
    }

    /// Destination `j`.
    pub fn dest_stop(&self, j: usize) -> (r: StopIndex)
        requires
            self.wf(),
            j < self.dests().len(),
        ensures
            r == self.dests()[j as int],
    {
        self.dest_stops[j]
    }

    /// Count of destination `j`.
    pub fn count_of(&self, j: usize) -> (r: AgentCount)
        requires
            self.wf(),
            j < self.counts().len(),
        ensures
            r == self.counts()[j as int],
    {
        self.counts[j]
    }

    /// Whether every count is zero, that is whether the step carries no demand.
    pub fn is_zero_demand(&self) -> (r: bool)
        ensures
            r == zero_demand(self.counts()),
    {
        let mut i: usize = 0;
        while i < self.counts.len()
            invariant
                0 <= i <= self.counts@.len(),
                forall|j: int| 0 <= j < i ==> #[trigger] self.counts@[j] == 0,
            decreases self.counts@.len() - i,
        {
            if self.counts[i] != 0 {
                return false;
            }
            i = i + 1;
        }
        true
    }
}

/// No agent travels: the sum of the counts is zero.
pub open spec fn zero_demand(counts: Seq<u32>) -> bool {
    forall|j: int| 0 <= j < counts.len() ==> #[trigger] counts[j] == 0
}

/// The legs of a query result; none for an error.
pub open spec fn journey_legs(q: Result<Journey, JourneyError>) -> Seq<Leg> {
    match q {
        Ok(j) => j.legs@,
        Err(_) => Seq::empty(),
    }
}

/// Pairs each leg with a count.
pub open spec fn with_count(legs: Seq<Leg>, c: u32) -> Seq<(Leg, u32)> {
    legs.map_values(|l: Leg| (l, c))
}

/// Legs that the first `n` destinations of a step put on the network, each with
/// the destination's count, in destination order.
pub open spec fn step_legs(counts: Seq<u32>, journeys: Seq<Result<Journey, JourneyError>>, n: int) -> Seq<
    (Leg, u32),
>
    decreases n,
{
    if n <= 0 {
        Seq::empty()
    } else {
        step_legs(counts, journeys, n - 1) + with_count(journey_legs(journeys[n - 1]), counts[n - 1])
    }
}

/// Legs that a whole step puts on the network.
pub open spec fn legs_of_step(step: &SimulationStep, journeys: Seq<Result<Journey, JourneyError>>) -> Seq<
    (Leg, u32),
> {
    if zero_demand(step.counts()) {
        Seq::empty()
    } else {
        step_legs(step.counts(), journeys, step.counts().len() as int)
    }
}

/// Every leg of every journey found rides the network validly.
pub open spec fn journeys_valid(net: &Network, journeys: Seq<Result<Journey, JourneyError>>) -> bool {
    forall|j: int, l: int|
        0 <= j < journeys.len() && 0 <= l < journey_legs(journeys[j]).len() ==> valid_leg(
            net,
            #[trigger] journey_legs(journeys[j])[l],
        )
}

/// What the record of destination `j` of a step holds, given the query result `q`
/// for it (looked at only when the step carries demand).
pub open spec fn expected_result(
    r: AgentJourneyResult,
    sim_step_idx: u32,
    step: &SimulationStep,
    j: int,
    q: Result<Journey, JourneyError>,
) -> bool {
    &&& r.sim_step_idx == sim_step_idx
    &&& r.journey_idx == j
    &&& if zero_demand(step.counts()) {
        r.result == Err::<AgentJourney, JourneyError>(JourneyError::NoJourneyFound)
    } else {
        match q {
            Err(e) => r.result == Err::<AgentJourney, JourneyError>(e),
            Ok(journey) => if journey.legs@.len() == 0 {
                r.result == Err::<AgentJourney, JourneyError>(JourneyError::NoJourneyFound)
            } else {
                match r.result {
                    Ok(a) => {
                        &&& a.origin_stop == step.origin_stop
                        &&& a.origin_trip == journey.legs@[0].trip
                        &&& a.dest_stop == step.dests()[j]
                        &&& a.dest_trip == journey.legs@.last().trip
                        &&& a.count == step.counts()[j]
                        &&& a.start_time == step.departure_time
                        &&& a.duration == journey.duration
                        &&& a.crowding_cost == journey.cost
                        &&& a.num_transfers == (journey.legs@.len() - 1) as u8
                        &&& a.legs@ == journey.legs@
                    },
                    Err(_) => false,
                }
            },
        }
    }
}

/// Sum of the counts over a sequence of counted legs splits over concatenation.
pub proof fn lemma_total_count_concat(a: Seq<(Leg, u32)>, b: Seq<(Leg, u32)>)
    ensures
        total_count(a + b) == total_count(a) + total_count(b),
    decreases b.len(),
{
    if b.len() == 0 {
        assert(a + b =~= a);
    } else {
        lemma_total_count_concat(a, b.drop_last());
        assert((a + b).drop_last() =~= a + b.drop_last());
    }
}

/// Each leg of a destination counts that destination's agents once.
pub proof fn lemma_total_count_with_count(legs: Seq<Leg>, c: u32)
    ensures
        total_count(with_count(legs, c)) == legs.len() as int * c as int,
    decreases legs.len(),
{
    if legs.len() > 0 {
        lemma_total_count_with_count(legs.drop_last(), c);
        assert(with_count(legs, c).drop_last() =~= with_count(legs.drop_last(), c));
        let w = with_count(legs, c);
        assert(w.len() == legs.len());
        assert(w.last() == (legs.last(), c));
        assert(total_count(w) == total_count(w.drop_last()) + c);
        let n = legs.len() as int;
        assert(n * c == (n - 1) * c + c) by (nonlinear_arith);
    } else {
        assert(with_count(legs, c).len() == 0);
        assert(legs.len() as int * c as int == 0) by (nonlinear_arith)
            requires
                legs.len() == 0,
        ;
    }
}

/// The legs of fewer destinations count no more agents.
pub proof fn lemma_step_legs_monotone(
    counts: Seq<u32>,
    journeys: Seq<Result<Journey, JourneyError>>,
    a: int,
    b: int,
)
    requires
        0 <= a <= b,
    ensures
        total_count(step_legs(counts, journeys, a)) <= total_count(step_legs(counts, journeys, b)),
    decreases b - a,
{
    if a < b {
        lemma_step_legs_monotone(counts, journeys, a, b - 1);
        let prev = step_legs(counts, journeys, b - 1);
        let legs = journey_legs(journeys[b - 1]);
        lemma_total_count_concat(prev, with_count(legs, counts[b - 1]));
        lemma_total_count_with_count(legs, counts[b - 1]);
        assert(0 <= legs.len() * counts[b - 1]) by (nonlinear_arith);
    }
}

/// Resolves one simulation step from the query results for its destinations:
/// appends one record per destination to `out`, in destination order, and
/// range-codes every leg of every journey found into `occ`.
/// A step that carries no demand is not queried: `journeys` is then not read.
pub fn record_step(
    net: &Network,
    sim_step_idx: u32,
    step: &SimulationStep,
    journeys: &Vec<Result<Journey, JourneyError>>,
    occ: &mut OccupancyBuffer,
    out: &mut Vec<AgentJourneyResult>,
)
    requires
        net.wf(),
        step.wf(),
        step.counts().len() <= u32::MAX,
        old(occ).wf(net),
        !zero_demand(step.counts()) ==> journeys@.len() == step.counts().len(),
        !zero_demand(step.counts()) ==> journeys_valid(net, journeys@),
        total_count(old(occ).legs()) + total_count(legs_of_step(step, journeys@)) <= i32::MAX,
    ensures
        final(occ).wf(net),
        final(occ).legs() == old(occ).legs() + legs_of_step(step, journeys@),
        zero_demand(step.counts()) ==> final(occ).legs() == old(occ).legs(),
        final(out)@.len() == old(out)@.len() + step.counts().len(),
        forall|i: int| 0 <= i < old(out)@.len() ==> #[trigger] final(out)@[i] == old(out)@[i],
        forall|j: int|
            0 <= j < step.counts().len() ==> expected_result(
                #[trigger] final(out)@[old(out)@.len() + j],
                sim_step_idx,
                step,
                j,
                journeys@[j],
            ),
{
    let n = step.len();
    let ghost old_len = out@.len();
    if step.is_zero_demand() {
        let mut j: usize = 0;
        while j < n
            invariant
                n == step.counts().len(),
                n <= u32::MAX,
                zero_demand(step.counts()),
                0 <= j <= n,
                out@.len() == old_len + j,
                old_len == old(out)@.len(),
                forall|i: int| 0 <= i < old_len ==> #[trigger] out@[i] == old(out)@[i],
                forall|i: int|
                    0 <= i < j ==> expected_result(
                        #[trigger] out@[old_len + i],
                        sim_step_idx,
                        step,
                        i,
                        journeys@[i],
                    ),
            decreases n - j,
        {
            out.push(
                AgentJourneyResult {
                    sim_step_idx,
                    journey_idx: j as u32,
                    result: Err(JourneyError::NoJourneyFound),
                },
            );
            j = j + 1;
        }
        proof {
            assert(occ.legs() =~= old(occ).legs() + legs_of_step(step, journeys@));
        }
        return;
    }
    let ghost start_legs = occ.legs();
    let ghost counts = step.counts();
    let ghost qs = journeys@;
    let mut j: usize = 0;
    while j < n
        invariant
            net.wf(),
            step.wf(),
            n == step.counts().len(),
            n <= u32::MAX,
            counts == step.counts(),
            qs == journeys@,
            !zero_demand(counts),
            journeys@.len() == n,
            journeys_valid(net, qs),
            total_count(start_legs) + total_count(step_legs(counts, qs, n as int)) <= i32::MAX,
            0 <= j <= n,
            occ.wf(net),
            occ.legs() == start_legs + step_legs(counts, qs, j as int),
            start_legs == old(occ).legs(),
            out@.len() == old_len + j,
            old_len == old(out)@.len(),
            forall|i: int| 0 <= i < old_len ==> #[trigger] out@[i] == old(out)@[i],
            forall|i: int|
                0 <= i < j ==> expected_result(
                    #[trigger] out@[old_len + i],
                    sim_step_idx,
                    step,
                    i,
                    journeys@[i],
                ),
        decreases n - j,
    {
        let count = step.count_of(j);
        let dest_stop = step.dest_stop(j);
        let ghost before = occ.legs();
        let record = match &journeys[j] {
            Err(e) => {
                proof {
                    assert(journey_legs(qs[j as int]) =~= Seq::<Leg>::empty());
                    assert(with_count(journey_legs(qs[j as int]), count) =~= Seq::<(Leg, u32)>::empty());
                    assert(step_legs(counts, qs, j + 1) =~= step_legs(counts, qs, j as int));
                }
                AgentJourneyResult { sim_step_idx, journey_idx: j as u32, result: Err(*e) }
            },
            Ok(journey) => {
                let num_legs = journey.legs.len();
                if num_legs == 0 {
                    proof {
                        assert(journey_legs(qs[j as int]) =~= Seq::<Leg>::empty());
                        assert(with_count(journey_legs(qs[j as int]), count) =~= Seq::<(Leg, u32)>::empty());
                        assert(step_legs(counts, qs, j + 1) =~= step_legs(counts, qs, j as int));
                    }
                    AgentJourneyResult {
                        sim_step_idx,
                        journey_idx: j as u32,
                        result: Err(JourneyError::NoJourneyFound),
                    }
                } else {
                    let ghost legs = journey.legs@;
                    proof {
                        assert(legs == journey_legs(qs[j as int]));
                        lemma_step_legs_monotone(counts, qs, j + 1, n as int);
                        lemma_total_count_concat(step_legs(counts, qs, j as int), with_count(legs, count));
                        lemma_total_count_with_count(legs, count);
                        lemma_total_count_concat(start_legs, step_legs(counts, qs, j as int));
                    }
                    let mut l: usize = 0;
                    while l < num_legs
                        invariant
                            net.wf(),
                            num_legs == legs.len(),
                            legs == journey.legs@,
                            legs == journey_legs(qs[j as int]),
                            0 <= j < n,
                            qs.len() == n,
                            journeys_valid(net, qs),
                            0 <= l <= num_legs,
                            occ.wf(net),
                            occ.legs() == before + with_count(legs.take(l as int), count),
                            total_count(before) == total_count(start_legs) + total_count(step_legs(counts, qs, j as int)),
                            total_count(before) + num_legs * count <= i32::MAX,
                        decreases num_legs - l,
                    {
                        let leg = journey.legs[l];
                        proof {
                            assert(valid_leg(net, journey_legs(qs[j as int])[l as int]));
                            lemma_total_count_concat(before, with_count(legs.take(l as int), count));
                            lemma_total_count_with_count(legs.take(l as int), count);
                            assert(l * count + count <= num_legs * count) by (nonlinear_arith)
                                requires
                                    l < num_legs,
                            ;
                        }
                        occ.add_leg(net, leg, count);
                        proof {
                            assert(with_count(legs.take(l + 1), count) =~= with_count(legs.take(l as int), count).push((leg, count)));
                            assert(before + with_count(legs.take(l + 1), count) =~= (before + with_count(legs.take(l as int), count)).push((leg, count)));
                        }
                        l = l + 1;
                    }
                    proof {
                        assert(legs.take(num_legs as int) =~= legs);
                        assert(step_legs(counts, qs, j + 1) == step_legs(counts, qs, j as int) + with_count(legs, count));
                        assert(start_legs + step_legs(counts, qs, j + 1) =~= before + with_count(legs, count));
                    }
                    let first = journey.legs[0];
                    let last = journey.legs[num_legs - 1];
                    let leg_copy = journey.legs.clone();
                    proof {
                        assert(leg_copy@ =~= legs);
                    }
                    AgentJourneyResult {
                        sim_step_idx,
                        journey_idx: j as u32,
                        result: Ok(
                            AgentJourney {
                                origin_stop: step.origin_stop,
                                origin_trip: first.trip,
                                dest_stop,
                                dest_trip: last.trip,
                                count,
                                start_time: step.departure_time,
                                duration: journey.duration,
                                crowding_cost: journey.cost,
                                num_transfers: (num_legs - 1) as u8,
                                legs: leg_copy,
                            },
                        ),
                    }
                }
            },
        };
        out.push(record);
        j = j + 1;
    }
    proof {
        assert(legs_of_step(step, journeys@) == step_legs(counts, qs, n as int));
    }
}

} // verus!

verus! {

/// Occupancy and agent records of one round, before crowding costs are priced.
#[derive(Debug)]
pub struct RoundOccupancy {
    pub population_count: Vec<PopulationCount>,
    pub agent_journeys: Vec<AgentJourneyResult>,
}

/// Legs that the first `n` steps put on the network, step after step.
pub open spec fn round_legs(
    steps: Seq<SimulationStep>,
    journeys: Seq<Vec<Result<Journey, JourneyError>>>,
    n: int,
) -> Seq<(Leg, u32)>
    decreases n,
{
    if n <= 0 {
        Seq::empty()
    } else {
        round_legs(steps, journeys, n - 1) + legs_of_step(&steps[n - 1], journeys[n - 1]@)
    }
}

/// Position of the first record of step `n` among a round's records.
pub open spec fn record_offset(steps: Seq<SimulationStep>, n: int) -> int
    decreases n,
{
    if n <= 0 {
        0
    } else {
        record_offset(steps, n - 1) + steps[n - 1].counts().len()
    }
}

/// The query results fit the steps: one per destination of each step that
/// carries demand, each leg valid.
pub open spec fn round_inputs_ok(
    net: &Network,
    steps: Seq<SimulationStep>,
    journeys: Seq<Vec<Result<Journey, JourneyError>>>,
) -> bool {
    &&& journeys.len() == steps.len()
    &&& steps.len() <= u32::MAX
    &&& forall|i: int|
        0 <= i < steps.len() ==> {
            &&& (#[trigger] steps[i]).wf()
            &&& steps[i].counts().len() <= u32::MAX
            &&& !zero_demand(steps[i].counts()) ==> journeys[i]@.len() == steps[i].counts().len()
            &&& !zero_demand(steps[i].counts()) ==> journeys_valid(net, journeys[i]@)
        }
}

/// The legs of fewer steps count no more agents.
pub proof fn lemma_round_legs_monotone(
    steps: Seq<SimulationStep>,
    journeys: Seq<Vec<Result<Journey, JourneyError>>>,
    a: int,
    b: int,
)
    requires
        0 <= a <= b,
    ensures
        total_count(round_legs(steps, journeys, a)) <= total_count(round_legs(steps, journeys, b)),
    decreases b - a,
{
    if a < b {
        lemma_round_legs_monotone(steps, journeys, a, b - 1);
        let prev = round_legs(steps, journeys, b - 1);
        let more = legs_of_step(&steps[b - 1], journeys[b - 1]@);
        lemma_total_count_concat(prev, more);
        crate::occupancy::lemma_total_count_nonneg(more);
    }
}

/// Record offsets grow with the step index.
pub proof fn lemma_record_offset_monotone(steps: Seq<SimulationStep>, a: int, b: int)
    requires
        0 <= a <= b,
    ensures
        record_offset(steps, a) <= record_offset(steps, b),
    decreases b - a,
{
    if a < b {
        lemma_record_offset_monotone(steps, a, b - 1);
    }
}

/// Resolves a whole round from the query results of its steps (`journeys[i]`
/// for step `i`; not read for a step that carries no demand): the records of
/// every step in step order, and the occupancy of every stop-time entry.
pub fn run_simulation_round(
    net: &Network,
    steps: &Vec<SimulationStep>,
    journeys: &Vec<Vec<Result<Journey, JourneyError>>>,
) -> (r: RoundOccupancy)
    requires
        net.wf(),
        round_inputs_ok(net, steps@, journeys@),
        total_count(round_legs(steps@, journeys@, steps@.len() as int)) <= i32::MAX,
    ensures
        r.population_count@.len() == net.stop_times@.len(),
        forall|k: int|
            0 <= k < r.population_count@.len() ==> #[trigger] r.population_count@[k] == crate::occupancy::occupancy(
                net,
                round_legs(steps@, journeys@, steps@.len() as int),
                k,
            ),
        forall|k: int| 0 <= k < r.population_count@.len() ==> #[trigger] r.population_count@[k] >= 0,
        r.agent_journeys@.len() == record_offset(steps@, steps@.len() as int),
        forall|i: int, j: int|
            0 <= i < steps@.len() && 0 <= j < steps@[i].counts().len() ==> expected_result(
                #[trigger] r.agent_journeys@[record_offset(steps@, i) + j],
                i as u32,
                &steps@[i],
                j,
                journeys@[i]@[j],
            ),
{
    let mut occ = OccupancyBuffer::new(net);
    let mut out: Vec<AgentJourneyResult> = Vec::new();
    let n = steps.len();
    let mut i: usize = 0;
    while i < n
        invariant
            net.wf(),
            n == steps@.len(),
            round_inputs_ok(net, steps@, journeys@),
            total_count(round_legs(steps@, journeys@, n as int)) <= i32::MAX,
            0 <= i <= n,
            occ.wf(net),
            occ.legs() == round_legs(steps@, journeys@, i as int),
            out@.len() == record_offset(steps@, i as int),
            forall|a: int, j: int|
                0 <= a < i && 0 <= j < steps@[a].counts().len() ==> expected_result(
                    #[trigger] out@[record_offset(steps@, a) + j],
                    a as u32,
                    &steps@[a],
                    j,
                    journeys@[a]@[j],
                ),
        decreases n - i,
    {
        let ghost old_out = out@;
        proof {
            assert(steps@[i as int].wf());
            lemma_round_legs_monotone(steps@, journeys@, i + 1, n as int);
            lemma_total_count_concat(
                round_legs(steps@, journeys@, i as int),
                legs_of_step(&steps@[i as int], journeys@[i as int]@),
            );
        }
        record_step(net, i as u32, &steps[i], &journeys[i], &mut occ, &mut out);
        proof {
            assert forall|a: int, j: int|
                0 <= a < i + 1 && 0 <= j < steps@[a].counts().len() implies expected_result(
                    #[trigger] out@[record_offset(steps@, a) + j],
                    a as u32,
                    &steps@[a],
                    j,
                    journeys@[a]@[j],
                ) by {
                if a < i {
                    lemma_record_offset_monotone(steps@, a + 1, i as int);
                    lemma_record_offset_monotone(steps@, 0, a);
                    assert(record_offset(steps@, a + 1) == record_offset(steps@, a) + steps@[a].counts().len());
                    assert(out@[record_offset(steps@, a) + j] == old_out[record_offset(steps@, a) + j]);
                }
            }
        }
        i = i + 1;
    }
    let population_count = occ.finalize(net);
    RoundOccupancy { population_count, agent_journeys: out }
}

} // verus!

verus! {

/// Smallest bag size after the first round.
pub const MIN_BAG_SIZE: usize = 2;

/// Largest bag size the journey query supports.
pub const MAX_BAG_SIZE: usize = 5;

/// Which crowding costs a round's journey queries are given.
#[derive(Clone, Copy, Debug, PartialEq, Eq, Structural)]
pub enum CrowdingInput {
    /// Zero on every entry: no crowding is known yet.
    Zero,
    /// The costs that the previous round priced.
    PreviousRound,
}

/// How a round is run.
#[derive(Clone, Copy, Debug, PartialEq, Eq, Structural)]
pub struct RoundSetup {
    pub bag_size: usize,
    pub crowding: CrowdingInput,
}

/// `requested` clamped to the bag sizes allowed after the first round.
pub open spec fn clamp_bag_size(requested: usize) -> usize {
    if requested < MIN_BAG_SIZE {
        MIN_BAG_SIZE
    } else if requested > MAX_BAG_SIZE {
        MAX_BAG_SIZE
    } else {
        requested
    }
}

/// Bag size of a round: 1 for the first, where no crowding is known, and the
/// requested size clamped to `[MIN_BAG_SIZE, MAX_BAG_SIZE]` after it.
pub fn bag_size_for_round(round_number: u16, requested: usize) -> (r: usize)
    ensures
        round_number == 0 ==> r == 1,
        round_number > 0 ==> r == clamp_bag_size(requested),
        1 <= r <= MAX_BAG_SIZE,
{
    if round_number == 0 {
        1
    } else if requested < MIN_BAG_SIZE {
        MIN_BAG_SIZE
    } else if requested > MAX_BAG_SIZE {
        MAX_BAG_SIZE
    } else {
        requested
    }
}

/// How round `round_number` is run: the first with bag size 1 and zero
/// crowding costs, every later one with the clamped bag size and the costs of
/// the round before.
pub fn round_setup(round_number: u16, requested_bag_size: usize) -> (r: RoundSetup)
    ensures
        round_number == 0 ==> r == (RoundSetup { bag_size: 1, crowding: CrowdingInput::Zero }),
        round_number > 0 ==> r == (RoundSetup {
            bag_size: clamp_bag_size(requested_bag_size),
            crowding: CrowdingInput::PreviousRound,
        }),
{
    let bag_size = bag_size_for_round(round_number, requested_bag_size);
    let crowding = if round_number == 0 {
        CrowdingInput::Zero
    } else {
        CrowdingInput::PreviousRound
    };
    RoundSetup { bag_size, crowding }
}

/// Outcome of one round: occupancy and crowding cost of every stop-time entry,
/// and one record per (step, destination).
#[derive(Debug)]
pub struct SimulationRoundResult {
    pub population_count: Vec<PopulationCount>,
    pub crowding_cost: Vec<Cost>,
    pub agent_journeys: Vec<AgentJourneyResult>,
}

/// Outcome of a whole run: the last round's occupancy, and each round's records.
#[derive(Debug)]
pub struct SimulationResult {
    pub population_count: Vec<PopulationCount>,
    pub round_agent_journeys: Vec<Vec<AgentJourneyResult>>,
}

impl SimulationResult {
    /// Assembles a run from its rounds, in round order: the population count is
    /// the last round's.
    pub fn from_rounds(rounds: Vec<SimulationRoundResult>) -> (r: SimulationResult)
        requires
            rounds@.len() > 0,
        ensures
            r.population_count == rounds@.last().population_count,
            r.round_agent_journeys@.len() == rounds@.len(),
            forall|i: int|
                0 <= i < rounds@.len() ==> #[trigger] r.round_agent_journeys@[i]
                    == rounds@[i].agent_journeys,
    {
        let ghost all = rounds@;
        let mut rounds = rounds;
        let mut reversed: Vec<Vec<AgentJourneyResult>> = Vec::new();
        let last = rounds.pop().unwrap();
        let population_count = last.population_count;
        reversed.push(last.agent_journeys);
        while rounds.len() > 0
            invariant
                all.len() > 0,
                rounds@.len() + reversed@.len() == all.len(),
                rounds@ == all.take(rounds@.len() as int),
                forall|j: int|
                    0 <= j < reversed@.len() ==> #[trigger] reversed@[j] == all[all.len() - 1
                        - j].agent_journeys,
            decreases rounds@.len(),
        {
            let ghost before = rounds@;
            let round = rounds.pop().unwrap();
            proof {
                assert(rounds@ =~= all.take(rounds@.len() as int));
                assert(round == all[before.len() - 1]);
            }
            reversed.push(round.agent_journeys);
        }
        let mut round_agent_journeys: Vec<Vec<AgentJourneyResult>> = Vec::new();
        while reversed.len() > 0
            invariant
                round_agent_journeys@.len() + reversed@.len() == all.len(),
                forall|j: int|
                    0 <= j < reversed@.len() ==> #[trigger] reversed@[j] == all[all.len() - 1
                        - j].agent_journeys,
                forall|i: int|
                    0 <= i < round_agent_journeys@.len() ==> #[trigger] round_agent_journeys@[i]
                        == all[i].agent_journeys,
            decreases reversed@.len(),
        {
            let journeys = reversed.pop().unwrap();
            round_agent_journeys.push(journeys);
        }
        SimulationResult { population_count, round_agent_journeys }
    }

    /// Number of rounds, and number of records of the last round.
    pub fn stats(&self) -> (r: (usize, usize))
        ensures
            r.0 == self.round_agent_journeys@.len(),
            r.1 == if self.round_agent_journeys@.len() == 0 {
                0
            } else {
                self.round_agent_journeys@.last()@.len()
            },
    {
        let rounds = self.round_agent_journeys.len();
        if rounds == 0 {
            (0, 0)
        } else {
            (rounds, self.round_agent_journeys[rounds - 1].len())
        }
    }
}

} // verus!
