use vstd::prelude::*;
use crate::capacity::TripCapacity;
use crate::network::{stop_of, Network, ServiceDate, StopIndex, Timestamp};
use crate::simulation::{AgentCount, SimulationStep};
use std::collections::HashMap;

verus! {

broadcast use vstd::std_specs::hash::group_hash_axioms;

/// A column of an input file.
#[derive(Clone, Copy, Debug, PartialEq, Eq, Structural)]
pub enum Column {
    Header,
    TripId,
    Seated,
    Standing,
    OriginStation,
    DestinationStation,
    DepartureTime,
    AgentCount,
}

/// Why an input file gave no usable data.
#[derive(Clone, Copy, Debug, PartialEq, Eq, Structural)]
pub enum DataImportError {
    NoDataForDate(ServiceDate),
    ColumnNotFound(Column),
    ColumnWrongFormat(Column),
    NoData,
}

pub open spec fn is_digit(c: char) -> bool {
    ('0' as u32) <= (c as u32) <= ('9' as u32)
}

/// Value of a string of decimal digits.
pub open spec fn digits_value(s: Seq<char>) -> int
    decreases s.len(),
{
    if s.len() == 0 {
        0
    } else {
        digits_value(s.drop_last()) * 10 + ((s.last() as u32) - ('0' as u32))
    }
}

/// The `i32` that a string spells in decimal: an optional `+` or `-`, then one
/// or more ASCII digits, with a value in range; `None` for anything else.
pub open spec fn decimal_i32(s: Seq<char>) -> Option<i32> {
    let signed = s.len() > 0 && (s[0] == '-' || s[0] == '+');
    let body = if signed {
        s.skip(1)
    } else {
        s
    };
    let v = if s.len() > 0 && s[0] == '-' {
        -digits_value(body)
    } else {
        digits_value(body)
    };
    if body.len() > 0 && (forall|i: int| 0 <= i < body.len() ==> is_digit(#[trigger] body[i]))
        && i32::MIN <= v <= i32::MAX {
        Some(v as i32)
    } else {
        None
    }
}

/// Relies on std's `str::parse::<i32>` (`FromStr for i32`), which accepts an
/// optional `+` or `-` followed by one or more ASCII decimal digits whose value
/// fits an `i32`, and rejects everything else.
#[verifier::external_body]
fn parse_i32(s: &String) -> (r: Option<i32>)
    ensures
        r == decimal_i32(s@),
{
    s.parse::<i32>().ok()
}

/// Whether field `i` of a row is present and equal to `name`.
fn field_is(fields: &Vec<String>, i: usize, name: &str) -> (r: bool)
    ensures
        r == (i < fields@.len() && fields@[i as int]@ == name@),
{
    if i < fields.len() {
        let expected = name.to_owned();
        fields[i] == expected
    } else {
        false
    }
}

/// The capacity entry that a record `trip_id,seated,standing` gives, if its
/// fields are there and both numbers parse.
pub open spec fn record_capacity(rec: Seq<String>) -> Option<(Seq<char>, TripCapacity)> {
    if rec.len() >= 3 {
        match (decimal_i32(rec[1]@), decimal_i32(rec[2]@)) {
            (Some(seated), Some(standing)) => Some(
                (rec[0]@, TripCapacity { seated, standing }),
            ),
            _ => None,
        }
    } else {
        None
    }
}

/// Entries of the records that give one, in record order.
pub open spec fn capacity_entries(records: Seq<Vec<String>>) -> Seq<(Seq<char>, TripCapacity)>
    decreases records.len(),
{
    if records.len() == 0 {
        Seq::empty()
    } else {
        capacity_entries(records.drop_last()) + match record_capacity(records.last()@) {
            Some(e) => seq![e],
            None => Seq::empty(),
        }
    }
}

pub open spec fn entry_view(e: (String, TripCapacity)) -> (Seq<char>, TripCapacity) {
    (e.0@, e.1)
}

/// Trip capacities from a table with header `trip_id,seated,standing`.
/// Records whose numbers do not parse are skipped; where a trip occurs more
/// than once, the last entry is the one a lookup finds.
pub fn import_trip_capacities(headers: &Vec<String>, records: &Vec<Vec<String>>) -> (r: Result<
    Vec<(String, TripCapacity)>,
    DataImportError,
>)
    ensures
        !(headers@.len() > 0 && headers@[0]@ == "trip_id"@) ==> r == Err::<
            Vec<(String, TripCapacity)>,
            DataImportError,
        >(DataImportError::ColumnNotFound(Column::TripId)),
        (headers@.len() > 0 && headers@[0]@ == "trip_id"@) && !(headers@.len() > 1
            && headers@[1]@ == "seated"@) ==> r == Err::<Vec<(String, TripCapacity)>, DataImportError>(
            DataImportError::ColumnNotFound(Column::Seated),
        ),
        (headers@.len() > 1 && headers@[0]@ == "trip_id"@ && headers@[1]@ == "seated"@) && !(
        headers@.len() > 2 && headers@[2]@ == "standing"@) ==> r == Err::<
            Vec<(String, TripCapacity)>,
            DataImportError,
        >(DataImportError::ColumnNotFound(Column::Standing)),
        (headers@.len() > 2 && headers@[0]@ == "trip_id"@ && headers@[1]@ == "seated"@
            && headers@[2]@ == "standing"@) ==> match r {
            Ok(v) => capacity_entries(records@).len() > 0 && v@.map_values(|e| entry_view(e))
                == capacity_entries(records@),
            Err(e) => capacity_entries(records@).len() == 0 && e == DataImportError::NoData,
        },
{
    if !field_is(headers, 0, "trip_id") {
        return Err(DataImportError::ColumnNotFound(Column::TripId));
    }
    if !field_is(headers, 1, "seated") {
        return Err(DataImportError::ColumnNotFound(Column::Seated));
    }
    if !field_is(headers, 2, "standing") {
        return Err(DataImportError::ColumnNotFound(Column::Standing));
    }
    let mut out: Vec<(String, TripCapacity)> = Vec::new();
    let mut i: usize = 0;
    while i < records.len()
        invariant
            0 <= i <= records@.len(),
            out@.map_values(|e| entry_view(e)) == capacity_entries(records@.take(i as int)),
        decreases records@.len() - i,
    {
        proof {
            assert(records@.take(i + 1).drop_last() =~= records@.take(i as int));
        }
        let rec = &records[i];
        if rec.len() >= 3 {
            let seated = parse_i32(&rec[1]);
            let standing = parse_i32(&rec[2]);
            match (seated, standing) {
                (Some(seated), Some(standing)) => {
                    let ghost before = out@;
                    let id = rec[0].clone();
                    out.push((id, TripCapacity { seated, standing }));
                    proof {
                        assert(out@.map_values(|e| entry_view(e)) =~= before.map_values(
                            |e| entry_view(e),
                        ).push(entry_view(out@.last())));
                    }
                },
                _ => {
                    proof {
                        assert(capacity_entries(records@.take(i + 1)) =~= capacity_entries(
                            records@.take(i as int),
                        ));
                    }
                },
            }
        } else {
            proof {
                assert(capacity_entries(records@.take(i + 1)) =~= capacity_entries(
                    records@.take(i as int),
                ));
            }
        }
        i = i + 1;
    }
    proof {
        assert(records@.take(i as int) =~= records@);
    }
    if out.len() == 0 {
        Err(DataImportError::NoData)
    } else {
        Ok(out)
    }
}

} // verus!

verus! {

/// One row of demand: `agent_count` agents leave `origin_station` at
/// `departure_time` for `destination_station`.
#[derive(Debug)]
pub struct DemandRow {
    pub origin_station: String,
    pub destination_station: String,
    pub departure_time: Timestamp,
    pub agent_count: AgentCount,
}

/// Nanoseconds in a day.
pub const NANOS_PER_DAY: i64 = 86_400_000_000_000;

/// Microseconds in a day.
pub const MICROS_PER_DAY: i64 = 86_400_000_000;

/// Seconds since the start of the day of a time of day in nanoseconds; `None`
/// for a value that is no time of day.
pub fn seconds_from_nanos(ns: i64) -> (r: Option<Timestamp>)
    ensures
        0 <= ns < NANOS_PER_DAY ==> r == Some((ns / 1_000_000_000) as Timestamp),
        !(0 <= ns < NANOS_PER_DAY) ==> r == None::<Timestamp>,
{
    if 0 <= ns && ns < NANOS_PER_DAY {
        Some((ns / 1_000_000_000) as Timestamp)
    } else {
        None
    }
}

/// Seconds since the start of the day of a time of day in microseconds; `None`
/// for a value that is no time of day.
pub fn seconds_from_micros(us: i64) -> (r: Option<Timestamp>)
    ensures
        0 <= us < MICROS_PER_DAY ==> r == Some((us / 1_000_000) as Timestamp),
        !(0 <= us < MICROS_PER_DAY) ==> r == None::<Timestamp>,
{
    if 0 <= us && us < MICROS_PER_DAY {
        Some((us / 1_000_000) as Timestamp)
    } else {
        None
    }
}

/// An agent count read as a 64-bit integer; `None` where it is negative or too large.
pub fn agent_count_from_i64(c: i64) -> (r: Option<AgentCount>)
    ensures
        0 <= c <= AgentCount::MAX ==> r == Some(c as AgentCount),
        !(0 <= c <= AgentCount::MAX) ==> r == None::<AgentCount>,
{
    if 0 <= c && c <= AgentCount::MAX as i64 {
        Some(c as AgentCount)
    } else {
        None
    }
}

/// What a row contributes, once both stations are found: departure time,
/// origin, destination and count.
pub open spec fn demand_entry(names: Seq<String>, row: DemandRow) -> Option<
    (Timestamp, StopIndex, StopIndex, AgentCount),
> {
    match stop_of(names, row.origin_station@) {
        None => None,
        Some(o) => match stop_of(names, row.destination_station@) {
            None => None,
            Some(d) => Some((row.departure_time, o, d, row.agent_count)),
        },
    }
}

/// Contributions of the rows whose stations are both found, in row order.
pub open spec fn demand_entries(names: Seq<String>, rows: Seq<DemandRow>) -> Seq<
    (Timestamp, StopIndex, StopIndex, AgentCount),
>
    decreases rows.len(),
{
    if rows.len() == 0 {
        Seq::empty()
    } else {
        demand_entries(names, rows.drop_last()) + match demand_entry(names, rows.last()) {
            Some(e) => seq![e],
            None => Seq::empty(),
        }
    }
}

/// Destinations of the entries that leave `origin` at `time`, in order.
pub open spec fn dests_for(
    entries: Seq<(Timestamp, StopIndex, StopIndex, AgentCount)>,
    time: Timestamp,
    origin: StopIndex,
) -> Seq<StopIndex>
    decreases entries.len(),
{
    if entries.len() == 0 {
        Seq::empty()
    } else {
        let e = entries.last();
        dests_for(entries.drop_last(), time, origin) + if e.0 == time && e.1 == origin {
            seq![e.2]
        } else {
            Seq::empty()
        }
    }
}

/// Counts of the entries that leave `origin` at `time`, in order.
pub open spec fn counts_for(
    entries: Seq<(Timestamp, StopIndex, StopIndex, AgentCount)>,
    time: Timestamp,
    origin: StopIndex,
) -> Seq<AgentCount>
    decreases entries.len(),
{
    if entries.len() == 0 {
        Seq::empty()
    } else {
        let e = entries.last();
        counts_for(entries.drop_last(), time, origin) + if e.0 == time && e.1 == origin {
            seq![e.3]
        } else {
            Seq::empty()
        }
    }
}

/// Key of a (departure time, origin) pair.
pub open spec fn step_key(time: Timestamp, origin: StopIndex) -> u64 {
    (time as u64 * 0x1_0000_0000 + origin as u64) as u64
}

fn key_of(time: Timestamp, origin: StopIndex) -> (r: u64)
    ensures
        r == step_key(time, origin),
{
    time as u64 * 0x1_0000_0000 + origin as u64
}

proof fn lemma_step_key_injective(t1: Timestamp, o1: StopIndex, t2: Timestamp, o2: StopIndex)
    requires
        step_key(t1, o1) == step_key(t2, o2),
    ensures
        t1 == t2,
        o1 == o2,
{
}

/// With no entry for the pair, nothing is selected for it.
proof fn lemma_nothing_for(
    entries: Seq<(Timestamp, StopIndex, StopIndex, AgentCount)>,
    time: Timestamp,
    origin: StopIndex,
)
    requires
        forall|q: int| 0 <= q < entries.len() ==> !((#[trigger] entries[q]).0 == time && entries[q].1 == origin),
    ensures
        dests_for(entries, time, origin) == Seq::<StopIndex>::empty(),
        counts_for(entries, time, origin) == Seq::<AgentCount>::empty(),
    decreases entries.len(),
{
    if entries.len() > 0 {
        let rest = entries.drop_last();
        assert forall|q: int| 0 <= q < rest.len() implies !((#[trigger] rest[q]).0 == time && rest[q].1 == origin) by {
            assert(rest[q] == entries[q]);
        }
        lemma_nothing_for(rest, time, origin);
        assert(entries.last() == entries[entries.len() - 1]);
    }
}

/// The steps group the entries: one step per (departure time, origin) pair that
/// occurs, holding that pair's destinations and counts in entry order.
pub open spec fn grouped(
    entries: Seq<(Timestamp, StopIndex, StopIndex, AgentCount)>,
    steps: Seq<SimulationStep>,
) -> bool {
    &&& forall|i: int|
        0 <= i < steps.len() ==> {
            &&& (#[trigger] steps[i]).wf()
            &&& steps[i].dests() == dests_for(entries, steps[i].departure_time, steps[i].origin_stop)
            &&& steps[i].counts() == counts_for(entries, steps[i].departure_time, steps[i].origin_stop)
        }
    &&& forall|i: int, j: int|
        0 <= i < j < steps.len() ==> !((#[trigger] steps[i]).departure_time == (
        #[trigger] steps[j]).departure_time && steps[i].origin_stop == steps[j].origin_stop)
    &&& forall|q: int|
        0 <= q < entries.len() ==> exists|i: int|
            0 <= i < steps.len() && (#[trigger] steps[i]).departure_time == (
            #[trigger] entries[q]).0 && steps[i].origin_stop == entries[q].1
}

/// Groups demand rows into simulation steps, one per (departure time, origin)
/// pair, whose destinations and counts are those of the pair's rows in row
/// order. Rows whose origin or destination is not a stop of the network are
/// skipped; where none is left, the import fails for the network's date.
/// Steps come in the order in which their pair first occurs.
pub fn build_simulation_steps_from_patronage_data(rows: &Vec<DemandRow>, network: &Network) -> (r:
    Result<Vec<SimulationStep>, DataImportError>)
    ensures
        match r {
            Err(e) => {
                &&& e == DataImportError::NoDataForDate(network.date)
                &&& demand_entries(network.stop_names@, rows@).len() == 0
            },
            Ok(steps) => {
                &&& demand_entries(network.stop_names@, rows@).len() > 0
                &&& grouped(demand_entries(network.stop_names@, rows@), steps@)
            },
        },
{
    let ghost names = network.stop_names@;
    let mut steps: Vec<SimulationStep> = Vec::new();
    let mut index: HashMap<u64, usize> = HashMap::new();
    let mut n: usize = 0;
    while n < rows.len()
        invariant
            0 <= n <= rows@.len(),
            names == network.stop_names@,
            forall|k: u64| #[trigger] index@.contains_key(k) ==> index@[k] < steps@.len() && step_key(
                steps@[index@[k] as int].departure_time,
                steps@[index@[k] as int].origin_stop,
            ) == k,
            forall|i: int|
                0 <= i < steps@.len() ==> {
                    &&& index@.contains_key(
                        step_key((#[trigger] steps@[i]).departure_time, steps@[i].origin_stop),
                    )
                    &&& index@[step_key(steps@[i].departure_time, steps@[i].origin_stop)] == i
                    &&& steps@[i].wf()
                    &&& steps@[i].dests().len() > 0
                    &&& steps@[i].dests() == dests_for(
                        demand_entries(names, rows@.take(n as int)),
                        steps@[i].departure_time,
                        steps@[i].origin_stop,
                    )
                    &&& steps@[i].counts() == counts_for(
                        demand_entries(names, rows@.take(n as int)),
                        steps@[i].departure_time,
                        steps@[i].origin_stop,
                    )
                },
            forall|q: int|
                0 <= q < demand_entries(names, rows@.take(n as int)).len() ==> index@.contains_key(
                    step_key(
                        (#[trigger] demand_entries(names, rows@.take(n as int))[q]).0,
                        demand_entries(names, rows@.take(n as int))[q].1,
                    ),
                ),
        decreases rows@.len() - n,
    {
        let ghost before = demand_entries(names, rows@.take(n as int));
        proof {
            assert(rows@.take(n + 1).drop_last() =~= rows@.take(n as int));
            assert(rows@.take(n + 1).last() == rows@[n as int]);
        }
        let row = &rows[n];
        let origin = network.get_stop_idx_from_name(&row.origin_station);
        match origin {
            None => {
                proof {
                    assert(demand_entries(names, rows@.take(n + 1)) =~= before);
                }
            },
            Some(origin) => {
                let dest = network.get_stop_idx_from_name(&row.destination_station);
                match dest {
                    None => {
                        proof {
                            assert(demand_entries(names, rows@.take(n + 1)) =~= before);
                        }
                    },
                    Some(dest) => {
                        let time = row.departure_time;
                        let count = row.agent_count;
                        let ghost e = (time, origin, dest, count);
                        let ghost after = before.push(e);
                        proof {
                            assert(demand_entries(names, rows@.take(n + 1)) =~= after);
                            assert(after.drop_last() =~= before);
                            assert(after.last() == e);
                        }
                        let key = key_of(time, origin);
                        let ghost old_steps = steps@;
                        match index.get(&key) {
                            Some(idx) => {
                                let i = *idx;
                                steps[i].push(dest, count);
                                proof {
                                    assert forall|a: int| 0 <= a < steps@.len() implies {
                                        &&& index@.contains_key(
                                            step_key((#[trigger] steps@[a]).departure_time, steps@[a].origin_stop),
                                        )
                                        &&& index@[step_key(steps@[a].departure_time, steps@[a].origin_stop)] == a
                                        &&& steps@[a].wf()
                                        &&& steps@[a].dests().len() > 0
                                        &&& steps@[a].dests() == dests_for(after, steps@[a].departure_time, steps@[a].origin_stop)
                                        &&& steps@[a].counts() == counts_for(after, steps@[a].departure_time, steps@[a].origin_stop)
                                    } by {
                                        if a == i {
                                            lemma_step_key_injective(time, origin, old_steps[a].departure_time, old_steps[a].origin_stop);
                                        } else {
                                            assert(steps@[a] == old_steps[a]);
                                            if steps@[a].departure_time == time && steps@[a].origin_stop == origin {
                                                assert(index@[key] == a);
                                            }
                                        }
                                    }
                                    assert forall|q: int| 0 <= q < after.len() implies index@.contains_key(
                                        step_key((#[trigger] after[q]).0, after[q].1),
                                    ) by {
                                        if q < before.len() {
                                            assert(after[q] == before[q]);
                                        }
                                    }
                                }
                            },
                            None => {
                                proof {
                                    assert forall|q: int| 0 <= q < before.len() implies !((#[trigger] before[q]).0 == time && before[q].1 == origin) by {
                                        if before[q].0 == time && before[q].1 == origin {
                                            assert(index@.contains_key(step_key(before[q].0, before[q].1)));
                                        }
                                    }
                                    lemma_nothing_for(before, time, origin);
                                }
                                let mut step = SimulationStep::new(time, origin);
                                step.push(dest, count);
                                let i = steps.len();
                                steps.push(step);
                                index.insert(key, i);
                                proof {
                                    assert(steps@[i as int].dests() =~= dests_for(after, time, origin));
                                    assert(steps@[i as int].counts() =~= counts_for(after, time, origin));
                                    assert forall|a: int| 0 <= a < steps@.len() implies {
                                        &&& index@.contains_key(
                                            step_key((#[trigger] steps@[a]).departure_time, steps@[a].origin_stop),
                                        )
                                        &&& index@[step_key(steps@[a].departure_time, steps@[a].origin_stop)] == a
                                        &&& steps@[a].wf()
                                        &&& steps@[a].dests().len() > 0
                                        &&& steps@[a].dests() == dests_for(after, steps@[a].departure_time, steps@[a].origin_stop)
                                        &&& steps@[a].counts() == counts_for(after, steps@[a].departure_time, steps@[a].origin_stop)
                                    } by {
                                        if a < i {
                                            assert(steps@[a] == old_steps[a]);
                                            if step_key(steps@[a].departure_time, steps@[a].origin_stop) == key {
                                                lemma_step_key_injective(time, origin, steps@[a].departure_time, steps@[a].origin_stop);
                                            }
                                        }
                                    }
                                    assert forall|q: int| 0 <= q < after.len() implies index@.contains_key(
                                        step_key((#[trigger] after[q]).0, after[q].1),
                                    ) by {
                                        if q < before.len() {
                                            assert(after[q] == before[q]);
                                        }
                                    }
                                }
                            },
                        }
                    },
                }
            },
        }
        n = n + 1;
    }
    proof {
        assert(rows@.take(n as int) =~= rows@);
    }
    if steps.len() == 0 {
        proof {
            let entries = demand_entries(names, rows@.take(n as int));
            assert(entries == demand_entries(names, rows@));
            if entries.len() > 0 {
                let e0 = entries[0];
                assert(index@.contains_key(step_key(e0.0, e0.1)));
                assert(false);
            }
        }
        Err(DataImportError::NoDataForDate(network.date))
    } else {
        let ghost entries = demand_entries(names, rows@);
        proof {
            assert(steps@[0].dests().len() > 0);
            assert(entries == demand_entries(names, rows@.take(n as int)));
            assert forall|i: int, j: int|
                0 <= i < j < steps@.len() implies !((#[trigger] steps@[i]).departure_time
                    == (#[trigger] steps@[j]).departure_time && steps@[i].origin_stop
                    == steps@[j].origin_stop) by {
                if steps@[i].departure_time == steps@[j].departure_time && steps@[i].origin_stop == steps@[j].origin_stop {
                    assert(index@[step_key(steps@[i].departure_time, steps@[i].origin_stop)] == i);
                }
            }
            assert forall|q: int| 0 <= q < entries.len() implies exists|i: int|
                0 <= i < steps@.len() && (#[trigger] steps@[i]).departure_time
                    == (#[trigger] entries[q]).0 && steps@[i].origin_stop == entries[q].1 by {
                let k = step_key(entries[q].0, entries[q].1);
                assert(index@.contains_key(k));
                let i = index@[k] as int;
                assert(index@[step_key(steps@[i].departure_time, steps@[i].origin_stop)] == i);
                lemma_step_key_injective(entries[q].0, entries[q].1, steps@[i].departure_time, steps@[i].origin_stop);
            }
        }
        proof {
            assert(grouped(entries, steps@));
        }
        Ok(steps)
    }
}

} // verus!

verus! {

/// The station name of a row that the import looks up without finding it: the
/// origin, or, where the origin is found, the destination.
pub open spec fn unknown_in_row(names: Seq<String>, row: DemandRow, name: Seq<char>) -> bool {
    ||| (stop_of(names, row.origin_station@) is None && name == row.origin_station@)
    ||| (stop_of(names, row.origin_station@) is Some && stop_of(
        names,
        row.destination_station@,
    ) is None && name == row.destination_station@)
}

/// Some row among the first `n` looks `name` up without finding it.
pub open spec fn unknown_in_rows(names: Seq<String>, rows: Seq<DemandRow>, n: int, name: Seq<char>) -> bool {
    exists|q: int| 0 <= q < n && #[trigger] unknown_in_row(names, rows[q], name)
}

/// Whether `name` is among `names`, computed.
fn contains_name(names: &Vec<String>, name: &String) -> (r: bool)
    ensures
        r == exists|i: int| 0 <= i < names@.len() && (#[trigger] names@[i])@ == name@,
{
    let mut i: usize = 0;
    while i < names.len()
        invariant
            0 <= i <= names@.len(),
            forall|j: int| 0 <= j < i ==> (#[trigger] names@[j])@ != name@,
        decreases names@.len() - i,
    {
        if names[i] == *name {
            return true;
        }
        i = i + 1;
    }
    false
}

/// The station names that the import of `rows` cannot find, each once, in the
/// order in which they are first looked up.
pub fn unknown_station_names(rows: &Vec<DemandRow>, network: &Network) -> (r: Vec<String>)
    ensures
        forall|i: int, j: int| 0 <= i < j < r@.len() ==> (#[trigger] r@[i])@ != (#[trigger] r@[j])@,
        forall|i: int|
            0 <= i < r@.len() ==> unknown_in_rows(
                network.stop_names@,
                rows@,
                rows@.len() as int,
                (#[trigger] r@[i])@,
            ),
        forall|q: int, name: Seq<char>|
            0 <= q < rows@.len() && #[trigger] unknown_in_row(network.stop_names@, rows@[q], name)
                ==> exists|i: int| 0 <= i < r@.len() && (#[trigger] r@[i])@ == name,
{
    let ghost names = network.stop_names@;
    let mut unknown: Vec<String> = Vec::new();
    let mut n: usize = 0;
    while n < rows.len()
        invariant
            0 <= n <= rows@.len(),
            names == network.stop_names@,
            forall|i: int, j: int|
                0 <= i < j < unknown@.len() ==> (#[trigger] unknown@[i])@ != (#[trigger] unknown@[j])@,
            forall|i: int|
                0 <= i < unknown@.len() ==> unknown_in_rows(names, rows@, n as int, (#[trigger] unknown@[i])@),
            forall|q: int, name: Seq<char>|
                0 <= q < n && #[trigger] unknown_in_row(names, rows@[q], name) ==> exists|i: int|
                    0 <= i < unknown@.len() && (#[trigger] unknown@[i])@ == name,
        decreases rows@.len() - n,
    {
        let row = &rows[n];
        let ghost old_unknown = unknown@;
        let missing: Option<&String> = match network.get_stop_idx_from_name(&row.origin_station) {
            None => Some(&row.origin_station),
            Some(_) => match network.get_stop_idx_from_name(&row.destination_station) {
                None => Some(&row.destination_station),
                Some(_) => None,
            },
        };
        match missing {
            Some(name) => {
                if !contains_name(&unknown, name) {
                    unknown.push(name.clone());
                }
                proof {
                    assert forall|i: int|
                        0 <= i < unknown@.len() implies unknown_in_rows(names, rows@, n + 1, (#[trigger] unknown@[i])@) by {
                        if i < old_unknown.len() {
                            assert(unknown@[i] == old_unknown[i]);
                            assert(unknown_in_rows(names, rows@, n as int, old_unknown[i]@));
                            let q = choose|q: int| 0 <= q < n && #[trigger] unknown_in_row(names, rows@[q], old_unknown[i]@);
                            assert(unknown_in_row(names, rows@[q], unknown@[i]@));
                        } else {
                            assert(unknown_in_row(names, rows@[n as int], unknown@[i]@));
                        }
                    }
                    assert forall|q: int, nm: Seq<char>|
                        0 <= q < n + 1 && #[trigger] unknown_in_row(names, rows@[q], nm) implies exists|i: int|
                            0 <= i < unknown@.len() && (#[trigger] unknown@[i])@ == nm by {
                        if q < n {
                            let i = choose|i: int| 0 <= i < old_unknown.len() && (#[trigger] old_unknown[i])@ == nm;
                            assert(unknown@[i] == old_unknown[i]);
                        } else {
                            assert(nm == name@);
                            if unknown@.len() > old_unknown.len() {
                                assert(unknown@[old_unknown.len() as int]@ == nm);
                            }
                        }
                    }
                }
            },
            None => {
                proof {
                    assert forall|q: int, nm: Seq<char>|
                        0 <= q < n + 1 && #[trigger] unknown_in_row(names, rows@[q], nm) implies exists|i: int|
                            0 <= i < unknown@.len() && (#[trigger] unknown@[i])@ == nm by {
                        if q == n {
                            assert(!unknown_in_row(names, rows@[q], nm));
                        }
                    }
                    assert forall|i: int|
                        0 <= i < unknown@.len() implies unknown_in_rows(names, rows@, n + 1, (#[trigger] unknown@[i])@) by {
                        assert(unknown_in_rows(names, rows@, n as int, unknown@[i]@));
                        let q = choose|q: int| 0 <= q < n && #[trigger] unknown_in_row(names, rows@[q], unknown@[i]@);
                        assert(unknown_in_row(names, rows@[q], unknown@[i]@));
                    }
                }
            },
        }
        n = n + 1;
    }
    proof {
        assert forall|q: int, nm: Seq<char>|
            0 <= q < rows@.len() && #[trigger] unknown_in_row(network.stop_names@, rows@[q], nm)
                implies exists|i: int| 0 <= i < unknown@.len() && (#[trigger] unknown@[i])@ == nm by {
            assert(unknown_in_row(names, rows@[q], nm));
        }
    }
    unknown
}

} // verus!
