use vstd::prelude::*;
use crate::simulation::PopulationCount;

verus! {

/// Seated and standing places of a trip.
#[derive(Clone, Copy, Debug, PartialEq, Eq, Structural)]
pub struct TripCapacity {
    pub seated: PopulationCount,
    pub standing: PopulationCount,
}

impl TripCapacity {
    /// All places, seated and standing.
    pub fn total(&self) -> (r: PopulationCount)
        requires
            i32::MIN <= self.seated + self.standing <= i32::MAX,
        ensures
            r == self.seated + self.standing,
    {
        self.seated + self.standing
    }
}

impl Default for TripCapacity {
    /// One seated and one standing place, so that every crowding function is
    /// defined on it.
    fn default() -> (r: TripCapacity)
        ensures
            r.seated == 1,
            r.standing == 1,
    {
        TripCapacity { seated: 1, standing: 1 }
    }
}

/// The capacity that a list of overrides gives a trip: the last entry for its
/// identifier, or the default where there is none.
pub open spec fn capacity_for(
    overrides: Seq<(String, TripCapacity)>,
    default: TripCapacity,
    trip_id: Seq<char>,
) -> TripCapacity
    decreases overrides.len(),
{
    if overrides.len() == 0 {
        default
    } else if overrides.last().0@ == trip_id {
        overrides.last().1
    } else {
        capacity_for(overrides.drop_last(), default, trip_id)
    }
}

/// Capacities of trips by identifier, with a default for the others.
#[derive(Debug)]
pub struct TripCapacities {
    default: TripCapacity,
    overrides: Vec<(String, TripCapacity)>,
}

impl TripCapacities {
    /// Capacity of every trip without an override.
    pub closed spec fn default_capacity(&self) -> TripCapacity {
        self.default
    }

    /// The overrides, in the order they were given.
    pub closed spec fn overrides(&self) -> Seq<(String, TripCapacity)> {
        self.overrides@
    }

    /// Capacity of the trip with identifier `trip_id`.
    pub open spec fn capacity(&self, trip_id: Seq<char>) -> TripCapacity {
        capacity_for(self.overrides(), self.default_capacity(), trip_id)
    }

    /// A registry from a default and overrides; where an identifier occurs more
    /// than once, its last entry counts.
    pub fn new(default: TripCapacity, overrides: Vec<(String, TripCapacity)>) -> (r: TripCapacities)
        ensures
            r.default_capacity() == default,
            r.overrides() == overrides@,
    {
        TripCapacities { default, overrides }
    }

    /// Replaces the default capacity; overrides stay.
    pub fn set_default_capacity(&mut self, default: TripCapacity)
        ensures
            final(self).default_capacity() == default,
            final(self).overrides() == old(self).overrides(),
    {
        self.default = default;
    }

    /// Capacity of the trip with identifier `trip_id`: its override, or the default.
    pub fn get(&self, trip_id: &str) -> (r: TripCapacity)
        ensures
            r == self.capacity(trip_id@),
    {
        let key = trip_id.to_owned();
        let mut i: usize = self.overrides.len();
        proof {
            assert(self.overrides@.take(i as int) =~= self.overrides@);
        }
        while i > 0
            invariant
                0 <= i <= self.overrides@.len(),
                key@ == trip_id@,
                capacity_for(self.overrides@, self.default, key@) == capacity_for(
                    self.overrides@.take(i as int),
                    self.default,
                    key@,
                ),
            decreases i,
        {
            proof {
                assert(self.overrides@.take(i as int).drop_last() =~= self.overrides@.take(i - 1));
            }
            if self.overrides[i - 1].0 == key {
                return self.overrides[i - 1].1;
            }
            i = i - 1;
        }
        self.default
    }
}

impl Default for TripCapacities {
    /// No overrides, and the default capacity of a trip.
    fn default() -> (r: TripCapacities)
        ensures
            r.default_capacity() == (TripCapacity { seated: 1, standing: 1 }),
            r.overrides() == Seq::<(String, TripCapacity)>::empty(),
    {
        TripCapacities { default: TripCapacity { seated: 1, standing: 1 }, overrides: Vec::new() }
    }
}

} // verus!
