//! The first pass over the stop times: the states in which each agency stops.

use crate::agencies::{slot_count, slot_of_route, AgencyIndex, RouteTable};
use crate::rows::{StopTimeRecord, StopTimeRow, TripRecord, TripRow};
use crate::stops::{state_of, StopFacts, StopTable};
use vstd::hash_map::StringHashMap;
use vstd::prelude::*;

verus! {

/// A set of states; a stop may also lie in none.
pub struct StateSet {
    states: Vec<String>,
    outside: bool,
}

impl View for StateSet {
    type V = Set<Option<Seq<char>>>;

    closed spec fn view(&self) -> Set<Option<Seq<char>>> {
        Set::new(
            |state: Option<Seq<char>>|
                match state {
                    Some(name) => self.states.deep_view().contains(name),
                    None => self.outside,
                },
        )
    }
}

/// The state that is the only element of the set, if there is one.
pub open spec fn only_state(states: Set<Option<Seq<char>>>) -> Option<Seq<char>> {
    if exists|name: Seq<char>| states == #[trigger] just(name) {
        Some(choose|name: Seq<char>| states == #[trigger] just(name))
    } else {
        None
    }
}

/// The set whose only element is the state.
pub open spec fn just(name: Seq<char>) -> Set<Option<Seq<char>>> {
    Set::empty().insert(Some(name))
}

impl StateSet {
    /// Whether no state is listed twice.
    pub closed spec fn wf(self) -> bool {
        self.states.deep_view().no_duplicates()
    }

    pub fn new() -> (set: StateSet)
        ensures
            set.wf(),
            set@ == Set::<Option<Seq<char>>>::empty(),
    {
        let set = StateSet { states: Vec::new(), outside: false };
        assert(set@ =~= Set::<Option<Seq<char>>>::empty());
        set
    }

    fn lists(&self, name: &String) -> (found: bool)
        ensures
            found == self.states.deep_view().contains(name@),
    {
        let mut i: usize = 0;
        while i < self.states.len()
            invariant
                i <= self.states.len(),
                forall|k: int| 0 <= k < i ==> #[trigger] self.states.deep_view()[k] != name@,
            decreases self.states.len() - i,
        {
            if self.states[i] == *name {
                assert(self.states.deep_view()[i as int] == name@);
                return true;
            }
            i += 1;
        }
        false
    }

    /// Adds a state, or that a stop lies in none.
    pub fn insert(&mut self, state: Option<&String>)
        requires
            old(self).wf(),
        ensures
            final(self).wf(),
            final(self)@ == old(self)@.insert(
                match state {
                    Some(name) => Some(name@),
                    None => None,
                },
            ),
    {
        match state {
            Some(name) => {
                if !self.lists(name) {
                    let ghost before = self.states.deep_view();
                    self.states.push(name.clone());
                    let ghost after = self.states.deep_view();
                    assert(after =~= before.push(name@));
                    assert forall|other: Seq<char>| #[trigger] after.contains(
                        other,
                    ) <==> before.contains(other) || other == name@ by {
                        if before.contains(other) {
                            let at = choose|at: int| 0 <= at < before.len() && before[at] == other;
                            assert(after[at] == other);
                        }
                        assert(after[before.len() as int] == name@);
                    }
                }
                assert(self@ =~= old(self)@.insert(Some(name@)));
            },
            None => {
                self.outside = true;
                assert(self@ =~= old(self)@.insert(None));
            },
        }
    }

    /// The only element of the set, if it has no other and that one is a state.
    pub fn only(&self) -> (state: Option<&String>)
        requires
            self.wf(),
        ensures
            match state {
                Some(name) => only_state(self@) == Some(name@),
                None => only_state(self@) is None,
            },
            match state {
                Some(name) => forall|other: Option<Seq<char>>| #[trigger]
                    self@.contains(other) <==> other == Some(name@),
                None => forall|name: Seq<char>|
                    self@ != #[trigger] Set::<Option<Seq<char>>>::empty().insert(Some(name)),
            },
    {
        let ghost names = self.states.deep_view();
        if self.states.len() == 1 && !self.outside {
            let name: &String = &self.states[0];
            proof {
                assert(names[0] == name@);
                assert forall|other: Seq<char>| #[trigger] names.contains(other) <==> other
                    == name@ by {
                    assert(names.contains(names[0]));
                }
                assert(self@ =~= just(name@));
                let chosen = choose|chosen: Seq<char>| self@ == #[trigger] just(chosen);
                assert(just(chosen).contains(Some(chosen)));
                assert forall|other: Option<Seq<char>>| #[trigger]
                    self@.contains(other) <==> other == Some(name@) by {
                    assert(self@.contains(other) == just(name@).contains(other));
                }
            }
            Some(name)
        } else {
            proof {
                assert forall|name: Seq<char>| self@ != #[trigger] just(name) by {
                    if self@ == just(name) {
                        assert(!self@.contains(None));
                        assert(self@.contains(Some(name)));
                        assert(names.contains(name));
                        assert(names.contains(names[0]) && names.contains(names[1])) by {
                            assert(names.len() >= 2);
                        }
                        assert(self@.contains(Some(names[0])));
                        assert(self@.contains(Some(names[1])));
                    }
                }
                assert forall|name: Seq<char>|
                    self@ != #[trigger] Set::<Option<Seq<char>>>::empty().insert(Some(name)) by {
                    assert(self@ != just(name));
                }
            }
            None
        }
    }
}

/// What the first pass has found: the numbers of the agencies that run the trips, and for each
/// number the states in which stops were seen.
#[verifier::ext_equal]
pub struct SurveyModel {
    pub trips: Map<Seq<char>, u16>,
    pub seen: Seq<Set<Option<Seq<char>>>>,
}

impl SurveyModel {
    /// Nothing found yet, for this many numbers.
    pub open spec fn start(slots: nat) -> SurveyModel {
        SurveyModel {
            trips: Map::empty(),
            seen: Seq::new(slots, |slot: int| Set::<Option<Seq<char>>>::empty()),
        }
    }

    /// After one more row of `trips.txt`.  A trip counts if its route and the agency that runs it
    /// are known.
    pub open spec fn with_trip(
        self,
        order: Seq<Seq<char>>,
        routes: Map<Seq<char>, Seq<char>>,
        row: TripRecord,
    ) -> SurveyModel {
        match slot_of_route(order, routes, row.route_id) {
            Some(slot) => SurveyModel { trips: self.trips.insert(row.trip_id, slot), ..self },
            None => self,
        }
    }

    /// After one more row of `stop_times.txt`.  It counts if its trip does.
    pub open spec fn with_stop_time(
        self,
        stops: Map<Seq<char>, StopFacts>,
        row: StopTimeRecord,
    ) -> SurveyModel {
        if self.trips.contains_key(row.trip_id) {
            let slot = self.trips[row.trip_id] as int;
            SurveyModel {
                seen: self.seen.update(
                    slot,
                    self.seen[slot].insert(state_of(stops, row.stop_id)),
                ),
                ..self
            }
        } else {
            self
        }
    }
}

/// The first pass over trips and stop times.
pub struct Survey {
    trips: StringHashMap<u16>,
    seen: Vec<StateSet>,
}

impl View for Survey {
    type V = SurveyModel;

    closed spec fn view(&self) -> SurveyModel {
        SurveyModel {
            trips: self.trips@,
            seen: Seq::new(self.seen@.len(), |slot: int| self.seen@[slot]@),
        }
    }
}

impl Survey {
    /// Whether the trips refer to numbers in use.
    pub closed spec fn wf(self) -> bool {
        &&& forall|slot: int| 0 <= slot < self.seen@.len() ==> (#[trigger] self.seen@[slot]).wf()
        &&& forall|trip: Seq<char>| #[trigger]
            self.trips@.contains_key(trip) ==> self.trips@[trip] < self.seen@.len()
    }

    pub fn new(agencies: &AgencyIndex) -> (survey: Survey)
        ensures
            survey.wf(),
            survey@ == SurveyModel::start(slot_count(agencies.order())),
            survey@.trips == Map::<Seq<char>, u16>::empty(),
            survey@.seen.len() == slot_count(agencies.order()),
            forall|slot: int|
                0 <= slot < survey@.seen.len() ==> #[trigger] survey@.seen[slot] == Set::<
                    Option<Seq<char>>,
                >::empty(),
    {
        let slots: usize = agencies.slots();
        let mut seen: Vec<StateSet> = Vec::new();
        while seen.len() < slots
            invariant
                seen.len() <= slots,
                forall|slot: int|
                    0 <= slot < seen@.len() ==> (#[trigger] seen@[slot]).wf() && seen@[slot]@
                        == Set::<Option<Seq<char>>>::empty(),
            decreases slots - seen.len(),
        {
            seen.push(StateSet::new());
        }
        let survey = Survey { trips: StringHashMap::new(), seen };
        assert(survey@ =~= SurveyModel::start(slot_count(agencies.order())));
        survey
    }

    /// How many trips count.
    pub fn trip_count(&self) -> (count: usize)
        ensures
            count == self@.trips.dom().len(),
    {
        self.trips.len()
    }

    /// Takes in a row of `trips.txt`.
    pub fn add_trip(&mut self, agencies: &AgencyIndex, routes: &RouteTable, row: &TripRow)
        requires
            old(self).wf(),
            agencies.wf(),
            old(self)@.seen.len() == slot_count(agencies.order()),
        ensures
            final(self).wf(),
            final(self)@ == old(self)@.with_trip(agencies.order(), routes@, row@),
            final(self)@.seen == old(self)@.seen,
            final(self)@.seen.len() == old(self)@.seen.len(),
            routes@.contains_key(row.route_id@) && agencies.order().contains(
                routes@[row.route_id@],
            ) ==> {
                &&& final(self)@.trips.contains_key(row.trip_id@)
                &&& forall|k: int|
                    0 <= k < agencies.order().len() && #[trigger] agencies.order()[k]
                        == routes@[row.route_id@] ==> final(self)@.trips[row.trip_id@] == k
                        % 0x1_0000
                &&& final(self)@.trips == old(self)@.trips.insert(
                    row.trip_id@,
                    final(self)@.trips[row.trip_id@],
                )
            },
            !(routes@.contains_key(row.route_id@) && agencies.order().contains(
                routes@[row.route_id@],
            )) ==> final(self)@.trips == old(self)@.trips,
    {
        match routes.slot(agencies, row.route_id.as_str()) {
            Some(slot) => {
                self.trips.insert(row.trip_id.clone(), slot);
            },
            None => {},
        }
        assert(self@ =~= old(self)@.with_trip(agencies.order(), routes@, row@));
    }

    /// Takes in a row of `stop_times.txt`.
    pub fn add_stop_time(&mut self, stops: &StopTable, row: &StopTimeRow)
        requires
            old(self).wf(),
        ensures
            final(self).wf(),
            final(self)@ == old(self)@.with_stop_time(stops@, row@),
            final(self)@.seen.len() == old(self)@.seen.len(),
            final(self)@.trips == old(self)@.trips,
            forall|slot: int|
                0 <= slot < old(self)@.seen.len() ==> #[trigger] final(self)@.seen[slot] == if old(self)@.trips.contains_key(row.trip_id@) && old(self)@.trips[row.trip_id@] == slot {
                    old(self)@.seen[slot].insert(
                        if stops@.contains_key(row.stop_id@) {
                            stops@[row.stop_id@].state
                        } else {
                            None
                        },
                    )
                } else {
                    old(self)@.seen[slot]
                },
    {
        match self.trips.get(row.trip_id.as_str()) {
            Some(slot) => {
                let slot: usize = *slot as usize;
                let state: Option<&String> = stops.state(row.stop_id.as_str());
                self.seen[slot].insert(state);
            },
            None => {},
        }
        assert(self@ =~= old(self)@.with_stop_time(stops@, row@));
    }

    /// The only state in which the agencies with a number were seen to stop.
    pub fn only_state(&self, slot: usize) -> (state: Option<&String>)
        requires
            self.wf(),
            slot < self@.seen.len(),
        ensures
            match state {
                Some(name) => only_state(self@.seen[slot as int]) == Some(name@),
                None => only_state(self@.seen[slot as int]) is None,
            },
            match state {
                Some(name) => forall|other: Option<Seq<char>>| #[trigger]
                    self@.seen[slot as int].contains(other) <==> other == Some(name@),
                None => forall|name: Seq<char>|
                    self@.seen[slot as int] != #[trigger] Set::<Option<Seq<char>>>::empty().insert(
                        Some(name),
                    ),
            },
    {
        self.seen[slot].only()
    }
}

/// A set has an only state exactly if that state is in it and nothing else is.
pub proof fn law_only_state_is_alone(states: Set<Option<Seq<char>>>, name: Seq<char>)
    ensures
        only_state(states) == Some(name) <==> forall|other: Option<Seq<char>>| #[trigger]
            states.contains(other) <==> other == Some(name),
        states.contains(None) ==> only_state(states) is None,
{
    if forall|other: Option<Seq<char>>| #[trigger] states.contains(other) <==> other == Some(name) {
        assert(states =~= just(name));
        let chosen = choose|chosen: Seq<char>| states == #[trigger] just(chosen);
        assert(just(chosen).contains(Some(chosen)));
    }
    if only_state(states) is Some {
        let chosen = choose|chosen: Seq<char>| states == #[trigger] just(chosen);
        assert(states == just(chosen));
        assert(!just(chosen).contains(None));
    }
}

/// A trip counts for the number of the agency that runs its route, if both are known, and in place
/// of what it counted for before.  Otherwise its row changes nothing.
pub proof fn law_trip_counts_for_its_agency(
    survey: SurveyModel,
    order: Seq<Seq<char>>,
    routes: Map<Seq<char>, Seq<char>>,
    row: TripRecord,
    place: int,
)
    requires
        order.no_duplicates(),
    ensures
        survey.with_trip(order, routes, row).seen == survey.seen,
        routes.contains_key(row.route_id) && 0 <= place < order.len() && order[place]
            == routes[row.route_id] ==> survey.with_trip(order, routes, row).trips
            == survey.trips.insert(row.trip_id, (place % 0x1_0000) as u16),
        !routes.contains_key(row.route_id) || !order.contains(routes[row.route_id])
            ==> survey.with_trip(order, routes, row).trips == survey.trips,
{
    crate::agencies::law_route_has_the_number_of_its_agency(order, routes, row.route_id, place);
}

/// A stop time adds the state of its stop to what is seen for the number of its trip, and changes
/// nothing else.  A stop that is not known lies in no state.
pub proof fn law_stop_time_is_seen(
    survey: SurveyModel,
    stops: Map<Seq<char>, StopFacts>,
    row: StopTimeRecord,
    slot: int,
    state: Option<Seq<char>>,
)
    requires
        0 <= slot < survey.seen.len(),
        survey.trips.contains_key(row.trip_id) ==> survey.trips[row.trip_id] < survey.seen.len(),
    ensures
        survey.with_stop_time(stops, row).trips == survey.trips,
        survey.with_stop_time(stops, row).seen.len() == survey.seen.len(),
        survey.with_stop_time(stops, row).seen[slot].contains(state) <==> {
            ||| survey.seen[slot].contains(state)
            ||| {
                &&& survey.trips.contains_key(row.trip_id)
                &&& survey.trips[row.trip_id] == slot
                &&& if stops.contains_key(row.stop_id) {
                    stops[row.stop_id].state == state
                } else {
                    state is None
                }
            }
        },
        SurveyModel::start(survey.seen.len()).trips == Map::<Seq<char>, u16>::empty(),
        SurveyModel::start(survey.seen.len()).seen.len() == survey.seen.len(),
        SurveyModel::start(survey.seen.len()).seen[slot] == Set::<Option<Seq<char>>>::empty(),
{
}

} // verus!
