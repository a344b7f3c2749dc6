//! A whole feed, and what holds of its split.

use crate::agencies::{
    is_railway_name, slot_count, with_agency, with_route, AgencyFacts, SLOTS,
};
use crate::plan::{law_plan_follows_targets, lemma_slot_in_use, target_folder, PlanModel};
use crate::rows::{AgencyRecord, RouteRecord, StopRecord, StopTimeRecord, TripRecord};
use crate::split::{selects, SplitModel};
use crate::stops::{
    law_parents_are_complete, law_parents_keep_stops, parent_of, state_of, with_parents, with_stop,
    StopFacts,
};
use crate::survey::{just, law_trip_counts_for_its_agency, only_state, SurveyModel};
use crate::text::nonblank;
use vstd::prelude::*;

verus! {

/// The rows of a feed, table by table.
pub struct Feed {
    pub agencies: Seq<AgencyRecord>,
    pub routes: Seq<RouteRecord>,
    pub trips: Seq<TripRecord>,
    pub stop_times: Seq<StopTimeRecord>,
    /// Each row with the state in which its stop lies.
    pub stops: Seq<(StopRecord, Option<Seq<char>>)>,
}

/// The agencies after all rows.
pub open spec fn agencies_of(rows: Seq<AgencyRecord>) -> Map<Seq<char>, AgencyFacts>
    decreases rows.len(),
{
    if rows.len() == 0 {
        Map::empty()
    } else {
        with_agency(agencies_of(rows.drop_last()), rows.last())
    }
}

/// The agencies of the routes after all rows.
pub open spec fn routes_of(rows: Seq<RouteRecord>) -> Map<Seq<char>, Seq<char>>
    decreases rows.len(),
{
    if rows.len() == 0 {
        Map::empty()
    } else {
        with_route(routes_of(rows.drop_last()), rows.last())
    }
}

/// The stops after all rows.
pub open spec fn stops_of(rows: Seq<(StopRecord, Option<Seq<char>>)>) -> Map<Seq<char>, StopFacts>
    decreases rows.len(),
{
    if rows.len() == 0 {
        Map::empty()
    } else {
        with_stop(stops_of(rows.drop_last()), rows.last().0, rows.last().1)
    }
}

/// The first pass after rows of `trips.txt`.
pub open spec fn survey_trips(
    slots: nat,
    order: Seq<Seq<char>>,
    routes: Map<Seq<char>, Seq<char>>,
    rows: Seq<TripRecord>,
) -> SurveyModel
    decreases rows.len(),
{
    if rows.len() == 0 {
        SurveyModel::start(slots)
    } else {
        survey_trips(slots, order, routes, rows.drop_last()).with_trip(order, routes, rows.last())
    }
}

/// The first pass after further rows of `stop_times.txt`.
pub open spec fn survey_stop_times(
    surveyed: SurveyModel,
    stops: Map<Seq<char>, StopFacts>,
    rows: Seq<StopTimeRecord>,
) -> SurveyModel
    decreases rows.len(),
{
    if rows.len() == 0 {
        surveyed
    } else {
        survey_stop_times(surveyed, stops, rows.drop_last()).with_stop_time(stops, rows.last())
    }
}

/// The second pass after rows of `trips.txt`.
pub open spec fn split_trips(plan: PlanModel, rows: Seq<TripRecord>) -> SplitModel
    decreases rows.len(),
{
    if rows.len() == 0 {
        SplitModel::start(plan.folders.len())
    } else {
        split_trips(plan, rows.drop_last()).with_trip(plan, rows.last())
    }
}

/// The second pass after further rows of `stop_times.txt`.
pub open spec fn split_stop_times(split: SplitModel, rows: Seq<StopTimeRecord>) -> SplitModel
    decreases rows.len(),
{
    if rows.len() == 0 {
        split
    } else {
        split_stop_times(split, rows.drop_last()).with_stop_time(rows.last())
    }
}

/// The second pass after further rows of `stops.txt`.
pub open spec fn split_stops(
    split: SplitModel,
    rows: Seq<(StopRecord, Option<Seq<char>>)>,
) -> SplitModel
    decreases rows.len(),
{
    if rows.len() == 0 {
        split
    } else {
        split_stops(split, rows.drop_last()).with_stop(rows.last().0)
    }
}

impl Feed {
    /// Whether the agencies are numbered in this order: each of them once.
    pub open spec fn is_order(self, order: Seq<Seq<char>>) -> bool {
        &&& order.no_duplicates()
        &&& forall|agency: Seq<char>| #[trigger]
            order.contains(agency) <==> agencies_of(self.agencies).contains_key(agency)
    }

    /// What the first pass finds.
    pub open spec fn survey(self, order: Seq<Seq<char>>) -> SurveyModel {
        survey_stop_times(
            survey_trips(slot_count(order), order, routes_of(self.routes), self.trips),
            stops_of(self.stops),
            self.stop_times,
        )
    }

    /// Where the agencies go.
    pub open spec fn plan(self, order: Seq<Seq<char>>) -> PlanModel {
        PlanModel::of(
            order,
            agencies_of(self.agencies),
            routes_of(self.routes),
            self.survey(order).seen,
        )
    }

    /// The second pass once all trips and stop times are split.
    pub open spec fn split(self, order: Seq<Seq<char>>) -> SplitModel {
        split_stop_times(split_trips(self.plan(order), self.trips), self.stop_times)
    }

    /// The second pass once the parent stations are added too.
    pub open spec fn split_with_parents(self, order: Seq<Seq<char>>) -> SplitModel {
        self.split(order).with_parents(stops_of(self.stops))
    }

    /// The second pass once the stops are split too.
    pub open spec fn complete_split(self, order: Seq<Seq<char>>) -> SplitModel {
        split_stops(self.split_with_parents(order), self.stops)
    }

    /// Whether row `i` of `agency.txt` goes to a folder.
    pub open spec fn agency_in(self, order: Seq<Seq<char>>, i: int, folder: int) -> bool {
        &&& 0 <= i < self.agencies.len()
        &&& self.plan(order).folder_of_agency(self.agencies[i].agency_id) == Some(folder)
    }

    /// Whether row `i` of `routes.txt` goes to a folder.
    pub open spec fn route_in(self, order: Seq<Seq<char>>, i: int, folder: int) -> bool {
        &&& 0 <= i < self.routes.len()
        &&& self.plan(order).folder_of_agency(self.routes[i].agency_id) == Some(folder)
    }

    /// Whether row `i` of `trips.txt` goes to a folder.
    pub open spec fn trip_in(self, order: Seq<Seq<char>>, i: int, folder: int) -> bool {
        &&& 0 <= i < self.trips.len()
        &&& self.plan(order).folder_of_route(self.trips[i].route_id) == Some(folder)
    }

    /// Whether row `i` of `stop_times.txt` goes to a folder.
    pub open spec fn stop_time_in(self, order: Seq<Seq<char>>, i: int, folder: int) -> bool {
        &&& 0 <= i < self.stop_times.len()
        &&& split_trips(self.plan(order), self.trips).folder_of_trip(self.stop_times[i].trip_id)
            == Some(folder)
    }

    /// Whether row `i` of `stops.txt` goes to a folder.
    pub open spec fn stop_in(self, order: Seq<Seq<char>>, i: int, folder: int) -> bool {
        &&& 0 <= i < self.stops.len()
        &&& 0 <= folder < self.plan(order).folders.len()
        &&& self.split_with_parents(order).needs[folder].stops.contains(self.stops[i].0.stop_id)
    }
}

proof fn lemma_agencies_of(rows: Seq<AgencyRecord>, agency: Seq<char>)
    ensures
        agencies_of(rows).contains_key(agency) <==> exists|i: int|
            0 <= i < rows.len() && (#[trigger] rows[i]).agency_id == agency,
    decreases rows.len(),
{
    if rows.len() > 0 {
        let fewer = rows.drop_last();
        lemma_agencies_of(fewer, agency);
        if agencies_of(fewer).contains_key(agency) {
            let i = choose|i: int| 0 <= i < fewer.len() && (#[trigger] fewer[i]).agency_id == agency;
            assert(rows[i].agency_id == agency);
        }
        if rows.last().agency_id == agency {
            assert(rows[rows.len() - 1].agency_id == agency);
        }
        if exists|i: int| 0 <= i < rows.len() && (#[trigger] rows[i]).agency_id == agency {
            let i = choose|i: int| 0 <= i < rows.len() && (#[trigger] rows[i]).agency_id == agency;
            if i < fewer.len() {
                assert(fewer[i].agency_id == agency);
            }
        }
    }
}

/// The last row with an identifier tells of the agency.
pub proof fn law_last_agency_row_counts(rows: Seq<AgencyRecord>, i: int)
    requires
        0 <= i < rows.len(),
        forall|k: int| i < k < rows.len() ==> (#[trigger] rows[k]).agency_id != rows[i].agency_id,
    ensures
        agencies_of(rows).contains_key(rows[i].agency_id),
        agencies_of(rows)[rows[i].agency_id].name == rows[i].agency_name,
        agencies_of(rows)[rows[i].agency_id].is_db == is_railway_name(rows[i].agency_name),
    decreases rows.len(),
{
    if i < rows.len() - 1 {
        let fewer = rows.drop_last();
        assert(fewer[i] == rows[i]);
        assert(rows[rows.len() - 1].agency_id != rows[i].agency_id);
        assert forall|k: int| i < k < fewer.len() implies (#[trigger] fewer[k]).agency_id
            != fewer[i].agency_id by {
            assert(rows[k].agency_id != rows[i].agency_id);
        }
        law_last_agency_row_counts(fewer, i);
    }
}

/// The agency of a route is the one that the last row with its identifier names.
pub proof fn law_last_route_row_counts(rows: Seq<RouteRecord>, i: int)
    requires
        0 <= i < rows.len(),
        forall|k: int| i < k < rows.len() ==> (#[trigger] rows[k]).route_id != rows[i].route_id,
    ensures
        routes_of(rows).contains_key(rows[i].route_id),
        routes_of(rows)[rows[i].route_id] == rows[i].agency_id,
    decreases rows.len(),
{
    if i < rows.len() - 1 {
        let fewer = rows.drop_last();
        assert(fewer[i] == rows[i]);
        assert(rows[rows.len() - 1].route_id != rows[i].route_id);
        assert forall|k: int| i < k < fewer.len() implies (#[trigger] fewer[k]).route_id
            != fewer[i].route_id by {
            assert(rows[k].route_id != rows[i].route_id);
        }
        law_last_route_row_counts(fewer, i);
    }
}

/// A known route has a row that names its agency.
proof fn lemma_route_has_row(rows: Seq<RouteRecord>, route: Seq<char>) -> (i: int)
    requires
        routes_of(rows).contains_key(route),
    ensures
        0 <= i < rows.len(),
        rows[i].route_id == route,
        rows[i].agency_id == routes_of(rows)[route],
    decreases rows.len(),
{
    if rows.last().route_id == route {
        rows.len() - 1
    } else {
        lemma_route_has_row(rows.drop_last(), route)
    }
}

/// The last row with an identifier tells of the stop.
pub proof fn law_last_stop_row_counts(rows: Seq<(StopRecord, Option<Seq<char>>)>, i: int)
    requires
        0 <= i < rows.len(),
        forall|k: int| i < k < rows.len() ==> (#[trigger] rows[k]).0.stop_id != rows[i].0.stop_id,
    ensures
        stops_of(rows).contains_key(rows[i].0.stop_id),
        state_of(stops_of(rows), rows[i].0.stop_id) == rows[i].1,
        parent_of(stops_of(rows), rows[i].0.stop_id) == nonblank(rows[i].0.parent_station),
    decreases rows.len(),
{
    if i < rows.len() - 1 {
        let fewer = rows.drop_last();
        assert(fewer[i] == rows[i]);
        assert(rows[rows.len() - 1].0.stop_id != rows[i].0.stop_id);
        assert forall|k: int| i < k < fewer.len() implies (#[trigger] fewer[k]).0.stop_id
            != fewer[i].0.stop_id by {
            assert(rows[k].0.stop_id != rows[i].0.stop_id);
        }
        law_last_stop_row_counts(fewer, i);
    }
}

proof fn lemma_survey_trips(
    slots: nat,
    order: Seq<Seq<char>>,
    routes: Map<Seq<char>, Seq<char>>,
    rows: Seq<TripRecord>,
)
    ensures
        survey_trips(slots, order, routes, rows).seen == SurveyModel::start(slots).seen,
        slots == slot_count(order) ==> forall|trip: Seq<char>| #[trigger]
            survey_trips(slots, order, routes, rows).trips.contains_key(trip) ==> survey_trips(
                slots,
                order,
                routes,
                rows,
            ).trips[trip] < slots,
    decreases rows.len(),
{
    if rows.len() > 0 {
        lemma_survey_trips(slots, order, routes, rows.drop_last());
        let route = rows.last().route_id;
        if routes.contains_key(route) {
            lemma_slot_in_use(order, routes[route]);
        }
    }
}

/// Whether row `i` is a stop time of the agencies with a number, at a stop in the given state.
pub open spec fn stops_in_state(
    trips: Map<Seq<char>, u16>,
    stops: Map<Seq<char>, StopFacts>,
    rows: Seq<StopTimeRecord>,
    slot: int,
    i: int,
    state: Option<Seq<char>>,
) -> bool {
    &&& 0 <= i < rows.len()
    &&& trips.contains_key(rows[i].trip_id)
    &&& trips[rows[i].trip_id] == slot
    &&& state_of(stops, rows[i].stop_id) == state
}

/// The first pass sees a state for a number if and only if one of the number's stop times is at a
/// stop in that state.
pub proof fn law_survey_sees_exactly_the_states(
    surveyed: SurveyModel,
    stops: Map<Seq<char>, StopFacts>,
    rows: Seq<StopTimeRecord>,
    slot: int,
    state: Option<Seq<char>>,
)
    requires
        0 <= slot < surveyed.seen.len(),
        surveyed.seen[slot] == Set::<Option<Seq<char>>>::empty(),
        forall|trip: Seq<char>| #[trigger]
            surveyed.trips.contains_key(trip) ==> surveyed.trips[trip] < surveyed.seen.len(),
    ensures
        survey_stop_times(surveyed, stops, rows).trips == surveyed.trips,
        survey_stop_times(surveyed, stops, rows).seen.len() == surveyed.seen.len(),
        survey_stop_times(surveyed, stops, rows).seen[slot].contains(state) <==> exists|i: int|
            stops_in_state(surveyed.trips, stops, rows, slot, i, state),
    decreases rows.len(),
{
    if rows.len() > 0 {
        let fewer = rows.drop_last();
        law_survey_sees_exactly_the_states(surveyed, stops, fewer, slot, state);
        let trips = surveyed.trips;
        let last = rows.len() - 1;
        if exists|i: int| stops_in_state(trips, stops, fewer, slot, i, state) {
            let i = choose|i: int| stops_in_state(trips, stops, fewer, slot, i, state);
            assert(stops_in_state(trips, stops, rows, slot, i, state));
        }
        if exists|i: int| stops_in_state(trips, stops, rows, slot, i, state) {
            let i = choose|i: int| stops_in_state(trips, stops, rows, slot, i, state);
            if i < last {
                assert(stops_in_state(trips, stops, fewer, slot, i, state));
            }
        }
        let before = survey_stop_times(surveyed, stops, fewer);
        let after = survey_stop_times(surveyed, stops, rows);
        if after.seen[slot].contains(state) && !before.seen[slot].contains(state) {
            assert(stops_in_state(trips, stops, rows, slot, last, state));
        }
    }
}

/// What the first pass finds for a number.
proof fn lemma_survey(feed: Feed, order: Seq<Seq<char>>, slot: int, state: Option<Seq<char>>)
    requires
        0 <= slot < slot_count(order),
    ensures
        feed.survey(order).seen.len() == slot_count(order),
        feed.survey(order).trips == feed.counted_trips(order),
        feed.survey(order).seen[slot].contains(state) <==> exists|i: int|
            feed.stops_in(order, slot, i, state),
{
    let routes = routes_of(feed.routes);
    lemma_survey_trips(slot_count(order), order, routes, feed.trips);
    let surveyed = survey_trips(slot_count(order), order, routes, feed.trips);
    law_survey_sees_exactly_the_states(
        surveyed,
        stops_of(feed.stops),
        feed.stop_times,
        slot,
        state,
    );
    let trips = surveyed.trips;
    let stops = stops_of(feed.stops);
    if exists|i: int| stops_in_state(trips, stops, feed.stop_times, slot, i, state) {
        let i = choose|i: int| stops_in_state(trips, stops, feed.stop_times, slot, i, state);
        assert(feed.stops_in(order, slot, i, state));
    }
    if exists|i: int| feed.stops_in(order, slot, i, state) {
        let i = choose|i: int| feed.stops_in(order, slot, i, state);
        assert(stops_in_state(trips, stops, feed.stop_times, slot, i, state));
    }
}

proof fn lemma_survey_len(feed: Feed, order: Seq<Seq<char>>)
    ensures
        feed.survey(order).seen.len() == slot_count(order),
{
    let routes = routes_of(feed.routes);
    lemma_survey_trips(slot_count(order), order, routes, feed.trips);
    lemma_survey_stop_times_len(
        survey_trips(slot_count(order), order, routes, feed.trips),
        stops_of(feed.stops),
        feed.stop_times,
    );
}

proof fn lemma_survey_stop_times_len(
    surveyed: SurveyModel,
    stops: Map<Seq<char>, StopFacts>,
    rows: Seq<StopTimeRecord>,
)
    requires
        forall|trip: Seq<char>| #[trigger]
            surveyed.trips.contains_key(trip) ==> surveyed.trips[trip] < surveyed.seen.len(),
    ensures
        survey_stop_times(surveyed, stops, rows).trips == surveyed.trips,
        survey_stop_times(surveyed, stops, rows).seen.len() == surveyed.seen.len(),
    decreases rows.len(),
{
    if rows.len() > 0 {
        lemma_survey_stop_times_len(surveyed, stops, rows.drop_last());
    }
}

proof fn lemma_plan(feed: Feed, order: Seq<Seq<char>>)
    requires
        feed.is_order(order),
    ensures
        feed.plan(order).wf(),
        forall|slot: int|
            0 <= slot < slot_count(order) ==> feed.plan(order).folders[#[trigger] feed.plan(
                order,
            ).targets[slot]] == target_folder(
                agencies_of(feed.agencies)[order[slot]].is_db,
                feed.survey(order).seen[slot],
            ),
{
    lemma_survey_len(feed, order);
    law_plan_follows_targets(
        order,
        agencies_of(feed.agencies),
        routes_of(feed.routes),
        feed.survey(order).seen,
    );
}

impl Feed {
    /// The numbers of the agencies that run the trips.
    pub open spec fn counted_trips(self, order: Seq<Seq<char>>) -> Map<Seq<char>, u16> {
        survey_trips(slot_count(order), order, routes_of(self.routes), self.trips).trips
    }

    /// Whether row `i` of `stop_times.txt` is a stop of the agencies with a number, in a state.
    pub open spec fn stops_in(
        self,
        order: Seq<Seq<char>>,
        slot: int,
        i: int,
        state: Option<Seq<char>>,
    ) -> bool {
        stops_in_state(
            self.counted_trips(order),
            stops_of(self.stops),
            self.stop_times,
            slot,
            i,
            state,
        )
    }

    /// Whether the agencies with a number stop somewhere, and only in one state.
    pub open spec fn stops_only_in(
        self,
        order: Seq<Seq<char>>,
        slot: int,
        state: Seq<char>,
    ) -> bool {
        &&& exists|i: int| self.stops_in(order, slot, i, Some(state))
        &&& forall|i: int, other: Option<Seq<char>>| #[trigger]
            self.stops_in(order, slot, i, other) ==> other == Some(state)
    }

    /// The name of the folder of an agency.
    pub open spec fn folder_name_of(self, order: Seq<Seq<char>>, agency: Seq<char>) -> Seq<char> {
        self.plan(order).folders[self.plan(order).folder_of_agency(agency)->0]
    }
}

/// The rows of every agency go to one folder, and those of no other agency go anywhere.
pub proof fn law_every_agency_has_a_folder(feed: Feed, order: Seq<Seq<char>>, agency: Seq<char>)
    requires
        feed.is_order(order),
    ensures
        match feed.plan(order).folder_of_agency(agency) {
            Some(folder) => {
                &&& agencies_of(feed.agencies).contains_key(agency)
                &&& 0 <= folder < feed.plan(order).folders.len()
            },
            None => !agencies_of(feed.agencies).contains_key(agency),
        },
{
    lemma_plan(feed, order);
    lemma_slot_in_use(order, agency);
}

/// The railway's agencies go to the railway's folder.
pub proof fn law_railway_goes_to_its_folder(feed: Feed, order: Seq<Seq<char>>, agency: Seq<char>)
    requires
        feed.is_order(order),
        agencies_of(feed.agencies).contains_key(agency),
        agencies_of(feed.agencies)[agency].is_db,
        order.index_of(agency) < SLOTS,
    ensures
        feed.folder_name_of(order, agency) == "deutsche_bahn"@,
{
    lemma_plan(feed, order);
    lemma_slot_in_use(order, agency);
    assert(order.contains(agency));
    assert(feed.plan(order).targets[order.index_of(agency)] == feed.plan(order).folder_of_agency(
        agency,
    )->0);
}

/// Any other agency that stops in one state alone goes to the folder of that state.
pub proof fn law_agency_of_one_state_goes_there(
    feed: Feed,
    order: Seq<Seq<char>>,
    agency: Seq<char>,
    state: Seq<char>,
)
    requires
        feed.is_order(order),
        agencies_of(feed.agencies).contains_key(agency),
        !agencies_of(feed.agencies)[agency].is_db,
        order.index_of(agency) < SLOTS,
        feed.stops_only_in(order, order.index_of(agency), state),
    ensures
        feed.folder_name_of(order, agency) == state,
{
    lemma_plan(feed, order);
    lemma_slot_in_use(order, agency);
    assert(order.contains(agency));
    let slot = order.index_of(agency);
    let seen = feed.survey(order).seen[slot];
    assert forall|other: Option<Seq<char>>| seen.contains(other) <==> other == Some(state) by {
        lemma_survey(feed, order, slot, other);
    }
    assert(seen =~= just(state));
    let chosen = choose|chosen: Seq<char>| seen == #[trigger] just(chosen);
    assert(just(chosen).contains(Some(chosen)));
    assert(only_state(seen) == Some(state));
    assert(feed.plan(order).targets[slot] == feed.plan(order).folder_of_agency(agency)->0);
}

/// Any agency that belongs neither to the railway nor to one state alone goes to the common folder.
pub proof fn law_agency_of_no_single_state_goes_to_other(
    feed: Feed,
    order: Seq<Seq<char>>,
    agency: Seq<char>,
)
    requires
        feed.is_order(order),
        agencies_of(feed.agencies).contains_key(agency),
        !agencies_of(feed.agencies)[agency].is_db,
        order.index_of(agency) < SLOTS,
        forall|state: Seq<char>| !#[trigger]
            feed.stops_only_in(order, order.index_of(agency), state),
    ensures
        feed.folder_name_of(order, agency) == "other"@,
{
    lemma_plan(feed, order);
    lemma_slot_in_use(order, agency);
    assert(order.contains(agency));
    let slot = order.index_of(agency);
    let seen = feed.survey(order).seen[slot];
    assert forall|state: Seq<char>| seen != #[trigger] just(state) by {
        if seen == just(state) {
            lemma_survey(feed, order, slot, Some(state));
            assert(just(state).contains(Some(state)));
            assert forall|i: int, other: Option<Seq<char>>| #[trigger]
                feed.stops_in(order, slot, i, other) implies other == Some(state) by {
                lemma_survey(feed, order, slot, other);
                assert(just(state).contains(other));
            }
            assert(feed.stops_only_in(order, slot, state));
        }
    }
    assert(feed.plan(order).targets[slot] == feed.plan(order).folder_of_agency(agency)->0);
}

/// Both passes count the same trips, and the second sends them where the agency goes that the
/// first counted them for.
pub proof fn law_passes_agree(plan: PlanModel, slots: nat, rows: Seq<TripRecord>)
    ensures
        split_trips(plan, rows).trips.dom() == survey_trips(
            slots,
            plan.order,
            plan.routes,
            rows,
        ).trips.dom(),
        forall|trip: Seq<char>| #[trigger]
            split_trips(plan, rows).trips.contains_key(trip) ==> split_trips(plan, rows).trips[trip]
                == plan.targets[survey_trips(
                slots,
                plan.order,
                plan.routes,
                rows,
            ).trips[trip] as int],
    decreases rows.len(),
{
    let first = survey_trips(slots, plan.order, plan.routes, rows).trips;
    let second = split_trips(plan, rows).trips;
    if rows.len() > 0 {
        law_passes_agree(plan, slots, rows.drop_last());
        let first_before = survey_trips(slots, plan.order, plan.routes, rows.drop_last()).trips;
        let second_before = split_trips(plan, rows.drop_last()).trips;
        assert forall|trip: Seq<char>| #[trigger] second.contains_key(trip) implies second[trip]
            == plan.targets[first[trip] as int] by {
            if second_before.contains_key(trip) {
                assert(second_before[trip] == plan.targets[first_before[trip] as int]);
            }
        }
    }
    assert(second.dom() =~= first.dom());
}

/// Whether row `i` goes to a folder by its route.
pub open spec fn trip_goes(plan: PlanModel, rows: Seq<TripRecord>, i: int, folder: int) -> bool {
    0 <= i < rows.len() && plan.folder_of_route(rows[i].route_id) == Some(folder)
}

proof fn lemma_route_folder_in_range(plan: PlanModel, route: Seq<char>)
    requires
        plan.wf(),
    ensures
        plan.folder_of_route(route) matches Some(folder) ==> 0 <= folder < plan.folders.len(),
{
    if plan.routes.contains_key(route) {
        lemma_slot_in_use(plan.order, plan.routes[route]);
    }
}

/// What the trips leave behind.
proof fn lemma_split_trips(plan: PlanModel, rows: Seq<TripRecord>)
    requires
        plan.wf(),
    ensures
        split_trips(plan, rows).wf(),
        split_trips(plan, rows).needs.len() == plan.folders.len(),
        forall|folder: int|
            0 <= folder < plan.folders.len() ==> {
                &&& (#[trigger] split_trips(plan, rows).needs[folder]).stops == Set::<
                    Seq<char>,
                >::empty()
                &&& split_trips(plan, rows).needs[folder].levels == Set::<Seq<char>>::empty()
            },
    decreases rows.len(),
{
    if rows.len() > 0 {
        lemma_split_trips(plan, rows.drop_last());
        lemma_route_folder_in_range(plan, rows.last().route_id);
        let before = split_trips(plan, rows.drop_last());
        let after = split_trips(plan, rows);
        assert forall|trip: Seq<char>| #[trigger] after.trips.contains_key(trip) implies 0
            <= after.trips[trip] < after.needs.len() by {
            if before.trips.contains_key(trip) {
                assert(0 <= before.trips[trip] < before.needs.len());
            }
        }
        assert forall|folder: int| 0 <= folder < plan.folders.len() implies {
            &&& (#[trigger] after.needs[folder]).stops == Set::<Seq<char>>::empty()
            &&& after.needs[folder].levels == Set::<Seq<char>>::empty()
        } by {
            assert(before.needs[folder].stops == Set::<Seq<char>>::empty());
        }
    }
}

/// A trip goes to a folder only if one of its rows does.
proof fn lemma_trip_has_row(plan: PlanModel, rows: Seq<TripRecord>, trip: Seq<char>) -> (i: int)
    requires
        split_trips(plan, rows).trips.contains_key(trip),
    ensures
        trip_goes(plan, rows, i, split_trips(plan, rows).trips[trip]),
        rows[i].trip_id == trip,
    decreases rows.len(),
{
    if rows.last().trip_id == trip && plan.folder_of_route(rows.last().route_id) is Some {
        rows.len() - 1
    } else {
        let i = lemma_trip_has_row(plan, rows.drop_last(), trip);
        assert(rows.drop_last()[i] == rows[i]);
        i
    }
}

/// A folder needs exactly the services of the trips that go there.
pub proof fn law_services_are_those_of_the_trips(
    plan: PlanModel,
    rows: Seq<TripRecord>,
    folder: int,
    service: Seq<char>,
)
    requires
        plan.wf(),
        0 <= folder < plan.folders.len(),
    ensures
        split_trips(plan, rows).needs[folder].services.contains(service) <==> exists|i: int| #[trigger]
            trip_goes(plan, rows, i, folder) && rows[i].service_id == service,
    decreases rows.len(),
{
    if rows.len() > 0 {
        let fewer = rows.drop_last();
        let last = rows.len() - 1;
        law_services_are_those_of_the_trips(plan, fewer, folder, service);
        lemma_split_trips(plan, fewer);
        lemma_route_folder_in_range(plan, rows.last().route_id);
        let before = split_trips(plan, fewer).needs[folder].services;
        let after = split_trips(plan, rows).needs[folder].services;
        if before.contains(service) {
            let i = choose|i: int| #[trigger]
                trip_goes(plan, fewer, i, folder) && fewer[i].service_id == service;
            assert(trip_goes(plan, rows, i, folder));
        }
        if after.contains(service) && !before.contains(service) {
            assert(trip_goes(plan, rows, last, folder));
        }
        if exists|i: int| #[trigger]
            trip_goes(plan, rows, i, folder) && rows[i].service_id == service {
            let i = choose|i: int| #[trigger]
                trip_goes(plan, rows, i, folder) && rows[i].service_id == service;
            if i < last {
                assert(trip_goes(plan, fewer, i, folder));
            }
        }
    }
}

/// A folder needs exactly the shapes that the trips that go there name.
pub proof fn law_shapes_are_those_of_the_trips(
    plan: PlanModel,
    rows: Seq<TripRecord>,
    folder: int,
    shape: Seq<char>,
)
    requires
        plan.wf(),
        0 <= folder < plan.folders.len(),
    ensures
        split_trips(plan, rows).needs[folder].shapes.contains(shape) <==> exists|i: int| #[trigger]
            trip_goes(plan, rows, i, folder) && nonblank(rows[i].shape_id) == Some(shape),
    decreases rows.len(),
{
    if rows.len() > 0 {
        let fewer = rows.drop_last();
        let last = rows.len() - 1;
        law_shapes_are_those_of_the_trips(plan, fewer, folder, shape);
        lemma_split_trips(plan, fewer);
        lemma_route_folder_in_range(plan, rows.last().route_id);
        let before = split_trips(plan, fewer).needs[folder].shapes;
        let after = split_trips(plan, rows).needs[folder].shapes;
        if before.contains(shape) {
            let i = choose|i: int| #[trigger]
                trip_goes(plan, fewer, i, folder) && nonblank(fewer[i].shape_id) == Some(shape);
            assert(trip_goes(plan, rows, i, folder));
        }
        if after.contains(shape) && !before.contains(shape) {
            assert(trip_goes(plan, rows, last, folder));
        }
        if exists|i: int| #[trigger]
            trip_goes(plan, rows, i, folder) && nonblank(rows[i].shape_id) == Some(shape) {
            let i = choose|i: int| #[trigger]
                trip_goes(plan, rows, i, folder) && nonblank(rows[i].shape_id) == Some(shape);
            if i < last {
                assert(trip_goes(plan, fewer, i, folder));
            }
        }
    }
}

/// Whether row `i` goes to a folder by its trip.
pub open spec fn stop_time_goes(
    split: SplitModel,
    rows: Seq<StopTimeRecord>,
    i: int,
    folder: int,
) -> bool {
    0 <= i < rows.len() && split.folder_of_trip(rows[i].trip_id) == Some(folder)
}

/// Stop times add the stops of the rows that go to a folder, and change nothing else.
pub proof fn law_stop_times_add_their_stops(
    split: SplitModel,
    rows: Seq<StopTimeRecord>,
    folder: int,
    stop: Seq<char>,
)
    requires
        split.wf(),
        0 <= folder < split.needs.len(),
    ensures
        split_stop_times(split, rows).trips == split.trips,
        split_stop_times(split, rows).needs.len() == split.needs.len(),
        split_stop_times(split, rows).needs[folder].services == split.needs[folder].services,
        split_stop_times(split, rows).needs[folder].shapes == split.needs[folder].shapes,
        split_stop_times(split, rows).needs[folder].levels == split.needs[folder].levels,
        split_stop_times(split, rows).needs[folder].stops.contains(stop) <==> {
            ||| split.needs[folder].stops.contains(stop)
            ||| exists|i: int| #[trigger]
                stop_time_goes(split, rows, i, folder) && rows[i].stop_id == stop
        },
    decreases rows.len(),
{
    if rows.len() > 0 {
        let fewer = rows.drop_last();
        let last = rows.len() - 1;
        law_stop_times_add_their_stops(split, fewer, folder, stop);
        let before = split_stop_times(split, fewer).needs[folder].stops;
        let after = split_stop_times(split, rows).needs[folder].stops;
        if exists|i: int| #[trigger]
            stop_time_goes(split, fewer, i, folder) && fewer[i].stop_id == stop {
            let i = choose|i: int| #[trigger]
                stop_time_goes(split, fewer, i, folder) && fewer[i].stop_id == stop;
            assert(stop_time_goes(split, rows, i, folder));
        }
        if after.contains(stop) && !before.contains(stop) {
            assert(stop_time_goes(split, rows, last, folder));
        }
        if exists|i: int| #[trigger]
            stop_time_goes(split, rows, i, folder) && rows[i].stop_id == stop {
            let i = choose|i: int| #[trigger]
                stop_time_goes(split, rows, i, folder) && rows[i].stop_id == stop;
            if i < last {
                assert(stop_time_goes(split, fewer, i, folder));
            }
        }
    }
}

/// Whether row `i` goes to a folder because the folder needs its stop.
pub open spec fn stop_goes(
    split: SplitModel,
    rows: Seq<(StopRecord, Option<Seq<char>>)>,
    i: int,
    folder: int,
) -> bool {
    0 <= i < rows.len() && split.needs[folder].stops.contains(rows[i].0.stop_id)
}

/// Stops add the levels of the rows that go to a folder, and change nothing else.
pub proof fn law_stops_add_their_levels(
    split: SplitModel,
    rows: Seq<(StopRecord, Option<Seq<char>>)>,
    folder: int,
    level: Seq<char>,
)
    requires
        0 <= folder < split.needs.len(),
    ensures
        split_stops(split, rows).trips == split.trips,
        split_stops(split, rows).needs.len() == split.needs.len(),
        split_stops(split, rows).needs[folder].services == split.needs[folder].services,
        split_stops(split, rows).needs[folder].shapes == split.needs[folder].shapes,
        split_stops(split, rows).needs[folder].stops == split.needs[folder].stops,
        split_stops(split, rows).needs[folder].levels.contains(level) <==> {
            ||| split.needs[folder].levels.contains(level)
            ||| exists|i: int| #[trigger]
                stop_goes(split, rows, i, folder) && nonblank(rows[i].0.level_id) == Some(level)
        },
    decreases rows.len(),
{
    if rows.len() > 0 {
        let fewer = rows.drop_last();
        let last = rows.len() - 1;
        law_stops_add_their_levels(split, fewer, folder, level);
        let before = split_stops(split, fewer).needs[folder].levels;
        let after = split_stops(split, rows).needs[folder].levels;
        if exists|i: int| #[trigger]
            stop_goes(split, fewer, i, folder) && nonblank(fewer[i].0.level_id) == Some(level) {
            let i = choose|i: int| #[trigger]
                stop_goes(split, fewer, i, folder) && nonblank(fewer[i].0.level_id) == Some(level);
            assert(stop_goes(split, rows, i, folder));
        }
        if after.contains(level) && !before.contains(level) {
            assert(stop_goes(split, rows, last, folder));
        }
        if exists|i: int| #[trigger]
            stop_goes(split, rows, i, folder) && nonblank(rows[i].0.level_id) == Some(level) {
            let i = choose|i: int| #[trigger]
                stop_goes(split, rows, i, folder) && nonblank(rows[i].0.level_id) == Some(level);
            if i < last {
                assert(stop_goes(split, fewer, i, folder));
            }
        }
    }
}

/// A trip that goes to a folder finds there a row of its route, and a row of the agency which that
/// row names.
pub proof fn law_trip_finds_route_and_agency(
    feed: Feed,
    order: Seq<Seq<char>>,
    i: int,
    folder: int,
) -> (found: (int, int))
    requires
        feed.is_order(order),
        feed.trip_in(order, i, folder),
    ensures
        feed.route_in(order, found.0, folder),
        feed.routes[found.0].route_id == feed.trips[i].route_id,
        feed.agency_in(order, found.1, folder),
        feed.agencies[found.1].agency_id == feed.routes[found.0].agency_id,
{
    let route = lemma_route_has_row(feed.routes, feed.trips[i].route_id);
    let agency = feed.routes[route].agency_id;
    lemma_agencies_of(feed.agencies, agency);
    let row = choose|row: int|
        0 <= row < feed.agencies.len() && (#[trigger] feed.agencies[row]).agency_id == agency;
    (route, row)
}

proof fn lemma_feed_split(feed: Feed, order: Seq<Seq<char>>, folder: int)
    requires
        feed.is_order(order),
        0 <= folder < feed.plan(order).folders.len(),
    ensures
        feed.plan(order).wf(),
        split_trips(feed.plan(order), feed.trips).wf(),
        split_trips(feed.plan(order), feed.trips).needs.len() == feed.plan(order).folders.len(),
        feed.split(order).needs.len() == feed.plan(order).folders.len(),
        feed.complete_split(order).needs.len() == feed.plan(order).folders.len(),
        feed.complete_split(order).trips == split_trips(feed.plan(order), feed.trips).trips,
        feed.complete_split(order).needs[folder].services == split_trips(
            feed.plan(order),
            feed.trips,
        ).needs[folder].services,
        feed.complete_split(order).needs[folder].shapes == split_trips(
            feed.plan(order),
            feed.trips,
        ).needs[folder].shapes,
        feed.complete_split(order).needs[folder].stops == feed.split_with_parents(
            order,
        ).needs[folder].stops,
        feed.split_with_parents(order).needs[folder].stops == with_parents(
            stops_of(feed.stops),
            feed.split(order).needs[folder].stops,
        ),
        feed.split_with_parents(order).needs[folder].levels == Set::<Seq<char>>::empty(),
        split_trips(feed.plan(order), feed.trips).needs[folder].stops == Set::<
            Seq<char>,
        >::empty(),
{
    lemma_plan(feed, order);
    let plan = feed.plan(order);
    let by_trips = split_trips(plan, feed.trips);
    lemma_split_trips(plan, feed.trips);
    assert(by_trips.needs[folder].stops == Set::<Seq<char>>::empty());
    law_stop_times_add_their_stops(by_trips, feed.stop_times, folder, Seq::empty());
    law_stops_add_their_levels(feed.split_with_parents(order), feed.stops, folder, Seq::empty());
}

/// A folder needs exactly: the services of its trips; the shapes that its trips name; the stops of
/// its stop times, with their parent stations; and the levels that its stops name.
pub proof fn law_folder_needs_what_its_rows_name(
    feed: Feed,
    order: Seq<Seq<char>>,
    folder: int,
    name: Seq<char>,
)
    requires
        feed.is_order(order),
        0 <= folder < feed.plan(order).folders.len(),
    ensures
        feed.complete_split(order).needs[folder].services.contains(name) <==> exists|i: int| #[trigger]
            feed.trip_in(order, i, folder) && feed.trips[i].service_id == name,
        feed.complete_split(order).needs[folder].shapes.contains(name) <==> exists|i: int| #[trigger]
            feed.trip_in(order, i, folder) && nonblank(feed.trips[i].shape_id) == Some(name),
        feed.split(order).needs[folder].stops.contains(name) <==> exists|i: int| #[trigger]
            feed.stop_time_in(order, i, folder) && feed.stop_times[i].stop_id == name,
        feed.complete_split(order).needs[folder].stops == with_parents(
            stops_of(feed.stops),
            feed.split(order).needs[folder].stops,
        ),
        feed.complete_split(order).needs[folder].levels.contains(name) <==> exists|i: int| #[trigger]
            feed.stop_in(order, i, folder) && nonblank(feed.stops[i].0.level_id) == Some(name),
{
    lemma_feed_split(feed, order, folder);
    let plan = feed.plan(order);
    let by_trips = split_trips(plan, feed.trips);
    let parents = feed.split_with_parents(order);
    law_services_are_those_of_the_trips(plan, feed.trips, folder, name);
    law_shapes_are_those_of_the_trips(plan, feed.trips, folder, name);
    law_stop_times_add_their_stops(by_trips, feed.stop_times, folder, name);
    law_stops_add_their_levels(parents, feed.stops, folder, name);
    assert forall|i: int| #[trigger] feed.trip_in(order, i, folder) <==> trip_goes(
        plan,
        feed.trips,
        i,
        folder,
    ) by {}
    assert forall|i: int| #[trigger] trip_goes(plan, feed.trips, i, folder) implies feed.trip_in(
        order,
        i,
        folder,
    ) by {}
    assert forall|i: int| #[trigger] feed.stop_time_in(order, i, folder) <==> stop_time_goes(
        by_trips,
        feed.stop_times,
        i,
        folder,
    ) by {}
    assert forall|i: int| #[trigger]
        stop_time_goes(by_trips, feed.stop_times, i, folder) implies feed.stop_time_in(
        order,
        i,
        folder,
    ) by {}
    assert forall|i: int| #[trigger] feed.stop_in(order, i, folder) <==> stop_goes(
        parents,
        feed.stops,
        i,
        folder,
    ) by {}
    assert forall|i: int| #[trigger] stop_goes(parents, feed.stops, i, folder) implies feed.stop_in(
        order,
        i,
        folder,
    ) by {}
}

/// A trip that goes to a folder finds its service and its shape among those that the folder needs.
pub proof fn law_trip_finds_service_and_shape(
    feed: Feed,
    order: Seq<Seq<char>>,
    i: int,
    folder: int,
)
    requires
        feed.is_order(order),
        feed.trip_in(order, i, folder),
    ensures
        0 <= folder < feed.plan(order).folders.len(),
        feed.complete_split(order).needs[folder].services.contains(feed.trips[i].service_id),
        nonblank(feed.trips[i].shape_id) matches Some(shape) ==> feed.complete_split(
            order,
        ).needs[folder].shapes.contains(shape),
{
    lemma_plan(feed, order);
    lemma_route_folder_in_range(feed.plan(order), feed.trips[i].route_id);
    law_folder_needs_what_its_rows_name(feed, order, folder, feed.trips[i].service_id);
    if let Some(shape) = nonblank(feed.trips[i].shape_id) {
        law_folder_needs_what_its_rows_name(feed, order, folder, shape);
    }
}

/// A row that goes to a folder by its trip, as those of `stop_times.txt` and `frequencies.txt` do,
/// finds there a row of the trip.
pub proof fn law_trip_reference_is_found(
    feed: Feed,
    order: Seq<Seq<char>>,
    trip: Seq<char>,
    folder: int,
) -> (found: int)
    requires
        split_trips(feed.plan(order), feed.trips).folder_of_trip(trip) == Some(folder),
    ensures
        feed.trip_in(order, found, folder),
        feed.trips[found].trip_id == trip,
{
    lemma_trip_has_row(feed.plan(order), feed.trips, trip)
}

/// A stop time that goes to a folder finds there a row of its trip.
pub proof fn law_stop_time_finds_trip(
    feed: Feed,
    order: Seq<Seq<char>>,
    i: int,
    folder: int,
) -> (found: int)
    requires
        feed.stop_time_in(order, i, folder),
    ensures
        feed.trip_in(order, found, folder),
        feed.trips[found].trip_id == feed.stop_times[i].trip_id,
{
    law_trip_reference_is_found(feed, order, feed.stop_times[i].trip_id, folder)
}

/// A stop time that goes to a folder finds there each row of its stop.
pub proof fn law_stop_time_finds_stop(
    feed: Feed,
    order: Seq<Seq<char>>,
    i: int,
    folder: int,
    k: int,
)
    requires
        feed.is_order(order),
        feed.stop_time_in(order, i, folder),
        0 <= k < feed.stops.len(),
        feed.stops[k].0.stop_id == feed.stop_times[i].stop_id,
    ensures
        feed.stop_in(order, k, folder),
{
    let found = law_stop_time_finds_trip(feed, order, i, folder);
    lemma_plan(feed, order);
    lemma_route_folder_in_range(feed.plan(order), feed.trips[found].route_id);
    let stop = feed.stop_times[i].stop_id;
    law_folder_needs_what_its_rows_name(feed, order, folder, stop);
    lemma_feed_split(feed, order, folder);
    law_parents_keep_stops(
        stops_of(feed.stops),
        feed.split(order).needs[folder].stops,
        stop,
    );
}

/// A stop that goes to a folder finds there each row of its parent station.
pub proof fn law_stop_finds_parent(
    feed: Feed,
    order: Seq<Seq<char>>,
    i: int,
    folder: int,
    k: int,
)
    requires
        feed.is_order(order),
        feed.stop_in(order, i, folder),
        0 <= k < feed.stops.len(),
        parent_of(stops_of(feed.stops), feed.stops[i].0.stop_id) == Some(feed.stops[k].0.stop_id),
    ensures
        feed.stop_in(order, k, folder),
{
    lemma_feed_split(feed, order, folder);
    law_parents_are_complete(
        stops_of(feed.stops),
        feed.split(order).needs[folder].stops,
        feed.stops[i].0.stop_id,
    );
}

/// A stop that goes to a folder finds its level among those that the folder needs.
pub proof fn law_stop_finds_level(feed: Feed, order: Seq<Seq<char>>, i: int, folder: int)
    requires
        feed.is_order(order),
        feed.stop_in(order, i, folder),
    ensures
        nonblank(feed.stops[i].0.level_id) matches Some(level) ==> feed.complete_split(
            order,
        ).needs[folder].levels.contains(level),
{
    if let Some(level) = nonblank(feed.stops[i].0.level_id) {
        law_folder_needs_what_its_rows_name(feed, order, folder, level);
    }
}

/// A transfer or a pathway that goes to a folder finds there each row of each of its stops.
pub proof fn law_stop_pair_finds_stops(
    feed: Feed,
    order: Seq<Seq<char>>,
    from_stop: Seq<char>,
    to_stop: Seq<char>,
    folders: Seq<usize>,
    folder: usize,
    k: int,
)
    requires
        feed.is_order(order),
        selects(
            folders,
            feed.complete_split(order).needs.len(),
            |at: int|
                feed.complete_split(order).needs[at].stops.contains(from_stop)
                    && feed.complete_split(order).needs[at].stops.contains(to_stop),
        ),
        folders.contains(folder),
        0 <= k < feed.stops.len(),
        feed.stops[k].0.stop_id == from_stop || feed.stops[k].0.stop_id == to_stop,
    ensures
        feed.stop_in(order, k, folder as int),
{
    let at = choose|at: int| 0 <= at < folders.len() && folders[at] == folder;
    assert(folders[at] < feed.complete_split(order).needs.len());
    lemma_feed_split_len(feed, order);
    lemma_feed_split(feed, order, folder as int);
}

/// The split has an entry for each folder.
proof fn lemma_feed_split_len(feed: Feed, order: Seq<Seq<char>>)
    requires
        feed.is_order(order),
    ensures
        feed.complete_split(order).needs.len() == feed.plan(order).folders.len(),
{
    lemma_plan(feed, order);
    let plan = feed.plan(order);
    if plan.folders.len() > 0 {
        lemma_feed_split(feed, order, 0);
    } else {
        lemma_split_trips(plan, feed.trips);
        lemma_split_stop_times_len(split_trips(plan, feed.trips), feed.stop_times);
        lemma_split_stops_len(feed.split_with_parents(order), feed.stops);
    }
}

proof fn lemma_split_stop_times_len(split: SplitModel, rows: Seq<StopTimeRecord>)
    requires
        split.wf(),
    ensures
        split_stop_times(split, rows).needs.len() == split.needs.len(),
        split_stop_times(split, rows).trips == split.trips,
    decreases rows.len(),
{
    if rows.len() > 0 {
        lemma_split_stop_times_len(split, rows.drop_last());
    }
}

proof fn lemma_split_stops_len(
    split: SplitModel,
    rows: Seq<(StopRecord, Option<Seq<char>>)>,
)
    ensures
        split_stops(split, rows).needs.len() == split.needs.len(),
    decreases rows.len(),
{
    if rows.len() > 0 {
        lemma_split_stops_len(split, rows.drop_last());
    }
}

/// In the second pass a trip goes where the last of its rows goes that goes anywhere.
pub proof fn law_last_trip_row_with_a_folder_counts(
    plan: PlanModel,
    rows: Seq<TripRecord>,
    t: int,
    folder: int,
)
    requires
        0 <= t < rows.len(),
        plan.folder_of_route(rows[t].route_id) == Some(folder),
        forall|k: int|
            t < k < rows.len() && (#[trigger] rows[k]).trip_id == rows[t].trip_id
                ==> plan.folder_of_route(rows[k].route_id) is None,
    ensures
        split_trips(plan, rows).trips.contains_key(rows[t].trip_id),
        split_trips(plan, rows).trips[rows[t].trip_id] == folder,
    decreases rows.len(),
{
    if t < rows.len() - 1 {
        let fewer = rows.drop_last();
        assert(fewer[t] == rows[t]);
        assert forall|k: int|
            t < k < fewer.len() && (#[trigger] fewer[k]).trip_id
                == fewer[t].trip_id implies plan.folder_of_route(fewer[k].route_id) is None by {
            assert(rows[k].trip_id == rows[t].trip_id);
        }
        law_last_trip_row_with_a_folder_counts(plan, fewer, t, folder);
        assert(rows[rows.len() - 1] == rows.last());
    }
}

/// A trip none of whose rows goes anywhere has no folder.
pub proof fn law_trip_without_a_folder_row_has_none(
    plan: PlanModel,
    rows: Seq<TripRecord>,
    trip: Seq<char>,
)
    requires
        forall|k: int|
            0 <= k < rows.len() && (#[trigger] rows[k]).trip_id == trip ==> plan.folder_of_route(
                rows[k].route_id,
            ) is None,
    ensures
        !split_trips(plan, rows).trips.contains_key(trip),
{
    if split_trips(plan, rows).trips.contains_key(trip) {
        let k = lemma_trip_has_row(plan, rows, trip);
        assert(rows[k].trip_id == trip);
    }
}

impl Feed {
    /// Whether the route of row `t` of `trips.txt` is known, and so is the agency that runs it.
    pub open spec fn trip_has_agency(self, t: int) -> bool {
        &&& routes_of(self.routes).contains_key(self.trips[t].route_id)
        &&& agencies_of(self.agencies).contains_key(
            routes_of(self.routes)[self.trips[t].route_id],
        )
    }

    /// Whether row `t` of `trips.txt` is the last one of its trip whose agency is known.
    pub open spec fn is_last_row_with_agency(self, t: int) -> bool {
        &&& 0 <= t < self.trips.len()
        &&& self.trip_has_agency(t)
        &&& forall|k: int|
            t < k < self.trips.len() && (#[trigger] self.trips[k]).trip_id == self.trips[t].trip_id
                ==> !self.trip_has_agency(k)
    }
}

proof fn lemma_folder_of_trip_row(feed: Feed, order: Seq<Seq<char>>, t: int)
    requires
        feed.is_order(order),
        0 <= t < feed.trips.len(),
    ensures
        feed.plan(order).folder_of_route(feed.trips[t].route_id) is Some
            <==> feed.trip_has_agency(t),
        feed.trip_has_agency(t) ==> feed.plan(order).folder_of_route(feed.trips[t].route_id)
            == feed.plan(order).folder_of_agency(routes_of(feed.routes)[feed.trips[t].route_id]),
{
    let agency = routes_of(feed.routes)[feed.trips[t].route_id];
    assert(order.contains(agency) <==> agencies_of(feed.agencies).contains_key(agency));
}

/// A trip row goes to the folder of the agency that runs its route, if both are known, and nowhere
/// otherwise.
pub proof fn law_trip_row_goes_with_its_agency(feed: Feed, order: Seq<Seq<char>>, t: int)
    requires
        feed.is_order(order),
        0 <= t < feed.trips.len(),
    ensures
        feed.trip_has_agency(t) ==> {
            let folder = feed.plan(order).folder_of_agency(
                routes_of(feed.routes)[feed.trips[t].route_id],
            );
            &&& folder is Some
            &&& 0 <= folder->0 < feed.plan(order).folders.len()
            &&& feed.trip_in(order, t, folder->0)
        },
        !feed.trip_has_agency(t) ==> forall|folder: int| !#[trigger] feed.trip_in(order, t, folder),
{
    lemma_folder_of_trip_row(feed, order, t);
    law_every_agency_has_a_folder(
        feed,
        order,
        routes_of(feed.routes)[feed.trips[t].route_id],
    );
}

/// Each stop time whose trip has a row with a known agency goes to a folder: to that of the agency
/// which the last such row leads to.  Its stop is needed there.
pub proof fn law_stop_time_goes_where_its_trip_goes(
    feed: Feed,
    order: Seq<Seq<char>>,
    i: int,
    t: int,
) -> (folder: int)
    requires
        feed.is_order(order),
        0 <= i < feed.stop_times.len(),
        feed.is_last_row_with_agency(t),
        feed.trips[t].trip_id == feed.stop_times[i].trip_id,
    ensures
        0 <= folder < feed.plan(order).folders.len(),
        feed.plan(order).folder_of_agency(routes_of(feed.routes)[feed.trips[t].route_id]) == Some(
            folder,
        ),
        split_trips(feed.plan(order), feed.trips).trips.contains_key(feed.stop_times[i].trip_id),
        split_trips(feed.plan(order), feed.trips).trips[feed.stop_times[i].trip_id] == folder,
        split_trips(feed.plan(order), feed.trips).folder_of_trip(feed.stop_times[i].trip_id)
            == Some(folder),
        feed.stop_time_in(order, i, folder),
        feed.trip_in(order, t, folder),
        feed.split(order).needs[folder].stops.contains(feed.stop_times[i].stop_id),
{
    let plan = feed.plan(order);
    law_trip_row_goes_with_its_agency(feed, order, t);
    lemma_folder_of_trip_row(feed, order, t);
    let folder = plan.folder_of_route(feed.trips[t].route_id)->0;
    assert forall|k: int|
        t < k < feed.trips.len() && (#[trigger] feed.trips[k]).trip_id
            == feed.trips[t].trip_id implies plan.folder_of_route(feed.trips[k].route_id) is None by {
        lemma_folder_of_trip_row(feed, order, k);
    }
    law_last_trip_row_with_a_folder_counts(plan, feed.trips, t, folder);
    law_folder_needs_what_its_rows_name(feed, order, folder, feed.stop_times[i].stop_id);
    folder
}

/// In the first pass a trip counts for the agency which the last of its rows with a known agency
/// leads to.
pub proof fn law_last_trip_row_with_an_agency_counts(
    slots: nat,
    order: Seq<Seq<char>>,
    routes: Map<Seq<char>, Seq<char>>,
    rows: Seq<TripRecord>,
    t: int,
    place: int,
)
    requires
        order.no_duplicates(),
        0 <= t < rows.len(),
        routes.contains_key(rows[t].route_id),
        0 <= place < order.len(),
        order[place] == routes[rows[t].route_id],
        forall|k: int|
            t < k < rows.len() && (#[trigger] rows[k]).trip_id == rows[t].trip_id
                ==> !routes.contains_key(rows[k].route_id) || !order.contains(
                routes[rows[k].route_id],
            ),
    ensures
        survey_trips(slots, order, routes, rows).trips.contains_key(rows[t].trip_id),
        survey_trips(slots, order, routes, rows).trips[rows[t].trip_id] == place % 0x1_0000,
    decreases rows.len(),
{
    let fewer = rows.drop_last();
    assert(rows[rows.len() - 1] == rows.last());
    if t < rows.len() - 1 {
        assert(fewer[t] == rows[t]);
        assert forall|k: int|
            t < k < fewer.len() && (#[trigger] fewer[k]).trip_id
                == fewer[t].trip_id implies !routes.contains_key(fewer[k].route_id)
            || !order.contains(routes[fewer[k].route_id]) by {
            assert(rows[k].trip_id == rows[t].trip_id);
        }
        law_last_trip_row_with_an_agency_counts(slots, order, routes, fewer, t, place);
    } else {
        law_trip_counts_for_its_agency(
            survey_trips(slots, order, routes, fewer),
            order,
            routes,
            rows.last(),
            place,
        );
    }
}

} // verus!
