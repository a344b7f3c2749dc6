//! The columns of the feed's tables that decide where a row goes.

use crate::text::text_of;
use vstd::prelude::*;

verus! {

/// A row of `agency.txt`.
#[derive(Debug)]
pub struct AgencyRow {
    pub agency_id: String,
    pub agency_name: String,
}

pub struct AgencyRecord {
    pub agency_id: Seq<char>,
    pub agency_name: Seq<char>,
}

impl View for AgencyRow {
    type V = AgencyRecord;

    open spec fn view(&self) -> AgencyRecord {
        AgencyRecord { agency_id: self.agency_id@, agency_name: self.agency_name@ }
    }
}

/// A row of `routes.txt`.
#[derive(Debug)]
pub struct RouteRow {
    pub route_id: String,
    pub agency_id: String,
}

pub struct RouteRecord {
    pub route_id: Seq<char>,
    pub agency_id: Seq<char>,
}

impl View for RouteRow {
    type V = RouteRecord;

    open spec fn view(&self) -> RouteRecord {
        RouteRecord { route_id: self.route_id@, agency_id: self.agency_id@ }
    }
}

/// A row of `trips.txt`.
#[derive(Debug)]
pub struct TripRow {
    pub route_id: String,
    pub service_id: String,
    pub trip_id: String,
    pub shape_id: Option<String>,
}

pub struct TripRecord {
    pub route_id: Seq<char>,
    pub service_id: Seq<char>,
    pub trip_id: Seq<char>,
    pub shape_id: Option<Seq<char>>,
}

impl View for TripRow {
    type V = TripRecord;

    open spec fn view(&self) -> TripRecord {
        TripRecord {
            route_id: self.route_id@,
            service_id: self.service_id@,
            trip_id: self.trip_id@,
            shape_id: text_of(self.shape_id),
        }
    }
}

/// A row of `stop_times.txt`.
#[derive(Debug)]
pub struct StopTimeRow {
    pub trip_id: String,
    pub stop_id: String,
}

pub struct StopTimeRecord {
    pub trip_id: Seq<char>,
    pub stop_id: Seq<char>,
}

impl View for StopTimeRow {
    type V = StopTimeRecord;

    open spec fn view(&self) -> StopTimeRecord {
        StopTimeRecord { trip_id: self.trip_id@, stop_id: self.stop_id@ }
    }
}

/// A row of `stops.txt`, as far as it tells what other rows the stop needs.
#[derive(Debug)]
pub struct StopRow {
    pub stop_id: String,
    pub parent_station: Option<String>,
    pub level_id: Option<String>,
}

pub struct StopRecord {
    pub stop_id: Seq<char>,
    pub parent_station: Option<Seq<char>>,
    pub level_id: Option<Seq<char>>,
}

impl View for StopRow {
    type V = StopRecord;

    open spec fn view(&self) -> StopRecord {
        StopRecord {
            stop_id: self.stop_id@,
            parent_station: text_of(self.parent_station),
            level_id: text_of(self.level_id),
        }
    }
}

/// A record has the text of each column.
pub proof fn law_records_have_the_columns(
    agency: AgencyRow,
    route: RouteRow,
    trip: TripRow,
    stop_time: StopTimeRow,
    stop: StopRow,
)
    ensures
        agency@.agency_id == agency.agency_id@,
        agency@.agency_name == agency.agency_name@,
        route@.route_id == route.route_id@,
        route@.agency_id == route.agency_id@,
        trip@.route_id == trip.route_id@,
        trip@.service_id == trip.service_id@,
        trip@.trip_id == trip.trip_id@,
        trip.shape_id is None <==> trip@.shape_id is None,
        trip.shape_id matches Some(shape) ==> trip@.shape_id == Some(shape@),
        stop_time@.trip_id == stop_time.trip_id@,
        stop_time@.stop_id == stop_time.stop_id@,
        stop@.stop_id == stop.stop_id@,
        stop.parent_station is None <==> stop@.parent_station is None,
        stop.parent_station matches Some(parent) ==> stop@.parent_station == Some(parent@),
        stop.level_id is None <==> stop@.level_id is None,
        stop.level_id matches Some(level) ==> stop@.level_id == Some(level@),
{
}

} // verus!
