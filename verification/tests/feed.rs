use gtfs_split::agencies::{has_railway_name, AgencyTable, RouteTable};
use gtfs_split::names::NameList;
use gtfs_split::plan::Plan;
use gtfs_split::rows::{AgencyRow, RouteRow, StopRow, StopTimeRow, TripRow};
use gtfs_split::split::Split;
use gtfs_split::stops::StopTable;
use gtfs_split::survey::{StateSet, Survey};

fn some(text: &str) -> Option<String> {
    Some(text.to_string())
}

fn agency(id: &str, name: &str) -> AgencyRow {
    AgencyRow { agency_id: id.to_string(), agency_name: name.to_string() }
}

fn route(id: &str, agency: &str) -> RouteRow {
    RouteRow { route_id: id.to_string(), agency_id: agency.to_string() }
}

fn trip(id: &str, route: &str, service: &str, shape: Option<&str>) -> TripRow {
    TripRow {
        route_id: route.to_string(),
        service_id: service.to_string(),
        trip_id: id.to_string(),
        shape_id: shape.map(|s| s.to_string()),
    }
}

fn stop_time(trip: &str, stop: &str) -> StopTimeRow {
    StopTimeRow { trip_id: trip.to_string(), stop_id: stop.to_string() }
}

fn stop(id: &str, parent: Option<&str>, level: Option<&str>) -> StopRow {
    StopRow {
        stop_id: id.to_string(),
        parent_station: parent.map(|s| s.to_string()),
        level_id: level.map(|s| s.to_string()),
    }
}

fn agency_rows() -> Vec<AgencyRow> {
    vec![
        agency("local", "Stadtwerke"),
        agency("db", "DB Fernverkehr AG"),
        agency("wide", "Verkehrsverbund"),
        agency("border", "Grenzbus"),
        agency("idle", "Niemand"),
        agency("dbidle", "DB Regio"),
    ]
}

fn route_rows() -> Vec<RouteRow> {
    vec![
        route("r-local", "local"),
        route("r-db", "db"),
        route("r-wide", "wide"),
        route("r-border", "border"),
        route("r-lost", "unknown"),
    ]
}

fn trip_rows() -> Vec<TripRow> {
    vec![
        trip("t-local", "r-local", "weekday", Some(" s1 ")),
        trip("t-db", "r-db", "daily", Some("  ")),
        trip("t-wide", "r-wide", "daily", None),
        trip("t-border", "r-border", "weekend", Some("s2")),
        trip("t-lost", "r-lost", "daily", Some("s3")),
        trip("t-none", "r-none", "daily", Some("s4")),
    ]
}

fn stop_time_rows() -> Vec<StopTimeRow> {
    vec![
        stop_time("t-local", "b1"),
        stop_time("t-local", "b2"),
        stop_time("t-db", "b1"),
        stop_time("t-wide", "b1"),
        stop_time("t-wide", "h1"),
        stop_time("t-border", "b2"),
        stop_time("t-border", "abroad"),
        stop_time("t-lost", "h1"),
    ]
}

fn stop_rows() -> Vec<(StopRow, Option<String>)> {
    vec![
        (stop("b1", Some(" berlin "), Some(" l1 ")), some("berlin")),
        (stop("b2", Some(""), None), some("berlin")),
        (stop("h1", Some("hafen"), Some("l2")), some("hamburg")),
        (stop("berlin", Some("region"), Some("l0")), some("berlin")),
        (stop("hafen", None, None), some("hamburg")),
        (stop("abroad", None, None), None),
    ]
}

fn stop_table() -> StopTable {
    let mut stops = StopTable::new();
    for (row, state) in stop_rows() {
        stops.add(&row, state);
    }
    stops
}

fn plan() -> Plan {
    let mut agencies = AgencyTable::new();
    for row in agency_rows() {
        agencies.add(&row);
    }
    let mut routes = RouteTable::new();
    for row in route_rows() {
        routes.add(&row);
    }
    let index = agencies.number();
    let mut survey = Survey::new(&index);
    for row in trip_rows() {
        survey.add_trip(&index, &routes, &row);
    }
    assert_eq!(survey.trip_count(), 4);
    let stops = stop_table();
    for row in stop_time_rows() {
        survey.add_stop_time(&stops, &row);
    }
    Plan::decide(index, routes, &survey)
}

fn folder(plan: &Plan, agency: &str) -> String {
    plan.folder_name(plan.folder_of_agency(agency).unwrap()).clone()
}

fn folder_at(plan: &Plan, name: &str) -> usize {
    (0..plan.folder_count()).find(|f| plan.folder_name(*f) == name).unwrap()
}

fn split(plan: &Plan) -> Split {
    let mut split = Split::new(plan);
    for row in trip_rows() {
        split.split_trip(plan, &row);
    }
    for row in stop_time_rows() {
        split.split_stop_time(&row);
    }
    split
}

#[test]
fn railway_names_start_with_the_mark() {
    assert!(has_railway_name("DB Regio AG"));
    assert!(has_railway_name("DB "));
    assert!(!has_railway_name("DB"));
    assert!(!has_railway_name("DBS"));
    assert!(!has_railway_name("db Regio"));
    assert!(!has_railway_name(" DB Regio"));
    assert!(!has_railway_name(""));
}

#[test]
fn agencies_are_numbered_by_identifier() {
    let mut agencies = AgencyTable::new();
    for id in ["b", "a", "ä", "B", "aa", "10", "9", "b"] {
        agencies.add(&agency(id, "x"));
    }
    assert_eq!(agencies.len(), 7);
    let index = agencies.number();
    assert_eq!(index.len(), 7);
    assert_eq!(index.slots(), 7);
    let expected = ["10", "9", "B", "a", "aa", "b", "ä"];
    for (place, id) in expected.iter().enumerate() {
        assert_eq!(index.slot(id), Some(place as u16));
    }
    assert_eq!(index.slot("c"), None);
}

#[test]
fn numbers_start_anew_when_they_run_out() {
    let mut agencies = AgencyTable::new();
    for i in 0..65_537 {
        let name = if i == 0 { "DB Cargo" } else { "x" };
        agencies.add(&agency(&(100_000 + i).to_string(), name));
    }
    let index = agencies.number();
    assert_eq!(index.len(), 65_537);
    assert_eq!(index.slots(), 65_536);
    assert_eq!(index.slot("100000"), Some(0));
    assert_eq!(index.slot("165535"), Some(65_535));
    assert_eq!(index.slot("165536"), Some(0));
    assert!(index.is_railway(0));
    assert!(!index.is_railway(1));
    let survey = Survey::new(&index);
    let plan = Plan::decide(index, RouteTable::new(), &survey);
    assert_eq!(folder(&plan, "165536"), "deutsche_bahn");
    assert_eq!(folder(&plan, "165535"), "other");
}

#[test]
fn later_rows_replace_earlier_ones() {
    let mut agencies = AgencyTable::new();
    agencies.add(&agency("a", "DB Regio"));
    agencies.add(&agency("a", "Regio"));
    let index = agencies.number();
    assert_eq!(index.len(), 1);
    assert!(!index.is_railway(0));
    let mut routes = RouteTable::new();
    routes.add(&route("r", "x"));
    routes.add(&route("r", "a"));
    assert_eq!(routes.len(), 1);
    assert_eq!(routes.agency("r"), Some(&"a".to_string()));
    assert_eq!(routes.agency("s"), None);
    assert_eq!(routes.slot(&index, "r"), Some(0));
    let mut stops = StopTable::new();
    stops.add(&stop("s", Some("p"), None), some("bremen"));
    stops.add(&stop("s", None, None), None);
    assert_eq!(stops.len(), 1);
    assert_eq!(stops.state("s"), None);
    assert_eq!(stops.parent("s"), None);
}

#[test]
fn names_are_listed_once() {
    let mut names = NameList::new();
    assert_eq!(names.intern("x"), 0);
    assert_eq!(names.intern("y"), 1);
    assert_eq!(names.intern("x"), 0);
    assert_eq!(names.len(), 2);
    assert_eq!(names.name(1), "y");
    assert_eq!(names.position("y"), Some(1));
    assert_eq!(names.position("z"), None);
    assert!(names.contains("x") && !names.contains("z"));
}

#[test]
fn a_state_set_tells_its_only_state() {
    let berlin = "berlin".to_string();
    let hessen = "hessen".to_string();
    let mut set = StateSet::new();
    assert_eq!(set.only(), None);
    set.insert(Some(&berlin));
    set.insert(Some(&berlin));
    assert_eq!(set.only(), Some(&berlin));
    set.insert(Some(&hessen));
    assert_eq!(set.only(), None);
    let mut outside = StateSet::new();
    outside.insert(None);
    assert_eq!(outside.only(), None);
    outside.insert(Some(&berlin));
    assert_eq!(outside.only(), None);
}

#[test]
fn agencies_go_to_their_folders() {
    let plan = plan();
    assert_eq!(folder(&plan, "local"), "berlin");
    assert_eq!(folder(&plan, "db"), "deutsche_bahn");
    assert_eq!(folder(&plan, "wide"), "other");
    assert_eq!(folder(&plan, "border"), "other");
    assert_eq!(folder(&plan, "idle"), "other");
    assert_eq!(folder(&plan, "dbidle"), "deutsche_bahn");
    assert_eq!(plan.folder_of_agency("unknown"), None);
}

#[test]
fn there_is_a_folder_for_each_target_and_no_other() {
    let plan = plan();
    assert_eq!(plan.folder_count(), 3);
    assert_eq!(plan.agencies_in(folder_at(&plan, "berlin")), 1);
    assert_eq!(plan.agencies_in(folder_at(&plan, "deutsche_bahn")), 2);
    assert_eq!(plan.agencies_in(folder_at(&plan, "other")), 3);
    let all: usize = (0..plan.folder_count()).map(|f| plan.agencies_in(f)).sum();
    assert_eq!(all, agency_rows().len());
}

#[test]
fn trips_follow_their_agency() {
    let plan = plan();
    assert_eq!(plan.folder_of_route("r-local"), plan.folder_of_agency("local"));
    assert_eq!(plan.folder_of_route("r-lost"), None);
    assert_eq!(plan.folder_of_route("r-none"), None);
    let mut split = Split::new(&plan);
    for row in trip_rows() {
        assert_eq!(split.split_trip(&plan, &row), plan.folder_of_route(&row.route_id));
        assert_eq!(split.folder_of_trip(&row.trip_id), plan.folder_of_route(&row.route_id));
    }
    assert_eq!(split.folder_of_trip("t-never"), None);
}

#[test]
fn a_repeated_trip_goes_where_its_last_row_goes() {
    let plan = plan();
    let mut split = Split::new(&plan);
    split.split_trip(&plan, &trip("t", "r-local", "a", None));
    split.split_trip(&plan, &trip("t", "r-db", "b", None));
    split.split_trip(&plan, &trip("t", "r-none", "c", None));
    assert_eq!(split.folder_of_trip("t"), plan.folder_of_agency("db"));
    assert_eq!(split.folders_of_service("a"), vec![folder_at(&plan, "berlin")]);
    assert_eq!(split.folders_of_service("b"), vec![folder_at(&plan, "deutsche_bahn")]);
    assert_eq!(split.folders_of_service("c"), Vec::<usize>::new());
}

#[test]
fn stop_times_follow_their_trips() {
    let plan = plan();
    let mut split = Split::new(&plan);
    for row in trip_rows() {
        split.split_trip(&plan, &row);
    }
    assert_eq!(split.split_stop_time(&stop_time("t-local", "b1")), Some(folder_at(&plan, "berlin")));
    assert_eq!(split.split_stop_time(&stop_time("t-lost", "b1")), None);
    assert_eq!(split.stop_count(folder_at(&plan, "berlin")), 1);
    assert_eq!(split.stop_count(folder_at(&plan, "other")), 0);
}

#[test]
fn services_and_shapes_are_those_of_the_trips() {
    let plan = plan();
    let split = split(&plan);
    let berlin = folder_at(&plan, "berlin");
    let other = folder_at(&plan, "other");
    let railway = folder_at(&plan, "deutsche_bahn");
    assert_eq!(split.folders_of_service("weekday"), vec![berlin]);
    assert_eq!(split.folders_of_service("weekend"), vec![other]);
    let mut daily = vec![railway, other];
    daily.sort();
    assert_eq!(split.folders_of_service("daily"), daily);
    assert_eq!(split.folders_of_service("never"), Vec::<usize>::new());
    assert_eq!(split.folders_of_shape("s1"), vec![berlin]);
    assert_eq!(split.folders_of_shape(" s1 "), Vec::<usize>::new());
    assert_eq!(split.folders_of_shape("s2"), vec![other]);
    assert_eq!(split.folders_of_shape("s3"), Vec::<usize>::new());
    assert_eq!(split.folders_of_shape("s4"), Vec::<usize>::new());
    assert_eq!(split.folders_of_shape(""), Vec::<usize>::new());
}

#[test]
fn parent_stations_come_along() {
    let plan = plan();
    let stops = stop_table();
    let mut split = split(&plan);
    let berlin = folder_at(&plan, "berlin");
    let other = folder_at(&plan, "other");
    assert_eq!(split.stop_count(berlin), 2);
    assert_eq!(split.stop_count(other), 4);
    assert!(split.chains_are_finite(&stops));
    split.add_parents(&stops);
    // b1, b2, berlin, region
    assert_eq!(split.stop_count(berlin), 4);
    // b1, h1, b2, abroad, berlin, region, hafen
    assert_eq!(split.stop_count(other), 7);
    split.add_parents(&stops);
    assert_eq!(split.stop_count(berlin), 4);
    assert_eq!(split.split_stop(&stop("hafen", None, None)), vec![other]);
    let mut both = vec![berlin, other, folder_at(&plan, "deutsche_bahn")];
    both.sort();
    assert_eq!(split.split_stop(&stop("berlin", None, None)), both);
    assert_eq!(split.split_stop(&stop("region", None, None)), both);
}

#[test]
fn chains_without_end_are_noticed() {
    let mut stops = StopTable::new();
    stops.add(&stop("a", Some("b"), None), None);
    stops.add(&stop("b", Some("c"), None), None);
    stops.add(&stop("c", Some("b"), None), None);
    stops.add(&stop("d", Some("d"), None), None);
    stops.add(&stop("e", Some("f"), None), None);
    stops.add(&stop("f", Some("g"), None), None);
    for endless in ["a", "b", "c", "d"] {
        assert!(!stops.chain_is_finite(endless));
    }
    for finite in ["e", "f", "g", "h"] {
        assert!(stops.chain_is_finite(finite));
    }
    let mut needed = NameList::new();
    needed.intern("e");
    assert!(stops.chains_are_finite(&needed));
    stops.add_parents(&mut needed);
    assert_eq!(needed.len(), 3);
    assert!(needed.contains("f") && needed.contains("g"));
    needed.intern("d");
    assert!(!stops.chains_are_finite(&needed));
    let plan = plan();
    let mut split = Split::new(&plan);
    split.split_trip(&plan, &trip("t", "r-local", "a", None));
    split.split_stop_time(&stop_time("t", "a"));
    assert!(!split.chains_are_finite(&stops));
}

#[test]
fn levels_are_those_of_the_stops() {
    let plan = plan();
    let stops = stop_table();
    let mut split = split(&plan);
    split.add_parents(&stops);
    for (row, _) in stop_rows() {
        split.split_stop(&row);
    }
    let other = folder_at(&plan, "other");
    let mut all = vec![folder_at(&plan, "berlin"), other, folder_at(&plan, "deutsche_bahn")];
    all.sort();
    assert_eq!(split.folders_of_level("l1"), all);
    assert_eq!(split.folders_of_level(" l1 "), Vec::<usize>::new());
    assert_eq!(split.folders_of_level("l0"), all);
    assert_eq!(split.folders_of_level("l2"), vec![other]);
    assert_eq!(split.folders_of_level("l3"), Vec::<usize>::new());
}

#[test]
fn a_transfer_needs_both_stops() {
    let plan = plan();
    let mut split = split(&plan);
    split.add_parents(&stop_table());
    let other = folder_at(&plan, "other");
    assert_eq!(split.folders_of_stop_pair("b1", "h1"), vec![other]);
    assert_eq!(split.folders_of_stop_pair("h1", "b1"), vec![other]);
    let mut pair = vec![folder_at(&plan, "berlin"), other];
    pair.sort();
    assert_eq!(split.folders_of_stop_pair("b1", "b2"), pair);
    assert_eq!(split.folders_of_stop_pair("b1", "nowhere"), Vec::<usize>::new());
}

#[test]
fn numbering_does_not_depend_on_the_order_of_rows() {
    let number = |ids: &[&str]| {
        let mut agencies = AgencyTable::new();
        for id in ids {
            agencies.add(&agency(id, "x"));
        }
        let index = agencies.number();
        ["a", "b", "c"].map(|id| index.slot(id))
    };
    assert_eq!(number(&["a", "b", "c"]), [Some(0), Some(1), Some(2)]);
    assert_eq!(number(&["c", "a", "b", "a"]), [Some(0), Some(1), Some(2)]);
}

#[test]
fn both_passes_count_the_same_trips() {
    let plan = plan();
    let split = split(&plan);
    let counted: Vec<String> = trip_rows()
        .iter()
        .map(|row| row.trip_id.clone())
        .filter(|trip| split.folder_of_trip(trip).is_some())
        .collect();
    assert_eq!(counted, vec!["t-local", "t-db", "t-wide", "t-border"]);
}

#[test]
fn references_resolve_in_every_folder() {
    let plan = plan();
    let stops = stop_table();
    let mut split = Split::new(&plan);
    let count = plan.folder_count();
    let mut trips: Vec<Vec<TripRow>> = (0..count).map(|_| Vec::new()).collect();
    for row in trip_rows() {
        if let Some(f) = split.split_trip(&plan, &row) {
            trips[f].push(row);
        }
    }
    let mut times: Vec<Vec<StopTimeRow>> = (0..count).map(|_| Vec::new()).collect();
    for row in stop_time_rows() {
        if let Some(f) = split.split_stop_time(&row) {
            times[f].push(row);
        }
    }
    split.add_parents(&stops);
    let mut written: Vec<Vec<String>> = (0..count).map(|_| Vec::new()).collect();
    for (row, _) in stop_rows() {
        for f in split.split_stop(&row) {
            written[f].push(row.stop_id.clone());
        }
    }
    let known: Vec<String> = stop_rows().into_iter().map(|(row, _)| row.stop_id).collect();
    for f in 0..count {
        for row in &trips[f] {
            let routed = route_rows().into_iter().find(|r| r.route_id == row.route_id).unwrap();
            assert_eq!(plan.folder_of_agency(&routed.agency_id), Some(f));
            assert!(agency_rows().iter().any(|a| a.agency_id == routed.agency_id));
            assert!(split.folders_of_service(&row.service_id).contains(&f));
        }
        for row in &times[f] {
            assert!(trips[f].iter().any(|t| t.trip_id == row.trip_id));
            assert!(written[f].contains(&row.stop_id));
        }
        for id in &written[f] {
            if let Some(parent) = stops.parent(id) {
                assert!(written[f].contains(parent) || !known.contains(parent));
            }
        }
    }
    let lines: usize = times.iter().map(|t| t.len()).sum();
    assert_eq!(lines, 7);
}
