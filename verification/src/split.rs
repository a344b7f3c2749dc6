//! The second pass: which rows each folder gets.

use crate::names::{lemma_interned, NameList};
use crate::plan::{Plan, PlanModel};
use crate::rows::{StopRecord, StopRow, StopTimeRecord, StopTimeRow, TripRecord, TripRow};
use crate::stops::{chain_ends, with_parents, StopFacts, StopTable};
use crate::text::{nonblank, nonblank_field, text_of};
use vstd::hash_map::StringHashMap;
use vstd::hash_set::StringHashSet;
use vstd::prelude::*;

verus! {

/// The identifiers to which the rows of a folder refer.
#[verifier::ext_equal]
pub struct NeedsModel {
    pub services: Set<Seq<char>>,
    pub shapes: Set<Seq<char>>,
    pub stops: Set<Seq<char>>,
    pub levels: Set<Seq<char>>,
}

impl NeedsModel {
    pub open spec fn none() -> NeedsModel {
        NeedsModel {
            services: Set::empty(),
            shapes: Set::empty(),
            stops: Set::empty(),
            levels: Set::empty(),
        }
    }

    /// With what a trip needs: its service, and its shape if it names one.
    pub open spec fn with_trip(self, row: TripRecord) -> NeedsModel {
        NeedsModel {
            services: self.services.insert(row.service_id),
            shapes: match nonblank(row.shape_id) {
                Some(shape) => self.shapes.insert(shape),
                None => self.shapes,
            },
            ..self
        }
    }

    /// With a stop.
    pub open spec fn with_stop(self, stop: Seq<char>) -> NeedsModel {
        NeedsModel { stops: self.stops.insert(stop), ..self }
    }

    /// With what a row of `stops.txt` needs: its level, if it names one.
    pub open spec fn with_level_of(self, row: StopRecord) -> NeedsModel {
        NeedsModel {
            levels: match nonblank(row.level_id) {
                Some(level) => self.levels.insert(level),
                None => self.levels,
            },
            ..self
        }
    }

    /// With the stations that are reached from the stops.
    pub open spec fn with_parents(self, stops: Map<Seq<char>, StopFacts>) -> NeedsModel {
        NeedsModel { stops: with_parents(stops, self.stops), ..self }
    }
}

/// The folders of the trips, and what each folder needs.
#[verifier::ext_equal]
pub struct SplitModel {
    pub trips: Map<Seq<char>, int>,
    pub needs: Seq<NeedsModel>,
}

impl SplitModel {
    /// Nothing split yet, for this many folders.
    pub open spec fn start(folders: nat) -> SplitModel {
        SplitModel {
            trips: Map::empty(),
            needs: Seq::new(folders, |folder: int| NeedsModel::none()),
        }
    }

    /// Whether the trips go to folders that there are.
    pub open spec fn wf(self) -> bool {
        forall|trip: Seq<char>| #[trigger]
            self.trips.contains_key(trip) ==> 0 <= self.trips[trip] < self.needs.len()
    }

    /// The folder of a trip's rows.
    pub open spec fn folder_of_trip(self, trip: Seq<char>) -> Option<int> {
        if self.trips.contains_key(trip) {
            Some(self.trips[trip])
        } else {
            None
        }
    }

    /// After one more row of `trips.txt`.  A later row sends the trip to its own folder.
    pub open spec fn with_trip(self, plan: PlanModel, row: TripRecord) -> SplitModel {
        match plan.folder_of_route(row.route_id) {
            Some(folder) => SplitModel {
                trips: self.trips.insert(row.trip_id, folder),
                needs: self.needs.update(folder, self.needs[folder].with_trip(row)),
            },
            None => self,
        }
    }

    /// After one more row of `stop_times.txt`.
    pub open spec fn with_stop_time(self, row: StopTimeRecord) -> SplitModel {
        match self.folder_of_trip(row.trip_id) {
            Some(folder) => SplitModel {
                needs: self.needs.update(folder, self.needs[folder].with_stop(row.stop_id)),
                ..self
            },
            None => self,
        }
    }

    /// After the stations that are reached from the stops were added in each folder.
    pub open spec fn with_parents(self, stops: Map<Seq<char>, StopFacts>) -> SplitModel {
        SplitModel {
            needs: Seq::new(
                self.needs.len(),
                |folder: int| self.needs[folder].with_parents(stops),
            ),
            ..self
        }
    }

    /// After one more row of `stops.txt`, which goes to each folder that needs the stop.
    pub open spec fn with_stop(self, row: StopRecord) -> SplitModel {
        SplitModel {
            needs: Seq::new(
                self.needs.len(),
                |folder: int|
                    if self.needs[folder].stops.contains(row.stop_id) {
                        self.needs[folder].with_level_of(row)
                    } else {
                        self.needs[folder]
                    },
            ),
            ..self
        }
    }

    /// Whether the way to the parent stations ends for each stop that a folder needs.
    pub open spec fn chains_end(self, stops: Map<Seq<char>, StopFacts>) -> bool {
        forall|folder: int, stop: Seq<char>|
            0 <= folder < self.needs.len() && #[trigger] self.needs[folder].stops.contains(stop)
                ==> chain_ends(stops, stop)
    }
}

/// Whether the list holds the folders below `count` of which `wanted` holds, in ascending order.
pub open spec fn selects(list: Seq<usize>, count: nat, wanted: spec_fn(int) -> bool) -> bool {
    &&& forall|i: int, j: int| 0 <= i < j < list.len() ==> #[trigger] list[i] < #[trigger] list[j]
    &&& forall|i: int| 0 <= i < list.len() ==> #[trigger] list[i] < count && wanted(list[i] as int)
    &&& forall|folder: int|
        0 <= folder < count && #[trigger] wanted(folder) ==> list.contains(folder as usize)
}

/// What a folder needs.
pub struct Needs {
    services: StringHashSet,
    shapes: StringHashSet,
    stops: NameList,
    levels: StringHashSet,
}

impl View for Needs {
    type V = NeedsModel;

    closed spec fn view(&self) -> NeedsModel {
        NeedsModel {
            services: self.services@,
            shapes: self.shapes@,
            stops: self.stops@.to_set(),
            levels: self.levels@,
        }
    }
}

impl Needs {
    pub closed spec fn wf(self) -> bool {
        self.stops.wf()
    }

    fn new() -> (needs: Needs)
        ensures
            needs.wf(),
            needs@ == NeedsModel::none(),
    {
        let needs = Needs {
            services: StringHashSet::new(),
            shapes: StringHashSet::new(),
            stops: NameList::new(),
            levels: StringHashSet::new(),
        };
        assert(needs@ =~= NeedsModel::none());
        needs
    }

    fn add_trip(&mut self, row: &TripRow)
        requires
            old(self).wf(),
        ensures
            final(self).wf(),
            final(self)@ == old(self)@.with_trip(row@),
    {
        let _ = self.services.insert(row.service_id.clone());
        match nonblank_field(&row.shape_id) {
            Some(shape) => {
                let _ = self.shapes.insert(shape);
            },
            None => {},
        }
        assert(self@ =~= old(self)@.with_trip(row@));
    }

    fn add_stop(&mut self, stop: &str)
        requires
            old(self).wf(),
        ensures
            final(self).wf(),
            final(self)@ == old(self)@.with_stop(stop@),
    {
        let ghost before = self.stops@;
        let _ = self.stops.intern(stop);
        proof {
            lemma_interned(before, self.stops@, stop@);
        }
        assert(self@ =~= old(self)@.with_stop(stop@));
    }

    fn add_level_of(&mut self, row: &StopRow)
        requires
            old(self).wf(),
        ensures
            final(self).wf(),
            final(self)@ == old(self)@.with_level_of(row@),
    {
        match nonblank_field(&row.level_id) {
            Some(level) => {
                let _ = self.levels.insert(level);
            },
            None => {},
        }
        assert(self@ =~= old(self)@.with_level_of(row@));
    }

    fn add_parents(&mut self, stops: &StopTable)
        requires
            old(self).wf(),
            forall|stop: Seq<char>| #[trigger]
                old(self)@.stops.contains(stop) ==> chain_ends(stops@, stop),
        ensures
            final(self).wf(),
            final(self)@ == old(self)@.with_parents(stops@),
    {
        assert forall|stop: Seq<char>| #[trigger] self.stops@.contains(stop) implies chain_ends(
            stops@,
            stop,
        ) by {
            assert(self@.stops.contains(stop));
        }
        stops.add_parents(&mut self.stops);
        assert(self@ =~= old(self)@.with_parents(stops@));
    }
}

/// The second pass over the feed.
pub struct Split {
    trips: StringHashMap<usize>,
    needs: Vec<Needs>,
}

impl View for Split {
    type V = SplitModel;

    closed spec fn view(&self) -> SplitModel {
        SplitModel {
            trips: self.trips@.map_values(|folder: usize| folder as int),
            needs: Seq::new(self.needs@.len(), |folder: int| self.needs@[folder]@),
        }
    }
}

impl Split {
    pub closed spec fn wf(self) -> bool {
        &&& forall|folder: int|
            0 <= folder < self.needs@.len() ==> (#[trigger] self.needs@[folder]).wf()
        &&& self@.wf()
    }

    /// The trips of a split go to folders that there are.
    pub proof fn lemma_wf(self)
        requires
            self.wf(),
        ensures
            self@.wf(),
    {
    }

    pub fn new(plan: &Plan) -> (split: Split)
        ensures
            split.wf(),
            split@ == SplitModel::start(plan@.folders.len()),
            split@.trips == Map::<Seq<char>, int>::empty(),
            split@.needs.len() == plan@.folders.len(),
            forall|folder: int|
                0 <= folder < split@.needs.len() ==> {
                    let needs = #[trigger] split@.needs[folder];
                    &&& needs.services == Set::<Seq<char>>::empty()
                    &&& needs.shapes == Set::<Seq<char>>::empty()
                    &&& needs.stops == Set::<Seq<char>>::empty()
                    &&& needs.levels == Set::<Seq<char>>::empty()
                },
    {
        let count: usize = plan.folder_count();
        let mut needs: Vec<Needs> = Vec::new();
        while needs.len() < count
            invariant
                needs.len() <= count,
                forall|folder: int|
                    0 <= folder < needs@.len() ==> (#[trigger] needs@[folder]).wf()
                        && needs@[folder]@ == NeedsModel::none(),
            decreases count - needs.len(),
        {
            needs.push(Needs::new());
        }
        let split = Split { trips: StringHashMap::new(), needs };
        assert(split@ =~= SplitModel::start(plan@.folders.len()));
        split
    }

    /// Splits a row of `trips.txt`: takes it in and tells its folder.
    pub fn split_trip(&mut self, plan: &Plan, row: &TripRow) -> (folder: Option<usize>)
        requires
            old(self).wf(),
            plan.wf(),
            old(self)@.needs.len() == plan@.folders.len(),
        ensures
            final(self).wf(),
            final(self)@ == old(self)@.with_trip(plan@, row@),
            match folder {
                Some(folder) => folder < plan@.folders.len() && plan@.folder_of_route(row@.route_id)
                    == Some(folder as int),
                None => plan@.folder_of_route(row@.route_id) is None,
            },
            final(self)@.needs.len() == old(self)@.needs.len(),
            folder is Some <==> plan@.routes.contains_key(row.route_id@) && plan@.order.contains(
                plan@.routes[row.route_id@],
            ),
            forall|k: int|
                0 <= k < plan@.order.len() && plan@.routes.contains_key(row.route_id@)
                    && #[trigger] plan@.order[k] == plan@.routes[row.route_id@] ==> folder is Some
                    && folder->0 == plan@.targets[k % 0x1_0000],
            folder is None ==> final(self)@ == old(self)@,
            folder matches Some(folder) ==> {
                let before = old(self)@.needs[folder as int];
                let after = final(self)@.needs[folder as int];
                &&& final(self)@.trips == old(self)@.trips.insert(row.trip_id@, folder as int)
                &&& after.services == before.services.insert(row.service_id@)
                &&& after.stops == before.stops
                &&& after.levels == before.levels
                &&& match nonblank(text_of(row.shape_id)) {
                    Some(shape) => after.shapes == before.shapes.insert(shape),
                    None => after.shapes == before.shapes,
                }
                &&& forall|other: int|
                    0 <= other < old(self)@.needs.len() && other != folder
                        ==> #[trigger] final(self)@.needs[other] == old(self)@.needs[other]
            },
    {
        let folder: Option<usize> = plan.folder_of_route(row.route_id.as_str());
        match folder {
            Some(folder) => {
                self.trips.insert(row.trip_id.clone(), folder);
                self.needs[folder].add_trip(row);
            },
            None => {},
        }
        assert(self@ =~= old(self)@.with_trip(plan@, row@));
        folder
    }

    /// The folder of a trip, which is also that of its rows of `frequencies.txt`.
    pub fn folder_of_trip(&self, trip: &str) -> (folder: Option<usize>)
        requires
            self.wf(),
        ensures
            match folder {
                Some(folder) => folder < self@.needs.len() && self@.folder_of_trip(trip@) == Some(
                    folder as int,
                ),
                None => self@.folder_of_trip(trip@) is None,
            },
            match folder {
                Some(folder) => self@.trips.contains_key(trip@) && self@.trips[trip@] == folder,
                None => !self@.trips.contains_key(trip@),
            },
    {
        match self.trips.get(trip) {
            Some(folder) => {
                assert(self@.trips.contains_key(trip@));
                Some(*folder)
            },
            None => None,
        }
    }

    /// Splits a row of `stop_times.txt`: takes it in and tells its folder.
    pub fn split_stop_time(&mut self, row: &StopTimeRow) -> (folder: Option<usize>)
        requires
            old(self).wf(),
        ensures
            final(self).wf(),
            final(self)@ == old(self)@.with_stop_time(row@),
            match folder {
                Some(folder) => folder < old(self)@.needs.len() && old(self)@.folder_of_trip(
                    row@.trip_id,
                ) == Some(folder as int),
                None => old(self)@.folder_of_trip(row@.trip_id) is None,
            },
            final(self)@.trips == old(self)@.trips,
            final(self)@.needs.len() == old(self)@.needs.len(),
            folder is Some <==> old(self)@.trips.contains_key(row.trip_id@),
            folder is None ==> final(self)@ == old(self)@,
            folder matches Some(folder) ==> {
                let before = old(self)@.needs[folder as int];
                let after = final(self)@.needs[folder as int];
                &&& folder == old(self)@.trips[row.trip_id@]
                &&& after.stops == before.stops.insert(row.stop_id@)
                &&& after.services == before.services
                &&& after.shapes == before.shapes
                &&& after.levels == before.levels
                &&& forall|other: int|
                    0 <= other < old(self)@.needs.len() && other != folder
                        ==> #[trigger] final(self)@.needs[other] == old(self)@.needs[other]
            },
    {
        let folder: Option<usize> = self.folder_of_trip(row.trip_id.as_str());
        match folder {
            Some(folder) => {
                self.needs[folder].add_stop(row.stop_id.as_str());
            },
            None => {},
        }
        assert(self@ =~= old(self)@.with_stop_time(row@));
        folder
    }

    /// Decides whether the way to the parent stations ends for each stop that a folder needs.
    pub fn chains_are_finite(&self, stops: &StopTable) -> (finite: bool)
        requires
            self.wf(),
            stops.wf(),
        ensures
            finite == self@.chains_end(stops@),
            finite <==> forall|folder: int, stop: Seq<char>|
                0 <= folder < self@.needs.len() && #[trigger] self@.needs[folder].stops.contains(
                    stop,
                ) ==> chain_ends(stops@, stop),
    {
        let mut folder: usize = 0;
        while folder < self.needs.len()
            invariant
                stops.wf(),
                folder <= self.needs@.len(),
                forall|k: int, stop: Seq<char>|
                    0 <= k < folder && #[trigger] self@.needs[k].stops.contains(stop)
                        ==> chain_ends(stops@, stop),
            decreases self.needs@.len() - folder,
        {
            let listed: &NameList = &self.needs[folder].stops;
            if !stops.chains_are_finite(listed) {
                proof {
                    let stop = choose|stop: Seq<char>|
                        #[trigger] listed@.contains(stop) && !chain_ends(stops@, stop);
                    assert(self@.needs[folder as int].stops.contains(stop));
                }
                return false;
            }
            assert forall|stop: Seq<char>| #[trigger]
                self@.needs[folder as int].stops.contains(stop) implies chain_ends(stops@, stop) by {
                assert(listed@.contains(stop));
            }
            folder += 1;
        }
        true
    }

    /// Adds in each folder the stations that are reached from the stops it needs.
    pub fn add_parents(&mut self, stops: &StopTable)
        requires
            old(self).wf(),
            old(self)@.chains_end(stops@),
        ensures
            final(self).wf(),
            final(self)@ == old(self)@.with_parents(stops@),
            final(self)@.trips == old(self)@.trips,
            final(self)@.needs.len() == old(self)@.needs.len(),
            forall|folder: int|
                0 <= folder < old(self)@.needs.len() ==> {
                    let before = old(self)@.needs[folder];
                    let after = #[trigger] final(self)@.needs[folder];
                    &&& after.services == before.services
                    &&& after.shapes == before.shapes
                    &&& after.levels == before.levels
                    &&& after.stops == with_parents(stops@, before.stops)
                },
    {
        let mut folder: usize = 0;
        while folder < self.needs.len()
            invariant
                old(self)@.chains_end(stops@),
                folder <= self.needs@.len(),
                self.needs@.len() == old(self).needs@.len(),
                self.trips == old(self).trips,
                forall|k: int|
                    0 <= k < self.needs@.len() ==> (#[trigger] self.needs@[k]).wf(),
                forall|k: int|
                    0 <= k < folder ==> (#[trigger] self.needs@[k])@
                        == old(self).needs@[k]@.with_parents(stops@),
                forall|k: int|
                    folder <= k < self.needs@.len() ==> #[trigger] self.needs@[k]
                        == old(self).needs@[k],
            decreases self.needs@.len() - folder,
        {
            assert forall|stop: Seq<char>| #[trigger]
                self.needs@[folder as int]@.stops.contains(stop) implies chain_ends(
                stops@,
                stop,
            ) by {
                assert(old(self)@.needs[folder as int].stops.contains(stop));
            }
            self.needs[folder].add_parents(stops);
            folder += 1;
        }
        assert(self@ =~= old(self)@.with_parents(stops@));
        assert(self@.wf()) by {
            assert(old(self)@.wf());
        }
    }

    /// How many stops a folder needs.
    pub fn stop_count(&self, folder: usize) -> (count: usize)
        requires
            self.wf(),
            folder < self@.needs.len(),
        ensures
            count == self@.needs[folder as int].stops.len(),
    {
        proof {
            self.needs@[folder as int].stops.lemma_distinct();
            self.needs@[folder as int].stops@.unique_seq_to_set();
        }
        self.needs[folder].stops.len()
    }

    /// Splits a row of `stops.txt`: takes in its level and tells its folders, which are those that
    /// need the stop.
    pub fn split_stop(&mut self, row: &StopRow) -> (folders: Vec<usize>)
        requires
            old(self).wf(),
        ensures
            final(self).wf(),
            final(self)@ == old(self)@.with_stop(row@),
            selects(
                folders@,
                old(self)@.needs.len(),
                |folder: int| old(self)@.needs[folder].stops.contains(row@.stop_id),
            ),
            final(self)@.trips == old(self)@.trips,
            final(self)@.needs.len() == old(self)@.needs.len(),
            forall|folder: int|
                0 <= folder < old(self)@.needs.len() ==> {
                    let before = old(self)@.needs[folder];
                    let after = #[trigger] final(self)@.needs[folder];
                    &&& after.services == before.services
                    &&& after.shapes == before.shapes
                    &&& after.stops == before.stops
                    &&& match nonblank(text_of(row.level_id)) {
                        Some(level) => after.levels == if before.stops.contains(row.stop_id@) {
                            before.levels.insert(level)
                        } else {
                            before.levels
                        },
                        None => after.levels == before.levels,
                    }
                },
            forall|i: int, j: int|
                0 <= i < j < folders@.len() ==> #[trigger] folders@[i] < #[trigger] folders@[j],
            forall|folder: usize| #[trigger]
                folders@.contains(folder) <==> folder < old(self)@.needs.len()
                    && old(self)@.needs[folder as int].stops.contains(row.stop_id@),
    {
        let ghost model = self@;
        let ghost wanted = |folder: int| model.needs[folder].stops.contains(row@.stop_id);
        let mut folders: Vec<usize> = Vec::new();
        let mut folder: usize = 0;
        while folder < self.needs.len()
            invariant
                model == old(self)@,
                wanted == (|folder: int| model.needs[folder].stops.contains(row@.stop_id)),
                folder <= self.needs@.len(),
                self.needs@.len() == model.needs.len(),
                self.trips == old(self).trips,
                forall|k: int| 0 <= k < self.needs@.len() ==> (#[trigger] self.needs@[k]).wf(),
                forall|k: int|
                    0 <= k < folder ==> (#[trigger] self.needs@[k])@ == model.with_stop(
                        row@,
                    ).needs[k],
                forall|k: int|
                    folder <= k < self.needs@.len() ==> (#[trigger] self.needs@[k])@
                        == model.needs[k],
                selects(folders@, folder as nat, wanted),
            decreases self.needs@.len() - folder,
        {
            let ghost before = folders@;
            assert(self.needs@[folder as int]@ == model.needs[folder as int]);
            if self.needs[folder].stops.contains(row.stop_id.as_str()) {
                folders.push(folder);
                self.needs[folder].add_level_of(row);
            }
            proof {
                lemma_selects_next(before, folders@, folder as nat, wanted);
            }
            folder += 1;
        }
        assert(self@ =~= model.with_stop(row@));
        proof {
            law_selected_folders_are_the_wanted_ones(folders@, model.needs.len(), wanted);
        }
        assert(self@.wf()) by {
            assert(model.wf());
        }
        folders
    }

    /// The folders of a row of `calendar.txt` or `calendar_dates.txt`: those that need the service.
    pub fn folders_of_service(&self, service: &str) -> (folders: Vec<usize>)
        requires
            self.wf(),
        ensures
            selects(
                folders@,
                self@.needs.len(),
                |folder: int| self@.needs[folder].services.contains(service@),
            ),
            forall|i: int, j: int|
                0 <= i < j < folders@.len() ==> #[trigger] folders@[i] < #[trigger] folders@[j],
            forall|folder: usize| #[trigger]
                folders@.contains(folder) <==> folder < self@.needs.len()
                    && self@.needs[folder as int].services.contains(service@),
    {
        let ghost wanted = |folder: int| self@.needs[folder].services.contains(service@);
        let mut folders: Vec<usize> = Vec::new();
        let mut folder: usize = 0;
        while folder < self.needs.len()
            invariant
                self.wf(),
                folder <= self.needs@.len(),
                wanted == (|folder: int| self@.needs[folder].services.contains(service@)),
                selects(folders@, folder as nat, wanted),
            decreases self.needs@.len() - folder,
        {
            let ghost before = folders@;
            if self.needs[folder].services.contains(service) {
                folders.push(folder);
            }
            proof {
                lemma_selects_next(before, folders@, folder as nat, wanted);
            }
            folder += 1;
        }
        proof {
            law_selected_folders_are_the_wanted_ones(folders@, self@.needs.len(), wanted);
        }
        folders
    }

    /// The folders of a row of `shapes.txt`: those that need the shape.
    pub fn folders_of_shape(&self, shape: &str) -> (folders: Vec<usize>)
        requires
            self.wf(),
        ensures
            selects(
                folders@,
                self@.needs.len(),
                |folder: int| self@.needs[folder].shapes.contains(shape@),
            ),
            forall|i: int, j: int|
                0 <= i < j < folders@.len() ==> #[trigger] folders@[i] < #[trigger] folders@[j],
            forall|folder: usize| #[trigger]
                folders@.contains(folder) <==> folder < self@.needs.len()
                    && self@.needs[folder as int].shapes.contains(shape@),
    {
        let ghost wanted = |folder: int| self@.needs[folder].shapes.contains(shape@);
        let mut folders: Vec<usize> = Vec::new();
        let mut folder: usize = 0;
        while folder < self.needs.len()
            invariant
                self.wf(),
                folder <= self.needs@.len(),
                wanted == (|folder: int| self@.needs[folder].shapes.contains(shape@)),
                selects(folders@, folder as nat, wanted),
            decreases self.needs@.len() - folder,
        {
            let ghost before = folders@;
            if self.needs[folder].shapes.contains(shape) {
                folders.push(folder);
            }
            proof {
                lemma_selects_next(before, folders@, folder as nat, wanted);
            }
            folder += 1;
        }
        proof {
            law_selected_folders_are_the_wanted_ones(folders@, self@.needs.len(), wanted);
        }
        folders
    }

    /// The folders of a row of `levels.txt`: those that need the level.
    pub fn folders_of_level(&self, level: &str) -> (folders: Vec<usize>)
        requires
            self.wf(),
        ensures
            selects(
                folders@,
                self@.needs.len(),
                |folder: int| self@.needs[folder].levels.contains(level@),
            ),
            forall|i: int, j: int|
                0 <= i < j < folders@.len() ==> #[trigger] folders@[i] < #[trigger] folders@[j],
            forall|folder: usize| #[trigger]
                folders@.contains(folder) <==> folder < self@.needs.len()
                    && self@.needs[folder as int].levels.contains(level@),
    {
        let ghost wanted = |folder: int| self@.needs[folder].levels.contains(level@);
        let mut folders: Vec<usize> = Vec::new();
        let mut folder: usize = 0;
        while folder < self.needs.len()
            invariant
                self.wf(),
                folder <= self.needs@.len(),
                wanted == (|folder: int| self@.needs[folder].levels.contains(level@)),
                selects(folders@, folder as nat, wanted),
            decreases self.needs@.len() - folder,
        {
            let ghost before = folders@;
            if self.needs[folder].levels.contains(level) {
                folders.push(folder);
            }
            proof {
                lemma_selects_next(before, folders@, folder as nat, wanted);
            }
            folder += 1;
        }
        proof {
            law_selected_folders_are_the_wanted_ones(folders@, self@.needs.len(), wanted);
        }
        folders
    }

    /// The folders of a row of `transfers.txt` or `pathways.txt`: those that need both its stops.
    pub fn folders_of_stop_pair(&self, from_stop: &str, to_stop: &str) -> (folders: Vec<usize>)
        requires
            self.wf(),
        ensures
            selects(
                folders@,
                self@.needs.len(),
                |folder: int|
                    self@.needs[folder].stops.contains(from_stop@)
                        && self@.needs[folder].stops.contains(to_stop@),
            ),
            forall|i: int, j: int|
                0 <= i < j < folders@.len() ==> #[trigger] folders@[i] < #[trigger] folders@[j],
            forall|folder: usize| #[trigger]
                folders@.contains(folder) <==> folder < self@.needs.len()
                    && self@.needs[folder as int].stops.contains(from_stop@)
                    && self@.needs[folder as int].stops.contains(to_stop@),
    {
        let ghost wanted = |folder: int|
            self@.needs[folder].stops.contains(from_stop@) && self@.needs[folder].stops.contains(
                to_stop@,
            );
        let mut folders: Vec<usize> = Vec::new();
        let mut folder: usize = 0;
        while folder < self.needs.len()
            invariant
                self.wf(),
                folder <= self.needs@.len(),
                wanted == (|folder: int|
                    self@.needs[folder].stops.contains(from_stop@)
                        && self@.needs[folder].stops.contains(to_stop@)),
                selects(folders@, folder as nat, wanted),
            decreases self.needs@.len() - folder,
        {
            let ghost before = folders@;
            let listed: &NameList = &self.needs[folder].stops;
            if listed.contains(from_stop) && listed.contains(to_stop) {
                folders.push(folder);
            }
            proof {
                lemma_selects_next(before, folders@, folder as nat, wanted);
            }
            folder += 1;
        }
        proof {
            law_selected_folders_are_the_wanted_ones(folders@, self@.needs.len(), wanted);
        }
        folders
    }
}

/// Going on from the folders below `count` to the next one.
proof fn lemma_selects_next(
    before: Seq<usize>,
    after: Seq<usize>,
    count: nat,
    wanted: spec_fn(int) -> bool,
)
    requires
        selects(before, count, wanted),
        count <= usize::MAX,
        after == (if wanted(count as int) {
            before.push(count as usize)
        } else {
            before
        }),
    ensures
        selects(after, count + 1, wanted),
{
    assert forall|folder: int| 0 <= folder < count + 1 && #[trigger] wanted(
        folder,
    ) implies after.contains(folder as usize) by {
        if folder < count {
            let at = choose|at: int| 0 <= at < before.len() && before[at] == folder as usize;
            assert(after[at] == folder as usize);
        } else {
            assert(after[before.len() as int] == folder as usize);
        }
    }
}

/// The folders selected are the wanted ones, each of them once and in ascending order.
pub proof fn law_selected_folders_are_the_wanted_ones(
    list: Seq<usize>,
    count: nat,
    wanted: spec_fn(int) -> bool,
)
    requires
        selects(list, count, wanted),
        count <= usize::MAX,
    ensures
        forall|i: int, j: int| 0 <= i < j < list.len() ==> #[trigger] list[i] < #[trigger] list[j],
        forall|folder: usize| #[trigger]
            list.contains(folder) <==> folder < count && wanted(folder as int),
{
    assert forall|folder: usize| #[trigger] list.contains(folder) <==> folder < count && wanted(
        folder as int,
    ) by {
        if list.contains(folder) {
            let at = choose|at: int| 0 <= at < list.len() && list[at] == folder;
            assert(list[at] < count && wanted(list[at] as int));
        }
    }
}

/// A trip goes to a folder exactly if a row of it was sent there last.
pub proof fn law_trip_has_one_folder(split: SplitModel, trip: Seq<char>, folder: int)
    ensures
        split.folder_of_trip(trip) == Some(folder) <==> split.trips.contains_key(trip)
            && split.trips[trip] == folder,
        split.folder_of_trip(trip) is None <==> !split.trips.contains_key(trip),
{
}

/// A row of `trips.txt` whose route and agency are known sends its trip to the folder of the
/// agency, which then needs the trip's service and shape.
pub proof fn law_trip_row_goes_to_the_folder_of_its_agency(
    split: SplitModel,
    plan: PlanModel,
    row: TripRecord,
    place: int,
    other: int,
)
    requires
        plan.wf(),
        split.needs.len() == plan.folders.len(),
        plan.routes.contains_key(row.route_id),
        0 <= place < plan.order.len(),
        plan.order[place] == plan.routes[row.route_id],
    ensures
        ({
            let folder = plan.targets[place % 0x1_0000];
            let after = split.with_trip(plan, row);
            &&& 0 <= folder < split.needs.len()
            &&& after.trips == split.trips.insert(row.trip_id, folder)
            &&& after.folder_of_trip(row.trip_id) == Some(folder)
            &&& after.needs.len() == split.needs.len()
            &&& after.needs[folder].services == split.needs[folder].services.insert(row.service_id)
            &&& nonblank(row.shape_id) is None ==> after.needs[folder].shapes
                == split.needs[folder].shapes
            &&& nonblank(row.shape_id) matches Some(shape) ==> after.needs[folder].shapes
                == split.needs[folder].shapes.insert(shape)
            &&& after.needs[folder].stops == split.needs[folder].stops
            &&& after.needs[folder].levels == split.needs[folder].levels
            &&& 0 <= other < split.needs.len() && other != folder ==> after.needs[other]
                == split.needs[other]
        }),
{
    crate::agencies::law_places_are_numbered(plan.order, plan.routes[row.route_id], place);
    assert(0 <= plan.targets[place % 0x1_0000] < plan.folders.len());
}

/// A row of `trips.txt` whose route or agency is not known changes nothing.
pub proof fn law_trip_row_of_no_agency_goes_nowhere(
    split: SplitModel,
    plan: PlanModel,
    row: TripRecord,
)
    requires
        !plan.routes.contains_key(row.route_id) || !plan.order.contains(plan.routes[row.route_id]),
    ensures
        split.with_trip(plan, row) == split,
{
}

/// A stop time whose trip goes to a folder goes there too, and the folder then needs its stop.  Any
/// other stop time changes nothing.
pub proof fn law_stop_time_goes_with_its_trip(split: SplitModel, row: StopTimeRecord, other: int)
    requires
        split.wf(),
    ensures
        split.with_stop_time(row).trips == split.trips,
        split.with_stop_time(row).needs.len() == split.needs.len(),
        !split.trips.contains_key(row.trip_id) ==> split.with_stop_time(row) == split,
        split.trips.contains_key(row.trip_id) ==> {
            let folder = split.trips[row.trip_id];
            let after = split.with_stop_time(row).needs;
            &&& split.folder_of_trip(row.trip_id) == Some(folder)
            &&& after[folder].stops == split.needs[folder].stops.insert(row.stop_id)
            &&& after[folder].services == split.needs[folder].services
            &&& after[folder].shapes == split.needs[folder].shapes
            &&& after[folder].levels == split.needs[folder].levels
            &&& 0 <= other < split.needs.len() && other != folder ==> after[other]
                == split.needs[other]
        },
{
}

/// A row of `stops.txt` adds its level where the stop is needed, and changes nothing else.
pub proof fn law_stop_adds_its_level_where_it_is_needed(
    split: SplitModel,
    row: StopRecord,
    folder: int,
    level: Seq<char>,
)
    requires
        0 <= folder < split.needs.len(),
    ensures
        split.with_stop(row).trips == split.trips,
        split.with_stop(row).needs.len() == split.needs.len(),
        split.with_stop(row).needs[folder].services == split.needs[folder].services,
        split.with_stop(row).needs[folder].shapes == split.needs[folder].shapes,
        split.with_stop(row).needs[folder].stops == split.needs[folder].stops,
        split.with_stop(row).needs[folder].levels.contains(level) <==> {
            ||| split.needs[folder].levels.contains(level)
            ||| split.needs[folder].stops.contains(row.stop_id) && nonblank(row.level_id) == Some(
                level,
            )
        },
{
}

/// Adding parent stations changes the stops of the folders, and nothing else.
pub proof fn law_parents_are_added_in_every_folder(
    split: SplitModel,
    stops: Map<Seq<char>, StopFacts>,
    folder: int,
)
    requires
        0 <= folder < split.needs.len(),
    ensures
        split.with_parents(stops).trips == split.trips,
        split.with_parents(stops).needs.len() == split.needs.len(),
        split.with_parents(stops).needs[folder].stops == with_parents(
            stops,
            split.needs[folder].stops,
        ),
        split.with_parents(stops).needs[folder].services == split.needs[folder].services,
        split.with_parents(stops).needs[folder].shapes == split.needs[folder].shapes,
        split.with_parents(stops).needs[folder].levels == split.needs[folder].levels,
{
}

/// A split starts with no trips and no needs.
pub proof fn law_split_starts_empty(folders: nat, folder: int)
    requires
        0 <= folder < folders,
    ensures
        SplitModel::start(folders).trips == Map::<Seq<char>, int>::empty(),
        SplitModel::start(folders).needs.len() == folders,
        SplitModel::start(folders).needs[folder].services == Set::<Seq<char>>::empty(),
        SplitModel::start(folders).needs[folder].shapes == Set::<Seq<char>>::empty(),
        SplitModel::start(folders).needs[folder].stops == Set::<Seq<char>>::empty(),
        SplitModel::start(folders).needs[folder].levels == Set::<Seq<char>>::empty(),
{
}

} // verus!
