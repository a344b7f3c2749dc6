//! Which folder each agency goes to.

use crate::agencies::{slot_count, slot_of, slot_of_route, AgencyFacts, AgencyIndex, RouteTable};
use crate::names::NameList;
use crate::survey::{only_state, Survey};
use vstd::prelude::*;

verus! {

/// The folder of an agency: the railway's own, that of the only state in which the agency stops,
/// or the common one.
pub open spec fn target_folder(is_db: bool, states: Set<Option<Seq<char>>>) -> Seq<char> {
    if is_db {
        "deutsche_bahn"@
    } else {
        match only_state(states) {
            Some(state) => state,
            None => "other"@,
        }
    }
}

/// The folder for each agency number, after the states that were seen.
pub open spec fn target_names(
    order: Seq<Seq<char>>,
    facts: Map<Seq<char>, AgencyFacts>,
    seen: Seq<Set<Option<Seq<char>>>>,
) -> Seq<Seq<char>> {
    Seq::new(seen.len(), |slot: int| target_folder(facts[order[slot]].is_db, seen[slot]))
}

/// The different names, in the order in which they first occur.
pub open spec fn distinct(names: Seq<Seq<char>>) -> Seq<Seq<char>>
    decreases names.len(),
{
    if names.len() == 0 {
        Seq::empty()
    } else {
        let before = distinct(names.drop_last());
        if before.contains(names.last()) {
            before
        } else {
            before.push(names.last())
        }
    }
}

/// How often a folder occurs among the targets.
pub open spec fn occurrences(targets: Seq<int>, folder: int) -> nat
    decreases targets.len(),
{
    if targets.len() == 0 {
        0
    } else {
        occurrences(targets.drop_last(), folder) + if targets.last() == folder {
            1nat
        } else {
            0nat
        }
    }
}

/// The agencies in order, the agencies of the routes, the folders, and for each agency number the
/// place of its folder.
#[verifier::ext_equal]
pub struct PlanModel {
    pub order: Seq<Seq<char>>,
    pub routes: Map<Seq<char>, Seq<char>>,
    pub folders: Seq<Seq<char>>,
    pub targets: Seq<int>,
}

impl PlanModel {
    /// The plan for the given agencies, routes and states seen.
    pub open spec fn of(
        order: Seq<Seq<char>>,
        facts: Map<Seq<char>, AgencyFacts>,
        routes: Map<Seq<char>, Seq<char>>,
        seen: Seq<Set<Option<Seq<char>>>>,
    ) -> PlanModel {
        let names = target_names(order, facts, seen);
        let folders = distinct(names);
        PlanModel {
            order,
            routes,
            folders,
            targets: Seq::new(names.len(), |slot: int| folders.index_of(names[slot])),
        }
    }

    /// Whether there is a target for each agency number, and the folders are distinct.
    pub open spec fn wf(self) -> bool {
        &&& self.order.no_duplicates()
        &&& self.folders.no_duplicates()
        &&& self.targets.len() == slot_count(self.order)
        &&& forall|slot: int|
            0 <= slot < self.targets.len() ==> 0 <= #[trigger] self.targets[slot]
                < self.folders.len()
    }

    /// The folder of an agency's rows, if the agency is known.
    pub open spec fn folder_of_agency(self, agency: Seq<char>) -> Option<int> {
        match slot_of(self.order, agency) {
            Some(slot) => Some(self.targets[slot as int]),
            None => None,
        }
    }

    /// The folder of a route's trips, if the route and the agency that runs it are known.
    pub open spec fn folder_of_route(self, route: Seq<char>) -> Option<int> {
        match slot_of_route(self.order, self.routes, route) {
            Some(slot) => Some(self.targets[slot as int]),
            None => None,
        }
    }
}

/// The plan after which the rows are split.
pub struct Plan {
    agencies: AgencyIndex,
    routes: RouteTable,
    folders: NameList,
    targets: Vec<usize>,
}

impl View for Plan {
    type V = PlanModel;

    closed spec fn view(&self) -> PlanModel {
        PlanModel {
            order: self.agencies.order(),
            routes: self.routes@,
            folders: self.folders@,
            targets: Seq::new(self.targets@.len(), |slot: int| self.targets@[slot] as int),
        }
    }
}

impl Plan {
    pub closed spec fn wf(self) -> bool {
        &&& self.agencies.wf()
        &&& self.folders.wf()
        &&& self@.wf()
    }

    /// A plan has a target for each agency number, and distinct folders.
    pub proof fn lemma_wf(self)
        requires
            self.wf(),
        ensures
            self@.wf(),
    {
    }

    /// Decides where the agencies go, after the states in which they were seen to stop.
    pub fn decide(agencies: AgencyIndex, routes: RouteTable, survey: &Survey) -> (plan: Plan)
        requires
            agencies.wf(),
            survey.wf(),
            survey@.seen.len() == slot_count(agencies.order()),
        ensures
            plan.wf(),
            plan@ == PlanModel::of(agencies.order(), agencies.facts(), routes@, survey@.seen),
            plan@.order == agencies.order(),
            plan@.routes == routes@,
            plan@.targets.len() == survey@.seen.len(),
            plan@.folders.no_duplicates(),
            forall|slot: int|
                0 <= slot < survey@.seen.len() ==> {
                    let is_db = agencies.facts()[agencies.order()[slot]].is_db;
                    let seen = survey@.seen[slot];
                    let target = #[trigger] plan@.targets[slot];
                    &&& 0 <= target < plan@.folders.len()
                    &&& is_db ==> plan@.folders[target] == "deutsche_bahn"@
                    &&& forall|state: Seq<char>|
                        !is_db && seen == #[trigger] Set::<Option<Seq<char>>>::empty().insert(
                            Some(state),
                        ) ==> plan@.folders[target] == state
                    &&& !is_db && (forall|state: Seq<char>|
                        seen != #[trigger] Set::<Option<Seq<char>>>::empty().insert(Some(state)))
                        ==> plan@.folders[target] == "other"@
                },
            forall|folder: int|
                0 <= folder < plan@.folders.len() ==> #[trigger] plan@.targets.contains(folder),
    {
        let ghost names = target_names(agencies.order(), agencies.facts(), survey@.seen);
        let mut folders: NameList = NameList::new();
        let mut targets: Vec<usize> = Vec::new();
        let slots: usize = agencies.slots();
        let mut slot: usize = 0;
        assert(names.take(0) =~= Seq::<Seq<char>>::empty());
        while slot < slots
            invariant
                agencies.wf(),
                survey.wf(),
                slots == slot_count(agencies.order()),
                survey@.seen.len() == slots,
                names == target_names(agencies.order(), agencies.facts(), survey@.seen),
                slot <= slots,
                folders.wf(),
                folders@ == distinct(names.take(slot as int)),
                targets.len() == slot,
                forall|k: int|
                    0 <= k < slot ==> #[trigger] targets@[k] < folders@.len()
                        && folders@[targets@[k] as int] == names[k],
            decreases slots - slot,
        {
            let name: String = if agencies.is_railway(slot) {
                "deutsche_bahn".to_owned()
            } else {
                match survey.only_state(slot) {
                    Some(state) => state.clone(),
                    None => "other".to_owned(),
                }
            };
            assert(name@ == names[slot as int]);
            assert(names.take(slot + 1).drop_last() =~= names.take(slot as int));
            let ghost before = folders@;
            let target: usize = folders.intern(name.as_str());
            assert(before.is_prefix_of(folders@));
            targets.push(target);
            slot += 1;
        }
        assert(names.take(slot as int) =~= names);
        let plan = Plan { agencies, routes, folders, targets };
        proof {
            agencies.lemma_order();
            folders.lemma_distinct();
            assert forall|k: int| 0 <= k < names.len() implies #[trigger] plan@.targets[k]
                == folders@.index_of(names[k]) by {
                assert(folders@[targets@[k] as int] == names[k]);
                assert(folders@.contains(names[k]));
            }
            assert(plan@ =~= PlanModel::of(
                agencies.order(),
                agencies.facts(),
                routes@,
                survey@.seen,
            ));
            law_plan_follows_targets(agencies.order(), agencies.facts(), routes@, survey@.seen);
            assert forall|slot: int| 0 <= slot < survey@.seen.len() implies {
                let is_db = agencies.facts()[agencies.order()[slot]].is_db;
                let seen = survey@.seen[slot];
                let target = #[trigger] plan@.targets[slot];
                &&& 0 <= target < plan@.folders.len()
                &&& is_db ==> plan@.folders[target] == "deutsche_bahn"@
                &&& forall|state: Seq<char>|
                    !is_db && seen == #[trigger] Set::<Option<Seq<char>>>::empty().insert(
                        Some(state),
                    ) ==> plan@.folders[target] == state
                &&& !is_db && (forall|state: Seq<char>|
                    seen != #[trigger] Set::<Option<Seq<char>>>::empty().insert(Some(state)))
                    ==> plan@.folders[target] == "other"@
            } by {
                law_target_is_the_folder_of_the_only_state(
                    agencies.facts()[agencies.order()[slot]].is_db,
                    survey@.seen[slot],
                );
            }
        }
        plan
    }

    /// How many folders there are.
    pub fn folder_count(&self) -> (count: usize)
        ensures
            count == self@.folders.len(),
    {
        self.folders.len()
    }

    /// The name of a folder.
    pub fn folder_name(&self, folder: usize) -> (name: &String)
        requires
            folder < self@.folders.len(),
        ensures
            name@ == self@.folders[folder as int],
    {
        self.folders.name(folder)
    }

    /// How many agency numbers go to a folder.
    pub fn agencies_in(&self, folder: usize) -> (count: usize)
        ensures
            count == occurrences(self@.targets, folder as int),
            count == Set::<int>::new(
                |slot: int| 0 <= slot < self@.targets.len() && self@.targets[slot] == folder,
            ).len(),
    {
        let ghost targets = self@.targets;
        let mut count: usize = 0;
        let mut slot: usize = 0;
        assert(targets.take(0) =~= Seq::<int>::empty());
        while slot < self.targets.len()
            invariant
                slot <= self.targets.len(),
                targets == self@.targets,
                count <= slot,
                count == occurrences(targets.take(slot as int), folder as int),
            decreases self.targets.len() - slot,
        {
            assert(targets.take(slot + 1).drop_last() =~= targets.take(slot as int));
            assert(targets.take(slot + 1).last() == self.targets@[slot as int]);
            if self.targets[slot] == folder {
                count += 1;
            }
            slot += 1;
        }
        assert(targets.take(slot as int) =~= targets);
        proof {
            law_occurrences_are_counted(targets, folder as int);
            assert(Set::<int>::new(
                |slot: int| 0 <= slot < self@.targets.len() && self@.targets[slot] == folder,
            ) =~= Set::<int>::new(
                |slot: int| 0 <= slot < targets.len() && targets[slot] == folder as int,
            ));
        }
        count
    }

    fn target(&self, slot: Option<u16>) -> (folder: Option<usize>)
        requires
            slot matches Some(slot) ==> slot < self@.targets.len(),
        ensures
            match (slot, folder) {
                (Some(slot), Some(folder)) => folder == self@.targets[slot as int],
                (None, None) => true,
                _ => false,
            },
    {
        match slot {
            Some(slot) => Some(self.targets[slot as usize]),
            None => None,
        }
    }

    /// The folder of a row of `agency.txt` or `routes.txt`, by its agency.
    pub fn folder_of_agency(&self, agency: &str) -> (folder: Option<usize>)
        requires
            self.wf(),
        ensures
            match folder {
                Some(folder) => folder < self@.folders.len() && self@.folder_of_agency(agency@)
                    == Some(folder as int),
                None => self@.folder_of_agency(agency@) is None,
            },
            folder is Some <==> self@.order.contains(agency@),
            forall|k: int|
                0 <= k < self@.order.len() && #[trigger] self@.order[k] == agency@ ==> folder
                    is Some && folder->0 == self@.targets[k % 0x1_0000],
    {
        proof {
            lemma_slot_in_use(self@.order, agency@);
        }
        self.target(self.agencies.slot(agency))
    }

    /// The folder of a row of `trips.txt`, by its route.
    pub fn folder_of_route(&self, route: &str) -> (folder: Option<usize>)
        requires
            self.wf(),
        ensures
            match folder {
                Some(folder) => folder < self@.folders.len() && self@.folder_of_route(route@)
                    == Some(folder as int),
                None => self@.folder_of_route(route@) is None,
            },
            folder is Some <==> self@.routes.contains_key(route@) && self@.order.contains(
                self@.routes[route@],
            ),
            forall|k: int|
                0 <= k < self@.order.len() && self@.routes.contains_key(route@)
                    && #[trigger] self@.order[k] == self@.routes[route@] ==> folder is Some
                    && folder->0 == self@.targets[k % 0x1_0000],
    {
        proof {
            if self@.routes.contains_key(route@) {
                lemma_slot_in_use(self@.order, self@.routes[route@]);
            }
        }
        self.target(self.routes.slot(&self.agencies, route))
    }
}

/// The number of a known agency is in use.
pub proof fn lemma_slot_in_use(order: Seq<Seq<char>>, agency: Seq<char>)
    ensures
        slot_of(order, agency) matches Some(slot) ==> slot < slot_count(order),
{
    if order.contains(agency) {
        assert(order[order.index_of(agency)] == agency);
    }
}

/// The distinct names are the names, each of them once.
pub proof fn law_distinct_names(names: Seq<Seq<char>>)
    ensures
        distinct(names).no_duplicates(),
        forall|name: Seq<char>| #[trigger]
            distinct(names).contains(name) <==> names.contains(name),
    decreases names.len(),
{
    if names.len() > 0 {
        let fewer = names.drop_last();
        law_distinct_names(fewer);
        let before = distinct(fewer);
        let after = distinct(names);
        crate::names::lemma_interned(before, after, names.last());
        assert forall|name: Seq<char>| #[trigger] after.contains(name) <==> names.contains(
            name,
        ) by {
            if fewer.contains(name) {
                let at = choose|at: int| 0 <= at < fewer.len() && fewer[at] == name;
                assert(names[at] == name);
            }
            if names.contains(name) {
                let at = choose|at: int| 0 <= at < names.len() && names[at] == name;
                if at < fewer.len() {
                    assert(fewer[at] == name);
                }
            }
            assert(names[names.len() - 1] == names.last());
        }
    }
}

/// A plan sends each agency number to the folder that its agency asks for, and has no other
/// folders.
pub proof fn law_plan_follows_targets(
    order: Seq<Seq<char>>,
    facts: Map<Seq<char>, AgencyFacts>,
    routes: Map<Seq<char>, Seq<char>>,
    seen: Seq<Set<Option<Seq<char>>>>,
)
    requires
        order.no_duplicates(),
        seen.len() == slot_count(order),
    ensures
        PlanModel::of(order, facts, routes, seen).wf(),
        forall|slot: int|
            0 <= slot < seen.len() ==> PlanModel::of(
                order,
                facts,
                routes,
                seen,
            ).folders[#[trigger] PlanModel::of(order, facts, routes, seen).targets[slot]]
                == target_folder(facts[order[slot]].is_db, seen[slot]),
        forall|folder: int|
            0 <= folder < PlanModel::of(order, facts, routes, seen).folders.len()
                ==> #[trigger] PlanModel::of(order, facts, routes, seen).targets.contains(folder),
{
    let plan = PlanModel::of(order, facts, routes, seen);
    let names = target_names(order, facts, seen);
    law_distinct_names(names);
    assert forall|slot: int| 0 <= slot < seen.len() implies {
        &&& 0 <= #[trigger] plan.targets[slot] < plan.folders.len()
        &&& plan.folders[plan.targets[slot]] == names[slot]
    } by {
        assert(names.contains(names[slot]));
        assert(plan.folders.contains(names[slot]));
    }
    assert forall|folder: int| 0 <= folder < plan.folders.len() implies #[trigger]
        plan.targets.contains(folder) by {
        assert(plan.folders.contains(plan.folders[folder]));
        let slot = choose|slot: int|
            0 <= slot < names.len() && names[slot] == plan.folders[folder];
        assert(plan.folders[plan.targets[slot]] == plan.folders[folder]);
        assert(plan.targets[slot] == folder);
    }
}

/// How many targets are among the first `count` folders.
pub open spec fn total_occurrences(targets: Seq<int>, count: nat) -> nat
    decreases count,
{
    if count == 0 {
        0
    } else {
        total_occurrences(targets, (count - 1) as nat) + occurrences(targets, count - 1)
    }
}

/// The agency numbers of all folders together are all the agency numbers.
pub proof fn law_agencies_add_up(targets: Seq<int>, folders: nat)
    requires
        forall|slot: int| 0 <= slot < targets.len() ==> 0 <= #[trigger] targets[slot] < folders,
    ensures
        total_occurrences(targets, folders) == targets.len(),
    decreases targets.len(),
{
    if targets.len() == 0 {
        lemma_no_targets(targets, folders);
    } else {
        let fewer = targets.drop_last();
        assert forall|slot: int| 0 <= slot < fewer.len() implies 0 <= #[trigger] fewer[slot]
            < folders by {
            assert(0 <= targets[slot] < folders);
        }
        law_agencies_add_up(fewer, folders);
        assert(0 <= targets[targets.len() - 1] < folders);
        lemma_one_more_target(targets, folders);
    }
}

proof fn lemma_no_targets(targets: Seq<int>, count: nat)
    requires
        targets.len() == 0,
    ensures
        total_occurrences(targets, count) == 0,
    decreases count,
{
    if count > 0 {
        lemma_no_targets(targets, (count - 1) as nat);
    }
}

proof fn lemma_one_more_target(targets: Seq<int>, count: nat)
    requires
        targets.len() > 0,
        0 <= targets.last(),
    ensures
        total_occurrences(targets, count) == total_occurrences(targets.drop_last(), count) + (
        if targets.last() < count {
            1int
        } else {
            0int
        }),
    decreases count,
{
    if count > 0 {
        lemma_one_more_target(targets, (count - 1) as nat);
    }
}

/// The railway's agencies have the railway's folder.  Any other agency has the folder of the state
/// in which alone it was seen, and the common folder if there is no such state.
pub proof fn law_target_is_the_folder_of_the_only_state(
    is_db: bool,
    states: Set<Option<Seq<char>>>,
)
    ensures
        is_db ==> target_folder(is_db, states) == "deutsche_bahn"@,
        forall|state: Seq<char>|
            !is_db && states == #[trigger] Set::<Option<Seq<char>>>::empty().insert(Some(state))
                ==> target_folder(is_db, states) == state,
        !is_db && (forall|state: Seq<char>|
            states != #[trigger] Set::<Option<Seq<char>>>::empty().insert(Some(state)))
            ==> target_folder(is_db, states) == "other"@,
{
    assert forall|state: Seq<char>|
        !is_db && states == #[trigger] Set::<Option<Seq<char>>>::empty().insert(
            Some(state),
        ) implies target_folder(is_db, states) == state by {
        assert forall|other: Option<Seq<char>>| #[trigger] states.contains(other) <==> other
            == Some(state) by {}
        crate::survey::law_only_state_is_alone(states, state);
    }
    if forall|state: Seq<char>|
        states != #[trigger] Set::<Option<Seq<char>>>::empty().insert(Some(state)) {
        if only_state(states) is Some {
            let state = only_state(states)->0;
            crate::survey::law_only_state_is_alone(states, state);
            assert(states =~= Set::<Option<Seq<char>>>::empty().insert(Some(state)));
        }
    }
}

/// A plan sends each agency number to one of its folders, and every folder is some number's.  It
/// keeps the order of the agencies and the agencies of the routes.
pub proof fn law_plan_sends_every_number_to_a_folder(
    order: Seq<Seq<char>>,
    facts: Map<Seq<char>, AgencyFacts>,
    routes: Map<Seq<char>, Seq<char>>,
    seen: Seq<Set<Option<Seq<char>>>>,
    slot: int,
    state: Seq<char>,
)
    requires
        order.no_duplicates(),
        seen.len() == slot_count(order),
        0 <= slot < seen.len(),
    ensures
        PlanModel::of(order, facts, routes, seen).order == order,
        PlanModel::of(order, facts, routes, seen).routes == routes,
        PlanModel::of(order, facts, routes, seen).targets.len() == seen.len(),
        PlanModel::of(order, facts, routes, seen).folders.no_duplicates(),
        0 <= PlanModel::of(order, facts, routes, seen).targets[slot] < PlanModel::of(
            order,
            facts,
            routes,
            seen,
        ).folders.len(),
        facts[order[slot]].is_db ==> PlanModel::of(order, facts, routes, seen).folders[PlanModel::of(
            order,
            facts,
            routes,
            seen,
        ).targets[slot]] == "deutsche_bahn"@,
        !facts[order[slot]].is_db && (forall|other: Option<Seq<char>>| #[trigger]
            seen[slot].contains(other) <==> other == Some(state)) ==> PlanModel::of(
            order,
            facts,
            routes,
            seen,
        ).folders[PlanModel::of(order, facts, routes, seen).targets[slot]] == state,
        !facts[order[slot]].is_db && seen[slot].contains(None) ==> PlanModel::of(
            order,
            facts,
            routes,
            seen,
        ).folders[PlanModel::of(order, facts, routes, seen).targets[slot]] == "other"@,
{
    law_plan_follows_targets(order, facts, routes, seen);
    let plan = PlanModel::of(order, facts, routes, seen);
    assert(plan.folders[plan.targets[slot]] == target_folder(
        facts[order[slot]].is_db,
        seen[slot],
    ));
    law_target_is_the_folder_of_the_only_state(facts[order[slot]].is_db, seen[slot]);
    crate::survey::law_only_state_is_alone(seen[slot], state);
}

/// An agency has the folder of its number, and so have the trips of its routes.
pub proof fn law_rows_go_to_the_folder_of_their_agency(
    plan: PlanModel,
    agency: Seq<char>,
    route: Seq<char>,
    place: int,
)
    requires
        plan.order.no_duplicates(),
    ensures
        plan.folder_of_agency(agency) is Some <==> plan.order.contains(agency),
        0 <= place < plan.order.len() && plan.order[place] == agency ==> plan.folder_of_agency(
            agency,
        ) == Some(plan.targets[place % 0x1_0000]),
        plan.routes.contains_key(route) && plan.routes[route] == agency ==> plan.folder_of_route(
            route,
        ) == plan.folder_of_agency(agency),
        !plan.routes.contains_key(route) ==> plan.folder_of_route(route) is None,
{
    crate::agencies::law_places_are_numbered(plan.order, agency, place);
}

/// A folder occurs among the targets as often as there are numbers that go there.
pub proof fn law_occurrences_are_counted(targets: Seq<int>, folder: int)
    ensures
        Set::<int>::new(
            |slot: int| 0 <= slot < targets.len() && targets[slot] == folder,
        ).finite(),
        occurrences(targets, folder) == Set::<int>::new(
            |slot: int| 0 <= slot < targets.len() && targets[slot] == folder,
        ).len(),
    decreases targets.len(),
{
    let slots = Set::<int>::new(
        |slot: int| 0 <= slot < targets.len() && targets[slot] == folder,
    );
    if targets.len() == 0 {
        assert(slots =~= Set::empty());
    } else {
        let fewer = targets.drop_last();
        let last = targets.len() - 1;
        let before = Set::<int>::new(
            |slot: int| 0 <= slot < fewer.len() && fewer[slot] == folder,
        );
        law_occurrences_are_counted(fewer, folder);
        if targets.last() == folder {
            assert(slots =~= before.insert(last));
        } else {
            assert(slots =~= before);
        }
    }
}

} // verus!
