//! The agencies of the feed, their numbers, and the routes that they run.

use crate::order::{ascending, sort_texts};
use crate::rows::{AgencyRecord, AgencyRow, RouteRecord, RouteRow};
use vstd::hash_map::StringHashMap;
use vstd::prelude::*;

verus! {

/// How many agencies can be told apart by their numbers.
pub const SLOTS: usize = 0x1_0000;

/// What is known of an agency.
#[derive(Debug)]
pub struct AgencyInfo {
    pub name: String,
    /// Whether the agency belongs to the railway.
    pub is_db: bool,
}

pub struct AgencyFacts {
    pub name: Seq<char>,
    pub is_db: bool,
}

impl View for AgencyInfo {
    type V = AgencyFacts;

    open spec fn view(&self) -> AgencyFacts {
        AgencyFacts { name: self.name@, is_db: self.is_db }
    }
}

/// How the names of the railway's agencies start.
pub open spec fn railway_prefix() -> Seq<char> {
    seq!['D', 'B', ' ']
}

/// Whether a name is one of the railway's.
pub open spec fn is_railway_name(name: Seq<char>) -> bool {
    railway_prefix().is_prefix_of(name)
}

/// Decides whether a name is one of the railway's: whether it starts with `DB` and a space.
pub fn has_railway_name(name: &str) -> (result: bool)
    ensures
        result == is_railway_name(name@),
        result <==> name@.len() >= 3 && name@[0] == 'D' && name@[1] == 'B' && name@[2] == ' ',
{
    proof {
        law_railway_names(name@, Seq::empty());
    }
    let mut place: usize = 0;
    for c in it: name.chars()
        invariant
            it.seq() == name@,
            place <= 3,
            place == it.index(),
            forall|i: int| 0 <= i < place ==> name@[i] == #[trigger] railway_prefix()[i],
    {
        if place == 3 {
            return true;
        }
        let expected: char = if place == 0 {
            'D'
        } else if place == 1 {
            'B'
        } else {
            ' '
        };
        if c != expected {
            assert(name@[place as int] != railway_prefix()[place as int]);
            return false;
        }
        place += 1;
    }
    place == 3
}

/// The agencies after one more row.  A later row replaces an earlier one with the same identifier.
pub open spec fn with_agency(
    agencies: Map<Seq<char>, AgencyFacts>,
    row: AgencyRecord,
) -> Map<Seq<char>, AgencyFacts> {
    agencies.insert(
        row.agency_id,
        AgencyFacts { name: row.agency_name, is_db: is_railway_name(row.agency_name) },
    )
}

/// The agencies by their identifiers.
pub struct AgencyTable {
    ids: Vec<String>,
    info: StringHashMap<AgencyInfo>,
}

impl View for AgencyTable {
    type V = Map<Seq<char>, AgencyFacts>;

    closed spec fn view(&self) -> Map<Seq<char>, AgencyFacts> {
        self.info@.map_values(|info: AgencyInfo| info@)
    }
}

impl AgencyTable {
    /// Whether the identifiers are listed once each.
    pub closed spec fn wf(self) -> bool {
        &&& self.ids.deep_view().no_duplicates()
        &&& forall|id: Seq<char>| #[trigger]
            self.info@.contains_key(id) <==> self.ids.deep_view().contains(id)
    }

    pub fn new() -> (agencies: AgencyTable)
        ensures
            agencies.wf(),
            agencies@ == Map::<Seq<char>, AgencyFacts>::empty(),
    {
        let agencies = AgencyTable { ids: Vec::new(), info: StringHashMap::new() };
        assert(agencies@ =~= Map::<Seq<char>, AgencyFacts>::empty());
        agencies
    }

    /// How many agencies there are.
    pub fn len(&self) -> (length: usize)
        ensures
            length == self@.dom().len(),
    {
        assert(self@.dom() =~= self.info@.dom());
        self.info.len()
    }

    /// Takes in a row.
    pub fn add(&mut self, row: &AgencyRow)
        requires
            old(self).wf(),
        ensures
            final(self).wf(),
            final(self)@ == with_agency(old(self)@, row@),
            final(self)@.dom() == old(self)@.dom().insert(row.agency_id@),
            final(self)@[row.agency_id@].name == row.agency_name@,
            final(self)@[row.agency_id@].is_db <==> seq!['D', 'B', ' '].is_prefix_of(
                row.agency_name@,
            ),
            forall|id: Seq<char>|
                id != row.agency_id@ && old(self)@.contains_key(id) ==> #[trigger] final(self)@[id] == old(self)@[id],
    {
        let is_db: bool = has_railway_name(row.agency_name.as_str());
        let ghost before = self.ids.deep_view();
        if !self.info.contains_key(row.agency_id.as_str()) {
            self.ids.push(row.agency_id.clone());
            assert(self.ids.deep_view() =~= before.push(row.agency_id@));
        }
        let info = AgencyInfo { name: row.agency_name.clone(), is_db };
        self.info.insert(row.agency_id.clone(), info);
        assert(self@ =~= with_agency(old(self)@, row@));
        assert forall|id: Seq<char>| #[trigger]
            self.info@.contains_key(id) <==> self.ids.deep_view().contains(id) by {
            let after = self.ids.deep_view();
            if before.contains(id) {
                let at = choose|at: int| 0 <= at < before.len() && before[at] == id;
                assert(after[at] == id);
            }
            if id == row.agency_id@ && !before.contains(id) {
                assert(after[before.len() as int] == id);
            }
        }
    }

    /// Numbers the agencies in the order of their identifiers.
    pub fn number(self) -> (agencies: AgencyIndex)
        requires
            self.wf(),
        ensures
            agencies.wf(),
            agencies.facts() == self@,
            ascending(agencies.order()),
            agencies.order().no_duplicates(),
            forall|id: Seq<char>| #[trigger]
                self@.contains_key(id) <==> agencies.order().contains(id),
    {
        let AgencyTable { mut ids, info } = self;
        let ghost listed = ids.deep_view();
        sort_texts(&mut ids);
        let ghost order = ids.deep_view();
        proof {
            lemma_sorted_is_same(listed, order);
        }
        let mut slots: StringHashMap<u16> = StringHashMap::new();
        let mut i: usize = 0;
        while i < ids.len()
            invariant
                i <= ids.len(),
                order == ids.deep_view(),
                order.no_duplicates(),
                forall|k: int|
                    0 <= k < i ==> slots@.contains_key(#[trigger] order[k]) && slots@[order[k]]
                        == slot_number(k),
                forall|id: Seq<char>| #[trigger] slots@.contains_key(id) ==> order.contains(id),
            decreases ids.len() - i,
        {
            let slot: u16 = (i % SLOTS) as u16;
            slots.insert(ids[i].clone(), slot);
            assert(order[i as int] == ids@[i as int]@);
            assert(order.contains(order[i as int]));
            i += 1;
        }
        let agencies = AgencyIndex { ids, info, slots };
        assert(agencies.facts() =~= self@);
        assert forall|id: Seq<char>| #[trigger]
            agencies.slots@.contains_key(id) <==> agencies.order().contains(id) by {
            if order.contains(id) {
                let k = choose|k: int| 0 <= k < order.len() && order[k] == id;
                assert(slots@.contains_key(order[k]));
            }
        }
        agencies
    }
}

/// Sorting keeps the texts, and keeps them distinct.
proof fn lemma_sorted_is_same(before: Seq<Seq<char>>, after: Seq<Seq<char>>)
    requires
        before.no_duplicates(),
        before.to_multiset() == after.to_multiset(),
    ensures
        after.no_duplicates(),
        forall|text: Seq<char>| #[trigger] after.contains(text) <==> before.contains(text),
{
    before.lemma_multiset_has_no_duplicates();
    after.lemma_multiset_has_no_duplicates_conv();
    before.to_multiset_ensures();
    after.to_multiset_ensures();
    assert forall|text: Seq<char>| #[trigger] after.contains(text) <==> before.contains(text) by {
        assert(before.contains(text) <==> before.to_multiset().count(text) > 0);
        assert(after.contains(text) <==> after.to_multiset().count(text) > 0);
    }
}

/// The number of the agency at a place in the order.  Numbers start anew when they run out.
pub open spec fn slot_number(place: int) -> u16 {
    (place % SLOTS as int) as u16
}

/// The number of an agency, if there is such an agency.
pub open spec fn slot_of(order: Seq<Seq<char>>, agency: Seq<char>) -> Option<u16> {
    if order.contains(agency) {
        Some(slot_number(order.index_of(agency)))
    } else {
        None
    }
}

/// How many numbers are in use.
pub open spec fn slot_count(order: Seq<Seq<char>>) -> nat {
    if order.len() < SLOTS {
        order.len()
    } else {
        SLOTS as nat
    }
}

/// The agencies, numbered.
pub struct AgencyIndex {
    ids: Vec<String>,
    info: StringHashMap<AgencyInfo>,
    slots: StringHashMap<u16>,
}

impl AgencyIndex {
    /// The identifiers in the order in which the agencies are numbered.
    pub closed spec fn order(self) -> Seq<Seq<char>> {
        self.ids.deep_view()
    }

    /// What is known of the agencies.
    pub closed spec fn facts(self) -> Map<Seq<char>, AgencyFacts> {
        self.info@.map_values(|info: AgencyInfo| info@)
    }

    closed spec fn slots_wf(self) -> bool {
        &&& forall|k: int|
            0 <= k < self.order().len() ==> self.slots@.contains_key(#[trigger] self.order()[k])
                && self.slots@[self.order()[k]] == slot_number(k)
        &&& forall|id: Seq<char>| #[trigger]
            self.slots@.contains_key(id) <==> self.order().contains(id)
    }

    /// Whether the order lists each agency once, by ascending identifiers.
    pub closed spec fn wf(self) -> bool {
        &&& ascending(self.order())
        &&& self.order().no_duplicates()
        &&& forall|id: Seq<char>| #[trigger]
            self.info@.contains_key(id) <==> self.order().contains(id)
        &&& self.slots_wf()
    }

    /// The order lists each agency once, by ascending identifiers.
    pub proof fn lemma_order(self)
        requires
            self.wf(),
        ensures
            ascending(self.order()),
            self.order().no_duplicates(),
            forall|id: Seq<char>| #[trigger]
                self.facts().contains_key(id) <==> self.order().contains(id),
    {
    }

    pub fn len(&self) -> (length: usize)
        ensures
            length == self.order().len(),
    {
        self.ids.len()
    }

    /// How many numbers are in use.
    pub fn slots(&self) -> (count: usize)
        ensures
            count == slot_count(self.order()),
            count == if self.order().len() <= 0x1_0000 {
                self.order().len()
            } else {
                0x1_0000
            },
    {
        if self.ids.len() < SLOTS {
            self.ids.len()
        } else {
            SLOTS
        }
    }

    /// The number of an agency.
    pub fn slot(&self, agency: &str) -> (slot: Option<u16>)
        requires
            self.wf(),
        ensures
            slot == slot_of(self.order(), agency@),
            slot is Some <==> self.order().contains(agency@),
            forall|k: int|
                0 <= k < self.order().len() && #[trigger] self.order()[k] == agency@ ==> slot
                    is Some && slot->0 == k % 0x1_0000,
    {
        match self.slots.get(agency) {
            Some(slot) => {
                assert(self.order()[self.order().index_of(agency@)] == agency@);
                Some(*slot)
            },
            None => None,
        }
    }

    /// Whether the first agency with a number belongs to the railway.
    pub fn is_railway(&self, slot: usize) -> (result: bool)
        requires
            self.wf(),
            slot < self.order().len(),
        ensures
            result == self.facts()[self.order()[slot as int]].is_db,
    {
        assert(self.order()[slot as int] == self.ids@[slot as int]@);
        assert(self.order().contains(self.order()[slot as int]));
        match self.info.get(self.ids[slot].as_str()) {
            Some(info) => info.is_db,
            None => false,
        }
    }
}

/// The agency of a route after one more row.  A later row replaces an earlier one with the same
/// identifier.
pub open spec fn with_route(
    routes: Map<Seq<char>, Seq<char>>,
    row: RouteRecord,
) -> Map<Seq<char>, Seq<char>> {
    routes.insert(row.route_id, row.agency_id)
}

/// The agencies of the routes.
pub struct RouteTable {
    agencies: StringHashMap<String>,
}

impl View for RouteTable {
    type V = Map<Seq<char>, Seq<char>>;

    closed spec fn view(&self) -> Map<Seq<char>, Seq<char>> {
        self.agencies@.map_values(|agency: String| agency@)
    }
}

/// The number of the agency that runs a route, if both are known.
pub open spec fn slot_of_route(
    order: Seq<Seq<char>>,
    routes: Map<Seq<char>, Seq<char>>,
    route: Seq<char>,
) -> Option<u16> {
    if routes.contains_key(route) {
        slot_of(order, routes[route])
    } else {
        None
    }
}

impl RouteTable {
    pub fn new() -> (routes: RouteTable)
        ensures
            routes@ == Map::<Seq<char>, Seq<char>>::empty(),
    {
        let routes = RouteTable { agencies: StringHashMap::new() };
        assert(routes@ =~= Map::<Seq<char>, Seq<char>>::empty());
        routes
    }

    /// How many routes there are.
    pub fn len(&self) -> (length: usize)
        ensures
            length == self@.dom().len(),
    {
        assert(self@.dom() =~= self.agencies@.dom());
        self.agencies.len()
    }

    /// Takes in a row.
    pub fn add(&mut self, row: &RouteRow)
        ensures
            final(self)@ == with_route(old(self)@, row@),
            final(self)@ == old(self)@.insert(row.route_id@, row.agency_id@),
    {
        self.agencies.insert(row.route_id.clone(), row.agency_id.clone());
        assert(self@ =~= with_route(old(self)@, row@));
    }

    /// The agency that runs a route.
    pub fn agency(&self, route: &str) -> (agency: Option<&String>)
        ensures
            match agency {
                Some(agency) => self@.contains_key(route@) && self@[route@] == agency@,
                None => !self@.contains_key(route@),
            },
    {
        self.agencies.get(route)
    }

    /// The number of the agency that runs a route.
    pub fn slot(&self, agencies: &AgencyIndex, route: &str) -> (slot: Option<u16>)
        requires
            agencies.wf(),
        ensures
            slot == slot_of_route(agencies.order(), self@, route@),
            slot is Some <==> self@.contains_key(route@) && agencies.order().contains(
                self@[route@],
            ),
            forall|k: int|
                0 <= k < agencies.order().len() && self@.contains_key(route@)
                    && #[trigger] agencies.order()[k] == self@[route@] ==> slot is Some && slot->0
                    == k % 0x1_0000,
    {
        match self.agency(route) {
            Some(agency) => agencies.slot(agency.as_str()),
            None => None,
        }
    }
}

/// Every name made of `DB`, a space and any further text whatever is one of the railway's, and no
/// other name is.
pub proof fn law_railway_names(name: Seq<char>, rest: Seq<char>)
    ensures
        is_railway_name(seq!['D', 'B', ' '] + rest),
        is_railway_name(name) <==> name.len() >= 3 && name[0] == 'D' && name[1] == 'B' && name[2]
            == ' ',
        is_railway_name(name) <==> name == seq!['D', 'B', ' '] + name.skip(3),
{
    let whole = seq!['D', 'B', ' '] + rest;
    assert(railway_prefix() =~= whole.take(3));
    if is_railway_name(name) {
        assert(railway_prefix()[0] == name[0] && railway_prefix()[1] == name[1]
            && railway_prefix()[2] == name[2]);
        assert(name =~= seq!['D', 'B', ' '] + name.skip(3));
    }
    if name.len() >= 3 && name[0] == 'D' && name[1] == 'B' && name[2] == ' ' {
        assert(railway_prefix() =~= name.take(3));
    }
    if name == seq!['D', 'B', ' '] + name.skip(3) {
        assert(name[0] == 'D' && name[1] == 'B' && name[2] == ' ');
    }
}

/// A row sets what is known of its own agency, and nothing else.
pub proof fn law_row_tells_of_its_agency(
    agencies: Map<Seq<char>, AgencyFacts>,
    row: AgencyRecord,
    id: Seq<char>,
)
    ensures
        with_agency(agencies, row).contains_key(row.agency_id),
        with_agency(agencies, row)[row.agency_id].name == row.agency_name,
        with_agency(agencies, row)[row.agency_id].is_db <==> seq!['D', 'B', ' '].is_prefix_of(
            row.agency_name,
        ),
        id != row.agency_id ==> with_agency(agencies, row).contains_key(id)
            == agencies.contains_key(id),
        id != row.agency_id ==> with_agency(agencies, row)[id] == agencies[id],
{
}

/// A row sets the agency of its own route, and nothing else.
pub proof fn law_row_tells_of_its_route(
    routes: Map<Seq<char>, Seq<char>>,
    row: RouteRecord,
    id: Seq<char>,
)
    ensures
        with_route(routes, row).contains_key(row.route_id),
        with_route(routes, row)[row.route_id] == row.agency_id,
        id != row.route_id ==> with_route(routes, row).contains_key(id) == routes.contains_key(id),
        id != row.route_id ==> with_route(routes, row)[id] == routes[id],
{
}

/// What is known of an agency in contracts is what is stored.
pub proof fn law_facts_are_what_is_stored(info: AgencyInfo)
    ensures
        info@.name == info.name@,
        info@.is_db == info.is_db,
{
}

/// Agencies are numbered by their places, from zero on and anew after every 65,536 of them.
pub proof fn law_places_are_numbered(order: Seq<Seq<char>>, agency: Seq<char>, place: int)
    requires
        order.no_duplicates(),
    ensures
        slot_of(order, agency) is Some <==> order.contains(agency),
        0 <= place < order.len() ==> slot_of(order, order[place]) is Some && slot_of(
            order,
            order[place],
        )->0 == place % 0x1_0000,
        0 <= place < order.len() ==> slot_of(order, order[place])->0 < slot_count(order),
        slot_count(order) <= 0x1_0000,
        slot_count(order) == order.len() || slot_count(order) == 0x1_0000 && order.len()
            > 0x1_0000,
{
    if 0 <= place < order.len() {
        assert(order.contains(order[place]));
        assert(order[order.index_of(order[place])] == order[place]);
    }
}

/// A route has the number of the agency that runs it, if both are known.
pub proof fn law_route_has_the_number_of_its_agency(
    order: Seq<Seq<char>>,
    routes: Map<Seq<char>, Seq<char>>,
    route: Seq<char>,
    place: int,
)
    requires
        order.no_duplicates(),
    ensures
        slot_of_route(order, routes, route) is Some <==> routes.contains_key(route)
            && order.contains(routes[route]),
        routes.contains_key(route) && 0 <= place < order.len() && order[place] == routes[route]
            ==> slot_of_route(order, routes, route) is Some && slot_of_route(
            order,
            routes,
            route,
        )->0 == place % 0x1_0000,
{
    if routes.contains_key(route) {
        law_places_are_numbered(order, routes[route], place);
    }
}

} // verus!
