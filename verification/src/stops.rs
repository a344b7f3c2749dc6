//! The stops of the feed: their states and their parent stations.

use crate::names::{lemma_interned, NameList};
use crate::rows::{StopRecord, StopRow};
use crate::text::{nonblank, nonblank_field, text_of};
use vstd::hash_map::StringHashMap;
use vstd::prelude::*;

verus! {

/// What is known of a stop.
#[derive(Debug)]
pub struct StopInfo {
    /// The folder of the state in which the stop lies.
    pub state: Option<String>,
    /// The station to which the stop belongs.
    pub parent: Option<String>,
}

pub struct StopFacts {
    pub state: Option<Seq<char>>,
    pub parent: Option<Seq<char>>,
}

impl View for StopInfo {
    type V = StopFacts;

    open spec fn view(&self) -> StopFacts {
        StopFacts { state: text_of(self.state), parent: text_of(self.parent) }
    }
}

/// The stops by their identifiers.
pub struct StopTable {
    entries: StringHashMap<StopInfo>,
}

impl View for StopTable {
    type V = Map<Seq<char>, StopFacts>;

    closed spec fn view(&self) -> Map<Seq<char>, StopFacts> {
        self.entries@.map_values(|info: StopInfo| info@)
    }
}

/// The stops after one more row, whose stop lies in the given state.  A later row replaces an
/// earlier one with the same identifier.
pub open spec fn with_stop(
    stops: Map<Seq<char>, StopFacts>,
    row: StopRecord,
    state: Option<Seq<char>>,
) -> Map<Seq<char>, StopFacts> {
    stops.insert(row.stop_id, StopFacts { state, parent: nonblank(row.parent_station) })
}

/// The state in which a stop lies, if the stop is known and lies in one.
pub open spec fn state_of(stops: Map<Seq<char>, StopFacts>, stop: Seq<char>) -> Option<Seq<char>> {
    if stops.contains_key(stop) {
        stops[stop].state
    } else {
        None
    }
}

/// The station to which a stop belongs, if the stop is known and belongs to one.
pub open spec fn parent_of(stops: Map<Seq<char>, StopFacts>, stop: Seq<char>) -> Option<Seq<char>> {
    if stops.contains_key(stop) {
        stops[stop].parent
    } else {
        None
    }
}

/// What is reached from a stop after `steps` steps to the parent station.
pub open spec fn ancestor(
    stops: Map<Seq<char>, StopFacts>,
    stop: Seq<char>,
    steps: nat,
) -> Option<Seq<char>>
    decreases steps,
{
    if steps == 0 {
        Some(stop)
    } else {
        match ancestor(stops, stop, (steps - 1) as nat) {
            Some(reached) => parent_of(stops, reached),
            None => None,
        }
    }
}

/// Whether the way from the stop to its parent stations comes to an end.
pub open spec fn chain_ends(stops: Map<Seq<char>, StopFacts>, stop: Seq<char>) -> bool {
    exists|steps: nat| #[trigger] ancestor(stops, stop, steps) is None
}

/// Whether one of the stops is `name`, or a station that is reached from one of the stops.
pub open spec fn is_reached(
    stops: Map<Seq<char>, StopFacts>,
    from: Set<Seq<char>>,
    name: Seq<char>,
) -> bool {
    exists|stop: Seq<char>, steps: nat|
        from.contains(stop) && #[trigger] ancestor(stops, stop, steps) == Some(name)
}

/// The stops together with all the stations that are reached from them.
pub open spec fn with_parents(
    stops: Map<Seq<char>, StopFacts>,
    from: Set<Seq<char>>,
) -> Set<Seq<char>> {
    Set::new(|name: Seq<char>| is_reached(stops, from, name))
}

impl StopTable {
    /// Whether there are finitely many stops.
    pub closed spec fn wf(self) -> bool {
        self.entries@.dom().finite()
    }

    pub fn new() -> (stops: StopTable)
        ensures
            stops.wf(),
            stops@ == Map::<Seq<char>, StopFacts>::empty(),
    {
        let stops = StopTable { entries: StringHashMap::new() };
        assert(stops@ =~= Map::<Seq<char>, StopFacts>::empty());
        stops
    }

    /// How many stops there are.
    pub fn len(&self) -> (length: usize)
        ensures
            length == self@.dom().len(),
    {
        assert(self@.dom() =~= self.entries@.dom());
        self.entries.len()
    }

    /// Takes in a row whose stop lies in the given state.
    pub fn add(&mut self, row: &StopRow, state: Option<String>)
        requires
            old(self).wf(),
        ensures
            final(self).wf(),
            final(self)@ == with_stop(old(self)@, row@, text_of(state)),
            final(self)@.dom() == old(self)@.dom().insert(row.stop_id@),
            final(self)@[row.stop_id@].state == text_of(state),
            final(self)@[row.stop_id@].parent == nonblank(text_of(row.parent_station)),
            forall|id: Seq<char>|
                id != row.stop_id@ && old(self)@.contains_key(id) ==> #[trigger] final(self)@[id]
                    == old(self)@[id],
    {
        let parent: Option<String> = nonblank_field(&row.parent_station);
        let info = StopInfo { state, parent };
        self.entries.insert(row.stop_id.clone(), info);
        assert(self@ =~= with_stop(old(self)@, row@, text_of(state)));
    }

    /// The state in which a stop lies.
    pub fn state(&self, stop: &str) -> (state: Option<&String>)
        ensures
            match state {
                Some(state) => state_of(self@, stop@) == Some(state@),
                None => state_of(self@, stop@) is None,
            },
            match state {
                Some(state) => self@.contains_key(stop@) && self@[stop@].state == Some(state@),
                None => self@.contains_key(stop@) ==> self@[stop@].state is None,
            },
    {
        match self.entries.get(stop) {
            Some(info) => info.state.as_ref(),
            None => None,
        }
    }

    /// The station to which a stop belongs.
    pub fn parent(&self, stop: &str) -> (parent: Option<&String>)
        ensures
            match parent {
                Some(parent) => parent_of(self@, stop@) == Some(parent@),
                None => parent_of(self@, stop@) is None,
            },
            match parent {
                Some(parent) => self@.contains_key(stop@) && self@[stop@].parent == Some(parent@),
                None => self@.contains_key(stop@) ==> self@[stop@].parent is None,
            },
    {
        match self.entries.get(stop) {
            Some(info) => info.parent.as_ref(),
            None => None,
        }
    }

    /// Decides whether the way from the stop to its parent stations comes to an end.
    pub fn chain_is_finite(&self, stop: &str) -> (finite: bool)
        requires
            self.wf(),
        ensures
            finite == chain_ends(self@, stop@),
    {
        let limit: usize = self.len();
        let mut current: &str = stop;
        let mut steps: usize = 0;
        loop
            invariant
                self.wf(),
                limit == self@.dom().len(),
                steps <= limit,
                ancestor(self@, stop@, steps as nat) == Some(current@),
            decreases limit - steps,
        {
            match self.parent(current) {
                Some(parent) => {
                    assert(ancestor(self@, stop@, (steps + 1) as nat) == Some(parent@));
                    if steps == limit {
                        proof {
                            assert(self@.dom() =~= self.entries@.dom());
                            lemma_long_chain_has_no_end(self@, stop@);
                        }
                        return false;
                    }
                    current = parent.as_str();
                    steps += 1;
                },
                None => {
                    assert(ancestor(self@, stop@, (steps + 1) as nat) is None);
                    return true;
                },
            }
        }
    }

    /// Decides whether the way to the parent stations comes to an end for each of the stops.
    pub fn chains_are_finite(&self, needed: &NameList) -> (finite: bool)
        requires
            self.wf(),
        ensures
            finite == forall|stop: Seq<char>| #[trigger]
                needed@.contains(stop) ==> chain_ends(self@, stop),
    {
        let mut i: usize = 0;
        while i < needed.len()
            invariant
                self.wf(),
                i <= needed@.len(),
                forall|k: int| 0 <= k < i ==> chain_ends(self@, #[trigger] needed@[k]),
            decreases needed@.len() - i,
        {
            if !self.chain_is_finite(needed.name(i).as_str()) {
                assert(needed@.contains(needed@[i as int]));
                return false;
            }
            i += 1;
        }
        true
    }

    /// Adds to the stops all the stations that are reached from them.
    pub fn add_parents(&self, needed: &mut NameList)
        requires
            old(needed).wf(),
            forall|stop: Seq<char>| #[trigger]
                old(needed)@.contains(stop) ==> chain_ends(self@, stop),
        ensures
            final(needed).wf(),
            final(needed)@.to_set() == with_parents(self@, old(needed)@.to_set()),
    {
        let ghost before = needed@;
        let ghost stops = self@;
        let count: usize = needed.len();
        let mut i: usize = 0;
        proof {
            assert forall|name: Seq<char>| #[trigger]
                before.contains(name) implies is_reached(stops, before.to_set(), name) by {
                assert(before.to_set().contains(name));
                assert(ancestor(stops, name, 0) == Some(name));
            }
        }
        while i < count
            invariant
                needed.wf(),
                stops == self@,
                i <= count,
                count == before.len(),
                before.is_prefix_of(needed@),
                forall|stop: Seq<char>| #[trigger]
                    before.contains(stop) ==> chain_ends(stops, stop),
                forall|name: Seq<char>| #[trigger]
                    needed@.contains(name) ==> is_reached(stops, before.to_set(), name),
                forall|k: int, steps: nat|
                    #![trigger ancestor(stops, before[k], steps)]
                    0 <= k < i && ancestor(stops, before[k], steps) is Some ==> needed@.contains(
                        ancestor(stops, before[k], steps)->0,
                    ),
            decreases count - i,
        {
            let start: String = needed.name(i).clone();
            assert(start@ == before[i as int]);
            assert(before.contains(start@));
            let ghost end = choose|steps: nat| #[trigger] ancestor(stops, start@, steps) is None;
            let ghost mut walked: nat = 0;
            let mut current: &str = start.as_str();
            proof {
                assert(needed@.contains(needed@[i as int]));
            }
            loop
                invariant_except_break
                    walked <= end,
                invariant
                    needed.wf(),
                    stops == self@,
                    before.is_prefix_of(needed@),
                    before.contains(start@),
                    ancestor(stops, start@, end) is None,
                    ancestor(stops, start@, walked) == Some(current@),
                    forall|name: Seq<char>| #[trigger]
                        needed@.contains(name) ==> is_reached(stops, before.to_set(), name),
                    forall|k: int, steps: nat|
                        #![trigger ancestor(stops, before[k], steps)]
                        0 <= k < i && ancestor(stops, before[k], steps) is Some
                            ==> needed@.contains(ancestor(stops, before[k], steps)->0),
                    forall|steps: nat| #[trigger]
                        ancestor(stops, start@, steps) is Some && steps <= walked
                            ==> needed@.contains(ancestor(stops, start@, steps)->0),
                ensures
                    ancestor(stops, start@, walked + 1) is None,
                decreases end - walked,
            {
                match self.parent(current) {
                    Some(parent) => {
                        let ghost earlier = needed@;
                        let _ = needed.intern(parent.as_str());
                        current = parent.as_str();
                        proof {
                            walked = walked + 1;
                            assert(ancestor(stops, start@, walked) == Some(parent@));
                            assert(before.to_set().contains(start@));
                            lemma_interned(earlier, needed@, parent@);
                            if walked > end {
                                lemma_chain_stays_ended(stops, start@, end, walked);
                            }
                        }
                    },
                    None => {
                        assert(ancestor(stops, start@, walked + 1) is None);
                        break;
                    },
                }
            }
            proof {
                assert forall|steps: nat| #[trigger]
                    ancestor(stops, start@, steps) is Some implies needed@.contains(
                    ancestor(stops, start@, steps)->0,
                ) by {
                    if steps > walked {
                        lemma_chain_stays_ended(stops, start@, walked + 1, steps);
                    }
                }
            }
            i += 1;
        }
        proof {
            assert forall|name: Seq<char>| #[trigger]
                is_reached(stops, before.to_set(), name) implies needed@.contains(name) by {
                let (stop, steps) = choose|stop: Seq<char>, steps: nat|
                    before.to_set().contains(stop) && #[trigger] ancestor(stops, stop, steps)
                        == Some(name);
                let k = choose|k: int| 0 <= k < before.len() && before[k] == stop;
                assert(ancestor(stops, before[k], steps) is Some);
            }
            assert(needed@.to_set() =~= with_parents(stops, before.to_set()));
        }
    }
}

/// Beyond its end a chain reaches nothing.
proof fn lemma_chain_stays_ended(
    stops: Map<Seq<char>, StopFacts>,
    stop: Seq<char>,
    end: nat,
    steps: nat,
)
    requires
        ancestor(stops, stop, end) is None,
        end <= steps,
    ensures
        ancestor(stops, stop, steps) is None,
    decreases steps,
{
    if end < steps {
        lemma_chain_stays_ended(stops, stop, end, (steps - 1) as nat);
    }
}

/// Steps after steps.
proof fn lemma_ancestor_of_ancestor(
    stops: Map<Seq<char>, StopFacts>,
    stop: Seq<char>,
    first: nat,
    further: nat,
)
    requires
        ancestor(stops, stop, first) is Some,
    ensures
        ancestor(stops, stop, first + further) == ancestor(
            stops,
            ancestor(stops, stop, first)->0,
            further,
        ),
    decreases further,
{
    if further > 0 {
        lemma_ancestor_of_ancestor(stops, stop, first, (further - 1) as nat);
    }
}

/// A way that is longer than there are stops comes by one of them twice, and has no end.
proof fn lemma_long_chain_has_no_end(stops: Map<Seq<char>, StopFacts>, stop: Seq<char>)
    requires
        stops.dom().finite(),
        ancestor(stops, stop, stops.dom().len() + 1) is Some,
    ensures
        !chain_ends(stops, stop),
{
    let count = stops.dom().len();
    let way = Seq::new(count + 1, |i: int| ancestor(stops, stop, i as nat)->0);
    assert forall|i: int| 0 <= i < way.len() implies stops.contains_key(#[trigger] way[i])
        && ancestor(stops, stop, i as nat) is Some by {
        if ancestor(stops, stop, (i + 1) as nat) is None {
            lemma_chain_stays_ended(stops, stop, (i + 1) as nat, count + 1);
        }
    }
    if way.no_duplicates() {
        way.unique_seq_to_set();
        assert(way.to_set().subset_of(stops.dom())) by {
            assert forall|name: Seq<char>| way.to_set().contains(name) implies #[trigger]
                stops.dom().contains(name) by {
                let i = choose|i: int| 0 <= i < way.len() && way[i] == name;
                assert(stops.contains_key(way[i]));
            }
        }
        vstd::set_lib::lemma_len_subset(way.to_set(), stops.dom());
    }
    let (i, j) = choose|i: int, j: int|
        0 <= i < way.len() && 0 <= j < way.len() && i != j && #[trigger] way[i]
            == #[trigger] way[j];
    let (a, b) = if i < j {
        (i as nat, j as nat)
    } else {
        (j as nat, i as nat)
    };
    assert(way[a as int] == way[b as int]);
    assert(ancestor(stops, stop, a) == ancestor(stops, stop, b));
    assert forall|steps: nat| #[trigger] ancestor(stops, stop, steps) is Some by {
        lemma_loop_goes_on(stops, stop, a, b, steps);
    }
}

proof fn lemma_loop_goes_on(
    stops: Map<Seq<char>, StopFacts>,
    stop: Seq<char>,
    a: nat,
    b: nat,
    steps: nat,
)
    requires
        a < b,
        ancestor(stops, stop, a) == ancestor(stops, stop, b),
        ancestor(stops, stop, b) is Some,
    ensures
        ancestor(stops, stop, steps) is Some,
    decreases steps,
{
    if steps <= b {
        if ancestor(stops, stop, steps) is None {
            lemma_chain_stays_ended(stops, stop, steps, b);
        }
    } else {
        let past = (steps - b) as nat;
        lemma_ancestor_of_ancestor(stops, stop, a, past);
        lemma_ancestor_of_ancestor(stops, stop, b, past);
        lemma_loop_goes_on(stops, stop, a, b, a + past);
    }
}

/// Stops with their parents contain the stops that they were taken from.
pub proof fn law_parents_keep_stops(
    stops: Map<Seq<char>, StopFacts>,
    from: Set<Seq<char>>,
    stop: Seq<char>,
)
    requires
        from.contains(stop),
    ensures
        with_parents(stops, from).contains(stop),
{
    assert(ancestor(stops, stop, 0) == Some(stop));
}

/// Stops with their parents contain the station of each of them.
pub proof fn law_parents_are_complete(
    stops: Map<Seq<char>, StopFacts>,
    from: Set<Seq<char>>,
    name: Seq<char>,
)
    requires
        with_parents(stops, from).contains(name),
        parent_of(stops, name) is Some,
    ensures
        with_parents(stops, from).contains(parent_of(stops, name)->0),
{
    let (stop, steps) = choose|stop: Seq<char>, steps: nat|
        from.contains(stop) && #[trigger] ancestor(stops, stop, steps) == Some(name);
    assert(ancestor(stops, stop, steps + 1) == parent_of(stops, name));
}

/// Stops with their parents are the fewest stops that contain the given ones and the station of
/// each of them.
pub proof fn law_parents_are_needed(
    stops: Map<Seq<char>, StopFacts>,
    from: Set<Seq<char>>,
    complete: Set<Seq<char>>,
)
    requires
        from.subset_of(complete),
        forall|name: Seq<char>|
            complete.contains(name) && #[trigger] parent_of(stops, name) is Some
                ==> complete.contains(parent_of(stops, name)->0),
    ensures
        with_parents(stops, from).subset_of(complete),
{
    assert forall|name: Seq<char>| with_parents(stops, from).contains(name) implies #[trigger]
        complete.contains(name) by {
        let (stop, steps) = choose|stop: Seq<char>, steps: nat|
            from.contains(stop) && #[trigger] ancestor(stops, stop, steps) == Some(name);
        lemma_complete_holds_ancestors(stops, complete, stop, steps);
    }
}

proof fn lemma_complete_holds_ancestors(
    stops: Map<Seq<char>, StopFacts>,
    complete: Set<Seq<char>>,
    stop: Seq<char>,
    steps: nat,
)
    requires
        complete.contains(stop),
        forall|name: Seq<char>|
            complete.contains(name) && #[trigger] parent_of(stops, name) is Some
                ==> complete.contains(parent_of(stops, name)->0),
        ancestor(stops, stop, steps) is Some,
    ensures
        complete.contains(ancestor(stops, stop, steps)->0),
    decreases steps,
{
    if steps > 0 {
        lemma_complete_holds_ancestors(stops, complete, stop, (steps - 1) as nat);
    }
}

/// Adding the parents a second time adds nothing.
pub proof fn law_parents_are_settled(stops: Map<Seq<char>, StopFacts>, from: Set<Seq<char>>)
    ensures
        with_parents(stops, with_parents(stops, from)) == with_parents(stops, from),
{
    let once = with_parents(stops, from);
    assert forall|name: Seq<char>|
        once.contains(name) && #[trigger] parent_of(stops, name) is Some implies once.contains(
        parent_of(stops, name)->0,
    ) by {
        law_parents_are_complete(stops, from, name);
    }
    law_parents_are_needed(stops, once, once);
    assert forall|name: Seq<char>| once.contains(name) implies #[trigger] with_parents(
        stops,
        once,
    ).contains(name) by {
        law_parents_keep_stops(stops, once, name);
    }
    assert(with_parents(stops, once) =~= once);
}

/// A row sets what is known of its own stop, and nothing else.
pub proof fn law_row_tells_of_its_stop(
    stops: Map<Seq<char>, StopFacts>,
    row: StopRecord,
    state: Option<Seq<char>>,
    id: Seq<char>,
)
    ensures
        with_stop(stops, row, state).contains_key(row.stop_id),
        with_stop(stops, row, state)[row.stop_id].state == state,
        with_stop(stops, row, state)[row.stop_id].parent == nonblank(row.parent_station),
        id != row.stop_id ==> with_stop(stops, row, state).contains_key(id)
            == stops.contains_key(id),
        id != row.stop_id ==> with_stop(stops, row, state)[id] == stops[id],
{
}

/// A stop lies in the state and belongs to the station that are known of it; a stop that is not
/// known lies in no state and belongs to no station.
pub proof fn law_known_stops_have_state_and_parent(
    stops: Map<Seq<char>, StopFacts>,
    stop: Seq<char>,
    name: Seq<char>,
    info: StopInfo,
)
    ensures
        state_of(stops, stop) == Some(name) <==> stops.contains_key(stop) && stops[stop].state
            == Some(name),
        parent_of(stops, stop) == Some(name) <==> stops.contains_key(stop) && stops[stop].parent
            == Some(name),
        info@.state == text_of(info.state),
        info@.parent == text_of(info.parent),
{
}

/// A way to the parent stations has no end exactly if it leads round among stops that all have a
/// station among themselves.
pub proof fn law_way_without_end_leads_round(stops: Map<Seq<char>, StopFacts>, stop: Seq<char>)
    ensures
        !chain_ends(stops, stop) <==> exists|round: Set<Seq<char>>|
            #![trigger round.contains(stop)]
            round.contains(stop) && forall|at: Seq<char>| #[trigger]
                round.contains(at) ==> stops.contains_key(at) && stops[at].parent is Some
                    && round.contains(stops[at].parent->0),
{
    if !chain_ends(stops, stop) {
        let round = Set::<Seq<char>>::new(
            |name: Seq<char>|
                exists|steps: nat| #[trigger] ancestor(stops, stop, steps) == Some(name),
        );
        assert(ancestor(stops, stop, 0) == Some(stop));
        assert(round.contains(stop));
        assert forall|at: Seq<char>| #[trigger] round.contains(at) implies stops.contains_key(at)
            && stops[at].parent is Some && round.contains(stops[at].parent->0) by {
            let steps = choose|steps: nat| #[trigger] ancestor(stops, stop, steps) == Some(at);
            assert(ancestor(stops, stop, steps + 1) is Some);
            assert(ancestor(stops, stop, steps + 1) == parent_of(stops, at));
        }
    }
    if exists|round: Set<Seq<char>>|
        #![trigger round.contains(stop)]
        round.contains(stop) && forall|at: Seq<char>| #[trigger]
            round.contains(at) ==> stops.contains_key(at) && stops[at].parent is Some
                && round.contains(stops[at].parent->0) {
        let round = choose|round: Set<Seq<char>>|
            #![trigger round.contains(stop)]
            round.contains(stop) && forall|at: Seq<char>| #[trigger]
                round.contains(at) ==> stops.contains_key(at) && stops[at].parent is Some
                    && round.contains(stops[at].parent->0);
        assert forall|steps: nat| #[trigger] ancestor(stops, stop, steps) is Some by {
            lemma_round_holds_ancestors(stops, round, stop, steps);
        }
    }
}

proof fn lemma_round_holds_ancestors(
    stops: Map<Seq<char>, StopFacts>,
    round: Set<Seq<char>>,
    stop: Seq<char>,
    steps: nat,
)
    requires
        round.contains(stop),
        forall|at: Seq<char>| #[trigger]
            round.contains(at) ==> stops.contains_key(at) && stops[at].parent is Some
                && round.contains(stops[at].parent->0),
    ensures
        ancestor(stops, stop, steps) is Some,
        round.contains(ancestor(stops, stop, steps)->0),
    decreases steps,
{
    if steps > 0 {
        lemma_round_holds_ancestors(stops, round, stop, (steps - 1) as nat);
    }
}

/// Stops with their parents are the stops, the stations of the known ones among them, and so on:
/// of all sets with that property, the smallest.
pub proof fn law_parents_are_the_smallest_complete_set(
    stops: Map<Seq<char>, StopFacts>,
    from: Set<Seq<char>>,
    complete: Set<Seq<char>>,
)
    ensures
        from.subset_of(with_parents(stops, from)),
        forall|at: Seq<char>|
            with_parents(stops, from).contains(at) && stops.contains_key(at)
                && (#[trigger] stops[at]).parent is Some ==> with_parents(stops, from).contains(
                stops[at].parent->0,
            ),
        from.subset_of(complete) && (forall|at: Seq<char>|
            complete.contains(at) && stops.contains_key(at) && (#[trigger] stops[at]).parent is Some
                ==> complete.contains(stops[at].parent->0)) ==> with_parents(
            stops,
            from,
        ).subset_of(complete),
{
    assert forall|stop: Seq<char>| from.contains(stop) implies #[trigger] with_parents(
        stops,
        from,
    ).contains(stop) by {
        law_parents_keep_stops(stops, from, stop);
    }
    assert forall|at: Seq<char>|
        with_parents(stops, from).contains(at) && stops.contains_key(at)
            && (#[trigger] stops[at]).parent is Some implies with_parents(stops, from).contains(
        stops[at].parent->0,
    ) by {
        law_parents_are_complete(stops, from, at);
    }
    if from.subset_of(complete) && (forall|at: Seq<char>|
        complete.contains(at) && stops.contains_key(at) && (#[trigger] stops[at]).parent is Some
            ==> complete.contains(stops[at].parent->0)) {
        law_parents_are_needed(stops, from, complete);
    }
}

} // verus!
