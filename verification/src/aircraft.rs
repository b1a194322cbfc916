//! Aircraft, their maintenance windows, and the fleet.

use vstd::prelude::*;

use crate::ident::{id_before, lemma_id_asymmetric, lemma_id_connected, lemma_id_transitive, slot_view, sorts_before};
use crate::airport::AirportId;
use crate::time::Time;

verus! {

/// Identifier of an aircraft.
pub type AircraftId = String;

/// A window during which an aircraft is out of service. When `location_id`
/// is set, the aircraft has to be at that airport for the window.
#[derive(Clone, Debug, PartialEq, Eq)]
pub struct Availability {
    pub from: Time,
    pub to: Time,
    pub location_id: Option<AirportId>,
}

/// A maintenance window as a mathematical value.
pub struct AvailabilityView {
    pub from: int,
    pub to: int,
    pub location: Option<Seq<char>>,
}

impl View for Availability {
    type V = AvailabilityView;

    open spec fn view(&self) -> AvailabilityView {
        AvailabilityView { from: self.from@, to: self.to@, location: slot_view(self.location_id) }
    }
}

/// A tail number with a home base and its maintenance windows.
#[derive(Clone, Debug, PartialEq, Eq)]
pub struct Aircraft {
    pub id: AircraftId,
    pub initial_location_id: AirportId,
    pub disruptions: Vec<Availability>,
}

/// An aircraft as a mathematical value.
pub struct AircraftView {
    pub id: Seq<char>,
    pub initial_location: Seq<char>,
    pub disruptions: Seq<AvailabilityView>,
}

impl View for Aircraft {
    type V = AircraftView;

    open spec fn view(&self) -> AircraftView {
        AircraftView {
            id: self.id@,
            initial_location: self.initial_location_id@,
            disruptions: self.disruptions@.map_values(|d: Availability| d@),
        }
    }
}

/// The identifiers of `fleet` strictly ascend: the fleet is sorted by
/// identifier and no identifier occurs twice.
pub open spec fn aircraft_ascending(fleet: Seq<AircraftView>) -> bool {
    forall|i: int, j: int| 0 <= i < j < fleet.len() ==> id_before(#[trigger] fleet[i].id, #[trigger] fleet[j].id)
}

/// Whether `fleet` holds an aircraft with the identifier `id`.
pub open spec fn has_aircraft(fleet: Seq<AircraftView>, id: Seq<char>) -> bool {
    exists|i: int| 0 <= i < fleet.len() && #[trigger] fleet[i].id == id
}

/// The place in `fleet` of the aircraft with the identifier `id`.
pub open spec fn aircraft_index(fleet: Seq<AircraftView>, id: Seq<char>) -> int {
    choose|i: int| 0 <= i < fleet.len() && #[trigger] fleet[i].id == id
}

/// The aircraft of `fleet` with the identifier `id`, if there is one.
pub open spec fn aircraft_entry(fleet: Seq<AircraftView>, id: Seq<char>) -> Option<AircraftView> {
    if has_aircraft(fleet, id) {
        Some(fleet[aircraft_index(fleet, id)])
    } else {
        None
    }
}

/// In an ascending fleet an identifier names at most one place.
pub proof fn lemma_aircraft_unique(fleet: Seq<AircraftView>, i: int, j: int)
    requires
        aircraft_ascending(fleet),
        0 <= i < fleet.len(),
        0 <= j < fleet.len(),
        fleet[i].id == fleet[j].id,
    ensures
        i == j,
{
    if i < j {
        lemma_id_asymmetric(fleet[i].id, fleet[j].id);
    }
    if j < i {
        lemma_id_asymmetric(fleet[j].id, fleet[i].id);
    }
}

/// In an ascending fleet the aircraft found under an identifier is the one
/// that carries it.
pub proof fn lemma_aircraft_entry_at(fleet: Seq<AircraftView>, i: int)
    requires
        aircraft_ascending(fleet),
        0 <= i < fleet.len(),
    ensures
        has_aircraft(fleet, fleet[i].id),
        aircraft_index(fleet, fleet[i].id) == i,
        aircraft_entry(fleet, fleet[i].id) == Some(fleet[i]),
{
    lemma_aircraft_unique(fleet, i, aircraft_index(fleet, fleet[i].id));
}

/// The aircraft of a list as mathematical values, in the order of the list.
pub open spec fn aircraft_views(entries: Seq<Aircraft>) -> Seq<AircraftView> {
    entries.map_values(|a: Aircraft| a@)
}

/// Replacing the aircraft at place `p` by one with the same identifier keeps
/// the fleet ascending and changes what is found under that identifier only.
proof fn lemma_replace_aircraft(before: Seq<AircraftView>, p: int, added: AircraftView)
    requires
        aircraft_ascending(before),
        0 <= p < before.len(),
        before[p].id == added.id,
    ensures
        has_aircraft(before, added.id),
        aircraft_ascending(before.update(p, added)),
        aircraft_entry(before.update(p, added), added.id) == Some(added),
        forall|id: Seq<char>|
            id != added.id ==> aircraft_entry(before.update(p, added), id) == aircraft_entry(before, id),
{
    let after = before.update(p, added);
    assert forall|i: int, j: int| 0 <= i < j < after.len() implies id_before(
        #[trigger] after[i].id,
        #[trigger] after[j].id,
    ) by {
        assert(after[i].id == before[i].id);
        assert(after[j].id == before[j].id);
    }
    lemma_aircraft_entry_at(after, p);
    assert forall|id: Seq<char>| id != added.id implies aircraft_entry(after, id) == aircraft_entry(before, id) by {
        if has_aircraft(before, id) {
            let i = aircraft_index(before, id);
            assert(after[i] == before[i]);
            lemma_aircraft_entry_at(after, i);
        }
        if has_aircraft(after, id) {
            let i = aircraft_index(after, id);
            assert(after[i] == before[i]);
            lemma_aircraft_entry_at(before, i);
        }
    }
}

/// Inserting an aircraft at the place where its identifier belongs keeps the
/// fleet ascending and changes what is found under that identifier only.
proof fn lemma_insert_aircraft(before: Seq<AircraftView>, p: int, added: AircraftView)
    requires
        aircraft_ascending(before),
        0 <= p <= before.len(),
        forall|i: int| 0 <= i < p ==> id_before(#[trigger] before[i].id, added.id),
        p < before.len() ==> !id_before(before[p].id, added.id) && before[p].id != added.id,
    ensures
        !has_aircraft(before, added.id),
        aircraft_ascending(before.insert(p, added)),
        aircraft_entry(before.insert(p, added), added.id) == Some(added),
        forall|id: Seq<char>|
            id != added.id ==> aircraft_entry(before.insert(p, added), id) == aircraft_entry(before, id),
{
    let after = before.insert(p, added);
    if has_aircraft(before, added.id) {
        let i = aircraft_index(before, added.id);
        if i < p {
            lemma_id_asymmetric(before[i].id, added.id);
        } else if i > p {
            if !id_before(added.id, before[p].id) {
                lemma_id_connected(added.id, before[p].id);
            }
            lemma_id_transitive(added.id, before[p].id, before[i].id);
            lemma_id_asymmetric(added.id, before[i].id);
        }
    }
    assert forall|i: int| p < i < after.len() implies id_before(added.id, #[trigger] after[i].id) by {
        assert(after[i] == before[i - 1]);
        if !id_before(added.id, before[p].id) {
            lemma_id_connected(added.id, before[p].id);
        }
        if i - 1 > p {
            lemma_id_transitive(added.id, before[p].id, before[i - 1].id);
        }
    }
    assert forall|i: int, j: int| 0 <= i < j < after.len() implies id_before(
        #[trigger] after[i].id,
        #[trigger] after[j].id,
    ) by {
        if i < p {
            assert(after[i] == before[i]);
        } else if i > p {
            assert(after[i] == before[i - 1]);
        }
        if j < p {
            assert(after[j] == before[j]);
        } else if j > p {
            assert(after[j] == before[j - 1]);
        }
    }
    lemma_aircraft_entry_at(after, p);
    assert forall|id: Seq<char>| id != added.id implies aircraft_entry(after, id) == aircraft_entry(before, id) by {
        if has_aircraft(before, id) {
            let i = aircraft_index(before, id);
            let k = if i < p { i } else { i + 1 };
            assert(after[k] == before[i]);
            lemma_aircraft_entry_at(after, k);
        }
        if has_aircraft(after, id) {
            let k = aircraft_index(after, id);
            let i = if k < p { k } else { k - 1 };
            assert(after[k] == before[i]);
            lemma_aircraft_entry_at(before, i);
        }
    }
}

/// The aircraft of an airline, each under its own identifier, kept in
/// ascending order of identifier.
#[derive(Debug, PartialEq, Eq)]
pub struct Fleet {
    entries: Vec<Aircraft>,
}

impl View for Fleet {
    type V = Seq<AircraftView>;

    closed spec fn view(&self) -> Seq<AircraftView> {
        aircraft_views(self.entries@)
    }
}

impl Fleet {
    #[verifier::type_invariant]
    spec fn ascending(self) -> bool {
        aircraft_ascending(self@)
    }

    /// A fleet without aircraft.
    pub fn new() -> (fleet: Fleet)
        ensures
            fleet@ == Seq::<AircraftView>::empty(),
    {
        let entries: Vec<Aircraft> = Vec::new();
        assert(aircraft_views(entries@) =~= Seq::<AircraftView>::empty());
        Fleet { entries }
    }

    /// States that the identifiers of the fleet strictly ascend.
    pub fn ordered(&self)
        ensures
            aircraft_ascending(self@),
    {
        proof {
            use_type_invariant(self);
        }
    }

    /// The number of aircraft.
    pub fn len(&self) -> (n: usize)
        ensures
            n == self@.len(),
    {
        self.entries.len()
    }

    /// The aircraft at place `i` in ascending order of identifier.
    pub fn at(&self, i: usize) -> (aircraft: &Aircraft)
        requires
            i < self@.len(),
        ensures
            aircraft@ == self@[i as int],
    {
        &self.entries[i]
    }

    /// The first place whose identifier does not sort before `id`.
    fn lower_bound(&self, id: &String) -> (p: usize)
        ensures
            p <= self@.len(),
            forall|i: int| 0 <= i < p ==> id_before(#[trigger] self@[i].id, id@),
            p < self@.len() ==> !id_before(self@[p as int].id, id@),
    {
        let n = self.entries.len();
        let mut p: usize = 0;
        while p < n
            invariant
                n == self.entries@.len(),
                p <= n,
                forall|i: int| 0 <= i < p ==> id_before(#[trigger] self@[i].id, id@),
            decreases n - p,
        {
            if !sorts_before(&self.entries[p].id, id) {
                return p;
            }
            p = p + 1;
        }
        p
    }

    /// The place of the aircraft with the identifier `id`.
    pub fn index_of(&self, id: &String) -> (found: Option<usize>)
        ensures
            found is Some <==> has_aircraft(self@, id@),
            found is Some ==> found->0 < self@.len() && aircraft_index(self@, id@) == found->0
                && self@[found->0 as int].id == id@,
    {
        let p = self.lower_bound(id);
        proof {
            use_type_invariant(self);
        }
        if p < self.entries.len() && self.entries[p].id == *id {
            proof {
                lemma_aircraft_entry_at(self@, p as int);
            }
            Some(p)
        } else {
            proof {
                if has_aircraft(self@, id@) {
                    let i = aircraft_index(self@, id@);
                    if i < p {
                        lemma_id_asymmetric(self@[i].id, id@);
                    } else if i > p {
                        lemma_id_asymmetric(self@[p as int].id, self@[i].id);
                    }
                }
            }
            None
        }
    }

    /// The aircraft with the identifier `id`.
    pub fn get(&self, id: &String) -> (found: Option<&Aircraft>)
        ensures
            match found {
                Some(aircraft) => aircraft_entry(self@, id@) == Some(aircraft@),
                None => !has_aircraft(self@, id@),
            },
    {
        match self.index_of(id) {
            Some(i) => Some(&self.entries[i]),
            None => None,
        }
    }

    /// Adds `aircraft` under its identifier. An aircraft that was held under
    /// the same identifier is replaced.
    pub fn insert(&mut self, aircraft: Aircraft)
        ensures
            aircraft_ascending(final(self)@),
            aircraft_entry(final(self)@, aircraft@.id) == Some(aircraft@),
            forall|id: Seq<char>|
                id != aircraft@.id ==> aircraft_entry(final(self)@, id) == aircraft_entry(old(self)@, id),
            final(self)@.len() == old(self)@.len() + if has_aircraft(old(self)@, aircraft@.id) {
                0int
            } else {
                1int
            },
    {
        let p = self.lower_bound(&aircraft.id);
        proof {
            use_type_invariant(&*self);
        }
        let ghost before = self@;
        let ghost added = aircraft@;
        let mut entries: Vec<Aircraft> = Vec::new();
        assert(aircraft_views(entries@) =~= Seq::<AircraftView>::empty());
        core::mem::swap(&mut self.entries, &mut entries);
        if p < entries.len() && entries[p].id == aircraft.id {
            entries[p] = aircraft;
            proof {
                assert(aircraft_views(entries@) =~= before.update(p as int, added));
                lemma_replace_aircraft(before, p as int, added);
            }
        } else {
            entries.insert(p, aircraft);
            proof {
                assert(aircraft_views(entries@) =~= before.insert(p as int, added));
                lemma_insert_aircraft(before, p as int, added);
            }
        }
        self.entries = entries;
    }
}

} // verus!
