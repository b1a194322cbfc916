//! Airports, their curfews, and the table of airports.

use vstd::prelude::*;

use crate::ident::{id_before, lemma_id_asymmetric, lemma_id_connected, lemma_id_transitive, sorts_before};
use crate::text::push_text;
use crate::time::{time_text, Time};
use vstd::string::StringExecFns;

verus! {

/// Identifier of an airport.
pub type AirportId = String;

/// A window during which an airport is closed to departures and arrivals.
#[derive(Clone, Debug, PartialEq, Eq)]
pub struct Curfew {
    pub from: Time,
    pub to: Time,
}

/// A curfew as a mathematical value.
pub struct CurfewView {
    pub from: int,
    pub to: int,
}

impl CurfewView {
    /// The curfew is in force at the instant `at`; both ends count.
    pub open spec fn covers(self, at: int) -> bool {
        self.from <= at && self.to >= at
    }
}

impl View for Curfew {
    type V = CurfewView;

    open spec fn view(&self) -> CurfewView {
        CurfewView { from: self.from@, to: self.to@ }
    }
}

/// A station with a minimum turnaround time and its curfews.
#[derive(Clone, Debug, PartialEq, Eq)]
pub struct Airport {
    pub id: AirportId,
    pub mtt: u64,
    pub disruptions: Vec<Curfew>,
}

/// An airport as a mathematical value.
pub struct AirportView {
    pub id: Seq<char>,
    pub mtt: nat,
    pub curfews: Seq<CurfewView>,
}

impl View for Airport {
    type V = AirportView;

    open spec fn view(&self) -> AirportView {
        AirportView {
            id: self.id@,
            mtt: self.mtt as nat,
            curfews: self.disruptions@.map_values(|c: Curfew| c@),
        }
    }
}

/// The minimum turnaround time of the airport `id`: the minutes an aircraft
/// stays on the ground after landing there. Zero for an unknown airport.
pub open spec fn turnaround(airports: Seq<AirportView>, id: Seq<char>) -> nat {
    if has_airport(airports, id) {
        airports[airport_index(airports, id)].mtt
    } else {
        0
    }
}

/// Whether the airport `id` is under curfew at the instant `at`. An unknown
/// airport is never closed.
pub open spec fn closed_at(airports: Seq<AirportView>, id: Seq<char>, at: int) -> bool {
    has_airport(airports, id) && exists|k: int|
        0 <= k < airports[airport_index(airports, id)].curfews.len()
            && (#[trigger] airports[airport_index(airports, id)].curfews[k]).covers(at)
}

/// The airports after the curfew `curfew` is declared at the airport `id`:
/// the window is appended to that airport's curfews. Nothing changes when
/// there is no such airport.
pub open spec fn with_curfew(airports: Seq<AirportView>, id: Seq<char>, curfew: CurfewView) -> Seq<AirportView> {
    if has_airport(airports, id) {
        let i = airport_index(airports, id);
        airports.update(i, AirportView { curfews: airports[i].curfews.push(curfew), ..airports[i] })
    } else {
        airports
    }
}

/// The identifiers of `airports` strictly ascend: the list is sorted by
/// identifier and no identifier occurs twice.
pub open spec fn airports_ascending(airports: Seq<AirportView>) -> bool {
    forall|i: int, j: int|
        0 <= i < j < airports.len() ==> id_before(#[trigger] airports[i].id, #[trigger] airports[j].id)
}

/// Whether `airports` holds an airport with the identifier `id`.
pub open spec fn has_airport(airports: Seq<AirportView>, id: Seq<char>) -> bool {
    exists|i: int| 0 <= i < airports.len() && #[trigger] airports[i].id == id
}

/// The place in `airports` of the airport with the identifier `id`.
pub open spec fn airport_index(airports: Seq<AirportView>, id: Seq<char>) -> int {
    choose|i: int| 0 <= i < airports.len() && #[trigger] airports[i].id == id
}

/// The airport of `airports` with the identifier `id`, if there is one.
pub open spec fn airport_entry(airports: Seq<AirportView>, id: Seq<char>) -> Option<AirportView> {
    if has_airport(airports, id) {
        Some(airports[airport_index(airports, id)])
    } else {
        None
    }
}

/// In an ascending list an identifier names at most one place.
pub proof fn lemma_airport_unique(airports: Seq<AirportView>, i: int, j: int)
    requires
        airports_ascending(airports),
        0 <= i < airports.len(),
        0 <= j < airports.len(),
        airports[i].id == airports[j].id,
    ensures
        i == j,
{
    if i < j {
        lemma_id_asymmetric(airports[i].id, airports[j].id);
    }
    if j < i {
        lemma_id_asymmetric(airports[j].id, airports[i].id);
    }
}

/// In an ascending list the airport found under an identifier is the one
/// that carries it.
pub proof fn lemma_airport_entry_at(airports: Seq<AirportView>, i: int)
    requires
        airports_ascending(airports),
        0 <= i < airports.len(),
    ensures
        has_airport(airports, airports[i].id),
        airport_index(airports, airports[i].id) == i,
        airport_entry(airports, airports[i].id) == Some(airports[i]),
{
    lemma_airport_unique(airports, i, airport_index(airports, airports[i].id));
}

/// Declaring a curfew at a known airport appends the window to that
/// airport's curfews and leaves every other airport, every identifier and
/// every turnaround time as it was.
pub proof fn lemma_with_curfew(airports: Seq<AirportView>, id: Seq<char>, curfew: CurfewView)
    requires
        airports_ascending(airports),
    ensures
        airports_ascending(with_curfew(airports, id, curfew)),
        with_curfew(airports, id, curfew).len() == airports.len(),
        forall|other: Seq<char>| has_airport(with_curfew(airports, id, curfew), other) == has_airport(airports, other),
        forall|other: Seq<char>|
            has_airport(airports, other) ==> airport_index(with_curfew(airports, id, curfew), other) == airport_index(
                airports,
                other,
            ),
        forall|other: Seq<char>| turnaround(with_curfew(airports, id, curfew), other) == turnaround(airports, other),
        forall|other: Seq<char>|
            other != id ==> airport_entry(with_curfew(airports, id, curfew), other) == airport_entry(airports, other),
        has_airport(airports, id) ==> airport_entry(with_curfew(airports, id, curfew), id) == Some(
            AirportView {
                curfews: airport_entry(airports, id)->0.curfews.push(curfew),
                ..airport_entry(airports, id)->0
            },
        ),
{
    let after = with_curfew(airports, id, curfew);
    assert forall|i: int| 0 <= i < airports.len() implies (#[trigger] after[i]).id == airports[i].id && after[i].mtt
        == airports[i].mtt by {}
    assert forall|i: int, j: int| 0 <= i < j < after.len() implies id_before(
        #[trigger] after[i].id,
        #[trigger] after[j].id,
    ) by {
        assert(after[i].id == airports[i].id);
        assert(after[j].id == airports[j].id);
    }
    assert forall|other: Seq<char>| has_airport(after, other) == has_airport(airports, other) by {
        if has_airport(after, other) {
            let i = airport_index(after, other);
            assert(airports[i].id == other);
        }
        if has_airport(airports, other) {
            let i = airport_index(airports, other);
            assert(after[i].id == other);
        }
    }
    assert forall|other: Seq<char>| has_airport(airports, other) implies airport_index(after, other) == airport_index(
        airports,
        other,
    ) by {
        let i = airport_index(airports, other);
        assert(after[i].id == other);
        lemma_airport_entry_at(after, i);
    }
    assert forall|other: Seq<char>| other != id implies airport_entry(after, other) == airport_entry(
        airports,
        other,
    ) by {
        if has_airport(airports, other) {
            let i = airport_index(airports, other);
            assert(after[i].id == other);
        }
    }
}

/// The airports of a list as mathematical values, in the order of the list.
pub open spec fn airport_views(entries: Seq<Airport>) -> Seq<AirportView> {
    entries.map_values(|a: Airport| a@)
}

/// Replacing the airport at place `p` by one with the same identifier keeps
/// the list ascending and changes what is found under that identifier only.
proof fn lemma_replace_airport(before: Seq<AirportView>, p: int, added: AirportView)
    requires
        airports_ascending(before),
        0 <= p < before.len(),
        before[p].id == added.id,
    ensures
        has_airport(before, added.id),
        airports_ascending(before.update(p, added)),
        airport_entry(before.update(p, added), added.id) == Some(added),
        forall|id: Seq<char>|
            id != added.id ==> airport_entry(before.update(p, added), id) == airport_entry(before, id),
{
    let after = before.update(p, added);
    assert forall|i: int, j: int| 0 <= i < j < after.len() implies id_before(
        #[trigger] after[i].id,
        #[trigger] after[j].id,
    ) by {
        assert(after[i].id == before[i].id);
        assert(after[j].id == before[j].id);
    }
    lemma_airport_entry_at(after, p);
    assert forall|id: Seq<char>| id != added.id implies airport_entry(after, id) == airport_entry(before, id) by {
        if has_airport(before, id) {
            let i = airport_index(before, id);
            assert(after[i] == before[i]);
            lemma_airport_entry_at(after, i);
        }
        if has_airport(after, id) {
            let i = airport_index(after, id);
            assert(after[i] == before[i]);
            lemma_airport_entry_at(before, i);
        }
    }
}

/// Inserting an airport at the place where its identifier belongs keeps the
/// list ascending and changes what is found under that identifier only.
proof fn lemma_insert_airport(before: Seq<AirportView>, p: int, added: AirportView)
    requires
        airports_ascending(before),
        0 <= p <= before.len(),
        forall|i: int| 0 <= i < p ==> id_before(#[trigger] before[i].id, added.id),
        p < before.len() ==> !id_before(before[p].id, added.id) && before[p].id != added.id,
    ensures
        !has_airport(before, added.id),
        airports_ascending(before.insert(p, added)),
        airport_entry(before.insert(p, added), added.id) == Some(added),
        forall|id: Seq<char>|
            id != added.id ==> airport_entry(before.insert(p, added), id) == airport_entry(before, id),
{
    let after = before.insert(p, added);
    if has_airport(before, added.id) {
        let i = airport_index(before, added.id);
        if i < p {
            lemma_id_asymmetric(before[i].id, added.id);
        } else if i > p {
            if !id_before(added.id, before[p].id) {
                lemma_id_connected(added.id, before[p].id);
            }
            lemma_id_transitive(added.id, before[p].id, before[i].id);
            lemma_id_asymmetric(added.id, before[i].id);
        }
    }
    assert forall|i: int| p < i < after.len() implies id_before(added.id, #[trigger] after[i].id) by {
        assert(after[i] == before[i - 1]);
        if !id_before(added.id, before[p].id) {
            lemma_id_connected(added.id, before[p].id);
        }
        if i - 1 > p {
            lemma_id_transitive(added.id, before[p].id, before[i - 1].id);
        }
    }
    assert forall|i: int, j: int| 0 <= i < j < after.len() implies id_before(
        #[trigger] after[i].id,
        #[trigger] after[j].id,
    ) by {
        if i < p {
            assert(after[i] == before[i]);
        } else if i > p {
            assert(after[i] == before[i - 1]);
        }
        if j < p {
            assert(after[j] == before[j]);
        } else if j > p {
            assert(after[j] == before[j - 1]);
        }
    }
    lemma_airport_entry_at(after, p);
    assert forall|id: Seq<char>| id != added.id implies airport_entry(after, id) == airport_entry(before, id) by {
        if has_airport(before, id) {
            let i = airport_index(before, id);
            let k = if i < p { i } else { i + 1 };
            assert(after[k] == before[i]);
            lemma_airport_entry_at(after, k);
        }
        if has_airport(after, id) {
            let k = airport_index(after, id);
            let i = if k < p { k } else { k - 1 };
            assert(after[k] == before[i]);
            lemma_airport_entry_at(before, i);
        }
    }
}

/// The airports that flights connect, each under its own identifier, kept
/// in ascending order of identifier.
#[derive(Debug, PartialEq, Eq)]
pub struct AirportTable {
    entries: Vec<Airport>,
}

impl View for AirportTable {
    type V = Seq<AirportView>;

    closed spec fn view(&self) -> Seq<AirportView> {
        airport_views(self.entries@)
    }
}

impl AirportTable {
    #[verifier::type_invariant]
    spec fn ascending(self) -> bool {
        airports_ascending(self@)
    }

    /// A table without airports.
    pub fn new() -> (airports: AirportTable)
        ensures
            airports@ == Seq::<AirportView>::empty(),
    {
        let entries: Vec<Airport> = Vec::new();
        assert(airport_views(entries@) =~= Seq::<AirportView>::empty());
        AirportTable { entries }
    }

    /// States that the identifiers of the table strictly ascend.
    pub fn ordered(&self)
        ensures
            airports_ascending(self@),
    {
        proof {
            use_type_invariant(self);
        }
    }

    /// The number of airports.
    pub fn len(&self) -> (n: usize)
        ensures
            n == self@.len(),
    {
        self.entries.len()
    }

    /// The airport at place `i` in ascending order of identifier.
    pub fn at(&self, i: usize) -> (airport: &Airport)
        requires
            i < self@.len(),
        ensures
            airport@ == self@[i as int],
    {
        &self.entries[i]
    }

    /// The first place whose identifier does not sort before `id`.
    fn lower_bound(&self, id: &String) -> (p: usize)
        ensures
            p <= self@.len(),
            forall|i: int| 0 <= i < p ==> id_before(#[trigger] self@[i].id, id@),
            p < self@.len() ==> !id_before(self@[p as int].id, id@),
    {
        let n = self.entries.len();
        let mut p: usize = 0;
        while p < n
            invariant
                n == self.entries@.len(),
                p <= n,
                forall|i: int| 0 <= i < p ==> id_before(#[trigger] self@[i].id, id@),
            decreases n - p,
        {
            if !sorts_before(&self.entries[p].id, id) {
                return p;
            }
            p = p + 1;
        }
        p
    }

    /// The place of the airport with the identifier `id`.
    pub fn index_of(&self, id: &String) -> (found: Option<usize>)
        ensures
            found is Some <==> has_airport(self@, id@),
            found is Some ==> found->0 < self@.len() && airport_index(self@, id@) == found->0
                && self@[found->0 as int].id == id@,
    {
        let p = self.lower_bound(id);
        proof {
            use_type_invariant(self);
        }
        if p < self.entries.len() && self.entries[p].id == *id {
            proof {
                lemma_airport_entry_at(self@, p as int);
            }
            Some(p)
        } else {
            proof {
                if has_airport(self@, id@) {
                    let i = airport_index(self@, id@);
                    if i < p {
                        lemma_id_asymmetric(self@[i].id, id@);
                    } else if i > p {
                        lemma_id_asymmetric(self@[p as int].id, self@[i].id);
                    }
                }
            }
            None
        }
    }

    /// The airport with the identifier `id`.
    pub fn get(&self, id: &String) -> (found: Option<&Airport>)
        ensures
            match found {
                Some(airport) => airport_entry(self@, id@) == Some(airport@),
                None => !has_airport(self@, id@),
            },
    {
        match self.index_of(id) {
            Some(i) => Some(&self.entries[i]),
            None => None,
        }
    }

    /// Adds `airport` under its identifier. An airport that was held under
    /// the same identifier is replaced.
    pub fn insert(&mut self, airport: Airport)
        ensures
            airports_ascending(final(self)@),
            airport_entry(final(self)@, airport@.id) == Some(airport@),
            forall|id: Seq<char>|
                id != airport@.id ==> airport_entry(final(self)@, id) == airport_entry(old(self)@, id),
            final(self)@.len() == old(self)@.len() + if has_airport(old(self)@, airport@.id) {
                0int
            } else {
                1int
            },
    {
        let p = self.lower_bound(&airport.id);
        proof {
            use_type_invariant(&*self);
        }
        let ghost before = self@;
        let ghost added = airport@;
        let mut entries: Vec<Airport> = Vec::new();
        assert(airport_views(entries@) =~= Seq::<AirportView>::empty());
        core::mem::swap(&mut self.entries, &mut entries);
        if p < entries.len() && entries[p].id == airport.id {
            entries[p] = airport;
            proof {
                assert(airport_views(entries@) =~= before.update(p as int, added));
                lemma_replace_airport(before, p as int, added);
            }
        } else {
            entries.insert(p, airport);
            proof {
                assert(airport_views(entries@) =~= before.insert(p as int, added));
                lemma_insert_airport(before, p as int, added);
            }
        }
        self.entries = entries;
    }

    /// The minimum turnaround time of the airport `id`, or zero when the
    /// table holds no such airport.
    pub fn turnaround(&self, id: &String) -> (mtt: u64)
        ensures
            mtt == turnaround(self@, id@),
    {
        match self.index_of(id) {
            Some(i) => self.entries[i].mtt,
            None => 0,
        }
    }

    /// Whether the airport `id` is under curfew at the instant `at`.
    pub fn is_closed_at(&self, id: &String, at: u128) -> (closed: bool)
        ensures
            closed == closed_at(self@, id@, at as int),
    {
        match self.index_of(id) {
            Some(i) => {
                let airport = &self.entries[i];
                let n = airport.disruptions.len();
                let mut k: usize = 0;
                while k < n
                    invariant
                        n == airport.disruptions@.len(),
                        k <= n,
                        0 <= i < self@.len(),
                        airport_index(self@, id@) == i,
                        has_airport(self@, id@),
                        airport@ == self@[i as int],
                        forall|j: int| 0 <= j < k ==> !(#[trigger] airport@.curfews[j]).covers(at as int),
                    decreases n - k,
                {
                    let c = &airport.disruptions[k];
                    assert(c@ == airport@.curfews[k as int]);
                    if c.from.0 as u128 <= at && c.to.0 as u128 >= at {
                        assert(airport@.curfews[k as int].covers(at as int));
                        return true;
                    }
                    k = k + 1;
                }
                false
            },
            None => false,
        }
    }

    /// Declares the curfew `curfew` at the airport `id`. Returns whether the
    /// table holds such an airport; when it does not, nothing changes.
    pub fn add_curfew(&mut self, id: &String, curfew: Curfew) -> (known: bool)
        ensures
            known == has_airport(old(self)@, id@),
            final(self)@ == with_curfew(old(self)@, id@, curfew@),
            airports_ascending(old(self)@),
            airports_ascending(final(self)@),
    {
        proof {
            use_type_invariant(&*self);
            lemma_with_curfew(self@, id@, curfew@);
        }
        let ghost before = self@;
        match self.index_of(id) {
            Some(i) => {
                let mut entries: Vec<Airport> = Vec::new();
                assert(airport_views(entries@) =~= Seq::<AirportView>::empty());
                core::mem::swap(&mut self.entries, &mut entries);
                entries[i].disruptions.push(curfew);
                proof {
                    let after = airport_views(entries@);
                    assert(after[i as int].curfews =~= before[i as int].curfews.push(curfew@));
                    assert(after =~= with_curfew(before, id@, curfew@));
                    assert forall|a: int, b: int| 0 <= a < b < after.len() implies id_before(
                        #[trigger] after[a].id,
                        #[trigger] after[b].id,
                    ) by {
                        assert(after[a].id == before[a].id);
                        assert(after[b].id == before[b].id);
                    }
                }
                self.entries = entries;
                true
            },
            None => false,
        }
    }
}

/// A curfew as text: its two ends with a hyphen between them.
pub open spec fn curfew_text(curfew: CurfewView) -> Seq<char> {
    time_text(curfew.from) + seq!['-'] + time_text(curfew.to)
}

/// The first `n` curfews of the list as text, separated by a comma and a
/// space.
pub open spec fn curfews_text(curfews: Seq<CurfewView>, n: int) -> Seq<char>
    decreases n,
{
    if n <= 0 {
        Seq::empty()
    } else if n == 1 {
        curfew_text(curfews[0])
    } else {
        curfews_text(curfews, n - 1) + seq![',', ' '] + curfew_text(curfews[n - 1])
    }
}

/// The curfews of an airport as text: the word `None` when there are none.
pub open spec fn disruptions_text(curfews: Seq<CurfewView>) -> Seq<char> {
    if curfews.len() == 0 {
        seq!['N', 'o', 'n', 'e']
    } else {
        curfews_text(curfews, curfews.len() as int)
    }
}

/// The curfews `disruptions` as text, for a table cell.
pub fn format_disruptions(disruptions: &Vec<Curfew>) -> (text: String)
    ensures
        text@ == disruptions_text(disruptions@.map_values(|c: Curfew| c@)),
{
    proof {
        reveal_strlit("None");
        reveal_strlit("");
    }
    let ghost curfews = disruptions@.map_values(|c: Curfew| c@);
    if disruptions.len() == 0 {
        let text = String::from_str("None");
        assert(text@ =~= seq!['N', 'o', 'n', 'e']);
        return text;
    }
    let mut text = String::from_str("");
    assert(text@ =~= Seq::empty());
    let n = disruptions.len();
    let mut k: usize = 0;
    while k < n
        invariant
            n == disruptions@.len(),
            k <= n,
            curfews == disruptions@.map_values(|c: Curfew| c@),
            text@ == curfews_text(curfews, k as int),
        decreases n - k,
    {
        proof {
            reveal_strlit("-");
            reveal_strlit(", ");
        }
        let ghost head = text@;
        if k > 0 {
            text.append(", ");
            assert(text@ =~= head + seq![',', ' ']);
        }
        let ghost lead = text@;
        let from = disruptions[k].from.to_string();
        let to = disruptions[k].to.to_string();
        assert(disruptions@[k as int]@ == curfews[k as int]);
        push_text(&mut text, &from);
        text.append("-");
        push_text(&mut text, &to);
        assert(text@ =~= lead + curfew_text(curfews[k as int]));
        assert(k == 0 ==> lead =~= Seq::<char>::empty());
        assert(text@ =~= curfews_text(curfews, k + 1));
        k = k + 1;
    }
    text
}

impl Airport {
    /// The airport as text: its identifier.
    pub fn to_string(&self) -> (text: String)
        ensures
            text@ == self@.id,
    {
        self.id.clone()
    }
}

} // verus!
