//! What holds of a store: ranges that cut the arrays into consecutive
//! pieces, and back-references that agree with the ranges.
//!
//! `wf` is the invariant of a store as the converter builds it. A store made
//! by filtering keeps the part of it that speaks of the countries' ranges
//! (`consistent`); its states and cities are copies and keep the ids and
//! city ranges they had in the store they came from. The searches by name
//! find the parents of a record at the positions that its ids give, so they
//! ask for a store whose ids are positions (`GeoDb::searchable`).

use vstd::prelude::*;
use crate::model::{GeoDb, GeoDbModel};

verus! {

impl GeoDbModel {
    /// Where the states of country `k` begin when the countries' state
    /// ranges follow each other without a gap: at the end of the range of
    /// the country before, or at 0.
    pub open spec fn states_boundary(self, k: int) -> int {
        if k <= 0 {
            0
        } else {
            self.countries[k - 1].states_end
        }
    }

    /// Where the cities of country `k` begin when the countries' city ranges
    /// follow each other without a gap.
    pub open spec fn country_cities_boundary(self, k: int) -> int {
        if k <= 0 {
            0
        } else {
            self.countries[k - 1].cities_end
        }
    }

    /// Where the cities of state `j` begin when the states' city ranges
    /// follow each other without a gap.
    pub open spec fn state_cities_boundary(self, j: int) -> int {
        if j <= 0 {
            0
        } else {
            self.states[j - 1].cities_end
        }
    }

    /// Every country's ranges are valid slices of the state and city arrays.
    pub open spec fn ranges_in_bounds(self) -> bool {
        forall|k: int|
            0 <= k < self.countries.len() ==> {
                let c = #[trigger] self.countries[k];
                &&& 0 <= c.states_start <= c.states_end <= self.states.len()
                &&& 0 <= c.cities_start <= c.cities_end <= self.cities.len()
            }
    }

    /// The countries' ranges cut the state array and the city array into
    /// consecutive pieces, in country order, and leave nothing out.
    pub open spec fn countries_partition(self) -> bool {
        &&& forall|k: int|
            0 <= k < self.countries.len() ==> {
                &&& #[trigger] self.states_boundary(k) == self.countries[k].states_start
                &&& self.countries[k].states_start <= self.countries[k].states_end
            }
        &&& forall|k: int|
            0 <= k < self.countries.len() ==> {
                &&& #[trigger] self.country_cities_boundary(k) == self.countries[k].cities_start
                &&& self.countries[k].cities_start <= self.countries[k].cities_end
            }
        &&& self.states_boundary(self.countries.len() as int) == self.states.len()
        &&& self.country_cities_boundary(self.countries.len() as int) == self.cities.len()
    }

    /// The ranges of country `k` begin where the ranges of the country
    /// before it end, and they end no earlier than they begin.
    pub open spec fn country_in_place(self, k: int) -> bool {
        &&& self.states_boundary(k) == self.countries[k].states_start
        &&& self.countries[k].states_start <= self.countries[k].states_end
        &&& self.country_cities_boundary(k) == self.countries[k].cities_start
        &&& self.countries[k].cities_start <= self.countries[k].cities_end
    }

    /// The first `n` countries are in place.
    pub open spec fn partitioned_upto(self, n: int) -> bool {
        forall|k: int| 0 <= k < n ==> #[trigger] self.country_in_place(k)
    }

    /// The states' ranges cut the city array into consecutive pieces, in
    /// state order, and leave nothing out.
    pub open spec fn states_partition(self) -> bool {
        &&& forall|j: int|
            0 <= j < self.states.len() ==> {
                &&& #[trigger] self.state_cities_boundary(j) == self.states[j].cities_start
                &&& self.states[j].cities_start <= self.states[j].cities_end
            }
        &&& self.state_cities_boundary(self.states.len() as int) == self.cities.len()
    }

    /// A country's city range is made of the city ranges of its states.
    pub open spec fn ranges_nested(self) -> bool {
        forall|k: int|
            0 <= k < self.countries.len() ==> {
                let c = #[trigger] self.countries[k];
                &&& c.cities_start == self.state_cities_boundary(c.states_start)
                &&& c.cities_end == self.state_cities_boundary(c.states_end)
            }
    }

    /// The id of a country and the id of a state are their positions.
    pub open spec fn ids_are_positions(self) -> bool {
        &&& forall|k: int| 0 <= k < self.countries.len() ==> (#[trigger] self.countries[k]).id == k
        &&& forall|j: int| 0 <= j < self.states.len() ==> (#[trigger] self.states[j]).id == j
    }

    /// Every state in a country's range names that country.
    pub open spec fn states_linked(self) -> bool {
        forall|k: int, j: int|
            0 <= k < self.countries.len() && 0 <= j < self.states.len() && (
            #[trigger] self.countries[k]).states_start <= j < self.countries[k].states_end ==> (
            #[trigger] self.states[j]).country_id == self.countries[k].id
    }

    /// Every city in a state's range names that state and the state's
    /// country.
    pub open spec fn cities_linked(self) -> bool {
        forall|j: int, i: int|
            0 <= j < self.states.len() && 0 <= i < self.cities.len() && (
            #[trigger] self.states[j]).cities_start <= i < self.states[j].cities_end ==> {
                &&& (#[trigger] self.cities[i]).state_id == self.states[j].id
                &&& self.cities[i].country_id == self.states[j].country_id
            }
    }

    /// Every city in a country's range names that country.
    pub open spec fn country_cities_linked(self) -> bool {
        forall|k: int, i: int|
            0 <= k < self.countries.len() && 0 <= i < self.cities.len() && (
            #[trigger] self.countries[k]).cities_start <= i < self.countries[k].cities_end ==> (
            #[trigger] self.cities[i]).country_id == self.countries[k].id
    }

    /// What a store keeps of its invariant when it is filtered: the
    /// countries' ranges cut the arrays into consecutive pieces, and the
    /// states and cities in the ranges of a country carry its id.
    pub open spec fn consistent(self) -> bool {
        &&& self.countries_partition()
        &&& self.states_linked()
        &&& self.country_cities_linked()
    }

    /// Every back-reference is a position of the array it points into.
    pub open spec fn parents_in_bounds(self) -> bool {
        &&& forall|j: int|
            0 <= j < self.states.len() ==> 0 <= (#[trigger] self.states[j]).country_id
                < self.countries.len()
        &&& forall|i: int|
            0 <= i < self.cities.len() ==> {
                &&& 0 <= (#[trigger] self.cities[i]).country_id < self.countries.len()
                &&& 0 <= self.cities[i].state_id < self.states.len()
            }
    }

    /// The invariant of a built store.
    pub open spec fn wf(self) -> bool {
        &&& self.countries_partition()
        &&& self.states_partition()
        &&& self.ranges_nested()
        &&& self.ids_are_positions()
        &&& self.states_linked()
        &&& self.cities_linked()
    }
}

/// In a partitioned store every country is in place.
pub proof fn lemma_partition_places(db: GeoDbModel, k: int)
    requires
        db.countries_partition(),
        0 <= k < db.countries.len(),
    ensures
        db.country_in_place(k),
{
    assert(db.states_boundary(k) == db.countries[k].states_start);
    assert(db.country_cities_boundary(k) == db.countries[k].cities_start);
}

/// A store whose countries are all in place, and whose last ranges end
/// where the arrays end, is partitioned.
pub proof fn lemma_places_partition(db: GeoDbModel)
    requires
        db.partitioned_upto(db.countries.len() as int),
        db.states_boundary(db.countries.len() as int) == db.states.len(),
        db.country_cities_boundary(db.countries.len() as int) == db.cities.len(),
    ensures
        db.countries_partition(),
{
    assert forall|k: int| 0 <= k < db.countries.len() implies {
        &&& #[trigger] db.states_boundary(k) == db.countries[k].states_start
        &&& db.countries[k].states_start <= db.countries[k].states_end
    } by {
        assert(db.country_in_place(k));
    }
    assert forall|k: int| 0 <= k < db.countries.len() implies {
        &&& #[trigger] db.country_cities_boundary(k) == db.countries[k].cities_start
        &&& db.countries[k].cities_start <= db.countries[k].cities_end
    } by {
        assert(db.country_in_place(k));
    }
}

/// In a store whose countries' state ranges follow each other, the ranges
/// grow along the countries: a range of an earlier country ends no later
/// than a range of a later country begins.
pub proof fn lemma_state_ranges_ordered(db: GeoDbModel, a: int, b: int)
    requires
        db.countries_partition(),
        0 <= a <= b <= db.countries.len(),
    ensures
        0 <= db.states_boundary(a) <= db.states_boundary(b),
        0 <= db.country_cities_boundary(a) <= db.country_cities_boundary(b),
    decreases b,
{
    if b > 0 {
        let c = db.countries[b - 1];
        if a < b {
            lemma_state_ranges_ordered(db, a, b - 1);
        } else {
            lemma_state_ranges_ordered(db, 0, b - 1);
        }
    }
}

/// In a store whose countries' ranges cut the arrays into consecutive
/// pieces, every range is a valid slice.
pub proof fn lemma_partition_in_bounds(db: GeoDbModel)
    requires
        db.countries_partition(),
    ensures
        db.ranges_in_bounds(),
{
    assert forall|k: int| 0 <= k < db.countries.len() implies {
        let c = #[trigger] db.countries[k];
        &&& 0 <= c.states_start <= c.states_end <= db.states.len()
        &&& 0 <= c.cities_start <= c.cities_end <= db.cities.len()
    } by {
        lemma_state_ranges_ordered(db, 0, k);
        lemma_state_ranges_ordered(db, k + 1, db.countries.len() as int);
    }
}

/// Among the first `n` countries of a partitioned store, every state
/// position below their common end lies in the range of one of them.
pub proof fn lemma_state_has_country(db: GeoDbModel, j: int, n: int) -> (k: int)
    requires
        db.countries_partition(),
        0 <= n <= db.countries.len(),
        0 <= j < db.states_boundary(n),
    ensures
        0 <= k < n,
        db.countries[k].states_start <= j < db.countries[k].states_end,
    decreases n,
{
    let c = db.countries[n - 1];
    if c.states_start <= j {
        n - 1
    } else {
        lemma_state_has_country(db, j, n - 1)
    }
}

/// Among the first `n` states of a store whose states' city ranges follow
/// each other, every city position below their common end lies in the range
/// of one of them.
pub proof fn lemma_city_has_state(db: GeoDbModel, i: int, n: int) -> (j: int)
    requires
        db.states_partition(),
        0 <= n <= db.states.len(),
        0 <= i < db.state_cities_boundary(n),
    ensures
        0 <= j < n,
        db.states[j].cities_start <= i < db.states[j].cities_end,
    decreases n,
{
    let s = db.states[n - 1];
    if s.cities_start <= i {
        n - 1
    } else {
        lemma_city_has_state(db, i, n - 1)
    }
}

/// The ranges and the back-references of a built store agree on who owns a
/// state: the position `j` of a state lies in the state range of exactly
/// one country, and that country is the one whose id the state carries.
pub proof fn lemma_state_owner(db: GeoDbModel, j: int)
    requires
        db.wf(),
        0 <= j < db.states.len(),
    ensures
        ({
            let k = db.states[j].country_id;
            &&& 0 <= k < db.countries.len()
            &&& db.countries[k].id == k
            &&& db.countries[k].states_start <= j < db.countries[k].states_end
            &&& forall|other: int|
                0 <= other < db.countries.len() && (#[trigger] db.countries[other]).states_start <= j
                    < db.countries[other].states_end ==> other == k
        }),
{
    let k = lemma_state_has_country(db, j, db.countries.len() as int);
    assert(db.states[j].country_id == db.countries[k].id);
    assert forall|other: int|
        0 <= other < db.countries.len() && (#[trigger] db.countries[other]).states_start <= j
            < db.countries[other].states_end implies other == k by {
        assert(db.states[j].country_id == db.countries[other].id);
    }
}

/// The ranges and the back-references of a built store agree on which state
/// owns a city: the position `i` of a city lies in the city range of exactly
/// one state, and that state is the one whose id the city carries.
pub proof fn lemma_city_state(db: GeoDbModel, i: int)
    requires
        db.states_partition(),
        db.cities_linked(),
        db.ids_are_positions(),
        0 <= i < db.cities.len(),
    ensures
        ({
            let j = db.cities[i].state_id;
            &&& 0 <= j < db.states.len()
            &&& db.states[j].id == j
            &&& db.states[j].country_id == db.cities[i].country_id
            &&& db.states[j].cities_start <= i < db.states[j].cities_end
            &&& forall|other: int|
                0 <= other < db.states.len() && (#[trigger] db.states[other]).cities_start <= i
                    < db.states[other].cities_end ==> other == j
        }),
{
    let j = lemma_city_has_state(db, i, db.states.len() as int);
    assert(db.cities[i].state_id == db.states[j].id);
    assert forall|other: int|
        0 <= other < db.states.len() && (#[trigger] db.states[other]).cities_start <= i
            < db.states[other].cities_end implies other == j by {
        assert(db.cities[i].state_id == db.states[other].id);
    }
}

/// The ranges and the back-references of a built store agree on which
/// country owns a city: the position `i` of a city lies in the city range of
/// exactly one country, and that country is the one whose id the city
/// carries, which is also the country of the city's state.
pub proof fn lemma_city_country(db: GeoDbModel, i: int)
    requires
        db.wf(),
        0 <= i < db.cities.len(),
    ensures
        ({
            let j = db.cities[i].state_id;
            let k = db.cities[i].country_id;
            &&& 0 <= j < db.states.len()
            &&& db.states[j].country_id == k
            &&& 0 <= k < db.countries.len()
            &&& db.countries[k].id == k
            &&& db.countries[k].states_start <= j < db.countries[k].states_end
            &&& db.countries[k].cities_start <= i < db.countries[k].cities_end
            &&& forall|other: int|
                0 <= other < db.countries.len() && (#[trigger] db.countries[other]).cities_start <= i
                    < db.countries[other].cities_end ==> other == k
        }),
{
    lemma_city_state(db, i);
    let j = db.cities[i].state_id;
    lemma_state_owner(db, j);
    let k = db.states[j].country_id;
    let c = db.countries[k];
    let s = db.states[j];
    assert(c.cities_start <= i < c.cities_end) by {
        lemma_partition_in_bounds(db);
        lemma_city_ranges_ordered(db, c.states_start, j);
        lemma_city_ranges_ordered(db, j + 1, c.states_end);
        assert(s.cities_start == db.state_cities_boundary(j));
        assert(s.cities_end == db.state_cities_boundary(j + 1));
        assert(c.cities_start == db.state_cities_boundary(c.states_start));
        assert(c.cities_end == db.state_cities_boundary(c.states_end));
    }
    assert forall|other: int|
        0 <= other < db.countries.len() && (#[trigger] db.countries[other]).cities_start <= i
            < db.countries[other].cities_end implies other == k by {
        let o = db.countries[other];
        if other < k {
            lemma_state_ranges_ordered(db, other + 1, k);
            assert(o.cities_end == db.country_cities_boundary(other + 1));
            assert(c.cities_start == db.country_cities_boundary(k));
        } else if other > k {
            lemma_state_ranges_ordered(db, k + 1, other);
            assert(c.cities_end == db.country_cities_boundary(k + 1));
            assert(o.cities_start == db.country_cities_boundary(other));
        }
    }
}

/// In a store whose states' city ranges follow each other, the ranges grow
/// along the states.
pub proof fn lemma_city_ranges_ordered(db: GeoDbModel, a: int, b: int)
    requires
        db.states_partition(),
        0 <= a <= b <= db.states.len(),
    ensures
        0 <= db.state_cities_boundary(a) <= db.state_cities_boundary(b),
    decreases b,
{
    if b > 0 {
        let s = db.states[b - 1];
        if a < b {
            lemma_city_ranges_ordered(db, a, b - 1);
        } else {
            lemma_city_ranges_ordered(db, 0, b - 1);
        }
    }
}

/// In a built store the ranges and the back-references are two views of one
/// relation: a state lies in the state range of a country exactly if it
/// carries the id of that country, and a city lies in the city range of a
/// state exactly if it carries the id of that state.
pub proof fn lemma_ranges_are_back_references(db: GeoDbModel)
    requires
        db.wf(),
    ensures
        forall|k: int, j: int|
            0 <= k < db.countries.len() && 0 <= j < db.states.len() ==> ((
            #[trigger] db.countries[k]).states_start <= j < db.countries[k].states_end <==> (
            #[trigger] db.states[j]).country_id == k),
        forall|j: int, i: int|
            0 <= j < db.states.len() && 0 <= i < db.cities.len() ==> ((
            #[trigger] db.states[j]).cities_start <= i < db.states[j].cities_end <==> (
            #[trigger] db.cities[i]).state_id == j),
        forall|k: int, i: int|
            0 <= k < db.countries.len() && 0 <= i < db.cities.len() ==> ((
            #[trigger] db.countries[k]).cities_start <= i < db.countries[k].cities_end <==> (
            #[trigger] db.cities[i]).country_id == k),
{
    assert forall|k: int, j: int| 0 <= k < db.countries.len() && 0 <= j < db.states.len() implies ((
    #[trigger] db.countries[k]).states_start <= j < db.countries[k].states_end <==> (
    #[trigger] db.states[j]).country_id == k) by {
        lemma_state_owner(db, j);
    }
    assert forall|j: int, i: int| 0 <= j < db.states.len() && 0 <= i < db.cities.len() implies ((
    #[trigger] db.states[j]).cities_start <= i < db.states[j].cities_end <==> (
    #[trigger] db.cities[i]).state_id == j) by {
        lemma_city_state(db, i);
    }
    assert forall|k: int, i: int| 0 <= k < db.countries.len() && 0 <= i < db.cities.len() implies ((
    #[trigger] db.countries[k]).cities_start <= i < db.countries[k].cities_end <==> (
    #[trigger] db.cities[i]).country_id == k) by {
        lemma_city_country(db, i);
    }
}

/// A built store is consistent.
pub proof fn lemma_wf_consistent(db: GeoDbModel)
    requires
        db.wf(),
    ensures
        db.consistent(),
{
    assert forall|k: int, i: int|
        0 <= k < db.countries.len() && 0 <= i < db.cities.len() && (#[trigger] db.countries[k]).cities_start
            <= i < db.countries[k].cities_end implies (#[trigger] db.cities[i]).country_id
        == db.countries[k].id by {
        lemma_city_country(db, i);
    }
}

/// In a built store every back-reference is a position of the array it
/// points into.
pub proof fn lemma_wf_parents_in_bounds(db: GeoDbModel)
    requires
        db.wf(),
    ensures
        db.parents_in_bounds(),
{
    assert forall|j: int| 0 <= j < db.states.len() implies 0 <= (#[trigger] db.states[j]).country_id
        < db.countries.len() by {
        lemma_state_owner(db, j);
    }
    assert forall|i: int| 0 <= i < db.cities.len() implies {
        &&& 0 <= (#[trigger] db.cities[i]).country_id < db.countries.len()
        &&& 0 <= db.cities[i].state_id < db.states.len()
    } by {
        lemma_city_country(db, i);
    }
}

// ---------------------------------------------------------------------------
// Testing a store
// ---------------------------------------------------------------------------

impl GeoDb {
    /// Whether the countries' ranges cut the state array and the city array
    /// into consecutive pieces.
    pub fn is_partitioned(&self) -> (r: bool)
        ensures
            r == self@.countries_partition(),
    {
        let mut states_at: usize = 0;
        let mut cities_at: usize = 0;
        let mut k: usize = 0;
        while k < self.countries.len()
            invariant
                k <= self.countries.len(),
                states_at == self@.states_boundary(k as int),
                cities_at == self@.country_cities_boundary(k as int),
                self@.partitioned_upto(k as int),
            decreases self.countries.len() - k,
        {
            let c = &self.countries[k];
            assert(self@.countries[k as int] == c@);
            if c.states_range.start as usize != states_at || c.states_range.start > c.states_range.end
                || c.cities_range.start as usize != cities_at || c.cities_range.start > c.cities_range.end {
                assert(!self@.country_in_place(k as int));
                proof {
                    if self@.countries_partition() {
                        lemma_partition_places(self@, k as int);
                    }
                }
                return false;
            }
            assert(self@.country_in_place(k as int));
            states_at = c.states_range.end as usize;
            cities_at = c.cities_range.end as usize;
            k += 1;
        }
        proof {
            if self@.countries_partition() {
                assert(self@.states_boundary(self@.countries.len() as int) == self@.states.len());
            }
            if states_at == self.states.len() && cities_at == self.cities.len() {
                lemma_places_partition(self@);
            }
        }
        states_at == self.states.len() && cities_at == self.cities.len()
    }

    /// Whether the states' ranges cut the city array into consecutive
    /// pieces.
    pub fn has_partitioned_states(&self) -> (r: bool)
        ensures
            r == self@.states_partition(),
    {
        let mut cities_at: usize = 0;
        let mut j: usize = 0;
        while j < self.states.len()
            invariant
                j <= self.states.len(),
                cities_at == self@.state_cities_boundary(j as int),
                forall|n: int|
                    0 <= n < j ==> {
                        &&& #[trigger] self@.state_cities_boundary(n) == self@.states[n].cities_start
                        &&& self@.states[n].cities_start <= self@.states[n].cities_end
                    },
            decreases self.states.len() - j,
        {
            let s = &self.states[j];
            assert(self@.states[j as int] == s@);
            if s.cities_range.start as usize != cities_at || s.cities_range.start > s.cities_range.end {
                assert(!(self@.state_cities_boundary(j as int) == self@.states[j as int].cities_start
                    && self@.states[j as int].cities_start <= self@.states[j as int].cities_end));
                return false;
            }
            cities_at = s.cities_range.end as usize;
            j += 1;
        }
        cities_at == self.cities.len()
    }

    /// Whether every back-reference is a position of the array it points
    /// into.
    pub fn has_parents_in_bounds(&self) -> (r: bool)
        ensures
            r == self@.parents_in_bounds(),
    {
        let mut j: usize = 0;
        while j < self.states.len()
            invariant
                j <= self.states.len(),
                forall|n: int| 0 <= n < j ==> 0 <= (#[trigger] self@.states[n]).country_id < self@.countries.len(),
            decreases self.states.len() - j,
        {
            assert(self@.states[j as int] == self.states@[j as int]@);
            if self.states[j].country_id as usize >= self.countries.len() {
                return false;
            }
            j += 1;
        }
        let mut i: usize = 0;
        while i < self.cities.len()
            invariant
                i <= self.cities.len(),
                forall|n: int|
                    0 <= n < self@.states.len() ==> 0 <= (#[trigger] self@.states[n]).country_id
                        < self@.countries.len(),
                forall|n: int|
                    0 <= n < i ==> {
                        &&& 0 <= (#[trigger] self@.cities[n]).country_id < self@.countries.len()
                        &&& 0 <= self@.cities[n].state_id < self@.states.len()
                    },
            decreases self.cities.len() - i,
        {
            assert(self@.cities[i as int] == self.cities@[i as int]@);
            if self.cities[i].country_id as usize >= self.countries.len() || self.cities[i].state_id as usize
                >= self.states.len() {
                return false;
            }
            i += 1;
        }
        true
    }

    /// Whether the ids of the countries and of the states are their
    /// positions.
    pub fn has_positional_ids(&self) -> (r: bool)
        ensures
            r == self@.ids_are_positions(),
    {
        let mut k: usize = 0;
        while k < self.countries.len()
            invariant
                k <= self.countries.len(),
                forall|n: int| 0 <= n < k ==> (#[trigger] self@.countries[n]).id == n,
            decreases self.countries.len() - k,
        {
            assert(self@.countries[k as int] == self.countries@[k as int]@);
            if self.countries[k].id as usize != k {
                return false;
            }
            k += 1;
        }
        let mut j: usize = 0;
        while j < self.states.len()
            invariant
                j <= self.states.len(),
                forall|n: int| 0 <= n < self@.countries.len() ==> (#[trigger] self@.countries[n]).id == n,
                forall|n: int| 0 <= n < j ==> (#[trigger] self@.states[n]).id == n,
            decreases self.states.len() - j,
        {
            assert(self@.states[j as int] == self.states@[j as int]@);
            if self.states[j].id as usize != j {
                return false;
            }
            j += 1;
        }
        true
    }

    /// Whether every country's city range is made of the city ranges of its
    /// states.
    pub fn has_nested_ranges(&self) -> (r: bool)
        requires
            self@.countries_partition(),
        ensures
            r == self@.ranges_nested(),
    {
        proof {
            lemma_partition_in_bounds(self@);
        }
        let mut k: usize = 0;
        while k < self.countries.len()
            invariant
                k <= self.countries.len(),
                self@.ranges_in_bounds(),
                forall|n: int|
                    0 <= n < k ==> {
                        let c = #[trigger] self@.countries[n];
                        &&& c.cities_start == self@.state_cities_boundary(c.states_start)
                        &&& c.cities_end == self@.state_cities_boundary(c.states_end)
                    },
            decreases self.countries.len() - k,
        {
            let c = &self.countries[k];
            assert(self@.countries[k as int] == c@);
            let first = c.states_range.start as usize;
            let behind = c.states_range.end as usize;
            let from: usize = if first == 0 {
                0
            } else {
                assert(self@.states[first - 1] == self.states@[first - 1]@);
                self.states[first - 1].cities_range.end as usize
            };
            let to: usize = if behind == 0 {
                0
            } else {
                assert(self@.states[behind - 1] == self.states@[behind - 1]@);
                self.states[behind - 1].cities_range.end as usize
            };
            if c.cities_range.start as usize != from || c.cities_range.end as usize != to {
                return false;
            }
            k += 1;
        }
        true
    }

    /// Whether every state in a country's range names that country.
    pub fn has_linked_states(&self) -> (r: bool)
        requires
            self@.countries_partition(),
        ensures
            r == self@.states_linked(),
    {
        proof {
            lemma_partition_in_bounds(self@);
        }
        let mut k: usize = 0;
        while k < self.countries.len()
            invariant
                k <= self.countries.len(),
                self@.ranges_in_bounds(),
                forall|n: int, j: int|
                    0 <= n < k && 0 <= j < self@.states.len() && (#[trigger] self@.countries[n]).states_start
                        <= j < self@.countries[n].states_end ==> (#[trigger] self@.states[j]).country_id
                        == self@.countries[n].id,
            decreases self.countries.len() - k,
        {
            let c = &self.countries[k];
            assert(self@.countries[k as int] == c@);
            let mut j: usize = c.states_range.start as usize;
            let end: usize = c.states_range.end as usize;
            while j < end
                invariant
                    k < self.countries.len(),
                    self@.countries[k as int] == c@,
                    c.states_range.start <= j <= end,
                    end == c.states_range.end,
                    end <= self.states.len(),
                    forall|m: int|
                        c.states_range.start <= m < j ==> (#[trigger] self@.states[m]).country_id == c.id,
                decreases end - j,
            {
                assert(self@.states[j as int] == self.states@[j as int]@);
                if self.states[j].country_id != c.id {
                    assert(self@.states[j as int].country_id != self@.countries[k as int].id);
                    return false;
                }
                j += 1;
            }
            k += 1;
        }
        true
    }

    /// Whether every city in a country's range names that country.
    pub fn has_linked_country_cities(&self) -> (r: bool)
        requires
            self@.countries_partition(),
        ensures
            r == self@.country_cities_linked(),
    {
        proof {
            lemma_partition_in_bounds(self@);
        }
        let mut k: usize = 0;
        while k < self.countries.len()
            invariant
                k <= self.countries.len(),
                self@.ranges_in_bounds(),
                forall|n: int, i: int|
                    0 <= n < k && 0 <= i < self@.cities.len() && (#[trigger] self@.countries[n]).cities_start
                        <= i < self@.countries[n].cities_end ==> (#[trigger] self@.cities[i]).country_id
                        == self@.countries[n].id,
            decreases self.countries.len() - k,
        {
            let c = &self.countries[k];
            assert(self@.countries[k as int] == c@);
            let mut i: usize = c.cities_range.start as usize;
            let end: usize = c.cities_range.end as usize;
            while i < end
                invariant
                    k < self.countries.len(),
                    self@.countries[k as int] == c@,
                    c.cities_range.start <= i <= end,
                    end == c.cities_range.end,
                    end <= self.cities.len(),
                    forall|m: int|
                        c.cities_range.start <= m < i ==> (#[trigger] self@.cities[m]).country_id == c.id,
                decreases end - i,
            {
                assert(self@.cities[i as int] == self.cities@[i as int]@);
                if self.cities[i].country_id != c.id {
                    assert(self@.cities[i as int].country_id != self@.countries[k as int].id);
                    return false;
                }
                i += 1;
            }
            k += 1;
        }
        true
    }

    /// Whether the store is consistent: whether it has what a store keeps of
    /// its invariant when it is filtered.
    pub fn is_consistent(&self) -> (r: bool)
        ensures
            r == self@.consistent(),
    {
        self.is_partitioned() && self.has_linked_states() && self.has_linked_country_cities()
    }

    /// Whether every city in a state's range names that state and the
    /// state's country.
    pub fn has_linked_cities(&self) -> (r: bool)
        requires
            self@.states_partition(),
        ensures
            r == self@.cities_linked(),
    {
        let mut j: usize = 0;
        while j < self.states.len()
            invariant
                j <= self.states.len(),
                self@.states_partition(),
                forall|n: int, i: int|
                    0 <= n < j && 0 <= i < self@.cities.len() && (#[trigger] self@.states[n]).cities_start <= i
                        < self@.states[n].cities_end ==> {
                        &&& (#[trigger] self@.cities[i]).state_id == self@.states[n].id
                        &&& self@.cities[i].country_id == self@.states[n].country_id
                    },
            decreases self.states.len() - j,
        {
            let s = &self.states[j];
            assert(self@.states[j as int] == s@);
            proof {
                lemma_city_ranges_ordered(self@, j + 1, self@.states.len() as int);
                assert(self@.state_cities_boundary(j as int) == s@.cities_start);
                assert(self@.state_cities_boundary(j + 1) == s@.cities_end);
            }
            let mut i: usize = s.cities_range.start as usize;
            let end: usize = s.cities_range.end as usize;
            while i < end
                invariant
                    j < self.states.len(),
                    self@.states[j as int] == s@,
                    s.cities_range.start <= i <= end,
                    end == s.cities_range.end,
                    end <= self.cities.len(),
                    forall|m: int|
                        s.cities_range.start <= m < i ==> {
                            &&& (#[trigger] self@.cities[m]).state_id == s.id
                            &&& self@.cities[m].country_id == s.country_id
                        },
                decreases end - i,
            {
                assert(self@.cities[i as int] == self.cities@[i as int]@);
                if self.cities[i].state_id != s.id || self.cities[i].country_id != s.country_id {
                    assert(!(self@.cities[i as int].state_id == self@.states[j as int].id
                        && self@.cities[i as int].country_id == self@.states[j as int].country_id));
                    return false;
                }
                i += 1;
            }
            j += 1;
        }
        true
    }

    /// Whether the store satisfies the invariant of a built store.
    pub fn is_well_formed(&self) -> (r: bool)
        ensures
            r == self@.wf(),
    {
        self.is_partitioned() && self.has_partitioned_states() && self.has_nested_ranges()
            && self.has_positional_ids() && self.has_linked_states() && self.has_linked_cities()
    }
}

} // verus!
