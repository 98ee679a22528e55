//! Reading the fields of the records, and matching records by name.

use vstd::prelude::*;
use crate::fold::{equals_folded, fold_chars, fold_key_spec};
use crate::model::{City, Country, CountryTimezone, State};
use crate::text::{contains, is_substring};

verus! {

/// The text of an optional field, or the empty text.
pub open spec fn text_or_empty(field: Option<String>) -> Seq<char> {
    match field {
        Some(s) => s@,
        None => Seq::empty(),
    }
}

/// The text of an optional field, or the empty text.
pub fn or_empty(field: &Option<String>) -> (r: &str)
    ensures
        r@ == text_or_empty(*field),
{
    match field {
        Some(s) => s.as_str(),
        None => {
            proof {
                reveal_strlit("");
            }
            assert(""@ =~= Seq::<char>::empty());
            ""
        },
    }
}

impl Country {
    /// The name of the country.
    pub fn name(&self) -> (r: &str)
        ensures
            r@ == self.name@,
    {
        self.name.as_str()
    }

    /// The ISO2 code.
    pub fn iso2(&self) -> (r: &str)
        ensures
            r@ == self.iso2@,
    {
        self.iso2.as_str()
    }

    /// The ISO2 code, under its other name.
    pub fn iso_code(&self) -> (r: &str)
        ensures
            r@ == self.iso2@,
    {
        self.iso2.as_str()
    }

    /// The ISO3 code, or the empty text if the country has none.
    pub fn iso3(&self) -> (r: &str)
        ensures
            r@ == text_or_empty(self.iso3),
    {
        or_empty(&self.iso3)
    }

    /// The phone code, or the empty text if the country has none.
    pub fn phone_code(&self) -> (r: &str)
        ensures
            r@ == text_or_empty(self.phone_code),
    {
        or_empty(&self.phone_code)
    }

    /// The currency code, or the empty text if the country has none.
    pub fn currency(&self) -> (r: &str)
        ensures
            r@ == text_or_empty(self.currency),
    {
        or_empty(&self.currency)
    }

    /// The region, or the empty text if the country has none.
    pub fn region(&self) -> (r: &str)
        ensures
            r@ == text_or_empty(self.region),
    {
        or_empty(&self.region)
    }

    /// The capital, if the country has one on record.
    pub fn capital(&self) -> (r: Option<&str>)
        ensures
            match r {
                Some(s) => self.capital matches Some(c) && s@ == c@,
                None => self.capital is None,
            },
    {
        match &self.capital {
            Some(s) => Some(s.as_str()),
            None => None,
        }
    }

    /// The population, if the country has one on record.
    pub fn population(&self) -> (r: Option<u32>)
        ensures
            r == self.population,
    {
        self.population
    }

    /// The timezone records of the country.
    pub fn timezones(&self) -> (r: &[CountryTimezone])
        ensures
            r@ == self.timezones@,
    {
        self.timezones.as_slice()
    }
}

impl State {
    /// The name of the state.
    pub fn name(&self) -> (r: &str)
        ensures
            r@ == self.name@,
    {
        self.name.as_str()
    }

    /// The short code of the state, or the empty text if it has none.
    pub fn state_code(&self) -> (r: &str)
        ensures
            r@ == text_or_empty(self.code),
    {
        or_empty(&self.code)
    }
}

impl City {
    /// The name of the city.
    pub fn name(&self) -> (r: &str)
        ensures
            r@ == self.name@,
    {
        self.name.as_str()
    }

    /// Whether the city has the given name, compared after folding.
    pub fn is_city_named(&self, name: &str) -> (r: bool)
        ensures
            r == (fold_key_spec(self.name@) == fold_key_spec(name@)),
    {
        equals_folded(self.name.as_str(), name)
    }
}

/// A record with a name by which it is matched. Names are compared after
/// folding, so that accents and case make no difference.
pub trait NameMatch {
    /// The name of the record.
    spec fn name_of(&self) -> Seq<char>;

    /// The name of the record.
    fn name_str(&self) -> (r: &str)
        ensures
            r@ == self.name_of(),
    ;

    /// Whether the folded name is the folded text.
    fn is_named(&self, q: &str) -> (r: bool)
        ensures
            r == (fold_key_spec(self.name_of()) == fold_key_spec(q@)),
    {
        equals_folded(self.name_str(), q)
    }

    /// Whether the folded name contains the folded text.
    fn name_contains(&self, q: &str) -> (r: bool)
        ensures
            r == is_substring(fold_key_spec(q@), fold_key_spec(self.name_of())),
    {
        let name = fold_chars(self.name_str());
        let text = fold_chars(q);
        contains(name.as_slice(), text.as_slice())
    }
}

impl NameMatch for Country {
    open spec fn name_of(&self) -> Seq<char> {
        self.name@
    }

    fn name_str(&self) -> (r: &str) {
        self.name.as_str()
    }
}

impl NameMatch for State {
    open spec fn name_of(&self) -> Seq<char> {
        self.name@
    }

    fn name_str(&self) -> (r: &str) {
        self.name.as_str()
    }
}

impl NameMatch for City {
    open spec fn name_of(&self) -> Seq<char> {
        self.name@
    }

    fn name_str(&self) -> (r: &str) {
        self.name.as_str()
    }
}

} // verus!
