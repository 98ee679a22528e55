//! The side index of city aliases and region labels.
//!
//! An entry names a city by country code, state name and city name, and
//! carries the alternate spellings and the region labels known for it. The
//! converter reads the index; nothing in the library changes it.

use vstd::prelude::*;
use crate::fold::{fold_ascii_lower_chars, fold_ascii_lower_spec};
use crate::search::{first_position, lemma_first_position_stays};
use crate::text::{
    chars_eq,
    chars_eq_ignore_ascii_case,
    eq_ignore_case,
    is_prefix,
    starts_with,
    str_eq,
    to_chars,
};

verus! {

/// The aliases and region labels of one city.
#[derive(Debug, PartialEq, Eq)]
pub struct CityMeta {
    pub iso2: String,
    pub state: String,
    pub city: String,
    pub aliases: Vec<String>,
    pub regions: Vec<String>,
}

/// The side index: its entries, in the order of the side-car document.
#[derive(Debug, PartialEq, Eq)]
pub struct CityMetaIndex {
    pub entries: Vec<CityMeta>,
}

/// Whether an entry names exactly this country code, state and city.
pub open spec fn names_city(m: CityMeta, iso2: Seq<char>, state: Seq<char>, city: Seq<char>) -> bool {
    m.iso2@ == iso2 && m.state@ == state && m.city@ == city
}

/// Entry `e` names exactly this country code, state and city.
pub open spec fn canonical_hit(entries: Seq<CityMeta>, iso2: Seq<char>, state: Seq<char>, city: Seq<char>) -> spec_fn(
    int,
) -> bool {
    |e: int| names_city(entries[e], iso2, state, city)
}

/// The relaxed name match on two folded names: they are equal, or one
/// starts with the first five characters of the other. A name with no
/// character matches only itself.
pub open spec fn relaxed_match_spec(candidate: Seq<char>, canonical: Seq<char>) -> bool {
    ||| candidate == canonical
    ||| (canonical.len() > 0 && is_prefix(head5(canonical), candidate))
    ||| (candidate.len() > 0 && is_prefix(head5(candidate), canonical))
}

/// The first five characters of a sequence, or all of it if it is shorter.
pub open spec fn head5(s: Seq<char>) -> Seq<char> {
    if s.len() <= 5 {
        s
    } else {
        s.subrange(0, 5)
    }
}

/// The first five characters of a slice, or all of it if it is shorter.
pub fn first_five(s: &[char]) -> (r: Vec<char>)
    ensures
        r@ == head5(s@),
{
    let n: usize = if s.len() <= 5 {
        s.len()
    } else {
        5
    };
    let mut r: Vec<char> = Vec::new();
    let mut i: usize = 0;
    while i < n
        invariant
            i <= n <= s.len(),
            r@ == s@.subrange(0, i as int),
        decreases n - i,
    {
        r.push(s[i]);
        i += 1;
        assert(s@.subrange(0, i as int) == s@.subrange(0, i - 1).push(s@[i - 1]));
    }
    assert(s@.subrange(0, s.len() as int) =~= s@);
    r
}

/// The relaxed name match on two folded names.
///
/// This is a heuristic for spellings that drift between revisions of the
/// data. It is no equivalence: it is neither transitive nor exact.
pub fn relaxed_match(candidate: &[char], canonical: &[char]) -> (r: bool)
    ensures
        r == relaxed_match_spec(candidate@, canonical@),
{
    if chars_eq(candidate, canonical) {
        return true;
    }
    if canonical.len() > 0 {
        let p = first_five(canonical);
        if starts_with(candidate, p.as_slice()) {
            return true;
        }
    }
    if candidate.len() > 0 {
        let p = first_five(candidate);
        if starts_with(canonical, p.as_slice()) {
            return true;
        }
    }
    false
}

/// The relaxed name match on two names as they are written: both are put
/// through the table-free fold and then compared.
pub fn names_match_relaxed(candidate: &str, canonical: &str) -> (r: bool)
    ensures
        r == relaxed_match_spec(fold_ascii_lower_spec(candidate@), fold_ascii_lower_spec(canonical@)),
{
    let a = to_chars(candidate);
    let b = to_chars(canonical);
    let fa = fold_ascii_lower_chars(a.as_slice());
    let fb = fold_ascii_lower_chars(b.as_slice());
    relaxed_match(fa.as_slice(), fb.as_slice())
}

/// The city name of the entry, or one of its aliases, is the given text,
/// ignoring ASCII case.
pub open spec fn names_alias(m: CityMeta, alias: Seq<char>) -> bool {
    ||| eq_ignore_case(m.city@, alias)
    ||| exists|a: int| 0 <= a < m.aliases@.len() && eq_ignore_case(#[trigger] m.aliases@[a]@, alias)
}

/// The city name of the entry, or one of its aliases, matches the given
/// text in the relaxed way, after the table-free fold of both.
pub open spec fn resembles_alias(m: CityMeta, alias: Seq<char>) -> bool {
    let folded = fold_ascii_lower_spec(alias);
    ||| relaxed_match_spec(folded, fold_ascii_lower_spec(m.city@))
    ||| exists|a: int|
        0 <= a < m.aliases@.len() && relaxed_match_spec(folded, fold_ascii_lower_spec(#[trigger] m.aliases@[a]@))
}

/// Entry `e` names the alias exactly.
pub open spec fn exact_alias_hit(entries: Seq<CityMeta>, alias: Seq<char>) -> spec_fn(int) -> bool {
    |e: int| names_alias(entries[e], alias)
}

/// Entry `e` matches the alias in the relaxed way.
pub open spec fn relaxed_alias_hit(entries: Seq<CityMeta>, alias: Seq<char>) -> spec_fn(int) -> bool {
    |e: int| resembles_alias(entries[e], alias)
}

/// The position of the entry that an alias resolves to: the first entry
/// that names it exactly, or else the first entry that matches it in the
/// relaxed way.
pub open spec fn alias_position(entries: Seq<CityMeta>, alias: Seq<char>) -> Option<int> {
    match first_position(entries.len() as int, exact_alias_hit(entries, alias)) {
        Some(e) => Some(e),
        None => first_position(entries.len() as int, relaxed_alias_hit(entries, alias)),
    }
}

impl CityMeta {
    /// Whether the city name of the entry, or one of its aliases, is the
    /// given text, ignoring ASCII case.
    pub fn has_alias(&self, alias: &[char]) -> (r: bool)
        ensures
            r == names_alias(*self, alias@),
    {
        let own = to_chars(self.city.as_str());
        if chars_eq_ignore_ascii_case(own.as_slice(), alias) {
            return true;
        }
        let mut a: usize = 0;
        while a < self.aliases.len()
            invariant
                a <= self.aliases.len(),
                !eq_ignore_case(self.city@, alias@),
                forall|b: int| 0 <= b < a ==> !eq_ignore_case(#[trigger] self.aliases@[b]@, alias@),
            decreases self.aliases.len() - a,
        {
            let other = to_chars(self.aliases[a].as_str());
            if chars_eq_ignore_ascii_case(other.as_slice(), alias) {
                assert(eq_ignore_case(self.aliases@[a as int]@, alias@));
                return true;
            }
            a += 1;
        }
        false
    }

    /// Whether the city name of the entry, or one of its aliases, matches
    /// the given text in the relaxed way; the text is given folded.
    pub fn resembles(&self, alias: &[char], folded: &[char]) -> (r: bool)
        requires
            folded@ == fold_ascii_lower_spec(alias@),
        ensures
            r == resembles_alias(*self, alias@),
    {
        let own = to_chars(self.city.as_str());
        let own_folded = fold_ascii_lower_chars(own.as_slice());
        if relaxed_match(folded, own_folded.as_slice()) {
            return true;
        }
        let mut a: usize = 0;
        while a < self.aliases.len()
            invariant
                a <= self.aliases.len(),
                folded@ == fold_ascii_lower_spec(alias@),
                !relaxed_match_spec(folded@, fold_ascii_lower_spec(self.city@)),
                forall|b: int|
                    0 <= b < a ==> !relaxed_match_spec(
                        folded@,
                        fold_ascii_lower_spec(#[trigger] self.aliases@[b]@),
                    ),
            decreases self.aliases.len() - a,
        {
            let other = to_chars(self.aliases[a].as_str());
            let other_folded = fold_ascii_lower_chars(other.as_slice());
            if relaxed_match(folded, other_folded.as_slice()) {
                assert(relaxed_match_spec(folded@, fold_ascii_lower_spec(self.aliases@[a as int]@)));
                return true;
            }
            a += 1;
        }
        false
    }
}

impl CityMetaIndex {
    /// The first entry that names the city, if any.
    pub open spec fn canonical_spec(self, iso2: Seq<char>, state: Seq<char>, city: Seq<char>) -> Option<
        CityMeta,
    > {
        match first_position(self.entries@.len() as int, canonical_hit(self.entries@, iso2, state, city)) {
            Some(e) => Some(self.entries@[e]),
            None => None,
        }
    }

    /// Looks a city up by its exact country code, state name and city name.
    /// The first entry that names it is returned.
    pub fn find_canonical(&self, iso2: &str, state: &str, city: &str) -> (r: Option<&CityMeta>)
        ensures
            match r {
                Some(m) => self.canonical_spec(iso2@, state@, city@) == Some(*m),
                None => self.canonical_spec(iso2@, state@, city@) is None,
            },
    {
        let ghost hit = canonical_hit(self.entries@, iso2@, state@, city@);
        let mut e: usize = 0;
        while e < self.entries.len()
            invariant
                e <= self.entries.len(),
                hit == canonical_hit(self.entries@, iso2@, state@, city@),
                first_position(e as int, hit) is None,
            decreases self.entries.len() - e,
        {
            let m = &self.entries[e];
            if str_eq(m.iso2.as_str(), iso2) && str_eq(m.state.as_str(), state) && str_eq(
                m.city.as_str(),
                city,
            ) {
                proof {
                    assert(hit(e as int));
                    lemma_first_position_stays(e + 1, self.entries@.len() as int, hit);
                }
                return Some(m);
            }
            assert(!hit(e as int));
            e += 1;
        }
        None
    }

    /// Resolves an alias: the first entry whose city name or one of whose
    /// aliases is the text, ignoring ASCII case; where no entry is, the
    /// first entry that matches the text in the relaxed way.
    pub fn find_by_alias(&self, alias: &str) -> (r: Option<&CityMeta>)
        ensures
            match alias_position(self.entries@, alias@) {
                Some(e) => r matches Some(m) && *m == self.entries@[e],
                None => r is None,
            },
    {
        let text = to_chars(alias);
        let ghost exact = exact_alias_hit(self.entries@, alias@);
        let mut e: usize = 0;
        while e < self.entries.len()
            invariant
                e <= self.entries.len(),
                text@ == alias@,
                exact == exact_alias_hit(self.entries@, alias@),
                first_position(e as int, exact) is None,
            decreases self.entries.len() - e,
        {
            let m = &self.entries[e];
            if m.has_alias(text.as_slice()) {
                proof {
                    assert(exact(e as int));
                    lemma_first_position_stays(e + 1, self.entries@.len() as int, exact);
                }
                return Some(m);
            }
            assert(!exact(e as int));
            e += 1;
        }
        let folded = fold_ascii_lower_chars(text.as_slice());
        let ghost relaxed = relaxed_alias_hit(self.entries@, alias@);
        let mut e: usize = 0;
        while e < self.entries.len()
            invariant
                e <= self.entries.len(),
                text@ == alias@,
                folded@ == fold_ascii_lower_spec(alias@),
                relaxed == relaxed_alias_hit(self.entries@, alias@),
                first_position(self.entries@.len() as int, exact_alias_hit(self.entries@, alias@)) is None,
                first_position(e as int, relaxed) is None,
            decreases self.entries.len() - e,
        {
            let m = &self.entries[e];
            if m.resembles(text.as_slice(), folded.as_slice()) {
                proof {
                    assert(relaxed(e as int));
                    lemma_first_position_stays(e + 1, self.entries@.len() as int, relaxed);
                }
                return Some(m);
            }
            assert(!relaxed(e as int));
            e += 1;
        }
        None
    }
}

} // verus!
