//! Folding of names: Unicode-to-ASCII transliteration plus lower-casing.
//!
//! `fold_key` is the normal form used by every name comparison. It rests on
//! the `deunicode` transliteration tables, which also drop control characters
//! and U+007F from text that holds anything from U+007F on. `fold_ascii_lower` is a small
//! table-free variant that knows the common Western European letters only; it
//! serves the relaxed alias match.

use vstd::prelude::*;
use crate::text::{
    chars_eq,
    contains,
    from_chars,
    is_prefix,
    is_substring,
    lemma_prefix_is_substring,
    lemma_self_is_prefix,
    lower_ascii,
    lower_chars,
    lower_seq,
    ascii_lower_char,
    starts_with,
    to_chars,
};

verus! {

// ---------------------------------------------------------------------------
// Transliteration through deunicode
// ---------------------------------------------------------------------------

/// The ASCII transliteration that `deunicode::deunicode` gives for a string.
pub uninterp spec fn deunicode_str(s: Seq<char>) -> Seq<char>;

/// Every character of the sequence lies below U+007F: it is ASCII, and it is
/// not the delete character.
pub open spec fn below_del(s: Seq<char>) -> bool {
    forall|i: int| 0 <= i < s.len() ==> #[trigger] s[i] < '\u{7f}'
}

/// `deunicode::deunicode`: the result is the transliteration of the input.
/// Two things are claimed of it. Every character of the result lies below
/// U+007F: the crate copies the leading characters below U+007F and takes the
/// rest from its tables and its placeholder, none of which holds U+007F or
/// anything above it. And a text whose characters all lie below U+007F comes
/// back unchanged, because the crate returns such a text as it is. Nothing is
/// claimed of other ASCII text: behind the first character from U+007F on,
/// the tables drop the control characters and U+007F itself.
#[verifier::external_body]
fn transliterate(s: &str) -> (r: String)
    ensures
        r@ == deunicode_str(s@),
        below_del(r@),
        below_del(s@) ==> r@ == s@,
{
    deunicode::deunicode(s)
}

/// The ASCII form of a sequence: the sequence itself if all its characters
/// lie below U+007F, else the transliteration that `deunicode` gives for it.
/// The transliteration lies below U+007F; were it not to, the sequence would
/// count as having no ASCII form.
pub open spec fn ascii_form(s: Seq<char>) -> Seq<char> {
    if below_del(s) {
        s
    } else if below_del(deunicode_str(s)) {
        deunicode_str(s)
    } else {
        Seq::empty()
    }
}

/// The folded form of a name: its ASCII form in lower case.
pub open spec fn fold_key_spec(s: Seq<char>) -> Seq<char> {
    lower_seq(ascii_form(s))
}

/// A sequence in folded form: every character below U+007F, and no
/// upper-case letter.
pub open spec fn is_folded(s: Seq<char>) -> bool {
    forall|i: int| 0 <= i < s.len() ==> #[trigger] s[i] < '\u{7f}' && !('A' <= s[i] && s[i] <= 'Z')
}

/// The folded form of a name is in folded form, and a sequence in folded
/// form is its own folded form.
pub proof fn lemma_fold_key_folded(s: Seq<char>)
    ensures
        is_folded(fold_key_spec(s)),
        is_folded(s) ==> fold_key_spec(s) == s,
{
    let a = ascii_form(s);
    let r = fold_key_spec(s);
    assert(below_del(a));
    assert forall|i: int| 0 <= i < r.len() implies #[trigger] r[i] < '\u{7f}' && !('A' <= r[i] && r[i]
        <= 'Z') by {
        assert(a[i] < '\u{7f}');
    }
    if is_folded(s) {
        assert(below_del(s));
        assert(r =~= s);
    }
}

/// The folded form of a text whose characters all lie below U+007F is the
/// text in lower case.
pub proof fn lemma_fold_key_plain(s: Seq<char>)
    requires
        below_del(s),
    ensures
        fold_key_spec(s) == lower_seq(s),
{
}

/// Folding is idempotent: the folded form of a folded form is that folded
/// form.
pub proof fn lemma_fold_key_idempotent(s: Seq<char>)
    ensures
        fold_key_spec(fold_key_spec(s)) == fold_key_spec(s),
{
    lemma_fold_key_folded(s);
    lemma_fold_key_folded(fold_key_spec(s));
}

/// Folds a name, giving its characters.
///
/// The result is in folded form, and a name that is already in folded form
/// comes back unchanged: folding twice is folding once.
pub fn fold_chars(s: &str) -> (r: Vec<char>)
    ensures
        r@ == fold_key_spec(s@),
        is_folded(r@),
        is_folded(s@) ==> r@ == s@,
{
    let t = transliterate(s);
    let tc = to_chars(t.as_str());
    let r = lower_chars(tc.as_slice());
    proof {
        assert(t@ == ascii_form(s@));
        lemma_fold_key_folded(s@);
    }
    r
}

/// Folds a name: transliterates it to ASCII and lower-cases it.
///
/// The result is in folded form, and a name that is already in folded form
/// comes back unchanged: folding twice is folding once.
pub fn fold_key(s: &str) -> (r: String)
    ensures
        r@ == fold_key_spec(s@),
        is_folded(r@),
        is_folded(s@) ==> r@ == s@,
{
    let c = fold_chars(s);
    from_chars(c.as_slice())
}

/// Whether two names are equal after folding.
pub fn equals_folded(a: &str, b: &str) -> (r: bool)
    ensures
        r == (fold_key_spec(a@) == fold_key_spec(b@)),
{
    let x = fold_chars(a);
    let y = fold_chars(b);
    chars_eq(x.as_slice(), y.as_slice())
}

// ---------------------------------------------------------------------------
// Ranking a folded candidate against a folded query
// ---------------------------------------------------------------------------

/// How a folded query matches a folded candidate, strongest first.
#[derive(Clone, Copy, Debug, PartialEq, Eq, Structural)]
pub enum MatchKind {
    /// The candidate is the query.
    Exact,
    /// The candidate starts with the query.
    Prefix,
    /// The query occurs inside the candidate.
    Substring,
}

/// The strongest way in which query `q` matches candidate `name`, if any.
pub open spec fn match_kind_spec(name: Seq<char>, q: Seq<char>) -> Option<MatchKind> {
    if name == q {
        Some(MatchKind::Exact)
    } else if is_prefix(q, name) {
        Some(MatchKind::Prefix)
    } else if is_substring(q, name) {
        Some(MatchKind::Substring)
    } else {
        None
    }
}

/// The score of a match under the weights `(exact, prefix, substring)`.
pub open spec fn score_of(kind: Option<MatchKind>, weights: (i32, i32, i32)) -> Option<i32> {
    match kind {
        Some(MatchKind::Exact) => Some(weights.0),
        Some(MatchKind::Prefix) => Some(weights.1),
        Some(MatchKind::Substring) => Some(weights.2),
        None => None,
    }
}

/// The strongest way in which the folded query matches the folded candidate.
pub fn match_kind(name: &[char], q: &[char]) -> (r: Option<MatchKind>)
    ensures
        r == match_kind_spec(name@, q@),
{
    if chars_eq(name, q) {
        Some(MatchKind::Exact)
    } else if starts_with(name, q) {
        Some(MatchKind::Prefix)
    } else if contains(name, q) {
        Some(MatchKind::Substring)
    } else {
        None
    }
}

/// Scores a candidate name against a folded query: the candidate is folded,
/// and the weight of the strongest match is returned.
pub fn match_score(name: &str, folded_query: &[char], weights: (i32, i32, i32)) -> (r: Option<i32>)
    ensures
        r == score_of(match_kind_spec(fold_key_spec(name@), folded_query@), weights),
{
    let n = fold_chars(name);
    match match_kind(n.as_slice(), folded_query) {
        Some(MatchKind::Exact) => Some(weights.0),
        Some(MatchKind::Prefix) => Some(weights.1),
        Some(MatchKind::Substring) => Some(weights.2),
        None => None,
    }
}

/// A query that matches exactly or as a prefix also occurs as a substring:
/// the three kinds of match are nested.
pub proof fn lemma_match_kinds_nested(name: Seq<char>, q: Seq<char>)
    ensures
        name == q ==> is_prefix(q, name),
        is_prefix(q, name) ==> is_substring(q, name),
        match_kind_spec(name, q) is Some <==> is_substring(q, name),
{
    if name == q {
        lemma_self_is_prefix(name);
    }
    if is_prefix(q, name) {
        lemma_prefix_is_substring(q, name);
    }
}

// ---------------------------------------------------------------------------
// The table-free fold
// ---------------------------------------------------------------------------

/// What the table-free fold writes for one character: the base letter of the
/// accented letters of German, French, Spanish, Portuguese and the Nordic
/// languages, two letters for a ligature or the sharp s, and the ASCII
/// lower-case form of anything else.
pub open spec fn fold_ascii_char(c: char) -> Seq<char> {
    let u = c as u32;
    if (0xC0 <= u <= 0xC4) || (0xE0 <= u <= 0xE4) {
        seq!['a']
    } else if u == 0xC6 || u == 0xE6 {
        seq!['a', 'e']
    } else if u == 0xC7 || u == 0xE7 {
        seq!['c']
    } else if (0xC8 <= u <= 0xCB) || (0xE8 <= u <= 0xEB) {
        seq!['e']
    } else if (0xCC <= u <= 0xCF) || (0xEC <= u <= 0xEF) {
        seq!['i']
    } else if u == 0xD1 || u == 0xF1 {
        seq!['n']
    } else if (0xD2 <= u <= 0xD6) || u == 0xD8 || (0xF2 <= u <= 0xF6) || u == 0xF8 {
        seq!['o']
    } else if (0xD9 <= u <= 0xDC) || (0xF9 <= u <= 0xFC) {
        seq!['u']
    } else if u == 0xDF {
        seq!['s', 's']
    } else if u == 0x152 || u == 0x153 {
        seq!['o', 'e']
    } else {
        seq![lower_ascii(c)]
    }
}

/// The table-free fold of a sequence: the folds of its characters, in order.
pub open spec fn fold_ascii_lower_spec(s: Seq<char>) -> Seq<char>
    decreases s.len(),
{
    if s.len() == 0 {
        Seq::empty()
    } else {
        fold_ascii_lower_spec(s.drop_last()) + fold_ascii_char(s.last())
    }
}

/// Appends the table-free fold of one character.
fn push_folded_char(out: &mut Vec<char>, c: char)
    ensures
        final(out)@ == old(out)@ + fold_ascii_char(c),
{
    let u: u32 = c as u32;
    if (0xC0 <= u && u <= 0xC4) || (0xE0 <= u && u <= 0xE4) {
        out.push('a');
    } else if u == 0xC6 || u == 0xE6 {
        out.push('a');
        out.push('e');
    } else if u == 0xC7 || u == 0xE7 {
        out.push('c');
    } else if (0xC8 <= u && u <= 0xCB) || (0xE8 <= u && u <= 0xEB) {
        out.push('e');
    } else if (0xCC <= u && u <= 0xCF) || (0xEC <= u && u <= 0xEF) {
        out.push('i');
    } else if u == 0xD1 || u == 0xF1 {
        out.push('n');
    } else if (0xD2 <= u && u <= 0xD6) || u == 0xD8 || (0xF2 <= u && u <= 0xF6) || u == 0xF8 {
        out.push('o');
    } else if (0xD9 <= u && u <= 0xDC) || (0xF9 <= u && u <= 0xFC) {
        out.push('u');
    } else if u == 0xDF {
        out.push('s');
        out.push('s');
    } else if u == 0x152 || u == 0x153 {
        out.push('o');
        out.push('e');
    } else {
        out.push(ascii_lower_char(c));
    }
    assert(out@ =~= old(out)@ + fold_ascii_char(c));
}

/// The table-free fold of a name, as characters.
pub fn fold_ascii_lower_chars(s: &[char]) -> (r: Vec<char>)
    ensures
        r@ == fold_ascii_lower_spec(s@),
{
    let mut r: Vec<char> = Vec::new();
    let mut i: usize = 0;
    while i < s.len()
        invariant
            i <= s.len(),
            r@ == fold_ascii_lower_spec(s@.take(i as int)),
        decreases s.len() - i,
    {
        push_folded_char(&mut r, s[i]);
        i += 1;
        assert(s@.take(i as int).drop_last() =~= s@.take(i - 1));
    }
    assert(s@.take(s.len() as int) =~= s@);
    r
}

/// Lower-cases a name and replaces the common accented letters and ligatures
/// by their ASCII base letters, without any transliteration table.
pub fn fold_ascii_lower(s: &str) -> (r: String)
    ensures
        r@ == fold_ascii_lower_spec(s@),
{
    let c = to_chars(s);
    let f = fold_ascii_lower_chars(c.as_slice());
    from_chars(f.as_slice())
}

/// The table-free fold of a concatenation is the concatenation of the folds.
pub proof fn lemma_fold_ascii_lower_concat(a: Seq<char>, b: Seq<char>)
    ensures
        fold_ascii_lower_spec(a + b) == fold_ascii_lower_spec(a) + fold_ascii_lower_spec(b),
    decreases b.len(),
{
    if b.len() == 0 {
        assert(a + b =~= a);
        assert(fold_ascii_lower_spec(a) + fold_ascii_lower_spec(b) =~= fold_ascii_lower_spec(a));
    } else {
        lemma_fold_ascii_lower_concat(a, b.drop_last());
        assert((a + b).drop_last() =~= a + b.drop_last());
        assert((a + b).last() == b.last());
        assert(fold_ascii_lower_spec(a + b) =~= fold_ascii_lower_spec(a) + fold_ascii_lower_spec(b));
    }
}

/// What the table-free fold writes for one character is left unchanged by
/// the fold.
proof fn lemma_fold_ascii_char_fixed(c: char)
    ensures
        fold_ascii_lower_spec(fold_ascii_char(c)) == fold_ascii_char(c),
{
    let f = fold_ascii_char(c);
    if f.len() == 1 {
        assert(f.drop_last() =~= Seq::<char>::empty());
        assert(fold_ascii_lower_spec(f.drop_last()) =~= Seq::<char>::empty());
        assert(fold_ascii_char(f[0]) =~= seq![f[0]]);
        assert(fold_ascii_lower_spec(f) =~= f);
    } else {
        assert(f.len() == 2);
        let g = f.drop_last();
        assert(g.len() == 1);
        assert(g.drop_last() =~= Seq::<char>::empty());
        assert(fold_ascii_lower_spec(g.drop_last()) =~= Seq::<char>::empty());
        assert(fold_ascii_char(g[0]) =~= seq![g[0]]);
        assert(fold_ascii_lower_spec(g) =~= g);
        assert(fold_ascii_char(f[1]) =~= seq![f[1]]);
        assert(fold_ascii_lower_spec(f) =~= f);
    }
}

/// The table-free fold is idempotent: folding a folded name changes nothing.
pub proof fn lemma_fold_ascii_lower_idempotent(s: Seq<char>)
    ensures
        fold_ascii_lower_spec(fold_ascii_lower_spec(s)) == fold_ascii_lower_spec(s),
    decreases s.len(),
{
    if s.len() > 0 {
        let init = fold_ascii_lower_spec(s.drop_last());
        let tail = fold_ascii_char(s.last());
        lemma_fold_ascii_lower_idempotent(s.drop_last());
        lemma_fold_ascii_char_fixed(s.last());
        lemma_fold_ascii_lower_concat(init, tail);
    }
}

} // verus!
