//! Text normalisation and the string predicates that every name comparison
//! of the database goes through.
//!
//! Names are compared after folding: transliteration to ASCII followed by
//! ASCII lower-casing. Codes (ISO, phone) are compared with plain ASCII
//! case-insensitive equality and are never folded.

use vstd::prelude::*;

verus! {

// ---------------------------------------------------------------------------
// Characters
// ---------------------------------------------------------------------------

/// The ASCII lower-case form of a character: `'A'..='Z'` move to
/// `'a'..='z'`, every other character stays.
pub open spec fn lower_ascii(c: char) -> char {
    if 'A' <= c && c <= 'Z' {
        ((c as u32) + 32) as char
    } else {
        c
    }
}

/// A sequence with every character lower-cased the ASCII way.
pub open spec fn lower_seq(s: Seq<char>) -> Seq<char> {
    Seq::new(s.len(), |i: int| lower_ascii(s[i]))
}

/// Lower-cases one character the ASCII way.
pub fn ascii_lower_char(c: char) -> (r: char)
    ensures
        r == lower_ascii(c),
{
    if 'A' <= c && c <= 'Z' {
        let b: u8 = c as u8;
        (b + 32) as char
    } else {
        c
    }
}

// ---------------------------------------------------------------------------
// Strings and character vectors
// ---------------------------------------------------------------------------

/// `String::push` appends the character at the end and changes nothing else.
pub assume_specification[ String::push ](s: &mut String, c: char)
    ensures
        final(s)@ == old(s)@.push(c),
;

/// The characters of a string slice, one vector entry per character.
pub fn to_chars(s: &str) -> (v: Vec<char>)
    ensures
        v@ == s@,
{
    let mut v: Vec<char> = Vec::new();
    for c in it: s.chars()
        invariant
            it.seq() == s@,
            v@ == it.seq().take(it.index() as int),
    {
        v.push(c);
    }
    assert(v@ == s@);
    v
}

/// The string made of the given characters.
pub fn from_chars(v: &[char]) -> (s: String)
    ensures
        s@ == v@,
{
    let mut s = String::new();
    let mut i: usize = 0;
    while i < v.len()
        invariant
            i <= v.len(),
            s@ == v@.take(i as int),
        decreases v.len() - i,
    {
        s.push(v[i]);
        i += 1;
        assert(v@.take(i as int) == v@.take(i - 1).push(v@[i - 1]));
    }
    assert(v@.take(v.len() as int) == v@);
    s
}

/// Whether two character slices hold the same characters.
pub fn chars_eq(a: &[char], b: &[char]) -> (r: bool)
    ensures
        r == (a@ == b@),
{
    if a.len() != b.len() {
        return false;
    }
    let mut i: usize = 0;
    while i < a.len()
        invariant
            i <= a.len(),
            a.len() == b.len(),
            forall|k: int| 0 <= k < i ==> a@[k] == b@[k],
        decreases a.len() - i,
    {
        if a[i] != b[i] {
            return false;
        }
        i += 1;
    }
    assert(a@ =~= b@);
    true
}

/// Whether two string slices hold the same characters.
pub fn str_eq(a: &str, b: &str) -> (r: bool)
    ensures
        r == (a@ == b@),
{
    let x = to_chars(a);
    let y = to_chars(b);
    chars_eq(x.as_slice(), y.as_slice())
}

/// The characters lower-cased the ASCII way.
pub fn lower_chars(a: &[char]) -> (r: Vec<char>)
    ensures
        r@ == lower_seq(a@),
{
    let mut r: Vec<char> = Vec::new();
    let mut i: usize = 0;
    while i < a.len()
        invariant
            i <= a.len(),
            r@.len() == i,
            forall|k: int| 0 <= k < i ==> r@[k] == lower_ascii(a@[k]),
        decreases a.len() - i,
    {
        r.push(ascii_lower_char(a[i]));
        i += 1;
    }
    assert(r@ =~= lower_seq(a@));
    r
}

/// ASCII case-insensitive equality of two sequences: they agree once both
/// are lower-cased the ASCII way.
pub open spec fn eq_ignore_case(a: Seq<char>, b: Seq<char>) -> bool {
    lower_seq(a) == lower_seq(b)
}

/// ASCII case-insensitive equality of two character slices.
pub fn chars_eq_ignore_ascii_case(a: &[char], b: &[char]) -> (r: bool)
    ensures
        r == eq_ignore_case(a@, b@),
{
    if a.len() != b.len() {
        assert(lower_seq(a@).len() != lower_seq(b@).len());
        return false;
    }
    let mut i: usize = 0;
    while i < a.len()
        invariant
            i <= a.len(),
            a.len() == b.len(),
            forall|k: int| 0 <= k < i ==> lower_ascii(a@[k]) == lower_ascii(b@[k]),
        decreases a.len() - i,
    {
        if ascii_lower_char(a[i]) != ascii_lower_char(b[i]) {
            assert(lower_seq(a@)[i as int] != lower_seq(b@)[i as int]);
            return false;
        }
        i += 1;
    }
    assert(lower_seq(a@) =~= lower_seq(b@));
    true
}

/// ASCII case-insensitive equality of two string slices.
pub fn eq_ignore_ascii_case(a: &str, b: &str) -> (r: bool)
    ensures
        r == eq_ignore_case(a@, b@),
{
    let x = to_chars(a);
    let y = to_chars(b);
    chars_eq_ignore_ascii_case(x.as_slice(), y.as_slice())
}

/// The ASCII lower-case form of a string slice, as characters.
pub fn to_ascii_lower(s: &str) -> (r: Vec<char>)
    ensures
        r@ == lower_seq(s@),
{
    let x = to_chars(s);
    lower_chars(x.as_slice())
}

// ---------------------------------------------------------------------------
// Prefix and substring
// ---------------------------------------------------------------------------

/// `p` is a prefix of `s`.
pub open spec fn is_prefix(p: Seq<char>, s: Seq<char>) -> bool {
    p.len() <= s.len() && s.subrange(0, p.len() as int) == p
}

/// `n` occurs in `h` starting at position `i`.
pub open spec fn occurs_at(n: Seq<char>, h: Seq<char>, i: int) -> bool {
    0 <= i && i + n.len() <= h.len() && h.subrange(i, i + n.len()) == n
}

/// `n` occurs somewhere in `h`.
pub open spec fn is_substring(n: Seq<char>, h: Seq<char>) -> bool {
    exists|i: int| occurs_at(n, h, i)
}

/// Whether `n` occurs in `h` at position `at`.
pub fn matches_at(h: &[char], n: &[char], at: usize) -> (r: bool)
    ensures
        r == occurs_at(n@, h@, at as int),
{
    if at > h.len() || n.len() > h.len() - at {
        return false;
    }
    let mut k: usize = 0;
    while k < n.len()
        invariant
            k <= n.len(),
            at + n.len() <= h.len(),
            forall|j: int| 0 <= j < k ==> h@[at + j] == n@[j],
        decreases n.len() - k,
    {
        if h[at + k] != n[k] {
            assert(h@.subrange(at as int, at + n.len())[k as int] != n@[k as int]);
            return false;
        }
        k += 1;
    }
    assert(h@.subrange(at as int, at + n.len()) =~= n@);
    true
}

/// Whether `s` starts with `p`.
pub fn starts_with(s: &[char], p: &[char]) -> (r: bool)
    ensures
        r == is_prefix(p@, s@),
{
    matches_at(s, p, 0)
}

/// Whether `n` occurs somewhere in `h`.
pub fn contains(h: &[char], n: &[char]) -> (r: bool)
    ensures
        r == is_substring(n@, h@),
{
    if n.len() > h.len() {
        return false;
    }
    if n.len() == 0 {
        assert(h@.subrange(0, 0) =~= n@);
        assert(occurs_at(n@, h@, 0));
        return true;
    }
    let last: usize = h.len() - n.len();
    let mut i: usize = 0;
    while i <= last
        invariant
            i <= last + 1,
            last == h.len() - n.len(),
            last < usize::MAX,
            forall|k: int| 0 <= k < i ==> !occurs_at(n@, h@, k),
        decreases last + 1 - i,
    {
        if matches_at(h, n, i) {
            return true;
        }
        i += 1;
    }
    false
}

/// `p` is a suffix of `s`.
pub open spec fn is_suffix(p: Seq<char>, s: Seq<char>) -> bool {
    p.len() <= s.len() && s.subrange(s.len() - p.len(), s.len() as int) == p
}

/// Whether `s` ends with `p`.
pub fn ends_with(s: &[char], p: &[char]) -> (r: bool)
    ensures
        r == is_suffix(p@, s@),
{
    if p.len() > s.len() {
        return false;
    }
    matches_at(s, p, s.len() - p.len())
}

/// A prefix is a substring.
pub proof fn lemma_prefix_is_substring(p: Seq<char>, s: Seq<char>)
    requires
        is_prefix(p, s),
    ensures
        is_substring(p, s),
{
    assert(occurs_at(p, s, 0));
}

/// Every sequence is a prefix of itself.
pub proof fn lemma_self_is_prefix(s: Seq<char>)
    ensures
        is_prefix(s, s),
{
    assert(s.subrange(0, s.len() as int) =~= s);
}

// ---------------------------------------------------------------------------
// Trimming
// ---------------------------------------------------------------------------

/// Whether a character has the Unicode `White_Space` property.
pub uninterp spec fn white_space(c: char) -> bool;

/// The ASCII characters with the Unicode `White_Space` property: U+0009 to
/// U+000D, and the space.
pub open spec fn ascii_white_space(c: char) -> bool {
    ('\u{9}' <= c && c <= '\u{d}') || c == ' '
}

/// Whether a character is white space: for an ASCII character whether it is
/// one of the six above, for any other whether it has the `White_Space`
/// property.
pub open spec fn is_white(c: char) -> bool {
    if c <= '\u{7f}' {
        ascii_white_space(c)
    } else {
        white_space(c)
    }
}

/// `char::is_whitespace` reports the Unicode `White_Space` property of the
/// character. The property is a table of the Unicode database; its ASCII
/// part, U+0009 to U+000D and U+0020, is stated, the rest is named and not
/// written out.
#[verifier::external_body]
fn is_whitespace(c: char) -> (r: bool)
    ensures
        r == white_space(c),
        c <= '\u{7f}' ==> r == ascii_white_space(c),
{
    c.is_whitespace()
}

/// The number of marks that are set at the front.
pub open spec fn leading_run(marks: Seq<bool>) -> nat
    decreases marks.len(),
{
    if marks.len() > 0 && marks[0] {
        1 + leading_run(marks.drop_first())
    } else {
        0
    }
}

/// The number of marks that are set at the back.
pub open spec fn trailing_run(marks: Seq<bool>) -> nat
    decreases marks.len(),
{
    if marks.len() > 0 && marks.last() {
        1 + trailing_run(marks.drop_last())
    } else {
        0
    }
}

/// `s` without the characters that are marked at its front.
pub open spec fn strip_front(s: Seq<char>, marks: Seq<bool>) -> Seq<char> {
    s.subrange(leading_run(marks) as int, s.len() as int)
}

/// `s` without the characters that are marked at its front and, of what is
/// left, at its back.
pub open spec fn strip_ends(s: Seq<char>, marks: Seq<bool>) -> Seq<char> {
    let a = leading_run(marks);
    let b = trailing_run(marks.subrange(a as int, marks.len() as int));
    s.subrange(a as int, s.len() - b)
}

/// For each character, whether it is white space.
pub open spec fn white_marks(s: Seq<char>) -> Seq<bool> {
    Seq::new(s.len(), |i: int| is_white(s[i]))
}

/// For each character, whether it is `'+'`.
pub open spec fn plus_marks(s: Seq<char>) -> Seq<bool> {
    Seq::new(s.len(), |i: int| s[i] == '+')
}

/// `s` without its leading and trailing white space.
pub open spec fn trimmed(s: Seq<char>) -> Seq<char> {
    strip_ends(s, white_marks(s))
}

/// `s` without its leading `'+'` characters.
pub open spec fn without_plus(s: Seq<char>) -> Seq<char> {
    strip_front(s, plus_marks(s))
}

/// If the first `i` marks are all set, the run at the front is `i` plus the
/// run at the front of the rest.
proof fn lemma_leading_split(marks: Seq<bool>, i: int)
    requires
        0 <= i <= marks.len(),
        forall|k: int| 0 <= k < i ==> #[trigger] marks[k],
    ensures
        leading_run(marks) == i + leading_run(marks.subrange(i, marks.len() as int)),
    decreases i,
{
    if i == 0 {
        assert(marks.subrange(0, marks.len() as int) =~= marks);
    } else {
        let t = marks.drop_first();
        assert forall|k: int| 0 <= k < i - 1 implies #[trigger] t[k] by {
            assert(t[k] == marks[k + 1]);
        }
        lemma_leading_split(t, i - 1);
        assert(t.subrange(i - 1, t.len() as int) =~= marks.subrange(i, marks.len() as int));
        assert(marks[0]);
    }
}

/// If the marks from `j` on are all set, the run at the back is their
/// number plus the run at the back of what comes before.
proof fn lemma_trailing_split(marks: Seq<bool>, j: int)
    requires
        0 <= j <= marks.len(),
        forall|k: int| j <= k < marks.len() ==> #[trigger] marks[k],
    ensures
        trailing_run(marks) == (marks.len() - j) + trailing_run(marks.subrange(0, j)),
    decreases marks.len() - j,
{
    if j == marks.len() {
        assert(marks.subrange(0, j) =~= marks);
    } else {
        let t = marks.drop_last();
        assert forall|k: int| j <= k < t.len() implies #[trigger] t[k] by {
            assert(t[k] == marks[k]);
        }
        lemma_trailing_split(t, j);
        assert(t.subrange(0, j) =~= marks.subrange(0, j));
        assert(marks.last());
    }
}

/// A text that neither begins nor ends with white space is its own trimmed
/// form, and so is the empty text.
pub proof fn lemma_trimmed_is_whole(s: Seq<char>)
    requires
        s.len() > 0 ==> !is_white(s[0]) && !is_white(s.last()),
    ensures
        trimmed(s) == s,
{
    let marks = white_marks(s);
    if s.len() > 0 {
        assert(!marks[0]);
        assert(leading_run(marks) == 0);
        assert(marks.subrange(0, marks.len() as int) =~= marks);
        assert(!marks.last());
        assert(trailing_run(marks) == 0);
    } else {
        assert(marks.subrange(0, 0) =~= marks);
    }
    assert(s.subrange(0, s.len() as int) =~= s);
}

/// The characters `s[from..to]`.
fn copy_range(s: &[char], from: usize, to: usize) -> (r: Vec<char>)
    requires
        from <= to <= s.len(),
    ensures
        r@ == s@.subrange(from as int, to as int),
{
    let mut r: Vec<char> = Vec::new();
    let mut i: usize = from;
    while i < to
        invariant
            from <= i <= to <= s.len(),
            r@ == s@.subrange(from as int, i as int),
        decreases to - i,
    {
        r.push(s[i]);
        i += 1;
        assert(s@.subrange(from as int, i as int) == s@.subrange(from as int, i - 1).push(s@[i - 1]));
    }
    r
}

/// The number of marks that are set at the front.
fn count_leading(marks: &[bool]) -> (a: usize)
    ensures
        a == leading_run(marks@),
        a <= marks.len(),
        a < marks.len() ==> !marks@[a as int],
        forall|k: int| 0 <= k < a ==> #[trigger] marks@[k],
{
    let mut a: usize = 0;
    while a < marks.len() && marks[a]
        invariant
            a <= marks.len(),
            forall|k: int| 0 <= k < a ==> #[trigger] marks@[k],
        decreases marks.len() - a,
    {
        a += 1;
    }
    proof {
        let rest = marks@.subrange(a as int, marks.len() as int);
        lemma_leading_split(marks@, a as int);
        if rest.len() > 0 {
            assert(rest[0] == marks@[a as int]);
        }
    }
    a
}

/// The characters of `s` without those that are marked at its front.
pub fn strip_leading(s: &[char], marks: &[bool]) -> (r: Vec<char>)
    requires
        s.len() == marks.len(),
    ensures
        r@ == strip_front(s@, marks@),
{
    let a = count_leading(marks);
    copy_range(s, a, s.len())
}

/// The characters of `s` without those that are marked at its front and, of
/// what is left, at its back.
pub fn strip_marked(s: &[char], marks: &[bool]) -> (r: Vec<char>)
    requires
        s.len() == marks.len(),
    ensures
        r@ == strip_ends(s@, marks@),
{
    let a = count_leading(marks);
    let mut b: usize = s.len();
    while b > a && marks[b - 1]
        invariant
            a <= b <= marks.len(),
            forall|k: int| b <= k < marks.len() ==> #[trigger] marks@[k],
        decreases b,
    {
        b -= 1;
    }
    proof {
        let rest = marks@.subrange(a as int, marks.len() as int);
        assert forall|k: int| b - a <= k < rest.len() implies #[trigger] rest[k] by {
            assert(rest[k] == marks@[k + a]);
        }
        lemma_trailing_split(rest, b - a);
        let kept = rest.subrange(0, b - a);
        if kept.len() > 0 {
            assert(kept.last() == marks@[b - 1]);
        }
    }
    copy_range(s, a, b)
}

/// For each character, whether it is white space.
pub fn mark_white_space(s: &[char]) -> (r: Vec<bool>)
    ensures
        r@ == white_marks(s@),
{
    let mut r: Vec<bool> = Vec::new();
    let mut i: usize = 0;
    while i < s.len()
        invariant
            i <= s.len(),
            r@.len() == i,
            forall|k: int| 0 <= k < i ==> r@[k] == is_white(s@[k]),
        decreases s.len() - i,
    {
        r.push(is_whitespace(s[i]));
        i += 1;
    }
    assert(r@ =~= white_marks(s@));
    r
}

/// For each character, whether it is `'+'`.
pub fn mark_plus(s: &[char]) -> (r: Vec<bool>)
    ensures
        r@ == plus_marks(s@),
{
    let mut r: Vec<bool> = Vec::new();
    let mut i: usize = 0;
    while i < s.len()
        invariant
            i <= s.len(),
            r@.len() == i,
            forall|k: int| 0 <= k < i ==> r@[k] == (s@[k] == '+'),
        decreases s.len() - i,
    {
        r.push(s[i] == '+');
        i += 1;
    }
    assert(r@ =~= plus_marks(s@));
    r
}

/// The characters of `s` without leading and trailing white space.
pub fn trim(s: &[char]) -> (r: Vec<char>)
    ensures
        r@ == trimmed(s@),
{
    let marks = mark_white_space(s);
    strip_marked(s, marks.as_slice())
}

/// The characters of `s` without its leading `'+'` characters.
pub fn strip_plus(s: &[char]) -> (r: Vec<char>)
    ensures
        r@ == without_plus(s@),
{
    let marks = mark_plus(s);
    strip_leading(s, marks.as_slice())
}

} // verus!
