//! The order of language codes, and the stable sort of translations by it.

use vstd::prelude::*;
use crate::text::to_chars;

verus! {

/// A list of translations in the model: pairs of language code and name.
pub type Translations = Seq<(Seq<char>, Seq<char>)>;

/// The lexicographic order of two codes by character value: `a` comes no
/// later than `b`.
pub open spec fn code_le(a: Seq<char>, b: Seq<char>) -> bool
    decreases a.len(),
{
    if a.len() == 0 {
        true
    } else if b.len() == 0 {
        false
    } else if a[0] != b[0] {
        a[0] < b[0]
    } else {
        code_le(a.drop_first(), b.drop_first())
    }
}

/// Whether `a` comes no later than `b` in the order of codes.
pub fn chars_le(a: &[char], b: &[char]) -> (r: bool)
    ensures
        r == code_le(a@, b@),
{
    let mut i: usize = 0;
    assert(a@.skip(0) =~= a@ && b@.skip(0) =~= b@);
    while i < a.len() && i < b.len()
        invariant
            i <= a.len(),
            i <= b.len(),
            code_le(a@, b@) == code_le(a@.skip(i as int), b@.skip(i as int)),
        decreases a.len() - i,
    {
        let x = a[i];
        let y = b[i];
        proof {
            assert(a@.skip(i as int)[0] == x);
            assert(b@.skip(i as int)[0] == y);
            assert(a@.skip(i as int).drop_first() =~= a@.skip(i + 1));
            assert(b@.skip(i as int).drop_first() =~= b@.skip(i + 1));
        }
        if x != y {
            return x < y;
        }
        i += 1;
    }
    i == a.len()
}

/// `x` put into `s` behind the last entry that comes no later than `x` in
/// the order `le`.
pub open spec fn stable_insert<T>(s: Seq<T>, x: T, le: spec_fn(T, T) -> bool) -> Seq<T>
    decreases s.len(),
{
    if s.len() == 0 {
        seq![x]
    } else if le(s.last(), x) {
        s.push(x)
    } else {
        stable_insert(s.drop_last(), x, le).push(s.last())
    }
}

/// The stable sort of `s` by the order `le`: the entries in order, entries
/// that the order does not tell apart in the order in which they came.
pub open spec fn stable_sort<T>(s: Seq<T>, le: spec_fn(T, T) -> bool) -> Seq<T>
    decreases s.len(),
{
    if s.len() == 0 {
        Seq::empty()
    } else {
        stable_insert(stable_sort(s.drop_last(), le), s.last(), le)
    }
}

/// Whether the entries of `s` come in the order `le`.
pub open spec fn in_order<T>(s: Seq<T>, le: spec_fn(T, T) -> bool) -> bool {
    forall|i: int, j: int| 0 <= i < j < s.len() ==> le(#[trigger] s[i], #[trigger] s[j])
}

/// `le` tells any two values apart one way or the other, and is transitive.
pub open spec fn is_total_preorder<T>(le: spec_fn(T, T) -> bool) -> bool {
    &&& forall|a: T, b: T| #[trigger] le(a, b) || le(b, a)
    &&& forall|a: T, b: T, c: T| #[trigger] le(a, b) && #[trigger] le(b, c) ==> le(a, c)
}

/// Inserting at the position behind which every entry comes later than `x`,
/// and before which the entry comes no later, is `stable_insert`.
pub proof fn lemma_insert_position<T>(s: Seq<T>, x: T, le: spec_fn(T, T) -> bool, pos: int)
    requires
        0 <= pos <= s.len(),
        forall|i: int| pos <= i < s.len() ==> !le(#[trigger] s[i], x),
        pos > 0 ==> le(s[pos - 1], x),
    ensures
        stable_insert(s, x, le) == s.insert(pos, x),
    decreases s.len() - pos,
{
    if pos == s.len() {
        if s.len() == 0 {
            assert(s.insert(0, x) =~= seq![x]);
        } else {
            assert(s.insert(pos, x) =~= s.push(x));
        }
    } else {
        let t = s.drop_last();
        assert(!le(s.last(), x));
        assert forall|i: int| pos <= i < t.len() implies !le(#[trigger] t[i], x) by {
            assert(t[i] == s[i]);
        }
        lemma_insert_position(t, x, le, pos);
        assert(t.insert(pos, x).push(s.last()) =~= s.insert(pos, x));
    }
}

/// Where `stable_insert` puts `x`: behind a run of entries that are kept in
/// their order, before a run of entries that all come later than `x`.
pub proof fn lemma_insert_shape<T>(s: Seq<T>, x: T, le: spec_fn(T, T) -> bool) -> (pos: int)
    ensures
        0 <= pos <= s.len(),
        stable_insert(s, x, le) == s.insert(pos, x),
        forall|i: int| pos <= i < s.len() ==> !le(#[trigger] s[i], x),
        pos > 0 ==> le(s[pos - 1], x),
    decreases s.len(),
{
    if s.len() == 0 {
        assert(s.insert(0, x) =~= seq![x]);
        0
    } else if le(s.last(), x) {
        assert(s.insert(s.len() as int, x) =~= s.push(x));
        s.len() as int
    } else {
        let t = s.drop_last();
        let pos = lemma_insert_shape(t, x, le);
        assert(t.insert(pos, x).push(s.last()) =~= s.insert(pos, x));
        assert forall|i: int| pos <= i < s.len() implies !le(#[trigger] s[i], x) by {
            if i < t.len() {
                assert(t[i] == s[i]);
            }
        }
        pos
    }
}

/// Inserting into a list that is in order gives a list that is in order,
/// with the same entries and `x`.
pub proof fn lemma_insert_keeps_order<T>(s: Seq<T>, x: T, le: spec_fn(T, T) -> bool)
    requires
        is_total_preorder(le),
        in_order(s, le),
    ensures
        in_order(stable_insert(s, x, le), le),
        stable_insert(s, x, le).len() == s.len() + 1,
        stable_insert(s, x, le).to_multiset() == s.to_multiset().insert(x),
{
    let pos = lemma_insert_shape(s, x, le);
    let r = s.insert(pos, x);
    assert forall|i: int, j: int| 0 <= i < j < r.len() implies le(#[trigger] r[i], #[trigger] r[j]) by {
        if j < pos {
            assert(r[i] == s[i] && r[j] == s[j]);
        } else if j == pos {
            assert(r[i] == s[i]);
            if i < pos - 1 {
                assert(le(s[i], s[pos - 1]));
            }
            assert(le(s[pos - 1], x));
        } else if i == pos {
            assert(r[j] == s[j - 1]);
            assert(!le(s[j - 1], x));
            assert(le(s[j - 1], x) || le(x, s[j - 1]));
        } else if i < pos {
            assert(r[i] == s[i] && r[j] == s[j - 1]);
        } else {
            assert(r[i] == s[i - 1] && r[j] == s[j - 1]);
        }
    }
    vstd::seq_lib::to_multiset_insert(s, pos, x);
}

/// The stable sort of a list is in order, and it holds the entries of the
/// list, each as often as the list does.
pub proof fn lemma_stable_sort<T>(s: Seq<T>, le: spec_fn(T, T) -> bool)
    requires
        is_total_preorder(le),
    ensures
        in_order(stable_sort(s, le), le),
        stable_sort(s, le).len() == s.len(),
        stable_sort(s, le).to_multiset() == s.to_multiset(),
    decreases s.len(),
{
    broadcast use vstd::seq_lib::group_to_multiset_ensures;

    if s.len() == 0 {
        assert(stable_sort(s, le) =~= s);
    } else {
        lemma_stable_sort(s.drop_last(), le);
        lemma_insert_keeps_order(stable_sort(s.drop_last(), le), s.last(), le);
        assert(s =~= s.drop_last().push(s.last()));
    }
}

/// The stable sort leaves a list that is in order as it is: entries that
/// already come in order, entries of equal rank among them, never change
/// places.
pub proof fn lemma_stable_sort_keeps_order<T>(s: Seq<T>, le: spec_fn(T, T) -> bool)
    requires
        in_order(s, le),
    ensures
        stable_sort(s, le) == s,
    decreases s.len(),
{
    if s.len() == 0 {
        assert(stable_sort(s, le) =~= s);
    } else {
        let init = s.drop_last();
        assert forall|i: int, j: int| 0 <= i < j < init.len() implies le(#[trigger] init[i], #[trigger] init[j]) by {
            assert(init[i] == s[i] && init[j] == s[j]);
        }
        lemma_stable_sort_keeps_order(init, le);
        if init.len() > 0 {
            assert(le(s[init.len() - 1], s[s.len() - 1]));
            assert(init.last() == s[init.len() - 1]);
        }
        assert(init.push(s.last()) =~= s);
        if init.len() == 0 {
            assert(seq![s.last()] =~= s);
        }
    }
}

/// The order of translations: by language code.
pub open spec fn by_code() -> spec_fn((Seq<char>, Seq<char>), (Seq<char>, Seq<char>)) -> bool {
    |a: (Seq<char>, Seq<char>), b: (Seq<char>, Seq<char>)| code_le(a.0, b.0)
}

/// The translations sorted by language code; entries with the same code keep
/// the order in which they came.
pub open spec fn sort_by_code(s: Translations) -> Translations {
    stable_sort(s, by_code())
}

/// A copy of the translations, sorted by language code; entries with the
/// same code keep their order.
pub fn sorted_translations(v: &Vec<(String, String)>) -> (r: Vec<(String, String)>)
    ensures
        r.deep_view() == sort_by_code(v.deep_view()),
{
    let mut r: Vec<(String, String)> = Vec::new();
    let mut i: usize = 0;
    assert(v.deep_view().take(0) =~= Seq::empty());
    assert(r.deep_view() =~= Seq::empty());
    while i < v.len()
        invariant
            i <= v.len(),
            r.len() == i,
            r.deep_view() == sort_by_code(v.deep_view().take(i as int)),
        decreases v.len() - i,
    {
        let key = to_chars(v[i].0.as_str());
        let mut pos: usize = r.len();
        while pos > 0 && !chars_le(to_chars(r[pos - 1].0.as_str()).as_slice(), key.as_slice())
            invariant
                pos <= r.len(),
                key@ == v@[i as int].0@,
                forall|k: int| pos <= k < r.len() ==> !code_le(#[trigger] r.deep_view()[k].0, key@),
                pos < r.len() || pos == r.len(),
            decreases pos,
        {
            pos -= 1;
        }
        let ghost before = r.deep_view();
        let item = (v[i].0.clone(), v[i].1.clone());
        let ghost x = item.deep_view();
        r.insert(pos, item);
        proof {
            assert(x == v.deep_view()[i as int]);
            assert(r.deep_view() =~= before.insert(pos as int, x));
            assert forall|n: int| pos <= n < before.len() implies !by_code()(#[trigger] before[n], x) by {
                assert(!code_le(before[n].0, key@));
            }
            if pos > 0 {
                assert(by_code()(before[pos - 1], x));
            }
            lemma_insert_position(before, x, by_code(), pos as int);
            let next = v.deep_view().take(i + 1);
            assert(next.drop_last() =~= v.deep_view().take(i as int));
            assert(next.last() == x);
        }
        i += 1;
    }
    assert(v.deep_view().take(v.len() as int) =~= v.deep_view());
    r
}

/// Every code comes no later than itself.
pub proof fn lemma_code_le_reflexive(a: Seq<char>)
    ensures
        code_le(a, a),
    decreases a.len(),
{
    if a.len() > 0 {
        lemma_code_le_reflexive(a.drop_first());
    }
}

/// Of two codes, one comes no later than the other.
pub proof fn lemma_code_le_total(a: Seq<char>, b: Seq<char>)
    ensures
        code_le(a, b) || code_le(b, a),
    decreases a.len(),
{
    if a.len() > 0 && b.len() > 0 && a[0] == b[0] {
        lemma_code_le_total(a.drop_first(), b.drop_first());
    }
}

/// The order of codes is transitive.
pub proof fn lemma_code_le_transitive(a: Seq<char>, b: Seq<char>, c: Seq<char>)
    requires
        code_le(a, b),
        code_le(b, c),
    ensures
        code_le(a, c),
    decreases a.len(),
{
    if a.len() > 0 && b.len() > 0 && c.len() > 0 && a[0] == b[0] && b[0] == c[0] {
        lemma_code_le_transitive(a.drop_first(), b.drop_first(), c.drop_first());
    }
}

/// The order of language codes tells any two codes apart and is transitive.
pub proof fn lemma_by_code_is_total_preorder()
    ensures
        is_total_preorder(by_code()),
{
    assert forall|a: (Seq<char>, Seq<char>), b: (Seq<char>, Seq<char>)| #[trigger]
        by_code()(a, b) || by_code()(b, a) by {
        lemma_code_le_total(a.0, b.0);
    }
    assert forall|a: (Seq<char>, Seq<char>), b: (Seq<char>, Seq<char>), c: (Seq<char>, Seq<char>)|
        #[trigger] by_code()(a, b) && #[trigger] by_code()(b, c) implies by_code()(a, c) by {
        lemma_code_le_transitive(a.0, b.0, c.0);
    }
}

/// The sorted translations are in the order of their codes, and they are the
/// given translations, each as often as it was given.
pub proof fn lemma_sort_by_code(s: Translations)
    ensures
        in_order(sort_by_code(s), by_code()),
        sort_by_code(s).len() == s.len(),
        sort_by_code(s).to_multiset() == s.to_multiset(),
{
    lemma_by_code_is_total_preorder();
    lemma_stable_sort(s, by_code());
}

} // verus!
