//! The rank order of numbered folder names: by number, and among equal
//! numbers by raw name.

use crate::digits;
use crate::entities;
use crate::entities::NumberedFolderName;
use crate::entities::NumberedName;
use vstd::prelude::*;

verus! {

/// Whether the text `a` comes strictly before `b`, character by character;
/// a text comes after each of its own beginnings.
pub open spec fn text_before(a: Seq<char>, b: Seq<char>) -> bool
    decreases a.len(),
{
    if b.len() == 0 {
        false
    } else if a.len() == 0 {
        true
    } else if a[0] != b[0] {
        a[0] < b[0]
    } else {
        text_before(a.skip(1), b.skip(1))
    }
}

/// Whether `a` is ranked strictly before `b`: by number, and among equal
/// numbers by raw name.
pub open spec fn precedes(a: NumberedName, b: NumberedName) -> bool {
    a.value < b.value || (a.value == b.value && text_before(a.text(), b.text()))
}

/// Whether no name of `s` is ranked strictly before an earlier one.
pub open spec fn is_ranked(s: Seq<NumberedName>) -> bool {
    forall|i: int, j: int| 0 <= i < j < s.len() ==> !precedes(s[j], s[i])
}

/// `s` with `e` put behind the last name that `e` is not ranked before.
pub open spec fn ranked_insert(s: Seq<NumberedName>, e: NumberedName) -> Seq<NumberedName>
    decreases s.len(),
{
    if s.len() > 0 && precedes(e, s.last()) {
        ranked_insert(s.drop_last(), e).push(s.last())
    } else {
        s.push(e)
    }
}

/// The names of `s` by rank: by number, among equal numbers by raw name,
/// and names that agree in both in the order they have in `s`.
pub open spec fn ranked(s: Seq<NumberedName>) -> Seq<NumberedName>
    decreases s.len(),
{
    if s.len() == 0 {
        s
    } else {
        ranked_insert(ranked(s.drop_last()), s.last())
    }
}

/// The place that `ranked_insert` gives a name.
pub open spec fn insert_place(s: Seq<NumberedName>, e: NumberedName) -> int
    decreases s.len(),
{
    if s.len() > 0 && precedes(e, s.last()) {
        insert_place(s.drop_last(), e)
    } else {
        s.len() as int
    }
}

/// No text comes before itself.
pub proof fn lemma_text_before_irreflexive(a: Seq<char>)
    ensures
        !text_before(a, a),
    decreases a.len(),
{
    if a.len() > 0 {
        lemma_text_before_irreflexive(a.skip(1));
    }
}

/// Of two different texts exactly one comes before the other.
pub proof fn lemma_text_before_total(a: Seq<char>, b: Seq<char>)
    ensures
        a != b ==> (text_before(a, b) <==> !text_before(b, a)),
        a == b ==> !text_before(a, b) && !text_before(b, a),
    decreases a.len(),
{
    if a == b {
        lemma_text_before_irreflexive(a);
    } else if a.len() == 0 || b.len() == 0 {
        if a.len() == 0 && b.len() == 0 {
            assert(a =~= b);
        }
    } else if a[0] == b[0] {
        lemma_text_before_total(a.skip(1), b.skip(1));
        if a.skip(1) == b.skip(1) {
            assert(a =~= seq![a[0]] + a.skip(1));
            assert(b =~= seq![b[0]] + b.skip(1));
        }
    }
}

/// What comes before a text comes before all that the text comes before.
pub proof fn lemma_text_before_transitive(a: Seq<char>, b: Seq<char>, c: Seq<char>)
    requires
        text_before(a, b),
        text_before(b, c),
    ensures
        text_before(a, c),
    decreases a.len(),
{
    if a.len() > 0 && a[0] == b[0] && b[0] == c[0] {
        lemma_text_before_transitive(a.skip(1), b.skip(1), c.skip(1));
    }
}

/// Ranking is transitive, also where it is read as "not after".
pub proof fn lemma_precedes_transitive(a: NumberedName, b: NumberedName, c: NumberedName)
    ensures
        precedes(a, b) && precedes(b, c) ==> precedes(a, c),
        !precedes(b, a) && !precedes(c, b) ==> !precedes(c, a),
        !precedes(b, a) && precedes(b, c) ==> precedes(a, c),
        precedes(a, b) && !precedes(c, b) ==> precedes(a, c),
        !precedes(a, a),
{
    lemma_text_before_irreflexive(a.text());
    lemma_text_before_total(a.text(), b.text());
    lemma_text_before_total(b.text(), c.text());
    lemma_text_before_total(a.text(), c.text());
    if text_before(a.text(), b.text()) && text_before(b.text(), c.text()) {
        lemma_text_before_transitive(a.text(), b.text(), c.text());
    }
    if text_before(c.text(), b.text()) && text_before(b.text(), a.text()) {
        lemma_text_before_transitive(c.text(), b.text(), a.text());
    }
}

/// Names with the same raw name have the same number.
pub proof fn lemma_text_value(a: NumberedName, b: NumberedName)
    requires
        a.text() == b.text(),
    ensures
        a.value == b.value,
{
    entities::lemma_numbered_text_head(a, a.width);
    entities::lemma_numbered_text_head(b, b.width);
    digits::lemma_number_of_zero_padded(a.value, a.width);
    digits::lemma_number_of_zero_padded(b.value, b.width);
    entities::lemma_head_len(a.text(), digits::zero_padded(a.value, a.width).len() as int);
    entities::lemma_head_len(b.text(), digits::zero_padded(b.value, b.width).len() as int);
}

/// Two well-formed names of which neither is ranked before the other are
/// the same name.
pub proof fn lemma_same_rank_same_name(a: NumberedName, b: NumberedName)
    requires
        a.wf(),
        b.wf(),
        !precedes(a, b),
        !precedes(b, a),
    ensures
        a == b,
{
    lemma_text_before_total(a.text(), b.text());
    entities::lemma_numbered_text_head(a, a.width);
    entities::lemma_numbered_text_head(b, b.width);
    digits::lemma_number_of_zero_padded(a.value, a.width);
    digits::lemma_number_of_zero_padded(b.value, b.width);
    entities::lemma_head_len(a.text(), a.width as int);
    entities::lemma_head_len(b.text(), b.width as int);
    assert(a.remainder =~= b.remainder);
}

/// Where `ranked_insert` puts a name: behind the last name that it is not
/// ranked before.
pub proof fn lemma_ranked_insert_at(s: Seq<NumberedName>, e: NumberedName, p: int)
    requires
        0 <= p <= s.len(),
        forall|j: int| p <= j < s.len() ==> precedes(e, #[trigger] s[j]),
        p > 0 ==> !precedes(e, s[p - 1]),
    ensures
        ranked_insert(s, e) == s.insert(p, e),
    decreases s.len(),
{
    if p == s.len() {
        assert(s.push(e) =~= s.insert(p, e));
    } else {
        assert(precedes(e, s[s.len() - 1]));
        lemma_ranked_insert_at(s.drop_last(), e, p);
        assert(s.drop_last().insert(p, e).push(s.last()) =~= s.insert(p, e));
    }
}

/// `ranked_insert` puts the name at `insert_place`, behind names that it is
/// not ranked before and in front of names that it is ranked before.
pub proof fn lemma_insert_place(s: Seq<NumberedName>, e: NumberedName)
    ensures
        0 <= insert_place(s, e) <= s.len(),
        forall|j: int| insert_place(s, e) <= j < s.len() ==> precedes(e, #[trigger] s[j]),
        insert_place(s, e) > 0 ==> !precedes(e, s[insert_place(s, e) - 1]),
        ranked_insert(s, e) == s.insert(insert_place(s, e), e),
    decreases s.len(),
{
    if s.len() > 0 && precedes(e, s.last()) {
        lemma_insert_place(s.drop_last(), e);
        let p = insert_place(s.drop_last(), e);
        assert forall|j: int| p <= j < s.len() implies precedes(e, #[trigger] s[j]) by {
            if j < s.len() - 1 {
                assert(s.drop_last()[j] == s[j]);
            }
        }
        if p > 0 {
            assert(s.drop_last()[p - 1] == s[p - 1]);
        }
    }
    lemma_ranked_insert_at(s, e, insert_place(s, e));
}

/// Putting a name into ranked names leaves them ranked.
pub proof fn lemma_ranked_insert_keeps_rank(s: Seq<NumberedName>, e: NumberedName)
    requires
        is_ranked(s),
    ensures
        is_ranked(ranked_insert(s, e)),
{
    lemma_insert_place(s, e);
    let p = insert_place(s, e);
    let t = s.insert(p, e);
    assert forall|i: int, j: int| 0 <= i < j < t.len() implies !precedes(t[j], t[i]) by {
        if j == p {
            // t[i] stands in front of s[p - 1], which is not after e.
            assert(t[i] == s[i]);
            if i < p - 1 {
                lemma_precedes_transitive(s[i], s[p - 1], e);
            }
        } else if i == p {
            // e is ranked before s[j - 1], so s[j - 1] is not ranked before e.
            assert(t[j] == s[j - 1]);
            lemma_precedes_transitive(e, s[j - 1], e);
        } else {
            let si = if i < p {
                i
            } else {
                i - 1
            };
            let sj = if j < p {
                j
            } else {
                j - 1
            };
            assert(t[i] == s[si] && t[j] == s[sj]);
        }
    }
}

/// Ranked names are in rank order.
pub proof fn lemma_ranked_is_ranked(s: Seq<NumberedName>)
    ensures
        is_ranked(ranked(s)),
        ranked(s).len() == s.len(),
    decreases s.len(),
{
    if s.len() > 0 {
        lemma_ranked_is_ranked(s.drop_last());
        lemma_ranked_insert_keeps_rank(ranked(s.drop_last()), s.last());
        lemma_insert_place(ranked(s.drop_last()), s.last());
    }
}

/// Ranking moves names and neither drops nor adds one.
pub proof fn lemma_ranked_permutes(s: Seq<NumberedName>)
    ensures
        ranked(s).to_multiset() == s.to_multiset(),
    decreases s.len(),
{
    broadcast use vstd::seq_lib::group_to_multiset_ensures;

    if s.len() > 0 {
        let r = ranked(s.drop_last());
        let e = s.last();
        lemma_ranked_permutes(s.drop_last());
        lemma_insert_place(r, e);
        let p = insert_place(r, e);
        let t = r.insert(p, e);
        assert(t.remove(p) =~= r);
        assert(t[p] == e);
        assert(t.to_multiset().remove(e) =~= r.to_multiset());
        assert(t.to_multiset().count(e) > 0);
        assert(t.to_multiset() =~= r.to_multiset().insert(e));
        assert(s =~= s.drop_last().push(e));
        assert(s.to_multiset() =~= s.drop_last().to_multiset().insert(e));
    } else {
        assert(ranked(s) =~= s);
    }
}

/// Well-formed names can be put in rank order in one way only.
pub proof fn lemma_ranked_unique(a: Seq<NumberedName>, b: Seq<NumberedName>)
    requires
        is_ranked(a),
        is_ranked(b),
        a.to_multiset() == b.to_multiset(),
        forall|i: int| 0 <= i < a.len() ==> (#[trigger] a[i]).wf(),
    ensures
        a == b,
    decreases a.len(),
{
    broadcast use vstd::seq_lib::group_to_multiset_ensures;

    assert(a.len() == b.len()) by {
        assert(a.to_multiset().len() == a.len());
        assert(b.to_multiset().len() == b.len());
    }
    if a.len() > 0 {
        let la = a.last();
        let lb = b.last();
        assert(a.contains(la));
        assert(b.contains(lb));
        assert(b.to_multiset().count(la) > 0);
        assert(a.to_multiset().count(lb) > 0);
        assert(b.contains(la));
        assert(a.contains(lb));
        let j = choose|j: int| 0 <= j < b.len() && b[j] == la;
        let k = choose|k: int| 0 <= k < a.len() && a[k] == lb;
        lemma_precedes_transitive(la, la, la);
        lemma_precedes_transitive(lb, lb, lb);
        assert(!precedes(lb, la)) by {
            if j < b.len() - 1 {
                assert(!precedes(b[b.len() - 1], b[j]));
            }
        }
        assert(!precedes(la, lb)) by {
            if k < a.len() - 1 {
                assert(!precedes(a[a.len() - 1], a[k]));
            }
        }
        assert(lb.wf());
        lemma_same_rank_same_name(la, lb);
        assert(a.drop_last() =~= a.remove(a.len() - 1));
        assert(b.drop_last() =~= b.remove(b.len() - 1));
        assert(a.drop_last().to_multiset() =~= b.drop_last().to_multiset());
        assert forall|i: int| 0 <= i < a.drop_last().len() implies (
        #[trigger] a.drop_last()[i]).wf() by {
            assert(a.drop_last()[i] == a[i]);
        }
        assert(is_ranked(a.drop_last())) by {
            assert forall|x: int, y: int| 0 <= x < y < a.drop_last().len() implies !precedes(
                a.drop_last()[y],
                a.drop_last()[x],
            ) by {
                assert(a.drop_last()[y] == a[y] && a.drop_last()[x] == a[x]);
            }
        }
        assert(is_ranked(b.drop_last())) by {
            assert forall|x: int, y: int| 0 <= x < y < b.drop_last().len() implies !precedes(
                b.drop_last()[y],
                b.drop_last()[x],
            ) by {
                assert(b.drop_last()[y] == b[y] && b.drop_last()[x] == b[x]);
            }
        }
        lemma_ranked_unique(a.drop_last(), b.drop_last());
        assert(a =~= a.drop_last().push(la));
        assert(b =~= b.drop_last().push(lb));
    } else {
        assert(a =~= b);
    }
}

/// Whether the characters `a` come before the characters `b`.
fn comes_before(a: &Vec<char>, b: &Vec<char>) -> (r: bool)
    ensures
        r == text_before(a@, b@),
{
    let mut i: usize = 0;
    assert(a@.skip(0) =~= a@ && b@.skip(0) =~= b@);
    while i < a.len() && i < b.len() && a[i] == b[i]
        invariant
            i <= a.len(),
            i <= b.len(),
            text_before(a@, b@) == text_before(a@.skip(i as int), b@.skip(i as int)),
        decreases a.len() - i,
    {
        assert(a@.skip(i as int).skip(1) =~= a@.skip(i + 1));
        assert(b@.skip(i as int).skip(1) =~= b@.skip(i + 1));
        i = i + 1;
    }
    if i == b.len() {
        false
    } else if i == a.len() {
        true
    } else {
        a[i] < b[i]
    }
}

/// Whether `a` is ranked before `b`, given the raw names of both.
fn ranks_before_as(
    a: &NumberedFolderName,
    a_text: &Vec<char>,
    b: &NumberedFolderName,
    b_text: &Vec<char>,
) -> (r: bool)
    requires
        a_text@ == a@.text(),
        b_text@ == b@.text(),
    ensures
        r == precedes(a@, b@),
{
    let x: usize = a.number().get_value();
    let y: usize = b.number().get_value();
    x < y || (x == y && comes_before(a_text, b_text))
}

/// Whether `a` is ranked before `b`.
pub fn ranks_before(a: &NumberedFolderName, b: &NumberedFolderName) -> (r: bool)
    ensures
        r == precedes(a@, b@),
{
    let a_text = digits::chars_of(a.get_name().as_str());
    let b_text = digits::chars_of(b.get_name().as_str());
    ranks_before_as(a, &a_text, b, &b_text)
}

/// Puts numbered names in rank order; names that agree in number and raw name
/// keep the order they came in.
pub fn rank_names(names: &Vec<NumberedFolderName>) -> (sorted: Vec<NumberedFolderName>)
    ensures
        entities::names_view(sorted@) == ranked(entities::names_view(names@)),
{
    let mut sorted: Vec<NumberedFolderName> = Vec::new();
    let mut texts: Vec<Vec<char>> = Vec::new();
    let mut i: usize = 0;
    assert(entities::names_view(names@).take(0) =~= Seq::empty());
    assert(entities::names_view(sorted@) =~= Seq::empty());
    while i < names.len()
        invariant
            i <= names.len(),
            sorted.len() == i,
            texts.len() == i,
            entities::names_view(sorted@) == ranked(entities::names_view(names@).take(i as int)),
            forall|j: int| 0 <= j < i ==> (#[trigger] texts[j])@ == sorted[j]@.text(),
        decreases names.len() - i,
    {
        let name = names[i].clone();
        let text = digits::chars_of(name.get_name().as_str());
        let mut p: usize = i;
        while p > 0 && ranks_before_as(&name, &text, &sorted[p - 1], &texts[p - 1])
            invariant
                p <= i,
                sorted.len() == i,
                texts.len() == i,
                text@ == name@.text(),
                forall|j: int| 0 <= j < i ==> (#[trigger] texts[j])@ == sorted[j]@.text(),
                forall|j: int|
                    p <= j < i ==> precedes(name@, #[trigger] entities::names_view(sorted@)[j]),
            decreases p,
        {
            p = p - 1;
        }
        proof {
            let before = entities::names_view(sorted@);
            let taken = entities::names_view(names@).take(i + 1);
            lemma_ranked_insert_at(before, name@, p as int);
            assert(taken.drop_last() =~= entities::names_view(names@).take(i as int));
            assert(taken.last() == name@);
            assert(entities::names_view(sorted@.insert(p as int, name)) =~= before.insert(
                p as int,
                name@,
            ));
        }
        sorted.insert(p, name);
        texts.insert(p, text);
        i = i + 1;
    }
    assert(entities::names_view(names@).take(names.len() as int) =~= entities::names_view(names@));
    sorted
}

} // verus!
