use vstd::prelude::*;

use crate::grammar::{covered_by, first_occurrence, first_occurrence_from, occurs_at, replace_first, Alphabet};

verus! {

/// Union and intersection of symbol sets do not depend on the order of
/// their operands.
pub proof fn lemma_union_intersection_commute(a: &Alphabet, b: &Alphabet)
    ensures
        a@.union(b@) == b@.union(a@),
        a@.intersect(b@) == b@.intersect(a@),
{
    assert(a@.union(b@) =~= b@.union(a@));
    assert(a@.intersect(b@) =~= b@.intersect(a@));
}

/// The union and the intersection of a symbol set with itself are that set.
pub proof fn lemma_union_intersection_idempotent(a: &Alphabet)
    ensures
        a@.union(a@) == a@,
        a@.intersect(a@) == a@,
{
    assert(a@.union(a@) =~= a@);
    assert(a@.intersect(a@) =~= a@);
}

/// Inserting a symbol and then deleting it leaves the set as deleting it
/// alone would; for a symbol that was absent, that is the original set.
/// Deleting an absent symbol changes nothing.
pub proof fn lemma_insert_then_delete(s: &Alphabet, c: char)
    ensures
        s@.insert(c).remove(c) == s@.remove(c),
        !s@.contains(c) ==> s@.insert(c).remove(c) == s@,
        !s@.contains(c) ==> s@.remove(c) == s@,
{
    assert(s@.insert(c).remove(c) =~= s@.remove(c));
    if !s@.contains(c) {
        assert(s@.remove(c) =~= s@);
    }
}

/// The empty word is covered by every symbol set.
pub proof fn lemma_empty_word_covered(s: &Alphabet)
    ensures
        covered_by(Seq::<char>::empty(), s@),
{
}

/// A position found by the leftmost search is an occurrence, at or after
/// where the search began.
pub proof fn lemma_first_occurrence_from_occurs(s: Seq<char>, k: Seq<char>, i: int)
    ensures
        first_occurrence_from(s, k, i) matches Some(p) ==> i <= p && occurs_at(s, k, p),
    decreases s.len() + 1 - i,
{
    if i < 0 || i + k.len() > s.len() {
    } else if occurs_at(s, k, i) {
    } else {
        lemma_first_occurrence_from_occurs(s, k, i + 1);
    }
}

/// Replacing the leftmost occurrence keeps every symbol before it and every
/// symbol after it, in place and in order; the replacement stands between
/// them. Where the key does not occur, nothing changes.
pub proof fn lemma_replace_first_frame(s: Seq<char>, k: Seq<char>, r: Seq<char>)
    ensures
        first_occurrence(s, k) matches Some(p) ==> {
            let out = replace_first(s, k, r);
            &&& occurs_at(s, k, p)
            &&& out.len() == s.len() - k.len() + r.len()
            &&& out.subrange(0, p) == s.subrange(0, p)
            &&& out.subrange(p, p + r.len()) == r
            &&& out.subrange(p + r.len(), out.len() as int) == s.subrange(p + k.len(), s.len() as int)
        },
        first_occurrence(s, k) is None ==> replace_first(s, k, r) == s,
{
    lemma_first_occurrence_from_occurs(s, k, 0);
    if let Some(p) = first_occurrence(s, k) {
        let out = replace_first(s, k, r);
        assert(out.subrange(0, p) =~= s.subrange(0, p));
        assert(out.subrange(p, p + r.len()) =~= r);
        assert(out.subrange(p + r.len(), out.len() as int) =~= s.subrange(p + k.len(), s.len() as int));
    }
}

/// Replacing the leftmost occurrence of a key by the key itself gives back
/// the same symbols.
pub proof fn lemma_replace_by_key_is_identity(s: Seq<char>, k: Seq<char>)
    ensures
        replace_first(s, k, k) == s,
{
    lemma_first_occurrence_from_occurs(s, k, 0);
    if let Some(p) = first_occurrence(s, k) {
        assert(s.subrange(0, p) + k + s.subrange(p + k.len(), s.len() as int) =~= s);
    }
}

} // verus!
