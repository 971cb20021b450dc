use vstd::prelude::*;

verus! {

/// The map that an association list denotes: each key maps to the value of
/// its last entry, so a later entry overrides an earlier one with the same key.
pub open spec fn assoc<K: View<V = Seq<char>>, V: View>(s: Seq<(K, V)>) -> Map<Seq<char>, V::V>
    decreases s.len(),
{
    if s.len() == 0 {
        Map::empty()
    } else {
        assoc(s.drop_last()).insert(s.last().0@, s.last().1@)
    }
}

/// Appending an entry inserts it into the denoted map.
pub proof fn lemma_assoc_push<K: View<V = Seq<char>>, V: View>(s: Seq<(K, V)>, p: (K, V))
    ensures
        assoc(s.push(p)) == assoc(s).insert(p.0@, p.1@),
{
    assert(s.push(p).drop_last() =~= s);
}

/// A key that no entry carries is absent from the denoted map.
pub proof fn lemma_assoc_absent<K: View<V = Seq<char>>, V: View>(s: Seq<(K, V)>, k: Seq<char>)
    requires
        forall|j: int| 0 <= j < s.len() ==> s[j].0@ != k,
    ensures
        !assoc(s).contains_key(k),
    decreases s.len(),
{
    if s.len() > 0 {
        lemma_assoc_absent(s.drop_last(), k);
    }
}

/// The denoted map holds the value of the last entry with a given key.
pub proof fn lemma_assoc_last<K: View<V = Seq<char>>, V: View>(s: Seq<(K, V)>, i: int)
    requires
        0 <= i < s.len(),
        forall|j: int| i < j < s.len() ==> s[j].0@ != s[i].0@,
    ensures
        assoc(s).contains_key(s[i].0@),
        assoc(s)[s[i].0@] == s[i].1@,
    decreases s.len(),
{
    if i < s.len() - 1 {
        lemma_assoc_last(s.drop_last(), i);
    }
}

/// Every key that an entry carries is in the denoted map.
pub proof fn lemma_assoc_contains<K: View<V = Seq<char>>, V: View>(s: Seq<(K, V)>, i: int)
    requires
        0 <= i < s.len(),
    ensures
        assoc(s).contains_key(s[i].0@),
    decreases s.len(),
{
    if i < s.len() - 1 {
        lemma_assoc_contains(s.drop_last(), i);
    }
}

/// Replacing the value of the last entry with a given key updates the map.
pub proof fn lemma_assoc_update<K: View<V = Seq<char>>, V: View>(s: Seq<(K, V)>, i: int, p: (K, V))
    requires
        0 <= i < s.len(),
        p.0@ == s[i].0@,
        forall|j: int| i < j < s.len() ==> s[j].0@ != s[i].0@,
    ensures
        assoc(s.update(i, p)) == assoc(s).insert(p.0@, p.1@),
    decreases s.len(),
{
    let t = s.update(i, p);
    if i == s.len() - 1 {
        assert(t.drop_last() =~= s.drop_last());
        assert(assoc(t) =~= assoc(s).insert(p.0@, p.1@));
    } else {
        lemma_assoc_update(s.drop_last(), i, p);
        assert(t.drop_last() =~= s.drop_last().update(i, p));
        assert(assoc(t) =~= assoc(s).insert(p.0@, p.1@));
    }
}

} // verus!
