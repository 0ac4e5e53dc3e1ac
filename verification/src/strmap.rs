//! Spec-level machinery for string-keyed association lists.
//!
//! The document tree and the styled tree both carry small string-keyed
//! mappings (attributes, resolved properties). They are stored as vectors
//! of pairs with pairwise-distinct keys; this module gives such a vector
//! its mathematical meaning as a `Map` and proves the lemmas that the
//! executable map types rely on.

use vstd::prelude::*;

verus! {

/// The map denoted by a sequence of key/value pairs, later pairs winning.
pub open spec fn assoc_map<V>(s: Seq<(Seq<char>, V)>) -> Map<Seq<char>, V>
    decreases s.len(),
{
    if s.len() == 0 {
        Map::empty()
    } else {
        assoc_map(s.drop_last()).insert(s.last().0, s.last().1)
    }
}

/// All keys of the pair sequence are pairwise distinct.
pub open spec fn unique_keys<V>(s: Seq<(Seq<char>, V)>) -> bool {
    forall|i: int, j: int| 0 <= i < j < s.len() ==> s[i].0 != s[j].0
}

/// Every key in the map comes from some pair, and every pair's key is in
/// the map.
pub proof fn lemma_assoc_map_dom<V>(s: Seq<(Seq<char>, V)>)
    ensures
        forall|k: Seq<char>|
            assoc_map(s).contains_key(k) <==> exists|i: int| 0 <= i < s.len() && s[i].0 == k,
    decreases s.len(),
{
    if s.len() > 0 {
        lemma_assoc_map_dom(s.drop_last());
        assert forall|k: Seq<char>| assoc_map(s).contains_key(k) implies exists|i: int|
            0 <= i < s.len() && s[i].0 == k by {
            if k == s.last().0 {
                assert(s[s.len() - 1].0 == k);
            } else {
                assert(assoc_map(s.drop_last()).contains_key(k));
                let i = choose|i: int| 0 <= i < s.drop_last().len() && s.drop_last()[i].0 == k;
                assert(s.drop_last()[i] == s[i]);
                assert(s[i].0 == k);
            }
        }
        assert forall|k: Seq<char>|
            (exists|i: int| 0 <= i < s.len() && s[i].0 == k) implies assoc_map(s).contains_key(
            k,
        ) by {
            let i = choose|i: int| 0 <= i < s.len() && s[i].0 == k;
            if i < s.len() - 1 {
                assert(s.drop_last()[i].0 == k);
                assert(assoc_map(s.drop_last()).contains_key(k));
            }
        }
    }
}

/// With distinct keys, each pair gives exactly the value the map assigns
/// to its key.
pub proof fn lemma_assoc_map_index<V>(s: Seq<(Seq<char>, V)>, i: int)
    requires
        unique_keys(s),
        0 <= i < s.len(),
    ensures
        assoc_map(s).contains_key(s[i].0),
        assoc_map(s)[s[i].0] == s[i].1,
    decreases s.len(),
{
    if i == s.len() - 1 {
    } else {
        assert(s.drop_last()[i] == s[i]);
        lemma_assoc_map_index(s.drop_last(), i);
        assert(s[i].0 != s.last().0);
    }
}

/// With distinct keys, the map has exactly as many entries as the sequence.
pub proof fn lemma_assoc_map_len<V>(s: Seq<(Seq<char>, V)>)
    requires
        unique_keys(s),
    ensures
        assoc_map(s).dom().finite(),
        assoc_map(s).dom().len() == s.len(),
    decreases s.len(),
{
    if s.len() == 0 {
    } else {
        lemma_assoc_map_len(s.drop_last());
        lemma_assoc_map_dom(s.drop_last());
        assert(!assoc_map(s.drop_last()).contains_key(s.last().0));
        assert(assoc_map(s).dom() =~= assoc_map(s.drop_last()).dom().insert(s.last().0));
        vstd::set::axiom_set_insert_finite(assoc_map(s.drop_last()).dom(), s.last().0);
        vstd::set::axiom_set_insert_len(assoc_map(s.drop_last()).dom(), s.last().0);
    }
}

/// Two pair sequences with distinct keys denote the same map as soon as
/// they have the same length and every pair of the first occurs in the
/// second's map.
pub proof fn lemma_assoc_map_ext<V>(s1: Seq<(Seq<char>, V)>, s2: Seq<(Seq<char>, V)>)
    requires
        unique_keys(s1),
        unique_keys(s2),
        s1.len() == s2.len(),
        forall|i: int|
            0 <= i < s1.len() ==> assoc_map(s2).contains_key(s1[i].0) && assoc_map(s2)[s1[i].0]
                == s1[i].1,
    ensures
        assoc_map(s1) == assoc_map(s2),
{
    lemma_assoc_map_len(s1);
    lemma_assoc_map_len(s2);
    lemma_assoc_map_dom(s1);
    assert forall|k: Seq<char>| assoc_map(s1).contains_key(k) implies assoc_map(
        s2,
    ).contains_key(k) && assoc_map(s2)[k] == assoc_map(s1)[k] by {
        let i = choose|i: int| 0 <= i < s1.len() && s1[i].0 == k;
        lemma_assoc_map_index(s1, i);
    }
    vstd::set_lib::lemma_subset_equality(assoc_map(s1).dom(), assoc_map(s2).dom());
    assert(assoc_map(s1) =~= assoc_map(s2));
}

/// Appending a pair inserts its key.
pub proof fn lemma_assoc_map_push<V>(s: Seq<(Seq<char>, V)>, k: Seq<char>, v: V)
    ensures
        assoc_map(s.push((k, v))) == assoc_map(s).insert(k, v),
{
    assert(s.push((k, v)).drop_last() =~= s);
    assert(s.push((k, v)).last() == (k, v));
}

/// Overwriting the pair that holds a key inserts the new value for that
/// key, provided the keys are distinct.
pub proof fn lemma_assoc_map_update<V>(s: Seq<(Seq<char>, V)>, i: int, v: V)
    requires
        unique_keys(s),
        0 <= i < s.len(),
    ensures
        assoc_map(s.update(i, (s[i].0, v))) == assoc_map(s).insert(s[i].0, v),
    decreases s.len(),
{
    let k = s[i].0;
    let t = s.update(i, (k, v));
    if i == s.len() - 1 {
        assert(t.drop_last() =~= s.drop_last());
        assert(t.last() == (k, v));
    } else {
        assert(t.drop_last() =~= s.drop_last().update(i, (k, v)));
        assert(s.drop_last()[i] == s[i]);
        lemma_assoc_map_update(s.drop_last(), i, v);
        assert(t.last() == s.last());
        assert(k != s.last().0);
        assert(assoc_map(t) =~= assoc_map(s).insert(k, v));
    }
}

/// Mapping the values of the pairs commutes with reading the sequence as
/// a map.
pub proof fn lemma_assoc_map_map_values<V, W>(
    s: Seq<(Seq<char>, V)>,
    f: spec_fn(V) -> W,
)
    ensures
        assoc_map(s.map_values(|p: (Seq<char>, V)| (p.0, f(p.1)))) == assoc_map(s).map_values(f),
    decreases s.len(),
{
    let t = s.map_values(|p: (Seq<char>, V)| (p.0, f(p.1)));
    if s.len() == 0 {
        assert(assoc_map(t) =~= assoc_map(s).map_values(f));
    } else {
        lemma_assoc_map_map_values(s.drop_last(), f);
        assert(t.drop_last() =~= s.drop_last().map_values(|p: (Seq<char>, V)| (p.0, f(p.1))));
        assert(assoc_map(t) =~= assoc_map(s).map_values(f));
    }
}

} // verus!
