use vstd::prelude::*;

verus! {

/// The finite map an association list denotes: a later entry for a key shadows earlier ones.
pub open spec fn assoc_map<V>(s: Seq<(usize, V)>) -> Map<usize, V>
    decreases s.len(),
{
    if s.len() == 0 {
        Map::empty()
    } else {
        assoc_map(s.drop_last()).insert(s.last().0, s.last().1)
    }
}

/// No key occurs twice.
pub open spec fn keys_unique<V>(s: Seq<(usize, V)>) -> bool {
    forall|i: int, j: int| 0 <= i < s.len() && 0 <= j < s.len() && i != j ==> s[i].0 != s[j].0
}

pub proof fn lemma_assoc_dom<V>(s: Seq<(usize, V)>, k: usize)
    ensures
        assoc_map(s).dom().contains(k) <==> exists|i: int| 0 <= i < s.len() && s[i].0 == k,
    decreases s.len(),
{
    if s.len() > 0 {
        lemma_assoc_dom(s.drop_last(), k);
        if exists|i: int| 0 <= i < s.len() && s[i].0 == k {
            let i = choose|i: int| 0 <= i < s.len() && s[i].0 == k;
            if i < s.len() - 1 {
                assert(s.drop_last()[i].0 == k);
            }
        }
        if exists|i: int| 0 <= i < s.len() - 1 && s.drop_last()[i].0 == k {
            let i = choose|i: int| 0 <= i < s.len() - 1 && s.drop_last()[i].0 == k;
            assert(s[i].0 == k);
        }
    }
}

/// With unique keys, the value stored for the key of entry `i` is that entry's value.
pub proof fn lemma_assoc_index<V>(s: Seq<(usize, V)>, i: int)
    requires
        keys_unique(s),
        0 <= i < s.len(),
    ensures
        assoc_map(s).dom().contains(s[i].0),
        assoc_map(s)[s[i].0] == s[i].1,
    decreases s.len(),
{
    if i < s.len() - 1 {
        assert(keys_unique(s.drop_last()));
        lemma_assoc_index(s.drop_last(), i);
        assert(s.drop_last()[i] == s[i]);
    }
}

/// Replacing the value of entry `i` (unique keys) replaces the key's value in the map.
pub proof fn lemma_assoc_update<V>(s: Seq<(usize, V)>, i: int, v: V)
    requires
        keys_unique(s),
        0 <= i < s.len(),
    ensures
        assoc_map(s.update(i, (s[i].0, v))) == assoc_map(s).insert(s[i].0, v),
    decreases s.len(),
{
    let t = s.update(i, (s[i].0, v));
    if i == s.len() - 1 {
        assert(t.drop_last() =~= s.drop_last());
        assert(assoc_map(t) =~= assoc_map(s).insert(s[i].0, v));
    } else {
        assert(keys_unique(s.drop_last()));
        lemma_assoc_update(s.drop_last(), i, v);
        assert(t.drop_last() =~= s.drop_last().update(i, (s[i].0, v)));
        assert(s.last().0 != s[i].0);
        assert(assoc_map(t) =~= assoc_map(s).insert(s[i].0, v));
    }
}

/// The index of key `k` in an association list, if present.
pub open spec fn assoc_index<V>(s: Seq<(usize, V)>, k: usize) -> int
    decreases s.len(),
{
    if s.len() == 0 {
        -1
    } else if s.last().0 == k {
        s.len() - 1
    } else {
        assoc_index(s.drop_last(), k)
    }
}

pub proof fn lemma_assoc_index_of<V>(s: Seq<(usize, V)>, k: usize)
    ensures
        -1 <= assoc_index(s, k) < s.len(),
        assoc_index(s, k) >= 0 ==> s[assoc_index(s, k)].0 == k,
        assoc_index(s, k) == -1 <==> !assoc_map(s).dom().contains(k),
        assoc_index(s, k) >= 0 ==> assoc_map(s)[k] == s[assoc_index(s, k)].1,
    decreases s.len(),
{
    if s.len() > 0 {
        lemma_assoc_index_of(s.drop_last(), k);
    }
}

} // verus!
