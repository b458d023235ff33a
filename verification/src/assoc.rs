//! Association lists: sequences of key/value pairs read by the first pair
//! whose key matches, the way a map built from them answers a lookup.

use vstd::prelude::*;

verus! {

/// `i` is the position of the first pair of `s` whose key is `k`.
pub open spec fn first_index<K, T>(s: Seq<(K, T)>, k: K, i: int) -> bool {
    &&& 0 <= i < s.len()
    &&& s[i].0 == k
    &&& forall|j: int| 0 <= j < i ==> s[j].0 != k
}

/// The value of the first pair of `s` whose key is `k`, if any.
pub open spec fn lookup<K, T>(s: Seq<(K, T)>, k: K) -> Option<T> {
    if exists|i: int| first_index(s, k, i) {
        Some(s[choose|i: int| first_index(s, k, i)].1)
    } else {
        None
    }
}

/// No key occurs twice in `s`.
pub open spec fn keys_distinct<K, T>(s: Seq<(K, T)>) -> bool {
    forall|i: int, j: int| 0 <= i < j < s.len() ==> s[i].0 != s[j].0
}

/// The keys of `s`, in order.
pub open spec fn keys_of<K, T>(s: Seq<(K, T)>) -> Seq<K> {
    s.map_values(|p: (K, T)| p.0)
}

pub proof fn lemma_lookup_at<K, T>(s: Seq<(K, T)>, k: K, i: int)
    requires
        first_index(s, k, i),
    ensures
        lookup(s, k) == Some(s[i].1),
{
    let c = choose|c: int| first_index(s, k, c);
    assert(first_index(s, k, c));
    if c < i {
        assert(s[c].0 != k);
    } else if c > i {
        assert(s[i].0 != k);
    }
}

pub proof fn lemma_lookup_absent<K, T>(s: Seq<(K, T)>, k: K)
    requires
        forall|j: int| 0 <= j < s.len() ==> s[j].0 != k,
    ensures
        lookup(s, k) is None,
{
}

pub proof fn lemma_lookup_distinct<K, T>(s: Seq<(K, T)>, i: int)
    requires
        keys_distinct(s),
        0 <= i < s.len(),
    ensures
        lookup(s, s[i].0) == Some(s[i].1),
{
    assert(first_index(s, s[i].0, i));
    lemma_lookup_at(s, s[i].0, i);
}

/// A key that occurs in `s` has a value.
pub proof fn lemma_lookup_present<K, T>(s: Seq<(K, T)>, k: K, i: int)
    requires
        0 <= i < s.len(),
        s[i].0 == k,
    ensures
        lookup(s, k) is Some,
        exists|m: int| first_index(s, k, m),
    decreases i,
{
    if forall|j: int| 0 <= j < i ==> s[j].0 != k {
        assert(first_index(s, k, i));
    } else {
        let j = choose|j: int| 0 <= j < i && s[j].0 == k;
        lemma_lookup_present(s, k, j);
    }
}

/// The value found for a key is the value of one of the pairs.
pub proof fn lemma_lookup_member<K, T>(s: Seq<(K, T)>, k: K)
    requires
        lookup(s, k) is Some,
    ensures
        exists|i: int| 0 <= i < s.len() && s[i].1 == lookup(s, k)->0,
{
    let i = choose|i: int| first_index(s, k, i);
    assert(0 <= i < s.len() && s[i].1 == lookup(s, k)->0);
}

/// Finds the value of the first pair of `s` whose key satisfies `eq`.
pub fn find_first<K: Copy, T: Copy>(s: &Vec<(K, T)>, k: K) -> (r: Option<T>)
    where K: super::binding::VarKey,
    ensures
        r == lookup(s@, k),
{
    let mut i: usize = 0;
    while i < s.len()
        invariant
            i <= s.len(),
            forall|j: int| 0 <= j < i ==> s@[j].0 != k,
        decreases s.len() - i,
    {
        if s[i].0.same(&k) {
            proof { lemma_lookup_at(s@, k, i as int); }
            return Some(s[i].1);
        }
        i = i + 1;
    }
    None
}

} // verus!
