//! Sorting: identifiers in text order, and classes by decreasing size with
//! ties kept in input order.

use vstd::prelude::*;
use vstd::relations::{sorted_by, total_ordering};
use crate::order::{compare_chars, lemma_text_strict_total, rel_of, text_lt, text_order, Rel};
use crate::text::chars_of;

verus! {

/// `a` comes no later than `b` in text order.
pub open spec fn text_le() -> spec_fn(Seq<char>, Seq<char>) -> bool {
    |a: Seq<char>, b: Seq<char>| !text_lt(b, a)
}

pub proof fn lemma_text_le_total()
    ensures
        total_ordering(text_le()),
{
    lemma_text_strict_total();
    let t = text_order();
    let l = text_le();
    assert forall|x: Seq<char>| #[trigger] l(x, x) by {
        assert(!t(x, x));
    }
    assert forall|x: Seq<char>, y: Seq<char>| #[trigger] l(x, y) && #[trigger] l(y, x) implies x == y by {
        if x != y {
            assert(t(x, y) || t(y, x));
        }
    }
    assert forall|x: Seq<char>, y: Seq<char>, z: Seq<char>| #[trigger] l(x, y) && #[trigger] l(y, z) implies l(x, z) by {
        assert(!t(y, x) && !t(z, y));
        if t(z, x) {
            if x == y {
                assert(t(z, y));
            } else if t(x, y) {
                assert(t(z, y));
            } else {
                assert(t(y, x));
            }
        }
    }
    assert forall|x: Seq<char>, y: Seq<char>| #[trigger] l(x, y) || #[trigger] l(y, x) by {
        if t(x, y) && t(y, x) {
            assert(t(x, x));
        }
    }
}

/// Inserting into a sequence adds one occurrence to its multiset.
pub proof fn lemma_insert_multiset<A>(s: Seq<A>, i: int, a: A)
    requires
        0 <= i <= s.len(),
    ensures
        s.insert(i, a).to_multiset() == s.to_multiset().insert(a),
{
    broadcast use vstd::multiset::group_multiset_axioms;
    let l = s.take(i);
    let r = s.skip(i);
    assert(s =~= l + r);
    assert(s.insert(i, a) =~= l + (seq![a] + r));
    vstd::seq_lib::lemma_multiset_commutative(l, r);
    vstd::seq_lib::lemma_multiset_commutative(seq![a], r);
    vstd::seq_lib::lemma_multiset_commutative(l, seq![a] + r);
    assert(seq![a] =~= Seq::<A>::empty().push(a));
    assert(Seq::<A>::empty().to_multiset() =~= vstd::multiset::Multiset::<A>::empty()) by {
        broadcast use vstd::seq_lib::group_to_multiset_ensures;
        assert(Seq::<A>::empty().to_multiset().len() == 0);
    }
    assert(seq![a].to_multiset() =~= vstd::multiset::Multiset::<A>::empty().insert(a)) by {
        broadcast use vstd::seq_lib::group_to_multiset_ensures;
        assert(Seq::<A>::empty().push(a).to_multiset() =~= Seq::<A>::empty().to_multiset().insert(a));
    }
    assert(s.insert(i, a).to_multiset() =~= s.to_multiset().insert(a));
}

/// Compares two strings in text order.
pub fn compare_text(a: &String, b: &String) -> (r: Rel)
    ensures
        r == rel_of(a@, b@, text_order()),
{
    let ca = chars_of(a.as_str());
    let cb = chars_of(b.as_str());
    compare_chars(&ca, &cb)
}

/// `v` in text order.
pub fn sort_strings(v: &Vec<String>) -> (r: Vec<String>)
    ensures
        r.deep_view() == v.deep_view().sort_by(text_le()),
{
    proof {
        lemma_text_le_total();
        lemma_text_strict_total();
    }
    let ghost l = text_le();
    let ghost t = text_order();
    let ghost s = v.deep_view();
    let mut r: Vec<String> = Vec::new();
    let mut i: usize = 0;
    assert(s.take(0) =~= Seq::<Seq<char>>::empty());
    assert(r.deep_view() =~= Seq::<Seq<char>>::empty());
    while i < v.len()
        invariant
            i <= v.len(),
            s == v.deep_view(),
            l == text_le(),
            t == text_order(),
            total_ordering(l),
            crate::order::strict_total(t),
            sorted_by(r.deep_view(), l),
            r.deep_view().to_multiset() == s.take(i as int).to_multiset(),
        decreases v.len() - i,
    {
        let item = v[i].clone();
        let ghost before = r.deep_view();
        let mut pos: usize = 0;
        while pos < r.len() && compare_text(&r[pos], &item) != Rel::Greater
            invariant
                pos <= r@.len(),
                before == r.deep_view(),
                t == text_order(),
                l == text_le(),
                crate::order::strict_total(t),
                forall|k: int| 0 <= k < pos ==> l(#[trigger] before[k], item@),
            decreases r.len() - pos,
        {
            proof {
                let c = before[pos as int];
                assert(c == r[pos as int]@);
                if t(c, item@) && t(item@, c) {
                    assert(t(c, c));
                }
                assert(l(c, item@));
            }
            pos = pos + 1;
        }
        r.insert(pos, item);
        proof {
            let now = r.deep_view();
            assert(now =~= before.insert(pos as int, s[i as int]));
            if pos < before.len() {
                assert(t(s[i as int], before[pos as int]));
            }
            assert forall|a: int, b: int| 0 <= a < b < now.len() implies #[trigger] l(now[a], now[b]) by {
                if b < pos {
                    assert(now[a] == before[a] && now[b] == before[b]);
                } else if b == pos {
                    assert(now[a] == before[a]);
                } else if a < pos {
                    assert(now[a] == before[a] && now[b] == before[b - 1]);
                } else if a == pos {
                    assert(now[b] == before[b - 1]);
                    assert(now[a] == s[i as int]);
                    assert(t(s[i as int], before[pos as int]));
                    assert(!t(before[pos as int], s[i as int]));
                    assert(l(s[i as int], before[pos as int]));
                    if b - 1 > pos {
                        assert(l(before[pos as int], before[b - 1]));
                    }
                } else {
                    assert(now[a] == before[a - 1] && now[b] == before[b - 1]);
                }
            }
            lemma_insert_multiset(before, pos as int, s[i as int]);
            assert(s.take(i + 1) =~= s.take(i as int).push(s[i as int]));
            broadcast use vstd::seq_lib::group_to_multiset_ensures;
        }
        i = i + 1;
    }
    proof {
        assert(s.take(i as int) =~= s);
        s.lemma_sort_by_ensures(l);
        vstd::seq_lib::lemma_sorted_unique(r.deep_view(), s.sort_by(l), l);
    }
    r
}

/// `(index, size)` pairs: larger first, then earlier first.
pub open spec fn size_le() -> spec_fn((int, int), (int, int)) -> bool {
    |a: (int, int), b: (int, int)| a.1 > b.1 || (a.1 == b.1 && a.0 <= b.0)
}

pub proof fn lemma_size_le_total()
    ensures
        total_ordering(size_le()),
{
    let l = size_le();
    assert forall|x: (int, int)| #[trigger] l(x, x) by {}
    assert forall|x: (int, int), y: (int, int)| #[trigger] l(x, y) && #[trigger] l(y, x) implies x == y by {}
    assert forall|x: (int, int), y: (int, int), z: (int, int)| #[trigger] l(x, y) && #[trigger] l(y, z) implies l(x, z) by {}
    assert forall|x: (int, int), y: (int, int)| #[trigger] l(x, y) || #[trigger] l(y, x) by {}
}

/// The positions `0..n` with their sizes, in decreasing order of size, ties
/// in increasing order of position.
pub open spec fn by_size(sizes: Seq<int>) -> Seq<(int, int)> {
    Seq::new(sizes.len(), |i: int| (i, sizes[i])).sort_by(size_le())
}

/// The `(index, size)` pairs of `pairs` as integers.
pub open spec fn int_pairs(pairs: Seq<(usize, usize)>) -> Seq<(int, int)> {
    pairs.map_values(|p: (usize, usize)| (p.0 as int, p.1 as int))
}

/// The positions of `sizes` ordered by decreasing size; equal sizes keep
/// their order. Each position comes with its size.
pub fn order_by_size(sizes: &Vec<usize>) -> (r: Vec<(usize, usize)>)
    ensures
        int_pairs(r@) == by_size(sizes@.map_values(|x: usize| x as int)),
        r@.len() == sizes@.len(),
        forall|k: int| 0 <= k < r@.len() ==> (#[trigger] r@[k]).0 < sizes@.len() && r@[k].1 == sizes@[r@[k].0 as int],
{
    proof { lemma_size_le_total(); }
    let ghost l = size_le();
    let ghost sz = sizes@.map_values(|x: usize| x as int);
    let ghost all = Seq::new(sz.len(), |i: int| (i, sz[i]));
    let mut r: Vec<(usize, usize)> = Vec::new();
    let mut i: usize = 0;
    assert(all.take(0) =~= Seq::<(int, int)>::empty());
    assert(int_pairs(r@) =~= Seq::<(int, int)>::empty());
    while i < sizes.len()
        invariant
            i <= sizes.len(),
            l == size_le(),
            total_ordering(l),
            sz == sizes@.map_values(|x: usize| x as int),
            all == Seq::new(sz.len(), |k: int| (k, sz[k])),
            r@.len() == i,
            sorted_by(int_pairs(r@), l),
            int_pairs(r@).to_multiset() == all.take(i as int).to_multiset(),
            forall|k: int| 0 <= k < r@.len() ==> (#[trigger] r@[k]).0 < i && r@[k].1 == sizes@[r@[k].0 as int],
        decreases sizes.len() - i,
    {
        let size = sizes[i];
        let ghost before = int_pairs(r@);
        let ghost old_r = r@;
        let mut pos: usize = 0;
        while pos < r.len() && r[pos].1 >= size
            invariant
                pos <= r@.len(),
                r@ == old_r,
                before == int_pairs(r@),
                forall|k: int| 0 <= k < pos ==> (#[trigger] r@[k]).1 >= size,
            decreases r.len() - pos,
        {
            pos = pos + 1;
        }
        r.insert(pos, (i, size));
        proof {
            let now = int_pairs(r@);
            let item = (i as int, size as int);
            assert(all[i as int] == item);
            assert(r@ =~= old_r.insert(pos as int, (i, size)));
            assert(now =~= before.insert(pos as int, item));
            assert forall|a: int, b: int| 0 <= a < b < now.len() implies #[trigger] l(now[a], now[b]) by {
                if b < pos {
                    assert(now[a] == before[a] && now[b] == before[b]);
                } else if b == pos {
                    assert(now[a] == before[a]);
                    assert(old_r[a].1 >= size);
                    assert(old_r[a].0 < i);
                } else if a < pos {
                    assert(now[a] == before[a] && now[b] == before[b - 1]);
                } else if a == pos {
                    assert(now[b] == before[b - 1]);
                    assert(old_r[pos as int].1 < size);
                    if b - 1 > pos {
                        assert(l(before[pos as int], before[b - 1]));
                    }
                    assert(old_r[b - 1].0 < i);
                } else {
                    assert(now[a] == before[a - 1] && now[b] == before[b - 1]);
                }
            }
            lemma_insert_multiset(before, pos as int, item);
            assert(all.take(i + 1) =~= all.take(i as int).push(item));
            broadcast use vstd::seq_lib::group_to_multiset_ensures;
        }
        i = i + 1;
    }
    proof {
        assert(all.take(i as int) =~= all);
        all.lemma_sort_by_ensures(l);
        vstd::seq_lib::lemma_sorted_unique(int_pairs(r@), all.sort_by(l), l);
    }
    r
}

} // verus!
