//! Counting tuples of values: the distinct tuples of a sequence with their
//! numbers of occurrences, in order of first occurrence or in increasing
//! tuple order.

use vstd::prelude::*;
use crate::order::{lex_lt, strict_total, Rel};
use crate::policy::dedup;
use crate::value::{
    compare_values, copy_values, lemma_tuple_strict_total, same_values, tuple_order, QidValue, QidView,
};

verus! {

/// Number of occurrences of `v` in `s`.
pub open spec fn count_of<A>(s: Seq<A>, v: A) -> nat
    decreases s.len(),
{
    if s.len() == 0 {
        0
    } else {
        count_of(s.drop_last(), v) + if s.last() == v { 1nat } else { 0nat }
    }
}

/// Sum of the counts of `(key, count)` pairs.
pub open spec fn count_total<A>(m: Seq<(A, usize)>) -> nat
    decreases m.len(),
{
    if m.len() == 0 {
        0
    } else {
        count_total(m.drop_last()) + m.last().1 as nat
    }
}

pub proof fn lemma_count_positive<A>(s: Seq<A>, v: A)
    ensures
        count_of(s, v) > 0 <==> s.contains(v),
        count_of(s, v) <= s.len(),
    decreases s.len(),
{
    if s.len() > 0 {
        let d = s.drop_last();
        lemma_count_positive(d, v);
        assert(s =~= d.push(s.last()));
        if d.contains(v) {
            let k = choose|k: int| 0 <= k < d.len() && d[k] == v;
            assert(s[k] == v);
        }
        if s.contains(v) && s.last() != v {
            let k = choose|k: int| 0 <= k < s.len() && s[k] == v;
            assert(d[k] == v);
        }
    }
}

pub proof fn lemma_push_contains<A>(s: Seq<A>, x: A, v: A)
    ensures
        s.push(x).contains(v) <==> s.contains(v) || v == x,
{
    let t = s.push(x);
    if t.contains(v) && v != x {
        let k = choose|k: int| 0 <= k < t.len() && t[k] == v;
        assert(s[k] == v);
    }
    if s.contains(v) {
        let k = choose|k: int| 0 <= k < s.len() && s[k] == v;
        assert(t[k] == v);
    }
    if v == x {
        assert(t[s.len() as int] == v);
    }
}

pub proof fn lemma_dedup_contains<A>(s: Seq<A>)
    ensures
        forall|v: A| #[trigger] dedup(s).contains(v) <==> s.contains(v),
    decreases s.len(),
{
    if s.len() > 0 {
        let d = s.drop_last();
        let x = s.last();
        lemma_dedup_contains(d);
        assert(s =~= d.push(x));
        assert forall|v: A| #[trigger] dedup(s).contains(v) <==> s.contains(v) by {
            lemma_push_contains(d, x, v);
            lemma_push_contains(dedup(d), x, v);
        }
    }
}

pub proof fn lemma_dedup_distinct<A>(s: Seq<A>)
    ensures
        forall|i: int, j: int| 0 <= i < j < dedup(s).len() ==> dedup(s)[i] != dedup(s)[j],
    decreases s.len(),
{
    if s.len() > 0 {
        let d = s.drop_last();
        lemma_dedup_distinct(d);
        if !dedup(d).contains(s.last()) {
            let t = dedup(s);
            assert forall|i: int, j: int| 0 <= i < j < t.len() implies t[i] != t[j] by {
                if j == t.len() - 1 {
                    assert(t[i] == dedup(d)[i]);
                }
            }
        }
    }
}

proof fn lemma_count_total_update<A>(m: Seq<(A, usize)>, k: int, e: (A, usize))
    requires
        0 <= k < m.len(),
    ensures
        count_total(m.update(k, e)) == count_total(m) - m[k].1 + e.1,
    decreases m.len(),
{
    let u = m.update(k, e);
    if k == m.len() - 1 {
        assert(u.drop_last() =~= m.drop_last());
    } else {
        lemma_count_total_update(m.drop_last(), k, e);
        assert(u.drop_last() =~= m.drop_last().update(k, e));
    }
}

pub proof fn lemma_count_total_prefix<A>(m: Seq<(A, usize)>, k: int)
    requires
        0 <= k <= m.len(),
    ensures
        count_total(m.take(k)) <= count_total(m),
        k < m.len() ==> count_total(m.take(k + 1)) == count_total(m.take(k)) + m[k].1,
    decreases m.len(),
{
    if k < m.len() {
        assert(m.take(k + 1).drop_last() =~= m.take(k));
        let d = m.drop_last();
        if k < d.len() {
            lemma_count_total_prefix(d, k);
            assert(m.take(k) =~= d.take(k));
        } else {
            assert(m.take(k) =~= d);
        }
    } else {
        assert(m.take(k) =~= m);
    }
}

/// The distinct tuples of `s` in order of first occurrence, each with its
/// number of occurrences; the counts add up to the length of `s`.
pub fn distinct_counts(s: &Vec<Vec<QidValue>>) -> (r: Vec<(Vec<QidValue>, usize)>)
    ensures
        r.deep_view().len() == dedup(s.deep_view()).len(),
        forall|k: int| 0 <= k < r.deep_view().len() ==> (#[trigger] r.deep_view()[k]).0 == dedup(s.deep_view())[k]
            && r.deep_view()[k].1 == count_of(s.deep_view(), r.deep_view()[k].0),
        count_total(r.deep_view()) == s.deep_view().len(),
{
    let ghost sv = s.deep_view();
    let mut r: Vec<(Vec<QidValue>, usize)> = Vec::new();
    let mut i: usize = 0;
    assert(sv.take(0) =~= Seq::<Seq<QidView>>::empty());
    while i < s.len()
        invariant
            i <= s.len(),
            sv == s.deep_view(),
            r.deep_view().len() == dedup(sv.take(i as int)).len(),
            forall|k: int| 0 <= k < r.deep_view().len() ==> (#[trigger] r.deep_view()[k]).0 == dedup(sv.take(i as int))[k]
                && r.deep_view()[k].1 == count_of(sv.take(i as int), r.deep_view()[k].0),
            count_total(r.deep_view()) == i,
        decreases s.len() - i,
    {
        let x = &s[i];
        let ghost pre = sv.take(i as int);
        let ghost post = sv.take(i + 1);
        let ghost xv = x.deep_view();
        let ghost before = r.deep_view();
        proof {
            assert(post.drop_last() =~= pre);
            assert(post.last() == xv);
            lemma_dedup_contains(pre);
            lemma_count_positive(pre, xv);
        }
        let mut k: usize = 0;
        while k < r.len() && !same_values(&r[k].0, x)
            invariant
                k <= r@.len(),
                before == r.deep_view(),
                xv == x.deep_view(),
                forall|j: int| 0 <= j < k ==> (#[trigger] before[j]).0 != xv,
            decreases r.len() - k,
        {
            assert(r.deep_view()[k as int].0 == r@[k as int].0.deep_view());
            k = k + 1;
        }
        if k < r.len() {
            let c = r[k].1;
            proof {
                assert(r.deep_view()[k as int].0 == r@[k as int].0.deep_view());
                assert(before[k as int].0 == xv);
                assert(dedup(pre).contains(xv));
                assert(pre.contains(xv));
                lemma_count_positive(pre, xv);
                assert(c == count_of(pre, xv));
                assert(c <= i);
                assert(dedup(post) == dedup(pre));
            }
            r[k].1 = c + 1;
            proof {
                let now = r.deep_view();
                assert(now =~= before.update(k as int, (xv, (c + 1) as usize)));
                lemma_count_total_update(before, k as int, (xv, (c + 1) as usize));
                assert forall|j: int| 0 <= j < now.len() implies (#[trigger] now[j]).0 == dedup(post)[j]
                    && now[j].1 == count_of(post, now[j].0) by {
                    if j != k {
                        assert(now[j] == before[j]);
                        assert(before[j].0 == dedup(pre)[j]);
                        lemma_dedup_distinct(pre);
                        assert(before[j].0 != xv);
                    }
                }
            }
        } else {
            let copy = copy_values(x);
            r.push((copy, 1));
            proof {
                let now = r.deep_view();
                assert(!dedup(pre).contains(xv)) by {
                    if dedup(pre).contains(xv) {
                        let j = choose|j: int| 0 <= j < dedup(pre).len() && dedup(pre)[j] == xv;
                        assert(before[j].0 == xv);
                    }
                }
                assert(!pre.contains(xv));
                assert(count_of(pre, xv) == 0);
                assert(dedup(post) == dedup(pre).push(xv));
                assert(now =~= before.push((xv, 1usize)));
                assert(now.drop_last() =~= before);
                assert forall|j: int| 0 <= j < now.len() implies (#[trigger] now[j]).0 == dedup(post)[j]
                    && now[j].1 == count_of(post, now[j].0) by {
                    if j < before.len() {
                        assert(now[j] == before[j]);
                        assert(before[j].0 == dedup(pre)[j]);
                        assert(dedup(pre).contains(before[j].0));
                        assert(before[j].0 != xv);
                    }
                }
            }
        }
        i = i + 1;
    }
    assert(sv.take(i as int) =~= sv);
    r
}

/// The order of tuples of values (lexicographic).
pub open spec fn tuple_lt(a: Seq<QidView>, b: Seq<QidView>) -> bool {
    tuple_order()(a, b)
}

pub proof fn lemma_tuple_lt_total()
    ensures
        forall|x: Seq<QidView>| !(#[trigger] tuple_lt(x, x)),
        forall|x: Seq<QidView>, y: Seq<QidView>, z: Seq<QidView>| #[trigger] tuple_lt(x, y) && #[trigger] tuple_lt(y, z) ==> tuple_lt(x, z),
        forall|x: Seq<QidView>, y: Seq<QidView>| x != y ==> #[trigger] tuple_lt(x, y) || #[trigger] tuple_lt(y, x),
{
    lemma_tuple_strict_total();
}

/// `m` lists each distinct tuple of `s`, in increasing tuple order, with
/// its number of occurrences.
pub open spec fn is_tally(m: Seq<(Seq<QidView>, usize)>, s: Seq<Seq<QidView>>) -> bool {
    &&& forall|i: int, j: int| 0 <= i < j < m.len() ==> tuple_lt(#[trigger] m[i].0, #[trigger] m[j].0)
    &&& forall|i: int| 0 <= i < m.len() ==> #[trigger] m[i].1 == count_of(s, m[i].0) && m[i].1 > 0
    &&& forall|v: Seq<QidView>| #[trigger] s.contains(v) ==> exists|i: int| 0 <= i < m.len() && m[i].0 == v
}

/// Each distinct tuple of `s` with its number of occurrences, in increasing
/// tuple order.
pub fn tally_tuples(s: &Vec<Vec<QidValue>>) -> (r: Vec<(Vec<QidValue>, usize)>)
    ensures
        is_tally(r.deep_view(), s.deep_view()),
{
    proof { lemma_tuple_lt_total(); }
    let ghost sv = s.deep_view();
    let mut r: Vec<(Vec<QidValue>, usize)> = Vec::new();
    let mut i: usize = 0;
    assert(sv.take(0) =~= Seq::<Seq<QidView>>::empty());
    while i < s.len()
        invariant
            sv == s.deep_view(),
            i <= s.len(),
            forall|x: Seq<QidView>, y: Seq<QidView>, z: Seq<QidView>| #[trigger] tuple_lt(x, y) && #[trigger] tuple_lt(y, z) ==> tuple_lt(x, z),
            forall|x: Seq<QidView>, y: Seq<QidView>| x != y ==> #[trigger] tuple_lt(x, y) || #[trigger] tuple_lt(y, x),
            forall|x: Seq<QidView>| !(#[trigger] tuple_lt(x, x)),
            is_tally(r.deep_view(), sv.take(i as int)),
        decreases s.len() - i,
    {
        let v = &s[i];
        let ghost vv = v.deep_view();
        let ghost before = r.deep_view();
        let ghost pre = sv.take(i as int);
        let ghost post = sv.take(i + 1);
        proof {
            assert(post.drop_last() =~= pre);
            assert(post.last() == vv);
            assert(post =~= pre.push(vv));
            lemma_count_positive(pre, vv);
            assert forall|w: Seq<QidView>| #[trigger] post.contains(w) <==> pre.contains(w) || w == vv by {
                lemma_push_contains(pre, vv, w);
            }
        }
        let mut pos: usize = 0;
        while pos < r.len() && compare_values(&r[pos].0, v) == Rel::Less
            invariant
                pos <= r@.len(),
                before == r.deep_view(),
                vv == v.deep_view(),
                forall|k: int| 0 <= k < pos ==> tuple_lt(#[trigger] before[k].0, vv),
            decreases r.len() - pos,
        {
            assert(r.deep_view()[pos as int].0 == r@[pos as int].0.deep_view());
            pos = pos + 1;
        }
        if pos < r.len() && same_values(&r[pos].0, v) {
            let c = r[pos].1;
            proof {
                assert(r.deep_view()[pos as int].0 == r@[pos as int].0.deep_view());
                assert(before[pos as int].0 == vv);
                assert(before[pos as int].1 == count_of(pre, before[pos as int].0));
                lemma_count_positive(pre, vv);
            }
            r[pos].1 = c + 1;
            proof {
                let now = r.deep_view();
                assert(now =~= before.update(pos as int, (vv, (c + 1) as usize)));
                assert forall|k: int| 0 <= k < now.len() implies #[trigger] now[k].1 == count_of(post, now[k].0) && now[k].1 > 0 by {
                    if k != pos {
                        assert(now[k] == before[k]);
                        assert(before[k].1 == count_of(pre, before[k].0));
                        if k < pos {
                            assert(tuple_lt(before[k].0, before[pos as int].0));
                        } else {
                            assert(tuple_lt(before[pos as int].0, before[k].0));
                        }
                    }
                }
                assert forall|w: Seq<QidView>| #[trigger] post.contains(w) implies exists|k: int| 0 <= k < now.len() && now[k].0 == w by {
                    if w != vv {
                        assert(pre.contains(w));
                        let k = choose|k: int| 0 <= k < before.len() && before[k].0 == w;
                        assert(now[k].0 == w);
                    } else {
                        assert(now[pos as int].0 == w);
                    }
                }
                assert forall|a: int, b: int| 0 <= a < b < now.len() implies tuple_lt(#[trigger] now[a].0, #[trigger] now[b].0) by {
                    assert(now[a].0 == before[a].0 && now[b].0 == before[b].0);
                }
            }
        } else {
            proof {
                if pos < r.len() {
                    assert(r.deep_view()[pos as int].0 == r@[pos as int].0.deep_view());
                }
            }
            let copy = copy_values(v);
            r.insert(pos, (copy, 1));
            proof {
                let now = r.deep_view();
                assert(now =~= before.insert(pos as int, (vv, 1usize)));
                if pos < before.len() {
                    assert(before[pos as int].0 != vv);
                    assert(!tuple_lt(before[pos as int].0, vv));
                    assert(tuple_lt(vv, before[pos as int].0));
                }
                assert(!pre.contains(vv)) by {
                    if pre.contains(vv) {
                        let k = choose|k: int| 0 <= k < before.len() && before[k].0 == vv;
                        if k < pos {
                            assert(tuple_lt(before[k].0, vv));
                        } else if k > pos {
                            assert(tuple_lt(before[pos as int].0, before[k].0));
                            assert(tuple_lt(vv, before[k].0));
                        }
                    }
                }
                lemma_count_positive(pre, vv);
                assert forall|a: int, b: int| 0 <= a < b < now.len() implies tuple_lt(#[trigger] now[a].0, #[trigger] now[b].0) by {
                    if b < pos {
                        assert(now[a] == before[a] && now[b] == before[b]);
                    } else if b == pos {
                        assert(now[a] == before[a]);
                    } else if a < pos {
                        assert(now[a] == before[a] && now[b] == before[b - 1]);
                        assert(tuple_lt(before[a].0, vv));
                        if b - 1 > pos {
                            assert(tuple_lt(before[pos as int].0, before[b - 1].0));
                        }
                    } else if a == pos {
                        assert(now[b] == before[b - 1]);
                        if b - 1 > pos {
                            assert(tuple_lt(before[pos as int].0, before[b - 1].0));
                        }
                    } else {
                        assert(now[a] == before[a - 1] && now[b] == before[b - 1]);
                    }
                }
                assert forall|k: int| 0 <= k < now.len() implies #[trigger] now[k].1 == count_of(post, now[k].0) && now[k].1 > 0 by {
                    if k < pos {
                        assert(now[k] == before[k]);
                        assert(before[k].1 == count_of(pre, before[k].0));
                        assert(before[k].0 != vv);
                    } else if k > pos {
                        assert(now[k] == before[k - 1]);
                        assert(before[k - 1].1 == count_of(pre, before[k - 1].0));
                        assert(before[k - 1].0 != vv) by {
                            if before[k - 1].0 == vv {
                                assert(pre.contains(vv)) by {
                                    lemma_count_positive(pre, before[k - 1].0);
                                }
                            }
                        }
                    }
                }
                assert forall|w: Seq<QidView>| #[trigger] post.contains(w) implies exists|k: int| 0 <= k < now.len() && now[k].0 == w by {
                    if w != vv {
                        assert(pre.contains(w));
                        let k = choose|k: int| 0 <= k < before.len() && before[k].0 == w;
                        if k < pos {
                            assert(now[k].0 == w);
                        } else {
                            assert(now[k + 1].0 == w);
                        }
                    } else {
                        assert(now[pos as int].0 == w);
                    }
                }
            }
        }
        i = i + 1;
    }
    assert(sv.take(i as int) =~= sv);
    r
}

} // verus!
