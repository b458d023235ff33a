//! What the framework's checks and computations mean, stated directly over
//! their inputs: when a filter holds in a binding, when two predicates are
//! compatible, which elements the classes hold, which classes a report
//! lists as violating, and when a policy is valid.

use vstd::prelude::*;
use crate::activation::{compatible, keep, overlap, below, above};
use crate::assoc::lookup;
use crate::binding::{Binding, BindingBox, Filter};
use crate::fingerprint::{classes_of, element_name, elements_of_types, events_of_type, lemma_keep_members, names,
    objects_of_type, protected_types, has_fingerprint};
use crate::ocel::{satisfies, EventOrObjectIndex, OcelData};
use crate::partition::{law_fingerprint_layout, ClassMapView};
use crate::policy::{first_invalid, first_mismatch, is_policy_verdict, prot_types, qid_verdict, AnonPolicy,
    PolicyError, ProtectedVar, QuasiIdentifier, SourceVar};
use crate::properties::PolicyContext;
use crate::report::{is_report, same_class, violating, AnonReport, EquivClass};
use crate::tally::{lemma_dedup_contains, lemma_push_contains};

verus! {

/// Neither bound is given, or the lower one is at most the upper one.
pub open spec fn bounds_ordered(lo: Option<i64>, hi: Option<i64>) -> bool {
    match (lo, hi) {
        (Some(a), Some(c)) => a <= c,
        _ => true,
    }
}

/// One of the qualifiers is a wildcard, or both name the same text.
pub open spec fn names_agree(a: Option<String>, b: Option<String>) -> bool {
    match (a, b) {
        (Some(x), Some(y)) => x@ == y@,
        _ => true,
    }
}

/// When a structural filter holds in a binding: `O2E` when the relationships
/// of the bound event hold the bound object (with the qualifier, if one is
/// given); `O2O` when the relationships of the object bound to `object`
/// hold the object bound to `other_object` (likewise); `TimeBetweenEvents`
/// when the time from the first bound event to the second lies within the
/// bounds; a filter over an unbound variable never holds, nor does
/// `NotEqual`.
pub proof fn law_filter_meaning(ocel: OcelData, f: Filter, b: Binding)
    ensures
        f matches Filter::O2E { object, event, qualifier, .. } ==> (satisfies(ocel, f, b) <==> exists|e: usize, k: int|
            lookup(b.event_map@, event) == Some(e)
            && 0 <= k < ocel.events@[e as int].relationships@.len()
            && lookup(b.object_map@, object) == Some(#[trigger] ocel.events@[e as int].relationships@[k].1)
            && (qualifier matches Some(q) ==> ocel.events@[e as int].relationships@[k].0@ == q@)),
        f matches Filter::O2O { object, other_object, qualifier, .. } ==> (satisfies(ocel, f, b) <==> exists|o1: usize, k: int|
            lookup(b.object_map@, object) == Some(o1)
            && 0 <= k < ocel.objects@[o1 as int].relationships@.len()
            && lookup(b.object_map@, other_object) == Some(#[trigger] ocel.objects@[o1 as int].relationships@[k].1)
            && (qualifier matches Some(q) ==> ocel.objects@[o1 as int].relationships@[k].0@ == q@)),
        f matches Filter::TimeBetweenEvents { from_event, to_event, min_ms, max_ms } ==> (satisfies(ocel, f, b) <==> exists|e1: usize, e2: usize|
            #![trigger ocel.events@[e1 as int], ocel.events@[e2 as int]]
            lookup(b.event_map@, from_event) == Some(e1) && lookup(b.event_map@, to_event) == Some(e2)
            && (min_ms matches Some(m) ==> ocel.events@[e2 as int].time_ms - ocel.events@[e1 as int].time_ms >= m)
            && (max_ms matches Some(m) ==> ocel.events@[e2 as int].time_ms - ocel.events@[e1 as int].time_ms <= m)),
        f is NotEqual ==> !satisfies(ocel, f, b),
{
    match f {
        Filter::O2E { object, event, qualifier, .. } => {
            if satisfies(ocel, f, b) {
                let o = lookup(b.object_map@, object)->0;
                let e = lookup(b.event_map@, event)->0;
                let rels = ocel.events@[e as int].relationships@;
                let k = choose|k: int| 0 <= k < rels.len() && #[trigger] rels[k].1 == o
                    && (qualifier.deep_view() matches Some(q) ==> rels[k].0@ == q);
                assert(lookup(b.object_map@, object) == Some(ocel.events@[e as int].relationships@[k].1));
            }
        },
        Filter::O2O { object, other_object, qualifier, .. } => {
            if satisfies(ocel, f, b) {
                let o1 = lookup(b.object_map@, object)->0;
                let o2 = lookup(b.object_map@, other_object)->0;
                let rels = ocel.objects@[o1 as int].relationships@;
                let k = choose|k: int| 0 <= k < rels.len() && #[trigger] rels[k].1 == o2
                    && (qualifier.deep_view() matches Some(q) ==> rels[k].0@ == q);
                assert(lookup(b.object_map@, other_object) == Some(ocel.objects@[o1 as int].relationships@[k].1));
            }
        },
        Filter::TimeBetweenEvents { from_event, to_event, min_ms, max_ms } => {
            if exists|e1: usize, e2: usize|
                #![trigger ocel.events@[e1 as int], ocel.events@[e2 as int]]
                lookup(b.event_map@, from_event) == Some(e1) && lookup(b.event_map@, to_event) == Some(e2)
                && (min_ms matches Some(m) ==> ocel.events@[e2 as int].time_ms - ocel.events@[e1 as int].time_ms >= m)
                && (max_ms matches Some(m) ==> ocel.events@[e2 as int].time_ms - ocel.events@[e1 as int].time_ms <= m) {
                let (e1, e2) = choose|e1: usize, e2: usize|
                    #![trigger ocel.events@[e1 as int], ocel.events@[e2 as int]]
                    lookup(b.event_map@, from_event) == Some(e1) && lookup(b.event_map@, to_event) == Some(e2)
                    && (min_ms matches Some(m) ==> ocel.events@[e2 as int].time_ms - ocel.events@[e1 as int].time_ms >= m)
                    && (max_ms matches Some(m) ==> ocel.events@[e2 as int].time_ms - ocel.events@[e1 as int].time_ms <= m);
                assert(satisfies(ocel, f, b));
            }
            if satisfies(ocel, f, b) {
                let e1 = lookup(b.event_map@, from_event)->0;
                let e2 = lookup(b.event_map@, to_event)->0;
                assert(lookup(b.event_map@, from_event) == Some(e1) && lookup(b.event_map@, to_event) == Some(e2));
                assert(ocel.events@[e1 as int] == ocel.events@[e1 as int] && ocel.events@[e2 as int] == ocel.events@[e2 as int]);
            }
        },
        Filter::NotEqual { .. } => {},
    }
}

proof fn lemma_overlap_meaning(p_min: Option<i64>, p_max: Option<i64>, b_min: Option<i64>, b_max: Option<i64>)
    ensures
        overlap(p_min, p_max, b_min, b_max) <==> (
            bounds_ordered(p_min, p_max)
            && bounds_ordered(p_min, b_max)
            && bounds_ordered(b_min, p_max)
            && bounds_ordered(b_min, b_max)),
{
    if overlap(p_min, p_max, b_min, b_max) {
        let x = choose|x: int| below(p_min, x) && above(p_max, x) && below(b_min, x) && above(b_max, x);
        assert(below(p_min, x) && above(p_max, x) && below(b_min, x) && above(b_max, x));
        match (p_min, p_max) { (Some(a), Some(c)) => { assert(a <= x && x <= c); }, _ => {} }
        match (p_min, b_max) { (Some(a), Some(c)) => { assert(a <= x && x <= c); }, _ => {} }
        match (b_min, p_max) { (Some(a), Some(c)) => { assert(a <= x && x <= c); }, _ => {} }
        match (b_min, b_max) { (Some(a), Some(c)) => { assert(a <= x && x <= c); }, _ => {} }
    }
    if bounds_ordered(p_min, p_max)
        && bounds_ordered(p_min, b_max)
        && bounds_ordered(b_min, p_max)
        && bounds_ordered(b_min, b_max) {
        let lo: Option<int> = match (p_min, b_min) {
            (Some(a), Some(b)) => Some(if a >= b { a as int } else { b as int }),
            (Some(a), None) => Some(a as int),
            (None, Some(b)) => Some(b as int),
            (None, None) => None,
        };
        let hi: Option<int> = match (p_max, b_max) {
            (Some(a), Some(b)) => Some(if a <= b { a as int } else { b as int }),
            (Some(a), None) => Some(a as int),
            (None, Some(b)) => Some(b as int),
            (None, None) => None,
        };
        let x: int = match lo { Some(l) => l, None => match hi { Some(h) => h, None => 0 } };
        assert(below(p_min, x));
        assert(below(b_min, x));
        assert(above(p_max, x));
        assert(above(b_max, x));
        assert(overlap(p_min, p_max, b_min, b_max));
    }
}

/// When a pattern predicate is compatible with a box predicate: the same
/// kind over the same variables; for `O2E` and `O2O`, qualifiers that are a
/// wildcard or the same name; for `TimeBetweenEvents`, intervals that share
/// a point (each bound below each bound above). Predicates of different
/// kinds never are.
pub proof fn law_compatibility_meaning(p: Filter, b: Filter)
    ensures
        match (p, b) {
            (
                Filter::O2E { object: po, event: pe, qualifier: pq, .. },
                Filter::O2E { object: bo, event: be, qualifier: bq, .. },
            ) => compatible(p, b) <==> (po == bo && pe == be
                && names_agree(pq, bq)),
            (
                Filter::O2O { object: po, other_object: po2, qualifier: pq, .. },
                Filter::O2O { object: bo, other_object: bo2, qualifier: bq, .. },
            ) => compatible(p, b) <==> (po == bo && po2 == bo2
                && names_agree(pq, bq)),
            (
                Filter::TimeBetweenEvents { from_event: pf, to_event: pt, min_ms: pmin, max_ms: pmax },
                Filter::TimeBetweenEvents { from_event: bf, to_event: bt, min_ms: bmin, max_ms: bmax },
            ) => compatible(p, b) <==> (pf == bf && pt == bt
                && bounds_ordered(pmin, pmax)
                && bounds_ordered(pmin, bmax)
                && bounds_ordered(bmin, pmax)
                && bounds_ordered(bmin, bmax)),
            _ => !compatible(p, b),
        },
{
    match (p, b) {
        (
            Filter::TimeBetweenEvents { min_ms: pmin, max_ms: pmax, .. },
            Filter::TimeBetweenEvents { min_ms: bmin, max_ms: bmax, .. },
        ) => {
            lemma_overlap_meaning(pmin, pmax, bmin, bmax);
        },
        (
            Filter::O2E { qualifier: pq, .. },
            Filter::O2E { qualifier: bq, .. },
        ) => {
            match (pq, bq) {
                (Some(x), Some(y)) => {
                    assert(pq.deep_view() == Some(x@));
                    assert(bq.deep_view() == Some(y@));
                },
                _ => {},
            }
        },
        (
            Filter::O2O { qualifier: pq, .. },
            Filter::O2O { qualifier: bq, .. },
        ) => {
            match (pq, bq) {
                (Some(x), Some(y)) => {
                    assert(pq.deep_view() == Some(x@));
                    assert(bq.deep_view() == Some(y@));
                },
                _ => {},
            }
        },
        _ => {},
    }
}

/// Every class listed as violating fails k, l or t, and comes from the
/// classes; every class failing one of them is listed.
proof fn lemma_violating_members(cs: Seq<EquivClass>)
    ensures
        forall|j: int| 0 <= j < violating(cs).len() ==> {
            let v = #[trigger] violating(cs)[j];
            &&& !v.k_ok || !v.l_ok || !v.t_ok
            &&& cs.contains(v)
        },
        forall|i: int| 0 <= i < cs.len() && (!cs[i].k_ok || !cs[i].l_ok || !cs[i].t_ok)
            ==> violating(cs).contains(#[trigger] cs[i]),
        violating(cs).len() <= cs.len(),
    decreases cs.len(),
{
    if cs.len() > 0 {
        let d = cs.drop_last();
        let x = cs.last();
        lemma_violating_members(d);
        assert(cs =~= d.push(x));
        let v = violating(cs);
        let vd = violating(d);
        assert forall|j: int| 0 <= j < v.len() implies {
            let w = #[trigger] v[j];
            &&& !w.k_ok || !w.l_ok || !w.t_ok
            &&& cs.contains(w)
        } by {
            if j < vd.len() {
                assert(v[j] == vd[j]);
                let k = choose|k: int| 0 <= k < d.len() && d[k] == vd[j];
                assert(cs[k] == d[k]);
            } else {
                assert(v[j] == x);
                assert(cs[cs.len() - 1] == x);
            }
        }
        assert forall|i: int| 0 <= i < cs.len() && (!cs[i].k_ok || !cs[i].l_ok || !cs[i].t_ok)
            implies v.contains(#[trigger] cs[i]) by {
            if i < d.len() {
                assert(cs[i] == d[i]);
                assert(vd.contains(d[i]));
                let k = choose|k: int| 0 <= k < vd.len() && vd[k] == d[i];
                assert(v[k] == vd[k]);
            } else {
                assert(cs[i] == x);
                assert(v[v.len() - 1] == x);
            }
        }
    }
}

/// The violating list of a report, as `is_report` gives it.
proof fn lemma_report_violating(r: AnonReport, ctx: PolicyContext, policy: AnonPolicy)
    requires
        is_report(r, ctx, policy),
    ensures
        r.violating_classes@.len() == violating(r.equiv_classes@).len(),
        forall|j: int| 0 <= j < r.violating_classes@.len() ==> same_class(#[trigger] r.violating_classes@[j], violating(r.equiv_classes@)[j]),
{
}

proof fn lemma_violating_listing(r: AnonReport)
    requires
        r.violating_classes@.len() == violating(r.equiv_classes@).len(),
        forall|j: int| 0 <= j < r.violating_classes@.len() ==> same_class(#[trigger] r.violating_classes@[j], violating(r.equiv_classes@)[j]),
    ensures
        forall|j: int| 0 <= j < r.violating_classes@.len() ==> {
            let v = #[trigger] r.violating_classes@[j];
            &&& !v.k_ok || !v.l_ok || !v.t_ok
            &&& exists|i: int| 0 <= i < r.equiv_classes@.len()
                && (#[trigger] r.equiv_classes@[i]).members.deep_view() == v.members.deep_view()
                && r.equiv_classes@[i].k_ok == v.k_ok && r.equiv_classes@[i].l_ok == v.l_ok
                && r.equiv_classes@[i].t_ok == v.t_ok
        },
        forall|i: int| 0 <= i < r.equiv_classes@.len() && {
            let c = #[trigger] r.equiv_classes@[i];
            !c.k_ok || !c.l_ok || !c.t_ok
        } ==> exists|j: int| 0 <= j < r.violating_classes@.len()
            && (#[trigger] r.violating_classes@[j]).members.deep_view() == r.equiv_classes@[i].members.deep_view()
            && r.violating_classes@[j].k_ok == r.equiv_classes@[i].k_ok
            && r.violating_classes@[j].l_ok == r.equiv_classes@[i].l_ok
            && r.violating_classes@[j].t_ok == r.equiv_classes@[i].t_ok,
        r.violating_classes@.len() <= r.equiv_classes@.len(),
{
    let cs = r.equiv_classes@;
    let v = violating(cs);
    lemma_violating_members(cs);
    assert forall|j: int| 0 <= j < r.violating_classes@.len() implies {
        let w = #[trigger] r.violating_classes@[j];
        &&& !w.k_ok || !w.l_ok || !w.t_ok
        &&& exists|i: int| 0 <= i < r.equiv_classes@.len()
            && (#[trigger] r.equiv_classes@[i]).members.deep_view() == w.members.deep_view()
            && r.equiv_classes@[i].k_ok == w.k_ok && r.equiv_classes@[i].l_ok == w.l_ok
            && r.equiv_classes@[i].t_ok == w.t_ok
    } by {
        assert(same_class(r.violating_classes@[j], v[j]));
        let i = choose|i: int| 0 <= i < cs.len() && cs[i] == v[j];
        assert(r.equiv_classes@[i] == v[j]);
    }
    assert forall|i: int| 0 <= i < r.equiv_classes@.len() && {
        let c = #[trigger] r.equiv_classes@[i];
        !c.k_ok || !c.l_ok || !c.t_ok
    } implies exists|j: int| 0 <= j < r.violating_classes@.len()
        && (#[trigger] r.violating_classes@[j]).members.deep_view() == r.equiv_classes@[i].members.deep_view()
        && r.violating_classes@[j].k_ok == r.equiv_classes@[i].k_ok
        && r.violating_classes@[j].l_ok == r.equiv_classes@[i].l_ok
        && r.violating_classes@[j].t_ok == r.equiv_classes@[i].t_ok by {
        assert(v.contains(cs[i]));
        let j = choose|j: int| 0 <= j < v.len() && v[j] == cs[i];
        assert(same_class(r.violating_classes@[j], v[j]));
    }
}


/// The report lists as violating exactly the classes that fail k-anonymity,
/// l-diversity or t-closeness: every listed class fails one of them and is
/// one of the reported classes, and every reported class failing one of
/// them is listed.
#[verifier::spinoff_prover]
#[verifier::rlimit(60)]
pub proof fn law_violating_classes(r: AnonReport, ctx: PolicyContext, policy: AnonPolicy)
    requires
        is_report(r, ctx, policy),
    ensures
        forall|j: int| 0 <= j < r.violating_classes@.len() ==> {
            let v = #[trigger] r.violating_classes@[j];
            &&& !v.k_ok || !v.l_ok || !v.t_ok
            &&& exists|i: int| 0 <= i < r.equiv_classes@.len()
                && (#[trigger] r.equiv_classes@[i]).members.deep_view() == v.members.deep_view()
                && r.equiv_classes@[i].k_ok == v.k_ok && r.equiv_classes@[i].l_ok == v.l_ok
                && r.equiv_classes@[i].t_ok == v.t_ok
        },
        forall|i: int| 0 <= i < r.equiv_classes@.len() && {
            let c = #[trigger] r.equiv_classes@[i];
            !c.k_ok || !c.l_ok || !c.t_ok
        } ==> exists|j: int| 0 <= j < r.violating_classes@.len()
            && (#[trigger] r.violating_classes@[j]).members.deep_view() == r.equiv_classes@[i].members.deep_view()
            && r.violating_classes@[j].k_ok == r.equiv_classes@[i].k_ok
            && r.violating_classes@[j].l_ok == r.equiv_classes@[i].l_ok
            && r.violating_classes@[j].t_ok == r.equiv_classes@[i].t_ok,
        r.violating_classes@.len() <= r.equiv_classes@.len(),
{
    lemma_report_violating(r, ctx, policy);
    lemma_violating_listing(r);
}

/// `x` is an event or object of the log whose type is one of `types`.
pub open spec fn of_types(ocel: OcelData, types: Seq<Seq<char>>, x: EventOrObjectIndex) -> bool {
    match x {
        EventOrObjectIndex::Event(e) => e < ocel.events@.len() && types.contains(ocel.events@[e as int].event_type@),
        EventOrObjectIndex::Object(o) => o < ocel.objects@.len() && types.contains(ocel.objects@[o as int].object_type@),
    }
}

proof fn lemma_concat_contains<A>(a: Seq<A>, b: Seq<A>, x: A)
    ensures
        (a + b).contains(x) <==> a.contains(x) || b.contains(x),
{
    if (a + b).contains(x) {
        let i = choose|i: int| 0 <= i < (a + b).len() && (a + b)[i] == x;
        if i < a.len() {
            assert(a[i] == x);
        } else {
            assert(b[i - a.len()] == x);
        }
    }
    if a.contains(x) {
        let i = choose|i: int| 0 <= i < a.len() && a[i] == x;
        assert((a + b)[i] == x);
    }
    if b.contains(x) {
        let i = choose|i: int| 0 <= i < b.len() && b[i] == x;
        assert((a + b)[i + a.len()] == x);
    }
}

proof fn lemma_events_of_type(ocel: OcelData, t: Seq<char>, n: int, x: EventOrObjectIndex)
    requires
        0 <= n <= ocel.events@.len(),
    ensures
        events_of_type(ocel, t, n).contains(x) <==> (x matches EventOrObjectIndex::Event(e)
            && e < n && ocel.events@[e as int].event_type@ == t),
    decreases n,
{
    assert(ocel.events.len() == ocel.events@.len());
    if n > 0 {
        lemma_events_of_type(ocel, t, n - 1, x);
        lemma_push_contains(events_of_type(ocel, t, n - 1), EventOrObjectIndex::Event((n - 1) as usize), x);
    }
}

proof fn lemma_objects_of_type(ocel: OcelData, t: Seq<char>, n: int, x: EventOrObjectIndex)
    requires
        0 <= n <= ocel.objects@.len(),
    ensures
        objects_of_type(ocel, t, n).contains(x) <==> (x matches EventOrObjectIndex::Object(o)
            && o < n && ocel.objects@[o as int].object_type@ == t),
    decreases n,
{
    assert(ocel.objects.len() == ocel.objects@.len());
    if n > 0 {
        lemma_objects_of_type(ocel, t, n - 1, x);
        lemma_push_contains(objects_of_type(ocel, t, n - 1), EventOrObjectIndex::Object((n - 1) as usize), x);
    }
}

proof fn lemma_elements_of_types(ocel: OcelData, types: Seq<Seq<char>>, x: EventOrObjectIndex)
    ensures
        elements_of_types(ocel, types).contains(x) <==> of_types(ocel, types, x),
    decreases types.len(),
{
    if types.len() > 0 {
        let d = types.drop_last();
        let t = types.last();
        lemma_elements_of_types(ocel, d, x);
        let a = elements_of_types(ocel, d);
        let ob = objects_of_type(ocel, t, ocel.objects@.len() as int);
        let ev = events_of_type(ocel, t, ocel.events@.len() as int);
        lemma_concat_contains(a, ob, x);
        lemma_concat_contains(a + ob, ev, x);
        lemma_objects_of_type(ocel, t, ocel.objects@.len() as int, x);
        lemma_events_of_type(ocel, t, ocel.events@.len() as int, x);
        assert(types =~= d.push(t));
        match x {
            EventOrObjectIndex::Event(e) => {
                if e < ocel.events@.len() {
                    lemma_push_contains(d, t, ocel.events@[e as int].event_type@);
                }
            },
            EventOrObjectIndex::Object(o) => {
                if o < ocel.objects@.len() {
                    lemma_push_contains(d, t, ocel.objects@[o as int].object_type@);
                }
            },
        }
    }
}

/// The classes of a policy hold exactly its protected elements: every event
/// and every object whose type is one of the protected types (those of the
/// first quasi-identifier's protected variable) is a member of some class,
/// under its type-qualified identifier `"<type>:<id>"`; and every member of
/// every class is such an identifier. Without quasi-identifiers there is no
/// class.
pub proof fn law_protected_elements_classified(
    cls: ClassMapView,
    policy: AnonPolicy,
    bbox: BindingBox,
    out: Seq<Binding>,
    ocel: OcelData,
)
    requires
        classes_of(cls, elements_of_types(ocel, protected_types(policy)), policy, bbox, out, ocel),
    ensures
        forall|e: int| 0 <= e < ocel.events@.len() && policy.qids@.len() > 0
            && prot_types(policy.qids@[0]).contains(#[trigger] ocel.events@[e].event_type@)
            ==> exists|a: int| 0 <= a < cls.len()
                && cls[a].1.contains(ocel.events@[e].event_type@ + seq![':'] + ocel.events@[e].id@),
        forall|o: int| 0 <= o < ocel.objects@.len() && policy.qids@.len() > 0
            && prot_types(policy.qids@[0]).contains(#[trigger] ocel.objects@[o].object_type@)
            ==> exists|a: int| 0 <= a < cls.len()
                && cls[a].1.contains(ocel.objects@[o].object_type@ + seq![':'] + ocel.objects@[o].id@),
        forall|a: int, j: int| 0 <= a < cls.len() && 0 <= j < cls[a].1.len() ==> policy.qids@.len() > 0 && (
            (exists|e: int| 0 <= e < ocel.events@.len()
                && prot_types(policy.qids@[0]).contains(ocel.events@[e].event_type@)
                && #[trigger] cls[a].1[j] == ocel.events@[e].event_type@ + seq![':'] + ocel.events@[e].id@)
            || (exists|o: int| 0 <= o < ocel.objects@.len()
                && prot_types(policy.qids@[0]).contains(ocel.objects@[o].object_type@)
                && cls[a].1[j] == ocel.objects@[o].object_type@ + seq![':'] + ocel.objects@[o].id@)),
        policy.qids@.len() == 0 ==> cls.len() == 0,
{
    let types = protected_types(policy);
    let elems = elements_of_types(ocel, types);
    assert(ocel.events.len() == ocel.events@.len());
    assert(ocel.objects.len() == ocel.objects@.len());
    law_fingerprint_layout(cls, elems, policy, bbox, out, ocel);
    if policy.qids@.len() > 0 {
        lemma_dedup_contains(prot_types(policy.qids@[0]));
    }
    assert forall|e: int| 0 <= e < ocel.events@.len() && policy.qids@.len() > 0
        && prot_types(policy.qids@[0]).contains(#[trigger] ocel.events@[e].event_type@)
        implies exists|a: int| 0 <= a < cls.len()
            && cls[a].1.contains(ocel.events@[e].event_type@ + seq![':'] + ocel.events@[e].id@) by {
        let x = EventOrObjectIndex::Event(e as usize);
        lemma_elements_of_types(ocel, types, x);
        assert(types.contains(ocel.events@[e].event_type@));
        assert(elems.contains(x));
        let y = choose|y: int| 0 <= y < elems.len() && elems[y] == x;
        assert(element_name(ocel, elems[y]) == ocel.events@[e].event_type@ + seq![':'] + ocel.events@[e].id@);
    }
    assert forall|o: int| 0 <= o < ocel.objects@.len() && policy.qids@.len() > 0
        && prot_types(policy.qids@[0]).contains(#[trigger] ocel.objects@[o].object_type@)
        implies exists|a: int| 0 <= a < cls.len()
            && cls[a].1.contains(ocel.objects@[o].object_type@ + seq![':'] + ocel.objects@[o].id@) by {
        let x = EventOrObjectIndex::Object(o as usize);
        lemma_elements_of_types(ocel, types, x);
        assert(types.contains(ocel.objects@[o].object_type@));
        assert(elems.contains(x));
        let y = choose|y: int| 0 <= y < elems.len() && elems[y] == x;
        assert(element_name(ocel, elems[y]) == ocel.objects@[o].object_type@ + seq![':'] + ocel.objects@[o].id@);
    }
    assert forall|a: int, j: int| 0 <= a < cls.len() && 0 <= j < cls[a].1.len() implies policy.qids@.len() > 0 && (
        (exists|e: int| 0 <= e < ocel.events@.len()
            && prot_types(policy.qids@[0]).contains(ocel.events@[e].event_type@)
            && #[trigger] cls[a].1[j] == ocel.events@[e].event_type@ + seq![':'] + ocel.events@[e].id@)
        || (exists|o: int| 0 <= o < ocel.objects@.len()
            && prot_types(policy.qids@[0]).contains(ocel.objects@[o].object_type@)
            && cls[a].1[j] == ocel.objects@[o].object_type@ + seq![':'] + ocel.objects@[o].id@)) by {
        let hf = has_fingerprint(cls[a].0, policy, bbox, out, ocel);
        let k = keep(elems, hf);
        assert(cls[a].1 == names(ocel, k));
        lemma_keep_members(elems, hf);
        assert(elems.contains(k[j]));
        lemma_elements_of_types(ocel, types, k[j]);
        assert(cls[a].1[j] == element_name(ocel, k[j]));
        if policy.qids@.len() == 0 {
            assert(types.len() == 0);
        }
        match k[j] {
            EventOrObjectIndex::Event(e) => {
                assert(types.contains(ocel.events@[e as int].event_type@));
                assert(cls[a].1[j] == ocel.events@[e as int].event_type@ + seq![':'] + ocel.events@[e as int].id@);
            },
            EventOrObjectIndex::Object(o) => {
                assert(types.contains(ocel.objects@[o as int].object_type@));
                assert(cls[a].1[j] == ocel.objects@[o as int].object_type@ + seq![':'] + ocel.objects@[o as int].id@);
            },
        }
    }
    if policy.qids@.len() == 0 && cls.len() > 0 {
        assert(cls[0].1.len() > 0);
        let hf = has_fingerprint(cls[0].0, policy, bbox, out, ocel);
        let k = keep(elems, hf);
        assert(cls[0].1 == names(ocel, k));
        lemma_keep_members(elems, hf);
        assert(elems.contains(k[0]));
        lemma_elements_of_types(ocel, types, k[0]);
        assert(types.len() == 0);
    }
}

/// The protected and the source variable of `q` are declared in its
/// pattern.
pub open spec fn vars_declared(q: QuasiIdentifier) -> bool {
    &&& match q.protected_var {
        ProtectedVar::Event(ev) => q.pattern.event_vars.types_of(ev) is Some,
        ProtectedVar::Object(ov) => q.pattern.object_vars.types_of(ov) is Some,
    }
    &&& match q.source_var {
        SourceVar::Event(ev) => q.pattern.event_vars.types_of(ev) is Some,
        SourceVar::Object(ov) => q.pattern.object_vars.types_of(ov) is Some,
    }
}

proof fn lemma_first_invalid_exists(qs: Seq<QuasiIdentifier>, n: int)
    requires
        0 <= n <= qs.len(),
        exists|i: int| 0 <= i < n && qid_verdict(#[trigger] qs[i]) is Err,
    ensures
        exists|i: int| first_invalid(qs, i),
    decreases n,
{
    if exists|i: int| 0 <= i < n - 1 && qid_verdict(#[trigger] qs[i]) is Err {
        lemma_first_invalid_exists(qs, n - 1);
    } else {
        assert(first_invalid(qs, n - 1));
    }
}

proof fn lemma_first_mismatch_exists(qs: Seq<QuasiIdentifier>, n: int)
    requires
        1 <= n <= qs.len(),
        exists|i: int| 1 <= i < n && (#[trigger] prot_types(qs[i])).to_set() != prot_types(qs[0]).to_set(),
    ensures
        exists|i: int| first_mismatch(qs, i),
    decreases n,
{
    if exists|i: int| 1 <= i < n - 1 && (#[trigger] prot_types(qs[i])).to_set() != prot_types(qs[0]).to_set() {
        lemma_first_mismatch_exists(qs, n - 1);
    } else {
        assert(first_mismatch(qs, n - 1));
    }
}

/// A policy is valid exactly when it has a quasi-identifier, each
/// quasi-identifier declares its protected and source variables, every
/// quasi-identifier's protected types are, as a set, the first one's, and
/// `1 ≤ k` and `0 ≤ t ≤ 1`. A rejection for disagreeing protected types
/// names a quasi-identifier whose types differ from the first one's by some
/// type.
pub proof fn law_validate_meaning(r: Result<(), PolicyError>, p: AnonPolicy)
    requires
        is_policy_verdict(r, p),
    ensures
        r is Ok <==> (
            p.qids@.len() > 0
            && (forall|i: int| 0 <= i < p.qids@.len() ==> vars_declared(#[trigger] p.qids@[i]))
            && (forall|i: int, s: Seq<char>| 0 <= i < p.qids@.len()
                ==> (#[trigger] prot_types(p.qids@[i]).contains(s) <==> prot_types(p.qids@[0]).contains(s)))
            && p.k >= 1
            && p.t.den > 0 && 0 <= p.t.num && p.t.num <= p.t.den),
        r matches Err(PolicyError::ProtectedTypesMismatch { qid, .. }) ==> exists|i: int, s: Seq<char>|
            1 <= i < p.qids@.len() && p.qids@[i].id == qid
            && #[trigger] prot_types(p.qids@[i]).contains(s) != prot_types(p.qids@[0]).contains(s),
{
    let qs = p.qids@;
    assert forall|i: int| 0 <= i < qs.len() implies (qid_verdict(#[trigger] qs[i]) is Ok <==> vars_declared(qs[i])) by {}
    if qs.len() == 0 {
    } else if exists|i: int| first_invalid(qs, i) {
        let c = choose|i: int| first_invalid(qs, i);
        assert(!vars_declared(qs[c]));
    } else {
        assert forall|i: int| 0 <= i < qs.len() implies vars_declared(#[trigger] qs[i]) by {
            if qid_verdict(qs[i]) is Err {
                lemma_first_invalid_exists(qs, qs.len() as int);
            }
        }
        if exists|i: int| first_mismatch(qs, i) {
            let c = choose|i: int| first_mismatch(qs, i);
            let a = prot_types(qs[c]);
            let b = prot_types(qs[0]);
            if forall|s: Seq<char>| a.contains(s) <==> b.contains(s) {
                assert(a.to_set() =~= b.to_set());
            }
            let s = choose|s: Seq<char>| !(a.contains(s) <==> b.contains(s));
            assert(prot_types(qs[c]).contains(s) != prot_types(qs[0]).contains(s));
        } else {
            assert forall|i: int, s: Seq<char>| 0 <= i < qs.len()
                implies (#[trigger] prot_types(qs[i]).contains(s) <==> prot_types(qs[0]).contains(s)) by {
                if i >= 1 {
                    if prot_types(qs[i]).to_set() != prot_types(qs[0]).to_set() {
                        lemma_first_mismatch_exists(qs, qs.len() as int);
                    }
                    assert(prot_types(qs[i]).to_set().contains(s) == prot_types(qs[0]).to_set().contains(s));
                }
            }
        }
    }
}

} // verus!
