//! Policy activation: predicate compatibility, matchings of a pattern into a
//! binding box, and the bindings a matching activates.

use vstd::prelude::*;
use crate::assoc::{find_first, keys_distinct, keys_of, lookup, lemma_lookup_absent, lemma_lookup_at, first_index};
use crate::binding::{copy_qualifier, BindingBox, EventVariable, Filter, ObjectVariable, VarKey};
use crate::ocel::{satisfies, EventOrObjectIndex, OcelData};
use crate::binding::Binding;
use crate::policy::{Pattern, ProtectedVar, QuasiIdentifier, SourceVar};

verus! {

/// Wildcard (`None`) qualifiers are compatible with anything; named ones
/// only with the same name.
pub open spec fn qualifiers_match(a: Option<Seq<char>>, b: Option<Seq<char>>) -> bool {
    a is None || b is None || a == b
}

/// A bound that admits `x`: `None` is unbounded.
pub open spec fn below(lo: Option<i64>, x: int) -> bool {
    lo matches Some(l) ==> l <= x
}

pub open spec fn above(hi: Option<i64>, x: int) -> bool {
    hi matches Some(h) ==> x <= h
}

/// The intervals `[p_min, p_max]` and `[b_min, b_max]` share a point.
pub open spec fn overlap(p_min: Option<i64>, p_max: Option<i64>, b_min: Option<i64>, b_max: Option<i64>) -> bool {
    exists|x: int| below(p_min, x) && above(p_max, x) && below(b_min, x) && above(b_max, x)
}

/// Predicate compatibility: same predicate symbol, same variable arguments,
/// and overlapping parameters.
pub open spec fn compatible(p: Filter, b: Filter) -> bool {
    match (p, b) {
        (
            Filter::O2E { object: po, event: pe, qualifier: pq, .. },
            Filter::O2E { object: bo, event: be, qualifier: bq, .. },
        ) => po == bo && pe == be && qualifiers_match(pq.deep_view(), bq.deep_view()),
        (
            Filter::O2O { object: po, other_object: po2, qualifier: pq, .. },
            Filter::O2O { object: bo, other_object: bo2, qualifier: bq, .. },
        ) => po == bo && po2 == bo2 && qualifiers_match(pq.deep_view(), bq.deep_view()),
        (
            Filter::TimeBetweenEvents { from_event: pf, to_event: pt, min_ms: pmin, max_ms: pmax },
            Filter::TimeBetweenEvents { from_event: bf, to_event: bt, min_ms: bmin, max_ms: bmax },
        ) => pf == bf && pt == bt && overlap(pmin, pmax, bmin, bmax),
        _ => false,
    }
}

/// Compatibility of two qualifiers.
pub(crate) fn qualifiers_compatible(a: &Option<String>, b: &Option<String>) -> (r: bool)
    ensures
        r == qualifiers_match(a.deep_view(), b.deep_view()),
{
    match (a, b) {
        (None, _) | (_, None) => true,
        (Some(qa), Some(qb)) => *qa == *qb,
    }
}

/// `true` iff `[p_min, p_max]` and `[b_min, b_max]` intersect (`None` is
/// unbounded).
pub(crate) fn intervals_overlap(
    p_min: Option<i64>,
    p_max: Option<i64>,
    b_min: Option<i64>,
    b_max: Option<i64>,
) -> (r: bool)
    ensures
        r == overlap(p_min, p_max, b_min, b_max),
{
    let lower = match (p_min, b_min) {
        (Some(a), Some(b)) => Some(if a >= b { a } else { b }),
        (Some(v), None) | (None, Some(v)) => Some(v),
        (None, None) => None,
    };
    let upper = match (p_max, b_max) {
        (Some(a), Some(b)) => Some(if a <= b { a } else { b }),
        (Some(v), None) | (None, Some(v)) => Some(v),
        (None, None) => None,
    };
    match (lower, upper) {
        (Some(lo), Some(hi)) => {
            if lo <= hi {
                assert(below(p_min, lo as int) && above(p_max, lo as int) && below(b_min, lo as int) && above(b_max, lo as int));
            }
            lo <= hi
        },
        (Some(lo), None) => {
            assert(below(p_min, lo as int) && above(p_max, lo as int) && below(b_min, lo as int) && above(b_max, lo as int));
            true
        },
        (None, Some(hi)) => {
            assert(below(p_min, hi as int) && above(p_max, hi as int) && below(b_min, hi as int) && above(b_max, hi as int));
            true
        },
        (None, None) => {
            assert(below(p_min, 0) && above(p_max, 0) && below(b_min, 0) && above(b_max, 0));
            true
        },
    }
}

/// Predicate compatibility of a (renamed) pattern filter with a box filter.
pub fn predicates_compatible(pattern_filter: &Filter, box_filter: &Filter) -> (r: bool)
    ensures
        r == compatible(*pattern_filter, *box_filter),
{
    match (pattern_filter, box_filter) {
        (
            Filter::O2E { object: po, event: pe, qualifier: pq, .. },
            Filter::O2E { object: bo, event: be, qualifier: bq, .. },
        ) => po.0 == bo.0 && pe.0 == be.0 && qualifiers_compatible(pq, bq),
        (
            Filter::O2O { object: po, other_object: po2, qualifier: pq, .. },
            Filter::O2O { object: bo, other_object: bo2, qualifier: bq, .. },
        ) => po.0 == bo.0 && po2.0 == bo2.0 && qualifiers_compatible(pq, bq),
        (
            Filter::TimeBetweenEvents { from_event: pf, to_event: pt, min_ms: p_min, max_ms: p_max },
            Filter::TimeBetweenEvents { from_event: bf, to_event: bt, min_ms: b_min, max_ms: b_max },
        ) => pf.0 == bf.0 && pt.0 == bt.0 && intervals_overlap(*p_min, *p_max, *b_min, *b_max),
        _ => false,
    }
}

/// Predicate compatibility does not depend on which filter is the pattern's.
pub proof fn lemma_compatible_symmetric(a: Filter, b: Filter)
    ensures
        compatible(a, b) == compatible(b, a),
{
    match (a, b) {
        (
            Filter::TimeBetweenEvents { min_ms: amin, max_ms: amax, .. },
            Filter::TimeBetweenEvents { min_ms: bmin, max_ms: bmax, .. },
        ) => {
            if overlap(amin, amax, bmin, bmax) {
                let x = choose|x: int| below(amin, x) && above(amax, x) && below(bmin, x) && above(bmax, x);
                assert(below(bmin, x) && above(bmax, x) && below(amin, x) && above(amax, x));
            }
            if overlap(bmin, bmax, amin, amax) {
                let x = choose|x: int| below(bmin, x) && above(bmax, x) && below(amin, x) && above(amax, x);
                assert(below(amin, x) && above(amax, x) && below(bmin, x) && above(bmax, x));
            }
        },
        _ => {},
    }
}

/// An assignment of pattern variables to box variables; event and object
/// variables are renamed independently.
#[derive(Debug)]
pub struct Matching {
    /// Pattern event variable → box event variable.
    pub ev_map: Vec<(EventVariable, EventVariable)>,
    /// Pattern object variable → box object variable.
    pub ob_map: Vec<(ObjectVariable, ObjectVariable)>,
}

/// The image of a filter under the renaming `(ev, ob)`; `None` when a
/// variable it uses is not renamed, or when it is not structural.
pub open spec fn rename(
    ev: Seq<(EventVariable, EventVariable)>,
    ob: Seq<(ObjectVariable, ObjectVariable)>,
    f: Filter,
) -> Option<Filter> {
    match f {
        Filter::O2E { object, event, qualifier, filter_label } =>
            if lookup(ob, object) is Some && lookup(ev, event) is Some {
                Some(Filter::O2E {
                    object: lookup(ob, object)->0,
                    event: lookup(ev, event)->0,
                    qualifier,
                    filter_label,
                })
            } else {
                None
            },
        Filter::O2O { object, other_object, qualifier, filter_label } =>
            if lookup(ob, object) is Some && lookup(ob, other_object) is Some {
                Some(Filter::O2O {
                    object: lookup(ob, object)->0,
                    other_object: lookup(ob, other_object)->0,
                    qualifier,
                    filter_label,
                })
            } else {
                None
            },
        Filter::TimeBetweenEvents { from_event, to_event, min_ms, max_ms } =>
            if lookup(ev, from_event) is Some && lookup(ev, to_event) is Some {
                Some(Filter::TimeBetweenEvents {
                    from_event: lookup(ev, from_event)->0,
                    to_event: lookup(ev, to_event)->0,
                    min_ms,
                    max_ms,
                })
            } else {
                None
            },
        Filter::NotEqual { .. } => None,
    }
}

/// Every variable `f` uses is renamed (never for non-structural filters).
pub open spec fn vars_assigned(
    ev: Seq<(EventVariable, EventVariable)>,
    ob: Seq<(ObjectVariable, ObjectVariable)>,
    f: Filter,
) -> bool {
    match f {
        Filter::O2E { object, event, .. } => lookup(ob, object) is Some && lookup(ev, event) is Some,
        Filter::O2O { object, other_object, .. } =>
            lookup(ob, object) is Some && lookup(ob, other_object) is Some,
        Filter::TimeBetweenEvents { from_event, to_event, .. } =>
            lookup(ev, from_event) is Some && lookup(ev, to_event) is Some,
        Filter::NotEqual { .. } => false,
    }
}

/// Some box filter is compatible with `g`.
pub open spec fn supported(bfs: Seq<Filter>, g: Filter) -> bool {
    exists|j: int| 0 <= j < bfs.len() && compatible(g, #[trigger] bfs[j])
}

impl Matching {
    /// Renames the variables of a pattern filter; `None` if a variable it uses
    /// is unmapped or the filter is not structural.
    pub fn apply_to_filter(&self, f: &Filter) -> (r: Option<Filter>)
        ensures
            r == rename(self.ev_map@, self.ob_map@, *f),
    {
        match f {
            Filter::O2E { object, event, qualifier, filter_label } => {
                let ob = find_first(&self.ob_map, *object)?;
                let ev = find_first(&self.ev_map, *event)?;
                Some(Filter::O2E {
                    object: ob,
                    event: ev,
                    qualifier: copy_qualifier(qualifier),
                    filter_label: *filter_label,
                })
            },
            Filter::O2O { object, other_object, qualifier, filter_label } => {
                let ob1 = find_first(&self.ob_map, *object)?;
                let ob2 = find_first(&self.ob_map, *other_object)?;
                Some(Filter::O2O {
                    object: ob1,
                    other_object: ob2,
                    qualifier: copy_qualifier(qualifier),
                    filter_label: *filter_label,
                })
            },
            Filter::TimeBetweenEvents { from_event, to_event, min_ms, max_ms } => {
                let ef = find_first(&self.ev_map, *from_event)?;
                let et = find_first(&self.ev_map, *to_event)?;
                Some(Filter::TimeBetweenEvents {
                    from_event: ef,
                    to_event: et,
                    min_ms: *min_ms,
                    max_ms: *max_ms,
                })
            },
            _ => None,
        }
    }

    /// The image of a pattern event variable.
    pub fn apply_to_ev_var(&self, v: EventVariable) -> (r: Option<EventVariable>)
        ensures
            r == lookup(self.ev_map@, v),
    {
        find_first(&self.ev_map, v)
    }

    /// The image of a pattern object variable.
    pub fn apply_to_ob_var(&self, v: ObjectVariable) -> (r: Option<ObjectVariable>)
        ensures
            r == lookup(self.ob_map@, v),
    {
        find_first(&self.ob_map, v)
    }
}

/// Pairs each key of `ks` with the value at the same position of `vs`.
pub open spec fn zip_vars<K, T>(ks: Seq<K>, vs: Seq<T>) -> Seq<(K, T)> {
    Seq::new(ks.len(), |i: int| (ks[i], vs[i]))
}

/// The values of the pairs of `s`, in order.
pub open spec fn values_of<K, T>(s: Seq<(K, T)>) -> Seq<T> {
    s.map_values(|p: (K, T)| p.1)
}

/// No value occurs twice.
pub open spec fn injective<T>(s: Seq<T>) -> bool {
    forall|i: int, j: int| 0 <= i < j < s.len() ==> s[i] != s[j]
}

/// The two type lists have a type in common.
pub open spec fn share_type(a: Seq<Seq<char>>, b: Seq<Seq<char>>) -> bool {
    exists|x: Seq<char>| a.contains(x) && b.contains(x)
}

/// `ie` assigns the first `ie.len()` pattern event variables to distinct box
/// event variables, each sharing a type with the pattern variable.
pub open spec fn ev_images_ok(p: Pattern, b: BindingBox, ie: Seq<EventVariable>) -> bool {
    let pv = p.event_vars.vars();
    &&& ie.len() <= pv.len()
    &&& injective(ie)
    &&& forall|i: int| 0 <= i < ie.len() ==> {
        &&& #[trigger] b.new_event_vars.types_of(ie[i]) is Some
        &&& share_type(p.event_vars.types_of(pv[i])->0, b.new_event_vars.types_of(ie[i])->0)
    }
}

/// The object-variable counterpart of `ev_images_ok`.
pub open spec fn ob_images_ok(p: Pattern, b: BindingBox, io: Seq<ObjectVariable>) -> bool {
    let pv = p.object_vars.vars();
    &&& io.len() <= pv.len()
    &&& injective(io)
    &&& forall|i: int| 0 <= i < io.len() ==> {
        &&& #[trigger] b.new_object_vars.types_of(io[i]) is Some
        &&& share_type(p.object_vars.types_of(pv[i])->0, b.new_object_vars.types_of(io[i])->0)
    }
}

/// Every pattern filter renames, and some box filter is compatible with it.
pub open spec fn preds_ok(
    p: Pattern,
    b: BindingBox,
    ev: Seq<(EventVariable, EventVariable)>,
    ob: Seq<(ObjectVariable, ObjectVariable)>,
) -> bool {
    forall|k: int| 0 <= k < p.filters@.len() ==> {
        &&& #[trigger] rename(ev, ob, p.filters@[k]) is Some
        &&& supported(b.filters@, rename(ev, ob, p.filters@[k])->0)
    }
}

/// Every pattern filter whose variables are all renamed has a compatible box
/// filter.
pub open spec fn partial_ok(
    p: Pattern,
    b: BindingBox,
    ev: Seq<(EventVariable, EventVariable)>,
    ob: Seq<(ObjectVariable, ObjectVariable)>,
) -> bool {
    forall|k: int| 0 <= k < p.filters@.len() && #[trigger] vars_assigned(ev, ob, p.filters@[k]) ==> (
        rename(ev, ob, p.filters@[k]) matches Some(g) ==> supported(b.filters@, g))
}

/// `ie` and `io`, the images of the pattern's event and object variables in
/// declaration order, form a matching of `p` into `b`: an injective,
/// type-compatible renaming under which every pattern predicate is
/// compatible with some box predicate.
pub open spec fn valid_images(p: Pattern, b: BindingBox, ie: Seq<EventVariable>, io: Seq<ObjectVariable>) -> bool {
    &&& ie.len() == p.event_vars.vars().len()
    &&& io.len() == p.object_vars.vars().len()
    &&& ev_images_ok(p, b, ie)
    &&& ob_images_ok(p, b, io)
    &&& preds_ok(p, b, zip_vars(p.event_vars.vars(), ie), zip_vars(p.object_vars.vars(), io))
}

/// `m` is a matching of `p` into `b`, listing the pattern's variables in
/// declaration order.
pub open spec fn is_matching(p: Pattern, b: BindingBox, m: Matching) -> bool {
    &&& keys_of(m.ev_map@) == p.event_vars.vars()
    &&& keys_of(m.ob_map@) == p.object_vars.vars()
    &&& valid_images(p, b, values_of(m.ev_map@), values_of(m.ob_map@))
}

proof fn lemma_zip_keys_values<K, T>(s: Seq<(K, T)>)
    ensures
        zip_vars(keys_of(s), values_of(s)) == s,
{
    assert(zip_vars(keys_of(s), values_of(s)) =~= s);
}

/// A lookup answered by a prefix is answered the same way by the whole.
proof fn lemma_lookup_prefix<K, T>(s: Seq<(K, T)>, n: int, k: K)
    requires
        0 <= n <= s.len(),
        lookup(s.take(n), k) is Some,
    ensures
        lookup(s, k) == lookup(s.take(n), k),
{
    let t = s.take(n);
    assert(exists|i: int| first_index(t, k, i));
    let i = choose|i: int| first_index(t, k, i);
    assert(t[i] == s[i]);
    assert forall|j: int| 0 <= j < i implies s[j].0 != k by {
        assert(t[j] == s[j]);
    }
    assert(first_index(s, k, i));
    lemma_lookup_at(s, k, i);
}

/// A renaming that extends a partial one by further pairs satisfies the
/// partial check if it satisfies the full one.
proof fn lemma_prefix_partial(
    p: Pattern,
    b: BindingBox,
    ev: Seq<(EventVariable, EventVariable)>,
    ob: Seq<(ObjectVariable, ObjectVariable)>,
    ne: int,
    no: int,
)
    requires
        0 <= ne <= ev.len(),
        0 <= no <= ob.len(),
        preds_ok(p, b, ev, ob),
    ensures
        partial_ok(p, b, ev.take(ne), ob.take(no)),
{
    let pe = ev.take(ne);
    let po = ob.take(no);
    assert forall|k: int| 0 <= k < p.filters@.len() && #[trigger] vars_assigned(pe, po, p.filters@[k]) implies (
        rename(pe, po, p.filters@[k]) matches Some(g) ==> supported(b.filters@, g)) by {
        let f = p.filters@[k];
        assert(rename(ev, ob, f) is Some);
        match f {
            Filter::O2E { object, event, .. } => {
                lemma_lookup_prefix(ob, no, object);
                lemma_lookup_prefix(ev, ne, event);
            },
            Filter::O2O { object, other_object, .. } => {
                lemma_lookup_prefix(ob, no, object);
                lemma_lookup_prefix(ob, no, other_object);
            },
            Filter::TimeBetweenEvents { from_event, to_event, .. } => {
                lemma_lookup_prefix(ev, ne, from_event);
                lemma_lookup_prefix(ev, ne, to_event);
            },
            Filter::NotEqual { .. } => {},
        }
        assert(rename(pe, po, f) == rename(ev, ob, f));
    }
}

/// A key with a value occurs among the keys.
proof fn lemma_lookup_key<K, T>(s: Seq<(K, T)>, k: K)
    requires
        lookup(s, k) is Some,
    ensures
        keys_of(s).contains(k),
{
    let i = choose|i: int| first_index(s, k, i);
    assert(keys_of(s)[i] == k);
}

fn rename_with(
    ev_map: &Vec<(EventVariable, EventVariable)>,
    ob_map: &Vec<(ObjectVariable, ObjectVariable)>,
    f: &Filter,
) -> (r: Option<Filter>)
    ensures
        r == rename(ev_map@, ob_map@, *f),
{
    match f {
        Filter::O2E { object, event, qualifier, filter_label } => {
            let ob = find_first(ob_map, *object)?;
            let ev = find_first(ev_map, *event)?;
            Some(Filter::O2E {
                object: ob,
                event: ev,
                qualifier: copy_qualifier(qualifier),
                filter_label: *filter_label,
            })
        },
        Filter::O2O { object, other_object, qualifier, filter_label } => {
            let ob1 = find_first(ob_map, *object)?;
            let ob2 = find_first(ob_map, *other_object)?;
            Some(Filter::O2O {
                object: ob1,
                other_object: ob2,
                qualifier: copy_qualifier(qualifier),
                filter_label: *filter_label,
            })
        },
        Filter::TimeBetweenEvents { from_event, to_event, min_ms, max_ms } => {
            let ef = find_first(ev_map, *from_event)?;
            let et = find_first(ev_map, *to_event)?;
            Some(Filter::TimeBetweenEvents {
                from_event: ef,
                to_event: et,
                min_ms: *min_ms,
                max_ms: *max_ms,
            })
        },
        _ => None,
    }
}

fn assigned_with(
    ev_map: &Vec<(EventVariable, EventVariable)>,
    ob_map: &Vec<(ObjectVariable, ObjectVariable)>,
    f: &Filter,
) -> (r: bool)
    ensures
        r == vars_assigned(ev_map@, ob_map@, *f),
{
    match f {
        Filter::O2E { object, event, .. } =>
            find_first(ob_map, *object).is_some() && find_first(ev_map, *event).is_some(),
        Filter::O2O { object, other_object, .. } =>
            find_first(ob_map, *object).is_some() && find_first(ob_map, *other_object).is_some(),
        Filter::TimeBetweenEvents { from_event, to_event, .. } =>
            find_first(ev_map, *from_event).is_some() && find_first(ev_map, *to_event).is_some(),
        _ => false,
    }
}

/// `true` iff every variable referenced by `f` is assigned in `m`.
pub(crate) fn filter_vars_assigned(f: &Filter, m: &Matching) -> (r: bool)
    ensures
        r == vars_assigned(m.ev_map@, m.ob_map@, *f),
{
    assigned_with(&m.ev_map, &m.ob_map, f)
}

/// `true` iff some box filter is compatible with `g`.
fn any_compatible(box_filters: &Vec<Filter>, g: &Filter) -> (r: bool)
    ensures
        r == supported(box_filters@, *g),
{
    let mut j: usize = 0;
    while j < box_filters.len()
        invariant
            j <= box_filters.len(),
            forall|i: int| 0 <= i < j ==> !compatible(*g, #[trigger] box_filters@[i]),
        decreases box_filters.len() - j,
    {
        if predicates_compatible(g, &box_filters[j]) {
            return true;
        }
        j = j + 1;
    }
    false
}

/// Pruning check: every pattern filter whose variables are all assigned has
/// a compatible box filter after renaming.
pub(crate) fn partial_predicate_check(
    pattern: &Pattern,
    bbox: &BindingBox,
    ev_map: &Vec<(EventVariable, EventVariable)>,
    ob_map: &Vec<(ObjectVariable, ObjectVariable)>,
) -> (r: bool)
    ensures
        r == partial_ok(*pattern, *bbox, ev_map@, ob_map@),
{
    let mut k: usize = 0;
    while k < pattern.filters.len()
        invariant
            k <= pattern.filters.len(),
            forall|i: int| 0 <= i < k && #[trigger] vars_assigned(ev_map@, ob_map@, pattern.filters@[i]) ==> (
                rename(ev_map@, ob_map@, pattern.filters@[i]) matches Some(g) ==> supported(bbox.filters@, g)),
        decreases pattern.filters.len() - k,
    {
        let pf = &pattern.filters[k];
        if assigned_with(ev_map, ob_map, pf) {
            if let Some(renamed) = rename_with(ev_map, ob_map, pf) {
                if !any_compatible(&bbox.filters, &renamed) {
                    assert(vars_assigned(ev_map@, ob_map@, pattern.filters@[k as int]));
                    return false;
                }
            }
        }
        k = k + 1;
    }
    true
}

/// Final check: every pattern filter renames and has a compatible box filter.
pub(crate) fn full_predicate_check(
    pattern: &Pattern,
    bbox: &BindingBox,
    ev_map: &Vec<(EventVariable, EventVariable)>,
    ob_map: &Vec<(ObjectVariable, ObjectVariable)>,
) -> (r: bool)
    ensures
        r == preds_ok(*pattern, *bbox, ev_map@, ob_map@),
{
    let mut k: usize = 0;
    while k < pattern.filters.len()
        invariant
            k <= pattern.filters.len(),
            forall|i: int| 0 <= i < k ==> {
                &&& #[trigger] rename(ev_map@, ob_map@, pattern.filters@[i]) is Some
                &&& supported(bbox.filters@, rename(ev_map@, ob_map@, pattern.filters@[i])->0)
            },
        decreases pattern.filters.len() - k,
    {
        match rename_with(ev_map, ob_map, &pattern.filters[k]) {
            Some(renamed) => {
                if !any_compatible(&bbox.filters, &renamed) {
                    return false;
                }
            },
            None => {
                return false;
            },
        }
        k = k + 1;
    }
    true
}

/// `true` iff the two type lists have no type in common.
fn types_disjoint(a: &Vec<String>, b: &Vec<String>) -> (r: bool)
    ensures
        r == !share_type(a.deep_view(), b.deep_view()),
{
    let mut i: usize = 0;
    while i < a.len()
        invariant
            i <= a.len(),
            forall|x: Seq<char>| a.deep_view().take(i as int).contains(x) ==> !b.deep_view().contains(x),
        decreases a.len() - i,
    {
        let mut j: usize = 0;
        while j < b.len()
            invariant
                i < a.len(),
                j <= b.len(),
                forall|y: int| 0 <= y < j ==> b.deep_view()[y] != a.deep_view()[i as int],
            decreases b.len() - j,
        {
            if a[i] == b[j] {
                assert(a.deep_view().contains(a.deep_view()[i as int]) && b.deep_view().contains(b.deep_view()[j as int]));
                return false;
            }
            j = j + 1;
        }
        assert(a.deep_view().take(i + 1) =~= a.deep_view().take(i as int).push(a.deep_view()[i as int]));
        i = i + 1;
    }
    assert(a.deep_view().take(i as int) =~= a.deep_view());
    true
}

/// `true` iff `v` is the image of some already-assigned variable.
fn image_used<K: Copy, V: VarKey>(map: &Vec<(K, V)>, v: &V) -> (r: bool)
    ensures
        r == values_of(map@).contains(*v),
{
    let mut i: usize = 0;
    while i < map.len()
        invariant
            i <= map.len(),
            forall|j: int| 0 <= j < i ==> map@[j].1 != *v,
        decreases map.len() - i,
    {
        if map[i].1.same(v) {
            assert(values_of(map@)[i as int] == *v);
            return true;
        }
        i = i + 1;
    }
    false
}

fn copy_pairs<K: Copy, V: Copy>(s: &Vec<(K, V)>) -> (r: Vec<(K, V)>)
    ensures
        r@ == s@,
{
    let mut r: Vec<(K, V)> = Vec::new();
    let mut i: usize = 0;
    while i < s.len()
        invariant
            i <= s.len(),
            r@ == s@.take(i as int),
        decreases s.len() - i,
    {
        r.push(s[i]);
        assert(s@.take(i + 1) =~= s@.take(i as int).push(s@[i as int]));
        i = i + 1;
    }
    assert(s@.take(i as int) =~= s@);
    r
}

/// Recursive backtracking over object variables: extends the assignment of
/// the first `ob_map.len()` pattern object variables in every admissible way
/// and records each complete matching.
pub(crate) fn backtrack_ob(
    pat_ob: &Vec<ObjectVariable>,
    box_obs: &Vec<ObjectVariable>,
    pattern: &Pattern,
    bbox: &BindingBox,
    ev_map: &Vec<(EventVariable, EventVariable)>,
    ob_map: &mut Vec<(ObjectVariable, ObjectVariable)>,
    results: &mut Vec<Matching>,
)
    requires
        pat_ob@ == pattern.object_vars.vars(),
        keys_distinct(pattern.object_vars@),
        box_obs@ == bbox.new_object_vars.vars(),
        keys_distinct(bbox.new_object_vars@),
        keys_of(ev_map@) == pattern.event_vars.vars(),
        ev_images_ok(*pattern, *bbox, values_of(ev_map@)),
        values_of(ev_map@).len() == pattern.event_vars.vars().len(),
        old(ob_map)@.len() <= pat_ob@.len(),
        keys_of(old(ob_map)@) == pat_ob@.take(old(ob_map)@.len() as int),
        ob_images_ok(*pattern, *bbox, values_of(old(ob_map)@)),
        partial_ok(*pattern, *bbox, ev_map@, old(ob_map)@),
    ensures
        final(ob_map)@ == old(ob_map)@,
        final(results)@.len() >= old(results)@.len(),
        final(results)@.take(old(results)@.len() as int) == old(results)@,
        forall|i: int| old(results)@.len() <= i < final(results)@.len() ==> {
            &&& is_matching(*pattern, *bbox, #[trigger] final(results)@[i])
            &&& values_of(final(results)@[i].ev_map@) == values_of(ev_map@)
            &&& values_of(final(results)@[i].ob_map@).take(old(ob_map)@.len() as int) == values_of(old(ob_map)@)
        },
        forall|io: Seq<ObjectVariable>|
            io.take(old(ob_map)@.len() as int) == values_of(old(ob_map)@)
            && #[trigger] valid_images(*pattern, *bbox, values_of(ev_map@), io)
            ==> exists|i: int| old(results)@.len() <= i < final(results)@.len()
                && values_of(#[trigger] final(results)@[i].ob_map@) == io,
        forall|i: int, j: int| old(results)@.len() <= i < j < final(results)@.len()
            ==> values_of(#[trigger] final(results)@[i].ob_map@) != values_of(#[trigger] final(results)@[j].ob_map@),
    decreases pat_ob@.len() - old(ob_map)@.len(),
{
    let ghost cur = ob_map@;
    let ghost r0 = results@.len();
    let ghost pe = pattern.event_vars.vars();
    let ghost po = pattern.object_vars.vars();
    let k = ob_map.len();
    if k == pat_ob.len() {
        proof {
            lemma_zip_keys_values(ev_map@);
            lemma_zip_keys_values(ob_map@);
            assert(pat_ob@.take(k as int) =~= pat_ob@);
            assert forall|io: Seq<ObjectVariable>|
                io.take(k as int) == values_of(cur) && valid_images(*pattern, *bbox, values_of(ev_map@), io)
                implies io == values_of(cur) by {
                assert(io =~= io.take(k as int));
            }
        }
        if full_predicate_check(pattern, bbox, ev_map, ob_map) {
            let m = Matching { ev_map: copy_pairs(ev_map), ob_map: copy_pairs(ob_map) };
            results.push(m);
            proof {
                assert(results@.take(r0 as int) =~= old(results)@);
                assert(values_of(m.ob_map@).take(k as int) =~= values_of(cur));
                assert(is_matching(*pattern, *bbox, results@[r0 as int]));
                assert(values_of(results@[r0 as int].ob_map@) == values_of(cur));
            }
        } else {
            proof {
                assert(results@.take(r0 as int) =~= old(results)@);
                assert forall|io: Seq<ObjectVariable>|
                    io.take(k as int) == values_of(cur) && valid_images(*pattern, *bbox, values_of(ev_map@), io)
                    implies false by {
                    assert(io == values_of(cur));
                }
            }
        }
        return;
    }
    let pat_var = pat_ob[k];
    proof {
        crate::assoc::lemma_lookup_distinct(pattern.object_vars@, k as int);
        assert(keys_of(pattern.object_vars@)[k as int] == pattern.object_vars@[k as int].0);
    }
    let pat_types = pattern.object_vars.get(&pat_var).unwrap();
    let mut j: usize = 0;
    while j < box_obs.len()
        invariant
            pat_ob@ == pattern.object_vars.vars(),
            keys_distinct(pattern.object_vars@),
            box_obs@ == bbox.new_object_vars.vars(),
            keys_distinct(bbox.new_object_vars@),
            keys_of(ev_map@) == pe,
            pe == pattern.event_vars.vars(),
            po == pattern.object_vars.vars(),
            ev_images_ok(*pattern, *bbox, values_of(ev_map@)),
            values_of(ev_map@).len() == pe.len(),
            k == cur.len(),
            k < pat_ob@.len(),
            pat_var == pat_ob@[k as int],
            pattern.object_vars.types_of(pat_var) == Some(pat_types.deep_view()),
            keys_of(cur) == pat_ob@.take(k as int),
            ob_images_ok(*pattern, *bbox, values_of(cur)),
            partial_ok(*pattern, *bbox, ev_map@, cur),
            ob_map@ == cur,
            cur == old(ob_map)@,
            j <= box_obs.len(),
            results@.len() >= r0,
            results@.take(r0 as int) == old(results)@,
            forall|i: int| r0 <= i < results@.len() ==> {
                &&& is_matching(*pattern, *bbox, #[trigger] results@[i])
                &&& values_of(results@[i].ev_map@) == values_of(ev_map@)
                &&& values_of(results@[i].ob_map@).take(k as int) == values_of(cur)
                &&& box_obs@.take(j as int).contains(values_of(results@[i].ob_map@)[k as int])
            },
            forall|io: Seq<ObjectVariable>|
                io.take(k as int) == values_of(cur)
                && #[trigger] valid_images(*pattern, *bbox, values_of(ev_map@), io)
                && box_obs@.take(j as int).contains(io[k as int])
                ==> exists|i: int| r0 <= i < results@.len()
                    && values_of(#[trigger] results@[i].ob_map@) == io,
            forall|a: int, b: int| r0 <= a < b < results@.len()
                ==> values_of(#[trigger] results@[a].ob_map@) != values_of(#[trigger] results@[b].ob_map@),
        decreases box_obs.len() - j,
    {
        let box_var = box_obs[j];
        let ghost r1 = results@.len();
        let ghost before = results@;
        if !image_used(ob_map, &box_var) {
            if let Some(box_types) = bbox.new_object_vars.get(&box_var) {
                if !types_disjoint(pat_types, box_types) {
                    ob_map.push((pat_var, box_var));
                    proof {
                        assert(keys_of(ob_map@) =~= pat_ob@.take(k + 1));
                        assert(values_of(ob_map@) =~= values_of(cur).push(box_var));
                        let nv = values_of(ob_map@);
                        assert(ob_images_ok(*pattern, *bbox, nv)) by {
                            assert forall|x: int, y: int| 0 <= x < y < nv.len() implies nv[x] != nv[y] by {
                                if y == k {
                                    assert(values_of(cur)[x] == nv[x]);
                                }
                            }
                            assert forall|x: int| 0 <= x < nv.len() implies {
                                &&& #[trigger] bbox.new_object_vars.types_of(nv[x]) is Some
                                &&& share_type(pattern.object_vars.types_of(po[x])->0, bbox.new_object_vars.types_of(nv[x])->0)
                            } by {
                                if x < k {
                                    assert(nv[x] == values_of(cur)[x]);
                                }
                            }
                        }
                    }
                    if partial_predicate_check(pattern, bbox, ev_map, ob_map) {
                        assert(pat_ob@.len() - ob_map@.len() < pat_ob@.len() - cur.len());
                        backtrack_ob(pat_ob, box_obs, pattern, bbox, ev_map, ob_map, results);
                    }
                    let _ = ob_map.pop();
                    proof {
                        assert(ob_map@ =~= cur);
                    }
                }
            }
        }
        proof {
            let r2 = results@.len();
            let b = box_var;
            assert(results@.take(r1 as int) == before.take(r1 as int)) by {
                assert(results@.take(r1 as int) =~= before);
            }
            assert(results@.take(r0 as int) =~= old(results)@) by {
                assert(results@.take(r0 as int) =~= results@.take(r1 as int).take(r0 as int));
                assert(before.take(r0 as int) == old(results)@);
            }
            assert(box_obs@.take(j + 1) =~= box_obs@.take(j as int).push(b));
            assert(!box_obs@.take(j as int).contains(b)) by {
                if box_obs@.take(j as int).contains(b) {
                    let w = choose|w: int| 0 <= w < j && box_obs@.take(j as int)[w] == b;
                    assert(bbox.new_object_vars@[w].0 == bbox.new_object_vars@[j as int].0);
                }
            }
            assert forall|i: int| r0 <= i < results@.len() implies {
                &&& is_matching(*pattern, *bbox, #[trigger] results@[i])
                &&& values_of(results@[i].ev_map@) == values_of(ev_map@)
                &&& values_of(results@[i].ob_map@).take(k as int) == values_of(cur)
                &&& box_obs@.take(j + 1).contains(values_of(results@[i].ob_map@)[k as int])
            } by {
                if i < r1 {
                    assert(results@[i] == before[i]);
                } else {
                    let vs = values_of(results@[i].ob_map@);
                    assert(vs.take(k + 1) == values_of(cur).push(b));
                    assert(vs.take(k as int) =~= vs.take(k + 1).take(k as int));
                    assert(vs[k as int] == vs.take(k + 1)[k as int]);
                    assert(box_obs@.take(j + 1)[j as int] == b);
                }
            }
            assert forall|x: int, y: int| r0 <= x < y < results@.len()
                implies values_of(#[trigger] results@[x].ob_map@) != values_of(#[trigger] results@[y].ob_map@) by {
                if y >= r1 && x < r1 {
                    let vx = values_of(results@[x].ob_map@);
                    let vy = values_of(results@[y].ob_map@);
                    assert(results@[x] == before[x]);
                    assert(vy.take(k + 1) == values_of(cur).push(b));
                    assert(vy[k as int] == vy.take(k + 1)[k as int]);
                    if vx == vy {
                        assert(box_obs@.take(j as int).contains(vx[k as int]));
                    }
                } else if y < r1 {
                    assert(results@[x] == before[x] && results@[y] == before[y]);
                }
            }
            assert forall|io: Seq<ObjectVariable>|
                io.take(k as int) == values_of(cur)
                && #[trigger] valid_images(*pattern, *bbox, values_of(ev_map@), io)
                && box_obs@.take(j + 1).contains(io[k as int])
                implies exists|i: int| r0 <= i < results@.len()
                    && values_of(#[trigger] results@[i].ob_map@) == io by {
                if box_obs@.take(j as int).contains(io[k as int]) {
                    let i = choose|i: int| r0 <= i < before.len() && values_of(#[trigger] before[i].ob_map@) == io;
                    assert(results@[i] == before[i]);
                } else {
                    assert(io[k as int] == b);
                    assert(io.take(k as int)[k as int - 0] == io[k as int] || true);
                    assert(!values_of(cur).contains(b)) by {
                        if values_of(cur).contains(b) {
                            let w = choose|w: int| 0 <= w < values_of(cur).len() && values_of(cur)[w] == b;
                            assert(io.take(k as int)[w] == io[w]);
                        }
                    }
                    let ie = values_of(ev_map@);
                    lemma_zip_keys_values(ev_map@);
                    lemma_prefix_partial(*pattern, *bbox, zip_vars(pe, ie), zip_vars(po, io), pe.len() as int, k + 1);
                    assert(zip_vars(pe, ie).take(pe.len() as int) =~= ev_map@);
                    assert(zip_vars(po, io).take(k + 1) =~= cur.push((pat_var, b))) by {
                        lemma_zip_keys_values(cur);
                        assert forall|x: int| 0 <= x < k implies #[trigger] io[x] == values_of(cur)[x] by {
                            assert(io.take(k as int)[x] == io[x]);
                        }
                    }
                    assert(io.take(k + 1) =~= values_of(cur).push(b));
                }
            }
        }
        j = j + 1;
    }
    proof {
        assert forall|io: Seq<ObjectVariable>|
            io.take(k as int) == values_of(cur)
            && #[trigger] valid_images(*pattern, *bbox, values_of(ev_map@), io)
            implies box_obs@.take(j as int).contains(io[k as int]) by {
            assert(bbox.new_object_vars.types_of(io[k as int]) is Some);
            lemma_lookup_key(bbox.new_object_vars@, io[k as int]);
            assert(box_obs@.take(j as int) =~= box_obs@);
        }
    }
}

/// Recursive backtracking over event variables: extends the assignment of
/// the first `ev_map.len()` pattern event variables in every admissible way,
/// then hands complete event assignments to [`backtrack_ob`].
pub(crate) fn backtrack_ev(
    pat_ev: &Vec<EventVariable>,
    pat_ob: &Vec<ObjectVariable>,
    box_evs: &Vec<EventVariable>,
    box_obs: &Vec<ObjectVariable>,
    pattern: &Pattern,
    bbox: &BindingBox,
    ev_map: &mut Vec<(EventVariable, EventVariable)>,
    ob_map: &mut Vec<(ObjectVariable, ObjectVariable)>,
    results: &mut Vec<Matching>,
)
    requires
        pat_ev@ == pattern.event_vars.vars(),
        keys_distinct(pattern.event_vars@),
        pat_ob@ == pattern.object_vars.vars(),
        keys_distinct(pattern.object_vars@),
        box_evs@ == bbox.new_event_vars.vars(),
        keys_distinct(bbox.new_event_vars@),
        box_obs@ == bbox.new_object_vars.vars(),
        keys_distinct(bbox.new_object_vars@),
        old(ev_map)@.len() <= pat_ev@.len(),
        keys_of(old(ev_map)@) == pat_ev@.take(old(ev_map)@.len() as int),
        ev_images_ok(*pattern, *bbox, values_of(old(ev_map)@)),
        old(ob_map)@.len() == 0,
        partial_ok(*pattern, *bbox, old(ev_map)@, old(ob_map)@),
    ensures
        final(ev_map)@ == old(ev_map)@,
        final(ob_map)@ == old(ob_map)@,
        final(results)@.len() >= old(results)@.len(),
        final(results)@.take(old(results)@.len() as int) == old(results)@,
        forall|i: int| old(results)@.len() <= i < final(results)@.len() ==> {
            &&& is_matching(*pattern, *bbox, #[trigger] final(results)@[i])
            &&& values_of(final(results)@[i].ev_map@).take(old(ev_map)@.len() as int) == values_of(old(ev_map)@)
        },
        forall|ie: Seq<EventVariable>, io: Seq<ObjectVariable>|
            ie.take(old(ev_map)@.len() as int) == values_of(old(ev_map)@)
            && #[trigger] valid_images(*pattern, *bbox, ie, io)
            ==> exists|i: int| old(results)@.len() <= i < final(results)@.len()
                && values_of(#[trigger] final(results)@[i].ev_map@) == ie
                && values_of(final(results)@[i].ob_map@) == io,
        forall|i: int, j: int| old(results)@.len() <= i < j < final(results)@.len()
            ==> values_of(#[trigger] final(results)@[i].ev_map@) != values_of(#[trigger] final(results)@[j].ev_map@)
                || values_of(final(results)@[i].ob_map@) != values_of(final(results)@[j].ob_map@),
    decreases pat_ev@.len() - old(ev_map)@.len(),
{
    let ghost cur = ev_map@;
    let ghost r0 = results@.len();
    let ghost pe = pattern.event_vars.vars();
    let ghost po = pattern.object_vars.vars();
    let k = ev_map.len();
    if k == pat_ev.len() {
        proof {
            assert(pat_ev@.take(k as int) =~= pat_ev@);
            assert(keys_of(ob_map@) =~= pat_ob@.take(0));
            assert(values_of(ob_map@) =~= Seq::<ObjectVariable>::empty());
        }
        backtrack_ob(pat_ob, box_obs, pattern, bbox, ev_map, ob_map, results);
        proof {
            assert forall|i: int| r0 <= i < results@.len() implies
                values_of(#[trigger] results@[i].ev_map@).take(k as int) == values_of(cur) by {
                assert(values_of(cur).len() == k);
                assert(values_of(results@[i].ev_map@) =~= values_of(results@[i].ev_map@).take(k as int));
            }
            assert forall|ie: Seq<EventVariable>, io: Seq<ObjectVariable>|
                ie.take(k as int) == values_of(cur) && #[trigger] valid_images(*pattern, *bbox, ie, io)
                implies exists|i: int| r0 <= i < results@.len()
                    && values_of(#[trigger] results@[i].ev_map@) == ie
                    && values_of(results@[i].ob_map@) == io by {
                assert(ie =~= ie.take(k as int));
                assert(io.take(0) =~= values_of(old(ob_map)@));
                let i = choose|i: int| r0 <= i < results@.len() && values_of(#[trigger] results@[i].ob_map@) == io;
                assert(values_of(results@[i].ev_map@) == values_of(ev_map@));
            }
        }
        return;
    }
    let pat_var = pat_ev[k];
    proof {
        crate::assoc::lemma_lookup_distinct(pattern.event_vars@, k as int);
        assert(keys_of(pattern.event_vars@)[k as int] == pattern.event_vars@[k as int].0);
    }
    let pat_types = pattern.event_vars.get(&pat_var).unwrap();
    let mut j: usize = 0;
    while j < box_evs.len()
        invariant
            pat_ev@ == pattern.event_vars.vars(),
            keys_distinct(pattern.event_vars@),
            pat_ob@ == pattern.object_vars.vars(),
            keys_distinct(pattern.object_vars@),
            box_evs@ == bbox.new_event_vars.vars(),
            keys_distinct(bbox.new_event_vars@),
            box_obs@ == bbox.new_object_vars.vars(),
            keys_distinct(bbox.new_object_vars@),
            pe == pattern.event_vars.vars(),
            po == pattern.object_vars.vars(),
            k == cur.len(),
            k < pat_ev@.len(),
            pat_var == pat_ev@[k as int],
            pattern.event_vars.types_of(pat_var) == Some(pat_types.deep_view()),
            keys_of(cur) == pat_ev@.take(k as int),
            ev_images_ok(*pattern, *bbox, values_of(cur)),
            partial_ok(*pattern, *bbox, cur, ob_map@),
            ob_map@.len() == 0,
            ob_map@ == old(ob_map)@,
            ev_map@ == cur,
            cur == old(ev_map)@,
            j <= box_evs.len(),
            results@.len() >= r0,
            results@.take(r0 as int) == old(results)@,
            forall|i: int| r0 <= i < results@.len() ==> {
                &&& is_matching(*pattern, *bbox, #[trigger] results@[i])
                &&& values_of(results@[i].ev_map@).take(k as int) == values_of(cur)
                &&& box_evs@.take(j as int).contains(values_of(results@[i].ev_map@)[k as int])
            },
            forall|ie: Seq<EventVariable>, io: Seq<ObjectVariable>|
                ie.take(k as int) == values_of(cur)
                && #[trigger] valid_images(*pattern, *bbox, ie, io)
                && box_evs@.take(j as int).contains(ie[k as int])
                ==> exists|i: int| r0 <= i < results@.len()
                    && values_of(#[trigger] results@[i].ev_map@) == ie
                    && values_of(results@[i].ob_map@) == io,
            forall|a: int, b: int| r0 <= a < b < results@.len()
                ==> values_of(#[trigger] results@[a].ev_map@) != values_of(#[trigger] results@[b].ev_map@)
                    || values_of(results@[a].ob_map@) != values_of(results@[b].ob_map@),
        decreases box_evs.len() - j,
    {
        let box_var = box_evs[j];
        let ghost r1 = results@.len();
        let ghost before = results@;
        if !image_used(ev_map, &box_var) {
            if let Some(box_types) = bbox.new_event_vars.get(&box_var) {
                if !types_disjoint(pat_types, box_types) {
                    ev_map.push((pat_var, box_var));
                    proof {
                        assert(keys_of(ev_map@) =~= pat_ev@.take(k + 1));
                        assert(values_of(ev_map@) =~= values_of(cur).push(box_var));
                        let nv = values_of(ev_map@);
                        assert(ev_images_ok(*pattern, *bbox, nv)) by {
                            assert forall|x: int, y: int| 0 <= x < y < nv.len() implies nv[x] != nv[y] by {
                                if y == k {
                                    assert(values_of(cur)[x] == nv[x]);
                                }
                            }
                            assert forall|x: int| 0 <= x < nv.len() implies {
                                &&& #[trigger] bbox.new_event_vars.types_of(nv[x]) is Some
                                &&& share_type(pattern.event_vars.types_of(pe[x])->0, bbox.new_event_vars.types_of(nv[x])->0)
                            } by {
                                if x < k {
                                    assert(nv[x] == values_of(cur)[x]);
                                }
                            }
                        }
                    }
                    if partial_predicate_check(pattern, bbox, ev_map, ob_map) {
                        assert(pat_ev@.len() - ev_map@.len() < pat_ev@.len() - cur.len());
                        backtrack_ev(pat_ev, pat_ob, box_evs, box_obs, pattern, bbox, ev_map, ob_map, results);
                    }
                    let _ = ev_map.pop();
                    proof {
                        assert(ev_map@ =~= cur);
                    }
                }
            }
        }
        proof {
            let b = box_var;
            assert(results@.take(r1 as int) == before.take(r1 as int)) by {
                assert(results@.take(r1 as int) =~= before);
            }
            assert(results@.take(r0 as int) =~= old(results)@) by {
                assert(results@.take(r0 as int) =~= results@.take(r1 as int).take(r0 as int));
                assert(before.take(r0 as int) == old(results)@);
            }
            assert(box_evs@.take(j + 1) =~= box_evs@.take(j as int).push(b));
            assert(!box_evs@.take(j as int).contains(b)) by {
                if box_evs@.take(j as int).contains(b) {
                    let w = choose|w: int| 0 <= w < j && box_evs@.take(j as int)[w] == b;
                    assert(bbox.new_event_vars@[w].0 == bbox.new_event_vars@[j as int].0);
                }
            }
            assert forall|i: int| r0 <= i < results@.len() implies {
                &&& is_matching(*pattern, *bbox, #[trigger] results@[i])
                &&& values_of(results@[i].ev_map@).take(k as int) == values_of(cur)
                &&& box_evs@.take(j + 1).contains(values_of(results@[i].ev_map@)[k as int])
            } by {
                if i < r1 {
                    assert(results@[i] == before[i]);
                } else {
                    let vs = values_of(results@[i].ev_map@);
                    assert(vs.take(k + 1) == values_of(cur).push(b));
                    assert(vs.take(k as int) =~= vs.take(k + 1).take(k as int));
                    assert(vs[k as int] == vs.take(k + 1)[k as int]);
                    assert(box_evs@.take(j + 1)[j as int] == b);
                }
            }
            assert forall|x: int, y: int| r0 <= x < y < results@.len()
                implies values_of(#[trigger] results@[x].ev_map@) != values_of(#[trigger] results@[y].ev_map@)
                    || values_of(results@[x].ob_map@) != values_of(results@[y].ob_map@) by {
                if y >= r1 && x < r1 {
                    let vx = values_of(results@[x].ev_map@);
                    let vy = values_of(results@[y].ev_map@);
                    assert(results@[x] == before[x]);
                    assert(vy.take(k + 1) == values_of(cur).push(b));
                    assert(vy[k as int] == vy.take(k + 1)[k as int]);
                    if vx == vy {
                        assert(box_evs@.take(j as int).contains(vx[k as int]));
                    }
                } else if y < r1 {
                    assert(results@[x] == before[x] && results@[y] == before[y]);
                }
            }
            assert forall|ie: Seq<EventVariable>, io: Seq<ObjectVariable>|
                ie.take(k as int) == values_of(cur)
                && #[trigger] valid_images(*pattern, *bbox, ie, io)
                && box_evs@.take(j + 1).contains(ie[k as int])
                implies exists|i: int| r0 <= i < results@.len()
                    && values_of(#[trigger] results@[i].ev_map@) == ie
                    && values_of(results@[i].ob_map@) == io by {
                if box_evs@.take(j as int).contains(ie[k as int]) {
                    let i = choose|i: int| r0 <= i < before.len()
                        && values_of(#[trigger] before[i].ev_map@) == ie
                        && values_of(before[i].ob_map@) == io;
                    assert(results@[i] == before[i]);
                } else {
                    assert(ie[k as int] == b);
                    assert(!values_of(cur).contains(b)) by {
                        if values_of(cur).contains(b) {
                            let w = choose|w: int| 0 <= w < values_of(cur).len() && values_of(cur)[w] == b;
                            assert(ie.take(k as int)[w] == ie[w]);
                        }
                    }
                    lemma_prefix_partial(*pattern, *bbox, zip_vars(pe, ie), zip_vars(po, io), k + 1, 0);
                    assert(zip_vars(po, io).take(0) =~= ob_map@);
                    assert(zip_vars(pe, ie).take(k + 1) =~= cur.push((pat_var, b))) by {
                        lemma_zip_keys_values(cur);
                        assert forall|x: int| 0 <= x < k implies #[trigger] ie[x] == values_of(cur)[x] by {
                            assert(ie.take(k as int)[x] == ie[x]);
                        }
                    }
                    assert(ie.take(k + 1) =~= values_of(cur).push(b));
                }
            }
        }
        j = j + 1;
    }
    proof {
        assert forall|ie: Seq<EventVariable>, io: Seq<ObjectVariable>|
            ie.take(k as int) == values_of(cur)
            && #[trigger] valid_images(*pattern, *bbox, ie, io)
            implies box_evs@.take(j as int).contains(ie[k as int]) by {
            assert(bbox.new_event_vars.types_of(ie[k as int]) is Some);
            lemma_lookup_key(bbox.new_event_vars@, ie[k as int]);
            assert(box_evs@.take(j as int) =~= box_evs@);
        }
    }
}

/// All matchings of `pattern` into `bbox`: exactly the injective,
/// type-compatible renamings under which every pattern predicate is
/// compatible with some box predicate, each listed once. A pattern with no
/// predicates yields every injection.
pub fn find_matchings(pattern: &Pattern, bbox: &BindingBox) -> (r: Vec<Matching>)
    ensures
        forall|i: int| 0 <= i < r@.len() ==> is_matching(*pattern, *bbox, #[trigger] r@[i]),
        forall|ie: Seq<EventVariable>, io: Seq<ObjectVariable>|
            #[trigger] valid_images(*pattern, *bbox, ie, io)
            ==> exists|i: int| 0 <= i < r@.len()
                && values_of(#[trigger] r@[i].ev_map@) == ie
                && values_of(r@[i].ob_map@) == io,
        forall|i: int, j: int| 0 <= i < j < r@.len()
            ==> values_of(#[trigger] r@[i].ev_map@) != values_of(#[trigger] r@[j].ev_map@)
                || values_of(r@[i].ob_map@) != values_of(r@[j].ob_map@),
{
    let pat_ev_vars = pattern.all_event_vars();
    let pat_ob_vars = pattern.all_object_vars();
    let box_ev_vars = bbox.new_event_vars.keys();
    let box_ob_vars = bbox.new_object_vars.keys();
    let _ = pattern.event_vars.keys();
    let _ = pattern.object_vars.keys();
    let mut results: Vec<Matching> = Vec::new();
    let mut ev_map: Vec<(EventVariable, EventVariable)> = Vec::new();
    let mut ob_map: Vec<(ObjectVariable, ObjectVariable)> = Vec::new();
    proof {
        assert(keys_of(ev_map@) =~= pat_ev_vars@.take(0));
        assert(values_of(ev_map@) =~= Seq::<EventVariable>::empty());
        assert forall|k: int| 0 <= k < pattern.filters@.len() implies !#[trigger] vars_assigned(ev_map@, ob_map@, pattern.filters@[k]) by {
            match pattern.filters@[k] {
                Filter::O2E { object, event, .. } => { lemma_lookup_absent(ob_map@, object); },
                Filter::O2O { object, .. } => { lemma_lookup_absent(ob_map@, object); },
                Filter::TimeBetweenEvents { from_event, .. } => { lemma_lookup_absent(ev_map@, from_event); },
                _ => {},
            }
        }
    }
    backtrack_ev(
        &pat_ev_vars,
        &pat_ob_vars,
        &box_ev_vars,
        &box_ob_vars,
        pattern,
        bbox,
        &mut ev_map,
        &mut ob_map,
        &mut results,
    );
    proof {
        assert forall|ie: Seq<EventVariable>, io: Seq<ObjectVariable>|
            #[trigger] valid_images(*pattern, *bbox, ie, io)
            implies exists|i: int| 0 <= i < results@.len()
                && values_of(#[trigger] results@[i].ev_map@) == ie
                && values_of(results@[i].ob_map@) == io by {
            assert(ie.take(0) =~= values_of(Seq::<(EventVariable, EventVariable)>::empty()));
        }
    }
    results
}

/// The quasi-identifier's pattern has a matching into `b`.
pub open spec fn activated(q: QuasiIdentifier, b: BindingBox) -> bool {
    exists|ie: Seq<EventVariable>, io: Seq<ObjectVariable>| valid_images(q.pattern, b, ie, io)
}

/// `true` iff the quasi-identifier's pattern has a matching into `bbox`.
pub fn qid_is_activated(qid: &QuasiIdentifier, bbox: &BindingBox) -> (r: bool)
    ensures
        r == activated(*qid, *bbox),
{
    let ms = find_matchings(&qid.pattern, bbox);
    if ms.len() > 0 {
        proof {
            assert(is_matching(qid.pattern, *bbox, ms@[0]));
            assert(valid_images(qid.pattern, *bbox, values_of(ms@[0].ev_map@), values_of(ms@[0].ob_map@)));
        }
        true
    } else {
        false
    }
}

/// The elements of `s` that satisfy `pred`, in order.
pub open spec fn keep<A>(s: Seq<A>, pred: spec_fn(A) -> bool) -> Seq<A>
    decreases s.len(),
{
    if s.len() == 0 {
        Seq::empty()
    } else {
        let r = keep(s.drop_last(), pred);
        if pred(s.last()) {
            r.push(s.last())
        } else {
            r
        }
    }
}

/// Every pattern filter renames under `(ev, ob)`.
pub open spec fn renames_all(p: Pattern, ev: Seq<(EventVariable, EventVariable)>, ob: Seq<(ObjectVariable, ObjectVariable)>) -> bool {
    forall|k: int| 0 <= k < p.filters@.len() ==> #[trigger] rename(ev, ob, p.filters@[k]) is Some
}

/// The binding satisfies every pattern filter renamed by `(ev, ob)`.
pub open spec fn activates(
    ocel: OcelData,
    p: Pattern,
    ev: Seq<(EventVariable, EventVariable)>,
    ob: Seq<(ObjectVariable, ObjectVariable)>,
    b: Binding,
) -> bool {
    forall|k: int| 0 <= k < p.filters@.len() ==> satisfies(ocel, #[trigger] rename(ev, ob, p.filters@[k])->0, b)
}

/// The test that a binding activates the renamed pattern, as a predicate.
pub open spec fn activation_test(
    ocel: OcelData,
    p: Pattern,
    ev: Seq<(EventVariable, EventVariable)>,
    ob: Seq<(ObjectVariable, ObjectVariable)>,
) -> spec_fn(Binding) -> bool {
    |b: Binding| activates(ocel, p, ev, ob, b)
}

/// `Act(q, b, φ)`: the bindings of `out` under which the renamed pattern holds.
pub open spec fn active_set(
    ocel: OcelData,
    p: Pattern,
    ev: Seq<(EventVariable, EventVariable)>,
    ob: Seq<(ObjectVariable, ObjectVariable)>,
    out: Seq<Binding>,
) -> Seq<Binding> {
    keep(out, activation_test(ocel, p, ev, ob))
}

proof fn lemma_rename_structural(ev: Seq<(EventVariable, EventVariable)>, ob: Seq<(ObjectVariable, ObjectVariable)>, f: Filter)
    requires
        rename(ev, ob, f) is Some,
    ensures
        (rename(ev, ob, f)->0).is_structural(),
{
}

/// `Act(q, b, φ)`: the bindings of `out` that satisfy the pattern's filters
/// renamed by `phi`.
pub fn active_binding_set<'a>(
    qid: &QuasiIdentifier,
    phi: &Matching,
    out: &'a [Binding],
    ocel: &OcelData,
) -> (r: Vec<&'a Binding>)
    requires
        renames_all(qid.pattern, phi.ev_map@, phi.ob_map@),
        forall|i: int| 0 <= i < out@.len() ==> ocel.holds_binding(#[trigger] out@[i]),
    ensures
        r@.map_values(|x: &Binding| *x) == active_set(*ocel, qid.pattern, phi.ev_map@, phi.ob_map@, out@),
{
    let ghost ev = phi.ev_map@;
    let ghost ob = phi.ob_map@;
    let ghost p = qid.pattern;
    let mut renamed: Vec<Filter> = Vec::new();
    let mut k: usize = 0;
    while k < qid.pattern.filters.len()
        invariant
            k <= qid.pattern.filters.len(),
            renames_all(p, ev, ob),
            p == qid.pattern,
            ev == phi.ev_map@,
            ob == phi.ob_map@,
            renamed@.len() == k,
            forall|j: int| 0 <= j < k ==> #[trigger] renamed@[j] == rename(ev, ob, p.filters@[j])->0,
        decreases qid.pattern.filters.len() - k,
    {
        let f = phi.apply_to_filter(&qid.pattern.filters[k]).unwrap();
        renamed.push(f);
        k = k + 1;
    }
    let mut r: Vec<&'a Binding> = Vec::new();
    let mut i: usize = 0;
    while i < out.len()
        invariant
            i <= out@.len(),
            forall|x: int| 0 <= x < out@.len() ==> ocel.holds_binding(#[trigger] out@[x]),
            renames_all(p, ev, ob),
            renamed@.len() == p.filters@.len(),
            forall|j: int| 0 <= j < renamed@.len() ==> #[trigger] renamed@[j] == rename(ev, ob, p.filters@[j])->0,
            r@.map_values(|x: &Binding| *x) == active_set(*ocel, p, ev, ob, out@.take(i as int)),
        decreases out.len() - i,
    {
        let b = &out[i];
        let mut all = true;
        let mut j: usize = 0;
        while j < renamed.len()
            invariant
                j <= renamed@.len(),
                ocel.holds_binding(*b),
                renames_all(p, ev, ob),
                renamed@.len() == p.filters@.len(),
                forall|x: int| 0 <= x < renamed@.len() ==> #[trigger] renamed@[x] == rename(ev, ob, p.filters@[x])->0,
                all == forall|x: int| 0 <= x < j ==> satisfies(*ocel, #[trigger] rename(ev, ob, p.filters@[x])->0, *b),
            decreases renamed.len() - j,
        {
            proof {
                assert(rename(ev, ob, p.filters@[j as int]) is Some);
                lemma_rename_structural(ev, ob, p.filters@[j as int]);
            }
            if !renamed[j].check_binding(b, ocel) {
                all = false;
            }
            j = j + 1;
        }
        let ghost before = r@;
        if all {
            r.push(b);
        }
        proof {
            let t1 = out@.take(i + 1);
            assert(t1.drop_last() =~= out@.take(i as int));
            assert(t1.last() == out@[i as int]);
            if all {
                assert(r@.map_values(|x: &Binding| *x) =~= before.map_values(|x: &Binding| *x).push(*b));
            }
        }
        i = i + 1;
    }
    proof {
        assert(out@.take(i as int) =~= out@);
    }
    r
}

/// The element bound to the protected variable's image, if any.
pub open spec fn protected_index(
    q: QuasiIdentifier,
    ev: Seq<(EventVariable, EventVariable)>,
    ob: Seq<(ObjectVariable, ObjectVariable)>,
    b: Binding,
) -> Option<EventOrObjectIndex> {
    match q.protected_var {
        ProtectedVar::Event(pe) => match lookup(ev, pe) {
            Some(be) => match lookup(b.event_map@, be) {
                Some(e) => Some(EventOrObjectIndex::Event(e)),
                None => None,
            },
            None => None,
        },
        ProtectedVar::Object(po) => match lookup(ob, po) {
            Some(bo) => match lookup(b.object_map@, bo) {
                Some(o) => Some(EventOrObjectIndex::Object(o)),
                None => None,
            },
            None => None,
        },
    }
}

/// The element bound to the source variable's image, if any.
pub open spec fn source_index(
    q: QuasiIdentifier,
    ev: Seq<(EventVariable, EventVariable)>,
    ob: Seq<(ObjectVariable, ObjectVariable)>,
    b: Binding,
) -> Option<EventOrObjectIndex> {
    match q.source_var {
        SourceVar::Event(pe) => match lookup(ev, pe) {
            Some(be) => match lookup(b.event_map@, be) {
                Some(e) => Some(EventOrObjectIndex::Event(e)),
                None => None,
            },
            None => None,
        },
        SourceVar::Object(po) => match lookup(ob, po) {
            Some(bo) => match lookup(b.object_map@, bo) {
                Some(o) => Some(EventOrObjectIndex::Object(o)),
                None => None,
            },
            None => None,
        },
    }
}

/// The element bound to `φ(v_prot)` in `binding`, if any.
pub fn protected_index_in_binding(qid: &QuasiIdentifier, phi: &Matching, binding: &Binding) -> (r: Option<EventOrObjectIndex>)
    ensures
        r == protected_index(*qid, phi.ev_map@, phi.ob_map@, *binding),
{
    match &qid.protected_var {
        ProtectedVar::Event(pat_ev) => {
            let box_ev = phi.apply_to_ev_var(*pat_ev)?;
            match binding.get_ev_index(&box_ev) {
                Some(e) => Some(EventOrObjectIndex::Event(e)),
                None => None,
            }
        },
        ProtectedVar::Object(pat_ob) => {
            let box_ob = phi.apply_to_ob_var(*pat_ob)?;
            match binding.get_ob_index(&box_ob) {
                Some(o) => Some(EventOrObjectIndex::Object(o)),
                None => None,
            }
        },
    }
}

/// The element bound to `φ(v_q)` in `binding`, if any.
pub fn source_index_in_binding(qid: &QuasiIdentifier, phi: &Matching, binding: &Binding) -> (r: Option<EventOrObjectIndex>)
    ensures
        r == source_index(*qid, phi.ev_map@, phi.ob_map@, *binding),
{
    match &qid.source_var {
        SourceVar::Event(pat_ev) => {
            let box_ev = phi.apply_to_ev_var(*pat_ev)?;
            match binding.get_ev_index(&box_ev) {
                Some(e) => Some(EventOrObjectIndex::Event(e)),
                None => None,
            }
        },
        SourceVar::Object(pat_ob) => {
            let box_ob = phi.apply_to_ob_var(*pat_ob)?;
            match binding.get_ob_index(&box_ob) {
                Some(o) => Some(EventOrObjectIndex::Object(o)),
                None => None,
            }
        },
    }
}

} // verus!
