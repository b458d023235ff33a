//! Fingerprints: source sets, marginal fingerprints, and the equivalence
//! classes of protected elements that share a fingerprint.

use vstd::prelude::*;
use crate::activation::{
    activates, activation_test, active_binding_set, active_set, find_matchings, is_matching, keep, protected_index,
    protected_index_in_binding, renames_all, source_index, source_index_in_binding, valid_images,
    values_of, zip_vars, Matching, preds_ok, rename,
};
use crate::assoc::{first_index, keys_of, lemma_lookup_at, lookup};
use crate::binding::{Binding, BindingBox, EventVariable, ObjectVariable};
use crate::ocel::{EventOrObjectIndex, OcelData};
use crate::order::{
    lemma_lex_at, lemma_lex_irreflexive, lemma_lex_prefix, lemma_lex_strict_total, lemma_take_step, lex_lt,
    rel_of, strict_total, Rel,
};
use crate::policy::{dedup, prot_types, AnonPolicy, QidAttribute, QuasiIdentifier};
use crate::text::qualified_id;
use crate::value::{entry_order, lemma_entry_strict_total, lemma_value_lt_total, lemma_value_strict_total, value_lt, value_order, QidValue, QidView};

verus! {

/// `"<type>:<id>"` for an event or object of the log.
pub open spec fn element_name(ocel: OcelData, x: EventOrObjectIndex) -> Seq<char> {
    match x {
        EventOrObjectIndex::Event(e) => ocel.events@[e as int].event_type@ + seq![':'] + ocel.events@[e as int].id@,
        EventOrObjectIndex::Object(o) => ocel.objects@[o as int].object_type@ + seq![':'] + ocel.objects@[o as int].id@,
    }
}

/// `i` is the first position holding the earliest time of `vals`.
pub open spec fn first_earliest(vals: Seq<(i64, QidView)>, i: int) -> bool {
    &&& 0 <= i < vals.len()
    &&& forall|j: int| 0 <= j < vals.len() ==> vals[i].0 <= #[trigger] vals[j].0
    &&& forall|j: int| 0 <= j < i ==> vals[i].0 < #[trigger] vals[j].0
}

/// The value with the earliest time (the first such one), or `Null`.
pub open spec fn earliest_value(vals: Seq<(i64, QidView)>) -> QidView {
    if exists|i: int| first_earliest(vals, i) {
        vals[choose|i: int| first_earliest(vals, i)].1
    } else {
        QidView::Null
    }
}

/// The value of attribute `attr` of element `x`: its identifier, the event's
/// timestamp rendering (`Null` for objects), or a named attribute (`Null`
/// if absent; for objects, the value with the earliest time).
pub open spec fn attribute_value(ocel: OcelData, x: EventOrObjectIndex, attr: QidAttribute) -> QidView {
    match (x, attr) {
        (EventOrObjectIndex::Event(e), QidAttribute::Id) => QidView::Str(ocel.events@[e as int].id@),
        (EventOrObjectIndex::Object(o), QidAttribute::Id) => QidView::Str(ocel.objects@[o as int].id@),
        (EventOrObjectIndex::Event(e), QidAttribute::Timestamp) => QidView::Str(ocel.events@[e as int].time_text@),
        (EventOrObjectIndex::Object(_), QidAttribute::Timestamp) => QidView::Null,
        (EventOrObjectIndex::Event(e), QidAttribute::Named(n)) =>
            match lookup(ocel.events@[e as int].attributes.deep_view(), n@) {
                Some(v) => v,
                None => QidView::Null,
            },
        (EventOrObjectIndex::Object(o), QidAttribute::Named(n)) =>
            match lookup(ocel.objects@[o as int].attributes.deep_view(), n@) {
                Some(vals) => earliest_value(vals),
                None => QidView::Null,
            },
    }
}

/// Reads the value of `attr` from `element`.
pub(crate) fn read_qid_value(element: EventOrObjectIndex, attr: &QidAttribute, ocel: &OcelData) -> (r: QidValue)
    requires
        ocel.holds_element(element),
    ensures
        r.deep_view() == attribute_value(*ocel, element, *attr),
{
    match (element, attr) {
        (EventOrObjectIndex::Event(e), QidAttribute::Id) => QidValue::Str(ocel.events[e].id.clone()),
        (EventOrObjectIndex::Object(o), QidAttribute::Id) => QidValue::Str(ocel.objects[o].id.clone()),
        (EventOrObjectIndex::Event(e), QidAttribute::Timestamp) => QidValue::Str(ocel.events[e].time_text.clone()),
        (EventOrObjectIndex::Object(_), QidAttribute::Timestamp) => QidValue::Null,
        (EventOrObjectIndex::Event(e), QidAttribute::Named(name)) => {
            match attr_position(&ocel.events[e].attributes, name) {
                Some(i) => {
                    proof { lemma_lookup_at(ocel.events@[e as int].attributes.deep_view(), name@, i as int); }
                    ocel.events[e].attributes[i].1.duplicate()
                },
                None => QidValue::Null,
            }
        },
        (EventOrObjectIndex::Object(o), QidAttribute::Named(name)) => {
            match attr_position(&ocel.objects[o].attributes, name) {
                Some(i) => {
                    proof { lemma_lookup_at(ocel.objects@[o as int].attributes.deep_view(), name@, i as int); }
                    earliest(&ocel.objects[o].attributes[i].1)
                },
                None => QidValue::Null,
            }
        },
    }
}

/// Position of the first pair named `name`.
fn attr_position<T: DeepView>(attrs: &Vec<(String, T)>, name: &String) -> (r: Option<usize>)
    ensures
        match r {
            Some(i) => first_index(attrs.deep_view(), name@, i as int),
            None => lookup(attrs.deep_view(), name@) is None,
        },
{
    let mut i: usize = 0;
    while i < attrs.len()
        invariant
            i <= attrs.len(),
            forall|j: int| 0 <= j < i ==> attrs.deep_view()[j].0 != name@,
        decreases attrs.len() - i,
    {
        if attrs[i].0 == *name {
            return Some(i);
        }
        i = i + 1;
    }
    None
}

/// The value with the earliest time (the first such one), or `Null`.
fn earliest(vals: &Vec<(i64, QidValue)>) -> (r: QidValue)
    ensures
        r.deep_view() == earliest_value(vals.deep_view()),
{
    let ghost v = vals.deep_view();
    if vals.len() == 0 {
        return QidValue::Null;
    }
    let mut best: usize = 0;
    let mut i: usize = 1;
    while i < vals.len()
        invariant
            v == vals.deep_view(),
            1 <= i <= vals.len(),
            best < i,
            forall|j: int| 0 <= j < i ==> v[best as int].0 <= #[trigger] v[j].0,
            forall|j: int| 0 <= j < best ==> v[best as int].0 < #[trigger] v[j].0,
        decreases vals.len() - i,
    {
        if vals[i].0 < vals[best].0 {
            best = i;
        }
        i = i + 1;
    }
    proof {
        assert(first_earliest(v, best as int));
        let c = choose|c: int| first_earliest(v, c);
        if c < best {
            assert(v[best as int].0 < v[c].0);
        } else if c > best {
            assert(v[c].0 < v[best as int].0);
        }
    }
    vals[best].1.duplicate()
}

/// The type-qualified identifier `"<type>:<id>"` of an element.
pub(crate) fn element_id(element: EventOrObjectIndex, ocel: &OcelData) -> (r: String)
    requires
        ocel.holds_element(element),
    ensures
        r@ == element_name(*ocel, element),
{
    match element {
        EventOrObjectIndex::Event(e) => qualified_id(&ocel.events[e].event_type, &ocel.events[e].id),
        EventOrObjectIndex::Object(o) => qualified_id(&ocel.objects[o].object_type, &ocel.objects[o].id),
    }
}

/// `Src_q(o*)`: distinct `(source id, value)` pairs.
pub type SourceSet = Vec<(String, QidValue)>;

/// `fp_q(o*)`: value → multiplicity, in increasing order of value.
pub type MarginalFingerprint = Vec<(QidValue, usize)>;

/// `fp(o*)`: one marginal fingerprint per quasi-identifier, in policy order.
pub type Fingerprint = Vec<MarginalFingerprint>;

/// Number of pairs of `s` whose value is `v`.
pub open spec fn occurrences(s: Seq<(Seq<char>, QidView)>, v: QidView) -> nat
    decreases s.len(),
{
    if s.len() == 0 {
        0
    } else {
        occurrences(s.drop_last(), v) + if s.last().1 == v { 1nat } else { 0nat }
    }
}

/// `m` lists, in increasing order of value, each value whose count is
/// positive, with that count.
pub open spec fn is_marginal(m: Seq<(QidView, usize)>, count: spec_fn(QidView) -> nat) -> bool {
    &&& forall|i: int, j: int| 0 <= i < j < m.len() ==> value_lt(#[trigger] m[i].0, #[trigger] m[j].0)
    &&& forall|i: int| 0 <= i < m.len() ==> #[trigger] m[i].1 == count(m[i].0) && m[i].1 > 0
    &&& forall|v: QidView| #[trigger] count(v) > 0 ==> exists|i: int| 0 <= i < m.len() && m[i].0 == v
}

/// The counts of a sequence of pairs, as a function of the value.
pub open spec fn occurrence_count(s: Seq<(Seq<char>, QidView)>) -> spec_fn(QidView) -> nat {
    |v: QidView| occurrences(s, v)
}

proof fn lemma_occurrences_bound(s: Seq<(Seq<char>, QidView)>, v: QidView)
    ensures
        occurrences(s, v) <= s.len(),
    decreases s.len(),
{
    if s.len() > 0 {
        lemma_occurrences_bound(s.drop_last(), v);
    }
}

/// Position of `v` in the sorted marginal, or where it belongs.
fn value_position(m: &MarginalFingerprint, v: &QidValue) -> (r: usize)
    requires
        forall|i: int, j: int| 0 <= i < j < m.deep_view().len() ==> value_lt(#[trigger] m.deep_view()[i].0, #[trigger] m.deep_view()[j].0),
    ensures
        r <= m.len(),
        forall|k: int| 0 <= k < r ==> value_lt(#[trigger] m.deep_view()[k].0, v.deep_view()),
        r < m.len() ==> !value_lt(m.deep_view()[r as int].0, v.deep_view()),
{
    let mut pos: usize = 0;
    while pos < m.len() && m[pos].0.compare(v) == Rel::Less
        invariant
            pos <= m.len(),
            forall|k: int| 0 <= k < pos ==> value_lt(#[trigger] m.deep_view()[k].0, v.deep_view()),
        decreases m.len() - pos,
    {
        pos = pos + 1;
    }
    pos
}

/// `Src_q(o*)` with source identifiers forgotten: each value with the number
/// of pairs that carry it, in increasing order of value.
pub fn source_set_to_marginal(src: &SourceSet) -> (r: MarginalFingerprint)
    ensures
        is_marginal(r.deep_view(), occurrence_count(src.deep_view())),
{
    proof { lemma_value_lt_total(); }
    let ghost s = src.deep_view();
    let mut r: MarginalFingerprint = Vec::new();
    let mut i: usize = 0;
    while i < src.len()
        invariant
            s == src.deep_view(),
            i <= src.len(),
            forall|x: QidView, y: QidView, z: QidView| #[trigger] value_lt(x, y) && #[trigger] value_lt(y, z) ==> value_lt(x, z),
            forall|x: QidView, y: QidView| x != y ==> #[trigger] value_lt(x, y) || #[trigger] value_lt(y, x),
            forall|x: QidView| !(#[trigger] value_lt(x, x)),
            is_marginal(r.deep_view(), occurrence_count(s.take(i as int))),
        decreases src.len() - i,
    {
        let v = &src[i].1;
        let ghost vv = v.deep_view();
        let ghost before = r.deep_view();
        let ghost pre = s.take(i as int);
        let ghost post = s.take(i + 1);
        assert(post.drop_last() =~= pre);
        assert(post.last().1 == vv);
        assert forall|w: QidView| #[trigger] occurrences(post, w) == occurrences(pre, w) + if w == vv { 1nat } else { 0nat } by {}
        proof { lemma_occurrences_bound(pre, vv); }
        let pos = value_position(&r, v);
        if pos < r.len() && r[pos].0.same_value(v) {
            let c = r[pos].1;
            assert(before[pos as int].0 == vv);
            assert(before[pos as int].1 == occurrence_count(pre)(before[pos as int].0));
            assert(c == occurrences(pre, vv));
            r[pos].1 = c + 1;
            proof {
                assert(r.deep_view() =~= before.update(pos as int, (vv, (c + 1) as usize)));
                assert forall|v2: QidView| #[trigger] occurrence_count(post)(v2) > 0 implies exists|k: int| 0 <= k < r.deep_view().len() && r.deep_view()[k].0 == v2 by {
                    if v2 != vv {
                        assert(occurrence_count(pre)(v2) > 0);
                        let k = choose|k: int| 0 <= k < before.len() && before[k].0 == v2;
                        assert(r.deep_view()[k].0 == v2);
                    } else {
                        assert(r.deep_view()[pos as int].0 == v2);
                    }
                }
            }
        } else {
            r.insert(pos, (v.duplicate(), 1));
            proof {
                assert(r.deep_view() =~= before.insert(pos as int, (vv, 1usize)));
                if pos < before.len() {
                    assert(before[pos as int].0 != vv);
                    assert(value_lt(vv, before[pos as int].0));
                }
                assert(occurrences(pre, vv) == 0) by {
                    if occurrences(pre, vv) > 0 {
                        assert(occurrence_count(pre)(vv) == occurrences(pre, vv));
                        assert(occurrence_count(pre)(vv) > 0);
                        let k = choose|k: int| 0 <= k < before.len() && before[k].0 == vv;
                        if k < pos {
                            assert(value_lt(before[k].0, vv));
                        } else if k > pos {
                            assert(value_lt(before[pos as int].0, before[k].0));
                            assert(value_lt(vv, before[k].0));
                        }
                    }
                }
                let rv = r.deep_view();
                assert forall|a: int, b: int| 0 <= a < b < rv.len() implies value_lt(#[trigger] rv[a].0, #[trigger] rv[b].0) by {
                    if b < pos {
                        assert(rv[a] == before[a] && rv[b] == before[b]);
                    } else if b == pos {
                        assert(rv[a] == before[a]);
                    } else if a < pos {
                        assert(rv[a] == before[a] && rv[b] == before[b - 1]);
                        assert(value_lt(before[a].0, vv));
                        assert(value_lt(vv, before[pos as int].0));
                        if b - 1 > pos {
                            assert(value_lt(before[pos as int].0, before[b - 1].0));
                        }
                    } else if a == pos {
                        assert(rv[b] == before[b - 1]);
                        if b - 1 > pos {
                            assert(value_lt(before[pos as int].0, before[b - 1].0));
                        }
                    } else {
                        assert(rv[a] == before[a - 1] && rv[b] == before[b - 1]);
                    }
                }
                assert forall|k: int| 0 <= k < rv.len() implies #[trigger] rv[k].1 == occurrence_count(post)(rv[k].0) && rv[k].1 > 0 by {
                    if k < pos {
                        assert(rv[k] == before[k]);
                        assert(before[k].0 != vv);
                    } else if k > pos {
                        assert(rv[k] == before[k - 1]);
                        assert(before[k - 1].0 != vv);
                    }
                }
                assert forall|v2: QidView| #[trigger] occurrence_count(post)(v2) > 0 implies exists|k: int| 0 <= k < rv.len() && rv[k].0 == v2 by {
                    if v2 != vv {
                        assert(occurrence_count(pre)(v2) > 0);
                        let k = choose|k: int| 0 <= k < before.len() && before[k].0 == v2;
                        if k < pos {
                            assert(rv[k].0 == v2);
                        } else {
                            assert(rv[k + 1].0 == v2);
                        }
                    } else {
                        assert(rv[pos as int].0 == v2);
                    }
                }
            }
        }
        i = i + 1;
    }
    assert(s.take(i as int) =~= s);
    r
}

/// No element occurs twice.
pub open spec fn no_dups<A>(s: Seq<A>) -> bool {
    forall|i: int, j: int| 0 <= i < j < s.len() ==> s[i] != s[j]
}

/// Under the renaming `(ev, ob)`, binding `b` is active for `q`, binds the
/// protected variable to `x`, and contributes the pair `p` read from the
/// element bound to the source variable.
pub open spec fn contributes(
    ocel: OcelData,
    q: QuasiIdentifier,
    ev: Seq<(EventVariable, EventVariable)>,
    ob: Seq<(ObjectVariable, ObjectVariable)>,
    b: Binding,
    x: EventOrObjectIndex,
    p: (Seq<char>, QidView),
) -> bool {
    &&& activates(ocel, q.pattern, ev, ob, b)
    &&& protected_index(q, ev, ob, b) == Some(x)
    &&& source_index(q, ev, ob, b) matches Some(s)
        && p == (element_name(ocel, s), attribute_value(ocel, s, q.attribute))
}

/// `p` belongs to `Src_q(x)`: some matching of `q`'s pattern into `bbox` and
/// some binding of `out` contribute it.
pub open spec fn in_source_set(
    ocel: OcelData,
    q: QuasiIdentifier,
    bbox: BindingBox,
    out: Seq<Binding>,
    x: EventOrObjectIndex,
    p: (Seq<char>, QidView),
) -> bool {
    exists|ie: Seq<EventVariable>, io: Seq<ObjectVariable>, i: int|
        valid_images(q.pattern, bbox, ie, io) && 0 <= i < out.len() && #[trigger] contributes(
            ocel,
            q,
            zip_vars(q.pattern.event_vars.vars(), ie),
            zip_vars(q.pattern.object_vars.vars(), io),
            out[i],
            x,
            p,
        )
}

/// The members of `keep(s, pred)` are the members of `s` that satisfy `pred`.
pub proof fn lemma_keep_members<A>(s: Seq<A>, pred: spec_fn(A) -> bool)
    ensures
        forall|a: int| 0 <= a < keep(s, pred).len() ==> s.contains(#[trigger] keep(s, pred)[a]) && pred(keep(s, pred)[a]),
        forall|i: int| 0 <= i < s.len() && pred(#[trigger] s[i]) ==> keep(s, pred).contains(s[i]),
    decreases s.len(),
{
    if s.len() > 0 {
        let d = s.drop_last();
        lemma_keep_members(d, pred);
        let k = keep(s, pred);
        let kd = keep(d, pred);
        let last = s.last();
        if pred(last) {
            assert(k == kd.push(last));
        } else {
            assert(k == kd);
        }
        assert forall|a: int| 0 <= a < k.len() implies s.contains(#[trigger] k[a]) && pred(k[a]) by {
            if a < kd.len() {
                assert(k[a] == kd[a]);
                assert(d.contains(kd[a]));
                let i = choose|i: int| 0 <= i < d.len() && d[i] == kd[a];
                assert(s[i] == d[i]);
            } else {
                assert(s[s.len() - 1] == k[a]);
            }
        }
        assert forall|i: int| 0 <= i < s.len() && pred(#[trigger] s[i]) implies k.contains(s[i]) by {
            if i < d.len() {
                assert(d[i] == s[i]);
                assert(pred(d[i]));
                assert(kd.contains(d[i]));
                let a = choose|a: int| 0 <= a < kd.len() && kd[a] == d[i];
                assert(k[a] == kd[a]);
            } else {
                assert(k[k.len() - 1] == s[i]);
            }
        }
    }
}

/// Adds the pair to the source set unless it is already there.
fn insert_pair(src: &mut SourceSet, id: String, v: QidValue)
    requires
        no_dups(old(src).deep_view()),
    ensures
        no_dups(final(src).deep_view()),
        forall|p: (Seq<char>, QidView)| #[trigger] final(src).deep_view().contains(p)
            <==> old(src).deep_view().contains(p) || p == (id@, v.deep_view()),
{
    let mut i: usize = 0;
    while i < src.len()
        invariant
            i <= src.len(),
            *src == *old(src),
            no_dups(old(src).deep_view()),
            forall|j: int| 0 <= j < i ==> src.deep_view()[j] != (id@, v.deep_view()),
        decreases src.len() - i,
    {
        if src[i].0 == id && src[i].1.same_value(&v) {
            assert(src.deep_view()[i as int] == (id@, v.deep_view()));
            assert(src.deep_view() == old(src).deep_view());
            return;
        }
        i = i + 1;
    }
    let ghost before = src.deep_view();
    src.push((id, v));
    proof {
        assert(src.deep_view() =~= before.push((id@, v.deep_view())));
        assert forall|p: (Seq<char>, QidView)| #[trigger] src.deep_view().contains(p)
            <==> before.contains(p) || p == (id@, v.deep_view()) by {
            if src.deep_view().contains(p) {
                let w = choose|w: int| 0 <= w < src.deep_view().len() && src.deep_view()[w] == p;
                if w < before.len() {
                    assert(before[w] == p);
                }
            }
            if before.contains(p) {
                let w = choose|w: int| 0 <= w < before.len() && before[w] == p;
                assert(src.deep_view()[w] == p);
            }
            if p == (id@, v.deep_view()) {
                assert(src.deep_view()[before.len() as int] == p);
            }
        }
    }
}

/// A matching found by `find_matchings` renames every pattern filter.
proof fn lemma_matching_renames(p: crate::policy::Pattern, b: BindingBox, m: Matching)
    requires
        is_matching(p, b, m),
    ensures
        renames_all(p, m.ev_map@, m.ob_map@),
        m.ev_map@ == zip_vars(p.event_vars.vars(), values_of(m.ev_map@)),
        m.ob_map@ == zip_vars(p.object_vars.vars(), values_of(m.ob_map@)),
{
    assert(zip_vars(keys_of(m.ev_map@), values_of(m.ev_map@)) =~= m.ev_map@);
    assert(zip_vars(keys_of(m.ob_map@), values_of(m.ob_map@)) =~= m.ob_map@);
    assert forall|k: int| 0 <= k < p.filters@.len() implies #[trigger] rename(m.ev_map@, m.ob_map@, p.filters@[k]) is Some by {
        assert(preds_ok(p, b, m.ev_map@, m.ob_map@));
    }
}

/// Elements a binding of the log resolves to are elements of the log.
proof fn lemma_indices_in_log(
    ocel: OcelData,
    q: QuasiIdentifier,
    ev: Seq<(EventVariable, EventVariable)>,
    ob: Seq<(ObjectVariable, ObjectVariable)>,
    b: Binding,
)
    requires
        ocel.holds_binding(b),
    ensures
        protected_index(q, ev, ob, b) matches Some(x) ==> ocel.holds_element(x),
        source_index(q, ev, ob, b) matches Some(x) ==> ocel.holds_element(x),
{
    assert forall|v: EventVariable| #[trigger] lookup(b.event_map@, v) is Some implies lookup(b.event_map@, v)->0 < ocel.events@.len() by {
        crate::assoc::lemma_lookup_member(b.event_map@, v);
    }
    assert forall|v: ObjectVariable| #[trigger] lookup(b.object_map@, v) is Some implies lookup(b.object_map@, v)->0 < ocel.objects@.len() by {
        crate::assoc::lemma_lookup_member(b.object_map@, v);
    }
}

/// Adds the pair that an active binding contributes for `target`, if any.
fn add_binding_source(
    qid: &QuasiIdentifier,
    phi: &Matching,
    target: EventOrObjectIndex,
    binding: &Binding,
    ocel: &OcelData,
    src: &mut SourceSet,
)
    requires
        ocel.holds_binding(*binding),
        activates(*ocel, qid.pattern, phi.ev_map@, phi.ob_map@, *binding),
        no_dups(old(src).deep_view()),
    ensures
        no_dups(final(src).deep_view()),
        forall|p: (Seq<char>, QidView)| #[trigger] final(src).deep_view().contains(p)
            <==> old(src).deep_view().contains(p)
                || contributes(*ocel, *qid, phi.ev_map@, phi.ob_map@, *binding, target, p),
{
    proof { lemma_indices_in_log(*ocel, *qid, phi.ev_map@, phi.ob_map@, *binding); }
    let prot = protected_index_in_binding(qid, phi, binding);
    let src_opt = source_index_in_binding(qid, phi, binding);
    if let Some(pr) = prot {
        if pr == target {
            if let Some(src_idx) = src_opt {
                let src_id = element_id(src_idx, ocel);
                let val = read_qid_value(src_idx, &qid.attribute, ocel);
                insert_pair(src, src_id, val);
                return;
            }
        }
    }
}

/// The active set holds exactly the bindings of `out` that activate.
proof fn lemma_active_members(
    ocel: OcelData,
    p: crate::policy::Pattern,
    ev: Seq<(EventVariable, EventVariable)>,
    ob: Seq<(ObjectVariable, ObjectVariable)>,
    out: Seq<Binding>,
)
    ensures
        forall|x: int| 0 <= x < active_set(ocel, p, ev, ob, out).len()
            ==> out.contains(#[trigger] active_set(ocel, p, ev, ob, out)[x])
                && activates(ocel, p, ev, ob, active_set(ocel, p, ev, ob, out)[x]),
        forall|i: int| 0 <= i < out.len() && activates(ocel, p, ev, ob, #[trigger] out[i])
            ==> active_set(ocel, p, ev, ob, out).contains(out[i]),
{
    let pred = activation_test(ocel, p, ev, ob);
    lemma_keep_members(out, pred);
    assert forall|i: int| 0 <= i < out.len() && activates(ocel, p, ev, ob, #[trigger] out[i])
        implies active_set(ocel, p, ev, ob, out).contains(out[i]) by {
        assert(pred(out[i]));
    }
}

/// Processes the active bindings of one matching: adds to `src` every pair
/// they contribute for `target`.
fn add_sources_for(
    qid: &QuasiIdentifier,
    phi: &Matching,
    target: EventOrObjectIndex,
    out: &[Binding],
    ocel: &OcelData,
    src: &mut SourceSet,
)
    requires
        renames_all(qid.pattern, phi.ev_map@, phi.ob_map@),
        forall|i: int| 0 <= i < out@.len() ==> ocel.holds_binding(#[trigger] out@[i]),
        no_dups(old(src).deep_view()),
    ensures
        no_dups(final(src).deep_view()),
        forall|p: (Seq<char>, QidView)| #[trigger] final(src).deep_view().contains(p)
            <==> old(src).deep_view().contains(p)
                || exists|i: int| 0 <= i < out@.len()
                    && #[trigger] contributes(*ocel, *qid, phi.ev_map@, phi.ob_map@, out@[i], target, p),
{
    let active = active_binding_set(qid, phi, out, ocel);
    let ghost act = active_set(*ocel, qid.pattern, phi.ev_map@, phi.ob_map@, out@);
    let ghost start = src.deep_view();
    proof {
        lemma_active_members(*ocel, qid.pattern, phi.ev_map@, phi.ob_map@, out@);
        assert forall|x: int| 0 <= x < act.len() implies ocel.holds_binding(#[trigger] act[x]) by {
            let i = choose|i: int| 0 <= i < out@.len() && out@[i] == act[x];
            assert(ocel.holds_binding(out@[i]));
        }
    }
    let mut a: usize = 0;
    while a < active.len()
        invariant
            a <= active@.len(),
            act == active@.map_values(|x: &Binding| *x),
            forall|x: int| 0 <= x < act.len() ==> ocel.holds_binding(#[trigger] act[x]),
            forall|x: int| 0 <= x < act.len() ==> activates(*ocel, qid.pattern, phi.ev_map@, phi.ob_map@, #[trigger] act[x]),
            no_dups(src.deep_view()),
            forall|p: (Seq<char>, QidView)| #[trigger] src.deep_view().contains(p)
                <==> start.contains(p)
                    || exists|x: int| 0 <= x < a
                        && #[trigger] contributes(*ocel, *qid, phi.ev_map@, phi.ob_map@, act[x], target, p),
        decreases active.len() - a,
    {
        let binding = active[a];
        proof {
            assert(*binding == act[a as int]);
        }
        let ghost before = src.deep_view();
        add_binding_source(qid, phi, target, binding, ocel, src);
        proof {
            assert forall|p: (Seq<char>, QidView)| #[trigger] src.deep_view().contains(p)
                <==> start.contains(p)
                    || exists|x: int| 0 <= x < a + 1
                        && #[trigger] contributes(*ocel, *qid, phi.ev_map@, phi.ob_map@, act[x], target, p) by {
                if exists|x: int| 0 <= x < a + 1
                    && #[trigger] contributes(*ocel, *qid, phi.ev_map@, phi.ob_map@, act[x], target, p) {
                    let x = choose|x: int| 0 <= x < a + 1
                        && #[trigger] contributes(*ocel, *qid, phi.ev_map@, phi.ob_map@, act[x], target, p);
                    if x < a {
                        assert(before.contains(p));
                    }
                }
            }
        }
        a = a + 1;
    }
    proof {
        lemma_sources_over_active(*ocel, *qid, phi.ev_map@, phi.ob_map@, out@, target, start, src.deep_view());
    }
}

/// Passing from the active set to all of `out`: only active bindings contribute.
proof fn lemma_sources_over_active(
    ocel: OcelData,
    q: QuasiIdentifier,
    ev: Seq<(EventVariable, EventVariable)>,
    ob: Seq<(ObjectVariable, ObjectVariable)>,
    out: Seq<Binding>,
    target: EventOrObjectIndex,
    start: Seq<(Seq<char>, QidView)>,
    fin: Seq<(Seq<char>, QidView)>,
)
    requires
        forall|p: (Seq<char>, QidView)| #[trigger] fin.contains(p)
            <==> start.contains(p)
                || exists|x: int| 0 <= x < active_set(ocel, q.pattern, ev, ob, out).len()
                    && #[trigger] contributes(ocel, q, ev, ob, active_set(ocel, q.pattern, ev, ob, out)[x], target, p),
    ensures
        forall|p: (Seq<char>, QidView)| #[trigger] fin.contains(p)
            <==> start.contains(p)
                || exists|i: int| 0 <= i < out.len() && #[trigger] contributes(ocel, q, ev, ob, out[i], target, p),
{
    let act = active_set(ocel, q.pattern, ev, ob, out);
    lemma_active_members(ocel, q.pattern, ev, ob, out);
    assert forall|p: (Seq<char>, QidView)| #[trigger] fin.contains(p)
        <==> start.contains(p)
            || exists|i: int| 0 <= i < out.len() && #[trigger] contributes(ocel, q, ev, ob, out[i], target, p) by {
        if exists|x: int| 0 <= x < act.len() && #[trigger] contributes(ocel, q, ev, ob, act[x], target, p) {
            let x = choose|x: int| 0 <= x < act.len() && #[trigger] contributes(ocel, q, ev, ob, act[x], target, p);
            assert(out.contains(act[x]));
            let i = choose|i: int| 0 <= i < out.len() && out[i] == act[x];
            assert(contributes(ocel, q, ev, ob, out[i], target, p));
        }
        if exists|i: int| 0 <= i < out.len() && #[trigger] contributes(ocel, q, ev, ob, out[i], target, p) {
            let i = choose|i: int| 0 <= i < out.len() && #[trigger] contributes(ocel, q, ev, ob, out[i], target, p);
            assert(activates(ocel, q.pattern, ev, ob, out[i]));
            assert(act.contains(out[i]));
            let x = choose|x: int| 0 <= x < act.len() && act[x] == out[i];
            assert(contributes(ocel, q, ev, ob, act[x], target, p));
        }
    }
}

/// `Src_q(target)`: the union, over all matchings and all active bindings
/// whose protected variable is bound to `target`, of the pairs read from the
/// element bound to the source variable.
pub fn compute_source_set(
    qid: &QuasiIdentifier,
    target: EventOrObjectIndex,
    bbox: &BindingBox,
    out: &[Binding],
    ocel: &OcelData,
) -> (r: SourceSet)
    requires
        forall|i: int| 0 <= i < out@.len() ==> ocel.holds_binding(#[trigger] out@[i]),
    ensures
        no_dups(r.deep_view()),
        forall|p: (Seq<char>, QidView)| #[trigger] r.deep_view().contains(p)
            <==> in_source_set(*ocel, *qid, *bbox, out@, target, p),
{
    let mut src: SourceSet = Vec::new();
    let ms = find_matchings(&qid.pattern, bbox);
    let ghost pe = qid.pattern.event_vars.vars();
    let ghost po = qid.pattern.object_vars.vars();
    let mut m: usize = 0;
    while m < ms.len()
        invariant
            m <= ms@.len(),
            forall|i: int| 0 <= i < out@.len() ==> ocel.holds_binding(#[trigger] out@[i]),
            forall|i: int| 0 <= i < ms@.len() ==> is_matching(qid.pattern, *bbox, #[trigger] ms@[i]),
            no_dups(src.deep_view()),
            forall|p: (Seq<char>, QidView)| #[trigger] src.deep_view().contains(p)
                <==> exists|mi: int, i: int| 0 <= mi < m && 0 <= i < out@.len()
                    && #[trigger] contributes(*ocel, *qid, ms@[mi].ev_map@, ms@[mi].ob_map@, out@[i], target, p),
        decreases ms.len() - m,
    {
        let phi = &ms[m];
        proof { lemma_matching_renames(qid.pattern, *bbox, *phi); }
        let ghost before = src.deep_view();
        add_sources_for(qid, phi, target, out, ocel, &mut src);
        proof {
            assert forall|p: (Seq<char>, QidView)| #[trigger] src.deep_view().contains(p)
                <==> exists|mi: int, i: int| 0 <= mi < m + 1 && 0 <= i < out@.len()
                    && #[trigger] contributes(*ocel, *qid, ms@[mi].ev_map@, ms@[mi].ob_map@, out@[i], target, p) by {
                if exists|mi: int, i: int| 0 <= mi < m + 1 && 0 <= i < out@.len()
                    && #[trigger] contributes(*ocel, *qid, ms@[mi].ev_map@, ms@[mi].ob_map@, out@[i], target, p) {
                    let (mi, i) = choose|mi: int, i: int| 0 <= mi < m + 1 && 0 <= i < out@.len()
                        && #[trigger] contributes(*ocel, *qid, ms@[mi].ev_map@, ms@[mi].ob_map@, out@[i], target, p);
                    if mi < m {
                        assert(before.contains(p));
                    }
                }
                if before.contains(p) {
                    let (mi, i) = choose|mi: int, i: int| 0 <= mi < m && 0 <= i < out@.len()
                        && #[trigger] contributes(*ocel, *qid, ms@[mi].ev_map@, ms@[mi].ob_map@, out@[i], target, p);
                    assert(0 <= mi < m + 1);
                }
            }
        }
        m = m + 1;
    }
    proof {
        assert forall|p: (Seq<char>, QidView)| #[trigger] src.deep_view().contains(p)
            <==> in_source_set(*ocel, *qid, *bbox, out@, target, p) by {
            if src.deep_view().contains(p) {
                let (mi, i) = choose|mi: int, i: int| 0 <= mi < m && 0 <= i < out@.len()
                    && #[trigger] contributes(*ocel, *qid, ms@[mi].ev_map@, ms@[mi].ob_map@, out@[i], target, p);
                lemma_matching_renames(qid.pattern, *bbox, ms@[mi]);
                let ie = values_of(ms@[mi].ev_map@);
                let io = values_of(ms@[mi].ob_map@);
                assert(valid_images(qid.pattern, *bbox, ie, io));
                assert(contributes(*ocel, *qid, zip_vars(pe, ie), zip_vars(po, io), out@[i], target, p));
            }
            if in_source_set(*ocel, *qid, *bbox, out@, target, p) {
                let (ie, io, i) = choose|ie: Seq<EventVariable>, io: Seq<ObjectVariable>, i: int|
                    valid_images(qid.pattern, *bbox, ie, io) && 0 <= i < out@.len() && #[trigger] contributes(
                        *ocel, *qid, zip_vars(pe, ie), zip_vars(po, io), out@[i], target, p);
                let mi = choose|mi: int| 0 <= mi < ms@.len()
                    && values_of(#[trigger] ms@[mi].ev_map@) == ie
                    && values_of(ms@[mi].ob_map@) == io;
                lemma_matching_renames(qid.pattern, *bbox, ms@[mi]);
                assert(contributes(*ocel, *qid, ms@[mi].ev_map@, ms@[mi].ob_map@, out@[i], target, p));
            }
        }
    }
    src
}

} // verus!

verus! {

/// The source set kept for element `x` by an index over events and objects.
pub open spec fn slot(
    evs: Seq<Seq<(Seq<char>, QidView)>>,
    obs: Seq<Seq<(Seq<char>, QidView)>>,
    x: EventOrObjectIndex,
) -> Seq<(Seq<char>, QidView)> {
    match x {
        EventOrObjectIndex::Event(e) => evs[e as int],
        EventOrObjectIndex::Object(o) => obs[o as int],
    }
}

/// Source sets of every event and every object of the log, by index.
struct SourceIndex {
    events: Vec<SourceSet>,
    objects: Vec<SourceSet>,
}

impl SourceIndex {
    /// One duplicate-free source set per event and per object of `ocel`.
    spec fn fits(&self, ocel: OcelData) -> bool {
        &&& self.events@.len() == ocel.events@.len()
        &&& self.objects@.len() == ocel.objects@.len()
        &&& forall|x: EventOrObjectIndex| ocel.holds_element(x)
            ==> no_dups(#[trigger] slot(self.events.deep_view(), self.objects.deep_view(), x))
    }

    spec fn at(&self, x: EventOrObjectIndex) -> Seq<(Seq<char>, QidView)> {
        slot(self.events.deep_view(), self.objects.deep_view(), x)
    }

    fn empty_for(ocel: &OcelData) -> (r: SourceIndex)
        ensures
            r.fits(*ocel),
            forall|x: EventOrObjectIndex| ocel.holds_element(x) ==> #[trigger] r.at(x).len() == 0,
    {
        let mut events: Vec<SourceSet> = Vec::new();
        let mut i: usize = 0;
        while i < ocel.events.len()
            invariant
                i <= ocel.events@.len(),
                events@.len() == i,
                forall|k: int| 0 <= k < i ==> #[trigger] events@[k]@.len() == 0,
            decreases ocel.events.len() - i,
        {
            events.push(Vec::new());
            i = i + 1;
        }
        let mut objects: Vec<SourceSet> = Vec::new();
        let mut j: usize = 0;
        while j < ocel.objects.len()
            invariant
                j <= ocel.objects@.len(),
                objects@.len() == j,
                forall|k: int| 0 <= k < j ==> #[trigger] objects@[k]@.len() == 0,
            decreases ocel.objects.len() - j,
        {
            objects.push(Vec::new());
            j = j + 1;
        }
        let r = SourceIndex { events, objects };
        assert forall|x: EventOrObjectIndex| ocel.holds_element(x) implies #[trigger] r.at(x).len() == 0 by {
            match x {
                EventOrObjectIndex::Event(e) => assert(r.events@[e as int]@.len() == 0),
                EventOrObjectIndex::Object(o) => assert(r.objects@[o as int]@.len() == 0),
            }
        }
        r
    }
}

/// Adds, to the source set of the element an active binding binds the
/// protected variable to, the pair it contributes.
fn index_binding(
    qid: &QuasiIdentifier,
    phi: &Matching,
    binding: &Binding,
    ocel: &OcelData,
    idx: &mut SourceIndex,
)
    requires
        ocel.holds_binding(*binding),
        activates(*ocel, qid.pattern, phi.ev_map@, phi.ob_map@, *binding),
        old(idx).fits(*ocel),
    ensures
        final(idx).fits(*ocel),
        forall|x: EventOrObjectIndex, p: (Seq<char>, QidView)| ocel.holds_element(x) ==>
            (#[trigger] final(idx).at(x).contains(p) <==> old(idx).at(x).contains(p)
                || contributes(*ocel, *qid, phi.ev_map@, phi.ob_map@, *binding, x, p)),
{
    proof { lemma_indices_in_log(*ocel, *qid, phi.ev_map@, phi.ob_map@, *binding); }
    let prot = protected_index_in_binding(qid, phi, binding);
    let src_opt = source_index_in_binding(qid, phi, binding);
    match (prot, src_opt) {
        (Some(pr), Some(src_idx)) => {
            let src_id = element_id(src_idx, ocel);
            let val = read_qid_value(src_idx, &qid.attribute, ocel);
            let ghost pair = (src_id@, val.deep_view());
            let ghost before_ev = idx.events.deep_view();
            let ghost before_ob = idx.objects.deep_view();
            match pr {
                EventOrObjectIndex::Event(e) => {
                    assert(no_dups(slot(before_ev, before_ob, pr)));
                    insert_pair(&mut idx.events[e], src_id, val);
                    proof {
                        assert forall|k: int| 0 <= k < before_ev.len() && k != e implies #[trigger] idx.events.deep_view()[k] == before_ev[k] by {}
                        assert(idx.objects.deep_view() == before_ob);
                    }
                },
                EventOrObjectIndex::Object(o) => {
                    assert(no_dups(slot(before_ev, before_ob, pr)));
                    insert_pair(&mut idx.objects[o], src_id, val);
                    proof {
                        assert forall|k: int| 0 <= k < before_ob.len() && k != o implies #[trigger] idx.objects.deep_view()[k] == before_ob[k] by {}
                        assert(idx.events.deep_view() == before_ev);
                    }
                },
            }
            proof {
                assert forall|x: EventOrObjectIndex| ocel.holds_element(x)
                    implies no_dups(#[trigger] slot(idx.events.deep_view(), idx.objects.deep_view(), x)) by {
                    if x != pr {
                        assert(slot(idx.events.deep_view(), idx.objects.deep_view(), x) == slot(before_ev, before_ob, x));
                    }
                }
                assert forall|x: EventOrObjectIndex, p: (Seq<char>, QidView)| ocel.holds_element(x) implies
                    (#[trigger] idx.at(x).contains(p) <==> slot(before_ev, before_ob, x).contains(p)
                        || contributes(*ocel, *qid, phi.ev_map@, phi.ob_map@, *binding, x, p)) by {
                    if x != pr {
                        assert(slot(idx.events.deep_view(), idx.objects.deep_view(), x) == slot(before_ev, before_ob, x));
                    }
                }
            }
        },
        _ => {},
    }
}

/// Processes the active bindings of one matching into the index.
fn index_sources_for(
    qid: &QuasiIdentifier,
    phi: &Matching,
    out: &[Binding],
    ocel: &OcelData,
    idx: &mut SourceIndex,
)
    requires
        renames_all(qid.pattern, phi.ev_map@, phi.ob_map@),
        forall|i: int| 0 <= i < out@.len() ==> ocel.holds_binding(#[trigger] out@[i]),
        old(idx).fits(*ocel),
    ensures
        final(idx).fits(*ocel),
        forall|x: EventOrObjectIndex, p: (Seq<char>, QidView)| ocel.holds_element(x) ==>
            (#[trigger] final(idx).at(x).contains(p) <==> old(idx).at(x).contains(p)
                || exists|i: int| 0 <= i < out@.len()
                    && #[trigger] contributes(*ocel, *qid, phi.ev_map@, phi.ob_map@, out@[i], x, p)),
{
    let active = active_binding_set(qid, phi, out, ocel);
    let ghost act = active_set(*ocel, qid.pattern, phi.ev_map@, phi.ob_map@, out@);
    let ghost start_ev = idx.events.deep_view();
    let ghost start_ob = idx.objects.deep_view();
    proof {
        lemma_active_members(*ocel, qid.pattern, phi.ev_map@, phi.ob_map@, out@);
        assert forall|x: int| 0 <= x < act.len() implies ocel.holds_binding(#[trigger] act[x]) by {
            let i = choose|i: int| 0 <= i < out@.len() && out@[i] == act[x];
            assert(ocel.holds_binding(out@[i]));
        }
    }
    let mut a: usize = 0;
    while a < active.len()
        invariant
            a <= active@.len(),
            act == active@.map_values(|x: &Binding| *x),
            forall|x: int| 0 <= x < act.len() ==> ocel.holds_binding(#[trigger] act[x]),
            forall|x: int| 0 <= x < act.len() ==> activates(*ocel, qid.pattern, phi.ev_map@, phi.ob_map@, #[trigger] act[x]),
            idx.fits(*ocel),
            forall|x: EventOrObjectIndex, p: (Seq<char>, QidView)| ocel.holds_element(x) ==>
                (#[trigger] idx.at(x).contains(p) <==> slot(start_ev, start_ob, x).contains(p)
                    || exists|y: int| 0 <= y < a
                        && #[trigger] contributes(*ocel, *qid, phi.ev_map@, phi.ob_map@, act[y], x, p)),
        decreases active.len() - a,
    {
        let binding = active[a];
        proof {
            assert(*binding == act[a as int]);
        }
        let ghost before_idx: SourceIndex = *idx;
        index_binding(qid, phi, binding, ocel, idx);
        proof {
            assert forall|x: EventOrObjectIndex, p: (Seq<char>, QidView)| ocel.holds_element(x) implies
                (#[trigger] idx.at(x).contains(p) <==> slot(start_ev, start_ob, x).contains(p)
                    || exists|y: int| 0 <= y < a + 1
                        && #[trigger] contributes(*ocel, *qid, phi.ev_map@, phi.ob_map@, act[y], x, p)) by {
                assert(before_idx.at(x).contains(p) <==> slot(start_ev, start_ob, x).contains(p)
                    || exists|y: int| 0 <= y < a
                        && #[trigger] contributes(*ocel, *qid, phi.ev_map@, phi.ob_map@, act[y], x, p));
                if exists|y: int| 0 <= y < a + 1
                    && #[trigger] contributes(*ocel, *qid, phi.ev_map@, phi.ob_map@, act[y], x, p) {
                    let y = choose|y: int| 0 <= y < a + 1
                        && #[trigger] contributes(*ocel, *qid, phi.ev_map@, phi.ob_map@, act[y], x, p);
                    if y < a {
                        assert(before_idx.at(x).contains(p));
                    }
                }
            }
        }
        a = a + 1;
    }
    proof {
        assert forall|x: EventOrObjectIndex, p: (Seq<char>, QidView)| ocel.holds_element(x) implies
            (#[trigger] idx.at(x).contains(p) <==> slot(start_ev, start_ob, x).contains(p)
                || exists|i: int| 0 <= i < out@.len()
                    && #[trigger] contributes(*ocel, *qid, phi.ev_map@, phi.ob_map@, out@[i], x, p)) by {
            assert forall|p2: (Seq<char>, QidView)| #[trigger] idx.at(x).contains(p2)
                <==> slot(start_ev, start_ob, x).contains(p2)
                    || exists|y: int| 0 <= y < act.len()
                        && #[trigger] contributes(*ocel, *qid, phi.ev_map@, phi.ob_map@, act[y], x, p2) by {
                assert(idx.at(x).contains(p2) == idx.at(x).contains(p2));
            }
            lemma_sources_over_active(*ocel, *qid, phi.ev_map@, phi.ob_map@, out@, x,
                slot(start_ev, start_ob, x), idx.at(x));
        }
    }
}

/// The source sets of all events and objects for one quasi-identifier,
/// built in one pass over the bindings of each matching.
fn build_source_index(
    qid: &QuasiIdentifier,
    bbox: &BindingBox,
    out: &[Binding],
    ocel: &OcelData,
) -> (r: SourceIndex)
    requires
        forall|i: int| 0 <= i < out@.len() ==> ocel.holds_binding(#[trigger] out@[i]),
    ensures
        r.fits(*ocel),
        forall|x: EventOrObjectIndex, p: (Seq<char>, QidView)| ocel.holds_element(x) ==>
            (#[trigger] r.at(x).contains(p) <==> in_source_set(*ocel, *qid, *bbox, out@, x, p)),
{
    let mut idx = SourceIndex::empty_for(ocel);
    let ms = find_matchings(&qid.pattern, bbox);
    let ghost pe = qid.pattern.event_vars.vars();
    let ghost po = qid.pattern.object_vars.vars();
    let mut m: usize = 0;
    while m < ms.len()
        invariant
            m <= ms@.len(),
            forall|i: int| 0 <= i < out@.len() ==> ocel.holds_binding(#[trigger] out@[i]),
            forall|i: int| 0 <= i < ms@.len() ==> is_matching(qid.pattern, *bbox, #[trigger] ms@[i]),
            idx.fits(*ocel),
            forall|x: EventOrObjectIndex, p: (Seq<char>, QidView)| ocel.holds_element(x) ==>
                (#[trigger] idx.at(x).contains(p) <==> exists|mi: int, i: int| 0 <= mi < m && 0 <= i < out@.len()
                    && #[trigger] contributes(*ocel, *qid, ms@[mi].ev_map@, ms@[mi].ob_map@, out@[i], x, p)),
        decreases ms.len() - m,
    {
        let phi = &ms[m];
        proof { lemma_matching_renames(qid.pattern, *bbox, *phi); }
        let ghost before_idx: SourceIndex = idx;
        index_sources_for(qid, phi, out, ocel, &mut idx);
        proof {
            assert forall|x: EventOrObjectIndex, p: (Seq<char>, QidView)| ocel.holds_element(x) implies
                (#[trigger] idx.at(x).contains(p) <==> exists|mi: int, i: int| 0 <= mi < m + 1 && 0 <= i < out@.len()
                    && #[trigger] contributes(*ocel, *qid, ms@[mi].ev_map@, ms@[mi].ob_map@, out@[i], x, p)) by {
                let before = before_idx.at(x);
                if exists|mi: int, i: int| 0 <= mi < m + 1 && 0 <= i < out@.len()
                    && #[trigger] contributes(*ocel, *qid, ms@[mi].ev_map@, ms@[mi].ob_map@, out@[i], x, p) {
                    let (mi, i) = choose|mi: int, i: int| 0 <= mi < m + 1 && 0 <= i < out@.len()
                        && #[trigger] contributes(*ocel, *qid, ms@[mi].ev_map@, ms@[mi].ob_map@, out@[i], x, p);
                    if mi < m {
                        assert(before.contains(p));
                    }
                }
                if before.contains(p) {
                    let (mi, i) = choose|mi: int, i: int| 0 <= mi < m && 0 <= i < out@.len()
                        && #[trigger] contributes(*ocel, *qid, ms@[mi].ev_map@, ms@[mi].ob_map@, out@[i], x, p);
                    assert(0 <= mi < m + 1);
                }
            }
        }
        m = m + 1;
    }
    proof {
        assert forall|x: EventOrObjectIndex, p: (Seq<char>, QidView)| ocel.holds_element(x) implies
            (#[trigger] idx.at(x).contains(p) <==> in_source_set(*ocel, *qid, *bbox, out@, x, p)) by {
            if idx.at(x).contains(p) {
                let (mi, i) = choose|mi: int, i: int| 0 <= mi < m && 0 <= i < out@.len()
                    && #[trigger] contributes(*ocel, *qid, ms@[mi].ev_map@, ms@[mi].ob_map@, out@[i], x, p);
                lemma_matching_renames(qid.pattern, *bbox, ms@[mi]);
                let ie = values_of(ms@[mi].ev_map@);
                let io = values_of(ms@[mi].ob_map@);
                assert(valid_images(qid.pattern, *bbox, ie, io));
                assert(contributes(*ocel, *qid, zip_vars(pe, ie), zip_vars(po, io), out@[i], x, p));
            }
            if in_source_set(*ocel, *qid, *bbox, out@, x, p) {
                let (ie, io, i) = choose|ie: Seq<EventVariable>, io: Seq<ObjectVariable>, i: int|
                    valid_images(qid.pattern, *bbox, ie, io) && 0 <= i < out@.len() && #[trigger] contributes(
                        *ocel, *qid, zip_vars(pe, ie), zip_vars(po, io), out@[i], x, p);
                let mi = choose|mi: int| 0 <= mi < ms@.len()
                    && values_of(#[trigger] ms@[mi].ev_map@) == ie
                    && values_of(ms@[mi].ob_map@) == io;
                lemma_matching_renames(qid.pattern, *bbox, ms@[mi]);
                assert(contributes(*ocel, *qid, ms@[mi].ev_map@, ms@[mi].ob_map@, out@[i], x, p));
            }
        }
    }
    idx
}

/// The objects of type `t` among the first `n` objects, in index order.
pub open spec fn objects_of_type(ocel: OcelData, t: Seq<char>, n: int) -> Seq<EventOrObjectIndex>
    decreases n,
{
    if n <= 0 {
        Seq::empty()
    } else {
        let r = objects_of_type(ocel, t, n - 1);
        if ocel.objects@[n - 1].object_type@ == t {
            r.push(EventOrObjectIndex::Object((n - 1) as usize))
        } else {
            r
        }
    }
}

/// The events of type `t` among the first `n` events, in index order.
pub open spec fn events_of_type(ocel: OcelData, t: Seq<char>, n: int) -> Seq<EventOrObjectIndex>
    decreases n,
{
    if n <= 0 {
        Seq::empty()
    } else {
        let r = events_of_type(ocel, t, n - 1);
        if ocel.events@[n - 1].event_type@ == t {
            r.push(EventOrObjectIndex::Event((n - 1) as usize))
        } else {
            r
        }
    }
}

/// For each type in turn: its objects, then its events.
pub open spec fn elements_of_types(ocel: OcelData, types: Seq<Seq<char>>) -> Seq<EventOrObjectIndex>
    decreases types.len(),
{
    if types.len() == 0 {
        Seq::empty()
    } else {
        elements_of_types(ocel, types.drop_last())
            + objects_of_type(ocel, types.last(), ocel.objects@.len() as int)
            + events_of_type(ocel, types.last(), ocel.events@.len() as int)
    }
}

/// The protected types of a policy: those of its first quasi-identifier,
/// each once.
pub open spec fn protected_types(policy: AnonPolicy) -> Seq<Seq<char>> {
    if policy.qids@.len() == 0 {
        Seq::empty()
    } else {
        dedup(prot_types(policy.qids@[0]))
    }
}

/// The elements of the given types, objects then events for each type.
fn elements_of(ocel: &OcelData, types: &Vec<String>) -> (r: Vec<EventOrObjectIndex>)
    ensures
        r@ == elements_of_types(*ocel, types.deep_view()),
        forall|k: int| 0 <= k < r@.len() ==> ocel.holds_element(#[trigger] r@[k]),
{
    let ghost tv = types.deep_view();
    let mut r: Vec<EventOrObjectIndex> = Vec::new();
    let mut t: usize = 0;
    while t < types.len()
        invariant
            t <= types.len(),
            tv == types.deep_view(),
            r@ == elements_of_types(*ocel, tv.take(t as int)),
            forall|k: int| 0 <= k < r@.len() ==> ocel.holds_element(#[trigger] r@[k]),
        decreases types.len() - t,
    {
        let ty = &types[t];
        let ghost base = r@;
        let mut o: usize = 0;
        while o < ocel.objects.len()
            invariant
                o <= ocel.objects@.len(),
                r@ == base + objects_of_type(*ocel, ty@, o as int),
                forall|k: int| 0 <= k < r@.len() ==> ocel.holds_element(#[trigger] r@[k]),
            decreases ocel.objects.len() - o,
        {
            if ocel.objects[o].object_type == *ty {
                r.push(EventOrObjectIndex::Object(o));
            }
            o = o + 1;
        }
        let ghost mid = r@;
        let mut e: usize = 0;
        while e < ocel.events.len()
            invariant
                e <= ocel.events@.len(),
                r@ == mid + events_of_type(*ocel, ty@, e as int),
                forall|k: int| 0 <= k < r@.len() ==> ocel.holds_element(#[trigger] r@[k]),
            decreases ocel.events.len() - e,
        {
            if ocel.events[e].event_type == *ty {
                r.push(EventOrObjectIndex::Event(e));
            }
            e = e + 1;
        }
        proof {
            assert(tv.take(t + 1).drop_last() =~= tv.take(t as int));
            assert(tv.take(t + 1).last() == ty@);
        }
        t = t + 1;
    }
    assert(tv.take(t as int) =~= tv);
    r
}

/// Order of marginal fingerprints: lexicographic over `(value, count)` entries.
pub open spec fn marginal_order() -> spec_fn(Seq<(QidView, usize)>, Seq<(QidView, usize)>) -> bool {
    |a: Seq<(QidView, usize)>, b: Seq<(QidView, usize)>| lex_lt(a, b, entry_order())
}

/// Order of fingerprints: lexicographic over marginal fingerprints.
pub open spec fn fingerprint_order() -> spec_fn(Seq<Seq<(QidView, usize)>>, Seq<Seq<(QidView, usize)>>) -> bool {
    |a: Seq<Seq<(QidView, usize)>>, b: Seq<Seq<(QidView, usize)>>| lex_lt(a, b, marginal_order())
}

pub proof fn lemma_fingerprint_strict_total()
    ensures
        strict_total(entry_order()),
        strict_total(marginal_order()),
        strict_total(fingerprint_order()),
{
    lemma_entry_strict_total();
    lemma_lex_strict_total(entry_order());
    assert(marginal_order() =~= (|a: Seq<(QidView, usize)>, b: Seq<(QidView, usize)>| lex_lt(a, b, entry_order())));
    lemma_lex_strict_total(marginal_order());
    assert(fingerprint_order() =~= (|a: Seq<Seq<(QidView, usize)>>, b: Seq<Seq<(QidView, usize)>>| lex_lt(a, b, marginal_order())));
}

/// Compares two `(value, count)` entries: by value, then by count.
fn compare_entries(a: &(QidValue, usize), b: &(QidValue, usize)) -> (r: Rel)
    ensures
        r == rel_of(a.deep_view(), b.deep_view(), entry_order()),
{
    proof { lemma_entry_strict_total(); lemma_value_lt_total(); }
    match a.0.compare(&b.0) {
        Rel::Less => Rel::Less,
        Rel::Greater => Rel::Greater,
        Rel::Same => {
            if a.1 < b.1 {
                Rel::Less
            } else if a.1 == b.1 {
                Rel::Same
            } else {
                Rel::Greater
            }
        },
    }
}

/// Compares two marginal fingerprints lexicographically.
fn compare_marginals(a: &MarginalFingerprint, b: &MarginalFingerprint) -> (r: Rel)
    ensures
        r == rel_of(a.deep_view(), b.deep_view(), marginal_order()),
{
    proof { lemma_fingerprint_strict_total(); }
    let ghost av = a.deep_view();
    let ghost bv = b.deep_view();
    let mut i: usize = 0;
    while i < a.len() && i < b.len()
        invariant
            av == a.deep_view(),
            bv == b.deep_view(),
            i <= a.len(),
            i <= b.len(),
            av.take(i as int) == bv.take(i as int),
            strict_total(entry_order()),
        decreases a.len() - i,
    {
        match compare_entries(&a[i], &b[i]) {
            Rel::Less => {
                proof { lemma_lex_at(av, bv, i as int, entry_order()); }
                return Rel::Less;
            },
            Rel::Greater => {
                proof { lemma_lex_at(bv, av, i as int, entry_order()); }
                return Rel::Greater;
            },
            Rel::Same => {},
        }
        proof { lemma_take_step(av, bv, i as int); }
        i = i + 1;
    }
    proof { lemma_lex_prefix(av, bv, i as int, entry_order()); }
    if a.len() < b.len() {
        Rel::Less
    } else if a.len() > b.len() {
        Rel::Greater
    } else {
        proof { lemma_lex_irreflexive(av, entry_order()); }
        Rel::Same
    }
}

/// Compares two fingerprints lexicographically.
fn compare_fingerprints(a: &Fingerprint, b: &Fingerprint) -> (r: Rel)
    ensures
        r == rel_of(a.deep_view(), b.deep_view(), fingerprint_order()),
{
    proof { lemma_fingerprint_strict_total(); }
    let ghost av = a.deep_view();
    let ghost bv = b.deep_view();
    let mut i: usize = 0;
    while i < a.len() && i < b.len()
        invariant
            av == a.deep_view(),
            bv == b.deep_view(),
            i <= a.len(),
            i <= b.len(),
            av.take(i as int) == bv.take(i as int),
            strict_total(marginal_order()),
        decreases a.len() - i,
    {
        match compare_marginals(&a[i], &b[i]) {
            Rel::Less => {
                proof { lemma_lex_at(av, bv, i as int, marginal_order()); }
                return Rel::Less;
            },
            Rel::Greater => {
                proof { lemma_lex_at(bv, av, i as int, marginal_order()); }
                return Rel::Greater;
            },
            Rel::Same => {},
        }
        proof { lemma_take_step(av, bv, i as int); }
        i = i + 1;
    }
    proof { lemma_lex_prefix(av, bv, i as int, marginal_order()); }
    if a.len() < b.len() {
        Rel::Less
    } else if a.len() > b.len() {
        Rel::Greater
    } else {
        proof { lemma_lex_irreflexive(av, marginal_order()); }
        Rel::Same
    }
}

/// `fp_q(x)` as a count: the number of distinct pairs of `Src_q(x)` that
/// carry value `v`.
pub open spec fn source_count(
    ocel: OcelData,
    q: QuasiIdentifier,
    bbox: BindingBox,
    out: Seq<Binding>,
    x: EventOrObjectIndex,
) -> spec_fn(QidView) -> nat {
    |v: QidView| source_pairs_with(ocel, q, bbox, out, x, v).len()
}

/// The pairs of `Src_q(x)` that carry value `v`.
pub open spec fn source_pairs_with(
    ocel: OcelData,
    q: QuasiIdentifier,
    bbox: BindingBox,
    out: Seq<Binding>,
    x: EventOrObjectIndex,
    v: QidView,
) -> Set<(Seq<char>, QidView)> {
    Set::new(|p: (Seq<char>, QidView)| in_source_set(ocel, q, bbox, out, x, p) && p.1 == v)
}

/// `f` is the fingerprint `fp(x)`: one marginal fingerprint per
/// quasi-identifier of the policy, in policy order.
pub open spec fn is_fingerprint(
    f: Seq<Seq<(QidView, usize)>>,
    policy: AnonPolicy,
    bbox: BindingBox,
    out: Seq<Binding>,
    ocel: OcelData,
    x: EventOrObjectIndex,
) -> bool {
    &&& f.len() == policy.qids@.len()
    &&& forall|j: int| 0 <= j < f.len() ==> is_marginal(#[trigger] f[j], source_count(ocel, policy.qids@[j], bbox, out, x))
}

/// The elements whose fingerprint is `f`, as a predicate.
pub open spec fn has_fingerprint(
    f: Seq<Seq<(QidView, usize)>>,
    policy: AnonPolicy,
    bbox: BindingBox,
    out: Seq<Binding>,
    ocel: OcelData,
) -> spec_fn(EventOrObjectIndex) -> bool {
    |x: EventOrObjectIndex| is_fingerprint(f, policy, bbox, out, ocel, x)
}

/// The type-qualified identifiers of a sequence of elements.
pub open spec fn names(ocel: OcelData, s: Seq<EventOrObjectIndex>) -> Seq<Seq<char>> {
    s.map_values(|x: EventOrObjectIndex| element_name(ocel, x))
}

/// The pairs that carry value `v`, as a predicate.
pub open spec fn carries(v: QidView) -> spec_fn((Seq<char>, QidView)) -> bool {
    |p: (Seq<char>, QidView)| p.1 == v
}

/// In a duplicate-free sequence, the number of pairs with value `v` is the
/// size of the set of such pairs.
proof fn lemma_occurrences_set(s: Seq<(Seq<char>, QidView)>, v: QidView)
    requires
        no_dups(s),
    ensures
        s.to_set().filter(carries(v)).finite(),
        occurrences(s, v) == s.to_set().filter(carries(v)).len(),
    decreases s.len(),
{
    broadcast use vstd::set::group_set_axioms, vstd::seq_lib::group_seq_properties;
    let f = carries(v);
    if s.len() == 0 {
        assert(s.to_set().filter(f) =~= Set::empty());
    } else {
        let d = s.drop_last();
        let l = s.last();
        assert(no_dups(d));
        lemma_occurrences_set(d, v);
        assert(s =~= d.push(l));
        assert(s.to_set() =~= d.to_set().insert(l));
        assert(!d.contains(l)) by {
            if d.contains(l) {
                let k = choose|k: int| 0 <= k < d.len() && d[k] == l;
                assert(s[k] == s[s.len() - 1]);
            }
        }
        if l.1 == v {
            assert(s.to_set().filter(f) =~= d.to_set().filter(f).insert(l));
        } else {
            assert(s.to_set().filter(f) =~= d.to_set().filter(f));
        }
    }
}

/// The counts of a duplicate-free sequence whose members are exactly the
/// pairs of `Src_q(x)` are the counts of `fp_q(x)`.
pub(crate) proof fn lemma_counts_of_source(
    s: Seq<(Seq<char>, QidView)>,
    ocel: OcelData,
    q: QuasiIdentifier,
    bbox: BindingBox,
    out: Seq<Binding>,
    x: EventOrObjectIndex,
)
    requires
        no_dups(s),
        forall|p: (Seq<char>, QidView)| #[trigger] s.contains(p) <==> in_source_set(ocel, q, bbox, out, x, p),
    ensures
        occurrence_count(s) == source_count(ocel, q, bbox, out, x),
{
    assert forall|v: QidView| #[trigger] occurrence_count(s)(v) == source_count(ocel, q, bbox, out, x)(v) by {
        lemma_occurrences_set(s, v);
        let f = carries(v);
        assert(s.to_set().filter(f) =~= source_pairs_with(ocel, q, bbox, out, x, v));
    }
    assert(occurrence_count(s) =~= source_count(ocel, q, bbox, out, x));
}

/// A marginal fingerprint is determined by its counts.
pub proof fn lemma_marginal_unique(m1: Seq<(QidView, usize)>, m2: Seq<(QidView, usize)>, count: spec_fn(QidView) -> nat)
    requires
        is_marginal(m1, count),
        is_marginal(m2, count),
    ensures
        m1 == m2,
    decreases m1.len(),
{
    lemma_value_lt_total();
    if m1.len() == 0 {
        if m2.len() > 0 {
            assert(m2[0].1 > 0);
            assert(count(m2[0].0) > 0);
        }
        assert(m1 =~= m2);
    } else {
        assert(m1[0].1 > 0);
        assert(count(m1[0].0) > 0);
        let h = m1[0].0;
        let k = choose|k: int| 0 <= k < m2.len() && m2[k].0 == h;
        if k > 0 {
            let h2 = m2[0].0;
            assert(value_lt(h2, h));
            assert(m2[0].1 > 0);
            assert(count(h2) > 0);
            let k2 = choose|k2: int| 0 <= k2 < m1.len() && m1[k2].0 == h2;
            if k2 > 0 {
                assert(value_lt(h, h2));
            }
        }
        assert(m2[0].0 == h);
        let rest = |v: QidView| if v == h { 0nat } else { count(v) };
        let t1 = m1.drop_first();
        let t2 = m2.drop_first();
        assert forall|i: int| 0 <= i < t1.len() implies #[trigger] t1[i].1 == rest(t1[i].0) && t1[i].1 > 0 by {
            assert(t1[i] == m1[i + 1]);
            assert(value_lt(m1[0].0, m1[i + 1].0));
        }
        assert forall|i: int| 0 <= i < t2.len() implies #[trigger] t2[i].1 == rest(t2[i].0) && t2[i].1 > 0 by {
            assert(t2[i] == m2[i + 1]);
            assert(value_lt(m2[0].0, m2[i + 1].0));
        }
        assert forall|i: int, j: int| 0 <= i < j < t1.len() implies value_lt(#[trigger] t1[i].0, #[trigger] t1[j].0) by {
            assert(t1[i] == m1[i + 1] && t1[j] == m1[j + 1]);
        }
        assert forall|i: int, j: int| 0 <= i < j < t2.len() implies value_lt(#[trigger] t2[i].0, #[trigger] t2[j].0) by {
            assert(t2[i] == m2[i + 1] && t2[j] == m2[j + 1]);
        }
        assert forall|v: QidView| #[trigger] rest(v) > 0 implies exists|i: int| 0 <= i < t1.len() && t1[i].0 == v by {
            assert(count(v) > 0);
            let i = choose|i: int| 0 <= i < m1.len() && m1[i].0 == v;
            assert(t1[i - 1] == m1[i]);
        }
        assert forall|v: QidView| #[trigger] rest(v) > 0 implies exists|i: int| 0 <= i < t2.len() && t2[i].0 == v by {
            assert(count(v) > 0);
            let i = choose|i: int| 0 <= i < m2.len() && m2[i].0 == v;
            assert(t2[i - 1] == m2[i]);
        }
        lemma_marginal_unique(t1, t2, rest);
        assert(m1 =~= seq![m1[0]] + t1);
        assert(m2 =~= seq![m2[0]] + t2);
        assert(m1[0] == m2[0]);
    }
}

/// An element has one fingerprint.
pub proof fn lemma_fingerprint_unique(
    f: Seq<Seq<(QidView, usize)>>,
    g: Seq<Seq<(QidView, usize)>>,
    policy: AnonPolicy,
    bbox: BindingBox,
    out: Seq<Binding>,
    ocel: OcelData,
    x: EventOrObjectIndex,
)
    requires
        is_fingerprint(f, policy, bbox, out, ocel, x),
        is_fingerprint(g, policy, bbox, out, ocel, x),
    ensures
        f == g,
{
    assert forall|j: int| 0 <= j < f.len() implies #[trigger] f[j] == g[j] by {
        lemma_marginal_unique(f[j], g[j], source_count(ocel, policy.qids@[j], bbox, out, x));
    }
    assert(f =~= g);
}

/// Total number of members over all classes.
pub open spec fn member_total<F, S>(cls: Seq<(F, Seq<S>)>) -> nat
    decreases cls.len(),
{
    if cls.len() == 0 {
        0
    } else {
        member_total(cls.drop_last()) + cls.last().1.len()
    }
}

pub proof fn lemma_member_total_prefix<F, S>(cls: Seq<(F, Seq<S>)>, k: int)
    requires
        0 <= k <= cls.len(),
    ensures
        member_total(cls.take(k)) <= member_total(cls),
        k < cls.len() ==> member_total(cls.take(k + 1)) == member_total(cls.take(k)) + cls[k].1.len(),
    decreases cls.len(),
{
    if k < cls.len() {
        assert(cls.take(k + 1).drop_last() =~= cls.take(k));
        let d = cls.drop_last();
        if k < d.len() {
            lemma_member_total_prefix(d, k);
            assert(cls.take(k) =~= d.take(k));
        } else {
            assert(cls.take(k) =~= d);
        }
    } else {
        assert(cls.take(k) =~= cls);
    }
}

proof fn lemma_member_total_update<F, S>(cls: Seq<(F, Seq<S>)>, k: int, e: (F, Seq<S>))
    requires
        0 <= k < cls.len(),
    ensures
        member_total(cls.update(k, e)) == member_total(cls) - cls[k].1.len() + e.1.len(),
    decreases cls.len(),
{
    let u = cls.update(k, e);
    if k == cls.len() - 1 {
        assert(u.drop_last() =~= cls.drop_last());
    } else {
        lemma_member_total_update(cls.drop_last(), k, e);
        assert(u.drop_last() =~= cls.drop_last().update(k, e));
    }
}

proof fn lemma_member_total_insert<F, S>(cls: Seq<(F, Seq<S>)>, k: int, e: (F, Seq<S>))
    requires
        0 <= k <= cls.len(),
    ensures
        member_total(cls.insert(k, e)) == member_total(cls) + e.1.len(),
    decreases cls.len(),
{
    let u = cls.insert(k, e);
    if k == cls.len() {
        assert(u.drop_last() =~= cls);
    } else {
        lemma_member_total_insert(cls.drop_last(), k, e);
        assert(u.drop_last() =~= cls.drop_last().insert(k, e));
    }
}

/// `cls` groups `elems` by fingerprint: keys strictly increasing, each
/// class lists (in the order of `elems`) the identifiers of the elements
/// with its key, no class is empty, and every element has its class.
pub open spec fn classes_of(
    cls: Seq<(Seq<Seq<(QidView, usize)>>, Seq<Seq<char>>)>,
    elems: Seq<EventOrObjectIndex>,
    policy: AnonPolicy,
    bbox: BindingBox,
    out: Seq<Binding>,
    ocel: OcelData,
) -> bool {
    &&& keys_increasing(cls)
    &&& members_match(cls, elems, policy, bbox, out, ocel)
    &&& all_covered(cls, elems, policy, bbox, out, ocel)
}

/// Nothing is kept when no element satisfies the predicate.
proof fn lemma_keep_none<A>(s: Seq<A>, pred: spec_fn(A) -> bool)
    requires
        forall|i: int| 0 <= i < s.len() ==> !pred(#[trigger] s[i]),
    ensures
        keep(s, pred) == Seq::<A>::empty(),
{
    lemma_keep_members(s, pred);
    if keep(s, pred).len() > 0 {
        let a = keep(s, pred)[0];
        assert(s.contains(a) && pred(a));
        let i = choose|i: int| 0 <= i < s.len() && s[i] == a;
        assert(!pred(s[i]));
    }
    assert(keep(s, pred) =~= Seq::<A>::empty());
}

/// Appending one element to the sequence appends it to what is kept, when
/// it satisfies the predicate.
proof fn lemma_keep_push<A>(s: Seq<A>, a: A, pred: spec_fn(A) -> bool)
    ensures
        keep(s.push(a), pred) == if pred(a) { keep(s, pred).push(a) } else { keep(s, pred) },
{
    assert(s.push(a).drop_last() =~= s);
}

/// The source set the index keeps for `x`.
fn source_at<'a>(idx: &'a SourceIndex, x: EventOrObjectIndex, ocel: &OcelData) -> (r: &'a SourceSet)
    requires
        idx.fits(*ocel),
        ocel.holds_element(x),
    ensures
        r.deep_view() == idx.at(x),
{
    match x {
        EventOrObjectIndex::Event(e) => &idx.events[e],
        EventOrObjectIndex::Object(o) => &idx.objects[o],
    }
}

/// `fp(x)` read from one source index per quasi-identifier.
fn fingerprint_at(
    indexes: &Vec<SourceIndex>,
    x: EventOrObjectIndex,
    policy: &AnonPolicy,
    bbox: &BindingBox,
    out: &[Binding],
    ocel: &OcelData,
) -> (r: Fingerprint)
    requires
        ocel.holds_element(x),
        indexes@.len() == policy.qids@.len(),
        forall|j: int| 0 <= j < indexes@.len() ==> (#[trigger] indexes@[j]).fits(*ocel),
        forall|j: int, y: EventOrObjectIndex, p: (Seq<char>, QidView)| 0 <= j < indexes@.len() && ocel.holds_element(y)
            ==> (#[trigger] indexes@[j].at(y).contains(p) <==> in_source_set(*ocel, policy.qids@[j], *bbox, out@, y, p)),
    ensures
        is_fingerprint(r.deep_view(), *policy, *bbox, out@, *ocel, x),
{
    let mut r: Fingerprint = Vec::new();
    let mut j: usize = 0;
    while j < indexes.len()
        invariant
            j <= indexes@.len(),
            ocel.holds_element(x),
            indexes@.len() == policy.qids@.len(),
            forall|k: int| 0 <= k < indexes@.len() ==> (#[trigger] indexes@[k]).fits(*ocel),
            forall|k: int, y: EventOrObjectIndex, p: (Seq<char>, QidView)| 0 <= k < indexes@.len() && ocel.holds_element(y)
                ==> (#[trigger] indexes@[k].at(y).contains(p) <==> in_source_set(*ocel, policy.qids@[k], *bbox, out@, y, p)),
            r.deep_view().len() == j,
            forall|k: int| 0 <= k < j ==> is_marginal(#[trigger] r.deep_view()[k], source_count(*ocel, policy.qids@[k], *bbox, out@, x)),
        decreases indexes.len() - j,
    {
        let src = source_at(&indexes[j], x, ocel);
        let m = source_set_to_marginal(src);
        proof {
            assert(indexes@[j as int].fits(*ocel));
            assert(no_dups(slot(indexes@[j as int].events.deep_view(), indexes@[j as int].objects.deep_view(), x)));
            assert forall|p: (Seq<char>, QidView)| #[trigger] src.deep_view().contains(p)
                <==> in_source_set(*ocel, policy.qids@[j as int], *bbox, out@, x, p) by {
                assert(indexes@[j as int].at(x).contains(p) <==> in_source_set(*ocel, policy.qids@[j as int], *bbox, out@, x, p));
            }
            lemma_counts_of_source(src.deep_view(), *ocel, policy.qids@[j as int], *bbox, out@, x);
        }
        let ghost before = r.deep_view();
        r.push(m);
        proof {
            assert(r.deep_view() =~= before.push(m.deep_view()));
        }
        j = j + 1;
    }
    r
}

/// The three parts of `classes_of`, for proofs that establish them apart.
pub open spec fn keys_increasing(cls: Seq<(Seq<Seq<(QidView, usize)>>, Seq<Seq<char>>)>) -> bool {
    forall|a: int, b: int| 0 <= a < b < cls.len() ==> fingerprint_order()(#[trigger] cls[a].0, #[trigger] cls[b].0)
}

pub open spec fn members_match(
    cls: Seq<(Seq<Seq<(QidView, usize)>>, Seq<Seq<char>>)>,
    elems: Seq<EventOrObjectIndex>,
    policy: AnonPolicy,
    bbox: BindingBox,
    out: Seq<Binding>,
    ocel: OcelData,
) -> bool {
    forall|a: int| 0 <= a < cls.len()
        ==> #[trigger] cls[a].1 == names(ocel, keep(elems, has_fingerprint(cls[a].0, policy, bbox, out, ocel)))
            && cls[a].1.len() > 0
}

pub open spec fn all_covered(
    cls: Seq<(Seq<Seq<(QidView, usize)>>, Seq<Seq<char>>)>,
    elems: Seq<EventOrObjectIndex>,
    policy: AnonPolicy,
    bbox: BindingBox,
    out: Seq<Binding>,
    ocel: OcelData,
) -> bool {
    forall|y: int| 0 <= y < elems.len() ==> #[trigger] has_class(cls, policy, bbox, out, ocel, elems[y])
}

/// Some class of `cls` has the fingerprint of `x` as its key.
pub open spec fn has_class(
    cls: Seq<(Seq<Seq<(QidView, usize)>>, Seq<Seq<char>>)>,
    policy: AnonPolicy,
    bbox: BindingBox,
    out: Seq<Binding>,
    ocel: OcelData,
    x: EventOrObjectIndex,
) -> bool {
    exists|a: int| 0 <= a < cls.len() && is_fingerprint(#[trigger] cls[a].0, policy, bbox, out, ocel, x)
}

/// Adding `x` to the class at `pos`, whose key is its fingerprint.
proof fn lemma_place_found(
    before: Seq<(Seq<Seq<(QidView, usize)>>, Seq<Seq<char>>)>,
    pos: int,
    name_v: Seq<char>,
    prefix: Seq<EventOrObjectIndex>,
    x: EventOrObjectIndex,
    policy: AnonPolicy,
    bbox: BindingBox,
    out: Seq<Binding>,
    ocel: OcelData,
)
    requires
        classes_of(before, prefix, policy, bbox, out, ocel),
        0 <= pos < before.len(),
        is_fingerprint(before[pos].0, policy, bbox, out, ocel, x),
        name_v == element_name(ocel, x),
    ensures
        classes_of(before.update(pos, (before[pos].0, before[pos].1.push(name_v))), prefix.push(x), policy, bbox, out, ocel),
{
    let now = before.update(pos, (before[pos].0, before[pos].1.push(name_v)));
    lemma_found_members(before, pos, name_v, prefix, x, policy, bbox, out, ocel);
    lemma_found_cover(before, pos, name_v, prefix, x, policy, bbox, out, ocel);
    lemma_fingerprint_strict_total();
    let lt = fingerprint_order();
    assert forall|a: int, b: int| 0 <= a < b < now.len() implies lt(#[trigger] now[a].0, #[trigger] now[b].0) by {
        assert(now[a].0 == before[a].0 && now[b].0 == before[b].0);
    }
}

proof fn lemma_found_members(
    before: Seq<(Seq<Seq<(QidView, usize)>>, Seq<Seq<char>>)>,
    pos: int,
    name_v: Seq<char>,
    prefix: Seq<EventOrObjectIndex>,
    x: EventOrObjectIndex,
    policy: AnonPolicy,
    bbox: BindingBox,
    out: Seq<Binding>,
    ocel: OcelData,
)
    requires
        classes_of(before, prefix, policy, bbox, out, ocel),
        0 <= pos < before.len(),
        is_fingerprint(before[pos].0, policy, bbox, out, ocel, x),
        name_v == element_name(ocel, x),
    ensures
        members_match(before.update(pos, (before[pos].0, before[pos].1.push(name_v))), prefix.push(x), policy, bbox, out, ocel),
{
    lemma_fingerprint_strict_total();
    let lt = fingerprint_order();
    let fv = before[pos].0;
    let now = before.update(pos, (before[pos].0, before[pos].1.push(name_v)));
    let elems = prefix.push(x);
    assert forall|a: int| 0 <= a < now.len() implies #[trigger] now[a].1
        == names(ocel, keep(elems, has_fingerprint(now[a].0, policy, bbox, out, ocel))) && now[a].1.len() > 0 by {
        let pred = has_fingerprint(now[a].0, policy, bbox, out, ocel);
        lemma_keep_push(prefix, x, pred);
        assert(before[a].1 == names(ocel, keep(prefix, has_fingerprint(before[a].0, policy, bbox, out, ocel))));
        if a == pos {
            assert(pred(x));
            assert(names(ocel, keep(prefix, pred).push(x)) =~= names(ocel, keep(prefix, pred)).push(name_v));
        } else {
            assert(now[a] == before[a]);
            assert(before[a].0 != fv) by {
                if a < pos {
                    assert(lt(before[a].0, before[pos].0));
                } else {
                    assert(lt(before[pos].0, before[a].0));
                }
            }
            if pred(x) {
                lemma_fingerprint_unique(now[a].0, fv, policy, bbox, out, ocel, x);
            }
        }
    }
}

proof fn lemma_found_cover(
    before: Seq<(Seq<Seq<(QidView, usize)>>, Seq<Seq<char>>)>,
    pos: int,
    name_v: Seq<char>,
    prefix: Seq<EventOrObjectIndex>,
    x: EventOrObjectIndex,
    policy: AnonPolicy,
    bbox: BindingBox,
    out: Seq<Binding>,
    ocel: OcelData,
)
    requires
        classes_of(before, prefix, policy, bbox, out, ocel),
        0 <= pos < before.len(),
        is_fingerprint(before[pos].0, policy, bbox, out, ocel, x),
    ensures
        all_covered(before.update(pos, (before[pos].0, before[pos].1.push(name_v))), prefix.push(x), policy, bbox, out, ocel),
{
    let fv = before[pos].0;
    let now = before.update(pos, (before[pos].0, before[pos].1.push(name_v)));
    let elems = prefix.push(x);
    assert forall|y: int| 0 <= y < elems.len() implies #[trigger] has_class(now, policy, bbox, out, ocel, elems[y]) by {
        if y < prefix.len() {
            assert(elems[y] == prefix[y]);
            assert(has_class(before, policy, bbox, out, ocel, prefix[y]));
            let a = choose|a: int| 0 <= a < before.len() && is_fingerprint(#[trigger] before[a].0, policy, bbox, out, ocel, prefix[y]);
            assert(now[a].0 == before[a].0);
            assert(is_fingerprint(now[a].0, policy, bbox, out, ocel, elems[y]));
        } else {
            assert(elems[y] == x);
            assert(now[pos].0 == fv);
            assert(is_fingerprint(now[pos].0, policy, bbox, out, ocel, elems[y]));
        }
    }
}

/// Adding `x` in a new class at `pos`, where its fingerprint belongs.
proof fn lemma_place_new(
    before: Seq<(Seq<Seq<(QidView, usize)>>, Seq<Seq<char>>)>,
    pos: int,
    fv: Seq<Seq<(QidView, usize)>>,
    name_v: Seq<char>,
    prefix: Seq<EventOrObjectIndex>,
    x: EventOrObjectIndex,
    policy: AnonPolicy,
    bbox: BindingBox,
    out: Seq<Binding>,
    ocel: OcelData,
)
    requires
        classes_of(before, prefix, policy, bbox, out, ocel),
        0 <= pos <= before.len(),
        forall|k: int| 0 <= k < pos ==> fingerprint_order()(#[trigger] before[k].0, fv),
        pos < before.len() ==> fingerprint_order()(fv, before[pos].0),
        is_fingerprint(fv, policy, bbox, out, ocel, x),
        name_v == element_name(ocel, x),
    ensures
        classes_of(before.insert(pos, (fv, seq![name_v])), prefix.push(x), policy, bbox, out, ocel),
{
    lemma_new_sorted(before, pos, fv, name_v);
    lemma_new_members(before, pos, fv, name_v, prefix, x, policy, bbox, out, ocel);
    lemma_new_cover(before, pos, fv, name_v, prefix, x, policy, bbox, out, ocel);
}

proof fn lemma_new_sorted(
    before: Seq<(Seq<Seq<(QidView, usize)>>, Seq<Seq<char>>)>,
    pos: int,
    fv: Seq<Seq<(QidView, usize)>>,
    name_v: Seq<char>,
)
    requires
        keys_increasing(before),
        0 <= pos <= before.len(),
        forall|k: int| 0 <= k < pos ==> fingerprint_order()(#[trigger] before[k].0, fv),
        pos < before.len() ==> fingerprint_order()(fv, before[pos].0),
    ensures
        keys_increasing(before.insert(pos, (fv, seq![name_v]))),
{
    lemma_fingerprint_strict_total();
    let lt = fingerprint_order();
    let now = before.insert(pos, (fv, seq![name_v]));
    assert forall|a: int, b: int| 0 <= a < b < now.len() implies lt(#[trigger] now[a].0, #[trigger] now[b].0) by {
        if b < pos {
            assert(now[a] == before[a] && now[b] == before[b]);
        } else if b == pos {
            assert(now[a] == before[a]);
        } else if a < pos {
            assert(now[a] == before[a] && now[b] == before[b - 1]);
            if b - 1 > pos {
                assert(lt(before[pos].0, before[b - 1].0));
            }
        } else if a == pos {
            assert(now[b] == before[b - 1]);
            if b - 1 > pos {
                assert(lt(before[pos].0, before[b - 1].0));
            }
        } else {
            assert(now[a] == before[a - 1] && now[b] == before[b - 1]);
        }
    }
}

proof fn lemma_new_members(
    before: Seq<(Seq<Seq<(QidView, usize)>>, Seq<Seq<char>>)>,
    pos: int,
    fv: Seq<Seq<(QidView, usize)>>,
    name_v: Seq<char>,
    prefix: Seq<EventOrObjectIndex>,
    x: EventOrObjectIndex,
    policy: AnonPolicy,
    bbox: BindingBox,
    out: Seq<Binding>,
    ocel: OcelData,
)
    requires
        classes_of(before, prefix, policy, bbox, out, ocel),
        0 <= pos <= before.len(),
        forall|k: int| 0 <= k < pos ==> fingerprint_order()(#[trigger] before[k].0, fv),
        pos < before.len() ==> fingerprint_order()(fv, before[pos].0),
        is_fingerprint(fv, policy, bbox, out, ocel, x),
        name_v == element_name(ocel, x),
    ensures
        members_match(before.insert(pos, (fv, seq![name_v])), prefix.push(x), policy, bbox, out, ocel),
{
    lemma_fingerprint_strict_total();
    let lt = fingerprint_order();
    let now = before.insert(pos, (fv, seq![name_v]));
    let elems = prefix.push(x);
    assert forall|a: int| 0 <= a < now.len() implies #[trigger] now[a].1
        == names(ocel, keep(elems, has_fingerprint(now[a].0, policy, bbox, out, ocel))) && now[a].1.len() > 0 by {
        let pred = has_fingerprint(now[a].0, policy, bbox, out, ocel);
        lemma_keep_push(prefix, x, pred);
        if a == pos {
            assert(now[a] == (fv, seq![name_v]));
            assert(pred(x));
            assert forall|y: int| 0 <= y < prefix.len() implies !pred(#[trigger] prefix[y]) by {
                if pred(prefix[y]) {
                    assert(has_class(before, policy, bbox, out, ocel, prefix[y]));
                    let c = choose|c: int| 0 <= c < before.len() && is_fingerprint(#[trigger] before[c].0, policy, bbox, out, ocel, prefix[y]);
                    lemma_fingerprint_unique(before[c].0, fv, policy, bbox, out, ocel, prefix[y]);
                    if c < pos {
                        assert(lt(before[c].0, fv));
                    } else if c > pos {
                        assert(lt(before[pos].0, before[c].0));
                        assert(lt(fv, before[c].0));
                    }
                }
            }
            lemma_keep_none(prefix, pred);
            assert(names(ocel, Seq::<EventOrObjectIndex>::empty().push(x)) =~= seq![name_v]);
        } else {
            let b = if a < pos { a } else { a - 1 };
            assert(now[a] == before[b]);
            assert(before[b].1 == names(ocel, keep(prefix, has_fingerprint(before[b].0, policy, bbox, out, ocel))));
            assert(before[b].0 != fv) by {
                if b < pos {
                    assert(lt(before[b].0, fv));
                } else {
                    if b > pos {
                        assert(lt(before[pos].0, before[b].0));
                    }
                }
            }
            if pred(x) {
                lemma_fingerprint_unique(now[a].0, fv, policy, bbox, out, ocel, x);
            }
        }
    }
}

proof fn lemma_new_cover(
    before: Seq<(Seq<Seq<(QidView, usize)>>, Seq<Seq<char>>)>,
    pos: int,
    fv: Seq<Seq<(QidView, usize)>>,
    name_v: Seq<char>,
    prefix: Seq<EventOrObjectIndex>,
    x: EventOrObjectIndex,
    policy: AnonPolicy,
    bbox: BindingBox,
    out: Seq<Binding>,
    ocel: OcelData,
)
    requires
        all_covered(before, prefix, policy, bbox, out, ocel),
        0 <= pos <= before.len(),
        is_fingerprint(fv, policy, bbox, out, ocel, x),
    ensures
        all_covered(before.insert(pos, (fv, seq![name_v])), prefix.push(x), policy, bbox, out, ocel),
{
    let now = before.insert(pos, (fv, seq![name_v]));
    let elems = prefix.push(x);
    assert forall|y: int| 0 <= y < elems.len() implies #[trigger] has_class(now, policy, bbox, out, ocel, elems[y]) by {
        if y < prefix.len() {
            assert(elems[y] == prefix[y]);
            assert(has_class(before, policy, bbox, out, ocel, prefix[y]));
            let c = choose|c: int| 0 <= c < before.len() && is_fingerprint(#[trigger] before[c].0, policy, bbox, out, ocel, prefix[y]);
            if c < pos {
                assert(now[c].0 == before[c].0);
                assert(is_fingerprint(now[c].0, policy, bbox, out, ocel, elems[y]));
            } else {
                assert(now[c + 1].0 == before[c].0);
                assert(is_fingerprint(now[c + 1].0, policy, bbox, out, ocel, elems[y]));
            }
        } else {
            assert(elems[y] == x);
            assert(now[pos].0 == fv);
            assert(is_fingerprint(now[pos].0, policy, bbox, out, ocel, elems[y]));
        }
    }
}

/// Adds element `x`, with fingerprint `fp` and identifier `name`, to the
/// classes of the elements before it.
fn place(
    classes: &mut Vec<(Fingerprint, Vec<String>)>,
    fp: Fingerprint,
    name: String,
    Ghost(prefix): Ghost<Seq<EventOrObjectIndex>>,
    Ghost(x): Ghost<EventOrObjectIndex>,
    Ghost(policy): Ghost<AnonPolicy>,
    Ghost(bbox): Ghost<BindingBox>,
    Ghost(out): Ghost<Seq<Binding>>,
    Ghost(ocel): Ghost<OcelData>,
)
    requires
        classes_of(old(classes).deep_view(), prefix, policy, bbox, out, ocel),
        is_fingerprint(fp.deep_view(), policy, bbox, out, ocel, x),
        name@ == element_name(ocel, x),
    ensures
        classes_of(final(classes).deep_view(), prefix.push(x), policy, bbox, out, ocel),
        member_total(final(classes).deep_view()) == member_total(old(classes).deep_view()) + 1,
{
    proof { lemma_fingerprint_strict_total(); }
    let ghost before = classes.deep_view();
    let ghost fv = fp.deep_view();
    let ghost lt = fingerprint_order();
    let ghost name_v = name@;
    let mut pos: usize = 0;
    while pos < classes.len() && compare_fingerprints(&classes[pos].0, &fp) == Rel::Less
        invariant
            pos <= classes@.len(),
            before == classes.deep_view(),
            fv == fp.deep_view(),
            lt == fingerprint_order(),
            forall|k: int| 0 <= k < pos ==> lt(#[trigger] before[k].0, fv),
        decreases classes.len() - pos,
    {
        pos = pos + 1;
    }
    let found = pos < classes.len() && compare_fingerprints(&classes[pos].0, &fp) == Rel::Same;
    if found {
        let (k, mut members) = classes.remove(pos);
        let ghost mid = classes.deep_view();
        proof {
            assert(mid =~= before.remove(pos as int));
            assert(k.deep_view() == before[pos as int].0);
            assert(members.deep_view() == before[pos as int].1);
        }
        let ghost old_members = members.deep_view();
        members.push(name);
        assert(members.deep_view() =~= old_members.push(name_v));
        classes.insert(pos, (k, members));
        proof {
            assert(classes.deep_view() =~= before.update(pos as int, (before[pos as int].0, before[pos as int].1.push(name_v))));
            lemma_place_found(before, pos as int, name_v, prefix, x, policy, bbox, out, ocel);
            lemma_member_total_update(before, pos as int, (before[pos as int].0, before[pos as int].1.push(name_v)));
        }
    } else {
        let mut members: Vec<String> = Vec::new();
        members.push(name);
        assert(members.deep_view() =~= seq![name_v]);
        classes.insert(pos, (fp, members));
        proof {
            assert(classes.deep_view() =~= before.insert(pos as int, (fv, seq![name_v])));
            if pos < before.len() {
                assert(before[pos as int].0 != fv);
                assert(lt(fv, before[pos as int].0));
            }
            lemma_place_new(before, pos as int, fv, name_v, prefix, x, policy, bbox, out, ocel);
            lemma_member_total_insert(before, pos as int, (fv, seq![name_v]));
        }
    }
}

/// The equivalence classes of the protected elements: each distinct
/// fingerprint, in increasing order, with the type-qualified identifiers of
/// the protected elements that have it. The protected elements are, for each
/// protected type in turn, its objects and then its events; an element with
/// no active binding for a quasi-identifier has the empty marginal for it.
///
/// The source sets are read from an index built per quasi-identifier in one
/// pass over the bindings of each matching.
pub fn compute_fingerprints(
    policy: &AnonPolicy,
    bbox: &BindingBox,
    out: &[Binding],
    ocel: &OcelData,
) -> (r: Vec<(Fingerprint, Vec<String>)>)
    requires
        forall|i: int| 0 <= i < out@.len() ==> ocel.holds_binding(#[trigger] out@[i]),
    ensures
        classes_of(r.deep_view(), elements_of_types(*ocel, protected_types(*policy)), *policy, *bbox, out@, *ocel),
        member_total(r.deep_view()) == elements_of_types(*ocel, protected_types(*policy)).len(),
        member_total(r.deep_view()) <= usize::MAX,
{
    let prot_types = policy.protected_type_set();
    let elems = elements_of(ocel, &prot_types);
    let mut indexes: Vec<SourceIndex> = Vec::new();
    let mut j: usize = 0;
    while j < policy.qids.len()
        invariant
            j <= policy.qids@.len(),
            forall|i: int| 0 <= i < out@.len() ==> ocel.holds_binding(#[trigger] out@[i]),
            indexes@.len() == j,
            forall|k: int| 0 <= k < indexes@.len() ==> (#[trigger] indexes@[k]).fits(*ocel),
            forall|k: int, y: EventOrObjectIndex, p: (Seq<char>, QidView)| 0 <= k < indexes@.len() && ocel.holds_element(y)
                ==> (#[trigger] indexes@[k].at(y).contains(p) <==> in_source_set(*ocel, policy.qids@[k], *bbox, out@, y, p)),
        decreases policy.qids.len() - j,
    {
        let idx = build_source_index(&policy.qids[j], bbox, out, ocel);
        indexes.push(idx);
        j = j + 1;
    }
    let mut classes: Vec<(Fingerprint, Vec<String>)> = Vec::new();
    let mut i: usize = 0;
    while i < elems.len()
        invariant
            i <= elems@.len(),
            forall|k: int| 0 <= k < elems@.len() ==> ocel.holds_element(#[trigger] elems@[k]),
            indexes@.len() == policy.qids@.len(),
            forall|k: int| 0 <= k < indexes@.len() ==> (#[trigger] indexes@[k]).fits(*ocel),
            forall|k: int, y: EventOrObjectIndex, p: (Seq<char>, QidView)| 0 <= k < indexes@.len() && ocel.holds_element(y)
                ==> (#[trigger] indexes@[k].at(y).contains(p) <==> in_source_set(*ocel, policy.qids@[k], *bbox, out@, y, p)),
            classes_of(classes.deep_view(), elems@.take(i as int), *policy, *bbox, out@, *ocel),
            member_total(classes.deep_view()) == i,
        decreases elems.len() - i,
    {
        let x = elems[i];
        let fp = fingerprint_at(&indexes, x, policy, bbox, out, ocel);
        let name = element_id(x, ocel);
        place(&mut classes, fp, name, Ghost(elems@.take(i as int)), Ghost(x), Ghost(*policy), Ghost(*bbox), Ghost(out@), Ghost(*ocel));
        assert(elems@.take(i as int).push(x) =~= elems@.take(i + 1));
        i = i + 1;
    }
    proof {
        assert(elems@.take(i as int) =~= elems@);
        if policy.qids@.len() == 0 {
            assert(prot_types.deep_view() =~= protected_types(*policy));
        }
    }
    classes
}

/// The classes partition the protected elements: every element's
/// fingerprint is the key of exactly one class, and the class sizes add up
/// to the number of elements.
pub proof fn law_classes_partition(
    cls: Seq<(Seq<Seq<(QidView, usize)>>, Seq<Seq<char>>)>,
    elems: Seq<EventOrObjectIndex>,
    policy: AnonPolicy,
    bbox: BindingBox,
    out: Seq<Binding>,
    ocel: OcelData,
    y: int,
    a: int,
    b: int,
)
    requires
        classes_of(cls, elems, policy, bbox, out, ocel),
        0 <= y < elems.len(),
        0 <= a < cls.len(),
        0 <= b < cls.len(),
        is_fingerprint(cls[a].0, policy, bbox, out, ocel, elems[y]),
        is_fingerprint(cls[b].0, policy, bbox, out, ocel, elems[y]),
    ensures
        a == b,
        has_class(cls, policy, bbox, out, ocel, elems[y]),
{
    lemma_fingerprint_strict_total();
    lemma_fingerprint_unique(cls[a].0, cls[b].0, policy, bbox, out, ocel, elems[y]);
    let lt = fingerprint_order();
    if a < b {
        assert(lt(cls[a].0, cls[b].0));
    } else if b < a {
        assert(lt(cls[b].0, cls[a].0));
    }
}

/// A quasi-identifier that is not activated contributes the empty marginal
/// fingerprint to every element's fingerprint.
pub proof fn law_inactive_qid_empty_marginal(
    m: Seq<(QidView, usize)>,
    q: QuasiIdentifier,
    bbox: BindingBox,
    out: Seq<Binding>,
    ocel: OcelData,
    x: EventOrObjectIndex,
)
    requires
        !crate::activation::activated(q, bbox),
        is_marginal(m, source_count(ocel, q, bbox, out, x)),
    ensures
        m.len() == 0,
{
    if m.len() > 0 {
        let v = m[0].0;
        let st = source_pairs_with(ocel, q, bbox, out, x, v);
        assert(st =~= Set::empty()) by {
            assert forall|p: (Seq<char>, QidView)| !st.contains(p) by {
                if in_source_set(ocel, q, bbox, out, x, p) {
                    let (ie, io, i) = choose|ie: Seq<EventVariable>, io: Seq<ObjectVariable>, i: int|
                        valid_images(q.pattern, bbox, ie, io) && 0 <= i < out.len() && #[trigger] contributes(
                            ocel, q, zip_vars(q.pattern.event_vars.vars(), ie), zip_vars(q.pattern.object_vars.vars(), io),
                            out[i], x, p);
                    assert(valid_images(q.pattern, bbox, ie, io));
                }
            }
        }
        assert(m[0].1 > 0);
        assert(m[0].1 == source_count(ocel, q, bbox, out, x)(m[0].0));
        assert(st.len() == 0);
    }
}

} // verus!
