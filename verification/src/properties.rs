//! Anonymity properties over the equivalence classes of a policy:
//! k-anonymity, l-diversity and t-closeness, the limits the data actually
//! satisfies, and the elements and values at risk.
//!
//! t-closeness uses the discrete ground metric:
//! `EMD = 1 − Σ_v min(P_local(v), P_global(v))`, computed exactly as a fraction.

use vstd::prelude::*;
use crate::assoc::{first_index, lemma_lookup_absent, lemma_lookup_at, lookup};
use crate::ocel::OcelData;
use crate::policy::{dedup, AnonPolicy};
use crate::text::chars_of;
use crate::value::{lemma_value_lt_total, same_values, value_lt, QidValue, QidView};
use crate::report::SensitiveAttrRisk;
use crate::fraction::{compare_fractions, Fraction};
use crate::order::Rel;
use crate::policy::Ratio;
use crate::activation::{activated, qid_is_activated};
use crate::binding::{Binding, BindingBox};
use crate::fingerprint::{
    classes_of, compute_fingerprints, elements_of_types, lemma_member_total_prefix, member_total, protected_types,
    Fingerprint,
};
use crate::policy::QuasiIdentifier;
use crate::tally::{count_of, count_total, distinct_counts, is_tally, lemma_count_total_prefix, tally_tuples};
use crate::value::copy_values;
use crate::binding::copy_strings;
use crate::sorting::{by_size, int_pairs, lemma_size_le_total, lemma_text_le_total, order_by_size, size_le, sort_strings, text_le};

verus! {

/// `i` is the position of the first `':'` of `q`.
pub open spec fn first_colon(q: Seq<char>, i: int) -> bool {
    &&& 0 <= i < q.len()
    &&& q[i] == ':'
    &&& forall|j: int| 0 <= j < i ==> q[j] != ':'
}

/// The raw identifier of a type-qualified one: what follows the first
/// `':'`, or the whole text when it has none.
pub open spec fn raw_id(q: Seq<char>) -> Seq<char> {
    if exists|i: int| first_colon(q, i) {
        q.skip((choose|i: int| first_colon(q, i)) + 1)
    } else {
        q
    }
}

/// `i` is the first object whose identifier is `id`.
pub open spec fn first_object(ocel: OcelData, id: Seq<char>, i: int) -> bool {
    &&& 0 <= i < ocel.objects@.len()
    &&& ocel.objects@[i].id@ == id
    &&& forall|j: int| 0 <= j < i ==> ocel.objects@[j].id@ != id
}

/// `i` is the first event whose identifier is `id`.
pub open spec fn first_event(ocel: OcelData, id: Seq<char>, i: int) -> bool {
    &&& 0 <= i < ocel.events@.len()
    &&& ocel.events@[i].id@ == id
    &&& forall|j: int| 0 <= j < i ==> ocel.events@[j].id@ != id
}

/// The value of sensitive attribute `attr` for the element named `raw`: an
/// object of that identifier is preferred, and gives the first of its values
/// for the attribute; otherwise an event of that identifier gives its value;
/// `Null` when the element or the attribute is absent.
pub open spec fn sensitive_value(ocel: OcelData, raw: Seq<char>, attr: Seq<char>) -> QidView {
    if exists|o: int| first_object(ocel, raw, o) {
        let o = choose|o: int| first_object(ocel, raw, o);
        match lookup(ocel.objects@[o].attributes.deep_view(), attr) {
            Some(vals) => if vals.len() > 0 { vals[0].1 } else { QidView::Null },
            None => QidView::Null,
        }
    } else if exists|e: int| first_event(ocel, raw, e) {
        let e = choose|e: int| first_event(ocel, raw, e);
        match lookup(ocel.events@[e].attributes.deep_view(), attr) {
            Some(v) => v,
            None => QidView::Null,
        }
    } else {
        QidView::Null
    }
}

/// The sensitive-attribute tuple of the element with type-qualified
/// identifier `q`, in the policy's order of sensitive attributes.
pub open spec fn sensitive_tuple(policy: AnonPolicy, ocel: OcelData, q: Seq<char>) -> Seq<QidView> {
    policy.sensitive_attrs.deep_view().map_values(sensitive_reader(ocel, raw_id(q)))
}

/// Reading sensitive attributes of the element named `raw`, as a function.
pub open spec fn sensitive_reader(ocel: OcelData, raw: Seq<char>) -> spec_fn(Seq<char>) -> QidView {
    |a: Seq<char>| sensitive_value(ocel, raw, a)
}

/// The raw identifier of `q`.
fn strip_type(q: &String) -> (r: String)
    ensures
        r@ == raw_id(q@),
{
    let cs = chars_of(q.as_str());
    let mut i: usize = 0;
    while i < cs.len()
        invariant
            i <= cs@.len(),
            cs@ == q@,
            forall|j: int| 0 <= j < i ==> cs@[j] != ':',
        decreases cs.len() - i,
    {
        if cs[i] == ':' {
            proof {
                assert(first_colon(q@, i as int));
                let c = choose|c: int| first_colon(q@, c);
                if c < i {
                    assert(cs@[c] != ':');
                } else if c > i {
                    assert(q@[i as int] != ':');
                }
            }
            let rest = q.as_str().substring_char(i + 1, cs.len());
            return String::from_str(rest);
        }
        i = i + 1;
    }
    proof {
        assert forall|c: int| !first_colon(q@, c) by {
            if 0 <= c < q@.len() {
                assert(cs@[c] != ':');
            }
        }
        assert(q@.skip(0) =~= q@);
    }
    q.clone()
}

/// Position of the first object named `id`.
fn find_object(ocel: &OcelData, id: &String) -> (r: Option<usize>)
    ensures
        match r {
            Some(o) => first_object(*ocel, id@, o as int),
            None => forall|o: int| !first_object(*ocel, id@, o),
        },
{
    let mut i: usize = 0;
    while i < ocel.objects.len()
        invariant
            i <= ocel.objects@.len(),
            forall|j: int| 0 <= j < i ==> ocel.objects@[j].id@ != id@,
        decreases ocel.objects.len() - i,
    {
        if ocel.objects[i].id == *id {
            return Some(i);
        }
        i = i + 1;
    }
    None
}

/// Position of the first event named `id`.
fn find_event(ocel: &OcelData, id: &String) -> (r: Option<usize>)
    ensures
        match r {
            Some(e) => first_event(*ocel, id@, e as int),
            None => forall|e: int| !first_event(*ocel, id@, e),
        },
{
    let mut i: usize = 0;
    while i < ocel.events.len()
        invariant
            i <= ocel.events@.len(),
            forall|j: int| 0 <= j < i ==> ocel.events@[j].id@ != id@,
        decreases ocel.events.len() - i,
    {
        if ocel.events[i].id == *id {
            return Some(i);
        }
        i = i + 1;
    }
    None
}

/// Position of the first pair named `name`.
fn position_of<T: DeepView>(attrs: &Vec<(String, T)>, name: &String) -> (r: Option<usize>)
    ensures
        match r {
            Some(i) => first_index(attrs.deep_view(), name@, i as int),
            None => lookup(attrs.deep_view(), name@) is None,
        },
{
    let mut i: usize = 0;
    while i < attrs.len()
        invariant
            i <= attrs.len(),
            forall|j: int| 0 <= j < i ==> attrs.deep_view()[j].0 != name@,
        decreases attrs.len() - i,
    {
        if attrs[i].0 == *name {
            return Some(i);
        }
        i = i + 1;
    }
    proof { lemma_lookup_absent(attrs.deep_view(), name@); }
    None
}

/// The value of one sensitive attribute for the element named `raw`.
fn read_sensitive(ocel: &OcelData, ob: Option<usize>, ev: Option<usize>, attr: &String, Ghost(raw): Ghost<Seq<char>>) -> (r: QidValue)
    requires
        match ob {
            Some(o) => first_object(*ocel, raw, o as int),
            None => forall|o: int| !first_object(*ocel, raw, o),
        },
        ob is None ==> match ev {
            Some(e) => first_event(*ocel, raw, e as int),
            None => forall|e: int| !first_event(*ocel, raw, e),
        },
    ensures
        r.deep_view() == sensitive_value(*ocel, raw, attr@),
{
    match ob {
        Some(o) => {
            proof {
                let c = choose|c: int| first_object(*ocel, raw, c);
                if c < o { assert(ocel.objects@[c].id@ != raw); }
                if c > o { assert(ocel.objects@[o as int].id@ != raw); }
            }
            match position_of(&ocel.objects[o].attributes, attr) {
                Some(i) => {
                    proof { lemma_lookup_at(ocel.objects@[o as int].attributes.deep_view(), attr@, i as int); }
                    if ocel.objects[o].attributes[i].1.len() > 0 {
                        ocel.objects[o].attributes[i].1[0].1.duplicate()
                    } else {
                        QidValue::Null
                    }
                },
                None => QidValue::Null,
            }
        },
        None => match ev {
            Some(e) => {
                proof {
                    let c = choose|c: int| first_event(*ocel, raw, c);
                    if c < e { assert(ocel.events@[c].id@ != raw); }
                    if c > e { assert(ocel.events@[e as int].id@ != raw); }
                }
                match position_of(&ocel.events[e].attributes, attr) {
                    Some(i) => {
                        proof { lemma_lookup_at(ocel.events@[e as int].attributes.deep_view(), attr@, i as int); }
                        ocel.events[e].attributes[i].1.duplicate()
                    },
                    None => QidValue::Null,
                }
            },
            None => QidValue::Null,
        },
    }
}

/// The sensitive-attribute tuple of the element named `q`.
pub fn sensitive_tuple_of(policy: &AnonPolicy, ocel: &OcelData, q: &String) -> (r: Vec<QidValue>)
    ensures
        r.deep_view() == sensitive_tuple(*policy, *ocel, q@),
{
    let mut r: Vec<QidValue> = Vec::new();
    if policy.sensitive_attrs.len() == 0 {
        assert(r.deep_view() =~= sensitive_tuple(*policy, *ocel, q@));
        return r;
    }
    let raw = strip_type(q);
    let ob = find_object(ocel, &raw);
    let ev = if ob.is_none() { find_event(ocel, &raw) } else { None };
    let ghost attrs = policy.sensitive_attrs.deep_view();
    let mut i: usize = 0;
    while i < policy.sensitive_attrs.len()
        invariant
            i <= attrs.len(),
            attrs == policy.sensitive_attrs.deep_view(),
            raw@ == raw_id(q@),
            match ob {
                Some(o) => first_object(*ocel, raw@, o as int),
                None => forall|o: int| !first_object(*ocel, raw@, o),
            },
            ob is None ==> match ev {
                Some(e) => first_event(*ocel, raw@, e as int),
                None => forall|e: int| !first_event(*ocel, raw@, e),
            },
            r.deep_view() =~= attrs.take(i as int).map_values(sensitive_reader(*ocel, raw_id(q@))),
        decreases attrs.len() - i,
    {
        let v = read_sensitive(ocel, ob, ev, &policy.sensitive_attrs[i], Ghost(raw@));
        let ghost before = r.deep_view();
        r.push(v);
        proof {
            let f = sensitive_reader(*ocel, raw_id(q@));
            assert(attrs.take(i + 1) =~= attrs.take(i as int).push(attrs[i as int]));
            assert(attrs.take(i + 1).map_values(f) =~= attrs.take(i as int).map_values(f).push(f(attrs[i as int])));
            assert(r.deep_view() =~= before.push(v.deep_view()));
        }
        i = i + 1;
    }
    assert(attrs.take(i as int) =~= attrs);
    r
}

/// The sensitive map holds, for each distinct identifier of `ids` in order
/// of first occurrence, its sensitive-attribute tuple.
pub open spec fn is_sensitive_map(
    m: Seq<(Seq<char>, Seq<QidView>)>,
    ids: Seq<Seq<char>>,
    policy: AnonPolicy,
    ocel: OcelData,
) -> bool {
    &&& m.len() == dedup(ids).len()
    &&& forall|k: int| 0 <= k < m.len() ==> (#[trigger] m[k]).0 == dedup(ids)[k]
        && m[k].1 == sensitive_tuple(policy, ocel, m[k].0)
}

/// Type-qualified identifier → sensitive-attribute tuple, read from the
/// element itself (an object of that raw identifier first, then an event).
pub fn build_sensitive_map(policy: &AnonPolicy, elem_ids: &Vec<String>, ocel: &OcelData) -> (r: Vec<(String, Vec<QidValue>)>)
    ensures
        is_sensitive_map(r.deep_view(), elem_ids.deep_view(), *policy, *ocel),
{
    let ghost ids = elem_ids.deep_view();
    let mut r: Vec<(String, Vec<QidValue>)> = Vec::new();
    let mut i: usize = 0;
    assert(ids.take(0) =~= Seq::<Seq<char>>::empty());
    while i < elem_ids.len()
        invariant
            i <= ids.len(),
            ids == elem_ids.deep_view(),
            is_sensitive_map(r.deep_view(), ids.take(i as int), *policy, *ocel),
        decreases ids.len() - i,
    {
        let id = &elem_ids[i];
        let ghost pre = ids.take(i as int);
        let ghost before = r.deep_view();
        proof {
            assert(ids.take(i + 1) =~= pre.push(id@));
            assert(ids.take(i + 1).drop_last() =~= pre);
            crate::tally::lemma_dedup_contains(pre);
        }
        let mut k: usize = 0;
        while k < r.len() && r[k].0 != *id
            invariant
                k <= r@.len(),
                before == r.deep_view(),
                forall|j: int| 0 <= j < k ==> (#[trigger] before[j]).0 != id@,
            decreases r.len() - k,
        {
            k = k + 1;
        }
        if k == r.len() {
            let tuple = sensitive_tuple_of(policy, ocel, id);
            r.push((id.clone(), tuple));
            proof {
                assert(!dedup(pre).contains(id@)) by {
                    if dedup(pre).contains(id@) {
                        let j = choose|j: int| 0 <= j < dedup(pre).len() && dedup(pre)[j] == id@;
                        assert(before[j].0 == id@);
                    }
                }
                assert(r.deep_view() =~= before.push((id@, tuple.deep_view())));
            }
        } else {
            proof {
                assert(before[k as int].0 == id@);
                assert(dedup(pre).contains(id@));
            }
        }
        i = i + 1;
    }
    assert(ids.take(i as int) =~= ids);
    r
}

/// The tuple the sensitive map holds for `id`, or the empty tuple.
pub open spec fn sensitive_lookup(m: Seq<(Seq<char>, Seq<QidView>)>, id: Seq<char>) -> Seq<QidView> {
    match lookup(m, id) {
        Some(t) => t,
        None => Seq::empty(),
    }
}

/// The tuple the sensitive map holds for `id`, or the empty tuple.
fn get_sensitive(m: &Vec<(String, Vec<QidValue>)>, id: &String) -> (r: Vec<QidValue>)
    ensures
        r.deep_view() == sensitive_lookup(m.deep_view(), id@),
{
    match position_of(m, id) {
        Some(i) => {
            proof { lemma_lookup_at(m.deep_view(), id@, i as int); }
            crate::value::copy_values(&m[i].1)
        },
        None => {
            let r: Vec<QidValue> = Vec::new();
            assert(r.deep_view() =~= Seq::<QidView>::empty());
            r
        },
    }
}

/// The sensitive tuples of the members, in the members' order.
pub open spec fn member_tuples(m: Seq<(Seq<char>, Seq<QidView>)>, members: Seq<Seq<char>>) -> Seq<Seq<QidView>> {
    members.map_values(|id: Seq<char>| sensitive_lookup(m, id))
}

fn tuples_of(m: &Vec<(String, Vec<QidValue>)>, members: &Vec<String>) -> (r: Vec<Vec<QidValue>>)
    ensures
        r.deep_view() == member_tuples(m.deep_view(), members.deep_view()),
{
    let ghost mv = members.deep_view();
    let mut r: Vec<Vec<QidValue>> = Vec::new();
    let mut i: usize = 0;
    while i < members.len()
        invariant
            i <= mv.len(),
            mv == members.deep_view(),
            r.deep_view().len() == i,
            forall|k: int| 0 <= k < i ==> #[trigger] r.deep_view()[k] == sensitive_lookup(m.deep_view(), mv[k]),
        decreases mv.len() - i,
    {
        let t = get_sensitive(m, &members[i]);
        let ghost before = r.deep_view();
        r.push(t);
        assert(r.deep_view() =~= before.push(t.deep_view()));
        i = i + 1;
    }
    assert(r.deep_view() =~= member_tuples(m.deep_view(), mv));
    r
}

/// The number of protected elements with sensitive tuple `v` globally.
pub open spec fn global_count(gd: Seq<(Seq<QidView>, usize)>, v: Seq<QidView>) -> int {
    match lookup(gd, v) {
        Some(c) => c as int,
        None => 0,
    }
}

pub open spec fn min_int(a: int, b: int) -> int {
    if a <= b { a } else { b }
}

/// `Σ_v min(n_local(v) · G, n_global(v) · L)` over the tuples `keys`: the
/// shared mass of the two distributions, scaled by `L · G`.
pub open spec fn overlap(
    keys: Seq<Seq<QidView>>,
    class: Seq<Seq<QidView>>,
    gd: Seq<(Seq<QidView>, usize)>,
    g: int,
    l: int,
) -> int
    decreases keys.len(),
{
    if keys.len() == 0 {
        0
    } else {
        overlap(keys.drop_last(), class, gd, g, l)
            + min_int(count_of(class, keys.last()) * g, global_count(gd, keys.last()) * l)
    }
}

/// The discrete EMD between the class's tuples and the global distribution,
/// as `(numerator, denominator)`: `1 − Σ_v min(P_local(v), P_global(v))`,
/// and `0` for an empty class or an empty population.
pub open spec fn emd_value(class: Seq<Seq<QidView>>, gd: Seq<(Seq<QidView>, usize)>, g: int) -> (int, int) {
    if class.len() == 0 || g == 0 {
        (0, 1)
    } else {
        let l = class.len() as int;
        (l * g - overlap(dedup(class), class, gd, g, l), l * g)
    }
}

/// Global count of tuple `v`, or 0.
fn global_lookup(gd: &Vec<(Vec<QidValue>, usize)>, v: &Vec<QidValue>) -> (r: usize)
    ensures
        r as int == global_count(gd.deep_view(), v.deep_view()),
{
    let mut i: usize = 0;
    while i < gd.len()
        invariant
            i <= gd@.len(),
            forall|j: int| 0 <= j < i ==> gd.deep_view()[j].0 != v.deep_view(),
        decreases gd.len() - i,
    {
        assert(gd.deep_view()[i as int].0 == gd@[i as int].0.deep_view());
        if same_values(&gd[i].0, v) {
            proof { lemma_lookup_at(gd.deep_view(), v.deep_view(), i as int); }
            return gd[i].1;
        }
        i = i + 1;
    }
    proof { lemma_lookup_absent(gd.deep_view(), v.deep_view()); }
    0
}

/// Discrete Earth Mover's Distance between a class's sensitive tuples and
/// the global distribution, exactly; always in `[0, 1]`.
pub fn discrete_emd(
    class_sensitive: &Vec<Vec<QidValue>>,
    global_dist: &Vec<(Vec<QidValue>, usize)>,
    global_total: usize,
) -> (r: Fraction)
    ensures
        r.num as int == emd_value(class_sensitive.deep_view(), global_dist.deep_view(), global_total as int).0,
        r.den as int == emd_value(class_sensitive.deep_view(), global_dist.deep_view(), global_total as int).1,
        r.den > 0,
        r.num <= r.den,
{
    if class_sensitive.len() == 0 || global_total == 0 {
        return Fraction { num: 0, den: 1 };
    }
    let ghost cv = class_sensitive.deep_view();
    let ghost gd = global_dist.deep_view();
    let counts = distinct_counts(class_sensitive);
    let ghost keys = dedup(cv);
    let l = class_sensitive.len() as u128;
    let g = global_total as u128;
    let mut sum: u128 = 0;
    let mut k: usize = 0;
    proof {
        lemma_count_total_prefix(counts.deep_view(), 0);
        assert(keys.take(0) =~= Seq::<Seq<QidView>>::empty());
        assert(counts.deep_view().take(0) =~= Seq::<(Seq<QidView>, usize)>::empty());
    }
    while k < counts.len()
        invariant
            k <= counts.deep_view().len(),
            cv == class_sensitive.deep_view(),
            gd == global_dist.deep_view(),
            keys == dedup(cv),
            counts.deep_view().len() == keys.len(),
            forall|j: int| 0 <= j < counts.deep_view().len() ==> (#[trigger] counts.deep_view()[j]).0 == keys[j]
                && counts.deep_view()[j].1 == count_of(cv, counts.deep_view()[j].0),
            count_total(counts.deep_view()) == cv.len(),
            l as int == cv.len(),
            g as int == global_total,
            l < 0x1_0000_0000_0000_0000,
            g < 0x1_0000_0000_0000_0000,
            sum as int == overlap(keys.take(k as int), cv, gd, g as int, l as int),
            sum as int <= g * count_total(counts.deep_view().take(k as int)),
            count_total(counts.deep_view().take(k as int)) <= l,
        decreases counts.len() - k,
    {
        let lc = counts[k].1 as u128;
        let gc = global_lookup(global_dist, &counts[k].0) as u128;
        let ghost p = count_total(counts.deep_view().take(k as int));
        proof {
            lemma_count_total_prefix(counts.deep_view(), k as int);
            lemma_count_total_prefix(counts.deep_view(), k + 1);
            assert(counts.deep_view()[k as int].0 == counts@[k as int].0.deep_view());
            assert(lc <= l);
            assert(lc * g < 0x1_0000_0000_0000_0000_0000_0000_0000_0000) by (nonlinear_arith)
                requires lc <= l, l < 0x1_0000_0000_0000_0000, g < 0x1_0000_0000_0000_0000;
            assert(gc * l < 0x1_0000_0000_0000_0000_0000_0000_0000_0000) by (nonlinear_arith)
                requires gc < 0x1_0000_0000_0000_0000, l < 0x1_0000_0000_0000_0000;
        }
        let a = lc * g;
        let b = gc * l;
        let m = if a <= b { a } else { b };
        proof {
            assert(g * p + lc * g == g * (p + lc)) by (nonlinear_arith);
            assert(g * (p + lc) <= g * l) by (nonlinear_arith) requires p + lc <= l;
            assert(g * l < 0x1_0000_0000_0000_0000_0000_0000_0000_0000) by (nonlinear_arith)
                requires l < 0x1_0000_0000_0000_0000, g < 0x1_0000_0000_0000_0000;
            assert(keys.take(k + 1).drop_last() =~= keys.take(k as int));
            assert(keys.take(k + 1).last() == keys[k as int]);
        }
        sum = sum + m;
        k = k + 1;
    }
    proof {
        assert(keys.take(k as int) =~= keys);
        assert(counts.deep_view().take(k as int) =~= counts.deep_view());
        assert(g * l == l * g) by (nonlinear_arith);
        assert(l * g > 0) by (nonlinear_arith) requires l > 0, g > 0;
        assert(l * g < 0x1_0000_0000_0000_0000_0000_0000_0000_0000) by (nonlinear_arith)
            requires l < 0x1_0000_0000_0000_0000, g < 0x1_0000_0000_0000_0000;
    }
    Fraction { num: l * g - sum, den: l * g }
}

/// Shared base of all evaluation layers, built once by `build_context`.
#[derive(Debug)]
pub struct PolicyContext {
    /// Fingerprint → type-qualified identifiers of the elements that have it,
    /// in increasing order of fingerprint.
    pub class_map: Vec<(Fingerprint, Vec<String>)>,
    /// Type-qualified identifier → sensitive-attribute tuple.
    pub sens_map: Vec<(String, Vec<QidValue>)>,
    /// Global distribution of sensitive tuples, in increasing tuple order;
    /// empty when the policy has no sensitive attributes.
    pub global_dist: Vec<(Vec<QidValue>, usize)>,
    /// Total protected elements (sum of class sizes).
    pub global_total: usize,
    /// Identifiers of the activated quasi-identifiers, in policy order.
    pub activated_qid_ids: Vec<String>,
    /// Identifiers of the quasi-identifiers not activated, in policy order.
    pub non_activated_qid_ids: Vec<String>,
}

impl PolicyContext {
    /// `true` iff at least one quasi-identifier was activated.
    pub fn policy_activated(&self) -> (r: bool)
        ensures
            r == (self.activated_qid_ids@.len() > 0),
    {
        self.activated_qid_ids.len() > 0
    }
}

/// The identifiers of the quasi-identifiers whose activation is `want`, in order.
pub open spec fn ids_where(qs: Seq<QuasiIdentifier>, b: BindingBox, want: bool) -> Seq<Seq<char>>
    decreases qs.len(),
{
    if qs.len() == 0 {
        Seq::empty()
    } else {
        let r = ids_where(qs.drop_last(), b, want);
        if activated(qs.last(), b) == want {
            r.push(qs.last().id@)
        } else {
            r
        }
    }
}

/// All members of all classes, class after class.
pub open spec fn all_members<F>(cls: Seq<(F, Seq<Seq<char>>)>) -> Seq<Seq<char>>
    decreases cls.len(),
{
    if cls.len() == 0 {
        Seq::empty()
    } else {
        all_members(cls.drop_last()) + cls.last().1
    }
}

/// The tuples of a sensitive map, in its order.
pub open spec fn map_tuples(m: Seq<(Seq<char>, Seq<QidView>)>) -> Seq<Seq<QidView>> {
    m.map_values(|e: (Seq<char>, Seq<QidView>)| e.1)
}

/// What `build_context` computes.
pub open spec fn is_context(
    ctx: PolicyContext,
    policy: AnonPolicy,
    bbox: BindingBox,
    out: Seq<Binding>,
    ocel: OcelData,
) -> bool {
    &&& ctx.activated_qid_ids.deep_view() == ids_where(policy.qids@, bbox, true)
    &&& ctx.non_activated_qid_ids.deep_view() == ids_where(policy.qids@, bbox, false)
    &&& classes_of(ctx.class_map.deep_view(), elements_of_types(ocel, protected_types(policy)), policy, bbox, out, ocel)
    &&& ctx.global_total == member_total(ctx.class_map.deep_view())
    &&& ctx.global_total == elements_of_types(ocel, protected_types(policy)).len()
    &&& is_sensitive_map(ctx.sens_map.deep_view(), all_members(ctx.class_map.deep_view()), policy, ocel)
    &&& policy.sensitive_attrs@.len() == 0 ==> ctx.global_dist@.len() == 0
    &&& policy.sensitive_attrs@.len() > 0 ==> is_tally(ctx.global_dist.deep_view(), map_tuples(ctx.sens_map.deep_view()))
}

/// Builds the context for `policy` against the evaluated output `out` of
/// `bbox`: activated quasi-identifiers, equivalence classes, sensitive
/// tuples and their global distribution.
pub fn build_context(policy: &AnonPolicy, bbox: &BindingBox, out: &[Binding], ocel: &OcelData) -> (r: PolicyContext)
    requires
        forall|i: int| 0 <= i < out@.len() ==> ocel.holds_binding(#[trigger] out@[i]),
    ensures
        is_context(r, *policy, *bbox, out@, *ocel),
{
    let ghost qs = policy.qids@;
    let mut activated_qid_ids: Vec<String> = Vec::new();
    let mut non_activated_qid_ids: Vec<String> = Vec::new();
    let mut q: usize = 0;
    assert(qs.take(0) =~= Seq::<QuasiIdentifier>::empty());
    while q < policy.qids.len()
        invariant
            q <= qs.len(),
            qs == policy.qids@,
            activated_qid_ids.deep_view() == ids_where(qs.take(q as int), *bbox, true),
            non_activated_qid_ids.deep_view() == ids_where(qs.take(q as int), *bbox, false),
        decreases qs.len() - q,
    {
        let qid = &policy.qids[q];
        proof {
            assert(qs.take(q + 1).drop_last() =~= qs.take(q as int));
            assert(qs.take(q + 1).last() == *qid);
        }
        let ghost a0 = activated_qid_ids.deep_view();
        let ghost n0 = non_activated_qid_ids.deep_view();
        if qid_is_activated(qid, bbox) {
            activated_qid_ids.push(qid.id.clone());
            assert(activated_qid_ids.deep_view() =~= a0.push(qid.id@));
        } else {
            non_activated_qid_ids.push(qid.id.clone());
            assert(non_activated_qid_ids.deep_view() =~= n0.push(qid.id@));
        }
        q = q + 1;
    }
    assert(qs.take(q as int) =~= qs);
    let class_map = compute_fingerprints(policy, bbox, out, ocel);
    let ghost cm = class_map.deep_view();
    let mut global_total: usize = 0;
    let mut all_ids: Vec<String> = Vec::new();
    let mut c: usize = 0;
    proof { lemma_member_total_prefix(cm, 0); }
    while c < class_map.len()
        invariant
            c <= cm.len(),
            cm == class_map.deep_view(),
            member_total(cm) <= usize::MAX,
            global_total == member_total(cm.take(c as int)),
            member_total(cm.take(c as int)) <= member_total(cm),
            all_ids.deep_view() == all_members(cm.take(c as int)),
        decreases cm.len() - c,
    {
        proof {
            lemma_member_total_prefix(cm, c as int);
            lemma_member_total_prefix(cm, c + 1);
            assert(cm.take(c + 1).drop_last() =~= cm.take(c as int));
            assert(cm[c as int].1.len() == class_map@[c as int].1@.len());
        }
        global_total = global_total + class_map[c].1.len();
        let ghost before = all_ids.deep_view();
        let mut j: usize = 0;
        while j < class_map[c].1.len()
            invariant
                j <= class_map@[c as int].1@.len(),
                c < cm.len(),
                cm == class_map.deep_view(),
                all_ids.deep_view() == before + cm[c as int].1.take(j as int),
            decreases class_map@[c as int].1@.len() - j,
        {
            let ghost b2 = all_ids.deep_view();
            all_ids.push(class_map[c].1[j].clone());
            assert(all_ids.deep_view() =~= b2.push(cm[c as int].1[j as int]));
            assert(cm[c as int].1.take(j + 1) =~= cm[c as int].1.take(j as int).push(cm[c as int].1[j as int]));
            j = j + 1;
        }
        assert(cm[c as int].1.take(j as int) =~= cm[c as int].1);
        c = c + 1;
    }
    assert(cm.take(c as int) =~= cm);
    let sens_map = build_sensitive_map(policy, &all_ids, ocel);
    let mut tuples: Vec<Vec<QidValue>> = Vec::new();
    let mut s: usize = 0;
    while s < sens_map.len()
        invariant
            s <= sens_map@.len(),
            tuples.deep_view() == map_tuples(sens_map.deep_view()).take(s as int),
        decreases sens_map.len() - s,
    {
        let ghost b3 = tuples.deep_view();
        tuples.push(copy_values(&sens_map[s].1));
        assert(tuples.deep_view() =~= b3.push(sens_map.deep_view()[s as int].1));
        assert(map_tuples(sens_map.deep_view()).take(s + 1) =~= map_tuples(sens_map.deep_view()).take(s as int).push(sens_map.deep_view()[s as int].1));
        s = s + 1;
    }
    assert(map_tuples(sens_map.deep_view()).take(s as int) =~= map_tuples(sens_map.deep_view()));
    let global_dist = if policy.sensitive_attrs.len() == 0 { Vec::new() } else { tally_tuples(&tuples) };
    PolicyContext {
        class_map,
        sens_map,
        global_dist,
        global_total,
        activated_qid_ids,
        non_activated_qid_ids,
    }
}

/// The sizes of the classes.
pub open spec fn class_sizes<F>(cm: Seq<(F, Seq<Seq<char>>)>) -> Seq<int> {
    cm.map_values(|c: (F, Seq<Seq<char>>)| c.1.len() as int)
}

/// The order classes are reported in: largest first, ties in the order of
/// the class map.
pub open spec fn class_rank<F>(cm: Seq<(F, Seq<Seq<char>>)>) -> Seq<(int, int)> {
    by_size(class_sizes(cm))
}

/// The members of the `i`-th reported class, in text order.
pub open spec fn ranked_members<F>(cm: Seq<(F, Seq<Seq<char>>)>, i: int) -> Seq<Seq<char>> {
    cm[class_rank(cm)[i].0].1.sort_by(text_le())
}

/// Class `c` is reported at some position.
pub open spec fn rank_has<F>(cm: Seq<(F, Seq<Seq<char>>)>, c: int) -> bool {
    exists|i: int| 0 <= i < cm.len() && class_rank(cm)[i].0 == c
}

/// The reported order is a permutation of the classes.
pub proof fn lemma_rank_covers<F>(cm: Seq<(F, Seq<Seq<char>>)>)
    ensures
        class_rank(cm).len() == cm.len(),
        forall|i: int| 0 <= i < cm.len() ==> 0 <= (#[trigger] class_rank(cm)[i]).0 < cm.len()
            && class_rank(cm)[i].1 == cm[class_rank(cm)[i].0].1.len(),
        forall|c: int| 0 <= c < cm.len() ==> #[trigger] rank_has(cm, c),
        forall|i: int| 0 <= i < cm.len() ==> (#[trigger] ranked_members(cm, i)).len() == cm[class_rank(cm)[i].0].1.len(),
{
    broadcast use vstd::seq_lib::group_to_multiset_ensures;
    let sz = class_sizes(cm);
    let all = Seq::new(sz.len(), |i: int| (i, sz[i]));
    lemma_size_le_total();
    all.lemma_sort_by_ensures(size_le());
    let rk = class_rank(cm);
    assert(rk == all.sort_by(size_le()));
    assert(all.to_multiset() == rk.to_multiset());
    assert(all.to_multiset().len() == all.len());
    assert(rk.to_multiset().len() == rk.len());
    assert(rk.len() == all.len());
    assert forall|i: int| 0 <= i < cm.len() implies 0 <= (#[trigger] rk[i]).0 < cm.len() && rk[i].1 == cm[rk[i].0].1.len() by {
        assert(rk.to_multiset().count(rk[i]) > 0);
        assert(all.contains(rk[i]));
        let j = choose|j: int| 0 <= j < all.len() && all[j] == rk[i];
    }
    assert forall|c: int| 0 <= c < cm.len() implies #[trigger] rank_has(cm, c) by {
        assert(all[c] == (c, sz[c]));
        assert(all.to_multiset().count(all[c]) > 0);
        assert(rk.contains(all[c]));
        let i = choose|i: int| 0 <= i < rk.len() && rk[i] == all[c];
        assert(rk[i].0 == c);
    }
    lemma_text_le_total();
    assert forall|i: int| 0 <= i < cm.len() implies (#[trigger] ranked_members(cm, i)).len() == cm[rk[i].0].1.len() by {
        let m = cm[rk[i].0].1;
        m.lemma_sort_by_ensures(text_le());
        assert(m.to_multiset().len() == m.len());
        assert(m.sort_by(text_le()).to_multiset().len() == m.sort_by(text_le()).len());
    }
}

/// The classes' members in reported order, each in text order.
fn ranked_member_lists(ctx: &PolicyContext) -> (r: Vec<Vec<String>>)
    ensures
        r.deep_view().len() == ctx.class_map.deep_view().len(),
        forall|i: int| 0 <= i < r.deep_view().len() ==> #[trigger] r.deep_view()[i] == ranked_members(ctx.class_map.deep_view(), i),
{
    let ghost cm = ctx.class_map.deep_view();
    let mut sizes: Vec<usize> = Vec::new();
    let mut c: usize = 0;
    while c < ctx.class_map.len()
        invariant
            c <= cm.len(),
            cm == ctx.class_map.deep_view(),
            sizes@.len() == c,
            forall|j: int| 0 <= j < c ==> #[trigger] sizes@[j] == cm[j].1.len(),
        decreases cm.len() - c,
    {
        assert(cm[c as int].1.len() == ctx.class_map@[c as int].1@.len());
        sizes.push(ctx.class_map[c].1.len());
        c = c + 1;
    }
    let order = order_by_size(&sizes);
    proof {
        assert(sizes@.map_values(|x: usize| x as int) =~= class_sizes(cm));
        lemma_rank_covers(cm);
    }
    let mut r: Vec<Vec<String>> = Vec::new();
    let mut i: usize = 0;
    while i < order.len()
        invariant
            i <= order@.len(),
            order@.len() == cm.len(),
            cm == ctx.class_map.deep_view(),
            int_pairs(order@) == class_rank(cm),
            forall|k: int| 0 <= k < order@.len() ==> (#[trigger] order@[k]).0 < cm.len(),
            r.deep_view().len() == i,
            forall|k: int| 0 <= k < i ==> #[trigger] r.deep_view()[k] == ranked_members(cm, k),
        decreases order.len() - i,
    {
        let idx = order[i].0;
        assert(int_pairs(order@)[i as int].0 == idx as int);
        let sorted = sort_strings(&ctx.class_map[idx].1);
        let ghost before = r.deep_view();
        r.push(sorted);
        assert(r.deep_view() =~= before.push(sorted.deep_view()));
        i = i + 1;
    }
    r
}

/// Per-class result of k-anonymity.
#[derive(Debug, Clone)]
pub struct KClass {
    /// Type-qualified identifiers of the members, in text order.
    pub members: Vec<String>,
    /// The class has at least `k` members.
    pub ok: bool,
}

/// Result of `eval_k`.
#[derive(Debug, Clone)]
pub struct KResult {
    /// One result per class, largest class first.
    pub classes: Vec<KClass>,
    /// Every class satisfies k-anonymity.
    pub satisfied: bool,
    /// The `k` evaluated against.
    pub k: usize,
}

/// What `eval_k` computes: one result per class, in reported order, each
/// with its members in text order and whether it has at least `k` of them.
pub open spec fn is_k_result(r: KResult, ctx: PolicyContext, k: usize) -> bool {
    &&& r.k == k
    &&& r.classes@.len() == ctx.class_map@.len()
    &&& forall|i: int| 0 <= i < r.classes@.len() ==> (#[trigger] r.classes@[i]).members.deep_view()
        == ranked_members(ctx.class_map.deep_view(), i)
        && r.classes@[i].ok == (r.classes@[i].members@.len() >= k)
    &&& r.satisfied == forall|i: int| 0 <= i < r.classes@.len() ==> (#[trigger] r.classes@[i]).ok
}

/// Evaluates k-anonymity for every equivalence class.
pub fn eval_k(ctx: &PolicyContext, k: usize) -> (r: KResult)
    ensures
        is_k_result(r, *ctx, k),
{
    let ghost cm = ctx.class_map.deep_view();
    let lists = ranked_member_lists(ctx);
    let mut classes: Vec<KClass> = Vec::new();
    let mut satisfied = true;
    let mut i: usize = 0;
    while i < lists.len()
        invariant
            i <= lists@.len(),
            lists.deep_view().len() == cm.len(),
            cm == ctx.class_map.deep_view(),
            forall|j: int| 0 <= j < lists.deep_view().len() ==> #[trigger] lists.deep_view()[j] == ranked_members(cm, j),
            classes@.len() == i,
            forall|j: int| 0 <= j < i ==> (#[trigger] classes@[j]).members.deep_view() == ranked_members(cm, j)
                && classes@[j].ok == (classes@[j].members@.len() >= k),
            satisfied == forall|j: int| 0 <= j < i ==> (#[trigger] classes@[j]).ok,
        decreases lists.len() - i,
    {
        let members = copy_strings(&lists[i]);
        let ok = members.len() >= k;
        let ghost before = classes@;
        let ghost mv = members.deep_view();
        assert(members@.len() == members.deep_view().len());
        assert(lists.deep_view()[i as int] == lists@[i as int].deep_view());
        assert(mv == ranked_members(cm, i as int));
        let item = KClass { members, ok };
        classes.push(item);
        assert(classes@ == before.push(item));
        assert(classes@[i as int].members.deep_view() == mv);
        assert(forall|j: int| 0 <= j < i ==> classes@[j] == before[j]);
        let ghost was = satisfied;
        satisfied = satisfied && ok;
        proof {
            if satisfied {
                assert forall|j: int| 0 <= j < i + 1 implies (#[trigger] classes@[j]).ok by {
                    if j < i {
                        assert(before[j].ok);
                    }
                }
            } else if !ok {
                assert(!classes@[i as int].ok);
            } else {
                assert(!was);
                let j = choose|j: int| 0 <= j < i && !(#[trigger] before[j]).ok;
                assert(!classes@[j].ok);
            }
        }
        i = i + 1;
    }
    KResult { classes, satisfied, k }
}

/// k-anonymity holds exactly when every class of the partition has at
/// least `k` members.
pub proof fn law_k_satisfied_iff_all_classes(r: KResult, ctx: PolicyContext, k: usize)
    requires
        is_k_result(r, ctx, k),
    ensures
        r.satisfied == forall|c: int| 0 <= c < ctx.class_map@.len() ==> (#[trigger] ctx.class_map@[c]).1@.len() >= k,
{
    let cm = ctx.class_map.deep_view();
    lemma_rank_covers(cm);
    if r.satisfied {
        assert forall|c: int| 0 <= c < ctx.class_map@.len() implies (#[trigger] ctx.class_map@[c]).1@.len() >= k by {
            assert(rank_has(cm, c));
            let j = choose|j: int| 0 <= j < cm.len() && class_rank(cm)[j].0 == c;
            assert(r.classes@[j].ok);
            assert(ranked_members(cm, j).len() == cm[c].1.len());
            assert(cm[c].1.len() == ctx.class_map@[c].1@.len());
        }
    } else {
        let j = choose|j: int| 0 <= j < r.classes@.len() && !(#[trigger] r.classes@[j]).ok;
        let c = class_rank(cm)[j].0;
        assert(ranked_members(cm, j).len() == cm[c].1.len());
        assert(cm[c].1.len() == ctx.class_map@[c].1@.len());
        assert(r.classes@[j].members@.len() == r.classes@[j].members.deep_view().len());
        assert(!(ctx.class_map@[c].1@.len() >= k));
    }
}

/// Per-class result of l-diversity.
#[derive(Debug, Clone)]
pub struct LClass {
    /// Type-qualified identifiers of the members, in text order.
    pub members: Vec<String>,
    /// The sensitive tuple of each member (parallel to `members`).
    pub sensitive_values: Vec<Vec<QidValue>>,
    /// Number of distinct sensitive tuples in the class.
    pub distinct_count: usize,
    /// `l` is 0 or the class has at least `l` distinct tuples.
    pub ok: bool,
}

/// Result of `eval_l`.
#[derive(Debug, Clone)]
pub struct LResult {
    pub classes: Vec<LClass>,
    pub satisfied: bool,
    pub l: usize,
}

/// What `eval_l` computes: one result per class, in reported order, with
/// the members' sensitive tuples and the number of distinct ones.
pub open spec fn is_l_result(r: LResult, ctx: PolicyContext, l: usize) -> bool {
    &&& r.l == l
    &&& r.classes@.len() == ctx.class_map@.len()
    &&& forall|i: int| 0 <= i < r.classes@.len() ==> {
        let c = #[trigger] r.classes@[i];
        &&& c.members.deep_view() == ranked_members(ctx.class_map.deep_view(), i)
        &&& c.sensitive_values.deep_view() == member_tuples(ctx.sens_map.deep_view(), c.members.deep_view())
        &&& c.distinct_count == dedup(c.sensitive_values.deep_view()).len()
        &&& c.ok == (l == 0 || c.distinct_count >= l)
    }
    &&& r.satisfied == forall|i: int| 0 <= i < r.classes@.len() ==> (#[trigger] r.classes@[i]).ok
}

/// Evaluates l-diversity for every equivalence class.
pub fn eval_l(ctx: &PolicyContext, l: usize) -> (r: LResult)
    ensures
        is_l_result(r, *ctx, l),
{
    let ghost cm = ctx.class_map.deep_view();
    let lists = ranked_member_lists(ctx);
    let mut classes: Vec<LClass> = Vec::new();
    let mut satisfied = true;
    let mut i: usize = 0;
    while i < lists.len()
        invariant
            i <= lists@.len(),
            lists.deep_view().len() == cm.len(),
            cm == ctx.class_map.deep_view(),
            forall|j: int| 0 <= j < lists.deep_view().len() ==> #[trigger] lists.deep_view()[j] == ranked_members(cm, j),
            classes@.len() == i,
            forall|j: int| 0 <= j < i ==> {
                let c = #[trigger] classes@[j];
                &&& c.members.deep_view() == ranked_members(cm, j)
                &&& c.sensitive_values.deep_view() == member_tuples(ctx.sens_map.deep_view(), c.members.deep_view())
                &&& c.distinct_count == dedup(c.sensitive_values.deep_view()).len()
                &&& c.ok == (l == 0 || c.distinct_count >= l)
            },
            satisfied == forall|j: int| 0 <= j < i ==> (#[trigger] classes@[j]).ok,
        decreases lists.len() - i,
    {
        let members = copy_strings(&lists[i]);
        let sensitive_values = tuples_of(&ctx.sens_map, &members);
        let distinct = distinct_counts(&sensitive_values);
        let distinct_count = distinct.len();
        let ok = l == 0 || distinct_count >= l;
        let ghost before = classes@;
        proof {
            assert(lists.deep_view()[i as int] == lists@[i as int].deep_view());
            assert(distinct.deep_view().len() == distinct@.len());
        }
        let item = LClass { members, sensitive_values, distinct_count, ok };
        classes.push(item);
        assert(classes@ == before.push(item));
        assert(forall|j: int| 0 <= j < i ==> classes@[j] == before[j]);
        let ghost was = satisfied;
        satisfied = satisfied && ok;
        proof {
            if satisfied {
                assert forall|j: int| 0 <= j < i + 1 implies (#[trigger] classes@[j]).ok by {
                    if j < i {
                        assert(before[j].ok);
                    }
                }
            } else if !ok {
                assert(!classes@[i as int].ok);
            } else {
                assert(!was);
                let j = choose|j: int| 0 <= j < i && !(#[trigger] before[j]).ok;
                assert(!classes@[j].ok);
            }
        }
        i = i + 1;
    }
    let r = LResult { classes, satisfied, l };
    assert(r.classes@.len() == ctx.class_map@.len());
    assert(forall|j: int| 0 <= j < r.classes@.len() ==> #[trigger] r.classes@[j] == classes@[j]);
    r
}

/// The fraction is at most `t` (a ratio without a number is exceeded).
pub open spec fn within(e: Fraction, t: Ratio) -> bool {
    &&& t.den > 0
    &&& t.num >= 0
    &&& e.num * t.den <= t.num * e.den
}

/// Per-class result of t-closeness.
#[derive(Debug, Clone)]
pub struct TClass {
    pub members: Vec<String>,
    pub sensitive_values: Vec<Vec<QidValue>>,
    /// Discrete EMD to the global distribution; `None` when there are no
    /// sensitive attributes (an empty global distribution) or `t` is at
    /// least 1.
    pub emd: Option<Fraction>,
    pub ok: bool,
}

/// Result of `eval_t`.
#[derive(Debug, Clone)]
pub struct TResult {
    pub classes: Vec<TClass>,
    pub satisfied: bool,
    pub t: Ratio,
}

/// `e ≤ t`.
fn fraction_within(e: Fraction, t: Ratio) -> (r: bool)
    requires
        e.den > 0,
    ensures
        r == within(e, t),
{
    if t.den == 0 || t.num < 0 {
        return false;
    }
    let c = compare_fractions(e.num, e.den, t.num as u128, t.den as u128);
    c != Rel::Greater
}

/// t-closeness is not checked: no sensitive attributes or no protected
/// elements (an empty global distribution), or `t ≥ 1`.
pub open spec fn t_trivial(ctx: PolicyContext, t: Ratio) -> bool {
    ctx.global_dist@.len() == 0 || t.at_least_one()
}

/// What `eval_t` computes: one result per class, in reported order, with
/// its discrete EMD (always in `[0, 1]`) unless t-closeness is not checked.
pub open spec fn is_t_result(r: TResult, ctx: PolicyContext, t: Ratio) -> bool {
    &&& r.t == t
    &&& r.classes@.len() == ctx.class_map@.len()
    &&& forall|i: int| 0 <= i < r.classes@.len() ==> {
        let c = #[trigger] r.classes@[i];
        &&& c.members.deep_view() == ranked_members(ctx.class_map.deep_view(), i)
        &&& c.sensitive_values.deep_view() == member_tuples(ctx.sens_map.deep_view(), c.members.deep_view())
        &&& t_trivial(ctx, t) ==> c.emd is None && c.ok
        &&& !t_trivial(ctx, t) ==> (c.emd matches Some(e)
            && e.num as int == emd_value(c.sensitive_values.deep_view(), ctx.global_dist.deep_view(), ctx.global_total as int).0
            && e.den as int == emd_value(c.sensitive_values.deep_view(), ctx.global_dist.deep_view(), ctx.global_total as int).1
            && c.ok == within(e, t))
        &&& (c.emd matches Some(e) ==> 0 < e.den && e.num <= e.den)
    }
    &&& r.satisfied == forall|i: int| 0 <= i < r.classes@.len() ==> (#[trigger] r.classes@[i]).ok
}

/// Evaluates t-closeness for every equivalence class.
pub fn eval_t(ctx: &PolicyContext, t: Ratio) -> (r: TResult)
    ensures
        is_t_result(r, *ctx, t),
{
    let ghost cm = ctx.class_map.deep_view();
    let trivial = ctx.global_dist.len() == 0 || (t.den > 0 && t.num >= 0 && t.num as u64 >= t.den);
    let lists = ranked_member_lists(ctx);
    let mut classes: Vec<TClass> = Vec::new();
    let mut satisfied = true;
    let mut i: usize = 0;
    while i < lists.len()
        invariant
            i <= lists@.len(),
            trivial == t_trivial(*ctx, t),
            lists.deep_view().len() == cm.len(),
            cm == ctx.class_map.deep_view(),
            forall|j: int| 0 <= j < lists.deep_view().len() ==> #[trigger] lists.deep_view()[j] == ranked_members(cm, j),
            classes@.len() == i,
            forall|j: int| 0 <= j < i ==> {
                let c = #[trigger] classes@[j];
                &&& c.members.deep_view() == ranked_members(cm, j)
                &&& c.sensitive_values.deep_view() == member_tuples(ctx.sens_map.deep_view(), c.members.deep_view())
                &&& t_trivial(*ctx, t) ==> c.emd is None && c.ok
                &&& !t_trivial(*ctx, t) ==> (c.emd matches Some(e)
                    && e.num as int == emd_value(c.sensitive_values.deep_view(), ctx.global_dist.deep_view(), ctx.global_total as int).0
                    && e.den as int == emd_value(c.sensitive_values.deep_view(), ctx.global_dist.deep_view(), ctx.global_total as int).1
                    && c.ok == within(e, t))
                &&& (c.emd matches Some(e) ==> 0 < e.den && e.num <= e.den)
            },
            satisfied == forall|j: int| 0 <= j < i ==> (#[trigger] classes@[j]).ok,
        decreases lists.len() - i,
    {
        let members = copy_strings(&lists[i]);
        let sensitive_values = tuples_of(&ctx.sens_map, &members);
        let (emd, ok) = if trivial {
            (None, true)
        } else {
            let e = discrete_emd(&sensitive_values, &ctx.global_dist, ctx.global_total);
            let ok = fraction_within(e, t);
            (Some(e), ok)
        };
        let ghost before = classes@;
        proof {
            assert(lists.deep_view()[i as int] == lists@[i as int].deep_view());
        }
        let item = TClass { members, sensitive_values, emd, ok };
        classes.push(item);
        assert(classes@ == before.push(item));
        assert(forall|j: int| 0 <= j < i ==> classes@[j] == before[j]);
        let ghost was = satisfied;
        satisfied = satisfied && ok;
        proof {
            if satisfied {
                assert forall|j: int| 0 <= j < i + 1 implies (#[trigger] classes@[j]).ok by {
                    if j < i {
                        assert(before[j].ok);
                    }
                }
            } else if !ok {
                assert(!classes@[i as int].ok);
            } else {
                assert(!was);
                let j = choose|j: int| 0 <= j < i && !(#[trigger] before[j]).ok;
                assert(!classes@[j].ok);
            }
        }
        i = i + 1;
    }
    TResult { classes, satisfied, t }
}

/// `r` is the size of the smallest class, or 0 without classes.
pub open spec fn is_k_max(r: usize, ctx: PolicyContext) -> bool {
    &&& ctx.class_map@.len() == 0 ==> r == 0
    &&& ctx.class_map@.len() > 0 ==> (exists|c: int| 0 <= c < ctx.class_map@.len() && r == (#[trigger] ctx.class_map@[c]).1@.len())
        && forall|c: int| 0 <= c < ctx.class_map@.len() ==> r <= (#[trigger] ctx.class_map@[c]).1@.len()
}

/// The maximum k the data satisfies: the size of the smallest class, or 0
/// without classes.
pub fn find_k_max(ctx: &PolicyContext) -> (r: usize)
    ensures
        is_k_max(r, *ctx),
{
    if ctx.class_map.len() == 0 {
        return 0;
    }
    let mut best = ctx.class_map[0].1.len();
    let ghost mut at: int = 0;
    let mut c: usize = 1;
    while c < ctx.class_map.len()
        invariant
            1 <= c <= ctx.class_map@.len(),
            0 <= at < c,
            best == ctx.class_map@[at].1@.len(),
            forall|j: int| 0 <= j < c ==> best <= (#[trigger] ctx.class_map@[j]).1@.len(),
        decreases ctx.class_map.len() - c,
    {
        if ctx.class_map[c].1.len() < best {
            best = ctx.class_map[c].1.len();
            proof { at = c as int; }
        }
        c = c + 1;
    }
    best
}

/// Number of distinct sensitive tuples among the members.
pub open spec fn distinct_tuples(sens: Seq<(Seq<char>, Seq<QidView>)>, members: Seq<Seq<char>>) -> nat {
    dedup(member_tuples(sens, members)).len()
}

fn distinct_tuple_count(sens: &Vec<(String, Vec<QidValue>)>, members: &Vec<String>) -> (r: usize)
    ensures
        r == distinct_tuples(sens.deep_view(), members.deep_view()),
{
    let svs = tuples_of(sens, members);
    let d = distinct_counts(&svs);
    assert(d.deep_view().len() == d@.len());
    d.len()
}

/// `r` is the smallest number of distinct sensitive tuples in a class; 0
/// without classes or without sensitive attributes (an empty global
/// distribution).
pub open spec fn is_l_max(r: usize, ctx: PolicyContext) -> bool {
    if ctx.class_map@.len() == 0 || ctx.global_dist@.len() == 0 {
        r == 0
    } else {
        &&& exists|c: int| 0 <= c < ctx.class_map@.len()
            && r == distinct_tuples(ctx.sens_map.deep_view(), (#[trigger] ctx.class_map@[c]).1.deep_view())
        &&& forall|c: int| 0 <= c < ctx.class_map@.len()
            ==> r <= distinct_tuples(ctx.sens_map.deep_view(), (#[trigger] ctx.class_map@[c]).1.deep_view())
    }
}

/// The maximum l the data satisfies: the smallest number of distinct
/// sensitive tuples in a class; 0 without classes or without sensitive
/// attributes.
pub fn find_l_max(ctx: &PolicyContext) -> (r: usize)
    ensures
        is_l_max(r, *ctx),
{
    if ctx.class_map.len() == 0 || ctx.global_dist.len() == 0 {
        return 0;
    }
    let mut best = distinct_tuple_count(&ctx.sens_map, &ctx.class_map[0].1);
    let ghost mut at: int = 0;
    let mut c: usize = 1;
    while c < ctx.class_map.len()
        invariant
            1 <= c <= ctx.class_map@.len(),
            0 <= at < c,
            best == distinct_tuples(ctx.sens_map.deep_view(), ctx.class_map@[at].1.deep_view()),
            forall|j: int| 0 <= j < c ==> best <= distinct_tuples(ctx.sens_map.deep_view(), (#[trigger] ctx.class_map@[j]).1.deep_view()),
        decreases ctx.class_map.len() - c,
    {
        let d = distinct_tuple_count(&ctx.sens_map, &ctx.class_map[c].1);
        if d < best {
            best = d;
            proof { at = c as int; }
        }
        c = c + 1;
    }
    best
}

/// `a ≤ b` as fractions.
pub open spec fn fraction_le(a: Fraction, b: Fraction) -> bool {
    a.num * b.den <= b.num * a.den
}

/// `r` is the smallest of the EMDs present (one of them), `None` when none
/// is present or there are no sensitive attributes (an empty global
/// distribution).
pub open spec fn is_t_min(r: Option<Fraction>, ctx: PolicyContext, emds: Seq<Option<Fraction>>) -> bool {
    &&& ctx.global_dist@.len() == 0 ==> r is None
    &&& ctx.global_dist@.len() > 0 ==> match r {
        None => forall|i: int| 0 <= i < emds.len() ==> (#[trigger] emds[i]) is None,
        Some(f) => (exists|i: int| 0 <= i < emds.len() && #[trigger] emds[i] == Some(f))
            && forall|i: int| 0 <= i < emds.len() ==> ((#[trigger] emds[i]) matches Some(g) ==> fraction_le(f, g)),
    }
}

/// The smallest EMD over the classes: the most restrictive t the data
/// satisfies. `None` without sensitive attributes (an empty global
/// distribution) or when no class has an EMD.
pub fn find_t_min(ctx: &PolicyContext, t_result: &TResult) -> (r: Option<Fraction>)
    requires
        forall|i: int| 0 <= i < t_result.classes@.len() ==> ((#[trigger] t_result.classes@[i]).emd matches Some(g) ==> g.den > 0),
    ensures
        is_t_min(r, *ctx, t_result.classes@.map_values(|c: TClass| c.emd)),
{
    if ctx.global_dist.len() == 0 {
        return None;
    }
    let mut best: Option<Fraction> = None;
    let mut i: usize = 0;
    while i < t_result.classes.len()
        invariant
            i <= t_result.classes@.len(),
            forall|j: int| 0 <= j < t_result.classes@.len() ==> ((#[trigger] t_result.classes@[j]).emd matches Some(g) ==> g.den > 0),
            match best {
                None => forall|j: int| 0 <= j < i ==> (#[trigger] t_result.classes@[j]).emd is None,
                Some(f) => f.den > 0 && (exists|j: int| 0 <= j < i && (#[trigger] t_result.classes@[j]).emd == Some(f))
                    && forall|j: int| 0 <= j < i ==> ((#[trigger] t_result.classes@[j]).emd matches Some(g) ==> fraction_le(f, g)),
            },
        decreases t_result.classes.len() - i,
    {
        match t_result.classes[i].emd {
            Some(e) => {
                match best {
                    None => {
                        best = Some(e);
                        proof {
                            assert(t_result.classes@[i as int].emd == Some(e));
                            assert(fraction_le(e, e)) by (nonlinear_arith);
                        }
                    },
                    Some(f) => {
                        if compare_fractions(e.num, e.den, f.num, f.den) == Rel::Less {
                            best = Some(e);
                            proof {
                                assert(t_result.classes@[i as int].emd == Some(e));
                                assert(fraction_le(e, e)) by (nonlinear_arith);
                                assert forall|j: int| 0 <= j < i + 1 implies ((#[trigger] t_result.classes@[j]).emd matches Some(g) ==> fraction_le(e, g)) by {
                                    if j < i {
                                        if let Some(g) = t_result.classes@[j].emd {
                                            assert(fraction_le(f, g));
                                            assert(e.num * f.den < f.num * e.den);
                                            lemma_fraction_le_trans(e, f, g);
                                        }
                                    }
                                }
                            }
                        } else {
                            proof {
                                assert(f.num * e.den <= e.num * f.den);
                            }
                        }
                    },
                }
            },
            None => {},
        }
        i = i + 1;
    }
    proof {
        let emds = t_result.classes@.map_values(|c: TClass| c.emd);
        assert forall|j: int| 0 <= j < emds.len() implies #[trigger] emds[j] == t_result.classes@[j].emd by {}
        match best {
            None => {},
            Some(f) => {
                let j = choose|j: int| 0 <= j < i && (#[trigger] t_result.classes@[j]).emd == Some(f);
                assert(emds[j] == Some(f));
            },
        }
    }
    best
}

/// `≤` on fractions with positive denominators is transitive.
proof fn lemma_fraction_le_trans(a: Fraction, b: Fraction, c: Fraction)
    requires
        a.den > 0,
        b.den > 0,
        c.den > 0,
        a.num * b.den <= b.num * a.den,
        fraction_le(b, c),
    ensures
        fraction_le(a, c),
{
    let (an, ad, bn, bd, cn, cd) = (a.num as int, a.den as int, b.num as int, b.den as int, c.num as int, c.den as int);
    assert(an * bd * cd <= bn * ad * cd) by (nonlinear_arith) requires an * bd <= bn * ad, cd > 0;
    assert(bn * cd * ad <= cn * bd * ad) by (nonlinear_arith) requires bn * cd <= cn * bd, ad > 0;
    assert(an * cd * bd <= cn * ad * bd) by (nonlinear_arith)
        requires an * bd * cd <= bn * ad * cd, bn * cd * ad <= cn * bd * ad;
    assert(an * cd <= cn * ad) by (nonlinear_arith) requires an * cd * bd <= cn * ad * bd, bd > 0;
}

/// Members of the classes that violate k-anonymity, class after class.
pub open spec fn risk_members(cs: Seq<KClass>) -> Seq<Seq<char>>
    decreases cs.len(),
{
    if cs.len() == 0 {
        Seq::empty()
    } else if cs.last().ok {
        risk_members(cs.drop_last())
    } else {
        risk_members(cs.drop_last()) + cs.last().members.deep_view()
    }
}

/// Type-qualified identifiers of the elements in a class violating
/// k-anonymity, class after class; empty when k-anonymity holds.
pub fn elements_at_risk(k_result: &KResult) -> (r: Vec<String>)
    ensures
        r.deep_view() == risk_members(k_result.classes@),
{
    let ghost cs = k_result.classes@;
    let mut r: Vec<String> = Vec::new();
    let mut i: usize = 0;
    assert(cs.take(0) =~= Seq::<KClass>::empty());
    while i < k_result.classes.len()
        invariant
            i <= cs.len(),
            cs == k_result.classes@,
            r.deep_view() == risk_members(cs.take(i as int)),
        decreases cs.len() - i,
    {
        let c = &k_result.classes[i];
        proof {
            assert(cs.take(i + 1).drop_last() =~= cs.take(i as int));
            assert(cs.take(i + 1).last() == *c);
        }
        if !c.ok {
            let ghost before = r.deep_view();
            let mut j: usize = 0;
            while j < c.members.len()
                invariant
                    j <= c.members@.len(),
                    r.deep_view() == before + c.members.deep_view().take(j as int),
                decreases c.members.len() - j,
            {
                let ghost b2 = r.deep_view();
                r.push(c.members[j].clone());
                assert(r.deep_view() =~= b2.push(c.members.deep_view()[j as int]));
                assert(c.members.deep_view().take(j + 1) =~= c.members.deep_view().take(j as int).push(c.members.deep_view()[j as int]));
                j = j + 1;
            }
            assert(c.members.deep_view().take(j as int) =~= c.members.deep_view());
        }
        i = i + 1;
    }
    assert(cs.take(i as int) =~= cs);
    r
}

/// Strictly increasing in value order.
pub open spec fn values_sorted(s: Seq<QidView>) -> bool {
    forall|i: int, j: int| 0 <= i < j < s.len() ==> value_lt(#[trigger] s[i], #[trigger] s[j])
}

/// Adds `v` to a strictly increasing sequence of values, unless present.
fn insert_value(vals: &mut Vec<QidValue>, v: &QidValue)
    requires
        values_sorted(old(vals).deep_view()),
    ensures
        values_sorted(final(vals).deep_view()),
        forall|w: QidView| #[trigger] final(vals).deep_view().contains(w) <==> old(vals).deep_view().contains(w) || w == v.deep_view(),
{
    proof { lemma_value_lt_total(); }
    let ghost before = vals.deep_view();
    let ghost vv = v.deep_view();
    let mut pos: usize = 0;
    while pos < vals.len() && vals[pos].compare(v) == Rel::Less
        invariant
            pos <= vals@.len(),
            before == vals.deep_view(),
            vv == v.deep_view(),
            forall|k: int| 0 <= k < pos ==> value_lt(#[trigger] before[k], vv),
        decreases vals.len() - pos,
    {
        pos = pos + 1;
    }
    if pos < vals.len() && vals[pos].same_value(v) {
        return;
    }
    vals.insert(pos, v.duplicate());
    proof {
        let now = vals.deep_view();
        assert(now =~= before.insert(pos as int, vv));
        if pos < before.len() {
            assert(before[pos as int] != vv);
            assert(!value_lt(before[pos as int], vv));
            assert(value_lt(vv, before[pos as int]));
        }
        assert forall|a: int, b: int| 0 <= a < b < now.len() implies value_lt(#[trigger] now[a], #[trigger] now[b]) by {
            if b < pos {
                assert(now[a] == before[a] && now[b] == before[b]);
            } else if b == pos {
                assert(now[a] == before[a]);
            } else if a < pos {
                assert(now[a] == before[a] && now[b] == before[b - 1]);
                assert(value_lt(before[a], vv));
                if b - 1 > pos {
                    assert(value_lt(before[pos as int], before[b - 1]));
                }
            } else if a == pos {
                assert(now[b] == before[b - 1]);
                if b - 1 > pos {
                    assert(value_lt(before[pos as int], before[b - 1]));
                }
            } else {
                assert(now[a] == before[a - 1] && now[b] == before[b - 1]);
            }
        }
        assert forall|w: QidView| #[trigger] now.contains(w) <==> before.contains(w) || w == vv by {
            if now.contains(w) {
                let k = choose|k: int| 0 <= k < now.len() && now[k] == w;
                if k < pos {
                    assert(before[k] == w);
                } else if k > pos {
                    assert(before[k - 1] == w);
                }
            }
            if before.contains(w) {
                let k = choose|k: int| 0 <= k < before.len() && before[k] == w;
                if k < pos {
                    assert(now[k] == w);
                } else {
                    assert(now[k + 1] == w);
                }
            }
            if w == vv {
                assert(now[pos as int] == w);
            }
        }
    }
}

/// Some tuple of `svs` holds `v` at position `a`.
pub open spec fn tuple_at_risk(svs: Seq<Seq<QidView>>, a: int, v: QidView) -> bool {
    exists|j: int| 0 <= j < svs.len() && a < svs[j].len() && (#[trigger] svs[j])[a] == v
}

/// Adds, for every tuple of `svs` long enough, its value at position `a`.
fn collect_values(svs: &Vec<Vec<QidValue>>, a: usize, vals: &mut Vec<QidValue>)
    requires
        values_sorted(old(vals).deep_view()),
    ensures
        values_sorted(final(vals).deep_view()),
        forall|w: QidView| #[trigger] final(vals).deep_view().contains(w)
            <==> old(vals).deep_view().contains(w) || tuple_at_risk(svs.deep_view(), a as int, w),
{
    let ghost start = vals.deep_view();
    let ghost sv = svs.deep_view();
    let mut j: usize = 0;
    while j < svs.len()
        invariant
            j <= sv.len(),
            sv == svs.deep_view(),
            values_sorted(vals.deep_view()),
            forall|w: QidView| #[trigger] vals.deep_view().contains(w)
                <==> start.contains(w) || tuple_at_risk(sv.take(j as int), a as int, w),
        decreases sv.len() - j,
    {
        let ghost before = vals.deep_view();
        assert(sv[j as int] == svs@[j as int].deep_view());
        if a < svs[j].len() {
            insert_value(vals, &svs[j][a]);
        }
        proof {
            assert forall|w: QidView| #[trigger] vals.deep_view().contains(w)
                <==> start.contains(w) || tuple_at_risk(sv.take(j + 1), a as int, w) by {
                let t0 = sv.take(j as int);
                let t1 = sv.take(j + 1);
                if tuple_at_risk(t1, a as int, w) {
                    let k = choose|k: int| 0 <= k < t1.len() && a < t1[k].len() && (#[trigger] t1[k])[a as int] == w;
                    if k < j {
                        assert(t0[k] == t1[k]);
                        assert(tuple_at_risk(t0, a as int, w));
                    }
                }
                if tuple_at_risk(t0, a as int, w) {
                    let k = choose|k: int| 0 <= k < t0.len() && a < t0[k].len() && (#[trigger] t0[k])[a as int] == w;
                    assert(t1[k] == t0[k]);
                }
                if a < sv[j as int].len() && w == sv[j as int][a as int] {
                    assert(t1[j as int] == sv[j as int]);
                    assert(tuple_at_risk(t1, a as int, w));
                }
            }
        }
        j = j + 1;
    }
    assert(sv.take(j as int) =~= sv);
}

/// `v` is the value at position `a` of some sensitive tuple of a class
/// violating l-diversity or t-closeness.
pub open spec fn at_risk(lr: LResult, tr: TResult, a: int, v: QidView) -> bool {
    ||| exists|i: int| 0 <= i < lr.classes@.len() && !lr.classes@[i].ok
        && tuple_at_risk((#[trigger] lr.classes@[i]).sensitive_values.deep_view(), a, v)
    ||| exists|i: int| 0 <= i < tr.classes@.len() && !tr.classes@[i].ok
        && tuple_at_risk((#[trigger] tr.classes@[i]).sensitive_values.deep_view(), a, v)
}

/// For each sensitive attribute, the distinct values that appear in classes
/// violating l-diversity or t-closeness, in increasing order.
pub fn sensitive_values_at_risk(l_result: &LResult, t_result: &TResult, sensitive_attrs: &Vec<String>) -> (r: Vec<SensitiveAttrRisk>)
    ensures
        r@.len() == sensitive_attrs@.len(),
        forall|a: int| 0 <= a < r@.len() ==> {
            let e = #[trigger] r@[a];
            &&& e.attr_name@ == sensitive_attrs@[a]@
            &&& values_sorted(e.at_risk_values.deep_view())
            &&& forall|w: QidView| #[trigger] e.at_risk_values.deep_view().contains(w) <==> at_risk(*l_result, *t_result, a, w)
        },
{
    let mut r: Vec<SensitiveAttrRisk> = Vec::new();
    let mut a: usize = 0;
    while a < sensitive_attrs.len()
        invariant
            a <= sensitive_attrs@.len(),
            r@.len() == a,
            forall|b: int| 0 <= b < a ==> {
                let e = #[trigger] r@[b];
                &&& e.attr_name@ == sensitive_attrs@[b]@
                &&& values_sorted(e.at_risk_values.deep_view())
                &&& forall|w: QidView| #[trigger] e.at_risk_values.deep_view().contains(w) <==> at_risk(*l_result, *t_result, b, w)
            },
        decreases sensitive_attrs.len() - a,
    {
        let mut vals: Vec<QidValue> = Vec::new();
        assert(vals.deep_view() =~= Seq::<QidView>::empty());
        let mut i: usize = 0;
        while i < l_result.classes.len()
            invariant
                i <= l_result.classes@.len(),
                values_sorted(vals.deep_view()),
                forall|w: QidView| #[trigger] vals.deep_view().contains(w) <==> exists|c: int| 0 <= c < i
                    && !l_result.classes@[c].ok
                    && tuple_at_risk((#[trigger] l_result.classes@[c]).sensitive_values.deep_view(), a as int, w),
            decreases l_result.classes.len() - i,
        {
            let ghost before = vals.deep_view();
            if !l_result.classes[i].ok {
                collect_values(&l_result.classes[i].sensitive_values, a, &mut vals);
            }
            proof {
                assert forall|w: QidView| #[trigger] vals.deep_view().contains(w) <==> exists|c: int| 0 <= c < i + 1
                    && !l_result.classes@[c].ok
                    && tuple_at_risk((#[trigger] l_result.classes@[c]).sensitive_values.deep_view(), a as int, w) by {
                    if before.contains(w) {
                        let c = choose|c: int| 0 <= c < i && !l_result.classes@[c].ok
                            && tuple_at_risk((#[trigger] l_result.classes@[c]).sensitive_values.deep_view(), a as int, w);
                        assert(0 <= c < i + 1);
                    }
                }
            }
            i = i + 1;
        }
        let mut i: usize = 0;
        let ghost mid = vals.deep_view();
        while i < t_result.classes.len()
            invariant
                i <= t_result.classes@.len(),
                values_sorted(vals.deep_view()),
                forall|w: QidView| #[trigger] vals.deep_view().contains(w) <==> mid.contains(w) || exists|c: int| 0 <= c < i
                    && !t_result.classes@[c].ok
                    && tuple_at_risk((#[trigger] t_result.classes@[c]).sensitive_values.deep_view(), a as int, w),
            decreases t_result.classes.len() - i,
        {
            let ghost before = vals.deep_view();
            if !t_result.classes[i].ok {
                collect_values(&t_result.classes[i].sensitive_values, a, &mut vals);
            }
            proof {
                assert forall|w: QidView| #[trigger] vals.deep_view().contains(w) <==> mid.contains(w) || exists|c: int| 0 <= c < i + 1
                    && !t_result.classes@[c].ok
                    && tuple_at_risk((#[trigger] t_result.classes@[c]).sensitive_values.deep_view(), a as int, w) by {
                    if before.contains(w) && !mid.contains(w) {
                        let c = choose|c: int| 0 <= c < i && !t_result.classes@[c].ok
                            && tuple_at_risk((#[trigger] t_result.classes@[c]).sensitive_values.deep_view(), a as int, w);
                        assert(0 <= c < i + 1);
                    }
                }
            }
            i = i + 1;
        }
        let item = SensitiveAttrRisk { attr_name: sensitive_attrs[a].clone(), at_risk_values: vals };
        let ghost before_r = r@;
        r.push(item);
        proof {
            assert(r@ == before_r.push(item));
            assert(forall|b: int| 0 <= b < a ==> r@[b] == before_r[b]);
            assert forall|w: QidView| #[trigger] item.at_risk_values.deep_view().contains(w) <==> at_risk(*l_result, *t_result, a as int, w) by {}
        }
        a = a + 1;
    }
    r
}

/// The data satisfies k-anonymity exactly for `k ≤ k_max` (for every `k`
/// when there are no classes).
pub proof fn law_k_max(r: KResult, ctx: PolicyContext, k: usize, m: usize)
    requires
        is_k_result(r, ctx, k),
        is_k_max(m, ctx),
    ensures
        r.satisfied == (ctx.class_map@.len() == 0 || k <= m),
{
    law_k_satisfied_iff_all_classes(r, ctx, k);
    if ctx.class_map@.len() > 0 {
        let c = choose|c: int| 0 <= c < ctx.class_map@.len() && m == (#[trigger] ctx.class_map@[c]).1@.len();
        if k > m {
            assert(!(ctx.class_map@[c].1@.len() >= k));
        }
    }
}

/// The number of distinct elements of a sequence is the size of its set.
pub proof fn lemma_dedup_len<A>(x: Seq<A>)
    ensures
        dedup(x).len() == x.to_set().len(),
{
    crate::tally::lemma_dedup_distinct(x);
    crate::tally::lemma_dedup_contains(x);
    let d = dedup(x);
    assert(d.no_duplicates()) by {
        assert forall|i: int, j: int| 0 <= i < d.len() && 0 <= j < d.len() && i != j implies d[i] != d[j] by {
            if i > j {
                assert(d[j] != d[i]);
            }
        }
    }
    d.unique_seq_to_set();
    assert(d.to_set() =~= x.to_set());
}

/// Ordering the members does not change how many distinct sensitive tuples
/// they have.
pub proof fn lemma_distinct_sorted(sens: Seq<(Seq<char>, Seq<QidView>)>, ms: Seq<Seq<char>>)
    ensures
        dedup(member_tuples(sens, ms.sort_by(text_le()))).len() == dedup(member_tuples(sens, ms)).len(),
{
    broadcast use vstd::seq_lib::group_to_multiset_ensures;
    lemma_text_le_total();
    ms.lemma_sort_by_ensures(text_le());
    let so = ms.sort_by(text_le());
    let a = member_tuples(sens, so);
    let b = member_tuples(sens, ms);
    assert forall|t: Seq<QidView>| a.contains(t) <==> b.contains(t) by {
        if a.contains(t) {
            let i = choose|i: int| 0 <= i < a.len() && a[i] == t;
            assert(so.to_multiset().count(so[i]) > 0);
            assert(ms.contains(so[i]));
            let j = choose|j: int| 0 <= j < ms.len() && ms[j] == so[i];
            assert(b[j] == t);
        }
        if b.contains(t) {
            let j = choose|j: int| 0 <= j < b.len() && b[j] == t;
            assert(ms.to_multiset().count(ms[j]) > 0);
            assert(so.contains(ms[j]));
            let i = choose|i: int| 0 <= i < so.len() && so[i] == ms[j];
            assert(a[i] == t);
        }
    }
    assert(a.to_set() =~= b.to_set());
    lemma_dedup_len(a);
    lemma_dedup_len(b);
}

/// The data satisfies l-diversity for `l = 0` and for every `l ≤ l_max`
/// (for every `l` when there are no classes); with sensitive attributes
/// (a non-empty global distribution), for no other `l`.
pub proof fn law_l_max(r: LResult, ctx: PolicyContext, l: usize, m: usize)
    requires
        is_l_result(r, ctx, l),
        is_l_max(m, ctx),
    ensures
        (l == 0 || ctx.class_map@.len() == 0 || l <= m) ==> r.satisfied,
        ctx.global_dist@.len() > 0 ==> r.satisfied == (l == 0 || ctx.class_map@.len() == 0 || l <= m),
{
    let cm = ctx.class_map.deep_view();
    let sens = ctx.sens_map.deep_view();
    lemma_rank_covers(cm);
    assert forall|i: int| 0 <= i < r.classes@.len() implies (#[trigger] r.classes@[i]).distinct_count
        == distinct_tuples(sens, ctx.class_map@[class_rank(cm)[i].0].1.deep_view()) by {
        let c = class_rank(cm)[i].0;
        lemma_distinct_sorted(sens, cm[c].1);
        assert(cm[c].1 == ctx.class_map@[c].1.deep_view());
    }
    if l > 0 && ctx.class_map@.len() > 0 && ctx.global_dist@.len() > 0 {
        if l <= m {
            assert forall|i: int| 0 <= i < r.classes@.len() implies (#[trigger] r.classes@[i]).ok by {
                let c = class_rank(cm)[i].0;
                assert(m <= distinct_tuples(sens, ctx.class_map@[c].1.deep_view()));
            }
        } else {
            let c = choose|c: int| 0 <= c < ctx.class_map@.len()
                && m == distinct_tuples(sens, (#[trigger] ctx.class_map@[c]).1.deep_view());
            assert(rank_has(cm, c));
            let i = choose|i: int| 0 <= i < cm.len() && class_rank(cm)[i].0 == c;
            assert(!r.classes@[i].ok);
        }
    }
}

/// Each class's EMD is at least `t_min`; t-closeness fails for every `t`
/// below `t_min`; and when every class has the EMD `t_min`, t-closeness
/// holds for every `t ≥ t_min`.
pub proof fn law_t_min(r: TResult, ctx: PolicyContext, t: Ratio, f: Fraction)
    requires
        is_t_result(r, ctx, t),
        is_t_min(Some(f), ctx, r.classes@.map_values(|c: TClass| c.emd)),
        f.den > 0,
    ensures
        forall|i: int| 0 <= i < r.classes@.len() ==> ((#[trigger] r.classes@[i]).emd matches Some(g) ==> fraction_le(f, g)),
        (forall|i: int| 0 <= i < r.classes@.len() ==> ((#[trigger] r.classes@[i]).emd matches Some(g) ==> fraction_le(g, f)))
            && within(f, t) ==> r.satisfied,
        r.satisfied ==> within(f, t),
{
    let emds = r.classes@.map_values(|c: TClass| c.emd);
    if r.satisfied {
        let i = choose|i: int| 0 <= i < emds.len() && #[trigger] emds[i] == Some(f);
        assert(r.classes@[i].emd == Some(f));
        assert(r.classes@[i].ok);
    }
    assert forall|i: int| 0 <= i < r.classes@.len() implies ((#[trigger] r.classes@[i]).emd matches Some(g) ==> fraction_le(f, g)) by {
        assert(emds[i] == r.classes@[i].emd);
    }
    if (forall|i: int| 0 <= i < r.classes@.len() ==> ((#[trigger] r.classes@[i]).emd matches Some(g) ==> fraction_le(g, f))) && within(f, t) {
        assert forall|i: int| 0 <= i < r.classes@.len() implies (#[trigger] r.classes@[i]).ok by {
            let c = r.classes@[i];
            if !t_trivial(ctx, t) {
                let g = c.emd->0;
                assert(fraction_le(g, f));
                lemma_within_trans(g, f, t);
            }
        }
    }
}

/// `g ≤ f` and `f ≤ t` give `g ≤ t`.
proof fn lemma_within_trans(g: Fraction, f: Fraction, t: Ratio)
    requires
        g.den > 0,
        f.den > 0,
        fraction_le(g, f),
        within(f, t),
    ensures
        within(g, t),
{
    let (gn, gd, fnum, fd, tn, td) = (g.num as int, g.den as int, f.num as int, f.den as int, t.num as int, t.den as int);
    assert(gn * fd * td <= fnum * gd * td) by (nonlinear_arith) requires gn * fd <= fnum * gd, td > 0;
    assert(fnum * td * gd <= tn * fd * gd) by (nonlinear_arith) requires fnum * td <= tn * fd, gd > 0;
    assert(gn * td * fd <= tn * gd * fd) by (nonlinear_arith)
        requires gn * fd * td <= fnum * gd * td, fnum * td * gd <= tn * fd * gd;
    assert(gn * td <= tn * gd) by (nonlinear_arith) requires gn * td * fd <= tn * gd * fd, fd > 0;
}

/// With non-empty classes, no element is at risk exactly when k-anonymity
/// holds.
pub proof fn law_risk_empty_iff_satisfied(r: KResult, ctx: PolicyContext, k: usize)
    requires
        is_k_result(r, ctx, k),
        forall|i: int| 0 <= i < r.classes@.len() ==> (#[trigger] r.classes@[i]).members@.len() > 0,
    ensures
        (risk_members(r.classes@).len() == 0) == r.satisfied,
{
    lemma_risk_empty(r.classes@);
}

proof fn lemma_risk_empty(cs: Seq<KClass>)
    requires
        forall|i: int| 0 <= i < cs.len() ==> (#[trigger] cs[i]).members@.len() > 0,
    ensures
        (risk_members(cs).len() == 0) == forall|i: int| 0 <= i < cs.len() ==> (#[trigger] cs[i]).ok,
    decreases cs.len(),
{
    if cs.len() > 0 {
        let d = cs.drop_last();
        assert forall|i: int| 0 <= i < d.len() implies (#[trigger] d[i]).members@.len() > 0 by {
            assert(d[i] == cs[i]);
        }
        lemma_risk_empty(d);
        let last = cs[cs.len() - 1];
        assert(last.members.deep_view().len() == last.members@.len());
        if (forall|i: int| 0 <= i < cs.len() ==> (#[trigger] cs[i]).ok) {
            assert forall|i: int| 0 <= i < d.len() implies (#[trigger] d[i]).ok by {
                assert(d[i] == cs[i]);
            }
        } else {
            let j = choose|j: int| 0 <= j < cs.len() && !(#[trigger] cs[j]).ok;
            if j < d.len() {
                assert(!d[j].ok);
            }
        }
        if forall|i: int| 0 <= i < d.len() ==> (#[trigger] d[i]).ok {
            if last.ok {
                assert forall|i: int| 0 <= i < cs.len() implies (#[trigger] cs[i]).ok by {
                    if i < d.len() {
                        assert(d[i] == cs[i]);
                    }
                }
            }
        }
    }
}

} // verus!
