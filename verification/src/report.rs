//! The report of a policy evaluation: activated quasi-identifiers, the
//! equivalence classes with their k/l/t outcome, the limits the data
//! satisfies, and what is at risk.

use vstd::prelude::*;
use crate::binding::{Binding, BindingBox};
use crate::fingerprint::{Fingerprint, MarginalFingerprint};
use crate::fraction::Fraction;
use crate::ocel::OcelData;
use crate::policy::{dedup, AnonPolicy, Ratio};
use crate::properties::{
    build_context, elements_at_risk, emd_value, eval_k, eval_l, eval_t, find_k_max, find_l_max, find_t_min,
    is_context, is_k_max, is_l_max, is_t_min, member_tuples, ranked_members, sensitive_values_at_risk, t_trivial,
    tuple_at_risk, values_sorted, within, PolicyContext,
};
use crate::sorting::{sort_strings, text_le};
use crate::value::{copy_values, QidValue, QidView};
use crate::binding::copy_strings;

verus! {

/// Values of one sensitive attribute at risk in some violating class.
#[derive(Debug, Clone)]
pub struct SensitiveAttrRisk {
    /// Attribute name.
    pub attr_name: String,
    /// Distinct at-risk values, in increasing order.
    pub at_risk_values: Vec<QidValue>,
}

/// A set of protected elements sharing one fingerprint.
#[derive(Debug, Clone)]
pub struct EquivClass {
    /// The shared fingerprint (one marginal fingerprint per quasi-identifier).
    pub fingerprint: Fingerprint,
    /// Type-qualified identifiers of the members, in text order.
    pub members: Vec<String>,
    /// Sensitive tuple per member (parallel to `members`).
    pub sensitive_values: Vec<Vec<QidValue>>,
    /// The class has at least `k` members.
    pub k_ok: bool,
    /// `l` is 0 or the class has at least `l` distinct sensitive tuples.
    pub l_ok: bool,
    /// The class's EMD is at most `t` (or t-closeness is not checked).
    pub t_ok: bool,
    /// The class's discrete EMD (`None` when t-closeness is not checked).
    pub emd: Option<Fraction>,
}

/// The full result of evaluating a policy against a binding box's output.
#[derive(Debug, Clone)]
pub struct AnonReport {
    /// At least one quasi-identifier was activated.
    pub policy_activated: bool,
    pub activated_qid_ids: Vec<String>,
    pub non_activated_qid_ids: Vec<String>,
    /// Number of protected elements.
    pub total_protected_elements: usize,
    /// All equivalence classes, largest first.
    pub equiv_classes: Vec<EquivClass>,
    pub k_satisfied: bool,
    pub l_satisfied: bool,
    pub t_satisfied: bool,
    /// Classes violating at least one of k, l, t, in the same order.
    pub violating_classes: Vec<EquivClass>,
    pub k: usize,
    pub l: usize,
    pub t: Ratio,
    /// Size of the smallest class (0 without protected elements).
    pub k_max: usize,
    /// Smallest number of distinct sensitive tuples in a class.
    pub l_max: usize,
    /// Smallest EMD of a class.
    pub t_min: Option<Fraction>,
    /// Type-qualified identifiers in a class with fewer than `k` members.
    pub elements_violating_k: Vec<String>,
    /// Per sensitive attribute, the values at risk.
    pub sensitive_values_at_risk: Vec<SensitiveAttrRisk>,
}

/// `c` is the first class of the map whose members, in text order, are
/// `members`.
pub open spec fn first_class_with(cm: Seq<(Seq<Seq<(QidView, usize)>>, Seq<Seq<char>>)>, members: Seq<Seq<char>>, c: int) -> bool {
    &&& 0 <= c < cm.len()
    &&& cm[c].1.sort_by(text_le()) == members
    &&& forall|d: int| 0 <= d < c ==> (#[trigger] cm[d]).1.sort_by(text_le()) != members
}

/// The fingerprint of the first class whose members are `members`, or the
/// empty fingerprint.
pub open spec fn recovered_fingerprint(
    cm: Seq<(Seq<Seq<(QidView, usize)>>, Seq<Seq<char>>)>,
    members: Seq<Seq<char>>,
) -> Seq<Seq<(QidView, usize)>> {
    if exists|c: int| first_class_with(cm, members, c) {
        cm[choose|c: int| first_class_with(cm, members, c)].0
    } else {
        Seq::empty()
    }
}

/// What the `i`-th class of the report holds.
pub open spec fn is_reported_class(e: EquivClass, ctx: PolicyContext, policy: AnonPolicy, i: int) -> bool {
    let cm = ctx.class_map.deep_view();
    let svs = e.sensitive_values.deep_view();
    &&& e.members.deep_view() == ranked_members(cm, i)
    &&& e.fingerprint.deep_view() == recovered_fingerprint(cm, e.members.deep_view())
    &&& svs == member_tuples(ctx.sens_map.deep_view(), e.members.deep_view())
    &&& e.k_ok == (e.members@.len() >= policy.k)
    &&& e.l_ok == (policy.l == 0 || dedup(svs).len() >= policy.l)
    &&& t_trivial(ctx, policy.t) ==> e.emd is None && e.t_ok
    &&& !t_trivial(ctx, policy.t) ==> (e.emd matches Some(f)
        && f.num as int == emd_value(svs, ctx.global_dist.deep_view(), ctx.global_total as int).0
        && f.den as int == emd_value(svs, ctx.global_dist.deep_view(), ctx.global_total as int).1
        && e.t_ok == within(f, policy.t))
}

/// The class violates k-anonymity, l-diversity or t-closeness.
pub open spec fn violates(e: EquivClass) -> bool {
    !e.k_ok || !e.l_ok || !e.t_ok
}

/// The classes that violate a property, in order.
pub open spec fn violating(cs: Seq<EquivClass>) -> Seq<EquivClass>
    decreases cs.len(),
{
    if cs.len() == 0 {
        Seq::empty()
    } else if violates(cs.last()) {
        violating(cs.drop_last()).push(cs.last())
    } else {
        violating(cs.drop_last())
    }
}

/// The members of the classes violating k-anonymity, class after class.
pub open spec fn k_risk_members(cs: Seq<EquivClass>) -> Seq<Seq<char>>
    decreases cs.len(),
{
    if cs.len() == 0 {
        Seq::empty()
    } else if cs.last().k_ok {
        k_risk_members(cs.drop_last())
    } else {
        k_risk_members(cs.drop_last()) + cs.last().members.deep_view()
    }
}

/// `v` is the value at position `a` of a sensitive tuple of a class that
/// violates l-diversity or t-closeness.
pub open spec fn report_at_risk(cs: Seq<EquivClass>, a: int, v: QidView) -> bool {
    exists|i: int| 0 <= i < cs.len() && (!cs[i].l_ok || !cs[i].t_ok)
        && tuple_at_risk((#[trigger] cs[i]).sensitive_values.deep_view(), a, v)
}

/// What `check_policy` reports for the context `ctx` of the policy.
pub open spec fn is_report(r: AnonReport, ctx: PolicyContext, policy: AnonPolicy) -> bool {
    let cs = r.equiv_classes@;
    &&& r.policy_activated == (ctx.activated_qid_ids@.len() > 0)
    &&& r.activated_qid_ids.deep_view() == ctx.activated_qid_ids.deep_view()
    &&& r.non_activated_qid_ids.deep_view() == ctx.non_activated_qid_ids.deep_view()
    &&& r.total_protected_elements == ctx.global_total
    &&& cs.len() == ctx.class_map@.len()
    &&& forall|i: int| 0 <= i < cs.len() ==> is_reported_class(#[trigger] cs[i], ctx, policy, i)
    &&& r.k_satisfied == forall|i: int| 0 <= i < cs.len() ==> (#[trigger] cs[i]).k_ok
    &&& r.l_satisfied == forall|i: int| 0 <= i < cs.len() ==> (#[trigger] cs[i]).l_ok
    &&& r.t_satisfied == forall|i: int| 0 <= i < cs.len() ==> (#[trigger] cs[i]).t_ok
    &&& r.violating_classes@.len() == violating(cs).len()
    &&& forall|j: int| 0 <= j < r.violating_classes@.len() ==> same_class(#[trigger] r.violating_classes@[j], violating(cs)[j])
    &&& r.k == policy.k
    &&& r.l == policy.l
    &&& r.t == policy.t
    &&& is_k_max(r.k_max, ctx)
    &&& is_l_max(r.l_max, ctx)
    &&& is_t_min(r.t_min, ctx, cs.map_values(|c: EquivClass| c.emd))
    &&& r.elements_violating_k.deep_view() == k_risk_members(cs)
    &&& r.sensitive_values_at_risk@.len() == policy.sensitive_attrs@.len()
    &&& forall|a: int| 0 <= a < r.sensitive_values_at_risk@.len() ==> {
        let e = #[trigger] r.sensitive_values_at_risk@[a];
        &&& e.attr_name@ == policy.sensitive_attrs@[a]@
        &&& values_sorted(e.at_risk_values.deep_view())
        &&& forall|w: QidView| #[trigger] e.at_risk_values.deep_view().contains(w) <==> report_at_risk(cs, a, w)
    }
}

/// `true` iff the two sequences of strings are equal.
fn same_strings(a: &Vec<String>, b: &Vec<String>) -> (r: bool)
    ensures
        r == (a.deep_view() == b.deep_view()),
{
    if a.len() != b.len() {
        assert(a.deep_view().len() != b.deep_view().len());
        return false;
    }
    let mut i: usize = 0;
    while i < a.len()
        invariant
            i <= a@.len(),
            a@.len() == b@.len(),
            forall|j: int| 0 <= j < i ==> a.deep_view()[j] == b.deep_view()[j],
        decreases a.len() - i,
    {
        assert(a.deep_view()[i as int] == a@[i as int]@);
        assert(b.deep_view()[i as int] == b@[i as int]@);
        if a[i] != b[i] {
            assert(a.deep_view()[i as int] != b.deep_view()[i as int]);
            return false;
        }
        i = i + 1;
    }
    assert(a.deep_view() =~= b.deep_view());
    true
}

/// A copy of a fingerprint.
fn copy_fingerprint(f: &Fingerprint) -> (r: Fingerprint)
    ensures
        r.deep_view() == f.deep_view(),
{
    let mut r: Fingerprint = Vec::new();
    let mut j: usize = 0;
    while j < f.len()
        invariant
            j <= f@.len(),
            r.deep_view() == f.deep_view().take(j as int),
        decreases f.len() - j,
    {
        let mut m: MarginalFingerprint = Vec::new();
        let mut k: usize = 0;
        while k < f[j].len()
            invariant
                j < f@.len(),
                k <= f@[j as int]@.len(),
                m.deep_view() == f.deep_view()[j as int].take(k as int),
            decreases f@[j as int]@.len() - k,
        {
            let e = (f[j][k].0.duplicate(), f[j][k].1);
            let ghost before = m.deep_view();
            m.push(e);
            assert(m.deep_view() =~= before.push(f.deep_view()[j as int][k as int]));
            assert(f.deep_view()[j as int].take(k + 1) =~= f.deep_view()[j as int].take(k as int).push(f.deep_view()[j as int][k as int]));
            k = k + 1;
        }
        assert(f.deep_view()[j as int].take(k as int) =~= f.deep_view()[j as int]);
        let ghost before = r.deep_view();
        r.push(m);
        assert(r.deep_view() =~= before.push(f.deep_view()[j as int]));
        assert(f.deep_view().take(j + 1) =~= f.deep_view().take(j as int).push(f.deep_view()[j as int]));
        j = j + 1;
    }
    assert(f.deep_view().take(j as int) =~= f.deep_view());
    r
}

/// The fingerprint of the first class whose members, in text order, are `members`.
fn fingerprint_of_members(ctx: &PolicyContext, members: &Vec<String>) -> (r: Fingerprint)
    ensures
        r.deep_view() == recovered_fingerprint(ctx.class_map.deep_view(), members.deep_view()),
{
    let ghost cm = ctx.class_map.deep_view();
    let mut c: usize = 0;
    while c < ctx.class_map.len()
        invariant
            c <= cm.len(),
            cm == ctx.class_map.deep_view(),
            forall|d: int| 0 <= d < c ==> (#[trigger] cm[d]).1.sort_by(text_le()) != members.deep_view(),
        decreases cm.len() - c,
    {
        let sorted = sort_strings(&ctx.class_map[c].1);
        if same_strings(&sorted, members) {
            proof {
                assert(first_class_with(cm, members.deep_view(), c as int));
                let x = choose|x: int| first_class_with(cm, members.deep_view(), x);
                if x < c {
                    assert(cm[x].1.sort_by(text_le()) != members.deep_view());
                } else if x > c {
                    assert(cm[c as int].1.sort_by(text_le()) != members.deep_view());
                }
            }
            return copy_fingerprint(&ctx.class_map[c].0);
        }
        c = c + 1;
    }
    let r: Fingerprint = Vec::new();
    proof {
        assert forall|x: int| !first_class_with(cm, members.deep_view(), x) by {
            if 0 <= x < cm.len() {
                assert(cm[x].1.sort_by(text_le()) != members.deep_view());
            }
        }
        assert(r.deep_view() =~= Seq::<Seq<(QidView, usize)>>::empty());
    }
    r
}

/// The two classes hold the same values.
pub open spec fn same_class(a: EquivClass, b: EquivClass) -> bool {
    &&& a.fingerprint.deep_view() == b.fingerprint.deep_view()
    &&& a.members.deep_view() == b.members.deep_view()
    &&& a.members@.len() == b.members@.len()
    &&& a.sensitive_values.deep_view() == b.sensitive_values.deep_view()
    &&& a.k_ok == b.k_ok
    &&& a.l_ok == b.l_ok
    &&& a.t_ok == b.t_ok
    &&& a.emd == b.emd
}

/// A copy of a list of tuples.
fn copy_tuples(v: &Vec<Vec<QidValue>>) -> (r: Vec<Vec<QidValue>>)
    ensures
        r.deep_view() == v.deep_view(),
{
    let mut r: Vec<Vec<QidValue>> = Vec::new();
    let mut i: usize = 0;
    while i < v.len()
        invariant
            i <= v@.len(),
            r.deep_view() == v.deep_view().take(i as int),
        decreases v.len() - i,
    {
        let ghost before = r.deep_view();
        r.push(copy_values(&v[i]));
        assert(r.deep_view() =~= before.push(v.deep_view()[i as int]));
        assert(v.deep_view().take(i + 1) =~= v.deep_view().take(i as int).push(v.deep_view()[i as int]));
        i = i + 1;
    }
    assert(v.deep_view().take(i as int) =~= v.deep_view());
    r
}

/// A copy of a class.
fn copy_class(e: &EquivClass) -> (r: EquivClass)
    ensures
        same_class(r, *e),
{
    let members = copy_strings(&e.members);
    assert(members@.len() == members.deep_view().len());
    assert(e.members@.len() == e.members.deep_view().len());
    EquivClass {
        fingerprint: copy_fingerprint(&e.fingerprint),
        members,
        sensitive_values: copy_tuples(&e.sensitive_values),
        k_ok: e.k_ok,
        l_ok: e.l_ok,
        t_ok: e.t_ok,
        emd: e.emd,
    }
}

proof fn lemma_k_risk_matches(kcs: Seq<crate::properties::KClass>, cs: Seq<EquivClass>)
    requires
        kcs.len() == cs.len(),
        forall|i: int| 0 <= i < cs.len() ==> (#[trigger] cs[i]).k_ok == kcs[i].ok
            && cs[i].members.deep_view() == kcs[i].members.deep_view(),
    ensures
        crate::properties::risk_members(kcs) == k_risk_members(cs),
    decreases cs.len(),
{
    if cs.len() > 0 {
        let kd = kcs.drop_last();
        let cd = cs.drop_last();
        assert forall|i: int| 0 <= i < cd.len() implies (#[trigger] cd[i]).k_ok == kd[i].ok
            && cd[i].members.deep_view() == kd[i].members.deep_view() by {
            assert(cd[i] == cs[i]);
            assert(kd[i] == kcs[i]);
        }
        lemma_k_risk_matches(kd, cd);
        assert(cs[cs.len() - 1].k_ok == kcs[kcs.len() - 1].ok);
    }
}

/// Runs the evaluation layers on the context of `policy` and assembles the
/// report: per class (largest first) its fingerprint, members, sensitive
/// tuples and k/l/t outcome; the global outcomes; the limits the data
/// satisfies; and what is at risk.
pub fn check_policy(policy: &AnonPolicy, bbox: &BindingBox, out: &[Binding], ocel: &OcelData) -> (r: AnonReport)
    requires
        forall|i: int| 0 <= i < out@.len() ==> ocel.holds_binding(#[trigger] out@[i]),
    ensures
        exists|ctx: PolicyContext| #[trigger] is_context(ctx, *policy, *bbox, out@, *ocel) && is_report(r, ctx, *policy),
{
    let ctx = build_context(policy, bbox, out, ocel);
    let k_result = eval_k(&ctx, policy.k);
    let l_result = eval_l(&ctx, policy.l);
    let t_result = eval_t(&ctx, policy.t);
    let k_max = find_k_max(&ctx);
    let l_max = find_l_max(&ctx);
    let t_min = find_t_min(&ctx, &t_result);
    let elements_violating_k = elements_at_risk(&k_result);
    let at_risk = sensitive_values_at_risk(&l_result, &t_result, &policy.sensitive_attrs);
    let mut equiv_classes: Vec<EquivClass> = Vec::new();
    let mut i: usize = 0;
    while i < k_result.classes.len()
        invariant
            i <= k_result.classes@.len(),
            crate::properties::is_k_result(k_result, ctx, policy.k),
            l_result.classes@.len() == ctx.class_map@.len(),
            t_result.classes@.len() == ctx.class_map@.len(),
            forall|j: int| 0 <= j < l_result.classes@.len() ==> {
                let c = #[trigger] l_result.classes@[j];
                &&& c.members.deep_view() == ranked_members(ctx.class_map.deep_view(), j)
                &&& c.sensitive_values.deep_view() == member_tuples(ctx.sens_map.deep_view(), c.members.deep_view())
                &&& c.distinct_count == dedup(c.sensitive_values.deep_view()).len()
                &&& c.ok == (policy.l == 0 || c.distinct_count >= policy.l)
            },
            forall|j: int| 0 <= j < t_result.classes@.len() ==> {
                let c = #[trigger] t_result.classes@[j];
                &&& c.members.deep_view() == ranked_members(ctx.class_map.deep_view(), j)
                &&& c.sensitive_values.deep_view() == member_tuples(ctx.sens_map.deep_view(), c.members.deep_view())
                &&& t_trivial(ctx, policy.t) ==> c.emd is None && c.ok
                &&& !t_trivial(ctx, policy.t) ==> (c.emd matches Some(e)
                    && e.num as int == emd_value(c.sensitive_values.deep_view(), ctx.global_dist.deep_view(), ctx.global_total as int).0
                    && e.den as int == emd_value(c.sensitive_values.deep_view(), ctx.global_dist.deep_view(), ctx.global_total as int).1
                    && c.ok == within(e, policy.t))
            },
            equiv_classes@.len() == i,
            forall|j: int| 0 <= j < i ==> is_reported_class(#[trigger] equiv_classes@[j], ctx, *policy, j)
                && equiv_classes@[j].k_ok == k_result.classes@[j].ok
                && equiv_classes@[j].l_ok == l_result.classes@[j].ok
                && equiv_classes@[j].t_ok == t_result.classes@[j].ok
                && equiv_classes@[j].emd == t_result.classes@[j].emd
                && equiv_classes@[j].sensitive_values.deep_view() == l_result.classes@[j].sensitive_values.deep_view()
                && equiv_classes@[j].sensitive_values.deep_view() == t_result.classes@[j].sensitive_values.deep_view()
                && equiv_classes@[j].members.deep_view() == k_result.classes@[j].members.deep_view(),
        decreases k_result.classes.len() - i,
    {
        let kc = &k_result.classes[i];
        let lc = &l_result.classes[i];
        let tc = &t_result.classes[i];
        let members = copy_strings(&kc.members);
        let fingerprint = fingerprint_of_members(&ctx, &members);
        let sensitive_values = copy_tuples(&lc.sensitive_values);
        proof {
            assert(members@.len() == members.deep_view().len());
            assert(kc.members@.len() == kc.members.deep_view().len());
        }
        let item = EquivClass {
            fingerprint,
            members,
            sensitive_values,
            k_ok: kc.ok,
            l_ok: lc.ok,
            t_ok: tc.ok,
            emd: tc.emd,
        };
        let ghost before = equiv_classes@;
        equiv_classes.push(item);
        proof {
            assert(equiv_classes@ == before.push(item));
            assert(forall|j: int| 0 <= j < i ==> equiv_classes@[j] == before[j]);
            assert(is_reported_class(item, ctx, *policy, i as int));
        }
        i = i + 1;
    }
    let ghost cs = equiv_classes@;
    let mut violating_classes: Vec<EquivClass> = Vec::new();
    let mut v: usize = 0;
    assert(cs.take(0) =~= Seq::<EquivClass>::empty());
    while v < equiv_classes.len()
        invariant
            v <= cs.len(),
            cs == equiv_classes@,
            violating_classes@.len() == violating(cs.take(v as int)).len(),
            forall|j: int| 0 <= j < violating_classes@.len() ==> same_class(#[trigger] violating_classes@[j], violating(cs.take(v as int))[j]),
        decreases cs.len() - v,
    {
        let e = &equiv_classes[v];
        proof {
            assert(cs.take(v + 1).drop_last() =~= cs.take(v as int));
            assert(cs.take(v + 1).last() == *e);
        }
        if !e.k_ok || !e.l_ok || !e.t_ok {
            let copy = copy_class(e);
            let ghost before = violating_classes@;
            violating_classes.push(copy);
            proof {
                assert(violating_classes@ == before.push(copy));
                assert forall|j: int| 0 <= j < violating_classes@.len() implies same_class(#[trigger] violating_classes@[j], violating(cs.take(v + 1))[j]) by {
                    if j < before.len() {
                        assert(violating_classes@[j] == before[j]);
                    }
                }
            }
        }
        v = v + 1;
    }
    assert(cs.take(v as int) =~= cs);
    let report = AnonReport {
        policy_activated: ctx.policy_activated(),
        activated_qid_ids: copy_strings(&ctx.activated_qid_ids),
        non_activated_qid_ids: copy_strings(&ctx.non_activated_qid_ids),
        total_protected_elements: ctx.global_total,
        equiv_classes,
        k_satisfied: k_result.satisfied,
        l_satisfied: l_result.satisfied,
        t_satisfied: t_result.satisfied,
        violating_classes,
        k: policy.k,
        l: policy.l,
        t: policy.t,
        k_max,
        l_max,
        t_min,
        elements_violating_k,
        sensitive_values_at_risk: at_risk,
    };
    proof {
        let cs = report.equiv_classes@;
        assert(report.k_satisfied == forall|j: int| 0 <= j < cs.len() ==> (#[trigger] cs[j]).k_ok) by {
            if report.k_satisfied {
                assert forall|j: int| 0 <= j < cs.len() implies (#[trigger] cs[j]).k_ok by {
                    assert(k_result.classes@[j].ok);
                }
            } else {
                let j = choose|j: int| 0 <= j < k_result.classes@.len() && !(#[trigger] k_result.classes@[j]).ok;
                assert(!cs[j].k_ok);
            }
        }
        assert(report.l_satisfied == forall|j: int| 0 <= j < cs.len() ==> (#[trigger] cs[j]).l_ok) by {
            if report.l_satisfied {
                assert forall|j: int| 0 <= j < cs.len() implies (#[trigger] cs[j]).l_ok by {
                    assert(l_result.classes@[j].ok);
                }
            } else {
                let j = choose|j: int| 0 <= j < l_result.classes@.len() && !(#[trigger] l_result.classes@[j]).ok;
                assert(!cs[j].l_ok);
            }
        }
        assert(report.t_satisfied == forall|j: int| 0 <= j < cs.len() ==> (#[trigger] cs[j]).t_ok) by {
            if report.t_satisfied {
                assert forall|j: int| 0 <= j < cs.len() implies (#[trigger] cs[j]).t_ok by {
                    assert(t_result.classes@[j].ok);
                }
            } else {
                let j = choose|j: int| 0 <= j < t_result.classes@.len() && !(#[trigger] t_result.classes@[j]).ok;
                assert(!cs[j].t_ok);
            }
        }
        assert(cs.map_values(|c: EquivClass| c.emd) =~= t_result.classes@.map_values(|c: crate::properties::TClass| c.emd));
        lemma_k_risk_matches(k_result.classes@, cs);
        assert forall|a: int| 0 <= a < report.sensitive_values_at_risk@.len() implies {
            let e = #[trigger] report.sensitive_values_at_risk@[a];
            forall|w: QidView| #[trigger] e.at_risk_values.deep_view().contains(w) <==> report_at_risk(cs, a, w)
        } by {
            let e = report.sensitive_values_at_risk@[a];
            assert forall|w: QidView| #[trigger] e.at_risk_values.deep_view().contains(w) <==> report_at_risk(cs, a, w) by {
                assert(e.at_risk_values.deep_view().contains(w) <==> crate::properties::at_risk(l_result, t_result, a, w));
                if report_at_risk(cs, a, w) {
                    let j = choose|j: int| 0 <= j < cs.len() && (!cs[j].l_ok || !cs[j].t_ok)
                        && tuple_at_risk((#[trigger] cs[j]).sensitive_values.deep_view(), a, w);
                    if !cs[j].l_ok {
                        assert(tuple_at_risk(l_result.classes@[j].sensitive_values.deep_view(), a, w));
                    } else {
                        assert(tuple_at_risk(t_result.classes@[j].sensitive_values.deep_view(), a, w));
                    }
                }
                if crate::properties::at_risk(l_result, t_result, a, w) {
                    if exists|j: int| 0 <= j < l_result.classes@.len() && !l_result.classes@[j].ok
                        && tuple_at_risk((#[trigger] l_result.classes@[j]).sensitive_values.deep_view(), a, w) {
                        let j = choose|j: int| 0 <= j < l_result.classes@.len() && !l_result.classes@[j].ok
                            && tuple_at_risk((#[trigger] l_result.classes@[j]).sensitive_values.deep_view(), a, w);
                        assert(tuple_at_risk(cs[j].sensitive_values.deep_view(), a, w));
                    } else {
                        let j = choose|j: int| 0 <= j < t_result.classes@.len() && !t_result.classes@[j].ok
                            && tuple_at_risk((#[trigger] t_result.classes@[j]).sensitive_values.deep_view(), a, w);
                        assert(tuple_at_risk(cs[j].sensitive_values.deep_view(), a, w));
                    }
                }
            }
        }
        assert(is_report(report, ctx, *policy));
    }
    report
}

} // verus!
