//! Anonymity-policy data: patterns, quasi-identifiers and policies, with
//! their well-formedness checks.

use vstd::prelude::*;
use crate::text::{
    decimal, decimal_text, decimal_u64, fraction_digits, long_digits, long_rem, set_debug_text, set_text, signed_decimal,
    signed_decimal_text,
};
use crate::binding::{
    copy_filters, copy_strings, BindingBox, EventVariable, Filter, ObjectVariable, VarTypes, Variable,
};

verus! {

/// A binding box restricted to the structural predicates `O2E`, `O2O` and
/// `TimeBetweenEvents`.
#[derive(Debug)]
pub struct Pattern {
    /// Declared event variables and admissible types.
    pub event_vars: VarTypes<EventVariable>,
    /// Declared object variables and admissible types.
    pub object_vars: VarTypes<ObjectVariable>,
    /// Structural predicates only.
    pub filters: Vec<Filter>,
}

/// Why a pattern, quasi-identifier or policy is rejected.
#[derive(Debug)]
pub enum PolicyError {
    /// The box holds a filter outside the structural fragment (the first one).
    NonStructuralFilter(Filter),
    /// The protected event variable is not declared in the pattern.
    ProtectedEventVarMissing { qid: String, var: EventVariable },
    /// The protected object variable is not declared in the pattern.
    ProtectedObjectVarMissing { qid: String, var: ObjectVariable },
    /// The source event variable is not declared in the pattern.
    SourceEventVarMissing { qid: String, var: EventVariable },
    /// The source object variable is not declared in the pattern.
    SourceObjectVarMissing { qid: String, var: ObjectVariable },
    /// The policy has no quasi-identifier.
    NoQids,
    /// This quasi-identifier's protected types differ from the first one's.
    /// Its protected types, and the first one's, each once.
    ProtectedTypesMismatch { qid: String, types: Vec<String>, first_types: Vec<String> },
    /// `k` is zero.
    KTooSmall,
    /// `t` is not a number in `[0, 1]`.
    TOutOfRange(Ratio),
}

/// A fraction `num / den`; a zero denominator stands for no number.
#[derive(PartialEq, Eq, Structural, Clone, Copy, Debug)]
pub struct Ratio {
    pub num: i64,
    pub den: u64,
}

impl Ratio {
    /// `num / den` is a number in `[0, 1]`.
    pub open spec fn in_unit(self) -> bool {
        self.den > 0 && 0 <= self.num && self.num <= self.den
    }

    /// `num / den` is a number of at least 1.
    pub open spec fn at_least_one(self) -> bool {
        self.den > 0 && self.num >= self.den
    }
}

/// `true` iff the filter is one of the structural predicates.
pub open spec fn structural(f: Filter) -> bool {
    !(f is NotEqual)
}

/// The position of the first filter outside the structural fragment.
pub open spec fn first_non_structural(fs: Seq<Filter>, i: int) -> bool {
    &&& 0 <= i < fs.len()
    &&& !structural(fs[i])
    &&& forall|j: int| 0 <= j < i ==> structural(fs[j])
}

impl Pattern {
    /// Builds a pattern from `bbox`; fails on the first filter outside the
    /// structural fragment.
    pub fn try_from_box(bbox: &BindingBox) -> (r: Result<Pattern, PolicyError>)
        ensures
            (forall|j: int| 0 <= j < bbox.filters@.len() ==> structural(#[trigger] bbox.filters@[j]))
                <==> r is Ok,
            r matches Ok(p) ==> {
                &&& p.event_vars@ == bbox.new_event_vars@
                &&& p.object_vars@ == bbox.new_object_vars@
                &&& p.filters@ == bbox.filters@
            },
            r matches Err(e) ==> exists|i: int|
                first_non_structural(bbox.filters@, i) && e == PolicyError::NonStructuralFilter(
                    bbox.filters@[i],
                ),
    {
        let mut i: usize = 0;
        while i < bbox.filters.len()
            invariant
                i <= bbox.filters.len(),
                forall|j: int| 0 <= j < i ==> structural(#[trigger] bbox.filters@[j]),
            decreases bbox.filters.len() - i,
        {
            match &bbox.filters[i] {
                Filter::NotEqual { .. } => {
                    assert(first_non_structural(bbox.filters@, i as int));
                    return Err(PolicyError::NonStructuralFilter(bbox.filters[i].duplicate()));
                },
                _ => {},
            }
            i = i + 1;
        }
        Ok(Pattern {
            event_vars: bbox.new_event_vars.duplicate(),
            object_vars: bbox.new_object_vars.duplicate(),
            filters: copy_filters(&bbox.filters),
        })
    }

    /// Event variables declared by this pattern, in declaration order.
    pub fn all_event_vars(&self) -> (r: Vec<EventVariable>)
        ensures
            r@ == self.event_vars.vars(),
    {
        self.event_vars.keys()
    }

    /// Object variables declared by this pattern, in declaration order.
    pub fn all_object_vars(&self) -> (r: Vec<ObjectVariable>)
        ensures
            r@ == self.object_vars.vars(),
    {
        self.object_vars.keys()
    }
}

/// The attribute a quasi-identifier reads from its source variable.
#[derive(Debug)]
pub enum QidAttribute {
    /// The element's identifier.
    Id,
    /// The event's timestamp; objects have none.
    Timestamp,
    /// A named attribute.
    Named(String),
}

/// The protected variable of a quasi-identifier.
#[derive(PartialEq, Eq, Structural, Clone, Copy, Debug)]
pub enum ProtectedVar {
    Event(EventVariable),
    Object(ObjectVariable),
}

/// The source variable of a quasi-identifier.
#[derive(PartialEq, Eq, Structural, Clone, Copy, Debug)]
pub enum SourceVar {
    Event(EventVariable),
    Object(ObjectVariable),
}

/// A quasi-identifier: pattern, protected variable, source variable and the
/// attribute read from the source.
#[derive(Debug)]
pub struct QuasiIdentifier {
    /// Human-readable identifier, used in reports.
    pub id: String,
    pub pattern: Pattern,
    pub protected_var: ProtectedVar,
    pub source_var: SourceVar,
    pub attribute: QidAttribute,
}

/// What `QuasiIdentifier::validate` answers: the protected variable is
/// checked first, then the source variable.
pub open spec fn qid_verdict(q: QuasiIdentifier) -> Result<(), PolicyError> {
    let pe = q.pattern.event_vars;
    let po = q.pattern.object_vars;
    match q.protected_var {
        ProtectedVar::Event(ev) if pe.types_of(ev) is None =>
            Err(PolicyError::ProtectedEventVarMissing { qid: q.id, var: ev }),
        ProtectedVar::Object(ov) if po.types_of(ov) is None =>
            Err(PolicyError::ProtectedObjectVarMissing { qid: q.id, var: ov }),
        _ => match q.source_var {
            SourceVar::Event(ev) if pe.types_of(ev) is None =>
                Err(PolicyError::SourceEventVarMissing { qid: q.id, var: ev }),
            SourceVar::Object(ov) if po.types_of(ov) is None =>
                Err(PolicyError::SourceObjectVarMissing { qid: q.id, var: ov }),
            _ => Ok(()),
        },
    }
}

impl QuasiIdentifier {
    /// Checks that the protected and source variables are declared in the
    /// pattern.
    pub fn validate(&self) -> (r: Result<(), PolicyError>)
        ensures
            r == qid_verdict(*self),
    {
        match &self.protected_var {
            ProtectedVar::Event(ev) => {
                if !self.pattern.event_vars.contains_key(ev) {
                    return Err(PolicyError::ProtectedEventVarMissing { qid: self.id.clone(), var: *ev });
                }
            },
            ProtectedVar::Object(ov) => {
                if !self.pattern.object_vars.contains_key(ov) {
                    return Err(PolicyError::ProtectedObjectVarMissing { qid: self.id.clone(), var: *ov });
                }
            },
        }
        match &self.source_var {
            SourceVar::Event(ev) => {
                if !self.pattern.event_vars.contains_key(ev) {
                    return Err(PolicyError::SourceEventVarMissing { qid: self.id.clone(), var: *ev });
                }
            },
            SourceVar::Object(ov) => {
                if !self.pattern.object_vars.contains_key(ov) {
                    return Err(PolicyError::SourceObjectVarMissing { qid: self.id.clone(), var: *ov });
                }
            },
        }
        Ok(())
    }
}

/// Quasi-identifiers, sensitive attribute names, and the parameters `k`, `l`
/// and `t` (a fraction).
#[derive(Debug)]
pub struct AnonPolicy {
    /// The quasi-identifiers (at least one for a valid policy).
    pub qids: Vec<QuasiIdentifier>,
    /// Sensitive attribute names; may be empty.
    pub sensitive_attrs: Vec<String>,
    /// k-anonymity parameter.
    pub k: usize,
    /// l-diversity parameter (`0` is trivially satisfied).
    pub l: usize,
    /// t-closeness parameter (`1` is trivially satisfied).
    pub t: Ratio,
}

/// The types declared for the quasi-identifier's protected variable (empty
/// if it is not declared).
pub open spec fn prot_types(q: QuasiIdentifier) -> Seq<Seq<char>> {
    match q.protected_var {
        ProtectedVar::Event(ev) => match q.pattern.event_vars.types_of(ev) {
            Some(t) => t,
            None => Seq::empty(),
        },
        ProtectedVar::Object(ov) => match q.pattern.object_vars.types_of(ov) {
            Some(t) => t,
            None => Seq::empty(),
        },
    }
}

/// `s` without repeated elements, keeping first occurrences in order.
pub open spec fn dedup<A>(s: Seq<A>) -> Seq<A>
    decreases s.len(),
{
    if s.len() == 0 {
        Seq::empty()
    } else {
        let d = dedup(s.drop_last());
        if d.contains(s.last()) {
            d
        } else {
            d.push(s.last())
        }
    }
}

/// `i` is the first quasi-identifier that fails its own check.
pub open spec fn first_invalid(qs: Seq<QuasiIdentifier>, i: int) -> bool {
    &&& 0 <= i < qs.len()
    &&& qid_verdict(qs[i]) is Err
    &&& forall|j: int| 0 <= j < i ==> qid_verdict(#[trigger] qs[j]) is Ok
}

/// `i` is the first quasi-identifier whose protected types, as a set, differ
/// from the first one's.
pub open spec fn first_mismatch(qs: Seq<QuasiIdentifier>, i: int) -> bool {
    &&& 1 <= i < qs.len()
    &&& prot_types(qs[i]).to_set() != prot_types(qs[0]).to_set()
    &&& forall|j: int| 1 <= j < i ==> prot_types(#[trigger] qs[j]).to_set() == prot_types(qs[0]).to_set()
}

/// `r` is what `AnonPolicy::validate` answers: a non-empty set of valid
/// quasi-identifiers agreeing on the protected types, `k ≥ 1` and
/// `0 ≤ t ≤ 1`, checked in that order. A disagreement names the first
/// quasi-identifier that disagrees, its protected types and the first one's.
pub open spec fn is_policy_verdict(r: Result<(), PolicyError>, p: AnonPolicy) -> bool {
    let qs = p.qids@;
    if qs.len() == 0 {
        r == Err::<(), PolicyError>(PolicyError::NoQids)
    } else if exists|i: int| first_invalid(qs, i) {
        r == qid_verdict(qs[choose|i: int| first_invalid(qs, i)])
    } else if exists|i: int| first_mismatch(qs, i) {
        let c = choose|i: int| first_mismatch(qs, i);
        &&& r matches Err(PolicyError::ProtectedTypesMismatch { qid, types, first_types })
        &&& r->Err_0->ProtectedTypesMismatch_qid == qs[c].id
        &&& r->Err_0->ProtectedTypesMismatch_types.deep_view() == dedup(prot_types(qs[c]))
        &&& r->Err_0->ProtectedTypesMismatch_first_types.deep_view() == dedup(prot_types(qs[0]))
    } else if p.k < 1 {
        r == Err::<(), PolicyError>(PolicyError::KTooSmall)
    } else if !p.t.in_unit() {
        r == Err::<(), PolicyError>(PolicyError::TOutOfRange(p.t))
    } else {
        r == Ok::<(), PolicyError>(())
    }
}

/// `true` iff `s` occurs in `v`.
pub fn contains_text(v: &Vec<String>, s: &String) -> (r: bool)
    ensures
        r == v.deep_view().contains(s@),
{
    let mut i: usize = 0;
    while i < v.len()
        invariant
            i <= v.len(),
            forall|j: int| 0 <= j < i ==> v.deep_view()[j] != s@,
        decreases v.len() - i,
    {
        if v[i] == *s {
            assert(v.deep_view()[i as int] == s@);
            return true;
        }
        i = i + 1;
    }
    false
}

/// `true` iff `a` and `b` hold the same strings.
fn same_text_set(a: &Vec<String>, b: &Vec<String>) -> (r: bool)
    ensures
        r == (a.deep_view().to_set() == b.deep_view().to_set()),
{
    let mut i: usize = 0;
    while i < a.len()
        invariant
            i <= a.len(),
            forall|j: int| 0 <= j < i ==> b.deep_view().contains(#[trigger] a.deep_view()[j]),
        decreases a.len() - i,
    {
        if !contains_text(b, &a[i]) {
            assert(a.deep_view().to_set().contains(a.deep_view()[i as int]));
            return false;
        }
        i = i + 1;
    }
    let mut j: usize = 0;
    while j < b.len()
        invariant
            j <= b.len(),
            forall|x: int| 0 <= x < a.len() ==> b.deep_view().contains(#[trigger] a.deep_view()[x]),
            forall|x: int| 0 <= x < j ==> a.deep_view().contains(#[trigger] b.deep_view()[x]),
        decreases b.len() - j,
    {
        if !contains_text(a, &b[j]) {
            assert(b.deep_view().to_set().contains(b.deep_view()[j as int]));
            return false;
        }
        j = j + 1;
    }
    assert(a.deep_view().to_set() =~= b.deep_view().to_set());
    true
}

impl AnonPolicy {
    /// Checks: non-empty quasi-identifiers, each valid, all agreeing on the
    /// protected types, `k ≥ 1`, `0 ≤ t ≤ 1`.
    pub fn validate(&self) -> (r: Result<(), PolicyError>)
        ensures
            is_policy_verdict(r, *self),
    {
        let ghost qs = self.qids@;
        if self.qids.len() == 0 {
            return Err(PolicyError::NoQids);
        }
        let mut i: usize = 0;
        while i < self.qids.len()
            invariant
                qs == self.qids@,
                i <= qs.len(),
                forall|j: int| 0 <= j < i ==> qid_verdict(#[trigger] qs[j]) is Ok,
            decreases self.qids.len() - i,
        {
            let v = self.qids[i].validate();
            if v.is_err() {
                proof {
                    assert(first_invalid(qs, i as int));
                    let c = choose|c: int| first_invalid(qs, c);
                    if c < i { assert(qid_verdict(qs[c]) is Ok); }
                    if c > i { assert(qid_verdict(qs[i as int]) is Ok); }
                }
                return v;
            }
            i = i + 1;
        }
        proof {
            assert forall|c: int| !first_invalid(qs, c) by {
                if first_invalid(qs, c) { assert(qid_verdict(qs[c]) is Ok); }
            }
        }
        let first_prot_types = self.protected_types_of(&self.qids[0]);
        let mut j: usize = 1;
        while j < self.qids.len()
            invariant
                qs == self.qids@,
                1 <= j <= qs.len(),
                first_prot_types.deep_view() == prot_types(qs[0]),
                forall|c: int| !first_invalid(qs, c),
                forall|x: int| 1 <= x < j ==> prot_types(#[trigger] qs[x]).to_set() == prot_types(qs[0]).to_set(),
            decreases self.qids.len() - j,
        {
            let types = self.protected_types_of(&self.qids[j]);
            if !same_text_set(&types, &first_prot_types) {
                proof {
                    assert(first_mismatch(qs, j as int));
                    let c = choose|c: int| first_mismatch(qs, c);
                    if c < j { assert(prot_types(qs[c]).to_set() == prot_types(qs[0]).to_set()); }
                    if c > j { assert(prot_types(qs[j as int]).to_set() == prot_types(qs[0]).to_set()); }
                }
                return Err(PolicyError::ProtectedTypesMismatch {
                    qid: self.qids[j].id.clone(),
                    types: dedup_texts(&types),
                    first_types: dedup_texts(&first_prot_types),
                });
            }
            j = j + 1;
        }
        proof {
            assert forall|c: int| !first_mismatch(qs, c) by {
                if first_mismatch(qs, c) { assert(prot_types(qs[c]).to_set() == prot_types(qs[0]).to_set()); }
            }
        }
        if self.k < 1 {
            return Err(PolicyError::KTooSmall);
        }
        if !(self.t.den > 0 && 0 <= self.t.num && self.t.num as i128 <= self.t.den as i128) {
            return Err(PolicyError::TOutOfRange(self.t));
        }
        Ok(())
    }

    /// Type names admitted for the protected variable of `qid`.
    pub fn protected_types_of(&self, qid: &QuasiIdentifier) -> (r: Vec<String>)
        ensures
            r.deep_view() == prot_types(*qid),
    {
        let found = match &qid.protected_var {
            ProtectedVar::Event(ev) => qid.pattern.event_vars.get(ev),
            ProtectedVar::Object(ov) => qid.pattern.object_vars.get(ov),
        };
        match found {
            Some(t) => copy_strings(t),
            None => {
                let r: Vec<String> = Vec::new();
                assert(r.deep_view() =~= Seq::<Seq<char>>::empty());
                r
            },
        }
    }

    /// The protected types of the first quasi-identifier, each once (empty
    /// without quasi-identifiers).
    pub fn protected_type_set(&self) -> (r: Vec<String>)
        ensures
            self.qids@.len() == 0 ==> r.deep_view() == Seq::<Seq<char>>::empty(),
            self.qids@.len() > 0 ==> r.deep_view() == dedup(prot_types(self.qids@[0])),
    {
        if self.qids.len() == 0 {
            let r: Vec<String> = Vec::new();
            assert(r.deep_view() =~= Seq::<Seq<char>>::empty());
            return r;
        }
        dedup_texts(&self.protected_types_of(&self.qids[0]))
    }
}

/// The rendering of a variable in messages.
pub open spec fn var_text(v: Variable) -> Seq<char> {
    match v {
        Variable::Event(e) => "Event(EventVariable("@ + decimal(e.0 as nat) + "))"@,
        Variable::Object(o) => "Object(ObjectVariable("@ + decimal(o.0 as nat) + "))"@,
    }
}

/// The rendering of a filter in messages: a non-structural filter in full,
/// a structural one by its kind.
pub open spec fn filter_text(f: Filter) -> Seq<char> {
    match f {
        Filter::NotEqual { var_1, var_2 } => "NotEqual { var_1: "@ + var_text(var_1) + ", var_2: "@ + var_text(var_2) + " }"@,
        Filter::O2E { .. } => "O2E"@,
        Filter::O2O { .. } => "O2O"@,
        Filter::TimeBetweenEvents { .. } => "TimeBetweenEvents"@,
    }
}

/// The absolute value of `n`.
pub open spec fn magnitude(n: i64) -> nat {
    if n < 0 { (-n) as nat } else { n as nat }
}

/// The rendering of `t` in messages: `NaN` without a number; the exact
/// decimal (`1.1`, `-0.5`, `2`) when it has at most 64 fractional digits;
/// `num/den` otherwise.
pub open spec fn ratio_text(t: Ratio) -> Seq<char> {
    if t.den == 0 {
        "NaN"@
    } else {
        let a = magnitude(t.num);
        let d = t.den as nat;
        let r = a % d;
        if long_rem(r, d, 64) == 0 {
            let unsigned = if r == 0 { decimal(a / d) } else { decimal(a / d) + "."@ + long_digits(r, d, 64) };
            if t.num < 0 { "-"@ + unsigned } else { unsigned }
        } else {
            signed_decimal(t.num as int) + "/"@ + decimal(t.den as nat)
        }
    }
}

fn ratio_message(t: Ratio) -> (r: String)
    ensures
        r@ == ratio_text(t),
{
    if t.den == 0 {
        return String::from_str("NaN");
    }
    let a: u64 = if t.num < 0 {
        if t.num == i64::MIN { 9223372036854775808u64 } else { (-t.num) as u64 }
    } else {
        t.num as u64
    };
    assert(a as nat == magnitude(t.num));
    let d: u64 = t.den;
    let (digs, left) = fraction_digits(a % d, d);
    if left == 0 {
        let mut u = decimal_u64(a / d);
        if a % d != 0 {
            u.append(".");
            u.append(digs.as_str());
        }
        if t.num < 0 {
            let mut r = String::from_str("-");
            r.append(u.as_str());
            r
        } else {
            u
        }
    } else {
        let mut r = signed_decimal_text(t.num);
        r.append("/");
        r.append(decimal_u64(t.den).as_str());
        r
    }
}

/// The strings of `v`, each once, in order of first occurrence.
fn dedup_texts(v: &Vec<String>) -> (r: Vec<String>)
    ensures
        r.deep_view() == dedup(v.deep_view()),
{
    let mut r: Vec<String> = Vec::new();
    let mut i: usize = 0;
    while i < v.len()
        invariant
            i <= v.len(),
            r.deep_view() == dedup(v.deep_view().take(i as int)),
        decreases v.len() - i,
    {
        let ghost before = r.deep_view();
        assert(v.deep_view().take(i + 1).drop_last() =~= v.deep_view().take(i as int));
        if !contains_text(&r, &v[i]) {
            r.push(v[i].clone());
            assert(r.deep_view() =~= before.push(v.deep_view()[i as int]));
        }
        i = i + 1;
    }
    assert(v.deep_view().take(i as int) =~= v.deep_view());
    r
}

/// The message that explains a rejection.
pub open spec fn message_text(e: PolicyError) -> Seq<char> {
    match e {
        PolicyError::NonStructuralFilter(f) =>
            "Pattern may only contain O2E, O2O or TimeBetweenEvents filters; found: "@ + filter_text(f),
        PolicyError::ProtectedEventVarMissing { qid, var } =>
            "QID '"@ + qid@ + "': protected event variable EventVariable("@ + decimal(var.0 as nat) + ") not declared in pattern"@,
        PolicyError::ProtectedObjectVarMissing { qid, var } =>
            "QID '"@ + qid@ + "': protected object variable ObjectVariable("@ + decimal(var.0 as nat) + ") not declared in pattern"@,
        PolicyError::SourceEventVarMissing { qid, var } =>
            "QID '"@ + qid@ + "': source event variable EventVariable("@ + decimal(var.0 as nat) + ") not declared in pattern"@,
        PolicyError::SourceObjectVarMissing { qid, var } =>
            "QID '"@ + qid@ + "': source object variable ObjectVariable("@ + decimal(var.0 as nat) + ") not declared in pattern"@,
        PolicyError::NoQids => "AnonPolicy must have at least one QID"@,
        PolicyError::ProtectedTypesMismatch { qid, types, first_types } =>
            "QID '"@ + qid@ + "' has protected types "@ + set_text(types.deep_view()) + " but first QID has "@
                + set_text(first_types.deep_view()) + "; all QIDs must agree on \u{3c4}_prot"@,
        PolicyError::KTooSmall => "k must be \u{2265} 1"@,
        PolicyError::TOutOfRange(t) => "t must be in [0, 1]; got "@ + ratio_text(t),
    }
}

fn var_message(v: Variable) -> (r: String)
    ensures
        r@ == var_text(v),
{
    match v {
        Variable::Event(e) => {
            let mut r = String::from_str("Event(EventVariable(");
            r.append(decimal_text(e.0).as_str());
            r.append("))");
            r
        },
        Variable::Object(o) => {
            let mut r = String::from_str("Object(ObjectVariable(");
            r.append(decimal_text(o.0).as_str());
            r.append("))");
            r
        },
    }
}

/// `prefix + qid + middle + n + suffix`.
fn variable_message(prefix: &str, qid: &String, middle: &str, n: usize, suffix: &str) -> (r: String)
    ensures
        r@ == prefix@ + qid@ + middle@ + decimal(n as nat) + suffix@,
{
    let mut r = String::from_str(prefix);
    r.append(qid.as_str());
    r.append(middle);
    r.append(decimal_text(n).as_str());
    r.append(suffix);
    r
}

impl PolicyError {
    /// The message that explains this rejection.
    pub fn message(&self) -> (r: String)
        ensures
            r@ == message_text(*self),
    {
        match self {
            PolicyError::NonStructuralFilter(f) => {
                let mut r = String::from_str("Pattern may only contain O2E, O2O or TimeBetweenEvents filters; found: ");
                match f {
                    Filter::NotEqual { var_1, var_2 } => {
                        r.append("NotEqual { var_1: ");
                        r.append(var_message(*var_1).as_str());
                        r.append(", var_2: ");
                        r.append(var_message(*var_2).as_str());
                        r.append(" }");
                    },
                    Filter::O2E { .. } => r.append("O2E"),
                    Filter::O2O { .. } => r.append("O2O"),
                    Filter::TimeBetweenEvents { .. } => r.append("TimeBetweenEvents"),
                }
                r
            },
            PolicyError::ProtectedEventVarMissing { qid, var } =>
                variable_message("QID '", qid, "': protected event variable EventVariable(", var.0, ") not declared in pattern"),
            PolicyError::ProtectedObjectVarMissing { qid, var } =>
                variable_message("QID '", qid, "': protected object variable ObjectVariable(", var.0, ") not declared in pattern"),
            PolicyError::SourceEventVarMissing { qid, var } =>
                variable_message("QID '", qid, "': source event variable EventVariable(", var.0, ") not declared in pattern"),
            PolicyError::SourceObjectVarMissing { qid, var } =>
                variable_message("QID '", qid, "': source object variable ObjectVariable(", var.0, ") not declared in pattern"),
            PolicyError::NoQids => String::from_str("AnonPolicy must have at least one QID"),
            PolicyError::ProtectedTypesMismatch { qid, types, first_types } => {
                let mut r = String::from_str("QID '");
                r.append(qid.as_str());
                r.append("' has protected types ");
                r.append(set_debug_text(types).as_str());
                r.append(" but first QID has ");
                r.append(set_debug_text(first_types).as_str());
                r.append("; all QIDs must agree on \u{3c4}_prot");
                r
            },
            PolicyError::KTooSmall => String::from_str("k must be \u{2265} 1"),
            PolicyError::TOutOfRange(t) => {
                let mut r = String::from_str("t must be in [0, 1]; got ");
                r.append(ratio_message(*t).as_str());
                r
            },
        }
    }
}

} // verus!
