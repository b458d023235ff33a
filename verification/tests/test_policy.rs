use kanon::binding::{BindingBox, EventVariable, Filter, ObjectVariable, VarTypes, Variable};
use kanon::policy::{AnonPolicy, Pattern, ProtectedVar, QidAttribute, QuasiIdentifier, Ratio, SourceVar};
use std::collections::HashSet;

fn strings(names: &[&str]) -> Vec<String> {
    names.iter().map(|s| s.to_string()).collect()
}

fn ev_vars(pairs: Vec<(usize, &[&str])>) -> VarTypes<EventVariable> {
    VarTypes::from_pairs(pairs.into_iter().map(|(v, t)| (EventVariable(v), strings(t))).collect())
}

fn ob_vars(pairs: Vec<(usize, &[&str])>) -> VarTypes<ObjectVariable> {
    VarTypes::from_pairs(pairs.into_iter().map(|(v, t)| (ObjectVariable(v), strings(t))).collect())
}

fn ratio(num: i64, den: u64) -> Ratio {
    Ratio { num, den }
}

fn bbox_o2e() -> BindingBox {
    BindingBox {
        new_object_vars: ob_vars(vec![(0, &["vehicle"])]),
        new_event_vars: ev_vars(vec![(0, &["shipment"])]),
        filters: vec![Filter::O2E {
            object: ObjectVariable(0),
            event: EventVariable(0),
            qualifier: None,
            filter_label: None,
        }],
    }
}

fn bbox_all_structural() -> BindingBox {
    BindingBox {
        new_object_vars: ob_vars(vec![(0, &["vehicle"]), (1, &["depot"])]),
        new_event_vars: ev_vars(vec![(0, &["shipment"]), (1, &["departure"])]),
        filters: vec![
            Filter::O2E { object: ObjectVariable(0), event: EventVariable(0), qualifier: None, filter_label: None },
            Filter::O2O {
                object: ObjectVariable(0),
                other_object: ObjectVariable(1),
                qualifier: Some("docked_at".to_string()),
                filter_label: None,
            },
            Filter::TimeBetweenEvents {
                from_event: EventVariable(0),
                to_event: EventVariable(1),
                min_ms: Some(0),
                max_ms: Some(86_400_000),
            },
        ],
    }
}

fn valid_qid_q1() -> QuasiIdentifier {
    let pattern = Pattern::try_from_box(&bbox_o2e()).unwrap();
    QuasiIdentifier {
        id: "q1".to_string(),
        pattern,
        protected_var: ProtectedVar::Object(ObjectVariable(0)),
        source_var: SourceVar::Event(EventVariable(0)),
        attribute: QidAttribute::Named("customer_segment".to_string()),
    }
}

fn events_only_bbox() -> BindingBox {
    BindingBox {
        new_object_vars: VarTypes::new(),
        new_event_vars: ev_vars(vec![(0, &["shipment"]), (1, &["departure"])]),
        filters: vec![Filter::TimeBetweenEvents {
            from_event: EventVariable(0),
            to_event: EventVariable(1),
            min_ms: None,
            max_ms: None,
        }],
    }
}

fn valid_qid_event_protected() -> QuasiIdentifier {
    let pattern = Pattern::try_from_box(&events_only_bbox()).unwrap();
    QuasiIdentifier {
        id: "q_ev".to_string(),
        pattern,
        protected_var: ProtectedVar::Event(EventVariable(0)),
        source_var: SourceVar::Event(EventVariable(1)),
        attribute: QidAttribute::Timestamp,
    }
}

fn example_policy() -> AnonPolicy {
    let bbox_q2 = BindingBox {
        new_object_vars: ob_vars(vec![(0, &["vehicle"])]),
        new_event_vars: ev_vars(vec![(1, &["departure"])]),
        filters: vec![Filter::O2E { object: ObjectVariable(0), event: EventVariable(1), qualifier: None, filter_label: None }],
    };
    let pattern_q2 = Pattern::try_from_box(&bbox_q2).unwrap();
    let qid2 = QuasiIdentifier {
        id: "q2".to_string(),
        pattern: pattern_q2,
        protected_var: ProtectedVar::Object(ObjectVariable(0)),
        source_var: SourceVar::Event(EventVariable(1)),
        attribute: QidAttribute::Id,
    };
    AnonPolicy {
        qids: vec![valid_qid_q1(), qid2],
        sensitive_attrs: vec!["capacity".to_string()],
        k: 2,
        l: 2,
        t: ratio(1, 1),
    }
}

#[test]
fn pattern_try_from_box_structural_filters_ok() {
    let bbox = bbox_all_structural();
    let result = Pattern::try_from_box(&bbox);
    assert!(result.is_ok(), "Expected Ok, got: {:?}", result);
    let pat = result.unwrap();
    assert_eq!(pat.filters.len(), 3);
}

#[test]
fn pattern_try_from_box_non_structural_filter_err() {
    let mut bbox = bbox_o2e();
    bbox.filters.push(Filter::NotEqual {
        var_1: Variable::Object(ObjectVariable(0)),
        var_2: Variable::Object(ObjectVariable(0)),
    });
    let result = Pattern::try_from_box(&bbox);
    assert!(result.is_err(), "Expected Err for non-structural filter, got Ok");
    let msg = result.unwrap_err().message();
    assert!(msg.contains("Pattern may only contain"), "Error message should mention restriction; got: {msg}");
}

#[test]
fn pattern_try_from_box_empty_bbox_ok() {
    let bbox = BindingBox { new_object_vars: VarTypes::new(), new_event_vars: VarTypes::new(), filters: vec![] };
    let result = Pattern::try_from_box(&bbox);
    assert!(result.is_ok());
    let pat = result.unwrap();
    assert!(pat.filters.is_empty());
    assert!(pat.event_vars.is_empty());
    assert!(pat.object_vars.is_empty());
}

#[test]
fn pattern_try_from_box_copies_vars_faithfully() {
    let bbox = bbox_o2e();
    let pat = Pattern::try_from_box(&bbox).unwrap();
    assert!(pat.event_vars.contains_key(&EventVariable(0)));
    assert_eq!(pat.event_vars.get(&EventVariable(0)).unwrap(), &strings(&["shipment"]));
    assert!(pat.object_vars.contains_key(&ObjectVariable(0)));
    assert_eq!(pat.object_vars.get(&ObjectVariable(0)).unwrap(), &strings(&["vehicle"]));
}

#[test]
fn pattern_all_event_vars_returns_correct_set() {
    let bbox = bbox_all_structural();
    let pat = Pattern::try_from_box(&bbox).unwrap();
    let vars: HashSet<EventVariable> = pat.all_event_vars().into_iter().collect();
    assert_eq!(vars, [EventVariable(0), EventVariable(1)].into());
}

#[test]
fn pattern_all_object_vars_returns_correct_set() {
    let bbox = bbox_all_structural();
    let pat = Pattern::try_from_box(&bbox).unwrap();
    let vars: HashSet<ObjectVariable> = pat.all_object_vars().into_iter().collect();
    assert_eq!(vars, [ObjectVariable(0), ObjectVariable(1)].into());
}

#[test]
fn qid_validate_ok() {
    assert!(valid_qid_q1().validate().is_ok());
}

#[test]
fn qid_validate_err_protected_object_missing() {
    let mut qid = valid_qid_q1();
    qid.protected_var = ProtectedVar::Object(ObjectVariable(99));
    let err = qid.validate().unwrap_err().message();
    assert!(err.contains("protected object variable"), "Error should mention 'protected object variable'; got: {err}");
    assert!(err.contains("q1"), "Error should mention QID id; got: {err}");
}

#[test]
fn qid_validate_err_protected_event_missing() {
    let mut qid = valid_qid_event_protected();
    qid.protected_var = ProtectedVar::Event(EventVariable(99));
    let err = qid.validate().unwrap_err().message();
    assert!(err.contains("protected event variable"), "{err}");
}

#[test]
fn qid_validate_err_source_event_missing() {
    let mut qid = valid_qid_q1();
    qid.source_var = SourceVar::Event(EventVariable(99));
    let err = qid.validate().unwrap_err().message();
    assert!(err.contains("source event variable"), "Error should mention 'source event variable'; got: {err}");
}

#[test]
fn qid_validate_err_source_object_missing() {
    let mut qid = valid_qid_q1();
    qid.source_var = SourceVar::Object(ObjectVariable(99));
    let err = qid.validate().unwrap_err().message();
    assert!(err.contains("source object variable"), "{err}");
}

#[test]
fn qid_validate_ok_source_equals_protected() {
    let mut qid = valid_qid_q1();
    qid.source_var = SourceVar::Object(ObjectVariable(0));
    qid.attribute = QidAttribute::Id;
    assert!(qid.validate().is_ok());
}

#[test]
fn policy_validate_err_no_qids() {
    let policy = AnonPolicy { qids: vec![], sensitive_attrs: vec![], k: 2, l: 0, t: ratio(1, 1) };
    let err = policy.validate().unwrap_err().message();
    assert!(err.contains("at least one QID"), "{err}");
}

#[test]
fn policy_validate_err_invalid_qid_propagated() {
    let mut qid = valid_qid_q1();
    qid.protected_var = ProtectedVar::Object(ObjectVariable(99));
    let policy = AnonPolicy { qids: vec![qid], sensitive_attrs: vec![], k: 2, l: 0, t: ratio(1, 1) };
    assert!(policy.validate().is_err());
}

#[test]
fn policy_validate_err_tau_prot_mismatch() {
    let q1 = valid_qid_q1();
    let q_other = QuasiIdentifier {
        id: "q_other".to_string(),
        pattern: Pattern::try_from_box(&events_only_bbox()).unwrap(),
        protected_var: ProtectedVar::Event(EventVariable(0)),
        source_var: SourceVar::Event(EventVariable(1)),
        attribute: QidAttribute::Timestamp,
    };
    let policy = AnonPolicy { qids: vec![q1, q_other], sensitive_attrs: vec![], k: 2, l: 0, t: ratio(1, 1) };
    let err = policy.validate().unwrap_err().message();
    assert!(err.contains("agree on τ_prot"), "Error should mention τ_prot; got: {err}");
}

#[test]
fn policy_validate_ok_k_equals_one() {
    let mut policy = example_policy();
    policy.k = 1;
    assert!(policy.validate().is_ok());
}

#[test]
fn policy_validate_err_t_above_one() {
    let mut policy = example_policy();
    policy.t = ratio(11, 10);
    let err = policy.validate().unwrap_err().message();
    assert!(err.contains("t must be in [0, 1]"), "{err}");
}

#[test]
fn policy_validate_err_t_below_zero() {
    let mut policy = example_policy();
    policy.t = ratio(-1, 10);
    let err = policy.validate().unwrap_err().message();
    assert!(err.contains("t must be in [0, 1]"), "{err}");
}

#[test]
fn policy_validate_ok_full_example() {
    let policy = example_policy();
    assert!(policy.validate().is_ok());
    assert_eq!(policy.k, 2);
    assert_eq!(policy.l, 2);
    assert!((policy.t.num as f64 / policy.t.den as f64 - 1.0).abs() < f64::EPSILON);
    assert_eq!(policy.sensitive_attrs, vec!["capacity".to_string()]);
}

#[test]
fn protected_types_of_object_var() {
    let policy = example_policy();
    let types = policy.protected_types_of(&policy.qids[0]);
    assert_eq!(types, strings(&["vehicle"]));
}

#[test]
fn protected_types_of_event_var() {
    let qid = valid_qid_event_protected();
    let policy = AnonPolicy { qids: vec![qid], sensitive_attrs: vec![], k: 1, l: 0, t: ratio(1, 1) };
    let types = policy.protected_types_of(&policy.qids[0]);
    assert_eq!(types, strings(&["shipment"]));
}

#[test]
fn protected_type_set_matches_first_qid() {
    let policy = example_policy();
    let from_set = policy.protected_type_set();
    let from_first = policy.protected_types_of(&policy.qids[0]);
    assert_eq!(from_set, from_first);
}

#[test]
fn protected_type_set_empty_when_no_qids() {
    let policy = AnonPolicy { qids: vec![], sensitive_attrs: vec![], k: 1, l: 0, t: ratio(1, 1) };
    assert!(policy.protected_type_set().is_empty());
}
