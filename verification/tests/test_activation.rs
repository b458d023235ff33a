use kanon::activation::{find_matchings, predicates_compatible, qid_is_activated, Matching};
use kanon::binding::{BindingBox, EventVariable, Filter, ObjectVariable, VarTypes, Variable};
use kanon::policy::{Pattern, ProtectedVar, QidAttribute, QuasiIdentifier, SourceVar};
use std::collections::HashSet;

fn types(names: &[&str]) -> Vec<String> {
    names.iter().map(|s| s.to_string()).collect()
}

fn ev_vars(pairs: Vec<(usize, &[&str])>) -> VarTypes<EventVariable> {
    VarTypes::from_pairs(pairs.into_iter().map(|(v, t)| (EventVariable(v), types(t))).collect())
}

fn ob_vars(pairs: Vec<(usize, &[&str])>) -> VarTypes<ObjectVariable> {
    VarTypes::from_pairs(pairs.into_iter().map(|(v, t)| (ObjectVariable(v), types(t))).collect())
}

fn o2e(object: usize, event: usize, qualifier: Option<&str>) -> Filter {
    Filter::O2E {
        object: ObjectVariable(object),
        event: EventVariable(event),
        qualifier: qualifier.map(|q| q.to_string()),
        filter_label: None,
    }
}

fn empty_bbox() -> BindingBox {
    BindingBox { new_event_vars: VarTypes::new(), new_object_vars: VarTypes::new(), filters: vec![] }
}

fn bbox_vehicle_shipment() -> BindingBox {
    BindingBox {
        new_object_vars: ob_vars(vec![(0, &["vehicle"])]),
        new_event_vars: ev_vars(vec![(0, &["shipment"])]),
        filters: vec![o2e(0, 0, None)],
    }
}

fn bbox_bb2() -> BindingBox {
    BindingBox {
        new_object_vars: ob_vars(vec![(0, &["vehicle"])]),
        new_event_vars: ev_vars(vec![(0, &["shipment"]), (1, &["departure"])]),
        filters: vec![o2e(0, 0, None), o2e(0, 1, None)],
    }
}

fn pattern_vehicle_departure() -> Pattern {
    let bbox = BindingBox {
        new_object_vars: ob_vars(vec![(0, &["vehicle"])]),
        new_event_vars: ev_vars(vec![(0, &["departure"])]),
        filters: vec![o2e(0, 0, None)],
    };
    Pattern::try_from_box(&bbox).unwrap()
}

fn pattern_q1() -> Pattern {
    Pattern::try_from_box(&bbox_vehicle_shipment()).unwrap()
}

fn qid_q1() -> QuasiIdentifier {
    QuasiIdentifier {
        id: "q1".to_string(),
        pattern: pattern_q1(),
        protected_var: ProtectedVar::Object(ObjectVariable(0)),
        source_var: SourceVar::Event(EventVariable(0)),
        attribute: QidAttribute::Named("customer_segment".to_string()),
    }
}

fn ob_image(m: &Matching, v: ObjectVariable) -> ObjectVariable {
    m.ob_map.iter().find(|p| p.0 == v).map(|p| p.1).unwrap()
}

fn ev_image(m: &Matching, v: EventVariable) -> EventVariable {
    m.ev_map.iter().find(|p| p.0 == v).map(|p| p.1).unwrap()
}

/// A time filter with bounds given in seconds.
fn tbe(min: Option<i64>, max: Option<i64>) -> Filter {
    Filter::TimeBetweenEvents {
        from_event: EventVariable(0),
        to_event: EventVariable(1),
        min_ms: min.map(|s| s * 1000),
        max_ms: max.map(|s| s * 1000),
    }
}

#[test]
fn predicates_compatible_wildcard_both() {
    let f1 = o2e(0, 0, None);
    let f2 = o2e(0, 0, None);
    assert!(predicates_compatible(&f1, &f2));
}

#[test]
fn predicates_compatible_wildcard_with_named() {
    let wildcard = o2e(0, 0, None);
    let named = o2e(0, 0, Some("primary"));
    assert!(predicates_compatible(&wildcard, &named));
    assert!(predicates_compatible(&named, &wildcard));
}

#[test]
fn predicates_compatible_different_named_qualifiers() {
    let primary = o2e(0, 0, Some("primary"));
    let backup = o2e(0, 0, Some("backup"));
    assert!(!predicates_compatible(&primary, &backup));
}

#[test]
fn predicates_compatible_same_named_qualifier() {
    let f = o2e(0, 0, Some("primary"));
    assert!(predicates_compatible(&f, &f));
}

#[test]
fn predicates_compatible_tbe_intervals_overlap() {
    let f1 = tbe(Some(0), Some(3600));
    let f2 = tbe(Some(1800), Some(7200));
    assert!(predicates_compatible(&f1, &f2));
}

#[test]
fn predicates_compatible_tbe_intervals_disjoint() {
    let f1 = tbe(Some(0), Some(100));
    let f2 = tbe(Some(200), Some(300));
    assert!(!predicates_compatible(&f1, &f2));
}

#[test]
fn predicates_compatible_tbe_unbounded_lower() {
    let f1 = tbe(None, Some(50));
    let f2 = tbe(Some(100), Some(200));
    assert!(!predicates_compatible(&f1, &f2));
}

#[test]
fn predicates_compatible_tbe_both_unbounded() {
    let f = tbe(None, None);
    assert!(predicates_compatible(&f, &f));
}

#[test]
fn predicates_compatible_different_kinds() {
    let f1 = o2e(0, 0, None);
    let f2 = tbe(None, None);
    assert!(!predicates_compatible(&f1, &f2));
}

#[test]
fn apply_to_filter_o2e_renames_variables() {
    let phi = Matching {
        ev_map: vec![(EventVariable(0), EventVariable(5))],
        ob_map: vec![(ObjectVariable(0), ObjectVariable(7))],
    };
    let pf = o2e(0, 0, Some("primary"));
    let renamed = phi.apply_to_filter(&pf).unwrap();
    match renamed {
        Filter::O2E { object, event, qualifier, .. } => {
            assert_eq!(object, ObjectVariable(7), "object variable mismatch");
            assert_eq!(event, EventVariable(5), "event variable mismatch");
            assert_eq!(qualifier, Some("primary".to_string()), "qualifier mismatch");
        }
        other => panic!("Expected O2E filter, got {other:?}"),
    }
}

#[test]
fn apply_to_filter_missing_variable_returns_none() {
    let phi = Matching { ev_map: vec![], ob_map: vec![(ObjectVariable(0), ObjectVariable(0))] };
    let pf = o2e(0, 0, None);
    assert!(phi.apply_to_filter(&pf).is_none());
}

#[test]
fn apply_to_filter_non_structural_returns_none() {
    let phi = Matching { ev_map: vec![], ob_map: vec![] };
    let non_structural = Filter::NotEqual {
        var_1: Variable::Object(ObjectVariable(0)),
        var_2: Variable::Object(ObjectVariable(1)),
    };
    assert!(phi.apply_to_filter(&non_structural).is_none());
}

#[test]
fn find_matchings_identical_pattern_and_box() {
    let pat = pattern_q1();
    let bbox = bbox_vehicle_shipment();
    let matchings = find_matchings(&pat, &bbox);
    assert_eq!(matchings.len(), 1);
    let m = &matchings[0];
    assert_eq!(ob_image(m, ObjectVariable(0)), ObjectVariable(0));
    assert_eq!(ev_image(m, EventVariable(0)), EventVariable(0));
}

#[test]
fn find_matchings_type_mismatch_no_matchings() {
    let mut pat = pattern_q1();
    pat.object_vars.insert(ObjectVariable(0), types(&["truck"]));
    let bbox = bbox_vehicle_shipment();
    assert!(find_matchings(&pat, &bbox).is_empty());
}

#[test]
fn find_matchings_empty_pattern_always_matches() {
    let pat = Pattern::try_from_box(&empty_bbox()).unwrap();
    let matchings = find_matchings(&pat, &bbox_bb2());
    assert_eq!(matchings.len(), 1);
    assert!(matchings[0].ev_map.is_empty());
    assert!(matchings[0].ob_map.is_empty());
}

#[test]
fn find_matchings_non_empty_pattern_in_empty_box_no_match() {
    let pat = pattern_q1();
    let matchings = find_matchings(&pat, &empty_bbox());
    assert!(matchings.is_empty());
}

#[test]
fn find_matchings_q1_pattern_in_bb2() {
    let pat = pattern_q1();
    let bbox = bbox_bb2();
    let matchings = find_matchings(&pat, &bbox);
    assert_eq!(matchings.len(), 1);
    assert_eq!(ev_image(&matchings[0], EventVariable(0)), EventVariable(0));
}

#[test]
fn find_matchings_two_pairs_no_cross_join() {
    let bbox = BindingBox {
        new_object_vars: ob_vars(vec![(1, &["vehicle"]), (2, &["vehicle"])]),
        new_event_vars: ev_vars(vec![(1, &["departure"]), (2, &["departure"])]),
        filters: vec![o2e(1, 1, None), o2e(2, 2, None)],
    };
    let pat = pattern_vehicle_departure();
    let matchings = find_matchings(&pat, &bbox);
    assert_eq!(matchings.len(), 2, "Expected 2 matchings (one per pair), got {}: {matchings:?}", matchings.len());
    let pairs: HashSet<(ObjectVariable, EventVariable)> = matchings
        .iter()
        .map(|m| (ob_image(m, ObjectVariable(0)), ev_image(m, EventVariable(0))))
        .collect();
    assert!(pairs.contains(&(ObjectVariable(1), EventVariable(1))), "Missing pair (v1, d1) in {pairs:?}");
    assert!(pairs.contains(&(ObjectVariable(2), EventVariable(2))), "Missing pair (v2, d2) in {pairs:?}");
}

#[test]
fn find_matchings_shared_vehicle_two_departures() {
    let bbox = BindingBox {
        new_object_vars: ob_vars(vec![(1, &["vehicle"])]),
        new_event_vars: ev_vars(vec![(1, &["departure"]), (2, &["departure"])]),
        filters: vec![o2e(1, 1, None), o2e(1, 2, None)],
    };
    let pat = pattern_vehicle_departure();
    let matchings = find_matchings(&pat, &bbox);
    assert_eq!(matchings.len(), 2, "Expected 2 matchings (two departures sharing v1), got {}: {matchings:?}", matchings.len());
    for m in &matchings {
        assert_eq!(ob_image(m, ObjectVariable(0)), ObjectVariable(1), "Both matchings should map to v1");
    }
    let ev_targets: HashSet<EventVariable> = matchings.iter().map(|m| ev_image(m, EventVariable(0))).collect();
    assert!(ev_targets.contains(&EventVariable(1)));
    assert!(ev_targets.contains(&EventVariable(2)));
}

#[test]
fn qid_is_activated_q1_in_bb2() {
    assert!(qid_is_activated(&qid_q1(), &bbox_bb2()));
}

#[test]
fn qid_is_activated_q1_in_empty_box() {
    assert!(!qid_is_activated(&qid_q1(), &empty_bbox()));
}

#[test]
fn qid_is_activated_q1_missing_event_type() {
    let bbox = BindingBox {
        new_object_vars: ob_vars(vec![(0, &["vehicle"])]),
        new_event_vars: ev_vars(vec![(0, &["departure"])]),
        filters: vec![o2e(0, 0, None)],
    };
    assert!(!qid_is_activated(&qid_q1(), &bbox));
}

#[test]
fn apply_to_ev_var_present() {
    let phi = Matching { ev_map: vec![(EventVariable(0), EventVariable(3))], ob_map: vec![] };
    assert_eq!(phi.apply_to_ev_var(EventVariable(0)), Some(EventVariable(3)));
}

#[test]
fn apply_to_ev_var_absent() {
    let phi = Matching { ev_map: vec![], ob_map: vec![] };
    assert_eq!(phi.apply_to_ev_var(EventVariable(0)), None);
}

#[test]
fn apply_to_ob_var_present() {
    let phi = Matching { ev_map: vec![], ob_map: vec![(ObjectVariable(0), ObjectVariable(5))] };
    assert_eq!(phi.apply_to_ob_var(ObjectVariable(0)), Some(ObjectVariable(5)));
}
