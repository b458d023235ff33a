use kanon::activation::predicates_compatible;
use kanon::binding::{Binding, BindingBox, EventVariable, Filter, ObjectVariable, VarTypes, Variable};
use kanon::fingerprint::{compute_fingerprints, compute_source_set, source_set_to_marginal, Fingerprint};
use kanon::fraction::{compare_fractions, Fraction};
use kanon::info::{get_sample_ids, OCELInfo};
use kanon::ocel::{EventData, EventOrObjectIndex, ObjectData, OcelData};
use kanon::order::Rel;
use kanon::policy::{AnonPolicy, Pattern, PolicyError, ProtectedVar, QidAttribute, QuasiIdentifier, Ratio, SourceVar};
use kanon::properties::{build_context, build_sensitive_map, eval_k, eval_t, find_k_max, find_l_max, find_t_min, elements_at_risk, eval_l};
use kanon::report::check_policy;
use kanon::sorting::{order_by_size, sort_strings};
use kanon::tally::{distinct_counts, tally_tuples};
use kanon::text::{decimal_text, signed_decimal_text};
use kanon::value::QidValue;

fn s(x: &str) -> String {
    x.to_string()
}

fn qv(x: &str) -> QidValue {
    QidValue::Str(x.to_string())
}

fn value(f: Fraction) -> f64 {
    f.num as f64 / f.den as f64
}

fn event(id: &str, ty: &str, time_ms: i64, segment: &str, object: usize) -> EventData {
    EventData {
        id: s(id),
        event_type: s(ty),
        time_ms,
        time_text: format!("t{time_ms}"),
        attributes: vec![(s("customer_segment"), qv(segment))],
        relationships: vec![(s("carrier"), object)],
    }
}

fn vehicle(id: &str, capacity: Vec<(i64, &str)>) -> ObjectData {
    ObjectData {
        id: s(id),
        object_type: s("vehicle"),
        attributes: vec![(s("capacity"), capacity.into_iter().map(|(t, v)| (t, qv(v))).collect())],
        relationships: vec![],
    }
}

/// Three vehicles v1..v3, each carrying one shipment s1..s3 with segments A, B, A;
/// capacities large, small, large.
fn small_log() -> OcelData {
    OcelData {
        event_types: vec![s("shipment")],
        object_types: vec![s("vehicle")],
        events: vec![
            event("s1", "shipment", 1000, "A", 0),
            event("s2", "shipment", 2000, "B", 1),
            event("s3", "shipment", 3000, "A", 2),
        ],
        objects: vec![
            vehicle("v1", vec![(5, "large"), (1, "small")]),
            vehicle("v2", vec![(0, "small")]),
            vehicle("v3", vec![(0, "large")]),
        ],
    }
}

fn vehicle_shipment_box() -> BindingBox {
    BindingBox {
        new_object_vars: VarTypes::from_pairs(vec![(ObjectVariable(0), vec![s("vehicle")])]),
        new_event_vars: VarTypes::from_pairs(vec![(EventVariable(0), vec![s("shipment")])]),
        filters: vec![Filter::O2E { object: ObjectVariable(0), event: EventVariable(0), qualifier: None, filter_label: None }],
    }
}

fn bindings() -> Vec<Binding> {
    (0..3)
        .map(|i| Binding { event_map: vec![(EventVariable(0), i)], object_map: vec![(ObjectVariable(0), i)] })
        .collect()
}

fn segment_qid() -> QuasiIdentifier {
    QuasiIdentifier {
        id: s("q1"),
        pattern: Pattern::try_from_box(&vehicle_shipment_box()).unwrap(),
        protected_var: ProtectedVar::Object(ObjectVariable(0)),
        source_var: SourceVar::Event(EventVariable(0)),
        attribute: QidAttribute::Named(s("customer_segment")),
    }
}

fn policy(k: usize, l: usize, t: Ratio) -> AnonPolicy {
    AnonPolicy { qids: vec![segment_qid()], sensitive_attrs: vec![s("capacity")], k, l, t }
}

fn marginal(entries: &[(QidValue, usize)]) -> Vec<(QidValue, usize)> {
    entries.to_vec()
}

#[test]
fn source_set_of_a_vehicle_holds_its_shipment() {
    let log = small_log();
    let src = compute_source_set(&segment_qid(), EventOrObjectIndex::Object(0), &vehicle_shipment_box(), &bindings(), &log);
    assert_eq!(src, vec![(s("shipment:s1"), qv("A"))]);
}

#[test]
fn marginal_counts_values_in_value_order() {
    let src = vec![(s("a"), qv("x")), (s("b"), QidValue::Int(1)), (s("c"), qv("x")), (s("d"), QidValue::Null)];
    let m = source_set_to_marginal(&src);
    assert_eq!(m, marginal(&[(qv("x"), 2), (QidValue::Int(1), 1), (QidValue::Null, 1)]));
}

#[test]
fn fingerprints_group_vehicles_by_segment() {
    let log = small_log();
    let classes = compute_fingerprints(&policy(2, 2, Ratio { num: 1, den: 2 }), &vehicle_shipment_box(), &bindings(), &log);
    let fa: Fingerprint = vec![marginal(&[(qv("A"), 1)])];
    let fb: Fingerprint = vec![marginal(&[(qv("B"), 1)])];
    assert_eq!(classes, vec![(fa, vec![s("vehicle:v1"), s("vehicle:v3")]), (fb, vec![s("vehicle:v2")])]);
}

#[test]
fn classes_partition_the_protected_elements() {
    let log = small_log();
    let classes = compute_fingerprints(&policy(2, 2, Ratio { num: 1, den: 2 }), &vehicle_shipment_box(), &bindings(), &log);
    let total: usize = classes.iter().map(|c| c.1.len()).sum();
    assert_eq!(total, 3);
}

#[test]
fn inactive_qid_gives_empty_marginals() {
    let log = small_log();
    let departure_box = BindingBox {
        new_object_vars: VarTypes::from_pairs(vec![(ObjectVariable(0), vec![s("vehicle")])]),
        new_event_vars: VarTypes::from_pairs(vec![(EventVariable(0), vec![s("departure")])]),
        filters: vec![Filter::O2E { object: ObjectVariable(0), event: EventVariable(0), qualifier: None, filter_label: None }],
    };
    let q = QuasiIdentifier {
        id: s("q_dep"),
        pattern: Pattern::try_from_box(&departure_box).unwrap(),
        protected_var: ProtectedVar::Object(ObjectVariable(0)),
        source_var: SourceVar::Event(EventVariable(0)),
        attribute: QidAttribute::Id,
    };
    let p = AnonPolicy { qids: vec![q], sensitive_attrs: vec![], k: 1, l: 0, t: Ratio { num: 1, den: 1 } };
    let classes = compute_fingerprints(&p, &vehicle_shipment_box(), &bindings(), &log);
    assert_eq!(classes.len(), 1);
    assert_eq!(classes[0].0, vec![Vec::<(QidValue, usize)>::new()]);
    assert_eq!(classes[0].1.len(), 3);
}

#[test]
fn sensitive_map_prefers_objects_and_their_first_value() {
    let log = small_log();
    let ids = vec![s("vehicle:v1"), s("shipment:s2"), s("vehicle:v1"), s("ghost:nobody")];
    let mut p = policy(1, 0, Ratio { num: 1, den: 1 });
    p.sensitive_attrs = vec![s("capacity"), s("customer_segment")];
    let m = build_sensitive_map(&p, &ids, &log);
    assert_eq!(m.len(), 3);
    assert_eq!(m[0], (s("vehicle:v1"), vec![qv("large"), QidValue::Null]));
    assert_eq!(m[1], (s("shipment:s2"), vec![QidValue::Null, qv("B")]));
    assert_eq!(m[2], (s("ghost:nobody"), vec![QidValue::Null, QidValue::Null]));
}

#[test]
fn context_counts_elements_and_distribution() {
    let log = small_log();
    let ctx = build_context(&policy(2, 2, Ratio { num: 1, den: 2 }), &vehicle_shipment_box(), &bindings(), &log);
    assert_eq!(ctx.global_total, 3);
    assert_eq!(ctx.activated_qid_ids, vec![s("q1")]);
    assert!(ctx.non_activated_qid_ids.is_empty());
    assert!(ctx.policy_activated());
    assert_eq!(ctx.global_dist, vec![(vec![qv("large")], 2), (vec![qv("small")], 1)]);
}

#[test]
fn k_max_is_the_largest_satisfied_k() {
    let log = small_log();
    let ctx = build_context(&policy(2, 2, Ratio { num: 1, den: 2 }), &vehicle_shipment_box(), &bindings(), &log);
    let m = find_k_max(&ctx);
    assert_eq!(m, 1);
    assert!(eval_k(&ctx, m).satisfied);
    assert!(!eval_k(&ctx, m + 1).satisfied);
}

#[test]
fn risk_empty_exactly_when_k_satisfied() {
    let log = small_log();
    let ctx = build_context(&policy(2, 2, Ratio { num: 1, den: 2 }), &vehicle_shipment_box(), &bindings(), &log);
    for k in 0..4 {
        let r = eval_k(&ctx, k);
        assert_eq!(elements_at_risk(&r).is_empty(), r.satisfied);
    }
}

#[test]
fn emd_is_exact_and_within_unit_interval() {
    let log = small_log();
    let ctx = build_context(&policy(2, 2, Ratio { num: 1, den: 2 }), &vehicle_shipment_box(), &bindings(), &log);
    let r = eval_t(&ctx, Ratio { num: 1, den: 2 });
    let a = r.classes[0].emd.unwrap();
    let b = r.classes[1].emd.unwrap();
    assert_eq!((a.num, a.den), (2, 6));
    assert_eq!((b.num, b.den), (2, 3));
    assert!(r.classes[0].ok);
    assert!(!r.classes[1].ok);
    for c in &r.classes {
        let e = c.emd.unwrap();
        assert!(e.num <= e.den);
    }
}

#[test]
fn t_with_no_number_is_never_met() {
    let log = small_log();
    let ctx = build_context(&policy(2, 2, Ratio { num: 1, den: 0 }), &vehicle_shipment_box(), &bindings(), &log);
    let r = eval_t(&ctx, Ratio { num: 1, den: 0 });
    assert!(!r.satisfied);
}

#[test]
fn report_of_the_small_log() {
    let log = small_log();
    let p = policy(2, 2, Ratio { num: 1, den: 2 });
    let r = check_policy(&p, &vehicle_shipment_box(), &bindings(), &log);
    assert!(r.policy_activated);
    assert_eq!(r.total_protected_elements, 3);
    assert_eq!(r.equiv_classes.len(), 2);
    assert_eq!(r.equiv_classes[0].members, vec![s("vehicle:v1"), s("vehicle:v3")]);
    assert_eq!(r.equiv_classes[0].fingerprint, vec![marginal(&[(qv("A"), 1)])]);
    assert_eq!(r.equiv_classes[0].sensitive_values, vec![vec![qv("large")], vec![qv("large")]]);
    assert!(r.equiv_classes[0].k_ok);
    assert!(!r.equiv_classes[0].l_ok);
    assert!(r.equiv_classes[0].t_ok);
    assert_eq!(r.equiv_classes[1].members, vec![s("vehicle:v2")]);
    assert!(!r.equiv_classes[1].k_ok);
    assert!(!r.equiv_classes[1].t_ok);
    assert!(!r.k_satisfied);
    assert!(!r.l_satisfied);
    assert!(!r.t_satisfied);
    assert_eq!(r.violating_classes.len(), 2);
    assert_eq!(r.k_max, 1);
    assert_eq!(r.l_max, 1);
    assert_eq!(r.t_min.map(value), Some(1.0 / 3.0));
    assert_eq!(r.elements_violating_k, vec![s("vehicle:v2")]);
    assert_eq!(r.sensitive_values_at_risk.len(), 1);
    assert_eq!(r.sensitive_values_at_risk[0].attr_name, "capacity");
    assert_eq!(r.sensitive_values_at_risk[0].at_risk_values, vec![qv("large"), qv("small")]);
}

#[test]
fn fractions_compare_exactly() {
    assert_eq!(compare_fractions(1, 3, 2, 6), Rel::Same);
    assert_eq!(compare_fractions(1, 2, 2, 3), Rel::Less);
    assert_eq!(compare_fractions(7, 5, 4, 3), Rel::Greater);
    assert_eq!(compare_fractions(0, 9, 0, 1), Rel::Same);
    assert_eq!(compare_fractions(u128::MAX, u128::MAX - 1, u128::MAX - 1, u128::MAX - 2), Rel::Less);
}

#[test]
fn strings_sort_in_text_order() {
    let v = vec![s("vehicle:v2"), s("b"), s("a"), s("b")];
    assert_eq!(sort_strings(&v), vec![s("a"), s("b"), s("b"), s("vehicle:v2")]);
}

#[test]
fn classes_order_by_size_keeps_ties() {
    assert_eq!(order_by_size(&vec![2, 4, 4, 1]), vec![(1, 4), (2, 4), (0, 2), (3, 1)]);
}

#[test]
fn numbers_render_in_decimal() {
    assert_eq!(decimal_text(0), "0");
    assert_eq!(decimal_text(1234), "1234");
    assert_eq!(signed_decimal_text(-5), "-5");
    assert_eq!(signed_decimal_text(i64::MIN), "-9223372036854775808");
}

#[test]
fn error_messages() {
    let e = PolicyError::ProtectedObjectVarMissing { qid: s("q1"), var: ObjectVariable(99) };
    assert_eq!(e.message(), "QID 'q1': protected object variable ObjectVariable(99) not declared in pattern");
    let e = PolicyError::SourceEventVarMissing { qid: s("q2"), var: EventVariable(7) };
    assert_eq!(e.message(), "QID 'q2': source event variable EventVariable(7) not declared in pattern");
    let e = PolicyError::NonStructuralFilter(Filter::NotEqual {
        var_1: Variable::Object(ObjectVariable(0)),
        var_2: Variable::Event(EventVariable(3)),
    });
    assert_eq!(
        e.message(),
        "Pattern may only contain O2E, O2O or TimeBetweenEvents filters; found: NotEqual { var_1: Object(ObjectVariable(0)), var_2: Event(EventVariable(3)) }"
    );
    assert_eq!(PolicyError::KTooSmall.message(), "k must be ≥ 1");
    assert_eq!(PolicyError::NoQids.message(), "AnonPolicy must have at least one QID");
    assert_eq!(PolicyError::TOutOfRange(Ratio { num: 11, den: 10 }).message(), "t must be in [0, 1]; got 1.1");
    assert_eq!(PolicyError::TOutOfRange(Ratio { num: -1, den: 10 }).message(), "t must be in [0, 1]; got -0.1");
    assert_eq!(PolicyError::TOutOfRange(Ratio { num: 6, den: 3 }).message(), "t must be in [0, 1]; got 2");
    assert_eq!(PolicyError::TOutOfRange(Ratio { num: 5, den: 4 }).message(), "t must be in [0, 1]; got 1.25");
    assert_eq!(PolicyError::TOutOfRange(Ratio { num: 4, den: 3 }).message(), "t must be in [0, 1]; got 4/3");
    assert_eq!(PolicyError::TOutOfRange(Ratio { num: 1, den: 0 }).message(), "t must be in [0, 1]; got NaN");
    let e = PolicyError::ProtectedTypesMismatch {
        qid: s("q2"),
        types: vec![s("a\"b"), s("tab\there"), s("bell\u{7}")],
        first_types: vec![],
    };
    assert_eq!(
        e.message(),
        "QID 'q2' has protected types {\"a\\\"b\", \"tab\\there\", \"bell\\u{7}\"} but first QID has {}; all QIDs must agree on τ_prot"
    );
    assert_eq!(e.message(), format!("QID 'q2' has protected types {:?} but first QID has {:?}; all QIDs must agree on τ_prot", ["a\"b", "tab\there", "bell\u{7}"], Vec::<String>::new()).replace('[', "{").replace(']', "}"));
}

#[test]
fn k_zero_is_rejected() {
    let p = policy(0, 0, Ratio { num: 1, den: 1 });
    assert!(matches!(p.validate(), Err(PolicyError::KTooSmall)));
}

#[test]
fn samples_take_the_first_ids() {
    let log = small_log();
    let a = get_sample_ids(&log, 2);
    assert_eq!(a.object_ids, vec![s("v1"), s("v2")]);
    assert_eq!(a.event_ids, vec![s("s1"), s("s2")]);
    let b = get_sample_ids(&log, 5000);
    assert_eq!(b.object_ids.len(), 3);
    assert_eq!(b.event_ids.len(), 3);
}

#[test]
fn structural_filters_check_bindings() {
    let log = small_log();
    let b = &bindings()[0];
    let carried = Filter::O2E { object: ObjectVariable(0), event: EventVariable(0), qualifier: Some(s("carrier")), filter_label: None };
    let other = Filter::O2E { object: ObjectVariable(0), event: EventVariable(0), qualifier: Some(s("other")), filter_label: None };
    assert!(carried.check_binding(b, &log));
    assert!(!other.check_binding(b, &log));
    let two = Binding { event_map: vec![(EventVariable(0), 0), (EventVariable(1), 2)], object_map: vec![] };
    let within = Filter::TimeBetweenEvents { from_event: EventVariable(0), to_event: EventVariable(1), min_ms: Some(1000), max_ms: Some(2000) };
    let too_soon = Filter::TimeBetweenEvents { from_event: EventVariable(0), to_event: EventVariable(1), min_ms: Some(3000), max_ms: None };
    assert!(within.check_binding(&two, &log));
    assert!(!too_soon.check_binding(&two, &log));
}

#[test]
fn tuples_are_counted() {
    let t = vec![vec![qv("b")], vec![qv("a")], vec![qv("b")]];
    assert_eq!(distinct_counts(&t), vec![(vec![qv("b")], 2), (vec![qv("a")], 1)]);
    assert_eq!(tally_tuples(&t), vec![(vec![qv("a")], 1), (vec![qv("b")], 2)]);
}

#[test]
fn compatibility_is_symmetric_on_intervals() {
    let f = Filter::TimeBetweenEvents { from_event: EventVariable(0), to_event: EventVariable(1), min_ms: Some(10), max_ms: None };
    let g = Filter::TimeBetweenEvents { from_event: EventVariable(0), to_event: EventVariable(1), min_ms: None, max_ms: Some(10) };
    assert_eq!(predicates_compatible(&f, &g), predicates_compatible(&g, &f));
    assert!(predicates_compatible(&f, &g));
}

#[test]
fn overview_counts_relationships_by_type_pair() {
    let mut log = small_log();
    log.object_types.push(s("driver"));
    log.objects.push(ObjectData { id: s("d1"), object_type: s("driver"), attributes: vec![], relationships: vec![(s("drives"), 0), (s("drives"), 1), (s("owns"), 1)] });
    log.events[0].relationships.push((s("driver"), 3));
    log.events[1].relationships.push((s("carrier"), 2));
    let info = OCELInfo::from_ocel(&log);
    assert_eq!(info.num_events, 3);
    assert_eq!(info.num_objects, 4);
    assert_eq!(info.object_types, vec![s("vehicle"), s("driver")]);
    assert_eq!(info.event_types, vec![s("shipment")]);
    assert_eq!(info.e2o_types.len(), 1);
    let (ty, row) = &info.e2o_types[0];
    assert_eq!(ty, "shipment");
    assert_eq!(row[0], (s("vehicle"), (4, vec![s("carrier")])));
    assert_eq!(row[1], (s("driver"), (1, vec![s("driver")])));
    assert_eq!(info.o2o_types.len(), 2);
    assert_eq!(info.o2o_types[0].1, vec![(s("vehicle"), (0, vec![])), (s("driver"), (0, vec![]))]);
    assert_eq!(info.o2o_types[1].0, s("driver"));
    assert_eq!(info.o2o_types[1].1, vec![(s("vehicle"), (3, vec![s("drives"), s("owns")])), (s("driver"), (0, vec![]))]);
}

#[test]
fn t_below_t_min_is_never_met() {
    let log = small_log();
    let ctx = build_context(&policy(2, 2, Ratio { num: 1, den: 2 }), &vehicle_shipment_box(), &bindings(), &log);
    let t_min = find_t_min(&ctx, &eval_t(&ctx, Ratio { num: 1, den: 2 })).unwrap();
    assert_eq!(value(t_min), 1.0 / 3.0);
    assert!(!eval_t(&ctx, Ratio { num: 1, den: 4 }).satisfied);
    assert!(!eval_t(&ctx, Ratio { num: 1, den: 2 }).satisfied);
    assert!(eval_t(&ctx, Ratio { num: 2, den: 3 }).satisfied);
}

#[test]
fn time_bounds_below_a_second_are_kept() {
    let tb = |lo: Option<i64>, hi: Option<i64>| Filter::TimeBetweenEvents { from_event: EventVariable(0), to_event: EventVariable(1), min_ms: lo, max_ms: hi };
    assert!(predicates_compatible(&tb(Some(0), Some(1500)), &tb(Some(1500), Some(2000))));
    assert!(!predicates_compatible(&tb(Some(0), Some(1400)), &tb(Some(1500), Some(2000))));
    let log = small_log();
    let two = Binding { event_map: vec![(EventVariable(0), 0), (EventVariable(1), 1)], object_map: vec![] };
    assert!(tb(Some(999), Some(1000)).check_binding(&two, &log));
    assert!(!tb(Some(1001), None).check_binding(&two, &log));
}

#[test]
fn no_sensitive_attributes_leave_t_and_l_unmeasured() {
    let log = small_log();
    let mut p = policy(2, 2, Ratio { num: 1, den: 2 });
    p.sensitive_attrs = vec![];
    let ctx = build_context(&p, &vehicle_shipment_box(), &bindings(), &log);
    assert!(ctx.global_dist.is_empty());
    assert_eq!(ctx.class_map.len(), 2);
    let tr = eval_t(&ctx, Ratio { num: 1, den: 2 });
    assert!(tr.classes.iter().all(|c| c.emd.is_none() && c.ok));
    assert!(tr.satisfied);
    assert_eq!(find_t_min(&ctx, &tr), None);
    assert_eq!(find_l_max(&ctx), 0);
    assert!(eval_l(&ctx, 0).satisfied);
    let r = check_policy(&p, &vehicle_shipment_box(), &bindings(), &log);
    assert_eq!(r.t_min, None);
    assert_eq!(r.l_max, 0);
    assert!(r.t_satisfied);
}

#[test]
fn context_classes_are_the_fingerprint_classes() {
    let log = small_log();
    let p = policy(2, 2, Ratio { num: 1, den: 2 });
    let ctx = build_context(&p, &vehicle_shipment_box(), &bindings(), &log);
    let classes = compute_fingerprints(&p, &vehicle_shipment_box(), &bindings(), &log);
    assert_eq!(ctx.class_map, classes);
    let mut all: Vec<String> = classes.iter().flat_map(|(_, m)| m.clone()).collect();
    all.sort();
    assert_eq!(all, vec![s("vehicle:v1"), s("vehicle:v2"), s("vehicle:v3")]);
    assert!(classes.iter().all(|(fp, m)| fp.len() == p.qids.len() && !m.is_empty()));
}

#[test]
fn mismatched_protected_types_are_named() {
    let q1 = segment_qid();
    let other_box = BindingBox {
        new_object_vars: VarTypes::from_pairs(vec![(ObjectVariable(0), vec![s("truck"), s("van"), s("truck")])]),
        new_event_vars: VarTypes::from_pairs(vec![(EventVariable(0), vec![s("shipment")])]),
        filters: vec![],
    };
    let q2 = QuasiIdentifier {
        id: s("q2"),
        pattern: Pattern::try_from_box(&other_box).unwrap(),
        protected_var: ProtectedVar::Object(ObjectVariable(0)),
        source_var: SourceVar::Event(EventVariable(0)),
        attribute: QidAttribute::Id,
    };
    let p = AnonPolicy { qids: vec![q1, q2], sensitive_attrs: vec![], k: 1, l: 0, t: Ratio { num: 1, den: 1 } };
    let e = p.validate().unwrap_err();
    assert_eq!(
        e.message(),
        "QID 'q2' has protected types {\"truck\", \"van\"} but first QID has {\"vehicle\"}; all QIDs must agree on τ_prot"
    );
}

#[test]
fn class_keys_are_marginals_of_source_sets() {
    let log = small_log();
    let p = policy(2, 2, Ratio { num: 1, den: 2 });
    let classes = compute_fingerprints(&p, &vehicle_shipment_box(), &bindings(), &log);
    for (o, name) in [(0usize, "vehicle:v1"), (1, "vehicle:v2"), (2, "vehicle:v3")] {
        let src = compute_source_set(&p.qids[0], EventOrObjectIndex::Object(o), &vehicle_shipment_box(), &bindings(), &log);
        let key = vec![source_set_to_marginal(&src)];
        let holders: Vec<&Fingerprint> = classes.iter().filter(|(_, m)| m.contains(&s(name))).map(|(fp, _)| fp).collect();
        assert_eq!(holders, vec![&key]);
    }
}
