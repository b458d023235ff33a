use kanon::fingerprint::Fingerprint;
use kanon::fraction::Fraction;
use kanon::policy::Ratio;
use kanon::properties::{
    discrete_emd, elements_at_risk, eval_k, eval_l, eval_t, find_k_max, find_l_max, find_t_min,
    sensitive_values_at_risk, PolicyContext,
};
use kanon::value::QidValue;
use std::collections::BTreeMap;

fn qv(s: &str) -> QidValue {
    QidValue::Str(s.to_string())
}

fn value(f: Fraction) -> f64 {
    f.num as f64 / f.den as f64
}

fn ratio(num: i64, den: u64) -> Ratio {
    Ratio { num, den }
}

/// A context with the given classes; `classes` lists (members, sensitive values).
fn make_ctx(classes: Vec<(Vec<&str>, Vec<&str>)>) -> PolicyContext {
    let mut class_map: Vec<(Fingerprint, Vec<String>)> = Vec::new();
    let mut sens_map: Vec<(String, Vec<QidValue>)> = Vec::new();
    let mut global_dist: BTreeMap<Vec<QidValue>, usize> = BTreeMap::new();
    for (i, (members, sens_vals)) in classes.iter().enumerate() {
        let fp: Fingerprint = vec![vec![(QidValue::Int(i as i64), 1)]];
        let ids: Vec<String> = members.iter().map(|m| m.to_string()).collect();
        class_map.push((fp, ids.clone()));
        for id in &ids {
            let tuple: Vec<QidValue> = sens_vals.iter().map(|v| qv(v)).collect();
            *global_dist.entry(tuple.clone()).or_insert(0) += 1;
            sens_map.push((id.clone(), tuple));
        }
    }
    let global_total = sens_map.len();
    PolicyContext {
        class_map,
        sens_map,
        global_dist: global_dist.into_iter().collect(),
        global_total,
        activated_qid_ids: vec!["q1".to_string()],
        non_activated_qid_ids: vec![],
    }
}

#[test]
fn eval_k_satisfied_when_all_classes_large_enough() {
    let ctx = make_ctx(vec![(vec!["v1", "v2"], vec!["large"]), (vec!["v3", "v4"], vec!["small"])]);
    let r = eval_k(&ctx, 2);
    assert!(r.satisfied);
    assert!(r.classes.iter().all(|c| c.ok));
}

#[test]
fn eval_k_violated_when_class_too_small() {
    let ctx = make_ctx(vec![(vec!["v1"], vec!["large"]), (vec!["v3", "v4"], vec!["small"])]);
    let r = eval_k(&ctx, 2);
    assert!(!r.satisfied);
    assert!(r.classes.iter().any(|c| !c.ok));
}

#[test]
fn eval_k_k1_always_satisfied() {
    let ctx = make_ctx(vec![(vec!["v1"], vec!["large"])]);
    assert!(eval_k(&ctx, 1).satisfied);
}

#[test]
fn eval_k_classes_sorted_largest_first() {
    let ctx = make_ctx(vec![(vec!["v1", "v2"], vec!["large"]), (vec!["v3", "v4", "v5", "v6"], vec!["small"])]);
    let r = eval_k(&ctx, 2);
    assert!(r.classes[0].members.len() >= r.classes[1].members.len());
}

#[test]
fn eval_l_satisfied_when_enough_distinct_values() {
    let ctx = make_ctx(vec![(vec!["v1", "v2"], vec!["large"]), (vec!["v3", "v4"], vec!["small"])]);
    let r = eval_l(&ctx, 1);
    assert!(r.satisfied);
}

#[test]
fn eval_l_violated_when_all_same_sensitive_value() {
    let ctx = make_ctx(vec![(vec!["v1", "v2"], vec!["large"])]);
    let r = eval_l(&ctx, 2);
    assert!(!r.satisfied);
    assert_eq!(r.classes[0].distinct_count, 1);
}

#[test]
fn eval_l_zero_trivially_satisfied() {
    let ctx = make_ctx(vec![(vec!["v1"], vec!["large"])]);
    assert!(eval_l(&ctx, 0).satisfied);
}

#[test]
fn eval_t_one_trivially_satisfied() {
    let ctx = make_ctx(vec![(vec!["v1", "v2"], vec!["large"])]);
    let r = eval_t(&ctx, ratio(1, 1));
    assert!(r.satisfied);
    assert!(r.classes.iter().all(|c| c.emd.is_none()));
}

#[test]
fn eval_t_identical_to_global_emd_zero() {
    let mut ctx = make_ctx(vec![(vec!["v1"], vec!["large"]), (vec!["v2"], vec!["small"])]);
    let fp: Fingerprint = vec![vec![(QidValue::Int(99), 1)]];
    ctx.class_map = vec![(fp, vec!["v1".to_string(), "v2".to_string()])];
    let r = eval_t(&ctx, ratio(1, 2));
    for c in &r.classes {
        if let Some(emd) = c.emd {
            assert!(value(emd) < 1e-9, "EMD should be ~0, got {}", value(emd));
        }
    }
}

#[test]
fn find_k_max_returns_smallest_class_size() {
    let ctx = make_ctx(vec![(vec!["v1", "v2", "v3", "v4"], vec!["large"]), (vec!["v5", "v6"], vec!["small"])]);
    assert_eq!(find_k_max(&ctx), 2);
}

#[test]
fn find_k_max_zero_when_no_elements() {
    let ctx = make_ctx(vec![]);
    assert_eq!(find_k_max(&ctx), 0);
}

#[test]
fn find_l_max_returns_min_distinct_sensitive() {
    let ctx = make_ctx(vec![(vec!["v1", "v2"], vec!["large"]), (vec!["v3", "v4"], vec!["small"])]);
    assert_eq!(find_l_max(&ctx), 1);
}

#[test]
fn find_t_min_returns_minimum_emd() {
    let ctx = make_ctx(vec![(vec!["v1", "v2"], vec!["large"]), (vec!["v3", "v4"], vec!["small"])]);
    let t_result = eval_t(&ctx, ratio(9, 10));
    let t_min = find_t_min(&ctx, &t_result);
    if let Some(v) = t_min {
        assert!(value(v) >= 0.0 && value(v) <= 1.0, "t_min must be in [0,1], got {}", value(v));
    }
}

#[test]
fn find_t_min_none_without_sensitive_attrs() {
    let ctx = PolicyContext {
        class_map: vec![],
        sens_map: vec![],
        global_dist: vec![],
        global_total: 0,
        activated_qid_ids: vec![],
        non_activated_qid_ids: vec![],
    };
    let t_result = eval_t(&ctx, ratio(1, 2));
    assert_eq!(find_t_min(&ctx, &t_result), None);
}

#[test]
fn elements_at_risk_lists_members_of_violating_classes() {
    let ctx = make_ctx(vec![(vec!["v1"], vec!["large"]), (vec!["v3", "v4"], vec!["small"])]);
    let k_result = eval_k(&ctx, 2);
    let at_risk = elements_at_risk(&k_result);
    assert_eq!(at_risk, vec!["v1".to_string()]);
}

#[test]
fn elements_at_risk_empty_when_k_satisfied() {
    let ctx = make_ctx(vec![(vec!["v1", "v2"], vec!["large"])]);
    let k_result = eval_k(&ctx, 2);
    assert!(elements_at_risk(&k_result).is_empty());
}

#[test]
fn sensitive_values_at_risk_captures_values_in_violating_classes() {
    let ctx = make_ctx(vec![(vec!["v1", "v2"], vec!["large"])]);
    let l_result = eval_l(&ctx, 2);
    let t_result = eval_t(&ctx, ratio(1, 1));
    let risks = sensitive_values_at_risk(&l_result, &t_result, &vec!["capacity".to_string()]);
    assert_eq!(risks.len(), 1);
    assert_eq!(risks[0].attr_name, "capacity");
    assert!(risks[0].at_risk_values.contains(&qv("large")));
}

#[test]
fn sensitive_values_at_risk_empty_when_all_satisfied() {
    let ctx = make_ctx(vec![(vec!["v1", "v2"], vec!["large"]), (vec!["v3", "v4"], vec!["small"])]);
    let l_result = eval_l(&ctx, 1);
    let t_result = eval_t(&ctx, ratio(1, 1));
    let risks = sensitive_values_at_risk(&l_result, &t_result, &vec!["capacity".to_string()]);
    for r in &risks {
        assert!(r.at_risk_values.is_empty(), "Expected no at-risk values, got {:?}", r.at_risk_values);
    }
}

#[test]
fn discrete_emd_identical_distributions() {
    let sens = vec![vec![qv("large")], vec![qv("small")]];
    let global = vec![(vec![qv("large")], 1usize), (vec![qv("small")], 1usize)];
    assert!((value(discrete_emd(&sens, &global, 2)) - 0.0).abs() < 1e-9);
}

#[test]
fn discrete_emd_disjoint_distributions() {
    let sens = vec![vec![qv("large")]];
    let global = vec![(vec![qv("small")], 1usize)];
    assert!((value(discrete_emd(&sens, &global, 1)) - 1.0).abs() < 1e-9);
}

#[test]
fn discrete_emd_empty_class() {
    assert_eq!(value(discrete_emd(&vec![], &vec![], 0)), 0.0);
}

#[test]
fn discrete_emd_partial_overlap() {
    let sens = vec![vec![qv("large")], vec![qv("large")]];
    let global = vec![(vec![qv("large")], 1usize), (vec![qv("small")], 1usize)];
    let emd = value(discrete_emd(&sens, &global, 2));
    assert!((emd - 0.5).abs() < 1e-9, "Expected 0.5, got {emd}");
}
