//! Laws of the equivalence-class partition: its layout, and that it is
//! determined by the policy, the box output and the log.

use vstd::prelude::*;
use crate::activation::keep;
use crate::binding::{Binding, BindingBox};
use crate::fingerprint::{
    in_source_set, is_marginal, lemma_counts_of_source, lemma_marginal_unique, no_dups, occurrence_count, classes_of, element_name, elements_of_types, has_fingerprint, is_fingerprint, lemma_fingerprint_strict_total,
    lemma_fingerprint_unique, lemma_keep_members, law_classes_partition, names, protected_types, fingerprint_order,
};
use crate::ocel::{EventOrObjectIndex, OcelData};
use crate::order::strict_total;
use crate::policy::AnonPolicy;
use crate::properties::{all_members, is_context};
use crate::value::QidView;

verus! {

/// A fingerprint, as a mathematical value.
pub type FingerprintView = Seq<Seq<(QidView, usize)>>;

/// A class map, as a mathematical value.
pub type ClassMapView = Seq<(FingerprintView, Seq<Seq<char>>)>;

/// For each key, the names of the elements of `s` whose fingerprint it is.
pub open spec fn class_lists(
    keys: Seq<FingerprintView>,
    s: Seq<EventOrObjectIndex>,
    policy: AnonPolicy,
    bbox: BindingBox,
    out: Seq<Binding>,
    ocel: OcelData,
) -> ClassMapView {
    keys.map_values(|k: FingerprintView| (k, names(ocel, keep(s, has_fingerprint(k, policy, bbox, out, ocel)))))
}

/// Exactly one of the keys is the fingerprint of `x`.
pub open spec fn one_key(
    keys: Seq<FingerprintView>,
    x: EventOrObjectIndex,
    policy: AnonPolicy,
    bbox: BindingBox,
    out: Seq<Binding>,
    ocel: OcelData,
) -> bool {
    &&& exists|a: int| 0 <= a < keys.len() && is_fingerprint(#[trigger] keys[a], policy, bbox, out, ocel, x)
    &&& forall|a: int, b: int| 0 <= a < keys.len() && 0 <= b < keys.len()
        && is_fingerprint(#[trigger] keys[a], policy, bbox, out, ocel, x)
        && is_fingerprint(#[trigger] keys[b], policy, bbox, out, ocel, x) ==> a == b
}

proof fn lemma_lists_empty(keys: Seq<FingerprintView>, policy: AnonPolicy, bbox: BindingBox, out: Seq<Binding>, ocel: OcelData)
    ensures
        all_members(class_lists(keys, Seq::empty(), policy, bbox, out, ocel)) == Seq::<Seq<char>>::empty(),
    decreases keys.len(),
{
    if keys.len() > 0 {
        let kp = keys.drop_last();
        lemma_lists_empty(kp, policy, bbox, out, ocel);
        let cl = class_lists(keys, Seq::empty(), policy, bbox, out, ocel);
        assert(cl.drop_last() =~= class_lists(kp, Seq::empty(), policy, bbox, out, ocel));
        assert(names(ocel, keep(Seq::<EventOrObjectIndex>::empty(), has_fingerprint(keys.last(), policy, bbox, out, ocel)))
            =~= Seq::<Seq<char>>::empty());
        assert(all_members(cl) =~= Seq::<Seq<char>>::empty());
    }
}

/// Splitting off the last key.
proof fn lemma_lists_last(
    keys: Seq<FingerprintView>,
    s: Seq<EventOrObjectIndex>,
    policy: AnonPolicy,
    bbox: BindingBox,
    out: Seq<Binding>,
    ocel: OcelData,
)
    requires
        keys.len() > 0,
    ensures
        all_members(class_lists(keys, s, policy, bbox, out, ocel))
            == all_members(class_lists(keys.drop_last(), s, policy, bbox, out, ocel))
            + names(ocel, keep(s, has_fingerprint(keys.last(), policy, bbox, out, ocel))),
{
    let cl = class_lists(keys, s, policy, bbox, out, ocel);
    assert(cl.drop_last() =~= class_lists(keys.drop_last(), s, policy, bbox, out, ocel));
}

/// Adding an element that no key is the fingerprint of changes no list.
proof fn lemma_lists_none(
    keys: Seq<FingerprintView>,
    s: Seq<EventOrObjectIndex>,
    x: EventOrObjectIndex,
    policy: AnonPolicy,
    bbox: BindingBox,
    out: Seq<Binding>,
    ocel: OcelData,
)
    requires
        forall|a: int| 0 <= a < keys.len() ==> !is_fingerprint(#[trigger] keys[a], policy, bbox, out, ocel, x),
    ensures
        class_lists(keys, s.push(x), policy, bbox, out, ocel) == class_lists(keys, s, policy, bbox, out, ocel),
{
    assert(s.push(x).drop_last() =~= s);
    assert forall|a: int| 0 <= a < keys.len() implies
        keep(s.push(x), #[trigger] has_fingerprint(keys[a], policy, bbox, out, ocel))
            == keep(s, has_fingerprint(keys[a], policy, bbox, out, ocel)) by {
        assert(!is_fingerprint(keys[a], policy, bbox, out, ocel, x));
    }
    assert(class_lists(keys, s.push(x), policy, bbox, out, ocel) =~= class_lists(keys, s, policy, bbox, out, ocel));
}

/// Adding an element adds its name once, to the list of its key.
proof fn lemma_lists_push(
    keys: Seq<FingerprintView>,
    s: Seq<EventOrObjectIndex>,
    x: EventOrObjectIndex,
    policy: AnonPolicy,
    bbox: BindingBox,
    out: Seq<Binding>,
    ocel: OcelData,
)
    requires
        one_key(keys, x, policy, bbox, out, ocel),
    ensures
        all_members(class_lists(keys, s.push(x), policy, bbox, out, ocel)).to_multiset()
            == all_members(class_lists(keys, s, policy, bbox, out, ocel)).to_multiset().insert(element_name(ocel, x)),
    decreases keys.len(),
{
    broadcast use vstd::seq_lib::group_to_multiset_ensures;
    let kp = keys.drop_last();
    let kl = keys.last();
    let hf = has_fingerprint(kl, policy, bbox, out, ocel);
    let n = element_name(ocel, x);
    lemma_lists_last(keys, s, policy, bbox, out, ocel);
    lemma_lists_last(keys, s.push(x), policy, bbox, out, ocel);
    assert(s.push(x).drop_last() =~= s);
    let a0 = all_members(class_lists(kp, s, policy, bbox, out, ocel));
    let b0 = names(ocel, keep(s, hf));
    if is_fingerprint(kl, policy, bbox, out, ocel, x) {
        assert forall|a: int| 0 <= a < kp.len() implies !is_fingerprint(#[trigger] kp[a], policy, bbox, out, ocel, x) by {
            assert(kp[a] == keys[a]);
            assert(keys[keys.len() - 1] == kl);
            if is_fingerprint(kp[a], policy, bbox, out, ocel, x) {
                assert(is_fingerprint(keys[a], policy, bbox, out, ocel, x));
                assert(is_fingerprint(keys[keys.len() - 1], policy, bbox, out, ocel, x));
            }
        }
        lemma_lists_none(kp, s, x, policy, bbox, out, ocel);
        assert(keep(s.push(x), hf) == keep(s, hf).push(x));
        assert(names(ocel, keep(s.push(x), hf)) =~= b0.push(n));
        vstd::seq_lib::lemma_multiset_commutative(a0, b0.push(n));
        vstd::seq_lib::lemma_multiset_commutative(a0, b0);
        assert((a0 + b0.push(n)).to_multiset() =~= (a0 + b0).to_multiset().insert(n));
    } else {
        assert(one_key(kp, x, policy, bbox, out, ocel)) by {
            let a = choose|a: int| 0 <= a < keys.len() && is_fingerprint(#[trigger] keys[a], policy, bbox, out, ocel, x);
            assert(a < keys.len() - 1);
            assert(kp[a] == keys[a]);
            assert forall|a1: int, b1: int| 0 <= a1 < kp.len() && 0 <= b1 < kp.len()
                && is_fingerprint(#[trigger] kp[a1], policy, bbox, out, ocel, x)
                && is_fingerprint(#[trigger] kp[b1], policy, bbox, out, ocel, x) implies a1 == b1 by {
                assert(kp[a1] == keys[a1] && kp[b1] == keys[b1]);
            }
        }
        lemma_lists_push(kp, s, x, policy, bbox, out, ocel);
        assert(keep(s.push(x), hf) == keep(s, hf));
        let a1 = all_members(class_lists(kp, s.push(x), policy, bbox, out, ocel));
        vstd::seq_lib::lemma_multiset_commutative(a1, b0);
        vstd::seq_lib::lemma_multiset_commutative(a0, b0);
        assert((a1 + b0).to_multiset() =~= (a0 + b0).to_multiset().insert(n));
    }
}

/// When every element has exactly one key, the lists hold each element's
/// name once, and nothing else.
proof fn lemma_lists_names(
    keys: Seq<FingerprintView>,
    s: Seq<EventOrObjectIndex>,
    policy: AnonPolicy,
    bbox: BindingBox,
    out: Seq<Binding>,
    ocel: OcelData,
)
    requires
        forall|y: int| 0 <= y < s.len() ==> one_key(keys, #[trigger] s[y], policy, bbox, out, ocel),
    ensures
        all_members(class_lists(keys, s, policy, bbox, out, ocel)).to_multiset() == names(ocel, s).to_multiset(),
    decreases s.len(),
{
    broadcast use vstd::seq_lib::group_to_multiset_ensures;
    if s.len() == 0 {
        lemma_lists_empty(keys, policy, bbox, out, ocel);
        assert(s =~= Seq::<EventOrObjectIndex>::empty());
        assert(names(ocel, s) =~= Seq::<Seq<char>>::empty());
        assert(Seq::<Seq<char>>::empty().to_multiset() =~= vstd::multiset::Multiset::empty());
    } else {
        let sp = s.drop_last();
        let x = s.last();
        assert(s =~= sp.push(x));
        assert forall|y: int| 0 <= y < sp.len() implies one_key(keys, #[trigger] sp[y], policy, bbox, out, ocel) by {
            assert(sp[y] == s[y]);
        }
        assert(one_key(keys, s[s.len() - 1], policy, bbox, out, ocel));
        lemma_lists_names(keys, sp, policy, bbox, out, ocel);
        lemma_lists_push(keys, sp, x, policy, bbox, out, ocel);
        assert(names(ocel, s) =~= names(ocel, sp).push(element_name(ocel, x)));
    }
}

/// The keys of a class map.
pub open spec fn keys_of_classes(cls: ClassMapView) -> Seq<FingerprintView> {
    cls.map_values(|c: (FingerprintView, Seq<Seq<char>>)| c.0)
}

/// A class map meeting `classes_of` is the lists of its keys.
proof fn lemma_classes_are_lists(
    cls: ClassMapView,
    elems: Seq<EventOrObjectIndex>,
    policy: AnonPolicy,
    bbox: BindingBox,
    out: Seq<Binding>,
    ocel: OcelData,
)
    requires
        classes_of(cls, elems, policy, bbox, out, ocel),
    ensures
        cls == class_lists(keys_of_classes(cls), elems, policy, bbox, out, ocel),
{
    let cl = class_lists(keys_of_classes(cls), elems, policy, bbox, out, ocel);
    assert forall|a: int| 0 <= a < cls.len() implies #[trigger] cls[a] == cl[a] by {
        assert(cls[a].1 == names(ocel, keep(elems, has_fingerprint(cls[a].0, policy, bbox, out, ocel))));
    }
    assert(cls =~= cl);
}

/// The layout of the partition of the protected elements `elems` into
/// classes: each element lies in exactly one class, whose key is its
/// fingerprint `fp(x)` (one marginal fingerprint per quasi-identifier, each
/// the marginal of the element's source set), and whose list holds its
/// type-qualified identifier; no list is empty; and over all lists, each
/// element's identifier occurs once and no other identifier occurs.
pub proof fn law_fingerprint_layout(
    cls: ClassMapView,
    elems: Seq<EventOrObjectIndex>,
    policy: AnonPolicy,
    bbox: BindingBox,
    out: Seq<Binding>,
    ocel: OcelData,
)
    requires
        classes_of(cls, elems, policy, bbox, out, ocel),
    ensures
        forall|y: int| 0 <= y < elems.len() ==> exists|a: int| 0 <= a < cls.len()
            && is_fingerprint(cls[a].0, policy, bbox, out, ocel, #[trigger] elems[y])
            && cls[a].1.contains(element_name(ocel, elems[y])),
        forall|y: int, a: int, b: int| 0 <= y < elems.len() && 0 <= a < cls.len() && 0 <= b < cls.len()
            && is_fingerprint(#[trigger] cls[a].0, policy, bbox, out, ocel, #[trigger] elems[y])
            && is_fingerprint(#[trigger] cls[b].0, policy, bbox, out, ocel, elems[y]) ==> a == b,
        forall|a: int| 0 <= a < cls.len() ==> (#[trigger] cls[a]).1.len() > 0,
        all_members(cls).to_multiset() == names(ocel, elems).to_multiset(),
{
    let keys = keys_of_classes(cls);
    assert forall|y: int| 0 <= y < elems.len() implies one_key(keys, #[trigger] elems[y], policy, bbox, out, ocel) by {
        assert(crate::fingerprint::has_class(cls, policy, bbox, out, ocel, elems[y]));
        let a = choose|a: int| 0 <= a < cls.len() && is_fingerprint(#[trigger] cls[a].0, policy, bbox, out, ocel, elems[y]);
        assert(keys[a] == cls[a].0);
        assert forall|a1: int, b1: int| 0 <= a1 < keys.len() && 0 <= b1 < keys.len()
            && is_fingerprint(#[trigger] keys[a1], policy, bbox, out, ocel, elems[y])
            && is_fingerprint(#[trigger] keys[b1], policy, bbox, out, ocel, elems[y]) implies a1 == b1 by {
            assert(keys[a1] == cls[a1].0 && keys[b1] == cls[b1].0);
            law_classes_partition(cls, elems, policy, bbox, out, ocel, y, a1, b1);
        }
    }
    lemma_classes_are_lists(cls, elems, policy, bbox, out, ocel);
    lemma_lists_names(keys, elems, policy, bbox, out, ocel);
    assert forall|y: int| 0 <= y < elems.len() implies exists|a: int| 0 <= a < cls.len()
        && is_fingerprint(cls[a].0, policy, bbox, out, ocel, #[trigger] elems[y])
        && cls[a].1.contains(element_name(ocel, elems[y])) by {
        assert(crate::fingerprint::has_class(cls, policy, bbox, out, ocel, elems[y]));
        let a = choose|a: int| 0 <= a < cls.len() && is_fingerprint(#[trigger] cls[a].0, policy, bbox, out, ocel, elems[y]);
        let hf = has_fingerprint(cls[a].0, policy, bbox, out, ocel);
        lemma_keep_members(elems, hf);
        assert(hf(elems[y]));
        let k = keep(elems, hf);
        assert(k.contains(elems[y]));
        let i = choose|i: int| 0 <= i < k.len() && k[i] == elems[y];
        assert(cls[a].1 == names(ocel, k));
        assert(cls[a].1[i] == element_name(ocel, elems[y]));
    }
    assert forall|y: int, a: int, b: int| 0 <= y < elems.len() && 0 <= a < cls.len() && 0 <= b < cls.len()
        && is_fingerprint(#[trigger] cls[a].0, policy, bbox, out, ocel, #[trigger] elems[y])
        && is_fingerprint(#[trigger] cls[b].0, policy, bbox, out, ocel, elems[y]) implies a == b by {
        law_classes_partition(cls, elems, policy, bbox, out, ocel, y, a, b);
    }
}

/// Two strictly increasing sequences with the same elements are equal.
proof fn lemma_sorted_same<A>(s1: Seq<A>, s2: Seq<A>, lt: spec_fn(A, A) -> bool)
    requires
        strict_total(lt),
        forall|a: int, b: int| 0 <= a < b < s1.len() ==> lt(#[trigger] s1[a], #[trigger] s1[b]),
        forall|a: int, b: int| 0 <= a < b < s2.len() ==> lt(#[trigger] s2[a], #[trigger] s2[b]),
        forall|i: int| 0 <= i < s1.len() ==> s2.contains(#[trigger] s1[i]),
        forall|i: int| 0 <= i < s2.len() ==> s1.contains(#[trigger] s2[i]),
    ensures
        s1 == s2,
    decreases s1.len(),
{
    if s1.len() == 0 {
        if s2.len() > 0 {
            assert(s1.contains(s2[0]));
        }
        assert(s1 =~= s2);
    } else {
        assert(s2.contains(s1[0]));
        let j = choose|j: int| 0 <= j < s2.len() && s2[j] == s1[0];
        assert(s1.contains(s2[0]));
        let i = choose|i: int| 0 <= i < s1.len() && s1[i] == s2[0];
        if j > 0 {
            assert(lt(s2[0], s2[j]));
            if i > 0 {
                assert(lt(s1[0], s1[i]));
                assert(lt(s1[0], s1[0]));
            } else {
                assert(lt(s1[0], s1[0]));
            }
        }
        assert(s1[0] == s2[0]);
        let t1 = s1.drop_first();
        let t2 = s2.drop_first();
        assert forall|a: int, b: int| 0 <= a < b < t1.len() implies lt(#[trigger] t1[a], #[trigger] t1[b]) by {
            assert(t1[a] == s1[a + 1] && t1[b] == s1[b + 1]);
        }
        assert forall|a: int, b: int| 0 <= a < b < t2.len() implies lt(#[trigger] t2[a], #[trigger] t2[b]) by {
            assert(t2[a] == s2[a + 1] && t2[b] == s2[b + 1]);
        }
        assert forall|k: int| 0 <= k < t1.len() implies t2.contains(#[trigger] t1[k]) by {
            assert(t1[k] == s1[k + 1]);
            assert(s2.contains(s1[k + 1]));
            let m = choose|m: int| 0 <= m < s2.len() && s2[m] == s1[k + 1];
            assert(lt(s1[0], s1[k + 1]));
            if m == 0 {
                assert(lt(s1[0], s1[0]));
            }
            assert(t2[m - 1] == s2[m]);
        }
        assert forall|k: int| 0 <= k < t2.len() implies t1.contains(#[trigger] t2[k]) by {
            assert(t2[k] == s2[k + 1]);
            assert(s1.contains(s2[k + 1]));
            let m = choose|m: int| 0 <= m < s1.len() && s1[m] == s2[k + 1];
            assert(lt(s2[0], s2[k + 1]));
            if m == 0 {
                assert(lt(s2[0], s2[0]));
            }
            assert(t1[m - 1] == s1[m]);
        }
        lemma_sorted_same(t1, t2, lt);
        assert(s1 =~= seq![s1[0]] + t1);
        assert(s2 =~= seq![s2[0]] + t2);
    }
}

/// Every key of `c1` is a key of `c2`.
proof fn lemma_keys_shared(
    c1: ClassMapView,
    c2: ClassMapView,
    elems: Seq<EventOrObjectIndex>,
    policy: AnonPolicy,
    bbox: BindingBox,
    out: Seq<Binding>,
    ocel: OcelData,
)
    requires
        classes_of(c1, elems, policy, bbox, out, ocel),
        classes_of(c2, elems, policy, bbox, out, ocel),
    ensures
        forall|a: int| 0 <= a < c1.len() ==> keys_of_classes(c2).contains(#[trigger] keys_of_classes(c1)[a]),
{
    let k1 = keys_of_classes(c1);
    let k2 = keys_of_classes(c2);
    assert forall|a: int| 0 <= a < c1.len() implies k2.contains(#[trigger] k1[a]) by {
        let hf = has_fingerprint(c1[a].0, policy, bbox, out, ocel);
        let k = keep(elems, hf);
        assert(c1[a].1 == names(ocel, k) && c1[a].1.len() > 0);
        lemma_keep_members(elems, hf);
        assert(elems.contains(k[0]) && hf(k[0]));
        let y = choose|y: int| 0 <= y < elems.len() && elems[y] == k[0];
        assert(crate::fingerprint::has_class(c2, policy, bbox, out, ocel, elems[y]));
        let b = choose|b: int| 0 <= b < c2.len() && is_fingerprint(#[trigger] c2[b].0, policy, bbox, out, ocel, elems[y]);
        lemma_fingerprint_unique(c1[a].0, c2[b].0, policy, bbox, out, ocel, elems[y]);
        assert(k2[b] == k1[a]);
    }
}

/// The partition is determined: two class maps of the same protected
/// elements under the same policy, box output and log are equal.
pub proof fn law_classes_determined(
    c1: ClassMapView,
    c2: ClassMapView,
    elems: Seq<EventOrObjectIndex>,
    policy: AnonPolicy,
    bbox: BindingBox,
    out: Seq<Binding>,
    ocel: OcelData,
)
    requires
        classes_of(c1, elems, policy, bbox, out, ocel),
        classes_of(c2, elems, policy, bbox, out, ocel),
    ensures
        c1 == c2,
{
    lemma_fingerprint_strict_total();
    let k1 = keys_of_classes(c1);
    let k2 = keys_of_classes(c2);
    lemma_keys_shared(c1, c2, elems, policy, bbox, out, ocel);
    lemma_keys_shared(c2, c1, elems, policy, bbox, out, ocel);
    assert forall|a: int, b: int| 0 <= a < b < k1.len() implies fingerprint_order()(#[trigger] k1[a], #[trigger] k1[b]) by {
        assert(fingerprint_order()(c1[a].0, c1[b].0));
    }
    assert forall|a: int, b: int| 0 <= a < b < k2.len() implies fingerprint_order()(#[trigger] k2[a], #[trigger] k2[b]) by {
        assert(fingerprint_order()(c2[a].0, c2[b].0));
    }
    lemma_sorted_same(k1, k2, fingerprint_order());
    lemma_classes_are_lists(c1, elems, policy, bbox, out, ocel);
    lemma_classes_are_lists(c2, elems, policy, bbox, out, ocel);
}

/// The context's class map is the partition of the protected elements: it
/// equals any class map of them, such as the one `compute_fingerprints`
/// returns.
pub proof fn law_context_matches_fingerprints(
    ctx: crate::properties::PolicyContext,
    cls: ClassMapView,
    policy: AnonPolicy,
    bbox: BindingBox,
    out: Seq<Binding>,
    ocel: OcelData,
)
    requires
        is_context(ctx, policy, bbox, out, ocel),
        classes_of(cls, elements_of_types(ocel, protected_types(policy)), policy, bbox, out, ocel),
    ensures
        ctx.class_map.deep_view() == cls,
{
    law_classes_determined(
        ctx.class_map.deep_view(),
        cls,
        elements_of_types(ocel, protected_types(policy)),
        policy,
        bbox,
        out,
        ocel,
    );
}

/// The `i`-th marginal of an element's fingerprint is the marginal of its
/// source set for the `i`-th quasi-identifier: it equals any marginal of the
/// counts of a duplicate-free list holding exactly the pairs of `Src_q(x)`,
/// which is what `source_set_to_marginal` gives for what
/// `compute_source_set` gives.
pub proof fn law_fingerprint_entry(
    f: FingerprintView,
    policy: AnonPolicy,
    bbox: BindingBox,
    out: Seq<Binding>,
    ocel: OcelData,
    x: EventOrObjectIndex,
    i: int,
    src: Seq<(Seq<char>, QidView)>,
    m: Seq<(QidView, usize)>,
)
    requires
        is_fingerprint(f, policy, bbox, out, ocel, x),
        0 <= i < policy.qids@.len(),
        no_dups(src),
        forall|p: (Seq<char>, QidView)| #[trigger] src.contains(p) <==> in_source_set(ocel, policy.qids@[i], bbox, out, x, p),
        is_marginal(m, occurrence_count(src)),
    ensures
        f[i] == m,
{
    lemma_counts_of_source(src, ocel, policy.qids@[i], bbox, out, x);
    lemma_marginal_unique(f[i], m, crate::fingerprint::source_count(ocel, policy.qids@[i], bbox, out, x));
}

} // verus!
