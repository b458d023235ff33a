//! Attribute values read for quasi-identifiers and sensitive attributes,
//! with the total order their derived `Ord` follows.

use vstd::prelude::*;
use crate::order::{
    char_order, compare_chars, lemma_lex_at, lemma_lex_irreflexive, lemma_lex_prefix,
    lemma_lex_strict_total, lemma_take_step, lemma_text_strict_total, lex_lt, rel_of, strict_total,
    text_lt, text_order, Rel,
};
use crate::text::chars_of;

verus! {

/// A discrete attribute value. Floating-point values are carried by a key
/// whose unsigned order is the order of the numbers they stand for.
#[derive(Debug, Clone, PartialEq, Eq, PartialOrd, Ord, Hash)]
pub enum QidValue {
    /// String attribute, or an identifier or timestamp rendering.
    Str(String),
    /// Integer attribute.
    Int(i64),
    /// Floating-point attribute, as an order-preserving key.
    Float(u64),
    /// Boolean attribute.
    Bool(bool),
    /// Attribute absent or null.
    Null,
}

/// The mathematical value of a `QidValue`.
pub ghost enum QidView {
    Str(Seq<char>),
    Int(i64),
    Float(u64),
    Bool(bool),
    Null,
}

impl DeepView for QidValue {
    type V = QidView;

    open spec fn deep_view(&self) -> QidView {
        match self {
            QidValue::Str(s) => QidView::Str(s@),
            QidValue::Int(i) => QidView::Int(*i),
            QidValue::Float(f) => QidView::Float(*f),
            QidValue::Bool(b) => QidView::Bool(*b),
            QidValue::Null => QidView::Null,
        }
    }
}

/// Position of the variant in declaration order.
pub open spec fn rank(v: QidView) -> int {
    match v {
        QidView::Str(_) => 0,
        QidView::Int(_) => 1,
        QidView::Float(_) => 2,
        QidView::Bool(_) => 3,
        QidView::Null => 4,
    }
}

/// The order of values: by variant in declaration order, then by payload.
pub open spec fn value_lt(a: QidView, b: QidView) -> bool {
    if rank(a) != rank(b) {
        rank(a) < rank(b)
    } else {
        match (a, b) {
            (QidView::Str(x), QidView::Str(y)) => text_lt(x, y),
            (QidView::Int(x), QidView::Int(y)) => x < y,
            (QidView::Float(x), QidView::Float(y)) => x < y,
            (QidView::Bool(x), QidView::Bool(y)) => !x && y,
            _ => false,
        }
    }
}

/// `value_lt` as a relation value.
pub open spec fn value_order() -> spec_fn(QidView, QidView) -> bool {
    |a: QidView, b: QidView| value_lt(a, b)
}

/// Order of `(value, count)` pairs: by value, then by count.
pub open spec fn entry_lt(a: (QidView, usize), b: (QidView, usize)) -> bool {
    value_lt(a.0, b.0) || (a.0 == b.0 && a.1 < b.1)
}

pub open spec fn entry_order() -> spec_fn((QidView, usize), (QidView, usize)) -> bool {
    |a: (QidView, usize), b: (QidView, usize)| entry_lt(a, b)
}

/// Order of tuples of values (lexicographic).
pub open spec fn tuple_order() -> spec_fn(Seq<QidView>, Seq<QidView>) -> bool {
    |a: Seq<QidView>, b: Seq<QidView>| lex_lt(a, b, value_order())
}

pub proof fn lemma_value_strict_total()
    ensures
        strict_total(value_order()),
{
    lemma_text_strict_total();
    let l = value_order();
    let t = text_order();
    assert forall|x: QidView| !(#[trigger] l(x, x)) by {
        if let QidView::Str(s) = x {
            assert(!t(s, s));
        }
    }
    assert forall|x: QidView, y: QidView, z: QidView| #[trigger] l(x, y) && #[trigger] l(y, z) implies l(x, z) by {
        if let (QidView::Str(a), QidView::Str(b), QidView::Str(c)) = (x, y, z) {
            assert(t(a, b) && t(b, c));
        }
    }
    assert forall|x: QidView, y: QidView| x != y implies #[trigger] l(x, y) || #[trigger] l(y, x) by {
        if let (QidView::Str(a), QidView::Str(b)) = (x, y) {
            assert(t(a, b) || t(b, a));
        }
    }
}

/// `value_lt` is a strict total order, stated directly.
pub proof fn lemma_value_lt_total()
    ensures
        forall|x: QidView| !(#[trigger] value_lt(x, x)),
        forall|x: QidView, y: QidView, z: QidView| #[trigger] value_lt(x, y) && #[trigger] value_lt(y, z) ==> value_lt(x, z),
        forall|x: QidView, y: QidView| x != y ==> #[trigger] value_lt(x, y) || #[trigger] value_lt(y, x),
{
    lemma_value_strict_total();
    let l = value_order();
    assert forall|x: QidView| !(#[trigger] value_lt(x, x)) by { assert(!l(x, x)); }
    assert forall|x: QidView, y: QidView, z: QidView| #[trigger] value_lt(x, y) && #[trigger] value_lt(y, z) implies value_lt(x, z) by {
        assert(l(x, y) && l(y, z));
    }
    assert forall|x: QidView, y: QidView| x != y implies #[trigger] value_lt(x, y) || #[trigger] value_lt(y, x) by {
        assert(l(x, y) || l(y, x));
    }
}

pub proof fn lemma_entry_strict_total()
    ensures
        strict_total(entry_order()),
{
    lemma_value_strict_total();
    let v = value_order();
    let l = entry_order();
    assert forall|x: (QidView, usize)| !(#[trigger] l(x, x)) by {
        assert(!v(x.0, x.0));
    }
    assert forall|x: (QidView, usize), y: (QidView, usize), z: (QidView, usize)|
        #[trigger] l(x, y) && #[trigger] l(y, z) implies l(x, z) by {
        if v(x.0, y.0) && v(y.0, z.0) {
            assert(v(x.0, z.0));
        }
    }
    assert forall|x: (QidView, usize), y: (QidView, usize)| x != y implies #[trigger] l(x, y) || #[trigger] l(y, x) by {
        if x.0 != y.0 {
            assert(v(x.0, y.0) || v(y.0, x.0));
        }
    }
}

pub proof fn lemma_tuple_strict_total()
    ensures
        strict_total(tuple_order()),
{
    lemma_value_strict_total();
    lemma_lex_strict_total(value_order());
    assert(tuple_order() =~= (|a: Seq<QidView>, b: Seq<QidView>| lex_lt(a, b, value_order())));
}

impl QidValue {
    fn rank_of(&self) -> (r: u8)
        ensures
            r as int == rank(self.deep_view()),
    {
        match self {
            QidValue::Str(_) => 0,
            QidValue::Int(_) => 1,
            QidValue::Float(_) => 2,
            QidValue::Bool(_) => 3,
            QidValue::Null => 4,
        }
    }

    /// Compares two values in the order of `value_lt`.
    pub fn compare(&self, other: &QidValue) -> (r: Rel)
        ensures
            r == rel_of(self.deep_view(), other.deep_view(), value_order()),
    {
        proof { lemma_value_strict_total(); }
        let ra = self.rank_of();
        let rb = other.rank_of();
        if ra < rb {
            return Rel::Less;
        } else if ra > rb {
            assert(value_order()(other.deep_view(), self.deep_view()));
            return Rel::Greater;
        }
        match (self, other) {
            (QidValue::Str(x), QidValue::Str(y)) => {
                let cx = chars_of(x.as_str());
                let cy = chars_of(y.as_str());
                let c = compare_chars(&cx, &cy);
                proof { lemma_text_strict_total(); }
                c
            },
            (QidValue::Int(x), QidValue::Int(y)) => {
                if *x < *y { Rel::Less } else if *x == *y { Rel::Same } else { Rel::Greater }
            },
            (QidValue::Float(x), QidValue::Float(y)) => {
                if *x < *y { Rel::Less } else if *x == *y { Rel::Same } else { Rel::Greater }
            },
            (QidValue::Bool(x), QidValue::Bool(y)) => {
                if !*x && *y { Rel::Less } else if *x == *y { Rel::Same } else { Rel::Greater }
            },
            _ => Rel::Same,
        }
    }

    /// `true` iff the two values are equal.
    pub fn same_value(&self, other: &QidValue) -> (r: bool)
        ensures
            r == (self.deep_view() == other.deep_view()),
    {
        match (self, other) {
            (QidValue::Str(x), QidValue::Str(y)) => *x == *y,
            (QidValue::Int(x), QidValue::Int(y)) => *x == *y,
            (QidValue::Float(x), QidValue::Float(y)) => *x == *y,
            (QidValue::Bool(x), QidValue::Bool(y)) => *x == *y,
            (QidValue::Null, QidValue::Null) => true,
            _ => false,
        }
    }

    /// A copy of this value.
    pub fn duplicate(&self) -> (r: QidValue)
        ensures
            r.deep_view() == self.deep_view(),
    {
        match self {
            QidValue::Str(s) => QidValue::Str(s.clone()),
            QidValue::Int(i) => QidValue::Int(*i),
            QidValue::Float(f) => QidValue::Float(*f),
            QidValue::Bool(b) => QidValue::Bool(*b),
            QidValue::Null => QidValue::Null,
        }
    }
}

/// A copy of a tuple of values.
pub fn copy_values(v: &Vec<QidValue>) -> (r: Vec<QidValue>)
    ensures
        r.deep_view() == v.deep_view(),
{
    let mut r: Vec<QidValue> = Vec::new();
    let mut i: usize = 0;
    while i < v.len()
        invariant
            i <= v.len(),
            r.deep_view() == v.deep_view().take(i as int),
        decreases v.len() - i,
    {
        r.push(v[i].duplicate());
        assert(v.deep_view().take(i + 1) =~= v.deep_view().take(i as int).push(v[i as int].deep_view()));
        assert(r.deep_view() =~= v.deep_view().take(i + 1));
        i = i + 1;
    }
    assert(v.deep_view().take(i as int) =~= v.deep_view());
    r
}

/// `true` iff the two tuples are equal.
pub fn same_values(a: &Vec<QidValue>, b: &Vec<QidValue>) -> (r: bool)
    ensures
        r == (a.deep_view() == b.deep_view()),
{
    if a.len() != b.len() {
        return false;
    }
    let mut i: usize = 0;
    while i < a.len()
        invariant
            a.len() == b.len(),
            i <= a.len(),
            a.deep_view().take(i as int) == b.deep_view().take(i as int),
        decreases a.len() - i,
    {
        if !a[i].same_value(&b[i]) {
            assert(a.deep_view()[i as int] != b.deep_view()[i as int]);
            return false;
        }
        proof { lemma_take_step(a.deep_view(), b.deep_view(), i as int); }
        i = i + 1;
    }
    assert(a.deep_view() =~= a.deep_view().take(i as int));
    assert(b.deep_view() =~= b.deep_view().take(i as int));
    true
}

/// Compares two tuples of values lexicographically.
pub fn compare_values(a: &Vec<QidValue>, b: &Vec<QidValue>) -> (r: Rel)
    ensures
        r == rel_of(a.deep_view(), b.deep_view(), tuple_order()),
{
    proof { lemma_value_strict_total(); lemma_tuple_strict_total(); }
    let ghost av = a.deep_view();
    let ghost bv = b.deep_view();
    let mut i: usize = 0;
    while i < a.len() && i < b.len()
        invariant
            av == a.deep_view(),
            bv == b.deep_view(),
            i <= a.len(),
            i <= b.len(),
            av.take(i as int) == bv.take(i as int),
            strict_total(value_order()),
        decreases a.len() - i,
    {
        match a[i].compare(&b[i]) {
            Rel::Less => {
                proof { lemma_lex_at(av, bv, i as int, value_order()); }
                return Rel::Less;
            },
            Rel::Greater => {
                proof { lemma_lex_at(bv, av, i as int, value_order()); }
                return Rel::Greater;
            },
            Rel::Same => {},
        }
        proof { lemma_take_step(av, bv, i as int); }
        i = i + 1;
    }
    proof { lemma_lex_prefix(av, bv, i as int, value_order()); }
    if a.len() < b.len() {
        Rel::Less
    } else if a.len() > b.len() {
        Rel::Greater
    } else {
        proof { lemma_lex_irreflexive(av, value_order()); }
        Rel::Same
    }
}

} // verus!
