//! The binding-box vocabulary the anonymity framework reads: variables,
//! structural filters, the declared variables of a box with their
//! admissible types, and the bindings a box evaluates to.

use vstd::prelude::*;
use crate::assoc::{first_index, keys_distinct, keys_of, lemma_lookup_at, lookup};

verus! {

/// An event variable of a binding box.
#[derive(PartialEq, Eq, Structural, Clone, Copy, Debug, Hash, PartialOrd, Ord)]
pub struct EventVariable(pub usize);

/// An object variable of a binding box.
#[derive(PartialEq, Eq, Structural, Clone, Copy, Debug, Hash, PartialOrd, Ord)]
pub struct ObjectVariable(pub usize);

/// Either kind of variable.
#[derive(PartialEq, Eq, Structural, Clone, Copy, Debug)]
pub enum Variable {
    Event(EventVariable),
    Object(ObjectVariable),
}

/// Variables that can be compared for identity in executable code.
pub trait VarKey: Copy + Sized {
    fn same(&self, other: &Self) -> (r: bool)
        ensures
            r == (*self == *other),
    ;
}

impl VarKey for EventVariable {
    fn same(&self, other: &Self) -> (r: bool) {
        self.0 == other.0
    }
}

impl VarKey for ObjectVariable {
    fn same(&self, other: &Self) -> (r: bool) {
        self.0 == other.0
    }
}

/// How a filter's outcome is used by the engine.
#[derive(PartialEq, Eq, Structural, Clone, Copy, Debug)]
pub enum FilterLabel {
    Ignored,
    Included,
    Excluded,
}

/// A filter (predicate) of a binding box. `O2E`, `O2O` and
/// `TimeBetweenEvents` are the structural predicates; `NotEqual` stands for
/// the predicates outside that fragment. Time bounds are in milliseconds,
/// the resolution of event timestamps.
#[derive(Debug)]
pub enum Filter {
    O2E {
        object: ObjectVariable,
        event: EventVariable,
        qualifier: Option<String>,
        filter_label: Option<FilterLabel>,
    },
    O2O {
        object: ObjectVariable,
        other_object: ObjectVariable,
        qualifier: Option<String>,
        filter_label: Option<FilterLabel>,
    },
    TimeBetweenEvents {
        from_event: EventVariable,
        to_event: EventVariable,
        min_ms: Option<i64>,
        max_ms: Option<i64>,
    },
    NotEqual { var_1: Variable, var_2: Variable },
}

/// A copy of an optional qualifier.
pub fn copy_qualifier(q: &Option<String>) -> (r: Option<String>)
    ensures
        r == *q,
{
    match q {
        Some(s) => Some(s.clone()),
        None => None,
    }
}

impl Filter {
    /// `true` for the three structural predicates.
    pub open spec fn is_structural(&self) -> bool {
        !(self is NotEqual)
    }

    /// A copy of this filter.
    pub fn duplicate(&self) -> (r: Filter)
        ensures
            r == *self,
    {
        match self {
            Filter::O2E { object, event, qualifier, filter_label } => Filter::O2E {
                object: *object,
                event: *event,
                qualifier: copy_qualifier(qualifier),
                filter_label: *filter_label,
            },
            Filter::O2O { object, other_object, qualifier, filter_label } => Filter::O2O {
                object: *object,
                other_object: *other_object,
                qualifier: copy_qualifier(qualifier),
                filter_label: *filter_label,
            },
            Filter::TimeBetweenEvents { from_event, to_event, min_ms, max_ms } =>
                Filter::TimeBetweenEvents {
                from_event: *from_event,
                to_event: *to_event,
                min_ms: *min_ms,
                max_ms: *max_ms,
            },
            Filter::NotEqual { var_1, var_2 } => Filter::NotEqual { var_1: *var_1, var_2: *var_2 },
        }
    }
}

/// A copy of a list of filters.
pub fn copy_filters(fs: &Vec<Filter>) -> (r: Vec<Filter>)
    ensures
        r@ == fs@,
{
    let mut r: Vec<Filter> = Vec::new();
    let mut i: usize = 0;
    while i < fs.len()
        invariant
            i <= fs.len(),
            r@ == fs@.take(i as int),
        decreases fs.len() - i,
    {
        r.push(fs[i].duplicate());
        assert(fs@.take(i + 1) =~= fs@.take(i as int).push(fs@[i as int]));
        i = i + 1;
    }
    assert(fs@.take(fs.len() as int) =~= fs@);
    r
}

/// A copy of a list of strings.
pub fn copy_strings(v: &Vec<String>) -> (r: Vec<String>)
    ensures
        r@ == v@,
        r.deep_view() == v.deep_view(),
{
    let mut r: Vec<String> = Vec::new();
    let mut i: usize = 0;
    while i < v.len()
        invariant
            i <= v.len(),
            r@ == v@.take(i as int),
        decreases v.len() - i,
    {
        r.push(v[i].clone());
        assert(v@.take(i + 1) =~= v@.take(i as int).push(v@[i as int]));
        i = i + 1;
    }
    assert(v@.take(v.len() as int) =~= v@);
    assert(r.deep_view() =~= v.deep_view());
    r
}

/// The declared variables of one kind, each with its admissible type names.
/// No variable is declared twice.
#[derive(Debug)]
pub struct VarTypes<V: VarKey> {
    entries: Vec<(V, Vec<String>)>,
}

impl<V: VarKey> View for VarTypes<V> {
    type V = Seq<(V, Seq<Seq<char>>)>;

    closed spec fn view(&self) -> Seq<(V, Seq<Seq<char>>)> {
        self.entries@.map_values(|e: (V, Vec<String>)| (e.0, e.1.deep_view()))
    }
}

impl<V: VarKey> VarTypes<V> {
    #[verifier::type_invariant]
    spec fn inv(self) -> bool {
        keys_distinct(self.entries@)
    }

    /// The admissible types of `v`, if `v` is declared.
    pub open spec fn types_of(&self, v: V) -> Option<Seq<Seq<char>>> {
        lookup(self@, v)
    }

    /// The declared variables, in declaration order.
    pub open spec fn vars(&self) -> Seq<V> {
        keys_of(self@)
    }

    /// The declared variables, in declaration order; none occurs twice.
    pub fn keys(&self) -> (r: Vec<V>)
        ensures
            r@ == self.vars(),
            keys_distinct(self@),
    {
        proof { use_type_invariant(self); }
        let mut r: Vec<V> = Vec::new();
        let mut i: usize = 0;
        while i < self.entries.len()
            invariant
                i <= self.entries.len(),
                r@ == keys_of(self@).take(i as int),
            decreases self.entries.len() - i,
        {
            r.push(self.entries[i].0);
            assert(keys_of(self@).take(i + 1) =~= keys_of(self@).take(i as int).push(self@[i as int].0));
            i = i + 1;
        }
        assert(keys_of(self@).take(i as int) =~= keys_of(self@));
        r
    }

    /// No declared variables.
    pub fn new() -> (r: Self)
        ensures
            r@ == Seq::<(V, Seq<Seq<char>>)>::empty(),
    {
        let r = VarTypes { entries: Vec::new() };
        assert(r@ =~= Seq::<(V, Seq<Seq<char>>)>::empty());
        r
    }

    /// Number of declared variables.
    pub fn len(&self) -> (r: usize)
        ensures
            r == self@.len(),
    {
        self.entries.len()
    }

    /// `true` iff no variable is declared.
    pub fn is_empty(&self) -> (r: bool)
        ensures
            r == (self@.len() == 0),
    {
        self.entries.len() == 0
    }

    fn position(&self, v: &V) -> (r: Option<usize>)
        ensures
            match r {
                Some(i) => i < self@.len() && first_index(self@, *v, i as int),
                None => forall|j: int| 0 <= j < self@.len() ==> self@[j].0 != *v,
            },
    {
        let mut i: usize = 0;
        while i < self.entries.len()
            invariant
                i <= self.entries.len(),
                forall|j: int| 0 <= j < i ==> self@[j].0 != *v,
            decreases self.entries.len() - i,
        {
            if self.entries[i].0.same(v) {
                return Some(i);
            }
            i = i + 1;
        }
        None
    }

    /// `true` iff `v` is declared.
    pub fn contains_key(&self, v: &V) -> (r: bool)
        ensures
            r == (self.types_of(*v) is Some),
    {
        match self.position(v) {
            Some(i) => {
                proof { lemma_lookup_at(self@, *v, i as int); }
                true
            },
            None => false,
        }
    }

    /// The admissible types of `v`, if `v` is declared.
    pub fn get(&self, v: &V) -> (r: Option<&Vec<String>>)
        ensures
            match r {
                Some(t) => self.types_of(*v) == Some(t.deep_view()),
                None => self.types_of(*v) is None,
            },
    {
        match self.position(v) {
            Some(i) => {
                proof { lemma_lookup_at(self@, *v, i as int); }
                Some(&self.entries[i].1)
            },
            None => None,
        }
    }

    /// Declares `v` with `types`, replacing an earlier declaration of `v`.
    pub fn insert(&mut self, v: V, types: Vec<String>)
        ensures
            final(self)@ == declare(old(self)@, v, types.deep_view()),
    {
        proof { use_type_invariant(&*self); }
        match self.position(&v) {
            Some(i) => {
                let ghost before = self@;
                proof {
                    let c = choose|c: int| 0 <= c < before.len() && before[c].0 == v;
                    if c != i as int {
                        assert(self.entries@[c].0 != self.entries@[i as int].0);
                    }
                }
                let mut e: Vec<(V, Vec<String>)> = Vec::new();
                std::mem::swap(&mut e, &mut self.entries);
                e.set(i, (v, types));
                self.entries = e;
                assert(self@ =~= before.update(i as int, (v, types.deep_view())));
            },
            None => {
                let ghost before = self@;
                let mut e: Vec<(V, Vec<String>)> = Vec::new();
                std::mem::swap(&mut e, &mut self.entries);
                let ghost old_e = e@;
                assert(forall|j: int| 0 <= j < old_e.len() ==> old_e[j].0 == before[j].0);
                e.push((v, types));
                assert(keys_distinct(e@)) by {
                    assert forall|a: int, b: int| 0 <= a < b < e@.len() implies e@[a].0 != e@[b].0 by {
                        if b < old_e.len() {
                            assert(e@[a] == old_e[a] && e@[b] == old_e[b]);
                        } else {
                            assert(e@[a] == old_e[a]);
                        }
                    }
                }
                self.entries = e;
                assert(self@ =~= before.push((v, types.deep_view())));
            },
        }
    }

    /// A copy of these declarations.
    pub fn duplicate(&self) -> (r: Self)
        ensures
            r@ == self@,
    {
        proof { use_type_invariant(self); }
        let mut e: Vec<(V, Vec<String>)> = Vec::new();
        let mut i: usize = 0;
        while i < self.entries.len()
            invariant
                i <= self.entries.len(),
                e@.len() == i,
                forall|j: int| 0 <= j < i ==> e@[j].0 == self.entries@[j].0,
                forall|j: int| 0 <= j < i ==> e@[j].1.deep_view() == self.entries@[j].1.deep_view(),
            decreases self.entries.len() - i,
        {
            e.push((self.entries[i].0, copy_strings(&self.entries[i].1)));
            i = i + 1;
        }
        let r = VarTypes { entries: e };
        assert(r@ =~= self@);
        r
    }

    /// Builds the declarations from `(variable, types)` pairs, declaring them
    /// in order; a later pair for the same variable replaces an earlier one.
    pub fn from_pairs(pairs: Vec<(V, Vec<String>)>) -> (r: Self)
        ensures
            r@ == declare_all(Seq::empty(), pairs_view(pairs@)),
    {
        let mut r = VarTypes::new();
        let mut pairs = pairs;
        let ghost all = pairs_view(pairs@);
        while pairs.len() > 0
            invariant
                declare_all(r@, pairs_view(pairs@)) == declare_all(Seq::empty(), all),
            decreases pairs.len(),
        {
            let ghost before = pairs_view(pairs@);
            let p = pairs.remove(0);
            assert(pairs_view(pairs@) =~= before.drop_first());
            r.insert(p.0, p.1);
        }
        r
    }
}

/// The pairs with their type lists read as character sequences.
pub open spec fn pairs_view<V>(s: Seq<(V, Vec<String>)>) -> Seq<(V, Seq<Seq<char>>)> {
    s.map_values(|e: (V, Vec<String>)| (e.0, e.1.deep_view()))
}

/// `s` with `v` declared with `t`: an existing declaration of `v` is replaced
/// in place, otherwise the declaration is appended.
pub open spec fn declare<V, T>(s: Seq<(V, T)>, v: V, t: T) -> Seq<(V, T)> {
    if exists|i: int| 0 <= i < s.len() && s[i].0 == v {
        s.update(choose|i: int| 0 <= i < s.len() && s[i].0 == v, (v, t))
    } else {
        s.push((v, t))
    }
}

/// `s` with every pair of `ps` declared, in order.
pub open spec fn declare_all<V, T>(s: Seq<(V, T)>, ps: Seq<(V, T)>) -> Seq<(V, T)>
    decreases ps.len(),
{
    if ps.len() == 0 {
        s
    } else {
        declare_all(declare(s, ps[0].0, ps[0].1), ps.drop_first())
    }
}

/// A binding box: declared event and object variables with their admissible
/// types, and its filters.
#[derive(Debug)]
pub struct BindingBox {
    pub new_event_vars: VarTypes<EventVariable>,
    pub new_object_vars: VarTypes<ObjectVariable>,
    pub filters: Vec<Filter>,
}

/// One binding of a box's output: the event and object bound to each
/// variable, as indices into the log.
#[derive(Clone, Debug)]
pub struct Binding {
    pub event_map: Vec<(EventVariable, usize)>,
    pub object_map: Vec<(ObjectVariable, usize)>,
}

impl Binding {
    /// The event bound to `v`, if any.
    pub fn get_ev_index(&self, v: &EventVariable) -> (r: Option<usize>)
        ensures
            r == lookup(self.event_map@, *v),
    {
        crate::assoc::find_first(&self.event_map, *v)
    }

    /// The object bound to `v`, if any.
    pub fn get_ob_index(&self, v: &ObjectVariable) -> (r: Option<usize>)
        ensures
            r == lookup(self.object_map@, *v),
    {
        crate::assoc::find_first(&self.object_map, *v)
    }
}

} // verus!
