//! The object-centric event log as the framework reads it: events and
//! objects with their identifiers, types, attributes and relationships,
//! addressed by index.

use vstd::prelude::*;
use crate::assoc::{find_first, lookup};
use crate::binding::{Binding, Filter};
use crate::value::{QidValue, QidView};

verus! {

/// An event: identifier, type, timestamp (milliseconds since the epoch and
/// its RFC 3339 rendering), attribute values, and its event-to-object
/// relationships as `(qualifier, object index)`.
#[derive(Debug)]
pub struct EventData {
    pub id: String,
    pub event_type: String,
    pub time_ms: i64,
    pub time_text: String,
    pub attributes: Vec<(String, QidValue)>,
    pub relationships: Vec<(String, usize)>,
}

/// An object: identifier, type, time-stamped attribute values, and its
/// object-to-object relationships as `(qualifier, object index)`.
#[derive(Debug)]
pub struct ObjectData {
    pub id: String,
    pub object_type: String,
    pub attributes: Vec<(String, Vec<(i64, QidValue)>)>,
    pub relationships: Vec<(String, usize)>,
}

/// An object-centric event log.
#[derive(Debug)]
pub struct OcelData {
    pub event_types: Vec<String>,
    pub object_types: Vec<String>,
    pub events: Vec<EventData>,
    pub objects: Vec<ObjectData>,
}

/// Either an event or an object, by index.
#[derive(PartialEq, Eq, Structural, Clone, Copy, Debug, Hash)]
pub enum EventOrObjectIndex {
    Event(usize),
    Object(usize),
}

impl OcelData {
    /// Every relationship points at an object of the log.
    pub open spec fn wf(&self) -> bool {
        &&& forall|e: int, r: int| 0 <= e < self.events@.len() && 0 <= r < self.events@[e].relationships@.len()
            ==> #[trigger] self.events@[e].relationships@[r].1 < self.objects@.len()
        &&& forall|o: int, r: int| 0 <= o < self.objects@.len() && 0 <= r < self.objects@[o].relationships@.len()
            ==> #[trigger] self.objects@[o].relationships@[r].1 < self.objects@.len()
    }

    /// Every index the binding holds is an event or object of the log.
    pub open spec fn holds_binding(&self, b: Binding) -> bool {
        &&& forall|i: int| 0 <= i < b.event_map@.len() ==> #[trigger] b.event_map@[i].1 < self.events@.len()
        &&& forall|i: int| 0 <= i < b.object_map@.len() ==> #[trigger] b.object_map@[i].1 < self.objects@.len()
    }

    /// The element is an event or object of the log.
    pub open spec fn holds_element(&self, x: EventOrObjectIndex) -> bool {
        match x {
            EventOrObjectIndex::Event(e) => e < self.events@.len(),
            EventOrObjectIndex::Object(o) => o < self.objects@.len(),
        }
    }
}

/// A relationship list holds `(q, target)` for some `q` admitted by the
/// optional qualifier.
pub open spec fn related(rels: Seq<(String, usize)>, target: usize, qualifier: Option<Seq<char>>) -> bool {
    exists|r: int| 0 <= r < rels.len() && #[trigger] rels[r].1 == target
        && (qualifier matches Some(q) ==> rels[r].0@ == q)
}

/// The bound elements of `b` satisfy the structural filter `f`; a filter
/// with an unbound variable is not satisfied.
pub open spec fn satisfies(ocel: OcelData, f: Filter, b: Binding) -> bool {
    match f {
        Filter::O2E { object, event, qualifier, .. } =>
            match (lookup(b.object_map@, object), lookup(b.event_map@, event)) {
                (Some(o), Some(e)) => related(ocel.events@[e as int].relationships@, o, qualifier.deep_view()),
                _ => false,
            },
        Filter::O2O { object, other_object, qualifier, .. } =>
            match (lookup(b.object_map@, object), lookup(b.object_map@, other_object)) {
                (Some(o1), Some(o2)) => related(ocel.objects@[o1 as int].relationships@, o2, qualifier.deep_view()),
                _ => false,
            },
        Filter::TimeBetweenEvents { from_event, to_event, min_ms, max_ms } =>
            match (lookup(b.event_map@, from_event), lookup(b.event_map@, to_event)) {
                (Some(e1), Some(e2)) => {
                    let d = ocel.events@[e2 as int].time_ms - ocel.events@[e1 as int].time_ms;
                    &&& (min_ms matches Some(m) ==> d >= m)
                    &&& (max_ms matches Some(m) ==> d <= m)
                },
                _ => false,
            },
        Filter::NotEqual { .. } => false,
    }
}

fn has_relationship(rels: &Vec<(String, usize)>, target: usize, qualifier: &Option<String>) -> (r: bool)
    ensures
        r == related(rels@, target, qualifier.deep_view()),
{
    let mut i: usize = 0;
    while i < rels.len()
        invariant
            i <= rels.len(),
            forall|j: int| 0 <= j < i ==> !(#[trigger] rels@[j].1 == target
                && (qualifier.deep_view() matches Some(q) ==> rels@[j].0@ == q)),
        decreases rels.len() - i,
    {
        if rels[i].1 == target {
            let ok = match qualifier {
                None => true,
                Some(q) => *q == rels[i].0,
            };
            if ok {
                return true;
            }
        }
        i = i + 1;
    }
    false
}

impl Filter {
    /// Whether the binding satisfies this structural filter in `ocel`.
    pub fn check_binding(&self, b: &Binding, ocel: &OcelData) -> (r: bool)
        requires
            self.is_structural(),
            ocel.holds_binding(*b),
        ensures
            r == satisfies(*ocel, *self, *b),
    {
        match self {
            Filter::O2E { object, event, qualifier, .. } => {
                match (b.get_ob_index(object), b.get_ev_index(event)) {
                    (Some(o), Some(e)) => {
                        proof {
                            crate::assoc::lemma_lookup_member(b.event_map@, *event);
                        }
                        has_relationship(&ocel.events[e].relationships, o, qualifier)
                    },
                    _ => false,
                }
            },
            Filter::O2O { object, other_object, qualifier, .. } => {
                match (b.get_ob_index(object), b.get_ob_index(other_object)) {
                    (Some(o1), Some(o2)) => {
                        proof {
                            crate::assoc::lemma_lookup_member(b.object_map@, *object);
                        }
                        has_relationship(&ocel.objects[o1].relationships, o2, qualifier)
                    },
                    _ => false,
                }
            },
            Filter::TimeBetweenEvents { from_event, to_event, min_ms, max_ms } => {
                match (b.get_ev_index(from_event), b.get_ev_index(to_event)) {
                    (Some(e1), Some(e2)) => {
                        proof {
                            crate::assoc::lemma_lookup_member(b.event_map@, *from_event);
                            crate::assoc::lemma_lookup_member(b.event_map@, *to_event);
                        }
                        let d: i128 = ocel.events[e2].time_ms as i128 - ocel.events[e1].time_ms as i128;
                        let lo_ok = match min_ms {
                            Some(m) => d >= *m as i128,
                            None => true,
                        };
                        let hi_ok = match max_ms {
                            Some(m) => d <= *m as i128,
                            None => true,
                        };
                        lo_ok && hi_ok
                    },
                    _ => false,
                }
            },
            Filter::NotEqual { .. } => false,
        }
    }
}

} // verus!
