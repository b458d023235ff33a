//! Overview queries on a log: samples of identifiers.

use vstd::prelude::*;
use crate::binding::copy_strings;
use crate::ocel::{EventData, ObjectData, OcelData};
use crate::policy::contains_text;

verus! {

/// How many identifiers of each kind to sample.
#[derive(Debug, Clone, Copy)]
pub struct SampleIdsRequest {
    /// Maximum number of identifiers per list; at most 1000 are returned.
    pub limit: usize,
}

/// The first identifiers of the log's objects and events.
#[derive(Debug, Clone)]
pub struct SampleIds {
    pub object_ids: Vec<String>,
    pub event_ids: Vec<String>,
}

/// The cap on the number of identifiers returned per list.
pub const SAMPLE_CAP: usize = 1000;

/// `limit`, capped at 1000.
pub open spec fn capped(limit: usize) -> int {
    if limit < SAMPLE_CAP { limit as int } else { SAMPLE_CAP as int }
}

/// The identifiers of the first `n` objects (all of them if fewer).
pub open spec fn first_object_ids(ocel: OcelData, n: int) -> Seq<Seq<char>> {
    ocel.objects@.take(if n < ocel.objects@.len() { n } else { ocel.objects@.len() as int })
        .map_values(|o: crate::ocel::ObjectData| o.id@)
}

/// The identifiers of the first `n` events (all of them if fewer).
pub open spec fn first_event_ids(ocel: OcelData, n: int) -> Seq<Seq<char>> {
    ocel.events@.take(if n < ocel.events@.len() { n } else { ocel.events@.len() as int })
        .map_values(|e: crate::ocel::EventData| e.id@)
}

/// Up to `limit` (at most 1000) object identifiers and event identifiers, in
/// the log's order.
pub fn get_sample_ids(ocel: &OcelData, limit: usize) -> (r: SampleIds)
    ensures
        r.object_ids.deep_view() == first_object_ids(*ocel, capped(limit)),
        r.event_ids.deep_view() == first_event_ids(*ocel, capped(limit)),
{
    let limit = if limit < SAMPLE_CAP { limit } else { SAMPLE_CAP };
    let mut object_ids: Vec<String> = Vec::new();
    let mut i: usize = 0;
    while i < ocel.objects.len() && i < limit
        invariant
            i <= ocel.objects@.len(),
            i <= limit,
            object_ids.deep_view() == ocel.objects@.take(i as int).map_values(|o: crate::ocel::ObjectData| o.id@),
        decreases ocel.objects.len() - i,
    {
        let ghost before = object_ids.deep_view();
        object_ids.push(ocel.objects[i].id.clone());
        assert(ocel.objects@.take(i + 1) =~= ocel.objects@.take(i as int).push(ocel.objects@[i as int]));
        assert(object_ids.deep_view() =~= before.push(ocel.objects@[i as int].id@));
        i = i + 1;
    }
    let mut event_ids: Vec<String> = Vec::new();
    let mut j: usize = 0;
    while j < ocel.events.len() && j < limit
        invariant
            j <= ocel.events@.len(),
            j <= limit,
            event_ids.deep_view() == ocel.events@.take(j as int).map_values(|e: crate::ocel::EventData| e.id@),
        decreases ocel.events.len() - j,
    {
        let ghost before = event_ids.deep_view();
        event_ids.push(ocel.events[j].id.clone());
        assert(ocel.events@.take(j + 1) =~= ocel.events@.take(j as int).push(ocel.events@[j as int]));
        assert(event_ids.deep_view() =~= before.push(ocel.events@[j as int].id@));
        j = j + 1;
    }
    SampleIds { object_ids, event_ids }
}

/// What a relationship statistic is taken over: the type of each source
/// (event or object) and its relationships `(qualifier, object index)`.
pub type Sources = Seq<(Seq<char>, Seq<(String, usize)>)>;

/// The events as relationship sources.
pub open spec fn event_sources(events: Seq<EventData>) -> Sources {
    events.map_values(|e: EventData| (e.event_type@, e.relationships@))
}

/// The objects as relationship sources.
pub open spec fn object_sources(objects: Seq<ObjectData>) -> Sources {
    objects.map_values(|o: ObjectData| (o.object_type@, o.relationships@))
}

/// The event-to-object (`from_events`) or object-to-object relationship
/// sources of the log.
pub open spec fn sources_of(ocel: OcelData, from_events: bool) -> Sources {
    if from_events { event_sources(ocel.events@) } else { object_sources(ocel.objects@) }
}

/// How many of the relationships point at an object of type `ot`.
pub open spec fn count_to_type(rels: Seq<(String, usize)>, objects: Seq<ObjectData>, ot: Seq<char>) -> nat
    decreases rels.len(),
{
    if rels.len() == 0 {
        0
    } else {
        count_to_type(rels.drop_last(), objects, ot)
            + if objects[rels.last().1 as int].object_type@ == ot { 1nat } else { 0nat }
    }
}

/// The qualifiers of the relationships that point at an object of type `ot`.
pub open spec fn qualifiers_to_type(rels: Seq<(String, usize)>, objects: Seq<ObjectData>, ot: Seq<char>) -> Set<Seq<char>>
    decreases rels.len(),
{
    if rels.len() == 0 {
        Set::empty()
    } else {
        let rest = qualifiers_to_type(rels.drop_last(), objects, ot);
        if objects[rels.last().1 as int].object_type@ == ot { rest.insert(rels.last().0@) } else { rest }
    }
}

/// How many relationships go from a source of type `st` to an object of
/// type `ot`.
pub open spec fn pair_count(sources: Sources, objects: Seq<ObjectData>, st: Seq<char>, ot: Seq<char>) -> nat
    decreases sources.len(),
{
    if sources.len() == 0 {
        0
    } else {
        pair_count(sources.drop_last(), objects, st, ot)
            + if sources.last().0 == st { count_to_type(sources.last().1, objects, ot) } else { 0nat }
    }
}

/// The qualifiers of the relationships from a source of type `st` to an
/// object of type `ot`.
pub open spec fn pair_qualifiers(sources: Sources, objects: Seq<ObjectData>, st: Seq<char>, ot: Seq<char>) -> Set<Seq<char>>
    decreases sources.len(),
{
    if sources.len() == 0 {
        Set::empty()
    } else {
        let rest = pair_qualifiers(sources.drop_last(), objects, st, ot);
        if sources.last().0 == st { rest + qualifiers_to_type(sources.last().1, objects, ot) } else { rest }
    }
}

/// The number of relationships of all sources.
pub open spec fn relationship_total(sources: Sources) -> nat
    decreases sources.len(),
{
    if sources.len() == 0 { 0 } else { relationship_total(sources.drop_last()) + sources.last().1.len() }
}

proof fn lemma_count_to_type_bound(rels: Seq<(String, usize)>, objects: Seq<ObjectData>, ot: Seq<char>)
    ensures
        count_to_type(rels, objects, ot) <= rels.len(),
    decreases rels.len(),
{
    if rels.len() > 0 {
        lemma_count_to_type_bound(rels.drop_last(), objects, ot);
    }
}

proof fn lemma_pair_count_bound(sources: Sources, objects: Seq<ObjectData>, st: Seq<char>, ot: Seq<char>)
    ensures
        pair_count(sources, objects, st, ot) <= relationship_total(sources),
    decreases sources.len(),
{
    if sources.len() > 0 {
        lemma_pair_count_bound(sources.drop_last(), objects, st, ot);
        lemma_count_to_type_bound(sources.last().1, objects, ot);
    }
}

proof fn lemma_total_take(sources: Sources, i: int)
    requires
        0 <= i <= sources.len(),
    ensures
        relationship_total(sources.take(i)) <= relationship_total(sources),
    decreases sources.len(),
{
    if i < sources.len() {
        assert(sources.drop_last().take(i) =~= sources.take(i));
        lemma_total_take(sources.drop_last(), i);
    } else {
        assert(sources.take(i) =~= sources);
    }
}

/// Every relationship of the sources points at an object of the log.
pub open spec fn targets_in(sources: Sources, n_objects: int) -> bool {
    forall|s: int, r: int| 0 <= s < sources.len() && 0 <= r < sources[s].1.len()
        ==> #[trigger] sources[s].1[r].1 < n_objects
}

/// Adds the relationships that point at an object of type `ot` to a count
/// and a list of distinct qualifiers.
fn tally_relationships(
    rels: &Vec<(String, usize)>,
    objects: &Vec<ObjectData>,
    ot: &String,
    count: &mut usize,
    quals: &mut Vec<String>,
)
    requires
        forall|r: int| 0 <= r < rels@.len() ==> #[trigger] rels@[r].1 < objects@.len(),
        *old(count) + rels@.len() <= usize::MAX,
        old(quals).deep_view().no_duplicates(),
    ensures
        *final(count) == *old(count) + count_to_type(rels@, objects@, ot@),
        final(quals).deep_view().no_duplicates(),
        final(quals).deep_view().to_set() == old(quals).deep_view().to_set() + qualifiers_to_type(rels@, objects@, ot@),
{
    let ghost count0 = *count;
    let ghost quals0 = quals.deep_view().to_set();
    let mut i: usize = 0;
    while i < rels.len()
        invariant
            i <= rels@.len(),
            forall|r: int| 0 <= r < rels@.len() ==> #[trigger] rels@[r].1 < objects@.len(),
            count0 + rels@.len() <= usize::MAX,
            *count == count0 + count_to_type(rels@.take(i as int), objects@, ot@),
            quals.deep_view().no_duplicates(),
            quals.deep_view().to_set() == quals0 + qualifiers_to_type(rels@.take(i as int), objects@, ot@),
        decreases rels.len() - i,
    {
        let ghost pre = rels@.take(i as int);
        assert(rels@.take(i + 1).drop_last() =~= pre);
        proof {
            lemma_count_to_type_bound(pre, objects@, ot@);
        }
        let o = rels[i].1;
        if objects[o].object_type == *ot {
            *count = *count + 1;
            let q = &rels[i].0;
            if !contains_text(quals, q) {
                let ghost before = quals.deep_view();
                quals.push(q.clone());
                assert(quals.deep_view() =~= before.push(q@));
                proof {
                    before.lemma_push_to_set_commute(q@);
                }
            }
            assert(quals.deep_view().to_set() =~= quals0 + qualifiers_to_type(rels@.take(i + 1), objects@, ot@));
        } else {
            assert(quals.deep_view().to_set() =~= quals0 + qualifiers_to_type(rels@.take(i + 1), objects@, ot@));
        }
        i = i + 1;
    }
    assert(rels@.take(rels.len() as int) =~= rels@);
}

/// The number and the distinct qualifiers of the relationships from a source
/// of type `st` to an object of type `ot`, over the events
/// (`from_events`) or the objects of the log.
fn pair_stats(ocel: &OcelData, from_events: bool, st: &String, ot: &String) -> (r: (usize, Vec<String>))
    requires
        targets_in(sources_of(*ocel, from_events), ocel.objects@.len() as int),
        relationship_total(sources_of(*ocel, from_events)) <= usize::MAX,
    ensures
        r.0 == pair_count(sources_of(*ocel, from_events), ocel.objects@, st@, ot@),
        r.1.deep_view().no_duplicates(),
        r.1.deep_view().to_set() == pair_qualifiers(sources_of(*ocel, from_events), ocel.objects@, st@, ot@),
{
    let ghost src = sources_of(*ocel, from_events);
    let n: usize = if from_events { ocel.events.len() } else { ocel.objects.len() };
    let mut count: usize = 0;
    let mut quals: Vec<String> = Vec::new();
    let mut i: usize = 0;
    assert(quals.deep_view().to_set() =~= pair_qualifiers(src.take(0), ocel.objects@, st@, ot@));
    while i < n
        invariant
            src == sources_of(*ocel, from_events),
            n == src.len(),
            i <= n,
            targets_in(src, ocel.objects@.len() as int),
            relationship_total(src) <= usize::MAX,
            count == pair_count(src.take(i as int), ocel.objects@, st@, ot@),
            quals.deep_view().no_duplicates(),
            quals.deep_view().to_set() == pair_qualifiers(src.take(i as int), ocel.objects@, st@, ot@),
        decreases n - i,
    {
        let ghost pre = src.take(i as int);
        assert(src.take(i + 1).drop_last() =~= pre);
        assert(src.take(i + 1).last() == src[i as int]);
        proof {
            lemma_pair_count_bound(pre, ocel.objects@, st@, ot@);
            lemma_total_take(src, i + 1);
        }
        let (ty, rels) = if from_events {
            (&ocel.events[i].event_type, &ocel.events[i].relationships)
        } else {
            (&ocel.objects[i].object_type, &ocel.objects[i].relationships)
        };
        assert(src[i as int] == (ty@, rels@));
        if *ty == *st {
            assert forall|r: int| 0 <= r < rels@.len() implies #[trigger] rels@[r].1 < ocel.objects@.len() by {
                assert(src[i as int].1[r].1 < ocel.objects@.len());
            }
            tally_relationships(rels, &ocel.objects, ot, &mut count, &mut quals);
        }
        assert(quals.deep_view().to_set() =~= pair_qualifiers(src.take(i + 1), ocel.objects@, st@, ot@));
        i = i + 1;
    }
    assert(src.take(n as int) =~= src);
    (count, quals)
}

/// Relationship statistics by type pair: for each source type, for each
/// object type, the number of relationships and their distinct qualifiers.
pub type RelationTable = Vec<(String, Vec<(String, (usize, Vec<String>))>)>;

/// `table` lists, for each of `source_types` and each of `target_types` in
/// order, the number and the distinct qualifiers of the relationships from a
/// source of the one type to an object of the other.
pub open spec fn is_relation_table(
    table: RelationTable,
    sources: Sources,
    objects: Seq<ObjectData>,
    source_types: Seq<Seq<char>>,
    target_types: Seq<Seq<char>>,
) -> bool {
    &&& table@.len() == source_types.len()
    &&& forall|i: int| #![trigger table@[i]] 0 <= i < source_types.len() ==> {
        let row = table@[i];
        &&& row.0@ == source_types[i]
        &&& row.1@.len() == target_types.len()
        &&& forall|j: int| #![trigger row.1@[j]] 0 <= j < target_types.len() ==> {
            let cell = row.1@[j];
            &&& cell.0@ == target_types[j]
            &&& cell.1.0 == pair_count(sources, objects, source_types[i], target_types[j])
            &&& cell.1.1.deep_view().no_duplicates()
            &&& cell.1.1.deep_view().to_set() == pair_qualifiers(sources, objects, source_types[i], target_types[j])
        }
    }
}

fn relation_table(ocel: &OcelData, from_events: bool) -> (r: RelationTable)
    requires
        targets_in(sources_of(*ocel, from_events), ocel.objects@.len() as int),
        relationship_total(sources_of(*ocel, from_events)) <= usize::MAX,
    ensures
        is_relation_table(
            r,
            sources_of(*ocel, from_events),
            ocel.objects@,
            if from_events { ocel.event_types.deep_view() } else { ocel.object_types.deep_view() },
            ocel.object_types.deep_view(),
        ),
{
    let source_types = if from_events { &ocel.event_types } else { &ocel.object_types };
    let ghost sts = source_types.deep_view();
    let ghost ots = ocel.object_types.deep_view();
    let mut table: RelationTable = Vec::new();
    let mut i: usize = 0;
    while i < source_types.len()
        invariant
            sts == source_types.deep_view(),
            ots == ocel.object_types.deep_view(),
            sts == (if from_events { ocel.event_types.deep_view() } else { ocel.object_types.deep_view() }),
            i <= sts.len(),
            targets_in(sources_of(*ocel, from_events), ocel.objects@.len() as int),
            relationship_total(sources_of(*ocel, from_events)) <= usize::MAX,
            is_relation_table(table, sources_of(*ocel, from_events), ocel.objects@, sts.take(i as int), ots),
        decreases source_types.len() - i,
    {
        let st = &source_types[i];
        let mut row: Vec<(String, (usize, Vec<String>))> = Vec::new();
        let mut j: usize = 0;
        while j < ocel.object_types.len()
            invariant
                ots == ocel.object_types.deep_view(),
                st@ == sts[i as int],
                j <= ots.len(),
                targets_in(sources_of(*ocel, from_events), ocel.objects@.len() as int),
                relationship_total(sources_of(*ocel, from_events)) <= usize::MAX,
                row@.len() == j,
                forall|k: int| #![trigger row@[k]] 0 <= k < j ==> {
                    let cell = row@[k];
                    &&& cell.0@ == ots[k]
                    &&& cell.1.0 == pair_count(sources_of(*ocel, from_events), ocel.objects@, sts[i as int], ots[k])
                    &&& cell.1.1.deep_view().no_duplicates()
                    &&& cell.1.1.deep_view().to_set() == pair_qualifiers(sources_of(*ocel, from_events), ocel.objects@, sts[i as int], ots[k])
                },
            decreases ocel.object_types.len() - j,
        {
            let ot = &ocel.object_types[j];
            let stats = pair_stats(ocel, from_events, st, ot);
            row.push((ot.clone(), stats));
            j = j + 1;
        }
        table.push((st.clone(), row));
        assert(sts.take(i + 1).drop_last() =~= sts.take(i as int));
        i = i + 1;
    }
    assert(sts.take(sts.len() as int) =~= sts);
    table
}

/// An overview of a log: its size, its types, and its relationship
/// statistics by type pair.
#[derive(Debug)]
pub struct OCELInfo {
    pub num_objects: usize,
    pub num_events: usize,
    pub object_types: Vec<String>,
    pub event_types: Vec<String>,
    /// Event type, then object type.
    pub e2o_types: RelationTable,
    /// Object type, then object type.
    pub o2o_types: RelationTable,
}

impl OCELInfo {
    /// The overview of `ocel`.
    pub fn from_ocel(ocel: &OcelData) -> (r: OCELInfo)
        requires
            ocel.wf(),
            relationship_total(event_sources(ocel.events@)) <= usize::MAX,
            relationship_total(object_sources(ocel.objects@)) <= usize::MAX,
        ensures
            r.num_objects == ocel.objects@.len(),
            r.num_events == ocel.events@.len(),
            r.object_types.deep_view() == ocel.object_types.deep_view(),
            r.event_types.deep_view() == ocel.event_types.deep_view(),
            is_relation_table(r.e2o_types, event_sources(ocel.events@), ocel.objects@,
                ocel.event_types.deep_view(), ocel.object_types.deep_view()),
            is_relation_table(r.o2o_types, object_sources(ocel.objects@), ocel.objects@,
                ocel.object_types.deep_view(), ocel.object_types.deep_view()),
    {
        assert(targets_in(event_sources(ocel.events@), ocel.objects@.len() as int)) by {
            assert forall|s: int, r: int| 0 <= s < event_sources(ocel.events@).len()
                && 0 <= r < event_sources(ocel.events@)[s].1.len()
                implies #[trigger] event_sources(ocel.events@)[s].1[r].1 < ocel.objects@.len() by {
                assert(ocel.events@[s].relationships@[r].1 < ocel.objects@.len());
            }
        }
        assert(targets_in(object_sources(ocel.objects@), ocel.objects@.len() as int)) by {
            assert forall|s: int, r: int| 0 <= s < object_sources(ocel.objects@).len()
                && 0 <= r < object_sources(ocel.objects@)[s].1.len()
                implies #[trigger] object_sources(ocel.objects@)[s].1[r].1 < ocel.objects@.len() by {
                assert(ocel.objects@[s].relationships@[r].1 < ocel.objects@.len());
            }
        }
        OCELInfo {
            num_objects: ocel.objects.len(),
            num_events: ocel.events.len(),
            object_types: copy_strings(&ocel.object_types),
            event_types: copy_strings(&ocel.event_types),
            e2o_types: relation_table(ocel, true),
            o2o_types: relation_table(ocel, false),
        }
    }
}

} // verus!
