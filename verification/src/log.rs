//! Indexed log store.
//!
//! An [`IndexedLog`] is built once from a decoded object-centric event log
//! and is immutable afterwards. Construction sorts events by time, assigns
//! dense indices, groups events and objects by type, and materialises the
//! reverse relationship lists, so that event-to-object and object-to-object
//! neighbourhood lookups need no search at query time.
use crate::values::AttributeValue;
use vstd::prelude::*;

verus! {

/// A decoded event, before indexing: relationships name object ids.
#[derive(Debug)]
pub struct EventInput {
    pub id: String,
    pub event_type: String,
    /// Milliseconds since the Unix epoch.
    pub time: i64,
    pub attributes: Vec<(String, AttributeValue)>,
    /// `(qualifier, object id)` pairs, in original order.
    pub relationships: Vec<(String, String)>,
}

/// A decoded object, before indexing: relationships name object ids.
#[derive(Debug)]
pub struct ObjectInput {
    pub id: String,
    pub object_type: String,
    /// `(name, value, valid-from time in ms)` triples, in original order.
    pub attributes: Vec<(String, AttributeValue, i64)>,
    /// `(qualifier, object id)` pairs, in original order.
    pub relationships: Vec<(String, String)>,
}

/// A decoded object-centric event log, the input of [`IndexedLog::build`].
#[derive(Debug)]
pub struct LogInput {
    pub event_types: Vec<String>,
    pub object_types: Vec<String>,
    pub events: Vec<EventInput>,
    pub objects: Vec<ObjectInput>,
}

/// An event with its type resolved to a type index and its relationships
/// resolved to object indices.
#[derive(Debug)]
pub struct IndexedEvent {
    pub id: String,
    pub type_index: usize,
    /// Milliseconds since the Unix epoch.
    pub time: i64,
    pub attributes: Vec<(String, AttributeValue)>,
    /// `(qualifier, object index)` pairs, in original order.
    pub e2o: Vec<(String, usize)>,
}

/// An object with its type resolved to a type index and its forward
/// relationships resolved to object indices.
#[derive(Debug)]
pub struct IndexedObject {
    pub id: String,
    pub type_index: usize,
    /// `(name, value, valid-from time in ms)` triples, in original order.
    pub attributes: Vec<(String, AttributeValue, i64)>,
    /// `(qualifier, object index)` pairs, in original order.
    pub o2o: Vec<(String, usize)>,
}

/// Errors reported when a decoded log is inconsistent.
#[derive(Debug)]
pub enum LogError {
    /// Two events share the id.
    DuplicateEventId(String),
    /// Two objects share the id.
    DuplicateObjectId(String),
    /// A relationship names an object id that no object has.
    DanglingObjectId(String),
}

/// The indexed, immutable log store.
///
/// Events are sorted by time and densely indexed; `events_of_type[t]` and
/// `objects_of_type[t]` list the indices of type `t` in ascending order;
/// `e2o_rev[o]` and `o2o_rev[o]` hold the reverse relationship lists of
/// object `o`. All of this is stated by [`IndexedLog::wf`], which
/// [`IndexedLog::build`] establishes.
#[derive(Debug)]
pub struct IndexedLog {
    pub event_types: Vec<String>,
    pub object_types: Vec<String>,
    pub events: Vec<IndexedEvent>,
    pub objects: Vec<IndexedObject>,
    pub events_of_type: Vec<Vec<usize>>,
    pub objects_of_type: Vec<Vec<usize>>,
    /// Per object: `(qualifier, event index)` pairs of events referring to it.
    pub e2o_rev: Vec<Vec<(String, usize)>>,
    /// Per object: `(qualifier, object index)` pairs of objects referring to it.
    pub o2o_rev: Vec<Vec<(String, usize)>>,
}

/// Whether the qualified pair list `s` holds `target` under qualifier `q`.
pub open spec fn qual_pairs_has(s: Seq<(String, usize)>, q: Seq<char>, target: int) -> bool {
    exists|j: int| 0 <= j < s.len() && (#[trigger] s[j]).0@ == q && s[j].1 == target
}

/// Whether some `String` of `s` reads `x`.
pub open spec fn string_seq_has(s: Seq<String>, x: Seq<char>) -> bool {
    exists|i: int| 0 <= i < s.len() && (#[trigger] s[i])@ == x
}

/// Whether every `String` of `s` differs from every other.
pub open spec fn strings_unique(s: Seq<String>) -> bool {
    forall|i: int, j: int| 0 <= i < j < s.len() ==> (#[trigger] s[i])@ != (#[trigger] s[j])@
}

impl IndexedLog {
    /// Type indices of all events and objects are in range.
    pub open spec fn types_in_range(self) -> bool {
        &&& forall|e: int|
            0 <= e < self.events@.len() ==> (#[trigger] self.events@[e]).type_index
                < self.event_types@.len()
        &&& forall|o: int|
            0 <= o < self.objects@.len() ==> (#[trigger] self.objects@[o]).type_index
                < self.object_types@.len()
    }

    /// All relationship targets are valid object indices.
    pub open spec fn rels_in_range(self) -> bool {
        &&& forall|e: int, j: int|
            0 <= e < self.events@.len() && 0 <= j < self.events@[e].e2o@.len() ==> (
            #[trigger] self.events@[e].e2o@[j]).1 < self.objects@.len()
        &&& forall|o: int, j: int|
            0 <= o < self.objects@.len() && 0 <= j < self.objects@[o].o2o@.len() ==> (
            #[trigger] self.objects@[o].o2o@[j]).1 < self.objects@.len()
    }

    /// `events_of_type[t]` lists exactly the events of type `t`, ascending.
    pub open spec fn events_grouped(self) -> bool {
        &&& self.events_of_type@.len() == self.event_types@.len()
        &&& forall|t: int, k: int|
            0 <= t < self.events_of_type@.len() && 0 <= k < self.events_of_type@[t]@.len() ==> {
                let e = (#[trigger] self.events_of_type@[t]@[k]) as int;
                0 <= e < self.events@.len() && self.events@[e].type_index == t
            }
        &&& forall|t: int, k1: int, k2: int|
            0 <= t < self.events_of_type@.len() && 0 <= k1 < k2 < self.events_of_type@[t]@.len()
                ==> #[trigger] self.events_of_type@[t]@[k1] < #[trigger] self.events_of_type@[t]@[k2]
        &&& forall|e: int|
            0 <= e < self.events@.len() ==> self.events_of_type@[(
            #[trigger] self.events@[e]).type_index as int]@.contains(e as usize)
    }

    /// `objects_of_type[t]` lists exactly the objects of type `t`, ascending.
    pub open spec fn objects_grouped(self) -> bool {
        &&& self.objects_of_type@.len() == self.object_types@.len()
        &&& forall|t: int, k: int|
            0 <= t < self.objects_of_type@.len() && 0 <= k < self.objects_of_type@[t]@.len() ==> {
                let o = (#[trigger] self.objects_of_type@[t]@[k]) as int;
                0 <= o < self.objects@.len() && self.objects@[o].type_index == t
            }
        &&& forall|t: int, k1: int, k2: int|
            0 <= t < self.objects_of_type@.len() && 0 <= k1 < k2 < self.objects_of_type@[t]@.len()
                ==> #[trigger] self.objects_of_type@[t]@[k1] < #[trigger] self.objects_of_type@[t]@[k2]
        &&& forall|o: int|
            0 <= o < self.objects@.len() ==> self.objects_of_type@[(
            #[trigger] self.objects@[o]).type_index as int]@.contains(o as usize)
    }

    /// The reverse event-to-object lists mirror the forward ones: `(q, e)`
    /// stands in `e2o_rev[o]` exactly when `(q, o)` stands in `e2o(e)`.
    pub open spec fn e2o_symmetric(self) -> bool {
        &&& self.e2o_rev@.len() == self.objects@.len()
        &&& forall|o: int, k: int|
            0 <= o < self.e2o_rev@.len() && 0 <= k < self.e2o_rev@[o]@.len() ==> {
                let p = #[trigger] self.e2o_rev@[o]@[k];
                0 <= p.1 < self.events@.len() && qual_pairs_has(
                    self.events@[p.1 as int].e2o@,
                    p.0@,
                    o,
                )
            }
        &&& forall|e: int, j: int|
            0 <= e < self.events@.len() && 0 <= j < self.events@[e].e2o@.len() ==> {
                let p = #[trigger] self.events@[e].e2o@[j];
                qual_pairs_has(self.e2o_rev@[p.1 as int]@, p.0@, e)
            }
    }

    /// The reverse object-to-object lists mirror the forward ones.
    pub open spec fn o2o_symmetric(self) -> bool {
        &&& self.o2o_rev@.len() == self.objects@.len()
        &&& forall|o: int, k: int|
            0 <= o < self.o2o_rev@.len() && 0 <= k < self.o2o_rev@[o]@.len() ==> {
                let p = #[trigger] self.o2o_rev@[o]@[k];
                0 <= p.1 < self.objects@.len() && qual_pairs_has(
                    self.objects@[p.1 as int].o2o@,
                    p.0@,
                    o,
                )
            }
        &&& forall|o: int, j: int|
            0 <= o < self.objects@.len() && 0 <= j < self.objects@[o].o2o@.len() ==> {
                let p = #[trigger] self.objects@[o].o2o@[j];
                qual_pairs_has(self.o2o_rev@[p.1 as int]@, p.0@, o)
            }
    }

    /// Events are sorted by time, ids are unique, and type names are unique.
    pub open spec fn base_sound(self) -> bool {
        &&& forall|i: int, j: int|
            0 <= i < j < self.events@.len() ==> (#[trigger] self.events@[i]).time <= (
            #[trigger] self.events@[j]).time
        &&& forall|i: int, j: int|
            0 <= i < j < self.events@.len() ==> (#[trigger] self.events@[i]).id@ != (
            #[trigger] self.events@[j]).id@
        &&& forall|i: int, j: int|
            0 <= i < j < self.objects@.len() ==> (#[trigger] self.objects@[i]).id@ != (
            #[trigger] self.objects@[j]).id@
        &&& strings_unique(self.event_types@)
        &&& strings_unique(self.object_types@)
    }

    /// Well-formedness of the whole store; established by [`IndexedLog::build`]
    /// and preserved by every operation (the store is immutable).
    pub open spec fn wf(self) -> bool {
        &&& self.types_in_range()
        &&& self.rels_in_range()
        &&& self.events_grouped()
        &&& self.objects_grouped()
        &&& self.e2o_symmetric()
        &&& self.o2o_symmetric()
        &&& self.base_sound()
    }

    /// Number of events in the store.
    pub fn num_events(&self) -> (r: usize)
        ensures
            r == self.events@.len(),
    {
        self.events.len()
    }

    /// Number of objects in the store.
    pub fn num_objects(&self) -> (r: usize)
        ensures
            r == self.objects@.len(),
    {
        self.objects.len()
    }

    /// Time of event `e` in milliseconds since the epoch.
    pub fn get_ev_time(&self, e: usize) -> (r: i64)
        requires
            e < self.events@.len(),
        ensures
            r == self.events@[e as int].time,
    {
        self.events[e].time
    }

    /// Index of the event type named `name`, if the log has it.
    ///
    /// Returns the first (only, by well-formedness) index whose name matches.
    pub fn event_type_index(&self, name: &String) -> (r: Option<usize>)
        ensures
            match r {
                Some(t) => t < self.event_types@.len() && self.event_types@[t as int]@ == name@,
                None => forall|t: int|
                    0 <= t < self.event_types@.len() ==> (#[trigger] self.event_types@[t])@
                        != name@,
            },
    {
        find_string(&self.event_types, name)
    }

    /// Index of the object type named `name`, if the log has it.
    pub fn object_type_index(&self, name: &String) -> (r: Option<usize>)
        ensures
            match r {
                Some(t) => t < self.object_types@.len() && self.object_types@[t as int]@ == name@,
                None => forall|t: int|
                    0 <= t < self.object_types@.len() ==> (#[trigger] self.object_types@[t])@
                        != name@,
            },
    {
        find_string(&self.object_types, name)
    }

    /// Index of the event whose id is `id`, if any.
    pub fn event_index_by_id(&self, id: &String) -> (r: Option<usize>)
        ensures
            match r {
                Some(e) => e < self.events@.len() && self.events@[e as int].id@ == id@,
                None => forall|e: int|
                    0 <= e < self.events@.len() ==> (#[trigger] self.events@[e]).id@ != id@,
            },
    {
        let n = self.events.len();
        let mut i: usize = 0;
        while i < n
            invariant
                n == self.events@.len(),
                i <= n,
                forall|e: int| 0 <= e < i ==> (#[trigger] self.events@[e]).id@ != id@,
            decreases n - i,
        {
            if self.events[i].id == *id {
                return Some(i);
            }
            i = i + 1;
        }
        None
    }

    /// Index of the object whose id is `id`, if any.
    pub fn object_index_by_id(&self, id: &String) -> (r: Option<usize>)
        ensures
            match r {
                Some(o) => o < self.objects@.len() && self.objects@[o as int].id@ == id@,
                None => forall|o: int|
                    0 <= o < self.objects@.len() ==> (#[trigger] self.objects@[o]).id@ != id@,
            },
    {
        let n = self.objects.len();
        let mut i: usize = 0;
        while i < n
            invariant
                n == self.objects@.len(),
                i <= n,
                forall|o: int| 0 <= o < i ==> (#[trigger] self.objects@[o]).id@ != id@,
            decreases n - i,
        {
            if self.objects[i].id == *id {
                return Some(i);
            }
            i = i + 1;
        }
        None
    }
}

/// Index of the first `String` in `v` equal to `x`, if any.
pub fn find_string(v: &Vec<String>, x: &String) -> (r: Option<usize>)
    ensures
        match r {
            Some(i) => i < v@.len() && v@[i as int]@ == x@ && forall|j: int|
                0 <= j < i ==> (#[trigger] v@[j])@ != x@,
            None => forall|j: int| 0 <= j < v@.len() ==> (#[trigger] v@[j])@ != x@,
        },
{
    let n = v.len();
    let mut i: usize = 0;
    while i < n
        invariant
            n == v@.len(),
            i <= n,
            forall|j: int| 0 <= j < i ==> (#[trigger] v@[j])@ != x@,
        decreases n - i,
    {
        if v[i] == *x {
            return Some(i);
        }
        i = i + 1;
    }
    None
}

/// Relational symmetry, forward to reverse: if object `o` stands in `e2o(e)`
/// with qualifier `q`, then `e` stands in `e2o_rev(o)` with the same
/// qualifier; likewise for the object-to-object lists.
pub proof fn lemma_relational_symmetry_fwd(log: IndexedLog, e: int, j: int)
    requires
        log.wf(),
        0 <= e < log.events@.len(),
        0 <= j < log.events@[e].e2o@.len(),
    ensures
        qual_pairs_has(
            log.e2o_rev@[log.events@[e].e2o@[j].1 as int]@,
            log.events@[e].e2o@[j].0@,
            e,
        ),
{
}

/// Relational symmetry, reverse to forward: every entry of `e2o_rev(o)`
/// comes from a forward relationship with the same qualifier.
pub proof fn lemma_relational_symmetry_rev(log: IndexedLog, o: int, k: int)
    requires
        log.wf(),
        0 <= o < log.objects@.len(),
        0 <= k < log.e2o_rev@[o]@.len(),
    ensures
        0 <= log.e2o_rev@[o]@[k].1 < log.events@.len(),
        qual_pairs_has(
            log.events@[log.e2o_rev@[o]@[k].1 as int].e2o@,
            log.e2o_rev@[o]@[k].0@,
            o,
        ),
{
}

/// Relational symmetry for object-to-object lists, forward to reverse.
pub proof fn lemma_o2o_symmetry_fwd(log: IndexedLog, o: int, j: int)
    requires
        log.wf(),
        0 <= o < log.objects@.len(),
        0 <= j < log.objects@[o].o2o@.len(),
    ensures
        qual_pairs_has(
            log.o2o_rev@[log.objects@[o].o2o@[j].1 as int]@,
            log.objects@[o].o2o@[j].0@,
            o,
        ),
{
}

/// Relational symmetry for object-to-object lists, reverse to forward.
pub proof fn lemma_o2o_symmetry_rev(log: IndexedLog, o: int, k: int)
    requires
        log.wf(),
        0 <= o < log.objects@.len(),
        0 <= k < log.o2o_rev@[o]@.len(),
    ensures
        0 <= log.o2o_rev@[o]@[k].1 < log.objects@.len(),
        qual_pairs_has(
            log.objects@[log.o2o_rev@[o]@[k].1 as int].o2o@,
            log.o2o_rev@[o]@[k].0@,
            o,
        ),
{
}

/// Whether all event ids of the input are distinct.
pub open spec fn event_ids_unique(events: Seq<EventInput>) -> bool {
    forall|i: int, j: int|
        0 <= i < j < events.len() ==> (#[trigger] events[i]).id@ != (#[trigger] events[j]).id@
}

/// Whether all object ids of the input are distinct.
pub open spec fn object_ids_unique(objects: Seq<ObjectInput>) -> bool {
    forall|i: int, j: int|
        0 <= i < j < objects.len() ==> (#[trigger] objects[i]).id@ != (#[trigger] objects[j]).id@
}

/// Whether one relationship target id names some object of the input.
pub open spec fn target_resolves(rel: (String, String), objects: Seq<ObjectInput>) -> bool {
    exists|j: int| 0 <= j < objects.len() && (#[trigger] objects[j]).id@ == rel.1@
}

/// Whether every relationship target id names some object of the input.
pub open spec fn rel_targets_resolve(rels: Seq<(String, String)>, objects: Seq<ObjectInput>) -> bool {
    forall|r: int| 0 <= r < rels.len() ==> target_resolves(#[trigger] rels[r], objects)
}

/// Whether the decoded log is consistent: unique ids and no dangling
/// relationship targets.
pub open spec fn input_consistent(input: &LogInput) -> bool {
    &&& event_ids_unique(input.events@)
    &&& object_ids_unique(input.objects@)
    &&& forall|e: int|
        0 <= e < input.events@.len() ==> rel_targets_resolve(
            (#[trigger] input.events@[e]).relationships@,
            input.objects@,
        )
    &&& forall|o: int|
        0 <= o < input.objects@.len() ==> rel_targets_resolve(
            (#[trigger] input.objects@[o]).relationships@,
            input.objects@,
        )
}

/// Whether every element of `a` occurs in `b`.
pub open spec fn events_drawn_from(a: Seq<EventInput>, b: Seq<EventInput>) -> bool {
    forall|k: int| 0 <= k < a.len() ==> b.contains(#[trigger] a[k])
}

/// Whether an indexed event realises a decoded event: same id, time and
/// attributes, the type name resolved through the store's type list, and
/// each relationship resolved to the object with the target id.
pub open spec fn ev_matches(ie: IndexedEvent, ein: EventInput, log: IndexedLog) -> bool {
    &&& ie.id@ == ein.id@
    &&& ie.time == ein.time
    &&& ie.attributes == ein.attributes
    &&& ie.type_index < log.event_types@.len()
    &&& log.event_types@[ie.type_index as int]@ == ein.event_type@
    &&& ie.e2o@.len() == ein.relationships@.len()
    &&& forall|r: int|
        0 <= r < ie.e2o@.len() ==> (#[trigger] ie.e2o@[r]).0@ == ein.relationships@[r].0@
            && ie.e2o@[r].1 < log.objects@.len() && log.objects@[ie.e2o@[r].1 as int].id@
            == ein.relationships@[r].1@
}

/// Whether some decoded event of `events` is realised by the indexed event.
pub open spec fn ev_realized(ie: IndexedEvent, events: Seq<EventInput>, log: IndexedLog) -> bool {
    exists|j: int| 0 <= j < events.len() && ev_matches(ie, #[trigger] events[j], log)
}

/// Whether an indexed object realises a decoded object, fields respectively.
pub open spec fn ob_matches(io: IndexedObject, oin: ObjectInput, log: IndexedLog) -> bool {
    &&& io.id@ == oin.id@
    &&& io.attributes == oin.attributes
    &&& io.type_index < log.object_types@.len()
    &&& log.object_types@[io.type_index as int]@ == oin.object_type@
    &&& io.o2o@.len() == oin.relationships@.len()
    &&& forall|r: int|
        0 <= r < io.o2o@.len() ==> (#[trigger] io.o2o@[r]).0@ == oin.relationships@[r].0@
            && io.o2o@[r].1 < log.objects@.len() && log.objects@[io.o2o@[r].1 as int].id@
            == oin.relationships@[r].1@
}

/// Index of the first object of `objects` whose id is `id`, if any.
fn find_object_input(objects: &Vec<ObjectInput>, id: &String) -> (r: Option<usize>)
    ensures
        match r {
            Some(o) => o < objects@.len() && objects@[o as int].id@ == id@,
            None => forall|o: int|
                0 <= o < objects@.len() ==> (#[trigger] objects@[o]).id@ != id@,
        },
{
    let n = objects.len();
    let mut i: usize = 0;
    while i < n
        invariant
            n == objects@.len(),
            i <= n,
            forall|o: int| 0 <= o < i ==> (#[trigger] objects@[o]).id@ != id@,
        decreases n - i,
    {
        if objects[i].id == *id {
            return Some(i);
        }
        i = i + 1;
    }
    None
}

/// The distinct strings of `s`, first occurrences in order.
pub open spec fn dedup_names(s: Seq<String>) -> Seq<String>
    decreases s.len(),
{
    if s.len() == 0 {
        Seq::empty()
    } else {
        let prev = dedup_names(s.drop_last());
        if string_seq_has(prev, s.last()@) {
            prev
        } else {
            prev.push(s.last())
        }
    }
}

proof fn lemma_dedup_names_unique(s: Seq<String>)
    ensures
        strings_unique(dedup_names(s)),
        forall|x: Seq<char>| string_seq_has(dedup_names(s), x) ==> string_seq_has(s, x),
        forall|x: Seq<char>| string_seq_has(s, x) ==> string_seq_has(dedup_names(s), x),
    decreases s.len(),
{
    if s.len() > 0 {
        lemma_dedup_names_unique(s.drop_last());
        let prev = dedup_names(s.drop_last());
        assert forall|x: Seq<char>| string_seq_has(dedup_names(s), x) implies string_seq_has(
            s,
            x,
        ) by {
            let k = choose|k: int|
                0 <= k < dedup_names(s).len() && (#[trigger] dedup_names(s)[k])@ == x;
            if k < prev.len() {
                assert(string_seq_has(prev, x));
                let w = choose|w: int| 0 <= w < prev.len() && (#[trigger] prev[w])@ == x;
                assert(string_seq_has(s.drop_last(), x));
                let u = choose|u: int|
                    0 <= u < s.drop_last().len() && (#[trigger] s.drop_last()[u])@ == x;
                assert(s[u]@ == x);
            } else {
                assert(s[s.len() - 1]@ == x);
            }
        }
        assert forall|x: Seq<char>| string_seq_has(s, x) implies string_seq_has(
            dedup_names(s),
            x,
        ) by {
            let k = choose|k: int| 0 <= k < s.len() && (#[trigger] s[k])@ == x;
            if k < s.len() - 1 {
                assert(s.drop_last()[k]@ == x);
                assert(string_seq_has(s.drop_last(), x));
                assert(string_seq_has(prev, x));
                if !string_seq_has(prev, s.last()@) {
                    let w = choose|w: int| 0 <= w < prev.len() && (#[trigger] prev[w])@ == x;
                    assert(dedup_names(s)[w]@ == x);
                } else {
                    let w = choose|w: int| 0 <= w < prev.len() && (#[trigger] prev[w])@ == x;
                    assert(dedup_names(s)[w]@ == x);
                }
            } else {
                if string_seq_has(prev, s.last()@) {
                    let w = choose|w: int| 0 <= w < prev.len() && (#[trigger] prev[w])@ == x;
                    assert(dedup_names(s)[w]@ == x);
                } else {
                    assert(dedup_names(s).last()@ == x);
                }
            }
        }
        assert forall|i: int, j: int|
            0 <= i < j < dedup_names(s).len() implies (#[trigger] dedup_names(s)[i])@ != (
        #[trigger] dedup_names(s)[j])@ by {
            if j < prev.len() {
            } else if !string_seq_has(prev, s.last()@) {
                assert(dedup_names(s)[j] == s.last());
                if dedup_names(s)[i]@ == s.last()@ {
                    assert(string_seq_has(prev, s.last()@));
                }
            }
        }
    }
}

/// The distinct names of `v`, first occurrences in order.
fn dedup_name_vec(v: &Vec<String>) -> (r: Vec<String>)
    ensures
        r@ == dedup_names(v@),
{
    let mut out: Vec<String> = Vec::new();
    let n = v.len();
    let mut i: usize = 0;
    proof {
        assert(v@.take(0) =~= Seq::<String>::empty());
    }
    while i < n
        invariant
            n == v@.len(),
            i <= n,
            out@ == dedup_names(v@.take(i as int)),
        decreases n - i,
    {
        proof {
            assert(v@.take(i + 1).drop_last() =~= v@.take(i as int));
            assert(v@.take(i + 1).last() == v@[i as int]);
        }
        match find_string(&out, &v[i]) {
            Some(_) => {
                proof {
                    assert(string_seq_has(out@, v@[i as int]@));
                }
            },
            None => {
                proof {
                    assert(!string_seq_has(out@, v@[i as int]@));
                }
                let ghost out0 = out@;
                out.push(v[i].clone());
                proof {
                    assert(out@ =~= out0.push(v@[i as int]));
                    assert(out@ =~= dedup_names(v@.take(i + 1)));
                }
            },
        }
        i = i + 1;
    }
    proof {
        assert(v@.take(n as int) =~= v@);
    }
    out
}

/// Finds or appends a type name, keeping the list's names unique and its
/// existing entries in place.
fn intern_type(types: &mut Vec<String>, name: &String) -> (ti: usize)
    requires
        strings_unique(old(types)@),
    ensures
        strings_unique(final(types)@),
        ti < final(types)@.len(),
        final(types)@[ti as int]@ == name@,
        final(types)@.len() >= old(types)@.len(),
        forall|k: int| 0 <= k < old(types)@.len() ==> final(types)@[k] == old(types)@[k],
        forall|x: Seq<char>| string_seq_has(old(types)@, x) ==> string_seq_has(final(types)@, x),
        string_seq_has(old(types)@, name@) ==> final(types)@ == old(types)@,
    {
    match find_string(types, name) {
        Some(ti) => {
            proof {
                assert forall|x: Seq<char>| string_seq_has(types@, x) implies string_seq_has(
                    types@,
                    x,
                ) by {
                }
            }
            ti
        },
        None => {
            let ti = types.len();
            let ghost t0 = types@;
            let cloned = name.clone();
            types.push(cloned);
            proof {
                assert(types@[ti as int]@ == name@);
                assert forall|i: int, j: int|
                    0 <= i < j < types@.len() implies (#[trigger] types@[i])@ != (
                #[trigger] types@[j])@ by {
                    if j == types@.len() - 1 {
                        assert(types@[j]@ == name@);
                        assert(t0[i]@ != name@);
                    }
                }
                assert forall|x: Seq<char>| string_seq_has(t0, x) implies string_seq_has(
                    types@,
                    x,
                ) by {
                    let w = choose|w: int| 0 <= w < t0.len() && (#[trigger] t0[w])@ == x;
                    assert(types@[w]@ == x);
                }
            }
            ti
        },
    }
}

/// Sorts decoded events by time, keeping arrival order among equal times.
fn sort_events_by_time(events: Vec<EventInput>) -> (r: Vec<EventInput>)
    ensures
        r@.len() == events@.len(),
        forall|i: int, j: int|
            0 <= i < j < r@.len() ==> (#[trigger] r@[i]).time <= (#[trigger] r@[j]).time,
        r@.to_multiset() == events@.to_multiset(),
{
    broadcast use vstd::seq_lib::group_to_multiset_ensures;

    let ghost orig = events@;
    let mut rest = events;
    let mut out: Vec<EventInput> = Vec::new();
    while rest.len() > 0
        invariant
            out@.to_multiset().add(rest@.to_multiset()) =~= orig.to_multiset(),
            out@.len() + rest@.len() == orig.len(),
            forall|i: int, j: int|
                0 <= i < j < out@.len() ==> (#[trigger] out@[i]).time <= (#[trigger] out@[j]).time,
            forall|i: int, j: int|
                0 <= i < out@.len() && 0 <= j < rest@.len() ==> (#[trigger] out@[i]).time <= (
                #[trigger] rest@[j]).time,
        decreases rest@.len(),
    {
        let n = rest.len();
        let mut m: usize = 0;
        let mut k: usize = 1;
        while k < n
            invariant
                n == rest@.len(),
                m < k <= n,
                forall|w: int| 0 <= w < k ==> (#[trigger] rest@[w]).time >= rest@[m as int].time,
            decreases n - k,
        {
            if rest[k].time < rest[m].time {
                m = k;
            }
            k = k + 1;
        }
        let ghost rest0 = rest@;
        let ghost out0 = out@;
        let picked = rest.remove(m);
        out.push(picked);
        proof {
            assert(rest@ =~= rest0.remove(m as int));
            assert(rest@.to_multiset() =~= rest0.to_multiset().remove(rest0[m as int]));
            assert(out@.to_multiset() =~= out0.to_multiset().insert(rest0[m as int]));
            assert(out@.to_multiset().add(rest@.to_multiset()) =~= orig.to_multiset());
            assert forall|i: int, j: int|
                0 <= i < out@.len() && 0 <= j < rest@.len() implies (#[trigger] out@[i]).time <= (
            #[trigger] rest@[j]).time by {
                if i < out0.len() {
                    if j < m {
                        assert(rest@[j] == rest0[j]);
                    } else {
                        assert(rest@[j] == rest0[j + 1]);
                    }
                } else {
                    assert(out@[i] == rest0[m as int]);
                    if j < m {
                        assert(rest@[j] == rest0[j]);
                    } else {
                        assert(rest@[j] == rest0[j + 1]);
                    }
                }
            }
        }
    }
    out
}

impl IndexedLog {
    /// Builds the indexed store from a decoded log.
    ///
    /// Succeeds exactly when the input is consistent: event ids unique,
    /// object ids unique, and every relationship target resolvable. The
    /// store is then well-formed, holds one indexed object per decoded
    /// object in order, and one indexed event per decoded event with events
    /// sorted by time.
    #[verifier::rlimit(100)]
    #[verifier::spinoff_prover]
    pub fn build(input: LogInput) -> (r: Result<IndexedLog, LogError>)
        ensures
            match r {
                Ok(log) => {
                    &&& log.wf()
                    &&& input_consistent(&input)
                    &&& log.events@.len() == input.events@.len()
                    &&& log.objects@.len() == input.objects@.len()
                    &&& forall|k: int|
                        0 <= k < log.objects@.len() ==> ob_matches(
                            #[trigger] log.objects@[k],
                            input.objects@[k],
                            log,
                        )
                    &&& forall|k: int|
                        0 <= k < log.events@.len() ==> ev_realized(
                            #[trigger] log.events@[k],
                            input.events@,
                            log,
                        )
                },
                Err(e) => {
                    &&& !input_consistent(&input)
                    &&& match e {
                        LogError::DuplicateEventId(_) => !event_ids_unique(input.events@),
                        LogError::DuplicateObjectId(_) => !object_ids_unique(input.objects@),
                        LogError::DanglingObjectId(_) => true,
                    }
                },
            },
    {
        broadcast use vstd::seq_lib::group_to_multiset_ensures;
        // reject duplicate ids
        let ne = input.events.len();
        let mut i: usize = 0;
        while i < ne
            invariant
                ne == input.events@.len(),
                i <= ne,
                forall|a: int, b: int|
                    0 <= a < b < i ==> (#[trigger] input.events@[a]).id@ != (
                    #[trigger] input.events@[b]).id@,
            decreases ne - i,
        {
            let mut j: usize = 0;
            while j < i
                invariant
                    ne == input.events@.len(),
                    i < ne,
                    j <= i,
                    forall|a: int|
                        0 <= a < j ==> (#[trigger] input.events@[a]).id@ != input.events@[
                            i as int
                        ].id@,
                decreases i - j,
            {
                if input.events[j].id == input.events[i].id {
                    return Err(LogError::DuplicateEventId(input.events[i].id.clone()));
                }
                j = j + 1;
            }
            i = i + 1;
        }
        let no = input.objects.len();
        let mut i2: usize = 0;
        while i2 < no
            invariant
                no == input.objects@.len(),
                i2 <= no,
                event_ids_unique(input.events@),
                forall|a: int, b: int|
                    0 <= a < b < i2 ==> (#[trigger] input.objects@[a]).id@ != (
                    #[trigger] input.objects@[b]).id@,
            decreases no - i2,
        {
            let mut j: usize = 0;
            while j < i2
                invariant
                    no == input.objects@.len(),
                    i2 < no,
                    j <= i2,
                    forall|a: int|
                        0 <= a < j ==> (#[trigger] input.objects@[a]).id@ != input.objects@[
                            i2 as int
                        ].id@,
                decreases i2 - j,
            {
                if input.objects[j].id == input.objects[i2].id {
                    return Err(LogError::DuplicateObjectId(input.objects[i2].id.clone()));
                }
                j = j + 1;
            }
            i2 = i2 + 1;
        }
        // sort events by time
        let LogInput { event_types: in_etypes, object_types: in_otypes, events: in_events, objects: in_objects } =
            input;
        let ghost input_events = in_events@;
        let ghost input_objects = in_objects@;
        let sorted = sort_events_by_time(in_events);
        proof {
            // sorted ids stay unique under the permutation
            assert forall|a: int, b: int| 0 <= a < b < input_events.len() implies input_events[a]
                != input_events[b] by {
                assert(input_events[a].id@ != input_events[b].id@);
            }
            assert(input_events.no_duplicates());
            input_events.lemma_multiset_has_no_duplicates();
            assert(forall|x: EventInput|
                sorted@.to_multiset().contains(x) ==> #[trigger] sorted@.to_multiset().count(x)
                    == 1);
            sorted@.lemma_multiset_has_no_duplicates_conv();
            assert forall|a: int, b: int| 0 <= a < b < sorted@.len() implies (
            #[trigger] sorted@[a]).id@ != (#[trigger] sorted@[b]).id@ by {
                if sorted@[a].id@ == sorted@[b].id@ {
                    assert(sorted@[a] != sorted@[b]);
                    assert(sorted@.contains(sorted@[a]));
                    assert(sorted@.to_multiset().contains(sorted@[a]));
                    assert(input_events.to_multiset().contains(sorted@[a]));
                    assert(input_events.contains(sorted@[a]));
                    assert(sorted@.to_multiset().contains(sorted@[b]));
                    assert(input_events.contains(sorted@[b]));
                    let wa = choose|wa: int|
                        0 <= wa < input_events.len() && input_events[wa] == sorted@[a];
                    let wb = choose|wb: int|
                        0 <= wb < input_events.len() && input_events[wb] == sorted@[b];
                    assert(wa != wb);
                    assert(input_events[wa].id@ != input_events[wb].id@);
                }
            }
            // every sorted event is an input event
            assert forall|k: int| 0 <= k < sorted@.len() implies input_events.contains(
                #[trigger] sorted@[k],
            ) by {
                assert(sorted@.contains(sorted@[k]));
                assert(sorted@.to_multiset().contains(sorted@[k]));
                assert(input_events.to_multiset().contains(sorted@[k]));
            }
            assert(events_drawn_from(sorted@, input_events));
        }
        // resolve event relationships against the object ids
        let nse = sorted.len();
        let mut e2o_res: Vec<Vec<(String, usize)>> = Vec::new();
        let mut k: usize = 0;
        while k < nse
            invariant
                nse == sorted@.len(),
                no == in_objects@.len(),
                k <= nse,
                e2o_res@.len() == k,
                forall|w: int, r: int|
                    0 <= w < k && 0 <= r < (#[trigger] e2o_res@[w])@.len() ==> {
                        let p = #[trigger] e2o_res@[w]@[r];
                        p.0@ == sorted@[w].relationships@[r].0@ && p.1 < in_objects@.len()
                            && in_objects@[p.1 as int].id@ == sorted@[w].relationships@[r].1@
                    },
                forall|w: int|
                    0 <= w < k ==> (#[trigger] e2o_res@[w])@.len() == sorted@[
                        w
                    ].relationships@.len(),
                forall|w: int|
                    0 <= w < k ==> rel_targets_resolve(
                        (#[trigger] sorted@[w]).relationships@,
                        in_objects@,
                    ),
                forall|a: int, b: int|
                    0 <= a < b < sorted@.len() ==> (#[trigger] sorted@[a]).id@ != (
                    #[trigger] sorted@[b]).id@,
                forall|w: int, x: int|
                    0 <= w < sorted@.len() && 0 <= x < sorted@.len() ==> ((#[trigger] sorted@[w]).time
                        <= (#[trigger] sorted@[x]).time || w > x),
                events_drawn_from(sorted@, input_events),
            decreases nse - k,
        {
            let rels = &sorted[k].relationships;
            let nr = rels.len();
            let mut row: Vec<(String, usize)> = Vec::new();
            let mut r: usize = 0;
            while r < nr
                invariant
                    nr == sorted@[k as int].relationships@.len(),
                    k < nse,
                    nse == sorted@.len(),
                    no == in_objects@.len(),
                    r <= nr,
                    row@.len() == r,
                    rels == &sorted@[k as int].relationships,
                    forall|x: int|
                        0 <= x < r ==> {
                            let p = #[trigger] row@[x];
                            p.0@ == sorted@[k as int].relationships@[x].0@ && p.1
                                < in_objects@.len() && in_objects@[p.1 as int].id@ == sorted@[
                                k as int
                            ].relationships@[x].1@
                        },
                decreases nr - r,
            {
                match find_object_input(&in_objects, &rels[r].1) {
                    Some(oi) => {
                        row.push((rels[r].0.clone(), oi));
                    },
                    None => {
                        proof {
                            assert(input_events.contains(sorted@[k as int]));
                            let w = choose|w: int|
                                0 <= w < input_events.len() && #[trigger] input_events[w]
                                    == sorted@[k as int];
                            assert(!target_resolves(
                                sorted@[k as int].relationships@[r as int],
                                input_objects,
                            ));
                            assert(!rel_targets_resolve(
                                input_events[w].relationships@,
                                input_objects,
                            ));
                        }
                        return Err(LogError::DanglingObjectId(rels[r].1.clone()));
                    },
                }
                r = r + 1;
            }
            proof {
                assert forall|x: int|
                    0 <= x < sorted@[k as int].relationships@.len() implies target_resolves(
                    #[trigger] sorted@[k as int].relationships@[x],
                    in_objects@,
                ) by {
                    let p = row@[x];
                    let jj = p.1 as int;
                    assert(0 <= jj < in_objects@.len());
                    assert(in_objects@[jj].id@ == sorted@[k as int].relationships@[x].1@);
                }
                assert(rel_targets_resolve(sorted@[k as int].relationships@, in_objects@));
            }
            e2o_res.push(row);
            k = k + 1;
        }
        let ghost e2o_res_model = e2o_res@;
        proof {
            assert forall|w: int| 0 <= w < nse implies rel_targets_resolve(
                (#[trigger] sorted@[w]).relationships@,
                input_objects,
            ) by {
            }
        }
        proof {
            assert forall|w: int, r: int|
                0 <= w < nse && 0 <= r < (#[trigger] e2o_res_model[w])@.len() implies {
                let p = #[trigger] e2o_res_model[w]@[r];
                p.0@ == sorted@[w].relationships@[r].0@ && p.1 < in_objects@.len() && in_objects@[
                    p.1 as int
                ].id@ == sorted@[w].relationships@[r].1@
            } by {
                assert(e2o_res_model[w] == e2o_res@[w]);
            }
            assert forall|w: int| 0 <= w < nse implies (#[trigger] e2o_res_model[w])@.len()
                == sorted@[w].relationships@.len() by {
                assert(e2o_res_model[w] == e2o_res@[w]);
            }
        }
        // resolve object relationships
        let mut o2o_res: Vec<Vec<(String, usize)>> = Vec::new();
        let mut k2: usize = 0;
        while k2 < no
            invariant
                no == in_objects@.len(),
                k2 <= no,
                o2o_res@.len() == k2,
                forall|w: int, r: int|
                    0 <= w < k2 && 0 <= r < (#[trigger] o2o_res@[w])@.len() ==> {
                        let p = #[trigger] o2o_res@[w]@[r];
                        p.0@ == in_objects@[w].relationships@[r].0@ && p.1 < in_objects@.len()
                            && in_objects@[p.1 as int].id@ == in_objects@[w].relationships@[r].1@
                    },
                forall|w: int|
                    0 <= w < k2 ==> (#[trigger] o2o_res@[w])@.len() == in_objects@[
                        w
                    ].relationships@.len(),
                forall|w: int|
                    0 <= w < k2 ==> rel_targets_resolve(
                        (#[trigger] in_objects@[w]).relationships@,
                        in_objects@,
                    ),
            decreases no - k2,
        {
            let rels = &in_objects[k2].relationships;
            let nr = rels.len();
            let mut row: Vec<(String, usize)> = Vec::new();
            let mut r: usize = 0;
            while r < nr
                invariant
                    nr == in_objects@[k2 as int].relationships@.len(),
                    k2 < no,
                    no == in_objects@.len(),
                    r <= nr,
                    row@.len() == r,
                    rels == &in_objects@[k2 as int].relationships,
                    forall|x: int|
                        0 <= x < r ==> {
                            let p = #[trigger] row@[x];
                            p.0@ == in_objects@[k2 as int].relationships@[x].0@ && p.1
                                < in_objects@.len() && in_objects@[p.1 as int].id@ == in_objects@[
                                k2 as int
                            ].relationships@[x].1@
                        },
                decreases nr - r,
            {
                match find_object_input(&in_objects, &rels[r].1) {
                    Some(oi) => {
                        row.push((rels[r].0.clone(), oi));
                    },
                    None => {
                        proof {
                            assert(!target_resolves(
                                input_objects[k2 as int].relationships@[r as int],
                                input_objects,
                            ));
                            assert(!rel_targets_resolve(
                                input_objects[k2 as int].relationships@,
                                input_objects,
                            ));
                        }
                        return Err(LogError::DanglingObjectId(rels[r].1.clone()));
                    },
                }
                r = r + 1;
            }
            proof {
                assert forall|x: int|
                    0 <= x < in_objects@[k2 as int].relationships@.len() implies target_resolves(
                    #[trigger] in_objects@[k2 as int].relationships@[x],
                    in_objects@,
                ) by {
                    let p = row@[x];
                    let jj = p.1 as int;
                    assert(0 <= jj < in_objects@.len());
                    assert(in_objects@[jj].id@ == in_objects@[k2 as int].relationships@[x].1@);
                }
                assert(rel_targets_resolve(in_objects@[k2 as int].relationships@, in_objects@));
            }
            o2o_res.push(row);
            k2 = k2 + 1;
        }
        let ghost o2o_res_model = o2o_res@;
        proof {
            assert forall|w: int| 0 <= w < no implies rel_targets_resolve(
                (#[trigger] input_objects[w]).relationships@,
                input_objects,
            ) by {
            }
        }
        proof {
            assert forall|w: int, r: int|
                0 <= w < no && 0 <= r < (#[trigger] o2o_res_model[w])@.len() implies {
                let p = #[trigger] o2o_res_model[w]@[r];
                p.0@ == in_objects@[w].relationships@[r].0@ && p.1 < in_objects@.len()
                    && in_objects@[p.1 as int].id@ == in_objects@[w].relationships@[r].1@
            } by {
                assert(o2o_res_model[w] == o2o_res@[w]);
            }
            assert forall|w: int| 0 <= w < no implies (#[trigger] o2o_res_model[w])@.len()
                == in_objects@[w].relationships@.len() by {
                assert(o2o_res_model[w] == o2o_res@[w]);
            }
        }
        // intern type names
        let mut etypes = dedup_name_vec(&in_etypes);
        proof {
            lemma_dedup_names_unique(in_etypes@);
        }
        let mut etid: Vec<usize> = Vec::new();
        let mut k3: usize = 0;
        while k3 < nse
            invariant
                nse == sorted@.len(),
                k3 <= nse,
                etid@.len() == k3,
                strings_unique(etypes@),
                forall|w: int|
                    0 <= w < k3 ==> (#[trigger] etid@[w]) < etypes@.len() && etypes@[etid@[
                        w
                    ] as int]@ == sorted@[w].event_type@,
            decreases nse - k3,
        {
            let ghost et0 = etypes@;
            let ti = intern_type(&mut etypes, &sorted[k3].event_type);
            etid.push(ti);
            proof {
                assert forall|w: int| 0 <= w < k3 + 1 implies (#[trigger] etid@[w]) < etypes@.len()
                    && etypes@[etid@[w] as int]@ == sorted@[w].event_type@ by {
                    if w < k3 {
                        assert(etypes@[etid@[w] as int] == et0[etid@[w] as int]);
                    }
                }
            }
            k3 = k3 + 1;
        }
        let mut otypes = dedup_name_vec(&in_otypes);
        proof {
            lemma_dedup_names_unique(in_otypes@);
        }
        let mut otid: Vec<usize> = Vec::new();
        let mut k4: usize = 0;
        while k4 < no
            invariant
                no == in_objects@.len(),
                k4 <= no,
                otid@.len() == k4,
                strings_unique(otypes@),
                forall|w: int|
                    0 <= w < k4 ==> (#[trigger] otid@[w]) < otypes@.len() && otypes@[otid@[
                        w
                    ] as int]@ == in_objects@[w].object_type@,
            decreases no - k4,
        {
            let ghost ot0 = otypes@;
            let ti = intern_type(&mut otypes, &in_objects[k4].object_type);
            otid.push(ti);
            proof {
                assert forall|w: int| 0 <= w < k4 + 1 implies (#[trigger] otid@[w]) < otypes@.len()
                    && otypes@[otid@[w] as int]@ == in_objects@[w].object_type@ by {
                    if w < k4 {
                        assert(otypes@[otid@[w] as int] == ot0[otid@[w] as int]);
                    }
                }
            }
            k4 = k4 + 1;
        }
        // assemble the indexed objects, moving the decoded fields
        let mut obj_stack: Vec<ObjectInput> = Vec::new();
        let mut rel_stack: Vec<Vec<(String, usize)>> = Vec::new();
        let mut src_objs = in_objects;
        while src_objs.len() > 0
            invariant
                src_objs@.len() + obj_stack@.len() == no,
                rel_stack@.len() == obj_stack@.len(),
                o2o_res@.len() == src_objs@.len(),
                src_objs@ =~= input_objects.take(src_objs@.len() as int),
                o2o_res@ =~= o2o_res_model.take(src_objs@.len() as int),
                forall|w: int|
                    0 <= w < obj_stack@.len() ==> (#[trigger] obj_stack@[w]) == input_objects[no - 1
                        - w] && rel_stack@[w] == o2o_res_model[no - 1 - w],
            decreases src_objs@.len(),
        {
            let ghost src0 = src_objs@;
            let ghost res0 = o2o_res@;
            let ob = match src_objs.pop() {
                Some(o) => o,
                None => {
                    return Err(LogError::DuplicateObjectId(String::new()));
                },
            };
            let rl = match o2o_res.pop() {
                Some(rs) => rs,
                None => {
                    return Err(LogError::DuplicateObjectId(String::new()));
                },
            };
            let ghost stack0 = obj_stack@;
            obj_stack.push(ob);
            rel_stack.push(rl);
            proof {
                let ll = src0.len() as int;
                assert(ob == src0[ll - 1]);
                assert(src0[ll - 1] == input_objects.take(ll)[ll - 1]);
                assert(rl == res0[ll - 1]);
                assert(res0[ll - 1] == o2o_res_model.take(ll)[ll - 1]);
                assert(src_objs@ =~= input_objects.take(ll - 1));
                assert(o2o_res@ =~= o2o_res_model.take(ll - 1));
                assert forall|w: int|
                    0 <= w < obj_stack@.len() implies (#[trigger] obj_stack@[w]) == input_objects[no
                    - 1 - w] && rel_stack@[w] == o2o_res_model[no - 1 - w] by {
                    if w == stack0.len() {
                        assert(no - 1 - w == ll - 1);
                        assert(obj_stack@[w] == ob);
                        assert(rel_stack@[w] == rl);
                    } else {
                        assert(obj_stack@[w] == stack0[w]);
                    }
                }
            }
        }
        let mut objects: Vec<IndexedObject> = Vec::new();
        while obj_stack.len() > 0
            invariant
                objects@.len() + obj_stack@.len() == no,
                rel_stack@.len() == obj_stack@.len(),
                no == input_objects.len(),
                otid@.len() == no,
                forall|w: int|
                    0 <= w < obj_stack@.len() ==> (#[trigger] obj_stack@[w]) == input_objects[no - 1
                        - w] && rel_stack@[w] == o2o_res_model[no - 1 - w],
                forall|w: int|
                    0 <= w < objects@.len() ==> {
                        let io = #[trigger] objects@[w];
                        io.id == input_objects[w].id && io.attributes == input_objects[w].attributes
                            && io.type_index == otid@[w] && io.o2o == o2o_res_model[w]
                    },
            decreases obj_stack@.len(),
        {
            let ob = match obj_stack.pop() {
                Some(o) => o,
                None => {
                    return Err(LogError::DuplicateObjectId(String::new()));
                },
            };
            let rl = match rel_stack.pop() {
                Some(rs) => rs,
                None => {
                    return Err(LogError::DuplicateObjectId(String::new()));
                },
            };
            let pos = objects.len();
            let ghost stack0 = obj_stack@.push(ob);
            let ghost rstack0 = rel_stack@.push(rl);
            let ghost objs0 = objects@;
            let ObjectInput { id, object_type: _, attributes, relationships: _ } = ob;
            objects.push(IndexedObject { id, type_index: otid[pos], attributes, o2o: rl });
            proof {
                let sl = stack0.len() as int;
                assert(ob == stack0[sl - 1]);
                assert(stack0[sl - 1] == input_objects[no - sl]);
                assert(rstack0[sl - 1] == o2o_res_model[no - sl]);
                assert(pos == no - sl);
                assert forall|w: int|
                    0 <= w < objects@.len() implies {
                    let io = #[trigger] objects@[w];
                    io.id == input_objects[w].id && io.attributes == input_objects[w].attributes
                        && io.type_index == otid@[w] && io.o2o == o2o_res_model[w]
                } by {
                    if w < objs0.len() {
                        assert(objects@[w] == objs0[w]);
                    } else {
                        assert(objects@[w].id == ob.id);
                        assert(objects@[w].attributes == ob.attributes);
                        assert(objects@[w].o2o == rl);
                    }
                }
                assert forall|w: int|
                    0 <= w < obj_stack@.len() implies (#[trigger] obj_stack@[w]) == input_objects[no
                    - 1 - w] && rel_stack@[w] == o2o_res_model[no - 1 - w] by {
                    assert(obj_stack@[w] == stack0[w]);
                    assert(rel_stack@[w] == rstack0[w]);
                }
            }
        }
        // assemble the indexed events, moving the decoded fields
        let ghost sorted_model = sorted@;
        proof {
            assert(events_drawn_from(sorted_model, input_events));
        }
        let mut ev_stack: Vec<EventInput> = Vec::new();
        let mut erel_stack: Vec<Vec<(String, usize)>> = Vec::new();
        let mut src_evs = sorted;
        while src_evs.len() > 0
            invariant
                src_evs@.len() + ev_stack@.len() == nse,
                erel_stack@.len() == ev_stack@.len(),
                e2o_res@.len() == src_evs@.len(),
                src_evs@ =~= sorted_model.take(src_evs@.len() as int),
                e2o_res@ =~= e2o_res_model.take(src_evs@.len() as int),
                forall|w: int|
                    0 <= w < ev_stack@.len() ==> (#[trigger] ev_stack@[w]) == sorted_model[nse - 1
                        - w] && erel_stack@[w] == e2o_res_model[nse - 1 - w],
            decreases src_evs@.len(),
        {
            let ghost src0 = src_evs@;
            let ghost res0 = e2o_res@;
            let ev = match src_evs.pop() {
                Some(e) => e,
                None => {
                    return Err(LogError::DuplicateEventId(String::new()));
                },
            };
            let rl = match e2o_res.pop() {
                Some(rs) => rs,
                None => {
                    return Err(LogError::DuplicateEventId(String::new()));
                },
            };
            let ghost stack0 = ev_stack@;
            ev_stack.push(ev);
            erel_stack.push(rl);
            proof {
                let ll = src0.len() as int;
                assert(ev == src0[ll - 1]);
                assert(src0[ll - 1] == sorted_model.take(ll)[ll - 1]);
                assert(rl == res0[ll - 1]);
                assert(res0[ll - 1] == e2o_res_model.take(ll)[ll - 1]);
                assert(src_evs@ =~= sorted_model.take(ll - 1));
                assert(e2o_res@ =~= e2o_res_model.take(ll - 1));
                assert forall|w: int|
                    0 <= w < ev_stack@.len() implies (#[trigger] ev_stack@[w]) == sorted_model[nse
                    - 1 - w] && erel_stack@[w] == e2o_res_model[nse - 1 - w] by {
                    if w == stack0.len() {
                        assert(nse - 1 - w == ll - 1);
                        assert(ev_stack@[w] == ev);
                        assert(erel_stack@[w] == rl);
                    } else {
                        assert(ev_stack@[w] == stack0[w]);
                    }
                }
            }
        }
        let mut events: Vec<IndexedEvent> = Vec::new();
        while ev_stack.len() > 0
            invariant
                events@.len() + ev_stack@.len() == nse,
                erel_stack@.len() == ev_stack@.len(),
                nse == sorted_model.len(),
                etid@.len() == nse,
                forall|w: int|
                    0 <= w < ev_stack@.len() ==> (#[trigger] ev_stack@[w]) == sorted_model[nse - 1
                        - w] && erel_stack@[w] == e2o_res_model[nse - 1 - w],
                forall|w: int|
                    0 <= w < events@.len() ==> {
                        let ie = #[trigger] events@[w];
                        ie.id == sorted_model[w].id && ie.time == sorted_model[w].time
                            && ie.attributes == sorted_model[w].attributes && ie.type_index
                            == etid@[w] && ie.e2o == e2o_res_model[w]
                    },
            decreases ev_stack@.len(),
        {
            let ev = match ev_stack.pop() {
                Some(e) => e,
                None => {
                    return Err(LogError::DuplicateEventId(String::new()));
                },
            };
            let rl = match erel_stack.pop() {
                Some(rs) => rs,
                None => {
                    return Err(LogError::DuplicateEventId(String::new()));
                },
            };
            let pos = events.len();
            let ghost stack0 = ev_stack@.push(ev);
            let ghost rstack0 = erel_stack@.push(rl);
            let ghost evs0 = events@;
            let EventInput { id, event_type: _, time, attributes, relationships: _ } = ev;
            events.push(
                IndexedEvent { id, type_index: etid[pos], time, attributes, e2o: rl },
            );
            proof {
                let sl = stack0.len() as int;
                assert(ev == stack0[sl - 1]);
                assert(stack0[sl - 1] == sorted_model[nse - sl]);
                assert(rstack0[sl - 1] == e2o_res_model[nse - sl]);
                assert(pos == nse - sl);
                assert forall|w: int|
                    0 <= w < events@.len() implies {
                    let ie = #[trigger] events@[w];
                    ie.id == sorted_model[w].id && ie.time == sorted_model[w].time && ie.attributes
                        == sorted_model[w].attributes && ie.type_index == etid@[w] && ie.e2o
                        == e2o_res_model[w]
                } by {
                    if w < evs0.len() {
                        assert(events@[w] == evs0[w]);
                    } else {
                        assert(events@[w].id == ev.id);
                        assert(events@[w].time == ev.time);
                        assert(events@[w].attributes == ev.attributes);
                        assert(events@[w].e2o == rl);
                    }
                }
                assert forall|w: int|
                    0 <= w < ev_stack@.len() implies (#[trigger] ev_stack@[w]) == sorted_model[nse
                    - 1 - w] && erel_stack@[w] == e2o_res_model[nse - 1 - w] by {
                    assert(ev_stack@[w] == stack0[w]);
                    assert(erel_stack@[w] == rstack0[w]);
                }
            }
        }
        // group by type
        let n_et = etypes.len();
        let mut events_of_type: Vec<Vec<usize>> = Vec::new();
        let mut t: usize = 0;
        while t < n_et
            invariant
                n_et == etypes@.len(),
                t <= n_et,
                events_of_type@.len() == t,
                nse == events@.len(),
                forall|w: int, x: int|
                    0 <= w < t && 0 <= x < (#[trigger] events_of_type@[w])@.len() ==> {
                        let e = (#[trigger] events_of_type@[w]@[x]) as int;
                        0 <= e < events@.len() && events@[e].type_index == w
                    },
                forall|w: int, x1: int, x2: int|
                    0 <= w < t && 0 <= x1 < x2 < events_of_type@[w]@.len()
                        ==> #[trigger] events_of_type@[w]@[x1] < #[trigger] events_of_type@[w]@[x2],
                forall|w: int, e: int|
                    0 <= w < t && 0 <= e < events@.len() && (#[trigger] events@[e]).type_index
                        == w ==> #[trigger] events_of_type@[w]@.contains(e as usize),
            decreases n_et - t,
        {
            let mut lst: Vec<usize> = Vec::new();
            let mut e: usize = 0;
            while e < nse
                invariant
                    nse == events@.len(),
                    t < n_et,
                    e <= nse,
                    forall|x: int|
                        0 <= x < lst@.len() ==> (#[trigger] lst@[x]) < e && events@[lst@[
                            x
                        ] as int].type_index == t,
                    forall|x1: int, x2: int|
                        0 <= x1 < x2 < lst@.len() ==> lst@[x1] < lst@[x2],
                    forall|w: int|
                        0 <= w < e && (#[trigger] events@[w]).type_index == t ==> lst@.contains(
                            w as usize,
                        ),
                decreases nse - e,
            {
                if events[e].type_index == t {
                    let ghost l0 = lst@;
                    lst.push(e);
                    proof {
                        assert forall|w: int|
                            0 <= w < e + 1 && (#[trigger] events@[w]).type_index
                                == t implies lst@.contains(w as usize) by {
                            if w < e {
                                let x = choose|x: int| 0 <= x < l0.len() && l0[x] == w as usize;
                                assert(lst@[x] == w as usize);
                            } else {
                                assert(lst@[l0.len() as int] == w as usize);
                            }
                        }
                    }
                }
                e = e + 1;
            }
            events_of_type.push(lst);
            t = t + 1;
        }
        let n_ot = otypes.len();
        let mut objects_of_type: Vec<Vec<usize>> = Vec::new();
        let mut t2: usize = 0;
        while t2 < n_ot
            invariant
                n_ot == otypes@.len(),
                t2 <= n_ot,
                objects_of_type@.len() == t2,
                no == objects@.len(),
                forall|w: int, x: int|
                    0 <= w < t2 && 0 <= x < (#[trigger] objects_of_type@[w])@.len() ==> {
                        let o = (#[trigger] objects_of_type@[w]@[x]) as int;
                        0 <= o < objects@.len() && objects@[o].type_index == w
                    },
                forall|w: int, x1: int, x2: int|
                    0 <= w < t2 && 0 <= x1 < x2 < objects_of_type@[w]@.len()
                        ==> #[trigger] objects_of_type@[w]@[x1] < #[trigger] objects_of_type@[w]@[x2],
                forall|w: int, o: int|
                    0 <= w < t2 && 0 <= o < objects@.len() && (#[trigger] objects@[o]).type_index
                        == w ==> #[trigger] objects_of_type@[w]@.contains(o as usize),
            decreases n_ot - t2,
        {
            let mut lst: Vec<usize> = Vec::new();
            let mut o: usize = 0;
            while o < no
                invariant
                    no == objects@.len(),
                    t2 < n_ot,
                    o <= no,
                    forall|x: int|
                        0 <= x < lst@.len() ==> (#[trigger] lst@[x]) < o && objects@[lst@[
                            x
                        ] as int].type_index == t2,
                    forall|x1: int, x2: int|
                        0 <= x1 < x2 < lst@.len() ==> lst@[x1] < lst@[x2],
                    forall|w: int|
                        0 <= w < o && (#[trigger] objects@[w]).type_index == t2 ==> lst@.contains(
                            w as usize,
                        ),
                decreases no - o,
            {
                if objects[o].type_index == t2 {
                    let ghost l0 = lst@;
                    lst.push(o);
                    proof {
                        assert forall|w: int|
                            0 <= w < o + 1 && (#[trigger] objects@[w]).type_index
                                == t2 implies lst@.contains(w as usize) by {
                            if w < o {
                                let x = choose|x: int| 0 <= x < l0.len() && l0[x] == w as usize;
                                assert(lst@[x] == w as usize);
                            } else {
                                assert(lst@[l0.len() as int] == w as usize);
                            }
                        }
                    }
                }
                o = o + 1;
            }
            objects_of_type.push(lst);
            t2 = t2 + 1;
        }
        // reverse relationship lists
        let mut e2o_rev: Vec<Vec<(String, usize)>> = Vec::new();
        let mut o3: usize = 0;
        while o3 < no
            invariant
                no == objects@.len(),
                nse == events@.len(),
                o3 <= no,
                e2o_rev@.len() == o3,
                forall|w: int, x: int|
                    0 <= w < o3 && 0 <= x < (#[trigger] e2o_rev@[w])@.len() ==> {
                        let p = #[trigger] e2o_rev@[w]@[x];
                        0 <= p.1 < events@.len() && qual_pairs_has(
                            events@[p.1 as int].e2o@,
                            p.0@,
                            w,
                        )
                    },
                forall|w: int, e: int, x: int|
                    0 <= w < o3 && 0 <= e < events@.len() && 0 <= x < events@[e].e2o@.len()
                        && events@[e].e2o@[x].1 == w ==> #[trigger] qual_pairs_has(
                        e2o_rev@[w]@,
                        events@[e].e2o@[x].0@,
                        e,
                    ),
            decreases no - o3,
        {
            let mut lst: Vec<(String, usize)> = Vec::new();
            let mut e: usize = 0;
            while e < nse
                invariant
                    nse == events@.len(),
                    o3 < no,
                    e <= nse,
                    forall|x: int|
                        0 <= x < lst@.len() ==> {
                            let p = #[trigger] lst@[x];
                            0 <= p.1 < events@.len() && qual_pairs_has(
                                events@[p.1 as int].e2o@,
                                p.0@,
                                o3 as int,
                            )
                        },
                    forall|w: int, x: int|
                        0 <= w < e && 0 <= x < events@[w].e2o@.len() && (
                        #[trigger] events@[w].e2o@[x]).1 == o3 ==> qual_pairs_has(
                            lst@,
                            events@[w].e2o@[x].0@,
                            w,
                        ),
                decreases nse - e,
            {
                let rels = &events[e].e2o;
                let nr = rels.len();
                let mut x: usize = 0;
                while x < nr
                    invariant
                        nse == events@.len(),
                        e < nse,
                        o3 < no,
                        nr == events@[e as int].e2o@.len(),
                        rels == &events@[e as int].e2o,
                        x <= nr,
                        forall|y: int|
                            0 <= y < lst@.len() ==> {
                                let p = #[trigger] lst@[y];
                                0 <= p.1 < events@.len() && qual_pairs_has(
                                    events@[p.1 as int].e2o@,
                                    p.0@,
                                    o3 as int,
                                )
                            },
                        forall|w: int, y: int|
                            0 <= w < e && 0 <= y < events@[w].e2o@.len() && (
                            #[trigger] events@[w].e2o@[y]).1 == o3 ==> qual_pairs_has(
                                lst@,
                                events@[w].e2o@[y].0@,
                                w,
                            ),
                        forall|y: int|
                            0 <= y < x && (#[trigger] events@[e as int].e2o@[y]).1 == o3
                                ==> qual_pairs_has(lst@, events@[e as int].e2o@[y].0@, e as int),
                    decreases nr - x,
                {
                    if rels[x].1 == o3 {
                        let ghost l0 = lst@;
                        lst.push((rels[x].0.clone(), e));
                        proof {
                            assert(lst@[l0.len() as int].0@ == events@[e as int].e2o@[x as int].0@);
                            assert(lst@[l0.len() as int].1 == e);
                            assert(qual_pairs_has(
                                events@[e as int].e2o@,
                                events@[e as int].e2o@[x as int].0@,
                                o3 as int,
                            ));
                            assert forall|w: int, y: int|
                                (0 <= w < e && 0 <= y < events@[w].e2o@.len() && (
                                #[trigger] events@[w].e2o@[y]).1 == o3) || (w == e && 0 <= y < x + 1
                                    && events@[e as int].e2o@[y].1 == o3) implies qual_pairs_has(
                                lst@,
                                events@[w].e2o@[y].0@,
                                w,
                            ) by {
                                if w < e || y < x {
                                    if qual_pairs_has(l0, events@[w].e2o@[y].0@, w) {
                                        let z = choose|z: int|
                                            0 <= z < l0.len() && (#[trigger] l0[z]).0@ == events@[
                                                w
                                            ].e2o@[y].0@ && l0[z].1 == w;
                                        assert(lst@[z].0@ == events@[w].e2o@[y].0@ && lst@[z].1
                                            == w);
                                    }
                                } else {
                                    assert(lst@[l0.len() as int].0@ == events@[w].e2o@[y].0@
                                        && lst@[l0.len() as int].1 == w);
                                }
                            }
                        }
                    } else {
                        proof {
                            assert forall|w: int, y: int|
                                0 <= w < e + 1 && 0 <= y < events@[w].e2o@.len() && (
                                #[trigger] events@[w].e2o@[y]).1 == o3 && (w < e || y < x
                                    + 1) implies qual_pairs_has(
                                lst@,
                                events@[w].e2o@[y].0@,
                                w,
                            ) by {
                            }
                        }
                    }
                    x = x + 1;
                }
                e = e + 1;
            }
            e2o_rev.push(lst);
            o3 = o3 + 1;
        }
        let mut o2o_rev: Vec<Vec<(String, usize)>> = Vec::new();
        let mut o4: usize = 0;
        while o4 < no
            invariant
                no == objects@.len(),
                o4 <= no,
                o2o_rev@.len() == o4,
                forall|w: int, x: int|
                    0 <= w < o4 && 0 <= x < (#[trigger] o2o_rev@[w])@.len() ==> {
                        let p = #[trigger] o2o_rev@[w]@[x];
                        0 <= p.1 < objects@.len() && qual_pairs_has(
                            objects@[p.1 as int].o2o@,
                            p.0@,
                            w,
                        )
                    },
                forall|w: int, s: int, x: int|
                    0 <= w < o4 && 0 <= s < objects@.len() && 0 <= x < objects@[s].o2o@.len()
                        && objects@[s].o2o@[x].1 == w ==> #[trigger] qual_pairs_has(
                        o2o_rev@[w]@,
                        objects@[s].o2o@[x].0@,
                        s,
                    ),
            decreases no - o4,
        {
            let mut lst: Vec<(String, usize)> = Vec::new();
            let mut s: usize = 0;
            while s < no
                invariant
                    no == objects@.len(),
                    o4 < no,
                    s <= no,
                    forall|x: int|
                        0 <= x < lst@.len() ==> {
                            let p = #[trigger] lst@[x];
                            0 <= p.1 < objects@.len() && qual_pairs_has(
                                objects@[p.1 as int].o2o@,
                                p.0@,
                                o4 as int,
                            )
                        },
                    forall|w: int, x: int|
                        0 <= w < s && 0 <= x < objects@[w].o2o@.len() && (
                        #[trigger] objects@[w].o2o@[x]).1 == o4 ==> qual_pairs_has(
                            lst@,
                            objects@[w].o2o@[x].0@,
                            w,
                        ),
                decreases no - s,
            {
                let rels = &objects[s].o2o;
                let nr = rels.len();
                let mut x: usize = 0;
                while x < nr
                    invariant
                        no == objects@.len(),
                        s < no,
                        o4 < no,
                        nr == objects@[s as int].o2o@.len(),
                        rels == &objects@[s as int].o2o,
                        x <= nr,
                        forall|y: int|
                            0 <= y < lst@.len() ==> {
                                let p = #[trigger] lst@[y];
                                0 <= p.1 < objects@.len() && qual_pairs_has(
                                    objects@[p.1 as int].o2o@,
                                    p.0@,
                                    o4 as int,
                                )
                            },
                        forall|w: int, y: int|
                            0 <= w < s && 0 <= y < objects@[w].o2o@.len() && (
                            #[trigger] objects@[w].o2o@[y]).1 == o4 ==> qual_pairs_has(
                                lst@,
                                objects@[w].o2o@[y].0@,
                                w,
                            ),
                        forall|y: int|
                            0 <= y < x && (#[trigger] objects@[s as int].o2o@[y]).1 == o4
                                ==> qual_pairs_has(lst@, objects@[s as int].o2o@[y].0@, s as int),
                    decreases nr - x,
                {
                    if rels[x].1 == o4 {
                        let ghost l0 = lst@;
                        lst.push((rels[x].0.clone(), s));
                        proof {
                            assert(lst@[l0.len() as int].0@ == objects@[s as int].o2o@[x as int].0@);
                            assert(lst@[l0.len() as int].1 == s);
                            assert forall|w: int, y: int|
                                (0 <= w < s && 0 <= y < objects@[w].o2o@.len() && (
                                #[trigger] objects@[w].o2o@[y]).1 == o4) || (w == s && 0 <= y < x
                                    + 1 && objects@[s as int].o2o@[y].1 == o4) implies
                                qual_pairs_has(lst@, objects@[w].o2o@[y].0@, w) by {
                                if w < s || y < x {
                                    if qual_pairs_has(l0, objects@[w].o2o@[y].0@, w) {
                                        let z = choose|z: int|
                                            0 <= z < l0.len() && (#[trigger] l0[z]).0@ == objects@[
                                                w
                                            ].o2o@[y].0@ && l0[z].1 == w;
                                        assert(lst@[z].0@ == objects@[w].o2o@[y].0@ && lst@[z].1
                                            == w);
                                    }
                                } else {
                                    assert(lst@[l0.len() as int].0@ == objects@[w].o2o@[y].0@
                                        && lst@[l0.len() as int].1 == w);
                                }
                            }
                        }
                    }
                    x = x + 1;
                }
                s = s + 1;
            }
            o2o_rev.push(lst);
            o4 = o4 + 1;
        }
        let log = IndexedLog {
            event_types: etypes,
            object_types: otypes,
            events,
            objects,
            events_of_type,
            objects_of_type,
            e2o_rev,
            o2o_rev,
        };
        proof {
            assert(log.types_in_range());
            assert(log.rels_in_range());
            assert(log.events_grouped());
            assert(log.objects_grouped());
            assert(log.e2o_symmetric());
            assert(log.o2o_symmetric());
            assert(log.base_sound());
            assert(log.wf());
            assert forall|w: int| 0 <= w < log.objects@.len() implies ob_matches(
                #[trigger] log.objects@[w],
                input_objects[w],
                log,
            ) by {
            }
            assert forall|w: int| 0 <= w < log.events@.len() implies ev_realized(
                #[trigger] log.events@[w],
                input.events@,
                log,
            ) by {
                assert(input.events@ == input_events);
                assert(input_events.contains(sorted_model[w]));
                let j = choose|j: int|
                    0 <= j < input_events.len() && #[trigger] input_events[j] == sorted_model[w];
                assert(input.events@[j] == input_events[j]);
                assert(ev_matches(log.events@[w], input.events@[j], log));
            }
            // the input is consistent: resolution succeeded for every event
            // (each input event is one of the sorted events) and object
            assert forall|j: int| 0 <= j < input_events.len() implies sorted_model.contains(
                #[trigger] input_events[j],
            ) by {
                assert(input_events.contains(input_events[j]));
                assert(input_events.to_multiset().contains(input_events[j]));
                assert(sorted_model.to_multiset().contains(input_events[j]));
            }
            assert forall|e: int| 0 <= e < input_events.len() implies rel_targets_resolve(
                (#[trigger] input_events[e]).relationships@,
                input_objects,
            ) by {
                assert(sorted_model.contains(input_events[e]));
                let k = choose|k: int|
                    0 <= k < sorted_model.len() && #[trigger] sorted_model[k] == input_events[e];
                assert(rel_targets_resolve(sorted_model[k].relationships@, input_objects));
            }
            assert(event_ids_unique(input.events@));
            assert(object_ids_unique(input.objects@));
            assert(input.events@ == input_events);
            assert(input.objects@ == input_objects);
            assert(input_consistent(&input));
            assert(log.events@.len() == input.events@.len());
            assert(log.objects@.len() == input.objects@.len());
        }
        Ok(log)
    }
}

} // verus!
