use vstd::prelude::*;
use std::collections::HashMap;
use super::{Pattern, PatternEntity, PatternEvent, PatternEventType};
use super::order_relation::{arcs_of, graph_node_count, has_cycle, node_bound, OrderRelation};
use crate::process_layers::parse_layer::{parse_u64, u64_of};

verus! {

broadcast use vstd::std_specs::hash::group_hash_axioms;

#[verifier::external_type_specification]
#[verifier::external_body]
pub struct ExIoError(std::io::Error);

#[verifier::external_type_specification]
#[verifier::external_body]
pub struct ExSerdeJsonError(serde_json::Error);

/// A JSON document, as far as patterns read it: a number keeps its value when it is a
/// non-negative integer that fits in `u64`, and an object keeps its entries in order.
pub enum Json {
    Null,
    Bool(bool),
    Number(Option<u64>),
    Str(String),
    Array(Vec<Json>),
    Object(Vec<(String, Json)>),
}

/// Why a pattern could not be read.
#[derive(Debug)]
pub enum PatternParsingError {
    IoError(std::io::Error),
    SerdeError(serde_json::Error),
    /// The key is missing or its value has an unexpected type.
    KeyError(&'static str),
    TypeError(&'static str),
    NoEventInPattern,
    UnsupportedVersion(String),
    UnknownEventType(String),
    UndefinedEntityId(usize),
    UndefinedEventId(usize),
    InvalidFrequency(u32),
    DependencyCycle,
}

/// The value of the first entry of `entries` under `key`.
pub open spec fn lookup(entries: Seq<(String, Json)>, key: Seq<char>) -> Option<Json>
    decreases entries.len(),
{
    if entries.len() == 0 {
        None
    } else if entries[0].0@ == key {
        Some(entries[0].1)
    } else {
        lookup(entries.drop_first(), key)
    }
}

/// The value under `key` of an object; `None` stands for `null`, also for a missing key or a
/// value that is not an object.
pub open spec fn field(j: Json, key: Seq<char>) -> Option<Json> {
    match j {
        Json::Object(entries) => lookup(entries@, key),
        _ => None,
    }
}

/// The string held by a value.
pub open spec fn as_str_of(j: Option<Json>) -> Option<Seq<char>> {
    match j {
        Some(Json::Str(s)) => Some(s@),
        _ => None,
    }
}

/// The boolean held by a value.
pub open spec fn as_bool_of(j: Option<Json>) -> Option<bool> {
    match j {
        Some(Json::Bool(b)) => Some(b),
        _ => None,
    }
}

/// The unsigned integer held by a value.
pub open spec fn as_u64_of(j: Option<Json>) -> Option<u64> {
    match j {
        Some(Json::Number(Some(v))) => Some(v),
        _ => None,
    }
}

/// The array held by a value.
pub open spec fn as_array_of(j: Option<Json>) -> Option<Seq<Json>> {
    match j {
        Some(Json::Array(v)) => Some(v@),
        _ => None,
    }
}

/// Compares two strings character by character.
pub fn str_eq(a: &str, b: &str) -> (res: bool)
    ensures
        res == (a@ == b@),
{
    let n = a.unicode_len();
    if n != b.unicode_len() {
        return false;
    }
    let mut k: usize = 0;
    while k < n
        invariant
            n == a@.len(),
            n == b@.len(),
            k <= n,
            forall|i: int| 0 <= i < k ==> a@[i] == b@[i],
        decreases n - k,
    {
        if a.get_char(k) != b.get_char(k) {
            return false;
        }
        k += 1;
    }
    assert(a@ =~= b@);
    true
}

impl Json {
    /// The value under `key`, when this is an object that has it.
    pub fn get_field(&self, key: &str) -> (res: Option<&Json>)
        ensures
            match res {
                Some(v) => field(*self, key@) == Some(*v),
                None => field(*self, key@) is None,
            },
    {
        match self {
            Json::Object(entries) => {
                let ghost all = entries@;
                let mut k: usize = 0;
                assert(all.skip(0) =~= all);
                while k < entries.len()
                    invariant
                        all == entries@,
                        field(*self, key@) == lookup(all, key@),
                        k <= all.len(),
                        lookup(all, key@) == lookup(all.skip(k as int), key@),
                    decreases all.len() - k,
                {
                    assert(all.skip(k as int).drop_first() =~= all.skip(k + 1));
                    assert(all.skip(k as int)[0] == all[k as int]);
                    if str_eq(entries[k].0.as_str(), key) {
                        assert(all.skip(k as int).len() > 0);
                        assert(all.skip(k as int)[0].0@ == key@);
                        assert(lookup(all.skip(k as int), key@) == Some(all[k as int].1));
                        return Some(&entries[k].1);
                    }
                    k += 1;
                }
                assert(all.skip(k as int) =~= Seq::<(String, Json)>::empty());
                None
            },
            _ => None,
        }
    }
}

/// The string held by a value.
pub fn as_str(j: Option<&Json>) -> (res: Option<&str>)
    ensures
        match res {
            Some(s) => as_str_of(opt_json(j)) == Some(s@),
            None => as_str_of(opt_json(j)) is None,
        },
{
    match j {
        Some(Json::Str(s)) => Some(s.as_str()),
        _ => None,
    }
}

/// The value behind an optional reference.
pub open spec fn opt_json(j: Option<&Json>) -> Option<Json> {
    match j {
        Some(v) => Some(*v),
        None => None,
    }
}

/// The boolean held by a value.
pub fn as_bool(j: Option<&Json>) -> (res: Option<bool>)
    ensures
        res == as_bool_of(opt_json(j)),
{
    match j {
        Some(Json::Bool(b)) => Some(*b),
        _ => None,
    }
}

/// The unsigned integer held by a value.
pub fn as_u64(j: Option<&Json>) -> (res: Option<u64>)
    ensures
        res == as_u64_of(opt_json(j)),
{
    match j {
        Some(Json::Number(Some(v))) => Some(*v),
        _ => None,
    }
}

/// The array held by a value.
pub fn as_array(j: Option<&Json>) -> (res: Option<&Vec<Json>>)
    ensures
        match res {
            Some(v) => as_array_of(opt_json(j)) == Some(v@),
            None => as_array_of(opt_json(j)) is None,
        },
{
    match j {
        Some(Json::Array(v)) => Some(v),
        _ => None,
    }
}

/// `s` ends with `suffix`.
pub open spec fn ends_with(s: Seq<char>, suffix: Seq<char>) -> bool {
    s.len() >= suffix.len() && s.skip(s.len() - suffix.len()) == suffix
}

/// The names of the node, edge and order-relation files of a pattern given by its path
/// prefix. A prefix ending in `_regex` shares the order relations of the prefix without it.
pub fn get_input_files(input_prefix: &str) -> (res: (String, String, String))
    requires
        input_prefix@.len() + 12 <= usize::MAX,
    ensures
        res.0@ == input_prefix@ + "_node.json"@,
        res.1@ == input_prefix@ + "_edge.json"@,
        ends_with(input_prefix@, "_regex"@) ==> res.2@ == input_prefix@.take(input_prefix@.len() - 6) + "_oRels.json"@,
        !ends_with(input_prefix@, "_regex"@) ==> res.2@ == input_prefix@ + "_oRels.json"@,
{
    let mut node_file = String::from_str(input_prefix);
    node_file.append("_node.json");
    let mut edge_file = String::from_str(input_prefix);
    edge_file.append("_edge.json");
    let suffix = "_regex";
    proof {
        reveal_strlit("_regex");
    }
    let n = input_prefix.unicode_len();
    let is_regex = n >= 6 && str_eq(input_prefix.substring_char(n - 6, n), suffix);
    let orels_file = if is_regex {
        let mut f = String::from_str(input_prefix.substring_char(0, n - 6));
        f.append("_oRels.json");
        f
    } else {
        let mut f = String::from_str(input_prefix);
        f.append("_oRels.json");
        f
    };
    (node_file, edge_file, orels_file)
}

/// What went wrong while reading a pattern, with strings as character sequences.
pub enum PatternFailure {
    KeyError(Seq<char>),
    NoEventInPattern,
    UnsupportedVersion(Seq<char>),
    UnknownEventType(Seq<char>),
    UndefinedEntityId(usize),
    InvalidFrequency(u32),
    DependencyCycle,
}

/// The error `e` reports `f`.
pub open spec fn reports(e: PatternParsingError, f: PatternFailure) -> bool {
    match (e, f) {
        (PatternParsingError::KeyError(k), PatternFailure::KeyError(k2)) => k@ == k2,
        (PatternParsingError::NoEventInPattern, PatternFailure::NoEventInPattern) => true,
        (PatternParsingError::UnsupportedVersion(v), PatternFailure::UnsupportedVersion(v2)) => v@ == v2,
        (PatternParsingError::UnknownEventType(t), PatternFailure::UnknownEventType(t2)) => t@ == t2,
        (PatternParsingError::UndefinedEntityId(i), PatternFailure::UndefinedEntityId(i2)) => i == i2,
        (PatternParsingError::InvalidFrequency(q), PatternFailure::InvalidFrequency(q2)) => q == q2,
        (PatternParsingError::DependencyCycle, PatternFailure::DependencyCycle) => true,
        _ => false,
    }
}

/// The kind of a pattern event: `Type` names it, and `Frequency` gives the number of events
/// of a frequency event, which must be greater than one; without `Type`, a `Frequency` makes
/// it a frequency event.
pub open spec fn event_type_of(j: Json) -> Result<PatternEventType, PatternFailure> {
    let freq = as_u64_of(field(j, "Frequency"@));
    match as_str_of(field(j, "Type"@)) {
        None => match freq {
            Some(f) => if f <= 1 {
                Err(PatternFailure::InvalidFrequency(f as u32))
            } else {
                Ok(PatternEventType::Frequency(f as u32))
            },
            None => Ok(PatternEventType::Default),
        },
        Some(t) => if t == "Default"@ {
            Ok(PatternEventType::Default)
        } else if t == "Frequency"@ {
            match freq {
                None => Err(PatternFailure::KeyError("Frequency"@)),
                Some(f) => if f as u32 <= 1 {
                    Err(PatternFailure::InvalidFrequency(f as u32))
                } else {
                    Ok(PatternEventType::Frequency(f as u32))
                },
            }
        } else if t == "Flow"@ {
            Ok(PatternEventType::Flow)
        } else {
            Err(PatternFailure::UnknownEventType(t))
        },
    }
}

/// Reads the kind of a pattern event.
pub fn parse_event_type(event_json: &Json) -> (res: Result<PatternEventType, PatternParsingError>)
    ensures
        match (res, event_type_of(*event_json)) {
            (Ok(t), Ok(t2)) => t == t2,
            (Err(e), Err(f)) => reports(e, f),
            _ => false,
        },
{
    proof {
        reveal_strlit("Default");
        reveal_strlit("Frequency");
        reveal_strlit("Flow");
        reveal_strlit("Type");
    }
    let event_type = as_str(event_json.get_field("Type"));
    let freq = as_u64(event_json.get_field("Frequency"));
    match event_type {
        None => {
            if let Some(freq) = freq {
                if freq <= 1 {
                    return Err(PatternParsingError::InvalidFrequency(freq as u32));
                }
                Ok(PatternEventType::Frequency(freq as u32))
            } else {
                Ok(PatternEventType::Default)
            }
        },
        Some(t) => {
            if str_eq(t, "Default") {
                Ok(PatternEventType::Default)
            } else if str_eq(t, "Frequency") {
                let freq = match freq {
                    Some(f) => f as u32,
                    None => return Err(PatternParsingError::KeyError("Frequency")),
                };
                if freq <= 1 {
                    return Err(PatternParsingError::InvalidFrequency(freq));
                }
                Ok(PatternEventType::Frequency(freq))
            } else if str_eq(t, "Flow") {
                Ok(PatternEventType::Flow)
            } else {
                Err(PatternParsingError::UnknownEventType(String::from_str(t)))
            }
        },
    }
}

/// The id and signature of an entity.
pub open spec fn entity_of(j: Json) -> Result<(usize, Seq<char>), PatternFailure> {
    match as_u64_of(field(j, "ID"@)) {
        None => Err(PatternFailure::KeyError("ID"@)),
        Some(id) => match as_str_of(field(j, "Signature"@)) {
            None => Err(PatternFailure::KeyError("Signature"@)),
            Some(sig) => Ok((id as usize, sig)),
        },
    }
}

/// The entities of a list, or the failure of the first one that does not read.
pub open spec fn entities_of(js: Seq<Json>) -> Result<Seq<(usize, Seq<char>)>, PatternFailure>
    decreases js.len(),
{
    if js.len() == 0 {
        Ok(Seq::empty())
    } else {
        match entities_of(js.drop_last()) {
            Err(f) => Err(f),
            Ok(prev) => match entity_of(js.last()) {
                Err(f) => Err(f),
                Ok(x) => Ok(prev.push(x)),
            },
        }
    }
}

/// `v` holds the entities `s`.
pub open spec fn entities_match(v: Seq<PatternEntity>, s: Seq<(usize, Seq<char>)>) -> bool {
    &&& v.len() == s.len()
    &&& forall|k: int| 0 <= k < s.len() ==> (#[trigger] v[k]).id == s[k].0 && v[k].signature@ == s[k].1
}

/// Reads the entities of a pattern.
pub fn parse_entities(entities_json: &[Json]) -> (res: Result<Vec<PatternEntity>, PatternParsingError>)
    ensures
        match (res, entities_of(entities_json@)) {
            (Ok(v), Ok(s)) => entities_match(v@, s),
            (Err(e), Err(f)) => reports(e, f),
            _ => false,
        },
{
    proof {
        reveal_strlit("ID");
        reveal_strlit("Signature");
    }
    let ghost js = entities_json@;
    let mut entities: Vec<PatternEntity> = Vec::new();
    let mut k: usize = 0;
    while k < entities_json.len()
        invariant
            js == entities_json@,
            k <= js.len(),
            entities_of(js.take(k as int)) matches Ok(s) && entities_match(entities@, s),
        decreases js.len() - k,
    {
        let entity = &entities_json[k];
        proof {
            assert(js.take(k + 1).drop_last() =~= js.take(k as int));
            assert(js.take(k + 1).last() == *entity);
        }
        let id = match as_u64(entity.get_field("ID")) {
            Some(id) => id as usize,
            None => {
                proof {
                    lemma_entities_error_extends(js, k + 1);
                }
                return Err(PatternParsingError::KeyError("ID"));
            },
        };
        let signature = match as_str(entity.get_field("Signature")) {
            Some(sig) => String::from_str(sig),
            None => {
                proof {
                    lemma_entities_error_extends(js, k + 1);
                }
                return Err(PatternParsingError::KeyError("Signature"));
            },
        };
        entities.push(PatternEntity { id, signature });
        k += 1;
    }
    assert(js.take(js.len() as int) =~= js);
    Ok(entities)
}

/// A failure among the first `k` entities is the failure of the whole list.
proof fn lemma_entities_error_extends(js: Seq<Json>, k: int)
    requires
        0 <= k <= js.len(),
        entities_of(js.take(k)) is Err,
    ensures
        entities_of(js) == entities_of(js.take(k)),
    decreases js.len() - k,
{
    if k < js.len() {
        assert(js.take(k + 1).drop_last() =~= js.take(k));
        lemma_entities_error_extends(js, k + 1);
    } else {
        assert(js.take(k) =~= js);
    }
}

/// Maps each entity id to its position; a later entity with the same id takes precedence.
pub open spec fn id_index_map(ids: Seq<usize>) -> Map<usize, usize>
    decreases ids.len(),
{
    if ids.len() == 0 {
        Map::empty()
    } else {
        id_index_map(ids.drop_last()).insert(ids.last(), (ids.len() - 1) as usize)
    }
}

proof fn lemma_id_index_map_range(ids: Seq<usize>)
    requires
        ids.len() <= usize::MAX,
    ensures
        forall|x: usize| #[trigger] id_index_map(ids).contains_key(x) ==> id_index_map(ids)[x] < ids.len(),
        forall|x: usize| #[trigger] id_index_map(ids).contains_key(x) <==> ids.contains(x),
    decreases ids.len(),
{
    if ids.len() > 0 {
        let prev = ids.drop_last();
        lemma_id_index_map_range(prev);
        let m = id_index_map(ids);
        assert(m == id_index_map(prev).insert(ids.last(), (ids.len() - 1) as usize));
        assert forall|x: usize| #[trigger] m.contains_key(x) implies m[x] < ids.len() by {
            if x != ids.last() {
                assert(id_index_map(prev).contains_key(x));
            }
        }
        assert forall|x: usize| #[trigger] m.contains_key(x) <==> ids.contains(x) by {
            if prev.contains(x) {
                let j = choose|j: int| 0 <= j < prev.len() && prev[j] == x;
                assert(ids[j] == x);
            }
            if ids.contains(x) && x != ids.last() {
                let j = choose|j: int| 0 <= j < ids.len() && ids[j] == x;
                assert(j != ids.len() - 1);
                assert(prev[j] == x);
            }
            if x == ids.last() {
                assert(ids[ids.len() - 1] == x);
            }
        }
    }
}

/// The ids of the entities.
pub open spec fn entity_ids(entities: Seq<PatternEntity>) -> Seq<usize> {
    entities.map_values(|e: PatternEntity| e.id)
}

/// Maps each entity id to its position in `entities`.
pub fn get_entity_id2index(entities: &[PatternEntity]) -> (res: HashMap<usize, usize>)
    ensures
        res@ == id_index_map(entity_ids(entities@)),
{
    let ghost ids = entity_ids(entities@);
    let mut id2index: HashMap<usize, usize> = HashMap::new();
    let mut k: usize = 0;
    while k < entities.len()
        invariant
            ids == entity_ids(entities@),
            k <= entities@.len(),
            id2index@ == id_index_map(ids.take(k as int)),
        decreases entities@.len() - k,
    {
        proof {
            assert(ids.take(k + 1).drop_last() =~= ids.take(k as int));
            assert(ids.take(k + 1).last() == entities@[k as int].id);
        }
        id2index.insert(entities[k].id, k);
        k += 1;
    }
    assert(ids.take(ids.len() as int) =~= ids);
    id2index
}

/// Gives the events the ids `0, 1, ...` by position, and returns the map from their former
/// ids to the new ones.
pub fn reassign_event_id(events: &mut Vec<PatternEvent>) -> (res: HashMap<usize, usize>)
    ensures
        res@ == id_index_map(old(events)@.map_values(|e: PatternEvent| e.id)),
        final(events)@.len() == old(events)@.len(),
        forall|k: int| 0 <= k < old(events)@.len() ==> (#[trigger] final(events)@[k]) == (PatternEvent { id: k as usize, ..old(events)@[k] }),
{
    let ghost ids = old(events)@.map_values(|e: PatternEvent| e.id);
    let ghost orig = old(events)@;
    let mut id2index: HashMap<usize, usize> = HashMap::new();
    let mut k: usize = 0;
    while k < events.len()
        invariant
            orig == old(events)@,
            ids == orig.map_values(|e: PatternEvent| e.id),
            events@.len() == orig.len(),
            k <= orig.len(),
            id2index@ == id_index_map(ids.take(k as int)),
            forall|j: int| 0 <= j < k ==> (#[trigger] events@[j]) == (PatternEvent { id: j as usize, ..orig[j] }),
            forall|j: int| k <= j < orig.len() ==> (#[trigger] events@[j]) == orig[j],
        decreases orig.len() - k,
    {
        proof {
            assert(ids.take(k + 1).drop_last() =~= ids.take(k as int));
            assert(ids.take(k + 1).last() == orig[k as int].id);
        }
        id2index.insert(events[k].id, k);
        events[k].id = k;
        k += 1;
    }
    assert(ids.take(ids.len() as int) =~= ids);
    id2index
}

/// What an event of the pattern reads to: its id, kind, signature, and the positions of its
/// subject and object among the entities.
pub open spec fn event_of(j: Json, id2idx: Map<usize, usize>) -> Result<(usize, PatternEventType, Seq<char>, usize, usize), PatternFailure> {
    match as_u64_of(field(j, "ID"@)) {
        None => Err(PatternFailure::KeyError("ID"@)),
        Some(id) => match event_type_of(j) {
            Err(f) => Err(f),
            Ok(t) => {
                let sig = match as_str_of(field(j, "Signature"@)) {
                    Some(s) => s,
                    None => Seq::empty(),
                };
                match as_u64_of(field(j, "SubjectID"@)) {
                    None => Err(PatternFailure::KeyError("SubjectID"@)),
                    Some(sid) => if !id2idx.contains_key(sid as usize) {
                        Err(PatternFailure::UndefinedEntityId(sid as usize))
                    } else {
                        match as_u64_of(field(j, "ObjectID"@)) {
                            None => Err(PatternFailure::KeyError("ObjectID"@)),
                            Some(oid) => if !id2idx.contains_key(oid as usize) {
                                Err(PatternFailure::UndefinedEntityId(oid as usize))
                            } else {
                                Ok((id as usize, t, sig, id2idx[sid as usize], id2idx[oid as usize]))
                            },
                        }
                    },
                }
            },
        },
    }
}

/// The events of a list, or the failure of the first one that does not read.
pub open spec fn events_of_list(js: Seq<Json>, id2idx: Map<usize, usize>) -> Result<
    Seq<(usize, PatternEventType, Seq<char>, usize, usize)>,
    PatternFailure,
>
    decreases js.len(),
{
    if js.len() == 0 {
        Ok(Seq::empty())
    } else {
        match events_of_list(js.drop_last(), id2idx) {
            Err(f) => Err(f),
            Ok(prev) => match event_of(js.last(), id2idx) {
                Err(f) => Err(f),
                Ok(x) => Ok(prev.push(x)),
            },
        }
    }
}

/// The events of a pattern: there must be at least one.
pub open spec fn events_of(js: Seq<Json>, id2idx: Map<usize, usize>) -> Result<
    Seq<(usize, PatternEventType, Seq<char>, usize, usize)>,
    PatternFailure,
> {
    if js.len() == 0 {
        Err(PatternFailure::NoEventInPattern)
    } else {
        events_of_list(js, id2idx)
    }
}

/// `v` holds the events `s`, with their entities taken from `entities`.
pub open spec fn events_match(
    v: Seq<PatternEvent>,
    s: Seq<(usize, PatternEventType, Seq<char>, usize, usize)>,
    entities: Seq<PatternEntity>,
) -> bool {
    &&& v.len() == s.len()
    &&& forall|k: int|
        0 <= k < s.len() ==> {
            &&& (#[trigger] v[k]).id == s[k].0
            &&& v[k].event_type == s[k].1
            &&& v[k].signature@ == s[k].2
            &&& v[k].subject == entities[s[k].3 as int]
            &&& v[k].object == entities[s[k].4 as int]
        }
}

proof fn lemma_events_error_extends(js: Seq<Json>, id2idx: Map<usize, usize>, k: int)
    requires
        0 <= k <= js.len(),
        events_of_list(js.take(k), id2idx) is Err,
    ensures
        events_of_list(js, id2idx) == events_of_list(js.take(k), id2idx),
    decreases js.len() - k,
{
    if k < js.len() {
        assert(js.take(k + 1).drop_last() =~= js.take(k));
        lemma_events_error_extends(js, id2idx, k + 1);
    } else {
        assert(js.take(k) =~= js);
    }
}

/// Reads the events of a pattern, their entities looked up through `entity_id2idx`.
pub fn parse_events(events_json: &[Json], entity_id2idx: &HashMap<usize, usize>, entities: &[PatternEntity]) -> (res:
    Result<Vec<PatternEvent>, PatternParsingError>)
    requires
        forall|x: usize| #[trigger] entity_id2idx@.contains_key(x) ==> entity_id2idx@[x] < entities@.len(),
    ensures
        match (res, events_of(events_json@, entity_id2idx@)) {
            (Ok(v), Ok(s)) => events_match(v@, s, entities@),
            (Err(e), Err(f)) => reports(e, f),
            _ => false,
        },
{
    proof {
        reveal_strlit("ID");
        reveal_strlit("Signature");
        reveal_strlit("SubjectID");
        reveal_strlit("ObjectID");
    }
    if events_json.len() == 0 {
        return Err(PatternParsingError::NoEventInPattern);
    }
    let ghost js = events_json@;
    let ghost m = entity_id2idx@;
    let mut events: Vec<PatternEvent> = Vec::new();
    let mut k: usize = 0;
    while k < events_json.len()
        invariant
            js == events_json@,
            m == entity_id2idx@,
            js.len() > 0,
            forall|x: usize| #[trigger] m.contains_key(x) ==> m[x] < entities@.len(),
            k <= js.len(),
            events_of_list(js.take(k as int), m) matches Ok(s) && events_match(events@, s, entities@),
        decreases js.len() - k,
    {
        let event = &events_json[k];
        proof {
            assert(js.take(k + 1).drop_last() =~= js.take(k as int));
            assert(js.take(k + 1).last() == *event);
        }
        let id = match as_u64(event.get_field("ID")) {
            Some(id) => id as usize,
            None => {
                proof {
                    lemma_events_error_extends(js, m, k + 1);
                }
                return Err(PatternParsingError::KeyError("ID"));
            },
        };
        let event_type = match parse_event_type(event) {
            Ok(t) => t,
            Err(e) => {
                proof {
                    lemma_events_error_extends(js, m, k + 1);
                }
                return Err(e);
            },
        };
        let signature = match as_str(event.get_field("Signature")) {
            Some(sig) => String::from_str(sig),
            None => String::new(),
        };
        let subject_id = match as_u64(event.get_field("SubjectID")) {
            Some(v) => v as usize,
            None => {
                proof {
                    lemma_events_error_extends(js, m, k + 1);
                }
                return Err(PatternParsingError::KeyError("SubjectID"));
            },
        };
        let subject_idx = match entity_id2idx.get(&subject_id) {
            Some(idx) => *idx,
            None => {
                proof {
                    lemma_events_error_extends(js, m, k + 1);
                }
                return Err(PatternParsingError::UndefinedEntityId(subject_id));
            },
        };
        let object_id = match as_u64(event.get_field("ObjectID")) {
            Some(v) => v as usize,
            None => {
                proof {
                    lemma_events_error_extends(js, m, k + 1);
                }
                return Err(PatternParsingError::KeyError("ObjectID"));
            },
        };
        let object_idx = match entity_id2idx.get(&object_id) {
            Some(idx) => *idx,
            None => {
                proof {
                    lemma_events_error_extends(js, m, k + 1);
                }
                return Err(PatternParsingError::UndefinedEntityId(object_id));
            },
        };
        events.push(
            PatternEvent {
                id,
                event_type,
                signature,
                subject: entities[subject_idx].clone(),
                object: entities[object_idx].clone(),
            },
        );
        k += 1;
    }
    assert(js.take(js.len() as int) =~= js);
    Ok(events)
}

/// The position of event `id` as a node index minus one; `None` when `id` is unknown or the
/// node index would not fit below `u32::MAX`.
pub open spec fn event_node(m: Map<usize, usize>, id: u64) -> Option<u32> {
    if !m.contains_key(id as usize) || m[id as usize] >= u32::MAX - 1 {
        None
    } else {
        Some(m[id as usize] as u32)
    }
}

/// The arcs from the parents `ps` of the event at node `my + 1`: `None` where a parent is
/// unknown, an error where a parent is not an id.
pub open spec fn parent_arcs(ps: Seq<Json>, m: Map<usize, usize>, my: u32) -> Option<Result<Seq<(u32, u32)>, PatternFailure>>
    decreases ps.len(),
{
    if ps.len() == 0 {
        Some(Ok(Seq::empty()))
    } else {
        match parent_arcs(ps.drop_last(), m, my) {
            None => None,
            Some(Err(f)) => Some(Err(f)),
            Some(Ok(es)) => match as_u64_of(Some(ps.last())) {
                None => Some(Err(PatternFailure::KeyError("Parents"@))),
                Some(pid) => match event_node(m, pid) {
                    None => None,
                    Some(pi) => Some(Ok(es.push(((pi + 1) as u32, (my + 1) as u32)))),
                },
            },
        }
    }
}

/// The arcs one event adds: one from each parent, or one from the root when it has none.
pub open spec fn event_arcs(j: Json, m: Map<usize, usize>) -> Option<Result<Seq<(u32, u32)>, PatternFailure>> {
    match as_u64_of(field(j, "ID"@)) {
        None => Some(Err(PatternFailure::KeyError("ID"@))),
        Some(id) => match event_node(m, id) {
            None => None,
            Some(my) => match as_array_of(field(j, "Parents"@)) {
                None => Some(Ok(seq![(0u32, (my + 1) as u32)])),
                Some(ps) => match parent_arcs(ps, m, my) {
                    None => None,
                    Some(Err(f)) => Some(Err(f)),
                    Some(Ok(es)) => if ps.len() == 0 {
                        Some(Ok(seq![(0u32, (my + 1) as u32)]))
                    } else {
                        Some(Ok(es))
                    },
                },
            },
        },
    }
}

/// The arcs of the dependency graph of the events: `None` where a lookup would fail.
pub open spec fn order_arcs(js: Seq<Json>, m: Map<usize, usize>) -> Option<Result<Seq<(u32, u32)>, PatternFailure>>
    decreases js.len(),
{
    if js.len() == 0 {
        Some(Ok(Seq::empty()))
    } else {
        match order_arcs(js.drop_last(), m) {
            None => None,
            Some(Err(f)) => Some(Err(f)),
            Some(Ok(es)) => match event_arcs(js.last(), m) {
                None => None,
                Some(Err(f)) => Some(Err(f)),
                Some(Ok(more)) => Some(Ok(es + more)),
            },
        }
    }
}

/// The dependency graph of the events can be built: every id looked up is known, and there
/// are fewer arcs than `u32::MAX`.
pub open spec fn order_buildable(js: Seq<Json>, m: Map<usize, usize>) -> bool {
    match order_arcs(js, m) {
        None => false,
        Some(Err(_)) => true,
        Some(Ok(es)) => es.len() < u32::MAX,
    }
}

/// Once the first `k` events fail or cannot be looked up, so do all of them.
proof fn lemma_order_extends(js: Seq<Json>, m: Map<usize, usize>, k: int)
    requires
        0 <= k <= js.len(),
        !(order_arcs(js.take(k), m) matches Some(Ok(_))),
    ensures
        order_arcs(js, m) == order_arcs(js.take(k), m),
    decreases js.len() - k,
{
    if k < js.len() {
        assert(js.take(k + 1).drop_last() =~= js.take(k));
        lemma_order_extends(js, m, k + 1);
    } else {
        assert(js.take(k) =~= js);
    }
}

/// Once the first `k` parents fail or cannot be looked up, so do all of them.
proof fn lemma_parents_extends(ps: Seq<Json>, m: Map<usize, usize>, my: u32, k: int)
    requires
        0 <= k <= ps.len(),
        !(parent_arcs(ps.take(k), m, my) matches Some(Ok(_))),
    ensures
        parent_arcs(ps, m, my) == parent_arcs(ps.take(k), m, my),
    decreases ps.len() - k,
{
    if k < ps.len() {
        assert(ps.take(k + 1).drop_last() =~= ps.take(k));
        lemma_parents_extends(ps, m, my, k + 1);
    } else {
        assert(ps.take(k) =~= ps);
    }
}

/// Reads the dependency graph of the events: each event depends on its parents, or on the
/// root when it has none. `None` where an event id is not in `event_id2index`, or where the
/// graph would need more arcs or nodes than its `u32` indices allow.
pub fn parse_order_relation(events: &[Json], event_id2index: &HashMap<usize, usize>) -> (res: Option<
    Result<OrderRelation, PatternParsingError>,
>)
    ensures
        res is None <==> !order_buildable(events@, event_id2index@),
        match (res, order_arcs(events@, event_id2index@)) {
            (Some(Ok(order)), Some(Ok(es))) => order.arcs() == arcs_of(es) && order.distances_ok(),
            (Some(Err(e)), Some(Err(f))) => reports(e, f),
            (None, _) => true,
            _ => false,
        },
{
    proof {
        reveal_strlit("ID");
        reveal_strlit("Parents");
    }
    let ghost js = events@;
    let ghost m = event_id2index@;
    let mut orel_edges: Vec<(u32, u32)> = Vec::new();
    let mut k: usize = 0;
    while k < events.len()
        invariant
            js == events@,
            m == event_id2index@,
            k <= js.len(),
            order_arcs(js.take(k as int), m) == Some(Ok::<Seq<(u32, u32)>, PatternFailure>(orel_edges@)),
        decreases js.len() - k,
    {
        let event = &events[k];
        proof {
            assert(js.take(k + 1).drop_last() =~= js.take(k as int));
            assert(js.take(k + 1).last() == *event);
        }
        let ghost before = orel_edges@;
        let my_id = match as_u64(event.get_field("ID")) {
            Some(v) => v,
            None => {
                proof {
                    lemma_order_extends(js, m, k + 1);
                }
                return Some(Err(PatternParsingError::KeyError("ID")));
            },
        };
        let my_idx: u32 = match event_id2index.get(&(my_id as usize)) {
            Some(idx) => {
                if *idx < 0xFFFF_FFFEusize {
                    *idx as u32
                } else {
                    proof {
                        lemma_order_extends(js, m, k + 1);
                    }
                    return None;
                }
            },
            None => {
                proof {
                    lemma_order_extends(js, m, k + 1);
                }
                return None;
            },
        };
        assert(event_node(m, my_id) == Some(my_idx));
        match as_array(event.get_field("Parents")) {
            Some(parents) => {
                let ghost ps = parents@;
                let mut p: usize = 0;
                proof {
                    assert(ps.take(0) =~= Seq::<Json>::empty());
                    assert(orel_edges@.skip(before.len() as int) =~= Seq::<(u32, u32)>::empty());
                    assert(orel_edges@.take(before.len() as int) =~= before);
                }
                while p < parents.len()
                    invariant
                        ps == parents@,
                        p <= ps.len(),
                        my_idx < u32::MAX - 1,
                        parent_arcs(ps.take(p as int), m, my_idx) == Some(Ok::<Seq<(u32, u32)>, PatternFailure>(orel_edges@.skip(before.len() as int))),
                        orel_edges@.take(before.len() as int) == before,
                        orel_edges@.len() >= before.len(),
                        m == event_id2index@,
                        js == events@,
                        k < js.len(),
                        js[k as int] == *event,
                        order_arcs(js.take(k as int), m) == Some(Ok::<Seq<(u32, u32)>, PatternFailure>(before)),
                        as_u64_of(field(*event, "ID"@)) == Some(my_id),
                        event_node(m, my_id) == Some(my_idx),
                        as_array_of(field(*event, "Parents"@)) == Some(ps),
                    decreases ps.len() - p,
                {
                    proof {
                        assert(ps.take(p + 1).drop_last() =~= ps.take(p as int));
                        assert(ps.take(p + 1).last() == ps[p as int]);
                        assert(js.take(k + 1).drop_last() =~= js.take(k as int));
                        assert(js.take(k + 1).last() == js[k as int]);
                    }
                    let parent_id = match as_u64(Some(&parents[p])) {
                        Some(v) => v,
                        None => {
                            proof {
                                lemma_parents_extends(ps, m, my_idx, p + 1);
                                lemma_order_extends(js, m, k + 1);
                            }
                            return Some(Err(PatternParsingError::KeyError("Parents")));
                        },
                    };
                    let parent_idx: u32 = match event_id2index.get(&(parent_id as usize)) {
                        Some(idx) => {
                            if *idx < 0xFFFF_FFFEusize {
                                *idx as u32
                            } else {
                                proof {
                                    lemma_parents_extends(ps, m, my_idx, p + 1);
                                    lemma_order_extends(js, m, k + 1);
                                }
                                return None;
                            }
                        },
                        None => {
                            proof {
                                lemma_parents_extends(ps, m, my_idx, p + 1);
                                lemma_order_extends(js, m, k + 1);
                            }
                            return None;
                        },
                    };
                    let ghost prev = orel_edges@;
                    orel_edges.push((parent_idx + 1, my_idx + 1));
                    proof {
                        assert(orel_edges@.skip(before.len() as int) =~= prev.skip(before.len() as int).push(((parent_idx + 1) as u32, (my_idx + 1) as u32)));
                        assert(orel_edges@.take(before.len() as int) =~= prev.take(before.len() as int));
                    }
                    p += 1;
                }
                if parents.len() == 0 {
                    orel_edges.push((0, my_idx + 1));
                    proof {
                        assert(orel_edges@ =~= before + seq![(0u32, (my_idx + 1) as u32)]);
                    }
                } else {
                    proof {
                        assert(ps.take(ps.len() as int) =~= ps);
                        assert(orel_edges@ =~= before + orel_edges@.skip(before.len() as int));
                    }
                }
            },
            None => {
                orel_edges.push((0, my_idx + 1));
                proof {
                    assert(orel_edges@ =~= before + seq![(0u32, (my_idx + 1) as u32)]);
                }
            },
        }
        k += 1;
    }
    assert(js.take(js.len() as int) =~= js);
    if orel_edges.len() >= 0xFFFF_FFFFusize {
        return None;
    }
    proof {
        assert forall|i: int| 0 <= i < orel_edges@.len() implies orel_edges@[i].0 < u32::MAX && orel_edges@[i].1 < u32::MAX by {
            lemma_order_arcs_below(js, m, i);
        }
    }
    Some(Ok(OrderRelation::from_arcs(&orel_edges)))
}

/// The arcs of a successful outcome.
pub open spec fn ok_arcs(r: Option<Result<Seq<(u32, u32)>, PatternFailure>>) -> Seq<(u32, u32)> {
    match r {
        Some(Ok(es)) => es,
        _ => Seq::empty(),
    }
}

proof fn lemma_order_arcs_below(js: Seq<Json>, m: Map<usize, usize>, i: int)
    requires
        order_arcs(js, m) matches Some(Ok(es)) && 0 <= i < es.len(),
    ensures
        order_arcs(js, m) matches Some(Ok(es)) && es[i].0 < u32::MAX && es[i].1 < u32::MAX,
    decreases js.len(),
{
    let prev = ok_arcs(order_arcs(js.drop_last(), m));
    if i < prev.len() {
        lemma_order_arcs_below(js.drop_last(), m, i);
    } else {
        let j = js.last();
        let my = event_node(m, as_u64_of(field(j, "ID"@))->0)->0;
        match as_array_of(field(j, "Parents"@)) {
            None => {},
            Some(ps) => {
                if ps.len() > 0 {
                    lemma_parent_arcs_below(ps, m, my, i - prev.len());
                }
            },
        }
    }
}

proof fn lemma_parent_arcs_below(ps: Seq<Json>, m: Map<usize, usize>, my: u32, i: int)
    requires
        my < u32::MAX - 1,
        parent_arcs(ps, m, my) matches Some(Ok(es)) && 0 <= i < es.len(),
    ensures
        parent_arcs(ps, m, my) matches Some(Ok(es)) && es[i].0 < u32::MAX && es[i].1 < u32::MAX,
    decreases ps.len(),
{
    let prev = ok_arcs(parent_arcs(ps.drop_last(), m, my));
    if i < prev.len() {
        lemma_parent_arcs_below(ps.drop_last(), m, my, i);
    }
}

/// Every arc of a successful outcome runs from the root or an event to an event, when the
/// positions in `m` are below `n`.
proof fn lemma_order_arcs_within(js: Seq<Json>, m: Map<usize, usize>, n: nat, i: int)
    requires
        forall|x: usize| #[trigger] m.contains_key(x) ==> m[x] < n,
        order_arcs(js, m) matches Some(Ok(es)) && 0 <= i < es.len(),
    ensures
        order_arcs(js, m) matches Some(Ok(es)) && es[i].0 <= n && 1 <= es[i].1 <= n,
    decreases js.len(),
{
    let prev = ok_arcs(order_arcs(js.drop_last(), m));
    if i < prev.len() {
        lemma_order_arcs_within(js.drop_last(), m, n, i);
    } else {
        let j = js.last();
        let my = event_node(m, as_u64_of(field(j, "ID"@))->0)->0;
        match as_array_of(field(j, "Parents"@)) {
            None => {},
            Some(ps) => {
                if ps.len() > 0 {
                    lemma_parent_arcs_within(ps, m, my, n, i - prev.len());
                }
            },
        }
    }
}

proof fn lemma_parent_arcs_within(ps: Seq<Json>, m: Map<usize, usize>, my: u32, n: nat, i: int)
    requires
        my < n,
        my < u32::MAX - 1,
        forall|x: usize| #[trigger] m.contains_key(x) ==> m[x] < n,
        parent_arcs(ps, m, my) matches Some(Ok(es)) && 0 <= i < es.len(),
    ensures
        parent_arcs(ps, m, my) matches Some(Ok(es)) && es[i].0 <= n && 1 <= es[i].1 <= n,
    decreases ps.len(),
{
    let prev = ok_arcs(parent_arcs(ps.drop_last(), m, my));
    if i < prev.len() {
        lemma_parent_arcs_within(ps.drop_last(), m, my, n, i);
        assert(ok_arcs(parent_arcs(ps, m, my))[i] == prev[i]);
    } else {
        let pid = as_u64_of(Some(ps.last()))->0;
        assert(m.contains_key(pid as usize));
        assert(m[pid as usize] < n);
    }
}

/// The ids of entities as read.
pub open spec fn entity_ids_of(s: Seq<(usize, Seq<char>)>) -> Seq<usize> {
    s.map_values(|e: (usize, Seq<char>)| e.0)
}

/// The ids of events as read.
pub open spec fn event_ids_of(s: Seq<(usize, PatternEventType, Seq<char>, usize, usize)>) -> Seq<usize> {
    s.map_values(|e: (usize, PatternEventType, Seq<char>, usize, usize)| e.0)
}

/// `v` holds the events `s`, numbered `0, 1, ...` by position, with their entities taken
/// from `entities`.
pub open spec fn numbered_events_match(
    v: Seq<PatternEvent>,
    s: Seq<(usize, PatternEventType, Seq<char>, usize, usize)>,
    entities: Seq<PatternEntity>,
) -> bool {
    &&& v.len() == s.len()
    &&& forall|k: int|
        0 <= k < s.len() ==> {
            &&& (#[trigger] v[k]).id == k
            &&& v[k].event_type == s[k].1
            &&& v[k].signature@ == s[k].2
            &&& v[k].subject == entities[s[k].3 as int]
            &&& v[k].object == entities[s[k].4 as int]
        }
}

/// What a pattern document reads to before its order relation: whether it uses regular
/// expressions (by default it does), its entities, the JSON of its events, and its events.
/// Only version `0.2.0` is read.
pub open spec fn stages_of(j: Json) -> Result<
    (bool, Seq<(usize, Seq<char>)>, Seq<Json>, Seq<(usize, PatternEventType, Seq<char>, usize, usize)>),
    PatternFailure,
> {
    match as_str_of(field(j, "Version"@)) {
        None => Err(PatternFailure::KeyError("Version"@)),
        Some(v) => if v != "0.2.0"@ {
            Err(PatternFailure::UnsupportedVersion(v))
        } else {
            let use_regex = match as_bool_of(field(j, "UseRegex"@)) {
                Some(b) => b,
                None => true,
            };
            match as_array_of(field(j, "Entities"@)) {
                None => Err(PatternFailure::KeyError("Entities"@)),
                Some(ejs) => match entities_of(ejs) {
                    Err(f) => Err(f),
                    Ok(ents) => match as_array_of(field(j, "Events"@)) {
                        None => Err(PatternFailure::KeyError("Events"@)),
                        Some(evjs) => match events_of(evjs, id_index_map(entity_ids_of(ents))) {
                            Err(f) => Err(f),
                            Ok(evs) => Ok((use_regex, ents, evjs, evs)),
                        },
                    },
                },
            }
        },
    }
}

/// The order relation of a document can be built (see `order_buildable`) once the rest of it
/// has been read; a document that fails before is readable too.
pub open spec fn pattern_readable(j: Json) -> bool {
    match stages_of(j) {
        Err(_) => true,
        Ok((_, _, evjs, evs)) => order_buildable(evjs, id_index_map(event_ids_of(evs))),
    }
}

/// Reads a pattern document up to its order relation: returns whether it uses regular
/// expressions, its entities, its events numbered by position, the map from the events'
/// former ids to their positions, and the JSON of the events.
fn read_stages<'a>(json_obj: &'a Json) -> (res: Result<
    (bool, Vec<PatternEntity>, Vec<PatternEvent>, HashMap<usize, usize>, &'a Vec<Json>),
    PatternParsingError,
>)
    ensures
        match (res, stages_of(*json_obj)) {
            (Ok((use_regex, entities, events, m, evjs)), Ok((u, ents, ejs, evs))) => {
                &&& use_regex == u
                &&& entities_match(entities@, ents)
                &&& evjs@ == ejs
                &&& numbered_events_match(events@, evs, entities@)
                &&& m@ == id_index_map(event_ids_of(evs))
            },
            (Err(e), Err(f)) => reports(e, f),
            _ => false,
        },
{
    proof {
        reveal_strlit("Version");
        reveal_strlit("UseRegex");
        reveal_strlit("Entities");
        reveal_strlit("Events");
    }
    let version = match as_str(json_obj.get_field("Version")) {
        Some(v) => v,
        None => {
            return Err(PatternParsingError::KeyError("Version"));
        },
    };
    if !str_eq(version, "0.2.0") {
        return Err(PatternParsingError::UnsupportedVersion(String::from_str(version)));
    }
    let use_regex = match as_bool(json_obj.get_field("UseRegex")) {
        Some(b) => b,
        None => true,
    };
    let entities_json = match as_array(json_obj.get_field("Entities")) {
        Some(v) => v,
        None => {
            return Err(PatternParsingError::KeyError("Entities"));
        },
    };
    let entities = match parse_entities(entities_json.as_slice()) {
        Ok(v) => v,
        Err(e) => {
            return Err(e);
        },
    };
    let ghost ents = entities_of(entities_json@)->Ok_0;
    let entity_id2index = get_entity_id2index(entities.as_slice());
    proof {
        assert(entity_ids(entities@) =~= entity_ids_of(ents));
        assert(entity_ids(entities@).len() == entities.len());
        lemma_id_index_map_range(entity_ids(entities@));
    }
    let events_json = match as_array(json_obj.get_field("Events")) {
        Some(v) => v,
        None => {
            return Err(PatternParsingError::KeyError("Events"));
        },
    };
    let mut events = match parse_events(events_json.as_slice(), &entity_id2index, entities.as_slice()) {
        Ok(v) => v,
        Err(e) => {
            return Err(e);
        },
    };
    let ghost evs = events_of(events_json@, entity_id2index@)->Ok_0;
    let ghost read = events@;
    proof {
        assert(read.map_values(|e: PatternEvent| e.id) =~= event_ids_of(evs));
    }
    let event_id2index = reassign_event_id(&mut events);
    proof {
        assert(events@.len() == events.len());
        assert forall|k: int| 0 <= k < evs.len() implies {
            &&& (#[trigger] events@[k]).id == k
            &&& events@[k].event_type == evs[k].1
            &&& events@[k].signature@ == evs[k].2
            &&& events@[k].subject == entities@[evs[k].3 as int]
            &&& events@[k].object == entities@[evs[k].4 as int]
        } by {
            assert(events@[k] == (PatternEvent { id: k as usize, ..read[k] }));
            assert(read[k].event_type == evs[k].1);
        }
    }
    Ok((use_regex, entities, events, event_id2index, events_json))
}

/// Reads a pattern document. The events are numbered `0, 1, ...` by position and the order
/// relation speaks of these numbers; a pattern whose dependency graph has a cycle is refused.
pub fn parse_json(json_obj: &Json) -> (res: Result<Pattern, PatternParsingError>)
    requires
        pattern_readable(*json_obj),
    ensures
        match stages_of(*json_obj) {
            Err(f) => res matches Err(e) && reports(e, f),
            Ok((use_regex, ents, evjs, evs)) => match order_arcs(evjs, id_index_map(event_ids_of(evs))) {
                Some(Err(f)) => res matches Err(e) && reports(e, f),
                Some(Ok(es)) => if has_cycle(arcs_of(es)) {
                    res matches Err(e) && e is DependencyCycle
                } else {
                    res matches Ok(p) && {
                        &&& p.use_regex == use_regex
                        &&& entities_match(p.entities@, ents)
                        &&& numbered_events_match(p.events@, evs, p.entities@)
                        &&& p.order.arcs() == arcs_of(es)
                    }
                },
                None => false,
            },
        },
        res matches Ok(p) ==> (p.events@.len() + 2 < u32::MAX ==> p.well_formed()),
{
    let (use_regex, entities, events, event_id2index, events_json) = match read_stages(json_obj) {
        Ok(x) => x,
        Err(e) => {
            return Err(e);
        },
    };
    let ghost evs = stages_of(*json_obj)->Ok_0.3;
    let order = match parse_order_relation(events_json.as_slice(), &event_id2index) {
        Some(Ok(o)) => o,
        Some(Err(e)) => {
            return Err(e);
        },
        None => {
            proof {
                assert(false);
            }
            return Err(PatternParsingError::DependencyCycle);
        },
    };
    if !order.is_valid() {
        return Err(PatternParsingError::DependencyCycle);
    }
    proof {
        let n = events@.len();
        let m = event_id2index@;
        assert(event_ids_of(evs).len() == events.len());
        lemma_id_index_map_range(event_ids_of(evs));
        let es = order_arcs(events_json@, m)->Some_0->Ok_0;
        assert forall|k: int| #![trigger order.arcs()[k]] 0 <= k < order.arcs().len() implies 0 <= order.arcs()[k].0
            <= n && 1 <= order.arcs()[k].1 <= n by {
            lemma_order_arcs_within(events_json@, m, n, k);
        }
    }
    Ok(Pattern { use_regex, entities, events, order })
}

/// Whether `parse_json` can read the document: false only where its order relation names an
/// event id that no event has, or would be too large.
pub fn can_read_pattern(json_obj: &Json) -> (res: bool)
    ensures
        res == pattern_readable(*json_obj),
{
    match read_stages(json_obj) {
        Err(_) => true,
        Ok((_, _, _, event_id2index, events_json)) => parse_order_relation(events_json.as_slice(), &event_id2index).is_some(),
    }
}

/// The node of a key of an order-relation file: `"root"` is node 0 and event `k` is node
/// `k + 1`; `None` when the key is neither `"root"` nor a `u32`.
pub open spec fn orels_node(key: Seq<char>) -> Option<int> {
    if key == "root"@ {
        Some(0)
    } else {
        match u64_of(key) {
            Some(v) => if v <= u32::MAX {
                Some(v + 1)
            } else {
                None
            },
            None => None,
        }
    }
}

/// The arcs from node `from` to each child `c`, whose node is `c + 1` cut to `u32`; `None`
/// when a child is not an unsigned integer.
pub open spec fn child_arcs(children: Seq<Json>, from: u32) -> Option<Seq<(u32, u32)>>
    decreases children.len(),
{
    if children.len() == 0 {
        Some(Seq::empty())
    } else {
        match child_arcs(children.drop_last(), from) {
            None => None,
            Some(es) => match as_u64_of(Some(children.last())) {
                None => None,
                Some(c) => Some(es.push((from, (c + 1) as u32))),
            },
        }
    }
}

/// The arcs of one entry of an order-relation file: from the node of its key to each of its
/// `"children"`.
pub open spec fn entry_arcs(entry: (String, Json)) -> Option<Seq<(u32, u32)>> {
    match as_array_of(field(entry.1, "children"@)) {
        None => None,
        Some(cs) => match orels_node(entry.0@) {
            None => None,
            Some(from) => child_arcs(cs, from as u32),
        },
    }
}

/// The arcs of the entries, in order; `None` when one of them cannot be read.
pub open spec fn entries_arcs(entries: Seq<(String, Json)>) -> Option<Seq<(u32, u32)>>
    decreases entries.len(),
{
    if entries.len() == 0 {
        Some(Seq::empty())
    } else {
        match entries_arcs(entries.drop_last()) {
            None => None,
            Some(es) => match entry_arcs(entries.last()) {
                None => None,
                Some(more) => Some(es + more),
            },
        }
    }
}

/// The arcs of the order relation an order-relation file describes: the document is an
/// object whose keys are `"root"` or event ids and whose values list their `"children"`.
pub open spec fn orels_arcs(j: Json) -> Option<Seq<(u32, u32)>> {
    match j {
        Json::Object(entries) => entries_arcs(entries@),
        _ => None,
    }
}

/// No child read before the first one that is not an unsigned integer is `u64::MAX`.
pub open spec fn children_fit(children: Seq<Json>, from: u32) -> bool
    decreases children.len(),
{
    if children.len() == 0 {
        true
    } else {
        &&& children_fit(children.drop_last(), from)
        &&& child_arcs(children.drop_last(), from) is Some ==> as_u64_of(Some(children.last())) != Some(u64::MAX)
    }
}

/// Reading one entry stays within its integer types: an event key is not `u32::MAX`, and
/// no child is `u64::MAX`.
pub open spec fn entry_fits(entry: (String, Json)) -> bool {
    match as_array_of(field(entry.1, "children"@)) {
        None => true,
        Some(cs) => match orels_node(entry.0@) {
            None => true,
            Some(from) => from <= u32::MAX && children_fit(cs, from as u32),
        },
    }
}

/// Every entry read, up to the first that cannot be read, fits its integer types.
pub open spec fn entries_fit(entries: Seq<(String, Json)>) -> bool
    decreases entries.len(),
{
    if entries.len() == 0 {
        true
    } else {
        &&& entries_fit(entries.drop_last())
        &&& entries_arcs(entries.drop_last()) is Some ==> entry_fits(entries.last())
    }
}

/// Reading the entries of `j` stays within its integer types.
pub open spec fn orels_steps_fit(j: Json) -> bool {
    match j {
        Json::Object(entries) => entries_fit(entries@),
        _ => true,
    }
}

/// An order-relation file can be read and built into a graph: reading stays within its
/// integer types, and the arcs read are fewer than `u32::MAX` and name nodes below it.
pub open spec fn orels_fit(j: Json) -> bool {
    &&& orels_steps_fit(j)
    &&& orels_arcs(j) matches Some(es) ==> {
        &&& es.len() < u32::MAX
        &&& forall|i: int| 0 <= i < es.len() ==> #[trigger] es[i].0 < u32::MAX && es[i].1 < u32::MAX
    }
}

/// Once the first `i` children cannot be read, or do not fit, neither do all of them.
proof fn lemma_children_settle(cs: Seq<Json>, from: u32, i: int)
    requires
        0 <= i <= cs.len(),
        child_arcs(cs.take(i), from) is None || !children_fit(cs.take(i), from),
    ensures
        child_arcs(cs.take(i), from) is None ==> child_arcs(cs, from) is None,
        children_fit(cs, from) == children_fit(cs.take(i), from),
    decreases cs.len() - i,
{
    if i < cs.len() {
        assert(cs.take(i + 1).drop_last() =~= cs.take(i));
        lemma_children_settle(cs, from, i + 1);
    } else {
        assert(cs.take(i) =~= cs);
    }
}

/// Once the first `i` entries cannot be read, or do not fit, neither do all of them.
proof fn lemma_entries_settle(es: Seq<(String, Json)>, i: int)
    requires
        0 <= i <= es.len(),
        entries_arcs(es.take(i)) is None || !entries_fit(es.take(i)),
    ensures
        entries_arcs(es.take(i)) is None ==> entries_arcs(es) is None,
        entries_fit(es) == entries_fit(es.take(i)),
    decreases es.len() - i,
{
    if i < es.len() {
        assert(es.take(i + 1).drop_last() =~= es.take(i));
        lemma_entries_settle(es, i + 1);
    } else {
        assert(es.take(i) =~= es);
    }
}

/// Reads the arcs of an order-relation file; the flag is false where reading would leave
/// the integer types, and the arcs are then not given.
fn orels_edges(json: &Json) -> (res: (Option<Vec<(u32, u32)>>, bool))
    ensures
        res.1 == orels_steps_fit(*json),
        res.1 ==> match (res.0, orels_arcs(*json)) {
            (Some(v), Some(es)) => v@ == es,
            (None, None) => true,
            _ => false,
        },
{
    proof {
        reveal_strlit("children");
        reveal_strlit("root");
    }
    let entries = match json {
        Json::Object(entries) => entries,
        _ => {
            return (None, true);
        },
    };
    let ghost es = entries@;
    let mut edges: Vec<(u32, u32)> = Vec::new();
    let mut k: usize = 0;
    assert(es.take(0) =~= Seq::<(String, Json)>::empty());
    while k < entries.len()
        invariant
            es == entries@,
            k <= es.len(),
            orels_arcs(*json) == entries_arcs(es),
            orels_steps_fit(*json) == entries_fit(es),
            entries_arcs(es.take(k as int)) == Some(edges@),
            entries_fit(es.take(k as int)),
        decreases es.len() - k,
    {
        let entry = &entries[k];
        proof {
            assert(es.take(k + 1).drop_last() =~= es.take(k as int));
            assert(es.take(k + 1).last() == *entry);
        }
        let children = match as_array(entry.1.get_field("children")) {
            Some(cs) => cs,
            None => {
                proof {
                    lemma_entries_settle(es, k + 1);
                }
                return (None, true);
            },
        };
        let key = entry.0.as_str();
        let from: u32 = if str_eq(key, "root") {
            0
        } else {
            match parse_u64(key) {
                Some(v) => {
                    if v < 0xFFFF_FFFFu64 {
                        (v + 1) as u32
                    } else if v == 0xFFFF_FFFFu64 {
                        proof {
                            lemma_entries_settle(es, k + 1);
                        }
                        return (None, false);
                    } else {
                        proof {
                            lemma_entries_settle(es, k + 1);
                        }
                        return (None, true);
                    }
                },
                None => {
                    proof {
                        lemma_entries_settle(es, k + 1);
                    }
                    return (None, true);
                },
            }
        };
        assert(orels_node(entry.0@) == Some(from as int));
        let ghost cs = children@;
        let ghost before = edges@;
        let mut c: usize = 0;
        proof {
            assert(cs.take(0) =~= Seq::<Json>::empty());
            assert(edges@.skip(before.len() as int) =~= Seq::<(u32, u32)>::empty());
            assert(edges@.take(before.len() as int) =~= before);
        }
        while c < children.len()
            invariant
                cs == children@,
                c <= cs.len(),
                es == entries@,
                k < es.len(),
                es[k as int] == *entry,
                es.take(k + 1).drop_last() == es.take(k as int),
                es.take(k + 1).last() == *entry,
                orels_arcs(*json) == entries_arcs(es),
                orels_steps_fit(*json) == entries_fit(es),
                entries_arcs(es.take(k as int)) == Some(before),
                entries_fit(es.take(k as int)),
                as_array_of(field(entry.1, "children"@)) == Some(cs),
                orels_node(entry.0@) == Some(from as int),
                child_arcs(cs.take(c as int), from) == Some(edges@.skip(before.len() as int)),
                children_fit(cs.take(c as int), from),
                edges@.take(before.len() as int) == before,
                edges@.len() >= before.len(),
            decreases cs.len() - c,
        {
            proof {
                assert(cs.take(c + 1).drop_last() =~= cs.take(c as int));
                assert(cs.take(c + 1).last() == cs[c as int]);
            }
            let child = match as_u64(Some(&children[c])) {
                Some(v) => v,
                None => {
                    proof {
                        lemma_children_settle(cs, from, c + 1);
                        lemma_entries_settle(es, k + 1);
                    }
                    return (None, true);
                },
            };
            if child == 0xFFFF_FFFF_FFFF_FFFFu64 {
                proof {
                    lemma_children_settle(cs, from, c + 1);
                    lemma_entries_settle(es, k + 1);
                }
                return (None, false);
            }
            let ghost prev = edges@;
            let target = (child + 1) as u32;
            assert(target == (child + 1) as u32);
            edges.push((from, target));
            proof {
                assert(edges@.skip(before.len() as int) =~= prev.skip(before.len() as int).push((from, target)));
                assert(edges@.take(before.len() as int) =~= prev.take(before.len() as int));
            }
            c += 1;
        }
        proof {
            assert(cs.take(cs.len() as int) =~= cs);
            assert(edges@ =~= before + edges@.skip(before.len() as int));
        }
        k += 1;
    }
    assert(es.take(es.len() as int) =~= es);
    (Some(edges), true)
}

/// Whether `OrderRelation::from_orels_json` can read the document without leaving its
/// integer types or the graph's indices.
pub fn can_read_orels(json: &Json) -> (res: bool)
    ensures
        res == orels_fit(*json),
{
    let (edges, ok) = orels_edges(json);
    if !ok {
        return false;
    }
    match edges {
        None => true,
        Some(es) => {
            if es.len() >= 0xFFFF_FFFFusize {
                return false;
            }
            let mut i: usize = 0;
            while i < es.len()
                invariant
                    i <= es@.len(),
                    es@.len() < u32::MAX,
                    orels_steps_fit(*json),
                    orels_arcs(*json) == Some(es@),
                    forall|k: int| 0 <= k < i ==> (#[trigger] es@[k]).0 < u32::MAX && es@[k].1 < u32::MAX,
                decreases es@.len() - i,
            {
                if es[i].0 == 0xFFFF_FFFFu32 || es[i].1 == 0xFFFF_FFFFu32 {
                    assert(!(es@[i as int].0 < u32::MAX && es@[i as int].1 < u32::MAX));
                    return false;
                }
                assert(es@[i as int].0 < u32::MAX && es@[i as int].1 < u32::MAX);
                i += 1;
            }
            true
        },
    }
}

impl OrderRelation {
    /// Builds the order relation an order-relation file describes: `None` when the document
    /// is not an object, a value has no `"children"` array, a key is neither `"root"` nor a
    /// `u32`, or a child is not an unsigned integer.
    pub fn from_orels_json(json: &Json) -> (res: Option<OrderRelation>)
        requires
            orels_fit(*json),
        ensures
            res is Some <==> orels_arcs(*json) is Some,
            res matches Some(r) ==> {
                &&& r.arcs() == arcs_of(orels_arcs(*json)->0)
                &&& r.distances_ok()
                &&& graph_node_count(r.graph) == node_bound(r.arcs())
            },
    {
        let (edges, _) = orels_edges(json);
        match edges {
            None => None,
            Some(es) => Some(OrderRelation::from_arcs(es.as_slice())),
        }
    }
}

} // verus!
