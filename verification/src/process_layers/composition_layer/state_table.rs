use vstd::prelude::*;
use vstd::std_specs::iter::IteratorSpec;
use std::collections::HashMap;
use crate::pattern::{PatternEvent, PatternEventType, SubPattern};
use crate::process_layers::composition_layer::entity_encode::{lemma_codes_read_endpoints, EntityEncode};
use crate::process_layers::composition_layer::filter::FilterInfo;
use crate::process_layers::composition_layer::pattern_info::{shared_node_info_of, SharedNodeInfo};
use crate::process_layers::composition_layer::state::StateInfo;
use crate::process_layers::matching_layer::matching::decomposition_events;

verus! {

broadcast use vstd::std_specs::hash::group_hash_axioms, vstd::std_specs::slice::axiom_spec_slice_iter;

/// Where the pattern entity `id` was last seen among the first `k` events of `evs`: the
/// object of an event takes precedence over its subject.
pub open spec fn entity_code(evs: Seq<&PatternEvent>, k: int, id: usize) -> Option<EntityEncode>
    decreases k,
{
    if k <= 0 {
        None
    } else if evs[k - 1].object.id == id {
        Some(EntityEncode::object_code((k - 1) as nat))
    } else if evs[k - 1].subject.id == id {
        Some(EntityEncode::subject_code((k - 1) as nat))
    } else {
        entity_code(evs, k - 1, id)
    }
}

/// The filter of the state that waits for the `k`-th event of a sub-pattern: the entities it
/// shares with the events before it.
pub open spec fn filter_info_of(evs: Seq<&PatternEvent>, k: int, match_idx: usize) -> FilterInfo {
    match (entity_code(evs, k, evs[k].subject.id), entity_code(evs, k, evs[k].object.id)) {
        (None, None) => FilterInfo::MatchIdxOnly { match_idx },
        (None, Some(object)) => FilterInfo::Object { match_idx, object },
        (Some(subject), None) => FilterInfo::Subject { match_idx, subject },
        (Some(subject), Some(object)) => FilterInfo::Endpoints { match_idx, subject, object },
    }
}

/// The rows that the `k`-th event of a sub-pattern adds to a table of `t` rows.
pub open spec fn event_rows(evs: Seq<&PatternEvent>, k: int, t: int, match_idx: usize) -> Seq<
    (StateInfo, FilterInfo),
> {
    let filter_info = filter_info_of(evs, k, match_idx);
    match evs[k].event_type {
        PatternEventType::Frequency(frequency) => seq![
            (StateInfo::InitFreq { next_state: (t + 1) as u32 }, filter_info),
            (
                StateInfo::AggFreq { next_state: (t + 2) as u32, frequency },
                FilterInfo::Endpoints {
                    match_idx,
                    subject: EntityEncode::subject_code(k as nat),
                    object: EntityEncode::object_code(k as nat),
                },
            ),
        ],
        _ => seq![(StateInfo::Default { next_state: (t + 1) as u32 }, filter_info)],
    }
}

/// The rows of the first `k` events of a sub-pattern, placed after `t0` rows, with the first
/// event at match index `m0`.
pub open spec fn sub_pattern_rows(evs: Seq<&PatternEvent>, k: int, t0: int, m0: int) -> Seq<
    (StateInfo, FilterInfo),
>
    decreases k,
{
    if k <= 0 {
        Seq::empty()
    } else {
        let prev = sub_pattern_rows(evs, k - 1, t0, m0);
        prev + event_rows(evs, k - 1, t0 + prev.len(), (m0 + k - 1) as usize)
    }
}

/// The number of events in the sub-patterns.
pub open spec fn event_count(sps: Seq<SubPattern>) -> nat
    decreases sps.len(),
{
    if sps.len() == 0 {
        0
    } else {
        event_count(sps.drop_last()) + sps.last().events@.len()
    }
}

/// The state table of a decomposition: for each sub-pattern, the states of its events in
/// order, then an output state.
pub open spec fn state_rows(sps: Seq<SubPattern>) -> Seq<(StateInfo, FilterInfo)>
    decreases sps.len(),
{
    if sps.len() == 0 {
        Seq::empty()
    } else {
        let prev = state_rows(sps.drop_last());
        let sp = sps.last();
        prev + sub_pattern_rows(
            sp.events@,
            sp.events@.len() as int,
            prev.len() as int,
            event_count(sps.drop_last()) as int,
        ) + seq![(StateInfo::Output { subpattern_id: sp.id as u32 }, FilterInfo::NoFilter)]
    }
}

/// The shared endpoints of the first `n` events of a sub-pattern whose first event has match
/// index `m0`.
pub open spec fn sub_pattern_shared_infos(evs: Seq<&PatternEvent>, n: int, m0: int) -> Seq<
    SharedNodeInfo,
> {
    Seq::new(n as nat, |k: int| shared_node_info_of(filter_info_of(evs, k, (m0 + k) as usize)))
}

/// The shared endpoints of every event of a decomposition, by match index.
pub open spec fn shared_infos(sps: Seq<SubPattern>) -> Seq<SharedNodeInfo>
    decreases sps.len(),
{
    if sps.len() == 0 {
        Seq::empty()
    } else {
        shared_infos(sps.drop_last()) + sub_pattern_shared_infos(
            sps.last().events@,
            sps.last().events@.len() as int,
            event_count(sps.drop_last()) as int,
        )
    }
}

proof fn lemma_event_count_prefix(sps: Seq<SubPattern>, i: int)
    requires
        0 <= i < sps.len(),
    ensures
        event_count(sps.subrange(0, i)) + sps[i].events@.len() <= event_count(sps),
    decreases sps.len(),
{
    if i < sps.len() - 1 {
        lemma_event_count_prefix(sps.drop_last(), i);
        assert(sps.drop_last().subrange(0, i) =~= sps.subrange(0, i));
    } else {
        assert(sps.drop_last() =~= sps.subrange(0, i));
    }
}

proof fn lemma_sub_pattern_rows_len(evs: Seq<&PatternEvent>, k: int, t0: int, m0: int)
    requires
        0 <= k,
    ensures
        sub_pattern_rows(evs, k, t0, m0).len() <= 2 * k,
    decreases k,
{
    if k > 0 {
        lemma_sub_pattern_rows_len(evs, k - 1, t0, m0);
    }
}

proof fn lemma_state_rows_len(sps: Seq<SubPattern>)
    ensures
        state_rows(sps).len() <= 2 * event_count(sps) + sps.len(),
    decreases sps.len(),
{
    if sps.len() > 0 {
        lemma_state_rows_len(sps.drop_last());
        let prev = state_rows(sps.drop_last());
        let sp = sps.last();
        lemma_sub_pattern_rows_len(
            sp.events@,
            sp.events@.len() as int,
            prev.len() as int,
            event_count(sps.drop_last()) as int,
        );
    }
}

/// The match index the filter of a state carries, if any.
pub open spec fn filter_match_idx(f: FilterInfo) -> Option<usize> {
    match f {
        FilterInfo::NoFilter => None,
        FilterInfo::MatchIdxOnly { match_idx } => Some(match_idx),
        FilterInfo::Subject { match_idx, .. } => Some(match_idx),
        FilterInfo::Object { match_idx, .. } => Some(match_idx),
        FilterInfo::Endpoints { match_idx, .. } => Some(match_idx),
    }
}

/// `info` is the first state of a pattern event of type `t`: an `InitFreq` state for a
/// frequency event, a `Default` one otherwise.
pub open spec fn entry_state_for(info: StateInfo, t: PatternEventType) -> bool {
    match t {
        PatternEventType::Frequency(_) => info is InitFreq,
        _ => info is Default,
    }
}

/// The states of `rows` wait for the pattern events `evs` in order: every state but an output
/// state carries the match index of an event of `evs`, the match indices never go back along
/// the rows, and each event of `evs` has a first state of its type carrying its index, the
/// same index the matching layer gives that event.
pub open spec fn follows_events(rows: Seq<(StateInfo, FilterInfo)>, evs: Seq<&PatternEvent>) -> bool {
    &&& forall|s: int| 0 <= s < rows.len() && !(#[trigger] rows[s].0 is Output) ==> (filter_match_idx(rows[s].1) matches Some(
        m,
    ) && m < evs.len())
    &&& forall|s: int| 0 <= s < rows.len() && (#[trigger] rows[s].0 is Output) ==> rows[s].1 == FilterInfo::NoFilter
    &&& forall|s: int, t: int|
        0 <= s < t < rows.len() && !(#[trigger] rows[s].0 is Output) && !(#[trigger] rows[t].0 is Output) ==> filter_match_idx(
            rows[s].1,
        )->0 <= filter_match_idx(rows[t].1)->0
    &&& forall|k: int| #![trigger evs[k]] 0 <= k < evs.len() ==> exists|s: int|
        0 <= s < rows.len() && #[trigger] filter_match_idx(rows[s].1) == Some(k as usize) && entry_state_for(
            rows[s].0,
            evs[k].event_type,
        )
}

/// An earlier event of `evs` (before the `k`-th) has the entity `id` as subject or object.
pub open spec fn seen_before(evs: Seq<&PatternEvent>, k: int, id: usize) -> bool {
    exists|j: int| 0 <= j < k && (evs[j].subject.id == id || evs[j].object.id == id)
}

/// `c` points at an event before the `k`-th of `evs` whose endpoint, in the role `c` names, is
/// the entity `id`.
pub open spec fn points_at(evs: Seq<&PatternEvent>, k: int, c: EntityEncode, id: usize) -> bool {
    &&& c.index_of() < k
    &&& if c.names_object() {
        evs[c.index_of() as int].object.id == id
    } else {
        evs[c.index_of() as int].subject.id == id
    }
}

proof fn lemma_entity_code(evs: Seq<&PatternEvent>, k: int, id: usize)
    requires
        0 <= k <= evs.len(),
        k <= 0x8000_0000,
    ensures
        entity_code(evs, k, id) is None <==> !seen_before(evs, k, id),
        entity_code(evs, k, id) matches Some(c) ==> points_at(evs, k, c, id),
    decreases k,
{
    if k > 0 {
        lemma_entity_code(evs, k - 1, id);
        lemma_codes_read_endpoints((k - 1) as nat, (0, 1));
        if seen_before(evs, k - 1, id) {
            let j = choose|j: int| 0 <= j < k - 1 && (evs[j].subject.id == id || evs[j].object.id == id);
            assert(0 <= j < k);
        }
        if evs[k - 1].object.id == id || evs[k - 1].subject.id == id {
            assert(seen_before(evs, k, id));
        }
        if seen_before(evs, k, id) && !(evs[k - 1].object.id == id || evs[k - 1].subject.id == id) {
            let j = choose|j: int| 0 <= j < k && (evs[j].subject.id == id || evs[j].object.id == id);
            assert(j < k - 1);
            assert(seen_before(evs, k - 1, id));
        }
        let c = EntityEncode::object_code((k - 1) as nat);
        assert(c.index_of() == k - 1);
    }
}

/// The filter of the state waiting for the `k`-th event of a sub-pattern shares exactly the
/// endpoints of that event that an earlier event of the sub-pattern has, and reads each from
/// an earlier event that holds it in the role the code names.
pub proof fn lemma_filter_shares_earlier(evs: Seq<&PatternEvent>, k: int, match_idx: usize)
    requires
        0 <= k < evs.len(),
        k < 0x8000_0000,
    ensures
        filter_match_idx(filter_info_of(evs, k, match_idx)) == Some(match_idx),
        (filter_info_of(evs, k, match_idx) is Subject || filter_info_of(evs, k, match_idx) is Endpoints) <==> seen_before(
            evs,
            k,
            evs[k].subject.id,
        ),
        (filter_info_of(evs, k, match_idx) is Object || filter_info_of(evs, k, match_idx) is Endpoints) <==> seen_before(
            evs,
            k,
            evs[k].object.id,
        ),
        filter_info_of(evs, k, match_idx) matches FilterInfo::Subject { subject, .. } ==> points_at(evs, k, subject, evs[k].subject.id),
        filter_info_of(evs, k, match_idx) matches FilterInfo::Object { object, .. } ==> points_at(evs, k, object, evs[k].object.id),
        filter_info_of(evs, k, match_idx) matches FilterInfo::Endpoints { subject, object, .. } ==> points_at(
            evs,
            k,
            subject,
            evs[k].subject.id,
        ) && points_at(evs, k, object, evs[k].object.id),
{
    lemma_entity_code(evs, k, evs[k].subject.id);
    lemma_entity_code(evs, k, evs[k].object.id);
}

proof fn lemma_filter_idx(evs: Seq<&PatternEvent>, k: int, m: usize)
    ensures
        filter_match_idx(filter_info_of(evs, k, m)) == Some(m),
{
}

proof fn lemma_sub_rows_follow(evs: Seq<&PatternEvent>, k: int, t0: int, m0: int)
    requires
        0 <= k <= evs.len(),
        0 <= m0,
        m0 + evs.len() <= usize::MAX,
    ensures
        forall|s: int| 0 <= s < sub_pattern_rows(evs, k, t0, m0).len() ==> {
            &&& !(#[trigger] sub_pattern_rows(evs, k, t0, m0)[s].0 is Output)
            &&& filter_match_idx(sub_pattern_rows(evs, k, t0, m0)[s].1) matches Some(m) && m0 <= m < m0 + k
        },
        forall|s: int, t: int|
            0 <= s < t < sub_pattern_rows(evs, k, t0, m0).len() ==> filter_match_idx(
                #[trigger] sub_pattern_rows(evs, k, t0, m0)[s].1,
            )->0 <= filter_match_idx(#[trigger] sub_pattern_rows(evs, k, t0, m0)[t].1)->0,
        forall|q: int| #![trigger evs[q]] 0 <= q < k ==> exists|s: int|
            0 <= s < sub_pattern_rows(evs, k, t0, m0).len() && #[trigger] filter_match_idx(
                sub_pattern_rows(evs, k, t0, m0)[s].1,
            ) == Some((m0 + q) as usize) && entry_state_for(sub_pattern_rows(evs, k, t0, m0)[s].0, evs[q].event_type),
    decreases k,
{
    if k > 0 {
        lemma_sub_rows_follow(evs, k - 1, t0, m0);
        let prev = sub_pattern_rows(evs, k - 1, t0, m0);
        let mi = (m0 + k - 1) as usize;
        let er = event_rows(evs, k - 1, t0 + prev.len(), mi);
        let rows = sub_pattern_rows(evs, k, t0, m0);
        assert(rows == prev + er);
        lemma_filter_idx(evs, k - 1, mi);
        assert forall|s: int| 0 <= s < er.len() implies !(#[trigger] er[s].0 is Output) && filter_match_idx(er[s].1) == Some(mi) by {}
        assert(entry_state_for(er[0].0, evs[k - 1].event_type));
        assert forall|s: int| 0 <= s < rows.len() implies {
            &&& !(#[trigger] rows[s].0 is Output)
            &&& filter_match_idx(rows[s].1) matches Some(m) && m0 <= m < m0 + k
        } by {
            if s < prev.len() {
                assert(rows[s] == prev[s]);
            } else {
                assert(rows[s] == er[s - prev.len()]);
            }
        }
        assert forall|s: int, t: int| 0 <= s < t < rows.len() implies filter_match_idx(#[trigger] rows[s].1)->0 <= filter_match_idx(
            #[trigger] rows[t].1,
        )->0 by {
            if t < prev.len() {
                assert(rows[s] == prev[s] && rows[t] == prev[t]);
            } else if s < prev.len() {
                assert(rows[s] == prev[s]);
                assert(!(prev[s].0 is Output));
                assert(filter_match_idx(prev[s].1)->0 < mi);
                assert(rows[t] == er[t - prev.len()]);
                assert(!(er[t - prev.len()].0 is Output));
            } else {
                assert(rows[s] == er[s - prev.len()]);
                assert(rows[t] == er[t - prev.len()]);
                assert(!(er[s - prev.len()].0 is Output));
                assert(!(er[t - prev.len()].0 is Output));
            }
        }
        assert forall|q: int| #![trigger evs[q]] 0 <= q < k implies exists|s: int|
            0 <= s < rows.len() && #[trigger] filter_match_idx(rows[s].1) == Some((m0 + q) as usize) && entry_state_for(
                rows[s].0,
                evs[q].event_type,
            ) by {
            if q < k - 1 {
                let s = choose|s: int|
                    0 <= s < prev.len() && #[trigger] filter_match_idx(prev[s].1) == Some((m0 + q) as usize) && entry_state_for(
                        prev[s].0,
                        evs[q].event_type,
                    );
                assert(rows[s] == prev[s]);
            } else {
                let s = prev.len() as int;
                assert(rows[s] == er[0]);
            }
        }
    }
}

proof fn lemma_decomposition_count(sps: Seq<SubPattern>)
    ensures
        decomposition_events(sps).len() == event_count(sps),
    decreases sps.len(),
{
    if sps.len() > 0 {
        lemma_decomposition_count(sps.drop_last());
    }
}

/// The state table of a decomposition waits for its pattern events in the order of the
/// decomposition: the state of the `k`-th pattern event of the decomposition (sub-pattern after
/// sub-pattern) carries match index `k`, which is the position of that event among the
/// matching layer's pattern events, so match indices keep counting across sub-patterns.
#[verifier::spinoff_prover]
pub proof fn lemma_states_follow_decomposition(sps: Seq<SubPattern>)
    requires
        event_count(sps) <= usize::MAX,
    ensures
        follows_events(state_rows(sps), decomposition_events(sps)),
    decreases sps.len(),
{
    lemma_decomposition_count(sps);
    if sps.len() > 0 {
        let pre = sps.drop_last();
        lemma_decomposition_count(pre);
        lemma_states_follow_decomposition(pre);
        let prev = state_rows(pre);
        let sp = sps.last();
        let evs = sp.events@;
        let m0 = event_count(pre) as int;
        let sub = sub_pattern_rows(evs, evs.len() as int, prev.len() as int, m0);
        lemma_sub_rows_follow(evs, evs.len() as int, prev.len() as int, m0);
        let outr = seq![(StateInfo::Output { subpattern_id: sp.id as u32 }, FilterInfo::NoFilter)];
        let rows = state_rows(sps);
        let de = decomposition_events(sps);
        let dp = decomposition_events(pre);
        assert(rows == prev + sub + outr);
        assert(de == dp + evs);
        let n1 = prev.len() as int;
        let n2 = n1 + sub.len();
        assert forall|s: int| 0 <= s < rows.len() && !(#[trigger] rows[s].0 is Output) implies (filter_match_idx(rows[s].1) matches Some(
            m,
        ) && m < de.len()) by {
            if s < n1 {
                assert(rows[s] == prev[s]);
            } else if s < n2 {
                assert(rows[s] == sub[s - n1]);
            } else {
                assert(rows[s] == outr[s - n2]);
            }
        }
        assert forall|s: int| 0 <= s < rows.len() && (#[trigger] rows[s].0 is Output) implies rows[s].1 == FilterInfo::NoFilter by {
            if s < n1 {
                assert(rows[s] == prev[s]);
            } else if s < n2 {
                assert(rows[s] == sub[s - n1]);
            } else {
                assert(rows[s] == outr[s - n2]);
            }
        }
        assert forall|s: int, t: int|
            0 <= s < t < rows.len() && !(#[trigger] rows[s].0 is Output) && !(#[trigger] rows[t].0 is Output) implies filter_match_idx(
                rows[s].1,
            )->0 <= filter_match_idx(rows[t].1)->0 by {
            if t < n1 {
                assert(rows[s] == prev[s] && rows[t] == prev[t]);
            } else if t < n2 {
                assert(rows[t] == sub[t - n1]);
                if s < n1 {
                    assert(rows[s] == prev[s]);
                } else {
                    assert(rows[s] == sub[s - n1]);
                }
            } else {
                assert(rows[t] == outr[t - n2]);
            }
        }
        assert forall|k: int| #![trigger de[k]] 0 <= k < de.len() implies exists|s: int|
            0 <= s < rows.len() && #[trigger] filter_match_idx(rows[s].1) == Some(k as usize) && entry_state_for(
                rows[s].0,
                de[k].event_type,
            ) by {
            if k < dp.len() {
                let s = choose|s: int|
                    0 <= s < prev.len() && #[trigger] filter_match_idx(prev[s].1) == Some(k as usize) && entry_state_for(
                        prev[s].0,
                        dp[k].event_type,
                    );
                assert(rows[s] == prev[s]);
                assert(de[k] == dp[k]);
            } else {
                let q = k - dp.len();
                let s = choose|s: int|
                    0 <= s < sub.len() && #[trigger] filter_match_idx(sub[s].1) == Some((m0 + q) as usize) && entry_state_for(
                        sub[s].0,
                        evs[q].event_type,
                    );
                assert(rows[n1 + s] == sub[s]);
                assert(de[k] == evs[q]);
            }
        }
    }
}

/// The state that `info` moves an instance to is the one right after `s`, where it has one.
pub open spec fn moves_to_next(info: StateInfo, s: int) -> bool {
    match info {
        StateInfo::Default { next_state } => next_state == s + 1,
        StateInfo::InitFreq { next_state } => next_state == s + 1,
        StateInfo::AggFreq { next_state, .. } => next_state == s + 1,
        StateInfo::Output { .. } => true,
    }
}

proof fn lemma_sub_pattern_rows_next(evs: Seq<&PatternEvent>, k: int, t0: int, m0: int)
    requires
        0 <= k,
        0 <= t0,
        t0 + sub_pattern_rows(evs, k, t0, m0).len() < u32::MAX,
    ensures
        forall|i: int|
            0 <= i < sub_pattern_rows(evs, k, t0, m0).len() ==> moves_to_next(
                #[trigger] sub_pattern_rows(evs, k, t0, m0)[i].0,
                t0 + i,
            ),
    decreases k,
{
    if k > 0 {
        let prev = sub_pattern_rows(evs, k - 1, t0, m0);
        let rows = sub_pattern_rows(evs, k, t0, m0);
        lemma_sub_pattern_rows_next(evs, k - 1, t0, m0);
        assert forall|i: int| 0 <= i < rows.len() implies moves_to_next(#[trigger] rows[i].0, t0 + i) by {
            if i < prev.len() {
                assert(rows[i] == prev[i]);
            }
        }
    }
}

/// Every state of the table of a decomposition that moves an instance on moves it to the
/// state right after it.
pub proof fn lemma_next_state_follows(sps: Seq<SubPattern>)
    requires
        state_rows(sps).len() < u32::MAX,
    ensures
        forall|s: int| 0 <= s < state_rows(sps).len() ==> moves_to_next(#[trigger] state_rows(sps)[s].0, s),
    decreases sps.len(),
{
    if sps.len() > 0 {
        let prev = state_rows(sps.drop_last());
        let sp = sps.last();
        let sub = sub_pattern_rows(sp.events@, sp.events@.len() as int, prev.len() as int, event_count(sps.drop_last()) as int);
        let rows = state_rows(sps);
        lemma_next_state_follows(sps.drop_last());
        lemma_sub_pattern_rows_next(sp.events@, sp.events@.len() as int, prev.len() as int, event_count(sps.drop_last()) as int);
        assert forall|s: int| 0 <= s < rows.len() implies moves_to_next(#[trigger] rows[s].0, s) by {
            if s < prev.len() {
                assert(rows[s] == prev[s]);
            } else if s < prev.len() + sub.len() {
                assert(rows[s] == sub[s - prev.len()]);
            }
        }
    }
}

/// The states of the composition layer, one per pattern event (two for a frequency event)
/// and one output state per sub-pattern.
pub struct StateTable {
    pub table: Vec<(StateInfo, FilterInfo)>,
    pub shared_node_info: Vec<SharedNodeInfo>,
}

impl StateTable {
    /// Builds the state table of `decomposition`.
    pub fn new(decomposition: &[SubPattern]) -> (res: Self)
        requires
            2 * event_count(decomposition@) + decomposition@.len() < u32::MAX,
        ensures
            res.table@ == state_rows(decomposition@),
            res.shared_node_info@ == shared_infos(decomposition@),
            forall|s: int| 0 <= s < res.table@.len() ==> moves_to_next(#[trigger] res.table@[s].0, s),
            follows_events(res.table@, decomposition_events(decomposition@)),
    {
        let mut table: Vec<(StateInfo, FilterInfo)> = Vec::new();
        let mut shared_node_info: Vec<SharedNodeInfo> = Vec::new();
        let mut match_idx: usize = 0;
        let mut i: usize = 0;
        assert(decomposition@.subrange(0, 0) =~= Seq::<SubPattern>::empty());
        while i < decomposition.len()
            invariant
                i <= decomposition@.len(),
                2 * event_count(decomposition@) + decomposition@.len() < u32::MAX,
                table@ == state_rows(decomposition@.subrange(0, i as int)),
                shared_node_info@ == shared_infos(decomposition@.subrange(0, i as int)),
                match_idx == event_count(decomposition@.subrange(0, i as int)),
            decreases decomposition@.len() - i,
        {
            let sub_pattern = &decomposition[i];
            let ghost evs = sub_pattern.events@;
            let ghost t0 = table@.len() as int;
            let ghost m0 = match_idx as int;
            let ghost prev_table = table@;
            let ghost prev_shared = shared_node_info@;
            proof {
                lemma_event_count_prefix(decomposition@, i as int);
                lemma_state_rows_len(decomposition@.subrange(0, i as int));
            }
            let mut entity_table: HashMap<usize, EntityEncode> = HashMap::new();
            let mut event_idx: usize = 0;
            assert(sub_pattern_shared_infos(evs, 0, m0) =~= Seq::empty());
            while event_idx < sub_pattern.events.len()
                invariant
                    evs == sub_pattern.events@,
                    event_idx <= evs.len(),
                    m0 + evs.len() < usize::MAX,
                    match_idx == m0 + event_idx,
                    t0 == prev_table.len(),
                    t0 + 2 * evs.len() + 1 < u32::MAX,
                    forall|id: usize| #[trigger]
                        entity_table@.dom().contains(id) == entity_code(evs, event_idx as int, id) is Some,
                    forall|id: usize| #[trigger] entity_table@.dom().contains(id) ==> entity_code(
                        evs,
                        event_idx as int,
                        id,
                    ) == Some(entity_table@[id]),
                    table@ == prev_table + sub_pattern_rows(evs, event_idx as int, t0, m0),
                    shared_node_info@ == prev_shared + sub_pattern_shared_infos(
                        evs,
                        event_idx as int,
                        m0,
                    ),
                decreases evs.len() - event_idx,
            {
                let pattern = sub_pattern.events[event_idx];
                let shared_subject = match entity_table.get(&pattern.subject.id) {
                    Some(code) => Some(*code),
                    None => None,
                };
                let shared_object = match entity_table.get(&pattern.object.id) {
                    Some(code) => Some(*code),
                    None => None,
                };
                assert(shared_subject == entity_code(evs, event_idx as int, pattern.subject.id));
                assert(shared_object == entity_code(evs, event_idx as int, pattern.object.id));
                let filter_info = match (shared_subject, shared_object) {
                    (None, None) => FilterInfo::MatchIdxOnly { match_idx },
                    (None, Some(object)) => FilterInfo::Object { match_idx, object },
                    (Some(subject), None) => FilterInfo::Subject { match_idx, subject },
                    (Some(subject), Some(object)) => FilterInfo::Endpoints {
                        match_idx,
                        subject,
                        object,
                    },
                };
                assert(filter_info == filter_info_of(evs, event_idx as int, match_idx));
                shared_node_info.push(SharedNodeInfo::from(filter_info));
                proof {
                    assert(sub_pattern_shared_infos(evs, event_idx + 1, m0) =~= sub_pattern_shared_infos(
                        evs,
                        event_idx as int,
                        m0,
                    ).push(shared_node_info_of(filter_info)));
                    lemma_sub_pattern_rows_len(evs, event_idx as int, t0, m0);
                }

                let next_state = (table.len() + 1) as u32;
                match pattern.event_type {
                    PatternEventType::Frequency(frequency) => {
                        table.push((StateInfo::InitFreq { next_state }, filter_info));
                        let next_state = (table.len() + 1) as u32;
                        table.push(
                            (
                                StateInfo::AggFreq { next_state, frequency },
                                FilterInfo::Endpoints {
                                    match_idx,
                                    subject: EntityEncode::subject_of(event_idx),
                                    object: EntityEncode::object_of(event_idx),
                                },
                            ),
                        );
                    },
                    _ => {
                        table.push((StateInfo::Default { next_state }, filter_info));
                    },
                }
                proof {
                    assert(table@ =~= prev_table + sub_pattern_rows(evs, event_idx + 1, t0, m0));
                }

                entity_table.insert(pattern.subject.id, EntityEncode::subject_of(event_idx));
                entity_table.insert(pattern.object.id, EntityEncode::object_of(event_idx));
                match_idx = match_idx + 1;
                event_idx = event_idx + 1;
            }
            table.push(
                (StateInfo::Output { subpattern_id: sub_pattern.id as u32 }, FilterInfo::NoFilter),
            );
            proof {
                let done = decomposition@.subrange(0, i + 1);
                assert(done.drop_last() =~= decomposition@.subrange(0, i as int));
                assert(done.last() == *sub_pattern);
                assert(table@ =~= state_rows(done));
                assert(shared_node_info@ =~= shared_infos(done));
            }
            i = i + 1;
        }
        assert(decomposition@.subrange(0, decomposition@.len() as int) =~= decomposition@);
        proof {
            lemma_state_rows_len(decomposition@);
            lemma_states_follow_decomposition(decomposition@);
            lemma_next_state_follows(decomposition@);
        }
        StateTable { table, shared_node_info }
    }

    /// Iterates over the rows of the table.
    pub fn iter(&self) -> (res: std::slice::Iter<'_, (StateInfo, FilterInfo)>)
        ensures
            IteratorSpec::remaining(&res) == self.table@.as_ref(),
    {
        self.table.as_slice().iter()
    }

    /// The row of state `state_id`.
    pub fn get(&self, state_id: u32) -> (res: (StateInfo, FilterInfo))
        requires
            state_id < self.table@.len(),
        ensures
            res == self.table@[state_id as int],
    {
        self.table[state_id as usize]
    }

    /// What state `state_id` does.
    pub fn get_state_info(&self, state_id: u32) -> (res: &StateInfo)
        requires
            state_id < self.table@.len(),
        ensures
            *res == self.table@[state_id as int].0,
    {
        &self.table[state_id as usize].0
    }

    /// The filter description of state `state_id`.
    pub fn get_filter_info(&self, state_id: u32) -> (res: &FilterInfo)
        requires
            state_id < self.table@.len(),
        ensures
            *res == self.table@[state_id as int].1,
    {
        &self.table[state_id as usize].1
    }

    /// The shared endpoints of the pattern event with match index `match_idx`.
    pub fn get_shared_node_info(&self, match_idx: usize) -> (res: SharedNodeInfo)
        requires
            match_idx < self.shared_node_info@.len(),
        ensures
            res == self.shared_node_info@[match_idx as int],
    {
        self.shared_node_info[match_idx]
    }

    /// The state that follows `state_id`, which must not be an output state.
    pub fn get_next_state(&self, state_id: u32) -> (res: u32)
        requires
            state_id < self.table@.len(),
            !(self.table@[state_id as int].0 is Output),
        ensures
            match self.table@[state_id as int].0 {
                StateInfo::Default { next_state } => res == next_state,
                StateInfo::InitFreq { next_state } => res == next_state,
                StateInfo::AggFreq { next_state, .. } => res == next_state,
                StateInfo::Output { .. } => false,
            },
    {
        match self.table[state_id as usize].0 {
            StateInfo::Default { next_state } => next_state,
            StateInfo::InitFreq { next_state } => next_state,
            StateInfo::AggFreq { next_state, .. } => next_state,
            StateInfo::Output { .. } => 0,
        }
    }
}

} // verus!
