use vstd::prelude::*;
use crate::match_event::MatchEvent;

pub use crate::process_layers::join_layer::sub_pattern_match::{EarliestFirst, SubPatternMatch};

verus! {

/// Merges two maps from pattern event to input event id: each pattern event takes the id of
/// the first map, or else that of the second. Sub-patterns have disjoint pattern events, so
/// no two ids compete.
pub fn merge_event_id_map(event_id_map1: &Vec<Option<u64>>, event_id_map2: &Vec<Option<u64>>) -> (res: Vec<
    Option<u64>,
>)
    requires
        event_id_map2@.len() >= event_id_map1@.len(),
    ensures
        res@.len() == event_id_map1@.len(),
        forall|i: int|
            0 <= i < res@.len() ==> #[trigger] res@[i] == (if event_id_map1@[i] is Some {
                event_id_map1@[i]
            } else {
                event_id_map2@[i]
            }),
{
    let mut event_id_map: Vec<Option<u64>> = Vec::new();
    let mut i: usize = 0;
    while i < event_id_map1.len()
        invariant
            event_id_map2@.len() >= event_id_map1@.len(),
            i <= event_id_map1@.len(),
            event_id_map@.len() == i,
            forall|k: int|
                0 <= k < i ==> #[trigger] event_id_map@[k] == (if event_id_map1@[k] is Some {
                    event_id_map1@[k]
                } else {
                    event_id_map2@[k]
                }),
        decreases event_id_map1@.len() - i,
    {
        match event_id_map1[i] {
            Some(t) => event_id_map.push(Some(t)),
            None => match event_id_map2[i] {
                Some(t) => event_id_map.push(Some(t)),
                None => event_id_map.push(None),
            },
        }
        i += 1;
    }
    event_id_map
}

/// The ids of the input events of the match events, in order.
pub open spec fn flat_ids(events: Seq<MatchEvent>) -> Seq<u64>
    decreases events.len(),
{
    if events.len() == 0 {
        Seq::empty()
    } else {
        flat_ids(events.drop_last()) + events.last().raw_events.ids()
    }
}

/// The `k`-th id differs from the one before it, the first one from `u64::MAX`.
pub open spec fn differs_from_previous(ids: Seq<u64>, k: int) -> bool {
    ids[k] != (if k == 0 { u64::MAX } else { ids[k - 1] })
}

/// No id equals the one before it, the first one being compared with `u64::MAX`.
pub open spec fn adjacent_distinct(ids: Seq<u64>) -> bool {
    forall|k: int| 0 <= k < ids.len() ==> #[trigger] differs_from_previous(ids, k)
}

proof fn lemma_flat_prefix(events: Seq<MatchEvent>, i: int)
    requires
        0 <= i <= events.len(),
    ensures
        flat_ids(events.take(i)).len() <= flat_ids(events).len(),
        forall|k: int| 0 <= k < flat_ids(events.take(i)).len() ==> #[trigger] flat_ids(events.take(i))[k] == flat_ids(events)[k],
    decreases events.len() - i,
{
    if i < events.len() {
        lemma_flat_prefix(events, i + 1);
        assert(events.take(i + 1).drop_last() =~= events.take(i));
        let short = flat_ids(events.take(i));
        let long = flat_ids(events.take(i + 1));
        assert(long == short + events.take(i + 1).last().raw_events.ids());
        assert forall|k: int| 0 <= k < short.len() implies #[trigger] short[k] == flat_ids(events)[k] by {
            assert(long[k] == short[k]);
        }
    } else {
        assert(events.take(i) =~= events);
    }
}

proof fn lemma_flat_step(evs: Seq<MatchEvent>, i: int)
    requires
        0 <= i < evs.len(),
    ensures
        flat_ids(evs.take(i + 1)) == flat_ids(evs.take(i)) + evs[i].raw_events.ids(),
{
    assert(evs.take(i + 1).drop_last() =~= evs.take(i));
    assert(evs.take(i + 1).last() == evs[i]);
}

/// The id before the next one: the last of `ids`, or `u64::MAX` for none.
pub open spec fn last_or_max(ids: Seq<u64>) -> u64 {
    if ids.len() == 0 {
        u64::MAX
    } else {
        ids.last()
    }
}

proof fn lemma_push_distinct(cur: Seq<u64>, x: u64)
    requires
        adjacent_distinct(cur),
        x != last_or_max(cur),
    ensures
        adjacent_distinct(cur.push(x)),
{
    let next = cur.push(x);
    assert forall|k: int| 0 <= k < next.len() implies #[trigger] differs_from_previous(next, k) by {
        if k < cur.len() {
            assert(differs_from_previous(cur, k));
            assert(next[k] == cur[k]);
            if k > 0 {
                assert(next[k - 1] == cur[k - 1]);
            }
        }
    }
}

proof fn lemma_repeat_found(evs: Seq<MatchEvent>, i: int, cur: Seq<u64>, x: u64)
    requires
        0 <= i < evs.len(),
        x == last_or_max(cur),
        cur.push(x).len() <= flat_ids(evs.take(i + 1)).len(),
        forall|k: int| 0 <= k < cur.push(x).len() ==> #[trigger] cur.push(x)[k] == flat_ids(evs.take(i + 1))[k],
    ensures
        !adjacent_distinct(flat_ids(evs)),
{
    let next = cur.push(x);
    let p = cur.len() as int;
    lemma_flat_prefix(evs, i + 1);
    assert(next[p] == flat_ids(evs.take(i + 1))[p]);
    assert(flat_ids(evs)[p] == x);
    if p > 0 {
        assert(next[p - 1] == flat_ids(evs.take(i + 1))[p - 1]);
        assert(flat_ids(evs)[p - 1] == cur[p - 1]);
    }
    assert(!differs_from_previous(flat_ids(evs), p));
}

/// Whether no input event id repeats the one before it; the merge leaves them sorted by id.
pub fn check_edge_uniqueness(match_events: &[MatchEvent]) -> (res: bool)
    ensures
        res == adjacent_distinct(flat_ids(match_events@)),
{
    let ghost evs = match_events@;
    let mut prev: u64 = u64::MAX;
    let mut i: usize = 0;
    while i < match_events.len()
        invariant
            evs == match_events@,
            i <= evs.len(),
            adjacent_distinct(flat_ids(evs.take(i as int))),
            prev == last_or_max(flat_ids(evs.take(i as int))),
        decreases evs.len() - i,
    {
        let ghost flat = flat_ids(evs.take(i as int));
        proof {
            lemma_flat_step(evs, i as int);
        }
        let ids = match_events[i].raw_events.get_ids();
        let ghost whole = flat + ids@;
        let mut j: usize = 0;
        while j < ids.len()
            invariant
                evs == match_events@,
                i < evs.len(),
                flat_ids(evs.take(i + 1)) == whole,
                whole == flat + ids@,
                j <= ids@.len(),
                adjacent_distinct(flat + ids@.take(j as int)),
                prev == last_or_max(flat + ids@.take(j as int)),
            decreases ids@.len() - j,
        {
            let ghost cur = flat + ids@.take(j as int);
            proof {
                assert(flat + ids@.take(j + 1) =~= cur.push(ids@[j as int]));
                assert forall|k: int| 0 <= k < cur.push(ids@[j as int]).len() implies #[trigger] cur.push(
                    ids@[j as int],
                )[k] == whole[k] by {
                    if k < flat.len() {
                    } else {
                        assert(cur.push(ids@[j as int])[k] == ids@[k - flat.len()]);
                    }
                }
            }
            if ids[j] == prev {
                proof {
                    lemma_repeat_found(evs, i as int, cur, ids@[j as int]);
                }
                return false;
            }
            proof {
                lemma_push_distinct(cur, ids@[j as int]);
            }
            prev = ids[j];
            j += 1;
        }
        proof {
            assert(ids@.take(ids@.len() as int) =~= ids@);
        }
        i += 1;
    }
    assert(evs.take(evs.len() as int) =~= evs);
    true
}

} // verus!
