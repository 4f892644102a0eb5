use vstd::prelude::*;
use std::rc::Rc;
use crate::input_event::InputEvent;
use crate::pattern::{Pattern, PatternEvent, SubPattern};
use crate::process_layers::matching_layer::default_matcher::{
    anchored_syntax, pattern_text, regex_compiles, signature_match, DefaultMatcher,
};
use crate::process_layers::matching_layer::PartialMatchEvent;

verus! {

/// The pattern events of a decomposition, sub-pattern after sub-pattern.
pub open spec fn decomposition_events<'p>(sps: Seq<SubPattern<'p>>) -> Seq<&'p PatternEvent>
    decreases sps.len(),
{
    if sps.len() == 0 {
        Seq::empty()
    } else {
        decomposition_events(sps.drop_last()) + sps.last().events@
    }
}

/// The signatures of every event of the decomposition are short enough to be joined.
pub open spec fn signatures_fit(events: Seq<&PatternEvent>) -> bool {
    forall|k: int|
        0 <= k < events.len() ==> (#[trigger] events[k]).signature@.len() + events[k].subject.signature@.len()
            + events[k].object.signature@.len() + 2 <= usize::MAX
}

/// Matches the input events of each time batch against every pattern event of a
/// decomposition, in the order of the decomposition.
pub struct MatchingLayer<'p> {
    /// All pattern events in the order of the decomposition.
    pub pattern_events: Vec<&'p PatternEvent>,
    /// The matchers of the corresponding pattern events.
    pub matchers: Vec<DefaultMatcher<'p>>,
}

impl<'p> MatchingLayer<'p> {
    /// The matchers are those of the pattern events, with the same treatment of signatures.
    pub open spec fn well_formed(&self, use_regex: bool) -> bool {
        &&& self.matchers@.len() == self.pattern_events@.len()
        &&& forall|k: int|
            0 <= k < self.matchers@.len() ==> (#[trigger] self.matchers@[k]).pattern_event()
                == *self.pattern_events@[k] && self.matchers@[k].regex_mode() == use_regex
    }

    /// The matchers of every pattern event of `decomposition`; the error of the first one whose
    /// signatures do not compile.
    pub fn new(pattern: &'p Pattern, decomposition: &[SubPattern<'p>]) -> (res: Result<Self, regex::Error>)
        requires
            signatures_fit(decomposition_events(decomposition@)),
        ensures
            res is Ok <==> forall|k: int|
                0 <= k < decomposition_events(decomposition@).len() ==> regex_compiles(
                    anchored_syntax(
                        pattern_text(*#[trigger] decomposition_events(decomposition@)[k]),
                        !pattern.use_regex,
                    ),
                ),
            res matches Ok(layer) ==> layer.well_formed(pattern.use_regex) && layer.pattern_events@
                == decomposition_events(decomposition@),
    {
        let ghost all = decomposition_events(decomposition@);
        let mut pattern_events: Vec<&'p PatternEvent> = Vec::new();
        let mut matchers: Vec<DefaultMatcher<'p>> = Vec::new();
        let mut i: usize = 0;
        while i < decomposition.len()
            invariant
                i <= decomposition@.len(),
                all == decomposition_events(decomposition@),
                signatures_fit(all),
                pattern_events@ == decomposition_events(decomposition@.take(i as int)),
                (MatchingLayer { pattern_events, matchers }).well_formed(pattern.use_regex),
                forall|k: int|
                    0 <= k < pattern_events@.len() ==> regex_compiles(
                        anchored_syntax(pattern_text(*#[trigger] pattern_events@[k]), !pattern.use_regex),
                    ),
            decreases decomposition@.len() - i,
        {
            proof {
                lemma_events_prefix(decomposition@, i + 1);
                assert(decomposition@.take(i + 1).drop_last() =~= decomposition@.take(i as int));
            }
            let sub_pattern = &decomposition[i];
            let ghost before = pattern_events@;
            let mut j: usize = 0;
            while j < sub_pattern.events.len()
                invariant
                    i < decomposition@.len(),
                    *sub_pattern == decomposition@[i as int],
                    all == decomposition_events(decomposition@),
                    signatures_fit(all),
                    before == decomposition_events(decomposition@.take(i as int)),
                    decomposition_events(decomposition@.take(i + 1)) == before + sub_pattern.events@,
                    decomposition_events(decomposition@.take(i + 1)).len() <= all.len(),
                    forall|k: int| 0 <= k < decomposition_events(decomposition@.take(i + 1)).len() ==> #[trigger] decomposition_events(decomposition@.take(i + 1))[k] == all[k],
                    j <= sub_pattern.events@.len(),
                    pattern_events@ == before + sub_pattern.events@.take(j as int),
                    (MatchingLayer { pattern_events, matchers }).well_formed(pattern.use_regex),
                    forall|k: int|
                        0 <= k < pattern_events@.len() ==> regex_compiles(
                            anchored_syntax(pattern_text(*#[trigger] pattern_events@[k]), !pattern.use_regex),
                        ),
                decreases sub_pattern.events@.len() - j,
            {
                let pattern_event: &'p PatternEvent = sub_pattern.events[j];
                let ghost pos = before.len() + j;
                proof {
                    assert((before + sub_pattern.events@)[pos] == pattern_event);
                    assert(all[pos] == pattern_event);
                }
                match DefaultMatcher::new(pattern_event, pattern.use_regex) {
                    Ok(matcher) => {
                        matchers.push(matcher);
                        pattern_events.push(pattern_event);
                        proof {
                            assert(before + sub_pattern.events@.take(j + 1) =~= (before + sub_pattern.events@.take(j as int)).push(pattern_event));
                        }
                    },
                    Err(e) => {
                        return Err(e);
                    },
                }
                j += 1;
            }
            proof {
                assert(sub_pattern.events@.take(sub_pattern.events@.len() as int) =~= sub_pattern.events@);
            }
            i += 1;
        }
        proof {
            assert(decomposition@.take(decomposition@.len() as int) =~= decomposition@);
        }
        Ok(MatchingLayer { pattern_events, matchers })
    }
}

/// `res` holds, in order, the matches that the index pairs `(pattern event, input event)`
/// of `pairs` name.
pub open spec fn lists_matches<'p>(
    res: Seq<PartialMatchEvent<'p>>,
    pairs: Seq<(int, int)>,
    events: Seq<&'p PatternEvent>,
    batch: Seq<Rc<InputEvent>>,
) -> bool {
    &&& res.len() == pairs.len()
    &&& forall|k: int|
        0 <= k < pairs.len() ==> {
            &&& (#[trigger] res[k]).matched == events[pairs[k].0]
            &&& res[k].input_event == batch[pairs[k].1]
            &&& res[k].match_ord == pairs[k].0
        }
}

impl<'p> MatchingLayer<'p> {
    /// Whether the pattern event at `s` matches the input event.
    pub open spec fn matches_at(&self, s: int, input: InputEvent) -> bool {
        signature_match(
            pattern_text(self.matchers@[s].pattern_event()),
            !self.matchers@[s].regex_mode(),
            input.signatures_view(),
        )
    }

    /// The pairs `(s, t)` for the first `t` input events that the pattern event at `s` matches.
    pub open spec fn row_pairs(&self, batch: Seq<Rc<InputEvent>>, s: int, t: int) -> Seq<(int, int)>
        decreases t,
    {
        if t <= 0 {
            Seq::empty()
        } else {
            self.row_pairs(batch, s, t - 1) + if self.matches_at(s, *batch[t - 1]) {
                seq![(s, t - 1)]
            } else {
                Seq::empty()
            }
        }
    }

    /// The matching pairs of the first `s` pattern events with the whole batch, pattern event
    /// after pattern event.
    pub open spec fn match_pairs(&self, batch: Seq<Rc<InputEvent>>, s: int) -> Seq<(int, int)>
        decreases s,
    {
        if s <= 0 {
            Seq::empty()
        } else {
            self.match_pairs(batch, s - 1) + self.row_pairs(batch, s - 1, batch.len() as int)
        }
    }

    /// Matches a time batch against every pattern event: for each pattern event in order,
    /// the input events it matches, in order.
    pub fn match_batch(&self, time_batch: &[Rc<InputEvent>]) -> (res: Vec<PartialMatchEvent<'p>>)
        requires
            self.matchers@.len() == self.pattern_events@.len(),
        ensures
            lists_matches(
                res@,
                self.match_pairs(time_batch@, self.matchers@.len() as int),
                self.pattern_events@,
                time_batch@,
            ),
    {
        let mut res: Vec<PartialMatchEvent<'p>> = Vec::new();
        let mut s: usize = 0;
        while s < self.matchers.len()
            invariant
                self.matchers@.len() == self.pattern_events@.len(),
                s <= self.matchers@.len(),
                lists_matches(res@, self.match_pairs(time_batch@, s as int), self.pattern_events@, time_batch@),
            decreases self.matchers@.len() - s,
        {
            let ghost base = self.match_pairs(time_batch@, s as int);
            let mut t: usize = 0;
            while t < time_batch.len()
                invariant
                    self.matchers@.len() == self.pattern_events@.len(),
                    s < self.matchers@.len(),
                    t <= time_batch@.len(),
                    base == self.match_pairs(time_batch@, s as int),
                    lists_matches(
                        res@,
                        base + self.row_pairs(time_batch@, s as int, t as int),
                        self.pattern_events@,
                        time_batch@,
                    ),
                decreases time_batch@.len() - t,
            {
                let ghost prev = base + self.row_pairs(time_batch@, s as int, t as int);
                if self.matchers[s].is_match(&time_batch[t]) {
                    res.push(
                        PartialMatchEvent {
                            matched: self.pattern_events[s],
                            input_event: Rc::clone(&time_batch[t]),
                            match_ord: s,
                        },
                    );
                    proof {
                        assert(base + self.row_pairs(time_batch@, s as int, t + 1) =~= prev.push((s as int, t as int)));
                    }
                } else {
                    proof {
                        assert(base + self.row_pairs(time_batch@, s as int, t + 1) =~= prev);
                    }
                }
                t += 1;
            }
            s += 1;
        }
        res
    }
}

proof fn lemma_events_prefix<'p>(sps: Seq<SubPattern<'p>>, i: int)
    requires
        0 <= i <= sps.len(),
    ensures
        decomposition_events(sps.take(i)).len() <= decomposition_events(sps).len(),
        forall|k: int|
            0 <= k < decomposition_events(sps.take(i)).len() ==> #[trigger] decomposition_events(sps.take(i))[k]
                == decomposition_events(sps)[k],
    decreases sps.len() - i,
{
    if i < sps.len() {
        lemma_events_prefix(sps, i + 1);
        assert(sps.take(i + 1).drop_last() =~= sps.take(i));
        let short = decomposition_events(sps.take(i));
        let long = decomposition_events(sps.take(i + 1));
        assert forall|k: int| 0 <= k < short.len() implies #[trigger] short[k] == decomposition_events(sps)[k] by {
            assert(long[k] == short[k]);
        }
    } else {
        assert(sps.take(i) =~= sps);
    }
}

} // verus!
