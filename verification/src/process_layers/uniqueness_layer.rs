use vstd::prelude::*;
use crate::pattern_match::PatternMatch;

verus! {

broadcast use vstd::seq_lib::group_seq_properties, vstd::multiset::group_multiset_axioms;

/// No two matches of `s` have the same input events.
pub open spec fn distinct_matches(s: Seq<PatternMatch>) -> bool {
    forall|i: int, j: int| 0 <= i < j < s.len() ==> (#[trigger] s[i]).event_ids@ != (#[trigger] s[j]).event_ids@
}

/// The matches of `s` come by non-decreasing earliest time.
pub open spec fn earliest_sorted(s: Seq<PatternMatch>) -> bool {
    forall|i: int, j: int| 0 <= i < j < s.len() ==> (#[trigger] s[i]).earliest_time <= (#[trigger] s[j]).earliest_time
}

/// The start of the window that ends at `latest_time`.
pub open spec fn window_start(latest_time: u64, window_size: u64) -> u64 {
    if latest_time >= window_size {
        (latest_time - window_size) as u64
    } else {
        0
    }
}

/// The layer that keeps each pattern match once while it is within the window.
pub struct UniquenessLayer {
    /// See `flush_expired()`.
    pub window_size: u64,
    /// The pattern matches still within the window; no two have the same input events.
    pub pattern_match_sequence: Vec<PatternMatch>,
    /// Unique pattern matches which are ready for the next layer.
    pub unique_matches: Vec<PatternMatch>,
}

impl UniquenessLayer {
    /// No two pending matches have the same input events.
    pub open spec fn inv(&self) -> bool {
        distinct_matches(self.pattern_match_sequence@)
    }

    /// An empty layer.
    pub fn new(window_size: u64) -> (res: Self)
        ensures
            res.window_size == window_size,
            res.pattern_match_sequence@.len() == 0,
            res.unique_matches@.len() == 0,
            res.inv(),
    {
        UniquenessLayer { window_size, pattern_match_sequence: Vec::new(), unique_matches: Vec::new() }
    }

    /// Moves the pending matches that started before the window ending at `latest_time` to
    /// the unique matches, the earliest first.
    pub fn flush_expired(&mut self, latest_time: u64)
        requires
            old(self).inv(),
        ensures
            final(self).inv(),
            final(self).window_size == old(self).window_size,
            ({
                let bound = window_start(latest_time, old(self).window_size);
                let old_len = old(self).unique_matches@.len();
                let moved = final(self).unique_matches@.skip(old_len as int);
                &&& final(self).unique_matches@.take(old_len as int) == old(self).unique_matches@
                &&& final(self).unique_matches@.len() >= old_len
                &&& earliest_sorted(moved)
                &&& forall|k: int| 0 <= k < moved.len() ==> (#[trigger] moved[k]).earliest_time < bound
                &&& forall|k: int| 0 <= k < final(self).pattern_match_sequence@.len()
                    ==> (#[trigger] final(self).pattern_match_sequence@[k]).earliest_time >= bound
                &&& moved.to_multiset().add(final(self).pattern_match_sequence@.to_multiset())
                    == old(self).pattern_match_sequence@.to_multiset()
            }),
    {
        let bound = latest_time.saturating_sub(self.window_size);
        let ghost old_len = self.unique_matches@.len();
        let ghost orig = self.pattern_match_sequence@;
        assert(self.unique_matches@.skip(old_len as int) =~= Seq::<PatternMatch>::empty());
        assert(Seq::<PatternMatch>::empty().to_multiset() =~= vstd::multiset::Multiset::empty());
        loop
            invariant
                bound == window_start(latest_time, self.window_size),
                self.window_size == old(self).window_size,
                old_len == old(self).unique_matches@.len(),
                orig == old(self).pattern_match_sequence@,
                distinct_matches(self.pattern_match_sequence@),
                self.unique_matches@.len() >= old_len,
                self.unique_matches@.take(old_len as int) == old(self).unique_matches@,
                earliest_sorted(self.unique_matches@.skip(old_len as int)),
                forall|k: int| 0 <= k < self.unique_matches@.skip(old_len as int).len()
                    ==> (#[trigger] self.unique_matches@.skip(old_len as int)[k]).earliest_time < bound,
                forall|k: int, m: int| 0 <= k < self.unique_matches@.skip(old_len as int).len() && 0 <= m < self.pattern_match_sequence@.len()
                    ==> (#[trigger] self.unique_matches@.skip(old_len as int)[k]).earliest_time
                        <= (#[trigger] self.pattern_match_sequence@[m]).earliest_time,
                self.unique_matches@.skip(old_len as int).to_multiset().add(self.pattern_match_sequence@.to_multiset())
                    == orig.to_multiset(),
            ensures
                bound == window_start(latest_time, self.window_size),
                self.window_size == old(self).window_size,
                distinct_matches(self.pattern_match_sequence@),
                self.unique_matches@.len() >= old_len,
                self.unique_matches@.take(old_len as int) == old(self).unique_matches@,
                earliest_sorted(self.unique_matches@.skip(old_len as int)),
                forall|k: int| 0 <= k < self.unique_matches@.skip(old_len as int).len()
                    ==> (#[trigger] self.unique_matches@.skip(old_len as int)[k]).earliest_time < bound,
                forall|k: int| 0 <= k < self.pattern_match_sequence@.len()
                    ==> (#[trigger] self.pattern_match_sequence@[k]).earliest_time >= bound,
                self.unique_matches@.skip(old_len as int).to_multiset().add(self.pattern_match_sequence@.to_multiset())
                    == orig.to_multiset(),
            decreases self.pattern_match_sequence@.len(),
        {
            let n = self.pattern_match_sequence.len();
            if n == 0 {
                break;
            }
            let mut best: usize = 0;
            let mut k: usize = 1;
            while k < n
                invariant
                    n == self.pattern_match_sequence@.len(),
                    0 < k <= n,
                    best < k,
                    forall|i: int| 0 <= i < k ==> self.pattern_match_sequence@[best as int].earliest_time
                        <= #[trigger] self.pattern_match_sequence@[i].earliest_time,
                decreases n - k,
            {
                if self.pattern_match_sequence[k].earliest_time < self.pattern_match_sequence[best].earliest_time {
                    best = k;
                }
                k += 1;
            }
            if self.pattern_match_sequence[best].earliest_time >= bound {
                assert forall|m: int| 0 <= m < self.pattern_match_sequence@.len() implies (#[trigger] self.pattern_match_sequence@[m]).earliest_time >= bound by {
                    assert(self.pattern_match_sequence@[best as int].earliest_time <= self.pattern_match_sequence@[m].earliest_time);
                }
                break;
            }
            let ghost seq0 = self.pattern_match_sequence@;
            let ghost moved0 = self.unique_matches@.skip(old_len as int);
            let ghost uniq0 = self.unique_matches@;
            let item = self.pattern_match_sequence.remove(best);
            self.unique_matches.push(item);
            proof {
                let seq1 = self.pattern_match_sequence@;
                let moved1 = self.unique_matches@.skip(old_len as int);
                assert(seq1 == seq0.remove(best as int));
                assert(moved1 =~= moved0.push(item));
                assert(self.unique_matches@.take(old_len as int) =~= uniq0.take(old_len as int));
                assert forall|i: int, j: int| 0 <= i < j < seq1.len() implies (#[trigger] seq1[i]).event_ids@ != (#[trigger] seq1[j]).event_ids@ by {
                    let ii = if i < best { i } else { i + 1 };
                    let jj = if j < best { j } else { j + 1 };
                    assert(seq1[i] == seq0[ii]);
                    assert(seq1[j] == seq0[jj]);
                }
                assert forall|k: int, m: int| 0 <= k < moved1.len() && 0 <= m < seq1.len()
                    implies (#[trigger] moved1[k]).earliest_time <= (#[trigger] seq1[m]).earliest_time by {
                    let mm = if m < best { m } else { m + 1 };
                    assert(seq1[m] == seq0[mm]);
                    if k < moved0.len() {
                        assert(moved1[k] == moved0[k]);
                    }
                }
                assert forall|i: int, j: int| 0 <= i < j < moved1.len() implies (#[trigger] moved1[i]).earliest_time <= (#[trigger] moved1[j]).earliest_time by {
                    if j == moved0.len() {
                        assert(moved1[i] == moved0[i]);
                        assert(moved0[i].earliest_time <= seq0[best as int].earliest_time);
                    } else {
                        assert(moved1[i] == moved0[i]);
                        assert(moved1[j] == moved0[j]);
                    }
                }
                assert forall|k: int| 0 <= k < moved1.len() implies (#[trigger] moved1[k]).earliest_time < bound by {
                    if k < moved0.len() {
                        assert(moved1[k] == moved0[k]);
                    }
                }
                vstd::seq_lib::to_multiset_remove(seq0, best as int);
                assert(moved1.to_multiset() == moved0.to_multiset().insert(item));
                assert(moved1.to_multiset().add(seq1.to_multiset()) =~= moved0.to_multiset().add(seq0.to_multiset()));
            }
        }
    }

    /// Takes a pattern match from the join layer: the window moves to the match's latest time,
    /// and the match is kept unless a pending match has the same input events.
    pub fn accept(&mut self, pattern_match: PatternMatch)
        requires
            old(self).inv(),
        ensures
            final(self).inv(),
            final(self).window_size == old(self).window_size,
            ({
                let bound = window_start(pattern_match.latest_time, old(self).window_size);
                let old_len = old(self).unique_matches@.len();
                let moved = final(self).unique_matches@.skip(old_len as int);
                let kept = final(self).pattern_match_sequence@;
                let dup = exists|k: int| 0 <= k < old(self).pattern_match_sequence@.len()
                    && (#[trigger] old(self).pattern_match_sequence@[k]).earliest_time >= bound
                    && old(self).pattern_match_sequence@[k].event_ids@ == pattern_match.event_ids@;
                &&& final(self).unique_matches@.take(old_len as int) == old(self).unique_matches@
                &&& final(self).unique_matches@.len() >= old_len
                &&& earliest_sorted(moved)
                &&& forall|k: int| 0 <= k < moved.len() ==> (#[trigger] moved[k]).earliest_time < bound
                &&& (dup ==> moved.to_multiset().add(kept.to_multiset()) == old(self).pattern_match_sequence@.to_multiset())
                &&& (!dup ==> kept.len() > 0 && kept.last() == pattern_match
                    && moved.to_multiset().add(kept.drop_last().to_multiset()) == old(self).pattern_match_sequence@.to_multiset())
            }),
    {
        let latest_time = pattern_match.latest_time;
        let ghost old_seq = self.pattern_match_sequence@;
        self.flush_expired(latest_time);
        let ghost flushed = self.pattern_match_sequence@;
        let ghost old_len = old(self).unique_matches@.len();
        let ghost bound = window_start(latest_time, self.window_size);
        let mut found = false;
        let mut k: usize = 0;
        while k < self.pattern_match_sequence.len()
            invariant
                k <= self.pattern_match_sequence@.len(),
                found == exists|j: int| 0 <= j < k && (#[trigger] self.pattern_match_sequence@[j]).event_ids@ == pattern_match.event_ids@,
            decreases self.pattern_match_sequence@.len() - k,
        {
            if self.pattern_match_sequence[k] == pattern_match {
                found = true;
            }
            k += 1;
        }
        proof {
            let moved = self.unique_matches@.skip(old_len as int);
            let dup = exists|k: int| 0 <= k < old_seq.len() && (#[trigger] old_seq[k]).earliest_time >= bound
                && old_seq[k].event_ids@ == pattern_match.event_ids@;
            if found {
                let j = choose|j: int| 0 <= j < flushed.len() && (#[trigger] flushed[j]).event_ids@ == pattern_match.event_ids@;
                assert(flushed.to_multiset().count(flushed[j]) > 0);
                assert(old_seq.to_multiset().count(flushed[j]) > 0);
                assert(old_seq.contains(flushed[j]));
                let jj = choose|jj: int| 0 <= jj < old_seq.len() && old_seq[jj] == flushed[j];
                assert(old_seq[jj].earliest_time >= bound);
                assert(dup);
            } else if dup {
                let jj = choose|jj: int| 0 <= jj < old_seq.len() && (#[trigger] old_seq[jj]).earliest_time >= bound
                    && old_seq[jj].event_ids@ == pattern_match.event_ids@;
                assert(old_seq.to_multiset().count(old_seq[jj]) > 0);
                if moved.to_multiset().count(old_seq[jj]) > 0 {
                    assert(moved.contains(old_seq[jj]));
                    let m = choose|m: int| 0 <= m < moved.len() && moved[m] == old_seq[jj];
                    assert(moved[m].earliest_time < bound);
                }
                assert(flushed.to_multiset().count(old_seq[jj]) > 0);
                assert(flushed.contains(old_seq[jj]));
                let m = choose|m: int| 0 <= m < flushed.len() && flushed[m] == old_seq[jj];
                assert(flushed[m].event_ids@ == pattern_match.event_ids@);
            }
        }
        if !found {
            let ghost before = self.pattern_match_sequence@;
            self.pattern_match_sequence.push(pattern_match);
            proof {
                let s = self.pattern_match_sequence@;
                assert(s.drop_last() =~= before);
                assert forall|i: int, j: int| 0 <= i < j < s.len() implies (#[trigger] s[i]).event_ids@ != (#[trigger] s[j]).event_ids@ by {
                    if j == s.len() - 1 {
                        assert(s[i] == before[i]);
                    } else {
                        assert(s[i] == before[i]);
                        assert(s[j] == before[j]);
                    }
                }
            }
        }
    }

    /// Called when no more pattern match comes: flushes with the window ending at the largest
    /// time, so that every pending match that started before it moves to the unique matches.
    pub fn flush_all(&mut self)
        requires
            old(self).inv(),
        ensures
            final(self).inv(),
            final(self).window_size == old(self).window_size,
            ({
                let bound = window_start(u64::MAX, old(self).window_size);
                let old_len = old(self).unique_matches@.len();
                let moved = final(self).unique_matches@.skip(old_len as int);
                &&& final(self).unique_matches@.take(old_len as int) == old(self).unique_matches@
                &&& final(self).unique_matches@.len() >= old_len
                &&& earliest_sorted(moved)
                &&& forall|k: int| 0 <= k < moved.len() ==> (#[trigger] moved[k]).earliest_time < bound
                &&& forall|k: int| 0 <= k < final(self).pattern_match_sequence@.len()
                    ==> (#[trigger] final(self).pattern_match_sequence@[k]).earliest_time >= bound
                &&& moved.to_multiset().add(final(self).pattern_match_sequence@.to_multiset())
                    == old(self).pattern_match_sequence@.to_multiset()
            }),
    {
        self.flush_expired(u64::MAX);
    }

    /// Hands out the last unique match, if any.
    pub fn pop_unique(&mut self) -> (res: Option<PatternMatch>)
        ensures
            old(self).unique_matches@.len() == 0 ==> res is None && final(self).unique_matches@ == old(self).unique_matches@,
            old(self).unique_matches@.len() > 0 ==> res == Some(old(self).unique_matches@.last())
                && final(self).unique_matches@ == old(self).unique_matches@.drop_last(),
            final(self).pattern_match_sequence@ == old(self).pattern_match_sequence@,
            final(self).window_size == old(self).window_size,
    {
        self.unique_matches.pop()
    }

    /// Whether a unique match is ready.
    pub fn has_unique(&self) -> (res: bool)
        ensures
            res == (self.unique_matches@.len() > 0),
    {
        self.unique_matches.len() > 0
    }
}

} // verus!
