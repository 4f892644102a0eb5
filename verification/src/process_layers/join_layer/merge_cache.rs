use vstd::prelude::*;
use crate::match_event::MatchEvent;

verus! {

/// The scratch space of merging, kept between merges to spare allocations.
pub struct MergeCache {
    /// Whether each pattern entity is used; indexed up to the largest pattern entity id.
    pub used_nodes: Vec<bool>,
    pub timestamps: Vec<u64>,
    pub merged_edge: Vec<MatchEvent>,
    pub merged_nodes: Vec<(u64, u64)>,
}

impl MergeCache {
    /// Clears the caches of both kinds.
    pub fn clear_all(&mut self)
        ensures
            final(self).timestamps@ == Seq::new(old(self).timestamps@.len(), |i: int| 0u64),
            final(self).merged_edge@.len() == 0,
            final(self).used_nodes@ == Seq::new(old(self).used_nodes@.len(), |i: int| false),
            final(self).merged_nodes@.len() == 0,
    {
        self.clear_edge_related();
        self.clear_node_related();
    }

    /// Clears the caches of merging events: every timestamp is reset to 0.
    pub fn clear_edge_related(&mut self)
        ensures
            final(self).timestamps@ == Seq::new(old(self).timestamps@.len(), |i: int| 0u64),
            final(self).merged_edge@.len() == 0,
            final(self).used_nodes == old(self).used_nodes,
            final(self).merged_nodes == old(self).merged_nodes,
    {
        let n = self.timestamps.len();
        let mut k: usize = 0;
        while k < n
            invariant
                n == self.timestamps@.len(),
                n == old(self).timestamps@.len(),
                k <= n,
                forall|i: int| 0 <= i < k ==> self.timestamps@[i] == 0,
                self.used_nodes == old(self).used_nodes,
                self.merged_nodes == old(self).merged_nodes,
            decreases n - k,
        {
            self.timestamps.set(k, 0);
            k += 1;
        }
        self.merged_edge.clear();
        assert(self.timestamps@ =~= Seq::new(n as nat, |i: int| 0u64));
    }

    /// Clears the caches of merging entities: no entity is marked used.
    pub fn clear_node_related(&mut self)
        ensures
            final(self).used_nodes@ == Seq::new(old(self).used_nodes@.len(), |i: int| false),
            final(self).merged_nodes@.len() == 0,
            final(self).timestamps == old(self).timestamps,
            final(self).merged_edge == old(self).merged_edge,
    {
        let n = self.used_nodes.len();
        let mut k: usize = 0;
        while k < n
            invariant
                n == self.used_nodes@.len(),
                n == old(self).used_nodes@.len(),
                k <= n,
                forall|i: int| 0 <= i < k ==> !self.used_nodes@[i],
                self.timestamps == old(self).timestamps,
                self.merged_edge == old(self).merged_edge,
            decreases n - k,
        {
            self.used_nodes.set(k, false);
            k += 1;
        }
        self.merged_nodes.clear();
        assert(self.used_nodes@ =~= Seq::new(n as nat, |i: int| false));
    }
}

} // verus!
