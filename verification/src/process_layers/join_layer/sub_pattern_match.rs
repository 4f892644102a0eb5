use vstd::prelude::*;
use vstd::multiset::Multiset;
use std::rc::Rc;
use crate::match_event::MatchEvent;
use crate::process_layers::composition_layer::match_instance::MatchInstance;
use crate::process_layers::join_layer::sub_pattern_buffer::{
    map_well_formed, orders_below, orders_kept, SubPatternBuffer,
};

verus! {

broadcast use vstd::seq_lib::group_seq_properties, vstd::multiset::group_multiset_axioms;

/// `s` is sorted in non-decreasing order.
pub open spec fn is_sorted(s: Seq<u64>) -> bool {
    forall|i: int, j: int| 0 <= i < j < s.len() ==> s[i] <= s[j]
}

/// No value occurs in both `a` and `b`.
pub open spec fn disjoint(a: Seq<u64>, b: Seq<u64>) -> bool {
    forall|p: int, q: int| 0 <= p < a.len() && 0 <= q < b.len() ==> a[p] != b[q]
}

proof fn lemma_skip_multiset<A>(s: Seq<A>, i: int)
    requires
        0 <= i < s.len(),
    ensures
        s.skip(i).to_multiset() =~= s.skip(i + 1).to_multiset().insert(s[i]),
{
    assert(s.skip(i) =~= seq![s[i]] + s.skip(i + 1));
    vstd::seq_lib::lemma_multiset_commutative(seq![s[i]], s.skip(i + 1));
    assert(seq![s[i]].to_multiset() =~= Seq::<A>::empty().push(s[i]).to_multiset());
    assert(Seq::<A>::empty().to_multiset() =~= Multiset::empty());
}

/// Walks the two sorted id lists and returns `false` as soon as an id occurs in both.
pub fn try_merge_event_ids(id_list1: &[u64], id_list2: &[u64]) -> (res: bool)
    ensures
        is_sorted(id_list1@) && is_sorted(id_list2@) ==> (res <==> disjoint(id_list1@, id_list2@)),
{
    let n = id_list1.len();
    let m = id_list2.len();
    let mut i: usize = 0;
    let mut j: usize = 0;
    while i < n && j < m
        invariant
            n == id_list1@.len(),
            m == id_list2@.len(),
            0 <= i <= n,
            0 <= j <= m,
            is_sorted(id_list1@) && is_sorted(id_list2@) ==> {
                &&& forall|p: int, q: int| 0 <= p < i && 0 <= q < m ==> id_list1@[p] != id_list2@[q]
                &&& forall|p: int, q: int| 0 <= q < j && 0 <= p < n ==> id_list1@[p] != id_list2@[q]
                &&& i < n ==> forall|q: int| 0 <= q < j ==> id_list2@[q] < id_list1@[i as int]
                &&& j < m ==> forall|p: int| 0 <= p < i ==> id_list1@[p] < id_list2@[j as int]
            },
        decreases n - i + m - j,
    {
        let id1 = id_list1[i];
        let id2 = id_list2[j];
        if id1 < id2 {
            i += 1;
        } else if id1 == id2 {
            return false;
        } else {
            j += 1;
        }
    }
    true
}

/// Merges two sorted id lists into one sorted list; `None` when some id occurs in both.
pub fn merge_event_ids(id_list1: &[u64], id_list2: &[u64]) -> (res: Option<Vec<u64>>)
    ensures
        is_sorted(id_list1@) && is_sorted(id_list2@) ==> {
            &&& (res is Some <==> disjoint(id_list1@, id_list2@))
            &&& res matches Some(merged) ==> {
                &&& is_sorted(merged@)
                &&& merged@.to_multiset() == id_list1@.to_multiset().add(id_list2@.to_multiset())
            }
        },
{
    if !try_merge_event_ids(id_list1, id_list2) {
        return None;
    }
    let n = id_list1.len();
    let m = id_list2.len();
    let ghost a = id_list1@;
    let ghost b = id_list2@;
    let mut merged: Vec<u64> = Vec::new();
    let mut i: usize = 0;
    let mut j: usize = 0;
    while i < n && j < m
        invariant
            n == a.len(),
            m == b.len(),
            a == id_list1@,
            b == id_list2@,
            0 <= i <= n,
            0 <= j <= m,
            is_sorted(a) && is_sorted(b) ==> {
                &&& is_sorted(merged@)
                &&& disjoint(a, b)
                &&& merged@.to_multiset().add(a.skip(i as int).to_multiset()).add(
                    b.skip(j as int).to_multiset(),
                ) == a.to_multiset().add(b.to_multiset())
                &&& merged@.len() > 0 && i < n ==> merged@.last() <= a[i as int]
                &&& merged@.len() > 0 && j < m ==> merged@.last() <= b[j as int]
            },
        decreases n - i + m - j,
    {
        let id1 = id_list1[i];
        let id2 = id_list2[j];
        if id1 < id2 {
            proof {
                if is_sorted(a) && is_sorted(b) {
                    lemma_skip_multiset(a, i as int);
                }
            }
            merged.push(id1);
            i += 1;
        } else if id1 == id2 {
            return None;
        } else {
            proof {
                if is_sorted(a) && is_sorted(b) {
                    lemma_skip_multiset(b, j as int);
                }
            }
            merged.push(id2);
            j += 1;
        }
    }
    while i < n
        invariant
            n == a.len(),
            m == b.len(),
            a == id_list1@,
            b == id_list2@,
            0 <= i <= n,
            0 <= j <= m,
            i < n ==> j == m,
            is_sorted(a) && is_sorted(b) ==> {
                &&& is_sorted(merged@)
                &&& disjoint(a, b)
                &&& merged@.to_multiset().add(a.skip(i as int).to_multiset()).add(
                    b.skip(j as int).to_multiset(),
                ) == a.to_multiset().add(b.to_multiset())
                &&& merged@.len() > 0 && i < n ==> merged@.last() <= a[i as int]
                &&& merged@.len() > 0 && j < m ==> merged@.last() <= b[j as int]
            },
        decreases n - i,
    {
        proof {
            if is_sorted(a) && is_sorted(b) {
                lemma_skip_multiset(a, i as int);
            }
        }
        merged.push(id_list1[i]);
        i += 1;
    }
    while j < m
        invariant
            n == a.len(),
            m == b.len(),
            a == id_list1@,
            b == id_list2@,
            i == n,
            0 <= j <= m,
            is_sorted(a) && is_sorted(b) ==> {
                &&& is_sorted(merged@)
                &&& disjoint(a, b)
                &&& merged@.to_multiset().add(a.skip(i as int).to_multiset()).add(
                    b.skip(j as int).to_multiset(),
                ) == a.to_multiset().add(b.to_multiset())
                &&& merged@.len() > 0 && j < m ==> merged@.last() <= b[j as int]
            },
        decreases m - j,
    {
        proof {
            if is_sorted(a) && is_sorted(b) {
                lemma_skip_multiset(b, j as int);
            }
        }
        merged.push(id_list2[j]);
        j += 1;
    }
    proof {
        if is_sorted(a) && is_sorted(b) {
            assert(a.skip(n as int) =~= Seq::<u64>::empty());
            assert(b.skip(m as int) =~= Seq::<u64>::empty());
            assert(Seq::<u64>::empty().to_multiset() =~= Multiset::empty());
        }
    }
    Some(merged)
}

/// Entries are sorted by strictly increasing input entity id.
pub open spec fn keys_sorted(s: Seq<(u64, u64)>) -> bool {
    forall|i: int, j: int| 0 <= i < j < s.len() ==> s[i].0 < s[j].0
}

/// Two `(input entity, pattern entity)` pairs agree: the same input entity goes with the same
/// pattern entity, and distinct input entities go with distinct pattern entities.
pub open spec fn consistent(x: (u64, u64), y: (u64, u64)) -> bool {
    (x.0 == y.0) == (x.1 == y.1)
}

/// Every pair of entries in `a` and `b` is consistent: their union is a one-to-one mapping
/// between input entities and pattern entities.
pub open spec fn entities_mergeable(a: Seq<(u64, u64)>, b: Seq<(u64, u64)>) -> bool {
    &&& forall|p1: int, p2: int| 0 <= p1 < a.len() && 0 <= p2 < a.len() ==> consistent(a[p1], a[p2])
    &&& forall|q1: int, q2: int| 0 <= q1 < b.len() && 0 <= q2 < b.len() ==> consistent(b[q1], b[q2])
    &&& forall|p: int, q: int| 0 <= p < a.len() && 0 <= q < b.len() ==> consistent(a[p], b[q])
}

/// Every pattern entity id in `s` is below `bound`.
pub open spec fn pattern_ids_below(s: Seq<(u64, u64)>, bound: nat) -> bool {
    forall|i: int| 0 <= i < s.len() ==> s[i].1 < bound
}

/// The first `i` entries of `a` and first `j` entries of `b` are pairwise consistent.
spec fn prefix_consistent(a: Seq<(u64, u64)>, b: Seq<(u64, u64)>, i: int, j: int) -> bool {
    entities_mergeable(a.take(i), b.take(j))
}

proof fn lemma_used_conflict(
    sa: Seq<(u64, u64)>,
    sb: Seq<(u64, u64)>,
    i: int,
    j: int,
    used: Seq<bool>,
    max: nat,
)
    requires
        keys_sorted(sa),
        keys_sorted(sb),
        0 <= i <= sa.len(),
        0 <= j <= sb.len(),
        used.len() == max,
        pattern_ids_below(sa, max),
        pattern_ids_below(sb, max),
        forall|k: int| 0 <= k < max && #[trigger] used[k] ==> (exists|p: int|
            0 <= p < i && sa[p].1 == k) || (exists|q: int| 0 <= q < j && sb[q].1 == k),
        i < sa.len() ==> forall|q: int| 0 <= q < j ==> sb[q].0 < sa[i].0,
        j < sb.len() ==> forall|p: int| 0 <= p < i ==> sa[p].0 < sb[j].0,
        (i < sa.len() && used[sa[i].1 as int]) || (j < sb.len() && used[sb[j].1 as int]),
    ensures
        !entities_mergeable(sa, sb),
{
    if i < sa.len() && used[sa[i].1 as int] {
        let k = sa[i].1 as int;
        assert(used[k]);
        if exists|p: int| 0 <= p < i && sa[p].1 == k {
            let p = choose|p: int| 0 <= p < i && sa[p].1 == k;
            assert(!consistent(sa[p], sa[i]));
        } else {
            let q = choose|q: int| 0 <= q < j && sb[q].1 == k;
            assert(!consistent(sa[i], sb[q]));
        }
    } else {
        let k = sb[j].1 as int;
        assert(used[k]);
        if exists|p: int| 0 <= p < i && sa[p].1 == k {
            let p = choose|p: int| 0 <= p < i && sa[p].1 == k;
            assert(!consistent(sa[p], sb[j]));
        } else {
            let q = choose|q: int| 0 <= q < j && sb[q].1 == k;
            assert(!consistent(sb[q], sb[j]));
        }
    }
}

proof fn lemma_extend_a(sa: Seq<(u64, u64)>, sb: Seq<(u64, u64)>, i: int, j: int, used: Seq<bool>)
    requires
        keys_sorted(sa),
        keys_sorted(sb),
        0 <= i < sa.len(),
        0 <= j <= sb.len(),
        prefix_consistent(sa, sb, i, j),
        forall|q: int| 0 <= q < j ==> sb[q].0 < sa[i].0,
        j < sb.len() ==> sa[i].0 < sb[j].0,
        j < sb.len() ==> forall|p: int| 0 <= p < i ==> sa[p].0 < sb[j].0,
        forall|p: int| 0 <= p < i ==> used[sa[p].1 as int],
        forall|q: int| 0 <= q < j ==> used[sb[q].1 as int],
        !used[sa[i].1 as int],
    ensures
        prefix_consistent(sa, sb, i + 1, j),
        i + 1 < sa.len() ==> forall|q: int| 0 <= q < j ==> sb[q].0 < sa[i + 1].0,
        j < sb.len() ==> forall|p: int| 0 <= p < i + 1 ==> sa[p].0 < sb[j].0,
{
    let ta = sa.take(i + 1);
    let tb = sb.take(j);
    assert forall|p1: int, p2: int| 0 <= p1 < ta.len() && 0 <= p2 < ta.len() implies consistent(
        ta[p1],
        ta[p2],
    ) by {
        if p1 < i && p2 < i {
            assert(sa.take(i)[p1] == ta[p1]);
            assert(sa.take(i)[p2] == ta[p2]);
        }
    }
    assert forall|p: int, q: int| 0 <= p < ta.len() && 0 <= q < tb.len() implies consistent(
        ta[p],
        tb[q],
    ) by {
        if p < i {
            assert(sa.take(i)[p] == ta[p]);
        }
    }
}

proof fn lemma_extend_b(sa: Seq<(u64, u64)>, sb: Seq<(u64, u64)>, i: int, j: int, used: Seq<bool>)
    requires
        keys_sorted(sa),
        keys_sorted(sb),
        0 <= i <= sa.len(),
        0 <= j < sb.len(),
        prefix_consistent(sa, sb, i, j),
        forall|p: int| 0 <= p < i ==> sa[p].0 < sb[j].0,
        i < sa.len() ==> sb[j].0 < sa[i].0,
        i < sa.len() ==> forall|q: int| 0 <= q < j ==> sb[q].0 < sa[i].0,
        forall|p: int| 0 <= p < i ==> used[sa[p].1 as int],
        forall|q: int| 0 <= q < j ==> used[sb[q].1 as int],
        !used[sb[j].1 as int],
    ensures
        prefix_consistent(sa, sb, i, j + 1),
        j + 1 < sb.len() ==> forall|p: int| 0 <= p < i ==> sa[p].0 < sb[j + 1].0,
        i < sa.len() ==> forall|q: int| 0 <= q < j + 1 ==> sb[q].0 < sa[i].0,
{
    let ta = sa.take(i);
    let tb = sb.take(j + 1);
    assert forall|q1: int, q2: int| 0 <= q1 < tb.len() && 0 <= q2 < tb.len() implies consistent(
        tb[q1],
        tb[q2],
    ) by {
        if q1 < j && q2 < j {
            assert(sb.take(j)[q1] == tb[q1]);
            assert(sb.take(j)[q2] == tb[q2]);
        }
    }
    assert forall|p: int, q: int| 0 <= p < ta.len() && 0 <= q < tb.len() implies consistent(
        ta[p],
        tb[q],
    ) by {
        if q < j {
            assert(sb.take(j)[q] == tb[q]);
        }
    }
}

proof fn lemma_extend_both(sa: Seq<(u64, u64)>, sb: Seq<(u64, u64)>, i: int, j: int, used: Seq<bool>)
    requires
        keys_sorted(sa),
        keys_sorted(sb),
        0 <= i < sa.len(),
        0 <= j < sb.len(),
        prefix_consistent(sa, sb, i, j),
        sa[i] == sb[j],
        forall|q: int| 0 <= q < j ==> sb[q].0 < sa[i].0,
        forall|p: int| 0 <= p < i ==> sa[p].0 < sb[j].0,
        forall|p: int| 0 <= p < i ==> used[sa[p].1 as int],
        forall|q: int| 0 <= q < j ==> used[sb[q].1 as int],
        !used[sa[i].1 as int],
    ensures
        prefix_consistent(sa, sb, i + 1, j + 1),
        i + 1 < sa.len() ==> forall|q: int| 0 <= q < j + 1 ==> sb[q].0 < sa[i + 1].0,
        j + 1 < sb.len() ==> forall|p: int| 0 <= p < i + 1 ==> sa[p].0 < sb[j + 1].0,
{
    let ta = sa.take(i + 1);
    let tb = sb.take(j + 1);
    assert forall|p1: int, p2: int| 0 <= p1 < ta.len() && 0 <= p2 < ta.len() implies consistent(
        ta[p1],
        ta[p2],
    ) by {
        if p1 < i && p2 < i {
            assert(sa.take(i)[p1] == ta[p1]);
            assert(sa.take(i)[p2] == ta[p2]);
        }
    }
    assert forall|q1: int, q2: int| 0 <= q1 < tb.len() && 0 <= q2 < tb.len() implies consistent(
        tb[q1],
        tb[q2],
    ) by {
        if q1 < j && q2 < j {
            assert(sb.take(j)[q1] == tb[q1]);
            assert(sb.take(j)[q2] == tb[q2]);
        }
    }
    assert forall|p: int, q: int| 0 <= p < ta.len() && 0 <= q < tb.len() implies consistent(
        ta[p],
        tb[q],
    ) by {
        if p < i && q < j {
            assert(sa.take(i)[p] == ta[p]);
            assert(sb.take(j)[q] == tb[q]);
        }
    }
}

fn false_vec(len: usize) -> (res: Vec<bool>)
    ensures
        res@.len() == len,
        forall|k: int| 0 <= k < len ==> !res@[k],
{
    let mut v: Vec<bool> = Vec::new();
    let mut k: usize = 0;
    while k < len
        invariant
            k <= len,
            v@.len() == k,
            forall|t: int| 0 <= t < k ==> !v@[t],
        decreases len - k,
    {
        v.push(false);
        k += 1;
    }
    v
}

/// Checks that the two sorted entity lists can be merged: a shared input entity matches the same
/// pattern entity in both, and no pattern entity is matched by two different input entities.
pub fn try_merge_entities(a: &[(u64, u64)], b: &[(u64, u64)], max_num_entities: usize) -> (res: bool)
    requires
        pattern_ids_below(a@, max_num_entities as nat),
        pattern_ids_below(b@, max_num_entities as nat),
    ensures
        keys_sorted(a@) && keys_sorted(b@) ==> (res <==> entities_mergeable(a@, b@)),
{
    let mut used = false_vec(max_num_entities);
    let n = a.len();
    let m = b.len();
    let ghost sa = a@;
    let ghost sb = b@;
    let mut i: usize = 0;
    let mut j: usize = 0;
    while i < n || j < m
        invariant
            n == sa.len(),
            m == sb.len(),
            sa == a@,
            sb == b@,
            0 <= i <= n,
            0 <= j <= m,
            used@.len() == max_num_entities,
            pattern_ids_below(sa, max_num_entities as nat),
            pattern_ids_below(sb, max_num_entities as nat),
            forall|p: int| 0 <= p < i ==> used@[sa[p].1 as int],
            forall|q: int| 0 <= q < j ==> used@[sb[q].1 as int],
            forall|k: int| 0 <= k < max_num_entities && #[trigger] used@[k] ==> (exists|p: int|
                0 <= p < i && sa[p].1 == k) || (exists|q: int| 0 <= q < j && sb[q].1 == k),
            keys_sorted(sa) && keys_sorted(sb) ==> {
                &&& prefix_consistent(sa, sb, i as int, j as int)
                &&& i < n ==> forall|q: int| 0 <= q < j ==> sb[q].0 < sa[i as int].0
                &&& j < m ==> forall|p: int| 0 <= p < i ==> sa[p].0 < sb[j as int].0
            },
        decreases n - i + m - j,
    {
        let ghost ta = sa.take(i as int);
        let ghost tb = sb.take(j as int);
        if i < n && j < m {
            let node1 = a[i];
            let node2 = b[j];
            if used[node1.1 as usize] || used[node2.1 as usize] {
                proof {
                    if keys_sorted(sa) && keys_sorted(sb) {
                        lemma_used_conflict(sa, sb, i as int, j as int, used@, max_num_entities as nat);
                    }
                }
                return false;
            }
            if node1.0 < node2.0 {
                proof {
                    if keys_sorted(sa) && keys_sorted(sb) {
                        lemma_extend_a(sa, sb, i as int, j as int, used@);
                    }
                }
                used.set(node1.1 as usize, true);
                i += 1;
            } else if node1.0 > node2.0 {
                proof {
                    if keys_sorted(sa) && keys_sorted(sb) {
                        lemma_extend_b(sa, sb, i as int, j as int, used@);
                    }
                }
                used.set(node2.1 as usize, true);
                j += 1;
            } else {
                if node1.1 != node2.1 {
                    proof {
                        assert(!consistent(sa[i as int], sb[j as int]));
                    }
                    return false;
                }
                proof {
                    if keys_sorted(sa) && keys_sorted(sb) {
                        lemma_extend_both(sa, sb, i as int, j as int, used@);
                    }
                }
                used.set(node1.1 as usize, true);
                i += 1;
                j += 1;
            }
        } else if i < n {
            let node = a[i];
            if used[node.1 as usize] {
                proof {
                    if keys_sorted(sa) && keys_sorted(sb) {
                        lemma_used_conflict(sa, sb, i as int, j as int, used@, max_num_entities as nat);
                    }
                }
                return false;
            }
            proof {
                if keys_sorted(sa) && keys_sorted(sb) {
                    lemma_extend_a(sa, sb, i as int, j as int, used@);
                }
            }
            used.set(node.1 as usize, true);
            i += 1;
        } else {
            let node = b[j];
            if used[node.1 as usize] {
                proof {
                    if keys_sorted(sa) && keys_sorted(sb) {
                        lemma_used_conflict(sa, sb, i as int, j as int, used@, max_num_entities as nat);
                    }
                }
                return false;
            }
            proof {
                if keys_sorted(sa) && keys_sorted(sb) {
                    lemma_extend_b(sa, sb, i as int, j as int, used@);
                }
            }
            used.set(node.1 as usize, true);
            j += 1;
        }
    }
    proof {
        if keys_sorted(sa) && keys_sorted(sb) {
            assert(sa.take(n as int) =~= sa);
            assert(sb.take(m as int) =~= sb);
        }
    }
    true
}

/// Merges two sorted entity lists into one sorted list holding each pair once;
/// `None` when they cannot be merged (see `try_merge_entities`).
pub fn merge_entities(a: &[(u64, u64)], b: &[(u64, u64)], max_num_entities: usize) -> (res: Option<
    Vec<(u64, u64)>,
>)
    requires
        pattern_ids_below(a@, max_num_entities as nat),
        pattern_ids_below(b@, max_num_entities as nat),
    ensures
        keys_sorted(a@) && keys_sorted(b@) ==> {
            &&& (res is Some <==> entities_mergeable(a@, b@))
            &&& res matches Some(merged) ==> {
                &&& keys_sorted(merged@)
                &&& forall|x: (u64, u64)| #[trigger]
                    merged@.contains(x) <==> a@.contains(x) || b@.contains(x)
            }
        },
{
    if !try_merge_entities(a, b, max_num_entities) {
        return None;
    }
    let n = a.len();
    let m = b.len();
    let ghost sa = a@;
    let ghost sb = b@;
    let mut merged: Vec<(u64, u64)> = Vec::new();
    let mut i: usize = 0;
    let mut j: usize = 0;
    while i < n || j < m
        invariant
            n == sa.len(),
            m == sb.len(),
            sa == a@,
            sb == b@,
            0 <= i <= n,
            0 <= j <= m,
            keys_sorted(sa) && keys_sorted(sb) ==> {
                &&& entities_mergeable(sa, sb)
                &&& keys_sorted(merged@)
                &&& forall|x: (u64, u64)| #[trigger]
                    merged@.contains(x) <==> sa.take(i as int).contains(x) || sb.take(
                        j as int,
                    ).contains(x)
                &&& merged@.len() > 0 && i < n ==> merged@.last().0 < sa[i as int].0
                &&& merged@.len() > 0 && j < m ==> merged@.last().0 < sb[j as int].0
            },
        decreases n - i + m - j,
    {
        let ghost old_merged = merged@;
        if i < n && (j >= m || a[i].0 < b[j].0) {
            merged.push(a[i]);
            proof {
                if keys_sorted(sa) && keys_sorted(sb) {
                    assert(sa.take(i + 1) =~= sa.take(i as int).push(sa[i as int]));
                    assert forall|x: (u64, u64)| sa.take(i + 1).contains(x) || sb.take(
                            j as int,
                        ).contains(x) implies #[trigger] merged@.contains(x) by {
                        if x == sa[i as int] {
                            assert(merged@[merged@.len() - 1] == x);
                        } else if sa.take(i + 1).contains(x) {
                            assert(sa.take(i as int).contains(x));
                            assert(old_merged.contains(x));
                        } else {
                            assert(old_merged.contains(x));
                        }
                    }
                }
            }
            i += 1;
        } else if i >= n || a[i].0 > b[j].0 {
            merged.push(b[j]);
            proof {
                if keys_sorted(sa) && keys_sorted(sb) {
                    assert(sb.take(j + 1) =~= sb.take(j as int).push(sb[j as int]));
                    assert forall|x: (u64, u64)| sa.take(i as int).contains(x) || sb.take(
                            j + 1,
                        ).contains(x) implies #[trigger] merged@.contains(x) by {
                        if x == sb[j as int] {
                            assert(merged@[merged@.len() - 1] == x);
                        } else if sb.take(j + 1).contains(x) {
                            assert(sb.take(j as int).contains(x));
                            assert(old_merged.contains(x));
                        } else {
                            assert(old_merged.contains(x));
                        }
                    }
                }
            }
            j += 1;
        } else {
            merged.push(a[i]);
            proof {
                if keys_sorted(sa) && keys_sorted(sb) {
                    assert(consistent(sa[i as int], sb[j as int]));
                    assert(sa[i as int] == sb[j as int]);
                    assert(sa.take(i + 1) =~= sa.take(i as int).push(sa[i as int]));
                    assert(sb.take(j + 1) =~= sb.take(j as int).push(sb[j as int]));
                    assert forall|x: (u64, u64)| sa.take(i + 1).contains(x) || sb.take(
                            j + 1,
                        ).contains(x) implies #[trigger] merged@.contains(x) by {
                        if x == sa[i as int] {
                            assert(merged@[merged@.len() - 1] == x);
                        } else if sa.take(i + 1).contains(x) {
                            assert(sa.take(i as int).contains(x));
                            assert(old_merged.contains(x));
                        } else {
                            assert(sb.take(j as int).contains(x));
                            assert(old_merged.contains(x));
                        }
                    }
                }
            }
            i += 1;
            j += 1;
        }
    }
    proof {
        if keys_sorted(sa) && keys_sorted(sb) {
            assert(sa.take(n as int) =~= sa);
            assert(sb.take(m as int) =~= sb);
        }
    }
    Some(merged)
}

/// Sorts `v` in non-decreasing order.
fn sort_ids(v: &mut Vec<u64>)
    ensures
        is_sorted(final(v)@),
        final(v)@.to_multiset() == old(v)@.to_multiset(),
{
    let mut sorted: Vec<u64> = Vec::new();
    let mut k: usize = 0;
    assert(v@.take(0).to_multiset() =~= Multiset::empty());
    while k < v.len()
        invariant
            k <= v@.len(),
            v@ == old(v)@,
            is_sorted(sorted@),
            sorted@.to_multiset() == v@.take(k as int).to_multiset(),
        decreases v@.len() - k,
    {
        let x = v[k];
        let mut p: usize = 0;
        while p < sorted.len() && sorted[p] <= x
            invariant
                p <= sorted@.len(),
                forall|i: int| 0 <= i < p ==> sorted@[i] <= x,
            decreases sorted@.len() - p,
        {
            p += 1;
        }
        let ghost s = sorted@;
        sorted.insert(p, x);
        proof {
            assert forall|i: int, j: int| 0 <= i < j < sorted@.len() implies sorted@[i] <= sorted@[j] by {
                if j < p {
                } else if j == p {
                } else if i < p {
                    assert(s[i] <= s[j - 1]);
                } else if i == p {
                    assert(s[p as int] > x);
                    assert(s[p as int] <= s[j - 1]);
                } else {
                    assert(s[i - 1] <= s[j - 1]);
                }
            }
            assert(v@.take(k + 1) =~= v@.take(k as int).push(x));
        }
        k += 1;
    }
    assert(v@.take(v@.len() as int) =~= v@);
    *v = sorted;
}

/// The ids of the input events of `events`, in order.
pub open spec fn all_event_ids(events: Seq<MatchEvent>) -> Seq<u64>
    decreases events.len(),
{
    if events.len() == 0 {
        Seq::empty()
    } else {
        all_event_ids(events.drop_last()) + events.last().raw_events.ids()
    }
}

/// The last of `events` that matches pattern event `k`.
pub open spec fn last_event_for(events: Seq<MatchEvent>, k: int) -> Option<MatchEvent>
    decreases events.len(),
{
    if events.len() == 0 {
        None
    } else if events.last().match_id == k {
        Some(events.last())
    } else {
        last_event_for(events.drop_last(), k)
    }
}

/// The event behind an optional shared pointer.
pub open spec fn deref_event(entry: Option<Rc<MatchEvent>>) -> Option<MatchEvent> {
    match entry {
        Some(event) => Some(*event),
        None => None,
    }
}

/// The entry-wise merge of two event maps: the first map's entry where it has one.
pub open spec fn merged_event_map<T>(map1: Seq<Option<Rc<T>>>, map2: Seq<Option<Rc<T>>>) -> Seq<
    Option<Rc<T>>,
> {
    Seq::new(map1.len(), |k: int| if map1[k] is Some { map1[k] } else { map2[k] })
}

/// Merges two event maps of the same length, entry by entry.
///
/// Since pattern events in sub-patterns are disjoint, no entry is present in both.
pub fn merge_match_event_map<T>(event_map1: &[Option<Rc<T>>], event_map2: &[Option<Rc<T>>]) -> (res: Vec<
    Option<Rc<T>>,
>)
    requires
        event_map1@.len() == event_map2@.len(),
    ensures
        res@ == merged_event_map(event_map1@, event_map2@),
{
    let mut merged: Vec<Option<Rc<T>>> = Vec::new();
    let mut k: usize = 0;
    while k < event_map1.len()
        invariant
            k <= event_map1@.len(),
            event_map1@.len() == event_map2@.len(),
            merged@ =~= merged_event_map(event_map1@, event_map2@).take(k as int),
        decreases event_map1@.len() - k,
    {
        let entry = match &event_map1[k] {
            Some(a) => Some(Rc::clone(a)),
            None => match &event_map2[k] {
                Some(b) => Some(Rc::clone(b)),
                None => None,
            },
        };
        merged.push(entry);
        k += 1;
    }
    merged
}

/// A match of a sub-pattern, or of the union of sibling sub-patterns.
#[derive(Debug)]
pub struct SubPatternMatch {
    /// The timestamp of the last event, which is also the latest timestamp.
    pub latest_time: u64,
    /// The timestamp of the earliest event; for determining expiry of this match.
    pub earliest_time: u64,
    /// Sorted input event ids for event uniqueness determination.
    pub event_ids: Vec<u64>,
    /// `match_event_map[matched_id] = input_event`
    ///
    /// `match_event_map.len()` == number of events in the whole pattern.
    pub match_event_map: Vec<Option<Rc<MatchEvent>>>,
    /// The id of the matched sub-pattern.
    pub id: usize,
    /// Sorted array of `(input entity id, pattern entity id)`.
    pub match_entities: Vec<(u64, u64)>,
}

/// Two matches of sibling buffers can be joined: no input event in both, the order relations
/// between them hold, and their entities agree.
pub open spec fn can_merge(buffer: SubPatternBuffer, m1: SubPatternMatch, m2: SubPatternMatch) -> bool {
    &&& disjoint(m1.event_ids@, m2.event_ids@)
    &&& orders_kept(buffer.relation.event_orders@, merged_event_map(m1.match_event_map@, m2.match_event_map@))
    &&& entities_mergeable(m1.match_entities@, m2.match_entities@)
}

/// `r` is the join of `m1` and `m2`.
pub open spec fn is_merge_of(buffer: SubPatternBuffer, m1: SubPatternMatch, m2: SubPatternMatch, r: SubPatternMatch) -> bool {
    &&& r.id == 0
    &&& r.latest_time == if m1.latest_time >= m2.latest_time { m1.latest_time } else { m2.latest_time }
    &&& r.earliest_time == if m1.earliest_time <= m2.earliest_time { m1.earliest_time } else { m2.earliest_time }
    &&& r.event_ids@.to_multiset() == m1.event_ids@.to_multiset().add(m2.event_ids@.to_multiset())
    &&& r.match_event_map@ == merged_event_map(m1.match_event_map@, m2.match_event_map@)
    &&& forall|x: (u64, u64)| #[trigger] r.match_entities@.contains(x) <==> m1.match_entities@.contains(x)
        || m2.match_entities@.contains(x)
    &&& r.well_formed(m1.match_event_map@.len(), buffer.max_num_entities as nat)
}

/// `r` is the sub-pattern match that a complete match instance of sub-pattern `sub_pattern_id`
/// makes, for a pattern of `num_pattern_event` events.
pub open spec fn built_from(r: SubPatternMatch, sub_pattern_id: u32, match_instance: MatchInstance, num_pattern_event: nat) -> bool {
    &&& r.id == sub_pattern_id as usize
    &&& r.latest_time == match_instance.match_events@.last().raw_events.interval().1
    &&& r.earliest_time == match_instance.start_time
    &&& r.match_entities@ == match_instance.match_entities@
    &&& is_sorted(r.event_ids@)
    &&& r.event_ids@.to_multiset() == all_event_ids(match_instance.match_events@).to_multiset()
    &&& r.match_event_map@.len() == num_pattern_event
    &&& forall|k: int|
        0 <= k < num_pattern_event ==> deref_event(#[trigger] r.match_event_map@[k])
            == last_event_for(match_instance.match_events@, k)
    &&& map_well_formed(r.match_event_map@)
}

impl SubPatternMatch {
    /// The invariants that joining relies on: ids and entities sorted, one map entry per
    /// pattern event, pattern entities in range, events well-formed.
    pub open spec fn well_formed(&self, num_events: nat, max_num_entities: nat) -> bool {
        &&& is_sorted(self.event_ids@)
        &&& keys_sorted(self.match_entities@)
        &&& self.match_event_map@.len() == num_events
        &&& pattern_ids_below(self.match_entities@, max_num_entities)
        &&& map_well_formed(self.match_event_map@)
    }

    /// Turns a complete match instance of sub-pattern `sub_pattern_id` into a sub-pattern
    /// match; `None` when the instance holds no event.
    pub fn build(sub_pattern_id: u32, match_instance: MatchInstance, num_pattern_event: usize) -> (res:
        Option<Self>)
        requires
            forall|i: int|
                0 <= i < match_instance.match_events@.len() ==> (#[trigger] match_instance.match_events@[i]).match_id
                    < num_pattern_event && match_instance.match_events@[i].raw_events.well_formed(),
        ensures
            res is None <==> match_instance.match_events@.len() == 0,
            res matches Some(r) ==> built_from(r, sub_pattern_id, match_instance, num_pattern_event as nat),
    {
        let MatchInstance { start_time, match_events, match_entities, event_ids: _, state_id: _ } =
            match_instance;
        let ghost orig = match_events@;
        let n = match_events.len();
        if n == 0 {
            return None;
        }
        let latest_time = match_events[n - 1].raw_events.get_interval().1;
        let earliest_time = start_time;

        let mut event_ids: Vec<u64> = Vec::new();
        let mut i: usize = 0;
        while i < n
            invariant
                n == orig.len(),
                orig == match_events@,
                i <= n,
                event_ids@ == all_event_ids(orig.take(i as int)),
            decreases n - i,
        {
            let ids = match_events[i].raw_events.get_ids();
            let ghost before = event_ids@;
            let mut j: usize = 0;
            while j < ids.len()
                invariant
                    j <= ids@.len(),
                    event_ids@ == before + ids@.take(j as int),
                decreases ids@.len() - j,
            {
                event_ids.push(ids[j]);
                assert(ids@.take(j + 1) =~= ids@.take(j as int).push(ids@[j as int]));
                j += 1;
            }
            assert(ids@.take(ids@.len() as int) =~= ids@);
            assert(orig.take(i + 1).drop_last() =~= orig.take(i as int));
            i += 1;
        }
        assert(orig.take(n as int) =~= orig);
        let ghost unsorted = event_ids@;
        sort_ids(&mut event_ids);

        let mut match_event_map: Vec<Option<Rc<MatchEvent>>> = Vec::new();
        let mut k: usize = 0;
        while k < num_pattern_event
            invariant
                k <= num_pattern_event,
                match_event_map@.len() == k,
                forall|j: int| 0 <= j < k ==> #[trigger] match_event_map@[j] is None,
            decreases num_pattern_event - k,
        {
            match_event_map.push(None);
            k += 1;
        }
        let mut events = match_events;
        while events.len() > 0
            invariant
                match_event_map@.len() == num_pattern_event,
                orig.len() >= events@.len(),
                events@ == orig.take(events@.len() as int),
                forall|i: int|
                    0 <= i < orig.len() ==> (#[trigger] orig[i]).match_id < num_pattern_event
                        && orig[i].raw_events.well_formed(),
                forall|j: int|
                    0 <= j < num_pattern_event ==> last_event_for(orig, j) == match deref_event(
                        #[trigger] match_event_map@[j],
                    ) {
                        Some(e) => Some(e),
                        None => last_event_for(events@, j),
                    },
                map_well_formed(match_event_map@),
            decreases events@.len(),
        {
            let ghost before = events@;
            let event = events.pop().unwrap();
            proof {
                assert(events@ =~= orig.take(events@.len() as int));
                assert(before.last() == orig[before.len() - 1]);
                assert forall|j: int| 0 <= j < num_pattern_event && j != event.match_id implies last_event_for(
                    before,
                    j,
                ) == last_event_for(events@, j) by {
                    assert(before.drop_last() =~= events@);
                }
                assert(before.drop_last() =~= events@);
            }
            let id = event.match_id as usize;
            if match_event_map[id].is_none() {
                match_event_map.set(id, Some(Rc::new(event)));
            }
        }
        proof {
            assert forall|j: int| 0 <= j < num_pattern_event implies deref_event(
                #[trigger] match_event_map@[j],
            ) == last_event_for(orig, j) by {
                assert(last_event_for(events@, j) is None);
            }
        }
        Some(SubPatternMatch {
            id: sub_pattern_id as usize,
            latest_time,
            earliest_time,
            event_ids,
            match_entities,
            match_event_map,
        })
    }

    /// Joins two matches of sibling buffers: their input events must be distinct, the order
    /// relations between them must hold, and their entities must agree.
    pub fn merge_matches(sub_pattern_buffer: &SubPatternBuffer, sub_pattern_match1: &Self, sub_pattern_match2: &Self) -> (res:
        Option<Self>)
        requires
            sub_pattern_match1.well_formed(
                sub_pattern_match1.match_event_map@.len(),
                sub_pattern_buffer.max_num_entities as nat,
            ),
            sub_pattern_match2.well_formed(
                sub_pattern_match1.match_event_map@.len(),
                sub_pattern_buffer.max_num_entities as nat,
            ),
            orders_below(
                sub_pattern_buffer.relation.event_orders@,
                sub_pattern_match1.match_event_map@.len(),
            ),
        ensures
            res is Some <==> can_merge(*sub_pattern_buffer, *sub_pattern_match1, *sub_pattern_match2),
            res matches Some(r) ==> is_merge_of(*sub_pattern_buffer, *sub_pattern_match1, *sub_pattern_match2, r),
    {
        let event_ids = match merge_event_ids(&sub_pattern_match1.event_ids, &sub_pattern_match2.event_ids) {
            Some(ids) => ids,
            None => return None,
        };
        let match_event_map = merge_match_event_map(
            &sub_pattern_match1.match_event_map,
            &sub_pattern_match2.match_event_map,
        );
        proof {
            let m1 = sub_pattern_match1.match_event_map@;
            let m2 = sub_pattern_match2.match_event_map@;
            assert forall|i: int| 0 <= i < match_event_map@.len() implies (#[trigger] match_event_map@[i] matches Some(e)
                ==> e.raw_events.well_formed()) by {
                if m1[i] is Some {
                    assert(m1[i] matches Some(e) ==> e.raw_events.well_formed());
                } else {
                    assert(m2[i] matches Some(e) ==> e.raw_events.well_formed());
                }
            }
        }
        if !sub_pattern_buffer.relation.check_order_relation(&match_event_map) {
            return None;
        }
        let match_entities = match merge_entities(
            &sub_pattern_match1.match_entities,
            &sub_pattern_match2.match_entities,
            sub_pattern_buffer.max_num_entities,
        ) {
            Some(entities) => entities,
            None => return None,
        };
        proof {
            let bound = sub_pattern_buffer.max_num_entities as nat;
            assert forall|i: int| 0 <= i < match_entities@.len() implies match_entities@[i].1 < bound by {
                let x = match_entities@[i];
                assert(match_entities@.contains(x));
                if sub_pattern_match1.match_entities@.contains(x) {
                    let j = choose|j: int| 0 <= j < sub_pattern_match1.match_entities@.len() && sub_pattern_match1.match_entities@[j] == x;
                } else {
                    let j = choose|j: int| 0 <= j < sub_pattern_match2.match_entities@.len() && sub_pattern_match2.match_entities@[j] == x;
                }
            }
        }
        let latest_time = if sub_pattern_match1.latest_time >= sub_pattern_match2.latest_time {
            sub_pattern_match1.latest_time
        } else {
            sub_pattern_match2.latest_time
        };
        let earliest_time = if sub_pattern_match1.earliest_time <= sub_pattern_match2.earliest_time {
            sub_pattern_match1.earliest_time
        } else {
            sub_pattern_match2.earliest_time
        };
        Some(SubPatternMatch { id: 0, latest_time, earliest_time, match_entities, event_ids, match_event_map })
    }
}

/// A sub-pattern match ordered by its earliest time, the earliest first.
#[derive(Debug)]
pub struct EarliestFirst(pub SubPatternMatch);

/// Borrows a list of optional match events for display.
#[derive(Debug)]
pub struct DebugMatchEventMap<'t>(pub &'t [Option<MatchEvent>]);

} // verus!
