//! Outgoing transition counters of a single node, and the cumulative-weight
//! selection over them.

use vstd::prelude::*;

verus! {

/// One outgoing transition: how often `target` followed the owning symbol.
#[derive(Clone, Copy, Debug, PartialEq, Eq)]
pub struct Edge {
    pub target: u64,
    pub count: u64,
}

/// Sum of all counts.
pub open spec fn total(edges: Seq<Edge>) -> nat
    decreases edges.len(),
{
    if edges.len() == 0 {
        0
    } else {
        total(edges.drop_last()) + edges.last().count as nat
    }
}

pub open spec fn has_target(edges: Seq<Edge>, to: u64) -> bool {
    exists|j: int| 0 <= j < edges.len() && edges[j].target == to
}

/// No target appears twice, and every recorded transition was seen at least once.
pub open spec fn edges_wf(edges: Seq<Edge>) -> bool {
    &&& forall|i: int, j: int|
        0 <= i < j < edges.len() ==> edges[i].target != edges[j].target
    &&& forall|i: int| 0 <= i < edges.len() ==> edges[i].count > 0
}

pub open spec fn position_of(edges: Seq<Edge>, to: u64) -> int {
    choose|j: int| 0 <= j < edges.len() && edges[j].target == to
}

/// How often `to` was recorded (0 when it never was).
pub open spec fn count_of(edges: Seq<Edge>, to: u64) -> nat {
    if has_target(edges, to) {
        edges[position_of(edges, to)].count as nat
    } else {
        0
    }
}

/// The counters after one more transition to `to`: an existing entry grows by
/// one in place, a new one is appended with count 1.
pub open spec fn bump(edges: Seq<Edge>, to: u64) -> Seq<Edge> {
    if has_target(edges, to) {
        let j = position_of(edges, to);
        edges.update(j, Edge { target: to, count: (edges[j].count + 1) as u64 })
    } else {
        edges.push(Edge { target: to, count: 1 })
    }
}

/// Cumulative-weight selection: subtract each count from `draw` in turn and
/// take the first target at which the running value reaches zero or below.
pub open spec fn pick(edges: Seq<Edge>, draw: int) -> Option<u64>
    decreases edges.len(),
{
    if edges.len() == 0 {
        None
    } else if draw - edges[0].count <= 0 {
        Some(edges[0].target)
    } else {
        pick(edges.subrange(1, edges.len() as int), draw - edges[0].count)
    }
}

proof fn lemma_total_first(edges: Seq<Edge>)
    requires
        edges.len() > 0,
    ensures
        total(edges) == edges[0].count + total(edges.subrange(1, edges.len() as int)),
    decreases edges.len(),
{
    if edges.len() > 1 {
        let rest = edges.subrange(1, edges.len() as int);
        lemma_total_first(edges.drop_last());
        assert(edges.drop_last().subrange(1, edges.len() - 1) =~= rest.drop_last());
    } else {
        assert(edges.drop_last() =~= Seq::<Edge>::empty());
        assert(edges.subrange(1, 1) =~= Seq::<Edge>::empty());
    }
}

proof fn lemma_count_le_total(edges: Seq<Edge>, j: int)
    requires
        0 <= j < edges.len(),
    ensures
        edges[j].count <= total(edges),
    decreases edges.len(),
{
    if j < edges.len() - 1 {
        lemma_count_le_total(edges.drop_last(), j);
    }
}

proof fn lemma_total_update(edges: Seq<Edge>, j: int, e: Edge)
    requires
        0 <= j < edges.len(),
    ensures
        total(edges.update(j, e)) == total(edges) - edges[j].count + e.count,
    decreases edges.len(),
{
    let u = edges.update(j, e);
    if j < edges.len() - 1 {
        assert(u.drop_last() =~= edges.drop_last().update(j, e));
        lemma_total_update(edges.drop_last(), j, e);
    } else {
        assert(u.drop_last() =~= edges.drop_last());
    }
}

/// A new transition raises the total by one and keeps the counters well formed.
pub proof fn lemma_bump(edges: Seq<Edge>, to: u64)
    requires
        edges_wf(edges),
        total(edges) < u64::MAX,
    ensures
        edges_wf(bump(edges, to)),
        total(bump(edges, to)) == total(edges) + 1,
        count_of(bump(edges, to), to) == count_of(edges, to) + 1,
        forall|t: u64| t != to ==> count_of(bump(edges, to), t) == count_of(edges, t),
{
    let b = bump(edges, to);
    if has_target(edges, to) {
        let j = position_of(edges, to);
        lemma_count_le_total(edges, j);
        lemma_total_update(edges, j, Edge { target: to, count: (edges[j].count + 1) as u64 });
        assert(b[j].target == to);
        assert forall|t: u64| #[trigger] has_target(b, t) == has_target(edges, t) by {
            if has_target(edges, t) {
                let k = position_of(edges, t);
                assert(b[k].target == t);
            }
            if has_target(b, t) {
                let k = position_of(b, t);
                assert(edges[k].target == t);
            }
        }
    } else {
        assert(b.drop_last() =~= edges);
        assert(b[edges.len() as int].target == to);
        assert forall|t: u64| t != to implies #[trigger] has_target(b, t) == has_target(edges, t) by {
            if has_target(edges, t) {
                let k = position_of(edges, t);
                assert(b[k].target == t);
            }
        }
        assert forall|t: u64| t != to && has_target(b, t) implies #[trigger] position_of(b, t) == position_of(edges, t) by {
            let k2 = position_of(edges, t);
            assert(b[k2].target == t);
        }
    }
}

/// A draw between 1 and the total always selects a recorded target.
pub proof fn lemma_pick_in_range(edges: Seq<Edge>, draw: int)
    requires
        1 <= draw <= total(edges),
    ensures
        pick(edges, draw) is Some,
        has_target(edges, pick(edges, draw)->0),
    decreases edges.len(),
{
    if edges.len() == 0 {
    } else {
        lemma_total_first(edges);
        if draw - edges[0].count > 0 {
            let rest = edges.subrange(1, edges.len() as int);
            lemma_pick_in_range(rest, draw - edges[0].count);
            let k = position_of(rest, pick(rest, draw - edges[0].count)->0);
            assert(edges[k + 1] == rest[k]);
        }
    }
}

/// Sum of all counts.
pub fn total_count(edges: &Vec<Edge>) -> (r: u64)
    requires
        total(edges@) <= u64::MAX,
    ensures
        r == total(edges@),
{
    let mut sum: u64 = 0;
    let mut i: usize = 0;
    while i < edges.len()
        invariant
            i <= edges.len(),
            sum == total(edges@.take(i as int)),
            total(edges@) <= u64::MAX,
        decreases edges.len() - i,
    {
        proof {
            assert(edges@.take(i + 1).drop_last() =~= edges@.take(i as int));
            lemma_total_prefix(edges@, i + 1);
        }
        sum = sum + edges[i].count;
        i = i + 1;
    }
    proof {
        assert(edges@.take(i as int) =~= edges@);
    }
    sum
}

proof fn lemma_total_prefix(edges: Seq<Edge>, k: int)
    requires
        0 <= k <= edges.len(),
    ensures
        total(edges.take(k)) <= total(edges),
    decreases edges.len(),
{
    if k < edges.len() {
        assert(edges.drop_last().take(k) =~= edges.take(k));
        lemma_total_prefix(edges.drop_last(), k);
    } else {
        assert(edges.take(k) =~= edges);
    }
}

/// Records one more transition to `to`.
pub fn increment(edges: &mut Vec<Edge>, to: u64)
    requires
        edges_wf(old(edges)@),
        total(old(edges)@) < u64::MAX,
    ensures
        final(edges)@ == bump(old(edges)@, to),
{
    let mut i: usize = 0;
    while i < edges.len()
        invariant
            i <= edges.len(),
            edges@ == old(edges)@,
            edges_wf(old(edges)@),
            total(old(edges)@) < u64::MAX,
            forall|k: int| 0 <= k < i ==> edges@[k].target != to,
        decreases edges.len() - i,
    {
        if edges[i].target == to {
            proof {
                assert(edges@[i as int].target == to);
                lemma_count_le_total(edges@, i as int);
                let j = position_of(edges@, to);
                assert(j == i);
            }
            let c = edges[i].count;
            edges.set(i, Edge { target: to, count: c + 1 });
            return;
        }
        i = i + 1;
    }
    edges.push(Edge { target: to, count: 1 });
}

/// Cumulative-weight selection over the counters, for a given draw.
pub fn select(edges: &Vec<Edge>, draw: u64) -> (r: Option<u64>)
    ensures
        r == pick(edges@, draw as int),
{
    let mut rest: u64 = draw;
    let mut i: usize = 0;
    assert(edges@.subrange(0, edges@.len() as int) =~= edges@);
    while i < edges.len()
        invariant
            i <= edges.len(),
            pick(edges@, draw as int) == pick(edges@.subrange(i as int, edges@.len() as int), rest as int),
        decreases edges.len() - i,
    {
        let ghost tail = edges@.subrange(i as int, edges@.len() as int);
        assert(tail[0] == edges@[i as int]);
        if rest <= edges[i].count {
            return Some(edges[i].target);
        }
        assert(tail.subrange(1, tail.len() as int) =~= edges@.subrange(i + 1, edges@.len() as int));
        rest = rest - edges[i].count;
        i = i + 1;
    }
    None
}

} // verus!
