//! The transition graph: nodes with unique labels, each owning its outgoing
//! counters, built once, normalized once, then walked.

use vstd::prelude::*;
use crate::edges::{
    bump, count_of, edges_wf, increment, lemma_bump, lemma_pick_in_range, pick, position_of,
    select, total, total_count, Edge,
};

verus! {

/// A transition probability `numerator / denominator` towards `target`.
#[derive(Clone, Copy, Debug, PartialEq, Eq)]
pub struct Weight {
    pub target: u64,
    pub numerator: u64,
    pub denominator: u64,
}

/// What a node holds, as mathematical values.
pub struct NodeView {
    pub label: u64,
    pub edges: Seq<Edge>,
    pub weights: Seq<Weight>,
}

/// One symbol with its outgoing transition counts and, once normalized,
/// its transition probabilities.
#[derive(Debug)]
pub struct MarkovChainNode {
    pub label: u64,
    pub edges: Vec<Edge>,
    pub weights: Vec<Weight>,
}

impl View for MarkovChainNode {
    type V = NodeView;

    open spec fn view(&self) -> NodeView {
        NodeView { label: self.label, edges: self.edges@, weights: self.weights@ }
    }
}

impl MarkovChainNode {
    /// A node with no transitions and no probabilities.
    pub fn new(label: u64) -> (r: MarkovChainNode)
        ensures
            r@ == empty_node(label),
    {
        MarkovChainNode { label, edges: Vec::new(), weights: Vec::new() }
    }
}

pub open spec fn empty_node(label: u64) -> NodeView {
    NodeView { label, edges: Seq::empty(), weights: Seq::empty() }
}

/// Some node carries `label`.
pub open spec fn has_label(c: Seq<NodeView>, label: u64) -> bool {
    exists|i: int| 0 <= i < c.len() && c[i].label == label
}

pub open spec fn index_of(c: Seq<NodeView>, label: u64) -> int {
    choose|i: int| 0 <= i < c.len() && c[i].label == label
}

pub open spec fn labels_unique(c: Seq<NodeView>) -> bool {
    forall|i: int, j: int| 0 <= i < j < c.len() ==> c[i].label != c[j].label
}

/// Labels are unique, every node's counters are well formed, and every
/// node's total count fits in a `u64`.
pub open spec fn chain_wf(c: Seq<NodeView>) -> bool {
    &&& labels_unique(c)
    &&& forall|i: int| 0 <= i < c.len() ==> edges_wf(#[trigger] c[i].edges)
    &&& forall|i: int| 0 <= i < c.len() ==> total(#[trigger] c[i].edges) <= u64::MAX
}

/// Number of recorded transitions `from -> to` (0 for an unknown `from`).
pub open spec fn count(c: Seq<NodeView>, from: u64, to: u64) -> nat {
    if has_label(c, from) {
        count_of(c[index_of(c, from)].edges, to)
    } else {
        0
    }
}

/// Sum of the outgoing counts of `label` (0 for an unknown label).
pub open spec fn outgoing(c: Seq<NodeView>, label: u64) -> nat {
    if has_label(c, label) {
        total(c[index_of(c, label)].edges)
    } else {
        0
    }
}

/// The chain after `add_node(label)`.
pub open spec fn added(c: Seq<NodeView>, label: u64) -> Seq<NodeView> {
    if has_label(c, label) {
        c
    } else {
        c.push(empty_node(label))
    }
}

/// The chain after `connect_node(from, to)`.
pub open spec fn connected(c: Seq<NodeView>, from: u64, to: u64) -> Seq<NodeView> {
    if has_label(c, from) && has_label(c, to) {
        let i = index_of(c, from);
        c.update(i, NodeView { edges: bump(c[i].edges, to), ..c[i] })
    } else {
        c
    }
}

/// Probabilities of a node: each count over the node's total.
pub open spec fn weights_of(edges: Seq<Edge>) -> Seq<Weight> {
    edges.map_values(
        |e: Edge| Weight { target: e.target, numerator: e.count, denominator: total(edges) as u64 },
    )
}

/// The chain after `normalize`: every node's probabilities recomputed from its counts.
pub open spec fn normalized(c: Seq<NodeView>) -> Seq<NodeView> {
    c.map_values(|n: NodeView| NodeView { weights: weights_of(n.edges), ..n })
}

/// The chain built from a symbol sequence: every symbol added in order, and
/// every adjacent pair connected.
pub open spec fn built(s: Seq<u64>) -> Seq<NodeView>
    decreases s.len(),
{
    if s.len() == 0 {
        Seq::empty()
    } else if s.len() == 1 {
        added(Seq::empty(), s[0])
    } else {
        let p = s.drop_last();
        connected(added(built(p), s.last()), p.last(), s.last())
    }
}

/// The symbol that follows `current` for a given draw: none when `current`
/// is unknown, has no outgoing transition, or the draw exceeds its total.
pub open spec fn successor(c: Seq<NodeView>, current: u64, draw: int) -> Option<u64> {
    if has_label(c, current) {
        pick(c[index_of(c, current)].edges, draw)
    } else {
        None
    }
}

/// The symbols emitted by a walk of at most `steps` symbols from `current`,
/// where the i-th transition is decided by `draws[i]`.
pub open spec fn walk(c: Seq<NodeView>, steps: nat, current: u64, draws: Seq<u64>) -> Seq<u64>
    decreases steps,
{
    if steps == 0 {
        Seq::empty()
    } else if steps == 1 {
        seq![current]
    } else {
        match successor(c, current, draws[0] as int) {
            Some(next) => seq![current] + walk(
                c,
                (steps - 1) as nat,
                next,
                draws.subrange(1, draws.len() as int),
            ),
            None => seq![current],
        }
    }
}

/// Every adjacent pair of `r` is a recorded transition.
pub open spec fn is_path(c: Seq<NodeView>, r: Seq<u64>) -> bool {
    forall|k: int| 0 <= k < r.len() - 1 ==> count(c, #[trigger] r[k], r[k + 1]) > 0
}

/// No node has more than `b` outgoing transitions in all.
pub open spec fn totals_bounded(c: Seq<NodeView>, b: nat) -> bool {
    forall|i: int| 0 <= i < c.len() ==> total(#[trigger] c[i].edges) <= b
}

proof fn lemma_connected_bound(c: Seq<NodeView>, from: u64, to: u64, b: nat)
    requires
        chain_wf(c),
        totals_bounded(c, b),
        b < u64::MAX,
    ensures
        chain_wf(connected(c, from, to)),
        totals_bounded(connected(c, from, to), b + 1),
{
    if has_label(c, from) && has_label(c, to) {
        let i = index_of(c, from);
        lemma_bump(c[i].edges, to);
    }
}

/// A node with no outgoing transitions, or an unknown label, has no successor
/// for any draw.
proof fn lemma_dead_end(c: Seq<NodeView>, current: u64, draw: int)
    requires
        chain_wf(c),
        outgoing(c, current) == 0,
    ensures
        successor(c, current, draw) is None,
{
    if has_label(c, current) {
        let e = c[index_of(c, current)].edges;
        assert(edges_wf(e));
        if e.len() > 0 {
            assert(e.last().count > 0);
        }
    }
}

/// Relies on rand's `Rng::gen_range` on `thread_rng()`: for a non-empty
/// inclusive range the value lies within its bounds (it panics on an empty one).
#[verifier::external_body]
fn draw_between(low: u64, high: u64) -> (r: u64)
    requires
        low <= high,
    ensures
        low <= r <= high,
{
    rand::Rng::gen_range(&mut rand::thread_rng(), low..=high)
}

/// The chain after adding each of `labels` in turn to an empty chain.
pub open spec fn added_all(labels: Seq<u64>) -> Seq<NodeView>
    decreases labels.len(),
{
    if labels.len() == 0 {
        Seq::empty()
    } else {
        added(added_all(labels.drop_last()), labels.last())
    }
}

/// Adding any sequence of labels gives a chain in which no two nodes share a
/// label, every added label has a node, and no node has transitions or
/// probabilities.
pub proof fn lemma_added_all(labels: Seq<u64>)
    ensures
        chain_wf(added_all(labels)),
        forall|i: int| 0 <= i < labels.len() ==> has_label(added_all(labels), #[trigger] labels[i]),
        forall|k: int|
            0 <= k < added_all(labels).len() ==> (#[trigger] added_all(labels)[k]).edges.len() == 0
                && added_all(labels)[k].weights.len() == 0,
    decreases labels.len(),
{
    if labels.len() > 0 {
        let p = labels.drop_last();
        lemma_added_all(p);
        let c = added_all(p);
        let r = added_all(labels);
        assert forall|k: int| 0 <= k < r.len() implies total(#[trigger] r[k].edges) == 0 && edges_wf(r[k].edges) by {
            if k < c.len() {
                assert(r[k] == c[k]);
            }
            assert(r[k].edges =~= Seq::<Edge>::empty());
        }
        assert forall|i: int| 0 <= i < labels.len() implies has_label(r, #[trigger] labels[i]) by {
            if i < p.len() {
                assert(p[i] == labels[i]);
                let j = index_of(c, p[i]);
                assert(r[j] == c[j]);
            } else if !has_label(c, labels.last()) {
                assert(r[c.len() as int].label == labels.last());
            }
        }
    }
}

/// One more transition `from -> to` between known labels raises its count
/// and the total of `from` by one, and keeps the chain well formed.
pub proof fn lemma_connect_count(c: Seq<NodeView>, from: u64, to: u64)
    requires
        chain_wf(c),
        has_label(c, from),
        has_label(c, to),
        outgoing(c, from) < u64::MAX,
    ensures
        chain_wf(connected(c, from, to)),
        count(connected(c, from, to), from, to) == count(c, from, to) + 1,
        outgoing(connected(c, from, to), from) == outgoing(c, from) + 1,
{
    let i = index_of(c, from);
    let r = connected(c, from, to);
    lemma_bump(c[i].edges, to);
    assert(r[i].label == from);
    assert(index_of(r, from) == i);
    assert forall|k: int| 0 <= k < r.len() implies edges_wf(#[trigger] r[k].edges) && total(r[k].edges) <= u64::MAX by {
        if k != i {
            assert(r[k] == c[k]);
        }
    }
}

/// Connecting a fresh pair of known labels once records the transition once;
/// connecting it twice records it twice.
pub proof fn lemma_connect_twice(c: Seq<NodeView>, from: u64, to: u64)
    requires
        chain_wf(c),
        has_label(c, from),
        has_label(c, to),
        count(c, from, to) == 0,
        outgoing(c, from) + 1 < u64::MAX,
    ensures
        count(connected(c, from, to), from, to) == 1,
        count(connected(connected(c, from, to), from, to), from, to) == 2,
{
    let once = connected(c, from, to);
    lemma_connect_count(c, from, to);
    let i = index_of(c, from);
    let j = index_of(c, to);
    assert(once[i].label == from && once[j].label == to);
    lemma_connect_count(once, from, to);
}

/// Connecting with an unknown `from` or `to` leaves every node as it was.
pub proof fn lemma_connect_unknown(c: Seq<NodeView>, from: u64, to: u64)
    requires
        !has_label(c, from) || !has_label(c, to),
    ensures
        connected(c, from, to) == c,
{
}

/// Sum of the numerators of a list of probabilities.
pub open spec fn numerator_sum(ws: Seq<Weight>) -> nat
    decreases ws.len(),
{
    if ws.len() == 0 {
        0
    } else {
        numerator_sum(ws.drop_last()) + ws.last().numerator as nat
    }
}

proof fn lemma_numerators_are_counts(edges: Seq<Edge>, d: u64)
    ensures
        numerator_sum(
            edges.map_values(|e: Edge| Weight { target: e.target, numerator: e.count, denominator: d }),
        ) == total(edges),
    decreases edges.len(),
{
    if edges.len() > 0 {
        let f = |e: Edge| Weight { target: e.target, numerator: e.count, denominator: d };
        assert(edges.drop_last().map_values(f) =~= edges.map_values(f).drop_last());
        lemma_numerators_are_counts(edges.drop_last(), d);
    }
}

/// After normalization, the probabilities of a node with transitions add up
/// to one: they share one positive denominator, the node's total, and their
/// numerators add up to it.
pub proof fn lemma_normalized_sums_to_one(c: Seq<NodeView>, i: int)
    requires
        chain_wf(c),
        0 <= i < c.len(),
        c[i].edges.len() > 0,
    ensures
        normalized(c)[i].weights.len() == c[i].edges.len(),
        total(c[i].edges) > 0,
        forall|k: int|
            0 <= k < normalized(c)[i].weights.len() ==> (#[trigger] normalized(c)[i].weights[k]).denominator
                == total(c[i].edges),
        numerator_sum(normalized(c)[i].weights) == total(c[i].edges),
{
    let e = c[i].edges;
    assert(edges_wf(e) && total(e) <= u64::MAX);
    assert(e.last().count > 0);
    lemma_numerators_are_counts(e, total(e) as u64);
    assert(normalized(c)[i].weights == weights_of(e));
}

/// After normalization, a node without transitions has no probabilities.
pub proof fn lemma_normalized_dead_end(c: Seq<NodeView>, i: int)
    requires
        0 <= i < c.len(),
        c[i].edges.len() == 0,
    ensures
        normalized(c)[i].weights.len() == 0,
{
}

/// An ordered collection of nodes, at most one per label.
#[derive(Debug)]
pub struct MarkovChain {
    nodes: Vec<MarkovChainNode>,
}

impl View for MarkovChain {
    type V = Seq<NodeView>;

    closed spec fn view(&self) -> Seq<NodeView> {
        self.nodes@.map_values(|n: MarkovChainNode| n@)
    }
}

impl MarkovChain {
    /// An empty chain.
    pub fn new() -> (r: MarkovChain)
        ensures
            r@ == Seq::<NodeView>::empty(),
            chain_wf(r@),
    {
        let r = MarkovChain { nodes: Vec::new() };
        assert(r@ =~= Seq::<NodeView>::empty());
        r
    }

    /// Index of the node labelled `label`, if any.
    fn find(&self, label: u64) -> (r: Option<usize>)
        requires
            chain_wf(self@),
        ensures
            match r {
                Some(i) => i < self@.len() && self@[i as int].label == label && index_of(self@, label) == i,
                None => !has_label(self@, label),
            },
    {
        let mut i: usize = 0;
        while i < self.nodes.len()
            invariant
                i <= self.nodes@.len(),
                self@.len() == self.nodes@.len(),
                chain_wf(self@),
                forall|k: int| 0 <= k < i ==> self@[k].label != label,
            decreases self.nodes@.len() - i,
        {
            if self.nodes[i].label == label {
                proof {
                    assert(self@[i as int].label == label);
                    let j = index_of(self@, label);
                }
                return Some(i);
            }
            i = i + 1;
        }
        None
    }

    /// Inserts a node for `label` unless one exists.
    pub fn add_node(&mut self, label: u64)
        requires
            chain_wf(old(self)@),
        ensures
            final(self)@ == added(old(self)@, label),
            chain_wf(final(self)@),
    {
        match self.find(label) {
            Some(_) => {},
            None => {
                self.nodes.push(MarkovChainNode::new(label));
                assert(self@ =~= old(self)@.push(empty_node(label)));
            },
        }
    }

    /// Records one transition `from -> to`; does nothing when either label is
    /// unknown.
    pub fn connect_node(&mut self, from: u64, to: u64)
        requires
            chain_wf(old(self)@),
            has_label(old(self)@, to) ==> outgoing(old(self)@, from) < u64::MAX,
        ensures
            final(self)@ == connected(old(self)@, from, to),
            chain_wf(final(self)@),
    {
        let fi = self.find(from);
        let ti = self.find(to);
        match (fi, ti) {
            (Some(i), Some(j)) => {
                proof {
                    assert(has_label(self@, to)) by {
                        assert(self@[j as int].label == to);
                    }
                    lemma_bump(self@[i as int].edges, to);
                }
                increment(&mut self.nodes[i].edges, to);
                proof {
                    let c = old(self)@;
                    assert(self@ =~= c.update(i as int, NodeView { edges: bump(c[i as int].edges, to), ..c[i as int] }));
                }
            },
            _ => {},
        }
    }
    /// Recomputes every node's probabilities from its current counts; a node
    /// without transitions gets none.
    pub fn normalize(&mut self)
        requires
            chain_wf(old(self)@),
        ensures
            final(self)@ == normalized(old(self)@),
            chain_wf(final(self)@),
    {
        let ghost c = old(self)@;
        let mut i: usize = 0;
        while i < self.nodes.len()
            invariant
                i <= self.nodes@.len(),
                self@.len() == c.len(),
                chain_wf(c),
                forall|k: int| 0 <= k < i ==> self@[k] == normalized(c)[k],
                forall|k: int| i <= k < c.len() ==> self@[k] == c[k],
            decreases self.nodes@.len() - i,
        {
            assert(self@[i as int] == self.nodes@[i as int]@);
            assert(total(c[i as int].edges) <= u64::MAX);
            let ws = weights_for(&self.nodes[i].edges);
            self.nodes[i].weights = ws;
            i = i + 1;
        }
        assert(self@ =~= normalized(c));
    }

    /// Builds a chain from a symbol sequence: each symbol is added in order,
    /// and each symbol is connected to the one that follows it.
    pub fn from_sequence(symbols: &Vec<u64>) -> (r: MarkovChain)
        ensures
            r@ == built(symbols@),
            chain_wf(r@),
    {
        let mut chain = MarkovChain::new();
        if symbols.len() == 0 {
            return chain;
        }
        chain.add_node(symbols[0]);
        assert(symbols@.take(1) =~= seq![symbols@[0]]);
        let mut i: usize = 1;
        while i < symbols.len()
            invariant
                1 <= i <= symbols@.len(),
                chain@ == built(symbols@.take(i as int)),
                chain_wf(chain@),
                totals_bounded(chain@, (i - 1) as nat),
            decreases symbols@.len() - i,
        {
            let ghost before = chain@;
            chain.add_node(symbols[i]);
            let ghost mid = chain@;
            proof {
                assert(totals_bounded(mid, (i - 1) as nat)) by {
                    assert forall|k: int| 0 <= k < mid.len() implies total(#[trigger] mid[k].edges) <= (i - 1) as nat by {
                        if k < before.len() {
                            assert(mid[k] == before[k]);
                        } else {
                            assert(mid[k].edges =~= Seq::<Edge>::empty());
                        }
                    }
                }
                if has_label(mid, symbols@[i - 1]) {
                    let j = index_of(mid, symbols@[i - 1]);
                    assert(total(mid[j].edges) <= (i - 1) as nat);
                }
                lemma_connected_bound(mid, symbols@[i - 1], symbols@[i as int], (i - 1) as nat);
            }
            chain.connect_node(symbols[i - 1], symbols[i]);
            proof {
                let t = symbols@.take(i + 1);
                assert(t.drop_last() =~= symbols@.take(i as int));
            }
            i = i + 1;
        }
        assert(symbols@.take(i as int) =~= symbols@);
        chain
    }

    /// Number of recorded transitions `from -> to`.
    pub fn edge_count(&self, from: u64, to: u64) -> (r: u64)
        requires
            chain_wf(self@),
        ensures
            r == count(self@, from, to),
    {
        match self.find(from) {
            Some(i) => {
                assert(self@[i as int] == self.nodes@[i as int]@);
                assert(edges_wf(self@[i as int].edges) && total(self@[i as int].edges) <= u64::MAX);
                let edges = &self.nodes[i].edges;
                let mut k: usize = 0;
                while k < edges.len()
                    invariant
                        k <= edges@.len(),
                        i < self@.len(),
                        self@[i as int].label == from,
                        index_of(self@, from) == i,
                        edges@ == self@[i as int].edges,
                        edges_wf(edges@),
                        forall|m: int| 0 <= m < k ==> edges@[m].target != to,
                    decreases edges@.len() - k,
                {
                    if edges[k].target == to {
                        proof {
                            let e = edges@;
                            assert(e[k as int].target == to);
                            let p = position_of(e, to);
                            assert(edges_wf(e));
                            assert(p == k);
                            assert(has_label(self@, from));
                            assert(edges@[k as int].count == count(self@, from, to));
                        }
                        return edges[k].count;
                    }
                    k = k + 1;
                }
                0
            },
            None => 0,
        }
    }

    /// Sum of the outgoing counts of `label`; 0 when it is unknown.
    pub fn outgoing_total(&self, label: u64) -> (r: u64)
        requires
            chain_wf(self@),
        ensures
            r == outgoing(self@, label),
    {
        match self.find(label) {
            Some(i) => {
                assert(self@[i as int] == self.nodes@[i as int]@);
                assert(edges_wf(self@[i as int].edges) && total(self@[i as int].edges) <= u64::MAX);
                total_count(&self.nodes[i].edges)
            },
            None => 0,
        }
    }

    /// The symbol that follows `current` for the given draw.
    pub fn next_symbol(&self, current: u64, draw: u64) -> (r: Option<u64>)
        requires
            chain_wf(self@),
        ensures
            r == successor(self@, current, draw as int),
    {
        match self.find(current) {
            Some(i) => {
                assert(self@[i as int] == self.nodes@[i as int]@);
                assert(edges_wf(self@[i as int].edges) && total(self@[i as int].edges) <= u64::MAX);
                select(&self.nodes[i].edges, draw)
            },
            None => None,
        }
    }

    /// Walks the chain from `starting`, emitting at most `steps` symbols; the
    /// i-th transition is decided by `draws[i]`.
    pub fn infer_with_draws(&self, steps: usize, starting: u64, draws: &Vec<u64>) -> (r: Vec<u64>)
        requires
            chain_wf(self@),
            steps <= draws@.len() + 1,
        ensures
            r@ == walk(self@, steps as nat, starting, draws@),
    {
        let ghost c = self@;
        let mut out: Vec<u64> = Vec::new();
        let mut current: u64 = starting;
        let mut left: usize = steps;
        let mut d: usize = 0;
        assert(draws@.subrange(0, draws@.len() as int) =~= draws@);
        while left > 0
            invariant
                chain_wf(c),
                c == self@,
                steps <= draws@.len() + 1,
                d + left <= steps,
                out@ + walk(c, left as nat, current, draws@.subrange(d as int, draws@.len() as int))
                    == walk(c, steps as nat, starting, draws@),
            decreases left,
        {
            let ghost ds = draws@.subrange(d as int, draws@.len() as int);
            let ghost before = out@;
            out.push(current);
            if left == 1 {
                left = 0;
                assert(out@ =~= before + seq![current]);
            } else {
                match self.next_symbol(current, draws[d]) {
                    None => {
                        left = 0;
                        assert(out@ =~= before + seq![current]);
                    },
                    Some(n) => {
                        assert(ds.subrange(1, ds.len() as int) =~= draws@.subrange(d + 1, draws@.len() as int));
                        assert(out@ + walk(c, (left - 1) as nat, n, ds.subrange(1, ds.len() as int))
                            =~= before + walk(c, left as nat, current, ds));
                        current = n;
                        d = d + 1;
                        left = left - 1;
                    },
                }
            }
        }
        assert(out@ + Seq::<u64>::empty() =~= out@);
        out
    }

    /// Walks the chain from `starting` by weighted random choice, emitting at
    /// most `steps` symbols. The walk ends early at a symbol that is unknown or
    /// has no outgoing transition.
    pub fn infer(&self, steps: usize, starting: u64) -> (r: Vec<u64>)
        requires
            chain_wf(self@),
        ensures
            r@.len() <= steps,
            steps == 0 ==> r@.len() == 0,
            steps > 0 ==> r@.len() >= 1 && r@[0] == starting,
            !has_label(self@, starting) && steps > 0 ==> r@ == seq![starting],
            is_path(self@, r@),
            0 < r@.len() < steps ==> outgoing(self@, r@.last()) == 0,
            exists|draws: Seq<u64>| r@ == walk(self@, steps as nat, starting, draws),
    {
        let ghost c = self@;
        let mut out: Vec<u64> = Vec::new();
        let mut current: u64 = starting;
        let mut left: usize = steps;
        let ghost mut drawn: Seq<u64> = Seq::empty();
        assert forall|f: Seq<u64>| #[trigger] walk(c, steps as nat, starting, drawn + f) == out@ + walk(c, left as nat, current, f) by {
            assert(drawn + f =~= f);
            assert(out@ + walk(c, left as nat, current, f) =~= walk(c, left as nat, current, f));
        }
        while left > 0
            invariant
                chain_wf(c),
                c == self@,
                left > 0 ==> forall|f: Seq<u64>| #[trigger] walk(c, steps as nat, starting, drawn + f) == out@ + walk(c, left as nat, current, f),
                left == 0 ==> out@ == walk(c, steps as nat, starting, drawn),
                out@.len() <= steps,
                left > 0 ==> out@.len() + left == steps,
                out@.len() == 0 ==> current == starting && left == steps,
                out@.len() > 0 ==> out@[0] == starting,
                out@.len() > 0 && left > 0 ==> count(c, out@.last(), current) > 0,
                left == 0 && out@.len() < steps ==> out@.len() > 0 && outgoing(c, out@.last()) == 0,
                is_path(c, out@),
            decreases left,
        {
            let ghost before = out@;
            let ghost drawn0 = drawn;
            out.push(current);
            proof {
                assert(drawn + Seq::<u64>::empty() =~= drawn);
                assert(walk(c, steps as nat, starting, drawn + Seq::<u64>::empty()) == before + walk(c, left as nat, current, Seq::<u64>::empty()));
                assert forall|k: int| 0 <= k < out@.len() - 1 implies count(c, #[trigger] out@[k], out@[k + 1]) > 0 by {
                    if k < before.len() - 1 {
                        assert(out@[k] == before[k] && out@[k + 1] == before[k + 1]);
                    } else {
                        assert(out@[k] == before.last());
                    }
                }
            }
            if left == 1 {
                assert(out@ =~= before + seq![current]);
                left = 0;
            } else {
                let t = self.outgoing_total(current);
                if t == 0 {
                    proof {
                        lemma_dead_end(c, current, Seq::<u64>::empty()[0] as int);
                        assert(out@ =~= before + seq![current]);
                    }
                    left = 0;
                } else {
                    let draw = draw_between(1, t);
                    proof {
                        lemma_pick_in_range(c[index_of(c, current)].edges, draw as int);
                    }
                    match self.next_symbol(current, draw) {
                        Some(n) => {
                            proof {
                                let e = c[index_of(c, current)].edges;
                                assert(edges_wf(e));
                                assert(count_of(e, n) > 0);
                                drawn = drawn0.push(draw);
                                assert forall|f: Seq<u64>| #[trigger] walk(c, steps as nat, starting, drawn + f) == out@ + walk(c, (left - 1) as nat, n, f) by {
                                    let g = seq![draw] + f;
                                    assert(drawn0 + g =~= drawn + f);
                                    assert(g.subrange(1, g.len() as int) =~= f);
                                    assert(walk(c, steps as nat, starting, drawn0 + g) == before + walk(c, left as nat, current, g));
                                    assert(out@ + walk(c, (left - 1) as nat, n, f) =~= before + (seq![current] + walk(c, (left - 1) as nat, n, f)));
                                }
                            }
                            current = n;
                            left = left - 1;
                        },
                        None => {
                            left = 0;
                        },
                    }
                }
            }
        }
        proof {
            if !has_label(c, starting) && steps > 0 {
                if out@.len() > 1 {
                    assert(count(c, out@[0], out@[1]) > 0);
                }
                assert(out@ =~= seq![starting]);
            }
        }
        out
    }

    /// Number of nodes.
    pub fn len(&self) -> (r: usize)
        ensures
            r == self@.len(),
    {
        self.nodes.len()
    }

    /// The nodes, in insertion order.
    pub fn nodes(&self) -> (r: &Vec<MarkovChainNode>)
        ensures
            r@.map_values(|n: MarkovChainNode| n@) == self@,
    {
        &self.nodes
    }

    /// The node labelled `label`, if any.
    pub fn node(&self, label: u64) -> (r: Option<&MarkovChainNode>)
        requires
            chain_wf(self@),
        ensures
            match r {
                Some(n) => has_label(self@, label) && n@ == self@[index_of(self@, label)],
                None => !has_label(self@, label),
            },
    {
        match self.find(label) {
            Some(i) => {
                assert(self@[i as int] == self.nodes@[i as int]@);
                assert(edges_wf(self@[i as int].edges) && total(self@[i as int].edges) <= u64::MAX);
                Some(&self.nodes[i])
            },
            None => None,
        }
    }
}

/// The probabilities of one node's counters.
fn weights_for(edges: &Vec<Edge>) -> (r: Vec<Weight>)
    requires
        total(edges@) <= u64::MAX,
    ensures
        r@ == weights_of(edges@),
{
    let t = total_count(edges);
    let mut ws: Vec<Weight> = Vec::new();
    let mut i: usize = 0;
    while i < edges.len()
        invariant
            i <= edges@.len(),
            t == total(edges@),
            ws@ == weights_of(edges@).take(i as int),
        decreases edges@.len() - i,
    {
        ws.push(Weight { target: edges[i].target, numerator: edges[i].count, denominator: t });
        assert(ws@ =~= weights_of(edges@).take(i + 1));
        i = i + 1;
    }
    assert(ws@ =~= weights_of(edges@));
    ws
}

} // verus!
