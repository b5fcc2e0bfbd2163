//! Graph builder: nodes, directed edges ("A feeds B") and their dependency order.
//!
//! The builder is generic in the node payload: it decides the order in which
//! nodes run and which outputs feed which inputs, whatever a node computes.

use vstd::prelude::*;
use crate::audio_buffer::AudioBuffer;
use crate::processor::{contents, fill, gather, Processor};

verus! {

/// Identifies a node of a graph: the index it was given when it was added.
#[derive(Clone, Copy, PartialEq, Eq, Structural, Hash, Debug)]
pub struct NodeId(usize);

impl View for NodeId {
    type V = nat;

    closed spec fn view(&self) -> nat {
        self.0 as nat
    }
}

impl NodeId {
    /// Creates a node id from a raw index.
    pub fn new(id: usize) -> (r: Self)
        ensures
            r@ == id,
            forall|x: NodeId| #[trigger] x@ == id ==> x == r,
    {
        NodeId(id)
    }

    /// Returns the raw index.
    pub fn as_usize(self) -> (r: usize)
        ensures
            r == self@,
    {
        self.0
    }
}

/// The raw indices of a sequence of node ids.
pub open spec fn ids(s: Seq<NodeId>) -> Seq<nat> {
    s.map_values(|x: NodeId| x@)
}

/// `e[u]` lists the nodes that `u` feeds; `has_edge(e, u, v)` says that `u` feeds `v`.
pub open spec fn has_edge(e: Seq<Seq<nat>>, u: int, v: nat) -> bool {
    0 <= u < e.len() && e[u].contains(v)
}

/// No node of `e` feeds `v`.
pub open spec fn is_source(e: Seq<Seq<nat>>, v: nat) -> bool {
    forall|u: int| !#[trigger] has_edge(e, u, v)
}

/// The nodes below `k` that no node feeds, in ascending order: the nodes that
/// Kahn's algorithm takes first.
pub open spec fn sources(e: Seq<Seq<nat>>, k: int) -> Seq<nat>
    decreases k,
{
    if k <= 0 {
        Seq::empty()
    } else {
        let s = sources(e, k - 1);
        if is_source(e, (k - 1) as nat) {
            s.push((k - 1) as nat)
        } else {
            s
        }
    }
}

/// Every edge of `e` ends at a node of `e`.
pub open spec fn edges_within(e: Seq<Seq<nat>>) -> bool {
    forall|u: int, k: int| 0 <= u < e.len() && 0 <= k < e[u].len() ==> #[trigger] e[u][k] < e.len()
}

/// Total number of edges leaving the nodes below `k`.
pub open spec fn edge_total(e: Seq<Seq<nat>>, k: int) -> nat
    decreases k,
{
    if k <= 0 || k > e.len() {
        0
    } else {
        edge_total(e, k - 1) + e[k - 1].len()
    }
}

/// `order` lists every node of `e` once, and each node comes after every node that feeds it.
pub open spec fn is_topological_order(e: Seq<Seq<nat>>, order: Seq<nat>) -> bool {
    &&& order.len() == e.len()
    &&& order.no_duplicates()
    &&& forall|i: int| 0 <= i < order.len() ==> #[trigger] order[i] < e.len()
    &&& forall|i: int, j: int|
        0 <= i < order.len() && 0 <= j < order.len() && #[trigger] has_edge(
            e,
            order[i] as int,
            order[j],
        ) ==> i < j
}

/// Number of occurrences of `v` in `s`.
spec fn occurrences(s: Seq<nat>, v: nat) -> nat
    decreases s.len(),
{
    if s.len() == 0 {
        0
    } else {
        occurrences(s.drop_last(), v) + if s.last() == v {
            1nat
        } else {
            0nat
        }
    }
}

/// Number of edges into `v` that leave a node below `k` that is not in `done`.
spec fn pending_into(e: Seq<Seq<nat>>, done: Seq<nat>, v: nat, k: int) -> nat
    decreases k,
{
    if k <= 0 || k > e.len() {
        0
    } else {
        pending_into(e, done, v, k - 1) + if done.contains((k - 1) as nat) {
            0nat
        } else {
            occurrences(e[k - 1], v)
        }
    }
}

/// The nodes below `n`.
spec fn below(n: nat) -> Set<nat> {
    Set::new(|x: nat| x < n)
}

proof fn lemma_below_len(n: nat)
    ensures
        below(n).finite(),
        below(n).len() == n,
    decreases n,
{
    if n == 0 {
        assert(below(n) =~= Set::empty());
    } else {
        lemma_below_len((n - 1) as nat);
        assert(below(n) =~= below((n - 1) as nat).insert((n - 1) as nat));
    }
}

/// A sequence of `n` distinct nodes below `n` holds every node below `n`.
proof fn lemma_covers(s: Seq<nat>, n: nat)
    requires
        s.no_duplicates(),
        s.len() == n,
        forall|i: int| 0 <= i < s.len() ==> #[trigger] s[i] < n,
    ensures
        forall|u: nat| u < n ==> s.contains(u),
{
    lemma_below_len(n);
    s.unique_seq_to_set();
    assert forall|u: nat| u < n implies s.contains(u) by {
        if !s.contains(u) {
            assert(s.to_set().subset_of(below(n).remove(u)));
            vstd::set_lib::lemma_len_subset(s.to_set(), below(n).remove(u));
        }
    }
}

/// A sequence that holds every node below `n` is at least `n` long.
proof fn lemma_holds_all_len(s: Seq<nat>, n: nat)
    requires
        forall|u: nat| u < n ==> s.contains(u),
    ensures
        s.len() >= n,
{
    lemma_below_len(n);
    s.lemma_cardinality_of_set();
    assert(below(n).subset_of(s.to_set()));
    vstd::set_lib::lemma_len_subset(below(n), s.to_set());
}

proof fn lemma_occurrences_prefix(s: Seq<nat>, j: int, v: nat)
    requires
        0 <= j < s.len(),
    ensures
        occurrences(s.take(j + 1), v) == occurrences(s.take(j), v) + if s[j] == v {
            1nat
        } else {
            0nat
        },
{
    assert(s.take(j + 1).drop_last() =~= s.take(j));
}

proof fn lemma_occurrences_le(s: Seq<nat>, j: int, v: nat)
    requires
        0 <= j <= s.len(),
    ensures
        occurrences(s.take(j), v) <= occurrences(s, v),
        occurrences(s, v) <= s.len(),
    decreases s.len() - j,
{
    if j < s.len() {
        lemma_occurrences_prefix(s, j, v);
        lemma_occurrences_le(s, j + 1, v);
    } else {
        assert(s.take(j) =~= s);
        lemma_occurrences_len(s, v);
    }
}

proof fn lemma_occurrences_len(s: Seq<nat>, v: nat)
    ensures
        occurrences(s, v) <= s.len(),
    decreases s.len(),
{
    if s.len() > 0 {
        lemma_occurrences_len(s.drop_last(), v);
    }
}

proof fn lemma_occurrences_contains(s: Seq<nat>, v: nat)
    ensures
        occurrences(s, v) > 0 <==> s.contains(v),
    decreases s.len(),
{
    if s.len() > 0 {
        lemma_occurrences_contains(s.drop_last(), v);
        if s.drop_last().contains(v) {
            let i = choose|i: int| 0 <= i < s.drop_last().len() && s.drop_last()[i] == v;
            assert(s[i] == v);
        }
        if s.contains(v) && s.last() != v {
            let i = choose|i: int| 0 <= i < s.len() && s[i] == v;
            assert(s.drop_last()[i] == v);
        }
    }
}

proof fn lemma_edge_total_mono(e: Seq<Seq<nat>>, j: int, k: int)
    requires
        0 <= j <= k <= e.len(),
    ensures
        edge_total(e, j) <= edge_total(e, k),
    decreases k - j,
{
    if j < k {
        lemma_edge_total_mono(e, j, k - 1);
    }
}

proof fn lemma_pending_le_total(e: Seq<Seq<nat>>, done: Seq<nat>, v: nat, k: int)
    requires
        0 <= k <= e.len(),
    ensures
        pending_into(e, done, v, k) <= edge_total(e, k),
    decreases k,
{
    if k > 0 {
        lemma_pending_le_total(e, done, v, k - 1);
        lemma_occurrences_len(e[k - 1], v);
    }
}

/// Marking `x` as done removes exactly the edges that leave `x`.
proof fn lemma_pending_push(e: Seq<Seq<nat>>, done: Seq<nat>, x: nat, v: nat, k: int)
    requires
        !done.contains(x),
        0 <= k <= e.len(),
    ensures
        pending_into(e, done, v, k) == pending_into(e, done.push(x), v, k) + if x < k {
            occurrences(e[x as int], v)
        } else {
            0nat
        },
    decreases k,
{
    if k > 0 {
        lemma_pending_push(e, done, x, v, k - 1);
        let u = (k - 1) as nat;
        assert(done.push(x).contains(u) <==> done.contains(u) || u == x) by {
            if done.push(x).contains(u) {
                let i = choose|i: int| 0 <= i < done.push(x).len() && done.push(x)[i] == u;
                if i < done.len() {
                    assert(done[i] == u);
                }
            }
            if done.contains(u) {
                let i = choose|i: int| 0 <= i < done.len() && done[i] == u;
                assert(done.push(x)[i] == u);
            }
            if u == x {
                assert(done.push(x)[done.len() as int] == u);
            }
        }
    }
}

/// With no pending edge into `v`, every node below `k` that feeds `v` is done.
proof fn lemma_pending_zero(e: Seq<Seq<nat>>, done: Seq<nat>, v: nat, k: int)
    requires
        pending_into(e, done, v, k) == 0,
        0 <= k <= e.len(),
    ensures
        forall|u: int| 0 <= u < k && #[trigger] has_edge(e, u, v) ==> done.contains(u as nat),
    decreases k,
{
    if k > 0 {
        lemma_pending_zero(e, done, v, k - 1);
        lemma_occurrences_contains(e[k - 1], v);
    }
}

/// A pending edge into `v` leaves some node below `k` that is not done.
proof fn lemma_pending_witness(e: Seq<Seq<nat>>, done: Seq<nat>, v: nat, k: int) -> (u: int)
    requires
        pending_into(e, done, v, k) > 0,
        0 <= k <= e.len(),
    ensures
        0 <= u < k,
        !done.contains(u as nat),
        has_edge(e, u, v),
    decreases k,
{
    lemma_occurrences_contains(e[k - 1], v);
    if pending_into(e, done, v, k - 1) > 0 {
        lemma_pending_witness(e, done, v, k - 1)
    } else {
        k - 1
    }
}

/// When every node that is not in `order` still has a pending edge from a
/// node that is not in `order`, each node of a topological order `t` is in `order`.
proof fn lemma_order_holds_all(e: Seq<Seq<nat>>, order: Seq<nat>, t: Seq<nat>, k: int)
    requires
        is_topological_order(e, t),
        0 <= k <= t.len(),
        forall|w: nat| w < e.len() && !order.contains(w) ==> pending_into(e, order, w, e.len() as int) > 0,
    ensures
        forall|m: int| 0 <= m < k ==> order.contains(#[trigger] t[m]),
    decreases k,
{
    if k > 0 {
        lemma_order_holds_all(e, order, t, k - 1);
        let w = t[k - 1];
        if !order.contains(w) {
            assert(w < e.len());
            let u = lemma_pending_witness(e, order, w, e.len() as int);
            lemma_covers(t, e.len());
            assert(t.contains(u as nat));
            let m = choose|m: int| 0 <= m < t.len() && t[m] == u as nat;
            assert(has_edge(e, t[m] as int, t[k - 1]));
            assert(m < k - 1);
        }
    }
}

/// `c` is a cycle of `e`: a walk along edges of at least one edge that ends where it starts.
pub open spec fn is_cycle(e: Seq<Seq<nat>>, c: Seq<nat>) -> bool {
    &&& c.len() >= 2
    &&& c[0] == c[c.len() - 1]
    &&& forall|i: int| 0 <= i < c.len() - 1 ==> #[trigger] has_edge(e, c[i] as int, c[i + 1])
}

/// The position of `x` in `t`.
spec fn position(t: Seq<nat>, x: nat) -> int {
    choose|k: int| 0 <= k < t.len() && t[k] == x
}

proof fn lemma_cycle_positions(e: Seq<Seq<nat>>, t: Seq<nat>, c: Seq<nat>, i: int)
    requires
        is_topological_order(e, t),
        is_cycle(e, c),
        1 <= i < c.len(),
    ensures
        0 <= position(t, c[i]) < t.len(),
        t[position(t, c[i])] == c[i],
        position(t, c[i]) > position(t, c[0]),
    decreases i,
{
    lemma_covers(t, e.len());
    let j = i - 1;
    assert(has_edge(e, c[j] as int, c[j + 1]));
    assert(c[j + 1] == c[i]);
    let z: int = 0;
    assert(has_edge(e, c[z] as int, c[z + 1]));
    if i < c.len() - 1 {
        assert(has_edge(e, c[i] as int, c[i + 1]));
    }
    assert(c[i] < e.len() && c[i - 1] < e.len());
    assert(t.contains(c[i]));
    assert(t.contains(c[i - 1]));
    let a = position(t, c[i - 1]);
    let b = position(t, c[i]);
    assert(has_edge(e, t[a] as int, t[b]));
    if i > 1 {
        lemma_cycle_positions(e, t, c, i - 1);
    }
}

/// A graph with a cycle has no topological order, so sorting it fails.
pub proof fn lemma_cycle_means_no_order(e: Seq<Seq<nat>>, c: Seq<nat>)
    requires
        is_cycle(e, c),
    ensures
        !exists|t: Seq<nat>| is_topological_order(e, t),
{
    if exists|t: Seq<nat>| is_topological_order(e, t) {
        let t = choose|t: Seq<nat>| is_topological_order(e, t);
        lemma_cycle_positions(e, t, c, c.len() - 1);
    }
}

/// Walking back `k` steps from `w`, each step to a node outside `o` that feeds the last one.
spec fn back_walk(e: Seq<Seq<nat>>, o: Seq<nat>, w: nat, k: nat) -> Seq<nat>
    decreases k,
{
    if k == 0 {
        seq![w]
    } else {
        let p = back_walk(e, o, w, (k - 1) as nat);
        p.push(choose|u: nat| u < e.len() && !o.contains(u) && has_edge(e, u as int, p.last()))
    }
}

proof fn lemma_back_walk(e: Seq<Seq<nat>>, o: Seq<nat>, w: nat, k: nat)
    requires
        w < e.len(),
        !o.contains(w),
        forall|x: nat|
            x < e.len() && !o.contains(x) ==> exists|u: nat|
                u < e.len() && !o.contains(u) && #[trigger] has_edge(e, u as int, x),
    ensures
        back_walk(e, o, w, k).len() == k + 1,
        back_walk(e, o, w, k)[0] == w,
        forall|j: int|
            0 <= j <= k ==> #[trigger] back_walk(e, o, w, k)[j] < e.len() && !o.contains(
                back_walk(e, o, w, k)[j],
            ),
        forall|j: int|
            0 <= j < k ==> has_edge(
                e,
                back_walk(e, o, w, k)[j + 1] as int,
                #[trigger] back_walk(e, o, w, k)[j],
            ),
    decreases k,
{
    if k > 0 {
        lemma_back_walk(e, o, w, (k - 1) as nat);
        let p = back_walk(e, o, w, (k - 1) as nat);
        let x = p.last();
        assert(p[k - 1] == x);
        assert(exists|u: nat| u < e.len() && !o.contains(u) && #[trigger] has_edge(e, u as int, x));
        let q = back_walk(e, o, w, k);
        assert(q == p.push(choose|u: nat| u < e.len() && !o.contains(u) && has_edge(e, u as int, x)));
        assert forall|j: int| 0 <= j < k implies has_edge(e, q[j + 1] as int, #[trigger] q[j]) by {
            if j < k - 1 {
                assert(q[j] == p[j] && q[j + 1] == p[j + 1]);
                assert(has_edge(e, p[j + 1] as int, p[j]));
            }
        }
        assert forall|j: int| 0 <= j <= k implies #[trigger] q[j] < e.len() && !o.contains(q[j]) by {
            if j < k {
                assert(q[j] == p[j]);
            }
        }
    }
}

/// A sequence of distinct nodes below `n` is at most `n` long.
proof fn lemma_distinct_below_len(s: Seq<nat>, n: nat)
    requires
        s.no_duplicates(),
        forall|i: int| 0 <= i < s.len() ==> #[trigger] s[i] < n,
    ensures
        s.len() <= n,
{
    lemma_below_len(n);
    s.unique_seq_to_set();
    assert(s.to_set().subset_of(below(n)));
    vstd::set_lib::lemma_len_subset(s.to_set(), below(n));
}

/// When some node is left out of `o` and each node left out is fed by another
/// node left out, the graph has a cycle.
proof fn lemma_stuck_has_cycle(e: Seq<Seq<nat>>, o: Seq<nat>, w: nat)
    requires
        w < e.len(),
        !o.contains(w),
        forall|x: nat|
            x < e.len() && !o.contains(x) ==> exists|u: nat|
                u < e.len() && !o.contains(u) && #[trigger] has_edge(e, u as int, x),
    ensures
        exists|c: Seq<nat>| is_cycle(e, c),
{
    let n = e.len();
    let walk = back_walk(e, o, w, n);
    lemma_back_walk(e, o, w, n);
    if walk.no_duplicates() {
        lemma_distinct_below_len(walk, n);
    }
    let (a, b) = choose|a: int, b: int|
        0 <= a < walk.len() && 0 <= b < walk.len() && a != b && walk[a] == walk[b];
    let (lo, hi) = if a < b {
        (a, b)
    } else {
        (b, a)
    };
    let c = Seq::new((hi - lo + 1) as nat, |i: int| walk[hi - i]);
    assert(c[0] == walk[hi]);
    assert(c[c.len() - 1] == walk[lo]);
    assert forall|i: int| 0 <= i < c.len() - 1 implies #[trigger] has_edge(e, c[i] as int, c[i + 1]) by {
        let j = hi - i - 1;
        assert(has_edge(e, walk[j + 1] as int, walk[j]));
        assert(c[i] == walk[j + 1]);
        assert(c[i + 1] == walk[j]);
    }
    assert(is_cycle(e, c));
}

/// When the nodes of `o` are done and every other node still has a pending edge
/// from a node that is not done, the graph has a cycle and no topological order.
proof fn lemma_stuck_order(e: Seq<Seq<nat>>, o: Seq<nat>)
    requires
        o.len() < e.len(),
        forall|w: nat| w < e.len() && !o.contains(w) ==> pending_into(e, o, w, e.len() as int) > 0,
    ensures
        !exists|t: Seq<nat>| is_topological_order(e, t),
        exists|c: Seq<nat>| is_cycle(e, c),
{
    let n = e.len();
    assert forall|x: nat| x < e.len() && !o.contains(x) implies exists|u: nat|
        u < e.len() && !o.contains(u) && #[trigger] has_edge(e, u as int, x) by {
        let u = lemma_pending_witness(e, o, x, e.len() as int);
        assert(has_edge(e, (u as nat) as int, x));
    }
    if forall|w: nat| w < n ==> o.contains(w) {
        lemma_holds_all_len(o, n as nat);
    }
    let w = choose|w: nat| w < n && !o.contains(w);
    lemma_stuck_has_cycle(e, o, w);
    if exists|t: Seq<nat>| is_topological_order(e, t) {
        let t = choose|t: Seq<nat>| is_topological_order(e, t);
        lemma_order_holds_all(e, o, t, n as int);
        lemma_covers(t, n as nat);
        assert forall|w: nat| w < n implies o.contains(w) by {
            assert(t.contains(w));
            let m = choose|m: int| 0 <= m < t.len() && t[m] == w;
            assert(o.contains(t[m]));
        }
        lemma_holds_all_len(o, n as nat);
    }
}

/// Audio graph: the nodes, and for each node the nodes that its output feeds.
/// A node's id is its index.
pub struct AudioGraph<N> {
    nodes: Vec<N>,
    adjacency: Vec<Vec<NodeId>>,
}

impl<N> AudioGraph<N> {
    /// The nodes, by id.
    pub closed spec fn nodes(&self) -> Seq<N> {
        self.nodes@
    }

    /// For each node, the ids of the nodes that its output feeds, in the order they were added.
    pub closed spec fn edges(&self) -> Seq<Seq<nat>> {
        self.adjacency@.map_values(|l: Vec<NodeId>| ids(l@))
    }

    /// Number of edges added so far.
    pub open spec fn edge_count(&self) -> nat {
        edge_total(self.edges(), self.edges().len() as int)
    }

    /// Every edge joins two existing nodes, and the edges can be counted in a `usize`.
    pub open spec fn wf(&self) -> bool {
        &&& self.nodes().len() == self.edges().len()
        &&& edges_within(self.edges())
        &&& self.edge_count() <= usize::MAX
    }

    /// Creates an empty graph.
    pub fn new() -> (r: Self)
        ensures
            r.wf(),
            r.nodes() == Seq::<N>::empty(),
            r.edges() == Seq::<Seq<nat>>::empty(),
            r.edge_count() == 0,
    {
        let r = AudioGraph { nodes: Vec::new(), adjacency: Vec::new() };
        assert(r.edges() =~= Seq::<Seq<nat>>::empty());
        r
    }

    /// Adds a node with no edges and returns its id, which is the previous node count.
    pub fn add_node(&mut self, node: N) -> (r: NodeId)
        requires
            old(self).wf(),
        ensures
            final(self).wf(),
            r@ == old(self).nodes().len(),
            final(self).nodes() == old(self).nodes().push(node),
            final(self).edges() == old(self).edges().push(Seq::<nat>::empty()),
            final(self).edge_count() == old(self).edge_count(),
    {
        let ghost e0 = self.edges();
        self.nodes.push(node);
        self.adjacency.push(Vec::new());
        let ghost e1 = self.edges();
        assert(e1[e0.len() as int] =~= Seq::<nat>::empty());
        assert(e1 =~= e0.push(Seq::<nat>::empty()));
        assert(edge_total(e1, e1.len() as int) == edge_total(e0, e0.len() as int)) by {
            lemma_edge_total_prefix(e0, e1, e0.len() as int);
        }
        NodeId::new(self.nodes.len() - 1)
    }

    /// Records that the output of `from` feeds `to`.
    pub fn add_edge(&mut self, from: NodeId, to: NodeId)
        requires
            old(self).wf(),
            from@ < old(self).nodes().len(),
            to@ < old(self).nodes().len(),
            old(self).edge_count() < usize::MAX,
        ensures
            final(self).wf(),
            final(self).nodes() == old(self).nodes(),
            final(self).edges() == old(self).edges().update(
                from@ as int,
                old(self).edges()[from@ as int].push(to@),
            ),
            final(self).edge_count() == old(self).edge_count() + 1,
    {
        let ghost e0 = self.edges();
        let i = from.as_usize();
        let mut list: Vec<NodeId> = Vec::new();
        self.adjacency.set_and_swap(i, &mut list);
        list.push(to);
        self.adjacency.set(i, list);
        let ghost e1 = self.edges();
        assert(e1 =~= e0.update(i as int, e0[i as int].push(to@))) by {
            assert(ids(list@) =~= e0[i as int].push(to@));
        }
        proof {
            lemma_edge_total_update(e0, e1, i as int, e0.len() as int);
        }
    }

    /// Returns the number of nodes.
    pub fn node_count(&self) -> (r: usize)
        requires
            self.wf(),
        ensures
            r == self.nodes().len(),
    {
        self.nodes.len()
    }

    /// Returns the nodes that the output of `id` feeds.
    pub fn successors(&self, id: NodeId) -> (r: &[NodeId])
        requires
            self.wf(),
            id@ < self.nodes().len(),
        ensures
            ids(r@) == self.edges()[id@ as int],
    {
        self.adjacency[id.as_usize()].as_slice()
    }
}

impl<N> AudioGraph<N> {
    /// Orders the nodes so that each node comes after every node that feeds it
    /// (Kahn's algorithm). Nodes that nothing feeds are taken in ascending id order.
    /// Fails exactly when no such order exists, that is when the graph has a cycle.
    pub fn topological_sort(&self) -> (r: Result<Vec<NodeId>, ()>)
        requires
            self.wf(),
        ensures
            match r {
                Ok(order) => {
                    &&& is_topological_order(self.edges(), ids(order@))
                    &&& ids(order@).take(sources(self.edges(), self.edges().len() as int).len() as int)
                        == sources(self.edges(), self.edges().len() as int)
                },
                Err(_) => {
                    &&& !exists|t: Seq<nat>| is_topological_order(self.edges(), t)
                    &&& exists|c: Seq<nat>| is_cycle(self.edges(), c)
                },
            },
    {
        let n = self.nodes.len();
        let ghost e = self.edges();
        if n == 0 {
            let order: Vec<NodeId> = Vec::new();
            assert(ids(order@) =~= Seq::<nat>::empty());
            assert(ids(order@).take(0) =~= Seq::<nat>::empty());
            return Ok(order);
        }
        // in_degree[v] = number of edges pointing to v
        let mut in_degree: Vec<usize> = vec![0usize; n];
        let mut u: usize = 0;
        while u < n
            invariant
                self.wf(),
                e == self.edges(),
                n == e.len(),
                u <= n,
                in_degree@.len() == n,
                forall|v: int|
                    0 <= v < n ==> #[trigger] in_degree@[v] == pending_into(
                        e,
                        Seq::<nat>::empty(),
                        v as nat,
                        u as int,
                    ),
            decreases n - u,
        {
            let succ_list = &self.adjacency[u];
            assert(ids(succ_list@) == e[u as int]);
            let mut j: usize = 0;
            while j < succ_list.len()
                invariant
                    self.wf(),
                    e == self.edges(),
                    n == e.len(),
                    u < n,
                    in_degree@.len() == n,
                    ids(succ_list@) == e[u as int],
                    j <= succ_list@.len(),
                    forall|v: int|
                        0 <= v < n ==> #[trigger] in_degree@[v] == pending_into(
                            e,
                            Seq::<nat>::empty(),
                            v as nat,
                            u as int,
                        ) + occurrences(e[u as int].take(j as int), v as nat),
                decreases succ_list.len() - j,
            {
                let s = succ_list[j].0;
                proof {
                    assert(e[u as int][j as int] == s as nat);
                    assert(s < n);
                    lemma_pending_le_total(e, Seq::<nat>::empty(), s as nat, u as int);
                    lemma_occurrences_len(e[u as int].take(j as int), s as nat);
                    lemma_edge_total_mono(e, u as int + 1, n as int);
                    lemma_occurrences_prefix(e[u as int], j as int, s as nat);
                }
                let d = in_degree[s] + 1;
                in_degree.set(s, d);
                proof {
                    assert forall|v: int| 0 <= v < n implies #[trigger] in_degree@[v]
                        == pending_into(e, Seq::<nat>::empty(), v as nat, u as int) + occurrences(
                        e[u as int].take(j + 1),
                        v as nat,
                    ) by {
                        lemma_occurrences_prefix(e[u as int], j as int, v as nat);
                    }
                }
                j = j + 1;
            }
            proof {
                assert(e[u as int].take(j as int) =~= e[u as int]);
                assert(!Seq::<nat>::empty().contains(u as nat));
            }
            u = u + 1;
        }
        // Seed the queue with every node that nothing feeds, in ascending id order.
        // `order` is the queue itself: entries before `head` have been processed.
        let mut order: Vec<NodeId> = Vec::with_capacity(n);
        let mut v: usize = 0;
        while v < n
            invariant
                e == self.edges(),
                n == e.len(),
                v <= n,
                in_degree@.len() == n,
                forall|w: int|
                    0 <= w < n ==> #[trigger] in_degree@[w] == pending_into(
                        e,
                        Seq::<nat>::empty(),
                        w as nat,
                        n as int,
                    ),
                order@.len() <= v,
                ids(order@) == sources(e, v as int),
                ids(order@).no_duplicates(),
                forall|i: int| 0 <= i < order@.len() ==> #[trigger] ids(order@)[i] < v,
                forall|w: nat|
                    w < n ==> (ids(order@).contains(w) <==> (w < v && in_degree@[w as int] == 0)),
                forall|i: int, u: int|
                    0 <= i < order@.len() ==> !#[trigger] has_edge(e, u, ids(order@)[i]),
            decreases n - v,
        {
            if in_degree[v] == 0 {
                let ghost old_ids = ids(order@);
                order.push(NodeId(v));
                proof {
                    assert(ids(order@) =~= old_ids.push(v as nat));
                    lemma_pending_zero(e, Seq::<nat>::empty(), v as nat, n as int);
                    assert(is_source(e, v as nat));
                    assert forall|w: nat| w < n implies (ids(order@).contains(w) <==> (w < v + 1
                        && in_degree@[w as int] == 0)) by {
                        if ids(order@).contains(w) && w != v {
                            let i = choose|i: int| 0 <= i < ids(order@).len() && ids(order@)[i] == w;
                            assert(old_ids[i] == w);
                        }
                        if old_ids.contains(w) {
                            let i = choose|i: int| 0 <= i < old_ids.len() && old_ids[i] == w;
                            assert(ids(order@)[i] == w);
                        }
                        if w == v {
                            assert(ids(order@)[old_ids.len() as int] == w);
                        }
                    }
                    assert forall|i: int, u: int| 0 <= i < order@.len() implies !#[trigger] has_edge(
                        e,
                        u,
                        ids(order@)[i],
                    ) by {
                        if i < old_ids.len() {
                            assert(ids(order@)[i] == old_ids[i]);
                        }
                    }
                }
            } else {
                proof {
                    let u = lemma_pending_witness(e, Seq::<nat>::empty(), v as nat, n as int);
                    assert(!is_source(e, v as nat));
                    assert forall|w: nat| w < n implies (ids(order@).contains(w) <==> (w < v + 1
                        && in_degree@[w as int] == 0)) by {
                        if ids(order@).contains(w) {
                            let i = choose|i: int| 0 <= i < ids(order@).len() && ids(order@)[i] == w;
                        }
                    }
                }
            }
            v = v + 1;
        }
        let ghost srcs = ids(order@);
        proof {
            assert(ids(order@).take(0) =~= Seq::<nat>::empty());
            assert(ids(order@).take(srcs.len() as int) =~= srcs);
        }
        let mut head: usize = 0;
        while head < order.len()
            invariant
                self.wf(),
                e == self.edges(),
                n == e.len(),
                in_degree@.len() == n,
                head <= order@.len() <= n,
                srcs == sources(e, n as int),
                srcs.len() <= order@.len(),
                ids(order@).take(srcs.len() as int) == srcs,
                ids(order@).no_duplicates(),
                forall|i: int| 0 <= i < order@.len() ==> #[trigger] ids(order@)[i] < n,
                forall|w: int|
                    0 <= w < n ==> #[trigger] in_degree@[w] == pending_into(
                        e,
                        ids(order@).take(head as int),
                        w as nat,
                        n as int,
                    ),
                forall|w: nat| w < n ==> (ids(order@).contains(w) <==> in_degree@[w as int] == 0),
                forall|i: int, u: int|
                    0 <= i < order@.len() && #[trigger] has_edge(e, u, ids(order@)[i]) ==> exists|
                        k: int,
                    |
                        0 <= k < i && ids(order@)[k] == u as nat,
            decreases n - head,
        {
            let x = order[head].0;
            let ghost done = ids(order@).take(head as int);
            proof {
                assert(ids(order@)[head as int] == x as nat);
                if done.contains(x as nat) {
                    let i = choose|i: int| 0 <= i < done.len() && done[i] == x as nat;
                    assert(ids(order@)[i] == x as nat);
                }
            }
            let succ_list = &self.adjacency[x];
            assert(ids(succ_list@) == e[x as int]);
            let mut j: usize = 0;
            while j < succ_list.len()
                invariant
                    self.wf(),
                    e == self.edges(),
                    n == e.len(),
                    in_degree@.len() == n,
                    x < n,
                    head < order@.len() <= n,
                    srcs.len() <= order@.len(),
                    ids(order@).take(srcs.len() as int) == srcs,
                    ids(order@)[head as int] == x as nat,
                    done == ids(order@).take(head as int),
                    !done.contains(x as nat),
                    ids(succ_list@) == e[x as int],
                    j <= succ_list@.len(),
                    ids(order@).no_duplicates(),
                    forall|i: int| 0 <= i < order@.len() ==> #[trigger] ids(order@)[i] < n,
                    forall|w: int|
                        0 <= w < n ==> #[trigger] in_degree@[w] + occurrences(
                            e[x as int].take(j as int),
                            w as nat,
                        ) == pending_into(e, done, w as nat, n as int),
                    forall|w: nat|
                        w < n ==> (ids(order@).contains(w) <==> in_degree@[w as int] == 0),
                    forall|i: int, u: int|
                        0 <= i < order@.len() && #[trigger] has_edge(e, u, ids(order@)[i])
                            ==> exists|k: int| 0 <= k < i && ids(order@)[k] == u as nat,
                decreases succ_list.len() - j,
            {
                let s = succ_list[j].0;
                proof {
                    assert(e[x as int][j as int] == s as nat);
                    assert(s < n);
                    lemma_occurrences_prefix(e[x as int], j as int, s as nat);
                    lemma_occurrences_le(e[x as int], j + 1, s as nat);
                    lemma_pending_push(e, done, x as nat, s as nat, n as int);
                }
                let d = in_degree[s] - 1;
                in_degree.set(s, d);
                proof {
                    assert forall|w: int| 0 <= w < n implies #[trigger] in_degree@[w]
                        + occurrences(e[x as int].take(j + 1), w as nat) == pending_into(
                        e,
                        done,
                        w as nat,
                        n as int,
                    ) by {
                        lemma_occurrences_prefix(e[x as int], j as int, w as nat);
                    }
                }
                if d == 0 {
                    let ghost old_ids = ids(order@);
                    proof {
                        assert(!old_ids.contains(s as nat));
                        lemma_pending_zero(e, done.push(x as nat), s as nat, n as int);
                        if old_ids.len() == n {
                            lemma_covers(old_ids, n as nat);
                        }
                    }
                    order.push(NodeId(s));
                    proof {
                        let ids_now = ids(order@);
                        assert(ids_now =~= old_ids.push(s as nat));
                        assert(ids_now.take(srcs.len() as int) =~= old_ids.take(srcs.len() as int));
                        assert(ids_now.take(head as int) =~= done);
                        assert(ids_now.no_duplicates()) by {
                            assert forall|a: int, b: int|
                                0 <= a < ids_now.len() && 0 <= b < ids_now.len() && a != b implies
                                ids_now[a] != ids_now[b] by {
                                if a < old_ids.len() && b < old_ids.len() {
                                    assert(old_ids[a] != old_ids[b]);
                                } else if a < old_ids.len() {
                                    assert(old_ids.contains(ids_now[a]));
                                } else if b < old_ids.len() {
                                    assert(old_ids.contains(ids_now[b]));
                                }
                            }
                        }
                        assert forall|w: nat| w < n implies (ids_now.contains(w) <==> in_degree@[w
                            as int] == 0) by {
                            if ids_now.contains(w) && w != s {
                                let i = choose|i: int| 0 <= i < ids_now.len() && ids_now[i] == w;
                                assert(old_ids[i] == w);
                            }
                            if old_ids.contains(w) {
                                let i = choose|i: int| 0 <= i < old_ids.len() && old_ids[i] == w;
                                assert(ids_now[i] == w);
                            }
                            if w == s {
                                assert(ids_now[old_ids.len() as int] == w);
                            }
                        }
                        assert forall|i: int, u: int|
                            0 <= i < order@.len() && #[trigger] has_edge(e, u, ids_now[i]) implies exists|
                            k: int,
                        |
                            0 <= k < i && ids_now[k] == u as nat by {
                            if i < old_ids.len() {
                                assert(ids_now[i] == old_ids[i]);
                                let k = choose|k: int| 0 <= k < i && old_ids[k] == u as nat;
                                assert(ids_now[k] == u as nat);
                            } else {
                                assert(done.push(x as nat).contains(u as nat));
                                let k = choose|k: int|
                                    0 <= k < done.push(x as nat).len() && done.push(x as nat)[k]
                                        == u as nat;
                                assert(ids_now[k] == u as nat);
                            }
                        }
                    }
                }
                j = j + 1;
            }
            proof {
                assert(e[x as int].take(j as int) =~= e[x as int]);
                assert(ids(order@).take(head + 1) =~= done.push(x as nat));
                assert forall|w: int| 0 <= w < n implies #[trigger] in_degree@[w] == pending_into(
                    e,
                    ids(order@).take(head + 1),
                    w as nat,
                    n as int,
                ) by {
                    lemma_pending_push(e, done, x as nat, w as nat, n as int);
                }
            }
            head = head + 1;
        }
        proof {
            assert(ids(order@).take(head as int) =~= ids(order@));
        }
        if order.len() == n {
            proof {
                let o = ids(order@);
                assert forall|i: int, j: int|
                    0 <= i < o.len() && 0 <= j < o.len() && #[trigger] has_edge(
                        e,
                        o[i] as int,
                        o[j],
                    ) implies i < j by {
                    let k = choose|k: int| 0 <= k < j && o[k] == o[i] as int as nat;
                    assert(o[k] == o[i]);
                }
            }
            Ok(order)
        } else {
            proof {
                let o = ids(order@);
                assert forall|w: nat| w < e.len() && !o.contains(w) implies pending_into(
                    e,
                    o,
                    w,
                    e.len() as int,
                ) > 0 by {
                    assert(in_degree@[w as int] == pending_into(e, o, w, n as int));
                }
                lemma_stuck_order(e, o);
            }
            Err(())
        }
    }
}

/// The positions `j < k` in `order` whose node feeds the node at position `i`, ascending.
pub open spec fn feeders(e: Seq<Seq<nat>>, order: Seq<nat>, i: int, k: int) -> Seq<usize>
    decreases k,
{
    if k <= 0 {
        Seq::empty()
    } else {
        let f = feeders(e, order, i, k - 1);
        if has_edge(e, order[k - 1] as int, order[i]) {
            f.push((k - 1) as usize)
        } else {
            f
        }
    }
}

proof fn lemma_feeders_members(e: Seq<Seq<nat>>, order: Seq<nat>, i: int, k: int)
    requires
        0 <= k <= order.len(),
        order.len() <= usize::MAX,
    ensures
        forall|m: int|
            0 <= m < feeders(e, order, i, k).len() ==> {
                let j = #[trigger] feeders(e, order, i, k)[m];
                &&& j < k
                &&& has_edge(e, order[j as int] as int, order[i])
            },
    decreases k,
{
    if k > 0 {
        lemma_feeders_members(e, order, i, k - 1);
        let f = feeders(e, order, i, k - 1);
        if has_edge(e, order[k - 1] as int, order[i]) {
            assert(((k - 1) as usize) as int == k - 1);
            assert forall|m: int| 0 <= m < f.len() + 1 implies {
                let j = #[trigger] f.push((k - 1) as usize)[m];
                &&& j < k
                &&& has_edge(e, order[j as int] as int, order[i])
            } by {
                if m < f.len() {
                    assert(f.push((k - 1) as usize)[m] == f[m]);
                }
            }
        }
    }
}

/// An execution plan: the nodes in dependency order, one scratch buffer of
/// `frame_count` samples per node, and for each node the positions of the nodes
/// whose output it reads. A node only reads nodes that run before it. `S` is the
/// sample type.
#[derive(Clone, Debug, PartialEq)]
pub struct CompiledGraph<N, S> {
    nodes: Vec<N>,
    order: Vec<NodeId>,
    input_buf_indices: Vec<Vec<usize>>,
    scratch_buffers: Vec<AudioBuffer<S>>,
    frame_count: usize,
    /// The silent sample.
    silence: S,
}

/// What running `p0` once does, ending in `p1`, to an output block holding `out0`,
/// leaving `out1`: each node, in order, reads the final buffers of the nodes that
/// feed it and its own old buffer, and leaves its new state and buffer; then the
/// last node's buffer is copied into the output, the remainder being silence. A
/// plan with no nodes leaves the output as it is.
pub open spec fn process_spec<N: Processor<S>, S>(
    p0: CompiledGraph<N, S>,
    p1: CompiledGraph<N, S>,
    out0: Seq<S>,
    out1: Seq<S>,
) -> bool {
    let n = p0.nodes().len();
    &&& p1.wf()
    &&& p1.nodes().len() == n
    &&& p1.order() == p0.order()
    &&& p1.inputs() == p0.inputs()
    &&& p1.spec_frame_count() == p0.spec_frame_count()
    &&& p1.silence() == p0.silence()
    &&& out1.len() == out0.len()
    &&& forall|i: int|
        0 <= i < n ==> #[trigger] p0.nodes()[i].produces(
            gather(p1.scratch(), p0.inputs()[i]),
            p0.scratch()[i],
            p1.nodes()[i],
            p1.scratch()[i],
        )
    &&& n == 0 ==> out1 == out0 && p1.scratch() == p0.scratch()
    &&& n > 0 ==> forall|k: int|
        0 <= k < out1.len() ==> #[trigger] out1[k] == if k < p1.scratch()[n - 1].len() {
            p1.scratch()[n - 1][k]
        } else {
            p0.silence()
        }
}

impl<N, S> CompiledGraph<N, S> {
    /// The nodes, in the order they run.
    pub closed spec fn nodes(&self) -> Seq<N> {
        self.nodes@
    }

    /// For each position, the id that its node had in the graph it was compiled from.
    pub closed spec fn order(&self) -> Seq<nat> {
        ids(self.order@)
    }

    /// For each position, the positions of the nodes that feed it, ascending.
    pub closed spec fn inputs(&self) -> Seq<Seq<usize>> {
        self.input_buf_indices@.map_values(|v: Vec<usize>| v@)
    }

    /// For each position, the samples its node wrote last.
    pub closed spec fn scratch(&self) -> Seq<Seq<S>> {
        contents(self.scratch_buffers@)
    }

    /// Length that the scratch buffers were allocated with.
    pub closed spec fn spec_frame_count(&self) -> usize {
        self.frame_count
    }

    /// The sample written where the plan outputs silence.
    pub closed spec fn silence(&self) -> S {
        self.silence
    }

    /// One entry per node in each table, every buffer `frame_count` long, and every
    /// input runs before the node that reads it.
    pub open spec fn wf(&self) -> bool {
        &&& self.order().len() == self.nodes().len()
        &&& self.inputs().len() == self.nodes().len()
        &&& self.scratch().len() == self.nodes().len()
        &&& forall|i: int|
            0 <= i < self.scratch().len() ==> (#[trigger] self.scratch()[i]).len()
                == self.spec_frame_count()
        &&& forall|i: int, k: int|
            0 <= i < self.inputs().len() && 0 <= k < self.inputs()[i].len() ==> #[trigger] self.inputs()[i][k]
                < i
    }

    /// Number of nodes in the plan.
    pub fn node_count(&self) -> (r: usize)
        requires
            self.wf(),
        ensures
            r == self.nodes().len(),
    {
        self.nodes.len()
    }

    /// Length of each scratch buffer.
    pub fn frame_count(&self) -> (r: usize)
        ensures
            r == self.spec_frame_count(),
    {
        self.frame_count
    }

    /// The node at position `i`.
    pub fn node(&self, i: usize) -> (r: &N)
        requires
            self.wf(),
            i < self.nodes().len(),
        ensures
            *r == self.nodes()[i as int],
    {
        &self.nodes[i]
    }

    /// Positions of the nodes whose output the node at position `i` reads.
    pub fn inputs_of(&self, i: usize) -> (r: &[usize])
        requires
            self.wf(),
            i < self.nodes().len(),
        ensures
            r@ == self.inputs()[i as int],
    {
        self.input_buf_indices[i].as_slice()
    }
}

impl<N: Processor<S>, S: Copy + Default> CompiledGraph<N, S> {
    /// Runs every node in order, each reading the scratch buffers of its inputs
    /// and writing its own; then copies the last node's buffer into `output`, up
    /// to the shorter of the two lengths, and silences the rest of `output`. A plan
    /// with no nodes leaves `output` as it is. Nothing is allocated.
    pub fn process(&mut self, output: &mut [S])
        requires
            old(self).wf(),
        ensures
            process_spec(*old(self), *final(self), old(output)@, final(output)@),
    {
        let n = self.nodes.len();
        if n == 0 {
            return;
        }
        let ghost p0 = *self;
        let mut i: usize = 0;
        while i < n
            invariant
                self.wf(),
                n == self.nodes().len(),
                p0.wf(),
                p0.nodes().len() == n,
                self.order() == p0.order(),
                self.inputs() == p0.inputs(),
                self.frame_count == p0.frame_count,
                self.silence == p0.silence,
                i <= n,
                forall|k: int|
                    0 <= k < i ==> #[trigger] p0.nodes()[k].produces(
                        gather(self.scratch(), p0.inputs()[k]),
                        p0.scratch()[k],
                        self.nodes()[k],
                        self.scratch()[k],
                    ),
                forall|k: int|
                    i <= k < n ==> #[trigger] self.nodes()[k] == p0.nodes()[k] && self.scratch()[k]
                        == p0.scratch()[k],
            decreases n - i,
        {
            // Take this node's buffer out so that its inputs can be read meanwhile;
            // an empty buffer, which allocates nothing, stands in for it.
            let ghost before = self.scratch();
            let ghost nodes_before = self.nodes();
            let mut buf: AudioBuffer<S> = AudioBuffer::new(0);
            self.scratch_buffers.set_and_swap(i, &mut buf);
            let ins = self.input_buf_indices[i].as_slice();
            assert(ins@ == self.inputs()[i as int]);
            assert forall|k: int| 0 <= k < ins@.len() implies #[trigger] ins@[k]
                < self.scratch_buffers@.len() by {
                assert(self.inputs()[i as int][k] < i);
            }
            assert(gather(contents(self.scratch_buffers@), ins@) =~= gather(before, ins@)) by {
                assert forall|k: int| 0 <= k < ins@.len() implies #[trigger] contents(
                    self.scratch_buffers@,
                )[ins@[k] as int] == before[ins@[k] as int] by {
                    assert(self.inputs()[i as int][k] < i);
                }
            }
            self.nodes[i].process(self.scratch_buffers.as_slice(), ins, buf.as_mut_slice());
            self.scratch_buffers.set(i, buf);
            proof {
                let after = self.scratch();
                assert(after =~= before.update(i as int, buf@));
                assert(self.nodes() =~= nodes_before.update(i as int, self.nodes()[i as int]));
                assert forall|k: int| i < k < n implies #[trigger] self.nodes()[k] == p0.nodes()[k]
                    && self.scratch()[k] == p0.scratch()[k] by {
                    assert(self.nodes()[k] == nodes_before[k]);
                    assert(after[k] == before[k]);
                }
                assert(gather(after, p0.inputs()[i as int]) =~= gather(before, ins@)) by {
                    assert forall|k: int| 0 <= k < ins@.len() implies #[trigger] after[ins@[k] as int]
                        == before[ins@[k] as int] by {
                        assert(self.inputs()[i as int][k] < i);
                    }
                }
                assert forall|k: int| 0 <= k < i implies gather(after, p0.inputs()[k]) == gather(
                    before,
                    p0.inputs()[k],
                ) by {
                    assert(gather(after, p0.inputs()[k]) =~= gather(before, p0.inputs()[k])) by {
                        assert forall|m: int| 0 <= m < p0.inputs()[k].len() implies #[trigger] after[p0.inputs()[k][m] as int]
                            == before[p0.inputs()[k][m] as int] by {
                            assert(p0.inputs()[k][m] < k);
                        }
                    }
                }
                assert forall|k: int| 0 <= k <= i implies #[trigger] p0.nodes()[k].produces(
                    gather(self.scratch(), p0.inputs()[k]),
                    p0.scratch()[k],
                    self.nodes()[k],
                    self.scratch()[k],
                ) by {
                    if k < i {
                        assert(gather(after, p0.inputs()[k]) == gather(before, p0.inputs()[k]));
                    }
                }
            }
            i = i + 1;
        }
        let last = self.scratch_buffers[n - 1].as_slice();
        let len = if last.len() < output.len() {
            last.len()
        } else {
            output.len()
        };
        let ghost out0 = output@;
        let mut k: usize = 0;
        while k < len
            invariant
                len <= last@.len(),
                len <= output@.len(),
                output@.len() == out0.len(),
                k <= len,
                forall|m: int| 0 <= m < k ==> #[trigger] output@[m] == last@[m],
            decreases len - k,
        {
            output[k] = last[k];
            k = k + 1;
        }
        let (_, rest) = output.split_at_mut(len);
        fill(rest, self.silence);
        assert(self.scratch()[n - 1] == last@);
    }
}

/// Whether `target` occurs in `list`.
fn feeds(list: &Vec<NodeId>, target: NodeId) -> (r: bool)
    ensures
        r == ids(list@).contains(target@),
{
    let mut k: usize = 0;
    while k < list.len()
        invariant
            k <= list@.len(),
            forall|m: int| 0 <= m < k ==> ids(list@)[m] != target@,
        decreases list.len() - k,
    {
        if list[k].0 == target.0 {
            assert(ids(list@)[k as int] == target@);
            return true;
        }
        k = k + 1;
    }
    proof {
        if ids(list@).contains(target@) {
            let m = choose|m: int| 0 <= m < ids(list@).len() && ids(list@)[m] == target@;
        }
    }
    false
}

impl<N: Clone> AudioGraph<N> {
    /// Builds the execution plan: the nodes in topological order (copies of this
    /// graph's nodes), and for the node at each position the ascending positions of
    /// the nodes that feed it. Fails exactly when the graph has a cycle.
    pub fn compile<S: Copy + Default>(&self, frame_count: usize) -> (r: Result<
        CompiledGraph<N, S>,
        (),
    >)
        requires
            self.wf(),
        ensures
            match r {
                Ok(p) => {
                    &&& p.wf()
                    &&& is_topological_order(self.edges(), p.order())
                    &&& p.order().take(sources(self.edges(), self.edges().len() as int).len() as int)
                        == sources(self.edges(), self.edges().len() as int)
                    &&& p.spec_frame_count() == frame_count
                    &&& call_ensures(S::default, (), p.silence())
                    &&& forall|i: int|
                        0 <= i < p.nodes().len() ==> #[trigger] p.scratch()[i] == Seq::new(
                            frame_count as nat,
                            |k: int| p.silence(),
                        )
                    &&& forall|i: int|
                        0 <= i < p.nodes().len() ==> cloned(
                            self.nodes()[p.order()[i] as int],
                            #[trigger] p.nodes()[i],
                        )
                    &&& forall|i: int|
                        0 <= i < p.nodes().len() ==> #[trigger] p.inputs()[i] == feeders(
                            self.edges(),
                            p.order(),
                            i,
                            p.nodes().len() as int,
                        )
                },
                Err(_) => {
                    &&& !exists|t: Seq<nat>| is_topological_order(self.edges(), t)
                    &&& exists|c: Seq<nat>| is_cycle(self.edges(), c)
                },
            },
    {
        let order = match self.topological_sort() {
            Ok(order) => order,
            Err(()) => {
                return Err(());
            },
        };
        let ghost e = self.edges();
        let ghost o = ids(order@);
        let n = order.len();
        let mut nodes: Vec<N> = Vec::with_capacity(n);
        let mut i: usize = 0;
        while i < n
            invariant
                self.wf(),
                e == self.edges(),
                o == ids(order@),
                n == o.len(),
                is_topological_order(e, o),
                i <= n,
                nodes@.len() == i,
                forall|k: int|
                    0 <= k < i ==> cloned(self.nodes@[o[k] as int], #[trigger] nodes@[k]),
            decreases n - i,
        {
            let id = order[i].0;
            assert(o[i as int] == id as nat);
            nodes.push(self.nodes[id].clone());
            i = i + 1;
        }
        let mut input_buf_indices: Vec<Vec<usize>> = Vec::with_capacity(n);
        let mut i: usize = 0;
        while i < n
            invariant
                self.wf(),
                e == self.edges(),
                o == ids(order@),
                n == o.len(),
                is_topological_order(e, o),
                i <= n,
                input_buf_indices@.len() == i,
                forall|k: int|
                    0 <= k < i ==> #[trigger] input_buf_indices@[k]@ == feeders(e, o, k, n as int),
            decreases n - i,
        {
            let mut inputs: Vec<usize> = Vec::new();
            let mut j: usize = 0;
            while j < n
                invariant
                    self.wf(),
                    e == self.edges(),
                    o == ids(order@),
                    n == o.len(),
                    is_topological_order(e, o),
                    i < n,
                    j <= n,
                    inputs@ == feeders(e, o, i as int, j as int),
                decreases n - j,
            {
                let src = order[j].0;
                assert(o[j as int] == src as nat);
                assert(o[i as int] == order@[i as int]@);
                if feeds(&self.adjacency[src], order[i]) {
                    inputs.push(j);
                }
                j = j + 1;
            }
            input_buf_indices.push(inputs);
            i = i + 1;
        }
        let silence = S::default();
        let mut scratch_buffers: Vec<AudioBuffer<S>> = Vec::with_capacity(n);
        let mut i: usize = 0;
        while i < n
            invariant
                i <= n,
                scratch_buffers@.len() == i,
                forall|k: int|
                    0 <= k < i ==> (#[trigger] scratch_buffers@[k])@ == Seq::new(
                        frame_count as nat,
                        |m: int| silence,
                    ),
            decreases n - i,
        {
            scratch_buffers.push(AudioBuffer::filled(frame_count, silence));
            i = i + 1;
        }
        let plan = CompiledGraph {
            nodes,
            order,
            input_buf_indices,
            scratch_buffers,
            frame_count,
            silence,
        };
        proof {
            assert forall|i: int| 0 <= i < n implies #[trigger] plan.inputs()[i] == feeders(
                e,
                o,
                i,
                n as int,
            ) by {
                assert(plan.input_buf_indices@[i]@ == feeders(e, o, i, n as int));
            }
            assert forall|i: int, k: int|
                0 <= i < plan.inputs().len() && 0 <= k < plan.inputs()[i].len() implies #[trigger] plan.inputs()[i][k]
                < i by {
                lemma_feeders_members(e, o, i, n as int);
                let j = feeders(e, o, i, n as int)[k];
                assert(has_edge(e, o[j as int] as int, o[i]));
            }
        }
        Ok(plan)
    }
}

proof fn lemma_edge_total_prefix(e0: Seq<Seq<nat>>, e1: Seq<Seq<nat>>, k: int)
    requires
        0 <= k <= e0.len() <= e1.len(),
        forall|u: int| 0 <= u < e0.len() ==> e0[u] == e1[u],
    ensures
        edge_total(e1, k) == edge_total(e0, k),
    decreases k,
{
    if k > 0 {
        lemma_edge_total_prefix(e0, e1, k - 1);
    }
}

proof fn lemma_edge_total_update(e0: Seq<Seq<nat>>, e1: Seq<Seq<nat>>, i: int, k: int)
    requires
        0 <= i < e0.len(),
        0 <= k <= e0.len(),
        e1.len() == e0.len(),
        e1[i].len() == e0[i].len() + 1,
        forall|u: int| 0 <= u < e0.len() && u != i ==> e0[u] == e1[u],
    ensures
        edge_total(e1, k) == edge_total(e0, k) + if i < k {
            1nat
        } else {
            0nat
        },
    decreases k,
{
    if k > 0 {
        lemma_edge_total_update(e0, e1, i, k - 1);
    }
}

} // verus!
