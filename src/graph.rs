use vstd::prelude::*;

verus! {

/// The directed graph type of petgraph that holds the precedence edges.
pub type DiGraph = petgraph::graph::Graph<String, (), petgraph::Directed, u32>;

#[verifier::external_type_specification]
#[verifier::external_body]
#[verifier::reject_recursive_types(N)]
#[verifier::reject_recursive_types(E)]
#[verifier::reject_recursive_types(Ty)]
#[verifier::reject_recursive_types(Ix)]
pub struct ExGraph<N, E, Ty, Ix>(petgraph::graph::Graph<N, E, Ty, Ix>);

#[verifier::external_type_specification]
#[verifier::external_body]
pub struct ExDirected(petgraph::Directed);

/// The number of nodes of a petgraph graph.
pub uninterp spec fn graph_order(g: DiGraph) -> nat;

/// The edges of a petgraph graph, as (source, target) node indices, in insertion order.
pub uninterp spec fn graph_edges(g: DiGraph) -> Seq<(nat, nat)>;

/// Relies on petgraph's `Graph::new`: a graph with no nodes and no edges.
#[verifier::external_body]
fn new_digraph() -> (g: DiGraph)
    ensures
        graph_order(g) == 0,
        graph_edges(g) == Seq::<(nat, nat)>::empty(),
{
    petgraph::graph::Graph::new()
}

/// Relies on petgraph's `Graph::add_node`: the new node's index is the old node
/// count; with `u32` indices it panics only when that count is `u32::MAX`.
#[verifier::external_body]
fn digraph_add_node(g: &mut DiGraph, name: String) -> (r: usize)
    requires
        graph_order(*old(g)) < u32::MAX,
    ensures
        r == graph_order(*old(g)),
        graph_order(*final(g)) == graph_order(*old(g)) + 1,
        graph_edges(*final(g)) == graph_edges(*old(g)),
{
    g.add_node(name).index()
}

} // verus!

verus! {

/// Relies on petgraph's `Graph::add_edge`: appends the edge; it panics only when an
/// endpoint is out of range or the edge count reaches `u32::MAX`.
#[verifier::external_body]
fn digraph_add_edge(g: &mut DiGraph, a: usize, b: usize)
    requires
        a < graph_order(*old(g)),
        b < graph_order(*old(g)),
        graph_edges(*old(g)).len() < u32::MAX,
    ensures
        graph_order(*final(g)) == graph_order(*old(g)),
        graph_edges(*final(g)) == graph_edges(*old(g)).push((a as nat, b as nat)),
{
    g.add_edge(petgraph::graph::NodeIndex::new(a), petgraph::graph::NodeIndex::new(b), ());
}

/// Relies on petgraph's `Graph::contains_edge`: whether an edge `a -> b` exists.
#[verifier::external_body]
fn digraph_contains_edge(g: &DiGraph, a: usize, b: usize) -> (r: bool)
    requires
        a < graph_order(*g),
        b < graph_order(*g),
    ensures
        r == graph_edges(*g).contains((a as nat, b as nat)),
{
    g.contains_edge(petgraph::graph::NodeIndex::new(a), petgraph::graph::NodeIndex::new(b))
}

/// Relies on petgraph's `algo::is_cyclic_directed`: whether a directed cycle exists
/// (a self loop counts).
#[verifier::external_body]
fn digraph_is_cyclic(g: &DiGraph) -> (r: bool)
    ensures
        r == has_cycle(graph_edges(*g)),
{
    petgraph::algo::is_cyclic_directed(g)
}

/// Relies on petgraph's `algo::toposort`: every node once, each before its
/// successors; an error only when the graph has a cycle.
#[verifier::external_body]
fn digraph_toposort(g: &DiGraph) -> (r: Option<Vec<usize>>)
    ensures
        r is Some ==> is_topological(r->0@, graph_order(*g), graph_edges(*g)),
        r is None ==> has_cycle(graph_edges(*g)),
{
    match petgraph::algo::toposort(g, None) {
        Ok(order) => Some(order.into_iter().map(|n| n.index()).collect()),
        Err(_) => None,
    }
}

/// Relies on petgraph's `Graph::neighbors_directed`: the nodes at the other end of
/// the edges into `v` (when `incoming`) or out of `v`.
#[verifier::external_body]
fn digraph_neighbors(g: &DiGraph, v: usize, incoming: bool) -> (r: Vec<usize>)
    requires
        v < graph_order(*g),
    ensures
        incoming ==> forall|k: int| 0 <= k < r.len() ==> graph_edges(*g).contains((#[trigger] r[k] as nat, v as nat)),
        incoming ==> forall|u: nat| #[trigger] graph_edges(*g).contains((u, v as nat)) ==> r@.contains(u as usize),
        !incoming ==> forall|k: int| 0 <= k < r.len() ==> graph_edges(*g).contains((v as nat, #[trigger] r[k] as nat)),
        !incoming ==> forall|u: nat| #[trigger] graph_edges(*g).contains((v as nat, u)) ==> r@.contains(u as usize),
{
    let dir = if incoming { petgraph::Direction::Incoming } else { petgraph::Direction::Outgoing };
    g.neighbors_directed(petgraph::graph::NodeIndex::new(v), dir).map(|n| n.index()).collect()
}

/// Relies on petgraph's `Graph::neighbors_undirected`: the nodes joined to `v` by
/// an edge in either direction.
#[verifier::external_body]
fn digraph_neighbors_undirected(g: &DiGraph, v: usize) -> (r: Vec<usize>)
    requires
        v < graph_order(*g),
    ensures
        forall|k: int| 0 <= k < r.len() ==> linked(graph_edges(*g), v as nat, #[trigger] r[k] as nat),
        forall|u: nat| #[trigger] linked(graph_edges(*g), v as nat, u) ==> r@.contains(u as usize),
{
    g.neighbors_undirected(petgraph::graph::NodeIndex::new(v)).map(|n| n.index()).collect()
}

/// A walk along directed edges.
pub open spec fn is_walk(edges: Seq<(nat, nat)>, p: Seq<nat>) -> bool {
    forall|k: int| 0 <= k < p.len() - 1 ==> #[trigger] edges.contains((p[k], p[k + 1]))
}

/// Some walk of at least one edge returns to where it began.
pub open spec fn has_cycle(edges: Seq<(nat, nat)>) -> bool {
    exists|p: Seq<nat>| p.len() >= 2 && p[0] == p.last() && is_walk(edges, p)
}

/// An edge joins `u` and `v`, in either direction.
pub open spec fn linked(edges: Seq<(nat, nat)>, u: nat, v: nat) -> bool {
    edges.contains((u, v)) || edges.contains((v, u))
}

/// A walk that ignores the direction of edges.
pub open spec fn is_undirected_walk(edges: Seq<(nat, nat)>, p: Seq<nat>) -> bool {
    forall|k: int| 0 <= k < p.len() - 1 ==> #[trigger] linked(edges, p[k], p[k + 1])
}

/// An undirected walk from node 0 to `v`.
pub open spec fn rooted_walk(edges: Seq<(nat, nat)>, p: Seq<nat>, v: nat) -> bool {
    p.len() >= 1 && p[0] == 0 && p.last() == v && is_undirected_walk(edges, p)
}

/// Treating edges as undirected, every node is reached from node 0 (true when empty).
pub open spec fn weakly_connected(n: nat, edges: Seq<(nat, nat)>) -> bool {
    forall|v: nat| v < n ==> #[trigger] reached(edges, v)
}

/// Some undirected walk leads from node 0 to `v`.
pub open spec fn reached(edges: Seq<(nat, nat)>, v: nat) -> bool {
    exists|p: Seq<nat>| #[trigger] rooted_walk(edges, p, v)
}

/// `order` lists each of the `n` nodes once, and every edge goes forward in it.
pub open spec fn is_topological(order: Seq<usize>, n: nat, edges: Seq<(nat, nat)>) -> bool {
    &&& order.len() == n
    &&& order.no_duplicates()
    &&& forall|k: int| 0 <= k < n ==> #[trigger] order[k] < n
    &&& forall|i: int, j: int|
        0 <= i < n && 0 <= j < n && #[trigger] edges.contains((order[i] as nat, order[j] as nat))
            ==> i < j
}

/// The event-precedence graph: one node per name, edges from the petgraph graph.
pub struct ConstraintGraph {
    pub graph: DiGraph,
    pub names: Vec<String>,
}

impl ConstraintGraph {
    pub open spec fn node_names(&self) -> Seq<Seq<char>> {
        crate::types::views(self.names@)
    }

    pub open spec fn edges(&self) -> Seq<(nat, nat)> {
        graph_edges(self.graph)
    }

    /// Names are distinct and index the nodes; edges join existing nodes.
    pub open spec fn wf(&self) -> bool {
        &&& graph_order(self.graph) == self.names.len()
        &&& self.names.len() < u32::MAX
        &&& self.edges().len() < u32::MAX
        &&& self.node_names().no_duplicates()
        &&& forall|k: int| 0 <= k < self.edges().len() ==> (#[trigger] self.edges()[k]).0
            < self.names.len() && self.edges()[k].1 < self.names.len()
    }

    pub fn new() -> (r: ConstraintGraph)
        ensures
            r.wf(),
            r.names.len() == 0,
            r.edges().len() == 0,
    {
        let r = ConstraintGraph { graph: new_digraph(), names: Vec::new() };
        assert(r.node_names() =~= Seq::<Seq<char>>::empty());
        r
    }

    /// The index of the node named `name`, if any.
    pub fn find(&self, name: &str) -> (r: Option<usize>)
        ensures
            r is Some ==> r->0 < self.names.len() && self.node_names()[r->0 as int] == name@,
            r is None ==> !self.node_names().contains(name@),
    {
        let mut i: usize = 0;
        while i < self.names.len()
            invariant
                i <= self.names.len(),
                forall|k: int| 0 <= k < i ==> (#[trigger] self.names@[k])@ != name@,
            decreases self.names.len() - i,
        {
            if crate::types::str_eq(self.names[i].as_str(), name) {
                return Some(i);
            }
            i += 1;
        }
        proof {
            if self.node_names().contains(name@) {
                let k = choose|k: int| 0 <= k < self.node_names().len() && self.node_names()[k] == name@;
                assert(self.names@[k]@ == name@);
            }
        }
        None
    }

    /// The node named `name`, added when it is new.
    pub fn node_of(&mut self, name: &str) -> (r: usize)
        requires
            old(self).wf(),
            old(self).names.len() + 1 < u32::MAX,
        ensures
            final(self).wf(),
            r < final(self).names.len(),
            final(self).node_names()[r as int] == name@,
            final(self).edges() == old(self).edges(),
            old(self).node_names().contains(name@) ==> final(self).node_names() == old(self).node_names(),
            !old(self).node_names().contains(name@) ==> final(self).node_names() == old(self).node_names().push(name@),
    {
        match self.find(name) {
            Some(i) => i,
            None => {
                let s = name.to_string();
                let s2 = name.to_string();
                let i = digraph_add_node(&mut self.graph, s);
                self.names.push(s2);
                assert(self.node_names() =~= old(self).node_names().push(name@));
                i
            },
        }
    }

    /// Adds the edge `a -> b` unless it is already there.
    pub fn add_edge(&mut self, a: usize, b: usize)
        requires
            old(self).wf(),
            a < old(self).names.len(),
            b < old(self).names.len(),
            old(self).edges().len() + 1 < u32::MAX,
        ensures
            final(self).wf(),
            final(self).names@ == old(self).names@,
            final(self).edges().contains((a as nat, b as nat)),
            final(self).edges().len() <= old(self).edges().len() + 1,
            forall|e: (nat, nat)| #[trigger] final(self).edges().contains(e) <==> (old(self).edges().contains(e) || e == (a as nat, b as nat)),
            old(self).edges().contains((a as nat, b as nat)) ==> final(self).edges() == old(self).edges(),
    {
        if !digraph_contains_edge(&self.graph, a, b) {
            digraph_add_edge(&mut self.graph, a, b);
            proof {
                let olde = old(self).edges();
                let newe = self.edges();
                assert(newe == olde.push((a as nat, b as nat)));
                assert forall|e: (nat, nat)| #[trigger] newe.contains(e) <==> (olde.contains(e) || e == (a as nat, b as nat)) by {
                    if newe.contains(e) {
                        let k = choose|k: int| 0 <= k < newe.len() && newe[k] == e;
                        if k < olde.len() { assert(olde[k] == e); }
                    }
                    if olde.contains(e) {
                        let k = choose|k: int| 0 <= k < olde.len() && olde[k] == e;
                        assert(newe[k] == e);
                    }
                    if e == (a as nat, b as nat) {
                        assert(newe[olde.len() as int] == e);
                    }
                }
                assert forall|k: int| 0 <= k < newe.len() implies (#[trigger] newe[k]).0 < self.names.len() && newe[k].1 < self.names.len() by {
                    if k < olde.len() { assert(newe[k] == olde[k]); }
                }
            }
        }
    }

    /// Whether a directed cycle exists.
    pub fn has_cycle(&self) -> (r: bool)
        ensures
            r == has_cycle(self.edges()),
    {
        digraph_is_cyclic(&self.graph)
    }
}


/// A set of nodes that holds node 0 and is closed under undirected edges holds
/// every node that a rooted walk reaches.
proof fn lemma_closed_holds_reached(edges: Seq<(nat, nat)>, marked: Seq<bool>, p: Seq<nat>, v: nat)
    requires
        rooted_walk(edges, p, v),
        marked.len() > 0,
        marked[0],
        forall|k: int| 0 <= k < p.len() ==> (#[trigger] p[k]) < marked.len(),
        forall|u: int, w: int|
            0 <= u < marked.len() && 0 <= w < marked.len() && marked[u] && #[trigger] linked(edges, u as nat, w as nat)
                ==> marked[w],
    ensures
        marked[v as int],
    decreases p.len(),
{
    if p.len() > 1 {
        let q = p.drop_last();
        let u = q.last();
        let k0 = p.len() - 2;
        assert(linked(edges, p[k0], p[k0 + 1]));
        assert forall|k: int| 0 <= k < q.len() - 1 implies #[trigger] linked(edges, q[k], q[k + 1]) by {
            assert(linked(edges, p[k], p[k + 1]));
        }
        assert forall|k: int| 0 <= k < q.len() implies (#[trigger] q[k]) < marked.len() by {
            assert(q[k] == p[k]);
        }
        lemma_closed_holds_reached(edges, marked, q, u);
        assert(linked(edges, u, v));
        assert(u == p[k0] && v == p[k0 + 1]);
        assert(p[k0] < marked.len() && p[k0 + 1] < marked.len());
        let ui = u as int;
        let vi = v as int;
        assert(marked[ui]);
        assert(linked(edges, ui as nat, vi as nat));
        assert(marked[vi]);
    } else {
        assert(p[0] == p.last());
    }
}

/// A walk whose nodes all exist lies among `n` nodes.
pub open spec fn walk_within(p: Seq<nat>, n: nat) -> bool {
    forall|k: int| 0 <= k < p.len() ==> (#[trigger] p[k]) < n
}

impl ConstraintGraph {
    /// Whether, treating edges as undirected, every node is reached from the first
    /// (an empty graph counts as connected).
    pub fn is_single_component(&self) -> (r: bool)
        requires
            self.wf(),
        ensures
            r == weakly_connected(self.names.len() as nat, self.edges()),
    {
        let n = self.names.len();
        if n == 0 {
            return true;
        }
        let ghost edges = self.edges();
        let mut marked: Vec<bool> = Vec::new();
        let mut i: usize = 0;
        while i < n
            invariant
                i <= n,
                marked.len() == i,
                forall|k: int| 0 <= k < i ==> !marked[k],
            decreases n - i,
        {
            marked.push(false);
            i += 1;
        }
        marked.set(0, true);
        let mut stack: Vec<usize> = Vec::new();
        stack.push(0);
        let ghost mut paths: Seq<Seq<nat>> = Seq::new(n as nat, |k: int| seq![0nat]);
        let ghost mut seen: Set<int> = set![0int];
        proof {
            assert(rooted_walk(edges, paths[0], 0));
            vstd::set_lib::lemma_int_range(0, n as int);
            assert(stack@[0] == 0);
            assert(stack@.contains(0));
        }
        while stack.len() > 0
            invariant
                self.wf(),
                n == self.names.len(),
                edges == self.edges(),
                marked.len() == n,
                paths.len() == n,
                marked[0],
                stack@.no_duplicates(),
                forall|k: int| 0 <= k < stack.len() ==> (#[trigger] stack[k]) < n && marked[stack[k] as int],
                forall|v: int| 0 <= v < n ==> (marked[v] <==> #[trigger] seen.contains(v)),
                seen.subset_of(vstd::set_lib::set_int_range(0, n as int)),
                vstd::set_lib::set_int_range(0, n as int).finite(),
                vstd::set_lib::set_int_range(0, n as int).len() == n,
                forall|v: int| 0 <= v < n && #[trigger] marked[v] ==> rooted_walk(edges, paths[v], v as nat) && walk_within(paths[v], n as nat),
                forall|u: int, w: int| 0 <= u < n && 0 <= w < n && marked[u] && !stack@.contains(u as usize)
                    && #[trigger] linked(edges, u as nat, w as nat) ==> marked[w],
            decreases 2 * (n - seen.len()) + stack.len(),
        {
            proof { vstd::set_lib::lemma_len_subset(seen, vstd::set_lib::set_int_range(0, n as int)); }
            let ghost measure0 = 2 * (n - seen.len()) + stack.len();
            let ghost stack0 = stack@;
            let u = stack.pop().unwrap();
            proof {
                assert(stack0 == stack@.push(u));
                assert forall|a: usize| stack@.contains(a) implies stack0.contains(a) by {
                    let k = choose|k: int| 0 <= k < stack.len() && stack@[k] == a;
                    assert(stack0[k] == a);
                }
                assert(stack@.no_duplicates());
                assert(!stack@.contains(u)) by {
                    let old_stack = stack@.push(u);
                    if stack@.contains(u) {
                        let k = choose|k: int| 0 <= k < stack.len() && stack@[k] == u;
                        assert(old_stack[k] == old_stack[old_stack.len() - 1]);
                    }
                }
            }
            let nbrs = digraph_neighbors_undirected(&self.graph, u);
            let mut j: usize = 0;
            while j < nbrs.len()
                invariant
                    self.wf(),
                    n == self.names.len(),
                    edges == self.edges(),
                    u < n,
                    marked[u as int],
                    !stack@.contains(u),
                    marked.len() == n,
                    paths.len() == n,
                    marked[0],
                    j <= nbrs.len(),
                    forall|k: int| 0 <= k < nbrs.len() ==> linked(edges, u as nat, #[trigger] nbrs[k] as nat),
                    forall|x: nat| #[trigger] linked(edges, u as nat, x) ==> nbrs@.contains(x as usize),
                    forall|k: int| 0 <= k < j ==> marked[#[trigger] nbrs[k] as int],
                    stack@.no_duplicates(),
                    forall|k: int| 0 <= k < stack.len() ==> (#[trigger] stack[k]) < n && marked[stack[k] as int],
                    forall|v: int| 0 <= v < n ==> (marked[v] <==> #[trigger] seen.contains(v)),
                    seen.subset_of(vstd::set_lib::set_int_range(0, n as int)),
                    vstd::set_lib::set_int_range(0, n as int).finite(),
                    vstd::set_lib::set_int_range(0, n as int).len() == n,
                    2 * (n - seen.len()) + stack.len() < measure0,
                    forall|v: int| 0 <= v < n && #[trigger] marked[v] ==> rooted_walk(edges, paths[v], v as nat) && walk_within(paths[v], n as nat),
                    forall|a: int, w: int| 0 <= a < n && 0 <= w < n && a != u && marked[a] && !stack@.contains(a as usize)
                        && #[trigger] linked(edges, a as nat, w as nat) ==> marked[w],
                decreases nbrs.len() - j,
            {
                let w = nbrs[j];
                proof {
                    assert(linked(edges, u as nat, w as nat));
                    let e = if edges.contains((u as nat, w as nat)) { (u as nat, w as nat) } else { (w as nat, u as nat) };
                    let k = choose|k: int| 0 <= k < edges.len() && edges[k] == e;
                    assert(edges[k].0 < n && edges[k].1 < n);
                }
                if !marked[w] {
                    proof {
                        let pu = paths[u as int];
                        let pw = pu.push(w as nat);
                        assert forall|k: int| 0 <= k < pw.len() - 1 implies #[trigger] linked(edges, pw[k], pw[k + 1]) by {
                            if k < pu.len() - 1 {
                                assert(linked(edges, pu[k], pu[k + 1]));
                            } else {
                                assert(pw[k] == u);
                            }
                        }
                        assert(rooted_walk(edges, pw, w as nat));
                        paths = paths.update(w as int, pw);
                        vstd::set_lib::lemma_len_subset(seen, vstd::set_lib::set_int_range(0, n as int));
                        assert(!seen.contains(w as int));
                        let ghost before_len = seen.len();
                        seen = seen.insert(w as int);
                        assert(seen.len() == before_len + 1);
                    }
                    let ghost stack1 = stack@;
                    let ghost marked1 = marked@;
                    marked.set(w, true);
                    stack.push(w);
                    proof {
                        assert forall|a: usize| stack1.contains(a) implies stack@.contains(a) by {
                            let k = choose|k: int| 0 <= k < stack1.len() && stack1[k] == a;
                            assert(stack@[k] == a);
                        }
                        assert forall|a: int, x: int| 0 <= a < n && 0 <= x < n && a != u && marked[a] && !stack@.contains(a as usize)
                            && #[trigger] linked(edges, a as nat, x as nat) implies marked[x] by {
                            if a != w {
                                assert(marked1[a]);
                                assert(!stack1.contains(a as usize));
                                assert(marked1[x]);
                            } else {
                                assert(stack@[stack@.len() - 1] == w);
                            }
                        }
                        assert forall|k: int| 0 <= k < stack.len() - 1 implies stack@[k] != w by {
                            assert(marked[stack@[k] as int]);
                        }
                        assert(stack@.no_duplicates());
                    }
                }
                j += 1;
            }
            proof {
                vstd::set_lib::lemma_len_subset(seen, vstd::set_lib::set_int_range(0, n as int));
                assert forall|a: int, w: int| 0 <= a < n && 0 <= w < n && marked[a] && !stack@.contains(a as usize)
                    && #[trigger] linked(edges, a as nat, w as nat) implies marked[w] by {
                    if a == u {
                        assert(nbrs@.contains(w as usize));
                        let k = choose|k: int| 0 <= k < nbrs.len() && nbrs@[k] == w as usize;
                        assert(marked[nbrs[k] as int]);
                    }
                }
            }
        }
        let mut all: bool = true;
        let mut v: usize = 0;
        while v < n
            invariant
                v <= n,
                marked.len() == n,
                all == (forall|k: int| 0 <= k < v ==> marked[k]),
            decreases n - v,
        {
            if !marked[v] {
                all = false;
            }
            v += 1;
        }
        proof {
            if all {
                assert forall|x: nat| x < n implies #[trigger] reached(edges, x) by {
                    assert(marked[x as int]);
                    assert(rooted_walk(edges, paths[x as int], x));
                }
            } else {
                let x = choose|k: int| 0 <= k < n && !marked[k];
                if weakly_connected(n as nat, edges) {
                    assert(reached(edges, x as nat));
                    let p = choose|p: Seq<nat>| #[trigger] rooted_walk(edges, p, x as nat);
                    assert forall|k: int| 0 <= k < p.len() implies (#[trigger] p[k]) < marked.len() by {
                        if k > 0 {
                            let k1 = k - 1;
                            assert(linked(edges, p[k1], p[k1 + 1]));
                            let e = if edges.contains((p[k - 1], p[k])) { (p[k - 1], p[k]) } else { (p[k], p[k - 1]) };
                            let i = choose|i: int| 0 <= i < edges.len() && edges[i] == e;
                            assert(edges[i].0 < n && edges[i].1 < n);
                        }
                    }
                    lemma_closed_holds_reached(edges, marked@, p, x as nat);
                }
            }
        }
        all
    }
}

impl ConstraintGraph {
    /// Whether the graph is acyclic and, ignoring direction, in one piece.
    pub fn is_interval_graph(&self) -> (r: bool)
        requires
            self.wf(),
        ensures
            r == (!has_cycle(self.edges()) && weakly_connected(self.names.len() as nat, self.edges())),
    {
        if self.has_cycle() {
            return false;
        }
        self.is_single_component()
    }

    /// An order of the nodes in which every edge goes forward.
    pub fn topological_order(&self) -> (r: Option<Vec<usize>>)
        requires
            self.wf(),
        ensures
            r is Some ==> is_topological(r->0@, self.names.len() as nat, self.edges()),
            r is None ==> has_cycle(self.edges()),
    {
        digraph_toposort(&self.graph)
    }

    /// The nodes with an edge into `v` (when `incoming`) or out of `v`.
    pub fn neighbors(&self, v: usize, incoming: bool) -> (r: Vec<usize>)
        requires
            self.wf(),
            v < self.names.len(),
        ensures
            incoming ==> forall|k: int| 0 <= k < r.len() ==> self.edges().contains((#[trigger] r[k] as nat, v as nat)),
            incoming ==> forall|u: nat| #[trigger] self.edges().contains((u, v as nat)) ==> r@.contains(u as usize),
            !incoming ==> forall|k: int| 0 <= k < r.len() ==> self.edges().contains((v as nat, #[trigger] r[k] as nat)),
            !incoming ==> forall|u: nat| #[trigger] self.edges().contains((v as nat, u)) ==> r@.contains(u as usize),
    {
        digraph_neighbors(&self.graph, v, incoming)
    }
}

/// Whether the graph is acyclic and weakly connected: the shape a timeline must keep.
pub fn is_interval_graph(graph: &ConstraintGraph) -> (r: bool)
    requires
        graph.wf(),
    ensures
        r == (!has_cycle(graph.edges()) && weakly_connected(graph.names.len() as nat, graph.edges())),
{
    graph.is_interval_graph()
}
} // verus!
