use vstd::prelude::*;

verus! {

/// The relation dependency graph as plain values: the node names in the
/// order they were first mentioned, and the edges as (from, to) node ids.
pub struct GraphModel {
    pub names: Seq<Seq<char>>,
    pub edges: Seq<(int, int)>,
}

/// The id of the first node named `n`, or -1 when there is none.
pub open spec fn node_of(names: Seq<Seq<char>>, n: Seq<char>) -> int
    decreases names.len(),
{
    if names.len() == 0 {
        -1
    } else {
        let r = node_of(names.drop_last(), n);
        if r >= 0 {
            r
        } else if names.last() == n {
            names.len() - 1
        } else {
            -1
        }
    }
}

pub proof fn lemma_node_of(names: Seq<Seq<char>>, n: Seq<char>)
    ensures
        -1 <= node_of(names, n) < names.len(),
        node_of(names, n) >= 0 ==> names[node_of(names, n)] == n,
        node_of(names, n) >= 0 ==> forall|j: int| 0 <= j < node_of(names, n) ==> names[j] != n,
        node_of(names, n) == -1 <==> !names.contains(n),
    decreases names.len(),
{
    if names.len() > 0 {
        lemma_node_of(names.drop_last(), n);
        if node_of(names.drop_last(), n) == -1 && names.last() != n {
            assert forall|j: int| 0 <= j < names.len() implies names[j] != n by {
                if j < names.len() - 1 {
                    assert(names[j] == names.drop_last()[j]);
                }
            }
        }
        if names.contains(n) && node_of(names.drop_last(), n) == -1 && names.last() != n {
            let j = choose|j: int| 0 <= j < names.len() && names[j] == n;
            assert(false);
        }
        if node_of(names.drop_last(), n) >= 0 {
            assert(names.drop_last().contains(n));
            let j = choose|j: int| 0 <= j < names.drop_last().len() && names.drop_last()[j] == n;
            assert(names[j] == n);
        }
        if names.last() == n {
            assert(names[names.len() - 1] == n);
        }
        let r = node_of(names, n);
        if r >= 0 {
            assert forall|j: int| 0 <= j < r implies names[j] != n by {
                assert(names[j] == names.drop_last()[j]);
                if node_of(names.drop_last(), n) < 0 {
                    assert(!names.drop_last().contains(n));
                }
            }
        }
    }
}

/// Adding a name at the end leaves the ids of names already present alone.
pub proof fn lemma_node_of_push(names: Seq<Seq<char>>, x: Seq<char>, n: Seq<char>)
    ensures
        node_of(names, n) >= 0 ==> node_of(names.push(x), n) == node_of(names, n),
        node_of(names, n) < 0 && x == n ==> node_of(names.push(x), n) == names.len(),
        node_of(names, n) < 0 && x != n ==> node_of(names.push(x), n) == -1,
{
    assert(names.push(x).drop_last() =~= names);
}

pub open spec fn add_node(g: GraphModel, n: Seq<char>) -> GraphModel {
    if node_of(g.names, n) >= 0 {
        g
    } else {
        GraphModel { names: g.names.push(n), edges: g.edges }
    }
}

/// Adds an edge from each of `bodies` to `head`, in order, creating nodes on
/// first mention.
pub open spec fn add_body_edges(g: GraphModel, head: Seq<char>, bodies: Seq<Seq<char>>) -> GraphModel
    decreases bodies.len(),
{
    if bodies.len() == 0 {
        g
    } else {
        let g1 = add_node(add_body_edges(g, head, bodies.drop_last()), bodies.last());
        GraphModel {
            names: g1.names,
            edges: g1.edges.push((node_of(g1.names, bodies.last()), node_of(g1.names, head))),
        }
    }
}

/// The graph after one rule with head `head` and positive body relations
/// `bodies`: the head's node is created first.
pub open spec fn add_rule_edges(g: GraphModel, head: Seq<char>, bodies: Seq<Seq<char>>) -> GraphModel {
    add_body_edges(add_node(g, head), head, bodies)
}

/// The dependency graph of a list of rules, each given as its head relation
/// and its positive body relations.
pub open spec fn graph_of(rules: Seq<(Seq<char>, Seq<Seq<char>>)>) -> GraphModel
    decreases rules.len(),
{
    if rules.len() == 0 {
        GraphModel { names: Seq::empty(), edges: Seq::empty() }
    } else {
        add_rule_edges(graph_of(rules.drop_last()), rules.last().0, rules.last().1)
    }
}

/// Every edge joins two nodes of the graph.
pub open spec fn edges_in_range(g: GraphModel) -> bool {
    forall|i: int|
        0 <= i < g.edges.len() ==> 0 <= (#[trigger] g.edges[i]).0 < g.names.len() && 0 <= g.edges[i].1
            < g.names.len()
}

/// The dependency graph, held as plain values.
pub struct DependencyGraph {
    names: Vec<String>,
    edges: Vec<(usize, usize)>,
}

impl View for DependencyGraph {
    type V = GraphModel;

    closed spec fn view(&self) -> GraphModel {
        GraphModel {
            names: self.names@.map_values(|s: String| s@),
            edges: self.edges@.map_values(|e: (usize, usize)| (e.0 as int, e.1 as int)),
        }
    }
}

impl DependencyGraph {
    pub closed spec fn wf(&self) -> bool {
        &&& edges_in_range(self@)
        &&& self.names.len() == self@.names.len()
    }

    pub proof fn lemma_wf_edges(&self)
        requires
            self.wf(),
        ensures
            edges_in_range(self@),
    {
    }

    pub fn new() -> (r: DependencyGraph)
        ensures
            r.wf(),
            r@ == (GraphModel { names: Seq::empty(), edges: Seq::empty() }),
    {
        let r = DependencyGraph { names: Vec::new(), edges: Vec::new() };
        assert(r@.names =~= Seq::<Seq<char>>::empty());
        assert(r@.edges =~= Seq::<(int, int)>::empty());
        r
    }

    pub fn node_count(&self) -> (r: usize)
        ensures
            r == self@.names.len(),
    {
        self.names.len()
    }

    /// The name of node `i`.
    pub fn name(&self, i: usize) -> (r: &String)
        requires
            i < self@.names.len(),
        ensures
            r@ == self@.names[i as int],
    {
        &self.names[i]
    }

    pub fn edges(&self) -> (r: &Vec<(usize, usize)>)
        ensures
            r@.map_values(|e: (usize, usize)| (e.0 as int, e.1 as int)) == self@.edges,
    {
        &self.edges
    }

    /// Whether the graph has an edge from `a` to `b`.
    pub fn has_edge(&self, a: usize, b: usize) -> (r: bool)
        ensures
            r == self@.edges.contains((a as int, b as int)),
    {
        let mut i: usize = 0;
        while i < self.edges.len()
            invariant
                i <= self.edges.len(),
                self@.edges.len() == self.edges.len(),
                forall|j: int| 0 <= j < i ==> self@.edges[j] != (a as int, b as int),
            decreases self.edges.len() - i,
        {
            let (x, y) = self.edges[i];
            if x == a && y == b {
                assert(self@.edges[i as int] == (a as int, b as int));
                return true;
            }
            i = i + 1;
        }
        false
    }

    /// The id of the node named `name`, if there is one.
    pub fn find_node(&self, name: &String) -> (r: Option<usize>)
        ensures
            node_of(self@.names, name@) >= 0 ==> r == Some(node_of(self@.names, name@) as usize),
            node_of(self@.names, name@) < 0 ==> r is None,
    {
        let mut i: usize = 0;
        while i < self.names.len()
            invariant
                i <= self.names.len(),
                self@.names.len() == self.names.len(),
                forall|j: int| 0 <= j < i ==> self@.names[j] != name@,
            decreases self.names.len() - i,
        {
            if self.names[i].eq(name) {
                proof {
                    lemma_node_of(self@.names, name@);
                    assert(self@.names[i as int] == name@);
                    assert(self@.names.contains(name@));
                }
                return Some(i);
            }
            i = i + 1;
        }
        proof {
            lemma_node_of(self@.names, name@);
            if self@.names.contains(name@) {
                let j = choose|j: int| 0 <= j < self@.names.len() && self@.names[j] == name@;
                assert(false);
            }
        }
        None
    }

    /// The id of the node named `name`, created when it is not there yet.
    pub fn get_or_create_node(&mut self, name: &String) -> (r: usize)
        requires
            old(self).wf(),
        ensures
            final(self).wf(),
            final(self)@ == add_node(old(self)@, name@),
            r as int == node_of(final(self)@.names, name@),
    {
        match self.find_node(name) {
            Some(i) => {
                proof {
                    lemma_node_of(self@.names, name@);
                }
                i
            },
            None => {
                let ghost before = self@;
                let i = self.names.len();
                self.names.push(name.clone());
                proof {
                    lemma_node_of_push(before.names, name@, name@);
                    assert(self@.names =~= before.names.push(name@));
                    assert(self@.edges =~= before.edges);
                    assert(i == before.names.len());
                    assert(node_of(self@.names, name@) == i);
                }
                i
            },
        }
    }

    /// Adds an edge between two existing nodes.
    pub fn add_edge(&mut self, from: usize, to: usize)
        requires
            old(self).wf(),
            from < old(self)@.names.len(),
            to < old(self)@.names.len(),
        ensures
            final(self).wf(),
            final(self)@ == (GraphModel {
                names: old(self)@.names,
                edges: old(self)@.edges.push((from as int, to as int)),
            }),
    {
        let ghost before = self@;
        self.edges.push((from, to));
        proof {
            assert(self@.edges =~= before.edges.push((from as int, to as int)));
            assert(self@.names =~= before.names);
        }
    }
}


/// The edges as pairs of integers.
pub open spec fn edge_model(edges: Seq<(usize, usize)>) -> Seq<(int, int)> {
    edges.map_values(|e: (usize, usize)| (e.0 as int, e.1 as int))
}

/// Node ids as integers.
pub open spec fn ids(v: Seq<usize>) -> Seq<int> {
    v.map_values(|x: usize| x as int)
}

/// The components as sequences of integers.
pub open spec fn components_model(cs: Seq<Vec<usize>>) -> Seq<Seq<int>> {
    cs.map_values(|c: Vec<usize>| ids(c@))
}

/// The strongly connected components that `petgraph::algo::tarjan_scc`
/// returns for the graph with nodes `0..node_count` and these edges, added
/// in this order.
pub uninterp spec fn components_of(node_count: nat, edges: Seq<(int, int)>) -> Seq<Seq<int>>;

/// The order that `petgraph::algo::toposort` returns for the graph with
/// nodes `0..node_count` and these edges, added in this order.
pub uninterp spec fn topological_order_of(node_count: nat, edges: Seq<(int, int)>) -> Seq<int>;

pub open spec fn in_some_component(comps: Seq<Seq<int>>, x: int) -> bool {
    exists|k: int, i: int| 0 <= k < comps.len() && 0 <= i < comps[k].len() && #[trigger] comps[k][i] == x
}

/// `p` is a walk along the edges: each step follows an edge.
pub open spec fn is_walk(edges: Seq<(int, int)>, p: Seq<int>) -> bool {
    &&& p.len() >= 1
    &&& forall|i: int| 0 <= i < p.len() - 1 ==> edges.contains((#[trigger] p[i], p[i + 1]))
}

/// Node `v` can be reached from node `u` (every node reaches itself).
pub open spec fn reaches(edges: Seq<(int, int)>, u: int, v: int) -> bool {
    exists|p: Seq<int>| #[trigger] is_walk(edges, p) && p[0] == u && p.last() == v
}

/// Two nodes share a component exactly when each reaches the other.
pub open spec fn components_are_strong(comps: Seq<Seq<int>>, edges: Seq<(int, int)>) -> bool {
    forall|k1: int, i1: int, k2: int, i2: int|
        0 <= k1 < comps.len() && 0 <= i1 < comps[k1].len() && 0 <= k2 < comps.len() && 0 <= i2 < comps[k2].len()
            ==> (k1 == k2 <==> reaches(edges, #[trigger] comps[k1][i1], #[trigger] comps[k2][i2]) && reaches(
            edges,
            comps[k2][i2],
            comps[k1][i1],
        ))
}

/// Each node `0..n` stands at exactly one place of `comps`, and no
/// component is empty.
pub open spec fn is_partition(comps: Seq<Seq<int>>, n: int) -> bool {
    &&& forall|k: int| 0 <= k < comps.len() ==> (#[trigger] comps[k]).len() > 0
    &&& forall|k: int, i: int|
        0 <= k < comps.len() && 0 <= i < comps[k].len() ==> 0 <= #[trigger] comps[k][i] < n
    &&& forall|x: int| 0 <= x < n ==> #[trigger] in_some_component(comps, x)
    &&& forall|k1: int, i1: int, k2: int, i2: int|
        0 <= k1 < comps.len() && 0 <= i1 < comps[k1].len() && 0 <= k2 < comps.len() && 0 <= i2
            < comps[k2].len() && #[trigger] comps[k1][i1] == #[trigger] comps[k2][i2] ==> k1 == k2 && i1 == i2
}

/// An edge that leaves a component enters one that comes earlier.
pub open spec fn in_reverse_topological_order(comps: Seq<Seq<int>>, edges: Seq<(int, int)>) -> bool {
    forall|e: int, k1: int, i1: int, k2: int, i2: int|
        0 <= e < edges.len() && 0 <= k1 < comps.len() && 0 <= i1 < comps[k1].len() && 0 <= k2 < comps.len()
            && 0 <= i2 < comps[k2].len() && #[trigger] edges[e] == (#[trigger] comps[k1][i1], #[trigger] comps[k2][i2])
            && k1 != k2 ==> k2 < k1
}

/// `order` lists each node `0..n` once.
pub open spec fn is_ordering(order: Seq<int>, n: int) -> bool {
    &&& order.len() == n
    &&& forall|i: int| 0 <= i < n ==> 0 <= #[trigger] order[i] < n
    &&& forall|i: int, j: int| 0 <= i < n && 0 <= j < n && i != j ==> #[trigger] order[i] != #[trigger] order[j]
    &&& forall|x: int| 0 <= x < n ==> #[trigger] order.contains(x)
}

/// Every edge goes from a node to one listed after it.
pub open spec fn respects_edges(order: Seq<int>, edges: Seq<(int, int)>) -> bool {
    forall|e: int, i: int, j: int|
        0 <= e < edges.len() && 0 <= i < order.len() && 0 <= j < order.len() && #[trigger] edges[e] == (
            #[trigger] order[i],
            #[trigger] order[j],
        ) ==> i < j
}

/// `p` is a walk of one edge or more that ends where it starts.
pub open spec fn is_cycle(edges: Seq<(int, int)>, p: Seq<int>) -> bool {
    &&& p.len() >= 2
    &&& p[0] == p.last()
    &&& forall|i: int| 0 <= i < p.len() - 1 ==> edges.contains((#[trigger] p[i], p[i + 1]))
}

pub open spec fn has_cycle(edges: Seq<(int, int)>) -> bool {
    exists|p: Seq<int>| is_cycle(edges, p)
}

/// Relies on `petgraph::algo::tarjan_scc`: the strongly connected
/// components (two nodes share one exactly when each reaches the other),
/// which partition the nodes, in reverse topological order.
/// Node and edge ids must fit petgraph's default `u32` index. petgraph's
/// search is recursive, so its stack depth grows with the longest path.
#[verifier::external_body]
pub(crate) fn strongly_connected_components(node_count: usize, edges: &Vec<(usize, usize)>) -> (r: Vec<Vec<usize>>)
    requires
        node_count < u32::MAX,
        edges.len() < u32::MAX,
        edges_in_range(GraphModel { names: Seq::new(node_count as nat, |i: int| Seq::empty()), edges: edge_model(edges@) }),
    ensures
        components_model(r@) == components_of(node_count as nat, edge_model(edges@)),
        r@.len() <= node_count,
        is_partition(components_model(r@), node_count as int),
        in_reverse_topological_order(components_model(r@), edge_model(edges@)),
        components_are_strong(components_model(r@), edge_model(edges@)),
{
    let mut g = petgraph::Graph::<(), ()>::with_capacity(node_count, edges.len());
    for _ in 0..node_count {
        g.add_node(());
    }
    for &(a, b) in edges.iter() {
        g.add_edge(petgraph::graph::NodeIndex::new(a), petgraph::graph::NodeIndex::new(b), ());
    }
    let sccs = petgraph::algo::tarjan_scc(&g);
    sccs.into_iter().map(|c| c.into_iter().map(|n| n.index()).collect()).collect()
}

/// Relies on `petgraph::algo::toposort`: on an acyclic graph, every node in
/// an order where each edge goes forward; otherwise a `Cycle` error, here
/// the node it names. Node and edge ids must fit petgraph's default `u32`
/// index.
#[verifier::external_body]
pub(crate) fn topological_order(node_count: usize, edges: &Vec<(usize, usize)>) -> (r: Result<Vec<usize>, usize>)
    requires
        node_count < u32::MAX,
        edges.len() < u32::MAX,
        edges_in_range(GraphModel { names: Seq::new(node_count as nat, |i: int| Seq::empty()), edges: edge_model(edges@) }),
    ensures
        r matches Ok(order) ==> ids(order@) == topological_order_of(
            node_count as nat,
            edge_model(edges@),
        ),
        r matches Ok(order) ==> is_ordering(ids(order@), node_count as int),
        r matches Ok(order) ==> respects_edges(ids(order@), edge_model(edges@)),
        r is Err ==> has_cycle(edge_model(edges@)),
{
    let mut g = petgraph::Graph::<(), ()>::with_capacity(node_count, edges.len());
    for _ in 0..node_count {
        g.add_node(());
    }
    for &(a, b) in edges.iter() {
        g.add_edge(petgraph::graph::NodeIndex::new(a), petgraph::graph::NodeIndex::new(b), ());
    }
    match petgraph::algo::toposort(&g, None) {
        Ok(order) => Ok(order.into_iter().map(|n| n.index()).collect()),
        Err(cycle) => Err(cycle.node_id().index()),
    }
}

/// The index of the component that holds node `x`.
pub open spec fn component_of(comps: Seq<Seq<int>>, x: int) -> int {
    choose|k: int| 0 <= k < comps.len() && (#[trigger] comps[k]).contains(x)
}

pub proof fn lemma_component_of(comps: Seq<Seq<int>>, n: int, k: int, i: int)
    requires
        is_partition(comps, n),
        0 <= k < comps.len(),
        0 <= i < comps[k].len(),
    ensures
        component_of(comps, comps[k][i]) == k,
{
    let x = comps[k][i];
    assert(comps[k].contains(x));
    let k2 = component_of(comps, x);
    let i2 = choose|i2: int| 0 <= i2 < comps[k2].len() && #[trigger] comps[k2][i2] == x;
    assert(comps[k][i] == comps[k2][i2]);
}

pub proof fn lemma_component_of_node(comps: Seq<Seq<int>>, n: int, x: int)
    requires
        is_partition(comps, n),
        0 <= x < n,
    ensures
        0 <= component_of(comps, x) < comps.len(),
        comps[component_of(comps, x)].contains(x),
{
    assert(in_some_component(comps, x));
    let (k, i) = choose|k: int, i: int| 0 <= k < comps.len() && 0 <= i < comps[k].len() && #[trigger] comps[k][i] == x;
    assert(comps[k].contains(x));
}

/// The edges between components, as (component, component) index pairs, in
/// the order of the edges they come from; edges inside a component are left
/// out.
pub open spec fn condensation(comps: Seq<Seq<int>>, edges: Seq<(int, int)>) -> Seq<(int, int)>
    decreases edges.len(),
{
    if edges.len() == 0 {
        Seq::empty()
    } else {
        let prev = condensation(comps, edges.drop_last());
        let cu = component_of(comps, edges.last().0);
        let cv = component_of(comps, edges.last().1);
        if cu != cv {
            prev.push((cu, cv))
        } else {
            prev
        }
    }
}

/// A walk whose every edge goes to a smaller node ends below where it starts.
proof fn lemma_descending_walk(edges: Seq<(int, int)>, p: Seq<int>, m: int)
    requires
        forall|e: int| 0 <= e < edges.len() ==> (#[trigger] edges[e]).1 < edges[e].0,
        forall|i: int| 0 <= i < p.len() - 1 ==> edges.contains((#[trigger] p[i], p[i + 1])),
        1 <= m < p.len(),
    ensures
        p[m] < p[0],
    decreases m,
{
    let e = choose|e: int| 0 <= e < edges.len() && edges[e] == (p[m - 1], p[m]);
    assert(edges.contains((p[m - 1], p[m])));
    if m > 1 {
        lemma_descending_walk(edges, p, m - 1);
    }
}

/// A graph whose every edge goes to a smaller node has no cycle.
pub proof fn lemma_descending_acyclic(edges: Seq<(int, int)>)
    requires
        forall|e: int| 0 <= e < edges.len() ==> (#[trigger] edges[e]).1 < edges[e].0,
    ensures
        !has_cycle(edges),
{
    if has_cycle(edges) {
        let p = choose|p: Seq<int>| is_cycle(edges, p);
        lemma_descending_walk(edges, p, p.len() - 1);
    }
}
} // verus!
