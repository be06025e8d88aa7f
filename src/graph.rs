//! The dependency graph: one node per statement that binds an expression, in
//! source order, and an edge from the latest earlier statement that wrote a
//! variable to each later expression that reads it.

use vstd::multiset::Multiset;
use vstd::prelude::*;

use petgraph::graph::{Graph, NodeIndex};
use petgraph::{Directed, Direction};

use crate::ast::{exp_model, stmt_expression, variable_name, RExp, RStmt, SExp};
use crate::collect::{exp_reads, reads, views};

verus! {

broadcast use vstd::multiset::group_multiset_axioms;

#[verifier::external_type_specification]
#[verifier::external_body]
#[verifier::reject_recursive_types(N)]
#[verifier::reject_recursive_types(E)]
#[verifier::reject_recursive_types(Ty)]
#[verifier::reject_recursive_types(Ix)]
pub struct ExGraph<N, E, Ty, Ix>(Graph<N, E, Ty, Ix>);

#[verifier::external_type_specification]
#[verifier::external_body]
pub struct ExDirected(Directed);

/// The node weights of a graph, by node index: here, the position of the
/// node's statement in the script.
pub uninterp spec fn graph_nodes(g: Graph<usize, (), Directed, usize>) -> Seq<usize>;

/// The edges of a graph, as (source, target) pairs of node indices.
pub uninterp spec fn graph_edges(g: Graph<usize, (), Directed, usize>) -> Multiset<(usize, usize)>;

/// Relies on petgraph's `Graph::with_capacity`: a graph with no nodes and no
/// edges.
#[verifier::external_body]
fn new_graph() -> (g: Graph<usize, (), Directed, usize>)
    ensures
        graph_nodes(g) == Seq::<usize>::empty(),
        graph_edges(g) == Multiset::<(usize, usize)>::empty(),
{
    Graph::with_capacity(0, 0)
}

/// Relies on petgraph's `Graph::add_node`: the node is appended, its index is
/// the former node count, the edges stay. With `usize` indices it never panics.
#[verifier::external_body]
fn add_node(g: &mut Graph<usize, (), Directed, usize>, weight: usize) -> (r: usize)
    ensures
        r == graph_nodes(*old(g)).len(),
        graph_nodes(*final(g)) == graph_nodes(*old(g)).push(weight),
        graph_edges(*final(g)) == graph_edges(*old(g)),
{
    g.add_node(weight).index()
}

/// Relies on petgraph's `Graph::add_edge`: one more edge from `a` to `b`,
/// nodes unchanged. It panics where a node is missing.
#[verifier::external_body]
fn add_edge(g: &mut Graph<usize, (), Directed, usize>, a: usize, b: usize)
    requires
        a < graph_nodes(*old(g)).len(),
        b < graph_nodes(*old(g)).len(),
    ensures
        graph_nodes(*final(g)) == graph_nodes(*old(g)),
        graph_edges(*final(g)) == graph_edges(*old(g)).insert((a, b)),
{
    g.add_edge(NodeIndex::new(a), NodeIndex::new(b), ());
}

/// Relies on petgraph's `Graph::neighbors_directed` with `Incoming` on a
/// directed graph: the source of every edge into `n`.
#[verifier::external_body]
fn incoming(g: &Graph<usize, (), Directed, usize>, n: usize) -> (r: Vec<usize>)
    ensures
        forall|a: usize| r@.contains(a) <==> graph_edges(*g).count((a, n)) > 0,
{
    g.neighbors_directed(NodeIndex::new(n), Direction::Incoming).map(|i| i.index()).collect()
}

/// Relies on petgraph's `Index<NodeIndex>` for `Graph`: the weight of node
/// `n`. It panics where the node is missing.
#[verifier::external_body]
fn node_weight(g: &Graph<usize, (), Directed, usize>, n: usize) -> (r: usize)
    requires
        n < graph_nodes(*g).len(),
    ensures
        r == graph_nodes(*g)[n as int],
{
    g[NodeIndex::new(n)]
}

/// The variable that a statement writes: the target of an assignment (its
/// left-most one), also under a tail comment.
pub open spec fn stmt_writes(s: RStmt) -> Option<Seq<char>>
    decreases s,
{
    match s {
        RStmt::Assignment(left, _, _) => variable_name(left),
        RStmt::TailComment(inner, _) => stmt_writes(*inner),
        _ => None,
    }
}

/// The variable that a statement writes.
pub fn statement_writes(s: &RStmt) -> (r: Option<String>)
    ensures
        match r {
            Some(name) => stmt_writes(*s) == Some(name@),
            None => stmt_writes(*s) is None,
        },
    decreases s,
{
    match s {
        RStmt::Assignment(left, _, _) => left.extract_variable_name(),
        RStmt::TailComment(inner, _) => statement_writes(inner),
        _ => None,
    }
}

/// `sources` lists, in increasing order, exactly the positions of the
/// statements that bind an expression.
pub open spec fn expression_sources(stmts: Seq<RStmt>, sources: Seq<usize>) -> bool {
    &&& forall|i: int, j: int| 0 <= i < j < sources.len() ==> sources[i] < sources[j]
    &&& forall|i: int| 0 <= i < sources.len() ==> sources[i] < stmts.len()
        && stmt_expression(stmts[sources[i] as int]) is Some
    &&& forall|p: int| 0 <= p < stmts.len() && stmt_expression(stmts[p]) is Some
        ==> sources.contains(p as usize)
}

/// The expression of node `k`.
pub open spec fn node_expression(stmts: Seq<RStmt>, sources: Seq<usize>, k: int) -> RExp {
    stmt_expression(stmts[sources[k] as int])->Some_0
}

/// The first node from `i` on whose expression has the form `m`.
pub open spec fn first_node(stmts: Seq<RStmt>, sources: Seq<usize>, m: SExp, i: int) -> Option<int>
    decreases sources.len() - i,
{
    if i < 0 || i >= sources.len() {
        None
    } else if exp_model(node_expression(stmts, sources, i)) == m {
        Some(i)
    } else {
        first_node(stmts, sources, m, i + 1)
    }
}

/// Node `j` is the latest node before node `k` whose statement writes `v`.
pub open spec fn latest_writer(stmts: Seq<RStmt>, sources: Seq<usize>, j: int, k: int, v: Seq<char>) -> bool {
    &&& 0 <= j < k
    &&& stmt_writes(stmts[sources[j] as int]) == Some(v)
    &&& forall|m: int| j < m < k ==> stmt_writes(stmts[sources[m] as int]) != Some(v)
}

/// The edges that the graph holds: from `j` to `k` where node `k` reads a
/// variable whose latest writer before it is node `j`.
pub open spec fn depends(stmts: Seq<RStmt>, sources: Seq<usize>, j: int, k: int) -> bool {
    &&& 0 <= k < sources.len()
    &&& exists|v: Seq<char>| #[trigger] exp_reads(node_expression(stmts, sources, k)).contains(v)
        && latest_writer(stmts, sources, j, k, v)
}

/// The dependency graph over the expressions of a script. Each statement
/// that binds an expression is a node of its own, in source order, so that
/// every edge goes from an earlier node to a later one and the graph stays
/// acyclic. One node per expression value could not keep that: in
/// `a <- b`, `b <- a`, `c <- b` the value `b` would be read by the node of
/// `a` and then read the node of `a` in turn, a cycle. An expression value
/// is found through `id`, the first node that binds it; the tree gives every
/// node whose expression recurs the hypotheses id of that first node.
pub struct DependencyGraph {
    graph: Graph<usize, (), Directed, usize>,
}

impl DependencyGraph {
    /// The position in the script of each node's statement, by node index.
    pub closed spec fn sources(&self) -> Seq<usize> {
        graph_nodes(self.graph)
    }

    /// Whether the graph holds an edge from node `j` to node `k`.
    pub closed spec fn has_edge(&self, j: usize, k: usize) -> bool {
        graph_edges(self.graph).count((j, k)) > 0
    }

    /// The graph is the dependency graph of `stmts`.
    pub open spec fn models(&self, stmts: Seq<RStmt>) -> bool {
        &&& expression_sources(stmts, self.sources())
        &&& forall|j: usize, k: usize| #[trigger] self.has_edge(j, k) <==> depends(stmts, self.sources(), j as int, k as int)
    }

    /// The number of nodes.
    pub fn node_count(&self) -> (r: usize)
        ensures
            r == self.sources().len(),
    {
        graph_len(&self.graph)
    }

    /// The position in the script of node `n`'s statement.
    pub fn source(&self, n: usize) -> (r: usize)
        requires
            n < self.sources().len(),
        ensures
            r == self.sources()[n as int],
    {
        node_weight(&self.graph, n)
    }

    /// The first node whose expression is the value `e`, if any.
    pub fn id(&self, statements: &Vec<RStmt>, e: &RExp) -> (r: Option<usize>)
        requires
            self.models(statements@),
        ensures
            match r {
                Some(k) => first_node(statements@, self.sources(), exp_model(*e), 0) == Some(k as int),
                None => first_node(statements@, self.sources(), exp_model(*e), 0) is None,
            },
    {
        let n = self.node_count();
        let mut k: usize = 0;
        while k < n
            invariant
                self.models(statements@),
                n == self.sources().len(),
                k <= n,
                first_node(statements@, self.sources(), exp_model(*e), 0) == first_node(
                    statements@,
                    self.sources(),
                    exp_model(*e),
                    k as int,
                ),
            decreases n - k,
        {
            let src = self.source(k);
            proof {
                assert(src < statements@.len() && stmt_expression(statements@[src as int]) is Some);
            }
            let x = match statements[src].expression() {
                Some(x) => x,
                None => vstd::pervasive::unreached(),
            };
            if crate::equality::same_exp(x, e) {
                return Some(k);
            }
            k = k + 1;
        }
        None
    }

    /// The nodes with an edge into node `n`.
    pub fn parents(&self, n: usize) -> (r: Vec<usize>)
        ensures
            forall|a: usize| r@.contains(a) <==> self.has_edge(a, n),
    {
        incoming(&self.graph, n)
    }
}

/// Relies on petgraph's `Graph::node_count`: the number of nodes.
#[verifier::external_body]
fn graph_len(g: &Graph<usize, (), Directed, usize>) -> (r: usize)
    ensures
        r == graph_nodes(*g).len(),
{
    g.node_count()
}

/// Whether node `j` of a graph writes `v`, by the list of written names.
spec fn writes_match(stmts: Seq<RStmt>, nodes: Seq<usize>, writes: Seq<Option<String>>) -> bool {
    &&& writes.len() <= nodes.len()
    &&& forall|m: int| 0 <= m < writes.len() ==> match #[trigger] writes[m] {
        Some(w) => stmt_writes(stmts[nodes[m] as int]) == Some(w@),
        None => stmt_writes(stmts[nodes[m] as int]) is None,
    }
}

/// Appending a node leaves the edges into earlier nodes as they were.
proof fn lemma_depends_prefix(stmts: Seq<RStmt>, before: Seq<usize>, i: usize, j: int, m: int)
    requires
        0 <= m < before.len(),
    ensures
        depends(stmts, before, j, m) == depends(stmts, before.push(i), j, m),
{
    let after = before.push(i);
    assert(node_expression(stmts, before, m) == node_expression(stmts, after, m));
    assert forall|v: Seq<char>| latest_writer(stmts, before, j, m, v) == latest_writer(stmts, after, j, m, v) by {
        if 0 <= j < m {
            assert(after[j] == before[j]);
            assert forall|x: int| j < x < m implies after[x] == before[x] by {}
        }
    }
}

/// Two latest writers of one variable before one node are the same node.
proof fn lemma_latest_unique(stmts: Seq<RStmt>, nodes: Seq<usize>, a: int, b: int, k: int, v: Seq<char>)
    requires
        latest_writer(stmts, nodes, a, k, v),
        latest_writer(stmts, nodes, b, k, v),
    ensures
        a == b,
{
    if a < b {
        assert(stmt_writes(stmts[nodes[b] as int]) != Some(v));
    } else if b < a {
        assert(stmt_writes(stmts[nodes[a] as int]) != Some(v));
    }
}

/// Builds the dependency graph of a script: a node for each statement that
/// binds an expression, in source order, and for each variable that a node's
/// expression reads, an edge from the latest earlier node that wrote it.
pub fn build_graph(statements: &Vec<RStmt>) -> (g: DependencyGraph)
    ensures
        g.models(statements@),
{
    let mut graph = new_graph();
    let mut writes: Vec<Option<String>> = Vec::new();
    let ghost stmts = statements@;
    let mut i: usize = 0;
    while i < statements.len()
        invariant
            stmts == statements@,
            i <= stmts.len(),
            writes@.len() == graph_nodes(graph).len(),
            writes_match(stmts, graph_nodes(graph), writes@),
            forall|a: int, b: int| 0 <= a < b < graph_nodes(graph).len()
                ==> graph_nodes(graph)[a] < graph_nodes(graph)[b],
            forall|a: int| 0 <= a < graph_nodes(graph).len() ==> graph_nodes(graph)[a] < i
                && stmt_expression(stmts[graph_nodes(graph)[a] as int]) is Some,
            forall|p: int| 0 <= p < i && stmt_expression(stmts[p]) is Some
                ==> graph_nodes(graph).contains(p as usize),
            forall|j: usize, k: usize| (#[trigger] graph_edges(graph).count((j, k)) > 0
                    <==> depends(stmts, graph_nodes(graph), j as int, k as int)),
        decreases stmts.len() - i,
    {
        match statements[i].expression() {
            None => {},
            Some(e) => {
                let ghost before = graph_nodes(graph);
                let ghost edges0 = graph_edges(graph);
                let k = add_node(&mut graph, i);
                let ghost nodes = graph_nodes(graph);
                assert forall|j: usize, m: usize| m >= k
                    implies #[trigger] graph_edges(graph).count((j, m)) == 0 by {
                    assert(edges0.count((j, m)) > 0 <==> depends(stmts, before, j as int, m as int));
                }
                let rs = reads(e);
                let mut t: usize = 0;
                while t < rs.len()
                    invariant
                        stmts == statements@,
                        i < stmts.len(),
                        k == before.len(),
                        nodes == before.push(i),
                        graph_nodes(graph) == nodes,
                        stmt_expression(stmts[i as int]) == Some(*e),
                        views(rs@) == exp_reads(*e),
                        writes@.len() == k,
                        writes_match(stmts, nodes, writes@),
                        t <= rs@.len(),
                        forall|j: usize, m: usize| m < k
                            ==> (#[trigger] graph_edges(graph).count((j, m)) > 0
                                <==> depends(stmts, before, j as int, m as int)),
                        forall|j: usize, m: usize| m > k
                            ==> #[trigger] graph_edges(graph).count((j, m)) == 0,
                        forall|j: usize| (#[trigger] graph_edges(graph).count((j, k)) > 0
                            <==> exists|u: int| 0 <= u < t && latest_writer(stmts, nodes, j as int, k as int, #[trigger] rs@[u]@)),
                    decreases rs@.len() - t,
                {
                    let name = &rs[t];
                    let mut j: usize = k;
                    let mut found = false;
                    while j > 0 && !found
                        invariant
                            j <= k,
                            k == before.len(),
                            nodes == before.push(i),
                            writes@.len() == k,
                            writes_match(stmts, nodes, writes@),
                            found ==> j > 0 && stmt_writes(stmts[nodes[j - 1] as int]) == Some(name@),
                            forall|m: int| j <= m < k ==> stmt_writes(stmts[nodes[m] as int]) != Some(name@),
                        decreases j + (if found { 0int } else { 1int }),
                    {
                        let hit = match &writes[j - 1] {
                            Some(w) => *w == *name,
                            None => false,
                        };
                        if hit {
                            found = true;
                        } else {
                            j = j - 1;
                        }
                    }
                    let ghost v = rs@[t as int]@;
                    let ghost edges1 = graph_edges(graph);
                    if found {
                        let w = j - 1;
                        add_edge(&mut graph, w, k);
                        proof {
                            assert(latest_writer(stmts, nodes, w as int, k as int, v));
                            assert forall|x: usize| (#[trigger] graph_edges(graph).count((x, k)) > 0
                                <==> exists|u: int| 0 <= u < t + 1 && latest_writer(stmts, nodes, x as int, k as int, #[trigger] rs@[u]@)) by {
                                if x == w {
                                    assert(latest_writer(stmts, nodes, x as int, k as int, rs@[t as int]@));
                                } else {
                                    assert(graph_edges(graph).count((x, k)) == edges1.count((x, k)));
                                    if latest_writer(stmts, nodes, x as int, k as int, v) {
                                        lemma_latest_unique(stmts, nodes, x as int, w as int, k as int, v);
                                    }
                                }
                            }
                        }
                    } else {
                        proof {
                            assert(j == 0);
                            assert forall|x: int| !latest_writer(stmts, nodes, x, k as int, v) by {
                                if 0 <= x < k {
                                    assert(stmt_writes(stmts[nodes[x] as int]) != Some(v));
                                }
                            }
                            assert forall|x: usize| (#[trigger] graph_edges(graph).count((x, k)) > 0
                                <==> exists|u: int| 0 <= u < t + 1 && latest_writer(stmts, nodes, x as int, k as int, #[trigger] rs@[u]@)) by {
                                if exists|u: int| 0 <= u < t + 1 && latest_writer(stmts, nodes, x as int, k as int, #[trigger] rs@[u]@) {
                                    let u = choose|u: int| 0 <= u < t + 1 && latest_writer(stmts, nodes, x as int, k as int, #[trigger] rs@[u]@);
                                    if u == t {
                                        assert(!latest_writer(stmts, nodes, x as int, k as int, v));
                                    }
                                }
                            }
                        }
                    }
                    t = t + 1;
                }
                writes.push(statement_writes(&statements[i]));
                proof {
                    assert(writes_match(stmts, nodes, writes@)) by {
                        assert forall|m: int| 0 <= m < writes@.len() implies match #[trigger] writes@[m] {
                            Some(w) => stmt_writes(stmts[nodes[m] as int]) == Some(w@),
                            None => stmt_writes(stmts[nodes[m] as int]) is None,
                        } by {
                            if m < k {
                            }
                        }
                    }
                    assert forall|j: usize, m: usize|
                        (#[trigger] graph_edges(graph).count((j, m)) > 0
                            <==> depends(stmts, nodes, j as int, m as int)) by {
                        if m < k {
                            lemma_depends_prefix(stmts, before, i, j as int, m as int);
                        } else if m == k {
                            assert(node_expression(stmts, nodes, m as int) == *e);
                            if depends(stmts, nodes, j as int, m as int) {
                                let v = choose|v: Seq<char>| #[trigger] exp_reads(node_expression(stmts, nodes, m as int)).contains(v)
                                    && latest_writer(stmts, nodes, j as int, m as int, v);
                                assert(views(rs@).contains(v));
                                let u = choose|u: int| 0 <= u < rs@.len() && rs@[u]@ == v;
                                assert(latest_writer(stmts, nodes, j as int, k as int, rs@[u]@));
                            }
                            if graph_edges(graph).count((j, m)) > 0 {
                                let u = choose|u: int| 0 <= u < rs@.len() && latest_writer(stmts, nodes, j as int, k as int, #[trigger] rs@[u]@);
                                assert(views(rs@).contains(rs@[u]@));
                                assert(exp_reads(node_expression(stmts, nodes, m as int)).contains(rs@[u]@));
                            }
                        }
                    }
                    assert forall|p: int| 0 <= p < i + 1 && stmt_expression(stmts[p]) is Some
                        implies nodes.contains(p as usize) by {
                        if p == i {
                            assert(nodes[k as int] == i);
                        } else {
                            assert(before.contains(p as usize));
                            let x = choose|x: int| 0 <= x < before.len() && before[x] == p as usize;
                            assert(nodes[x] == p as usize);
                        }
                    }
                }
            },
        }
        proof {
            if stmt_expression(stmts[i as int]) is None {
                assert forall|p: int| 0 <= p < i + 1 && stmt_expression(stmts[p]) is Some
                    implies graph_nodes(graph).contains(p as usize) by {}
            }
        }
        i = i + 1;
    }
    let g = DependencyGraph { graph };
    assert forall|j: usize, k: usize| #[trigger] g.has_edge(j, k) <==> depends(stmts, g.sources(), j as int, k as int) by {
        assert(graph_edges(graph).count((j, k)) > 0 <==> depends(stmts, graph_nodes(graph), j as int, k as int));
    }
    g
}

/// Every edge of the dependency graph goes from an earlier node to a later
/// one.
pub proof fn lemma_edges_forward(g: DependencyGraph, stmts: Seq<RStmt>, j: usize, k: usize)
    requires
        g.models(stmts),
        g.has_edge(j, k),
    ensures
        j < k,
        k < g.sources().len(),
{
    assert(depends(stmts, g.sources(), j as int, k as int));
}

/// The dependency graph is acyclic: along any path of edges the nodes
/// strictly increase, so no path leads back to where it started.
pub proof fn lemma_acyclic(g: DependencyGraph, stmts: Seq<RStmt>, path: Seq<usize>)
    requires
        g.models(stmts),
        path.len() >= 2,
        forall|i: int| 0 <= i < path.len() - 1 ==> g.has_edge(#[trigger] path[i], path[i + 1]),
    ensures
        path[0] < path[path.len() - 1],
        path[0] != path[path.len() - 1],
    decreases path.len(),
{
    lemma_edges_forward(g, stmts, path[0], path[1]);
    if path.len() > 2 {
        let rest = path.subrange(1, path.len() as int);
        assert forall|i: int| 0 <= i < rest.len() - 1 implies g.has_edge(#[trigger] rest[i], rest[i + 1]) by {
            assert(rest[i] == path[i + 1]);
            assert(rest[i + 1] == path[i + 2]);
        }
        lemma_acyclic(g, stmts, rest);
    }
}

} // verus!
