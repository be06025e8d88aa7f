//! The hypothesis tree: the expressions of a script nested under the latest
//! expression they depend on, in branches keyed by the id of the set of
//! hypotheses they work under.
//!
//! Ids name sets by value when they are given: a node whose hypotheses equal
//! a set already in the table takes that set's id. An expression that comes
//! back as the value of a later statement keeps the id of its first
//! appearance instead, and the set of that id is extended by what the later
//! appearance works under. Such an extension can make two ids name equal
//! sets, or put more into a set than some node of that id worked under; the
//! laws below state what holds all the same.

use std::collections::BTreeMap;

use vstd::prelude::*;

use crate::ast::{exp_model, stmt_expression, stmt_wf, RExp, RStmt};
use crate::collect::exp_hypotheses;
use crate::display::show_exp;
use crate::graph::{build_graph, node_expression, DependencyGraph};
use crate::hypotheses::{detect_hypotheses, first_equal, Hypotheses, HypothesesId, HypothesesMap};
use crate::ast::stmts_model;
use crate::parser::{parse, parse_spec, ParseError};

verus! {

broadcast use vstd::std_specs::vec::group_vec_axioms, vstd::seq::group_seq_axioms;

/// The first node from `j` on, before node `k`, whose expression is the same
/// value as node `k`'s.
pub open spec fn earlier_same(g: DependencyGraph, stmts: Seq<RStmt>, k: int, j: int) -> Option<int>
    decreases k - j,
{
    if j < 0 || j >= k {
        None
    } else if exp_model(node_expression(stmts, g.sources(), j)) == exp_model(node_expression(stmts, g.sources(), k)) {
        Some(j)
    } else {
        earlier_same(g, stmts, k, j + 1)
    }
}

/// What node `k` inherits: the hypotheses of the ids of the nodes it depends
/// on, as the sets of the table `sets` stand.
pub open spec fn inherited(g: DependencyGraph, hyp: Seq<HypothesesId>, sets: Seq<Set<Seq<char>>>, k: int) -> Set<Seq<char>> {
    Set::new(
        |h: Seq<char>|
            exists|j: usize| j < k && #[trigger] g.has_edge(j, k as usize) && sets[hyp[j as int] as int].contains(h),
    )
}

/// The hypotheses that node `k` works under when it is placed: those its
/// own expression introduces, and those it inherits.
pub open spec fn node_hyps(
    g: DependencyGraph,
    stmts: Seq<RStmt>,
    hyp: Seq<HypothesesId>,
    sets: Seq<Set<Seq<char>>>,
    k: int,
) -> Set<Seq<char>> {
    exp_hypotheses(node_expression(stmts, g.sources(), k)) + inherited(g, hyp, sets, k)
}

/// The ids of the first `k` nodes, and the table of sets after placing them.
/// A node whose expression is the same value as an earlier node's keeps that
/// node's id, and the set of that id is extended by the node's hypotheses.
/// Any other node takes the first id whose set equals its hypotheses, or the
/// next id, with its hypotheses as that id's set.
pub open spec fn placement(g: DependencyGraph, stmts: Seq<RStmt>, k: nat) -> (Seq<HypothesesId>, Seq<Set<Seq<char>>>)
    decreases k,
{
    if k == 0 {
        (Seq::empty(), Seq::empty())
    } else {
        let (hyp, sets) = placement(g, stmts, (k - 1) as nat);
        let h = node_hyps(g, stmts, hyp, sets, k - 1);
        match earlier_same(g, stmts, k - 1, 0) {
            Some(j) => (hyp.push(hyp[j]), sets.update(hyp[j] as int, sets[hyp[j] as int] + h)),
            None => match first_equal(sets, h, 0) {
                Some(i) => (hyp.push(i as HypothesesId), sets),
                None => (hyp.push(sets.len() as HypothesesId), sets.push(h)),
            },
        }
    }
}

/// The hypotheses of the ids of the first `t` nodes of `ps`, together.
pub open spec fn hyps_of_nodes(hyp: Seq<HypothesesId>, sets: Seq<Set<Seq<char>>>, ps: Seq<usize>, t: int) -> Set<Seq<char>> {
    Set::new(|x: Seq<char>| exists|u: int| 0 <= u < t && #[trigger] sets[hyp[ps[u] as int] as int].contains(x))
}

/// Node `j` is the parent of node `k`: the latest node with an edge into it.
pub open spec fn is_parent(g: DependencyGraph, j: usize, k: usize) -> bool {
    &&& g.has_edge(j, k)
    &&& forall|x: usize| #[trigger] g.has_edge(x, k) ==> x <= j
}

/// Where each node of the dependency graph goes in the tree: under which
/// parent node (none for a root), and in the branch of which hypotheses id.
pub struct Layout {
    pub parent: Vec<Option<usize>>,
    pub hyp: Vec<HypothesesId>,
}

/// The number of ids given out to the first `k` nodes: one more than the
/// largest among them, 0 for none.
pub open spec fn ids_given(hyp: Seq<HypothesesId>, k: nat) -> nat
    decreases k,
{
    if k == 0 || k > hyp.len() {
        0
    } else {
        let before = ids_given(hyp, (k - 1) as nat);
        if hyp[k - 1] + 1 > before {
            (hyp[k - 1] + 1) as nat
        } else {
            before
        }
    }
}

/// Some node is placed in the branch of id `id`.
pub open spec fn id_used(hyp: Seq<HypothesesId>, id: int) -> bool {
    exists|k: int| 0 <= k < hyp.len() && hyp[k] == id
}

/// `parent` and `hyp` place the nodes of `g` as the tree does, with the sets
/// of hypotheses of the table `sets`: each node under its parent, in the
/// branch of its id as `placement` gives it; each id in use, given out in
/// order of first use.
pub open spec fn places(
    parent: Seq<Option<usize>>,
    hyp: Seq<HypothesesId>,
    sets: Seq<Set<Seq<char>>>,
    g: DependencyGraph,
    stmts: Seq<RStmt>,
) -> bool {
    &&& parent.len() == g.sources().len()
    &&& hyp.len() == g.sources().len()
    &&& (hyp, sets) == placement(g, stmts, g.sources().len())
    &&& forall|k: int| 0 <= k < parent.len() ==> match #[trigger] parent[k] {
        Some(j) => is_parent(g, j, k as usize),
        None => forall|x: usize| !#[trigger] g.has_edge(x, k as usize),
    }
    &&& forall|k: int| 0 <= k < hyp.len() ==> #[trigger] hyp[k] < sets.len()
    &&& forall|id: int| 0 <= id < sets.len() ==> #[trigger] id_used(hyp, id)
    &&& forall|k: int| 0 <= k < hyp.len() ==> #[trigger] hyp[k] <= ids_given(hyp, k as nat)
    &&& sets.len() == ids_given(hyp, hyp.len())
}

proof fn lemma_ids_given_prefix(a: Seq<HypothesesId>, b: Seq<HypothesesId>, k: nat)
    requires
        k <= a.len(),
        k <= b.len(),
        a.subrange(0, k as int) == b.subrange(0, k as int),
    ensures
        ids_given(a, k) == ids_given(b, k),
    decreases k,
{
    if k > 0 {
        assert(a[k - 1] == a.subrange(0, k as int)[k - 1]);
        assert(b[k - 1] == b.subrange(0, k as int)[k - 1]);
        assert(a.subrange(0, k - 1) =~= a.subrange(0, k as int).subrange(0, k - 1));
        assert(b.subrange(0, k - 1) =~= b.subrange(0, k as int).subrange(0, k - 1));
        lemma_ids_given_prefix(a, b, (k - 1) as nat);
    }
}

/// Places each node of the dependency graph: its parent, and its hypotheses
/// id as `placement` gives it, extending the set of a recurring expression's
/// id in place.
pub fn compute_layout(statements: &Vec<RStmt>, g: &DependencyGraph) -> (r: (Layout, HypothesesMap))
    requires
        g.models(statements@),
    ensures
        r.1.wf(),
        places(r.0.parent@, r.0.hyp@, r.1@, *g, statements@),
{
    let ghost stmts = statements@;
    let n = g.node_count();
    let mut parent: Vec<Option<usize>> = Vec::new();
    let mut hyp: Vec<HypothesesId> = Vec::new();
    let mut map = HypothesesMap::new();
    let mut k: usize = 0;
    while k < n
        invariant
            stmts == statements@,
            g.models(stmts),
            n == g.sources().len(),
            k <= n,
            map.wf(),
            parent@.len() == k,
            hyp@.len() == k,
            (hyp@, map@) == placement(*g, stmts, k as nat),
            forall|a: int| 0 <= a < k ==> match #[trigger] parent@[a] {
                Some(j) => is_parent(*g, j, a as usize),
                None => forall|x: usize| !#[trigger] g.has_edge(x, a as usize),
            },
            forall|a: int| 0 <= a < k ==> #[trigger] hyp@[a] < map@.len(),
            forall|id: int| 0 <= id < map@.len() ==> #[trigger] id_used(hyp@, id),
            forall|a: int| 0 <= a < k ==> #[trigger] hyp@[a] <= ids_given(hyp@, a as nat),
            map@.len() == ids_given(hyp@, k as nat),
        decreases n - k,
    {
        let src = g.source(k);
        let e = match statements[src].expression() {
            Some(e) => e,
            None => {
                proof {
                    assert(g.sources().contains(src));
                }
                vstd::pervasive::unreached()
            },
        };
        assert(*e == node_expression(stmts, g.sources(), k as int));
        let mut h = detect_hypotheses(e);
        let ghost own = h@;
        let ps = g.parents(k);
        let mut best: Option<usize> = None;
        let mut t: usize = 0;
        while t < ps.len()
            invariant
                g.models(stmts),
                map.wf(),
                k < n,
                hyp@.len() == k,
                forall|a: usize| ps@.contains(a) <==> g.has_edge(a, k),
                forall|a: int| 0 <= a < k ==> #[trigger] hyp@[a] < map@.len(),
                h.wf(),
                t <= ps@.len(),
                h@ == own + hyps_of_nodes(hyp@, map@, ps@, t as int),
                match best {
                    None => t == 0,
                    Some(b) => (exists|u: int| 0 <= u < t && ps@[u] == b) && forall|u: int| 0 <= u < t ==> #[trigger] ps@[u] <= b,
                },
            decreases ps@.len() - t,
        {
            let p = ps[t];
            proof {
                assert(ps@.contains(p));
                crate::graph::lemma_edges_forward(*g, stmts, p, k);
            }
            match map.get(hyp[p]) {
                Some(hs) => {
                    h.extend(hs);
                },
                None => {
                    vstd::pervasive::unreached::<()>();
                },
            }
            proof {
                assert(h@ =~= own + hyps_of_nodes(hyp@, map@, ps@, t + 1)) by {
                    assert forall|x: Seq<char>| #[trigger] hyps_of_nodes(hyp@, map@, ps@, t + 1).contains(x)
                        <==> (hyps_of_nodes(hyp@, map@, ps@, t as int).contains(x)
                            || map@[hyp@[p as int] as int].contains(x)) by {
                        if map@[hyp@[p as int] as int].contains(x) {
                            assert(ps@[t as int] == p);
                        }
                    }
                }
            }
            best = match best {
                Some(b) => if p > b {
                    Some(p)
                } else {
                    Some(b)
                },
                None => Some(p),
            };
            t = t + 1;
        }
        proof {
            assert(h@ =~= node_hyps(*g, stmts, hyp@, map@, k as int)) by {
                assert forall|x: Seq<char>| #[trigger] hyps_of_nodes(hyp@, map@, ps@, ps@.len() as int).contains(x)
                    <==> inherited(*g, hyp@, map@, k as int).contains(x) by {
                    if hyps_of_nodes(hyp@, map@, ps@, ps@.len() as int).contains(x) {
                        let u = choose|u: int| 0 <= u < ps@.len() && #[trigger] map@[hyp@[ps@[u] as int] as int].contains(x);
                        let j = ps@[u];
                        assert(ps@.contains(j));
                        crate::graph::lemma_edges_forward(*g, stmts, j, k);
                    }
                    if inherited(*g, hyp@, map@, k as int).contains(x) {
                        let j = choose|j: usize| j < k && #[trigger] g.has_edge(j, k) && map@[hyp@[j as int] as int].contains(x);
                        assert(ps@.contains(j));
                        let u = choose|u: int| 0 <= u < ps@.len() && ps@[u] == j;
                        assert(map@[hyp@[ps@[u] as int] as int].contains(x));
                    }
                }
            }
            match best {
                Some(b) => {
                    assert(ps@.contains(b));
                    assert forall|x: usize| #[trigger] g.has_edge(x, k) implies x <= b by {
                        assert(ps@.contains(x));
                    }
                },
                None => {
                    assert forall|x: usize| !#[trigger] g.has_edge(x, k) by {
                        if g.has_edge(x, k) {
                            assert(ps@.contains(x));
                        }
                    }
                },
            }
        }
        // An expression met before keeps the id of its first node.
        let mut j: usize = 0;
        let mut same = false;
        while j < k && !same
            invariant
                stmts == statements@,
                g.models(stmts),
                n == g.sources().len(),
                k < n,
                j <= k,
                *e == node_expression(stmts, g.sources(), k as int),
                same ==> j < k && exp_model(node_expression(stmts, g.sources(), j as int)) == exp_model(*e),
                !same ==> earlier_same(*g, stmts, k as int, 0) == earlier_same(*g, stmts, k as int, j as int),
                same ==> earlier_same(*g, stmts, k as int, 0) == Some(j as int),
            decreases k - j + (if same { 0int } else { 1int }),
        {
            let sj = g.source(j);
            proof {
                assert(sj < stmts.len() && stmt_expression(stmts[sj as int]) is Some);
            }
            let other = match statements[sj].expression() {
                Some(x) => x,
                None => vstd::pervasive::unreached(),
            };
            if crate::equality::same_exp(other, e) {
                same = true;
            } else {
                j = j + 1;
            }
        }
        let ghost old_map = map@;
        let ghost old_hyp = hyp@;
        let id = if same {
            let id = hyp[j];
            map.extend_at(id, &h);
            id
        } else {
            proof {
                assert(earlier_same(*g, stmts, k as int, j as int) is None);
            }
            map.insert(h)
        };
        parent.push(best);
        hyp.push(id);
        proof {
            assert((hyp@, map@) == placement(*g, stmts, (k + 1) as nat));
            assert forall|a: int| 0 <= a <= k implies #[trigger] ids_given(hyp@, a as nat) == ids_given(old_hyp, a as nat) by {
                assert(old_hyp.subrange(0, a) =~= hyp@.subrange(0, a));
                lemma_ids_given_prefix(old_hyp, hyp@, a as nat);
            }
            assert(ids_given(old_hyp, k as nat) == old_map.len());
            assert(old_hyp.subrange(0, k as int) =~= hyp@.subrange(0, k as int));
            lemma_ids_given_prefix(old_hyp, hyp@, k as nat);
            assert(ids_given(hyp@, k as nat) == old_map.len());
            assert(hyp@[k as int] == id);
            assert(id <= old_map.len());
            assert(ids_given(hyp@, (k + 1) as nat) == map@.len());
            assert forall|a: int| 0 <= a < k + 1 implies #[trigger] hyp@[a] <= ids_given(hyp@, a as nat) by {
                if a < k {
                    assert(hyp@[a] == old_hyp[a]);
                }
            }
            assert forall|a: int| 0 <= a < k + 1 implies #[trigger] hyp@[a] < map@.len() by {
                if a < k {
                    assert(hyp@[a] == old_hyp[a]);
                }
            }
            assert forall|id2: int| 0 <= id2 < map@.len() implies #[trigger] id_used(hyp@, id2) by {
                if id2 < old_map.len() {
                    assert(id_used(old_hyp, id2));
                    let a = choose|a: int| 0 <= a < old_hyp.len() && old_hyp[a] == id2;
                    assert(hyp@[a] == id2);
                } else {
                    assert(hyp@[k as int] == id2);
                }
            }
        }
        k = k + 1;
    }
    (Layout { parent, hyp }, map)
}

/// A node of the tree: its content, and its children in branches.
#[derive(Debug, PartialEq, Eq)]
pub struct Node<C> {
    pub content: C,
    pub children: Branches<C>,
}

/// Branches: node lists keyed by hypotheses id, in ascending id order.
pub type Branches<C> = Vec<(HypothesesId, Vec<Node<C>>)>;

/// The nodes below `c` placed under `p` in the branch of `h`, ascending.
pub open spec fn group(parent: Seq<Option<usize>>, hyp: Seq<HypothesesId>, p: Option<usize>, h: HypothesesId, c: nat) -> Seq<usize>
    decreases c,
{
    if c == 0 {
        Seq::empty()
    } else {
        let rest = group(parent, hyp, p, h, (c - 1) as nat);
        if parent[c - 1] == p && hyp[c - 1] == h {
            rest.push((c - 1) as usize)
        } else {
            rest
        }
    }
}

/// The ids below `m` of the branches under `p` that hold a node, ascending.
pub open spec fn keys(parent: Seq<Option<usize>>, hyp: Seq<HypothesesId>, p: Option<usize>, m: nat) -> Seq<HypothesesId>
    decreases m,
{
    if m == 0 {
        Seq::empty()
    } else {
        let rest = keys(parent, hyp, p, (m - 1) as nat);
        if group(parent, hyp, p, (m - 1) as HypothesesId, parent.len()).len() > 0 {
            rest.push((m - 1) as HypothesesId)
        } else {
            rest
        }
    }
}

/// Each node's parent comes before it, and each id is below `m`.
pub open spec fn layout_wf(parent: Seq<Option<usize>>, hyp: Seq<HypothesesId>, m: nat) -> bool {
    &&& parent.len() == hyp.len()
    &&& forall|c: int| 0 <= c < parent.len() ==> match #[trigger] parent[c] {
        Some(q) => q < c,
        None => true,
    }
    &&& forall|c: int| 0 <= c < hyp.len() ==> #[trigger] hyp[c] < m
}

/// Node `x` is node `a` or lies below it.
pub open spec fn desc(parent: Seq<Option<usize>>, x: nat, a: nat) -> bool
    decreases x,
{
    x == a || (x < parent.len() && match parent[x as int] {
        Some(q) => q < x && desc(parent, q as nat, a),
        None => false,
    })
}

/// The node `node` is node `k` of the layout, with all below it.
pub open spec fn node_matches(
    node: Node<RExp>,
    parent: Seq<Option<usize>>,
    hyp: Seq<HypothesesId>,
    m: nat,
    exprs: Seq<RExp>,
    k: usize,
) -> bool
    decreases node, 2nat,
{
    &&& node.content == exprs[k as int]
    &&& branches_match(node.children, parent, hyp, m, exprs, Some(k))
}

/// The branches `b` hold the nodes placed under `p`.
pub open spec fn branches_match(
    b: Branches<RExp>,
    parent: Seq<Option<usize>>,
    hyp: Seq<HypothesesId>,
    m: nat,
    exprs: Seq<RExp>,
    p: Option<usize>,
) -> bool
    decreases b, 1nat,
{
    let ks = keys(parent, hyp, p, m);
    &&& b@.len() == ks.len()
    &&& forall|i: int| 0 <= i < b@.len() ==> (#[trigger] b@[i]).0 == ks[i] && list_matches(
        b@[i].1,
        parent,
        hyp,
        m,
        exprs,
        group(parent, hyp, p, ks[i], parent.len()),
    )
}

/// The list `l` holds the nodes `g`, in order.
pub open spec fn list_matches(
    l: Vec<Node<RExp>>,
    parent: Seq<Option<usize>>,
    hyp: Seq<HypothesesId>,
    m: nat,
    exprs: Seq<RExp>,
    g: Seq<usize>,
) -> bool
    decreases l, 0nat,
{
    &&& l@.len() == g.len()
    &&& forall|j: int| 0 <= j < l@.len() ==> node_matches(#[trigger] l@[j], parent, hyp, m, exprs, g[j])
}

proof fn lemma_desc_ge(parent: Seq<Option<usize>>, x: nat, a: nat)
    requires
        desc(parent, x, a),
    ensures
        x >= a,
    decreases x,
{
    if x != a {
        let q = parent[x as int]->Some_0;
        lemma_desc_ge(parent, q as nat, a);
    }
}

/// Below a child of `k` is below `k`, and is not `k`.
proof fn lemma_desc_child(parent: Seq<Option<usize>>, x: nat, c: usize, k: usize)
    requires
        c < parent.len(),
        parent[c as int] == Some(k),
        k < c,
        desc(parent, x, c as nat),
    ensures
        desc(parent, x, k as nat),
        x != k,
    decreases x,
{
    if x == c {
        assert(desc(parent, k as nat, k as nat));
        assert(desc(parent, c as nat, k as nat));
    } else {
        let q = parent[x as int]->Some_0;
        lemma_desc_child(parent, q as nat, c, k);
        lemma_desc_ge(parent, x, c as nat);
    }
}

/// No node lies below two different nodes of one parent.
proof fn lemma_siblings(parent: Seq<Option<usize>>, hyp: Seq<HypothesesId>, m: nat, x: nat, c1: nat, c2: nat)
    requires
        layout_wf(parent, hyp, m),
        c1 < parent.len(),
        c2 < parent.len(),
        parent[c1 as int] == parent[c2 as int],
        desc(parent, x, c1),
        desc(parent, x, c2),
    ensures
        c1 == c2,
    decreases x,
{
    if x == c1 {
        if c1 != c2 {
            let q = parent[c1 as int]->Some_0;
            assert(parent[c2 as int] matches Some(q2) && q2 < c2);
            lemma_desc_ge(parent, q as nat, c2);
        }
    } else if x == c2 {
        if c1 != c2 {
            let q = parent[c2 as int]->Some_0;
            assert(parent[c1 as int] matches Some(q1) && q1 < c1);
            lemma_desc_ge(parent, q as nat, c1);
        }
    } else {
        let q = parent[x as int]->Some_0;
        lemma_siblings(parent, hyp, m, q as nat, c1, c2);
    }
}

/// Not below `p`'s own node: the part of the pool that filling `p`'s
/// branches leaves alone.
pub open spec fn outside(parent: Seq<Option<usize>>, p: Option<usize>, x: nat) -> bool {
    match p {
        Some(k) => !desc(parent, x, k as nat) || x == k,
        None => false,
    }
}

/// Shrinks from the branches under a node to those under its children; the
/// root's branches come before all.
spec fn branch_measure(n: nat, p: Option<usize>) -> int {
    match p {
        Some(k) => n - k,
        None => n + 1int,
    }
}

/// The node `k` with all below it; takes their expressions from the pool.
fn build_node(l: &Layout, m: usize, pool: &mut Vec<Option<RExp>>, k: usize, exprs: Ghost<Seq<RExp>>) -> (r: Node<RExp>)
    requires
        layout_wf(l.parent@, l.hyp@, m as nat),
        old(pool)@.len() == l.parent@.len(),
        exprs@.len() == l.parent@.len(),
        k < l.parent@.len(),
        forall|x: nat| x < l.parent@.len() && #[trigger] desc(l.parent@, x, k as nat) ==> old(pool)@[x as int] == Some(exprs@[x as int]),
    ensures
        node_matches(r, l.parent@, l.hyp@, m as nat, exprs@, k),
        final(pool)@.len() == old(pool)@.len(),
        forall|x: nat| x < l.parent@.len() && !#[trigger] desc(l.parent@, x, k as nat) ==> final(pool)@[x as int] == old(pool)@[x as int],
    decreases l.parent@.len() - k, 1nat,
{
    assert(desc(l.parent@, k as nat, k as nat));
    let content = match pool[k].take() {
        Some(e) => e,
        None => vstd::pervasive::unreached(),
    };
    proof {
        assert forall|c: nat, x: nat| c < l.parent@.len() && x < l.parent@.len() && l.parent@[c as int] == Some(k)
            && #[trigger] desc(l.parent@, x, c) implies pool@[x as int] == Some(exprs@[x as int]) by {
            assert(l.parent@[c as int] matches Some(q) && q < c);
            assert(c < l.parent.len());
            assert((c as usize) as nat == c);
            lemma_desc_child(l.parent@, x, c as usize, k);
        }
    }
    let children = build_branches(l, m, pool, Some(k), exprs);
    proof {
        assert forall|x: nat| x < l.parent@.len() && !#[trigger] desc(l.parent@, x, k as nat)
            implies pool@[x as int] == old(pool)@[x as int] by {
            assert(outside(l.parent@, Some(k), x));
        }
    }
    Node { content, children }
}

/// The branches of the nodes placed under `p`; takes their expressions from
/// the pool.
fn build_branches(
    l: &Layout,
    m: usize,
    pool: &mut Vec<Option<RExp>>,
    p: Option<usize>,
    exprs: Ghost<Seq<RExp>>,
) -> (r: Branches<RExp>)
    requires
        layout_wf(l.parent@, l.hyp@, m as nat),
        old(pool)@.len() == l.parent@.len(),
        exprs@.len() == l.parent@.len(),
        p matches Some(k) ==> k < l.parent@.len(),
        forall|c: nat, x: nat| c < l.parent@.len() && x < l.parent@.len() && l.parent@[c as int] == p
            && #[trigger] desc(l.parent@, x, c) ==> old(pool)@[x as int] == Some(exprs@[x as int]),
    ensures
        branches_match(r, l.parent@, l.hyp@, m as nat, exprs@, p),
        final(pool)@.len() == old(pool)@.len(),
        forall|x: nat| x < l.parent@.len() && #[trigger] outside(l.parent@, p, x) ==> final(pool)@[x as int] == old(pool)@[x as int],
    decreases branch_measure(l.parent@.len(), p), 0nat,
{
    let n = l.parent.len();
    let ghost parent = l.parent@;
    let ghost hyp = l.hyp@;
    let ghost start = pool@;
    let mut out: Branches<RExp> = Vec::new();
    let mut h: usize = 0;
    while h < m
        invariant
            layout_wf(parent, hyp, m as nat),
            parent == l.parent@,
            hyp == l.hyp@,
            n == parent.len(),
            pool@.len() == n,
            exprs@.len() == n,
            p matches Some(k) ==> k < n,
            h <= m,
            out@.len() == keys(parent, hyp, p, h as nat).len(),
            forall|i: int| 0 <= i < out@.len() ==> (#[trigger] out@[i]).0 == keys(parent, hyp, p, h as nat)[i]
                && list_matches(out@[i].1, parent, hyp, m as nat, exprs@, group(parent, hyp, p, keys(parent, hyp, p, h as nat)[i], n as nat)),
            forall|c: nat, x: nat| c < n && x < n && parent[c as int] == p && hyp[c as int] >= h
                && #[trigger] desc(parent, x, c) ==> pool@[x as int] == Some(exprs@[x as int]),
            forall|x: nat| x < n && #[trigger] outside(parent, p, x) ==> pool@[x as int] == start[x as int],
        decreases m - h,
    {
        let mut list: Vec<Node<RExp>> = Vec::new();
        let mut c: usize = 0;
        while c < n
            invariant
                layout_wf(parent, hyp, m as nat),
                parent == l.parent@,
                hyp == l.hyp@,
                n == parent.len(),
                pool@.len() == n,
                exprs@.len() == n,
                p matches Some(k) ==> k < n,
                h < m,
                c <= n,
                list_matches(list, parent, hyp, m as nat, exprs@, group(parent, hyp, p, h, c as nat)),
                forall|c2: nat, x: nat| c2 < n && x < n && parent[c2 as int] == p
                    && (hyp[c2 as int] > h || (hyp[c2 as int] == h && c2 >= c))
                    && #[trigger] desc(parent, x, c2) ==> pool@[x as int] == Some(exprs@[x as int]),
                forall|x: nat| x < n && #[trigger] outside(parent, p, x) ==> pool@[x as int] == start[x as int],
            decreases n - c,
        {
            if l.parent[c] == p && l.hyp[c] == h {
                proof {
                    if let Some(k) = p {
                        assert(parent[c as int] matches Some(q) && q < c);
                    }
                }
                let ghost before = pool@;
                let ghost old_list = list@;
                let node = build_node(l, m, pool, c, exprs);
                list.push(node);
                proof {
                    assert forall|c2: nat, x: nat| c2 < n && x < n && parent[c2 as int] == p
                        && (hyp[c2 as int] > h || (hyp[c2 as int] == h && c2 >= c + 1))
                        && #[trigger] desc(parent, x, c2) implies pool@[x as int] == Some(exprs@[x as int]) by {
                        if desc(parent, x, c as nat) {
                            lemma_siblings(parent, hyp, m as nat, x, c as nat, c2);
                        }
                    }
                    assert forall|x: nat| x < n && #[trigger] outside(parent, p, x) implies pool@[x as int] == start[x as int] by {
                        if desc(parent, x, c as nat) {
                            let k = p->Some_0;
                            lemma_desc_child(parent, x, c, k);
                        }
                    }
                    let g = group(parent, hyp, p, h, (c + 1) as nat);
                    assert(g == group(parent, hyp, p, h, c as nat).push(c));
                    assert forall|j: int| 0 <= j < list@.len() implies node_matches(#[trigger] list@[j], parent, hyp, m as nat, exprs@, g[j]) by {
                        if j < old_list.len() {
                            assert(list@[j] == old_list[j]);
                        }
                    }
                }
            }
            c = c + 1;
        }
        let ghost ks = keys(parent, hyp, p, h as nat);
        if list.len() > 0 {
            let ghost old_out = out@;
            out.push((h, list));
            proof {
                let ks2 = keys(parent, hyp, p, (h + 1) as nat);
                assert(ks2 == ks.push(h));
                assert forall|i: int| 0 <= i < out@.len() implies (#[trigger] out@[i]).0 == ks2[i]
                    && list_matches(out@[i].1, parent, hyp, m as nat, exprs@, group(parent, hyp, p, ks2[i], n as nat)) by {
                    if i < old_out.len() {
                        assert(out@[i] == old_out[i]);
                    }
                }
            }
        } else {
            assert(keys(parent, hyp, p, (h + 1) as nat) == ks);
        }
        h = h + 1;
    }
    out
}

/// The expression that a statement binds, taken out of it.
fn into_expression(s: RStmt) -> (r: Option<RExp>)
    ensures
        r == stmt_expression(s),
    decreases s,
{
    match s {
        RStmt::Assignment(_, _, e) => Some(e),
        RStmt::Expression(e) => Some(e),
        RStmt::TailComment(inner, _) => into_expression(*inner),
        _ => None,
    }
}

/// The expressions of the nodes of `g`, by node index.
pub open spec fn node_expressions(g: DependencyGraph, stmts: Seq<RStmt>) -> Seq<RExp> {
    Seq::new(g.sources().len(), |k: int| node_expression(stmts, g.sources(), k))
}

/// The tree of the expressions of a script, and the sets of hypotheses by id.
pub struct HypothesisTree {
    root: Branches<RExp>,
    hypotheses: BTreeMap<HypothesesId, Hypotheses>,
    parent: Ghost<Seq<Option<usize>>>,
    hyp: Ghost<Seq<HypothesesId>>,
    sets: Ghost<Seq<Set<Seq<char>>>>,
}

impl HypothesisTree {
    /// The parent node of each node, by node index.
    pub closed spec fn parents(&self) -> Seq<Option<usize>> {
        self.parent@
    }

    /// The hypotheses id of each node, by node index.
    pub closed spec fn ids(&self) -> Seq<HypothesesId> {
        self.hyp@
    }

    /// The set of hypotheses of each id.
    pub closed spec fn sets(&self) -> Seq<Set<Seq<char>>> {
        self.sets@
    }

    /// The top-level branches, in specifications.
    pub closed spec fn spec_root(&self) -> Branches<RExp> {
        self.root
    }

    /// The sets of hypotheses by id, in specifications.
    pub closed spec fn spec_hypotheses(&self) -> BTreeMap<HypothesesId, Hypotheses> {
        self.hypotheses
    }

    /// The tree is the hypothesis tree of `stmts` over their dependency
    /// graph `g`: nodes placed as `places` says, nested as `branches_match`
    /// says, and each id mapped to its set.
    pub open spec fn models(&self, stmts: Seq<RStmt>, g: DependencyGraph) -> bool {
        &&& places(self.parents(), self.ids(), self.sets(), g, stmts)
        &&& self.parents().len() <= usize::MAX
        &&& self.sets().len() <= usize::MAX
        &&& layout_wf(self.parents(), self.ids(), self.sets().len())
        &&& branches_match(self.spec_root(), self.parents(), self.ids(), self.sets().len(), node_expressions(g, stmts), None)
        &&& forall|id: HypothesesId| self.spec_hypotheses()@.contains_key(id) <==> id < self.sets().len()
        &&& forall|id: HypothesesId| id < self.sets().len() ==> #[trigger] self.spec_hypotheses()@[id]@ == self.sets()[id as int]
    }

    /// The top-level branches.
    pub fn root(&self) -> (r: &Branches<RExp>)
        ensures
            *r == self.spec_root(),
    {
        &self.root
    }

    /// The sets of hypotheses, by id.
    pub fn hypotheses(&self) -> (r: &BTreeMap<HypothesesId, Hypotheses>)
        ensures
            *r == self.spec_hypotheses(),
    {
        &self.hypotheses
    }
}

/// Builds the hypothesis tree of a script from its dependency graph: each
/// expression under its parent (or at the root), in the branch of the id of
/// the hypotheses it works under, in source order.
pub fn parse_hypothesis_tree(statements: Vec<RStmt>, g: &DependencyGraph) -> (r: HypothesisTree)
    requires
        g.models(statements@),
    ensures
        r.models(statements@, *g),
{
    let ghost stmts = statements@;
    let (layout, map) = compute_layout(&statements, g);
    let ghost sets = map@;
    let ns = statements.len();
    let mut rest = statements;
    let mut by_stmt: Vec<Option<RExp>> = Vec::new();
    while rest.len() > 0
        invariant
            ns == stmts.len(),
            rest@.len() <= ns,
            rest@ == stmts.subrange(0, rest@.len() as int),
            by_stmt@.len() == ns - rest@.len(),
            forall|i: int| 0 <= i < by_stmt@.len() ==> #[trigger] by_stmt@[i] == stmt_expression(stmts[ns - 1 - i]),
        decreases rest@.len(),
    {
        let s = rest.pop().unwrap();
        assert(rest@ =~= stmts.subrange(0, rest@.len() as int));
        by_stmt.push(into_expression(s));
    }
    let n = g.node_count();
    let ghost sources = g.sources();
    let ghost exprs = node_expressions(*g, stmts);
    let mut pool: Vec<Option<RExp>> = Vec::new();
    let mut k: usize = 0;
    while k < n
        invariant
            g.models(stmts),
            sources == g.sources(),
            n == sources.len(),
            ns == stmts.len(),
            by_stmt@.len() == ns,
            exprs == node_expressions(*g, stmts),
            k <= n,
            pool@.len() == k,
            forall|a: int| 0 <= a < k ==> #[trigger] pool@[a] == Some(exprs[a]),
            forall|a: int| k <= a < n ==> by_stmt@[ns - 1 - sources[a]] == stmt_expression(stmts[sources[a] as int]),
        decreases n - k,
    {
        let src = g.source(k);
        let idx = ns - 1 - src;
        let ghost before = by_stmt@;
        let e = by_stmt[idx].take();
        proof {
            assert forall|a: int| k + 1 <= a < n implies by_stmt@[ns - 1 - sources[a]] == stmt_expression(stmts[sources[a] as int]) by {
                assert(sources[k as int] < sources[a]);
                assert(by_stmt@[ns - 1 - sources[a]] == before[ns - 1 - sources[a]]);
            }
        }
        pool.push(e);
        k = k + 1;
    }
    proof {
        assert forall|c: int| 0 <= c < layout.parent@.len() implies match #[trigger] layout.parent@[c] {
            Some(q) => q < c,
            None => true,
        } by {
            if let Some(q) = layout.parent@[c] {
                crate::graph::lemma_edges_forward(*g, stmts, q, c as usize);
            }
        }
    }
    let m = map.len();
    let root = build_branches(&layout, m, &mut pool, None, Ghost(exprs));
    let hypotheses = map.into_map();
    HypothesisTree { root, hypotheses, parent: Ghost(layout.parent@), hyp: Ghost(layout.hyp@), sets: Ghost(sets) }
}

/// `t` is the hypothesis tree of the statements that the text `code` parses
/// to, over their dependency graph.
pub open spec fn tree_of_text(t: HypothesisTree, code: Seq<char>) -> bool {
    exists|stmts: Seq<RStmt>, g: DependencyGraph|
        stmts_model(stmts) == parse_spec(code)->Some_0 && g.models(stmts) && #[trigger] t.models(stmts, g)
}

/// Parses a script and builds its hypothesis tree.
pub fn analyze(code: &str) -> (r: Result<HypothesisTree, ParseError>)
    ensures
        code@.len() + 8 <= usize::MAX ==> ((r is Ok) == (parse_spec(code@) is Some)),
        r matches Ok(t) ==> tree_of_text(t, code@),
        r matches Err(e) ==> e.position <= code@.len(),
{
    match parse(code) {
        Ok(statements) => {
            let ghost s = statements@;
            let g = build_graph(&statements);
            let t = parse_hypothesis_tree(statements, &g);
            assert(g.models(s) && t.models(s, g));
            assert(stmts_model(s) == parse_spec(code@)->Some_0);
            assert(tree_of_text(t, code@));
            Ok(t)
        },
        Err(e) => Err(e),
    }
}

/// The printed line `l` stands for the expression node `n`, and so on below.
pub open spec fn node_lines(l: Node<String>, n: Node<RExp>) -> bool
    decreases n, 2nat,
{
    &&& l.content@ == show_exp(n.content)
    &&& branches_lines(l.children, n.children)
}

/// The printed branches `lb` stand for the branches `b`, id by id.
pub open spec fn branches_lines(lb: Branches<String>, b: Branches<RExp>) -> bool
    decreases b, 1nat,
{
    &&& lb@.len() == b@.len()
    &&& forall|i: int| 0 <= i < b@.len() ==> (#[trigger] lb@[i]).0 == b@[i].0 && list_lines(lb@[i].1, b@[i].1)
}

/// The printed nodes `ll` stand for the nodes `l`, one by one.
pub open spec fn list_lines(ll: Vec<Node<String>>, l: Vec<Node<RExp>>) -> bool
    decreases l, 0nat,
{
    &&& ll@.len() == l@.len()
    &&& forall|j: int| 0 <= j < l@.len() ==> node_lines(#[trigger] ll@[j], l@[j])
}

/// The node with each expression replaced by its printed form.
pub fn map_node(node: &Node<RExp>) -> (r: Node<String>)
    ensures
        node_lines(r, *node),
    decreases node, 2nat,
{
    Node { content: node.content.to_string(), children: map_branches(&node.children) }
}

/// The branches with each expression replaced by its printed form.
pub fn map_branches(branches: &Branches<RExp>) -> (r: Branches<String>)
    ensures
        branches_lines(r, *branches),
    decreases branches, 1nat,
{
    let mut out: Branches<String> = Vec::new();
    let mut i: usize = 0;
    while i < branches.len()
        invariant
            i <= branches@.len(),
            out@.len() == i,
            forall|a: int| 0 <= a < i ==> (#[trigger] out@[a]).0 == branches@[a].0 && list_lines(out@[a].1, branches@[a].1),
        decreases branches@.len() - i,
    {
        let list = &branches[i].1;
        let mut mapped: Vec<Node<String>> = Vec::new();
        let mut j: usize = 0;
        while j < list.len()
            invariant
                i < branches@.len(),
                *list == branches@[i as int].1,
                j <= list@.len(),
                mapped@.len() == j,
                forall|b: int| 0 <= b < j ==> node_lines(#[trigger] mapped@[b], list@[b]),
            decreases list@.len() - j,
        {
            assert(decreases_to!(*branches => list@[j as int])) by {
                assert(decreases_to!(*branches => branches@[i as int]));
                assert(decreases_to!(branches@[i as int] => branches@[i as int].1));
                assert(decreases_to!(branches@[i as int].1 => list@[j as int]));
            }
            mapped.push(map_node(&list[j]));
            j = j + 1;
        }
        out.push((branches[i].0, mapped));
        i = i + 1;
    }
    out
}

/// The hypothesis tree with each expression printed on one line, as handed
/// to a renderer.
pub struct LineTree<'a> {
    root: Branches<String>,
    hypotheses: &'a BTreeMap<HypothesesId, Hypotheses>,
}

impl<'a> LineTree<'a> {
    /// The top-level branches, in specifications.
    pub closed spec fn spec_root(&self) -> Branches<String> {
        self.root
    }

    /// The sets of hypotheses by id, in specifications.
    pub closed spec fn spec_hypotheses(&self) -> BTreeMap<HypothesesId, Hypotheses> {
        *self.hypotheses
    }

    /// The line form of a hypothesis tree: the same shape and ids, each
    /// expression printed; the hypotheses as they are.
    pub fn from(other: &'a HypothesisTree) -> (r: LineTree<'a>)
        ensures
            branches_lines(r.spec_root(), other.spec_root()),
            r.spec_hypotheses() == other.spec_hypotheses(),
    {
        LineTree { root: map_branches(&other.root), hypotheses: &other.hypotheses }
    }

    /// The top-level branches.
    pub fn root(&self) -> (r: &Branches<String>)
        ensures
            *r == self.spec_root(),
    {
        &self.root
    }

    /// The sets of hypotheses, by id.
    pub fn hypotheses(&self) -> (r: &BTreeMap<HypothesesId, Hypotheses>)
        ensures
            *r == self.spec_hypotheses(),
    {
        self.hypotheses
    }
}

proof fn lemma_earlier_same_range(g: DependencyGraph, stmts: Seq<RStmt>, k: int, j: int)
    ensures
        earlier_same(g, stmts, k, j) matches Some(i) ==> 0 <= j <= i < k && exp_model(node_expression(stmts, g.sources(), i))
            == exp_model(node_expression(stmts, g.sources(), k)),
    decreases k - j,
{
    if 0 <= j < k {
        lemma_earlier_same_range(g, stmts, k, j + 1);
    }
}

proof fn lemma_first_equal(sets: Seq<Set<Seq<char>>>, h: Set<Seq<char>>, i: int)
    ensures
        first_equal(sets, h, i) matches Some(r) ==> 0 <= i <= r < sets.len() && sets[r] == h,
    decreases sets.len() - i,
{
    if 0 <= i < sets.len() {
        lemma_first_equal(sets, h, i + 1);
    }
}

/// What placing the first `k` nodes gives: `k` ids, each naming a set.
proof fn lemma_placement_wf(g: DependencyGraph, stmts: Seq<RStmt>, k: nat)
    ensures
        placement(g, stmts, k).0.len() == k,
        forall|a: int| 0 <= a < k ==> #[trigger] placement(g, stmts, k).0[a] < placement(g, stmts, k).1.len(),
    decreases k,
{
    if k > 0 {
        lemma_placement_wf(g, stmts, (k - 1) as nat);
        let (hyp, sets) = placement(g, stmts, (k - 1) as nat);
        let h = node_hyps(g, stmts, hyp, sets, k - 1);
        lemma_earlier_same_range(g, stmts, k - 1, 0);
        lemma_first_equal(sets, h, 0);
        let (hyp2, sets2) = placement(g, stmts, k);
        assert forall|a: int| 0 <= a < k implies #[trigger] hyp2[a] < sets2.len() by {
            if a < k - 1 {
                assert(hyp2[a] == hyp[a]);
            }
        }
    }
}

/// Placing one more node keeps the ids given so far, and only grows the sets.
proof fn lemma_placement_step(g: DependencyGraph, stmts: Seq<RStmt>, k: nat)
    ensures
        placement(g, stmts, k + 1).0.subrange(0, k as int) == placement(g, stmts, k).0,
        placement(g, stmts, k).1.len() <= placement(g, stmts, k + 1).1.len(),
        forall|i: int| 0 <= i < placement(g, stmts, k).1.len()
            ==> #[trigger] placement(g, stmts, k).1[i].subset_of(placement(g, stmts, k + 1).1[i]),
{
    lemma_placement_wf(g, stmts, k);
    let (hyp, sets) = placement(g, stmts, k);
    let h = node_hyps(g, stmts, hyp, sets, k as int);
    lemma_earlier_same_range(g, stmts, k as int, 0);
    let (hyp1, sets1) = placement(g, stmts, k + 1);
    assert(hyp1.subrange(0, k as int) =~= hyp);
    assert forall|i: int| 0 <= i < sets.len() implies #[trigger] sets[i].subset_of(sets1[i]) by {
        if let Some(j) = earlier_same(g, stmts, k as int, 0) {
            assert(hyp[j] < sets.len());
            if i == hyp[j] {
                assert(sets1[i] == sets[i] + h);
            } else {
                assert(sets1[i] == sets[i]);
            }
        } else {
            if first_equal(sets, h, 0) is None {
                assert(sets1[i] == sets.push(h)[i]);
            }
        }
    }
}

/// Placing more nodes keeps the ids given so far, and only grows the sets.
proof fn lemma_placement_grows(g: DependencyGraph, stmts: Seq<RStmt>, k: nat, n: nat)
    requires
        k <= n,
    ensures
        placement(g, stmts, n).0.subrange(0, k as int) == placement(g, stmts, k).0,
        placement(g, stmts, k).1.len() <= placement(g, stmts, n).1.len(),
        forall|i: int| 0 <= i < placement(g, stmts, k).1.len()
            ==> #[trigger] placement(g, stmts, k).1[i].subset_of(placement(g, stmts, n).1[i]),
    decreases n - k,
{
    lemma_placement_wf(g, stmts, k);
    lemma_placement_wf(g, stmts, n);
    if k < n {
        lemma_placement_grows(g, stmts, k + 1, n);
        lemma_placement_wf(g, stmts, k + 1);
        lemma_placement_step(g, stmts, k);
        let (hyp, sets) = placement(g, stmts, k);
        let (hyp1, sets1) = placement(g, stmts, k + 1);
        let (hyp2, sets2) = placement(g, stmts, n);
        assert(hyp2.subrange(0, k as int) =~= hyp2.subrange(0, (k + 1) as int).subrange(0, k as int));
        assert forall|i: int| 0 <= i < sets.len() implies #[trigger] sets[i].subset_of(sets2[i]) by {
            assert(sets[i].subset_of(sets1[i]));
            assert(sets1[i].subset_of(sets2[i]));
            assert forall|x: Seq<char>| sets[i].contains(x) implies sets2[i].contains(x) by {
                assert(sets1[i].contains(x));
            }
        }
    } else {
        assert(placement(g, stmts, n).0.subrange(0, k as int) =~= placement(g, stmts, k).0);
    }
}

/// Hypotheses flow along the edges of the dependency graph: for every edge
/// from `u` to `v`, all that the set of `u`'s id held when `v` was placed is
/// in the final set of `v`'s id. The set of `u`'s id may grow afterwards, when
/// an expression recurs; what it gains then is not carried down.
pub proof fn lemma_hypotheses_monotone(t: HypothesisTree, stmts: Seq<RStmt>, g: DependencyGraph, u: usize, v: usize)
    requires
        g.models(stmts),
        t.models(stmts, g),
        g.has_edge(u, v),
    ensures
        u < v,
        placement(g, stmts, v as nat).1[t.ids()[u as int] as int].subset_of(t.sets()[t.ids()[v as int] as int]),
{
    crate::graph::lemma_edges_forward(g, stmts, u, v);
    let n = g.sources().len();
    let (hyp, sets) = placement(g, stmts, v as nat);
    let h = node_hyps(g, stmts, hyp, sets, v as int);
    lemma_placement_wf(g, stmts, v as nat);
    lemma_placement_grows(g, stmts, v as nat, n);
    lemma_placement_grows(g, stmts, (v + 1) as nat, n);
    lemma_placement_wf(g, stmts, (v + 1) as nat);
    assert(t.ids()[u as int] == hyp[u as int]) by {
        assert(t.ids().subrange(0, v as int)[u as int] == hyp[u as int]);
    }
    assert forall|x: Seq<char>| sets[hyp[u as int] as int].contains(x) implies h.contains(x) by {
        assert(u < v && g.has_edge(u, v) && sets[hyp[u as int] as int].contains(x));
        assert(inherited(g, hyp, sets, v as int).contains(x));
    }
    let (hyp1, sets1) = placement(g, stmts, (v + 1) as nat);
    lemma_earlier_same_range(g, stmts, v as int, 0);
    lemma_first_equal(sets, h, 0);
    assert(h.subset_of(sets1[hyp1[v as int] as int]));
    assert(t.ids()[v as int] == hyp1[v as int]) by {
        assert(t.ids().subrange(0, v + 1)[v as int] == hyp1[v as int]);
    }
    let i = hyp1[v as int] as int;
    assert(sets1[i].subset_of(t.sets()[i]));
    assert forall|x: Seq<char>| sets[hyp[u as int] as int].contains(x) implies t.sets()[i].contains(x) by {
        assert(h.contains(x));
        assert(sets1[i].contains(x));
    }
}

/// The ids of one run are dense and given in source order: each node's id
/// names a set, each id is some node's, and each node takes an id already
/// given to an earlier node or the next one. An expression that recurs keeps
/// the id of its first node; any other node takes the first id whose set
/// equals its hypotheses at that point, or a new one. Sets named by one id
/// are equal when the id is given; a recurring expression may extend the set
/// afterwards, so the final sets hold every node's hypotheses but two ids may
/// come to name equal sets.
pub proof fn lemma_ids_dense(t: HypothesisTree, stmts: Seq<RStmt>, g: DependencyGraph, a: usize)
    requires
        t.models(stmts, g),
        a < g.sources().len(),
    ensures
        t.ids()[a as int] < t.sets().len(),
        forall|id: int| 0 <= id < t.sets().len() ==> #[trigger] id_used(t.ids(), id),
        t.ids()[a as int] <= ids_given(t.ids(), a as nat),
        t.sets().len() == ids_given(t.ids(), g.sources().len()),
        earlier_same(g, stmts, a as int, 0) matches Some(j) ==> t.ids()[a as int] == t.ids()[j],
        earlier_same(g, stmts, a as int, 0) is None ==> t.ids()[a as int] == match first_equal(
            placement(g, stmts, a as nat).1,
            node_hyps(g, stmts, placement(g, stmts, a as nat).0, placement(g, stmts, a as nat).1, a as int),
            0,
        ) {
            Some(i) => i as HypothesesId,
            None => placement(g, stmts, a as nat).1.len() as HypothesesId,
        },
        node_hyps(g, stmts, placement(g, stmts, a as nat).0, placement(g, stmts, a as nat).1, a as int).subset_of(
            t.sets()[t.ids()[a as int] as int],
        ),
{
    let n = g.sources().len();
    assert(t.ids()[a as int] < t.sets().len());
    lemma_placement_grows(g, stmts, (a + 1) as nat, n);
    lemma_placement_wf(g, stmts, (a + 1) as nat);
    lemma_placement_wf(g, stmts, a as nat);
    let (hyp, sets) = placement(g, stmts, a as nat);
    let (hyp1, sets1) = placement(g, stmts, (a + 1) as nat);
    assert(t.ids()[a as int] == hyp1[a as int]) by {
        assert(t.ids().subrange(0, a + 1)[a as int] == hyp1[a as int]);
    }
    lemma_earlier_same_range(g, stmts, a as int, 0);
    lemma_first_equal(sets, node_hyps(g, stmts, hyp, sets, a as int), 0);
    if let Some(j) = earlier_same(g, stmts, a as int, 0) {
        assert(t.ids()[j] == hyp1[j]) by {
            assert(t.ids().subrange(0, a + 1)[j] == hyp1[j]);
        }
        assert(hyp1[j] == hyp[j]);
    }
    let h = node_hyps(g, stmts, hyp, sets, a as int);
    let i = hyp1[a as int] as int;
    assert(h.subset_of(sets1[i]));
    assert(sets1[i].subset_of(t.sets()[i]));
    assert forall|x: Seq<char>| h.contains(x) implies t.sets()[i].contains(x) by {
        assert(sets1[i].contains(x));
    }
}

proof fn lemma_group_members(parent: Seq<Option<usize>>, hyp: Seq<HypothesesId>, p: Option<usize>, h: HypothesesId, c: nat)
    requires
        c <= parent.len(),
        parent.len() <= usize::MAX,
    ensures
        forall|i: int, j: int| 0 <= i < j < group(parent, hyp, p, h, c).len()
            ==> group(parent, hyp, p, h, c)[i] < group(parent, hyp, p, h, c)[j],
        forall|i: int| 0 <= i < group(parent, hyp, p, h, c).len() ==> {
            let x = #[trigger] group(parent, hyp, p, h, c)[i];
            x < c && parent[x as int] == p && hyp[x as int] == h
        },
        forall|x: usize| x < c && parent[x as int] == p && hyp[x as int] == h
            ==> #[trigger] group(parent, hyp, p, h, c).contains(x),
    decreases c,
{
    if c > 0 {
        lemma_group_members(parent, hyp, p, h, (c - 1) as nat);
        let rest = group(parent, hyp, p, h, (c - 1) as nat);
        let g = group(parent, hyp, p, h, c);
        if parent[c - 1] == p && hyp[c - 1] == h {
            assert(g == rest.push((c - 1) as usize));
            assert forall|i: int, j: int| 0 <= i < j < g.len() implies g[i] < g[j] by {
                assert(g[i] == rest[i]);
                if j < rest.len() {
                    assert(g[j] == rest[j]);
                }
            }
            assert forall|i: int| 0 <= i < g.len() implies {
                let x = #[trigger] g[i];
                x < c && parent[x as int] == p && hyp[x as int] == h
            } by {
                if i < rest.len() {
                    assert(g[i] == rest[i]);
                }
            }
        } else {
            assert(g == rest);
        }
        assert forall|x: usize| x < c && parent[x as int] == p && hyp[x as int] == h implies #[trigger] g.contains(x) by {
            if x < c - 1 {
                assert(rest.contains(x));
                let i = choose|i: int| 0 <= i < rest.len() && rest[i] == x;
                assert(g[i] == x);
            } else {
                assert(g[g.len() - 1] == x);
            }
        }
    }
}

proof fn lemma_keys_members(parent: Seq<Option<usize>>, hyp: Seq<HypothesesId>, p: Option<usize>, m: nat)
    requires
        m <= usize::MAX,
    ensures
        forall|i: int, j: int| 0 <= i < j < keys(parent, hyp, p, m).len()
            ==> keys(parent, hyp, p, m)[i] < keys(parent, hyp, p, m)[j],
        forall|i: int| 0 <= i < keys(parent, hyp, p, m).len() ==> #[trigger] keys(parent, hyp, p, m)[i] < m,
        forall|h: HypothesesId| h < m && group(parent, hyp, p, h, parent.len()).len() > 0
            ==> #[trigger] keys(parent, hyp, p, m).contains(h),
    decreases m,
{
    if m > 0 {
        lemma_keys_members(parent, hyp, p, (m - 1) as nat);
        let rest = keys(parent, hyp, p, (m - 1) as nat);
        let ks = keys(parent, hyp, p, m);
        if group(parent, hyp, p, (m - 1) as HypothesesId, parent.len()).len() > 0 {
            assert(ks == rest.push((m - 1) as HypothesesId));
            assert forall|i: int, j: int| 0 <= i < j < ks.len() implies ks[i] < ks[j] by {
                assert(ks[i] == rest[i]);
                if j < rest.len() {
                    assert(ks[j] == rest[j]);
                }
            }
            assert forall|i: int| 0 <= i < ks.len() implies #[trigger] ks[i] < m by {
                if i < rest.len() {
                    assert(ks[i] == rest[i]);
                }
            }
        } else {
            assert(ks == rest);
        }
        assert forall|h: HypothesesId| h < m && group(parent, hyp, p, h, parent.len()).len() > 0
            implies #[trigger] ks.contains(h) by {
            if h < m - 1 {
                assert(rest.contains(h));
                let i = choose|i: int| 0 <= i < rest.len() && rest[i] == h;
                assert(ks[i] == h);
            } else {
                assert(ks[ks.len() - 1] == h);
            }
        }
    }
}

/// Branches are ordered: at every level of the tree the ids of the branches
/// ascend, and within a branch the nodes come in source order.
pub proof fn lemma_branch_order(t: HypothesisTree, stmts: Seq<RStmt>, g: DependencyGraph, p: Option<usize>, h: HypothesesId)
    requires
        t.models(stmts, g),
    ensures
        forall|i: int, j: int| 0 <= i < j < keys(t.parents(), t.ids(), p, t.sets().len()).len()
            ==> keys(t.parents(), t.ids(), p, t.sets().len())[i] < keys(t.parents(), t.ids(), p, t.sets().len())[j],
        forall|i: int, j: int| 0 <= i < j < group(t.parents(), t.ids(), p, h, t.parents().len()).len()
            ==> group(t.parents(), t.ids(), p, h, t.parents().len())[i] < group(t.parents(), t.ids(), p, h, t.parents().len())[j],
{
    lemma_keys_members(t.parents(), t.ids(), p, t.sets().len());
    lemma_group_members(t.parents(), t.ids(), p, h, t.parents().len());
}

/// Every expression of the script appears in the tree exactly once: node `x`
/// stands in the branches under its parent (at the root if it has none), in
/// the branch of its id, once, and in no other branch.
pub proof fn lemma_each_node_once(t: HypothesisTree, stmts: Seq<RStmt>, g: DependencyGraph, x: usize)
    requires
        t.models(stmts, g),
        x < g.sources().len(),
    ensures
        keys(t.parents(), t.ids(), t.parents()[x as int], t.sets().len()).contains(t.ids()[x as int]),
        group(t.parents(), t.ids(), t.parents()[x as int], t.ids()[x as int], t.parents().len()).contains(x),
        forall|i: int, j: int| 0 <= i < j < group(t.parents(), t.ids(), t.parents()[x as int], t.ids()[x as int], t.parents().len()).len()
            ==> group(t.parents(), t.ids(), t.parents()[x as int], t.ids()[x as int], t.parents().len())[i]
                != group(t.parents(), t.ids(), t.parents()[x as int], t.ids()[x as int], t.parents().len())[j],
        forall|p: Option<usize>, h: HypothesesId| #[trigger] group(t.parents(), t.ids(), p, h, t.parents().len()).contains(x)
            ==> p == t.parents()[x as int] && h == t.ids()[x as int],
{
    let parent = t.parents();
    let hyp = t.ids();
    let n = parent.len();
    let px = parent[x as int];
    let hx = hyp[x as int];
    lemma_group_members(parent, hyp, px, hx, n);
    lemma_keys_members(parent, hyp, px, t.sets().len());
    assert(hx < t.sets().len());
    assert(group(parent, hyp, px, hx, n).contains(x));
    assert forall|p: Option<usize>, h: HypothesesId| #[trigger] group(parent, hyp, p, h, n).contains(x)
        implies p == px && h == hx by {
        lemma_group_members(parent, hyp, p, h, n);
        let i = choose|i: int| 0 <= i < group(parent, hyp, p, h, n).len() && group(parent, hyp, p, h, n)[i] == x;
        assert(group(parent, hyp, p, h, n)[i] == x);
    }
}

/// How often node `x` stands in the first `i` branches of `b`, read as the
/// branches under `p`: each node counts once, with all below it.
pub open spec fn occurrences(
    b: Branches<RExp>,
    parent: Seq<Option<usize>>,
    hyp: Seq<HypothesesId>,
    m: nat,
    p: Option<usize>,
    x: usize,
    i: nat,
) -> nat
    decreases b, 1nat, i,
{
    if i == 0 || i > b@.len() {
        0
    } else {
        occurrences(b, parent, hyp, m, p, x, (i - 1) as nat) + occurrences_in_list(
            b@[i - 1].1,
            parent,
            hyp,
            m,
            group(parent, hyp, p, keys(parent, hyp, p, m)[i - 1], parent.len()),
            x,
            b@[i - 1].1@.len(),
        )
    }
}

/// How often node `x` stands in the first `j` nodes of `l`, read as the
/// nodes `g`, with all below them.
pub open spec fn occurrences_in_list(
    l: Vec<Node<RExp>>,
    parent: Seq<Option<usize>>,
    hyp: Seq<HypothesesId>,
    m: nat,
    g: Seq<usize>,
    x: usize,
    j: nat,
) -> nat
    decreases l, 0nat, j,
{
    if j == 0 || j > l@.len() {
        0
    } else {
        occurrences_in_list(l, parent, hyp, m, g, x, (j - 1) as nat) + (if g[j - 1] == x {
            1nat
        } else {
            0nat
        }) + occurrences(l@[j - 1].children, parent, hyp, m, Some(g[j - 1]), x, l@[j - 1].children@.len())
    }
}

/// Node `x` lies below some node placed under `p` (or is one).
pub open spec fn below_some(parent: Seq<Option<usize>>, p: Option<usize>, x: usize) -> bool {
    exists|c: nat| c < parent.len() && parent[c as int] == p && #[trigger] desc(parent, x as nat, c)
}

proof fn lemma_below_child(parent: Seq<Option<usize>>, hyp: Seq<HypothesesId>, m: nat, x: nat, k: nat)
    requires
        layout_wf(parent, hyp, m),
        parent.len() <= usize::MAX,
        desc(parent, x, k),
        x != k,
    ensures
        exists|c: nat| c < parent.len() && parent[c as int] == Some(k as usize) && #[trigger] desc(parent, x, c),
    decreases x,
{
    let q = parent[x as int]->Some_0;
    if q as nat == k {
        assert(desc(parent, x, x));
    } else {
        lemma_below_child(parent, hyp, m, q as nat, k);
        let c = choose|c: nat| c < parent.len() && parent[c as int] == Some(k as usize) && #[trigger] desc(parent, q as nat, c);
        assert(desc(parent, x, c));
    }
}

proof fn lemma_root_above(parent: Seq<Option<usize>>, hyp: Seq<HypothesesId>, m: nat, x: nat)
    requires
        layout_wf(parent, hyp, m),
        x < parent.len(),
    ensures
        exists|c: nat| c < parent.len() && parent[c as int] == None::<usize> && #[trigger] desc(parent, x, c),
    decreases x,
{
    match parent[x as int] {
        None => {
            assert(desc(parent, x, x));
        },
        Some(q) => {
            lemma_root_above(parent, hyp, m, q as nat);
            let c = choose|c: nat| c < parent.len() && parent[c as int] == None::<usize> && #[trigger] desc(parent, q as nat, c);
            assert(desc(parent, x, c));
        },
    }
}

/// In the nodes `g` of one branch under `p`, node `x` stands once if it lies
/// below one of them, else never.
proof fn lemma_list_occurrences(
    l: Vec<Node<RExp>>,
    parent: Seq<Option<usize>>,
    hyp: Seq<HypothesesId>,
    m: nat,
    exprs: Seq<RExp>,
    p: Option<usize>,
    h: HypothesesId,
    x: usize,
    j: nat,
)
    requires
        layout_wf(parent, hyp, m),
        parent.len() <= usize::MAX,
        m <= usize::MAX,
        list_matches(l, parent, hyp, m, exprs, group(parent, hyp, p, h, parent.len())),
        j <= l@.len(),
    ensures
        occurrences_in_list(l, parent, hyp, m, group(parent, hyp, p, h, parent.len()), x, j) == if exists|t: int|
            0 <= t < j && #[trigger] desc(parent, x as nat, group(parent, hyp, p, h, parent.len())[t] as nat) {
            1nat
        } else {
            0nat
        },
    decreases l, 0nat, j,
{
    let g = group(parent, hyp, p, h, parent.len());
    lemma_group_members(parent, hyp, p, h, parent.len());
    if j > 0 {
        lemma_list_occurrences(l, parent, hyp, m, exprs, p, h, x, (j - 1) as nat);
        let c = g[j - 1];
        let node = l@[j - 1];
        assert(node_matches(node, parent, hyp, m, exprs, c));
        assert(decreases_to!(l => node)) by {
            assert(decreases_to!(l => l@));
            assert(decreases_to!(l@ => l@[j - 1]));
        }
        lemma_branch_occurrences(node.children, parent, hyp, m, exprs, Some(c), x, node.children@.len());
        // The node counts itself, and what lies below it counts through its children.
        if below_some(parent, Some(c), x) {
            let c2 = choose|c2: nat| c2 < parent.len() && parent[c2 as int] == Some(c) && #[trigger] desc(parent, x as nat, c2);
            assert(parent[c2 as int] matches Some(q) && q < c2);
            lemma_desc_child(parent, x as nat, c2 as usize, c);
        }
        if desc(parent, x as nat, c as nat) && x != c {
            lemma_below_child(parent, hyp, m, x as nat, c as nat);
        }
        // Siblings share nothing below them.
        if desc(parent, x as nat, c as nat) {
            assert forall|t: int| 0 <= t < j - 1 implies !#[trigger] desc(parent, x as nat, g[t] as nat) by {
                if desc(parent, x as nat, g[t] as nat) {
                    lemma_siblings(parent, hyp, m, x as nat, g[t] as nat, c as nat);
                    assert(g[t] < g[j - 1]);
                }
            }
        }
        if exists|t: int| 0 <= t < j && #[trigger] desc(parent, x as nat, g[t] as nat) {
            let t = choose|t: int| 0 <= t < j && #[trigger] desc(parent, x as nat, g[t] as nat);
            if t < j - 1 {
                assert(exists|t2: int| 0 <= t2 < j - 1 && #[trigger] desc(parent, x as nat, g[t2] as nat));
            }
        }
    }
}

/// In the branches under `p`, node `x` stands once if it lies below a node
/// placed under `p`, else never.
proof fn lemma_branch_occurrences(
    b: Branches<RExp>,
    parent: Seq<Option<usize>>,
    hyp: Seq<HypothesesId>,
    m: nat,
    exprs: Seq<RExp>,
    p: Option<usize>,
    x: usize,
    i: nat,
)
    requires
        layout_wf(parent, hyp, m),
        parent.len() <= usize::MAX,
        m <= usize::MAX,
        branches_match(b, parent, hyp, m, exprs, p),
        i <= b@.len(),
    ensures
        occurrences(b, parent, hyp, m, p, x, i) == if exists|t: int, c: int|
            0 <= t < i && 0 <= c < group(parent, hyp, p, keys(parent, hyp, p, m)[t], parent.len()).len()
                && #[trigger] desc(parent, x as nat, group(parent, hyp, p, keys(parent, hyp, p, m)[t], parent.len())[c] as nat) {
            1nat
        } else {
            0nat
        },
        i == b@.len() ==> occurrences(b, parent, hyp, m, p, x, i) == if below_some(parent, p, x) {
            1nat
        } else {
            0nat
        },
    decreases b, 1nat, i,
{
    let ks = keys(parent, hyp, p, m);
    lemma_keys_members(parent, hyp, p, m);
    if i > 0 {
        lemma_branch_occurrences(b, parent, hyp, m, exprs, p, x, (i - 1) as nat);
        let h = ks[i - 1];
        let l = b@[i - 1].1;
        assert(decreases_to!(b => l)) by {
            assert(decreases_to!(b => b@));
            assert(decreases_to!(b@ => b@[i - 1]));
            assert(decreases_to!(b@[i - 1] => b@[i - 1].1));
        }
        lemma_list_occurrences(l, parent, hyp, m, exprs, p, h, x, l@.len());
        let g = group(parent, hyp, p, h, parent.len());
        lemma_group_members(parent, hyp, p, h, parent.len());
        // At most one node placed under `p` has `x` below it.
        if exists|c: int| 0 <= c < g.len() && #[trigger] desc(parent, x as nat, g[c] as nat) {
            let c = choose|c: int| 0 <= c < g.len() && #[trigger] desc(parent, x as nat, g[c] as nat);
            assert forall|t: int, c2: int| 0 <= t < i - 1
                && 0 <= c2 < group(parent, hyp, p, ks[t], parent.len()).len() implies !#[trigger] desc(
                parent,
                x as nat,
                group(parent, hyp, p, ks[t], parent.len())[c2] as nat,
            ) by {
                let g2 = group(parent, hyp, p, ks[t], parent.len());
                lemma_group_members(parent, hyp, p, ks[t], parent.len());
                if desc(parent, x as nat, g2[c2] as nat) {
                    lemma_siblings(parent, hyp, m, x as nat, g2[c2] as nat, g[c] as nat);
                    assert(ks[t] < ks[i - 1]);
                }
            }
        }
        if exists|t: int, c: int| 0 <= t < i && 0 <= c < group(parent, hyp, p, ks[t], parent.len()).len()
            && #[trigger] desc(parent, x as nat, group(parent, hyp, p, ks[t], parent.len())[c] as nat) {
            let (t, c) = choose|t: int, c: int| 0 <= t < i && 0 <= c < group(parent, hyp, p, ks[t], parent.len()).len()
                && #[trigger] desc(parent, x as nat, group(parent, hyp, p, ks[t], parent.len())[c] as nat);
            if t < i - 1 {
                assert(exists|t2: int, c2: int| 0 <= t2 < i - 1 && 0 <= c2 < group(parent, hyp, p, ks[t2], parent.len()).len()
                    && #[trigger] desc(parent, x as nat, group(parent, hyp, p, ks[t2], parent.len())[c2] as nat));
            } else {
                assert(desc(parent, x as nat, g[c] as nat));
            }
        }
    }
    if i == b@.len() {
        // The nodes placed under `p` are exactly those of its branches.
        if below_some(parent, p, x) {
            let c = choose|c: nat| c < parent.len() && parent[c as int] == p && #[trigger] desc(parent, x as nat, c);
            let h = hyp[c as int];
            lemma_group_members(parent, hyp, p, h, parent.len());
            assert(group(parent, hyp, p, h, parent.len()).contains(c as usize));
            assert(ks.contains(h));
            let t = choose|t: int| 0 <= t < ks.len() && ks[t] == h;
            let k = choose|k: int| 0 <= k < group(parent, hyp, p, h, parent.len()).len() && group(parent, hyp, p, h, parent.len())[k] == c as usize;
            assert(desc(parent, x as nat, group(parent, hyp, p, ks[t], parent.len())[k] as nat));
        }
        if exists|t: int, c: int| 0 <= t < i && 0 <= c < group(parent, hyp, p, ks[t], parent.len()).len()
            && #[trigger] desc(parent, x as nat, group(parent, hyp, p, ks[t], parent.len())[c] as nat) {
            let (t, c) = choose|t: int, c: int| 0 <= t < i && 0 <= c < group(parent, hyp, p, ks[t], parent.len()).len()
                && #[trigger] desc(parent, x as nat, group(parent, hyp, p, ks[t], parent.len())[c] as nat);
            lemma_group_members(parent, hyp, p, ks[t], parent.len());
            let node = group(parent, hyp, p, ks[t], parent.len())[c];
            assert(desc(parent, x as nat, node as nat));
        }
    }
}

/// Every expression of the script stands in the tree exactly once: counted
/// over the whole tree, each node occurs one time.
pub proof fn lemma_tree_covers(t: HypothesisTree, stmts: Seq<RStmt>, g: DependencyGraph, x: usize)
    requires
        t.models(stmts, g),
        x < g.sources().len(),
    ensures
        occurrences(t.spec_root(), t.parents(), t.ids(), t.sets().len(), None, x, t.spec_root()@.len()) == 1,
{
    lemma_branch_occurrences(
        t.spec_root(),
        t.parents(),
        t.ids(),
        t.sets().len(),
        node_expressions(g, stmts),
        None,
        x,
        t.spec_root()@.len(),
    );
    lemma_root_above(t.parents(), t.ids(), t.sets().len(), x as nat);
}
} // verus!
