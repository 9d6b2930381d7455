//! The dependency graph: registered packages as nodes, "A declares a
//! dependency named like B" as the edge A -> B, with transitive
//! dependency enumeration in dependency-first order.
//!
//! The enumeration is a depth-first walk that yields every node reachable
//! from the start, each strictly after its own dependencies, and fails —
//! rather than looping — when a cycle makes that order impossible.
use vstd::prelude::*;

use crate::LpmError;

verus! {

broadcast use
    vstd::std_specs::vec::axiom_vec_index_decreases,
    vstd::std_specs::vec::axiom_vec_decreases_to_view,
    vstd::seq::axiom_seq_index_decreases;

/// Color of a node the walk has not touched.
pub const WHITE: u8 = 0;

/// Color of a node whose dependencies are still being walked.
pub const GRAY: u8 = 1;

/// Color of a node that is fully processed and placed in the order.
pub const BLACK: u8 = 2;

/// A sequence of nodes each of which depends on the next, within a graph
/// of `n` nodes and the given edges.
pub open spec fn valid_path(n: nat, edges: Set<(int, int)>, p: Seq<int>) -> bool {
    &&& p.len() >= 1
    &&& forall|i: int| 0 <= i < p.len() ==> 0 <= #[trigger] p[i] < n
    &&& forall|i: int| 0 <= i < p.len() - 1 ==> #[trigger] edges.contains((p[i], p[i + 1]))
}

/// Whether `b` is in `a`'s dependency closure: a dependency path of at
/// least one edge leads from `a` to `b`.
#[verifier::opaque]
pub open spec fn reaches(n: nat, edges: Set<(int, int)>, a: int, b: int) -> bool {
    exists|p: Seq<int>|
        valid_path(n, edges, p) && p.len() >= 2 && p.first() == a && p.last() == b
}

/// A dependency path of at least one edge from a node back to itself.
pub open spec fn is_cycle(n: nat, edges: Set<(int, int)>, p: Seq<int>) -> bool {
    valid_path(n, edges, p) && p.len() >= 2 && p.first() == p.last()
}

/// A cycle every node of which lies in `start`'s closure (or is `start`
/// itself): the kind of cycle that can defeat an enumeration from
/// `start`.
pub open spec fn cycle_reachable_from(
    n: nat,
    edges: Set<(int, int)>,
    start: int,
    p: Seq<int>,
) -> bool {
    &&& is_cycle(n, edges, p)
    &&& forall|i: int|
        0 <= i < p.len() ==> (#[trigger] p[i] == start || reaches(n, edges, start, p[i]))
}

/// What a successful enumeration from `start` promises: every node of
/// the start's closure except the start itself, each exactly once, each
/// strictly after its own dependencies.
pub open spec fn order_ok(n: nat, edges: Set<(int, int)>, start: usize, order: Seq<usize>) -> bool {
    &&& forall|k: int| 0 <= k < order.len() ==> (#[trigger] order[k] as int) < n
    &&& forall|k1: int, k2: int| 0 <= k1 < k2 < order.len() ==> order[k1] != order[k2]
    &&& forall|j: usize|
        #[trigger] order.contains(j) <==> (reaches(n, edges, start as int, j as int) && j
            != start)
    &&& forall|k: int, m: int|
        0 <= k < order.len() && #[trigger] edges.contains((order[k] as int, m))
            ==> order.take(k).contains(m as usize)
}

/// A directed graph over node identities, supporting dependency
/// registration and dependency-first transitive enumeration.
pub trait DependencyGraph: Sized {
    /// How many nodes are registered.
    spec fn node_count_spec(&self) -> nat;

    /// The edge set: `(from, to)` means "from depends on to".
    spec fn edges_spec(&self) -> Set<(int, int)>;

    /// Internal consistency.
    spec fn wf(&self) -> bool;

    /// How many nodes are registered.
    fn node_count(&self) -> (n: usize)
        ensures
            n as nat == self.node_count_spec(),
    ;

    /// Adds a node and hands back its identity.
    fn add_node(&mut self) -> (id: usize)
        requires
            old(self).wf(),
        ensures
            final(self).wf(),
            final(self).node_count_spec() == old(self).node_count_spec() + 1,
            id as nat == old(self).node_count_spec(),
            final(self).edges_spec() == old(self).edges_spec(),
    ;

    /// Records that `dependent` depends on `dependency`.  Self-edges are
    /// never registered: no node of the graph depends on itself.
    fn register_dependency(&mut self, dependent: usize, dependency: usize)
        requires
            old(self).wf(),
            (dependent as int) < old(self).node_count_spec(),
            (dependency as int) < old(self).node_count_spec(),
            dependent != dependency,
        ensures
            final(self).wf(),
            final(self).node_count_spec() == old(self).node_count_spec(),
            final(self).edges_spec() == old(self).edges_spec().insert(
                (dependent as int, dependency as int),
            ),
    ;

    /// The nodes reachable from `start` by following dependency edges,
    /// ordered so each node's own dependencies come strictly before it
    /// and excluding `start` itself; fails exactly on account of a cycle
    /// within the start's own closure.
    fn dependencies_of(&self, start: usize) -> (r: Result<Vec<usize>, LpmError>)
        requires
            self.wf(),
            (start as int) < self.node_count_spec(),
        ensures
            match r {
                Ok(order) => order_ok(
                    self.node_count_spec(),
                    self.edges_spec(),
                    start,
                    order@,
                ),
                Err(e) => e is Graph && (exists|c: Seq<int>|
                    cycle_reachable_from(
                        self.node_count_spec(),
                        self.edges_spec(),
                        start as int,
                        c,
                    )),
            },
    ;
}

/// Following one more edge extends the closure.
#[verifier::rlimit(50)]
pub proof fn lemma_reaches_step(n: nat, edges: Set<(int, int)>, a: int, b: int, c: int)
    requires
        reaches(n, edges, a, b) || a == b,
        edges.contains((b, c)),
        0 <= a < n,
        0 <= b < n,
        0 <= c < n,
    ensures
        reaches(n, edges, a, c),
{
    reveal(reaches);
    if a == b {
        let p = seq![a, c];
        assert(valid_path(n, edges, p));
        assert(p.first() == a && p.last() == c);
    } else {
        let p = choose|p: Seq<int>|
            valid_path(n, edges, p) && p.len() >= 2 && p.first() == a && p.last() == b;
        let q = p.push(c);
        assert(forall|i: int| 0 <= i < p.len() ==> q[i] == p[i]);
        assert(q.last() == c);
        assert(valid_path(n, edges, q));
        assert(q.first() == a);
    }
}

/// How many nodes the walk has not touched.
pub open spec fn count_white(s: Seq<u8>) -> nat
    decreases s.len(),
{
    if s.len() == 0 {
        0
    } else {
        count_white(s.drop_last()) + if s.last() == WHITE {
            1nat
        } else {
            0nat
        }
    }
}

/// Coloring one node away from white shrinks the count; recoloring a
/// non-white node keeps it.
pub proof fn lemma_count_white_update(s: Seq<u8>, i: int, c: u8)
    requires
        0 <= i < s.len(),
        c != WHITE,
    ensures
        s[i] == WHITE ==> count_white(s.update(i, c)) < count_white(s),
        s[i] != WHITE ==> count_white(s.update(i, c)) == count_white(s),
    decreases s.len(),
{
    let t = s.update(i, c);
    if i == s.len() - 1 {
        assert(t.drop_last() =~= s.drop_last());
        assert(t.last() == c);
    } else {
        assert(t.drop_last() =~= s.drop_last().update(i, c));
        assert(t.last() == s.last());
        lemma_count_white_update(s.drop_last(), i, c);
    }
}

/// The adjacency-list graph: node `i`'s dependencies are `edges[i]`.
pub struct OrderedDependencyGraph {
    edges: Vec<Vec<usize>>,
}

impl OrderedDependencyGraph {
    /// An empty graph.
    pub fn new() -> (g: OrderedDependencyGraph)
        ensures
            g.wf(),
            g.node_count_spec() == 0,
            g.edges_spec() == Set::<(int, int)>::empty(),
    {
        let g = OrderedDependencyGraph { edges: Vec::new() };
        proof {
            assert(g.edges_spec() =~= Set::<(int, int)>::empty());
        }
        g
    }

    /// Removes every edge touching `node`, in either direction, leaving
    /// the node in place: the first step of re-registering a package
    /// whose manifest may have changed.
    #[verifier::loop_isolation(false)]
    #[verifier::rlimit(80)]
    pub fn unregister_node_edges(&mut self, node: usize)
        requires
            old(self).wf(),
            (node as int) < old(self).node_count_spec(),
        ensures
            final(self).wf(),
            final(self).node_count_spec() == old(self).node_count_spec(),
            forall|pr: (int, int)|
                #[trigger] final(self).edges_spec().contains(pr) == (old(
                    self,
                ).edges_spec().contains(pr) && pr.0 != node as int && pr.1 != node as int),
    {
        let n = self.edges.len();
        let ghost ni = node as int;
        let mut rix: usize = 0;
        while rix < n
            invariant
                rix <= n,
                self.edges@.len() == n as nat,
                self.wf(),
                forall|pr: (int, int)|
                    #[trigger] self.edges_spec().contains(pr) == (old(
                        self,
                    ).edges_spec().contains(pr) && (pr.0 >= rix || (pr.0 != ni && pr.1 != ni))),
            decreases n - rix,
        {
            let ghost spec_before = self.edges_spec();
            let ghost rows_before = self.edges@;
            let ghost row_snap = self.edges@[rix as int]@;
            let mut new_row: Vec<usize> = Vec::new();
            if rix != node {
                let row_len = self.edges[rix].len();
                let mut l: usize = 0;
                while l < row_len
                    invariant
                        l <= row_len,
                        row_len == row_snap.len(),
                        self.edges@ == rows_before,
                        row_snap == self.edges@[rix as int]@,
                        forall|q: int|
                            0 <= q < new_row@.len() ==> ((#[trigger] new_row@[q]) != node
                                && row_snap.contains(new_row@[q])),
                        forall|y: usize|
                            (row_snap.take(l as int).contains(y) && y != node)
                                ==> #[trigger] new_row@.contains(y),
                    decreases row_len - l,
                {
                    let x = self.edges[rix][l];
                    let ghost nr0 = new_row@;
                    if x != node {
                        new_row.push(x);
                    }
                    proof {
                        assert(row_snap.contains(row_snap[l as int]));
                        assert forall|y: usize|
                            (row_snap.take(l + 1).contains(y) && y
                                != node) implies #[trigger] new_row@.contains(y) by {
                            assert(row_snap.take(l + 1) =~= row_snap.take(l as int).push(
                                row_snap[l as int],
                            ));
                            if row_snap.take(l as int).contains(y) {
                                assert(nr0.contains(y));
                                let q = choose|q: int| 0 <= q < nr0.len() && nr0[q] == y;
                                assert(new_row@[q] == y);
                            } else {
                                assert(y == row_snap[l as int]);
                                assert(new_row@[new_row@.len() - 1] == x);
                            }
                        }
                    }
                    l = l + 1;
                }
                proof {
                    assert(row_snap.take(row_len as int) =~= row_snap);
                }
            }
            let ghost filtered = new_row@;
            self.edges[rix] = new_row;
            proof {
                assert forall|i2: int, l2: int|
                    0 <= i2 < self.edges@.len() && 0 <= l2 < self.edges@[i2]@.len() implies (
                #[trigger] self.edges@[i2]@[l2] as int) < self.edges@.len() by {
                    if i2 == rix as int {
                        assert(filtered[l2] != node && row_snap.contains(filtered[l2]));
                        let q = choose|q: int|
                            0 <= q < row_snap.len() && row_snap[q] == filtered[l2];
                        assert((rows_before[rix as int]@[q] as int) < n);
                    } else {
                        assert(self.edges@[i2] == rows_before[i2]);
                    }
                }
                assert forall|pr: (int, int)|
                    #[trigger] self.edges_spec().contains(pr) == (old(
                        self,
                    ).edges_spec().contains(pr) && (pr.0 >= rix + 1 || (pr.0 != ni && pr.1
                        != ni))) by {
                    if 0 <= pr.0 < n && 0 <= pr.1 < n {
                        if pr.0 == rix as int {
                            if rix == node {
                                assert(self.edges@[pr.0]@.len() == 0);
                                assert(!self.edges_spec().contains(pr));
                            } else {
                                if self.edges_spec().contains(pr) {
                                    assert(filtered.contains(pr.1 as usize));
                                    let q = choose|q: int|
                                        0 <= q < filtered.len() && filtered[q] == pr.1 as usize;
                                    assert(filtered[q] != node);
                                    assert(row_snap.contains(pr.1 as usize));
                                    assert(spec_before.contains(pr));
                                    assert(old(self).edges_spec().contains(pr));
                                    assert(pr.1 != ni);
                                }
                                if old(self).edges_spec().contains(pr) && pr.1 != ni {
                                    assert(spec_before.contains(pr));
                                    assert(rows_before[pr.0]@.contains(pr.1 as usize));
                                    assert(row_snap.take(row_snap.len() as int) =~= row_snap);
                                    assert(filtered.contains(pr.1 as usize));
                                    assert(self.edges_spec().contains(pr));
                                }
                            }
                        } else {
                            assert(self.edges@[pr.0] == rows_before[pr.0]);
                            assert(self.edges_spec().contains(pr) == spec_before.contains(pr));
                        }
                    } else {
                        assert(!self.edges_spec().contains(pr));
                        assert(!old(self).edges_spec().contains(pr));
                    }
                }
            }
            rix = rix + 1;
        }
    }
}

/// The walk's state is consistent: the order holds exactly the black
/// nodes, dependency-first; the stack holds exactly the gray nodes, as a
/// dependency path; black nodes only depend on black nodes; and every
/// touched node lies in the start's closure.
spec fn dfs_inv(
    g: &OrderedDependencyGraph,
    color: Seq<u8>,
    order: Seq<usize>,
    stack: Seq<usize>,
    start: int,
) -> bool {
    let n = g.node_count_spec();
    let edges = g.edges_spec();
    &&& g.wf()
    &&& color.len() == n
    &&& n <= usize::MAX
    &&& 0 <= start < n
    &&& forall|i: int|
        0 <= i < color.len() ==> ((#[trigger] color[i]) == WHITE || color[i] == GRAY || color[i]
            == BLACK)
    &&& forall|k: int|
        0 <= k < order.len() ==> ((#[trigger] order[k] as int) < color.len() && color[order[k] as int]
            == BLACK)
    &&& forall|u: usize|
        (u as int) < color.len() && color[u as int] == BLACK ==> #[trigger] order.contains(u)
    &&& forall|k1: int, k2: int| 0 <= k1 < k2 < order.len() ==> order[k1] != order[k2]
    &&& forall|k: int, m: usize|
        0 <= k < order.len() && #[trigger] edges.contains((order[k] as int, m as int))
            ==> order.take(k).contains(m)
    &&& forall|a: usize, b: usize|
        #[trigger] edges.contains((a as int, b as int)) && (a as int) < color.len()
            && color[a as int] == BLACK && (b as int) < color.len() ==> color[b as int] == BLACK
    &&& forall|t: int|
        0 <= t < stack.len() ==> ((#[trigger] stack[t] as int) < color.len() && color[stack[t] as int]
            == GRAY)
    &&& forall|u: usize|
        (u as int) < color.len() && color[u as int] == GRAY ==> #[trigger] stack.contains(u)
    &&& forall|t1: int, t2: int| 0 <= t1 < t2 < stack.len() ==> stack[t1] != stack[t2]
    &&& forall|t: int|
        0 <= t < stack.len() - 1 ==> #[trigger] edges.contains(
            (stack[t] as int, stack[t + 1] as int),
        )
    &&& forall|u: usize|
        (u as int) < color.len() && (#[trigger] color[u as int]) != WHITE ==> (u as int == start
            || reaches(n, edges, start, u as int))
}

/// A dependency path whose first node is black ends on a black node.
#[verifier::rlimit(50)]
proof fn lemma_path_black(n: nat, edges: Set<(int, int)>, color: Seq<u8>, p: Seq<int>)
    requires
        valid_path(n, edges, p),
        color.len() == n,
        n <= usize::MAX,
        forall|a: usize, b: usize|
            #[trigger] edges.contains((a as int, b as int)) && (a as int) < color.len()
                && color[a as int] == BLACK && (b as int) < color.len() ==> color[b as int]
                == BLACK,
        color[p.first()] == BLACK,
    ensures
        color[p.last()] == BLACK,
    decreases p.len(),
{
    if p.len() == 1 {
    } else {
        let i0: int = 0;
        assert(edges.contains((p[i0], p[i0 + 1])));
        assert(edges.contains((p[0], p[1])));
        let a = p[0] as usize;
        let b = p[1] as usize;
        assert(a as int == p[0] && b as int == p[1]);
        assert(edges.contains((a as int, b as int)));
        assert(color[p[1]] == BLACK);
        let q = p.drop_first();
        assert forall|i: int| 0 <= i < q.len() - 1 implies #[trigger] edges.contains(
            (q[i], q[i + 1]),
        ) by {
            let j = i + 1;
            assert(edges.contains((p[j], p[j + 1])));
            assert(q[i] == p[j] && q[i + 1] == p[j + 1]);
        }
        assert(valid_path(n, edges, q));
        assert(color[q.first()] == BLACK);
        lemma_path_black(n, edges, color, q);
    }
}

/// Within a stack of consecutively dependent gray nodes, an edge from
/// the stack's last node back to a stacked node closes a cycle, and a
/// cycle within the start's closure at that.
#[verifier::rlimit(50)]
proof fn lemma_found_cycle(
    n: nat,
    edges: Set<(int, int)>,
    stack: Seq<usize>,
    v: usize,
    start: int,
)
    requires
        forall|t: int| 0 <= t < stack.len() ==> (#[trigger] stack[t] as int) < n,
        forall|t: int|
            0 <= t < stack.len() - 1 ==> #[trigger] edges.contains(
                (stack[t] as int, stack[t + 1] as int),
            ),
        forall|t: int|
            0 <= t < stack.len() ==> ((#[trigger] stack[t] as int) == start || reaches(
                n,
                edges,
                start,
                stack[t] as int,
            )),
        stack.contains(v),
        (v as int) < n,
        v as int == start || reaches(n, edges, start, v as int),
        stack.len() > 0 ==> edges.contains((stack.last() as int, v as int)),
    ensures
        exists|c: Seq<int>| cycle_reachable_from(n, edges, start, c),
{
    let t = choose|t: int| 0 <= t < stack.len() && stack[t] == v;
    let m = stack.len() as int;
    let cyc = Seq::new(
        (m - t + 1) as nat,
        |i: int|
            if t + i < m {
                stack[t + i] as int
            } else {
                v as int
            },
    );
    assert(cyc.len() >= 2);
    assert(cyc.first() == v as int);
    assert(cyc.last() == v as int);
    assert forall|i: int| 0 <= i < cyc.len() - 1 implies #[trigger] edges.contains(
        (cyc[i], cyc[i + 1]),
    ) by {
        if t + i < m - 1 {
            assert(edges.contains((stack[t + i] as int, stack[t + i + 1] as int)));
        } else {
            assert(cyc[i] == stack[m - 1] as int);
            assert(edges.contains((stack.last() as int, v as int)));
        }
    }
    assert(valid_path(n, edges, cyc));
    assert(is_cycle(n, edges, cyc));
    assert forall|i: int|
        0 <= i < cyc.len() implies (#[trigger] cyc[i] == start || reaches(
        n,
        edges,
        start,
        cyc[i],
    )) by {
        if t + i < m {
            assert(stack[t + i] as int == start || reaches(n, edges, start, stack[t + i] as int));
        }
    }
    assert(cycle_reachable_from(n, edges, start, cyc));
}

/// Marking an untouched node gray and stacking it keeps the walk's state
/// consistent.
#[verifier::rlimit(80)]
proof fn lemma_mark_gray(
    g: &OrderedDependencyGraph,
    color: Seq<u8>,
    order: Seq<usize>,
    stack: Seq<usize>,
    start: int,
    v: usize,
)
    requires
        dfs_inv(g, color, order, stack, start),
        (v as int) < g.node_count_spec(),
        color[v as int] == WHITE,
        v as int == start || reaches(g.node_count_spec(), g.edges_spec(), start, v as int),
        stack.len() > 0 ==> g.edges_spec().contains((stack.last() as int, v as int)),
    ensures
        dfs_inv(g, color.update(v as int, GRAY), order, stack.push(v), start),
{
    let edges = g.edges_spec();
    let color2 = color.update(v as int, GRAY);
    let stack2 = stack.push(v);
    assert forall|u: usize|
        (u as int) < color2.len() && color2[u as int] == GRAY implies #[trigger] stack2.contains(
        u,
    ) by {
        if u == v {
            assert(stack2[stack2.len() - 1] == v);
        } else {
            assert(color[u as int] == GRAY);
            assert(stack.contains(u));
            let t = choose|t: int| 0 <= t < stack.len() && stack[t] == u;
            assert(stack2[t] == u);
        }
    }
    assert forall|u: usize|
        (u as int) < color2.len() && color2[u as int] == BLACK implies #[trigger] order.contains(
        u,
    ) by {
        assert(color[u as int] == BLACK);
    }
    assert forall|t: int|
        0 <= t < stack2.len() implies ((#[trigger] stack2[t] as int) < color2.len()
        && color2[stack2[t] as int] == GRAY) by {
        if t < stack.len() {
            assert(stack2[t] == stack[t]);
            assert(color[stack[t] as int] == GRAY);
        }
    }
    assert forall|t1: int, t2: int| 0 <= t1 < t2 < stack2.len() implies stack2[t1]
        != stack2[t2] by {
        if t2 == stack2.len() - 1 {
            if stack2[t1] == v {
                assert(color[stack[t1] as int] == GRAY);
            }
        }
    }
    assert forall|t: int| 0 <= t < stack2.len() - 1 implies #[trigger] edges.contains(
        (stack2[t] as int, stack2[t + 1] as int),
    ) by {
        if t < stack.len() - 1 {
            assert(stack2[t] == stack[t] && stack2[t + 1] == stack[t + 1]);
            assert(edges.contains((stack[t] as int, stack[t + 1] as int)));
        } else {
            assert(stack2[t] == stack.last() && stack2[t + 1] == v);
        }
    }
    assert forall|a: usize, b: usize|
        #[trigger] edges.contains((a as int, b as int)) && (a as int) < color2.len()
            && color2[a as int] == BLACK && (b as int) < color2.len() implies color2[b as int]
        == BLACK by {
        assert(color[a as int] == BLACK);
        assert(color[b as int] == BLACK);
    }
    assert forall|u: usize|
        (u as int) < color2.len() && (#[trigger] color2[u as int]) != WHITE implies (u as int
            == start || reaches(g.node_count_spec(), edges, start, u as int)) by {
        if u != v {
            assert(color[u as int] == color2[u as int]);
        }
    }
    assert(dfs_inv(g, color2, order, stack2, start));
}

/// Finishing a node — popping it from the stack, blackening it and
/// appending it to the order — keeps the walk's state consistent, given
/// all its dependencies are black already.
#[verifier::rlimit(80)]
proof fn lemma_blacken(
    g: &OrderedDependencyGraph,
    color: Seq<u8>,
    order: Seq<usize>,
    stack: Seq<usize>,
    start: int,
    v: usize,
)
    requires
        dfs_inv(g, color, order, stack.push(v), start),
        color[v as int] == GRAY,
        (v as int) < g.node_count_spec(),
        forall|l: int|
            0 <= l < g.edges@[v as int]@.len() ==> color[#[trigger] g.edges@[v as int]@[l] as int]
                == BLACK,
    ensures
        dfs_inv(g, color.update(v as int, BLACK), order.push(v), stack, start),
{
    let n = g.node_count_spec();
    let edges = g.edges_spec();
    let color2 = color.update(v as int, BLACK);
    let order2 = order.push(v);
    let stack1 = stack.push(v);
    assert forall|k1: int, k2: int| 0 <= k1 < k2 < order2.len() implies order2[k1]
        != order2[k2] by {
        if k2 == order2.len() - 1 {
            assert(order2[k2] == v);
            assert(order2[k1] == order[k1]);
            if order[k1] == v {
                assert(color[v as int] == BLACK);
            }
        }
    }
    assert forall|u: usize|
        (u as int) < color2.len() && color2[u as int] == BLACK implies #[trigger] order2.contains(
        u,
    ) by {
        if u == v {
            assert(order2[order2.len() - 1] == v);
        } else {
            assert(color[u as int] == BLACK);
            assert(order.contains(u));
            let k = choose|k: int| 0 <= k < order.len() && order[k] == u;
            assert(order2[k] == u);
        }
    }
    assert forall|k: int, m: usize|
        0 <= k < order2.len() && #[trigger] edges.contains(
            (order2[k] as int, m as int),
        ) implies order2.take(k).contains(m) by {
        if k < order2.len() - 1 {
            assert(order2[k] == order[k]);
            assert(order.take(k).contains(m));
            assert(order.take(k) =~= order2.take(k));
        } else {
            assert(order2[k] == v);
            let row = g.edges@[v as int]@;
            assert(row.contains(m));
            let l = choose|l: int| 0 <= l < row.len() && row[l] == m;
            assert(color[row[l] as int] == BLACK);
            assert(color[m as int] == BLACK);
            assert(order.contains(m));
            let k2 = choose|k2: int| 0 <= k2 < order.len() && order[k2] == m;
            assert(order2.take(k)[k2] == m);
        }
    }
    assert forall|a: usize, b: usize|
        #[trigger] edges.contains((a as int, b as int)) && (a as int) < color2.len()
            && color2[a as int] == BLACK && (b as int) < color2.len() implies color2[b as int]
        == BLACK by {
        if a == v {
            let row = g.edges@[v as int]@;
            assert(row.contains(b));
            let l = choose|l: int| 0 <= l < row.len() && row[l] == b;
            assert(color[row[l] as int] == BLACK);
        } else {
            assert(color[a as int] == BLACK);
            assert(color[b as int] == BLACK);
        }
    }
    assert forall|t: int|
        0 <= t < stack.len() implies ((#[trigger] stack[t] as int) < color2.len()
        && color2[stack[t] as int] == GRAY) by {
        assert(stack1[t] == stack[t]);
        assert(color[stack[t] as int] == GRAY);
        if stack[t] == v {
            let tv = stack1.len() - 1;
            assert(stack1[tv] == v);
            assert(stack1[t] != stack1[tv]);
        }
    }
    assert forall|u: usize|
        (u as int) < color2.len() && color2[u as int] == GRAY implies #[trigger] stack.contains(
        u,
    ) by {
        assert(color[u as int] == GRAY);
        assert(stack1.contains(u));
        let t = choose|t: int| 0 <= t < stack1.len() && stack1[t] == u;
        if t == stack1.len() - 1 {
            assert(u == v);
        } else {
            assert(stack[t] == u);
        }
    }
    assert forall|t: int| 0 <= t < stack.len() - 1 implies #[trigger] edges.contains(
        (stack[t] as int, stack[t + 1] as int),
    ) by {
        assert(stack1[t] == stack[t] && stack1[t + 1] == stack[t + 1]);
        assert(edges.contains((stack1[t] as int, stack1[t + 1] as int)));
    }
    assert forall|t1: int, t2: int| 0 <= t1 < t2 < stack.len() implies stack[t1] != stack[t2] by {
        assert(stack1[t1] == stack[t1] && stack1[t2] == stack[t2]);
    }
    assert forall|k: int|
        0 <= k < order2.len() implies ((#[trigger] order2[k] as int) < color2.len()
        && color2[order2[k] as int] == BLACK) by {
        if k < order2.len() - 1 {
            assert(order2[k] == order[k]);
            assert(color[order[k] as int] == BLACK);
        }
    }
    assert forall|u: usize|
        (u as int) < color2.len() && (#[trigger] color2[u as int]) != WHITE implies (u as int
            == start || reaches(n, edges, start, u as int)) by {
        if u != v {
            assert(color[u as int] == color2[u as int]);
        } else {
            assert(color[v as int] != WHITE);
        }
    }
    assert(dfs_inv(g, color2, order2, stack, start));
}

/// One step of the walk: ensures `v` is fully processed, or reports a
/// cycle.  Touches only nodes below `v` in the closure; the stack and
/// everything already touched are left as they were.
#[verifier::loop_isolation(false)]
#[verifier::rlimit(100)]
fn visit(
    g: &OrderedDependencyGraph,
    color: &mut Vec<u8>,
    order: &mut Vec<usize>,
    stack: &mut Vec<usize>,
    v: usize,
    Ghost(start): Ghost<int>,
) -> (ok: bool)
    requires
        dfs_inv(g, old(color)@, old(order)@, old(stack)@, start),
        (v as int) < g.node_count_spec(),
        v as int == start || reaches(g.node_count_spec(), g.edges_spec(), start, v as int),
        old(stack)@.len() > 0 ==> g.edges_spec().contains(
            (old(stack)@.last() as int, v as int),
        ),
    ensures
        ok ==> dfs_inv(g, final(color)@, final(order)@, final(stack)@, start),
        ok ==> final(stack)@ == old(stack)@,
        ok ==> final(color)@.len() == old(color)@.len(),
        ok ==> final(color)@[v as int] == BLACK,
        ok ==> old(order)@.is_prefix_of(final(order)@),
        ok ==> forall|i: int|
            0 <= i < final(color)@.len() && old(color)@[i] != WHITE ==> final(color)@[i] == old(
                color,
            )@[i],
        ok ==> count_white(final(color)@) <= count_white(old(color)@),
        ok ==> (old(color)@[v as int] != WHITE ==> (final(color)@ == old(color)@ && final(order)@
            == old(order)@)),
        ok ==> (old(color)@[v as int] == WHITE ==> (final(order)@.len() > old(order)@.len()
            && final(order)@.last() == v)),
        !ok ==> (exists|c: Seq<int>|
            cycle_reachable_from(g.node_count_spec(), g.edges_spec(), start, c)),
    decreases count_white(color@),
{
    let ghost n = g.node_count_spec();
    let ghost edges = g.edges_spec();
    let c = color[v];
    if c == GRAY {
        proof {
            assert(stack@.contains(v));
            lemma_found_cycle(n, edges, stack@, v, start);
        }
        return false;
    }
    if c == BLACK {
        return true;
    }
    let ghost color0 = color@;
    let ghost order0 = order@;
    let ghost stack0 = stack@;
    color[v] = GRAY;
    stack.push(v);
    proof {
        lemma_count_white_update(color0, v as int, GRAY);
        lemma_mark_gray(g, color0, order0, stack0, start, v);
    }
    let row_len = g.edges[v].len();
    let mut idx: usize = 0;
    while idx < row_len
        invariant
            dfs_inv(g, color@, order@, stack@, start),
            row_len == g.edges@[v as int]@.len(),
            idx <= row_len,
            stack@ == stack0.push(v),
            color@[v as int] == GRAY,
            forall|l: int|
                0 <= l < idx ==> color@[#[trigger] g.edges@[v as int]@[l] as int] == BLACK,
            count_white(color@) < count_white(color0),
            forall|i: int| 0 <= i < color@.len() && color0[i] != WHITE ==> color@[i] == color0[i],
            order0.is_prefix_of(order@),
        decreases row_len - idx,
    {
        let w = g.edges[v][idx];
        proof {
            assert(edges.contains((v as int, w as int)));
            lemma_reaches_step(n, edges, start, v as int, w as int);
            assert(stack@.last() == v);
        }
        let ghost color_before = color@;
        let ok = visit(g, color, order, stack, w, Ghost(start));
        if !ok {
            return false;
        }
        proof {
            assert forall|l: int|
                0 <= l < idx + 1 implies color@[#[trigger] g.edges@[v as int]@[l] as int]
                == BLACK by {
                if l < idx {
                    assert(color_before[g.edges@[v as int]@[l] as int] == BLACK);
                }
            }
        }
        idx = idx + 1;
    }
    let ghost color1 = color@;
    let ghost order1 = order@;
    stack.pop();
    color[v] = BLACK;
    order.push(v);
    proof {
        lemma_count_white_update(color1, v as int, BLACK);
        assert(stack@ =~= stack0);
        lemma_blacken(g, color1, order1, stack0, start, v);
        assert(color@ == color1.update(v as int, BLACK));
        assert(order@ == order1.push(v));
        assert(order0.is_prefix_of(order@));
    }
    true
}

/// What the walk's final state says of the trimmed order: the result is
/// exactly the start's dependency closure, without the start, each node
/// strictly after its own dependencies.
#[verifier::rlimit(80)]
proof fn lemma_trim_order(
    g: &OrderedDependencyGraph,
    color: Seq<u8>,
    full: Seq<usize>,
    result: Seq<usize>,
    start: usize,
)
    requires
        dfs_inv(g, color, full, Seq::<usize>::empty(), start as int),
        full.len() > 0,
        full.last() == start,
        color[start as int] == BLACK,
        result == full.take(full.len() - 1),
    ensures
        forall|k: int|
            0 <= k < result.len() ==> (#[trigger] result[k] as int) < g.node_count_spec(),
        forall|k1: int, k2: int| 0 <= k1 < k2 < result.len() ==> result[k1] != result[k2],
        forall|j: usize|
            #[trigger] result.contains(j) <==> (reaches(
                g.node_count_spec(),
                g.edges_spec(),
                start as int,
                j as int,
            ) && j != start),
        forall|k: int, m: int|
            0 <= k < result.len() && #[trigger] g.edges_spec().contains((result[k] as int, m))
                ==> result.take(k).contains(m as usize),
{
    reveal(reaches);
    let n = g.node_count_spec();
    let edges = g.edges_spec();
    assert forall|j: usize| #[trigger] result.contains(j) implies (reaches(
        n,
        edges,
        start as int,
        j as int,
    ) && j != start) by {
        let k = choose|k: int| 0 <= k < result.len() && result[k] == j;
        assert(full[k] == j);
        if j == start {
            assert(full[full.len() - 1] == start);
            assert(k < full.len() - 1);
        }
        assert(color[j as int] == BLACK);
        assert(color[j as int] != WHITE);
    }
    assert forall|j: usize|
        (reaches(n, edges, start as int, j as int) && j != start) implies #[trigger] result.contains(
        j,
    ) by {
        let p = choose|p: Seq<int>|
            valid_path(n, edges, p) && p.len() >= 2 && p.first() == start as int && p.last()
                == j as int;
        lemma_path_black(n, edges, color, p);
        assert(color[j as int] == BLACK);
        assert(full.contains(j));
        let k = choose|k: int| 0 <= k < full.len() && full[k] == j;
        assert(k < full.len() - 1);
        assert(result[k] == j);
    }
    assert forall|k: int, m: int|
        0 <= k < result.len() && #[trigger] edges.contains((result[k] as int, m)) implies result.take(
        k,
    ).contains(m as usize) by {
        assert(full[k] == result[k]);
        let mu = m as usize;
        assert(0 <= m < n);
        assert(mu as int == m);
        assert(edges.contains((full[k] as int, mu as int)));
        assert(full.take(k).contains(mu));
        assert(full.take(k) =~= result.take(k));
    }
}

impl DependencyGraph for OrderedDependencyGraph {
    closed spec fn node_count_spec(&self) -> nat {
        self.edges@.len()
    }

    closed spec fn edges_spec(&self) -> Set<(int, int)> {
        Set::new(
            |pr: (int, int)|
                {
                    &&& 0 <= pr.0 < self.edges@.len()
                    &&& 0 <= pr.1 < self.edges@.len()
                    &&& self.edges@[pr.0]@.contains(pr.1 as usize)
                },
        )
    }

    closed spec fn wf(&self) -> bool {
        forall|i: int, l: int|
            0 <= i < self.edges@.len() && 0 <= l < self.edges@[i]@.len() ==> (
            #[trigger] self.edges@[i]@[l] as int) < self.edges@.len()
    }

    fn node_count(&self) -> (n: usize) {
        self.edges.len()
    }

    fn add_node(&mut self) -> (id: usize) {
        let id = self.edges.len();
        self.edges.push(Vec::new());
        proof {
            assert forall|pr: (int, int)|
                final(self).edges_spec().contains(pr) == old(self).edges_spec().contains(
                pr,
            ) by {
                if 0 <= pr.0 < old(self).edges@.len() {
                    assert(final(self).edges@[pr.0] == old(self).edges@[pr.0]);
                } else if pr.0 == old(self).edges@.len() {
                    assert(final(self).edges@[pr.0]@.len() == 0);
                }
            }
            assert(final(self).edges_spec() =~= old(self).edges_spec());
        }
        id
    }

    #[verifier::rlimit(50)]
    fn register_dependency(&mut self, dependent: usize, dependency: usize) {
        let count = self.edges.len();
        let row = &mut self.edges[dependent];
        row.push(dependency);
        proof {
            let target = old(self).edges_spec().insert((dependent as int, dependency as int));
            assert(final(self).edges@.len() == count);
            assert forall|pr: (int, int)|
                final(self).edges_spec().contains(pr) == target.contains(pr) by {
                if pr.0 == dependent as int {
                    let old_row = old(self).edges@[pr.0]@;
                    let new_row = final(self).edges@[pr.0]@;
                    assert(new_row =~= old_row.push(dependency));
                    if 0 <= pr.1 < count && new_row.contains(pr.1 as usize) {
                        let l = choose|l: int|
                            0 <= l < new_row.len() && new_row[l] == pr.1 as usize;
                        if l < old_row.len() {
                            assert(old_row[l] == pr.1 as usize);
                        } else {
                            assert(new_row[l] == dependency);
                            assert(pr.1 == dependency as int);
                        }
                    }
                    if old_row.contains(pr.1 as usize) {
                        let l = choose|l: int|
                            0 <= l < old_row.len() && old_row[l] == pr.1 as usize;
                        assert(new_row[l] == pr.1 as usize);
                    }
                    if pr.1 == dependency as int {
                        assert(new_row[new_row.len() - 1] == dependency);
                    }
                } else if 0 <= pr.0 < final(self).edges@.len() {
                    assert(final(self).edges@[pr.0] == old(self).edges@[pr.0]);
                }
            }
            assert(final(self).edges_spec() =~= target);
        }
    }

    #[verifier::loop_isolation(false)]
    #[verifier::rlimit(50)]
    fn dependencies_of(&self, start: usize) -> (r: Result<Vec<usize>, LpmError>) {
        let n = self.edges.len();
        let mut color: Vec<u8> = Vec::new();
        let mut i: usize = 0;
        while i < n
            invariant
                i <= n,
                color@.len() == i as nat,
                forall|k: int| 0 <= k < i ==> color@[k] == WHITE,
            decreases n - i,
        {
            color.push(WHITE);
            i = i + 1;
        }
        let mut order: Vec<usize> = Vec::new();
        let mut stack: Vec<usize> = Vec::new();
        proof {
            assert(dfs_inv(self, color@, order@, stack@, start as int));
        }
        let ghost color_init = color@;
        let ok = visit(self, &mut color, &mut order, &mut stack, start, Ghost(start as int));
        if !ok {
            return Err(LpmError::Graph("a dependency cycle prevents ordering".to_owned()));
        }
        let ghost full = order@;
        let mut result = order;
        result.pop();
        proof {
            assert(color_init[start as int] == WHITE);
            assert(full.len() > 0 && full.last() == start);
            assert(result@ =~= full.take(full.len() - 1));
            lemma_trim_order(self, color@, full, result@, start);
        }
        Ok(result)
    }
}

/// Law: along a dependency chain target -> d1 -> d2, the enumeration for
/// the target processes d2 strictly before d1 — and the target itself,
/// excluded from the enumeration, is processed only after all of it.
pub proof fn lemma_chain_order(
    n: nat,
    edges: Set<(int, int)>,
    order: Seq<usize>,
    start: usize,
    d1: usize,
    d2: usize,
)
    requires
        order_ok(n, edges, start, order),
        edges.contains((start as int, d1 as int)),
        edges.contains((d1 as int, d2 as int)),
        d1 != start,
        d2 != start,
        d1 != d2,
        (start as int) < n,
        (d1 as int) < n,
        (d2 as int) < n,
    ensures
        order.contains(d1),
        order.contains(d2),
        forall|k1: int, k2: int|
            0 <= k1 < order.len() && 0 <= k2 < order.len() && order[k1] == d1 && order[k2] == d2
                ==> k2 < k1,
{
    lemma_reaches_step(n, edges, start as int, start as int, d1 as int);
    lemma_reaches_step(n, edges, start as int, d1 as int, d2 as int);
    assert(order.contains(d1));
    assert(order.contains(d2));
    assert forall|k1: int, k2: int|
        0 <= k1 < order.len() && 0 <= k2 < order.len() && order[k1] == d1 && order[k2]
            == d2 implies k2 < k1 by {
        assert(edges.contains((order[k1] as int, d2 as int)));
        assert(order.take(k1).contains(d2));
        let k3 = choose|k3: int| 0 <= k3 < order.take(k1).len() && order.take(k1)[k3] == d2;
        assert(order[k3] == d2);
        if k3 != k2 {
            assert(order[k3] != order[k2] || k3 == k2);
        }
    }
}

} // verus!
