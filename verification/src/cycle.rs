use vstd::prelude::*;
use std::collections::HashSet;
use crate::deadlock::{WaitFor, graph_view, is_node_slot};

verus! {

broadcast use vstd::std_specs::hash::group_hash_axioms;

/// The state of the depth-first search: visited nodes, the nodes on the current path,
/// and the endpoints recorded for each back edge met.
pub ghost struct DfsState {
    pub visited: Set<u32>,
    pub stack: Set<u32>,
    pub found: Seq<u32>,
}

/// The adjacency list of `n` (empty when `n` has none).
pub open spec fn neighbors(g: Seq<(u32, Seq<u32>)>, n: u32) -> Seq<u32> {
    if exists|k: int| is_node_slot(g, n, k) {
        g[choose|k: int| is_node_slot(g, n, k)].1
    } else {
        Seq::empty()
    }
}

/// Every node of the graph: sources and targets.
pub open spec fn graph_nodes(g: Seq<(u32, Seq<u32>)>) -> Set<u32>
    decreases g.len(),
{
    if g.len() == 0 {
        Set::empty()
    } else {
        graph_nodes(g.drop_last()).insert(g.last().0).union(g.last().1.to_set())
    }
}

/// Visiting `node`: mark it, put it on the path, scan its neighbors, take it off the path.
/// `fuel` bounds the nesting depth; it is never exhausted when it covers the unvisited nodes.
pub open spec fn dfs_visit(g: Seq<(u32, Seq<u32>)>, node: u32, st: DfsState, fuel: int) -> DfsState
    decreases fuel, 1int, 0int,
{
    if fuel <= 0 {
        st
    } else {
        let st1 = DfsState { visited: st.visited.insert(node), stack: st.stack.insert(node), found: st.found };
        let st2 = dfs_scan(g, node, neighbors(g, node), 0, st1, fuel - 1);
        DfsState { visited: st2.visited, stack: st2.stack.remove(node), found: st2.found }
    }
}

/// Scanning the neighbors of `node` from position `i`: an unvisited neighbor is visited;
/// a neighbor on the current path closes a cycle, and both ends are recorded.
pub open spec fn dfs_scan(
    g: Seq<(u32, Seq<u32>)>,
    node: u32,
    nbrs: Seq<u32>,
    i: int,
    st: DfsState,
    fuel: int,
) -> DfsState
    decreases fuel, 2int, nbrs.len() - i,
{
    if i < 0 || i >= nbrs.len() {
        st
    } else {
        let next = nbrs[i];
        let st2 = if !st.visited.contains(next) {
            dfs_visit(g, next, st, fuel)
        } else if st.stack.contains(next) {
            DfsState { visited: st.visited, stack: st.stack, found: st.found.push(node).push(next) }
        } else {
            st
        };
        dfs_scan(g, node, nbrs, i + 1, st2, fuel)
    }
}

/// Searching from every source node of `g` from position `i` on, skipping visited ones.
pub open spec fn dfs_roots(g: Seq<(u32, Seq<u32>)>, i: int, st: DfsState, fuel: int) -> DfsState
    decreases g.len() - i,
{
    if i < 0 || i >= g.len() {
        st
    } else {
        let n = g[i].0;
        let st2 = if st.visited.contains(n) {
            st
        } else {
            dfs_visit(g, n, st, fuel)
        };
        dfs_roots(g, i + 1, st2, fuel)
    }
}

/// The back-edge endpoints recorded by a full search of `g`.
pub open spec fn cycle_marks(g: Seq<(u32, Seq<u32>)>) -> Seq<u32> {
    dfs_roots(
        g,
        0,
        DfsState { visited: Set::empty(), stack: Set::empty(), found: Seq::empty() },
        graph_nodes(g).len() as int,
    ).found
}

pub open spec fn strictly_increasing(s: Seq<u32>) -> bool {
    forall|i: int, j: int| 0 <= i < j < s.len() ==> s[i] < s[j]
}

/// `r` lists the values of `s` once each, in increasing order.
pub open spec fn sorted_distinct_of(r: Seq<u32>, s: Seq<u32>) -> bool {
    &&& strictly_increasing(r)
    &&& forall|x: u32| r.contains(x) <==> s.contains(x)
}

// ───────────────────────── lemmas ─────────────────────────

proof fn lemma_graph_nodes(g: Seq<(u32, Seq<u32>)>)
    ensures
        graph_nodes(g).finite(),
        forall|k: int| 0 <= k < g.len() ==> graph_nodes(g).contains(#[trigger] g[k].0),
        forall|k: int, j: int|
            0 <= k < g.len() && 0 <= j < g[k].1.len() ==> graph_nodes(g).contains(#[trigger] g[k].1[j]),
    decreases g.len(),
{
    if g.len() > 0 {
        let p = g.drop_last();
        lemma_graph_nodes(p);
        vstd::seq_lib::seq_to_set_is_finite(g.last().1);
        assert forall|k: int, j: int|
            0 <= k < g.len() && 0 <= j < g[k].1.len() implies graph_nodes(g).contains(#[trigger] g[k].1[j]) by {
            if k < g.len() - 1 {
                assert(p[k] == g[k]);
            } else {
                assert(g.last().1.contains(g[k].1[j]));
            }
        }
        assert forall|k: int| 0 <= k < g.len() implies graph_nodes(g).contains(#[trigger] g[k].0) by {
            if k < g.len() - 1 {
                assert(p[k] == g[k]);
            }
        }
    }
}

proof fn lemma_neighbors_in_graph(g: Seq<(u32, Seq<u32>)>, n: u32, j: int)
    requires
        0 <= j < neighbors(g, n).len(),
    ensures
        graph_nodes(g).contains(neighbors(g, n)[j]),
{
    lemma_graph_nodes(g);
    let k = choose|k: int| is_node_slot(g, n, k);
    assert(g[k].1[j] == neighbors(g, n)[j]);
}

// ───────────────────────── exec ─────────────────────────

fn neighbors_of(graph: &Vec<WaitFor>, node: u32) -> (r: Option<usize>)
    ensures
        r matches Some(k) ==> k < graph@.len() && graph@[k as int].waits_for@ == neighbors(graph_view(graph@), node)
            && is_node_slot(graph_view(graph@), node, k as int),
        r is None ==> neighbors(graph_view(graph@), node) == Seq::<u32>::empty(),
{
    let ghost gv = graph_view(graph@);
    let mut k: usize = 0;
    while k < graph.len()
        invariant
            gv == graph_view(graph@),
            k <= graph@.len(),
            forall|j: int| 0 <= j < k ==> (#[trigger] gv[j]).0 != node,
        decreases graph@.len() - k,
    {
        if graph[k].pid == node {
            proof {
                assert(is_node_slot(gv, node, k as int));
                let c = choose|c: int| is_node_slot(gv, node, c);
                if c < k {
                    assert(gv[c].0 != node);
                } else if c > k {
                    assert(gv[k as int].0 != node);
                }
            }
            return Some(k);
        }
        k = k + 1;
    }
    proof {
        if exists|c: int| is_node_slot(gv, node, c) {
            let c = choose|c: int| is_node_slot(gv, node, c);
            assert(gv[c].0 == node);
        }
    }
    None
}

/// Depth-first search from `node`, recording both ends of every back edge met. The model
/// is run with one unit of depth more than there are unvisited nodes, which it never exhausts.
fn dfs(
    node: u32,
    graph: &Vec<WaitFor>,
    visited: &mut HashSet<u32>,
    rec_stack: &mut HashSet<u32>,
    in_cycle: &mut Vec<u32>,
)
    requires
        !old(visited)@.contains(node),
        old(rec_stack)@.subset_of(old(visited)@),
    ensures
        (DfsState { visited: final(visited)@, stack: final(rec_stack)@, found: final(in_cycle)@ }) == dfs_visit(
            graph_view(graph@),
            node,
            DfsState { visited: old(visited)@, stack: old(rec_stack)@, found: old(in_cycle)@ },
            graph_nodes(graph_view(graph@)).difference(old(visited)@).len() as int + 1,
        ),
        final(visited)@.subset_of(old(visited)@.union(graph_nodes(graph_view(graph@))).insert(node)),
        old(visited)@.subset_of(final(visited)@),
        final(visited)@.contains(node),
        final(rec_stack)@ == old(rec_stack)@,
    decreases graph_nodes(graph_view(graph@)).difference(old(visited)@).len(),
{
    let ghost g = graph_view(graph@);
    let ghost u = graph_nodes(g);
    let ghost v0 = visited@;
    let ghost fuel = u.difference(v0).len() as int + 1;
    let ghost bound = v0.union(u).insert(node);
    proof {
        lemma_graph_nodes(g);
    }
    visited.insert(node);
    rec_stack.insert(node);
    let ghost st1 = DfsState { visited: visited@, stack: rec_stack@, found: in_cycle@ };
    let slot = neighbors_of(graph, node);
    match slot {
        Some(k) => {
            let nbrs = &graph[k].waits_for;
            let ghost ns = nbrs@;
            proof {
                assert(u.contains(g[k as int].0));
                assert(u.difference(st1.visited) =~= u.difference(v0).remove(node));
                assert(u.difference(v0).contains(node));
            }
            let mut i: usize = 0;
            while i < nbrs.len()
                invariant
                    g == graph_view(graph@),
                    u == graph_nodes(g),
                    u.finite(),
                    ns == nbrs@,
                    ns == neighbors(g, node),
                    i <= ns.len(),
                    dfs_scan(g, node, ns, i as int, DfsState { visited: visited@, stack: rec_stack@, found: in_cycle@ }, fuel - 1)
                        == dfs_scan(g, node, ns, 0, st1, fuel - 1),
                    visited@.subset_of(bound),
                    bound == v0.union(u).insert(node),
                    st1.visited.subset_of(visited@),
                    rec_stack@ == st1.stack,
                    st1.stack.subset_of(st1.visited),
                    u.difference(st1.visited).len() < fuel - 1,
                    fuel == u.difference(v0).len() + 1,
                    v0 == old(visited)@,
                decreases ns.len() - i,
            {
                let next = nbrs[i];
                proof {
                    lemma_neighbors_in_graph(g, node, i as int);
                }
                if !visited.contains(&next) {
                    let ghost before = DfsState { visited: visited@, stack: rec_stack@, found: in_cycle@ };
                    proof {
                        let dn = u.difference(visited@);
                        vstd::set_lib::lemma_len_subset(dn, u.difference(st1.visited));
                        assert(dn.contains(next));
                        assert(dn.remove(next).len() == dn.len() - 1);
                        assert(dn.len() < u.difference(v0).len());
                    }
                    dfs(next, graph, visited, rec_stack, in_cycle);
                    proof {
                        let dn = u.difference(before.visited);
                        lemma_visit_fuel(g, next, before, dn.len() as int, dn.len() as int + 1);
                        lemma_visit_fuel(g, next, before, dn.len() as int, fuel - 1);
                    }
                } else if rec_stack.contains(&next) {
                    in_cycle.push(node);
                    in_cycle.push(next);
                }
                i = i + 1;
            }
        },
        None => {},
    }
    rec_stack.remove(&node);
    proof {
        assert(rec_stack@ =~= old(rec_stack)@);
    }
}


/// The values of `v` once each, in increasing order.
fn sorted_distinct(v: &Vec<u32>) -> (r: Vec<u32>)
    ensures
        sorted_distinct_of(r@, v@),
{
    let mut r: Vec<u32> = Vec::new();
    let mut i: usize = 0;
    while i < v.len()
        invariant
            i <= v@.len(),
            strictly_increasing(r@),
            forall|x: u32| r@.contains(x) <==> v@.take(i as int).contains(x),
        decreases v@.len() - i,
    {
        let x = v[i];
        let mut p: usize = 0;
        while p < r.len() && r[p] < x
            invariant
                p <= r@.len(),
                forall|j: int| 0 <= j < p ==> r@[j] < x,
            decreases r@.len() - p,
        {
            p = p + 1;
        }
        let ghost old_r = r@;
        let ghost t0 = v@.take(i as int);
        let ghost t1 = v@.take(i + 1);
        proof {
            assert(t1 =~= t0.push(x));
        }
        if p < r.len() && r[p] == x {
            proof {
                assert forall|y: u32| r@.contains(y) <==> t1.contains(y) by {
                    if t1.contains(y) && y == x {
                        assert(r@[p as int] == y);
                    }
                    if t1.contains(y) && y != x {
                        let w = choose|w: int| 0 <= w < t1.len() && t1[w] == y;
                        assert(t0[w] == y);
                    }
                    if r@.contains(y) {
                        let w = choose|w: int| 0 <= w < t0.len() && t0[w] == y;
                        assert(t1[w] == y);
                    }
                }
            }
        } else {
            r.insert(p, x);
            proof {
                assert forall|a: int, b: int| 0 <= a < b < r@.len() implies r@[a] < r@[b] by {
                    if b < p {
                        assert(r@[a] == old_r[a] && r@[b] == old_r[b]);
                    } else if b == p {
                        assert(r@[a] == old_r[a]);
                    } else if a < p {
                        assert(r@[a] == old_r[a] && r@[b] == old_r[b - 1]);
                    } else if a == p {
                        assert(r@[b] == old_r[b - 1]);
                        if b - 1 > p {
                            assert(old_r[p as int] < old_r[b - 1]);
                        }
                    } else {
                        assert(r@[a] == old_r[a - 1] && r@[b] == old_r[b - 1]);
                    }
                }
                assert forall|y: u32| r@.contains(y) <==> t1.contains(y) by {
                    if r@.contains(y) {
                        let w = choose|w: int| 0 <= w < r@.len() && r@[w] == y;
                        if w < p {
                            assert(old_r[w] == y);
                        } else if w > p {
                            assert(old_r[w - 1] == y);
                        }
                        if y == x {
                            assert(t1[i as int] == y);
                        } else {
                            assert(old_r.contains(y));
                            assert(t0.contains(y));
                            let w2 = choose|w2: int| 0 <= w2 < t0.len() && t0[w2] == y;
                            assert(t1[w2] == y);
                        }
                    }
                    if t1.contains(y) {
                        if y == x {
                            assert(r@[p as int] == y);
                        } else {
                            let w = choose|w: int| 0 <= w < t1.len() && t1[w] == y;
                            assert(t0[w] == y);
                            assert(t0.contains(y));
                            assert(old_r.contains(y));
                            let w2 = choose|w2: int| 0 <= w2 < old_r.len() && old_r[w2] == y;
                            if w2 < p {
                                assert(r@[w2] == y);
                            } else {
                                assert(r@[w2 + 1] == y);
                            }
                        }
                    }
                }
            }
        }
        i = i + 1;
    }
    assert(v@.take(i as int) =~= v@);
    r
}

/// The processes found on cycles of `graph` by depth-first search, each once, in
/// increasing order: both ends of every back edge met while searching from each node in turn.
pub fn find_cycle(graph: &Vec<WaitFor>) -> (r: Vec<u32>)
    ensures
        sorted_distinct_of(r@, cycle_marks(graph_view(graph@))),
{
    let ghost g = graph_view(graph@);
    let ghost u = graph_nodes(g);
    let ghost fuel = u.len() as int;
    proof {
        lemma_graph_nodes(g);
    }
    let mut visited: HashSet<u32> = HashSet::new();
    let mut rec_stack: HashSet<u32> = HashSet::new();
    let mut in_cycle: Vec<u32> = Vec::new();
    let ghost st0 = DfsState { visited: visited@, stack: rec_stack@, found: in_cycle@ };
    proof {
        assert(st0 == DfsState { visited: Set::empty(), stack: Set::empty(), found: Seq::empty() });
    }
    let mut i: usize = 0;
    while i < graph.len()
        invariant
            g == graph_view(graph@),
            u == graph_nodes(g),
            u.finite(),
            fuel == u.len(),
            forall|k: int| 0 <= k < g.len() ==> u.contains(#[trigger] g[k].0),
            i <= graph@.len(),
            dfs_roots(g, i as int, DfsState { visited: visited@, stack: rec_stack@, found: in_cycle@ }, fuel) == dfs_roots(
                g,
                0,
                st0,
                fuel,
            ),
            visited@.subset_of(u),
            rec_stack@ == Set::<u32>::empty(),
        decreases graph@.len() - i,
    {
        let node = graph[i].pid;
        proof {
            assert(g[i as int].0 == node);
        }
        if !visited.contains(&node) {
            let ghost before = DfsState { visited: visited@, stack: rec_stack@, found: in_cycle@ };
            proof {
                let dn = u.difference(visited@);
                vstd::set_lib::lemma_len_subset(dn, u);
                assert(dn.contains(node));
                assert(dn.remove(node).len() == dn.len() - 1);
                assert(visited@.union(u).insert(node) =~= u);
            }
            dfs(node, graph, &mut visited, &mut rec_stack, &mut in_cycle);
            proof {
                let dn = u.difference(before.visited);
                lemma_visit_fuel(g, node, before, dn.len() as int, dn.len() as int + 1);
                lemma_visit_fuel(g, node, before, dn.len() as int, fuel);
            }
        }
        i = i + 1;
    }
    sorted_distinct(&in_cycle)
}

// ───────────────────────── laws ─────────────────────────

/// The edge from the `i`-th to the next node of `p` is in `g`.
pub open spec fn step_at(g: Seq<(u32, Seq<u32>)>, p: Seq<u32>, i: int) -> bool {
    neighbors(g, p[i]).contains(p[i + 1])
}

/// `p` is a path of `g`: at least one node, each next one a neighbor of the one before.
pub open spec fn is_path(g: Seq<(u32, Seq<u32>)>, p: Seq<u32>) -> bool {
    &&& p.len() >= 1
    &&& forall|i: int| 0 <= i < p.len() - 1 ==> #[trigger] step_at(g, p, i)
}

/// Some path of `g` leads from `a` to `b`.
pub open spec fn reaches(g: Seq<(u32, Seq<u32>)>, a: u32, b: u32) -> bool {
    exists|p: Seq<u32>| is_path(g, p) && p[0] == a && p[p.len() - 1] == b
}

/// `x` lies on a cycle of `g`: some path of at least one edge leads from `x` back to `x`.
pub open spec fn on_cycle(g: Seq<(u32, Seq<u32>)>, x: u32) -> bool {
    exists|p: Seq<u32>| is_path(g, p) && p.len() >= 2 && p[0] == x && p[p.len() - 1] == x
}

/// Nodes on the current path reach `node`, and every recorded node lies on a cycle.
pub open spec fn search_sound(g: Seq<(u32, Seq<u32>)>, st: DfsState, node: u32) -> bool {
    &&& forall|s: u32| #[trigger] st.stack.contains(s) ==> reaches(g, s, node)
    &&& forall|k: int| 0 <= k < st.found.len() ==> on_cycle(g, #[trigger] st.found[k])
}

proof fn lemma_path_extend(g: Seq<(u32, Seq<u32>)>, a: u32, b: u32, c: u32)
    requires
        reaches(g, a, b),
        neighbors(g, b).contains(c),
    ensures
        reaches(g, a, c),
        a == c ==> on_cycle(g, a),
{
    let p = choose|p: Seq<u32>| is_path(g, p) && p[0] == a && p[p.len() - 1] == b;
    let q = p.push(c);
    assert forall|i: int| 0 <= i < q.len() - 1 implies #[trigger] step_at(g, q, i) by {
        if i < p.len() - 1 {
            assert(step_at(g, p, i));
        }
    }
    assert(is_path(g, q) && q[0] == a && q[q.len() - 1] == c);
}

/// A back edge from `node` to `next`, where `next` reaches `node`, puts both on a cycle.
proof fn lemma_back_edge(g: Seq<(u32, Seq<u32>)>, node: u32, next: u32)
    requires
        reaches(g, next, node),
        neighbors(g, node).contains(next),
    ensures
        on_cycle(g, node),
        on_cycle(g, next),
{
    lemma_path_extend(g, next, node, next);
    let p = choose|p: Seq<u32>| is_path(g, p) && p[0] == next && p[p.len() - 1] == node;
    let q = seq![node] + p;
    assert forall|i: int| 0 <= i < q.len() - 1 implies #[trigger] step_at(g, q, i) by {
        if i > 0 {
            assert(step_at(g, p, i - 1));
            assert(q[i] == p[i - 1] && q[i + 1] == p[i]);
        }
    }
    assert(is_path(g, q) && q.len() >= 2 && q[0] == node && q[q.len() - 1] == node);
}

proof fn lemma_visit_sound(g: Seq<(u32, Seq<u32>)>, node: u32, st: DfsState, fuel: int)
    requires
        search_sound(g, st, node),
    ensures
        dfs_visit(g, node, st, fuel).stack.subset_of(st.stack),
        forall|k: int|
            0 <= k < dfs_visit(g, node, st, fuel).found.len() ==> on_cycle(g, #[trigger] dfs_visit(g, node, st, fuel).found[k]),
    decreases fuel, 1int, 0int,
{
    if fuel > 0 {
        let st1 = DfsState { visited: st.visited.insert(node), stack: st.stack.insert(node), found: st.found };
        assert(reaches(g, node, node)) by {
            assert(is_path(g, seq![node]));
        }
        lemma_scan_sound(g, node, neighbors(g, node), 0, st1, fuel - 1);
    }
}

proof fn lemma_scan_sound(
    g: Seq<(u32, Seq<u32>)>,
    node: u32,
    nbrs: Seq<u32>,
    i: int,
    st: DfsState,
    fuel: int,
)
    requires
        nbrs == neighbors(g, node),
        search_sound(g, st, node),
    ensures
        dfs_scan(g, node, nbrs, i, st, fuel).stack.subset_of(st.stack),
        forall|k: int|
            0 <= k < dfs_scan(g, node, nbrs, i, st, fuel).found.len() ==> on_cycle(
                g,
                #[trigger] dfs_scan(g, node, nbrs, i, st, fuel).found[k],
            ),
    decreases fuel, 2int, nbrs.len() - i,
{
    if 0 <= i < nbrs.len() {
        let next = nbrs[i];
        assert(neighbors(g, node).contains(next));
        if !st.visited.contains(next) {
            assert forall|s: u32| #[trigger] st.stack.contains(s) implies reaches(g, s, next) by {
                lemma_path_extend(g, s, node, next);
            }
            lemma_visit_sound(g, next, st, fuel);
            let st2 = dfs_visit(g, next, st, fuel);
            lemma_scan_sound(g, node, nbrs, i + 1, st2, fuel);
        } else if st.stack.contains(next) {
            lemma_back_edge(g, node, next);
            let st2 = DfsState { visited: st.visited, stack: st.stack, found: st.found.push(node).push(next) };
            assert forall|k: int| 0 <= k < st2.found.len() implies on_cycle(g, #[trigger] st2.found[k]) by {
                if k < st.found.len() {
                    assert(st2.found[k] == st.found[k]);
                }
            }
            lemma_scan_sound(g, node, nbrs, i + 1, st2, fuel);
        } else {
            lemma_scan_sound(g, node, nbrs, i + 1, st, fuel);
        }
    }
}

proof fn lemma_roots_sound(g: Seq<(u32, Seq<u32>)>, i: int, st: DfsState, fuel: int)
    requires
        st.stack == Set::<u32>::empty(),
        forall|k: int| 0 <= k < st.found.len() ==> on_cycle(g, #[trigger] st.found[k]),
    ensures
        forall|k: int|
            0 <= k < dfs_roots(g, i, st, fuel).found.len() ==> on_cycle(g, #[trigger] dfs_roots(g, i, st, fuel).found[k]),
    decreases g.len() - i,
{
    if 0 <= i < g.len() {
        let n = g[i].0;
        if st.visited.contains(n) {
            lemma_roots_sound(g, i + 1, st, fuel);
            assert(dfs_roots(g, i, st, fuel) == dfs_roots(g, i + 1, st, fuel));
        } else {
            assert(search_sound(g, st, n));
            lemma_visit_sound(g, n, st, fuel);
            let st2 = dfs_visit(g, n, st, fuel);
            assert(st2.stack =~= Set::<u32>::empty());
            lemma_roots_sound(g, i + 1, st2, fuel);
            assert(dfs_roots(g, i, st, fuel) == dfs_roots(g, i + 1, st2, fuel));
        }
    }
}

/// Every node that the search reports lies on a cycle of the graph.
pub proof fn law_cycle_marks_on_cycles(g: Seq<(u32, Seq<u32>)>, x: u32)
    requires
        cycle_marks(g).contains(x),
    ensures
        on_cycle(g, x),
{
    let st = DfsState { visited: Set::empty(), stack: Set::empty(), found: Seq::empty() };
    lemma_roots_sound(g, 0, st, graph_nodes(g).len() as int);
}

/// The finished nodes of a search: visited and no longer on the current path.
pub open spec fn finished(st: DfsState) -> Set<u32> {
    st.visited.difference(st.stack)
}

/// Every neighbor of a node of `f` is in `f`.
pub open spec fn closed(g: Seq<(u32, Seq<u32>)>, f: Set<u32>) -> bool {
    forall|u: u32, j: int| f.contains(u) && 0 <= j < neighbors(g, u).len() ==> f.contains(#[trigger] neighbors(g, u)[j])
}

/// Every node of `p` is in `f`.
pub open spec fn inside(f: Set<u32>, p: Seq<u32>) -> bool {
    forall|i: int| 0 <= i < p.len() ==> f.contains(#[trigger] p[i])
}

/// No cycle of `g` runs through nodes of `f` only.
pub open spec fn acyclic_in(g: Seq<(u32, Seq<u32>)>, f: Set<u32>) -> bool {
    forall|p: Seq<u32>| #[trigger] is_path(g, p) && p.len() >= 2 && p[0] == p[p.len() - 1] ==> !inside(f, p)
}

/// A path that enters a closed set stays in it.
proof fn lemma_path_stays(g: Seq<(u32, Seq<u32>)>, f: Set<u32>, p: Seq<u32>, a: int, j: int)
    requires
        is_path(g, p),
        closed(g, f),
        0 <= a <= j < p.len(),
        f.contains(p[a]),
    ensures
        f.contains(p[j]),
    decreases j - a,
{
    if j > a {
        lemma_path_stays(g, f, p, a, j - 1);
        assert(step_at(g, p, j - 1));
        let ns = neighbors(g, p[j - 1]);
        let k = choose|k: int| 0 <= k < ns.len() && #[trigger] ns[k] == p[j];
        assert(f.contains(ns[k]));
    }
}

/// Finishing `node`, all of whose neighbors are finished, keeps the finished nodes closed
/// and free of cycles.
proof fn lemma_finish_node(g: Seq<(u32, Seq<u32>)>, f: Set<u32>, node: u32)
    requires
        closed(g, f),
        acyclic_in(g, f),
        !f.contains(node),
        forall|j: int| 0 <= j < neighbors(g, node).len() ==> f.contains(#[trigger] neighbors(g, node)[j]),
    ensures
        closed(g, f.insert(node)),
        acyclic_in(g, f.insert(node)),
{
    let f2 = f.insert(node);
    assert forall|u: u32, j: int| f2.contains(u) && 0 <= j < neighbors(g, u).len() implies f2.contains(
        #[trigger] neighbors(g, u)[j],
    ) by {
        if u != node {
            assert(f.contains(neighbors(g, u)[j]));
        }
    }
    assert forall|p: Seq<u32>| #[trigger] is_path(g, p) && p.len() >= 2 && p[0] == p[p.len() - 1] implies !inside(f2, p) by {
        if inside(f2, p) {
            if inside(f, p) {
                assert(!inside(f, p));
            } else {
                let k0 = choose|k: int| 0 <= k < p.len() && !f.contains(#[trigger] p[k]);
                assert(f2.contains(p[k0]));
                assert(p[k0] == node);
                let k = if k0 == p.len() - 1 { 0 } else { k0 };
                assert(p[k] == node);
                assert(step_at(g, p, k));
                let ns = neighbors(g, node);
                let m = choose|m: int| 0 <= m < ns.len() && #[trigger] ns[m] == p[k + 1];
                assert(f.contains(ns[m]));
                lemma_path_stays(g, f, p, k + 1, p.len() - 1);
                lemma_path_stays(g, f, p, 0, k);
            }
        }
    }
}

/// A search from `node` that meets no back edge finishes `node` and keeps the finished
/// nodes closed and free of cycles; it never forgets what it recorded.
proof fn lemma_visit_clean(g: Seq<(u32, Seq<u32>)>, node: u32, st: DfsState, fuel: int)
    requires
        graph_nodes(g).finite(),
        graph_nodes(g).contains(node),
        !st.visited.contains(node),
        st.visited.subset_of(graph_nodes(g)),
        st.stack.subset_of(st.visited),
        st.visited.len() + fuel >= graph_nodes(g).len(),
        closed(g, finished(st)),
        acyclic_in(g, finished(st)),
    ensures
        ({
            let r = dfs_visit(g, node, st, fuel);
            &&& r.found.len() >= st.found.len()
            &&& r.found.len() == st.found.len() ==> {
                &&& closed(g, finished(r))
                &&& acyclic_in(g, finished(r))
                &&& r.stack == st.stack
                &&& st.visited.subset_of(r.visited)
                &&& r.visited.subset_of(graph_nodes(g))
                &&& r.visited.contains(node)
            }
        }),
    decreases fuel, 1int, 0int,
{
    let u = graph_nodes(g);
    vstd::set_lib::lemma_len_subset(st.visited.insert(node), u);
    let st1 = DfsState { visited: st.visited.insert(node), stack: st.stack.insert(node), found: st.found };
    assert(finished(st1) =~= finished(st));
    lemma_scan_clean(g, node, neighbors(g, node), 0, st1, fuel - 1);
    let r2 = dfs_scan(g, node, neighbors(g, node), 0, st1, fuel - 1);
    if r2.found.len() == st.found.len() {
        assert(!finished(r2).contains(node));
        lemma_finish_node(g, finished(r2), node);
        let r = DfsState { visited: r2.visited, stack: r2.stack.remove(node), found: r2.found };
        assert(finished(r) =~= finished(r2).insert(node));
        assert(r.stack =~= st.stack);
    }
}

/// Scanning the neighbors of `node` from position `i` without meeting a back edge leaves
/// every neighbor finished and the finished nodes closed and free of cycles.
proof fn lemma_scan_clean(
    g: Seq<(u32, Seq<u32>)>,
    node: u32,
    nbrs: Seq<u32>,
    i: int,
    st: DfsState,
    fuel: int,
)
    requires
        nbrs == neighbors(g, node),
        0 <= i <= nbrs.len(),
        graph_nodes(g).finite(),
        st.visited.subset_of(graph_nodes(g)),
        st.stack.subset_of(st.visited),
        st.stack.contains(node),
        st.visited.len() + fuel >= graph_nodes(g).len(),
        closed(g, finished(st)),
        acyclic_in(g, finished(st)),
        forall|j: int| 0 <= j < i ==> finished(st).contains(#[trigger] nbrs[j]),
    ensures
        ({
            let r = dfs_scan(g, node, nbrs, i, st, fuel);
            &&& r.found.len() >= st.found.len()
            &&& r.found.len() == st.found.len() ==> {
                &&& closed(g, finished(r))
                &&& acyclic_in(g, finished(r))
                &&& r.stack == st.stack
                &&& st.visited.subset_of(r.visited)
                &&& r.visited.subset_of(graph_nodes(g))
                &&& forall|j: int| 0 <= j < nbrs.len() ==> finished(r).contains(#[trigger] nbrs[j])
            }
        }),
    decreases fuel, 2int, nbrs.len() - i,
{
    if i < nbrs.len() {
        let next = nbrs[i];
        lemma_neighbors_in_graph(g, node, i);
        if !st.visited.contains(next) {
            lemma_visit_clean(g, next, st, fuel);
            let st2 = dfs_visit(g, next, st, fuel);
            if st2.found.len() == st.found.len() {
                vstd::set_lib::lemma_len_subset(st.visited, st2.visited);
                assert forall|j: int| 0 <= j < i + 1 implies finished(st2).contains(#[trigger] nbrs[j]) by {
                    if j < i {
                        assert(finished(st).contains(nbrs[j]));
                    }
                }
                lemma_scan_clean(g, node, nbrs, i + 1, st2, fuel);
            } else {
                lemma_scan_grows(g, node, nbrs, i + 1, st2, fuel);
            }
        } else if st.stack.contains(next) {
            let st2 = DfsState { visited: st.visited, stack: st.stack, found: st.found.push(node).push(next) };
            lemma_scan_grows(g, node, nbrs, i + 1, st2, fuel);
        } else {
            lemma_scan_clean(g, node, nbrs, i + 1, st, fuel);
        }
    }
}

/// The search never forgets what it recorded, nor which nodes it visited.
proof fn lemma_visit_grows(g: Seq<(u32, Seq<u32>)>, node: u32, st: DfsState, fuel: int)
    ensures
        dfs_visit(g, node, st, fuel).found.len() >= st.found.len(),
        st.visited.subset_of(dfs_visit(g, node, st, fuel).visited),
    decreases fuel, 1int, 0int,
{
    if fuel > 0 {
        let st1 = DfsState { visited: st.visited.insert(node), stack: st.stack.insert(node), found: st.found };
        lemma_scan_grows(g, node, neighbors(g, node), 0, st1, fuel - 1);
    }
}

proof fn lemma_scan_grows(g: Seq<(u32, Seq<u32>)>, node: u32, nbrs: Seq<u32>, i: int, st: DfsState, fuel: int)
    ensures
        dfs_scan(g, node, nbrs, i, st, fuel).found.len() >= st.found.len(),
        st.visited.subset_of(dfs_scan(g, node, nbrs, i, st, fuel).visited),
    decreases fuel, 2int, nbrs.len() - i,
{
    if 0 <= i < nbrs.len() {
        let next = nbrs[i];
        if !st.visited.contains(next) {
            lemma_visit_grows(g, next, st, fuel);
            lemma_scan_grows(g, node, nbrs, i + 1, dfs_visit(g, next, st, fuel), fuel);
        } else if st.stack.contains(next) {
            let st2 = DfsState { visited: st.visited, stack: st.stack, found: st.found.push(node).push(next) };
            lemma_scan_grows(g, node, nbrs, i + 1, st2, fuel);
        } else {
            lemma_scan_grows(g, node, nbrs, i + 1, st, fuel);
        }
    }
}

/// A node outside the graph has no neighbors.
proof fn lemma_outside_no_neighbors(g: Seq<(u32, Seq<u32>)>, n: u32)
    requires
        !graph_nodes(g).contains(n),
    ensures
        neighbors(g, n) == Seq::<u32>::empty(),
{
    lemma_graph_nodes(g);
    if exists|k: int| is_node_slot(g, n, k) {
        let k = choose|k: int| is_node_slot(g, n, k);
        assert(graph_nodes(g).contains(g[k].0));
    }
}

/// Fuel beyond what covers the unvisited nodes changes nothing in a search.
proof fn lemma_visit_fuel(g: Seq<(u32, Seq<u32>)>, node: u32, st: DfsState, f1: int, f2: int)
    requires
        graph_nodes(g).finite(),
        !st.visited.contains(node),
        graph_nodes(g).difference(st.visited).len() <= f1 <= f2,
        f1 >= 1,
    ensures
        dfs_visit(g, node, st, f1) == dfs_visit(g, node, st, f2),
    decreases f1, 1int, 0int,
{
    let u = graph_nodes(g);
    let st1 = DfsState { visited: st.visited.insert(node), stack: st.stack.insert(node), found: st.found };
    if u.contains(node) {
        assert(u.difference(st1.visited) =~= u.difference(st.visited).remove(node));
        lemma_scan_fuel(g, node, neighbors(g, node), 0, st1, f1 - 1, f2 - 1);
    } else {
        lemma_outside_no_neighbors(g, node);
    }
}

proof fn lemma_scan_fuel(g: Seq<(u32, Seq<u32>)>, node: u32, nbrs: Seq<u32>, i: int, st: DfsState, f1: int, f2: int)
    requires
        graph_nodes(g).finite(),
        nbrs == neighbors(g, node),
        0 <= i,
        graph_nodes(g).difference(st.visited).len() <= f1 <= f2,
    ensures
        dfs_scan(g, node, nbrs, i, st, f1) == dfs_scan(g, node, nbrs, i, st, f2),
    decreases f1, 2int, nbrs.len() - i,
{
    let u = graph_nodes(g);
    if i < nbrs.len() {
        let next = nbrs[i];
        lemma_neighbors_in_graph(g, node, i);
        if !st.visited.contains(next) {
            let d = u.difference(st.visited);
            assert(d.contains(next));
            assert(d.remove(next).len() == d.len() - 1);
            lemma_visit_fuel(g, next, st, f1, f2);
            let st2 = dfs_visit(g, next, st, f1);
            lemma_visit_grows(g, next, st, f1);
            vstd::set_lib::lemma_len_subset(u.difference(st2.visited), d);
            lemma_scan_fuel(g, node, nbrs, i + 1, st2, f1, f2);
        } else if st.stack.contains(next) {
            let st2 = DfsState { visited: st.visited, stack: st.stack, found: st.found.push(node).push(next) };
            lemma_scan_fuel(g, node, nbrs, i + 1, st2, f1, f2);
        } else {
            lemma_scan_fuel(g, node, nbrs, i + 1, st, f1, f2);
        }
    }
}

proof fn lemma_roots_grows(g: Seq<(u32, Seq<u32>)>, i: int, st: DfsState, fuel: int)
    ensures
        dfs_roots(g, i, st, fuel).found.len() >= st.found.len(),
    decreases g.len() - i,
{
    if 0 <= i < g.len() {
        let n = g[i].0;
        if st.visited.contains(n) {
            lemma_roots_grows(g, i + 1, st, fuel);
        } else {
            lemma_visit_grows(g, n, st, fuel);
            lemma_roots_grows(g, i + 1, dfs_visit(g, n, st, fuel), fuel);
        }
    }
}

/// Searching from every source without meeting a back edge visits every source and
/// leaves the visited nodes closed and free of cycles.
proof fn lemma_roots_clean(g: Seq<(u32, Seq<u32>)>, i: int, st: DfsState, fuel: int)
    requires
        0 <= i <= g.len(),
        graph_nodes(g).finite(),
        st.visited.subset_of(graph_nodes(g)),
        st.stack == Set::<u32>::empty(),
        st.visited.len() + fuel >= graph_nodes(g).len(),
        closed(g, finished(st)),
        acyclic_in(g, finished(st)),
        forall|k: int| 0 <= k < i ==> st.visited.contains(#[trigger] g[k].0),
    ensures
        ({
            let r = dfs_roots(g, i, st, fuel);
            r.found.len() == st.found.len() ==> {
                &&& closed(g, r.visited)
                &&& acyclic_in(g, r.visited)
                &&& forall|k: int| 0 <= k < g.len() ==> r.visited.contains(#[trigger] g[k].0)
            }
        }),
    decreases g.len() - i,
{
    lemma_graph_nodes(g);
    if i < g.len() {
        let n = g[i].0;
        if st.visited.contains(n) {
            lemma_roots_clean(g, i + 1, st, fuel);
        } else {
            lemma_visit_clean(g, n, st, fuel);
            let st2 = dfs_visit(g, n, st, fuel);
            if st2.found.len() == st.found.len() {
                vstd::set_lib::lemma_len_subset(st.visited, st2.visited);
                lemma_roots_clean(g, i + 1, st2, fuel);
            } else {
                lemma_roots_grows(g, i + 1, st2, fuel);
            }
        }
    } else {
        assert(finished(st) =~= st.visited);
    }
}

/// When the graph has a cycle, the search reports at least one node.
pub proof fn law_cycle_found(g: Seq<(u32, Seq<u32>)>, x: u32)
    requires
        on_cycle(g, x),
    ensures
        cycle_marks(g).len() > 0,
{
    lemma_graph_nodes(g);
    let st = DfsState { visited: Set::empty(), stack: Set::empty(), found: Seq::empty() };
    assert(finished(st) =~= Set::<u32>::empty());
    lemma_roots_clean(g, 0, st, graph_nodes(g).len() as int);
    let r = dfs_roots(g, 0, st, graph_nodes(g).len() as int);
    if r.found.len() == 0 {
        let p = choose|p: Seq<u32>| is_path(g, p) && p.len() >= 2 && p[0] == x && p[p.len() - 1] == x;
        assert(step_at(g, p, 0));
        assert(neighbors(g, p[0]).len() > 0);
        let k = choose|k: int| is_node_slot(g, p[0], k);
        assert(r.visited.contains(g[k].0));
        assert forall|j: int| 0 <= j < p.len() implies r.visited.contains(#[trigger] p[j]) by {
            lemma_path_stays(g, r.visited, p, 0, j);
        }
        assert(inside(r.visited, p));
    }
}

} // verus!
