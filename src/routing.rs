use vstd::prelude::*;
use vstd::set_lib::{lemma_len_subset, lemma_int_range, set_int_range};

use crate::graph::Graph;
use crate::vector3::{Vector3, fine_dist, lemma_fine_dist_triangle};

verus! {

/// What every search returns for a search from `s` to `t`: a path exactly
/// when `t` can be reached from `s`, and the single node when `s == t`.
pub open spec fn is_search_result(g: &Graph, s: int, t: int, r: Option<Vec<i32>>) -> bool {
    &&& (r is Some <==> g.reachable(s, t))
    &&& (r matches Some(p) ==> g.is_path(p@, s, t) && p@.no_duplicates())
    &&& (s == t ==> (r matches Some(p) && p@ == seq![s as i32]))
}

/// `p` is a cheapest path from `s` to `t`.
pub open spec fn is_shortest_path(g: &Graph, p: Seq<i32>, s: int, t: int) -> bool {
    &&& g.is_path(p, s, t)
    &&& forall|q: Seq<i32>| g.is_path(q, s, t) ==> g.path_cost(p) <= #[trigger] g.path_cost(q)
}

/// The parent links of the settled nodes form a tree rooted at `s`: each
/// settled node other than `s` hangs by an edge from a node settled earlier,
/// and `d` adds up the edge lengths along it.
pub open spec fn parent_tree(
    g: &Graph,
    s: int,
    done: Seq<bool>,
    parent: Seq<i32>,
    rank: Seq<int>,
    d: Seq<int>,
) -> bool {
    &&& done.len() == g.len()
    &&& parent.len() == g.len()
    &&& rank.len() == g.len()
    &&& d.len() == g.len()
    &&& (done[s] ==> parent[s] == -1 && d[s] == 0)
    &&& forall|v: int| 0 <= v < g.len() && #[trigger] done[v] ==> rank[v] >= 0
    &&& forall|v: int|
        0 <= v < g.len() && #[trigger] done[v] && v != s ==> {
            let p = parent[v] as int;
            &&& g.valid_id(p)
            &&& done[p]
            &&& g.has_edge(p, v)
            &&& rank[p] < rank[v]
            &&& d[v] == d[p] + g.weight(p, v)
        }
}

/// No edge leaves the set `vis`.
pub open spec fn closed_set(g: &Graph, vis: Seq<bool>) -> bool {
    forall|x: int, j: int|
        0 <= x < g.len() && vis[x] && 0 <= j < g.adj(x).len() ==> vis[#[trigger] g.adj(x)[j] as int]
}

/// A set that holds `s`, not `t`, and that no edge leaves, separates `t` from `s`.
pub proof fn lemma_closed_set_separates(g: &Graph, vis: Seq<bool>, s: int, t: int)
    requires
        g.wf(),
        vis.len() == g.len(),
        closed_set(g, vis),
        vis[s],
        !vis[t],
    ensures
        !g.reachable(s, t),
{
    assert forall|p: Seq<i32>| !g.is_path(p, s, t) by {
        if g.is_path(p, s, t) {
            lemma_path_prefix_in(g, vis, p, p.len() - 1);
        }
    }
}

proof fn lemma_path_prefix_in(g: &Graph, vis: Seq<bool>, p: Seq<i32>, i: int)
    requires
        g.wf(),
        vis.len() == g.len(),
        closed_set(g, vis),
        p.len() > 0,
        vis[p[0] as int],
        forall|k: int| 0 <= k < p.len() ==> g.valid_id(#[trigger] p[k] as int),
        forall|k: int| 0 <= k < p.len() - 1 ==> #[trigger] g.has_edge(p[k] as int, p[k + 1] as int),
        0 <= i < p.len(),
    ensures
        vis[p[i] as int],
    decreases i,
{
    if i > 0 {
        lemma_path_prefix_in(g, vis, p, i - 1);
        let k = i - 1;
        assert(g.has_edge(p[k] as int, p[k + 1] as int));
        let a = p[k] as int;
        let j = choose|j: int| 0 <= j < g.adj(a).len() && g.adj(a)[j] == p[i];
        assert(vis[g.adj(a)[j] as int]);
    }
}

/// An edge into the first node of a path extends the path backwards.
proof fn lemma_path_prepend(g: &Graph, n: i32, p: Seq<i32>, t: int)
    requires
        g.wf(),
        g.is_path(p, p[0] as int, t),
        g.has_edge(n as int, p[0] as int),
    ensures
        g.is_path(seq![n] + p, n as int, t),
        g.path_cost(seq![n] + p) == g.weight(n as int, p[0] as int) + g.path_cost(p),
{
    let q = seq![n] + p;
    g.lemma_path_cost_prepend(n, p);
    assert forall|i: int| 0 <= i < q.len() - 1 implies #[trigger] g.has_edge(
        q[i] as int,
        q[i + 1] as int,
    ) by {
        if i > 0 {
            let k = i - 1;
            assert(q[i] == p[k] && q[i + 1] == p[k + 1]);
            assert(g.has_edge(p[k] as int, p[k + 1] as int));
        }
    }
    assert forall|i: int| 0 <= i < q.len() implies g.valid_id(#[trigger] q[i] as int) by {
        if i > 0 {
            assert(q[i] == p[i - 1]);
        }
    }
}

/// A vector of `n` copies of `x`.
fn filled<T: Copy>(x: T, n: usize) -> (r: Vec<T>)
    ensures
        r@ == Seq::new(n as nat, |i: int| x),
{
    let mut v: Vec<T> = Vec::new();
    let mut i: usize = 0;
    while i < n
        invariant
            i <= n,
            v@ == Seq::new(i as nat, |k: int| x),
        decreases n - i,
    {
        v.push(x);
        i += 1;
        assert(v@ =~= Seq::new(i as nat, |k: int| x));
    }
    v
}

/// The path that the links `parent` lead along to node `v`, from the node
/// whose parent is -1, taking at most `fuel` nodes.
pub open spec fn parent_walk(parent: Seq<i32>, v: int, fuel: nat) -> Seq<i32>
    decreases fuel,
{
    if fuel == 0 || v < 0 || v >= parent.len() {
        Seq::empty()
    } else if parent[v] == -1 {
        seq![v as i32]
    } else {
        parent_walk(parent, parent[v] as int, (fuel - 1) as nat).push(v as i32)
    }
}

#[verifier::rlimit(100)]
/// Walks the parent links back from `end` to `start` and returns the nodes
/// met, in order from `start` to `end`.
fn build_path(
    g: &Graph,
    parent: &Vec<i32>,
    start: i32,
    end: i32,
    Ghost(done): Ghost<Seq<bool>>,
    Ghost(rank): Ghost<Seq<int>>,
    Ghost(d): Ghost<Seq<int>>,
) -> (r: Vec<i32>)
    requires
        g.wf(),
        g.valid_id(start as int),
        g.valid_id(end as int),
        parent_tree(g, start as int, done, parent@, rank, d),
        done[end as int],
        forall|v: int| 0 <= v < g.len() && #[trigger] done[v] ==> rank[v] < g.len(),
    ensures
        g.is_path(r@, start as int, end as int),
        g.path_cost(r@) == d[end as int],
        start == end ==> r@ == seq![start],
        r@.no_duplicates(),
        r@ == parent_walk(parent@, end as int, g.len() as nat),
{
    let mut back: Vec<i32> = Vec::new();
    let ghost mut rev: Seq<i32> = Seq::empty();
    let mut n: i32 = end;
    while n != -1
        invariant
            g.wf(),
            g.valid_id(start as int),
            g.valid_id(end as int),
            parent_tree(g, start as int, done, parent@, rank, d),
            n != -1 ==> g.valid_id(n as int) && done[n as int],
            rev.len() == back@.len(),
            forall|i: int| 0 <= i < rev.len() ==> #[trigger] back@[i] == rev[rev.len() - 1 - i],
            rev.len() == 0 ==> n == end,
            rev.len() > 0 ==> g.is_path(rev, rev[0] as int, end as int) && d[end as int] == d[rev[0] as int]
                + g.path_cost(rev),
            rev.len() > 0 && n != -1 ==> g.has_edge(n as int, rev[0] as int) && d[rev[0] as int]
                == d[n as int] + g.weight(n as int, rev[0] as int),
            rev.len() > 0 && n == -1 ==> rev[0] == start,
            rev.len() > 0 ==> done[rev[0] as int],
            forall|i: int, j: int| 0 <= i < j < rev.len() ==> rank[rev[i] as int] < rank[rev[j] as int],
            rev.len() > 0 && n != -1 ==> rank[n as int] < rank[rev[0] as int],
            forall|v: int| 0 <= v < g.len() && #[trigger] done[v] ==> rank[v] < g.len(),
            done[end as int],
            rank[end as int] < g.len(),
            rev.len() > 0 ==> rank[rev[0] as int] + rev.len() - 1 <= rank[end as int],
            n != -1 ==> rev.len() < g.len() && parent_walk(parent@, end as int, g.len() as nat)
                == parent_walk(parent@, n as int, (g.len() - rev.len()) as nat) + rev,
            n == -1 ==> parent_walk(parent@, end as int, g.len() as nat) == rev,
            start == end ==> rev.len() == 0 || (rev == seq![start] && n == -1),
        decreases (if n == -1 { 0 } else { rank[n as int] + 1 }),
    {
        back.push(n);
        let ghost old_rev = rev;
        proof {
            let f = (g.len() - old_rev.len()) as nat;
            let nx = parent@[n as int];
            if nx == -1 {
                assert(parent_walk(parent@, n as int, f) == seq![n]);
                assert(seq![n] + old_rev =~= seq![n] + old_rev);
            } else {
                assert(parent_walk(parent@, n as int, f) == parent_walk(parent@, nx as int, (f - 1) as nat).push(n));
                assert(parent_walk(parent@, nx as int, (f - 1) as nat).push(n) + old_rev =~= parent_walk(parent@, nx as int, (f - 1) as nat) + (seq![n] + old_rev));
                assert(n != start);
                assert(rank[nx as int] < rank[n as int]);
                assert(rank[nx as int] >= 0);
                assert(rank[end as int] < g.len());
                if old_rev.len() > 0 {
                    assert(rank[old_rev[0] as int] + old_rev.len() - 1 <= rank[end as int]);
                    assert(rank[n as int] < rank[old_rev[0] as int]);
                } else {
                    assert(n == end);
                }
                assert(old_rev.len() + 1 < g.len());
            }
            rev = seq![n] + rev;
            if old_rev.len() > 0 {
                lemma_path_prepend(g, n, old_rev, end as int);
            } else {
                assert(g.path_cost(rev) == 0);
            }
            assert forall|i: int, j: int| 0 <= i < j < rev.len() implies rank[rev[i] as int] < rank[rev[j] as int] by {
                if i > 0 {
                    assert(rev[i] == old_rev[i - 1] && rev[j] == old_rev[j - 1]);
                } else if j > 1 {
                    assert(rev[j] == old_rev[j - 1]);
                    assert(rank[old_rev[0] as int] < rank[old_rev[j - 1] as int]);
                }
            }
            assert forall|i: int| 0 <= i < rev.len() implies #[trigger] back@[i] == rev[rev.len()
                - 1 - i] by {
                if i < rev.len() - 1 {
                    assert(back@[i] == old_rev[old_rev.len() - 1 - i]);
                }
            }
        }
        n = parent[n as usize];
    }
    let mut path: Vec<i32> = Vec::new();
    let mut i: usize = back.len();
    while i > 0
        invariant
            i <= back@.len(),
            rev.len() == back@.len(),
            forall|k: int| 0 <= k < rev.len() ==> #[trigger] back@[k] == rev[rev.len() - 1 - k],
            path@ == rev.subrange(0, rev.len() - i),
        decreases i,
    {
        i -= 1;
        path.push(back[i]);
        assert(path@ =~= rev.subrange(0, rev.len() - i));
    }
    assert(path@ =~= rev);
    assert forall|i: int, j: int| 0 <= i < rev.len() && 0 <= j < rev.len() && i != j implies rev[i] != rev[j] by {
        if i < j {
            assert(rank[rev[i] as int] < rank[rev[j] as int]);
        } else {
            assert(rank[rev[j] as int] < rank[rev[i] as int]);
        }
    }
    path
}

/// The state of a depth-first search: the stack of entries (a node and
/// the node it was reached from, -1 for the start), the visited marks, the
/// parent links, and whether the end node has been reached.
pub type DfsState = (Seq<(i32, i32)>, Seq<bool>, Seq<i32>, bool);

/// The search is over: the end was reached or the stack ran empty.
pub open spec fn dfs_over(st: DfsState) -> bool {
    st.3 || st.0.len() == 0
}

/// One step of the search: pop the top entry; skip it if its node was
/// visited; else mark the node, record where it was reached from, stop if
/// it is `end`, and push its neighbours in list order, so that the last one
/// listed is popped next.
pub open spec fn dfs_step(g: &Graph, end: int, st: DfsState) -> DfsState {
    if dfs_over(st) {
        st
    } else {
        let (v, p) = st.0.last();
        let rest = st.0.drop_last();
        if st.1[v as int] {
            (rest, st.1, st.2, false)
        } else {
            let vis = st.1.update(v as int, true);
            let par = st.2.update(v as int, p);
            if v == end {
                (rest, vis, par, true)
            } else {
                (rest + g.adj(v as int).map_values(|o: i32| (o, v)), vis, par, false)
            }
        }
    }
}

/// The state after `k` steps.
pub open spec fn dfs_run(g: &Graph, end: int, st: DfsState, k: nat) -> DfsState
    decreases k,
{
    if k == 0 {
        st
    } else {
        dfs_step(g, end, dfs_run(g, end, st, (k - 1) as nat))
    }
}

/// The state before the first step from `start`.
pub open spec fn dfs_start(g: &Graph, start: int) -> DfsState {
    (
        seq![(start as i32, -1i32)],
        Seq::new(g.len() as nat, |i: int| false),
        Seq::new(g.len() as nat, |i: int| -1i32),
        false,
    )
}

/// What depth-first search returns: the parent walk to `end` in the state
/// where the search is over, if it reached `end`.
pub open spec fn dfs_result(g: &Graph, start: int, end: int) -> Option<Seq<i32>> {
    let k = choose|k: nat| dfs_over(#[trigger] dfs_run(g, end, dfs_start(g, start), k));
    let st = dfs_run(g, end, dfs_start(g, start), k);
    if st.3 {
        Some(parent_walk(st.2, end, g.len() as nat))
    } else {
        None
    }
}

/// Once over, the search stays in the same state.
proof fn lemma_dfs_run_stays(g: &Graph, end: int, st: DfsState, k1: nat, k2: nat)
    requires
        dfs_over(dfs_run(g, end, st, k1)),
        k1 <= k2,
    ensures
        dfs_run(g, end, st, k2) == dfs_run(g, end, st, k1),
    decreases k2,
{
    if k2 > k1 {
        lemma_dfs_run_stays(g, end, st, k1, (k2 - 1) as nat);
    }
}

/// The state reached after `c` steps is the one `dfs_result` reads, when
/// the search is over there and not before.
proof fn lemma_dfs_result_at(g: &Graph, start: int, end: int, c: nat)
    requires
        dfs_over(dfs_run(g, end, dfs_start(g, start), c)),
        c == 0 || !dfs_over(dfs_run(g, end, dfs_start(g, start), (c - 1) as nat)),
    ensures
        dfs_result(g, start, end) == (if dfs_run(g, end, dfs_start(g, start), c).3 {
            Some(parent_walk(dfs_run(g, end, dfs_start(g, start), c).2, end, g.len() as nat))
        } else {
            None
        }),
{
    let st0 = dfs_start(g, start);
    let k = choose|k: nat| dfs_over(#[trigger] dfs_run(g, end, st0, k));
    if k >= c {
        lemma_dfs_run_stays(g, end, st0, c, k);
    } else {
        lemma_dfs_run_stays(g, end, st0, k, (c - 1) as nat);
    }
}

/// The stack holds node `y`.
pub open spec fn on_stack(stack: Seq<(i32, i32)>, y: int) -> bool {
    exists|k: int| 0 <= k < stack.len() && (#[trigger] stack[k]).0 == y
}

/// A stack entry: a node, and the visited node it was reached from
/// (-1 for the start node).
pub open spec fn entry_ok(g: &Graph, s: int, vis: Seq<bool>, e: (i32, i32)) -> bool {
    &&& g.valid_id(e.0 as int)
    &&& (e.1 == -1 ==> e.0 == s)
    &&& (e.1 != -1 ==> g.valid_id(e.1 as int) && vis[e.1 as int] && g.has_edge(
        e.1 as int,
        e.0 as int,
    ))
}

/// Every neighbour of a visited node is visited or waits on the stack.
pub open spec fn dfs_frontier(g: &Graph, vis: Seq<bool>, stack: Seq<(i32, i32)>) -> bool {
    forall|x: int, j: int|
        0 <= x < g.len() && vis[x] && 0 <= j < g.adj(x).len() ==> vis[#[trigger] g.adj(x)[j] as int]
            || on_stack(stack, g.adj(x)[j] as int)
}

/// Depth-first search from `start` to `end`. Neighbours are pushed on a
/// stack in list order, so the last neighbour listed is explored first; a
/// node is expanded once, and the search stops when `end` is popped.
#[verifier::rlimit(60)]
pub fn depth_first_path(g: &Graph, start: i32, end: i32) -> (r: Option<Vec<i32>>)
    requires
        g.wf(),
        g.valid_id(start as int),
        g.valid_id(end as int),
    ensures
        is_search_result(g, start as int, end as int, r),
        (r is Some) <==> (dfs_result(g, start as int, end as int) is Some),
        r matches Some(p) ==> dfs_result(g, start as int, end as int) == Some(p@),
{
    let n = g.nodes.len();
    let mut visited: Vec<bool> = filled(false, n);
    let mut parent: Vec<i32> = filled(-1i32, n);
    let ghost mut rank: Seq<int> = Seq::new(n as nat, |i: int| 0int);
    let ghost mut d: Seq<int> = Seq::new(n as nat, |i: int| 0int);
    let ghost mut vset: Set<int> = Set::empty();
    let mut stack: Vec<(i32, i32)> = Vec::new();
    stack.push((start, -1));
    assert(stack@[0] == (start, -1i32));
    let ghost mut cnt: nat = 0;
    assert(stack@ =~= seq![(start, -1i32)]);
    assert(visited@ =~= Seq::new(g.len() as nat, |i: int| false));
    assert(parent@ =~= Seq::new(g.len() as nat, |i: int| -1i32));
    while stack.len() > 0
        invariant
            g.wf(),
            g.valid_id(start as int),
            g.valid_id(end as int),
            n == g.len(),
            parent_tree(g, start as int, visited@, parent@, rank, d),
            forall|v: int| 0 <= v < n && #[trigger] visited@[v] ==> rank[v] < vset.len(),
            forall|v: int| 0 <= v < n && #[trigger] visited@[v] ==> visited@[start as int],
            forall|v: int| #[trigger] vset.contains(v) <==> (0 <= v < n && visited@[v]),
            vset.finite(),
            !visited@[end as int],
            forall|k: int|
                0 <= k < stack@.len() ==> entry_ok(g, start as int, visited@, #[trigger] stack@[k]),
            dfs_frontier(g, visited@, stack@),
            visited@[start as int] || on_stack(stack@, start as int),
            dfs_run(g, end as int, dfs_start(g, start as int), cnt) == (stack@, visited@, parent@, false),
            cnt > 0 ==> !dfs_over(dfs_run(g, end as int, dfs_start(g, start as int), (cnt - 1) as nat)),
        decreases n - vset.len(), stack@.len(),
    {
        let ghost s_before = stack@;
        let ghost vis_before = visited@;
        let ghost par_before = parent@;
        let (v, p) = stack.pop().unwrap();
        assert(s_before[s_before.len() - 1] == (v, p));
        assert(entry_ok(g, start as int, visited@, s_before[s_before.len() - 1]));
        if visited[v as usize] {
            proof {
                assert forall|x: int, j: int|
                    0 <= x < g.len() && visited@[x] && 0 <= j < g.adj(x).len() implies visited@[#[trigger] g.adj(x)[j] as int]
                        || on_stack(stack@, g.adj(x)[j] as int) by {
                    let y = g.adj(x)[j] as int;
                    if !visited@[y] {
                        let k = choose|k: int| 0 <= k < s_before.len() && (#[trigger] s_before[k]).0 == y;
                        assert(k != s_before.len() - 1);
                        assert(stack@[k] == s_before[k]);
                    }
                }
                if !visited@[start as int] {
                    let k = choose|k: int| 0 <= k < s_before.len() && (#[trigger] s_before[k]).0 == start;
                    assert(stack@[k] == s_before[k]);
                }
            }
            proof {
                cnt = cnt + 1;
            }
            continue;
        }
        proof {
            if p != -1 {
                assert(visited@[p as int]);
            }
            rank = rank.update(v as int, vset.len() as int);
            d = d.update(v as int, if p == -1 { 0 } else { d[p as int] + g.weight(p as int, v as int) });
            vset = vset.insert(v as int);
            lemma_int_range(0, n as int);
            assert(vset.subset_of(set_int_range(0, n as int)));
            lemma_len_subset(vset, set_int_range(0, n as int));
        }
        visited.set(v as usize, true);
        parent.set(v as usize, p);
        proof {
            assert forall|u: int| 0 <= u < g.len() && #[trigger] visited@[u] && u != start implies {
                let q = parent@[u] as int;
                &&& g.valid_id(q)
                &&& visited@[q]
                &&& g.has_edge(q, u)
                &&& rank[q] < rank[u]
                &&& d[u] == d[q] + g.weight(q, u)
            } by {
                if u != v {
                    assert(vis_before[u]);
                }
            }
            assert forall|k: int| 0 <= k < stack@.len() implies entry_ok(g, start as int, visited@, #[trigger] stack@[k]) by {
                assert(stack@[k] == s_before[k]);
            }
        }
        if v == end {
            let path = build_path(g, &parent, start, end, Ghost(visited@), Ghost(rank), Ghost(d));
            assert(g.is_path(path@, start as int, end as int));
            proof {
                assert(dfs_run(g, end as int, dfs_start(g, start as int), cnt + 1) == (stack@, visited@, parent@, true));
                lemma_dfs_result_at(g, start as int, end as int, cnt + 1);
            }
            return Some(path);
        }
        let adj = &g.adjacency_list[v as usize];
        let ghost len0 = stack@.len();
        let ghost s0 = stack@;
        assert(s0 =~= s_before.drop_last());
        let mut j: usize = 0;
        while j < adj.len()
            invariant
                g.wf(),
                g.valid_id(v as int),
                visited@[v as int],
                adj@ == g.adj(v as int),
                j <= adj@.len(),
                n == g.len(),
                visited@.len() == n,
                stack@.len() >= len0,
                forall|k: int| 0 <= k < len0 ==> stack@[k] == s0[k],
                forall|k: int|
                    0 <= k < stack@.len() ==> entry_ok(g, start as int, visited@, #[trigger] stack@[k]),
                forall|i: int| 0 <= i < j ==> on_stack(stack@, #[trigger] adj@[i] as int),
                stack@ == s0 + adj@.subrange(0, j as int).map_values(|o: i32| (o, v)),
            decreases adj@.len() - j,
        {
            let o = adj[j];
            let ghost sb = stack@;
            assert(adj@.contains(o) ==> g.has_edge(v as int, o as int)) by {
                assert(g.valid_id(g.adj(v as int)[j as int] as int));
            }
            assert(adj@[j as int] == o);
            stack.push((o, v));
            proof {
                assert(stack@[stack@.len() - 1] == (o, v));
                assert forall|i: int| 0 <= i <= j implies on_stack(stack@, #[trigger] adj@[i] as int) by {
                    if i < j {
                        let k = choose|k: int| 0 <= k < sb.len() && (#[trigger] sb[k]).0 == adj@[i] as int;
                        assert(stack@[k] == sb[k]);
                    } else {
                        assert(stack@[stack@.len() - 1].0 == adj@[i]);
                    }
                }
                assert forall|k: int| 0 <= k < stack@.len() implies entry_ok(g, start as int, visited@, #[trigger] stack@[k]) by {
                    if k < sb.len() {
                        assert(stack@[k] == sb[k]);
                    }
                }
            }
            j += 1;
            assert(stack@ =~= s0 + adj@.subrange(0, j as int).map_values(|o: i32| (o, v)));
        }
        proof {
            assert(adj@.subrange(0, j as int) =~= adj@);
            assert(dfs_run(g, end as int, dfs_start(g, start as int), cnt + 1) == (stack@, visited@, parent@, false));
            cnt = cnt + 1;
        }
        proof {
            assert forall|x: int, i: int|
                0 <= x < g.len() && visited@[x] && 0 <= i < g.adj(x).len() implies visited@[#[trigger] g.adj(x)[i] as int]
                    || on_stack(stack@, g.adj(x)[i] as int) by {
                let y = g.adj(x)[i] as int;
                if x == v {
                    assert(on_stack(stack@, adj@[i] as int));
                } else if !visited@[y] {
                    assert(vis_before[x]);
                    let k = choose|k: int| 0 <= k < s_before.len() && (#[trigger] s_before[k]).0 == y;
                    assert(k != s_before.len() - 1);
                    assert(s0[k] == s_before[k]);
                    assert(stack@[k] == s0[k]);
                }
            }
        }
    }
    proof {
        lemma_closed_set_separates(g, visited@, start as int, end as int);
        lemma_dfs_result_at(g, start as int, end as int, cnt);
    }
    None
}

/// Largest possible edge length between two nodes.
pub const MAX_EDGE: u128 = 0x1000_0000_0000;

/// Bound on every tentative path cost.
pub const MAX_COST: u128 = 0x1_0000_0000_0000_0000_0000;

/// The heuristic values `h` (one per node) never drop by more than an edge's
/// length along an edge: they are consistent, hence never overestimate.
pub open spec fn consistent(g: &Graph, h: Seq<u64>) -> bool {
    forall|a: int, b: int| #[trigger] g.has_edge(a, b) ==> h[a] <= g.weight(a, b) + h[b]
}

/// Tentative path costs as integers.
pub open spec fn costs(gc: Seq<u128>) -> Seq<int> {
    gc.map_values(|c: u128| c as int)
}

/// Along a path, a consistent heuristic drops by at most the path's cost.
proof fn lemma_consistent_path(g: &Graph, h: Seq<u64>, p: Seq<i32>)
    requires
        g.wf(),
        consistent(g, h),
        p.len() > 0,
        forall|k: int| 0 <= k < p.len() - 1 ==> #[trigger] g.has_edge(p[k] as int, p[k + 1] as int),
    ensures
        h[p[0] as int] <= g.path_cost(p) + h[p[p.len() - 1] as int],
    decreases p.len(),
{
    if p.len() > 1 {
        let q = p.drop_last();
        assert forall|k: int| 0 <= k < q.len() - 1 implies #[trigger] g.has_edge(
            q[k] as int,
            q[k + 1] as int,
        ) by {
            assert(g.has_edge(p[k] as int, p[k + 1] as int));
        }
        lemma_consistent_path(g, h, q);
        let k = p.len() - 2;
        assert(g.has_edge(p[k] as int, p[k + 1] as int));
    }
}

/// A stretch of a path is a path between its ends.
proof fn lemma_subpath(g: &Graph, p: Seq<i32>, s: int, t: int, i: int, j: int)
    requires
        g.is_path(p, s, t),
        0 <= i < j <= p.len(),
    ensures
        g.is_path(p.subrange(i, j), p[i] as int, p[j - 1] as int),
{
    let q = p.subrange(i, j);
    assert forall|k: int| 0 <= k < q.len() - 1 implies #[trigger] g.has_edge(
        q[k] as int,
        q[k + 1] as int,
    ) by {
        let m = i + k;
        assert(g.has_edge(p[m] as int, p[m + 1] as int));
    }
    assert forall|k: int| 0 <= k < q.len() implies g.valid_id(#[trigger] q[k] as int) by {
        assert(g.valid_id(p[i + k] as int));
    }
}

/// The first node along `p`, from index `i` on, that is not settled.
proof fn lemma_first_unsettled(p: Seq<i32>, done: Seq<bool>, i: int) -> (k: int)
    requires
        0 <= i < p.len(),
        !done[p[p.len() - 1] as int],
        forall|j: int| 0 <= j < i ==> done[#[trigger] p[j] as int],
    ensures
        i <= k < p.len(),
        !done[p[k] as int],
        forall|j: int| 0 <= j < k ==> done[#[trigger] p[j] as int],
    decreases p.len() - i,
{
    if !done[p[i] as int] {
        i
    } else {
        lemma_first_unsettled(p, done, i + 1)
    }
}

/// The node of least key among the open, unsettled ones costs no more than
/// any path to it, when the heuristic is consistent.
proof fn lemma_settle_optimal(
    g: &Graph,
    s: int,
    h: Seq<u64>,
    done: Seq<bool>,
    open: Seq<bool>,
    gc: Seq<u128>,
    u: int,
    p: Seq<i32>,
)
    requires
        g.wf(),
        consistent(g, h),
        h.len() == g.len(),
        done.len() == g.len(),
        open.len() == g.len(),
        gc.len() == g.len(),
        g.valid_id(s),
        g.valid_id(u),
        open[u],
        !done[u],
        forall|v: int|
            0 <= v < g.len() && #[trigger] open[v] && !done[v] ==> gc[u] + h[u] <= gc[v] + h[v],
        !done[s] ==> u == s && gc[s] == 0,
        forall|x: int, j: int|
            0 <= x < g.len() && done[x] && 0 <= j < g.adj(x).len() ==> done[#[trigger] g.adj(
                x,
            )[j] as int] || (open[g.adj(x)[j] as int] && gc[g.adj(x)[j] as int] <= gc[x]
                + g.weight(x, g.adj(x)[j] as int)),
        forall|x: int, q: Seq<i32>|
            0 <= x < g.len() && done[x] && #[trigger] g.is_path(q, s, x) ==> gc[x] <= g.path_cost(q),
        g.is_path(p, s, u),
    ensures
        gc[u] <= g.path_cost(p),
{
    g.lemma_path_cost_nonneg(p);
    if done[s] {
        let k = lemma_first_unsettled(p, done, 0);
        assert(k > 0);
        let x = p[k - 1] as int;
        let y = p[k] as int;
        let m = k - 1;
        assert(g.has_edge(p[m] as int, p[m + 1] as int));
        let j = choose|j: int| 0 <= j < g.adj(x).len() && g.adj(x)[j] == p[k];
        assert(g.adj(x)[j] as int == y);
        assert(open[y] && gc[y] <= gc[x] + g.weight(x, y));
        let pre = p.subrange(0, k);
        lemma_subpath(g, p, s, u as int, 0, k);
        assert(gc[x] <= g.path_cost(pre));
        let pre1 = p.subrange(0, k + 1);
        assert(pre1.drop_last() =~= pre);
        assert(g.path_cost(pre1) == g.path_cost(pre) + g.weight(x, y));
        let suf = p.subrange(k, p.len() as int);
        lemma_subpath(g, p, s, u as int, k, p.len() as int);
        lemma_consistent_path(g, h, suf);
        g.lemma_path_cost_split(p, k);
    }
}

/// The first of the open, unsettled nodes among the first `i` that has the
/// least key `gc + h`; `done.len()` when there is none.
pub open spec fn pick(done: Seq<bool>, open: Seq<bool>, gc: Seq<int>, h: Seq<u64>, i: int) -> int
    decreases i,
{
    if i <= 0 {
        done.len() as int
    } else {
        let b = pick(done, open, gc, h, i - 1);
        let v = i - 1;
        if open[v] && !done[v] && (b == done.len() || gc[v] + h[v] < gc[b] + h[b]) {
            v
        } else {
            b
        }
    }
}

/// Among the open, unsettled nodes, one of least key `gc + h`; `n` when
/// there is none. This scan is the search's priority queue: it extracts a
/// minimum directly, so no ordering is ever inverted, and keys are integers,
/// so every two of them compare.
fn select_min(done: &Vec<bool>, open: &Vec<bool>, gc: &Vec<u128>, hv: &Vec<u64>) -> (r: usize)
    requires
        open@.len() == done@.len(),
        gc@.len() == done@.len(),
        hv@.len() == done@.len(),
        forall|v: int| 0 <= v < gc@.len() ==> gc@[v] <= MAX_COST,
    ensures
        r <= done@.len(),
        r == done@.len() ==> forall|v: int| 0 <= v < done@.len() && #[trigger] open@[v] ==> done@[v],
        r < done@.len() ==> open@[r as int] && !done@[r as int] && forall|v: int|
            0 <= v < done@.len() && #[trigger] open@[v] && !done@[v] ==> gc@[r as int] + hv@[r as int]
                <= gc@[v] + hv@[v],
        r == pick(done@, open@, costs(gc@), hv@, done@.len() as int),
{
    let n = done.len();
    let mut best: usize = n;
    let mut best_key: u128 = 0;
    let mut i: usize = 0;
    while i < n
        invariant
            n == done@.len(),
            open@.len() == n,
            gc@.len() == n,
            hv@.len() == n,
            forall|v: int| 0 <= v < gc@.len() ==> gc@[v] <= MAX_COST,
            i <= n,
            best == n || (best < i && open@[best as int] && !done@[best as int] && best_key
                == gc@[best as int] + hv@[best as int]),
            forall|v: int|
                0 <= v < i && #[trigger] open@[v] && !done@[v] ==> best < n && best_key <= gc@[v]
                    + hv@[v],
            best == pick(done@, open@, costs(gc@), hv@, i as int),
        decreases n - i,
    {
        if open[i] && !done[i] {
            let key: u128 = gc[i] + hv[i] as u128;
            if best == n || key < best_key {
                best = i;
                best_key = key;
            }
        }
        i += 1;
    }
    best
}

/// Offering the neighbours `adj(u)[..j]` of the settled node `u`, in list
/// order, the cost `gu + weight(u, o)`: an unsettled neighbour takes it
/// (opening, with `u` as parent) when it is not open yet or the cost is
/// lower than its own. The state is (open, costs, parents).
pub open spec fn relax_spec(
    g: &Graph,
    u: int,
    done: Seq<bool>,
    gu: int,
    st: (Seq<bool>, Seq<int>, Seq<i32>),
    j: int,
) -> (Seq<bool>, Seq<int>, Seq<i32>)
    decreases j,
{
    if j <= 0 {
        st
    } else {
        let s1 = relax_spec(g, u, done, gu, st, j - 1);
        let o = g.adj(u)[j - 1] as int;
        let c = gu + g.weight(u, o);
        if !done[o] && (!s1.0[o] || c < s1.1[o]) {
            (s1.0.update(o, true), s1.1.update(o, c), s1.2.update(o, u as i32))
        } else {
            s1
        }
    }
}

/// The state of a best-first search: settled marks, open marks, tentative
/// costs, parent links, and whether the end node has been settled.
pub type BfState = (Seq<bool>, Seq<bool>, Seq<int>, Seq<i32>, bool);

/// The search is over: the end was settled or no open node is left.
pub open spec fn bf_over(st: BfState, h: Seq<u64>) -> bool {
    st.4 || pick(st.0, st.1, st.2, h, st.0.len() as int) == st.0.len()
}

/// One step: settle the first open node of least key; stop if it is `end`,
/// else relax its neighbours.
pub open spec fn bf_step(g: &Graph, end: int, h: Seq<u64>, st: BfState) -> BfState {
    if bf_over(st, h) {
        st
    } else {
        let u = pick(st.0, st.1, st.2, h, st.0.len() as int);
        let done = st.0.update(u, true);
        if u == end {
            (done, st.1, st.2, st.3, true)
        } else {
            let r = relax_spec(g, u, done, st.2[u], (st.1, st.2, st.3), g.adj(u).len() as int);
            (done, r.0, r.1, r.2, false)
        }
    }
}

/// The state after `k` steps.
pub open spec fn bf_run(g: &Graph, end: int, h: Seq<u64>, st: BfState, k: nat) -> BfState
    decreases k,
{
    if k == 0 {
        st
    } else {
        bf_step(g, end, h, bf_run(g, end, h, st, (k - 1) as nat))
    }
}

/// The state before the first step from `start`.
pub open spec fn bf_start(g: &Graph, start: int) -> BfState {
    (
        Seq::new(g.len() as nat, |i: int| false),
        Seq::new(g.len() as nat, |i: int| i == start),
        Seq::new(g.len() as nat, |i: int| 0int),
        Seq::new(g.len() as nat, |i: int| -1i32),
        false,
    )
}

/// What best-first search with heuristic values `h` returns: the parent
/// walk to `end` in the state where the search is over, if it settled `end`.
pub open spec fn bf_result(g: &Graph, start: int, end: int, h: Seq<u64>) -> Option<Seq<i32>> {
    let k = choose|k: nat| bf_over(#[trigger] bf_run(g, end, h, bf_start(g, start), k), h);
    let st = bf_run(g, end, h, bf_start(g, start), k);
    if st.4 {
        Some(parent_walk(st.3, end, g.len() as nat))
    } else {
        None
    }
}

proof fn lemma_bf_run_stays(g: &Graph, end: int, h: Seq<u64>, st: BfState, k1: nat, k2: nat)
    requires
        bf_over(bf_run(g, end, h, st, k1), h),
        k1 <= k2,
    ensures
        bf_run(g, end, h, st, k2) == bf_run(g, end, h, st, k1),
    decreases k2,
{
    if k2 > k1 {
        lemma_bf_run_stays(g, end, h, st, k1, (k2 - 1) as nat);
    }
}

proof fn lemma_bf_result_at(g: &Graph, start: int, end: int, h: Seq<u64>, c: nat)
    requires
        bf_over(bf_run(g, end, h, bf_start(g, start), c), h),
        c == 0 || !bf_over(bf_run(g, end, h, bf_start(g, start), (c - 1) as nat), h),
    ensures
        bf_result(g, start, end, h) == (if bf_run(g, end, h, bf_start(g, start), c).4 {
            Some(parent_walk(bf_run(g, end, h, bf_start(g, start), c).3, end, g.len() as nat))
        } else {
            None
        }),
{
    let st0 = bf_start(g, start);
    let k = choose|k: nat| bf_over(#[trigger] bf_run(g, end, h, st0, k), h);
    if k >= c {
        lemma_bf_run_stays(g, end, h, st0, c, k);
    } else {
        lemma_bf_run_stays(g, end, h, st0, k, (c - 1) as nat);
    }
}

/// Offers every unsettled neighbour `y` of the settled node `u` the cost
/// `gc[u] + weight(u, y)`, keeping it where it is lower than what `y` has.
#[verifier::rlimit(40)]
fn relax_neighbors(
    g: &Graph,
    u: usize,
    done: &Vec<bool>,
    open: &mut Vec<bool>,
    gc: &mut Vec<u128>,
    parent: &mut Vec<i32>,
    Ghost(bound): Ghost<int>,
)
    requires
        g.wf(),
        g.valid_id(u as int),
        done@.len() == g.len(),
        old(open)@.len() == g.len(),
        old(gc)@.len() == g.len(),
        old(parent)@.len() == g.len(),
        done@[u as int],
        old(gc)@[u as int] + MAX_EDGE <= bound,
        bound <= MAX_COST,
        forall|v: int| 0 <= v < g.len() ==> #[trigger] old(gc)@[v] <= bound,
    ensures
        final(open)@.len() == g.len(),
        final(gc)@.len() == g.len(),
        final(parent)@.len() == g.len(),
        forall|v: int|
            0 <= v < g.len() && #[trigger] done@[v] ==> final(gc)@[v] == old(gc)@[v]
                && final(parent)@[v] == old(parent)@[v] && final(open)@[v] == old(open)@[v],
        forall|v: int|
            0 <= v < g.len() && #[trigger] old(open)@[v] ==> final(open)@[v] && final(gc)@[v]
                <= old(gc)@[v],
        forall|v: int|
            0 <= v < g.len() && #[trigger] final(open)@[v] && !done@[v] ==> (old(open)@[v]
                && final(gc)@[v] == old(gc)@[v] && final(parent)@[v] == old(parent)@[v]) || (
            final(parent)@[v] == u && final(gc)@[v] == old(gc)@[u as int] + g.weight(u as int, v)
                && g.has_edge(u as int, v)),
        forall|j: int|
            0 <= j < g.adj(u as int).len() ==> done@[#[trigger] g.adj(u as int)[j] as int] || (
            final(open)@[g.adj(u as int)[j] as int] && final(gc)@[g.adj(u as int)[j] as int]
                <= old(gc)@[u as int] + g.weight(u as int, g.adj(u as int)[j] as int)),
        forall|v: int| 0 <= v < g.len() ==> #[trigger] final(gc)@[v] <= bound,
        (final(open)@, costs(final(gc)@), final(parent)@) == relax_spec(
            g,
            u as int,
            done@,
            old(gc)@[u as int] as int,
            (old(open)@, costs(old(gc)@), old(parent)@),
            g.adj(u as int).len() as int,
        ),
{
    let ghost open0 = open@;
    let ghost gc0 = gc@;
    let ghost parent0 = parent@;
    let pu = g.nodes[u].get_position();
    let gu = gc[u];
    let adj = &g.adjacency_list[u];
    let mut j: usize = 0;
    while j < adj.len()
        invariant
            g.wf(),
            g.valid_id(u as int),
            pu == g.pos(u as int),
            adj@ == g.adj(u as int),
            j <= adj@.len(),
            done@.len() == g.len(),
            open@.len() == g.len(),
            gc@.len() == g.len(),
            parent@.len() == g.len(),
            done@[u as int],
            gu == gc0[u as int],
            gu + MAX_EDGE <= bound,
            bound <= MAX_COST,
            forall|v: int|
                0 <= v < g.len() && #[trigger] done@[v] ==> gc@[v] == gc0[v] && parent@[v]
                    == parent0[v] && open@[v] == open0[v],
            forall|v: int|
                0 <= v < g.len() && #[trigger] open0[v] ==> open@[v] && gc@[v] <= gc0[v],
            forall|v: int|
                0 <= v < g.len() && #[trigger] open@[v] && !done@[v] ==> (open0[v] && gc@[v]
                    == gc0[v] && parent@[v] == parent0[v]) || (parent@[v] == u && gc@[v] == gu
                    + g.weight(u as int, v) && g.has_edge(u as int, v)),
            forall|i: int|
                0 <= i < j ==> done@[#[trigger] adj@[i] as int] || (open@[adj@[i] as int]
                    && gc@[adj@[i] as int] <= gu + g.weight(u as int, adj@[i] as int)),
            forall|v: int| 0 <= v < g.len() ==> #[trigger] gc@[v] <= bound,
            (open@, costs(gc@), parent@) == relax_spec(g, u as int, done@, gu as int, (open0, costs(gc0), parent0), j as int),
        decreases adj@.len() - j,
    {
        let o = adj[j] as usize;
        assert(g.valid_id(g.adj(u as int)[j as int] as int));
        assert(g.has_edge(u as int, o as int)) by {
            assert(g.adj(u as int)[j as int] == adj@[j as int]);
        }
        if !done[o] {
            let w = pu.fine_distance(&g.nodes[o].get_position());
            let c: u128 = gu + w as u128;
            if !open[o] || c < gc[o] {
                let ghost cg = costs(gc@);
                open.set(o, true);
                gc.set(o, c);
                parent.set(o, u as i32);
                assert(costs(gc@) =~= cg.update(o as int, c as int));
            }
        }
        j += 1;
    }
}

/// Best-first search from `start` to `end` over tentative path costs: the
/// open node of least `cost + hv[node]` is settled next, each node at most
/// once, and the search stops when `end` is settled. With `hv` all zero
/// this is Dijkstra's algorithm; with a consistent `hv` it is A*, and the
/// path found is a cheapest one.
#[verifier::rlimit(80)]
pub fn best_first_path(g: &Graph, start: i32, end: i32, hv: &Vec<u64>) -> (r: Option<Vec<i32>>)
    requires
        g.wf(),
        g.valid_id(start as int),
        g.valid_id(end as int),
        hv@.len() == g.len(),
    ensures
        is_search_result(g, start as int, end as int, r),
        consistent(g, hv@) ==> (r matches Some(p) ==> is_shortest_path(
            g,
            p@,
            start as int,
            end as int,
        )),
        ids(r) == bf_result(g, start as int, end as int, hv@),
{
    let n = g.nodes.len();
    let s = start as usize;
    let mut done: Vec<bool> = filled(false, n);
    let mut open: Vec<bool> = filled(false, n);
    let mut gc: Vec<u128> = filled(0u128, n);
    let mut parent: Vec<i32> = filled(-1i32, n);
    open.set(s, true);
    let ghost mut cnt: nat = 0;
    assert(done@ =~= Seq::new(g.len() as nat, |i: int| false));
    assert(open@ =~= Seq::new(g.len() as nat, |i: int| i == start));
    assert(costs(gc@) =~= Seq::new(g.len() as nat, |i: int| 0int));
    assert(parent@ =~= Seq::new(g.len() as nat, |i: int| -1i32));
    let ghost mut rank: Seq<int> = Seq::new(n as nat, |i: int| 0int);
    let ghost mut dset: Set<int> = Set::empty();
    loop
        invariant
            g.wf(),
            g.valid_id(start as int),
            g.valid_id(end as int),
            n == g.len(),
            hv@.len() == n,
            done@.len() == n,
            open@.len() == n,
            gc@.len() == n,
            parent_tree(g, start as int, done@, parent@, rank, costs(gc@)),
            forall|v: int| 0 <= v < n && #[trigger] done@[v] ==> rank[v] < dset.len(),
            forall|v: int| #[trigger] dset.contains(v) <==> (0 <= v < n && done@[v]),
            dset.finite(),
            dset.len() <= n,
            open@[start as int],
            forall|v: int| 0 <= v < n && #[trigger] done@[v] ==> open@[v] && done@[start as int],
            !done@[start as int] ==> gc@[start as int] == 0 && parent@[start as int] == -1
                && forall|v: int| 0 <= v < n && #[trigger] open@[v] ==> v == start,
            forall|v: int|
                0 <= v < n && #[trigger] open@[v] && !done@[v] && v != start ==> {
                    let q = parent@[v] as int;
                    &&& g.valid_id(q)
                    &&& done@[q]
                    &&& g.has_edge(q, v)
                    &&& gc@[v] == gc@[q] + g.weight(q, v)
                },
            forall|x: int, j: int|
                0 <= x < n && done@[x] && 0 <= j < g.adj(x).len() ==> done@[#[trigger] g.adj(
                    x,
                )[j] as int] || (open@[g.adj(x)[j] as int] && gc@[g.adj(x)[j] as int] <= gc@[x]
                    + g.weight(x, g.adj(x)[j] as int)),
            consistent(g, hv@) ==> forall|x: int, q: Seq<i32>|
                0 <= x < n && done@[x] && #[trigger] g.is_path(q, start as int, x) ==> gc@[x]
                    <= g.path_cost(q),
            forall|v: int| 0 <= v < n ==> #[trigger] gc@[v] <= dset.len() * MAX_EDGE,
            !done@[end as int],
            bf_run(g, end as int, hv@, bf_start(g, start as int), cnt) == (done@, open@, costs(gc@), parent@, false),
            cnt > 0 ==> !bf_over(bf_run(g, end as int, hv@, bf_start(g, start as int), (cnt - 1) as nat), hv@),
        decreases n - dset.len(),
    {
        proof {
            assert(dset.len() * MAX_EDGE <= MAX_COST) by (nonlinear_arith)
                requires
                    dset.len() <= i32::MAX,
                    MAX_EDGE == 0x1000_0000_0000u128,
                    MAX_COST == 0x1_0000_0000_0000_0000_0000u128;
        }
        let u = select_min(&done, &open, &gc, hv);
        if u == n {
            proof {
                assert forall|x: int, j: int|
                    0 <= x < g.len() && done@[x] && 0 <= j < g.adj(x).len() implies done@[#[trigger] g.adj(x)[j] as int] by {
                    assert(g.valid_id(g.adj(x)[j] as int));
                }
                lemma_closed_set_separates(g, done@, start as int, end as int);
                lemma_bf_result_at(g, start as int, end as int, hv@, cnt);
            }
            return None;
        }
        let ghost done0 = done@;
        let ghost open0 = open@;
        let ghost gc0 = gc@;
        let ghost parent0 = parent@;
        let ghost rank0 = rank;
        proof {
            if consistent(g, hv@) {
                assert forall|q: Seq<i32>| #[trigger] g.is_path(q, start as int, u as int) implies gc@[u as int]
                    <= g.path_cost(q) by {
                    lemma_settle_optimal(g, start as int, hv@, done@, open@, gc@, u as int, q);
                }
            }
            if u != start {
                assert(done@[parent@[u as int] as int]);
            }
            rank = rank.update(u as int, dset.len() as int);
            dset = dset.insert(u as int);
            lemma_int_range(0, n as int);
            assert(dset.subset_of(set_int_range(0, n as int)));
            lemma_len_subset(dset, set_int_range(0, n as int));
        }
        done.set(u, true);
        proof {
            assert(parent_tree(g, start as int, done@, parent@, rank, costs(gc@))) by {
                assert forall|v: int| 0 <= v < g.len() && #[trigger] done@[v] && v != start implies {
                    let q = parent@[v] as int;
                    &&& g.valid_id(q)
                    &&& done@[q]
                    &&& g.has_edge(q, v)
                    &&& rank[q] < rank[v]
                    &&& costs(gc@)[v] == costs(gc@)[q] + g.weight(q, v)
                } by {
                    if v != u {
                        assert(done0[v]);
                    }
                }
            }
        }
        if u == end as usize {
            let path = build_path(g, &parent, start, end, Ghost(done@), Ghost(rank), Ghost(costs(gc@)));
            assert(g.is_path(path@, start as int, end as int));
            proof {
                if consistent(g, hv@) {
                    assert forall|q: Seq<i32>| g.is_path(q, start as int, end as int) implies g.path_cost(path@)
                        <= #[trigger] g.path_cost(q) by {
                        assert(g.is_path(q, start as int, end as int));
                    }
                }
            }
            proof {
                assert(bf_run(g, end as int, hv@, bf_start(g, start as int), cnt + 1) == (done@, open@, costs(gc@), parent@, true));
                lemma_bf_result_at(g, start as int, end as int, hv@, cnt + 1);
            }
            return Some(path);
        }
        let ghost gc1 = gc@;
        proof {
            assert(dset.len() * MAX_EDGE <= MAX_COST) by (nonlinear_arith)
                requires
                    dset.len() <= i32::MAX,
                    MAX_EDGE == 0x1000_0000_0000u128,
                    MAX_COST == 0x1_0000_0000_0000_0000_0000u128;
            assert((dset.len() - 1) * MAX_EDGE + MAX_EDGE == dset.len() * MAX_EDGE) by (nonlinear_arith);
        }
        relax_neighbors(g, u, &done, &mut open, &mut gc, &mut parent, Ghost(dset.len() * MAX_EDGE));
        proof {
            assert(costs(gc1)[u as int] == gc1[u as int] as int);
            assert(bf_run(g, end as int, hv@, bf_start(g, start as int), cnt + 1) == (done@, open@, costs(gc@), parent@, false));
            cnt = cnt + 1;
            assert forall|v: int| 0 <= v < g.len() && #[trigger] done@[v] && v != start implies {
                let q = parent@[v] as int;
                &&& g.valid_id(q)
                &&& done@[q]
                &&& g.has_edge(q, v)
                &&& rank[q] < rank[v]
                &&& costs(gc@)[v] == costs(gc@)[q] + g.weight(q, v)
            } by {
                assert(done@[parent@[v] as int]);
            }
            assert(parent_tree(g, start as int, done@, parent@, rank, costs(gc@)));
            assert forall|x: int, j: int|
                0 <= x < n && done@[x] && 0 <= j < g.adj(x).len() implies done@[#[trigger] g.adj(
                    x,
                )[j] as int] || (open@[g.adj(x)[j] as int] && gc@[g.adj(x)[j] as int] <= gc@[x]
                    + g.weight(x, g.adj(x)[j] as int)) by {
                let y = g.adj(x)[j] as int;
                assert(g.valid_id(y));
                if x != u && !done@[y] {
                    assert(done0[x]);
                    assert(open0[y] && gc0[y] <= gc0[x] + g.weight(x, y));
                }
            }
            if consistent(g, hv@) {
                assert forall|x: int, q: Seq<i32>|
                    0 <= x < n && done@[x] && #[trigger] g.is_path(q, start as int, x) implies gc@[x]
                        <= g.path_cost(q) by {
                    if x != u {
                        assert(done0[x]);
                    }
                }
            }
        }
    }
}

/// A search algorithm: finds a path of node ids between two nodes.
pub trait SearchStrategy {
    /// The algorithm returns a cheapest path from any node to `end` in `g`.
    spec fn finds_shortest(&self, g: &Graph, end: int) -> bool;

    /// The algorithm's answer is fixed by its inputs, as `result`.
    spec fn determined(&self) -> bool;

    /// The answer for a search in `g` from `start` to `end`, where
    /// `determined` holds.
    spec fn result(&self, g: &Graph, start: int, end: int) -> Option<Seq<i32>>;

    /// A path from `start` to `end`, both included, in order; `None` when
    /// `end` cannot be reached from `start`.
    fn get_path(&self, g: &Graph, start: i32, end: i32) -> (r: Option<Vec<i32>>)
        requires
            g.wf(),
            g.valid_id(start as int),
            g.valid_id(end as int),
        ensures
            is_search_result(g, start as int, end as int, r),
            self.finds_shortest(g, end as int) ==> (r matches Some(p) ==> is_shortest_path(
                g,
                p@,
                start as int,
                end as int,
            )),
            self.determined() ==> ids(r) == self.result(g, start as int, end as int),
    ;
}

/// The node ids of a search's answer.
pub open spec fn ids(r: Option<Vec<i32>>) -> Option<Seq<i32>> {
    match r {
        Some(p) => Some(p@),
        None => None,
    }
}

/// An estimate of the remaining cost from one position to the goal.
pub trait Heuristic {
    spec fn estimate_spec(&self, a: Vector3, goal: Vector3) -> int;

    fn estimate(&self, a: &Vector3, goal: &Vector3) -> (r: u64)
        ensures
            r == self.estimate_spec(*a, *goal),
    ;
}

/// The straight-line distance to the goal, in millionths of a unit.
#[derive(Clone, Copy, Debug)]
pub struct StraightLine {}

impl Heuristic for StraightLine {
    open spec fn estimate_spec(&self, a: Vector3, goal: Vector3) -> int {
        fine_dist(a, goal)
    }

    fn estimate(&self, a: &Vector3, goal: &Vector3) -> (r: u64) {
        a.fine_distance(goal)
    }
}

/// No estimate at all: always zero.
#[derive(Clone, Copy, Debug)]
pub struct ZeroHeuristic {}

impl Heuristic for ZeroHeuristic {
    open spec fn estimate_spec(&self, a: Vector3, goal: Vector3) -> int {
        0
    }

    fn estimate(&self, a: &Vector3, goal: &Vector3) -> (r: u64) {
        0
    }
}

/// Along every edge of `g`, `h` drops by at most the edge's length on the
/// way to `goal`.
pub open spec fn heuristic_consistent<H: Heuristic>(g: &Graph, h: H, goal: int) -> bool {
    forall|a: int, b: int|
        #[trigger] g.has_edge(a, b) ==> h.estimate_spec(g.pos(a), g.pos(goal)) <= g.weight(a, b)
            + h.estimate_spec(g.pos(b), g.pos(goal))
}

/// The estimates of `h` for every node of `g`, toward node `goal`.
pub open spec fn astar_estimates<H: Heuristic>(g: &Graph, h: H, goal: int) -> Seq<u64> {
    Seq::new(g.len() as nat, |v: int| h.estimate_spec(g.pos(v), g.pos(goal)) as u64)
}

/// The straight-line heuristic is consistent on every graph, for every goal.
pub proof fn lemma_straight_line_consistent(g: &Graph, goal: int)
    ensures
        heuristic_consistent(g, StraightLine {}, goal),
{
    assert forall|a: int, b: int| #[trigger] g.has_edge(a, b) implies StraightLine {}.estimate_spec(
        g.pos(a),
        g.pos(goal),
    ) <= g.weight(a, b) + StraightLine {}.estimate_spec(g.pos(b), g.pos(goal)) by {
        lemma_fine_dist_triangle(g.pos(a), g.pos(b), g.pos(goal));
    }
}

/// The zero heuristic is consistent on every graph, for every goal.
pub proof fn lemma_zero_consistent(g: &Graph, goal: int)
    ensures
        heuristic_consistent(g, ZeroHeuristic {}, goal),
{
    assert forall|a: int, b: int| #[trigger] g.has_edge(a, b) implies ZeroHeuristic {}.estimate_spec(
        g.pos(a),
        g.pos(goal),
    ) <= g.weight(a, b) + ZeroHeuristic {}.estimate_spec(g.pos(b), g.pos(goal)) by {
        g.lemma_weight_nonneg(a, b);
    }
}

/// Depth-first search (see `depth_first_path`).
#[derive(Clone, Copy, Debug)]
pub struct DepthFirstSearch {}

impl DepthFirstSearch {
    pub fn new() -> (r: DepthFirstSearch) {
        DepthFirstSearch {  }
    }
}

impl SearchStrategy for DepthFirstSearch {
    open spec fn finds_shortest(&self, g: &Graph, end: int) -> bool {
        false
    }

    open spec fn determined(&self) -> bool {
        true
    }

    open spec fn result(&self, g: &Graph, start: int, end: int) -> Option<Seq<i32>> {
        dfs_result(g, start, end)
    }

    fn get_path(&self, g: &Graph, start: i32, end: i32) -> (r: Option<Vec<i32>>) {
        depth_first_path(g, start, end)
    }
}

/// Dijkstra's algorithm: best-first on path cost alone.
#[derive(Clone, Copy, Debug)]
pub struct Dijkstras {}

impl Dijkstras {
    pub fn new() -> (r: Dijkstras) {
        Dijkstras {  }
    }
}

impl SearchStrategy for Dijkstras {
    open spec fn finds_shortest(&self, g: &Graph, end: int) -> bool {
        true
    }

    open spec fn determined(&self) -> bool {
        true
    }

    open spec fn result(&self, g: &Graph, start: int, end: int) -> Option<Seq<i32>> {
        bf_result(g, start, end, Seq::new(g.len() as nat, |i: int| 0u64))
    }

    fn get_path(&self, g: &Graph, start: i32, end: i32) -> (r: Option<Vec<i32>>) {
        let hv: Vec<u64> = filled(0u64, g.nodes.len());
        assert(hv@ =~= Seq::new(g.len() as nat, |i: int| 0u64));
        assert(consistent(g, hv@)) by {
            assert forall|a: int, b: int| #[trigger] g.has_edge(a, b) implies hv@[a] <= g.weight(a, b) + hv@[b] by {
                g.lemma_weight_nonneg(a, b);
            }
        }
        best_first_path(g, start, end, &hv)
    }
}

/// A*: best-first on path cost plus a heuristic estimate of what remains.
pub struct AStar<H: Heuristic> {
    pub heuristic: H,
}

impl AStar<StraightLine> {
    /// A* with the straight-line distance to the goal.
    pub fn new() -> (r: AStar<StraightLine>) {
        AStar { heuristic: StraightLine {  } }
    }
}

impl AStar<ZeroHeuristic> {
    /// A* with the zero heuristic, which finds paths as cheap as Dijkstra's.
    pub fn zero() -> (r: AStar<ZeroHeuristic>) {
        AStar { heuristic: ZeroHeuristic {  } }
    }
}

impl<H: Heuristic> AStar<H> {
    /// A* with the given heuristic.
    pub fn from(heuristic: H) -> (r: AStar<H>)
        ensures
            r.heuristic == heuristic,
    {
        AStar { heuristic }
    }
}

impl<H: Heuristic> SearchStrategy for AStar<H> {
    open spec fn finds_shortest(&self, g: &Graph, end: int) -> bool {
        heuristic_consistent(g, self.heuristic, end)
    }

    open spec fn determined(&self) -> bool {
        true
    }

    open spec fn result(&self, g: &Graph, start: int, end: int) -> Option<Seq<i32>> {
        bf_result(g, start, end, astar_estimates(g, self.heuristic, end))
    }

    fn get_path(&self, g: &Graph, start: i32, end: i32) -> (r: Option<Vec<i32>>) {
        let goal = g.nodes[end as usize].get_position();
        let n = g.nodes.len();
        let mut hv: Vec<u64> = Vec::new();
        let mut i: usize = 0;
        while i < n
            invariant
                g.wf(),
                n == g.len(),
                goal == g.pos(end as int),
                i <= n,
                hv@.len() == i,
                forall|k: int| 0 <= k < i ==> #[trigger] hv@[k] == self.heuristic.estimate_spec(g.pos(k), goal),
            decreases n - i,
        {
            let e = self.heuristic.estimate(&g.nodes[i].get_position(), &goal);
            hv.push(e);
            i += 1;
        }
        proof {
            if heuristic_consistent(g, self.heuristic, end as int) {
                assert forall|a: int, b: int| #[trigger] g.has_edge(a, b) implies hv@[a] <= g.weight(a, b) + hv@[b] by {
                    assert(hv@[a] == self.heuristic.estimate_spec(g.pos(a), goal));
                    assert(hv@[b] == self.heuristic.estimate_spec(g.pos(b), goal));
                }
            }
        }
        assert(hv@ =~= astar_estimates(g, self.heuristic, end as int)) by {
            assert forall|k: int| 0 <= k < hv@.len() implies hv@[k] == astar_estimates(g, self.heuristic, end as int)[k] by {
                assert(hv@[k] == self.heuristic.estimate_spec(g.pos(k), goal));
            }
        }
        best_first_path(g, start, end, &hv)
    }
}

/// Between nodes in disjoint parts of a graph, every search strategy
/// reports that there is no path.
pub proof fn lemma_no_path_across_components(g: &Graph, s: int, t: int, r: Option<Vec<i32>>)
    requires
        is_search_result(g, s, t, r),
        !g.reachable(s, t),
    ensures
        (r is None),
{
}

/// Between the same two nodes, Dijkstra's search, A* with the straight-line
/// heuristic and A* with the zero heuristic find paths of equal cost.
pub proof fn lemma_dijkstra_astar_same_cost(
    g: &Graph,
    s: int,
    t: int,
    dij: Option<Vec<i32>>,
    ast: Option<Vec<i32>>,
    zer: Option<Vec<i32>>,
)
    requires
        g.wf(),
        g.valid_id(s),
        g.valid_id(t),
        is_search_result(g, s, t, dij),
        (Dijkstras {}).finds_shortest(g, t) ==> (dij matches Some(p) ==> is_shortest_path(g, p@, s, t)),
        is_search_result(g, s, t, ast),
        (AStar { heuristic: StraightLine {} }).finds_shortest(g, t) ==> (ast matches Some(p)
            ==> is_shortest_path(g, p@, s, t)),
        is_search_result(g, s, t, zer),
        (AStar { heuristic: ZeroHeuristic {} }).finds_shortest(g, t) ==> (zer matches Some(p)
            ==> is_shortest_path(g, p@, s, t)),
    ensures
        (dij is Some) <==> (ast is Some),
        (dij is Some) <==> (zer is Some),
        ((dij is Some) && (ast is Some)) ==> g.path_cost(dij->Some_0@) == g.path_cost(ast->Some_0@),
        ((dij is Some) && (zer is Some)) ==> g.path_cost(dij->Some_0@) == g.path_cost(zer->Some_0@),
{
    lemma_straight_line_consistent(g, t);
    lemma_zero_consistent(g, t);
    if dij is Some && ast is Some && zer is Some {
        let p = dij->Some_0@;
        let q = ast->Some_0@;
        let z = zer->Some_0@;
        assert(g.path_cost(p) <= g.path_cost(q) && g.path_cost(q) <= g.path_cost(p));
        assert(g.path_cost(p) <= g.path_cost(z) && g.path_cost(z) <= g.path_cost(p));
    }
}

/// A path found by depth-first search costs at least as much as the one
/// Dijkstra's search finds between the same nodes.
pub proof fn lemma_depth_first_cost_at_least_dijkstra(
    g: &Graph,
    s: int,
    t: int,
    dfs: Option<Vec<i32>>,
    dij: Option<Vec<i32>>,
)
    requires
        g.wf(),
        g.valid_id(s),
        g.valid_id(t),
        is_search_result(g, s, t, dfs),
        is_search_result(g, s, t, dij),
        (Dijkstras {}).finds_shortest(g, t) ==> (dij matches Some(p) ==> is_shortest_path(g, p@, s, t)),
    ensures
        (dfs is Some) <==> (dij is Some),
        ((dfs is Some) && (dij is Some)) ==> g.path_cost(dij->Some_0@) <= g.path_cost(dfs->Some_0@),
{
    if dfs is Some && dij is Some {
        let p = dfs->Some_0@;
        assert(g.is_path(p, s, t));
    }
}

} // verus!
