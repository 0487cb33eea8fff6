use vstd::prelude::*;

use crate::routing::{SearchStrategy, is_search_result, is_shortest_path};
use crate::vector3::{Vector3, sq_dist, fine_dist, lemma_ceil_sqrt_exists, FINE_SQ};

verus! {

/// A node of the navigation graph: its id and its position in world space.
#[derive(Clone, Copy, Debug)]
pub struct GraphNode {
    id: i32,
    position: Vector3,
}

impl GraphNode {
    pub closed spec fn id_spec(&self) -> i32 {
        self.id
    }

    pub closed spec fn position_spec(&self) -> Vector3 {
        self.position
    }

    pub fn new(id: i32, position: Vector3) -> (r: GraphNode)
        ensures
            r.id_spec() == id,
            r.position_spec() == position,
    {
        GraphNode { id, position }
    }

    pub fn get_id(&self) -> (r: i32)
        ensures
            r == self.id_spec(),
    {
        self.id
    }

    pub fn get_position(&self) -> (r: Vector3)
        ensures
            r == self.position_spec(),
    {
        self.position
    }
}

/// A directed graph of positioned nodes. Node ids are dense: the node at
/// index `i` has id `i`, and `adjacency_list[i]` lists its out-neighbours.
#[derive(Debug)]
pub struct Graph {
    pub adjacency_list: Vec<Vec<i32>>,
    pub nodes: Vec<GraphNode>,
}

impl Graph {
    /// Number of nodes.
    pub open spec fn len(&self) -> int {
        self.nodes@.len() as int
    }

    /// Position of node `i`.
    pub open spec fn pos(&self, i: int) -> Vector3 {
        self.nodes@[i].position_spec()
    }

    pub open spec fn valid_id(&self, i: int) -> bool {
        0 <= i < self.len()
    }

    /// Neighbour list of node `i`.
    pub open spec fn adj(&self, i: int) -> Seq<i32> {
        self.adjacency_list@[i]@
    }

    /// There is a directed edge from `a` to `b`.
    pub open spec fn has_edge(&self, a: int, b: int) -> bool {
        self.valid_id(a) && self.adj(a).contains(b as i32) && self.valid_id(b)
    }

    /// Length of edge `a -> b`: the Euclidean distance of its ends, in
    /// millionths of a world unit, rounded up.
    pub open spec fn weight(&self, a: int, b: int) -> int {
        fine_dist(self.pos(a), self.pos(b))
    }

    /// Ids match indices, every node has a neighbour list, and every
    /// neighbour is a node.
    pub open spec fn wf(&self) -> bool {
        &&& self.adjacency_list@.len() == self.nodes@.len()
        &&& self.nodes@.len() <= i32::MAX
        &&& forall|i: int| 0 <= i < self.len() ==> #[trigger] self.nodes@[i].id_spec() == i
        &&& forall|i: int, k: int|
            0 <= i < self.len() && 0 <= k < self.adj(i).len() ==> self.valid_id(
                #[trigger] self.adj(i)[k] as int,
            )
    }

    /// `p` is a walk along edges of the graph from `s` to `t`.
    pub open spec fn is_path(&self, p: Seq<i32>, s: int, t: int) -> bool {
        &&& p.len() > 0
        &&& p[0] == s
        &&& p.last() == t
        &&& forall|i: int| 0 <= i < p.len() ==> self.valid_id(#[trigger] p[i] as int)
        &&& forall|i: int|
            0 <= i < p.len() - 1 ==> #[trigger] self.has_edge(p[i] as int, p[i + 1] as int)
    }

    /// Some walk leads from `s` to `t`.
    pub open spec fn reachable(&self, s: int, t: int) -> bool {
        exists|p: Seq<i32>| self.is_path(p, s, t)
    }

    /// Sum of the edge lengths along `p`.
    pub open spec fn path_cost(&self, p: Seq<i32>) -> int
        decreases p.len(),
    {
        if p.len() <= 1 {
            0
        } else {
            self.path_cost(p.drop_last()) + self.weight(
                p[p.len() - 2] as int,
                p[p.len() - 1] as int,
            )
        }
    }

    /// The positions of the nodes along `p`.
    pub open spec fn positions(&self, p: Seq<i32>) -> Seq<Vector3> {
        p.map_values(|i: i32| self.pos(i as int))
    }

    /// The graph as plain values: node positions and neighbour lists.
    pub open spec fn model(&self) -> (Seq<Vector3>, Seq<Seq<i32>>) {
        (Seq::new(self.len() as nat, |i: int| self.pos(i)), Seq::new(self.len() as nat, |i: int| self.adj(i)))
    }

    /// Node `i` is the node closest to `q`, and no earlier node is as close.
    pub open spec fn is_nearest(&self, q: Vector3, i: int) -> bool {
        &&& self.valid_id(i)
        &&& forall|j: int| 0 <= j < self.len() ==> sq_dist(self.pos(i), q) <= sq_dist(#[trigger] self.pos(j), q)
        &&& forall|j: int| 0 <= j < i ==> sq_dist(self.pos(i), q) < sq_dist(#[trigger] self.pos(j), q)
    }

    /// The id of the node nearest to `q` (meaningful for a non-empty graph).
    pub open spec fn nearest(&self, q: Vector3) -> int {
        choose|i: int| self.is_nearest(q, i)
    }

    /// The id of the node closest to `position`, the earliest one on a tie;
    /// -1 when the graph has no node.
    pub fn nearest_node(&self, position: Vector3) -> (r: i32)
        requires
            self.wf(),
        ensures
            self.len() == 0 ==> r == -1,
            self.len() > 0 ==> self.is_nearest(position, r as int) && r as int == self.nearest(
                position,
            ),
    {
        let mut min_i: i32 = -1;
        let mut min_d: u128 = 0;
        let mut i: usize = 0;
        while i < self.nodes.len()
            invariant
                self.wf(),
                0 <= i <= self.len(),
                i == 0 ==> min_i == -1,
                i > 0 ==> 0 <= min_i < i && min_d == sq_dist(self.pos(min_i as int), position),
                forall|j: int| 0 <= j < i ==> min_d <= sq_dist(#[trigger] self.pos(j), position),
                forall|j: int| 0 <= j < min_i ==> min_d < sq_dist(#[trigger] self.pos(j), position),
            decreases self.len() - i,
        {
            let d = self.nodes[i].position.sq_distance(&position);
            if min_i == -1 || d < min_d {
                min_i = i as i32;
                min_d = d;
            }
            i += 1;
        }
        proof {
            if self.len() > 0 {
                self.lemma_nearest_unique(position, min_i as int, self.nearest(position));
            }
        }
        min_i
    }

    /// At most one node is the nearest to `q`.
    pub proof fn lemma_nearest_unique(&self, q: Vector3, i: int, j: int)
        requires
            self.is_nearest(q, i),
        ensures
            self.is_nearest(q, self.nearest(q)),
            self.is_nearest(q, j) ==> i == j,
    {
        if self.is_nearest(q, j) && i != j {
            if i < j {
                assert(sq_dist(self.pos(j), q) < sq_dist(self.pos(i), q));
            } else {
                assert(sq_dist(self.pos(i), q) < sq_dist(self.pos(j), q));
            }
        }
    }

    /// Edge lengths are never negative.
    pub proof fn lemma_weight_nonneg(&self, a: int, b: int)
        ensures
            self.weight(a, b) >= 0,
    {
        lemma_ceil_sqrt_exists(sq_dist(self.pos(a), self.pos(b)) * FINE_SQ);
    }

    /// Path costs are never negative.
    pub proof fn lemma_path_cost_nonneg(&self, p: Seq<i32>)
        ensures
            self.path_cost(p) >= 0,
        decreases p.len(),
    {
        if p.len() > 1 {
            self.lemma_path_cost_nonneg(p.drop_last());
            self.lemma_weight_nonneg(p[p.len() - 2] as int, p[p.len() - 1] as int);
        }
    }

    /// The cost of a path splits at any of its nodes.
    pub proof fn lemma_path_cost_split(&self, p: Seq<i32>, k: int)
        requires
            0 <= k < p.len(),
        ensures
            self.path_cost(p) == self.path_cost(p.subrange(0, k + 1)) + self.path_cost(
                p.subrange(k, p.len() as int),
            ),
        decreases p.len(),
    {
        if k == p.len() - 1 {
            assert(p.subrange(0, k + 1) =~= p);
        } else {
            let dl = p.drop_last();
            self.lemma_path_cost_split(dl, k);
            assert(dl.subrange(0, k + 1) =~= p.subrange(0, k + 1));
            let tail = p.subrange(k, p.len() as int);
            assert(tail.drop_last() =~= dl.subrange(k, dl.len() as int));
        }
    }

    /// Walking one more edge before a path adds that edge's length.
    pub proof fn lemma_path_cost_prepend(&self, m: i32, p: Seq<i32>)
        requires
            p.len() > 0,
        ensures
            self.path_cost(seq![m] + p) == self.weight(m as int, p[0] as int) + self.path_cost(p),
    {
        let q = seq![m] + p;
        self.lemma_path_cost_split(q, 1);
        assert(q.subrange(1, q.len() as int) =~= p);
        let head = q.subrange(0, 2);
        assert(head.drop_last() =~= seq![m]);
        assert(head[0] == m && head[1] == p[0]);
        assert(self.path_cost(seq![m]) == 0);
        assert(self.path_cost(head) == self.weight(m as int, p[0] as int));
    }

    /// The nearest node to any point is at least as close as every other
    /// node, and strictly closer than every node inserted before it.
    pub proof fn lemma_nearest_node_is_closest(&self, q: Vector3)
        requires
            self.len() > 0,
        ensures
            self.is_nearest(q, self.nearest(q)),
            forall|j: int| 0 <= j < self.len() ==> sq_dist(self.pos(self.nearest(q)), q) <= sq_dist(#[trigger] self.pos(j), q),
            forall|j: int| 0 <= j < self.nearest(q) ==> sq_dist(self.pos(self.nearest(q)), q) < sq_dist(#[trigger] self.pos(j), q),
    {
        let i = self.nearest_among(q, self.len());
        self.lemma_nearest_unique(q, i, i);
    }

    /// Index of the nearest of the first `m` nodes, earliest on a tie.
    proof fn nearest_among(&self, q: Vector3, m: int) -> (i: int)
        requires
            0 < m <= self.len(),
        ensures
            0 <= i < m,
            forall|j: int| 0 <= j < m ==> sq_dist(self.pos(i), q) <= sq_dist(#[trigger] self.pos(j), q),
            forall|j: int| 0 <= j < i ==> sq_dist(self.pos(i), q) < sq_dist(#[trigger] self.pos(j), q),
            m == self.len() ==> self.is_nearest(q, i),
        decreases m,
    {
        if m == 1 {
            0
        } else {
            let b = self.nearest_among(q, m - 1);
            if sq_dist(self.pos(m - 1), q) < sq_dist(self.pos(b), q) {
                m - 1
            } else {
                b
            }
        }
    }

    /// Waypoints from the node nearest to `start` to the node nearest to
    /// `end`, found by `strat` and mapped back to node positions; `None` when
    /// the graph is empty or the strategy finds no path.
    pub fn get_path<S: SearchStrategy>(&self, start: Vector3, end: Vector3, strat: &S) -> (r: Option<Vec<Vector3>>)
        requires
            self.wf(),
        ensures
            self.len() == 0 ==> r is None,
            self.len() > 0 ==> (r is Some <==> self.reachable(self.nearest(start), self.nearest(end))),
            r matches Some(w) ==> exists|p: Seq<i32>|
                self.is_path(p, self.nearest(start), self.nearest(end)) && p.no_duplicates() && w@ == #[trigger] self.positions(p)
                    && (strat.finds_shortest(self, self.nearest(end)) ==> is_shortest_path(self, p, self.nearest(start), self.nearest(end))),
            self.len() > 0 && self.nearest(start) == self.nearest(end) ==> (r matches Some(w) && w@ == seq![self.pos(self.nearest(start))]),
            self.len() > 0 && strat.determined() ==> (r is Some <==> strat.result(self, self.nearest(start), self.nearest(end)) is Some),
            self.len() > 0 && strat.determined() ==> (r matches Some(w) ==> w@ == self.positions(
                strat.result(self, self.nearest(start), self.nearest(end))->Some_0,
            )),
    {
        if self.nodes.len() == 0 {
            return None;
        }
        let a = self.nearest_node(start);
        let b = self.nearest_node(end);
        match strat.get_path(self, a, b) {
            Some(p) => {
                let mut w: Vec<Vector3> = Vec::new();
                let mut i: usize = 0;
                while i < p.len()
                    invariant
                        self.wf(),
                        self.is_path(p@, a as int, b as int),
                        i <= p@.len(),
                        w@ =~= self.positions(p@.subrange(0, i as int)),
                    decreases p@.len() - i,
                {
                    assert(self.valid_id(p@[i as int] as int));
                    w.push(self.nodes[p[i] as usize].get_position());
                    i += 1;
                    assert(w@ =~= self.positions(p@.subrange(0, i as int)));
                }
                assert(p@.subrange(0, p@.len() as int) =~= p@);
                Some(w)
            },
            None => None,
        }
    }

    pub fn new() -> (r: Graph)
        ensures
            r.wf(),
            r.len() == 0,
    {
        Graph { adjacency_list: Vec::new(), nodes: Vec::new() }
    }

    /// Appends a node at `position`, with the next id and no edges.
    pub fn add_node(&mut self, position: Vector3)
        requires
            old(self).wf(),
            old(self).len() < i32::MAX,
        ensures
            final(self).wf(),
            final(self).len() == old(self).len() + 1,
            final(self).pos(old(self).len()) == position,
            final(self).adj(old(self).len()) == Seq::<i32>::empty(),
            forall|i: int| 0 <= i < old(self).len() ==> final(self).pos(i) == old(self).pos(i) && final(self).adj(i) == old(self).adj(i),
            final(self).model() == (old(self).model().0.push(position), old(self).model().1.push(Seq::<i32>::empty())),
    {
        let id = self.nodes.len() as i32;
        self.nodes.push(GraphNode::new(id, position));
        self.adjacency_list.push(Vec::new());
        proof {
            assert forall|i: int, k: int|
                0 <= i < self.len() && 0 <= k < self.adj(i).len() implies self.valid_id(
                #[trigger] self.adj(i)[k] as int) by {
                assert(i < old(self).len());
                assert(self.adj(i) == old(self).adj(i));
            }
            assert(self.model().0 =~= old(self).model().0.push(position));
            assert(self.model().1 =~= old(self).model().1.push(Seq::<i32>::empty()));
        }
    }

    /// Appends `b` to the neighbour list of `a` (one direction only).
    pub fn add_edge(&mut self, a: i32, b: i32)
        requires
            old(self).wf(),
            old(self).valid_id(a as int),
            old(self).valid_id(b as int),
        ensures
            final(self).wf(),
            final(self).len() == old(self).len(),
            final(self).adj(a as int) == old(self).adj(a as int).push(b),
            forall|i: int| 0 <= i < old(self).len() ==> final(self).pos(i) == old(self).pos(i),
            forall|i: int| 0 <= i < old(self).len() && i != a ==> final(self).adj(i) == old(self).adj(i),
            final(self).model() == (old(self).model().0, old(self).model().1.update(a as int, old(self).model().1[a as int].push(b))),
    {
        let ghost g0 = *self;
        self.adjacency_list[a as usize].push(b);
        proof {
            assert forall|i: int, k: int|
                0 <= i < self.len() && 0 <= k < self.adj(i).len() implies self.valid_id(
                #[trigger] self.adj(i)[k] as int) by {
                if i == a {
                    if k < g0.adj(i).len() {
                        assert(self.adj(i)[k] == g0.adj(i)[k]);
                    }
                } else {
                    assert(self.adj(i) == g0.adj(i));
                }
            }
            assert(self.model().0 =~= g0.model().0);
            assert(self.model().1 =~= g0.model().1.update(a as int, g0.model().1[a as int].push(b)));
        }
    }
}

} // verus!
