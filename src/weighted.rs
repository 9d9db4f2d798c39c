use vstd::multiset::Multiset;
use vstd::prelude::*;
use vstd::set_lib::{lemma_int_range, lemma_len_subset, set_int_range};

use crate::heap::{is_least, Heap};
use crate::sorter::Sortable;
use crate::union_find::{lemma_member_of_own_set, UnionFind};

verus! {

/// The distance recorded for a vertex that was never reached.
pub const UNREACHED: i64 = 0x7fff_ffff_ffff_ffff;

/// The largest weight an edge can carry.
pub const MAX_WEIGHT: i64 = 0x7fff_ffff;

/// An adjacency list: for each vertex, its outgoing arcs as (target, weight).
pub type Adjacency = Seq<Seq<(int, int)>>;

/// `adj` holds an arc from `u` to `v` of weight `w`.
pub open spec fn arc_in(adj: Adjacency, u: int, v: int, w: int) -> bool {
    0 <= u < adj.len() && exists|k: int| 0 <= k < adj[u].len() && #[trigger] adj[u][k] == (v, w)
}

/// Every arc of `adj` has a weight that fits in an `i32`.
pub open spec fn weights_fit(adj: Adjacency) -> bool {
    forall|u: int, k: int|
        0 <= u < adj.len() && 0 <= k < adj[u].len() ==> -MAX_WEIGHT - 1 <= #[trigger] adj[u][k].1
            <= MAX_WEIGHT
}

/// Every arc of `adj` leads to a vertex of `adj`.
pub open spec fn targets_in_range(adj: Adjacency) -> bool {
    forall|u: int, k: int|
        0 <= u < adj.len() && 0 <= k < adj[u].len() ==> 0 <= #[trigger] adj[u][k].0 < adj.len()
}

/// `p` is a walk of one or more vertices along arcs of `adj` whose weights add
/// up to `w`.
pub open spec fn is_walk(adj: Adjacency, p: Seq<int>, w: int) -> bool
    decreases p.len(),
{
    if p.len() == 0 {
        false
    } else if p.len() == 1 {
        w == 0 && 0 <= p[0] < adj.len()
    } else {
        exists|x: int| #[trigger] arc_in(adj, p[0], p[1], x) && is_walk(adj, p.drop_first(), w - x)
    }
}

/// Some walk along arcs of `adj` leads from `a` to `b`.
pub open spec fn walk_reaches(adj: Adjacency, a: int, b: int) -> bool {
    exists|p: Seq<int>, w: int| #[trigger] is_walk(adj, p, w) && p[0] == a && p.last() == b
}

/// Every arc out of a vertex that `start` reaches weighs more than zero.
pub open spec fn positive_from(adj: Adjacency, start: int) -> bool {
    forall|u: int, k: int|
        0 <= u < adj.len() && walk_reaches(adj, start, u) && 0 <= k < adj[u].len() ==> #[trigger] adj[u][k].1 > 0
}

/// Every vertex with a recorded distance is reached by some walk from `start`.
pub open spec fn reached_by_walks(adj: Adjacency, start: int, dist: Seq<i64>) -> bool {
    forall|v: int| 0 <= v < adj.len() && #[trigger] dist[v] < UNREACHED ==> walk_reaches(adj, start, v)
}

/// `dist` and `parents` certify single-source shortest distances from `start`:
/// the start is at distance zero, each other reached vertex is reached through
/// its parent by an arc that accounts exactly for the difference, and no arc
/// out of a reached vertex leads anywhere more cheaply than recorded.
pub open spec fn is_shortest_path_tree(
    adj: Adjacency,
    start: int,
    parents: Seq<Option<usize>>,
    dist: Seq<i64>,
) -> bool {
    let n = adj.len();
    &&& parents.len() == n
    &&& dist.len() == n
    &&& 0 <= start < n
    &&& dist[start] == 0
    &&& parents[start].is_none()
    &&& forall|v: int| 0 <= v < n ==> 0 <= #[trigger] dist[v]
    &&& forall|v: int|
        0 <= v < n && v != start ==> (dist[v] < UNREACHED <==> #[trigger] parents[v].is_some())
    &&& forall|v: int|
        0 <= v < n && #[trigger] parents[v].is_some() ==> {
            let u = parents[v].unwrap() as int;
            &&& 0 <= u < n
            &&& dist[u] < UNREACHED
            &&& arc_in(adj, u, v, dist[v] - dist[u])
        }
    &&& forall|u: int, k: int|
        0 <= u < n && dist[u] < UNREACHED && 0 <= k < adj[u].len() ==> {
            let v = #[trigger] adj[u][k].0;
            &&& dist[v] < UNREACHED
            &&& dist[v] <= dist[u] + adj[u][k].1
        }
}

#[derive(Clone, Copy, Debug)]
struct WeightedEdge {
    weight: i32,
    points_to: usize,
}

impl WeightedEdge {
    fn new(weight: i32, points_to: usize) -> (r: Self)
        ensures
            r.weight == weight,
            r.points_to == points_to,
    {
        WeightedEdge { weight, points_to }
    }
}

/// A weighted graph over the vertices `0..n`, directed or not, where each
/// vertex keeps the list of its outgoing edges, the latest added first.
#[derive(Debug)]
pub struct WeightedGraph {
    edges: Vec<Vec<WeightedEdge>>,
    degrees: Vec<usize>,
    nedges: usize,
    nvert: usize,
    directed: bool,
}

impl View for WeightedGraph {
    type V = Adjacency;

    closed spec fn view(&self) -> Adjacency {
        Seq::new(
            self.edges@.len(),
            |v: int|
                Seq::new(
                    self.edges@[v]@.len(),
                    |k: int| (self.edges@[v]@[k].points_to as int, self.edges@[v]@[k].weight as int),
                ),
        )
    }
}

impl WeightedGraph {
    pub closed spec fn is_directed(&self) -> bool {
        self.directed
    }

    /// How many times an edge was inserted.
    pub closed spec fn edge_count(&self) -> nat {
        self.nedges as nat
    }

    pub closed spec fn wf(&self) -> bool {
        &&& self.degrees@.len() == self.edges@.len()
        &&& forall|v: int|
            0 <= v < self.edges@.len() ==> #[trigger] self.degrees@[v] == self.edges@[v]@.len()
        &&& targets_in_range(self@)
        &&& self.nvert == self.nedges
    }

    proof fn lemma_weights_fit(&self)
        ensures
            weights_fit(self@),
    {
        assert forall|u: int, k: int| 0 <= u < self@.len() && 0 <= k < self@[u].len() implies -MAX_WEIGHT - 1
            <= #[trigger] self@[u][k].1 <= MAX_WEIGHT by {
            assert(self@[u][k].1 == self.edges@[u]@[k].weight as int);
        }
    }

    /// A graph of `vcapacity` vertices and no edges.
    pub fn new(vcapacity: usize, directed: bool) -> (r: Self)
        ensures
            r.wf(),
            r@ == Seq::new(vcapacity as nat, |v: int| Seq::<(int, int)>::empty()),
            r.is_directed() == directed,
            r.edge_count() == 0,
    {
        let mut edges: Vec<Vec<WeightedEdge>> = Vec::with_capacity(vcapacity);
        let mut degrees: Vec<usize> = Vec::with_capacity(vcapacity);
        let mut i: usize = 0;
        while i < vcapacity
            invariant
                i <= vcapacity,
                edges@.len() == i,
                degrees@.len() == i,
                forall|v: int| 0 <= v < i ==> (#[trigger] edges@[v])@.len() == 0,
                forall|v: int| 0 <= v < i ==> #[trigger] degrees@[v] == 0,
            decreases vcapacity - i,
        {
            degrees.push(0);
            edges.push(Vec::new());
            i += 1;
        }
        let r = WeightedGraph { edges, degrees, nedges: 0, nvert: 0, directed };
        proof {
            assert(r@ =~~= Seq::new(vcapacity as nat, |v: int| Seq::<(int, int)>::empty()));
        }
        r
    }

    fn push_arc(&mut self, from: usize, to: usize, weight: i32)
        requires
            old(self).wf(),
            from < old(self)@.len(),
            to < old(self)@.len(),
        ensures
            final(self).wf(),
            final(self)@ == old(self)@.update(
                from as int,
                seq![(to as int, weight as int)].add(old(self)@[from as int]),
            ),
            final(self).directed == old(self).directed,
            final(self).nedges == old(self).nedges,
    {
        let ghost before = self@;
        self.edges[from].insert(0, WeightedEdge::new(weight, to));
        let len = self.edges[from].len();
        self.degrees.set(from, len);
        proof {
            assert(self@ =~~= before.update(from as int, seq![(to as int, weight as int)].add(before[from as int])));
        }
    }

    /// Adds an edge from `i` to `j` of weight `weight`; an undirected graph
    /// also gets the mirrored edge from `j` to `i`.
    pub fn insert_edge(&mut self, i: usize, j: usize, weight: i32)
        requires
            old(self).wf(),
            i < old(self)@.len(),
            j < old(self)@.len(),
            old(self).edge_count() < usize::MAX,
        ensures
            final(self).wf(),
            final(self).is_directed() == old(self).is_directed(),
            final(self).edge_count() == old(self).edge_count() + 1,
            ({
                let once = old(self)@.update(i as int, seq![(j as int, weight as int)].add(old(self)@[i as int]));
                final(self)@ == if old(self).is_directed() {
                    once
                } else {
                    once.update(j as int, seq![(i as int, weight as int)].add(once[j as int]))
                }
            }),
    {
        self.nedges += 1;
        self.nvert += 1;
        self.push_arc(i, j, weight);
        if !self.directed {
            self.push_arc(j, i, weight);
        }
    }

    /// Shortest distances from `start`, settling at each step the unsettled
    /// vertex with the least known distance and relaxing the edges out of it.
    /// Every edge out of a vertex reachable from `start` must weigh more than
    /// zero. The vertex count is bounded so
    /// that any path's weight fits in an `i64`.
    pub fn dijkstras<'a>(&'a self, start: usize) -> (r: ShortestPaths<'a>)
        requires
            self.wf(),
            start < self@.len(),
            positive_from(self@, start as int),
            self@.len() <= u32::MAX,
        ensures
            r.wf(),
            r.graph() == self,
            r.start() == start,
    {
        let n = self.edges.len();
        let ghost adj = self@;
        let mut distance: Vec<i64> = Vec::with_capacity(n);
        let mut intree: Vec<bool> = Vec::with_capacity(n);
        let mut parent: Vec<Option<usize>> = Vec::with_capacity(n);
        let mut i: usize = 0;
        while i < n
            invariant
                i <= n,
                n == adj.len(),
                distance@.len() == i,
                intree@.len() == i,
                parent@.len() == i,
                forall|v: int| 0 <= v < i ==> #[trigger] distance@[v] == UNREACHED,
                forall|v: int| 0 <= v < i ==> !#[trigger] intree@[v],
                forall|v: int| 0 <= v < i ==> (#[trigger] parent@[v]).is_none(),
            decreases n - i,
        {
            distance.push(UNREACHED);
            intree.push(false);
            parent.push(None);
            i += 1;
        }
        distance.set(start, 0);
        let ghost mut done: nat = 0;
        proof {
            assert(settled(intree@) =~= Set::empty());
            let p = seq![start as int];
            assert(is_walk(adj, p, 0) && p[0] == start && p.last() == start);
            assert forall|v: int| 0 <= v < n && #[trigger] distance@[v] < UNREACHED implies walk_reaches(adj, start as int, v) by {
                assert(v == start);
            }
        }
        loop
            invariant
                n == adj.len(),
                adj == self@,
                self.wf(),
                positive_from(adj, start as int),
                reached_by_walks(adj, start as int, distance@),
                n <= u32::MAX,
                start < n,
                distance@.len() == n,
                intree@.len() == n,
                parent@.len() == n,
                dijkstra_state(adj, start as int, parent@, distance@, intree@),
                forall|v: int| 0 <= v < n && distance@[v] < UNREACHED ==> #[trigger] distance@[v] <= done * MAX_WEIGHT,
                done == settled(intree@).len(),
                settled(intree@).finite(),
                done <= n,
            decreases n - done,
        {
            let cur = match closest_unsettled(&distance, &intree) {
                None => {
                    proof {
                        assert forall|v: int| 0 <= v < n && distance@[v] < UNREACHED implies #[trigger] distance@[v]
                            <= u32::MAX * MAX_WEIGHT by {
                            assert(done * MAX_WEIGHT <= u32::MAX * MAX_WEIGHT) by (nonlinear_arith)
                                requires done <= u32::MAX;
                        }
                        self.lemma_weights_fit();
                        lemma_dijkstra_done(adj, start as int, parent@, distance@, intree@);
                    }
                    return ShortestPaths { graph: self, start, parents: parent, distance };
                },
                Some(c) => c,
            };
            proof {
                lemma_settle_count(intree@, cur as int);
            }
            intree.set(cur, true);
            proof {
                done = done + 1;
                lemma_settled_bound(intree@);
            }
            let dcur = distance[cur];
            let adj_v = &self.edges[cur];
            let mut k: usize = 0;
            while k < adj_v.len()
                invariant
                    n == adj.len(),
                    adj == self@,
                    self.wf(),
                    positive_from(adj, start as int),
                    reached_by_walks(adj, start as int, distance@),
                    cur < n,
                    adj_v@.len() == adj[cur as int].len(),
                    forall|j: int| 0 <= j < adj_v@.len() ==> (#[trigger] adj_v@[j]).points_to == adj[cur as int][j].0 && adj_v@[j].weight == adj[cur as int][j].1,
                    k <= adj_v@.len(),
                    start < n,
                    distance@.len() == n,
                    intree@.len() == n,
                    parent@.len() == n,
                    intree@[cur as int],
                    distance@[cur as int] == dcur,
                    dcur < UNREACHED,
                    dcur <= (done - 1) * MAX_WEIGHT,
                    1 <= done <= n,
                    n <= u32::MAX,
                    relaxing_state(adj, start as int, parent@, distance@, intree@, cur as int, k as int),
                    forall|v: int| 0 <= v < n && distance@[v] < UNREACHED ==> #[trigger] distance@[v] <= done * MAX_WEIGHT,
                decreases adj_v@.len() - k,
            {
                let e = adj_v[k];
                let v = e.points_to;
                proof {
                    assert(walk_reaches(adj, start as int, cur as int));
                    assert(adj[cur as int][k as int].1 > 0);
                    assert((done - 1) * MAX_WEIGHT + MAX_WEIGHT == done * MAX_WEIGHT) by (nonlinear_arith);
                    assert(done * MAX_WEIGHT <= u32::MAX * MAX_WEIGHT) by (nonlinear_arith)
                        requires done <= u32::MAX;
                }
                let cand = dcur + e.weight as i64;
                if cand < distance[v] {
                    let ghost d0 = distance@;
                    let ghost p0 = parent@;
                    distance.set(v, cand);
                    parent.set(v, Some(cur));
                    proof {
                        lemma_relax_step(adj, start as int, p0, d0, intree@, cur, k as int);
                        lemma_reach_step(adj, start as int, d0, cur as int, k as int);
                    }
                } else {
                    proof {
                        assert(relaxing_state(adj, start as int, parent@, distance@, intree@, cur as int, k as int + 1));
                    }
                }
                k += 1;
            }
            proof {
                lemma_relaxed_all(adj, start as int, parent@, distance@, intree@, cur as int);
            }
        }
    }
}

/// The vertices marked settled.
pub open spec fn settled(marks: Seq<bool>) -> Set<int> {
    Set::new(|v: int| 0 <= v < marks.len() && marks[v])
}

pub(crate) proof fn lemma_settled_bound(marks: Seq<bool>)
    ensures
        settled(marks).finite(),
        settled(marks).len() <= marks.len(),
{
    lemma_int_range(0, marks.len() as int);
    lemma_len_subset(settled(marks), set_int_range(0, marks.len() as int));
}

pub(crate) proof fn lemma_settle_count(marks: Seq<bool>, c: int)
    requires
        0 <= c < marks.len(),
        !marks[c],
    ensures
        settled(marks.update(c, true)) == settled(marks).insert(c),
        settled(marks.update(c, true)).len() == settled(marks).len() + 1,
        settled(marks.update(c, true)).finite(),
{
    lemma_settled_bound(marks);
    assert(settled(marks.update(c, true)) =~= settled(marks).insert(c));
}

/// What holds between the settling steps of Dijkstra's method.
spec fn dijkstra_state(
    adj: Adjacency,
    start: int,
    parents: Seq<Option<usize>>,
    dist: Seq<i64>,
    done: Seq<bool>,
) -> bool {
    let n = adj.len();
    &&& targets_in_range(adj)
    &&& parents.len() == n
    &&& dist.len() == n
    &&& done.len() == n
    &&& 0 <= start < n
    &&& dist[start] == 0
    &&& parents[start].is_none()
    &&& forall|v: int| 0 <= v < n ==> 0 <= #[trigger] dist[v]
    &&& forall|v: int|
        0 <= v < n && v != start ==> (dist[v] < UNREACHED <==> #[trigger] parents[v].is_some())
    &&& forall|v: int|
        0 <= v < n && #[trigger] parents[v].is_some() ==> {
            let u = parents[v].unwrap() as int;
            &&& 0 <= u < n
            &&& done[u]
            &&& arc_in(adj, u, v, dist[v] - dist[u])
        }
    &&& forall|f: int| 0 <= f < n && #[trigger] done[f] ==> dist[f] < UNREACHED
    &&& forall|u: int, k: int|
        0 <= u < n && done[u] && 0 <= k < adj[u].len() ==> {
            let v = #[trigger] adj[u][k].0;
            dist[v] <= dist[u] + adj[u][k].1
        }
    &&& forall|f: int, g: int| 0 <= f < n && 0 <= g < n && #[trigger] done[f] && !#[trigger] done[g] ==> dist[f] <= dist[g]
}

/// Dijkstra's state while the arcs out of the newly settled `cur` are being
/// relaxed, the first `k` of them already.
spec fn relaxing_state(
    adj: Adjacency,
    start: int,
    parents: Seq<Option<usize>>,
    dist: Seq<i64>,
    done: Seq<bool>,
    cur: int,
    k: int,
) -> bool {
    let n = adj.len();
    &&& targets_in_range(adj)
    &&& parents.len() == n
    &&& dist.len() == n
    &&& done.len() == n
    &&& 0 <= start < n
    &&& 0 <= cur < n
    &&& done[cur]
    &&& 0 <= k <= adj[cur].len()
    &&& dist[start] == 0
    &&& parents[start].is_none()
    &&& forall|v: int| 0 <= v < n ==> 0 <= #[trigger] dist[v]
    &&& forall|v: int|
        0 <= v < n && v != start ==> (dist[v] < UNREACHED <==> #[trigger] parents[v].is_some())
    &&& forall|v: int|
        0 <= v < n && #[trigger] parents[v].is_some() ==> {
            let u = parents[v].unwrap() as int;
            &&& 0 <= u < n
            &&& done[u]
            &&& arc_in(adj, u, v, dist[v] - dist[u])
        }
    &&& forall|f: int| 0 <= f < n && #[trigger] done[f] ==> dist[f] < UNREACHED
    &&& forall|u: int, j: int|
        0 <= u < n && done[u] && 0 <= j < adj[u].len() && (u != cur || j < k) ==> {
            let v = #[trigger] adj[u][j].0;
            dist[v] <= dist[u] + adj[u][j].1
        }
    &&& forall|f: int| 0 <= f < n && #[trigger] done[f] ==> dist[f] <= dist[cur]
    &&& forall|f: int, g: int| 0 <= f < n && 0 <= g < n && #[trigger] done[f] && !#[trigger] done[g] ==> dist[f] <= dist[g]
}

proof fn lemma_relax_step(
    adj: Adjacency,
    start: int,
    parents: Seq<Option<usize>>,
    dist: Seq<i64>,
    done: Seq<bool>,
    cur: usize,
    k: int,
)
    requires
        relaxing_state(adj, start, parents, dist, done, cur as int, k),
        adj[cur as int][k].1 > 0,
        k < adj[cur as int].len(),
        dist[cur as int] + adj[cur as int][k].1 < dist[adj[cur as int][k].0],
        dist[cur as int] + adj[cur as int][k].1 <= UNREACHED,
    ensures
        ({
            let v = adj[cur as int][k].0;
            let c = dist[cur as int] + adj[cur as int][k].1;
            relaxing_state(
                adj,
                start,
                parents.update(v, Some(cur as usize)),
                dist.update(v, c as i64),
                done,
                cur as int,
                k + 1,
            )
        }),
{
    let cur = cur as int;
    let n = adj.len();
    let v = adj[cur][k].0;
    let w = adj[cur][k].1;
    let c = dist[cur] + w;
    let p2 = parents.update(v, Some(cur as usize));
    let d2 = dist.update(v, c as i64);
    assert(0 <= v < n);
    assert(!done[v]) by {
        if done[v] {
            assert(dist[v] <= dist[cur]);
        }
    }
    assert(v != start) by {
        if v == start {
            assert(dist[start] == 0);
        }
    }
    assert(arc_in(adj, cur, v, d2[v] - d2[cur]));
    assert forall|x: int| 0 <= x < n && #[trigger] p2[x].is_some() implies {
        let u = p2[x].unwrap() as int;
        &&& 0 <= u < n
        &&& done[u]
        &&& arc_in(adj, u, x, d2[x] - d2[u])
    } by {
        if x == v {
            assert(d2[v] - d2[cur] == w);
            assert(adj[cur][k] == (v, w));
        } else {
            let u = parents[x].unwrap() as int;
            assert(u != v);
        }
    }
    assert forall|u: int, j: int|
        0 <= u < n && done[u] && 0 <= j < adj[u].len() && (u != cur || j < k + 1) implies {
        let y = #[trigger] adj[u][j].0;
        d2[y] <= d2[u] + adj[u][j].1
    } by {
        if u == cur && j == k {
        } else {
            assert(u != v);
        }
    }
}

proof fn lemma_reach_step(adj: Adjacency, start: int, dist: Seq<i64>, cur: int, k: int)
    requires
        reached_by_walks(adj, start, dist),
        targets_in_range(adj),
        dist.len() == adj.len(),
        0 <= cur < adj.len(),
        0 <= k < adj[cur].len(),
        dist[cur] < UNREACHED,
        dist[cur] + adj[cur][k].1 < UNREACHED,
    ensures
        reached_by_walks(adj, start, dist.update(adj[cur][k].0, (dist[cur] + adj[cur][k].1) as i64)),
{
    let v = adj[cur][k].0;
    let d2 = dist.update(v, (dist[cur] + adj[cur][k].1) as i64);
    assert(walk_reaches(adj, start, cur));
    let (p, w) = choose|p: Seq<int>, w: int| #[trigger] is_walk(adj, p, w) && p[0] == start && p.last() == cur;
    assert(arc_in(adj, cur, v, adj[cur][k].1));
    lemma_walk_extend(adj, p, w, v, adj[cur][k].1);
    assert(is_walk(adj, p.push(v), w + adj[cur][k].1) && p.push(v)[0] == start && p.push(v).last() == v);
    assert forall|x: int| 0 <= x < adj.len() && #[trigger] d2[x] < UNREACHED implies walk_reaches(adj, start, x) by {
        if x != v {
            assert(dist[x] < UNREACHED);
        }
    }
}

proof fn lemma_relaxed_all(
    adj: Adjacency,
    start: int,
    parents: Seq<Option<usize>>,
    dist: Seq<i64>,
    done: Seq<bool>,
    cur: int,
)
    requires
        relaxing_state(adj, start, parents, dist, done, cur, adj[cur].len() as int),
    ensures
        dijkstra_state(adj, start, parents, dist, done),
{
}

proof fn lemma_dijkstra_done(
    adj: Adjacency,
    start: int,
    parents: Seq<Option<usize>>,
    dist: Seq<i64>,
    done: Seq<bool>,
)
    requires
        dijkstra_state(adj, start, parents, dist, done),
        forall|g: int| 0 <= g < adj.len() && !done[g] ==> #[trigger] dist[g] == UNREACHED,
        forall|v: int| 0 <= v < adj.len() && dist[v] < UNREACHED ==> #[trigger] dist[v] <= u32::MAX * MAX_WEIGHT,
        weights_fit(adj),
    ensures
        is_shortest_path_tree(adj, start, parents, dist),
{
    let n = adj.len();
    assert forall|v: int| 0 <= v < n && #[trigger] parents[v].is_some() implies {
        let u = parents[v].unwrap() as int;
        &&& 0 <= u < n
        &&& dist[u] < UNREACHED
        &&& arc_in(adj, u, v, dist[v] - dist[u])
    } by {
        let u = parents[v].unwrap() as int;
        assert(done[u]);
    }
    assert forall|u: int, k: int| 0 <= u < n && dist[u] < UNREACHED && 0 <= k < adj[u].len() implies {
        let v = #[trigger] adj[u][k].0;
        &&& dist[v] < UNREACHED
        &&& dist[v] <= dist[u] + adj[u][k].1
    } by {
        assert(done[u]);
        let v = adj[u][k].0;
        assert(0 <= v < n);
        assert(adj[u][k].1 <= MAX_WEIGHT);
        if !done[v] {
            assert(dist[u] <= dist[v]);
        }
    }
}

/// The unsettled vertex of least finite distance, the lowest-numbered on ties;
/// `None` when every unsettled vertex is unreached.
fn closest_unsettled(distance: &Vec<i64>, settled: &Vec<bool>) -> (r: Option<usize>)
    requires
        distance@.len() == settled@.len(),
    ensures
        r.is_none() ==> forall|g: int|
            0 <= g < settled@.len() && !settled@[g] ==> #[trigger] distance@[g] == UNREACHED,
        r.is_some() ==> {
            let c = r.unwrap() as int;
            &&& 0 <= c < settled@.len()
            &&& !settled@[c]
            &&& distance@[c] < UNREACHED
            &&& forall|g: int| 0 <= g < settled@.len() && !settled@[g] ==> distance@[c] <= #[trigger] distance@[g]
        },
{
    let mut best: Option<usize> = None;
    let mut i: usize = 0;
    while i < distance.len()
        invariant
            distance@.len() == settled@.len(),
            i <= distance@.len(),
            best.is_none() ==> forall|g: int| 0 <= g < i && !settled@[g] ==> #[trigger] distance@[g] == UNREACHED,
            best.is_some() ==> {
                let c = best.unwrap() as int;
                &&& 0 <= c < i
                &&& !settled@[c]
                &&& distance@[c] < UNREACHED
                &&& forall|g: int| 0 <= g < i && !settled@[g] ==> distance@[c] <= #[trigger] distance@[g]
            },
        decreases distance@.len() - i,
    {
        if !settled[i] && distance[i] < UNREACHED {
            match best {
                None => {
                    best = Some(i);
                },
                Some(b) => {
                    if distance[i] < distance[b] {
                        best = Some(i);
                    }
                },
            }
        }
        i += 1;
    }
    best
}

/// The total of `links[v]` over the vertices `v < k` that have a parent.
pub open spec fn tree_weight(parents: Seq<Option<usize>>, links: Seq<int>, k: int) -> int
    decreases k,
{
    if k <= 0 {
        0
    } else {
        tree_weight(parents, links, k - 1) + if parents[k - 1].is_some() {
            links[k - 1]
        } else {
            0
        }
    }
}

/// Each vertex joined the tree by a link no heavier than any arc from a vertex
/// that joined before it to one that had not joined yet.
pub open spec fn grown_greedily(
    adj: Adjacency,
    start: int,
    parents: Seq<Option<usize>>,
    links: Seq<int>,
    order: Seq<int>,
) -> bool {
    let n = adj.len();
    forall|v: int, u: int, k: int|
        #![trigger parents[v], adj[u][k]]
        0 <= v < n && parents[v].is_some() && 0 <= u < n && (u == start || parents[u].is_some())
            && order[u] < order[v] && 0 <= k < adj[u].len() && (!(adj[u][k].0 == start
            || parents[adj[u][k].0].is_some()) || order[v] <= order[adj[u][k].0]) ==> links[v]
            <= adj[u][k].1
}

/// The greedy choice so far: each settled vertex other than `start` was
/// joined by a link no heavier than any arc from a vertex settled before it
/// to one not settled before it.
spec fn greedy_so_far(adj: Adjacency, start: int, dist: Seq<i64>, done: Seq<bool>, order: Seq<int>) -> bool {
    let n = adj.len();
    forall|v: int, u: int, k: int|
        #![trigger done[v], adj[u][k]]
        0 <= v < n && done[v] && v != start && 0 <= u < n && done[u] && order[u] < order[v] && 0 <= k
            < adj[u].len() && (!done[adj[u][k].0] || order[v] <= order[adj[u][k].0]) ==> dist[v]
            <= adj[u][k].1
}

/// `parents` is a tree rooted at `start` whose links are arcs of `adj`, link
/// `v` weighing `links[v]`, and `total` is the sum of those weights. Each
/// vertex joined after its parent in `order`, no two at the same step, so
/// there is no cycle; and no arc leaves the tree: it spans everything
/// reachable from `start`.
pub open spec fn is_spanning_tree(
    adj: Adjacency,
    start: int,
    parents: Seq<Option<usize>>,
    links: Seq<int>,
    order: Seq<int>,
    total: int,
) -> bool {
    let n = adj.len();
    &&& parents.len() == n
    &&& links.len() == n
    &&& order.len() == n
    &&& 0 <= start < n
    &&& parents[start].is_none()
    &&& forall|v: int|
        0 <= v < n && #[trigger] parents[v].is_some() ==> {
            let u = parents[v].unwrap() as int;
            &&& 0 <= u < n
            &&& (u == start || parents[u].is_some())
            &&& order[u] < order[v]
            &&& arc_in(adj, u, v, links[v])
        }
    &&& forall|u: int, k: int|
        0 <= u < n && (u == start || parents[u].is_some()) && 0 <= k < adj[u].len() ==> {
            let v = #[trigger] adj[u][k].0;
            v == start || parents[v].is_some()
        }
    &&& forall|v: int, w: int|
        #![trigger order[v], order[w]]
        0 <= v < n && 0 <= w < n && v != w && (v == start || parents[v].is_some()) && (w == start
            || parents[w].is_some()) ==> order[v] != order[w]
    &&& total == tree_weight(parents, links, n as int)
}

/// The total of `dist[v]` over the settled vertices `v < k` other than `start`.
spec fn settled_weight(done: Seq<bool>, dist: Seq<i64>, start: int, k: int) -> int
    decreases k,
{
    if k <= 0 {
        0
    } else {
        settled_weight(done, dist, start, k - 1) + if done[k - 1] && k - 1 != start {
            dist[k - 1] as int
        } else {
            0
        }
    }
}

proof fn lemma_settled_weight_settle(done: Seq<bool>, dist: Seq<i64>, start: int, c: int, k: int)
    requires
        0 <= c < done.len(),
        done.len() == dist.len(),
        k <= done.len(),
        !done[c],
    ensures
        settled_weight(done.update(c, true), dist, start, k) == settled_weight(done, dist, start, k)
            + if c < k && c != start {
            dist[c] as int
        } else {
            0
        },
    decreases k,
{
    if k > 0 {
        lemma_settled_weight_settle(done, dist, start, c, k - 1);
    }
}

proof fn lemma_settled_weight_relax(done: Seq<bool>, dist: Seq<i64>, start: int, v: int, d: i64, k: int)
    requires
        0 <= v < done.len(),
        done.len() == dist.len(),
        k <= done.len(),
        !done[v],
    ensures
        settled_weight(done, dist.update(v, d), start, k) == settled_weight(done, dist, start, k),
    decreases k,
{
    if k > 0 {
        lemma_settled_weight_relax(done, dist, start, v, d, k - 1);
    }
}

proof fn lemma_settled_is_tree_weight(
    done: Seq<bool>,
    dist: Seq<i64>,
    start: int,
    parents: Seq<Option<usize>>,
    k: int,
)
    requires
        done.len() == dist.len(),
        parents.len() == dist.len(),
        k <= done.len(),
        forall|v: int| 0 <= v < done.len() ==> (#[trigger] done[v] && v != start) == parents[v].is_some(),
    ensures
        settled_weight(done, dist, start, k) == tree_weight(
            parents,
            dist.map_values(|x: i64| x as int),
            k,
        ),
    decreases k,
{
    if k > 0 {
        lemma_settled_is_tree_weight(done, dist, start, parents, k - 1);
        assert(done[k - 1] && k - 1 != start <==> parents[k - 1].is_some());
    }
}

/// What holds between the settling steps of Prim's method; `count` vertices
/// are settled so far, and `order` tells when each joined.
spec fn prim_state(
    adj: Adjacency,
    start: int,
    parents: Seq<Option<usize>>,
    dist: Seq<i64>,
    done: Seq<bool>,
    order: Seq<int>,
    count: int,
    total: int,
) -> bool {
    let n = adj.len();
    &&& targets_in_range(adj)
    &&& weights_fit(adj)
    &&& parents.len() == n
    &&& dist.len() == n
    &&& done.len() == n
    &&& order.len() == n
    &&& 0 <= start < n
    &&& dist[start] == 0
    &&& parents[start].is_none()
    &&& count > 0 ==> done[start]
    &&& count == 0 ==> forall|v: int| 0 <= v < n ==> !#[trigger] done[v]
    &&& forall|v: int|
        0 <= v < n ==> #[trigger] dist[v] == UNREACHED || -MAX_WEIGHT - 1 <= dist[v] <= MAX_WEIGHT
    &&& forall|v: int|
        0 <= v < n && v != start ==> (dist[v] < UNREACHED <==> #[trigger] parents[v].is_some())
    &&& forall|v: int|
        0 <= v < n && #[trigger] parents[v].is_some() ==> {
            let u = parents[v].unwrap() as int;
            &&& 0 <= u < n
            &&& done[u]
            &&& (done[v] ==> order[u] < order[v])
            &&& arc_in(adj, u, v, dist[v] as int)
        }
    &&& forall|f: int| 0 <= f < n && #[trigger] done[f] ==> dist[f] < UNREACHED && 0 <= order[f] < count
    &&& forall|f: int, g: int| 0 <= f < n && 0 <= g < n && f != g && #[trigger] done[f] && #[trigger] done[g] ==> order[f] != order[g]
    &&& forall|u: int, k: int|
        0 <= u < n && done[u] && 0 <= k < adj[u].len() ==> {
            let v = #[trigger] adj[u][k].0;
            done[v] || dist[v] <= adj[u][k].1
        }
    &&& total == settled_weight(done, dist, start, n as int)
    &&& -count * (MAX_WEIGHT + 1) <= total <= count * MAX_WEIGHT
    &&& greedy_so_far(adj, start, dist, done, order)
}

/// Prim's state while the arcs out of the newly settled `cur` are relaxed,
/// the first `k` of them already.
spec fn prim_relaxing(
    adj: Adjacency,
    start: int,
    parents: Seq<Option<usize>>,
    dist: Seq<i64>,
    done: Seq<bool>,
    order: Seq<int>,
    count: int,
    total: int,
    cur: int,
    k: int,
) -> bool {
    let n = adj.len();
    &&& targets_in_range(adj)
    &&& weights_fit(adj)
    &&& parents.len() == n
    &&& dist.len() == n
    &&& done.len() == n
    &&& order.len() == n
    &&& 0 <= start < n
    &&& 0 <= cur < n
    &&& done[cur]
    &&& 0 <= k <= adj[cur].len()
    &&& dist[start] == 0
    &&& parents[start].is_none()
    &&& done[start]
    &&& forall|v: int|
        0 <= v < n ==> #[trigger] dist[v] == UNREACHED || -MAX_WEIGHT - 1 <= dist[v] <= MAX_WEIGHT
    &&& forall|v: int|
        0 <= v < n && v != start ==> (dist[v] < UNREACHED <==> #[trigger] parents[v].is_some())
    &&& forall|v: int|
        0 <= v < n && #[trigger] parents[v].is_some() ==> {
            let u = parents[v].unwrap() as int;
            &&& 0 <= u < n
            &&& done[u]
            &&& (done[v] ==> order[u] < order[v])
            &&& arc_in(adj, u, v, dist[v] as int)
        }
    &&& forall|f: int| 0 <= f < n && #[trigger] done[f] ==> dist[f] < UNREACHED && 0 <= order[f] < count
    &&& forall|f: int, g: int| 0 <= f < n && 0 <= g < n && f != g && #[trigger] done[f] && #[trigger] done[g] ==> order[f] != order[g]
    &&& forall|u: int, j: int|
        0 <= u < n && done[u] && 0 <= j < adj[u].len() && (u != cur || j < k) ==> {
            let v = #[trigger] adj[u][j].0;
            done[v] || dist[v] <= adj[u][j].1
        }
    &&& total == settled_weight(done, dist, start, n as int)
    &&& -count * (MAX_WEIGHT + 1) <= total <= count * MAX_WEIGHT
    &&& greedy_so_far(adj, start, dist, done, order)
}

proof fn lemma_prim_relax(
    adj: Adjacency,
    start: int,
    parents: Seq<Option<usize>>,
    dist: Seq<i64>,
    done: Seq<bool>,
    order: Seq<int>,
    count: int,
    total: int,
    cur: usize,
    k: int,
)
    requires
        prim_relaxing(adj, start, parents, dist, done, order, count, total, cur as int, k),
        k < adj[cur as int].len(),
        !done[adj[cur as int][k].0],
        adj[cur as int][k].1 < dist[adj[cur as int][k].0],
    ensures
        ({
            let v = adj[cur as int][k].0;
            let w = adj[cur as int][k].1;
            prim_relaxing(
                adj,
                start,
                parents.update(v, Some(cur)),
                dist.update(v, w as i64),
                done,
                order,
                count,
                total,
                cur as int,
                k + 1,
            )
        }),
{
    let c = cur as int;
    let n = adj.len();
    let v = adj[c][k].0;
    let w = adj[c][k].1;
    let p2 = parents.update(v, Some(cur));
    let d2 = dist.update(v, w as i64);
    assert(0 <= v < n);
    assert(-MAX_WEIGHT - 1 <= w <= MAX_WEIGHT);
    assert(d2[v] as int == w);
    assert(v != start);
    lemma_settled_weight_relax(done, dist, start, v, w as i64, n as int);
    assert forall|x: int| 0 <= x < n && #[trigger] p2[x].is_some() implies {
        let u = p2[x].unwrap() as int;
        &&& 0 <= u < n
        &&& done[u]
        &&& (done[x] ==> order[u] < order[x])
        &&& arc_in(adj, u, x, d2[x] as int)
    } by {
        if x == v {
            assert(adj[c][k] == (v, w));
        } else {
            let u = parents[x].unwrap() as int;
        }
    }
    assert forall|x: int, u: int, j: int|
        #![trigger done[x], adj[u][j]]
        0 <= x < n && done[x] && x != start && 0 <= u < n && done[u] && order[u] < order[x] && 0 <= j
            < adj[u].len() && (!done[adj[u][j].0] || order[x] <= order[adj[u][j].0]) implies d2[x]
            <= adj[u][j].1 by {
        assert(x != v);
        assert(dist[x] <= adj[u][j].1);
    }
    assert forall|u: int, j: int|
        0 <= u < n && done[u] && 0 <= j < adj[u].len() && (u != c || j < k + 1) implies {
        let y = #[trigger] adj[u][j].0;
        done[y] || d2[y] <= adj[u][j].1
    } by {
        if u == c && j == k {
        } else {
            assert(done[adj[u][j].0] || dist[adj[u][j].0] <= adj[u][j].1);
        }
    }
}

proof fn lemma_greedy_settle(
    adj: Adjacency,
    start: int,
    dist: Seq<i64>,
    done: Seq<bool>,
    order: Seq<int>,
    count: int,
    cur: int,
)
    requires
        targets_in_range(adj),
        dist.len() == adj.len(),
        done.len() == adj.len(),
        order.len() == adj.len(),
        0 <= cur < adj.len(),
        !done[cur],
        greedy_so_far(adj, start, dist, done, order),
        forall|f: int| 0 <= f < adj.len() && #[trigger] done[f] ==> 0 <= order[f] < count,
        forall|u: int, k: int|
            0 <= u < adj.len() && done[u] && 0 <= k < adj[u].len() ==> {
                let v = #[trigger] adj[u][k].0;
                done[v] || dist[v] <= adj[u][k].1
            },
        forall|g: int| 0 <= g < adj.len() && !done[g] ==> dist[cur] <= #[trigger] dist[g],
    ensures
        greedy_so_far(adj, start, dist, done.update(cur, true), order.update(cur, count)),
{
    let d2 = done.update(cur, true);
    let o2 = order.update(cur, count);
    let n = adj.len();
    assert forall|v: int, u: int, k: int|
        #![trigger d2[v], adj[u][k]]
        0 <= v < n && d2[v] && v != start && 0 <= u < n && d2[u] && o2[u] < o2[v] && 0 <= k
            < adj[u].len() && (!d2[adj[u][k].0] || o2[v] <= o2[adj[u][k].0]) implies dist[v]
            <= adj[u][k].1 by {
        let x = adj[u][k].0;
        assert(0 <= x < n);
        if v == cur {
            assert(u != cur);
            assert(done[u]);
            if x != cur {
                if done[x] {
                    assert(order[x] < count);
                }
                assert(!done[x]);
                assert(dist[cur] <= dist[x]);
            }
        } else {
            assert(done[v]);
            assert(order[v] < count);
            assert(u != cur);
            assert(done[u] && order[u] < order[v]);
            if x == cur {
                assert(!done[x]);
            } else {
                assert(!done[x] || order[v] <= order[x]);
            }
        }
    }
}

proof fn lemma_prim_done(
    adj: Adjacency,
    start: int,
    parents: Seq<Option<usize>>,
    dist: Seq<i64>,
    done: Seq<bool>,
    order: Seq<int>,
    count: int,
    total: int,
)
    requires
        prim_state(adj, start, parents, dist, done, order, count, total),
        forall|g: int| 0 <= g < adj.len() && !done[g] ==> #[trigger] dist[g] == UNREACHED,
    ensures
        is_spanning_tree(adj, start, parents, dist.map_values(|x: i64| x as int), order, total),
        grown_greedily(adj, start, parents, dist.map_values(|x: i64| x as int), order),
{
    let n = adj.len();
    let links = dist.map_values(|x: i64| x as int);
    assert(done[start]) by {
        if count == 0 {
            assert(dist[start] == 0);
        }
    }
    assert forall|v: int| 0 <= v < n implies (#[trigger] done[v] && v != start) == parents[v].is_some() by {
        if parents[v].is_some() {
            assert(dist[v] < UNREACHED);
        }
    }
    lemma_settled_is_tree_weight(done, dist, start, parents, n as int);
    assert forall|v: int| 0 <= v < n && #[trigger] parents[v].is_some() implies {
        let u = parents[v].unwrap() as int;
        &&& 0 <= u < n
        &&& (u == start || parents[u].is_some())
        &&& order[u] < order[v]
        &&& arc_in(adj, u, v, links[v])
    } by {
        let u = parents[v].unwrap() as int;
        assert(done[u]);
        assert(done[v]);
        assert(done[u] && u != start ==> parents[u].is_some());
    }
    assert forall|u: int, k: int|
        0 <= u < n && (u == start || parents[u].is_some()) && 0 <= k < adj[u].len() implies {
        let v = #[trigger] adj[u][k].0;
        v == start || parents[v].is_some()
    } by {
        assert(done[u]);
        let v = adj[u][k].0;
        assert(0 <= v < n);
        assert(adj[u][k].1 <= MAX_WEIGHT);
        assert(done[v]);
        assert(done[v] && v != start ==> parents[v].is_some());
    }
    assert forall|v: int, w: int|
        #![trigger order[v], order[w]]
        0 <= v < n && 0 <= w < n && v != w && (v == start || parents[v].is_some()) && (w == start
            || parents[w].is_some()) implies order[v] != order[w] by {
        assert(done[v] && done[w]);
    }
    assert forall|v: int, u: int, k: int|
        #![trigger parents[v], adj[u][k]]
        0 <= v < n && parents[v].is_some() && 0 <= u < n && (u == start || parents[u].is_some())
            && order[u] < order[v] && 0 <= k < adj[u].len() && (!(adj[u][k].0 == start
            || parents[adj[u][k].0].is_some()) || order[v] <= order[adj[u][k].0]) implies links[v]
            <= adj[u][k].1 by {
        let x = adj[u][k].0;
        assert(0 <= x < n);
        assert(done[v] && done[u]);
        assert(done[x] <==> (x == start || parents[x].is_some()));
        assert(done[v] && v != start && done[u]);
    }
}

impl WeightedGraph {
    /// A minimum spanning tree of what is reachable from `start`, grown one
    /// vertex at a time: the unsettled vertex joined to the tree by the
    /// lightest edge joins next, the lowest-numbered on ties. The vertex count
    /// is bounded so that the total weight fits in an `i64`.
    pub fn prims<'a>(&'a self, start: usize) -> (r: MinSpanTree<'a>)
        requires
            self.wf(),
            start < self@.len(),
            self@.len() <= u32::MAX,
        ensures
            r.graph() == self,
            exists|links: Seq<int>, order: Seq<int>|
                is_spanning_tree(self@, start as int, r.parents(), links, order, r.total_weight() as int)
                    && grown_greedily(self@, start as int, r.parents(), links, order),
    {
        let n = self.edges.len();
        let ghost adj = self@;
        proof {
            self.lemma_weights_fit();
        }
        let mut distance: Vec<i64> = Vec::with_capacity(n);
        let mut intree: Vec<bool> = Vec::with_capacity(n);
        let mut parent: Vec<Option<usize>> = Vec::with_capacity(n);
        let mut weight: i64 = 0;
        let mut i: usize = 0;
        while i < n
            invariant
                i <= n,
                n == adj.len(),
                distance@.len() == i,
                intree@.len() == i,
                parent@.len() == i,
                forall|v: int| 0 <= v < i ==> #[trigger] distance@[v] == UNREACHED,
                forall|v: int| 0 <= v < i ==> !#[trigger] intree@[v],
                forall|v: int| 0 <= v < i ==> (#[trigger] parent@[v]).is_none(),
            decreases n - i,
        {
            distance.push(UNREACHED);
            intree.push(false);
            parent.push(None);
            i += 1;
        }
        distance.set(start, 0);
        let ghost mut count: nat = 0;
        let ghost mut order: Seq<int> = Seq::new(n as nat, |v: int| 0);
        proof {
            assert(settled(intree@) =~= Set::empty());
            assert(settled_weight(intree@, distance@, start as int, n as int) == 0) by {
                lemma_settled_weight_zero(intree@, distance@, start as int, n as int);
            }
        }
        loop
            invariant
                n == adj.len(),
                adj == self@,
                self.wf(),
                n <= u32::MAX,
                start < n,
                distance@.len() == n,
                intree@.len() == n,
                parent@.len() == n,
                prim_state(adj, start as int, parent@, distance@, intree@, order, count as int, weight as int),
                count == settled(intree@).len(),
                settled(intree@).finite(),
                count <= n,
            decreases n - count,
        {
            let cur = match closest_unsettled(&distance, &intree) {
                None => {
                    proof {
                        lemma_prim_done(adj, start as int, parent@, distance@, intree@, order, count as int, weight as int);
                    }
                    return MinSpanTree::new(self, parent, weight);
                },
                Some(c) => c,
            };
            proof {
                if count == 0 && cur != start {
                    assert(parent@[cur as int].is_some());
                    assert(intree@[parent@[cur as int].unwrap() as int]);
                }
                lemma_settle_count(intree@, cur as int);
                lemma_settled_weight_settle(intree@, distance@, start as int, cur as int, n as int);
                lemma_greedy_settle(adj, start as int, distance@, intree@, order, count as int, cur as int);
            }
            let ghost before = intree@;
            intree.set(cur, true);
            proof {
                order = order.update(cur as int, count as int);
                lemma_settled_bound(intree@);
                assert((count + 1) * MAX_WEIGHT == count * MAX_WEIGHT + MAX_WEIGHT) by (nonlinear_arith);
                assert((count + 1) * (MAX_WEIGHT + 1) == count * (MAX_WEIGHT + 1) + MAX_WEIGHT + 1) by (nonlinear_arith);
                assert(count * MAX_WEIGHT <= u32::MAX * MAX_WEIGHT) by (nonlinear_arith)
                    requires count <= u32::MAX;
                assert(count * (MAX_WEIGHT + 1) <= u32::MAX * (MAX_WEIGHT + 1)) by (nonlinear_arith)
                    requires count <= u32::MAX;
            }
            if cur != start {
                weight = weight + distance[cur];
            }
            proof {
                count = count + 1;
                assert forall|v: int| 0 <= v < n && #[trigger] parent@[v].is_some() implies {
                    let u = parent@[v].unwrap() as int;
                    &&& intree@[u]
                    &&& (intree@[v] ==> order[u] < order[v])
                } by {
                    let u = parent@[v].unwrap() as int;
                    assert(before[u]);
                    if v == cur {
                        assert(order[u] < count - 1);
                    }
                }
            }
            let adj_v = &self.edges[cur];
            let mut k: usize = 0;
            while k < adj_v.len()
                invariant
                    n == adj.len(),
                    adj == self@,
                    self.wf(),
                    cur < n,
                    adj_v@.len() == adj[cur as int].len(),
                    forall|j: int| 0 <= j < adj_v@.len() ==> (#[trigger] adj_v@[j]).points_to == adj[cur as int][j].0 && adj_v@[j].weight == adj[cur as int][j].1,
                    k <= adj_v@.len(),
                    start < n,
                    distance@.len() == n,
                    intree@.len() == n,
                    parent@.len() == n,
                    1 <= count <= n,
                    n <= u32::MAX,
                    count == settled(intree@).len(),
                    settled(intree@).finite(),
                    prim_relaxing(adj, start as int, parent@, distance@, intree@, order, count as int, weight as int, cur as int, k as int),
                decreases adj_v@.len() - k,
            {
                let e = adj_v[k];
                let v = e.points_to;
                if !intree[v] && (e.weight as i64) < distance[v] {
                    let ghost d0 = distance@;
                    let ghost p0 = parent@;
                    distance.set(v, e.weight as i64);
                    parent.set(v, Some(cur));
                    proof {
                        lemma_prim_relax(adj, start as int, p0, d0, intree@, order, count as int, weight as int, cur, k as int);
                    }
                }
                k += 1;
            }
        }
    }
}

proof fn lemma_settled_weight_zero(done: Seq<bool>, dist: Seq<i64>, start: int, k: int)
    requires
        k <= done.len(),
        forall|v: int| 0 <= v < done.len() ==> !#[trigger] done[v],
    ensures
        settled_weight(done, dist, start, k) == 0,
    decreases k,
{
    if k > 0 {
        lemma_settled_weight_zero(done, dist, start, k - 1);
    }
}

/// The total weight of a list of (source, target, weight) edges.
pub open spec fn edges_weight(es: Seq<(int, int, int)>) -> int
    decreases es.len(),
{
    if es.len() == 0 {
        0
    } else {
        edges_weight(es.drop_last()) + es.last().2
    }
}

/// `accepted` lists the edges Kruskal's method kept, in the order it kept
/// them: arcs of `adj` in non-decreasing weight, fewer than the vertices, with
/// weights adding up to `total`; each parent link is one of them. Each joined
/// two vertices that the edges kept before it had not joined, every lighter
/// arc was already joined by them, and together they join the two ends of
/// every arc of `adj`.
pub open spec fn is_kruskal_forest(
    adj: Adjacency,
    parents: Seq<Option<usize>>,
    accepted: Seq<(int, int, int)>,
    total: int,
) -> bool {
    &&& parents.len() == adj.len()
    &&& forall|i: int|
        0 <= i < accepted.len() ==> arc_in(adj, #[trigger] accepted[i].0, accepted[i].1, accepted[i].2)
    &&& forall|i: int, j: int| 0 <= i < j < accepted.len() ==> #[trigger] accepted[i].2 <= #[trigger] accepted[j].2
    &&& adj.len() > 0 ==> accepted.len() < adj.len()
    &&& total == edges_weight(accepted)
    &&& forall|i: int| 0 <= i < accepted.len() ==> !joined(accepted.take(i), #[trigger] accepted[i].0, accepted[i].1)
    &&& forall|u: int, k: int| 0 <= u < adj.len() && 0 <= k < adj[u].len() ==> joined(accepted, u, #[trigger] adj[u][k].0)
    &&& lighter_joined(adj, accepted)
    &&& forall|v: int|
        0 <= v < parents.len() && #[trigger] parents[v].is_some() ==> exists|i: int|
            0 <= i < accepted.len() && #[trigger] accepted[i] == (
                parents[v].unwrap() as int,
                v,
                accepted[i].2,
            )
}

/// Every arc lighter than a kept edge already had its ends joined by the
/// edges kept before that one.
pub open spec fn lighter_joined(adj: Adjacency, accepted: Seq<(int, int, int)>) -> bool {
    forall|u: int, k: int, i: int|
        #![trigger adj[u][k], accepted[i]]
        0 <= u < adj.len() && 0 <= k < adj[u].len() && 0 <= i < accepted.len() && adj[u][k].1
            < accepted[i].2 ==> joined(accepted.take(i), u, adj[u][k].0)
}

/// One of the edges `es` joins `a` and `b`, in either direction.
pub open spec fn links(es: Seq<(int, int, int)>, a: int, b: int) -> bool {
    exists|i: int| 0 <= i < es.len() && #[trigger] es[i] == (a, b, es[i].2) || 0 <= i < es.len() && es[i] == (b, a, es[i].2)
}

/// `p` is a walk of one or more vertices along the edges `es`, taken in
/// either direction.
pub open spec fn is_link_walk(es: Seq<(int, int, int)>, p: Seq<int>) -> bool {
    p.len() >= 1 && forall|i: int| 0 < i < p.len() ==> links(es, p[i - 1], #[trigger] p[i])
}

/// The edges `es` connect `a` and `b`.
pub open spec fn joined(es: Seq<(int, int, int)>, a: int, b: int) -> bool {
    exists|p: Seq<int>| #[trigger] is_link_walk(es, p) && p[0] == a && p.last() == b
}

proof fn lemma_joined_refl(es: Seq<(int, int, int)>, a: int)
    ensures
        joined(es, a, a),
{
    let p = seq![a];
    assert(is_link_walk(es, p) && p[0] == a && p.last() == a);
}

proof fn lemma_joined_sym(es: Seq<(int, int, int)>, a: int, b: int)
    requires
        joined(es, a, b),
    ensures
        joined(es, b, a),
{
    let p = choose|p: Seq<int>| #[trigger] is_link_walk(es, p) && p[0] == a && p.last() == b;
    let q = p.reverse();
    assert forall|i: int| 0 < i < q.len() implies links(es, q[i - 1], #[trigger] q[i]) by {
        let j = p.len() - i;
        assert(q[i - 1] == p[j] && q[i] == p[j - 1]);
        assert(links(es, p[j - 1], p[j]));
        let k = choose|k: int| 0 <= k < es.len() && #[trigger] es[k] == (p[j - 1], p[j], es[k].2) || 0 <= k < es.len() && es[k] == (p[j], p[j - 1], es[k].2);
    }
    assert(is_link_walk(es, q) && q[0] == b && q.last() == a);
}

proof fn lemma_joined_trans(es: Seq<(int, int, int)>, a: int, b: int, c: int)
    requires
        joined(es, a, b),
        joined(es, b, c),
    ensures
        joined(es, a, c),
{
    let p = choose|p: Seq<int>| #[trigger] is_link_walk(es, p) && p[0] == a && p.last() == b;
    let q = choose|q: Seq<int>| #[trigger] is_link_walk(es, q) && q[0] == b && q.last() == c;
    let r = p + q.drop_first();
    assert forall|i: int| 0 < i < r.len() implies links(es, r[i - 1], #[trigger] r[i]) by {
        if i < p.len() {
            assert(r[i - 1] == p[i - 1] && r[i] == p[i]);
        } else {
            let j = i - p.len() + 1;
            assert(r[i] == q[j]);
            assert(r[i - 1] == q[j - 1]);
        }
    }
    assert(r.last() == c) by {
        if q.len() == 1 {
            assert(r =~= p);
        }
    }
    assert(is_link_walk(es, r) && r[0] == a && r.last() == c);
}

proof fn lemma_joined_grow(es: Seq<(int, int, int)>, e: (int, int, int), a: int, b: int)
    requires
        joined(es, a, b),
    ensures
        joined(es.push(e), a, b),
{
    let p = choose|p: Seq<int>| #[trigger] is_link_walk(es, p) && p[0] == a && p.last() == b;
    let f = es.push(e);
    assert forall|i: int| 0 < i < p.len() implies links(f, p[i - 1], #[trigger] p[i]) by {
        assert(links(es, p[i - 1], p[i]));
        let k = choose|k: int| 0 <= k < es.len() && #[trigger] es[k] == (p[i - 1], p[i], es[k].2) || 0 <= k < es.len() && es[k] == (p[i], p[i - 1], es[k].2);
        assert(f[k] == es[k]);
    }
    assert(is_link_walk(f, p));
}

proof fn lemma_joined_new_edge(es: Seq<(int, int, int)>, e: (int, int, int))
    ensures
        joined(es.push(e), e.0, e.1),
{
    let f = es.push(e);
    let p = seq![e.0, e.1];
    assert(f[es.len() as int] == (e.0, e.1, f[es.len() as int].2));
    assert(links(f, p[0], p[1]));
    assert(is_link_walk(f, p) && p[0] == e.0 && p.last() == e.1);
}

/// Vertices joined by edges that each stay inside one set of `uf` are in one
/// set of `uf`.
proof fn lemma_joined_same_set(es: Seq<(int, int, int)>, uf: &UnionFind, a: int, b: int)
    requires
        uf.wf(),
        forall|i: int| 0 <= i < es.len() ==> 0 <= #[trigger] es[i].0 < uf.n() && 0 <= es[i].1 < uf.n()
            && uf.rep(es[i].0) == uf.rep(es[i].1),
        0 <= a < uf.n(),
        joined(es, a, b),
    ensures
        0 <= b < uf.n(),
        uf.rep(a) == uf.rep(b),
{
    let p = choose|p: Seq<int>| #[trigger] is_link_walk(es, p) && p[0] == a && p.last() == b;
    assert forall|i: int| 0 <= i < p.len() implies 0 <= #[trigger] p[i] < uf.n() && uf.rep(p[i]) == uf.rep(a) by {
        lemma_walk_prefix_same_set(es, uf, p, i);
    }
    assert(uf.rep(p[p.len() - 1]) == uf.rep(a));
}

proof fn lemma_walk_prefix_same_set(es: Seq<(int, int, int)>, uf: &UnionFind, p: Seq<int>, i: int)
    requires
        uf.wf(),
        forall|i: int| 0 <= i < es.len() ==> 0 <= #[trigger] es[i].0 < uf.n() && 0 <= es[i].1 < uf.n()
            && uf.rep(es[i].0) == uf.rep(es[i].1),
        is_link_walk(es, p),
        0 <= p[0] < uf.n(),
        0 <= i < p.len(),
    ensures
        0 <= p[i] < uf.n(),
        uf.rep(p[i]) == uf.rep(p[0]),
    decreases i,
{
    if i > 0 {
        lemma_walk_prefix_same_set(es, uf, p, i - 1);
        assert(links(es, p[i - 1], p[i]));
        let k = choose|k: int| 0 <= k < es.len() && #[trigger] es[k] == (p[i - 1], p[i], es[k].2) || 0 <= k < es.len() && es[k] == (p[i], p[i - 1], es[k].2);
        assert(0 <= es[k].0 < uf.n());
    }
}

/// The edges `acc` kept so far stay inside the sets of `uf`, connect each
/// vertex to its representative, and each joined two vertices the edges kept
/// before it had not.
spec fn forest_state(n: int, acc: Seq<(int, int, int)>, uf: UnionFind) -> bool {
    &&& uf.wf()
    &&& uf.n() == n
    &&& forall|i: int| 0 <= i < acc.len() ==> 0 <= #[trigger] acc[i].0 < n && 0 <= acc[i].1 < n
        && uf.rep(acc[i].0) == uf.rep(acc[i].1)
    &&& forall|x: int| 0 <= x < n ==> #[trigger] joined(acc, x, uf.rep(x))
    &&& forall|i: int| 0 <= i < acc.len() ==> !joined(acc.take(i), #[trigger] acc[i].0, acc[i].1)
}

proof fn lemma_forest_start(n: int, uf: UnionFind)
    requires
        uf.wf(),
        uf.n() == n,
        forall|x: int| 0 <= x < n ==> #[trigger] uf.rep(x) == x,
    ensures
        forest_state(n, Seq::empty(), uf),
{
    assert forall|x: int| 0 <= x < n implies #[trigger] joined(Seq::<(int, int, int)>::empty(), x, uf.rep(x)) by {
        lemma_joined_refl(Seq::empty(), x);
    }
}

proof fn lemma_forest_accept(
    n: int,
    acc: Seq<(int, int, int)>,
    uf: UnionFind,
    uf2: UnionFind,
    e: (int, int, int),
    winner: int,
    loser: int,
)
    requires
        forest_state(n, acc, uf),
        uf2.wf(),
        uf2.n() == n,
        0 <= e.0 < n,
        0 <= e.1 < n,
        uf.rep(e.0) != uf.rep(e.1),
        (winner == uf.rep(e.0) && loser == uf.rep(e.1)) || (winner == uf.rep(e.1) && loser == uf.rep(e.0)),
        forall|z: int| 0 <= z < n ==> #[trigger] uf2.rep(z) == if uf.rep(z) == loser { winner } else { uf.rep(z) },
    ensures
        forest_state(n, acc.push(e), uf2),
{
    let acc2 = acc.push(e);
    assert forall|i: int| 0 <= i < acc2.len() implies 0 <= #[trigger] acc2[i].0 < n && 0 <= acc2[i].1 < n
        && uf2.rep(acc2[i].0) == uf2.rep(acc2[i].1) by {
        if i < acc.len() {
            assert(acc2[i] == acc[i]);
            assert(uf.rep(acc[i].0) == uf.rep(acc[i].1));
        }
    }
    lemma_joined_new_edge(acc, e);
    lemma_joined_sym(acc2, e.0, e.1);
    assert forall|x: int| 0 <= x < n implies #[trigger] joined(acc2, x, uf2.rep(x)) by {
        assert(joined(acc, x, uf.rep(x)));
        lemma_joined_grow(acc, e, x, uf.rep(x));
        if uf.rep(x) == loser {
            let (near, far) = if uf.rep(e.0) == loser { (e.0, e.1) } else { (e.1, e.0) };
            assert(joined(acc, near, uf.rep(near)));
            lemma_joined_grow(acc, e, near, uf.rep(near));
            lemma_joined_sym(acc2, near, loser);
            assert(joined(acc, far, uf.rep(far)));
            lemma_joined_grow(acc, e, far, uf.rep(far));
            lemma_joined_trans(acc2, x, loser, near);
            lemma_joined_trans(acc2, x, near, far);
            lemma_joined_trans(acc2, x, far, winner);
        }
    }
    assert forall|i: int| 0 <= i < acc2.len() implies !joined(acc2.take(i), #[trigger] acc2[i].0, acc2[i].1) by {
        if i < acc.len() {
            assert(acc2.take(i) =~= acc.take(i));
            assert(acc2[i] == acc[i]);
        } else {
            assert(acc2.take(i) =~= acc);
            if joined(acc, e.0, e.1) {
                lemma_joined_same_set(acc, &uf, e.0, e.1);
            }
        }
    }
}

proof fn lemma_same_set_joined(n: int, acc: Seq<(int, int, int)>, uf: UnionFind, u: int, v: int)
    requires
        forest_state(n, acc, uf),
        0 <= u < n,
        0 <= v < n,
        uf.rep(u) == uf.rep(v),
    ensures
        joined(acc, u, v),
{
    assert(joined(acc, u, uf.rep(u)));
    assert(joined(acc, v, uf.rep(v)));
    lemma_joined_sym(acc, v, uf.rep(v));
    lemma_joined_trans(acc, u, uf.rep(u), v);
}

proof fn lemma_lighter_accept(
    adj: Adjacency,
    acc: Seq<(int, int, int)>,
    uf: UnionFind,
    items: Multiset<EdgePair>,
    e: EdgePair,
)
    requires
        forest_state(adj.len() as int, acc, uf),
        covers(adj, items, uf),
        targets_in_range(adj),
        weights_fit(adj),
        is_least(e, items),
        lighter_joined(adj, acc),
    ensures
        lighter_joined(adj, acc.push(e.triple())),
{
    let acc2 = acc.push(e.triple());
    assert forall|u: int, k: int, i: int|
        #![trigger adj[u][k], acc2[i]]
        0 <= u < adj.len() && 0 <= k < adj[u].len() && 0 <= i < acc2.len() && adj[u][k].1
            < acc2[i].2 implies joined(acc2.take(i), u, adj[u][k].0) by {
        let a = adj[u][k];
        assert(0 <= a.0 < adj.len());
        if i < acc.len() {
            assert(acc2.take(i) =~= acc.take(i));
            assert(acc2[i] == acc[i]);
        } else {
            assert(acc2.take(i) =~= acc);
            assert(-MAX_WEIGHT - 1 <= a.1 <= MAX_WEIGHT);
            assert(pair_of(u, a).rank() == a.1);
            if items.contains(pair_of(u, a)) {
                assert(e.rank() <= pair_of(u, a).rank());
            }
            lemma_same_set_joined(adj.len() as int, acc, uf, u, a.0);
        }
    }
}

/// Once every edge of `adj` stays inside one set, the kept edges connect the
/// two ends of every edge.
proof fn lemma_forest_spans(adj: Adjacency, acc: Seq<(int, int, int)>, uf: UnionFind)
    requires
        forest_state(adj.len() as int, acc, uf),
        targets_in_range(adj),
        forall|u: int, k: int| 0 <= u < adj.len() && 0 <= k < adj[u].len() ==> uf.rep(u) == uf.rep(#[trigger] adj[u][k].0),
    ensures
        forall|u: int, k: int| 0 <= u < adj.len() && 0 <= k < adj[u].len() ==> joined(acc, u, #[trigger] adj[u][k].0),
{
    assert forall|u: int, k: int| 0 <= u < adj.len() && 0 <= k < adj[u].len() implies joined(acc, u, #[trigger] adj[u][k].0) by {
        let v = adj[u][k].0;
        assert(joined(acc, u, uf.rep(u)));
        assert(joined(acc, v, uf.rep(v)));
        lemma_joined_sym(acc, v, uf.rep(v));
        lemma_joined_trans(acc, u, uf.rep(u), v);
    }
}

#[derive(Clone, Copy)]
struct EdgePair {
    source: usize,
    points_to: usize,
    weight: i32,
}

impl EdgePair {
    fn new(source: usize, points_to: usize, weight: i32) -> (r: Self)
        ensures
            r.source == source,
            r.points_to == points_to,
            r.weight == weight,
    {
        EdgePair { source, points_to, weight }
    }

    spec fn triple(&self) -> (int, int, int) {
        (self.source as int, self.points_to as int, self.weight as int)
    }
}

/// The queue entry for arc `a` out of `u`.
spec fn pair_of(u: int, a: (int, int)) -> EdgePair {
    EdgePair { source: u as usize, points_to: a.0 as usize, weight: a.1 as i32 }
}

/// Every arc of `adj` is still queued in `items`, or its two ends are in one
/// set of `uf`.
spec fn covers(adj: Adjacency, items: Multiset<EdgePair>, uf: UnionFind) -> bool {
    forall|u: int, k: int|
        0 <= u < adj.len() && 0 <= k < adj[u].len() ==> items.contains(pair_of(u, #[trigger] adj[u][k]))
            || uf.rep(u) == uf.rep(adj[u][k].0)
}

proof fn lemma_covers_step(
    adj: Adjacency,
    items: Multiset<EdgePair>,
    edge: EdgePair,
    uf: UnionFind,
    uf2: UnionFind,
)
    requires
        covers(adj, items, uf),
        targets_in_range(adj),
        adj.len() <= usize::MAX,
        uf.n() == adj.len(),
        forall|z: int, y: int| 0 <= z < adj.len() && 0 <= y < adj.len() && #[trigger] uf.rep(z) == #[trigger] uf.rep(y) ==> uf2.rep(z) == uf2.rep(y),
        uf2.rep(edge.source as int) == uf2.rep(edge.points_to as int),
    ensures
        covers(adj, items.remove(edge), uf2),
{
    assert forall|u: int, k: int| 0 <= u < adj.len() && 0 <= k < adj[u].len() implies items.remove(edge).contains(pair_of(u, #[trigger] adj[u][k]))
        || uf2.rep(u) == uf2.rep(adj[u][k].0) by {
        let a = adj[u][k];
        assert(0 <= a.0 < adj.len());
        if pair_of(u, a) == edge {
            assert(edge.source as int == u);
            assert(edge.points_to as int == a.0);
        } else if items.contains(pair_of(u, a)) {
            assert(items.remove(edge).count(pair_of(u, a)) == items.count(pair_of(u, a)));
        } else {
            assert(uf.rep(u) == uf.rep(a.0));
        }
    }
}

impl Sortable for EdgePair {
    closed spec fn rank(&self) -> int {
        self.weight as int
    }

    fn precedes(&self, other: &Self) -> (r: bool) {
        self.weight <= other.weight
    }
}

impl WeightedGraph {
    /// A minimum spanning forest found by taking edges lightest first and
    /// keeping each one that joins two components not yet joined. The vertex
    /// count is bounded so that the total weight fits in an `i64`.
    #[verifier::rlimit(100)]
    pub fn kruskals<'a>(&'a self) -> (r: MinSpanTree<'a>)
        requires
            self.wf(),
            self@.len() <= u32::MAX,
        ensures
            r.graph() == self,
            exists|accepted: Seq<(int, int, int)>|
                is_kruskal_forest(self@, r.parents(), accepted, r.total_weight() as int),
    {
        let n = self.edges.len();
        let ghost adj = self@;
        let mut parent: Vec<Option<usize>> = Vec::with_capacity(n);
        let mut weight: i64 = 0;
        let mut i: usize = 0;
        while i < n
            invariant
                i <= n,
                parent@.len() == i,
                forall|v: int| 0 <= v < i ==> (#[trigger] parent@[v]).is_none(),
            decreases n - i,
        {
            parent.push(None);
            i += 1;
        }
        let mut queue: Heap<EdgePair> = Heap::new();
        let mut u: usize = 0;
        while u < n
            invariant
                u <= n,
                n == adj.len(),
                adj == self@,
                self.wf(),
                queue.wf(),
                forall|y: EdgePair| #[trigger] queue.items().contains(y) ==> y.source < n && y.points_to < n
                    && arc_in(adj, y.source as int, y.points_to as int, y.weight as int),
                forall|x: int, j: int| 0 <= x < u && 0 <= j < adj[x].len() ==> queue.items().contains(pair_of(x, #[trigger] adj[x][j])),
            decreases n - u,
        {
            let list = &self.edges[u];
            let mut k: usize = 0;
            while k < list.len()
                invariant
                    u < n,
                    n == adj.len(),
                    adj == self@,
                    self.wf(),
                    list@.len() == adj[u as int].len(),
                    forall|j: int| 0 <= j < list@.len() ==> (#[trigger] list@[j]).points_to == adj[u as int][j].0 && list@[j].weight == adj[u as int][j].1,
                    k <= list@.len(),
                    queue.wf(),
                    forall|y: EdgePair| #[trigger] queue.items().contains(y) ==> y.source < n && y.points_to < n
                        && arc_in(adj, y.source as int, y.points_to as int, y.weight as int),
                    forall|x: int, j: int| 0 <= x < u && 0 <= j < adj[x].len() ==> queue.items().contains(pair_of(x, #[trigger] adj[x][j])),
                    forall|j: int| 0 <= j < k ==> queue.items().contains(pair_of(u as int, #[trigger] adj[u as int][j])),
                decreases list@.len() - k,
            {
                let e = list[k];
                proof {
                    assert(adj[u as int][k as int] == (e.points_to as int, e.weight as int));
                }
                let ep = EdgePair::new(u, e.points_to, e.weight);
                let ghost before = queue.items();
                queue.insert(ep);
                proof {
                    assert(arc_in(adj, u as int, e.points_to as int, e.weight as int));
                    assert forall|y: EdgePair| #[trigger] queue.items().contains(y) implies y.source < n && y.points_to < n
                        && arc_in(adj, y.source as int, y.points_to as int, y.weight as int) by {
                        if y != ep {
                            assert(before.contains(y));
                        }
                    }
                    assert(ep == pair_of(u as int, adj[u as int][k as int]));
                    assert forall|x: int, j: int| 0 <= x < u && 0 <= j < adj[x].len() implies queue.items().contains(pair_of(x, #[trigger] adj[x][j])) by {
                        assert(before.contains(pair_of(x, adj[x][j])));
                    }
                    assert forall|j: int| 0 <= j < k + 1 implies queue.items().contains(pair_of(u as int, #[trigger] adj[u as int][j])) by {
                        if j < k {
                            assert(before.contains(pair_of(u as int, adj[u as int][j])));
                        }
                    }
                }
                k += 1;
            }
            u += 1;
        }
        let mut set = UnionFind::new(n);
        let ghost mut accepted: Seq<(int, int, int)> = Seq::empty();
        proof {
            lemma_forest_start(n as int, set);
            assert(covers(adj, queue.items(), set));
            self.lemma_weights_fit();
            if n > 0 {
                lemma_member_of_own_set(&set, 0);
                set.lemma_roots_finite();
            }
        }
        loop
            invariant
                n == adj.len(),
                adj == self@,
                self.wf(),
                n <= u32::MAX,
                queue.wf(),
                forall|y: EdgePair| #[trigger] queue.items().contains(y) ==> y.source < n && y.points_to < n
                    && arc_in(adj, y.source as int, y.points_to as int, y.weight as int),
                set.wf(),
                set.n() == n,
                parent@.len() == n,
                accepted.len() + set.roots().len() == n,
                n > 0 ==> set.roots().len() >= 1,
                forall|i: int|
                    0 <= i < accepted.len() ==> arc_in(adj, #[trigger] accepted[i].0, accepted[i].1, accepted[i].2),
                forall|i: int, j: int| 0 <= i < j < accepted.len() ==> #[trigger] accepted[i].2 <= #[trigger] accepted[j].2,
                forall|i: int, y: EdgePair| 0 <= i < accepted.len() && #[trigger] queue.items().contains(y) ==> #[trigger] accepted[i].2 <= y.weight,
                weight == edges_weight(accepted),
                -accepted.len() * (MAX_WEIGHT + 1) <= weight <= accepted.len() * MAX_WEIGHT,
                forest_state(n as int, accepted, set),
                covers(adj, queue.items(), set),
                targets_in_range(adj),
                weights_fit(adj),
                lighter_joined(adj, accepted),
                forall|v: int|
                    0 <= v < n && #[trigger] parent@[v].is_some() ==> exists|i: int|
                        0 <= i < accepted.len() && #[trigger] accepted[i] == (
                            parent@[v].unwrap() as int,
                            v,
                            accepted[i].2,
                        ),
            decreases queue@.len(),
        {
            let ghost items = queue.items();
            let edge = match queue.pop() {
                None => {
                    proof {
                        assert forall|u: int, k: int| 0 <= u < adj.len() && 0 <= k < adj[u].len() implies set.rep(u)
                            == set.rep(#[trigger] adj[u][k].0) by {
                            assert(!queue.items().contains(pair_of(u, adj[u][k])));
                        }
                        lemma_forest_spans(adj, accepted, set);
                        assert(is_kruskal_forest(adj, parent@, accepted, weight as int));
                    }
                    return MinSpanTree::new(self, parent, weight);
                },
                Some(edge) => edge,
            };
            proof {
                assert(items.contains(edge));
                assert forall|y: EdgePair| #[trigger] queue.items().contains(y) implies items.contains(y) by {
                    assert(items.remove(edge).count(y) <= items.count(y));
                }
            }
            if set.find(edge.source) != set.find(edge.points_to) {
                proof {
                    let a = accepted.len() as int;
                    assert(a + 1 < n) by {
                        set.lemma_roots_finite();
                        lemma_member_of_own_set(&set, edge.source as int);
                        lemma_member_of_own_set(&set, edge.points_to as int);
                        assert(set.roots().contains(set.rep(edge.points_to as int)));
                        assert(set.roots().remove(set.rep(edge.source as int)).contains(set.rep(edge.points_to as int)));
                        assert(set.roots().remove(set.rep(edge.source as int)).len() >= 1);
                    }
                    assert((a + 1) * MAX_WEIGHT == a * MAX_WEIGHT + MAX_WEIGHT) by (nonlinear_arith);
                    assert((a + 1) * (MAX_WEIGHT + 1) == a * (MAX_WEIGHT + 1) + MAX_WEIGHT + 1) by (nonlinear_arith);
                    assert((a + 1) * MAX_WEIGHT <= u32::MAX * MAX_WEIGHT) by (nonlinear_arith)
                        requires a + 1 <= u32::MAX;
                    assert((a + 1) * (MAX_WEIGHT + 1) <= u32::MAX * (MAX_WEIGHT + 1)) by (nonlinear_arith)
                        requires a + 1 <= u32::MAX;
                    assert(weight + edge.weight <= (a + 1) * MAX_WEIGHT);
                    assert(-a * (MAX_WEIGHT + 1) == -(a * (MAX_WEIGHT + 1))) by (nonlinear_arith);
                    assert(-(a + 1) * (MAX_WEIGHT + 1) == -(a * (MAX_WEIGHT + 1)) - (MAX_WEIGHT + 1)) by (nonlinear_arith);
                    assert(weight + edge.weight >= -(a + 1) * (MAX_WEIGHT + 1));
                }
                parent.set(edge.points_to, Some(edge.source));
                weight = weight + edge.weight as i64;
                let ghost s0 = set;
                set.union(edge.source, edge.points_to);
                proof {
                    let rx = s0.rep(edge.source as int);
                    let ry = s0.rep(edge.points_to as int);
                    let (w, l) = if s0.members(rx).len() < s0.members(ry).len() { (ry, rx) } else { (rx, ry) };
                    lemma_forest_accept(n as int, accepted, s0, set, edge.triple(), w, l);
                    lemma_lighter_accept(adj, accepted, s0, items, edge);
                    assert forall|z: int, y: int| 0 <= z < n && 0 <= y < n && #[trigger] s0.rep(z) == #[trigger] s0.rep(y) implies set.rep(z) == set.rep(y) by {
                    }
                    lemma_covers_step(adj, items, edge, s0, set);
                    let old_acc = accepted;
                    accepted = accepted.push(edge.triple());
                    assert(accepted.drop_last() =~= old_acc);
                    assert forall|v: int|
                        0 <= v < n && #[trigger] parent@[v].is_some() implies exists|i: int|
                            0 <= i < accepted.len() && #[trigger] accepted[i] == (
                                parent@[v].unwrap() as int,
                                v,
                                accepted[i].2,
                            ) by {
                        if v == edge.points_to {
                            assert(accepted[old_acc.len() as int] == (parent@[v].unwrap() as int, v, edge.weight as int));
                        } else {
                            let i = choose|i: int| 0 <= i < old_acc.len() && #[trigger] old_acc[i] == (
                                parent@[v].unwrap() as int,
                                v,
                                old_acc[i].2,
                            );
                            assert(accepted[i] == old_acc[i]);
                        }
                    }
                    assert forall|i: int, j: int| 0 <= i < j < accepted.len() implies #[trigger] accepted[i].2 <= #[trigger] accepted[j].2 by {
                        if j == old_acc.len() {
                            assert(old_acc[i].2 <= edge.weight);
                        }
                    }
                    assert forall|i: int, y: EdgePair| 0 <= i < accepted.len() && #[trigger] queue.items().contains(y) implies #[trigger] accepted[i].2 <= y.weight by {
                        assert(items.contains(y));
                        if i < old_acc.len() {
                            assert(old_acc[i].2 <= y.weight);
                        }
                    }
                    if n > 0 {
                        set.lemma_roots_finite();
                        lemma_member_of_own_set(&set, 0);
                    }
                }
            } else {
                proof {
                    assert forall|i: int, y: EdgePair| 0 <= i < accepted.len() && #[trigger] queue.items().contains(y) implies #[trigger] accepted[i].2 <= y.weight by {
                        assert(items.contains(y));
                    }
                    lemma_covers_step(adj, items, edge, set, set);
                }
            }
        }
    }
}

/// A spanning tree given by parent links, with its total weight.
#[derive(Debug)]
pub struct MinSpanTree<'a> {
    graph: &'a WeightedGraph,
    parents: Vec<Option<usize>>,
    total_weight: i64,
}

impl<'a> MinSpanTree<'a> {
    pub closed spec fn graph(&self) -> &'a WeightedGraph {
        self.graph
    }

    pub closed spec fn parents(&self) -> Seq<Option<usize>> {
        self.parents@
    }

    pub closed spec fn total_weight_spec(&self) -> i64 {
        self.total_weight
    }

    pub fn new(graph: &'a WeightedGraph, parents: Vec<Option<usize>>, total_weight: i64) -> (r: Self)
        ensures
            r.graph() == graph,
            r.parents() == parents@,
            r.total_weight() == total_weight,
    {
        MinSpanTree { graph, parents, total_weight }
    }

    /// The sum of the weights of the tree's edges.
    #[verifier::when_used_as_spec(total_weight_spec)]
    pub fn total_weight(&self) -> (r: i64)
        ensures
            r == self.total_weight_spec(),
    {
        self.total_weight
    }

    /// The parent of `v` in the tree; `None` for the root and for vertices the
    /// tree does not reach.
    pub fn parent(&self, v: usize) -> (r: Option<usize>)
        requires
            v < self.parents().len(),
        ensures
            r == self.parents()[v as int],
    {
        self.parents[v]
    }
}

/// Shortest distances from one start vertex, with the parent links that
/// realise them.
#[derive(Debug)]
pub struct ShortestPaths<'a> {
    graph: &'a WeightedGraph,
    start: usize,
    parents: Vec<Option<usize>>,
    distance: Vec<i64>,
}

impl<'a> ShortestPaths<'a> {
    pub closed spec fn graph(&self) -> &'a WeightedGraph {
        self.graph
    }

    pub closed spec fn start(&self) -> int {
        self.start as int
    }

    pub closed spec fn parents(&self) -> Seq<Option<usize>> {
        self.parents@
    }

    /// The recorded distance of each vertex, `UNREACHED` where none was found.
    pub closed spec fn distances(&self) -> Seq<i64> {
        self.distance@
    }

    pub open spec fn wf(&self) -> bool {
        &&& is_shortest_path_tree(self.graph()@, self.start(), self.parents(), self.distances())
        &&& positive_from(self.graph()@, self.start())
        &&& reached_by_walks(self.graph()@, self.start(), self.distances())
    }

    /// Wraps distances and parent links that certify shortest paths from
    /// `start` in `graph`.
    pub fn new(
        graph: &'a WeightedGraph,
        start: usize,
        parents: Vec<Option<usize>>,
        distance: Vec<i64>,
    ) -> (r: Self)
        requires
            is_shortest_path_tree(graph@, start as int, parents@, distance@),
            positive_from(graph@, start as int),
            reached_by_walks(graph@, start as int, distance@),
        ensures
            r.wf(),
            r.graph() == graph,
            r.start() == start,
            r.parents() == parents@,
            r.distances() == distance@,
    {
        ShortestPaths { graph, start, parents, distance }
    }

    /// The path from the start to `end` found by walking parent links back
    /// from `end`, with its weight; `None` when `end` was not reached.
    pub fn path_to(&self, end: usize) -> (r: Option<Path>)
        requires
            self.wf(),
            end < self.graph()@.len(),
        ensures
            r.is_none() <==> self.distances()[end as int] == UNREACHED,
            r.is_some() ==> {
                let p = r.unwrap();
                let vs = p.path@.map_values(|x: usize| x as int);
                &&& p.weight == self.distances()[end as int]
                &&& is_walk(self.graph()@, vs, p.weight as int)
                &&& vs[0] == self.start()
                &&& vs.last() == end
                &&& vs.no_duplicates()
            },
    {
        let ghost adj = self.graph@;
        if self.distance[end] == UNREACHED {
            return None;
        }
        let mut path: Vec<usize> = Vec::new();
        path.push(end);
        let mut cur = end;
        proof {
            assert(is_walk(adj, path@.map_values(|x: usize| x as int), 0));
        }
        while cur != self.start
            invariant
                self.wf(),
                adj == self.graph()@,
                cur < adj.len(),
                end < adj.len(),
                self.distance@[cur as int] < UNREACHED,
                path@.len() >= 1,
                path@[0] == cur,
                path@.last() == end,
                is_walk(adj, path@.map_values(|x: usize| x as int), self.distance@[end as int] - self.distance@[cur as int]),
                forall|i: int| 0 <= i < path@.len() ==> #[trigger] path@[i] < adj.len(),
                forall|i: int, j: int| 0 <= i < j < path@.len() ==> self.distance@[#[trigger] path@[i] as int] < self.distance@[#[trigger] path@[j] as int],
            decreases self.distance@[cur as int],
        {
            let u = self.parents[cur].unwrap();
            let ghost before = path@.map_values(|x: usize| x as int);
            let ghost raw = path@;
            let ghost x = self.distance@[cur as int] - self.distance@[u as int];
            proof {
                assert(self.parents@[cur as int].is_some());
                assert(self.parents@[cur as int].unwrap() == u);
                assert(arc_in(adj, u as int, cur as int, x));
                let k = choose|k: int| 0 <= k < adj[u as int].len() && #[trigger] adj[u as int][k] == (cur as int, x);
                assert(walk_reaches(adj, self.start(), u as int));
                assert(adj[u as int][k].1 > 0);
            }
            path.insert(0, u);
            proof {
                let after = path@.map_values(|x: usize| x as int);
                assert(after.drop_first() =~= before);
                assert(after[1] == cur);
                assert(after[0] == u);
                assert(arc_in(adj, after[0], after[1], x));
                assert(is_walk(adj, after.drop_first(), (self.distance@[end as int] - self.distance@[u as int]) - x));
                assert(is_walk(adj, after, self.distance@[end as int] - self.distance@[u as int]));
                assert(path@ =~= seq![u].add(raw));
                assert forall|i: int, j: int| 0 <= i < j < path@.len() implies self.distance@[#[trigger] path@[i] as int] < self.distance@[#[trigger] path@[j] as int] by {
                    if i == 0 {
                        if j > 1 {
                            assert(self.distance@[raw[0] as int] < self.distance@[raw[j - 1] as int]);
                        }
                    } else {
                        assert(path@[i] == raw[i - 1] && path@[j] == raw[j - 1]);
                    }
                }
            }
            cur = u;
        }
        proof {
            let vs = path@.map_values(|x: usize| x as int);
            assert forall|i: int, j: int| 0 <= i < vs.len() && 0 <= j < vs.len() && i != j implies vs[i] != vs[j] by {
                if i < j {
                    assert(self.distance@[path@[i] as int] < self.distance@[path@[j] as int]);
                } else {
                    assert(self.distance@[path@[j] as int] < self.distance@[path@[i] as int]);
                }
            }
        }
        Some(Path::new(path, self.distance[end]))
    }
}

/// A sequence of vertices and the total weight of the edges along it.
#[derive(Debug)]
pub struct Path {
    pub path: Vec<usize>,
    pub weight: i64,
}

impl Path {
    pub fn new(path: Vec<usize>, weight: i64) -> (r: Self)
        ensures
            r.path@ == path@,
            r.weight == weight,
    {
        Path { path, weight }
    }
}

proof fn lemma_walk_from_reached(adj: Adjacency, start: int, parents: Seq<Option<usize>>, dist: Seq<i64>, p: Seq<int>, w: int)
    requires
        is_shortest_path_tree(adj, start, parents, dist),
        is_walk(adj, p, w),
        dist[p[0]] < UNREACHED,
    ensures
        dist[p.last()] < UNREACHED,
        dist[p.last()] <= dist[p[0]] + w,
    decreases p.len(),
{
    if p.len() > 1 {
        let x = choose|x: int| #[trigger] arc_in(adj, p[0], p[1], x) && is_walk(adj, p.drop_first(), w - x);
        let k = choose|k: int| 0 <= k < adj[p[0]].len() && #[trigger] adj[p[0]][k] == (p[1], x);
        assert(adj[p[0]][k].0 == p[1]);
        lemma_walk_from_reached(adj, start, parents, dist, p.drop_first(), w - x);
    }
}

/// No walk from the start is lighter than the recorded distance of where it
/// ends, and every vertex such a walk reaches has a recorded distance.
pub proof fn lemma_no_shorter_walk(sp: &ShortestPaths, p: Seq<int>, w: int)
    requires
        sp.wf(),
        is_walk(sp.graph()@, p, w),
        p[0] == sp.start(),
    ensures
        sp.distances()[p.last()] < UNREACHED,
        sp.distances()[p.last()] <= w,
{
    lemma_walk_from_reached(sp.graph()@, sp.start(), sp.parents(), sp.distances(), p, w);
}

proof fn lemma_reached_by_walk(adj: Adjacency, start: int, parents: Seq<Option<usize>>, dist: Seq<i64>, v: int)
    requires
        is_shortest_path_tree(adj, start, parents, dist),
        positive_from(adj, start),
        reached_by_walks(adj, start, dist),
        0 <= v < adj.len(),
        dist[v] < UNREACHED,
    ensures
        exists|p: Seq<int>| is_walk(adj, p, dist[v] as int) && p[0] == start && p.last() == v,
    decreases dist[v],
{
    if v == start {
        let p = seq![start];
        assert(is_walk(adj, p, dist[v] as int));
        assert(p[0] == start && p.last() == v);
    } else {
        assert(parents[v].is_some());
        let u = parents[v].unwrap() as int;
        let x = dist[v] - dist[u];
        let k = choose|k: int| 0 <= k < adj[u].len() && #[trigger] adj[u][k] == (v, x);
        assert(walk_reaches(adj, start, u));
        assert(adj[u][k].1 > 0);
        lemma_reached_by_walk(adj, start, parents, dist, u);
        let p = choose|p: Seq<int>| is_walk(adj, p, dist[u] as int) && p[0] == start && p.last() == u;
        lemma_walk_extend(adj, p, dist[u] as int, v, x);
        assert(is_walk(adj, p.push(v), dist[v] as int));
        assert(p.push(v)[0] == start);
        assert(p.push(v).last() == v);
    }
}

proof fn lemma_walk_extend(adj: Adjacency, p: Seq<int>, w: int, v: int, x: int)
    requires
        is_walk(adj, p, w),
        arc_in(adj, p.last(), v, x),
        0 <= v < adj.len(),
    ensures
        is_walk(adj, p.push(v), w + x),
    decreases p.len(),
{
    let q = p.push(v);
    if p.len() == 1 {
        assert(q.drop_first() =~= seq![v]);
        assert(is_walk(adj, q.drop_first(), w + x - x));
        assert(arc_in(adj, q[0], q[1], x));
    } else {
        let y = choose|y: int| #[trigger] arc_in(adj, p[0], p[1], y) && is_walk(adj, p.drop_first(), w - y);
        assert(p.drop_first().last() == p.last());
        lemma_walk_extend(adj, p.drop_first(), w - y, v, x);
        assert(q.drop_first() =~= p.drop_first().push(v));
        assert(arc_in(adj, q[0], q[1], y));
        assert(is_walk(adj, q.drop_first(), (w + x) - y));
    }
}

/// Every reached vertex is the end of a walk from the start whose weight is
/// exactly its recorded distance; together with `lemma_no_shorter_walk`, the
/// recorded distance is the least weight of any walk from the start, and a
/// vertex has one exactly when some walk leads to it.
pub proof fn lemma_distance_is_attained(sp: &ShortestPaths, v: int)
    requires
        sp.wf(),
        0 <= v < sp.graph()@.len(),
        sp.distances()[v] < UNREACHED,
    ensures
        exists|p: Seq<int>|
            is_walk(sp.graph()@, p, sp.distances()[v] as int) && p[0] == sp.start() && p.last() == v,
{
    lemma_reached_by_walk(sp.graph()@, sp.start(), sp.parents(), sp.distances(), v);
}

/// The recorded distance of `t` is the least weight of a walk from the start
/// to `t`, attained by some walk; `t` has no recorded distance exactly when no
/// walk from the start reaches it.
pub proof fn lemma_shortest_distance(sp: &ShortestPaths, t: int)
    requires
        sp.wf(),
        0 <= t < sp.graph()@.len(),
    ensures
        sp.distances()[t] < UNREACHED <==> exists|p: Seq<int>, w: int|
            #[trigger] is_walk(sp.graph()@, p, w) && p[0] == sp.start() && p.last() == t,
        sp.distances()[t] < UNREACHED ==> exists|p: Seq<int>|
            #[trigger] is_walk(sp.graph()@, p, sp.distances()[t] as int) && p[0] == sp.start() && p.last() == t,
        forall|p: Seq<int>, w: int|
            #[trigger] is_walk(sp.graph()@, p, w) && p[0] == sp.start() && p.last() == t ==> sp.distances()[t] <= w,
{
    let adj = sp.graph()@;
    if sp.distances()[t] < UNREACHED {
        lemma_distance_is_attained(sp, t);
        let p = choose|p: Seq<int>| is_walk(adj, p, sp.distances()[t] as int) && p[0] == sp.start() && p.last() == t;
        assert(is_walk(adj, p, sp.distances()[t] as int) && p[0] == sp.start() && p.last() == t);
    }
    assert forall|p: Seq<int>, w: int|
        #[trigger] is_walk(adj, p, w) && p[0] == sp.start() && p.last() == t implies sp.distances()[t] <= w && sp.distances()[t] < UNREACHED by {
        lemma_no_shorter_walk(sp, p, w);
    }
}

/// Two shortest-path results for the same graph and start record the same
/// distance for every vertex, so running the search again gives the same
/// distances.
pub proof fn lemma_distances_unique(a: &ShortestPaths, b: &ShortestPaths)
    requires
        a.wf(),
        b.wf(),
        a.graph()@ == b.graph()@,
        a.start() == b.start(),
    ensures
        a.distances() == b.distances(),
{
    let adj = a.graph()@;
    let n = adj.len();
    assert forall|v: int| 0 <= v < n implies a.distances()[v] == b.distances()[v] by {
        if a.distances()[v] < UNREACHED {
            lemma_distance_is_attained(a, v);
            let p = choose|p: Seq<int>| is_walk(adj, p, a.distances()[v] as int) && p[0] == a.start() && p.last() == v;
            lemma_no_shorter_walk(b, p, a.distances()[v] as int);
        }
        if b.distances()[v] < UNREACHED {
            lemma_distance_is_attained(b, v);
            let p = choose|p: Seq<int>| is_walk(adj, p, b.distances()[v] as int) && p[0] == b.start() && p.last() == v;
            lemma_no_shorter_walk(a, p, b.distances()[v] as int);
        }
    }
    assert(a.distances() =~= b.distances());
}

} // verus!
