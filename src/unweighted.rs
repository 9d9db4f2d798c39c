use vstd::prelude::*;

use crate::weighted::{lemma_settle_count, lemma_settled_bound, settled};

verus! {

/// For each vertex, the targets of its outgoing edges.
pub type Neighbours = Seq<Seq<int>>;

/// Every edge of `adj` leads to a vertex of `adj`.
pub open spec fn in_range(adj: Neighbours) -> bool {
    forall|u: int, k: int| 0 <= u < adj.len() && 0 <= k < adj[u].len() ==> 0 <= #[trigger] adj[u][k] < adj.len()
}

/// `p` is a non-empty sequence of vertices, each joined to the next by an edge.
pub open spec fn is_path(adj: Neighbours, p: Seq<int>) -> bool {
    &&& p.len() >= 1
    &&& forall|i: int| 0 <= i < p.len() ==> 0 <= #[trigger] p[i] < adj.len()
    &&& forall|i: int| 0 < i < p.len() ==> adj[p[i - 1]].contains(#[trigger] p[i])
}

/// Some path leads from `a` to `b`.
pub open spec fn reachable(adj: Neighbours, a: int, b: int) -> bool {
    exists|p: Seq<int>| #[trigger] is_path(adj, p) && p[0] == a && p.last() == b
}

proof fn lemma_path_push(adj: Neighbours, p: Seq<int>, v: int)
    requires
        is_path(adj, p),
        0 <= v < adj.len(),
        adj[p.last()].contains(v),
    ensures
        is_path(adj, p.push(v)),
        p.push(v)[0] == p[0],
        p.push(v).last() == v,
{
    let q = p.push(v);
    assert forall|i: int| 0 < i < q.len() implies adj[q[i - 1]].contains(#[trigger] q[i]) by {
        if i < p.len() {
            assert(q[i - 1] == p[i - 1] && q[i] == p[i]);
        }
    }
}

proof fn lemma_path_prepend(adj: Neighbours, before: Seq<usize>, after: Seq<usize>, p: usize)
    requires
        is_path(adj, before.map_values(|x: usize| x as int)),
        after == seq![p].add(before),
        p < adj.len(),
        adj[p as int].contains(before[0] as int),
    ensures
        is_path(adj, after.map_values(|x: usize| x as int)),
        after.map_values(|x: usize| x as int)[0] == p,
        after.map_values(|x: usize| x as int).last() == before.map_values(|x: usize| x as int).last(),
{
    let b = before.map_values(|x: usize| x as int);
    let a = after.map_values(|x: usize| x as int);
    assert(a.drop_first() =~= b);
    assert forall|i: int| 0 <= i < a.len() implies 0 <= #[trigger] a[i] < adj.len() by {
        if i > 0 {
            assert(a[i] == b[i - 1]);
        }
    }
    assert forall|i: int| 0 < i < a.len() implies adj[a[i - 1]].contains(#[trigger] a[i]) by {
        if i > 1 {
            assert(a[i - 1] == b[i - 2] && a[i] == b[i - 1]);
        }
    }
}

proof fn lemma_int_path_prepend(adj: Neighbours, p: Seq<int>, u: int)
    requires
        is_path(adj, p),
        0 <= u < adj.len(),
        adj[u].contains(p[0]),
    ensures
        is_path(adj, seq![u].add(p)),
{
    let q = seq![u].add(p);
    assert forall|i: int| 0 <= i < q.len() implies 0 <= #[trigger] q[i] < adj.len() by {
        if i > 0 {
            assert(q[i] == p[i - 1]);
        }
    }
    assert forall|i: int| 0 < i < q.len() implies adj[q[i - 1]].contains(#[trigger] q[i]) by {
        if i > 1 {
            assert(q[i - 1] == p[i - 2] && q[i] == p[i - 1]);
        }
    }
}

/// A set of vertices holding `a` that no edge leaves holds all that `a` reaches.
proof fn lemma_closed_holds_reachable(adj: Neighbours, marks: Seq<bool>, a: int, b: int)
    requires
        marks.len() == adj.len(),
        0 <= a < adj.len(),
        marks[a],
        forall|u: int, k: int| 0 <= u < adj.len() && marks[u] && 0 <= k < adj[u].len() ==> #[trigger] marks[adj[u][k]],
        reachable(adj, a, b),
    ensures
        marks[b],
{
    let p = choose|p: Seq<int>| #[trigger] is_path(adj, p) && p[0] == a && p.last() == b;
    assert forall|i: int| 0 <= i < p.len() implies #[trigger] marks[p[i]] by {
        lemma_path_prefix_marked(adj, marks, p, i);
    }
    assert(marks[p[p.len() - 1]]);
}

proof fn lemma_path_prefix_marked(adj: Neighbours, marks: Seq<bool>, p: Seq<int>, i: int)
    requires
        marks.len() == adj.len(),
        is_path(adj, p),
        marks[p[0]],
        forall|u: int, k: int| 0 <= u < adj.len() && marks[u] && 0 <= k < adj[u].len() ==> #[trigger] marks[adj[u][k]],
        0 <= i < p.len(),
    ensures
        marks[p[i]],
    decreases i,
{
    if i > 0 {
        lemma_path_prefix_marked(adj, marks, p, i - 1);
        assert(adj[p[i - 1]].contains(p[i]));
        let k = choose|k: int| 0 <= k < adj[p[i - 1]].len() && #[trigger] adj[p[i - 1]][k] == p[i];
        assert(marks[adj[p[i - 1]][k]]);
    }
}

/// The vertices marked after searching, in order, from each of the vertices
/// `0..k` that no earlier search had reached.
pub open spec fn covered(adj: Neighbours, k: int) -> Seq<bool>
    decreases k,
{
    if k <= 0 {
        Seq::new(adj.len(), |v: int| false)
    } else {
        let c = covered(adj, k - 1);
        if c[k - 1] {
            c
        } else {
            Seq::new(adj.len(), |v: int| c[v] || reachable(adj, k - 1, v))
        }
    }
}

/// How many of the vertices `0..k` start a new search.
pub open spec fn launches(adj: Neighbours, k: int) -> nat
    decreases k,
{
    if k <= 0 {
        0
    } else {
        launches(adj, k - 1) + if covered(adj, k - 1)[k - 1] {
            0nat
        } else {
            1nat
        }
    }
}

proof fn lemma_launches_bound(adj: Neighbours, k: int)
    requires
        k >= 0,
    ensures
        launches(adj, k) <= k,
    decreases k,
{
    if k > 0 {
        lemma_launches_bound(adj, k - 1);
    }
}

proof fn lemma_covered_len(adj: Neighbours, k: int)
    ensures
        covered(adj, k).len() == adj.len(),
    decreases k,
{
    if k > 0 {
        lemma_covered_len(adj, k - 1);
    }
}

/// A graph over the vertices `0..n`, directed or not, without weights; each
/// vertex keeps the list of its outgoing edges, the latest added first.
#[derive(Debug)]
pub struct Graph {
    edges: Vec<Vec<usize>>,
    degrees: Vec<usize>,
    nedges: usize,
    nvert: usize,
    directed: bool,
}

impl View for Graph {
    type V = Neighbours;

    closed spec fn view(&self) -> Neighbours {
        Seq::new(self.edges@.len(), |v: int| Seq::new(self.edges@[v]@.len(), |k: int| self.edges@[v]@[k] as int))
    }
}

impl Graph {
    pub closed spec fn is_directed(&self) -> bool {
        self.directed
    }

    /// How many times an edge was inserted.
    pub closed spec fn edge_count(&self) -> nat {
        self.nedges as nat
    }

    pub closed spec fn wf(&self) -> bool {
        &&& self.degrees@.len() == self.edges@.len()
        &&& forall|v: int|
            0 <= v < self.edges@.len() ==> #[trigger] self.degrees@[v] == self.edges@[v]@.len()
        &&& in_range(self@)
        &&& self.nvert == self.nedges
    }

    /// A graph of `vcapacity` vertices and no edges.
    pub fn new(vcapacity: usize, directed: bool) -> (r: Self)
        ensures
            r.wf(),
            r@ == Seq::new(vcapacity as nat, |v: int| Seq::<int>::empty()),
            r.is_directed() == directed,
            r.edge_count() == 0,
    {
        let mut edges: Vec<Vec<usize>> = Vec::with_capacity(vcapacity);
        let mut degrees: Vec<usize> = Vec::with_capacity(vcapacity);
        let mut i: usize = 0;
        while i < vcapacity
            invariant
                i <= vcapacity,
                edges@.len() == i,
                degrees@.len() == i,
                forall|v: int| 0 <= v < i ==> (#[trigger] edges@[v])@.len() == 0,
                forall|v: int| 0 <= v < i ==> #[trigger] degrees@[v] == 0,
            decreases vcapacity - i,
        {
            degrees.push(0);
            edges.push(Vec::new());
            i += 1;
        }
        let r = Graph { edges, degrees, nedges: 0, nvert: 0, directed };
        proof {
            assert(r@ =~~= Seq::new(vcapacity as nat, |v: int| Seq::<int>::empty()));
        }
        r
    }

    fn push_edge(&mut self, from: usize, to: usize)
        requires
            old(self).wf(),
            from < old(self)@.len(),
            to < old(self)@.len(),
        ensures
            final(self).wf(),
            final(self)@ == old(self)@.update(from as int, seq![to as int].add(old(self)@[from as int])),
            final(self).directed == old(self).directed,
            final(self).nedges == old(self).nedges,
    {
        let ghost before = self@;
        self.edges[from].insert(0, to);
        let len = self.edges[from].len();
        self.degrees.set(from, len);
        proof {
            assert(self@ =~~= before.update(from as int, seq![to as int].add(before[from as int])));
        }
    }

    /// Adds an edge from `i` to `j`; an undirected graph also gets the
    /// mirrored edge from `j` to `i`.
    pub fn insert_edge(&mut self, i: usize, j: usize)
        requires
            old(self).wf(),
            i < old(self)@.len(),
            j < old(self)@.len(),
            old(self).edge_count() < usize::MAX,
        ensures
            final(self).wf(),
            final(self).is_directed() == old(self).is_directed(),
            final(self).edge_count() == old(self).edge_count() + 1,
            ({
                let once = old(self)@.update(i as int, seq![j as int].add(old(self)@[i as int]));
                final(self)@ == if old(self).is_directed() {
                    once
                } else {
                    once.update(j as int, seq![i as int].add(once[j as int]))
                }
            }),
    {
        self.nedges += 1;
        self.nvert += 1;
        self.push_edge(i, j);
        if !self.directed {
            self.push_edge(j, i);
        }
    }

    /// Counts the searches needed to discover every vertex, launching one from
    /// each vertex, in order, that earlier searches did not reach; in an
    /// undirected graph this is the number of connected components.
    pub fn connected_components(&self) -> (r: usize)
        requires
            self.wf(),
        ensures
            r == launches(self@, self@.len() as int),
    {
        let ghost adj = self@;
        let n = self.edges.len();
        let mut bfs = self.init_bfs();
        let mut cc: usize = 0;
        let mut i: usize = 0;
        proof {
            assert(bfs.discovered() =~= covered(adj, 0));
        }
        while i < n
            invariant
                adj == self@,
                n == adj.len(),
                i <= n,
                bfs.wf(),
                bfs.graph() == self,
                bfs.discovered() == covered(adj, i as int),
                cc == launches(adj, i as int),
            decreases n - i,
        {
            proof {
                lemma_launches_bound(adj, i as int);
                lemma_covered_len(adj, i as int);
            }
            if !bfs.discovered[i] {
                cc += 1;
                let ghost before = bfs.discovered();
                bfs.search_from(i);
                proof {
                    assert(bfs.discovered() =~= covered(adj, i + 1));
                }
            } else {
                proof {
                    assert(bfs.discovered() =~= covered(adj, i + 1));
                }
            }
            i += 1;
        }
        cc
    }

    /// The path from `start` to `end` along the links of a breadth-first
    /// search from `start`; `None` when `end` is `start` or is not reachable.
    pub fn find_path(&self, start: usize, end: usize) -> (r: Option<Vec<usize>>)
        requires
            self.wf(),
            start < self@.len(),
            end < self@.len(),
        ensures
            r.is_some() <==> (end != start && reachable(self@, start as int, end as int)),
            r.is_some() ==> {
                let p = r.unwrap()@.map_values(|x: usize| x as int);
                &&& is_path(self@, p)
                &&& p[0] == start
                &&& p.last() == end
                &&& p.no_duplicates()
            },
    {
        let ghost adj = self@;
        let mut bfs = self.init_bfs();
        bfs.search_from(start);
        let mut builder: Vec<usize> = Vec::new();
        let mut cur = end;
        builder.push(cur);
        proof {
            let p = builder@.map_values(|x: usize| x as int);
            assert(p =~= seq![end as int]);
        }
        loop
            invariant
                adj == self@,
                bfs.wf(),
                bfs.graph() == self,
                end < adj.len(),
                start < adj.len(),
                cur < adj.len(),
                cur != start || cur == end,
                end == start ==> cur == start,
                cur == end || bfs.discovered()[cur as int],
                forall|v: int| 0 <= v < adj.len() ==> (#[trigger] bfs.discovered()[v] <==> reachable(adj, start as int, v)),
                forall|v: int| 0 <= v < adj.len() && #[trigger] bfs.discovered()[v] && v != start ==> bfs.parents()[v].is_some(),
                bfs.parents()[start as int].is_none(),
                builder@.len() >= 1,
                builder@[0] == cur,
                builder@.last() == end,
                is_path(adj, builder@.map_values(|x: usize| x as int)),
                forall|i: int| 0 <= i < builder@.len() ==> #[trigger] builder@[i] < adj.len(),
                forall|i: int, j: int| 0 <= i < j < builder@.len() ==> bfs.level@[#[trigger] builder@[i] as int] < bfs.level@[#[trigger] builder@[j] as int],
            decreases bfs.level@[cur as int],
        {
            match bfs.parents[cur] {
                None => {
                    proof {
                        assert(bfs.parents()[cur as int].is_none());
                        if cur != start {
                            assert(!bfs.discovered()[cur as int]);
                            assert(!reachable(adj, start as int, end as int));
                        }
                    }
                    return None;
                },
                Some(p) => {
                    assert(bfs.parents()[cur as int] == Some(p));
                    assert(cur != start);
                    let ghost before = builder@;
                    proof {
                        assert(bfs.parents()[cur as int] == Some(p));
                        assert(bfs.discovered()[p as int]);
                        assert(adj[p as int].contains(cur as int));
                    }
                    builder.insert(0, p);
                    proof {
                        assert(builder@ =~= seq![p].add(before));
                        lemma_path_prepend(adj, before, builder@, p);
                        if p == start {
                            assert(reachable(adj, start as int, end as int));
                        }
                        assert(bfs.level@[p as int] < bfs.level@[cur as int]);
                        assert forall|i: int, j: int| 0 <= i < j < builder@.len() implies bfs.level@[#[trigger] builder@[i] as int] < bfs.level@[#[trigger] builder@[j] as int] by {
                            if i == 0 {
                                if j > 1 {
                                    assert(bfs.level@[before[0] as int] < bfs.level@[before[j - 1] as int]);
                                }
                            } else {
                                assert(builder@[i] == before[i - 1] && builder@[j] == before[j - 1]);
                            }
                        }
                        let ps = builder@.map_values(|x: usize| x as int);
                        assert forall|i: int, j: int| 0 <= i < ps.len() && 0 <= j < ps.len() && i != j implies ps[i] != ps[j] by {
                            if i < j {
                                assert(bfs.level@[builder@[i] as int] < bfs.level@[builder@[j] as int]);
                            } else {
                                assert(bfs.level@[builder@[j] as int] < bfs.level@[builder@[i] as int]);
                            }
                        }
                    }
                    if p == start {
                        return Some(builder);
                    }
                    cur = p;
                },
            }
        }
    }

    /// Number of vertices.
    pub fn vertex_count(&self) -> (r: usize)
        ensures
            r == self@.len(),
    {
        self.edges.len()
    }

    /// A depth-first searcher over this graph with nothing discovered yet.
    pub fn init_dfs(&self) -> (r: DepthFirstSearcher)
        requires
            self.wf(),
            2 * self@.len() < usize::MAX,
        ensures
            r.wf(),
            r.graph() == self,
            !r.stopped(),
            forall|v: int| 0 <= v < self@.len() ==> !#[trigger] r.discovered()[v],
    {
        DepthFirstSearcher::new(self)
    }

    /// A cycle met by a depth-first search from `start`: the vertex the
    /// closing edge returns to, the vertex it leaves from, then the parent
    /// links back up to the first. Read backwards it is a walk along edges
    /// that ends where it starts.
    pub fn find_cycle(&self, start: usize) -> (r: Option<Vec<usize>>)
        requires
            self.wf(),
            start < self@.len(),
            2 * self@.len() < usize::MAX,
        ensures
            r.is_some() ==> {
                let c = r.unwrap()@.map_values(|x: usize| x as int);
                &&& c.len() >= 2
                &&& c[0] == c.last()
                &&& is_path(self@, c.reverse())
            },
    {
        let ghost adj = self@;
        let mut dfs = self.init_dfs();
        dfs.search_from(start, &mut NoVisitor);
        let (origin, target) = match dfs.cycle {
            None => return None,
            Some(edge) => edge,
        };
        let mut cycle: Vec<usize> = Vec::new();
        cycle.push(target);
        cycle.push(origin);
        let mut cur = origin;
        proof {
            let c = cycle@.map_values(|x: usize| x as int);
            assert(c.reverse() =~= seq![origin as int, target as int]);
            assert(is_path(adj, c.reverse()));
        }
        while cur != target
            invariant
                adj == self@,
                dfs.wf(),
                dfs.graph() == self,
                cur < adj.len(),
                target < adj.len(),
                dfs.discovered@[cur as int],
                cycle@.len() >= 2,
                cycle@[0] == target,
                cycle@.last() == cur,
                is_path(adj, cycle@.map_values(|x: usize| x as int).reverse()),
            decreases dfs.entry_time@[cur as int].unwrap(),
        {
            let p = match dfs.parents[cur] {
                None => return None,
                Some(p) => p,
            };
            let ghost before = cycle@.map_values(|x: usize| x as int).reverse();
            cycle.push(p);
            proof {
                let after = cycle@.map_values(|x: usize| x as int).reverse();
                assert(after =~= seq![p as int].add(before));
                lemma_int_path_prepend(adj, before, p as int);
            }
            cur = p;
        }
        Some(cycle)
    }

    /// A breadth-first searcher over this graph with nothing discovered yet.
    pub fn init_bfs(&self) -> (r: BreadthFirstSearcher)
        requires
            self.wf(),
        ensures
            r.wf(),
            r.graph() == self,
            forall|v: int| 0 <= v < self@.len() ==> !#[trigger] r.discovered()[v],
    {
        BreadthFirstSearcher::new(self)
    }
}

/// Breadth-first search state: which vertices were discovered and through
/// which edge.
pub struct BreadthFirstSearcher<'a> {
    graph: &'a Graph,
    parents: Vec<Option<usize>>,
    discovered: Vec<bool>,
    processed: Vec<bool>,
    level: Ghost<Seq<nat>>,
}

impl<'a> BreadthFirstSearcher<'a> {
    pub closed spec fn graph(&self) -> &'a Graph {
        self.graph
    }

    pub closed spec fn discovered(&self) -> Seq<bool> {
        self.discovered@
    }

    pub closed spec fn parents(&self) -> Seq<Option<usize>> {
        self.parents@
    }

    /// Whether some search has discovered `v`.
    pub fn is_discovered(&self, v: usize) -> (r: bool)
        requires
            self.wf(),
            v < self.graph()@.len(),
        ensures
            r == self.discovered()[v as int],
    {
        self.discovered[v]
    }

    /// Between searches: every discovered vertex was processed, so every edge
    /// out of it leads to a discovered vertex; each parent link is an edge
    /// from a vertex discovered earlier.
    pub closed spec fn wf(&self) -> bool {
        let adj = self.graph@;
        let n = adj.len();
        &&& self.graph.wf()
        &&& self.parents@.len() == n
        &&& self.discovered@.len() == n
        &&& self.processed@.len() == n
        &&& self.level@.len() == n
        &&& forall|v: int| 0 <= v < n ==> #[trigger] self.processed@[v] == self.discovered@[v]
        &&& forall|u: int, k: int|
            0 <= u < n && self.discovered@[u] && 0 <= k < adj[u].len() ==> #[trigger] self.discovered@[adj[u][k]]
        &&& tree_links(adj, self.parents@, self.discovered@, self.level@)
    }

    fn new(graph: &'a Graph) -> (r: Self)
        requires
            graph.wf(),
        ensures
            r.wf(),
            r.graph() == graph,
            forall|v: int| 0 <= v < graph@.len() ==> !#[trigger] r.discovered()[v],
    {
        let n = graph.edges.len();
        let mut parents: Vec<Option<usize>> = Vec::with_capacity(n);
        let mut processed: Vec<bool> = Vec::with_capacity(n);
        let mut discovered: Vec<bool> = Vec::with_capacity(n);
        let mut i: usize = 0;
        while i < n
            invariant
                i <= n,
                parents@.len() == i,
                processed@.len() == i,
                discovered@.len() == i,
                forall|v: int| 0 <= v < i ==> (#[trigger] parents@[v]).is_none(),
                forall|v: int| 0 <= v < i ==> !#[trigger] processed@[v],
                forall|v: int| 0 <= v < i ==> !#[trigger] discovered@[v],
            decreases n - i,
        {
            processed.push(false);
            discovered.push(false);
            parents.push(None);
            i += 1;
        }
        BreadthFirstSearcher {
            graph,
            parents,
            discovered,
            processed,
            level: Ghost(Seq::new(n as nat, |v: int| 0nat)),
        }
    }

    /// Discovers, level by level, every vertex that `start` reaches and that
    /// was not discovered before, recording for each the edge it was found by.
    fn search_from(&mut self, start: usize)
        requires
            old(self).wf(),
            start < old(self).graph()@.len(),
            !old(self).discovered()[start as int],
        ensures
            final(self).wf(),
            final(self).graph() == old(self).graph(),
            forall|v: int|
                0 <= v < old(self).graph()@.len() ==> (#[trigger] final(self).discovered()[v] <==> (
                old(self).discovered()[v] || reachable(old(self).graph()@, start as int, v))),
            forall|v: int|
                0 <= v < old(self).graph()@.len() && old(self).discovered()[v] ==> #[trigger] final(self).parents()[v]
                    == old(self).parents()[v],
            forall|v: int|
                0 <= v < old(self).graph()@.len() && !old(self).discovered()[v] && #[trigger] final(self).discovered()[v]
                    && v != start ==> final(self).parents()[v].is_some(),
            final(self).parents()[start as int].is_none(),
    {
        let ghost adj = self.graph@;
        let ghost n = adj.len();
        let ghost old_disc = self.discovered@;
        let ghost old_par = self.parents@;
        let mut queue: Vec<usize> = Vec::new();
        queue.push(start);
        self.discovered.set(start, true);
        let mut head: usize = 0;
        let ghost mut nproc: nat = settled(self.processed@).len();
        proof {
            lemma_settled_bound(self.processed@);
            let p = seq![start as int];
            assert(is_path(adj, p) && p[0] == start && p.last() == start);
            assert(queue@.subrange(0, 1) =~= seq![start]);
            assert(queue@.subrange(0, 1)[0] == start);
            assert forall|v: int| 0 <= v < n && #[trigger] self.discovered@[v] && !self.processed@[v] implies queue@.subrange(0, queue@.len() as int).contains(v as usize) by {
                if v != start {
                    assert(old_disc[v]);
                }
            }
        }
        loop
            invariant
                adj == self.graph@,
                n == adj.len(),
                self.graph.wf(),
                start < n,
                self.parents@.len() == n,
                self.discovered@.len() == n,
                self.processed@.len() == n,
                self.level@.len() == n,
                old_disc.len() == n,
                old_par.len() == n,
                head <= queue@.len(),
                self.discovered@[start as int],
                self.parents@[start as int].is_none(),
                forall|v: int| 0 <= v < n && #[trigger] self.processed@[v] ==> self.discovered@[v],
                forall|j: int| head <= j < queue@.len() ==> 0 <= #[trigger] queue@[j] < n && self.discovered@[queue@[j] as int]
                    && !self.processed@[queue@[j] as int],
                forall|v: int| 0 <= v < n && #[trigger] self.discovered@[v] && !self.processed@[v] ==> queue@.subrange(head as int, queue@.len() as int).contains(v as usize),
                forall|a: int, b: int| head <= a < b < queue@.len() ==> #[trigger] queue@[a] != #[trigger] queue@[b],
                forall|u: int, k: int|
                    0 <= u < n && self.processed@[u] && 0 <= k < adj[u].len() ==> #[trigger] self.discovered@[adj[u][k]],
                tree_links(adj, self.parents@, self.discovered@, self.level@),
                forall|v: int| 0 <= v < n && #[trigger] self.discovered@[v] ==> old_disc[v] || reachable(adj, start as int, v),
                forall|v: int| 0 <= v < n && #[trigger] old_disc[v] ==> self.processed@[v],
                forall|v: int| 0 <= v < n && #[trigger] old_disc[v] ==> self.parents@[v] == old_par[v],
                self.graph == old(self).graph,
                old_disc == old(self).discovered@,
                old_par == old(self).parents@,
                forall|v: int| 0 <= v < n && !old_disc[v] && #[trigger] self.discovered@[v] && v != start ==> self.parents@[v].is_some(),
                nproc == settled(self.processed@).len(),
                settled(self.processed@).finite(),
                nproc <= n,
            decreases n - nproc,
        {
            if head >= queue.len() {
                proof {
                    assert forall|v: int| 0 <= v < n implies #[trigger] self.processed@[v] == self.discovered@[v] by {
                        if self.discovered@[v] && !self.processed@[v] {
                            assert(queue@.subrange(head as int, queue@.len() as int).len() == 0);
                        }
                    }
                    assert forall|v: int| 0 <= v < n && reachable(adj, start as int, v) implies #[trigger] self.discovered@[v] by {
                        lemma_closed_holds_reachable(adj, self.discovered@, start as int, v);
                    }
                }
                return ;
            }
            let v = queue[head];
            head += 1;
            proof {
                lemma_settle_count(self.processed@, v as int);
            }
            self.processed.set(v, true);
            proof {
                nproc = nproc + 1;
                lemma_settled_bound(self.processed@);
                assert forall|w: int| 0 <= w < n && #[trigger] self.discovered@[w] && !self.processed@[w] implies queue@.subrange(head as int, queue@.len() as int).contains(w as usize) by {
                    assert(queue@.subrange(head - 1, queue@.len() as int).contains(w as usize));
                    let j = choose|j: int| 0 <= j < queue@.len() - head + 1 && #[trigger] queue@.subrange(head - 1, queue@.len() as int)[j] == w as usize;
                    assert(j != 0);
                    assert(queue@.subrange(head as int, queue@.len() as int)[j - 1] == w as usize);
                }
            }
            let list = &self.graph.edges[v];
            let mut k: usize = 0;
            while k < list.len()
                invariant
                    adj == self.graph@,
                    n == adj.len(),
                    self.graph.wf(),
                    start < n,
                    v < n,
                    list@.len() == adj[v as int].len(),
                    forall|j: int| 0 <= j < list@.len() ==> #[trigger] list@[j] as int == adj[v as int][j],
                    k <= list@.len(),
                    self.parents@.len() == n,
                    self.discovered@.len() == n,
                    self.processed@.len() == n,
                    self.level@.len() == n,
                    old_disc.len() == n,
                    old_par.len() == n,
                    head <= queue@.len(),
                    self.processed@[v as int],
                    self.discovered@[start as int],
                    self.parents@[start as int].is_none(),
                    reachable(adj, start as int, v as int) || old_disc[v as int],
                    !old_disc[v as int],
                    forall|w: int| 0 <= w < n && #[trigger] self.processed@[w] ==> self.discovered@[w],
                    forall|j: int| head <= j < queue@.len() ==> 0 <= #[trigger] queue@[j] < n && self.discovered@[queue@[j] as int]
                        && !self.processed@[queue@[j] as int],
                    forall|w: int| 0 <= w < n && #[trigger] self.discovered@[w] && !self.processed@[w] ==> queue@.subrange(head as int, queue@.len() as int).contains(w as usize),
                    forall|a: int, b: int| head <= a < b < queue@.len() ==> #[trigger] queue@[a] != #[trigger] queue@[b],
                    forall|u: int, j: int|
                        0 <= u < n && self.processed@[u] && 0 <= j < adj[u].len() && (u != v || j < k) ==> #[trigger] self.discovered@[adj[u][j]],
                    tree_links(adj, self.parents@, self.discovered@, self.level@),
                    forall|w: int| 0 <= w < n && #[trigger] self.discovered@[w] ==> old_disc[w] || reachable(adj, start as int, w),
                    forall|w: int| 0 <= w < n && #[trigger] old_disc[w] ==> self.processed@[w],
                    forall|w: int| 0 <= w < n && #[trigger] old_disc[w] ==> self.parents@[w] == old_par[w],
                    self.graph == old(self).graph,
                    nproc == settled(self.processed@).len(),
                    settled(self.processed@).finite(),
                    nproc <= n,
                    forall|w: int| 0 <= w < n && !old_disc[w] && #[trigger] self.discovered@[w] && w != start ==> self.parents@[w].is_some(),
                decreases list@.len() - k,
            {
                let w = list[k];
                proof {
                    assert(adj[v as int][k as int] == w as int);
                    assert(0 <= w < n);
                }
                if !self.discovered[w] {
                    let ghost q0 = queue@;
                    let ghost d0 = self.discovered@;
                    let ghost p0 = self.parents@;
                    let ghost l0 = self.level@;
                    queue.push(w);
                    self.discovered.set(w, true);
                    self.parents.set(w, Some(v));
                    proof {
                        let lv = self.level@[v as int];
                        self.level@ = self.level@.update(w as int, lv + 1);
                        assert(adj[v as int].contains(w as int));
                        assert(reachable(adj, start as int, w as int)) by {
                            let p = choose|p: Seq<int>| #[trigger] is_path(adj, p) && p[0] == start && p.last() == v;
                            lemma_path_push(adj, p, w as int);
                        }
                        assert forall|x: int| 0 <= x < n && #[trigger] self.discovered@[x] && !self.processed@[x] implies queue@.subrange(head as int, queue@.len() as int).contains(x as usize) by {
                            if x == w {
                                assert(queue@.subrange(head as int, queue@.len() as int)[queue@.len() - 1 - head] == w);
                            } else {
                                assert(q0.subrange(head as int, q0.len() as int).contains(x as usize));
                                let j = choose|j: int| 0 <= j < q0.len() - head && #[trigger] q0.subrange(head as int, q0.len() as int)[j] == x as usize;
                                assert(queue@.subrange(head as int, queue@.len() as int)[j] == x as usize);
                            }
                        }
                        assert forall|a: int, b: int| head <= a < b < queue@.len() implies #[trigger] queue@[a] != #[trigger] queue@[b] by {
                            if b == queue@.len() - 1 {
                                assert(d0[queue@[a] as int]);
                            }
                        }
                        lemma_tree_links_grow(adj, p0, d0, l0, v, w as int);
                        assert(self.parents@ == p0.update(w as int, Some(v)));
                        assert(self.level@ == l0.update(w as int, l0[v as int] + 1));
                    }
                }
                k += 1;
            }
        }
    }
}

/// Callbacks a depth-first search makes as it runs, in this order for each
/// vertex: `preprocess` on entering it, `process_edge` for the edges it
/// examines out of it, `postprocess` once it is finished.
pub trait DfsVisitor {
    /// `v` has just been discovered.
    fn preprocess(&mut self, v: usize);

    /// The edge from `from` to `to` is examined: an edge to a vertex not yet
    /// discovered, just before the search descends along it; in a directed
    /// graph, any other edge; and otherwise an edge to a vertex still being
    /// explored whose parent is not `from`.
    fn process_edge(&mut self, from: usize, to: usize);

    /// Every edge out of `v` has been examined.
    fn postprocess(&mut self, v: usize);
}

/// A visitor that does nothing at any step.
pub struct NoVisitor;

impl DfsVisitor for NoVisitor {
    fn preprocess(&mut self, v: usize) {
    }

    fn process_edge(&mut self, from: usize, to: usize) {
    }

    fn postprocess(&mut self, v: usize) {
    }
}

/// Depth-first search state: discovery and finishing times, the edge each
/// vertex was found by, and the first edge found to close a cycle, at which
/// the search stops.
pub struct DepthFirstSearcher<'a> {
    graph: &'a Graph,
    parents: Vec<Option<usize>>,
    discovered: Vec<bool>,
    processed: Vec<bool>,
    entry_time: Vec<Option<usize>>,
    exit_time: Vec<Option<usize>>,
    time: usize,
    done: bool,
    cycle: Option<(usize, usize)>,
}

impl<'a> DepthFirstSearcher<'a> {
    pub closed spec fn graph(&self) -> &'a Graph {
        self.graph
    }

    pub closed spec fn discovered(&self) -> Seq<bool> {
        self.discovered@
    }

    pub closed spec fn processed(&self) -> Seq<bool> {
        self.processed@
    }

    /// Whether the search has discovered `v`.
    pub fn is_discovered(&self, v: usize) -> (r: bool)
        requires
            self.wf(),
            v < self.graph()@.len(),
        ensures
            r == self.discovered()[v as int],
    {
        self.discovered[v]
    }

    /// The search met an edge that closes a cycle and stopped.
    pub closed spec fn stopped(&self) -> bool {
        self.done
    }

    /// Each parent link is an edge from a vertex entered earlier; a finished
    /// vertex has every edge out of it leading to a discovered vertex; a
    /// recorded cycle edge leads back to a vertex still being explored.
    pub closed spec fn wf(&self) -> bool {
        let adj = self.graph@;
        let n = adj.len();
        &&& self.graph.wf()
        &&& 2 * n < usize::MAX
        &&& self.parents@.len() == n
        &&& self.discovered@.len() == n
        &&& self.processed@.len() == n
        &&& self.entry_time@.len() == n
        &&& self.exit_time@.len() == n
        &&& forall|v: int| 0 <= v < n && #[trigger] self.processed@[v] ==> self.discovered@[v]
        &&& forall|v: int| 0 <= v < n ==> (#[trigger] self.discovered@[v] <==> self.entry_time@[v].is_some())
        &&& forall|v: int| 0 <= v < n && !#[trigger] self.discovered@[v] ==> self.parents@[v].is_none()
        &&& forall|v: int| 0 <= v < n && #[trigger] self.discovered@[v] ==> self.entry_time@[v].unwrap() <= self.time
        &&& forall|v: int|
            0 <= v < n && #[trigger] self.parents@[v].is_some() ==> {
                let u = self.parents@[v].unwrap() as int;
                &&& 0 <= u < n
                &&& self.discovered@[u]
                &&& adj[u].contains(v)
                &&& self.entry_time@[u].unwrap() < self.entry_time@[v].unwrap()
            }
        &&& forall|u: int, k: int|
            0 <= u < n && self.processed@[u] && 0 <= k < adj[u].len() ==> #[trigger] self.discovered@[adj[u][k]]
        &&& self.time == settled(self.discovered@).len() + settled(self.processed@).len()
        &&& settled(self.discovered@).finite()
        &&& settled(self.processed@).finite()
        &&& (self.done <==> self.cycle.is_some())
        &&& self.cycle.is_some() ==> {
            let (o, t) = self.cycle.unwrap();
            &&& o < n
            &&& t < n
            &&& adj[o as int].contains(t as int)
            &&& self.discovered@[o as int]
            &&& self.discovered@[t as int]
        }
    }

    fn new(graph: &'a Graph) -> (r: Self)
        requires
            graph.wf(),
            2 * graph@.len() < usize::MAX,
        ensures
            r.wf(),
            r.graph() == graph,
            !r.stopped(),
            forall|v: int| 0 <= v < graph@.len() ==> !#[trigger] r.discovered()[v],
    {
        let n = graph.edges.len();
        let mut parents: Vec<Option<usize>> = Vec::with_capacity(n);
        let mut processed: Vec<bool> = Vec::with_capacity(n);
        let mut discovered: Vec<bool> = Vec::with_capacity(n);
        let mut entry_time: Vec<Option<usize>> = Vec::with_capacity(n);
        let mut exit_time: Vec<Option<usize>> = Vec::with_capacity(n);
        let mut i: usize = 0;
        while i < n
            invariant
                i <= n,
                parents@.len() == i,
                processed@.len() == i,
                discovered@.len() == i,
                entry_time@.len() == i,
                exit_time@.len() == i,
                forall|v: int| 0 <= v < i ==> (#[trigger] parents@[v]).is_none(),
                forall|v: int| 0 <= v < i ==> !#[trigger] processed@[v],
                forall|v: int| 0 <= v < i ==> !#[trigger] discovered@[v],
                forall|v: int| 0 <= v < i ==> (#[trigger] entry_time@[v]).is_none(),
            decreases n - i,
        {
            processed.push(false);
            discovered.push(false);
            parents.push(None);
            entry_time.push(None);
            exit_time.push(None);
            i += 1;
        }
        let r = DepthFirstSearcher {
            graph,
            parents,
            discovered,
            processed,
            entry_time,
            exit_time,
            time: 0,
            done: false,
            cycle: None,
        };
        proof {
            assert(settled(r.discovered@) =~= Set::empty());
            assert(settled(r.processed@) =~= Set::empty());
        }
        r
    }

    /// Explores depth first from `start`, unless the search has stopped or
    /// `start` was already discovered, telling `visitor` of each step:
    /// everything it discovers is reachable from `start`, and unless it meets
    /// an edge back to a vertex still being explored (other than, in an
    /// undirected graph, the edge it came by), it finishes every vertex it
    /// discovers; if every vertex discovered before was finished, it then
    /// has discovered and finished every vertex `start` reaches.
    pub fn search_from<V: DfsVisitor>(&mut self, start: usize, visitor: &mut V)
        requires
            old(self).wf(),
            start < old(self).graph()@.len(),
        ensures
            final(self).wf(),
            final(self).graph() == old(self).graph(),
            forall|v: int| 0 <= v < old(self).graph()@.len() && old(self).discovered()[v] ==> #[trigger] final(self).discovered()[v],
            forall|v: int|
                0 <= v < old(self).graph()@.len() && #[trigger] final(self).discovered()[v] ==> old(self).discovered()[v]
                    || reachable(old(self).graph()@, start as int, v),
            !final(self).stopped() && !old(self).discovered()[start as int] ==> final(self).processed()[start as int],
            !final(self).stopped() && (forall|x: int| 0 <= x < old(self).graph()@.len() && #[trigger] old(self).discovered()[x] ==> old(self).processed()[x])
                ==> forall|x: int| 0 <= x < old(self).graph()@.len() && reachable(old(self).graph()@, start as int, x)
                    ==> #[trigger] final(self).discovered()[x] && final(self).processed()[x],
    {
        let ghost adj = self.graph@;
        let ghost n = adj.len();
        if self.done || self.discovered[start] {
            proof {
                if !self.done && (forall|x: int| 0 <= x < n && #[trigger] self.discovered@[x] ==> self.processed@[x]) {
                    assert forall|x: int| 0 <= x < n && reachable(adj, start as int, x) implies #[trigger] self.discovered@[x] && self.processed@[x] by {
                        lemma_closed_holds_reachable(adj, self.discovered@, start as int, x);
                    }
                }
            }
            return ;
        }
        let ghost d0 = self.discovered@;
        let ghost p0 = self.processed@;
        self.visit(start, None, visitor);
        proof {
            assert(d0 == old(self).discovered());
            assert(p0 == old(self).processed());
            if !self.done && (forall|x: int| 0 <= x < old(self).graph()@.len() && #[trigger] old(self).discovered()[x] ==> old(self).processed()[x]) {
                assert forall|x: int| 0 <= x < n && #[trigger] self.discovered@[x] implies self.processed@[x] by {
                    if d0[x] {
                        assert(old(self).discovered()[x]);
                        assert(p0[x]);
                    }
                }
                assert forall|x: int| 0 <= x < n && reachable(adj, start as int, x) implies #[trigger] self.discovered@[x] && self.processed@[x] by {
                    lemma_closed_holds_reachable(adj, self.discovered@, start as int, x);
                }
            }
        }
    }

    fn visit<V: DfsVisitor>(&mut self, v: usize, from: Option<usize>, visitor: &mut V)
        requires
            old(self).wf(),
            v < old(self).graph()@.len(),
            !old(self).discovered@[v as int],
            !old(self).done,
            from.is_some() ==> {
                let u = from.unwrap() as int;
                &&& 0 <= u < old(self).graph()@.len()
                &&& old(self).discovered@[u]
                &&& old(self).graph()@[u].contains(v as int)
            },
        ensures
            final(self).wf(),
            final(self).graph == old(self).graph,
            final(self).discovered@[v as int],
            forall|x: int| 0 <= x < old(self).graph()@.len() && old(self).discovered@[x] ==> #[trigger] final(self).discovered@[x],
            forall|x: int| 0 <= x < old(self).graph()@.len() && old(self).processed@[x] ==> #[trigger] final(self).processed@[x],
            forall|x: int|
                0 <= x < old(self).graph()@.len() && #[trigger] final(self).discovered@[x] ==> old(self).discovered@[x]
                    || reachable(old(self).graph()@, v as int, x),
            forall|x: int|
                0 <= x < old(self).graph()@.len() && #[trigger] final(self).processed@[x] ==> old(self).processed@[x]
                    || !old(self).discovered@[x],
            !final(self).done ==> final(self).processed@[v as int],
            !final(self).done ==> forall|x: int|
                0 <= x < old(self).graph()@.len() && #[trigger] final(self).discovered@[x] && !old(self).discovered@[x] ==> final(self).processed@[x],
            forall|x: int|
                0 <= x < old(self).graph()@.len() && old(self).discovered@[x] ==> #[trigger] final(self).entry_time@[x] == old(self).entry_time@[x],
        decreases old(self).graph()@.len() - settled(old(self).discovered@).len(),
    {
        let ghost adj = self.graph@;
        let ghost n = adj.len();
        let ghost d0 = self.discovered@;
        let ghost p0 = self.processed@;
        let ghost e0 = self.entry_time@;
        proof {
            lemma_settle_count(self.discovered@, v as int);
            lemma_settled_bound(self.discovered@);
            lemma_settled_bound(self.processed@);
            lemma_subset_len(self.processed@, self.discovered@);
        }
        self.discovered.set(v, true);
        visitor.preprocess(v);
        self.time = self.time + 1;
        self.entry_time.set(v, Some(self.time));
        self.parents.set(v, from);
        proof {
            lemma_settled_bound(self.discovered@);
            assert(reachable(adj, v as int, v as int)) by {
                let p = seq![v as int];
                assert(is_path(adj, p) && p[0] == v && p.last() == v);
            }
            assert forall|x: int| 0 <= x < n && #[trigger] self.parents@[x].is_some() implies {
                let u = self.parents@[x].unwrap() as int;
                &&& 0 <= u < n
                &&& self.discovered@[u]
                &&& adj[u].contains(x)
                &&& self.entry_time@[u].unwrap() < self.entry_time@[x].unwrap()
            } by {
                if x != v {
                    let u = self.parents@[x].unwrap() as int;
                    assert(d0[u]);
                    assert(u != v);
                    assert(e0[u].unwrap() <= self.time - 1);
                } else {
                    let u = from.unwrap() as int;
                    assert(e0[u].unwrap() <= self.time - 1);
                }
            }
        }
        let graph = self.graph;
        let list = &graph.edges[v];
        let mut k: usize = 0;
        while k < list.len()
            invariant
                adj == self.graph@,
                n == adj.len(),
                self.wf(),
                graph == self.graph,
                self.graph == old(self).graph,
                v < n,
                list@.len() == adj[v as int].len(),
                forall|j: int| 0 <= j < list@.len() ==> #[trigger] list@[j] as int == adj[v as int][j],
                k <= list@.len(),
                !self.done,
                self.discovered@[v as int],
                !self.processed@[v as int],
                d0 == old(self).discovered@,
                d0.len() == n,
                !d0[v as int],
                p0 == old(self).processed@,
                e0 == old(self).entry_time@,
                forall|j: int| 0 <= j < k ==> #[trigger] self.discovered@[adj[v as int][j]],
                forall|x: int| 0 <= x < n && d0[x] ==> #[trigger] self.discovered@[x],
                forall|x: int| 0 <= x < n && p0[x] ==> #[trigger] self.processed@[x],
                forall|x: int| 0 <= x < n && #[trigger] self.discovered@[x] ==> d0[x] || reachable(adj, v as int, x),
                forall|x: int| 0 <= x < n && #[trigger] self.processed@[x] ==> p0[x] || !d0[x],
                forall|x: int| 0 <= x < n && d0[x] ==> #[trigger] self.entry_time@[x] == e0[x],
                forall|x: int| 0 <= x < n && #[trigger] self.discovered@[x] && !d0[x] && x != v ==> self.processed@[x],
            decreases list@.len() - k,
        {
            let w = list[k];
            proof {
                assert(adj[v as int][k as int] == w as int);
                assert(adj[v as int].contains(w as int));
            }
            if !self.discovered[w] {
                let ghost s1 = *self;
                proof {
                    lemma_subset_len(d0, self.discovered@);
                    assert(settled(d0).subset_of(settled(self.discovered@).remove(v as int)));
                    vstd::set_lib::lemma_len_subset(settled(d0), settled(self.discovered@).remove(v as int));
                }
                visitor.process_edge(v, w);
                self.visit(w, Some(v), visitor);
                proof {
                    assert forall|x: int| 0 <= x < n && #[trigger] self.discovered@[x] implies d0[x] || reachable(adj, v as int, x) by {
                        if !s1.discovered@[x] {
                            assert(reachable(adj, w as int, x));
                            lemma_reach_prepend(adj, v as int, w as int, x);
                        }
                    }
                    assert(self.processed@[v as int] ==> s1.processed@[v as int] || !s1.discovered@[v as int]);
                }
                if self.done {
                    return ;
                }
            } else {
                let is_parent = match self.parents[v] {
                    Some(p) => p == w,
                    None => false,
                };
                let not_loop = match self.parents[w] {
                    Some(p) => p != v,
                    None => false,
                };
                if (!self.processed[w] && not_loop) || self.graph.directed {
                    visitor.process_edge(v, w);
                }
                if !self.processed[w] && (self.graph.directed || !is_parent) {
                    self.cycle = Some((v, w));
                    self.done = true;
                    return ;
                }
            }
            k += 1;
        }
        visitor.postprocess(v);
        proof {
            lemma_settle_count(self.processed@, v as int);
            lemma_subset_len(self.processed@, self.discovered@);
            lemma_subset_len(self.discovered@, self.discovered@);
        }
        self.time = self.time + 1;
        self.exit_time.set(v, Some(self.time));
        self.processed.set(v, true);
        proof {
            lemma_settled_bound(self.processed@);
            assert forall|u: int, j: int|
                0 <= u < n && self.processed@[u] && 0 <= j < adj[u].len() implies #[trigger] self.discovered@[adj[u][j]] by {
                if u == v {
                }
            }
        }
    }
}

/// When every vertex marked in `small` is marked in `big`, `small` marks no
/// more vertices than `big`.
proof fn lemma_subset_len(small: Seq<bool>, big: Seq<bool>)
    requires
        small.len() == big.len(),
        forall|v: int| 0 <= v < small.len() && #[trigger] small[v] ==> big[v],
    ensures
        settled(small).subset_of(settled(big)),
        settled(small).len() <= settled(big).len(),
        settled(big).len() <= big.len(),
{
    lemma_settled_bound(big);
    vstd::set_lib::lemma_len_subset(settled(small), settled(big));
}

proof fn lemma_reach_prepend(adj: Neighbours, v: int, w: int, x: int)
    requires
        0 <= v < adj.len(),
        adj[v].contains(w),
        reachable(adj, w, x),
    ensures
        reachable(adj, v, x),
{
    let p = choose|p: Seq<int>| #[trigger] is_path(adj, p) && p[0] == w && p.last() == x;
    let q = seq![v].add(p);
    assert(q.drop_first() =~= p);
    assert forall|i: int| 0 <= i < q.len() implies 0 <= #[trigger] q[i] < adj.len() by {
        if i > 0 {
            assert(q[i] == p[i - 1]);
        }
    }
    assert forall|i: int| 0 < i < q.len() implies adj[q[i - 1]].contains(#[trigger] q[i]) by {
        if i > 1 {
            assert(q[i - 1] == p[i - 2] && q[i] == p[i - 1]);
        }
    }
    assert(is_path(adj, q) && q[0] == v && q.last() == x);
}

/// Each parent link of a discovered vertex is an edge from another discovered
/// vertex one level closer to where its search began, and undiscovered
/// vertices have no parent.
pub open spec fn tree_links(adj: Neighbours, parents: Seq<Option<usize>>, discovered: Seq<bool>, level: Seq<nat>) -> bool {
    let n = adj.len();
    &&& forall|v: int| 0 <= v < n && !#[trigger] discovered[v] ==> parents[v].is_none()
    &&& forall|v: int|
        0 <= v < n && #[trigger] parents[v].is_some() ==> {
            let u = parents[v].unwrap() as int;
            &&& 0 <= u < n
            &&& discovered[u]
            &&& discovered[v]
            &&& adj[u].contains(v)
            &&& level[u] < level[v]
        }
}

proof fn lemma_tree_links_grow(
    adj: Neighbours,
    p0: Seq<Option<usize>>,
    d0: Seq<bool>,
    l0: Seq<nat>,
    v: usize,
    w: int,
)
    requires
        tree_links(adj, p0, d0, l0),
        p0.len() == adj.len(),
        d0.len() == adj.len(),
        l0.len() == adj.len(),
        v < adj.len(),
        0 <= w < adj.len(),
        d0[v as int],
        !d0[w],
        adj[v as int].contains(w),
    ensures
        tree_links(adj, p0.update(w, Some(v)), d0.update(w, true), l0.update(w, l0[v as int] + 1)),
{
    let p1 = p0.update(w, Some(v));
    let d1 = d0.update(w, true);
    let l1 = l0.update(w, l0[v as int] + 1);
    assert forall|x: int| 0 <= x < adj.len() && #[trigger] p1[x].is_some() implies {
        let u = p1[x].unwrap() as int;
        &&& 0 <= u < adj.len()
        &&& d1[u]
        &&& d1[x]
        &&& adj[u].contains(x)
        &&& l1[u] < l1[x]
    } by {
        if x != w {
            let u = p0[x].unwrap() as int;
            assert(d0[u]);
            assert(u != w);
        }
    }
}

} // verus!
