use vstd::prelude::*;

verus! {

/// `true` iff edge `e` has `v` as one of its endpoints.
pub open spec fn edge_touches(e: (u32, u32), v: u32) -> bool {
    e.0 == v || e.1 == v
}

/// The number of edges in `edges` incident to `v` (a self-loop counts once,
/// matching the length of the incident-edge list).
pub open spec fn degree_of(edges: Seq<(u32, u32)>, v: u32) -> nat {
    edges.filter(|e: (u32, u32)| edge_touches(e, v)).len()
}

/// The node sequence `0, 1, ..., count - 1`.
pub open spec fn id_seq(count: int) -> Seq<u32> {
    Seq::new(count as nat, |i: int| i as u32)
}

/// `nodes` with `v` appended, unless it is already present.
pub open spec fn register(nodes: Seq<u32>, v: u32) -> Seq<u32> {
    if nodes.contains(v) {
        nodes
    } else {
        nodes.push(v)
    }
}

/// `register` folded over a sequence of nodes, front to back.
pub open spec fn register_all(nodes: Seq<u32>, vs: Seq<u32>) -> Seq<u32>
    decreases vs.len(),
{
    if vs.len() == 0 {
        nodes
    } else {
        register(register_all(nodes, vs.drop_last()), vs.last())
    }
}

/// Registering both endpoints of every pair, front to back.
pub open spec fn register_endpoints(nodes: Seq<u32>, pairs: Seq<(u32, u32)>) -> Seq<u32>
    decreases pairs.len(),
{
    if pairs.len() == 0 {
        nodes
    } else {
        register(
            register(register_endpoints(nodes, pairs.drop_last()), pairs.last().0),
            pairs.last().1,
        )
    }
}

/// No index holds the same pair as another: the edge list has no multi-edge.
pub open spec fn distinct_pairs(s: Seq<(u32, u32)>) -> bool {
    forall|k1: int, k2: int| 0 <= k1 < k2 < s.len() ==> s[k1] != s[k2]
}

/// Every pair has its smaller endpoint first and both endpoints below `n`.
pub open spec fn canonical_pairs(s: Seq<(u32, u32)>, n: u32) -> bool {
    forall|k: int|
        0 <= k < s.len() ==> (#[trigger] s[k]).0 < s[k].1 && s[k].1 < n
}

/// Strict lexicographic order on pairs.
pub open spec fn pair_lt(a: (u32, u32), b: (u32, u32)) -> bool {
    a.0 < b.0 || (a.0 == b.0 && a.1 < b.1)
}

/// The pairs appear in strictly increasing lexicographic order.
pub open spec fn strictly_ordered(s: Seq<(u32, u32)>) -> bool {
    forall|k1: int, k2: int| 0 <= k1 < k2 < s.len() ==> pair_lt(s[k1], s[k2])
}

/// Filtering a sequence extended by one element keeps the old result and
/// appends the new element exactly when the predicate holds of it.
pub proof fn lemma_filter_push<A>(s: Seq<A>, x: A, pred: spec_fn(A) -> bool)
    ensures
        s.push(x).filter(pred) == if pred(x) {
            s.filter(pred).push(x)
        } else {
            s.filter(pred)
        },
{
    reveal(Seq::filter);
    assert(s.push(x).drop_last() =~= s);
    assert(s.push(x).last() == x);
}

/// Appending one edge raises the degree of `v` by one exactly when the edge
/// touches `v`.
pub proof fn lemma_degree_push(edges: Seq<(u32, u32)>, e: (u32, u32), v: u32)
    ensures
        degree_of(edges.push(e), v) == degree_of(edges, v) + if edge_touches(e, v) {
            1int
        } else {
            0int
        },
{
    lemma_filter_push(edges, e, |x: (u32, u32)| edge_touches(x, v));
}

/// A node touched by no edge has degree zero.
pub proof fn lemma_degree_absent(edges: Seq<(u32, u32)>, v: u32)
    requires
        forall|k: int| 0 <= k < edges.len() ==> !edge_touches(#[trigger] edges[k], v),
    ensures
        degree_of(edges, v) == 0,
    decreases edges.len(),
{
    reveal(Seq::filter);
    if edges.len() > 0 {
        lemma_degree_absent(edges.drop_last(), v);
    }
}

/// An edge list containing an edge that touches `v` gives `v` a positive
/// degree.
pub proof fn lemma_degree_positive(edges: Seq<(u32, u32)>, e: (u32, u32), v: u32)
    requires
        edges.contains(e),
        edge_touches(e, v),
    ensures
        degree_of(edges, v) >= 1,
{
    let i = choose|i: int| 0 <= i < edges.len() && edges[i] == e;
    edges.lemma_filter_contains(|x: (u32, u32)| edge_touches(x, v), i);
}

/// Degrees add up across a concatenation of edge lists.
pub proof fn lemma_degree_concat(a: Seq<(u32, u32)>, b: Seq<(u32, u32)>, v: u32)
    ensures
        degree_of(a + b, v) == degree_of(a, v) + degree_of(b, v),
{
    broadcast use vstd::seq_lib::group_filter_ensures;

    assert((a + b).filter(|e: (u32, u32)| edge_touches(e, v)) == a.filter(
        |e: (u32, u32)| edge_touches(e, v),
    ) + b.filter(|e: (u32, u32)| edge_touches(e, v)));
}

/// `id_seq(count)` holds exactly the identifiers below `count`.
pub proof fn lemma_id_seq_contains(count: int, v: u32)
    requires
        0 <= count <= u32::MAX as int + 1,
    ensures
        id_seq(count).contains(v) <==> (v as int) < count,
{
    if (v as int) < count {
        assert(id_seq(count)[v as int] == v);
    }
}

/// Registering keeps every present node and makes the new one present.
pub proof fn lemma_register_contains(nodes: Seq<u32>, v: u32, x: u32)
    ensures
        register(nodes, v).contains(v),
        nodes.contains(x) ==> register(nodes, v).contains(x),
{
    if !nodes.contains(v) {
        assert(nodes.push(v)[nodes.len() as int] == v);
        if nodes.contains(x) {
            let k = choose|k: int| 0 <= k < nodes.len() && nodes[k] == x;
            assert(nodes.push(v)[k] == x);
        }
    }
}

/// Builds the node vector `0, 1, ..., count - 1`.
pub(crate) fn id_nodes(count: u64) -> (v: Vec<u32>)
    requires
        count <= u32::MAX as u64 + 1,
    ensures
        v@ == id_seq(count as int),
{
    let mut v: Vec<u32> = Vec::new();
    let mut i: u64 = 0;
    while i < count
        invariant
            i <= count,
            count <= u32::MAX as u64 + 1,
            v@ == id_seq(i as int),
        decreases count - i,
    {
        v.push(i as u32);
        proof {
            assert(id_seq(i as int).push(i as u32) =~= id_seq(i as int + 1));
        }
        i += 1;
    }
    v
}

/// A graph whose nodes are `0, 1, ..., count - 1` and whose edge endpoints
/// all lie below `count` references only registered nodes.
pub proof fn lemma_id_graph_wf(g: Graph, count: int)
    requires
        0 <= count <= u32::MAX as int + 1,
        g.nodes@ == id_seq(count),
        forall|k: int|
            0 <= k < g.edges@.len() ==> (#[trigger] g.edges@[k]).0 < count && g.edges@[k].1 < count,
    ensures
        g.wf(),
{
    assert forall|k: int| 0 <= k < g.edges@.len() implies g.nodes@.contains(
        (#[trigger] g.edges@[k]).0,
    ) && g.nodes@.contains(g.edges@[k].1) by {
        lemma_id_seq_contains(count, g.edges@[k].0);
        lemma_id_seq_contains(count, g.edges@[k].1);
    }
}

/// A mutable container of node identifiers and an edge list of unordered
/// pairs.
#[derive(Debug, PartialEq)]
pub struct Graph {
    pub name: String,
    pub nodes: Vec<u32>,
    pub edges: Vec<(u32, u32)>,
}

impl Graph {
    /// Every node referenced by an edge is registered in `nodes`.
    pub open spec fn wf(self) -> bool {
        forall|k: int|
            0 <= k < self.edges@.len() ==> self.nodes@.contains(
                (#[trigger] self.edges@[k]).0,
            ) && self.nodes@.contains(self.edges@[k].1)
    }

    pub fn new() -> (g: Graph)
        ensures
            g.name@ == Seq::<char>::empty(),
            g.nodes@ == Seq::<u32>::empty(),
            g.edges@ == Seq::<(u32, u32)>::empty(),
    {
        Graph { name: String::new(), nodes: Vec::new(), edges: Vec::new() }
    }

    /// The edges incident to `edge`, in edge-list order.
    pub fn edges_list(&self, edge: u32) -> (r: Vec<(u32, u32)>)
        ensures
            r@ == self.edges@.filter(|e: (u32, u32)| edge_touches(e, edge)),
            r@.len() == degree_of(self.edges@, edge),
    {
        let mut r: Vec<(u32, u32)> = Vec::new();
        let mut i: usize = 0;
        while i < self.edges.len()
            invariant
                i <= self.edges@.len(),
                r@ == self.edges@.take(i as int).filter(|e: (u32, u32)| edge_touches(e, edge)),
            decreases self.edges@.len() - i,
        {
            let e = self.edges[i];
            proof {
                lemma_filter_push(
                    self.edges@.take(i as int),
                    self.edges@[i as int],
                    |x: (u32, u32)| edge_touches(x, edge),
                );
                assert(self.edges@.take(i as int).push(self.edges@[i as int]) =~= self.edges@.take(
                    i as int + 1,
                ));
            }
            if e.0 == edge || e.1 == edge {
                r.push(e);
            }
            i += 1;
        }
        proof {
            assert(self.edges@.take(self.edges@.len() as int) =~= self.edges@);
        }
        r
    }

    pub fn has_node(&self, node: &u32) -> (r: bool)
        ensures
            r == self.nodes@.contains(*node),
    {
        let mut i: usize = 0;
        while i < self.nodes.len()
            invariant
                i <= self.nodes@.len(),
                forall|k: int| 0 <= k < i ==> self.nodes@[k] != *node,
            decreases self.nodes@.len() - i,
        {
            if self.nodes[i] == *node {
                return true;
            }
            i += 1;
        }
        false
    }

    /// Registers `node`; a no-op if it is already present.
    pub fn add_node(&mut self, node: u32)
        ensures
            final(self).nodes@ == register(old(self).nodes@, node),
            final(self).edges@ == old(self).edges@,
            final(self).name == old(self).name,
    {
        if !self.has_node(&node) {
            self.nodes.push(node);
        }
    }

    pub fn add_nodes_from(&mut self, nodes_for_adding: Vec<u32>)
        ensures
            final(self).nodes@ == register_all(old(self).nodes@, nodes_for_adding@),
            final(self).edges@ == old(self).edges@,
            final(self).name == old(self).name,
    {
        let mut i: usize = 0;
        while i < nodes_for_adding.len()
            invariant
                i <= nodes_for_adding@.len(),
                self.nodes@ == register_all(old(self).nodes@, nodes_for_adding@.take(i as int)),
                self.edges@ == old(self).edges@,
                self.name == old(self).name,
            decreases nodes_for_adding@.len() - i,
        {
            self.add_node(nodes_for_adding[i]);
            proof {
                let taken = nodes_for_adding@.take(i as int + 1);
                assert(taken.drop_last() =~= nodes_for_adding@.take(i as int));
                assert(taken.last() == nodes_for_adding@[i as int]);
            }
            i += 1;
        }
        proof {
            assert(nodes_for_adding@.take(nodes_for_adding@.len() as int) =~= nodes_for_adding@);
        }
    }

    /// Appends the edge, first registering either endpoint that is absent.
    pub fn add_edge(&mut self, source: u32, target: u32)
        ensures
            final(self).edges@ == old(self).edges@.push((source, target)),
            final(self).nodes@ == register(register(old(self).nodes@, source), target),
            final(self).name == old(self).name,
            old(self).wf() ==> final(self).wf(),
    {
        self.add_node(source);
        self.add_node(target);
        self.edges.push((source, target));
        proof {
            if old(self).wf() {
                assert forall|k: int| 0 <= k < self.edges@.len() implies self.nodes@.contains(
                    (#[trigger] self.edges@[k]).0,
                ) && self.nodes@.contains(self.edges@[k].1) by {
                    if k < old(self).edges@.len() {
                        lemma_register_contains(old(self).nodes@, source, old(self).edges@[k].0);
                        lemma_register_contains(old(self).nodes@, source, old(self).edges@[k].1);
                        let mid = register(old(self).nodes@, source);
                        lemma_register_contains(mid, target, old(self).edges@[k].0);
                        lemma_register_contains(mid, target, old(self).edges@[k].1);
                    } else {
                        lemma_register_contains(old(self).nodes@, source, source);
                        lemma_register_contains(register(old(self).nodes@, source), target, source);
                    }
                }
            }
        }
    }

    pub fn add_edges_from(&mut self, ebunch_to_add: Vec<(u32, u32)>)
        ensures
            final(self).edges@ == old(self).edges@ + ebunch_to_add@,
            final(self).nodes@ == register_endpoints(old(self).nodes@, ebunch_to_add@),
            final(self).name == old(self).name,
    {
        let mut i: usize = 0;
        while i < ebunch_to_add.len()
            invariant
                i <= ebunch_to_add@.len(),
                self.edges@ == old(self).edges@ + ebunch_to_add@.take(i as int),
                self.nodes@ == register_endpoints(old(self).nodes@, ebunch_to_add@.take(i as int)),
                self.name == old(self).name,
            decreases ebunch_to_add@.len() - i,
        {
            let (u, v) = ebunch_to_add[i];
            self.add_edge(u, v);
            proof {
                let taken = ebunch_to_add@.take(i as int + 1);
                assert(taken.drop_last() =~= ebunch_to_add@.take(i as int));
                assert(taken.last() == ebunch_to_add@[i as int]);
                assert(old(self).edges@ + ebunch_to_add@.take(i as int + 1) =~= (old(self).edges@
                    + ebunch_to_add@.take(i as int)).push(ebunch_to_add@[i as int]));
            }
            i += 1;
        }
        proof {
            assert(ebunch_to_add@.take(ebunch_to_add@.len() as int) =~= ebunch_to_add@);
        }
    }

    /// The degree sequence: one `(node, incident-edge count)` pair per node,
    /// in node order.
    pub fn degree(&self) -> (r: Vec<(u32, usize)>)
        ensures
            r@.len() == self.nodes@.len(),
            forall|k: int|
                0 <= k < r@.len() ==> (#[trigger] r@[k]).0 == self.nodes@[k] && r@[k].1
                    == degree_of(self.edges@, self.nodes@[k]),
    {
        let mut r: Vec<(u32, usize)> = Vec::new();
        let mut i: usize = 0;
        while i < self.nodes.len()
            invariant
                i <= self.nodes@.len(),
                r@.len() == i,
                forall|k: int|
                    0 <= k < i ==> (#[trigger] r@[k]).0 == self.nodes@[k] && r@[k].1 == degree_of(
                        self.edges@,
                        self.nodes@[k],
                    ),
            decreases self.nodes@.len() - i,
        {
            let node = self.nodes[i];
            let incident = self.edges_list(node);
            r.push((node, incident.len()));
            i += 1;
        }
        r
    }
}

} // verus!
