//! A directed graph held as adjacency lists, behind a small trait so
//! that callers can stay generic over the representation.

use vstd::prelude::*;

verus! {

/// The number of edges recorded in the first `i` adjacency lists.
pub open spec fn total_edges(adj: Seq<Seq<usize>>, i: int) -> int
    decreases i,
{
    if i <= 0 {
        0
    } else {
        total_edges(adj, i - 1) + adj[i - 1].len()
    }
}

/// A finite directed graph, viewed as one adjacency list per vertex.
pub trait Graph: Sized {
    /// The adjacency lists: entry `v` holds the vertices that the
    /// out-edges of vertex `v` reach, in insertion order.
    spec fn edges(&self) -> Seq<Seq<usize>>;

    /// Whether the representation agrees with its adjacency-list view.
    spec fn wf(&self) -> bool;

    /// The vertices one out-edge of `vertex` away, in insertion order.
    fn adjacent(&self, vertex: usize) -> (r: &[usize])
        requires
            self.wf(),
            vertex < self.edges().len(),
        ensures
            r@ == self.edges()[vertex as int],
    ;

    /// How many out-edges `vertex` has.
    fn degree(&self, vertex: usize) -> (r: usize)
        requires
            self.wf(),
            vertex < self.edges().len(),
        ensures
            r == self.edges()[vertex as int].len(),
    ;

    /// How many edges the whole graph has.
    fn edge_count(&self) -> (r: usize)
        requires
            self.wf(),
        ensures
            r == total_edges(self.edges(), self.edges().len() as int),
    ;

    /// How many vertices the graph has.
    fn vertex_count(&self) -> (r: usize)
        requires
            self.wf(),
        ensures
            r == self.edges().len(),
    ;
}

/// A directed graph over vertices `0 .. vertex_count`: one vector of
/// successors per vertex, plus a running edge count.
pub struct AdjacencyGraph {
    pub edge_count: usize,
    pub vertex_count: usize,
    pub adjacents: Vec<Vec<usize>>,
}

impl Graph for AdjacencyGraph {
    open spec fn edges(&self) -> Seq<Seq<usize>> {
        self.adjacents@.map_values(|row: Vec<usize>| row@)
    }

    open spec fn wf(&self) -> bool {
        &&& self.vertex_count == self.adjacents@.len()
        &&& self.edge_count == total_edges(self.edges(), self.edges().len() as int)
    }

    fn adjacent(&self, vertex: usize) -> (r: &[usize]) {
        self.adjacents[vertex].as_slice()
    }

    fn degree(&self, vertex: usize) -> (r: usize) {
        self.adjacents[vertex].len()
    }

    fn edge_count(&self) -> (r: usize) {
        self.edge_count
    }

    fn vertex_count(&self) -> (r: usize) {
        self.vertex_count
    }
}

proof fn lemma_total_edges_empty(adj: Seq<Seq<usize>>, i: int)
    requires
        forall|k: int| 0 <= k < i ==> (#[trigger] adj[k]).len() == 0,
    ensures
        total_edges(adj, i) == 0,
    decreases i,
{
    if i > 0 {
        lemma_total_edges_empty(adj, i - 1);
    }
}

proof fn lemma_total_edges_push(before: Seq<Seq<usize>>, after: Seq<Seq<usize>>, v: int, i: int)
    requires
        before.len() == after.len(),
        0 <= v < before.len(),
        after[v].len() == before[v].len() + 1,
        forall|k: int| 0 <= k < before.len() && k != v ==> after[k] == #[trigger] before[k],
    ensures
        i <= v ==> total_edges(after, i) == total_edges(before, i),
        v < i <= before.len() ==> total_edges(after, i) == total_edges(before, i) + 1,
    decreases i,
{
    if i > 0 {
        lemma_total_edges_push(before, after, v, i - 1);
    }
}

impl AdjacencyGraph {
    /// A graph with `vertex_count` vertices and no edges yet.
    pub fn with_vertex_count(vertex_count: usize) -> (g: AdjacencyGraph)
        ensures
            g.wf(),
            g.edges().len() == vertex_count,
            forall|v: int| 0 <= v < vertex_count ==> (#[trigger] g.edges()[v]).len() == 0,
    {
        let mut adjacents: Vec<Vec<usize>> = Vec::new();
        while adjacents.len() < vertex_count
            invariant
                adjacents@.len() <= vertex_count,
                forall|v: int| 0 <= v < adjacents@.len() ==> (#[trigger] adjacents@[v])@.len() == 0,
            decreases vertex_count - adjacents.len(),
        {
            adjacents.push(Vec::new());
        }
        let g = AdjacencyGraph { vertex_count, edge_count: 0, adjacents };
        proof {
            assert(forall|v: int|
                0 <= v < vertex_count ==> (#[trigger] g.edges()[v]).len() == 0);
            lemma_total_edges_empty(g.edges(), g.edges().len() as int);
        }
        g
    }

    /// Records one directed edge from `from_vertex` to `to_vertex`,
    /// appending it to `from_vertex`'s successors.
    pub fn add_edge(&mut self, from_vertex: usize, to_vertex: usize)
        requires
            old(self).wf(),
            from_vertex < old(self).edges().len(),
            total_edges(old(self).edges(), old(self).edges().len() as int) < usize::MAX,
        ensures
            final(self).wf(),
            final(self).edges() == old(self).edges().update(
                from_vertex as int,
                old(self).edges()[from_vertex as int].push(to_vertex),
            ),
    {
        self.edge_count = self.edge_count + 1;
        let row = &mut self.adjacents[from_vertex];
        row.push(to_vertex);
        proof {
            let before = old(self).edges();
            let after = self.edges();
            assert(after =~= before.update(
                from_vertex as int,
                before[from_vertex as int].push(to_vertex),
            ));
            lemma_total_edges_push(before, after, from_vertex as int, before.len() as int);
        }
    }
}

} // verus!
