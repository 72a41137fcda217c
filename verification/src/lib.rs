use vstd::prelude::*;

pub mod approx;
pub mod cost;
pub mod exact;
pub mod mapping;
pub mod model;
pub mod utils;

verus! {

/// A directed multigraph, stored as a square adjacency matrix:
/// `adj[u][v]` is the number of directed edges from vertex `u` to vertex `v`.
pub struct Graph {
    /// Number of vertices
    pub n: usize,
    /// Adjacency matrix: `adj[u][v]` = number of edges from vertex `u` to vertex `v`
    pub adj: Vec<Vec<usize>>,
}

/// An injective mapping from pattern-graph vertices to host-graph vertices:
/// element `i` is the host vertex that pattern vertex `i` is sent to.
pub type Mapping = Vec<usize>;

/// Returned by a solver when no set of `k` distinct mappings can be produced.
#[derive(Debug, PartialEq, Eq, Structural, Clone, Copy)]
pub struct Infeasible;

impl View for Graph {
    type V = Seq<Seq<usize>>;

    open spec fn view(&self) -> Seq<Seq<usize>> {
        self.adj.deep_view()
    }
}

impl Graph {
    /// The matrix is square with one row and one column per vertex.
    pub open spec fn wf(self) -> bool {
        &&& self@.len() == self.n
        &&& forall|i: int| 0 <= i < self.n ==> (#[trigger] self@[i]).len() == self.n
    }

    /// An `n`-vertex graph with no edges.
    pub fn new(n: usize) -> (g: Graph)
        ensures
            g.wf(),
            g.n == n,
            forall|u: int, v: int| 0 <= u < n && 0 <= v < n ==> g@[u][v] == 0,
    {
        let mut adj: Vec<Vec<usize>> = Vec::new();
        let mut i: usize = 0;
        while i < n
            invariant
                i <= n,
                adj@.len() == i,
                forall|r: int| 0 <= r < i ==> (#[trigger] adj@[r])@.len() == n,
                forall|r: int, c: int| 0 <= r < i && 0 <= c < n ==> #[trigger] adj@[r]@[c] == 0,
            decreases n - i,
        {
            let mut row: Vec<usize> = Vec::new();
            let mut j: usize = 0;
            while j < n
                invariant
                    j <= n,
                    row@.len() == j,
                    forall|c: int| 0 <= c < j ==> row@[c] == 0,
                decreases n - j,
            {
                row.push(0);
                j = j + 1;
            }
            adj.push(row);
            i = i + 1;
        }
        let g = Graph { n, adj };
        proof {
            assert(g@.len() == g.adj@.len());
            assert forall|r: int| 0 <= r < n implies (#[trigger] g@[r]).len() == n by {
                assert(g@[r] == g.adj@[r].deep_view());
            }
            assert forall|u: int, v: int| 0 <= u < n && 0 <= v < n implies #[trigger] g@[u][v]
                == 0 by {
                assert(g@[u] == g.adj@[u].deep_view());
                assert(g.adj@[u].deep_view()[v] == g.adj@[u]@[v]);
            }
        }
        g
    }

    /// Wrap an existing square adjacency matrix.
    pub fn from_adjacency_matrix(adj: Vec<Vec<usize>>) -> (g: Graph)
        requires
            forall|i: int| 0 <= i < adj@.len() ==> (#[trigger] adj@[i])@.len() == adj@.len(),
        ensures
            g.wf(),
            g.n == adj@.len(),
            g@ == adj.deep_view(),
    {
        let n = adj.len();
        let g = Graph { n, adj };
        proof {
            assert(g@.len() == g.adj@.len());
            assert forall|r: int| 0 <= r < g.n implies (#[trigger] g@[r]).len() == g.n by {
                assert(g@[r] == g.adj@[r].deep_view());
            }
        }
        g
    }

    pub fn num_vertices(&self) -> (n: usize)
        ensures
            n == self.n,
    {
        self.n
    }

    /// The largest edge multiplicity anywhere in the graph (0 when there are
    /// no vertices). The solvers' size preconditions are stated with it.
    pub fn max_multiplicity(&self) -> (m: usize)
        requires
            self.wf(),
        ensures
            m as int == crate::model::matrix_max(self@),
    {
        let n = self.num_vertices();
        let mut best: usize = 0;
        let mut i: usize = 0;
        while i < n
            invariant
                i <= n,
                n == self.n,
                self.wf(),
                best as int == crate::model::matrix_max_upto(self@, i as int),
            decreases n - i,
        {
            let mut j: usize = 0;
            while j < n
                invariant
                    j <= n,
                    i < n,
                    n == self.n,
                    self.wf(),
                    best as int == crate::model::spec_max(
                        crate::model::matrix_max_upto(self@, i as int),
                        crate::model::row_max_upto(self@[i as int], j as int),
                    ),
                decreases n - j,
            {
                let w = self.get_edge(i, j);
                if w > best {
                    best = w;
                }
                j = j + 1;
            }
            i = i + 1;
        }
        best
    }

    /// Edge multiplicity from `u` to `v`; the indices must be in range.
    pub fn get_edge(&self, u: usize, v: usize) -> (w: usize)
        requires
            self.wf(),
            u < self.n,
            v < self.n,
        ensures
            w == self@[u as int][v as int],
    {
        proof {
            assert(self.adj@.len() == self@.len());
            assert(self@[u as int] == self.adj@[u as int].deep_view());
            assert(self.adj@[u as int]@.len() == self@[u as int].len());
            assert(self.adj@[u as int]@[v as int] == self@[u as int][v as int]);
        }
        self.adj[u][v]
    }
}

impl Clone for Graph {
    /// A clone has the same vertex count and the same adjacency matrix.
    fn clone(&self) -> (g: Graph)
        ensures
            g.n == self.n,
            g@ == self@,
    {
        broadcast use vstd::std_specs::vec::vec_clone_deep_view_proof;

        Graph { n: self.n, adj: self.adj.clone() }
    }
}

} // verus!
