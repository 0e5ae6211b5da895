//! The capability-interface layer: the contracts that a concrete graph
//! representation satisfies so that algorithms can run over it unmodified.

use vstd::prelude::*;

use crate::props::PropVec;

verus! {

/// Whether an edge's direction carries semantic meaning (directed) or is
/// interchangeable (undirected).
#[derive(Clone, Copy, PartialEq, Eq, Structural, Debug)]
pub enum Orientation {
    Directed,
    Undirected,
}

impl Orientation {
    pub fn is_directed(&self) -> (r: bool)
        ensures
            r == (*self == Orientation::Directed),
    {
        matches!(*self, Orientation::Directed)
    }

    pub fn is_undirected(&self) -> (r: bool)
        ensures
            r == (*self == Orientation::Undirected),
    {
        matches!(*self, Orientation::Undirected)
    }
}

/// The errors of this library. Every one reflects a logic error by the
/// caller, not a transient condition, so none is retried.
#[derive(Clone, Copy, PartialEq, Eq, Structural, Debug)]
pub enum GraphError {
    /// `opposite(u, e)` was called with a vertex `u` that is not an endpoint
    /// of `e`.
    InvalidArgument,
    /// `reverse(e)` was requested for an edge that has no reverse.
    Unsupported,
    /// A builder detected that the vertex count, or twice the realized edge
    /// count, exceeds what the chosen identifier width can represent.
    CapacityExceeded,
}

/// A marker for the kind of edges a graph carries.
pub trait EdgeKind {}

/// An edge kind whose orientation is the same for every edge.
pub trait UniformEdgeKind: EdgeKind {
    spec fn orientation_spec() -> Orientation;

    fn orientation() -> (r: Orientation)
        ensures
            r == Self::orientation_spec(),
    ;

    fn is_directed() -> (r: bool)
        ensures
            r == (Self::orientation_spec() == Orientation::Directed),
    {
        Self::orientation().is_directed()
    }

    fn is_undirected() -> (r: bool)
        ensures
            r == (Self::orientation_spec() == Orientation::Undirected),
    {
        Self::orientation().is_undirected()
    }
}

/// The kind of graphs whose edges are all directed.
#[derive(Clone, Copy, PartialEq, Eq, Debug)]
pub struct Directed;

impl EdgeKind for Directed {}

impl UniformEdgeKind for Directed {
    open spec fn orientation_spec() -> Orientation {
        Orientation::Directed
    }

    fn orientation() -> Orientation {
        Orientation::Directed
    }
}

/// The kind of graphs whose edges are all undirected.
#[derive(Clone, Copy, PartialEq, Eq, Debug)]
pub struct Undirected;

impl EdgeKind for Undirected {}

impl UniformEdgeKind for Undirected {
    open spec fn orientation_spec() -> Orientation {
        Orientation::Undirected
    }

    fn orientation() -> Orientation {
        Orientation::Undirected
    }
}

/// The kind of graphs that may mix directed and undirected edges.
#[derive(Clone, Copy, PartialEq, Eq, Debug)]
pub struct Mixed;

impl EdgeKind for Mixed {}

/// The optional-id representation paired with a vertex or edge identifier:
/// one copyable value that stands for either "no id" or "some id". A
/// representation may pack "none" into the id domain as a sentinel, so
/// `new_some` is only defined for the packable values.
pub trait OptionalItem<T: Copy>: Copy + Sized {
    /// What this optional value stands for.
    spec fn opt_view(self) -> Option<T>;

    /// The values that `new_some` can pack.
    spec fn packable(x: T) -> bool;

    fn new_none() -> (r: Self)
        ensures
            r.opt_view() is None,
    ;

    fn new_some(x: T) -> (r: Self)
        requires
            Self::packable(x),
        ensures
            r.opt_view() == Some(x),
    ;

    fn is_none(&self) -> (r: bool)
        ensures
            r == (self.opt_view() is None),
    ;

    fn is_some(&self) -> (r: bool)
        ensures
            r == (self.opt_view() is Some),
    ;

    fn to_option(&self) -> (r: Option<T>)
        ensures
            r == self.opt_view(),
    ;

    fn eq_some(&self, x: T) -> (r: bool)
        requires
            Self::packable(x),
        ensures
            r == (self.opt_view() == Some(x)),
    ;
}

/// A graph with vertex identity: the vertex identifier type, its optional
/// representation, and the representation invariant of the graph itself.
pub trait WithVertex: Sized {
    type Vertex: Copy;

    type OptionVertex: OptionalItem<Self::Vertex>;

    /// The representation invariant of the graph value. Every graph that the
    /// library hands out satisfies it.
    spec fn inv(&self) -> bool;

    /// Whether `v` is a vertex of this graph.
    spec fn valid_vertex(&self, v: Self::Vertex) -> bool;

    /// An exact test of vertex identity.
    fn vertex_eq(&self, u: Self::Vertex, v: Self::Vertex) -> (r: bool)
        requires
            self.inv(),
            self.valid_vertex(u),
            self.valid_vertex(v),
        ensures
            r == (u == v),
    ;

    /// Every valid vertex can be packed into the optional representation.
    proof fn lemma_vertex_packable(&self, v: Self::Vertex)
        requires
            self.inv(),
            self.valid_vertex(v),
        ensures
            Self::OptionVertex::packable(v),
    ;

    fn vertex_none() -> (r: Self::OptionVertex)
        ensures
            r.opt_view() is None,
    {
        Self::OptionVertex::new_none()
    }

    fn vertex_some(v: Self::Vertex) -> (r: Self::OptionVertex)
        requires
            Self::OptionVertex::packable(v),
        ensures
            r.opt_view() == Some(v),
    {
        Self::OptionVertex::new_some(v)
    }
}

/// A graph with edge identity: edge identifiers, their endpoints, their
/// orientation, and their reversal.
pub trait WithEdge: WithVertex {
    type Kind: EdgeKind;

    type Edge: Copy;

    type OptionEdge: OptionalItem<Self::Edge>;

    /// Whether `e` is an edge of this graph.
    spec fn valid_edge(&self, e: Self::Edge) -> bool;

    /// The endpoint that the identifier `e` currently faces away from.
    spec fn src(&self, e: Self::Edge) -> Self::Vertex;

    /// The endpoint that the identifier `e` currently faces.
    spec fn tgt(&self, e: Self::Edge) -> Self::Vertex;

    /// Whether `e` has a reverse: the identifier of the same edge traversed
    /// in the opposite direction.
    spec fn has_reverse(&self, e: Self::Edge) -> bool;

    /// The reverse identifier of `e`; meaningful only when
    /// `has_reverse(e)` holds.
    spec fn rev(&self, e: Self::Edge) -> Self::Edge;

    spec fn edge_orientation(&self, e: Self::Edge) -> Orientation;

    /// The laws of edges: endpoints are valid vertices, and reversal swaps
    /// the endpoints and is an involution.
    proof fn lemma_edge_laws(&self, e: Self::Edge)
        requires
            self.inv(),
            self.valid_edge(e),
        ensures
            self.valid_vertex(self.src(e)),
            self.valid_vertex(self.tgt(e)),
            Self::OptionEdge::packable(e),
            self.has_reverse(e) ==> {
                &&& self.valid_edge(self.rev(e))
                &&& self.has_reverse(self.rev(e))
                &&& self.src(self.rev(e)) == self.tgt(e)
                &&& self.tgt(self.rev(e)) == self.src(e)
                &&& self.rev(self.rev(e)) == e
            },
    ;

    fn source(&self, e: Self::Edge) -> (v: Self::Vertex)
        requires
            self.inv(),
            self.valid_edge(e),
        ensures
            v == self.src(e),
    ;

    fn target(&self, e: Self::Edge) -> (v: Self::Vertex)
        requires
            self.inv(),
            self.valid_edge(e),
        ensures
            v == self.tgt(e),
    ;

    fn orientation(&self, e: Self::Edge) -> (r: Orientation)
        requires
            self.inv(),
            self.valid_edge(e),
        ensures
            r == self.edge_orientation(e),
    ;

    fn is_directed_edge(&self, e: Self::Edge) -> (r: bool)
        requires
            self.inv(),
            self.valid_edge(e),
        ensures
            r == (self.edge_orientation(e) == Orientation::Directed),
    {
        self.orientation(e).is_directed()
    }

    fn is_undirected_edge(&self, e: Self::Edge) -> (r: bool)
        requires
            self.inv(),
            self.valid_edge(e),
        ensures
            r == (self.edge_orientation(e) == Orientation::Undirected),
    {
        self.orientation(e).is_undirected()
    }

    fn ends(&self, e: Self::Edge) -> (p: (Self::Vertex, Self::Vertex))
        requires
            self.inv(),
            self.valid_edge(e),
        ensures
            p.0 == self.src(e),
            p.1 == self.tgt(e),
    {
        (self.source(e), self.target(e))
    }

    /// The endpoint of `e` other than `u`; `InvalidArgument` exactly when
    /// `u` is not an endpoint of `e`.
    fn opposite(&self, u: Self::Vertex, e: Self::Edge) -> (r: Result<
        Self::Vertex,
        GraphError,
    >)
        requires
            self.inv(),
            self.valid_vertex(u),
            self.valid_edge(e),
        ensures
            match r {
                Ok(w) => (u == self.src(e) && w == self.tgt(e)) || (u != self.src(e) && u
                    == self.tgt(e) && w == self.src(e)),
                Err(err) => err == GraphError::InvalidArgument && u != self.src(e) && u
                    != self.tgt(e),
            },
    {
        proof {
            self.lemma_edge_laws(e);
        }
        let (s, t) = self.ends(e);
        if self.vertex_eq(u, s) {
            Ok(t)
        } else if self.vertex_eq(u, t) {
            Ok(s)
        } else {
            Err(GraphError::InvalidArgument)
        }
    }

    fn get_reverse(&self, e: Self::Edge) -> (r: Option<Self::Edge>)
        requires
            self.inv(),
            self.valid_edge(e),
        ensures
            r == if self.has_reverse(e) {
                Some(self.rev(e))
            } else {
                None::<Self::Edge>
            },
    ;

    /// The reverse of `e`; `Unsupported` exactly when `e` has none.
    fn reverse(&self, e: Self::Edge) -> (r: Result<Self::Edge, GraphError>)
        requires
            self.inv(),
            self.valid_edge(e),
        ensures
            r == if self.has_reverse(e) {
                Ok::<Self::Edge, GraphError>(self.rev(e))
            } else {
                Err::<Self::Edge, GraphError>(GraphError::Unsupported)
            },
    {
        match self.get_reverse(e) {
            Some(f) => Ok(f),
            None => Err(GraphError::Unsupported),
        }
    }

    fn edge_none() -> (r: Self::OptionEdge)
        ensures
            r.opt_view() is None,
    {
        Self::OptionEdge::new_none()
    }

    fn edge_some(e: Self::Edge) -> (r: Self::OptionEdge)
        requires
            Self::OptionEdge::packable(e),
        ensures
            r.opt_view() == Some(e),
    {
        Self::OptionEdge::new_some(e)
    }
}

/// A graph that can enumerate its vertices, each exactly once.
pub trait VertexList: WithVertex {
    /// The enumeration order of the vertices.
    spec fn vertex_list(&self) -> Seq<Self::Vertex>;

    /// The enumeration lists exactly the valid vertices, each exactly once.
    proof fn lemma_vertex_list(&self)
        requires
            self.inv(),
        ensures
            forall|i: int|
                0 <= i < self.vertex_list().len() ==> self.valid_vertex(
                    #[trigger] self.vertex_list()[i],
                ),
            forall|i: int, j: int|
                0 <= i < j < self.vertex_list().len() ==> #[trigger] self.vertex_list()[i]
                    != #[trigger] self.vertex_list()[j],
            forall|v: Self::Vertex| #[trigger]
                self.valid_vertex(v) ==> self.vertex_list().contains(v),
    ;

    fn vertices(&self) -> (r: Vec<Self::Vertex>)
        requires
            self.inv(),
        ensures
            r@ == self.vertex_list(),
    ;

    fn num_vertices(&self) -> (n: usize)
        requires
            self.inv(),
        ensures
            n == self.vertex_list().len(),
    {
        let vs = self.vertices();
        vs.len()
    }
}

/// A graph that can enumerate its edges, each exactly once.
pub trait EdgeList: WithEdge {
    /// The enumeration order of the edges.
    spec fn edge_list(&self) -> Seq<Self::Edge>;

    /// The enumeration lists only valid edges, each identifier exactly once.
    proof fn lemma_edge_list(&self)
        requires
            self.inv(),
        ensures
            forall|i: int|
                0 <= i < self.edge_list().len() ==> self.valid_edge(
                    #[trigger] self.edge_list()[i],
                ),
            forall|i: int, j: int|
                0 <= i < j < self.edge_list().len() ==> #[trigger] self.edge_list()[i]
                    != #[trigger] self.edge_list()[j],
    ;

    fn edges(&self) -> (r: Vec<Self::Edge>)
        requires
            self.inv(),
        ensures
            r@ == self.edge_list(),
    ;

    fn num_edges(&self) -> (n: usize)
        requires
            self.inv(),
        ensures
            n == self.edge_list().len(),
    {
        let es = self.edges();
        es.len()
    }
}

/// A graph that can enumerate the out-neighbors of a vertex.
pub trait Adjacency: WithVertex {
    spec fn out_neighbor_list(&self, v: Self::Vertex) -> Seq<Self::Vertex>;

    proof fn lemma_out_neighbors(&self, v: Self::Vertex)
        requires
            self.inv(),
            self.valid_vertex(v),
        ensures
            forall|i: int|
                0 <= i < self.out_neighbor_list(v).len() ==> self.valid_vertex(
                    #[trigger] self.out_neighbor_list(v)[i],
                ),
    ;

    fn out_neighbors(&self, v: Self::Vertex) -> (r: Vec<Self::Vertex>)
        requires
            self.inv(),
            self.valid_vertex(v),
        ensures
            r@ == self.out_neighbor_list(v),
    ;

    fn out_degree(&self, v: Self::Vertex) -> (n: usize)
        requires
            self.inv(),
            self.valid_vertex(v),
        ensures
            n == self.out_neighbor_list(v).len(),
    {
        let ns = self.out_neighbors(v);
        ns.len()
    }
}

/// A graph that can enumerate the edges incident to a vertex. A vertex's
/// incidence list holds exactly the valid edges that face away from it, so
/// its out-neighbors are its incident edges' targets, in order.
pub trait Incidence: WithEdge + Adjacency {
    spec fn inc_list(&self, v: Self::Vertex) -> Seq<Self::Edge>;

    proof fn lemma_inc_list(&self, v: Self::Vertex)
        requires
            self.inv(),
            self.valid_vertex(v),
        ensures
            forall|i: int|
                0 <= i < self.inc_list(v).len() ==> self.valid_edge(
                    #[trigger] self.inc_list(v)[i],
                ) && self.src(self.inc_list(v)[i]) == v,
            forall|e: Self::Edge|
                #[trigger] self.valid_edge(e) && self.src(e) == v ==> self.inc_list(
                    v,
                ).contains(e),
            self.out_neighbor_list(v) == self.inc_list(v).map_values(
                |e: Self::Edge| self.tgt(e),
            ),
    ;

    fn out_edges(&self, v: Self::Vertex) -> (r: Vec<Self::Edge>)
        requires
            self.inv(),
            self.valid_vertex(v),
        ensures
            r@ == self.inc_list(v),
    ;
}

/// A graph that can look an edge up by its endpoints.
pub trait EdgeByEnds: WithEdge + EdgeList {
    /// An edge identifier with source `u` and target `v`, if the edge
    /// enumeration holds that edge in either direction; `None` exactly when
    /// it does not. With parallel edges, which one comes back is left open.
    fn edge_by_ends(&self, u: Self::Vertex, v: Self::Vertex) -> (r: Option<Self::Edge>)
        requires
            self.inv(),
            self.valid_vertex(u),
            self.valid_vertex(v),
        ensures
            match r {
                Some(e) => self.valid_edge(e) && self.src(e) == u && self.tgt(e) == v,
                None => forall|i: int|
                    0 <= i < self.edge_list().len() ==> !((self.src(
                        #[trigger] self.edge_list()[i],
                    ) == u && self.tgt(self.edge_list()[i]) == v) || (self.src(
                        self.edge_list()[i],
                    ) == v && self.tgt(self.edge_list()[i]) == u)),
            },
    ;
}

/// A graph whose vertices project onto a dense index range, so that a
/// property map sized to `vertex_domain` has one slot per vertex.
pub trait VertexIndex: WithVertex {
    /// The size of the dense identifier domain the indices fall in.
    spec fn vertex_domain(&self) -> int;

    /// The id -> index projection.
    spec fn vindex(v: Self::Vertex) -> int;

    /// On valid vertices the projection is injective and lands in the domain.
    proof fn lemma_vindex(&self, u: Self::Vertex, v: Self::Vertex)
        requires
            self.inv(),
            self.valid_vertex(u),
            self.valid_vertex(v),
        ensures
            0 <= Self::vindex(u) < self.vertex_domain(),
            Self::vindex(u) == Self::vindex(v) ==> u == v,
    ;

    fn vertex_index(v: Self::Vertex) -> (i: usize)
        ensures
            i == Self::vindex(v),
    ;

    fn vertex_domain_size(&self) -> (n: usize)
        requires
            self.inv(),
        ensures
            n == self.vertex_domain(),
    ;
}

/// A graph whose edges project onto the dense range of canonical edge
/// indices: an identifier and its reverse share one index.
pub trait EdgeIndex: WithEdge {
    /// The number of canonical edges.
    spec fn edge_domain(&self) -> int;

    /// The id -> canonical index projection.
    spec fn eindex(e: Self::Edge) -> int;

    /// On valid edges the projection lands in the domain, is kept by
    /// reversal, and identifies at most an edge and its reverse.
    proof fn lemma_eindex(&self, d: Self::Edge, e: Self::Edge)
        requires
            self.inv(),
            self.valid_edge(d),
            self.valid_edge(e),
        ensures
            0 <= Self::eindex(e) < self.edge_domain(),
            self.has_reverse(e) ==> Self::eindex(self.rev(e)) == Self::eindex(e),
            Self::eindex(d) == Self::eindex(e) ==> (d == e || (self.has_reverse(e)
                && d == self.rev(e))),
    ;

    fn edge_index(e: Self::Edge) -> (i: usize)
        ensures
            i == Self::eindex(e),
    ;

    fn edge_domain_size(&self) -> (n: usize)
        requires
            self.inv(),
        ensures
            n == self.edge_domain(),
    ;
}

/// The vertex property capability: a dense per-vertex map, one slot per
/// index of the graph's vertex domain, pre-filled with a given payload of
/// any cloneable type. Requested through a subgraph view, the map delegates
/// to the base graph and is therefore sized to the base graph's full vertex
/// domain, not the view's restricted vertex count.
pub trait WithVertexProp: VertexIndex {
    fn default_vertex_prop<T: Clone>(&self, value: T) -> (p: PropVec<T>)
        requires
            self.inv(),
        ensures
            p@.len() == self.vertex_domain(),
            forall|i: int| 0 <= i < p@.len() ==> cloned(value, #[trigger] p@[i]),
    {
        PropVec::new(self.vertex_domain_size(), value)
    }
}

impl<G: VertexIndex> WithVertexProp for G {

}

/// The edge property capability: a dense per-edge map, one slot per
/// canonical edge index. Through a subgraph view it is sized to the base
/// graph's full edge domain.
pub trait WithEdgeProp: EdgeIndex {
    fn default_edge_prop<T: Clone>(&self, value: T) -> (p: PropVec<T>)
        requires
            self.inv(),
        ensures
            p@.len() == self.edge_domain(),
            forall|i: int| 0 <= i < p@.len() ==> cloned(value, #[trigger] p@[i]),
    {
        PropVec::new(self.edge_domain_size(), value)
    }
}

impl<G: EdgeIndex> WithEdgeProp for G {

}

/// The full graph contract that the algorithm-facing pieces of this library
/// (subgraph views, union-find) ask of a graph representation.
pub trait Graph: VertexList + EdgeList + Adjacency + Incidence + VertexIndex + EdgeIndex {

}

impl<
    T: VertexList + EdgeList + Adjacency + Incidence + VertexIndex + EdgeIndex,
> Graph for T {

}

/// For every edge with a reverse: reversing twice gives the edge back, and
/// reversal swaps source and target.
pub proof fn lemma_reverse_involutive<G: WithEdge>(g: &G, e: G::Edge)
    requires
        g.inv(),
        g.valid_edge(e),
        g.has_reverse(e),
    ensures
        g.rev(g.rev(e)) == e,
        g.src(g.rev(e)) == g.tgt(e),
        g.tgt(g.rev(e)) == g.src(e),
{
    g.lemma_edge_laws(e);
}

/// An edge and its reverse share one canonical index.
pub proof fn lemma_reverse_same_canonical_index<G: EdgeIndex>(g: &G, e: G::Edge)
    requires
        g.inv(),
        g.valid_edge(e),
        g.has_reverse(e),
    ensures
        G::eindex(g.rev(e)) == G::eindex(e),
{
    g.lemma_eindex(e, e);
}

/// A vertex's degree counts exactly its incident edges.
pub proof fn lemma_degree_counts_incident_edges<G: Incidence>(g: &G, v: G::Vertex)
    requires
        g.inv(),
        g.valid_vertex(v),
    ensures
        g.out_neighbor_list(v).len() == g.inc_list(v).len(),
{
    g.lemma_inc_list(v);
}

} // verus!
