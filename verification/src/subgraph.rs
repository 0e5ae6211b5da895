//! Subgraph views: a filtered read-only graph derived from a base graph
//! without copying payload data. A view holds an explicit vertex subset, an
//! explicit edge subset and a freshly computed incidence map; source,
//! target, reversal and opposite delegate to the base graph unchanged.

use vstd::prelude::*;

use crate::graph::Adjacency;
use crate::graph::EdgeIndex;
use crate::graph::EdgeList;
use crate::graph::Graph;
use crate::graph::Incidence;
use crate::graph::Orientation;
use crate::graph::VertexIndex;
use crate::graph::VertexList;
use crate::graph::WithEdge;
use crate::graph::WithVertex;
use crate::props::PropVec;
use crate::sample::random_index;

verus! {

/// Canonical membership: some listed edge shares `e`'s canonical index, so
/// the list holds `e`'s edge in one traversal direction or the other.
pub open spec fn canon_contains<G: Graph>(es: Seq<G::Edge>, e: G::Edge) -> bool {
    exists|j: int| 0 <= j < es.len() && G::eindex(#[trigger] es[j]) == G::eindex(e)
}

/// The views of a sequence of rows.
pub open spec fn rows_of<T>(rs: Seq<Vec<T>>) -> Seq<Seq<T>> {
    rs.map_values(|r: Vec<T>| r@)
}

/// What a well-formed incidence row entry at vertex index `k` satisfies,
/// against retained vertices `vs` and retained edges `es`.
pub open spec fn entry_ok<G: Graph>(
    g: G,
    vs: Seq<G::Vertex>,
    es: Seq<G::Edge>,
    e: G::Edge,
    k: int,
) -> bool {
    &&& g.valid_edge(e)
    &&& G::vindex(g.src(e)) == k
    &&& vs.contains(g.tgt(e))
    &&& canon_contains::<G>(es, e)
}

/// A filtered read-only view of a base graph that it owns. The incidence
/// map is keyed like the base graph and sized to the base graph's full
/// vertex domain; unretained vertices keep empty rows.
pub struct Subgraph<G: Graph> {
    g: G,
    vertices: Vec<G::Vertex>,
    edges: Vec<G::Edge>,
    inc: PropVec<Vec<G::Edge>>,
}

impl<G: Graph> Subgraph<G> {
    /// The base graph.
    pub closed spec fn base(&self) -> G {
        self.g
    }

    /// The retained vertices, in enumeration order.
    pub closed spec fn vs(&self) -> Seq<G::Vertex> {
        self.vertices@
    }

    /// The retained edges, in enumeration order.
    pub closed spec fn es(&self) -> Seq<G::Edge> {
        self.edges@
    }

    /// The incidence row at base vertex index `k`.
    pub closed spec fn row(&self, k: int) -> Seq<G::Edge> {
        self.inc@[k]@
    }

    /// All incidence rows, one per index of the base graph's vertex domain.
    pub closed spec fn rows(&self) -> Seq<Seq<G::Edge>> {
        rows_of(self.inc@)
    }

    /// An incidence row entry at index `k` is a valid base edge that faces
    /// away from the vertex with index `k`, leads to a retained vertex, and
    /// is one of the retained edges up to direction.
    pub closed spec fn row_ok(&self, e: G::Edge, k: int) -> bool {
        entry_ok(self.base(), self.vs(), self.es(), e, k)
    }

    /// Conversely, every retained edge (up to direction) whose source is a
    /// retained vertex stands in that source's incidence row.
    pub closed spec fn rows_complete(&self) -> bool {
        forall|e: G::Edge|
            #[trigger] canon_contains::<G>(self.es(), e) && self.base().valid_edge(e)
                && self.vs().contains(self.base().src(e)) ==> self.row(
                G::vindex(self.base().src(e)),
            ).contains(e)
    }

    /// The representation invariant of a subgraph view.
    pub closed spec fn sub_wf(&self) -> bool {
        &&& self.base().inv()
        &&& self.inc@.len() == self.base().vertex_domain()
        &&& (forall|i: int|
            0 <= i < self.vs().len() ==> self.base().valid_vertex(#[trigger] self.vs()[i]))
        &&& (forall|i: int, j: int|
            0 <= i < j < self.vs().len() ==> self.vs()[i] != self.vs()[j])
        &&& (forall|i: int|
            0 <= i < self.es().len() ==> self.base().valid_edge(#[trigger] self.es()[i]))
        &&& (forall|i: int|
            0 <= i < self.es().len() ==> self.vs().contains(
                self.base().src(#[trigger] self.es()[i]),
            ) && self.vs().contains(self.base().tgt(self.es()[i])))
        &&& (forall|i: int, j: int|
            0 <= i < j < self.es().len() ==> G::eindex(#[trigger] self.es()[i]) != G::eindex(
                #[trigger] self.es()[j],
            ))
        &&& (forall|k: int, t: int|
            0 <= k < self.inc@.len() && 0 <= t < self.row(k).len() ==> self.row_ok(
                #[trigger] self.row(k)[t],
                k,
            ))
        &&& self.rows_complete()
    }

    /// The base graph, borrowed.
    pub fn g(&self) -> (r: &G)
        ensures
            *r == self.base(),
    {
        &self.g
    }

    /// A uniformly chosen retained vertex.
    pub fn choose_vertex(&self) -> (v: G::Vertex)
        requires
            self.sub_wf(),
            self.vs().len() > 0,
        ensures
            self.vs().contains(v),
    {
        let i = random_index(self.vertices.len());
        let v = self.vertices[i];
        proof {
            assert(self.vs()[i as int] == v);
        }
        v
    }

    /// A uniformly chosen retained edge.
    pub fn choose_edge(&self) -> (e: G::Edge)
        requires
            self.sub_wf(),
            self.es().len() > 0,
        ensures
            self.es().contains(e),
    {
        let i = random_index(self.edges.len());
        let e = self.edges[i];
        proof {
            assert(self.es()[i as int] == e);
        }
        e
    }

    /// A uniformly chosen edge incident to `v` in the view.
    pub fn choose_inc_edge(&self, v: G::Vertex) -> (e: G::Edge)
        requires
            self.sub_wf(),
            self.vs().contains(v),
            self.row(G::vindex(v)).len() > 0,
        ensures
            self.row(G::vindex(v)).contains(e),
    {
        proof {
            lemma_sub_vertex(self, v);
        }
        let k = G::vertex_index(v);
        let i = random_index(self.inc.row(k).len());
        let e = self.inc.row(k)[i];
        proof {
            assert(self.row(G::vindex(v))[i as int] == e);
        }
        e
    }
}

/// A retained vertex is a valid base vertex whose index lies in the base
/// graph's vertex domain.
proof fn lemma_sub_vertex<G: Graph>(s: &Subgraph<G>, v: G::Vertex)
    requires
        s.sub_wf(),
        s.vs().contains(v),
    ensures
        s.base().valid_vertex(v),
        0 <= G::vindex(v) < s.base().vertex_domain(),
{
    let i = choose|i: int| 0 <= i < s.vs().len() && s.vs()[i] == v;
    assert(s.base().valid_vertex(s.vs()[i]));
    s.base().lemma_vindex(v, v);
}

impl<G: Graph> WithVertex for Subgraph<G> {
    type Vertex = G::Vertex;

    type OptionVertex = G::OptionVertex;

    open spec fn inv(&self) -> bool {
        self.sub_wf()
    }

    open spec fn valid_vertex(&self, v: G::Vertex) -> bool {
        self.vs().contains(v)
    }

    fn vertex_eq(&self, u: G::Vertex, v: G::Vertex) -> bool {
        proof {
            lemma_sub_vertex(self, u);
            lemma_sub_vertex(self, v);
        }
        self.g.vertex_eq(u, v)
    }

    proof fn lemma_vertex_packable(&self, v: G::Vertex) {
        lemma_sub_vertex(self, v);
        self.base().lemma_vertex_packable(v);
    }
}

impl<G: Graph> WithEdge for Subgraph<G> {
    type Kind = G::Kind;

    type Edge = G::Edge;

    type OptionEdge = G::OptionEdge;

    open spec fn valid_edge(&self, e: G::Edge) -> bool {
        self.base().valid_edge(e) && canon_contains::<G>(self.es(), e)
    }

    open spec fn src(&self, e: G::Edge) -> G::Vertex {
        self.base().src(e)
    }

    open spec fn tgt(&self, e: G::Edge) -> G::Vertex {
        self.base().tgt(e)
    }

    open spec fn has_reverse(&self, e: G::Edge) -> bool {
        self.base().has_reverse(e)
    }

    open spec fn rev(&self, e: G::Edge) -> G::Edge {
        self.base().rev(e)
    }

    open spec fn edge_orientation(&self, e: G::Edge) -> Orientation {
        self.base().edge_orientation(e)
    }

    proof fn lemma_edge_laws(&self, e: G::Edge) {
        self.base().lemma_edge_laws(e);
        assert(canon_contains::<G>(self.es(), e));
        let j = choose|j: int|
            0 <= j < self.es().len() && G::eindex(#[trigger] self.es()[j]) == G::eindex(e);
        let d = self.es()[j];
        self.base().lemma_eindex(d, e);
        if d != e {
            assert(self.base().has_reverse(e) && d == self.base().rev(e));
            assert(self.base().src(d) == self.base().tgt(e));
            assert(self.base().tgt(d) == self.base().src(e));
        }
        assert(self.vs().contains(self.base().src(e)));
        assert(self.vs().contains(self.base().tgt(e)));
        if self.has_reverse(e) {
            self.base().lemma_eindex(e, e);
            assert(G::eindex(self.es()[j]) == G::eindex(self.base().rev(e)));
            assert(canon_contains::<G>(self.es(), self.base().rev(e)));
        }
        assert(self.has_reverse(e) ==> {
            &&& self.valid_edge(self.rev(e))
            &&& self.has_reverse(self.rev(e))
            &&& self.src(self.rev(e)) == self.tgt(e)
            &&& self.tgt(self.rev(e)) == self.src(e)
            &&& self.rev(self.rev(e)) == e
        });
    }

    fn source(&self, e: G::Edge) -> (v: G::Vertex) {
        self.g.source(e)
    }

    fn target(&self, e: G::Edge) -> (v: G::Vertex) {
        self.g.target(e)
    }

    fn orientation(&self, e: G::Edge) -> Orientation {
        self.g.orientation(e)
    }

    fn get_reverse(&self, e: G::Edge) -> (r: Option<G::Edge>) {
        self.g.get_reverse(e)
    }
}

impl<G: Graph> VertexList for Subgraph<G> {
    open spec fn vertex_list(&self) -> Seq<G::Vertex> {
        self.vs()
    }

    proof fn lemma_vertex_list(&self) {
    }

    fn vertices(&self) -> (r: Vec<G::Vertex>) {
        let len = self.vertices.len();
        let mut r: Vec<G::Vertex> = Vec::with_capacity(len);
        let mut t: usize = 0;
        while t < len
            invariant
                len == self.vs().len(),
                t <= len,
                r@.len() == t,
                forall|i: int| 0 <= i < t ==> r@[i] == self.vs()[i],
            decreases len - t,
        {
            r.push(self.vertices[t]);
            t = t + 1;
        }
        proof {
            assert(r@ =~= self.vs());
        }
        r
    }

    fn num_vertices(&self) -> (n: usize) {
        self.vertices.len()
    }
}

impl<G: Graph> EdgeList for Subgraph<G> {
    open spec fn edge_list(&self) -> Seq<G::Edge> {
        self.es()
    }

    proof fn lemma_edge_list(&self) {
        assert forall|i: int| 0 <= i < self.es().len() implies self.valid_edge(
            #[trigger] self.es()[i],
        ) by {
            assert(G::eindex(self.es()[i]) == G::eindex(self.es()[i]));
        }
        assert forall|i: int, j: int| 0 <= i < j < self.es().len() implies #[trigger] self.es()[i]
            != #[trigger] self.es()[j] by {
            assert(G::eindex(self.es()[i]) != G::eindex(self.es()[j]));
        }
    }

    fn edges(&self) -> (r: Vec<G::Edge>) {
        let len = self.edges.len();
        let mut r: Vec<G::Edge> = Vec::with_capacity(len);
        let mut t: usize = 0;
        while t < len
            invariant
                len == self.es().len(),
                t <= len,
                r@.len() == t,
                forall|i: int| 0 <= i < t ==> r@[i] == self.es()[i],
            decreases len - t,
        {
            r.push(self.edges[t]);
            t = t + 1;
        }
        proof {
            assert(r@ =~= self.es());
        }
        r
    }

    fn num_edges(&self) -> (n: usize) {
        self.edges.len()
    }
}

impl<G: Graph> Adjacency for Subgraph<G> {
    open spec fn out_neighbor_list(&self, v: G::Vertex) -> Seq<G::Vertex> {
        self.row(G::vindex(v)).map_values(|e: G::Edge| self.base().tgt(e))
    }

    proof fn lemma_out_neighbors(&self, v: G::Vertex) {
        lemma_sub_vertex(self, v);
        let k = G::vindex(v);
        assert forall|i: int| 0 <= i < self.out_neighbor_list(v).len() implies self.valid_vertex(
            #[trigger] self.out_neighbor_list(v)[i],
        ) by {
            assert(self.row_ok(self.row(k)[i], k));
            assert(self.out_neighbor_list(v)[i] == self.base().tgt(self.row(k)[i]));
        }
    }

    fn out_neighbors(&self, v: G::Vertex) -> (r: Vec<G::Vertex>) {
        proof {
            lemma_sub_vertex(self, v);
        }
        let k = G::vertex_index(v);
        let len = self.inc.row(k).len();
        let mut r: Vec<G::Vertex> = Vec::with_capacity(len);
        let mut t: usize = 0;
        while t < len
            invariant
                self.sub_wf(),
                0 <= G::vindex(v) < self.inc@.len(),
                k as int == G::vindex(v),
                len == self.row(k as int).len(),
                t <= len,
                r@.len() == t,
                forall|i: int| 0 <= i < t ==> r@[i] == self.out_neighbor_list(v)[i],
            decreases len - t,
        {
            let e = self.inc.row(k)[t];
            proof {
                assert(self.row_ok(self.row(k as int)[t as int], k as int));
            }
            r.push(self.g.target(e));
            t = t + 1;
        }
        proof {
            assert(r@ =~= self.out_neighbor_list(v));
        }
        r
    }

    fn out_degree(&self, v: G::Vertex) -> (n: usize) {
        proof {
            lemma_sub_vertex(self, v);
        }
        let k = G::vertex_index(v);
        self.inc.row(k).len()
    }
}

impl<G: Graph> Incidence for Subgraph<G> {
    open spec fn inc_list(&self, v: G::Vertex) -> Seq<G::Edge> {
        self.row(G::vindex(v))
    }

    proof fn lemma_inc_list(&self, v: G::Vertex) {
        lemma_sub_vertex(self, v);
        let k = G::vindex(v);
        assert forall|i: int| 0 <= i < self.inc_list(v).len() implies self.valid_edge(
            #[trigger] self.inc_list(v)[i],
        ) && self.src(self.inc_list(v)[i]) == v by {
            let e = self.inc_list(v)[i];
            assert(self.row_ok(self.row(k)[i], k));
            self.base().lemma_edge_laws(e);
            self.base().lemma_vindex(self.base().src(e), v);
        }
        assert forall|e: G::Edge| #[trigger] self.valid_edge(e) && self.src(e)
            == v implies self.inc_list(v).contains(e) by {
            assert(canon_contains::<G>(self.es(), e));
            assert(self.vs().contains(self.base().src(e)));
            assert(self.row(G::vindex(self.base().src(e))).contains(e));
        }
        assert(self.out_neighbor_list(v) =~= self.inc_list(v).map_values(
            |e: G::Edge| self.tgt(e),
        ));
    }

    fn out_edges(&self, v: G::Vertex) -> (r: Vec<G::Edge>) {
        proof {
            lemma_sub_vertex(self, v);
        }
        let k = G::vertex_index(v);
        let len = self.inc.row(k).len();
        let mut r: Vec<G::Edge> = Vec::with_capacity(len);
        let mut t: usize = 0;
        while t < len
            invariant
                0 <= G::vindex(v) < self.inc@.len(),
                k as int == G::vindex(v),
                len == self.row(k as int).len(),
                t <= len,
                r@.len() == t,
                forall|i: int| 0 <= i < t ==> r@[i] == self.row(k as int)[i],
            decreases len - t,
        {
            r.push(self.inc.row(k)[t]);
            t = t + 1;
        }
        proof {
            assert(r@ =~= self.inc_list(v));
        }
        r
    }
}

impl<G: Graph> VertexIndex for Subgraph<G> {
    open spec fn vertex_domain(&self) -> int {
        self.base().vertex_domain()
    }

    open spec fn vindex(v: G::Vertex) -> int {
        G::vindex(v)
    }

    proof fn lemma_vindex(&self, u: G::Vertex, v: G::Vertex) {
        lemma_sub_vertex(self, u);
        lemma_sub_vertex(self, v);
        self.base().lemma_vindex(u, v);
    }

    fn vertex_index(v: G::Vertex) -> (i: usize) {
        G::vertex_index(v)
    }

    fn vertex_domain_size(&self) -> (n: usize) {
        self.g.vertex_domain_size()
    }
}

/// The incidence rows over vertex domain `dom` after inserting, for each
/// listed edge in order, the edge at its source's index and its reverse at
/// its target's index.
pub open spec fn spanning_rows<G: Graph>(g: G, es: Seq<G::Edge>, dom: int) -> Seq<Seq<G::Edge>>
    decreases es.len(),
{
    if es.len() == 0 {
        Seq::new(dom as nat, |k: int| Seq::<G::Edge>::empty())
    } else {
        let prev = spanning_rows(g, es.drop_last(), dom);
        let e = es.last();
        let ku = G::vindex(g.src(e));
        let kv = G::vindex(g.tgt(e));
        let r1 = prev.update(ku, prev[ku].push(e));
        r1.update(kv, r1[kv].push(g.rev(e)))
    }
}

/// The endpoints of the listed edges, in first-seen order, each once: for
/// each edge in order, first its source if not seen yet, then its target.
pub open spec fn seen_vertices<G: Graph>(g: G, es: Seq<G::Edge>) -> Seq<G::Vertex>
    decreases es.len(),
{
    if es.len() == 0 {
        Seq::empty()
    } else {
        let prev = seen_vertices(g, es.drop_last());
        let e = es.last();
        let p1 = if prev.contains(g.src(e)) {
            prev
        } else {
            prev.push(g.src(e))
        };
        if p1.contains(g.tgt(e)) {
            p1
        } else {
            p1.push(g.tgt(e))
        }
    }
}

/// Membership carries over to any extension of the sequence.
proof fn lemma_contains_mono<T>(s1: Seq<T>, s2: Seq<T>, x: T)
    requires
        s1.len() <= s2.len(),
        forall|j: int| 0 <= j < s1.len() ==> s1[j] == s2[j],
        s1.contains(x),
    ensures
        s2.contains(x),
{
    let j = choose|j: int| 0 <= j < s1.len() && s1[j] == x;
    assert(s2[j] == x);
}

/// Of a vertex's incidence list, the edges whose target is retained, in
/// order.
pub open spec fn kept_edges<G: Graph>(
    g: G,
    vs: Seq<G::Vertex>,
    row: Seq<G::Edge>,
) -> Seq<G::Edge>
    decreases row.len(),
{
    if row.len() == 0 {
        Seq::empty()
    } else {
        let p = kept_edges(g, vs, row.drop_last());
        let e = row.last();
        if vs.contains(g.tgt(e)) {
            p.push(e)
        } else {
            p
        }
    }
}

/// Appends to `acc` the edges of `row` whose target is retained and whose
/// canonical edge is not yet listed.
pub open spec fn induced_row_edges<G: Graph>(
    g: G,
    vs: Seq<G::Vertex>,
    row: Seq<G::Edge>,
    acc: Seq<G::Edge>,
) -> Seq<G::Edge>
    decreases row.len(),
{
    if row.len() == 0 {
        acc
    } else {
        let p = induced_row_edges(g, vs, row.drop_last(), acc);
        let e = row.last();
        if vs.contains(g.tgt(e)) && !canon_contains::<G>(p, e) {
            p.push(e)
        } else {
            p
        }
    }
}

/// The edges discovered from the incidence lists of the first `i` retained
/// vertices, each canonical edge once, in discovery order.
pub open spec fn induced_edges_upto<G: Graph>(g: G, vs: Seq<G::Vertex>, i: int) -> Seq<G::Edge>
    decreases i,
{
    if i <= 0 {
        Seq::empty()
    } else {
        induced_row_edges(g, vs, g.inc_list(vs[i - 1]), induced_edges_upto(g, vs, i - 1))
    }
}

/// Every base edge both of whose endpoints are retained, each canonical
/// edge once, in discovery order.
pub open spec fn induced_edges<G: Graph>(g: G, vs: Seq<G::Vertex>) -> Seq<G::Edge> {
    induced_edges_upto(g, vs, vs.len() as int)
}

/// Marking a vertex's index and appending the vertex keeps the "seen flag
/// set exactly at the indices of listed vertices" correspondence.
proof fn lemma_seen_update<G: Graph>(
    dom: int,
    oldseen: Seq<bool>,
    oldvs: Seq<G::Vertex>,
    newseen: Seq<bool>,
    newvs: Seq<G::Vertex>,
    u: G::Vertex,
    ku: int,
)
    requires
        oldseen.len() == dom,
        forall|k: int|
            0 <= k < dom ==> (oldseen[k] <==> exists|t: int|
                0 <= t < oldvs.len() && G::vindex(#[trigger] oldvs[t]) == k),
        0 <= ku < dom,
        G::vindex(u) == ku,
        newseen == oldseen.update(ku, true),
        newvs == oldvs.push(u),
    ensures
        forall|k: int|
            0 <= k < dom ==> (newseen[k] <==> exists|t: int|
                0 <= t < newvs.len() && G::vindex(#[trigger] newvs[t]) == k),
{
    assert forall|k: int| 0 <= k < dom implies (newseen[k] <==> exists|t: int|
        0 <= t < newvs.len() && G::vindex(#[trigger] newvs[t]) == k) by {
        if newseen[k] {
            if k == ku {
                assert(G::vindex(newvs[newvs.len() - 1]) == k);
            } else {
                assert(oldseen[k]);
                let t = choose|t: int| 0 <= t < oldvs.len() && G::vindex(#[trigger] oldvs[t]) == k;
                assert(G::vindex(newvs[t]) == k);
            }
        } else {
            assert(k != ku);
            assert(!oldseen[k]);
            assert forall|t: int| 0 <= t < newvs.len() implies G::vindex(#[trigger] newvs[t])
                != k by {
                if t < oldvs.len() {
                    assert(newvs[t] == oldvs[t]);
                    if G::vindex(oldvs[t]) == k {
                        assert(oldseen[k]);
                    }
                }
            }
        }
    }
}

/// Each listed edge stands in its source's row of `spanning_rows`, and its
/// reverse in its target's row.
proof fn lemma_spanning_rows_complete<G: Graph>(g: G, es: Seq<G::Edge>, dom: int)
    requires
        g.inv(),
        dom >= 0,
        dom == g.vertex_domain(),
        forall|i: int|
            0 <= i < es.len() ==> g.valid_edge(#[trigger] es[i]) && g.has_reverse(es[i]),
    ensures
        spanning_rows(g, es, dom).len() == dom,
        forall|j: int|
            0 <= j < es.len() ==> spanning_rows(g, es, dom)[G::vindex(
                g.src(#[trigger] es[j]),
            )].contains(es[j]) && spanning_rows(g, es, dom)[G::vindex(g.tgt(es[j]))].contains(
                g.rev(es[j]),
            ),
    decreases es.len(),
{
    if es.len() > 0 {
        let pre = es.drop_last();
        lemma_spanning_rows_complete(g, pre, dom);
        let e = es.last();
        g.lemma_edge_laws(e);
        g.lemma_vindex(g.src(e), g.src(e));
        g.lemma_vindex(g.tgt(e), g.tgt(e));
        let prev = spanning_rows(g, pre, dom);
        let ku = G::vindex(g.src(e));
        let kv = G::vindex(g.tgt(e));
        let r1 = prev.update(ku, prev[ku].push(e));
        let rows = r1.update(kv, r1[kv].push(g.rev(e)));
        assert(spanning_rows(g, es, dom) == rows);
        assert(r1[ku].contains(e)) by {
            assert(r1[ku][r1[ku].len() - 1] == e);
        }
        assert(rows[ku].contains(e)) by {
            if ku == kv {
                lemma_contains_mono(r1[ku], rows[ku], e);
            } else {
                assert(rows[ku] == r1[ku]);
            }
        }
        assert(rows[kv].contains(g.rev(e))) by {
            assert(rows[kv][rows[kv].len() - 1] == g.rev(e));
        }
        assert forall|j: int| 0 <= j < es.len() implies spanning_rows(g, es, dom)[G::vindex(
            g.src(#[trigger] es[j]),
        )].contains(es[j]) && spanning_rows(g, es, dom)[G::vindex(g.tgt(es[j]))].contains(
            g.rev(es[j]),
        ) by {
            if j < es.len() - 1 {
                assert(pre[j] == es[j]);
                let a = G::vindex(g.src(es[j]));
                let b = G::vindex(g.tgt(es[j]));
                g.lemma_edge_laws(es[j]);
                g.lemma_vindex(g.src(es[j]), g.src(es[j]));
                g.lemma_vindex(g.tgt(es[j]), g.tgt(es[j]));
                assert(prev[a].contains(es[j]));
                assert(prev[b].contains(g.rev(es[j])));
                assert(prev[a].len() <= rows[a].len() && (forall|q: int|
                    0 <= q < prev[a].len() ==> prev[a][q] == rows[a][q]));
                lemma_contains_mono(prev[a], rows[a], es[j]);
                assert(prev[b].len() <= rows[b].len() && (forall|q: int|
                    0 <= q < prev[b].len() ==> prev[b][q] == rows[b][q]));
                lemma_contains_mono(prev[b], rows[b], g.rev(es[j]));
            }
        }
    }
}

/// Every incidence-list edge whose target is retained stands in the kept
/// sequence.
proof fn lemma_kept_edges_complete<G: Graph>(g: G, vs: Seq<G::Vertex>, row: Seq<G::Edge>)
    ensures
        forall|t: int|
            0 <= t < row.len() && vs.contains(g.tgt(#[trigger] row[t])) ==> kept_edges(
                g,
                vs,
                row,
            ).contains(row[t]),
    decreases row.len(),
{
    if row.len() > 0 {
        let pre = row.drop_last();
        lemma_kept_edges_complete(g, vs, pre);
        let p = kept_edges(g, vs, pre);
        let e = row.last();
        assert forall|t: int|
            0 <= t < row.len() && vs.contains(g.tgt(#[trigger] row[t])) implies kept_edges(
            g,
            vs,
            row,
        ).contains(row[t]) by {
            if t < row.len() - 1 {
                assert(pre[t] == row[t]);
                assert(p.contains(row[t]));
                if vs.contains(g.tgt(e)) {
                    lemma_contains_mono(p, kept_edges(g, vs, row), row[t]);
                } else {
                    assert(kept_edges(g, vs, row) == p);
                }
            } else {
                assert(row[t] == e);
                assert(kept_edges(g, vs, row)[p.len() as int] == e);
            }
        }
    }
}

/// Canonical membership carries over to any extension of the list.
proof fn lemma_canon_mono<G: Graph>(es1: Seq<G::Edge>, es2: Seq<G::Edge>, e: G::Edge)
    requires
        es1.len() <= es2.len(),
        forall|j: int| 0 <= j < es1.len() ==> es1[j] == es2[j],
        canon_contains::<G>(es1, e),
    ensures
        canon_contains::<G>(es2, e),
{
    let j = choose|j: int| 0 <= j < es1.len() && G::eindex(#[trigger] es1[j]) == G::eindex(e);
    assert(G::eindex(es2[j]) == G::eindex(e));
}

/// Derives filtered views from a graph, consuming the graph into the view.
pub trait WithSubgraph<G: Graph>: Sized {
    /// The base graph this value stands for.
    spec fn to_base(self) -> G;

    /// A subgraph that keeps every vertex of the base graph and exactly the
    /// given edges; each listed edge is appended to its source's incidence
    /// row and its reverse to its target's row, in order.
    fn spanning_subgraph(self, edges: Vec<G::Edge>) -> (s: Subgraph<G>)
        requires
            self.to_base().inv(),
            forall|i: int|
                0 <= i < edges@.len() ==> self.to_base().valid_edge(#[trigger] edges@[i])
                    && self.to_base().has_reverse(edges@[i]),
            forall|i: int, j: int|
                0 <= i < j < edges@.len() ==> G::eindex(#[trigger] edges@[i]) != G::eindex(
                    #[trigger] edges@[j],
                ),
        ensures
            s.sub_wf(),
            s.base() == self.to_base(),
            s.vs() == self.to_base().vertex_list(),
            s.es() == edges@,
            s.rows() == spanning_rows(
                self.to_base(),
                edges@,
                self.to_base().vertex_domain(),
            ),
    ;

    /// A subgraph whose vertices are exactly the endpoints touched by the
    /// given edges, discovered in first-seen order, and whose edges are the
    /// given ones; incidence is built as for `spanning_subgraph`.
    fn edge_induced_subgraph(self, edges: Vec<G::Edge>) -> (s: Subgraph<G>)
        requires
            self.to_base().inv(),
            forall|i: int|
                0 <= i < edges@.len() ==> self.to_base().valid_edge(#[trigger] edges@[i])
                    && self.to_base().has_reverse(edges@[i]),
            forall|i: int, j: int|
                0 <= i < j < edges@.len() ==> G::eindex(#[trigger] edges@[i]) != G::eindex(
                    #[trigger] edges@[j],
                ),
        ensures
            s.sub_wf(),
            s.base() == self.to_base(),
            s.vs() == seen_vertices(self.to_base(), edges@),
            s.es() == edges@,
            s.rows() == spanning_rows(
                self.to_base(),
                edges@,
                self.to_base().vertex_domain(),
            ),
    ;

    /// A subgraph with exactly the given vertices and every base edge both
    /// of whose endpoints are among them. Membership is tested through an
    /// indexed boolean map over the base vertex domain, and each canonical
    /// edge enters the edge list once, in discovery order.
    fn induced_subgraph(self, vertices: Vec<G::Vertex>) -> (s: Subgraph<G>)
        requires
            self.to_base().inv(),
            forall|i: int|
                0 <= i < vertices@.len() ==> self.to_base().valid_vertex(
                    #[trigger] vertices@[i],
                ),
            forall|i: int, j: int|
                0 <= i < j < vertices@.len() ==> vertices@[i] != vertices@[j],
        ensures
            s.sub_wf(),
            s.base() == self.to_base(),
            s.vs() == vertices@,
            s.es() == induced_edges(self.to_base(), vertices@),
            forall|t: int|
                0 <= t < vertices@.len() ==> s.row(G::vindex(#[trigger] vertices@[t]))
                    == kept_edges(
                    self.to_base(),
                    vertices@,
                    self.to_base().inc_list(vertices@[t]),
                ),
            forall|k: int|
                0 <= k < self.to_base().vertex_domain() && !(exists|t: int|
                    0 <= t < vertices@.len() && G::vindex(#[trigger] vertices@[t]) == k)
                    ==> s.row(k) == Seq::<G::Edge>::empty(),
    ;
}

impl<G: Graph> WithSubgraph<G> for G {
    open spec fn to_base(self) -> G {
        self
    }

    #[verifier::loop_isolation(false)]
    fn spanning_subgraph(self, edges: Vec<G::Edge>) -> (s: Subgraph<G>) {
        proof {
            self.lemma_vertex_list();
        }
        let vertices = self.vertices();
        let dom = self.vertex_domain_size();
        let mut inc: PropVec<Vec<G::Edge>> = PropVec::new_rows(dom);
        proof {
            assert(edges@.take(0) =~= Seq::<G::Edge>::empty());
            assert(rows_of(inc@) =~~= spanning_rows(self, edges@.take(0), dom as int));
        }
        let mut i: usize = 0;
        while i < edges.len()
            invariant
                i <= edges@.len(),
                inc@.len() == dom as int,
                rows_of(inc@) == spanning_rows(self, edges@.take(i as int), dom as int),
                forall|k: int, t: int|
                    #![trigger rows_of(inc@)[k][t]]
                    0 <= k < dom as int && 0 <= t < rows_of(inc@)[k].len() ==> entry_ok(
                        self,
                        self.vertex_list(),
                        edges@.take(i as int),
                        rows_of(inc@)[k][t],
                        k,
                    ),
            decreases edges@.len() - i,
        {
            let ghost pre = edges@.take(i as int);
            let ghost oldrows = rows_of(inc@);
            let e = edges[i];
            proof {
                self.lemma_edge_laws(e);
                self.lemma_vindex(self.src(e), self.src(e));
                self.lemma_vindex(self.tgt(e), self.tgt(e));
                self.lemma_vertex_list();
                self.lemma_eindex(e, e);
            }
            let u = self.source(e);
            let v = self.target(e);
            let f = match self.get_reverse(e) {
                Some(f) => f,
                None => {
                    proof {
                        assert(false);
                    }
                    e
                },
            };
            let ku = G::vertex_index(u);
            let kv = G::vertex_index(v);
            inc.push_at(ku, e);
            inc.push_at(kv, f);
            i = i + 1;
            proof {
                let cur = edges@.take(i as int);
                assert(cur.drop_last() =~= pre);
                assert(cur.last() == e);
                assert(cur[i - 1] == e);
                let prev = spanning_rows(self, pre, dom as int);
                let r1 = prev.update(ku as int, prev[ku as int].push(e));
                let goal = r1.update(kv as int, r1[kv as int].push(self.rev(e)));
                assert(spanning_rows(self, cur, dom as int) == goal);
                assert(rows_of(inc@) =~~= goal);
                assert forall|k: int, t: int|
                    #![trigger rows_of(inc@)[k][t]]
                    0 <= k < dom as int && 0 <= t < rows_of(inc@)[k].len() implies entry_ok(
                    self,
                    self.vertex_list(),
                    cur,
                    rows_of(inc@)[k][t],
                    k,
                ) by {
                    let x = rows_of(inc@)[k][t];
                    if k == ku as int && t == oldrows[k].len() && (k != kv as int || t
                        < rows_of(inc@)[k].len() - 1) {
                        assert(x == e);
                        assert(canon_contains::<G>(cur, e));
                    } else if k == kv as int && t == rows_of(inc@)[k].len() - 1 {
                        assert(x == f);
                        assert(G::eindex(cur[i - 1]) == G::eindex(f));
                        assert(canon_contains::<G>(cur, f));
                    } else {
                        assert(x == oldrows[k][t]);
                        assert(entry_ok(self, self.vertex_list(), pre, x, k));
                        lemma_canon_mono::<G>(pre, cur, x);
                    }
                }
            }
        }
        proof {
            assert(edges@.take(edges@.len() as int) =~= edges@);
        }
        let s = Subgraph { g: self, vertices, edges, inc };
        proof {
            s.base().lemma_vertex_list();
            assert forall|j: int| 0 <= j < s.es().len() implies s.vs().contains(
                s.base().src(#[trigger] s.es()[j]),
            ) && s.vs().contains(s.base().tgt(s.es()[j])) by {
                s.base().lemma_edge_laws(s.es()[j]);
            }
            assert forall|k: int, t: int|
                0 <= k < s.inc@.len() && 0 <= t < s.row(k).len() implies s.row_ok(
                #[trigger] s.row(k)[t],
                k,
            ) by {
                assert(s.row(k) == rows_of(s.inc@)[k]);
                assert(entry_ok(s.base(), s.base().vertex_list(), s.es(), s.row(k)[t], k));
            }
            lemma_spanning_rows_complete(s.base(), s.es(), dom as int);
            assert(s.rows() == spanning_rows(s.base(), s.es(), dom as int));
            assert forall|e: G::Edge|
                #[trigger] canon_contains::<G>(s.es(), e) && s.base().valid_edge(e)
                    && s.vs().contains(s.base().src(e)) implies s.row(
                G::vindex(s.base().src(e)),
            ).contains(e) by {
                let j = choose|j: int|
                    0 <= j < s.es().len() && G::eindex(#[trigger] s.es()[j]) == G::eindex(e);
                let d = s.es()[j];
                s.base().lemma_eindex(d, e);
                s.base().lemma_edge_laws(d);
                s.base().lemma_edge_laws(e);
                s.base().lemma_vindex(s.base().src(e), s.base().src(e));
                if d == e {
                    assert(s.rows()[G::vindex(s.base().src(e))].contains(e));
                } else {
                    assert(s.base().has_reverse(e) && d == s.base().rev(e));
                    assert(s.base().rev(d) == e);
                    assert(s.base().tgt(d) == s.base().src(e));
                    assert(s.rows()[G::vindex(s.base().tgt(d))].contains(s.base().rev(d)));
                }
                assert(s.row(G::vindex(s.base().src(e))) == s.rows()[G::vindex(
                    s.base().src(e),
                )]);
            }
            assert(s.sub_wf());
        }
        s
    }

    #[verifier::loop_isolation(false)]
    fn edge_induced_subgraph(self, edges: Vec<G::Edge>) -> (s: Subgraph<G>) {
        let dom = self.vertex_domain_size();
        let mut seen: PropVec<bool> = PropVec::new_filled(dom, false);
        let mut vertices: Vec<G::Vertex> = Vec::new();
        let mut inc: PropVec<Vec<G::Edge>> = PropVec::new_rows(dom);
        proof {
            assert(edges@.take(0) =~= Seq::<G::Edge>::empty());
            assert(vertices@ =~= seen_vertices(self, edges@.take(0)));
            assert(rows_of(inc@) =~~= spanning_rows(self, edges@.take(0), dom as int));
        }
        let mut i: usize = 0;
        while i < edges.len()
            invariant
                i <= edges@.len(),
                inc@.len() == dom as int,
                seen@.len() == dom as int,
                vertices@ == seen_vertices(self, edges@.take(i as int)),
                forall|t: int|
                    0 <= t < vertices@.len() ==> self.valid_vertex(#[trigger] vertices@[t]),
                forall|t1: int, t2: int|
                    0 <= t1 < t2 < vertices@.len() ==> vertices@[t1] != vertices@[t2],
                forall|k: int|
                    0 <= k < dom as int ==> (seen@[k] <==> exists|t: int|
                        0 <= t < vertices@.len() && G::vindex(#[trigger] vertices@[t]) == k),
                forall|j: int|
                    0 <= j < i ==> vertices@.contains(self.src(#[trigger] edges@[j]))
                        && vertices@.contains(self.tgt(edges@[j])),
                rows_of(inc@) == spanning_rows(self, edges@.take(i as int), dom as int),
                forall|k: int, t: int|
                    #![trigger rows_of(inc@)[k][t]]
                    0 <= k < dom as int && 0 <= t < rows_of(inc@)[k].len() ==> entry_ok(
                        self,
                        vertices@,
                        edges@.take(i as int),
                        rows_of(inc@)[k][t],
                        k,
                    ),
            decreases edges@.len() - i,
        {
            let ghost pre = edges@.take(i as int);
            let ghost oldrows = rows_of(inc@);
            let ghost oldvs = vertices@;
            let e = edges[i];
            proof {
                self.lemma_edge_laws(e);
                self.lemma_vindex(self.src(e), self.src(e));
                self.lemma_vindex(self.tgt(e), self.tgt(e));
                self.lemma_eindex(e, e);
            }
            let u = self.source(e);
            let v = self.target(e);
            let f = match self.get_reverse(e) {
                Some(f) => f,
                None => {
                    proof {
                        assert(false);
                    }
                    e
                },
            };
            let ku = G::vertex_index(u);
            let kv = G::vertex_index(v);
            if !*seen.get(ku) {
                proof {
                    if oldvs.contains(u) {
                        let t = choose|t: int| 0 <= t < oldvs.len() && oldvs[t] == u;
                        assert(G::vindex(oldvs[t]) == ku as int);
                        assert(false);
                    }
                }
                let ghost preseen = seen@;
                seen.set(ku, true);
                vertices.push(u);
                proof {
                    assert(vertices@[vertices@.len() - 1] == u);
                    assert(vertices@.contains(u));
                    lemma_seen_update::<G>(
                        dom as int,
                        preseen,
                        oldvs,
                        seen@,
                        vertices@,
                        u,
                        ku as int,
                    );
                }
            } else {
                proof {
                    let t = choose|t: int|
                        0 <= t < vertices@.len() && G::vindex(#[trigger] vertices@[t])
                            == ku as int;
                    self.lemma_vindex(vertices@[t], u);
                    assert(vertices@[t] == u);
                    assert(vertices@.contains(u));
                }
            }
            let ghost midvs = vertices@;
            if !*seen.get(kv) {
                proof {
                    if midvs.contains(v) {
                        let t = choose|t: int| 0 <= t < midvs.len() && midvs[t] == v;
                        assert(G::vindex(midvs[t]) == kv as int);
                        assert(false);
                    }
                }
                let ghost preseen = seen@;
                seen.set(kv, true);
                vertices.push(v);
                proof {
                    assert(vertices@[vertices@.len() - 1] == v);
                    assert(vertices@.contains(v));
                    lemma_contains_mono(midvs, vertices@, u);
                    lemma_seen_update::<G>(
                        dom as int,
                        preseen,
                        midvs,
                        seen@,
                        vertices@,
                        v,
                        kv as int,
                    );
                }
            } else {
                proof {
                    let t = choose|t: int|
                        0 <= t < vertices@.len() && G::vindex(#[trigger] vertices@[t])
                            == kv as int;
                    self.lemma_vindex(vertices@[t], v);
                    assert(vertices@[t] == v);
                    assert(vertices@.contains(v));
                }
            }
            inc.push_at(ku, e);
            inc.push_at(kv, f);
            i = i + 1;
            proof {
                let cur = edges@.take(i as int);
                assert(cur.drop_last() =~= pre);
                assert(cur.last() == e);
                assert(cur[i - 1] == e);
                assert(vertices@ =~= seen_vertices(self, cur));
                assert forall|j: int| 0 <= j < i implies vertices@.contains(
                    self.src(#[trigger] edges@[j]),
                ) && vertices@.contains(self.tgt(edges@[j])) by {
                    if j < i - 1 {
                        lemma_contains_mono(oldvs, vertices@, self.src(edges@[j]));
                        lemma_contains_mono(oldvs, vertices@, self.tgt(edges@[j]));
                    }
                }
                let prev = spanning_rows(self, pre, dom as int);
                let r1 = prev.update(ku as int, prev[ku as int].push(e));
                let goal = r1.update(kv as int, r1[kv as int].push(self.rev(e)));
                assert(spanning_rows(self, cur, dom as int) == goal);
                assert(rows_of(inc@) =~~= goal);
                assert forall|k: int, t: int|
                    #![trigger rows_of(inc@)[k][t]]
                    0 <= k < dom as int && 0 <= t < rows_of(inc@)[k].len() implies entry_ok(
                    self,
                    vertices@,
                    cur,
                    rows_of(inc@)[k][t],
                    k,
                ) by {
                    let x = rows_of(inc@)[k][t];
                    if k == ku as int && t == oldrows[k].len() && (k != kv as int || t
                        < rows_of(inc@)[k].len() - 1) {
                        assert(x == e);
                        assert(canon_contains::<G>(cur, e));
                    } else if k == kv as int && t == rows_of(inc@)[k].len() - 1 {
                        assert(x == f);
                        assert(G::eindex(cur[i - 1]) == G::eindex(f));
                        assert(canon_contains::<G>(cur, f));
                    } else {
                        assert(x == oldrows[k][t]);
                        assert(entry_ok(self, oldvs, pre, x, k));
                        lemma_canon_mono::<G>(pre, cur, x);
                        lemma_contains_mono(oldvs, vertices@, self.tgt(x));
                    }
                }
            }
        }
        proof {
            assert(edges@.take(edges@.len() as int) =~= edges@);
        }
        let s = Subgraph { g: self, vertices, edges, inc };
        proof {
            assert forall|k: int, t: int|
                0 <= k < s.inc@.len() && 0 <= t < s.row(k).len() implies s.row_ok(
                #[trigger] s.row(k)[t],
                k,
            ) by {
                assert(s.row(k) == rows_of(s.inc@)[k]);
                assert(entry_ok(s.base(), s.vs(), s.es(), s.row(k)[t], k));
            }
            lemma_spanning_rows_complete(s.base(), s.es(), dom as int);
            assert(s.rows() == spanning_rows(s.base(), s.es(), dom as int));
            assert forall|e: G::Edge|
                #[trigger] canon_contains::<G>(s.es(), e) && s.base().valid_edge(e)
                    && s.vs().contains(s.base().src(e)) implies s.row(
                G::vindex(s.base().src(e)),
            ).contains(e) by {
                let j = choose|j: int|
                    0 <= j < s.es().len() && G::eindex(#[trigger] s.es()[j]) == G::eindex(e);
                let d = s.es()[j];
                s.base().lemma_eindex(d, e);
                s.base().lemma_edge_laws(d);
                s.base().lemma_edge_laws(e);
                s.base().lemma_vindex(s.base().src(e), s.base().src(e));
                if d == e {
                    assert(s.rows()[G::vindex(s.base().src(e))].contains(e));
                } else {
                    assert(s.base().has_reverse(e) && d == s.base().rev(e));
                    assert(s.base().rev(d) == e);
                    assert(s.base().tgt(d) == s.base().src(e));
                    assert(s.rows()[G::vindex(s.base().tgt(d))].contains(s.base().rev(d)));
                }
                assert(s.row(G::vindex(s.base().src(e))) == s.rows()[G::vindex(
                    s.base().src(e),
                )]);
            }
            assert(s.sub_wf());
        }
        s
    }

    #[verifier::loop_isolation(false)]
    fn induced_subgraph(self, vertices: Vec<G::Vertex>) -> (s: Subgraph<G>) {
        let dom = self.vertex_domain_size();
        let mut marks: PropVec<bool> = PropVec::new_filled(dom, false);
        let mut t: usize = 0;
        while t < vertices.len()
            invariant
                t <= vertices@.len(),
                marks@.len() == dom as int,
                forall|k: int|
                    0 <= k < dom as int ==> (marks@[k] <==> exists|q: int|
                        0 <= q < t && G::vindex(#[trigger] vertices@[q]) == k),
            decreases vertices@.len() - t,
        {
            let w = vertices[t];
            proof {
                self.lemma_vindex(w, w);
            }
            let ghost oldmarks = marks@;
            marks.set(G::vertex_index(w), true);
            t = t + 1;
            proof {
                assert forall|k: int| 0 <= k < dom as int implies (marks@[k] <==> exists|q: int|
                    0 <= q < t && G::vindex(#[trigger] vertices@[q]) == k) by {
                    if k == G::vindex(w) {
                        assert(G::vindex(vertices@[t - 1]) == k);
                    } else {
                        assert(marks@[k] == oldmarks[k]);
                    }
                }
            }
        }
        let edom = self.edge_domain_size();
        let mut eseen: PropVec<bool> = PropVec::new_filled(edom, false);
        let mut edges: Vec<G::Edge> = Vec::new();
        let mut inc: PropVec<Vec<G::Edge>> = PropVec::new_rows(dom);
        let mut i: usize = 0;
        while i < vertices.len()
            invariant
                i <= vertices@.len(),
                inc@.len() == dom as int,
                eseen@.len() == edom as int,
                marks@.len() == dom as int,
                forall|k: int|
                    0 <= k < dom as int ==> (marks@[k] <==> exists|q: int|
                        0 <= q < vertices@.len() && G::vindex(#[trigger] vertices@[q]) == k),
                edges@ == induced_edges_upto(self, vertices@, i as int),
                forall|j: int|
                    0 <= j < edges@.len() ==> self.valid_edge(#[trigger] edges@[j]),
                forall|j1: int, j2: int|
                    0 <= j1 < j2 < edges@.len() ==> G::eindex(#[trigger] edges@[j1])
                        != G::eindex(#[trigger] edges@[j2]),
                forall|j: int|
                    0 <= j < edges@.len() ==> vertices@.contains(
                        self.src(#[trigger] edges@[j]),
                    ) && vertices@.contains(self.tgt(edges@[j])),
                forall|q: int|
                    0 <= q < edom as int ==> (eseen@[q] <==> exists|j: int|
                        0 <= j < edges@.len() && G::eindex(#[trigger] edges@[j]) == q),
                forall|tq: int|
                    0 <= tq < i ==> rows_of(inc@)[G::vindex(#[trigger] vertices@[tq])]
                        == kept_edges(self, vertices@, self.inc_list(vertices@[tq])),
                forall|k: int|
                    0 <= k < dom as int && !(exists|tq: int|
                        0 <= tq < i && G::vindex(#[trigger] vertices@[tq]) == k) ==> rows_of(
                        inc@,
                    )[k] == Seq::<G::Edge>::empty(),
                forall|k: int, t2: int|
                    #![trigger rows_of(inc@)[k][t2]]
                    0 <= k < dom as int && 0 <= t2 < rows_of(inc@)[k].len() ==> entry_ok(
                        self,
                        vertices@,
                        edges@,
                        rows_of(inc@)[k][t2],
                        k,
                    ),
            decreases vertices@.len() - i,
        {
            let u = vertices[i];
            proof {
                self.lemma_vindex(u, u);
                self.lemma_inc_list(u);
            }
            let iu = G::vertex_index(u);
            proof {
                assert(!(exists|tq: int|
                    0 <= tq < i && G::vindex(#[trigger] vertices@[tq]) == iu as int)) by {
                    if exists|tq: int|
                        0 <= tq < i && G::vindex(#[trigger] vertices@[tq]) == iu as int {
                        let tq = choose|tq: int|
                            0 <= tq < i && G::vindex(#[trigger] vertices@[tq]) == iu as int;
                        self.lemma_vindex(vertices@[tq], u);
                        assert(vertices@[tq] == u);
                        assert(false);
                    }
                }
                assert(rows_of(inc@)[iu as int] == Seq::<G::Edge>::empty());
            }
            let inc_u = self.out_edges(u);
            let ghost row0 = self.inc_list(u);
            let ghost acc0 = edges@;
            let ghost inc0 = inc@;
            let mut t: usize = 0;
            proof {
                assert(row0.take(0) =~= Seq::<G::Edge>::empty());
            }
            while t < inc_u.len()
                invariant
                    t <= row0.len(),
                    inc_u@ == row0,
                    inc@.len() == dom as int,
                    eseen@.len() == edom as int,
                    rows_of(inc@)[iu as int] == kept_edges(self, vertices@, row0.take(t as int)),
                    forall|k: int|
                        0 <= k < dom as int && k != iu as int ==> rows_of(inc@)[k] == rows_of(
                            inc0,
                        )[k],
                    edges@ == induced_row_edges(self, vertices@, row0.take(t as int), acc0),
                    forall|j: int|
                        0 <= j < edges@.len() ==> self.valid_edge(#[trigger] edges@[j]),
                    forall|j1: int, j2: int|
                        0 <= j1 < j2 < edges@.len() ==> G::eindex(#[trigger] edges@[j1])
                            != G::eindex(#[trigger] edges@[j2]),
                    forall|j: int|
                        0 <= j < edges@.len() ==> vertices@.contains(
                            self.src(#[trigger] edges@[j]),
                        ) && vertices@.contains(self.tgt(edges@[j])),
                    forall|q: int|
                        0 <= q < edom as int ==> (eseen@[q] <==> exists|j: int|
                            0 <= j < edges@.len() && G::eindex(#[trigger] edges@[j]) == q),
                    forall|k: int, t2: int|
                        #![trigger rows_of(inc@)[k][t2]]
                        0 <= k < dom as int && 0 <= t2 < rows_of(inc@)[k].len() ==> entry_ok(
                            self,
                            vertices@,
                            edges@,
                            rows_of(inc@)[k][t2],
                            k,
                        ),
                decreases row0.len() - t,
            {
                let e = inc_u[t];
                let ghost rowpre = row0.take(t as int);
                let ghost edges_pre = edges@;
                let ghost incpre = inc@;
                proof {
                    assert(row0[t as int] == e);
                    self.lemma_inc_list(u);
                    self.lemma_edge_laws(e);
                    self.lemma_vindex(self.tgt(e), self.tgt(e));
                    self.lemma_eindex(e, e);
                    assert(self.src(e) == u);
                }
                let w = self.target(e);
                let kw = G::vertex_index(w);
                if *marks.get(kw) {
                    proof {
                        let q = choose|q: int|
                            0 <= q < vertices@.len() && G::vindex(#[trigger] vertices@[q])
                                == kw as int;
                        self.lemma_vindex(vertices@[q], w);
                        assert(vertices@[q] == w);
                        assert(vertices@.contains(w));
                        assert(vertices@[i as int] == u);
                        assert(vertices@.contains(u));
                    }
                    inc.push_at(iu, e);
                    let ke = G::edge_index(e);
                    if !*eseen.get(ke) {
                        proof {
                            if canon_contains::<G>(edges@, e) {
                                let j = choose|j: int|
                                    0 <= j < edges@.len() && G::eindex(#[trigger] edges@[j])
                                        == G::eindex(e);
                                assert(eseen@[ke as int]);
                                assert(false);
                            }
                        }
                        let ghost preseen = eseen@;
                        eseen.set(ke, true);
                        edges.push(e);
                        proof {
                            assert(edges@[edges@.len() - 1] == e);
                            assert forall|q: int| 0 <= q < edom as int implies (eseen@[q]
                                <==> exists|j: int|
                                0 <= j < edges@.len() && G::eindex(#[trigger] edges@[j])
                                    == q) by {
                                if q == ke as int {
                                    assert(G::eindex(edges@[edges@.len() - 1]) == q);
                                } else {
                                    assert(eseen@[q] == preseen[q]);
                                    if preseen[q] {
                                        let j = choose|j: int|
                                            0 <= j < edges_pre.len() && G::eindex(
                                                #[trigger] edges_pre[j],
                                            ) == q;
                                        assert(G::eindex(edges@[j]) == q);
                                    } else {
                                        assert forall|j: int|
                                            0 <= j < edges@.len() implies G::eindex(
                                            #[trigger] edges@[j],
                                        ) != q by {
                                            if j < edges_pre.len() {
                                                assert(edges@[j] == edges_pre[j]);
                                            }
                                        }
                                    }
                                }
                            }
                        }
                    } else {
                        proof {
                            let j = choose|j: int|
                                0 <= j < edges@.len() && G::eindex(#[trigger] edges@[j])
                                    == ke as int;
                            assert(canon_contains::<G>(edges@, e));
                        }
                    }
                } else {
                    proof {
                        if vertices@.contains(w) {
                            let q = choose|q: int|
                                0 <= q < vertices@.len() && vertices@[q] == w;
                            assert(G::vindex(vertices@[q]) == kw as int);
                            assert(false);
                        }
                    }
                }
                t = t + 1;
                proof {
                    let curr = row0.take(t as int);
                    assert(curr.drop_last() =~= rowpre);
                    assert(curr.last() == e);
                    assert(rows_of(inc@)[iu as int] =~= kept_edges(self, vertices@, curr));
                    assert(edges@ =~= induced_row_edges(self, vertices@, curr, acc0));
                    assert forall|k: int, t2: int|
                        #![trigger rows_of(inc@)[k][t2]]
                        0 <= k < dom as int && 0 <= t2 < rows_of(inc@)[k].len() implies entry_ok(
                        self,
                        vertices@,
                        edges@,
                        rows_of(inc@)[k][t2],
                        k,
                    ) by {
                        let x = rows_of(inc@)[k][t2];
                        let oldlen = rows_of(incpre)[k].len();
                        if k == iu as int && t2 >= oldlen {
                            assert(x == e);
                            assert(vertices@.contains(self.tgt(e)));
                            assert(canon_contains::<G>(edges@, e));
                        } else {
                            assert(x == rows_of(incpre)[k][t2]);
                            assert(entry_ok(self, vertices@, edges_pre, x, k));
                            lemma_canon_mono::<G>(edges_pre, edges@, x);
                        }
                    }
                }
            }
            i = i + 1;
            proof {
                assert(row0.take(row0.len() as int) =~= row0);
                assert(inc_u@.len() == row0.len());
                assert(rows_of(inc@)[iu as int] == kept_edges(self, vertices@, row0));
                assert(edges@ == induced_row_edges(self, vertices@, row0, acc0));
                assert(vertices@[i - 1] == u);
                assert(G::vindex(vertices@[i - 1]) == iu as int);
                assert(edges@ == induced_edges_upto(self, vertices@, i as int));
                assert forall|tq: int| 0 <= tq < i implies rows_of(inc@)[G::vindex(
                    #[trigger] vertices@[tq],
                )] == kept_edges(self, vertices@, self.inc_list(vertices@[tq])) by {
                    if tq < i - 1 {
                        self.lemma_vindex(vertices@[tq], u);
                        assert(G::vindex(vertices@[tq]) != iu as int);
                        assert(rows_of(inc@)[G::vindex(vertices@[tq])] == rows_of(
                            inc0,
                        )[G::vindex(vertices@[tq])]);
                    }
                }
                assert forall|k: int|
                    0 <= k < dom as int && !(exists|tq: int|
                        0 <= tq < i && G::vindex(#[trigger] vertices@[tq]) == k) implies rows_of(
                    inc@,
                )[k] == Seq::<G::Edge>::empty() by {
                    assert(k != iu as int);
                    assert(rows_of(inc@)[k] == rows_of(inc0)[k]);
                    assert(!(exists|tq: int|
                        0 <= tq < i - 1 && G::vindex(#[trigger] vertices@[tq]) == k));
                }
            }
        }
        proof {
            assert(vertices@.take(vertices@.len() as int) =~= vertices@);
        }
        let s = Subgraph { g: self, vertices, edges, inc };
        proof {
            assert forall|k: int, t2: int|
                0 <= k < s.inc@.len() && 0 <= t2 < s.row(k).len() implies s.row_ok(
                #[trigger] s.row(k)[t2],
                k,
            ) by {
                assert(s.row(k) == rows_of(s.inc@)[k]);
                assert(entry_ok(s.base(), s.vs(), s.es(), s.row(k)[t2], k));
            }
            assert forall|t2: int| 0 <= t2 < s.vs().len() implies s.row(G::vindex(
                #[trigger] s.vs()[t2],
            )) == kept_edges(s.base(), s.vs(), s.base().inc_list(s.vs()[t2])) by {
                s.base().lemma_vindex(s.vs()[t2], s.vs()[t2]);
                assert(s.row(G::vindex(s.vs()[t2])) == rows_of(s.inc@)[G::vindex(s.vs()[t2])]);
            }
            assert forall|t2: int| 0 <= t2 < vertices@.len() implies s.row(G::vindex(
                #[trigger] vertices@[t2],
            )) == kept_edges(s.base(), vertices@, s.base().inc_list(vertices@[t2])) by {
                assert(s.vs() == vertices@);
                assert(s.vs()[t2] == vertices@[t2]);
                assert(s.row(G::vindex(s.vs()[t2])) == kept_edges(
                    s.base(),
                    s.vs(),
                    s.base().inc_list(s.vs()[t2]),
                ));
            }
            assert forall|e: G::Edge|
                #[trigger] canon_contains::<G>(s.es(), e) && s.base().valid_edge(e)
                    && s.vs().contains(s.base().src(e)) implies s.row(
                G::vindex(s.base().src(e)),
            ).contains(e) by {
                let j = choose|j: int|
                    0 <= j < s.es().len() && G::eindex(#[trigger] s.es()[j]) == G::eindex(e);
                let d = s.es()[j];
                s.base().lemma_eindex(d, e);
                assert(s.vs().contains(s.base().tgt(d)));
                if d == e {
                    assert(s.vs().contains(s.base().tgt(e)));
                } else {
                    assert(s.base().has_reverse(e) && d == s.base().rev(e));
                    s.base().lemma_edge_laws(e);
                    assert(s.base().src(d) == s.base().tgt(e));
                    assert(s.vs().contains(s.base().src(d)));
                    assert(s.vs().contains(s.base().tgt(e)));
                }
                let w = s.base().src(e);
                let q = choose|q: int| 0 <= q < s.vs().len() && s.vs()[q] == w;
                assert(s.base().valid_vertex(s.vs()[q]));
                s.base().lemma_inc_list(w);
                assert(s.base().inc_list(w).contains(e));
                let t2 = choose|t2: int|
                    0 <= t2 < s.base().inc_list(w).len() && s.base().inc_list(w)[t2] == e;
                lemma_kept_edges_complete(s.base(), s.vs(), s.base().inc_list(w));
                assert(s.vs().contains(s.base().tgt(s.base().inc_list(w)[t2])));
                assert(kept_edges(s.base(), s.vs(), s.base().inc_list(w)).contains(e));
                assert(s.row(G::vindex(w)) == kept_edges(
                    s.base(),
                    s.vs(),
                    s.base().inc_list(w),
                ));
            }
            assert(s.sub_wf());
            assert forall|k: int|
                0 <= k < s.base().vertex_domain() && !(exists|t2: int|
                    0 <= t2 < s.vs().len() && G::vindex(#[trigger] s.vs()[t2]) == k) implies s.row(
                k,
            ) == Seq::<G::Edge>::empty() by {
                assert(s.row(k) == rows_of(s.inc@)[k]);
                assert(s.vs() == vertices@);
                if exists|tq: int|
                    0 <= tq < vertices@.len() && G::vindex(#[trigger] vertices@[tq]) == k {
                    let tq = choose|tq: int|
                        0 <= tq < vertices@.len() && G::vindex(#[trigger] vertices@[tq]) == k;
                    assert(G::vindex(s.vs()[tq]) == k);
                    assert(false);
                }
            }
        }
        s
    }
}

impl<G: Graph> EdgeIndex for Subgraph<G> {
    open spec fn edge_domain(&self) -> int {
        self.base().edge_domain()
    }

    open spec fn eindex(e: G::Edge) -> int {
        G::eindex(e)
    }

    proof fn lemma_eindex(&self, d: G::Edge, e: G::Edge) {
        self.base().lemma_eindex(d, e);
    }

    fn edge_index(e: G::Edge) -> (i: usize) {
        G::edge_index(e)
    }

    fn edge_domain_size(&self) -> (n: usize) {
        self.g.edge_domain_size()
    }
}

} // verus!
