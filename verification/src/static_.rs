//! The compact static graph: an immutable, array-backed representation with
//! numeric-width-parameterized identifiers and constant-time edge reversal.
//!
//! Canonical edge `i` stores its endpoints at `endvertices[2*i]` and
//! `endvertices[2*i + 1]`. The identifier `2*i + 1` is the forward-facing
//! traversal of the edge and `2*i` the reverse-facing one, so reversing an
//! identifier is one bit flip and the canonical index is one shift.

use vstd::prelude::*;

use crate::graph::Adjacency;
use crate::graph::EdgeByEnds;
use crate::graph::EdgeIndex;
use crate::graph::EdgeList;
use crate::graph::GraphError;
use crate::graph::Incidence;
use crate::graph::OptionalItem;
use crate::graph::Orientation;
use crate::graph::Undirected;
use crate::graph::VertexIndex;
use crate::graph::VertexList;
use crate::graph::WithEdge;
use crate::graph::WithVertex;
use crate::sample::random_index;
use core::marker::PhantomData;

verus! {

/// An identifier width: an unsigned integer type whose maximum value is
/// reserved as the "no id" sentinel, so a count is representable exactly
/// when it is below the maximum.
pub trait Num: Copy + Sized {
    /// The maximum representable value, reserved as the sentinel.
    spec fn max_int() -> int;

    /// The numeric value.
    spec fn as_int(self) -> int;

    /// The value with the given numeric value.
    spec fn from_int(v: int) -> Self;

    proof fn lemma_num(self)
        ensures
            0 <= self.as_int() <= Self::max_int(),
    ;

    proof fn lemma_max_bound()
        ensures
            Self::max_int() <= usize::MAX as int,
    ;

    proof fn lemma_from_to(v: int)
        requires
            0 <= v <= Self::max_int(),
        ensures
            Self::from_int(v).as_int() == v,
    ;

    proof fn lemma_injective(self, other: Self)
        requires
            self.as_int() == other.as_int(),
        ensures
            self == other,
    ;

    fn to_usize(self) -> (r: usize)
        ensures
            r as int == self.as_int(),
    ;

    fn from_usize(v: usize) -> (r: Self)
        requires
            v as int <= Self::max_int(),
        ensures
            r == Self::from_int(v as int),
            r.as_int() == v as int,
    ;

    /// Whether a count of `v` fits the width: `v` is strictly below the
    /// sentinel.
    fn is_valid(v: usize) -> (r: bool)
        ensures
            r == ((v as int) < Self::max_int()),
    ;

    /// The sentinel value.
    fn max() -> (r: Self)
        ensures
            r.as_int() == Self::max_int(),
    ;
}

impl Num for u8 {
    open spec fn max_int() -> int {
        u8::MAX as int
    }

    open spec fn as_int(self) -> int {
        self as int
    }

    open spec fn from_int(v: int) -> u8 {
        v as u8
    }

    proof fn lemma_num(self) {
    }

    proof fn lemma_max_bound() {
    }

    proof fn lemma_from_to(v: int) {
    }

    proof fn lemma_injective(self, other: Self) {
    }

    fn to_usize(self) -> usize {
        self as usize
    }

    fn from_usize(v: usize) -> u8 {
        v as u8
    }

    fn is_valid(v: usize) -> bool {
        (v as u64) < (u8::MAX as u64)
    }

    fn max() -> u8 {
        u8::MAX
    }
}

impl Num for u16 {
    open spec fn max_int() -> int {
        u16::MAX as int
    }

    open spec fn as_int(self) -> int {
        self as int
    }

    open spec fn from_int(v: int) -> u16 {
        v as u16
    }

    proof fn lemma_num(self) {
    }

    proof fn lemma_max_bound() {
    }

    proof fn lemma_from_to(v: int) {
    }

    proof fn lemma_injective(self, other: Self) {
    }

    fn to_usize(self) -> usize {
        self as usize
    }

    fn from_usize(v: usize) -> u16 {
        v as u16
    }

    fn is_valid(v: usize) -> bool {
        (v as u64) < (u16::MAX as u64)
    }

    fn max() -> u16 {
        u16::MAX
    }
}

impl Num for u32 {
    open spec fn max_int() -> int {
        u32::MAX as int
    }

    open spec fn as_int(self) -> int {
        self as int
    }

    open spec fn from_int(v: int) -> u32 {
        v as u32
    }

    proof fn lemma_num(self) {
    }

    proof fn lemma_max_bound() {
    }

    proof fn lemma_from_to(v: int) {
    }

    proof fn lemma_injective(self, other: Self) {
    }

    fn to_usize(self) -> usize {
        self as usize
    }

    fn from_usize(v: usize) -> u32 {
        v as u32
    }

    fn is_valid(v: usize) -> bool {
        (v as u64) < (u32::MAX as u64)
    }

    fn max() -> u32 {
        u32::MAX
    }
}

impl Num for usize {
    open spec fn max_int() -> int {
        usize::MAX as int
    }

    open spec fn as_int(self) -> int {
        self as int
    }

    open spec fn from_int(v: int) -> usize {
        v as usize
    }

    proof fn lemma_num(self) {
    }

    proof fn lemma_max_bound() {
    }

    proof fn lemma_from_to(v: int) {
    }

    proof fn lemma_injective(self, other: Self) {
    }

    fn to_usize(self) -> usize {
        self
    }

    fn from_usize(v: usize) -> usize {
        v
    }

    fn is_valid(v: usize) -> bool {
        v < usize::MAX
    }

    fn max() -> usize {
        usize::MAX
    }
}

/// A vertex of the static graph is its dense index, in the chosen width.
pub type StaticVertex<N> = N;

/// An edge identifier of the static graph: the raw value `2*i + d`, where
/// `i` is the canonical edge index and `d` the facing direction.
#[derive(Clone, Copy, Debug)]
pub struct StaticEdge<N: Num>(N);

/// The raw identifier of the traversal of edge `id` in the other direction.
pub open spec fn flip(id: int) -> int {
    if id % 2 == 0 {
        id + 1
    } else {
        id - 1
    }
}

impl<N: Num> StaticEdge<N> {
    /// The raw identifier value.
    pub closed spec fn eid(self) -> int {
        self.0.as_int()
    }

    /// The canonical edge index: raw identifier with the direction bit
    /// shifted out.
    pub open spec fn index_spec(self) -> int {
        self.eid() / 2
    }

    /// The forward-facing identifier of canonical edge `i`.
    pub closed spec fn fwd(i: int) -> Self {
        StaticEdge(N::from_int(2 * i + 1))
    }

    /// The reverse-facing identifier of canonical edge `i`.
    pub closed spec fn bwd(i: int) -> Self {
        StaticEdge(N::from_int(2 * i))
    }

    /// The identifier of the same edge facing the other endpoint.
    pub closed spec fn rev_spec(self) -> Self {
        StaticEdge(N::from_int(flip(self.eid())))
    }

    pub proof fn lemma_fwd(i: int)
        requires
            0 <= 2 * i + 1 <= N::max_int(),
        ensures
            Self::fwd(i).eid() == 2 * i + 1,
            Self::bwd(i).eid() == 2 * i,
    {
        N::lemma_from_to(2 * i + 1);
        N::lemma_from_to(2 * i);
    }

    pub proof fn lemma_rev(self)
        requires
            0 <= flip(self.eid()) <= N::max_int(),
        ensures
            self.rev_spec().eid() == flip(self.eid()),
    {
        N::lemma_from_to(flip(self.eid()));
    }

    pub proof fn lemma_eid_bounds(self)
        ensures
            0 <= self.eid() <= N::max_int(),
    {
        self.0.lemma_num();
    }

    pub proof fn lemma_eid_injective(self, other: Self)
        requires
            self.eid() == other.eid(),
        ensures
            self == other,
    {
        self.0.lemma_injective(other.0);
    }

    pub fn new(i: usize) -> (e: Self)
        requires
            2 * i + 1 <= N::max_int(),
        ensures
            e == Self::fwd(i as int),
            e.eid() == 2 * i + 1,
    {
        proof {
            N::lemma_max_bound();
            Self::lemma_fwd(i as int);
        }
        StaticEdge(N::from_usize(2 * i + 1))
    }

    pub fn new_reverse(i: usize) -> (e: Self)
        requires
            2 * i + 1 <= N::max_int(),
        ensures
            e == Self::bwd(i as int),
            e.eid() == 2 * i,
    {
        proof {
            N::lemma_max_bound();
            Self::lemma_fwd(i as int);
        }
        StaticEdge(N::from_usize(2 * i))
    }

    /// The same edge, traversed in the opposite direction: one bit flip on
    /// the raw identifier.
    pub fn reverse(self) -> (r: Self)
        requires
            0 <= flip(self.eid()) <= N::max_int(),
        ensures
            r == self.rev_spec(),
            r.eid() == flip(self.eid()),
    {
        let id = self.0.to_usize();
        proof {
            self.0.lemma_num();
            N::lemma_max_bound();
            lemma_xor_one(id);
            self.lemma_rev();
            N::lemma_from_to(flip(self.eid()));
        }
        StaticEdge(N::from_usize(id ^ 1))
    }

    /// The canonical index of the edge this identifier traverses.
    pub fn to_index(self) -> (r: usize)
        ensures
            r == self.index_spec(),
    {
        proof {
            self.0.lemma_num();
        }
        self.0.to_usize() / 2
    }
}

/// Flipping the lowest bit of an identifier moves between an edge's two
/// traversal directions.
proof fn lemma_xor_one(x: usize)
    ensures
        x % 2 == 0 ==> x ^ 1 == x + 1,
        x % 2 == 1 ==> x ^ 1 == x - 1,
{
    assert(x % 2 == 0 ==> x ^ 1 == x + 1) by (bit_vector);
    assert(x % 2 == 1 ==> x ^ 1 == x - 1) by (bit_vector);
}

impl<N: Num> PartialEq for StaticEdge<N> {
    /// Identifiers sharing a canonical index are the same edge, traversed in
    /// either direction.
    fn eq(&self, other: &Self) -> bool {
        self.to_index() == other.to_index()
    }
}

impl<N: Num> vstd::std_specs::cmp::PartialEqSpecImpl for StaticEdge<N> {
    open spec fn obeys_eq_spec() -> bool {
        true
    }

    open spec fn eq_spec(&self, other: &Self) -> bool {
        self.index_spec() == other.index_spec()
    }
}

impl<N: Num> PartialOrd for StaticEdge<N> {
    /// Identifiers order by canonical index, so an edge and its reverse
    /// compare equal.
    fn partial_cmp(&self, other: &Self) -> Option<core::cmp::Ordering> {
        let a = self.to_index();
        let b = other.to_index();
        if a < b {
            Some(core::cmp::Ordering::Less)
        } else if a > b {
            Some(core::cmp::Ordering::Greater)
        } else {
            Some(core::cmp::Ordering::Equal)
        }
    }
}

impl<N: Num> vstd::std_specs::cmp::PartialOrdSpecImpl for StaticEdge<N> {
    open spec fn obeys_partial_cmp_spec() -> bool {
        true
    }

    open spec fn partial_cmp_spec(&self, other: &Self) -> Option<core::cmp::Ordering> {
        if self.index_spec() < other.index_spec() {
            Some(core::cmp::Ordering::Less)
        } else if self.index_spec() > other.index_spec() {
            Some(core::cmp::Ordering::Greater)
        } else {
            Some(core::cmp::Ordering::Equal)
        }
    }
}

/// A width's sentinel packs an optional vertex into the width itself.
impl<N: Num> OptionalItem<N> for N {
    closed spec fn opt_view(self) -> Option<N> {
        if self.as_int() == N::max_int() {
            None
        } else {
            Some(self)
        }
    }

    closed spec fn packable(x: N) -> bool {
        x.as_int() < N::max_int()
    }

    fn new_none() -> Self {
        N::max()
    }

    fn new_some(x: N) -> Self {
        x
    }

    fn is_none(&self) -> bool {
        proof {
            if self.as_int() != N::max_int() {
                self.lemma_num();
            }
        }
        self.to_usize() == N::max().to_usize()
    }

    fn is_some(&self) -> bool {
        proof {
            if self.as_int() != N::max_int() {
                self.lemma_num();
            }
        }
        self.to_usize() != N::max().to_usize()
    }

    fn to_option(&self) -> Option<N> {
        proof {
            if self.as_int() != N::max_int() {
                self.lemma_num();
            }
        }
        if self.to_usize() == N::max().to_usize() {
            None
        } else {
            Some(*self)
        }
    }

    fn eq_some(&self, x: N) -> bool {
        proof {
            if self.as_int() == x.as_int() {
                self.lemma_injective(x);
            }
        }
        self.to_usize() == x.to_usize()
    }
}

/// A width's sentinel packs an optional edge identifier into the width.
impl<N: Num> OptionalItem<StaticEdge<N>> for N {
    closed spec fn opt_view(self) -> Option<StaticEdge<N>> {
        if self.as_int() == N::max_int() {
            None
        } else {
            Some(StaticEdge(self))
        }
    }

    closed spec fn packable(x: StaticEdge<N>) -> bool {
        x.eid() < N::max_int()
    }

    fn new_none() -> Self {
        N::max()
    }

    fn new_some(x: StaticEdge<N>) -> Self {
        x.0
    }

    fn is_none(&self) -> bool {
        proof {
            if self.as_int() != N::max_int() {
                self.lemma_num();
            }
        }
        self.to_usize() == N::max().to_usize()
    }

    fn is_some(&self) -> bool {
        proof {
            if self.as_int() != N::max_int() {
                self.lemma_num();
            }
        }
        self.to_usize() != N::max().to_usize()
    }

    fn to_option(&self) -> Option<StaticEdge<N>> {
        proof {
            if self.as_int() != N::max_int() {
                self.lemma_num();
            }
        }
        if self.to_usize() == N::max().to_usize() {
            None
        } else {
            Some(StaticEdge(*self))
        }
    }

    fn eq_some(&self, x: StaticEdge<N>) -> bool {
        proof {
            if self.as_int() == x.eid() {
                self.lemma_injective(x.0);
            }
            if self.as_int() != N::max_int() {
                self.lemma_num();
            }
        }
        self.to_usize() == x.0.to_usize()
    }
}

/// The incidence identifiers of vertex index `k` among the first `mm`
/// canonical edges of the flat endpoint sequence `ev`: for each edge in
/// order, first the forward identifier if its first endpoint is `k`, then
/// the reverse identifier if its second endpoint is `k`.
pub open spec fn inc_ids(ev: Seq<int>, mm: int, k: int) -> Seq<int>
    decreases mm,
{
    if mm <= 0 {
        Seq::empty()
    } else {
        let i = mm - 1;
        let p = inc_ids(ev, i, k);
        let p1 = if ev[2 * i] == k {
            p.push(2 * i + 1)
        } else {
            p
        };
        if ev[2 * i + 1] == k {
            p1.push(2 * i)
        } else {
            p1
        }
    }
}

/// Every identifier in an incidence sequence is an id of one of the first
/// `mm` edges and faces away from vertex `k`.
proof fn lemma_inc_ids_elems(ev: Seq<int>, mm: int, k: int)
    ensures
        forall|t: int|
            0 <= t < inc_ids(ev, mm, k).len() ==> {
                let id = #[trigger] inc_ids(ev, mm, k)[t];
                &&& 0 <= id < 2 * mm
                &&& ev[flip(id)] == k
            },
    decreases mm,
{
    if mm > 0 {
        let i = mm - 1;
        lemma_inc_ids_elems(ev, i, k);
        assert((2 * i) % 2 == 0 && (2 * i + 1) % 2 == 1) by (nonlinear_arith);
        assert(flip(2 * i) == 2 * i + 1);
        assert(flip(2 * i + 1) == 2 * i);
        let p = inc_ids(ev, i, k);
        let p1 = if ev[2 * i] == k {
            p.push(2 * i + 1)
        } else {
            p
        };
        let p2 = if ev[2 * i + 1] == k {
            p1.push(2 * i)
        } else {
            p1
        };
        assert(inc_ids(ev, mm, k) == p2);
        assert forall|t: int| 0 <= t < p2.len() implies {
            let id = #[trigger] p2[t];
            &&& 0 <= id < 2 * mm
            &&& ev[flip(id)] == k
        } by {
            if t < p.len() {
                assert(p2[t] == p[t]);
                assert(0 <= p[t] < 2 * i && ev[flip(p[t])] == k);
            } else if t < p1.len() {
                assert(p2[t] == 2 * i + 1);
            } else {
                assert(p2[t] == 2 * i);
            }
        }
    }
}

/// Conversely, every identifier of one of the first `mm` edges that faces
/// away from vertex `k` stands in `k`'s incidence sequence.
proof fn lemma_inc_ids_complete(ev: Seq<int>, mm: int, k: int)
    ensures
        forall|id: int|
            0 <= id < 2 * mm && ev[flip(id)] == k ==> inc_ids(ev, mm, k).contains(id),
    decreases mm,
{
    if mm > 0 {
        let i = mm - 1;
        lemma_inc_ids_complete(ev, i, k);
        assert((2 * i) % 2 == 0 && (2 * i + 1) % 2 == 1) by (nonlinear_arith);
        assert(flip(2 * i) == 2 * i + 1);
        assert(flip(2 * i + 1) == 2 * i);
        let p = inc_ids(ev, i, k);
        let p1 = if ev[2 * i] == k {
            p.push(2 * i + 1)
        } else {
            p
        };
        let p2 = if ev[2 * i + 1] == k {
            p1.push(2 * i)
        } else {
            p1
        };
        assert(inc_ids(ev, mm, k) == p2);
        assert forall|id: int| 0 <= id < 2 * mm && ev[flip(id)] == k implies inc_ids(
            ev,
            mm,
            k,
        ).contains(id) by {
            if id < 2 * i {
                assert(p.contains(id));
                let t = choose|t: int| 0 <= t < p.len() && p[t] == id;
                assert(p2[t] == id);
            } else if id == 2 * i + 1 {
                assert(ev[2 * i] == k);
                assert(p1[p.len() as int] == id);
                if ev[2 * i + 1] == k {
                    assert(p2[p.len() as int] == id);
                } else {
                    assert(p2 == p1);
                }
            } else {
                assert(id == 2 * i);
                assert(ev[2 * i + 1] == k);
                assert(p2[p2.len() - 1] == id);
            }
        }
    }
}

/// The incidence sequence looks only at the first `2*mm` endpoint slots.
proof fn lemma_inc_ids_prefix(ev1: Seq<int>, ev2: Seq<int>, mm: int, k: int)
    requires
        forall|j: int| 0 <= j < 2 * mm ==> ev1[j] == ev2[j],
    ensures
        inc_ids(ev1, mm, k) == inc_ids(ev2, mm, k),
    decreases mm,
{
    if mm > 0 {
        lemma_inc_ids_prefix(ev1, ev2, mm - 1, k);
    }
}

/// Flipping an identifier's direction bit stays inside an even-length
/// identifier range and is an involution.
proof fn lemma_flip_in_range(id: int, len: int)
    requires
        0 <= id < len,
        len % 2 == 0,
    ensures
        0 <= flip(id) < len,
        flip(flip(id)) == id,
{
    if id % 2 == 0 {
        assert(id != len - 1);
        assert((id + 1) % 2 == 1);
    } else {
        assert((id - 1) % 2 == 0);
    }
}

/// A concrete, immutable, array-backed graph with compact integer ids of
/// the chosen widths `V` (vertices) and `E` (edge identifiers).
pub struct StaticGraphGeneric<V: Num, E: Num> {
    num_vertices: usize,
    endvertices: Vec<StaticVertex<V>>,
    inc: Vec<Vec<StaticEdge<E>>>,
}

/// The default static graph: 32-bit vertex ids, machine-word edge ids.
pub type StaticGraph = StaticGraphGeneric<u32, usize>;

impl<V: Num, E: Num> StaticGraphGeneric<V, E> {
    /// Vertex count.
    pub closed spec fn n(&self) -> int {
        self.num_vertices as int
    }

    /// The flat endpoint sequence, as integers.
    pub closed spec fn ev(&self) -> Seq<int> {
        self.endvertices@.map_values(|x: V| x.as_int())
    }

    /// Canonical edge count.
    pub open spec fn m(&self) -> int {
        self.ev().len() as int / 2
    }

    /// The stored endpoint at flat position `j`.
    pub closed spec fn vertex_at(&self, j: int) -> V {
        self.endvertices@[j]
    }

    /// The stored incidence row of vertex index `k`.
    pub closed spec fn row(&self, k: int) -> Seq<StaticEdge<E>> {
        self.inc@[k]@
    }

    /// The raw identifiers of the stored incidence row of vertex index `k`.
    pub open spec fn row_ids(&self, k: int) -> Seq<int> {
        self.row(k).map_values(|e: StaticEdge<E>| e.eid())
    }

    /// The representation invariant: the vertex count fits the vertex
    /// width, the endpoint sequence pairs up and stays inside the edge
    /// width and the vertex range, and each incidence row holds exactly the
    /// identifiers facing away from its vertex, in insertion order.
    pub closed spec fn wf(&self) -> bool {
        &&& 0 <= self.n() < V::max_int()
        &&& self.ev().len() % 2 == 0
        &&& self.ev().len() < E::max_int()
        &&& (forall|j: int| 0 <= j < self.ev().len() ==> 0 <= #[trigger] self.ev()[j] < self.n())
        &&& self.inc@.len() == self.n()
        &&& (forall|k: int|
            0 <= k < self.n() ==> #[trigger] self.row_ids(k) == inc_ids(self.ev(), self.m(), k))
    }

    /// The flat endpoint array: the endpoints of canonical edge `i` stand at
    /// positions `2*i` (reverse-facing) and `2*i + 1` (forward-facing).
    pub fn endvertices(&self) -> (r: &Vec<V>)
        ensures
            r@.map_values(|x: V| x.as_int()) == self.ev(),
    {
        &self.endvertices
    }

    /// The representation facts of a well-formed graph, over the public
    /// model: the endpoint sequence pairs up, stays inside the identifier
    /// widths and the vertex range, each stored endpoint carries the integer
    /// the model shows, and each incidence row holds exactly the identifiers
    /// that `inc_ids` derives from the endpoint sequence.
    pub proof fn lemma_model(&self)
        requires
            self.wf(),
        ensures
            self.ev().len() % 2 == 0,
            self.ev().len() < E::max_int(),
            0 <= self.n() < V::max_int(),
            2 * self.m() == self.ev().len(),
            forall|j: int| 0 <= j < self.ev().len() ==> 0 <= #[trigger] self.ev()[j] < self.n(),
            forall|j: int|
                0 <= j < self.ev().len() ==> (#[trigger] self.vertex_at(j)).as_int()
                    == self.ev()[j],
            forall|k: int|
                0 <= k < self.n() ==> #[trigger] self.row_ids(k) == inc_ids(
                    self.ev(),
                    self.m(),
                    k,
                ),
    {
        assert(2 * (self.ev().len() as int / 2) == self.ev().len() as int);
        assert forall|j: int| 0 <= j < self.ev().len() implies (#[trigger] self.vertex_at(
            j,
        )).as_int() == self.ev()[j] by {
            assert(self.ev()[j] == self.endvertices@[j].as_int());
        }
    }

    /// A uniformly chosen vertex: each of the `n` vertices with probability
    /// `1/n`.
    pub fn choose_vertex(&self) -> (v: V)
        requires
            self.wf(),
            self.n() > 0,
        ensures
            self.valid_vertex(v),
    {
        let i = random_index(self.num_vertices);
        proof {
            V::lemma_from_to(i as int);
        }
        V::from_usize(i)
    }

    /// A uniformly chosen edge: each of the `m` canonical edges with
    /// probability `1/m`, facing forward.
    pub fn choose_edge(&self) -> (e: StaticEdge<E>)
        requires
            self.wf(),
            self.m() > 0,
        ensures
            self.valid_edge(e),
            e.eid() % 2 == 1,
    {
        let i = random_index(self.endvertices.len() / 2);
        proof {
            assert((2 * (i as int) + 1) % 2 == 1) by (nonlinear_arith);
        }
        StaticEdge::new(i)
    }

    /// A uniformly chosen edge incident to `v`: each of its `degree(v)`
    /// incident identifiers with equal probability.
    pub fn choose_inc_edge(&self, v: V) -> (e: StaticEdge<E>)
        requires
            self.wf(),
            self.valid_vertex(v),
            self.inc_list(v).len() > 0,
        ensures
            self.inc_list(v).contains(e),
    {
        proof {
            v.lemma_num();
        }
        let k = v.to_usize();
        let i = random_index(self.inc[k].len());
        let e = self.inc[k][i];
        proof {
            assert(self.inc_list(v)[i as int] == e);
        }
        e
    }
}

impl<V: Num, E: Num> WithVertex for StaticGraphGeneric<V, E> {
    type Vertex = StaticVertex<V>;

    type OptionVertex = V;

    open spec fn inv(&self) -> bool {
        self.wf()
    }

    open spec fn valid_vertex(&self, v: V) -> bool {
        0 <= v.as_int() < self.n()
    }

    fn vertex_eq(&self, u: V, v: V) -> bool {
        proof {
            u.lemma_num();
            v.lemma_num();
            if u.as_int() == v.as_int() {
                u.lemma_injective(v);
            }
        }
        u.to_usize() == v.to_usize()
    }

    proof fn lemma_vertex_packable(&self, v: V) {
    }
}

impl<V: Num, E: Num> WithEdge for StaticGraphGeneric<V, E> {
    type Kind = Undirected;

    type Edge = StaticEdge<E>;

    type OptionEdge = E;

    open spec fn valid_edge(&self, e: StaticEdge<E>) -> bool {
        0 <= e.eid() < self.ev().len()
    }

    open spec fn src(&self, e: StaticEdge<E>) -> V {
        self.vertex_at(flip(e.eid()))
    }

    open spec fn tgt(&self, e: StaticEdge<E>) -> V {
        self.vertex_at(e.eid())
    }

    open spec fn has_reverse(&self, e: StaticEdge<E>) -> bool {
        true
    }

    open spec fn rev(&self, e: StaticEdge<E>) -> StaticEdge<E> {
        e.rev_spec()
    }

    open spec fn edge_orientation(&self, e: StaticEdge<E>) -> Orientation {
        Orientation::Undirected
    }

    proof fn lemma_edge_laws(&self, e: StaticEdge<E>) {
        let id = e.eid();
        let len = self.ev().len() as int;
        lemma_flip_in_range(id, len);
        assert(self.ev()[flip(id)] == self.vertex_at(flip(id)).as_int());
        assert(self.ev()[id] == self.vertex_at(id).as_int());
        assert(e.eid() < E::max_int());
        assert(<E as OptionalItem<StaticEdge<E>>>::packable(e));
        e.lemma_rev();
        let r = e.rev_spec();
        assert(r.eid() == flip(id));
        assert(0 <= flip(r.eid()) <= E::max_int());
        r.lemma_rev();
        assert(r.rev_spec().eid() == id);
        r.rev_spec().lemma_eid_injective(e);
        assert(self.rev(self.rev(e)) == e);
        assert(self.src(r) == self.tgt(e));
        assert(self.tgt(r) == self.src(e));
        assert(self.valid_edge(r));
        assert(self.has_reverse(e) ==> {
            &&& self.valid_edge(self.rev(e))
            &&& self.has_reverse(self.rev(e))
            &&& self.src(self.rev(e)) == self.tgt(e)
            &&& self.tgt(self.rev(e)) == self.src(e)
            &&& self.rev(self.rev(e)) == e
        });
    }

    fn source(&self, e: StaticEdge<E>) -> (v: V)
    {
        let id = e.0.to_usize();
        proof {
            e.lemma_eid_bounds();
            E::lemma_max_bound();
            lemma_flip_in_range(e.eid(), self.ev().len() as int);
            lemma_xor_one(id);
        }
        self.endvertices[id ^ 1]
    }

    fn target(&self, e: StaticEdge<E>) -> (v: V)
    {
        proof {
            e.lemma_eid_bounds();
        }
        self.endvertices[e.0.to_usize()]
    }

    fn orientation(&self, e: StaticEdge<E>) -> Orientation {
        Orientation::Undirected
    }

    fn get_reverse(&self, e: StaticEdge<E>) -> (r: Option<StaticEdge<E>>)
    {
        proof {
            e.lemma_eid_bounds();
            lemma_flip_in_range(e.eid(), self.ev().len() as int);
        }
        Some(e.reverse())
    }
}

impl<V: Num, E: Num> VertexList for StaticGraphGeneric<V, E> {
    open spec fn vertex_list(&self) -> Seq<V> {
        Seq::new(self.n() as nat, |i: int| V::from_int(i))
    }

    proof fn lemma_vertex_list(&self) {
        assert forall|i: int| 0 <= i < self.vertex_list().len() implies self.valid_vertex(
            #[trigger] self.vertex_list()[i],
        ) by {
            V::lemma_from_to(i);
        }
        assert forall|i: int, j: int|
            0 <= i < j < self.vertex_list().len() implies #[trigger] self.vertex_list()[i]
            != #[trigger] self.vertex_list()[j] by {
            V::lemma_from_to(i);
            V::lemma_from_to(j);
        }
        assert forall|v: V| #[trigger] self.valid_vertex(v) implies self.vertex_list().contains(
            v,
        ) by {
            V::lemma_from_to(v.as_int());
            V::from_int(v.as_int()).lemma_injective(v);
            assert(self.vertex_list()[v.as_int()] == v);
        }
    }

    fn vertices(&self) -> (r: Vec<V>) {
        let n = self.num_vertices;
        let mut r: Vec<V> = Vec::with_capacity(n);
        let mut k: usize = 0;
        while k < n
            invariant
                self.wf(),
                n as int == self.n(),
                k <= n,
                r@.len() == k,
                forall|i: int| 0 <= i < k ==> r@[i] == V::from_int(i),
            decreases n - k,
        {
            proof {
                V::lemma_from_to(k as int);
            }
            r.push(V::from_usize(k));
            k = k + 1;
        }
        proof {
            assert(r@ =~= self.vertex_list());
        }
        r
    }

    fn num_vertices(&self) -> (n: usize) {
        self.num_vertices
    }
}

impl<V: Num, E: Num> EdgeList for StaticGraphGeneric<V, E> {
    open spec fn edge_list(&self) -> Seq<StaticEdge<E>> {
        Seq::new(self.m() as nat, |i: int| StaticEdge::fwd(i))
    }

    proof fn lemma_edge_list(&self) {
        assert(2 * (self.ev().len() as int / 2) == self.ev().len() as int);
        assert forall|i: int| 0 <= i < self.edge_list().len() implies self.valid_edge(
            #[trigger] self.edge_list()[i],
        ) by {
            StaticEdge::<E>::lemma_fwd(i);
        }
        assert forall|i: int, j: int|
            0 <= i < j < self.edge_list().len() implies #[trigger] self.edge_list()[i]
            != #[trigger] self.edge_list()[j] by {
            StaticEdge::<E>::lemma_fwd(i);
            StaticEdge::<E>::lemma_fwd(j);
        }
    }

    fn edges(&self) -> (r: Vec<StaticEdge<E>>) {
        proof {
            assert(2 * (self.ev().len() as int / 2) == self.ev().len() as int);
        }
        let n = self.endvertices.len() / 2;
        let mut r: Vec<StaticEdge<E>> = Vec::with_capacity(n);
        let mut k: usize = 0;
        while k < n
            invariant
                self.wf(),
                n as int == self.m(),
                2 * n <= self.ev().len(),
                k <= n,
                r@.len() == k,
                forall|i: int| 0 <= i < k ==> r@[i] == StaticEdge::<E>::fwd(i),
            decreases n - k,
        {
            proof {
                E::lemma_max_bound();
            }
            r.push(StaticEdge::new(k));
            k = k + 1;
        }
        proof {
            assert(r@ =~= self.edge_list());
        }
        r
    }

    fn num_edges(&self) -> (n: usize) {
        self.endvertices.len() / 2
    }
}

impl<V: Num, E: Num> Adjacency for StaticGraphGeneric<V, E> {
    open spec fn out_neighbor_list(&self, v: V) -> Seq<V> {
        self.row(v.as_int()).map_values(|e: StaticEdge<E>| self.vertex_at(e.eid()))
    }

    proof fn lemma_out_neighbors(&self, v: V) {
        self.lemma_inc_list(v);
        assert forall|i: int| 0 <= i < self.out_neighbor_list(v).len() implies self.valid_vertex(
            #[trigger] self.out_neighbor_list(v)[i],
        ) by {
            let e = self.inc_list(v)[i];
            assert(self.valid_edge(e) && self.src(e) == v);
            assert(self.out_neighbor_list(v)[i] == self.vertex_at(e.eid()));
            assert(self.ev()[e.eid()] == self.vertex_at(e.eid()).as_int());
        }
    }

    fn out_neighbors(&self, v: V) -> (r: Vec<V>) {
        proof {
            v.lemma_num();
            self.lemma_inc_list(v);
        }
        let k = v.to_usize();
        let len = self.inc[k].len();
        let mut r: Vec<V> = Vec::with_capacity(len);
        let mut t: usize = 0;
        while t < len
            invariant
                self.wf(),
                self.valid_vertex(v),
                k as int == v.as_int(),
                len == self.inc_list(v).len(),
                self.inc_list(v) == self.row(k as int),
                forall|i: int|
                    0 <= i < self.inc_list(v).len() ==> self.valid_edge(
                        #[trigger] self.inc_list(v)[i],
                    ),
                t <= len,
                r@.len() == t,
                forall|i: int| 0 <= i < t ==> r@[i] == self.out_neighbor_list(v)[i],
            decreases len - t,
        {
            let e = self.inc[k][t];
            proof {
                e.lemma_eid_bounds();
            }
            r.push(self.endvertices[e.0.to_usize()]);
            t = t + 1;
        }
        proof {
            assert(r@ =~= self.out_neighbor_list(v));
        }
        r
    }

    fn out_degree(&self, v: V) -> (n: usize) {
        proof {
            v.lemma_num();
        }
        let k = v.to_usize();
        self.inc[k].len()
    }
}

impl<V: Num, E: Num> Incidence for StaticGraphGeneric<V, E> {
    open spec fn inc_list(&self, v: V) -> Seq<StaticEdge<E>> {
        self.row(v.as_int())
    }

    proof fn lemma_inc_list(&self, v: V) {
        let k = v.as_int();
        lemma_inc_ids_elems(self.ev(), self.m(), k);
        assert(2 * (self.ev().len() as int / 2) == self.ev().len() as int);
        assert forall|i: int| 0 <= i < self.inc_list(v).len() implies self.valid_edge(
            #[trigger] self.inc_list(v)[i],
        ) && self.src(self.inc_list(v)[i]) == v by {
            let e = self.inc_list(v)[i];
            assert(self.row_ids(k)[i] == e.eid());
            assert(inc_ids(self.ev(), self.m(), k)[i] == e.eid());
            assert(self.ev()[flip(e.eid())] == k);
            lemma_flip_in_range(e.eid(), self.ev().len() as int);
            self.vertex_at(flip(e.eid())).lemma_num();
            v.lemma_num();
            self.vertex_at(flip(e.eid())).lemma_injective(v);
        }
        lemma_inc_ids_complete(self.ev(), self.m(), k);
        assert forall|e: StaticEdge<E>| #[trigger] self.valid_edge(e) && self.src(e)
            == v implies self.inc_list(v).contains(e) by {
            let id = e.eid();
            e.lemma_eid_bounds();
            lemma_flip_in_range(id, self.ev().len() as int);
            assert(self.ev()[flip(id)] == self.vertex_at(flip(id)).as_int());
            assert(self.ev()[flip(id)] == k);
            assert(inc_ids(self.ev(), self.m(), k).contains(id));
            assert(self.row_ids(k) == inc_ids(self.ev(), self.m(), k));
            let t = choose|t: int| 0 <= t < self.row_ids(k).len() && self.row_ids(k)[t] == id;
            assert(self.row(k)[t].eid() == id);
            self.row(k)[t].lemma_eid_injective(e);
            assert(self.inc_list(v)[t] == e);
        }
        assert(self.out_neighbor_list(v) =~= self.inc_list(v).map_values(
            |e: StaticEdge<E>| self.tgt(e),
        ));
    }

    fn out_edges(&self, v: V) -> (r: Vec<StaticEdge<E>>) {
        proof {
            v.lemma_num();
        }
        let k = v.to_usize();
        let len = self.inc[k].len();
        let mut r: Vec<StaticEdge<E>> = Vec::with_capacity(len);
        let mut t: usize = 0;
        while t < len
            invariant
                self.wf(),
                k < self.inc@.len(),
                len == self.row(k as int).len(),
                t <= len,
                r@.len() == t,
                forall|i: int| 0 <= i < t ==> r@[i] == self.row(k as int)[i],
            decreases len - t,
        {
            r.push(self.inc[k][t]);
            t = t + 1;
        }
        proof {
            assert(r@ =~= self.inc_list(v));
        }
        r
    }
}

impl<V: Num, E: Num> EdgeByEnds for StaticGraphGeneric<V, E> {
    #[verifier::loop_isolation(false)]
    fn edge_by_ends(&self, u: V, v: V) -> (r: Option<StaticEdge<E>>) {
        proof {
            assert(2 * (self.ev().len() as int / 2) == self.ev().len() as int);
        }
        let uu = u.to_usize();
        let vv = v.to_usize();
        let m = self.endvertices.len() / 2;
        let mut k: usize = 0;
        while k < m
            invariant
                k <= m,
                forall|i: int|
                    0 <= i < k ==> !((self.src(#[trigger] self.edge_list()[i]) == u && self.tgt(
                        self.edge_list()[i],
                    ) == v) || (self.src(self.edge_list()[i]) == v && self.tgt(
                        self.edge_list()[i],
                    ) == u)),
            decreases m - k,
        {
            proof {
                E::lemma_max_bound();
                StaticEdge::<E>::lemma_fwd(k as int);
            }
            let e = StaticEdge::new(k);
            let s = self.source(e);
            let t = self.target(e);
            proof {
                self.lemma_edge_laws(e);
                assert(self.edge_list()[k as int] == e);
                s.lemma_num();
                t.lemma_num();
                u.lemma_num();
                v.lemma_num();
                if s.as_int() == u.as_int() {
                    s.lemma_injective(u);
                }
                if s.as_int() == v.as_int() {
                    s.lemma_injective(v);
                }
                if t.as_int() == u.as_int() {
                    t.lemma_injective(u);
                }
                if t.as_int() == v.as_int() {
                    t.lemma_injective(v);
                }
            }
            if s.to_usize() == uu && t.to_usize() == vv {
                return Some(e);
            }
            if s.to_usize() == vv && t.to_usize() == uu {
                proof {
                    lemma_flip_in_range(e.eid(), self.ev().len() as int);
                }
                return Some(e.reverse());
            }
            k = k + 1;
        }
        None
    }
}

impl<V: Num, E: Num> VertexIndex for StaticGraphGeneric<V, E> {
    open spec fn vertex_domain(&self) -> int {
        self.n()
    }

    open spec fn vindex(v: V) -> int {
        v.as_int()
    }

    proof fn lemma_vindex(&self, u: V, v: V) {
        if u.as_int() == v.as_int() {
            u.lemma_injective(v);
        }
    }

    fn vertex_index(v: V) -> (i: usize) {
        proof {
            v.lemma_num();
        }
        v.to_usize()
    }

    fn vertex_domain_size(&self) -> (n: usize) {
        self.num_vertices
    }
}

impl<V: Num, E: Num> EdgeIndex for StaticGraphGeneric<V, E> {
    open spec fn edge_domain(&self) -> int {
        self.m()
    }

    open spec fn eindex(e: StaticEdge<E>) -> int {
        e.index_spec()
    }

    proof fn lemma_eindex(&self, d: StaticEdge<E>, e: StaticEdge<E>) {
        d.lemma_eid_bounds();
        e.lemma_eid_bounds();
        let a = d.eid();
        let b = e.eid();
        assert(2 * (self.ev().len() as int / 2) == self.ev().len() as int);
        lemma_flip_in_range(b, self.ev().len() as int);
        e.lemma_rev();
        if b % 2 == 0 {
            assert((b + 1) / 2 == b / 2);
        } else {
            assert((b - 1) % 2 == 0);
            assert((b - 1) / 2 == b / 2);
        }
        if a / 2 == b / 2 && a != b {
            assert(a == 2 * (a / 2) + a % 2);
            assert(b == 2 * (b / 2) + b % 2);
            assert(a == flip(b));
            d.lemma_eid_injective(e.rev_spec());
        }
        if a / 2 == b / 2 && a == b {
            d.lemma_eid_injective(e);
        }
    }

    fn edge_index(e: StaticEdge<E>) -> (i: usize) {
        e.to_index()
    }

    fn edge_domain_size(&self) -> (n: usize) {
        self.endvertices.len() / 2
    }
}

/// Accumulates edges for a static graph: `new` fixes the vertex count,
/// `add_edge` appends endpoint pairs and incidence identifiers, `finalize`
/// validates the edge-identifier bound and hands out the immutable graph.
pub struct StaticGraphGenericBuilder<V: Num, E: Num> {
    num_vertices: usize,
    endvertices: Vec<StaticVertex<V>>,
    inc: Vec<Vec<usize>>,
    _edge_width: PhantomData<E>,
}

impl<V: Num, E: Num> StaticGraphGenericBuilder<V, E> {
    /// Vertex count.
    pub closed spec fn n(&self) -> int {
        self.num_vertices as int
    }

    /// The accumulated flat endpoint sequence, as integers.
    pub closed spec fn ev(&self) -> Seq<int> {
        self.endvertices@.map_values(|x: V| x.as_int())
    }

    /// Canonical edge count so far.
    pub open spec fn m(&self) -> int {
        self.ev().len() as int / 2
    }

    /// The raw identifiers accumulated for vertex index `k`.
    pub closed spec fn row_ids(&self, k: int) -> Seq<int> {
        self.inc@[k]@.map_values(|x: usize| x as int)
    }

    pub closed spec fn wf(&self) -> bool {
        &&& 0 <= self.n() < V::max_int()
        &&& self.ev().len() % 2 == 0
        &&& (forall|j: int| 0 <= j < self.ev().len() ==> 0 <= #[trigger] self.ev()[j] < self.n())
        &&& self.inc@.len() == self.n()
        &&& (forall|k: int|
            0 <= k < self.n() ==> #[trigger] self.row_ids(k) == inc_ids(self.ev(), self.m(), k))
    }

    /// The accumulation facts of a well-formed builder, over the public
    /// model: the endpoint sequence pairs up inside the vertex range, the
    /// vertex count fits the vertex width, and each incidence row holds
    /// exactly the identifiers `inc_ids` derives from the endpoint sequence.
    pub proof fn lemma_model(&self)
        requires
            self.wf(),
        ensures
            self.ev().len() % 2 == 0,
            0 <= self.n() < V::max_int(),
            2 * self.m() == self.ev().len(),
            forall|j: int| 0 <= j < self.ev().len() ==> 0 <= #[trigger] self.ev()[j] < self.n(),
            forall|k: int|
                0 <= k < self.n() ==> #[trigger] self.row_ids(k) == inc_ids(
                    self.ev(),
                    self.m(),
                    k,
                ),
    {
        assert(2 * (self.ev().len() as int / 2) == self.ev().len() as int);
    }

    /// A builder for `num_vertices` vertices, preallocating room for
    /// `num_edges_hint` edges; `CapacityExceeded` exactly when the vertex
    /// count does not fit the vertex width.
    pub fn new(num_vertices: usize, num_edges_hint: usize) -> (r: Result<Self, GraphError>)
        requires
            num_edges_hint <= usize::MAX / 2,
        ensures
            match r {
                Ok(b) => {
                    &&& b.wf()
                    &&& b.n() == num_vertices
                    &&& b.ev() == Seq::<int>::empty()
                    &&& (forall|k: int|
                        0 <= k < num_vertices ==> #[trigger] b.row_ids(k) == Seq::<
                            int,
                        >::empty())
                    &&& (num_vertices as int) < V::max_int()
                },
                Err(e) => e == GraphError::CapacityExceeded && (num_vertices as int)
                    >= V::max_int(),
            },
    {
        if !V::is_valid(num_vertices) {
            return Err(GraphError::CapacityExceeded);
        }
        let mut inc: Vec<Vec<usize>> = Vec::with_capacity(num_vertices);
        let mut k: usize = 0;
        while k < num_vertices
            invariant
                k <= num_vertices,
                inc@.len() == k,
                forall|i: int| 0 <= i < k ==> (#[trigger] inc@[i])@ == Seq::<usize>::empty(),
            decreases num_vertices - k,
        {
            inc.push(Vec::new());
            k = k + 1;
        }
        let b = StaticGraphGenericBuilder {
            num_vertices,
            endvertices: Vec::with_capacity(2 * num_edges_hint),
            inc,
            _edge_width: PhantomData,
        };
        proof {
            assert(b.ev() =~= Seq::<int>::empty());
            assert forall|kk: int| 0 <= kk < b.n() implies #[trigger] b.row_ids(kk) == inc_ids(
                b.ev(),
                b.m(),
                kk,
            ) by {
                assert(b.row_ids(kk) =~= Seq::<int>::empty());
            }
            assert forall|kk: int| 0 <= kk < b.n() implies #[trigger] b.row_ids(kk) == Seq::<
                int,
            >::empty() by {
                assert(b.row_ids(kk) =~= Seq::<int>::empty());
            }
        }
        Ok(b)
    }

    /// Appends the edge `(u, v)`: both endpoints at the end of the flat
    /// array, the forward identifier `2*m + 1` into `u`'s incidence list and
    /// the reverse identifier `2*m` into `v`'s (for a self-loop, both into
    /// `u`'s, in that order); every other incidence list is unchanged.
    pub fn add_edge(&mut self, u: usize, v: usize)
        requires
            old(self).wf(),
            (u as int) < old(self).n(),
            (v as int) < old(self).n(),
        ensures
            final(self).wf(),
            final(self).n() == old(self).n(),
            final(self).ev() == old(self).ev() + seq![u as int, v as int],
            final(self).m() == old(self).m() + 1,
            u != v ==> final(self).row_ids(u as int) == old(self).row_ids(u as int).push(
                2 * old(self).m() + 1,
            ),
            u != v ==> final(self).row_ids(v as int) == old(self).row_ids(v as int).push(
                2 * old(self).m(),
            ),
            u == v ==> final(self).row_ids(u as int) == old(self).row_ids(u as int).push(
                2 * old(self).m() + 1,
            ).push(2 * old(self).m()),
            forall|k: int|
                0 <= k < old(self).n() && k != u as int && k != v as int
                    ==> final(self).row_ids(k) == old(self).row_ids(k),
    {
        proof {
            V::lemma_max_bound();
            V::lemma_from_to(u as int);
            V::lemma_from_to(v as int);
        }
        let ghost oldev = self.ev();
        let ghost oldm = self.m();
        self.endvertices.push(V::from_usize(u));
        self.endvertices.push(V::from_usize(v));
        let ghost newev = self.ev();
        proof {
            assert(newev =~= oldev + seq![u as int, v as int]);
            assert(newev.len() == oldev.len() + 2);
            assert(2 * oldm == oldev.len() as int);
            assert(self.m() == oldm + 1) by {
                assert(newev.len() as int == 2 * (oldm + 1));
                assert((2 * (oldm + 1)) / 2 == oldm + 1) by (nonlinear_arith);
            }
        }
        let e = (self.endvertices.len() - 2) / 2;
        proof {
            assert(e as int == oldm) by {
                assert((2 * oldm) / 2 == oldm) by (nonlinear_arith);
            }
            assert(2 * e + 1 == newev.len() - 1);
        }
        self.inc[u].push(2 * e + 1);
        self.inc[v].push(2 * e);
        proof {
            assert forall|k: int| 0 <= k < self.n() implies #[trigger] self.row_ids(k) == inc_ids(
                newev,
                oldm + 1,
                k,
            ) by {
                lemma_inc_ids_prefix(oldev, newev, oldm, k);
                assert(inc_ids(newev, oldm, k) == inc_ids(oldev, oldm, k));
                assert(newev[2 * oldm] == u as int);
                assert(newev[2 * oldm + 1] == v as int);
                if k == u as int && k == v as int {
                    assert(self.row_ids(k) =~= old(self).row_ids(k).push(2 * oldm + 1).push(
                        2 * oldm,
                    ));
                } else if k == u as int {
                    assert(self.row_ids(k) =~= old(self).row_ids(k).push(2 * oldm + 1));
                } else if k == v as int {
                    assert(self.row_ids(k) =~= old(self).row_ids(k).push(2 * oldm));
                } else {
                    assert(self.row_ids(k) =~= old(self).row_ids(k));
                }
            }
            if u != v {
                assert(self.row_ids(u as int) =~= old(self).row_ids(u as int).push(
                    2 * oldm + 1,
                ));
                assert(self.row_ids(v as int) =~= old(self).row_ids(v as int).push(2 * oldm));
            } else {
                assert(self.row_ids(u as int) =~= old(self).row_ids(u as int).push(
                    2 * oldm + 1,
                ).push(2 * oldm));
            }
            assert forall|k: int|
                0 <= k < old(self).n() && k != u as int && k != v as int implies self.row_ids(
                k,
            ) == old(self).row_ids(k) by {
                assert(self.row_ids(k) =~= old(self).row_ids(k));
            }
        }
    }

    /// Validates that twice the realized edge count fits the edge width and
    /// returns the immutable graph; `CapacityExceeded` exactly when it does
    /// not.
    pub fn finalize(self) -> (r: Result<StaticGraphGeneric<V, E>, GraphError>)
        requires
            self.wf(),
        ensures
            match r {
                Ok(g) => {
                    &&& g.wf()
                    &&& g.n() == self.n()
                    &&& g.ev() == self.ev()
                    &&& self.ev().len() < E::max_int()
                },
                Err(e) => e == GraphError::CapacityExceeded && self.ev().len() >= E::max_int(),
            },
    {
        if !E::is_valid(self.endvertices.len()) {
            return Err(GraphError::CapacityExceeded);
        }
        proof {
            E::lemma_max_bound();
            lemma_inc_ids_elems(self.ev(), self.m(), 0);
            assert(2 * (self.ev().len() as int / 2) == self.ev().len() as int);
        }
        let nrows = self.inc.len();
        let mut inc2: Vec<Vec<StaticEdge<E>>> = Vec::with_capacity(nrows);
        let mut k: usize = 0;
        while k < nrows
            invariant
                self.wf(),
                self.ev().len() < E::max_int(),
                2 * self.m() == self.ev().len(),
                nrows as int == self.n(),
                k <= nrows,
                inc2@.len() == k,
                forall|i: int|
                    0 <= i < k ==> (#[trigger] inc2@[i])@.map_values(
                        |e: StaticEdge<E>| e.eid(),
                    ) == self.row_ids(i),
            decreases nrows - k,
        {
            proof {
                lemma_inc_ids_elems(self.ev(), self.m(), k as int);
            }
            let rlen = self.inc[k].len();
            let mut row2: Vec<StaticEdge<E>> = Vec::with_capacity(rlen);
            let mut t: usize = 0;
            while t < rlen
                invariant
                    self.wf(),
                    self.ev().len() < E::max_int(),
                    2 * self.m() == self.ev().len(),
                    k < self.inc@.len(),
                    rlen == self.row_ids(k as int).len(),
                    forall|i: int|
                        0 <= i < rlen ==> {
                            let id = #[trigger] self.row_ids(k as int)[i];
                            0 <= id < 2 * self.m()
                        },
                    t <= rlen,
                    row2@.len() == t,
                    forall|i: int|
                        0 <= i < t ==> (#[trigger] row2@[i]).eid() == self.row_ids(k as int)[i],
                decreases rlen - t,
            {
                let id = self.inc[k][t];
                proof {
                    assert(self.row_ids(k as int)[t as int] == id as int);
                    E::lemma_from_to(id as int);
                }
                row2.push(StaticEdge(E::from_usize(id)));
                t = t + 1;
            }
            proof {
                assert(row2@.map_values(|e: StaticEdge<E>| e.eid()) =~= self.row_ids(k as int));
            }
            inc2.push(row2);
            k = k + 1;
        }
        let g = StaticGraphGeneric {
            num_vertices: self.num_vertices,
            endvertices: self.endvertices,
            inc: inc2,
        };
        proof {
            assert(g.ev() == self.ev());
            assert forall|kk: int| 0 <= kk < g.n() implies #[trigger] g.row_ids(kk) == inc_ids(
                g.ev(),
                g.m(),
                kk,
            ) by {
                assert(g.row_ids(kk) =~= self.row_ids(kk));
            }
        }
        Ok(g)
    }

    /// Like `finalize`, but also snapshots the realized vertex and edge
    /// iteration orders as explicit sequences.
    pub fn finalize_(self) -> (r: Result<
        (StaticGraphGeneric<V, E>, Vec<V>, Vec<StaticEdge<E>>),
        GraphError,
    >)
        requires
            self.wf(),
        ensures
            match r {
                Ok(p) => {
                    &&& p.0.wf()
                    &&& p.0.n() == self.n()
                    &&& p.0.ev() == self.ev()
                    &&& p.1@ == p.0.vertex_list()
                    &&& p.2@ == p.0.edge_list()
                },
                Err(e) => e == GraphError::CapacityExceeded && self.ev().len() >= E::max_int(),
            },
    {
        match self.finalize() {
            Ok(g) => {
                let vs = g.vertices();
                let es = g.edges();
                Ok((g, vs, es))
            },
            Err(e) => Err(e),
        }
    }
}

} // verus!
