use graphlib::graph::Adjacency;
use graphlib::graph::EdgeByEnds;
use graphlib::graph::EdgeIndex;
use graphlib::graph::EdgeList;
use graphlib::graph::GraphError;
use graphlib::graph::Incidence;
use graphlib::graph::OptionalItem;
use graphlib::graph::Orientation;
use graphlib::graph::UniformEdgeKind;
use graphlib::graph::Undirected;
use graphlib::graph::Directed;
use graphlib::graph::VertexIndex;
use graphlib::graph::VertexList;
use graphlib::graph::WithEdge;
use graphlib::graph::WithVertexProp;
use graphlib::graph::WithEdgeProp;
use graphlib::static_::Num;
use graphlib::static_::StaticEdge;
use graphlib::static_::StaticGraph;
use graphlib::static_::StaticGraphGenericBuilder;

fn triangle_plus_pair() -> StaticGraph {
    let mut b: StaticGraphGenericBuilder<u32, usize> =
        StaticGraphGenericBuilder::new(5, 4).unwrap();
    b.add_edge(0, 1);
    b.add_edge(0, 2);
    b.add_edge(1, 2);
    b.add_edge(3, 4);
    b.finalize().unwrap()
}

#[test]
fn builder() {
    let mut builder: StaticGraphGenericBuilder<u32, usize> =
        StaticGraphGenericBuilder::new(3, 1).unwrap();

    builder.add_edge(0, 1);
    builder.add_edge(1, 2);

    let g = builder.finalize().unwrap();
    assert_eq!(3, g.num_vertices());
    assert_eq!(vec![0u32, 1, 1, 2], *g.endvertices());
    assert_eq!(vec![StaticEdge::new(0)], *g.out_edges(0));
    assert_eq!(
        vec![StaticEdge::new_reverse(0), StaticEdge::new(1)],
        *g.out_edges(1)
    );
    assert_eq!(vec![StaticEdge::new_reverse(1)], *g.out_edges(2));
}

#[test]
fn vertex_and_edge_enumeration() {
    let g = triangle_plus_pair();
    assert_eq!(vec![0u32, 1, 2, 3, 4], g.vertices());
    assert_eq!(5, g.num_vertices());
    assert_eq!(4, g.num_edges());
    let es = g.edges();
    assert_eq!(4, es.len());
    for (i, e) in es.iter().enumerate() {
        assert_eq!(i, e.to_index());
    }
}

#[test]
fn endpoints_and_reversal() {
    let g = triangle_plus_pair();
    let es = g.edges();
    let e01 = es[0];
    assert_eq!(0, g.source(e01));
    assert_eq!(1, g.target(e01));
    assert_eq!((0, 1), g.ends(e01));
    let r = g.reverse(e01).unwrap();
    assert_eq!(g.source(e01), g.target(r));
    assert_eq!(g.target(e01), g.source(r));
    assert_eq!(e01.to_index(), r.to_index());
    let rr = g.reverse(r).unwrap();
    assert_eq!(g.source(e01), g.source(rr));
    assert_eq!(g.target(e01), g.target(rr));
    assert_eq!(Some(r), g.get_reverse(e01));
}

#[test]
fn degree_counts_incident_edges() {
    let g = triangle_plus_pair();
    for v in g.vertices() {
        assert_eq!(g.out_degree(v), g.out_edges(v).len());
    }
    assert_eq!(2, g.out_degree(0));
    assert_eq!(vec![1u32, 2], g.out_neighbors(0));
    assert_eq!(1, g.out_degree(3));
    assert_eq!(vec![4u32], g.out_neighbors(3));
}

#[test]
fn opposite_endpoint() {
    let g = triangle_plus_pair();
    let e01 = g.edges()[0];
    assert_eq!(Ok(1), g.opposite(0, e01));
    assert_eq!(Ok(0), g.opposite(1, e01));
    assert_eq!(Err(GraphError::InvalidArgument), g.opposite(3, e01));
}

#[test]
fn vertex_capacity_is_checked() {
    let r: Result<StaticGraphGenericBuilder<u8, usize>, GraphError> =
        StaticGraphGenericBuilder::new(255, 0);
    assert!(matches!(r, Err(GraphError::CapacityExceeded)));
    let ok: Result<StaticGraphGenericBuilder<u8, usize>, GraphError> =
        StaticGraphGenericBuilder::new(254, 0);
    assert!(ok.is_ok());
}

#[test]
fn edge_capacity_is_checked() {
    let mut b: StaticGraphGenericBuilder<u32, u8> =
        StaticGraphGenericBuilder::new(2, 0).unwrap();
    for _ in 0..128 {
        b.add_edge(0, 1);
    }
    // 128 edges fill 256 endpoint slots, beyond what u8 identifiers cover.
    assert!(matches!(b.finalize(), Err(GraphError::CapacityExceeded)));

    let mut b2: StaticGraphGenericBuilder<u32, u8> =
        StaticGraphGenericBuilder::new(2, 0).unwrap();
    for _ in 0..127 {
        b2.add_edge(0, 1);
    }
    assert!(b2.finalize().is_ok());
}

#[test]
fn finalize_with_order() {
    let mut b: StaticGraphGenericBuilder<u32, usize> =
        StaticGraphGenericBuilder::new(3, 2).unwrap();
    b.add_edge(0, 1);
    b.add_edge(1, 2);
    let (g, vs, es) = b.finalize_().unwrap();
    assert_eq!(vec![0u32, 1, 2], vs);
    assert_eq!(2, es.len());
    assert_eq!(0, es[0].to_index());
    assert_eq!(1, es[1].to_index());
    assert_eq!(3, g.num_vertices());
}

#[test]
fn uniform_sampling_stays_in_range() {
    let mut b: StaticGraphGenericBuilder<u32, usize> =
        StaticGraphGenericBuilder::new(1, 1).unwrap();
    b.add_edge(0, 0);
    let g = b.finalize().unwrap();
    // with one candidate each, the uniform pick is forced
    assert_eq!(0, g.choose_vertex());
    assert_eq!(0, g.choose_edge().to_index());
    let e = g.choose_inc_edge(0);
    assert_eq!(0, e.to_index());

    let big = triangle_plus_pair();
    for _ in 0..32 {
        let v = big.choose_vertex();
        assert!(v < 5);
        let e = big.choose_edge();
        assert!(e.to_index() < 4);
    }
}

#[test]
fn property_maps_cover_the_domain() {
    let g = triangle_plus_pair();
    let mut vp = g.default_vertex_prop(7u64);
    assert_eq!(5, vp.len());
    for v in g.vertices() {
        let k = StaticGraph::vertex_index(v);
        assert_eq!(7, *vp.get(k));
    }
    vp.set(StaticGraph::vertex_index(2), 42);
    assert_eq!(42, *vp.get(2));
    assert_eq!(7, *vp.get(1));

    let ep = g.default_edge_prop(false);
    assert_eq!(4, ep.len());
    for e in g.edges() {
        assert!(!*ep.get(StaticGraph::edge_index(e)));
    }
}

#[test]
fn sentinel_packed_optional_ids() {
    let none: u32 = <u32 as OptionalItem<u32>>::new_none();
    assert!(<u32 as OptionalItem<u32>>::is_none(&none));
    assert!(!<u32 as OptionalItem<u32>>::is_some(&none));
    assert_eq!(None, <u32 as OptionalItem<u32>>::to_option(&none));

    let some: u32 = <u32 as OptionalItem<u32>>::new_some(5);
    assert!(<u32 as OptionalItem<u32>>::is_some(&some));
    assert_eq!(Some(5), <u32 as OptionalItem<u32>>::to_option(&some));
    assert!(<u32 as OptionalItem<u32>>::eq_some(&some, 5));
    assert!(!<u32 as OptionalItem<u32>>::eq_some(&some, 6));
    assert!(!<u32 as OptionalItem<u32>>::eq_some(&none, 5));

    let e: StaticEdge<u32> = StaticEdge::new(3);
    let packed: u32 = <u32 as OptionalItem<StaticEdge<u32>>>::new_some(e);
    assert!(<u32 as OptionalItem<StaticEdge<u32>>>::eq_some(&packed, e));
    assert_eq!(
        Some(e),
        <u32 as OptionalItem<StaticEdge<u32>>>::to_option(&packed)
    );
}

#[test]
fn orientations_and_kinds() {
    assert!(Orientation::Directed.is_directed());
    assert!(!Orientation::Directed.is_undirected());
    assert!(Orientation::Undirected.is_undirected());
    assert!(<Directed as UniformEdgeKind>::is_directed());
    assert!(<Undirected as UniformEdgeKind>::is_undirected());
    assert_eq!(Orientation::Undirected, <Undirected as UniformEdgeKind>::orientation());
    let g = triangle_plus_pair();
    let e = g.edges()[0];
    assert!(g.is_undirected_edge(e));
    assert!(!g.is_directed_edge(e));
}

#[test]
fn edge_lookup_by_ends() {
    let g = triangle_plus_pair();
    let e = g.edge_by_ends(0, 1).unwrap();
    assert_eq!((0, 1), g.ends(e));
    let r = g.edge_by_ends(1, 0).unwrap();
    assert_eq!((1, 0), g.ends(r));
    assert_eq!(e.to_index(), r.to_index());
    assert!(g.edge_by_ends(0, 3).is_none());
    assert!(g.edge_by_ends(3, 4).is_some());
    assert!(g.edge_by_ends(4, 3).is_some());
}

#[test]
fn edges_compare_by_canonical_index() {
    let a: StaticEdge<usize> = StaticEdge::new(1);
    let b: StaticEdge<usize> = StaticEdge::new(2);
    assert!(a < b);
    assert_eq!(
        Some(core::cmp::Ordering::Equal),
        a.partial_cmp(&a.reverse())
    );
    assert_eq!(a, a.reverse());
    assert_ne!(a, b);
}

#[test]
fn narrow_width_graph() {
    let mut b: StaticGraphGenericBuilder<u16, u16> =
        StaticGraphGenericBuilder::new(3, 2).unwrap();
    b.add_edge(0, 1);
    b.add_edge(1, 2);
    let g = b.finalize().unwrap();
    assert_eq!(vec![0u16, 1, 2], g.vertices());
    assert_eq!(2, g.num_edges());
    let e = g.edges()[1];
    assert_eq!((1u16, 2u16), g.ends(e));
    assert_eq!(2, g.opposite(1, e).unwrap());
}

#[test]
fn identifier_widths() {
    assert_eq!(255, <u8 as Num>::max().to_usize());
    assert!(<u8 as Num>::is_valid(254));
    assert!(!<u8 as Num>::is_valid(255));
    assert!(<u16 as Num>::is_valid(65534));
    assert!(!<u16 as Num>::is_valid(65535));
    assert!(<u32 as Num>::is_valid(100));
    assert!(!<usize as Num>::is_valid(usize::MAX));
    assert_eq!(7, <u16 as Num>::from_usize(7).to_usize());
}
