use graphlib::graph::Adjacency;
use graphlib::graph::EdgeList;
use graphlib::graph::WithEdge;
use graphlib::graph::WithVertexProp;
use graphlib::graph::Incidence;
use graphlib::graph::VertexList;
use graphlib::static_::StaticEdge;
use graphlib::static_::StaticGraph;
use graphlib::static_::StaticGraphGenericBuilder;
use graphlib::subgraph::WithSubgraph;
use graphlib::unionfind::UnionFind;
use graphlib::unionfind::WithUnionFind;

fn new_graph() -> (
    StaticGraph,
    StaticEdge<usize>,
    StaticEdge<usize>,
    StaticEdge<usize>,
    StaticEdge<usize>,
) {
    let mut b: StaticGraphGenericBuilder<u32, usize> =
        StaticGraphGenericBuilder::new(5, 4).unwrap();
    b.add_edge(0, 1);
    b.add_edge(0, 2);
    b.add_edge(1, 2);
    b.add_edge(3, 4);
    let (g, _vs, es) = b.finalize_().unwrap();
    (g, es[0], es[1], es[2], es[3])
}

#[test]
fn test_spanning_subgraph() {
    let (g, _, e02, e12, _) = new_graph();
    let s = g.spanning_subgraph(vec![e02, e12]);
    assert_eq!(vec![0u32, 1, 2, 3, 4], s.vertices());
    let es = s.edges();
    assert_eq!(2, es.len());
    assert!(es.contains(&e02) && es.contains(&e12));
    let i0 = s.out_edges(0);
    assert_eq!(1, i0.len());
    assert!(i0.contains(&e02));
    let i1 = s.out_edges(1);
    assert_eq!(1, i1.len());
    assert!(i1.contains(&e12));
    let i2 = s.out_edges(2);
    assert_eq!(2, i2.len());
    assert!(i2.contains(&e02) && i2.contains(&e12));
    assert_eq!(0, s.out_edges(3).len());
    assert_eq!(0, s.out_edges(4).len());
}

#[test]
fn test_edge_induced_subgraph() {
    let (g, e01, e02, _, _) = new_graph();
    let s = g.edge_induced_subgraph(vec![e01, e02]);
    let vs = s.vertices();
    assert_eq!(3, vs.len());
    assert!(vs.contains(&0) && vs.contains(&1) && vs.contains(&2));
    let es = s.edges();
    assert_eq!(2, es.len());
    assert!(es.contains(&e01) && es.contains(&e02));
    let i0 = s.out_edges(0);
    assert_eq!(2, i0.len());
    assert!(i0.contains(&e01) && i0.contains(&e02));
    let i1 = s.out_edges(1);
    assert_eq!(1, i1.len());
    assert!(i1.contains(&e01));
    let i2 = s.out_edges(2);
    assert_eq!(1, i2.len());
    assert!(i2.contains(&e02));
}

#[test]
fn test_induced_subgraph() {
    let (g, e01, e02, e12, _) = new_graph();
    let s = g.induced_subgraph(vec![0, 1, 2]);
    let vs = s.vertices();
    assert_eq!(3, vs.len());
    assert!(vs.contains(&0) && vs.contains(&1) && vs.contains(&2));
    let es = s.edges();
    assert_eq!(3, es.len());
    assert!(es.contains(&e01) && es.contains(&e02) && es.contains(&e12));
    let i0 = s.out_edges(0);
    assert_eq!(2, i0.len());
    assert!(i0.contains(&e01) && i0.contains(&e02));
    let i1 = s.out_edges(1);
    assert_eq!(2, i1.len());
    assert!(i1.contains(&e01) && i1.contains(&e12));
    let i2 = s.out_edges(2);
    assert_eq!(2, i2.len());
    assert!(i2.contains(&e02) && i2.contains(&e12));
}

#[test]
fn subgraph_delegates_edge_semantics() {
    let (g, e01, e02, _, _) = new_graph();
    let s = g.edge_induced_subgraph(vec![e01, e02]);
    assert_eq!(5, s.g().num_vertices());
    assert_eq!(0, s.source(e01));
    assert_eq!(1, s.target(e01));
    assert_eq!((0, 2), s.ends(e02));
    let r = s.reverse(e01).unwrap();
    assert_eq!(1, s.source(r));
    assert_eq!(2, s.num_edges());
    assert_eq!(3, s.num_vertices());
    assert_eq!(1, s.out_degree(1));
    assert_eq!(vec![1u32, 2], s.out_neighbors(0));
}

#[test]
fn subgraph_props_use_base_domain() {
    let (g, e01, e02, _, _) = new_graph();
    let s = g.edge_induced_subgraph(vec![e01, e02]);
    // property maps requested through a view delegate to the base graph, so
    // they are sized to the base graph's full vertex domain, not the view's
    // three retained vertices
    let p = s.default_vertex_prop(0u32);
    assert_eq!(5, p.len());
}

#[test]
fn subgraph_sampling_stays_in_view() {
    let (g, e01, _, _, _) = new_graph();
    let s = g.edge_induced_subgraph(vec![e01]);
    let v = s.choose_vertex();
    assert!(v == 0 || v == 1);
    assert_eq!(0, s.choose_edge().to_index());
    assert_eq!(0, s.choose_inc_edge(0).to_index());
}

fn check_groups(ds: &mut UnionFind<StaticGraph>, groups: &[&[u32]]) {
    for group in groups.iter() {
        for &a in group.iter() {
            assert!(ds.in_same_set(group[0], a));
        }
    }
}

#[test]
fn unionfind() {
    let b: StaticGraphGenericBuilder<u32, usize> =
        StaticGraphGenericBuilder::new(5, 0).unwrap();
    let g = b.finalize().unwrap();
    let v = g.vertices();
    let mut ds = g.new_unionfind();
    ds.union(v[0], v[2]);
    check_groups(&mut ds, &[&[v[0], v[2]]]);
    ds.union(v[1], v[3]);
    check_groups(&mut ds, &[&[v[0], v[2]], &[v[1], v[3]]]);
    ds.union(v[2], v[4]);
    check_groups(&mut ds, &[&[v[0], v[2], v[4]], &[v[1], v[3]]]);
    ds.union(v[3], v[4]);
    check_groups(&mut ds, &[&[v[0], v[2], v[4], v[1], v[3]]]);
}

#[test]
fn unionfind_separates_and_resets() {
    let b: StaticGraphGenericBuilder<u32, usize> =
        StaticGraphGenericBuilder::new(4, 0).unwrap();
    let g = b.finalize().unwrap();
    let mut ds = g.new_unionfind();
    assert!(!ds.in_same_set(0, 1));
    assert!(ds.in_same_set(2, 2));
    ds.union(0, 1);
    assert!(ds.in_same_set(0, 1));
    assert!(!ds.in_same_set(0, 2));
    ds.union(0, 1);
    assert!(ds.in_same_set(1, 0));
    ds.reset(&g);
    assert!(!ds.in_same_set(0, 1));
    assert!(!ds.in_same_set(2, 3));
    ds.union(2, 3);
    assert!(ds.in_same_set(3, 2));
}
