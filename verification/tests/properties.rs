//! Tests for the stated properties of the library: assembly is order- and
//! orientation-independent, building is idempotent, diagnostics are
//! reported as data, and the exact integer geometry predicates behave as
//! documented.

use geo::Area;
use osm_boundaries::geometry::{point_in_ring_exec, segments_intersect_exec};
use osm_boundaries::osm_builder::{named_node, OsmBuilder};
use osm_boundaries::{
    assemble_rings, build_boundary, build_boundary_parts, extract_boundary_parts, BoundaryPart,
    MultiPolygon, Node, ObjectStore, OsmId, OsmObj, Point, Relation, RelationRef, Ring, Way,
};

fn ring_to_line_string(r: &Ring) -> geo_types::LineString<f64> {
    r.0.iter()
        .map(|pt| geo_types::Coord { x: pt.x as f64 / 1e7, y: pt.y as f64 / 1e7 })
        .collect()
}

fn to_geo(mp: &MultiPolygon) -> geo_types::MultiPolygon<f64> {
    geo_types::MultiPolygon(
        mp.0.iter()
            .map(|p| {
                let ext = ring_to_line_string(&p.exterior);
                let ints: Vec<geo_types::LineString<f64>> =
                    p.interiors().iter().map(ring_to_line_string).collect();
                geo_types::Polygon::new(ext, ints)
            })
            .collect(),
    )
}

fn lookup_relation(builder: &OsmBuilder, rel_id: i64) -> &Relation {
    match builder.objects.lookup(OsmId::Relation(rel_id)) {
        Some(OsmObj::Relation(relation)) => relation,
        _ => panic!("the builder should have stored the relation"),
    }
}

#[test]
fn test_no_accepted_roles_yield_none() {
    // a relation whose members carry no accepted role produces nothing,
    // even though its ways exist and close
    let mut builder = OsmBuilder::new();
    let way_id = builder.way(vec![
        named_node(0, 0, "a"),
        named_node(10000000, 0, "b"),
        named_node(10000000, 10000000, "c"),
        named_node(0, 0, "a"),
    ]);
    let relation = Relation {
        id: 7,
        refs: vec![RelationRef {
            member: OsmId::Way(way_id),
            role: "unknown".to_string(),
        }],
    };
    assert!(build_boundary(&relation, &builder.objects).is_none());
}

#[test]
fn test_assembly_is_order_and_orientation_independent() {
    // the same three fragments, in every order and with every subset
    // reversed, always chain into exactly one closed ring
    let fragments: [[(i32, i32, &str); 2]; 3] = [
        [(34000000, 52000000, "start"), (54000000, 51000000, "1")],
        [(54000000, 51000000, "1"), (24000000, 31000000, "2")],
        [(24000000, 31000000, "2"), (34000000, 52000000, "start")],
    ];
    let orders: [[usize; 3]; 6] = [
        [0, 1, 2],
        [0, 2, 1],
        [1, 0, 2],
        [1, 2, 0],
        [2, 0, 1],
        [2, 1, 0],
    ];
    for order in orders.iter() {
        for mask in 0..8u32 {
            let mut builder = OsmBuilder::new();
            let rel = builder.relation();
            for (slot, &frag_idx) in order.iter().enumerate() {
                let frag = &fragments[frag_idx];
                let mut coords: Vec<_> = frag
                    .iter()
                    .map(|&(lon, lat, name)| named_node(lon, lat, name))
                    .collect();
                if mask & (1 << slot) != 0 {
                    coords.reverse();
                }
                rel.outer(&mut builder, coords);
            }
            let relation = lookup_relation(&builder, rel.relation_id);
            let multipolygon = build_boundary(relation, &builder.objects);
            assert!(multipolygon.is_some());
            assert_eq!(multipolygon.unwrap().0.len(), 1);
        }
    }
}

#[test]
fn test_build_boundary_is_idempotent() {
    let mut builder = OsmBuilder::new();
    let rel = builder.relation();
    rel.outer(
        &mut builder,
        vec![
            named_node(0, 0, "start"),
            named_node(40000000, 0, "1"),
            named_node(40000000, 40000000, "2"),
            named_node(0, 40000000, "3"),
            named_node(0, 0, "start"),
        ],
    );
    rel.inner(
        &mut builder,
        vec![
            named_node(10000000, 10000000, "h1"),
            named_node(20000000, 10000000, "h2"),
            named_node(20000000, 20000000, "h3"),
            named_node(10000000, 10000000, "h1"),
        ],
    );
    let relation = lookup_relation(&builder, rel.relation_id);
    let first = build_boundary(relation, &builder.objects).unwrap();
    let second = build_boundary(relation, &builder.objects).unwrap();
    assert_eq!(to_geo(&first), to_geo(&second));
    assert_eq!(first.0.len(), second.0.len());
}

#[test]
fn test_donut_in_donut_does_not_crash() {
    // a hole nested inside another hole is a documented non-goal: nothing
    // is asserted beyond a sane, crash-free result
    let mut builder = OsmBuilder::new();
    let rel = builder.relation();
    rel.outer(
        &mut builder,
        vec![
            named_node(0, 0, "o1"),
            named_node(90000000, 0, "o2"),
            named_node(90000000, 90000000, "o3"),
            named_node(0, 90000000, "o4"),
            named_node(0, 0, "o1"),
        ],
    );
    rel.inner(
        &mut builder,
        vec![
            named_node(10000000, 10000000, "m1"),
            named_node(80000000, 10000000, "m2"),
            named_node(80000000, 80000000, "m3"),
            named_node(10000000, 80000000, "m4"),
            named_node(10000000, 10000000, "m1"),
        ],
    );
    rel.inner(
        &mut builder,
        vec![
            named_node(30000000, 30000000, "s1"),
            named_node(60000000, 30000000, "s2"),
            named_node(60000000, 60000000, "s3"),
            named_node(30000000, 60000000, "s4"),
            named_node(30000000, 30000000, "s1"),
        ],
    );
    let relation = lookup_relation(&builder, rel.relation_id);
    let multipolygon = build_boundary(relation, &builder.objects);
    assert!(multipolygon.is_some());
    assert_eq!(multipolygon.unwrap().0.len(), 1);
}

#[test]
fn test_missing_members_are_reported() {
    let mut objects = ObjectStore::new();
    objects.insert(OsmObj::Node(Node {
        id: 1,
        decimicro_lat: 0,
        decimicro_lon: 0,
    }));
    let relation = Relation {
        id: 5,
        refs: vec![
            RelationRef {
                member: OsmId::Way(77),
                role: "outer".to_string(),
            },
            RelationRef {
                member: OsmId::Way(78),
                role: "ignored".to_string(),
            },
        ],
    };
    let roles = vec!["outer".to_string()];
    let (parts, missing) = extract_boundary_parts(&relation, &objects, &roles);
    assert_eq!(parts.len(), 0);
    assert_eq!(missing.len(), 1);
    assert!(matches!(missing[0], OsmId::Way(77)));
}

#[test]
fn test_unclosed_chain_is_reported_with_its_dangling_ends() {
    let n1 = Node {
        id: 1,
        decimicro_lat: 0,
        decimicro_lon: 0,
    };
    let n2 = Node {
        id: 2,
        decimicro_lat: 10,
        decimicro_lon: 10,
    };
    let n3 = Node {
        id: 3,
        decimicro_lat: 20,
        decimicro_lon: 0,
    };
    let parts = vec![
        BoundaryPart::new(vec![n1, n2]),
        BoundaryPart::new(vec![n2, n3]),
    ];
    let assembled = assemble_rings(parts);
    assert_eq!(assembled.rings.len(), 0);
    assert_eq!(assembled.unclosed.len(), 1);
    assert_eq!(assembled.unclosed[0].first.id, 1);
    assert_eq!(assembled.unclosed[0].last.id, 3);
}

#[test]
fn test_closed_parts_yield_closed_rings() {
    let mut builder = OsmBuilder::new();
    let rel = builder.relation();
    rel.outer(
        &mut builder,
        vec![
            named_node(0, 0, "start"),
            named_node(40000000, 0, "1"),
            named_node(40000000, 40000000, "2"),
            named_node(0, 0, "start"),
        ],
    );
    let relation = lookup_relation(&builder, rel.relation_id);
    let roles = vec!["outer".to_string()];
    let multipolygon = build_boundary_parts(relation, &builder.objects, roles).unwrap();
    assert_eq!(multipolygon.0.len(), 1);
    let ring = &multipolygon.0[0].exterior;
    assert!(ring.0.len() >= 2);
    assert_eq!(ring.0[0], ring.0[ring.0.len() - 1]);
    assert_eq!(to_geo(&multipolygon).signed_area(), 8.);
}

#[test]
fn test_store_insert_replaces_by_identifier() {
    let mut objects = ObjectStore::new();
    objects.insert(OsmObj::Node(Node {
        id: 4,
        decimicro_lat: 1,
        decimicro_lon: 2,
    }));
    objects.insert(OsmObj::Node(Node {
        id: 4,
        decimicro_lat: 9,
        decimicro_lon: 8,
    }));
    match objects.lookup(OsmId::Node(4)) {
        Some(OsmObj::Node(n)) => {
            assert_eq!(n.decimicro_lat, 9);
            assert_eq!(n.decimicro_lon, 8);
        }
        _ => panic!("the node should be found"),
    }
    assert!(objects.lookup(OsmId::Way(4)).is_none());
}

#[test]
fn test_builder_reuses_named_nodes() {
    let mut builder = OsmBuilder::new();
    let id1 = builder.node(Point { x: 100, y: 200 }, Some("shared".to_string()));
    let id2 = builder.node(Point { x: 300, y: 400 }, Some("shared".to_string()));
    let id3 = builder.node(Point { x: 300, y: 400 }, None);
    assert_eq!(id1, id2);
    assert_ne!(id1, id3);
    match builder.objects.lookup(OsmId::Node(id1)) {
        Some(OsmObj::Node(n)) => {
            // the first coordinates win for a reused name
            assert_eq!(n.decimicro_lon, 100);
            assert_eq!(n.decimicro_lat, 200);
        }
        _ => panic!("the node should be found"),
    }
}

#[test]
fn test_unmatched_hole_is_dropped() {
    // an inner ring lying outside every outer is silently discarded
    let mut builder = OsmBuilder::new();
    let rel = builder.relation();
    rel.outer(
        &mut builder,
        vec![
            named_node(0, 0, "start"),
            named_node(40000000, 0, "1"),
            named_node(40000000, 40000000, "2"),
            named_node(0, 40000000, "3"),
            named_node(0, 0, "start"),
        ],
    );
    rel.inner(
        &mut builder,
        vec![
            named_node(100000000, 100000000, "far1"),
            named_node(110000000, 100000000, "far2"),
            named_node(110000000, 110000000, "far3"),
            named_node(100000000, 100000000, "far1"),
        ],
    );
    let relation = lookup_relation(&builder, rel.relation_id);
    let multipolygon = build_boundary(relation, &builder.objects).unwrap();
    assert_eq!(multipolygon.0.len(), 1);
    assert_eq!(multipolygon.0[0].interiors().len(), 0);
    assert_eq!(to_geo(&multipolygon).signed_area(), 16.);
}

#[test]
fn test_empty_role_is_treated_as_outer() {
    let mut builder = OsmBuilder::new();
    let way_id = builder.way(vec![
        named_node(0, 0, "a"),
        named_node(20000000, 0, "b"),
        named_node(20000000, 20000000, "c"),
        named_node(0, 0, "a"),
    ]);
    let relation = Relation {
        id: 3,
        refs: vec![RelationRef {
            member: OsmId::Way(way_id),
            role: "".to_string(),
        }],
    };
    let multipolygon = build_boundary(&relation, &builder.objects).unwrap();
    assert_eq!(multipolygon.0.len(), 1);
}

#[test]
fn test_enclave_role_is_treated_as_outer() {
    let mut builder = OsmBuilder::new();
    let way_id = builder.way(vec![
        named_node(0, 0, "a"),
        named_node(20000000, 0, "b"),
        named_node(20000000, 20000000, "c"),
        named_node(0, 0, "a"),
    ]);
    let relation = Relation {
        id: 3,
        refs: vec![RelationRef {
            member: OsmId::Way(way_id),
            role: "enclave".to_string(),
        }],
    };
    let multipolygon = build_boundary(&relation, &builder.objects).unwrap();
    assert_eq!(multipolygon.0.len(), 1);
}

#[test]
fn test_segment_intersection_predicate() {
    let p = |x: i32, y: i32| Point { x, y };
    // proper crossing
    assert!(segments_intersect_exec(
        p(0, 0),
        p(10, 10),
        p(0, 10),
        p(10, 0)
    ));
    // sharing one endpoint
    assert!(segments_intersect_exec(p(0, 0), p(10, 0), p(10, 0), p(20, 5)));
    // touching in the middle of an edge
    assert!(segments_intersect_exec(p(0, 0), p(10, 0), p(5, 0), p(5, 7)));
    // collinear and overlapping
    assert!(segments_intersect_exec(p(0, 0), p(10, 0), p(5, 0), p(20, 0)));
    // collinear but apart
    assert!(!segments_intersect_exec(
        p(0, 0),
        p(10, 0),
        p(11, 0),
        p(20, 0)
    ));
    // disjoint
    assert!(!segments_intersect_exec(
        p(0, 0),
        p(10, 0),
        p(0, 5),
        p(10, 5)
    ));
}

#[test]
fn test_point_in_ring_predicate() {
    let p = |x: i32, y: i32| Point { x, y };
    let square = vec![p(0, 0), p(10, 0), p(10, 10), p(0, 10), p(0, 0)];
    assert!(point_in_ring_exec(&square, p(5, 5)));
    assert!(!point_in_ring_exec(&square, p(15, 5)));
    assert!(!point_in_ring_exec(&square, p(-1, -1)));
}

#[test]
fn test_get_nodes_skips_non_node_entries() {
    let mut objects = ObjectStore::new();
    let inner_way = Way {
        id: 3,
        nodes: vec![],
    };
    objects.insert(OsmObj::Way(inner_way));
    objects.insert(OsmObj::Node(Node {
        id: 5,
        decimicro_lat: 11,
        decimicro_lon: 22,
    }));
    let way = Way {
        id: 9,
        nodes: vec![3, 5, 6],
    };
    let nodes = osm_boundaries::get_nodes(&way, &objects);
    // 3 names a way, 6 is absent; only node 5 resolves
    assert_eq!(nodes.len(), 1);
    assert_eq!(nodes[0].id, 5);
}
