//! The boundary-builder test suite: fixtures are built in decimicro
//! degrees (1e-7 of a degree), and areas/centroids are checked through the
//! geo crate after converting back to degrees.

use geo::{Area, Centroid};
use osm_boundaries::osm_builder::{named_node, OsmBuilder};
use osm_boundaries::{
    build_boundary, get_nodes, MultiPolygon, Node, ObjectStore, OsmId, OsmObj, Relation,
    RelationRef, Ring, Way,
};

fn ring_to_line_string(r: &Ring) -> geo_types::LineString<f64> {
    r.0.iter()
        .map(|pt| geo_types::Coord { x: pt.x as f64 / 1e7, y: pt.y as f64 / 1e7 })
        .collect()
}

fn to_geo(mp: &MultiPolygon) -> geo_types::MultiPolygon<f64> {
    geo_types::MultiPolygon(
        mp.0.iter()
            .map(|p| {
                let ext = ring_to_line_string(&p.exterior);
                let ints: Vec<geo_types::LineString<f64>> =
                    p.interiors().iter().map(ring_to_line_string).collect();
                geo_types::Polygon::new(ext, ints)
            })
            .collect(),
    )
}

#[test]
fn test_get_nodes() {
    let mut objects = ObjectStore::new();
    let way = Way {
        id: 12,
        nodes: vec![12, 15, 8, 68],
    };
    objects.insert(OsmObj::Way(way.clone()));
    objects.insert(OsmObj::Node(Node {
        id: 12,
        decimicro_lat: 12000000,
        decimicro_lon: 37000000,
    }));
    objects.insert(OsmObj::Node(Node {
        id: 13,
        decimicro_lat: 15000000,
        decimicro_lon: 35000000,
    }));
    objects.insert(OsmObj::Node(Node {
        id: 15,
        decimicro_lat: 75000000,
        decimicro_lon: 135000000,
    }));
    objects.insert(OsmObj::Node(Node {
        id: 8,
        decimicro_lat: 55000000,
        decimicro_lon: 635000000,
    }));
    objects.insert(OsmObj::Node(Node {
        id: 68,
        decimicro_lat: 455000000,
        decimicro_lon: 535000000,
    }));

    let nodes = get_nodes(&way, &objects);
    assert_eq!(nodes.len(), 4);
    assert_eq!(nodes[0].id, 12);
    assert_eq!(nodes[1].id, 15);
    assert_eq!(nodes[2].id, 8);
    assert_eq!(nodes[3].id, 68);
}

#[test]
fn test_build_boundary_empty() {
    let objects = ObjectStore::new();
    let mut relation = Relation {
        id: 12,
        refs: vec![],
    };
    relation.refs.push(RelationRef {
        member: OsmId::Way(4),
        role: "outer".to_string(),
    });
    relation.refs.push(RelationRef {
        member: OsmId::Way(65),
        role: "outer".to_string(),
    });
    relation.refs.push(RelationRef {
        member: OsmId::Way(22),
        role: "".to_string(),
    });
    assert!(build_boundary(&relation, &objects).is_none());
}

fn lookup_relation(builder: &OsmBuilder, rel_id: i64) -> &Relation {
    match builder.objects.lookup(OsmId::Relation(rel_id)) {
        Some(OsmObj::Relation(relation)) => relation,
        _ => panic!("the builder should have stored the relation"),
    }
}

#[test]
fn test_build_boundary_not_closed() {
    let mut builder = OsmBuilder::new();
    let rel = builder.relation();
    rel.outer(
        &mut builder,
        vec![
            named_node(34000000, 52000000, "start"),
            named_node(54000000, 51000000, "1"),
        ],
    );
    rel.outer(
        &mut builder,
        vec![
            named_node(54000000, 51000000, "1"),
            named_node(24000000, 31000000, "2"),
        ],
    );
    rel.outer(
        &mut builder,
        vec![
            named_node(24000000, 32000000, "2"),
            named_node(64000000, 61000000, "end"),
        ],
    );
    let relation = lookup_relation(&builder, rel.relation_id);
    assert!(build_boundary(relation, &builder.objects).is_none());
}

#[test]
fn test_build_boundary_closed() {
    let mut builder = OsmBuilder::new();
    let rel = builder.relation();
    rel.outer(
        &mut builder,
        vec![
            named_node(34000000, 52000000, "start"),
            named_node(54000000, 51000000, "1"),
        ],
    );
    rel.outer(
        &mut builder,
        vec![
            named_node(54000000, 51000000, "1"),
            named_node(24000000, 31000000, "2"),
        ],
    );
    rel.outer(
        &mut builder,
        vec![
            named_node(24000000, 32000000, "2"),
            named_node(64000000, 61000000, "start"),
        ],
    );
    let relation = lookup_relation(&builder, rel.relation_id);
    let multipolygon = build_boundary(relation, &builder.objects);
    assert!(multipolygon.is_some());
    let multipolygon = multipolygon.unwrap();
    assert_eq!(multipolygon.0.len(), 1);
}

#[test]
fn test_build_boundary_closed_reverse() {
    let mut builder = OsmBuilder::new();
    let rel = builder.relation();
    rel.outer(
        &mut builder,
        vec![
            named_node(24000000, 32000000, "2"),
            named_node(64000000, 61000000, "start"),
        ],
    );
    rel.outer(
        &mut builder,
        vec![
            named_node(54000000, 51000000, "1"),
            named_node(24000000, 31000000, "2"),
        ],
    );
    rel.outer(
        &mut builder,
        vec![
            named_node(34000000, 52000000, "start"),
            named_node(54000000, 51000000, "1"),
        ],
    );
    let relation = lookup_relation(&builder, rel.relation_id);
    let multipolygon = build_boundary(relation, &builder.objects);
    assert!(multipolygon.is_some());
    let multipolygon = multipolygon.unwrap();
    assert_eq!(multipolygon.0.len(), 1);
}

#[test]
fn test_build_one_boundary_closed() {
    let mut builder = OsmBuilder::new();
    let rel = builder.relation();
    rel.outer(
        &mut builder,
        vec![
            named_node(34000000, 52000000, "start"),
            named_node(54000000, 51000000, "1"),
            named_node(24000000, 31000000, "2"),
            named_node(34000000, 52000000, "start"),
        ],
    );
    let relation = lookup_relation(&builder, rel.relation_id);
    let multipolygon = build_boundary(relation, &builder.objects);
    assert!(multipolygon.is_some());
    let multipolygon = multipolygon.unwrap();
    assert_eq!(multipolygon.0.len(), 1);
}

#[test]
fn test_build_two_opposite_clockwise_boundaries() {
    let mut builder = OsmBuilder::new();
    let rel = builder.relation();
    // anti-clockwise polygon
    rel.outer(
        &mut builder,
        vec![
            named_node(0, 0, "start"),
            named_node(0, 10000000, "1"),
            named_node(10000000, 10000000, "2"),
            named_node(10000000, 0, "3"),
            named_node(0, 0, "start"),
        ],
    );
    // clockwise polygon
    rel.outer(
        &mut builder,
        vec![
            named_node(0, 0, "another_start"),
            named_node(0, -10000000, "4"),
            named_node(-10000000, -10000000, "5"),
            named_node(-10000000, 0, "6"),
            named_node(0, 0, "another_start"),
        ],
    );
    let relation = lookup_relation(&builder, rel.relation_id);
    let multipolygon = build_boundary(relation, &builder.objects);
    assert!(multipolygon.is_some());
    let multipolygon = multipolygon.unwrap();
    assert_eq!(multipolygon.0.len(), 2);
    let centroid = to_geo(&multipolygon).centroid();
    let centroid = centroid.unwrap();
    assert_eq!(centroid.x(), 0.0);
    assert_eq!(centroid.y(), 0.0);
}

#[test]
fn test_build_two_boundaries_closed() {
    let mut builder = OsmBuilder::new();
    let rel = builder.relation();
    rel.outer(
        &mut builder,
        vec![
            named_node(34000000, 52000000, "start"),
            named_node(54000000, 51000000, "1"),
            named_node(24000000, 31000000, "2"),
            named_node(64000000, 61000000, "start"),
        ],
    );
    rel.outer(
        &mut builder,
        vec![
            named_node(134000000, 152000000, "1start"),
            named_node(154000000, 151000000, "11"),
            named_node(124000000, 131000000, "12"),
            named_node(134000000, 152000000, "1start"),
        ],
    );
    let relation = lookup_relation(&builder, rel.relation_id);
    let multipolygon = build_boundary(relation, &builder.objects);
    assert!(multipolygon.is_some());
    let multipolygon = multipolygon.unwrap();
    assert_eq!(multipolygon.0.len(), 2);
}

#[test]
fn test_build_one_donut_boundary() {
    let mut builder = OsmBuilder::new();
    let rel = builder.relation();
    rel.outer(
        &mut builder,
        vec![
            named_node(0, 0, "start"),
            named_node(40000000, 0, "1"),
            named_node(40000000, 40000000, "2"),
            named_node(0, 40000000, "3"),
            named_node(0, 0, "start"),
        ],
    );
    rel.inner(
        &mut builder,
        vec![
            named_node(10000000, 10000000, "other_start"),
            named_node(20000000, 10000000, "11"),
            named_node(20000000, 20000000, "12"),
            named_node(10000000, 20000000, "13"),
            named_node(10000000, 10000000, "other_start"),
        ],
    );
    let relation = lookup_relation(&builder, rel.relation_id);
    let multipolygon = build_boundary(relation, &builder.objects);
    assert!(multipolygon.is_some());
    let multipolygon = multipolygon.unwrap();
    assert_eq!(multipolygon.0.len(), 1);
    assert_eq!(to_geo(&multipolygon).signed_area(), 15.);
}

#[test]
fn test_build_two_boundaries_with_one_hole() {
    let mut builder = OsmBuilder::new();
    let rel = builder.relation();
    rel.outer(
        &mut builder,
        vec![
            named_node(0, 0, "start"),
            named_node(40000000, 0, "1"),
            named_node(40000000, 40000000, "2"),
            named_node(0, 40000000, "3"),
            named_node(0, 0, "start"),
        ],
    );
    rel.inner(
        &mut builder,
        vec![
            named_node(10000000, 10000000, "other_start"),
            named_node(20000000, 10000000, "11"),
            named_node(20000000, 20000000, "12"),
            named_node(10000000, 20000000, "13"),
            named_node(10000000, 10000000, "other_start"),
        ],
    );
    rel.outer(
        &mut builder,
        vec![
            named_node(40000000, 40000000, "yet_another_start"),
            named_node(80000000, 40000000, "4"),
            named_node(80000000, 80000000, "5"),
            named_node(40000000, 80000000, "6"),
            named_node(40000000, 40000000, "yet_another_start"),
        ],
    );
    let relation = lookup_relation(&builder, rel.relation_id);
    let multipolygon = build_boundary(relation, &builder.objects);
    assert!(multipolygon.is_some());
    let multipolygon = multipolygon.unwrap();
    assert_eq!(multipolygon.0.len(), 2);
    assert_eq!(to_geo(&multipolygon).signed_area(), 31.);
}

#[test]
fn test_build_one_boundary_with_two_holes() {
    let mut builder = OsmBuilder::new();
    let rel = builder.relation();
    rel.outer(
        &mut builder,
        vec![
            named_node(0, 0, "start"),
            named_node(50000000, 0, "1"),
            named_node(50000000, 50000000, "2"),
            named_node(0, 50000000, "3"),
            named_node(0, 0, "start"),
        ],
    );
    rel.inner(
        &mut builder,
        vec![
            named_node(10000000, 10000000, "other_start"),
            named_node(20000000, 10000000, "11"),
            named_node(20000000, 20000000, "12"),
            named_node(10000000, 20000000, "13"),
            named_node(10000000, 10000000, "other_start"),
        ],
    );
    rel.inner(
        &mut builder,
        vec![
            named_node(30000000, 30000000, "yet_another_start"),
            named_node(40000000, 30000000, "4"),
            named_node(40000000, 40000000, "5"),
            named_node(30000000, 40000000, "6"),
            named_node(30000000, 30000000, "yet_another_start"),
        ],
    );
    let relation = lookup_relation(&builder, rel.relation_id);
    let multipolygon = build_boundary(relation, &builder.objects);
    assert!(multipolygon.is_some());
    let multipolygon = multipolygon.unwrap();
    assert_eq!(multipolygon.0.len(), 1);
    assert_eq!(to_geo(&multipolygon).signed_area(), 23.);
}

#[test]
fn test_build_two_boundaries_with_two_holes() {
    // a shirt button (one geometry with two holes) and another geometry
    // without a hole
    let mut builder = OsmBuilder::new();
    let rel = builder.relation();
    rel.outer(
        &mut builder,
        vec![
            named_node(0, 0, "start"),
            named_node(40000000, 0, "1"),
            named_node(40000000, 40000000, "2"),
            named_node(0, 40000000, "3"),
            named_node(0, 0, "start"),
        ],
    );
    rel.inner(
        &mut builder,
        vec![
            named_node(10000000, 10000000, "other_start"),
            named_node(20000000, 10000000, "11"),
            named_node(20000000, 20000000, "12"),
            named_node(10000000, 20000000, "13"),
            named_node(10000000, 10000000, "other_start"),
        ],
    );
    rel.inner(
        &mut builder,
        vec![
            named_node(21000000, 21000000, "another_start"),
            named_node(31000000, 21000000, "4"),
            named_node(31000000, 31000000, "5"),
            named_node(21000000, 31000000, "6"),
            named_node(21000000, 21000000, "another_start"),
        ],
    );
    rel.outer(
        &mut builder,
        vec![
            named_node(40000000, 40000000, "yet_another_start"),
            named_node(80000000, 40000000, "14"),
            named_node(80000000, 80000000, "15"),
            named_node(40000000, 80000000, "16"),
            named_node(40000000, 40000000, "yet_another_start"),
        ],
    );
    let relation = lookup_relation(&builder, rel.relation_id);
    let multipolygon = build_boundary(relation, &builder.objects);
    assert!(multipolygon.is_some());
    let multipolygon = multipolygon.unwrap();
    assert_eq!(multipolygon.0.len(), 2);
    assert_eq!(to_geo(&multipolygon).signed_area(), 30.);
}

#[test]
fn test_build_inner_touching_outer_at_one_point() {
    // A single polygon with an inner square touching it at a single point:
    // a valid polygon per the usual validity rules, which a strict
    // containment test would wrongly reject.
    let mut builder = OsmBuilder::new();
    let rel = builder.relation();
    rel.outer(
        &mut builder,
        vec![
            named_node(0, 0, "start"),
            named_node(40000000, 0, "1"),
            named_node(40000000, 40000000, "2"),
            named_node(0, 40000000, "3"),
            named_node(0, 0, "start"),
        ],
    );
    rel.inner(
        &mut builder,
        vec![
            named_node(20000000, 20000000, "other_start"),
            named_node(10000000, 10000000, "11"),
            named_node(20000000, 0, "touching"),
            named_node(30000000, 10000000, "13"),
            named_node(20000000, 20000000, "other_start"),
        ],
    );
    let relation = lookup_relation(&builder, rel.relation_id);
    let multipolygon = build_boundary(relation, &builder.objects);
    assert!(multipolygon.is_some());
    let multipolygon = multipolygon.unwrap();
    assert_eq!(multipolygon.0.len(), 1);
    assert_eq!(to_geo(&multipolygon).signed_area(), 14.);
    assert_eq!(multipolygon.0[0].interiors().len(), 1);
}

#[test]
fn test_build_two_touching_rings() {
    let mut builder = OsmBuilder::new();
    let rel = builder.relation();
    rel.outer(
        &mut builder,
        vec![
            named_node(-10000000, -10000000, "A"),
            named_node(10000000, -10000000, "B"),
        ],
    );
    rel.outer(
        &mut builder,
        vec![
            named_node(0, 0, "touching"),
            named_node(-10000000, -10000000, "A"),
        ],
    );
    rel.outer(
        &mut builder,
        vec![
            named_node(10000000, -10000000, "B"),
            named_node(0, 0, "touching"),
        ],
    );
    rel.outer(
        &mut builder,
        vec![
            named_node(10000000, 10000000, "C"),
            named_node(-10000000, 10000000, "D"),
        ],
    );
    rel.outer(
        &mut builder,
        vec![
            named_node(-10000000, 10000000, "D"),
            named_node(0, 0, "touching"),
        ],
    );
    rel.outer(
        &mut builder,
        vec![
            named_node(0, 0, "touching"),
            named_node(10000000, 10000000, "C"),
        ],
    );
    let relation = lookup_relation(&builder, rel.relation_id);
    let multipolygon = build_boundary(relation, &builder.objects);
    assert!(multipolygon.is_some());
    let multipolygon = multipolygon.unwrap();
    assert_eq!(multipolygon.0.len(), 2);
    assert_eq!(to_geo(&multipolygon).unsigned_area(), 2.);
}
