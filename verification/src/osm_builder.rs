//! A synthetic-data builder for object stores, used to construct fixtures
//! for exercising the boundary builder. Pure scaffolding: it has no role
//! at run time.

use crate::geometry::Point;
use crate::objects::{insert_spec, lookup_spec, Node, ObjectStore, OsmId, OsmObj, RelationRef, Way};
use vstd::prelude::*;

verus! {

/// A point paired with an optional node name, as the builder methods take
/// them. Named points with the same name reuse one node identifier, which
/// is how fixtures express shared endpoints.
pub fn named_node(decimicro_lon: i32, decimicro_lat: i32, name: &str) -> (r: (
    Point,
    Option<String>,
))
    ensures
        r.0 == (Point { x: decimicro_lon, y: decimicro_lat }),
        (r.1 matches Some(s) && s@ == name@),
{
    (Point { x: decimicro_lon, y: decimicro_lat }, Some(name.to_owned()))
}

/// The mathematical content of a builder: the three identifier counters,
/// the store built so far, and the name-to-identifier memo.
#[verifier::ext_equal]
pub struct BuilderModel {
    pub node_id: int,
    pub way_id: int,
    pub relation_id: int,
    pub objects: Seq<OsmObj>,
    pub named_nodes: Seq<(String, i64)>,
}

/// Builds an object store entity by entity, handing out fresh identifiers
/// from per-kind counters.
pub struct OsmBuilder {
    node_id: i64,
    way_id: i64,
    relation_id: i64,
    pub objects: ObjectStore,
    named_nodes: Vec<(String, i64)>,
}

impl View for OsmBuilder {
    type V = BuilderModel;

    closed spec fn view(&self) -> BuilderModel {
        BuilderModel {
            node_id: self.node_id as int,
            way_id: self.way_id as int,
            relation_id: self.relation_id as int,
            objects: self.objects@,
            named_nodes: self.named_nodes@,
        }
    }
}

/// The identifier recorded for a name, if any: the first entry at or
/// after position `j` carrying it.
pub open spec fn find_named_from(named: Seq<(String, i64)>, name: Seq<char>, j: int) -> Option<i64>
    decreases named.len() - j,
{
    if j < 0 || j >= named.len() {
        None
    } else if named[j].0@ == name {
        Some(named[j].1)
    } else {
        find_named_from(named, name, j + 1)
    }
}

/// What adding one point does to a builder, and the node identifier it
/// yields: a named point whose name was seen before reuses that node;
/// otherwise a fresh node is created and the counter advances.
pub open spec fn spec_node(b: BuilderModel, coord: Point, name: Option<String>) -> (
    BuilderModel,
    i64,
) {
    let reuse = match name {
        Some(nm) => find_named_from(b.named_nodes, nm@, 0),
        None => None,
    };
    match reuse {
        Some(id) => (b, id),
        None => {
            let node = Node {
                id: b.node_id as i64,
                decimicro_lat: coord.y,
                decimicro_lon: coord.x,
            };
            let named = match name {
                Some(nm) => b.named_nodes.push((nm, b.node_id as i64)),
                None => b.named_nodes,
            };
            (
                BuilderModel {
                    node_id: b.node_id + 1,
                    way_id: b.way_id,
                    relation_id: b.relation_id,
                    objects: insert_spec(b.objects, OsmObj::Node(node)),
                    named_nodes: named,
                },
                b.node_id as i64,
            )
        },
    }
}

/// Folding `spec_node` over the points `coords[j..]`: the final builder
/// state and the node identifiers produced, in order.
pub open spec fn spec_nodes(b: BuilderModel, coords: Seq<(Point, Option<String>)>, j: int) -> (
    BuilderModel,
    Seq<i64>,
)
    decreases coords.len() - j,
{
    if j < 0 || j >= coords.len() {
        (b, Seq::empty())
    } else {
        let s = spec_node(b, coords[j].0, coords[j].1);
        let rest = spec_nodes(s.0, coords, j + 1);
        (rest.0, seq![s.1] + rest.1)
    }
}

/// What appending one member way does to a builder: the way's nodes are
/// added as `spec_nodes` says, the way itself is inserted under the next
/// way identifier, and one member reference carrying the given role is
/// appended to the relation's member list.
pub open spec fn member_added(
    pre: BuilderModel,
    post: BuilderModel,
    rel_id: i64,
    coords: Seq<(Point, Option<String>)>,
    role: Seq<char>,
) -> bool {
    let s = spec_nodes(pre, coords, 0);
    let wid = s.0.way_id;
    &&& post.node_id == s.0.node_id
    &&& post.named_nodes == s.0.named_nodes
    &&& post.way_id == wid + 1
    &&& post.relation_id == pre.relation_id
    &&& (lookup_spec(pre.objects, OsmId::Relation(rel_id)) matches Some(OsmObj::Relation(r0))
        ==> exists|w: Way, rr: RelationRef, rel2: crate::objects::Relation|
        #![trigger w.id, rr.role, rel2.id]
        {
            &&& w.id == wid
            &&& w.nodes@ == s.1
            &&& rr.member == OsmId::Way(w.id)
            &&& rr.role@ == role
            &&& rel2.id == rel_id
            &&& rel2.refs@ == r0.refs@.push(rr)
            &&& post.objects == insert_spec(
                insert_spec(s.0.objects, OsmObj::Way(w)),
                OsmObj::Relation(rel2),
            )
        })
}

proof fn lemma_spec_nodes_counters(b: BuilderModel, coords: Seq<(Point, Option<String>)>, j: int)
    ensures
        spec_nodes(b, coords, j).0.way_id == b.way_id,
        spec_nodes(b, coords, j).0.relation_id == b.relation_id,
    decreases coords.len() - j,
{
    if j < 0 || j >= coords.len() {
    } else {
        lemma_spec_nodes_counters(spec_node(b, coords[j].0, coords[j].1).0, coords, j + 1);
    }
}

/// A handle to a relation being built; `outer` and `inner` append member
/// ways to it.
pub struct Relation {
    pub relation_id: i64,
}

impl Relation {
    /// Append one way of points as an "outer"-role member.
    pub fn outer(&self, builder: &mut OsmBuilder, coords: Vec<(Point, Option<String>)>)
        requires
            old(builder)@.node_id + coords@.len() <= i64::MAX,
            old(builder)@.way_id < i64::MAX,
            (lookup_spec(old(builder)@.objects, OsmId::Relation(self.relation_id)) matches Some(
                OsmObj::Relation(_),
            )),
        ensures
            member_added(old(builder)@, final(builder)@, self.relation_id, coords@, "outer"@),
    {
        add_member(self.relation_id, builder, coords, "outer".to_owned());
    }

    /// Append one way of points as an "inner"-role member.
    pub fn inner(&self, builder: &mut OsmBuilder, coords: Vec<(Point, Option<String>)>)
        requires
            old(builder)@.node_id + coords@.len() <= i64::MAX,
            old(builder)@.way_id < i64::MAX,
            (lookup_spec(old(builder)@.objects, OsmId::Relation(self.relation_id)) matches Some(
                OsmObj::Relation(_),
            )),
        ensures
            member_added(old(builder)@, final(builder)@, self.relation_id, coords@, "inner"@),
    {
        add_member(self.relation_id, builder, coords, "inner".to_owned());
    }
}

fn clone_refs(refs: &Vec<RelationRef>) -> (r: Vec<RelationRef>)
    ensures
        r@ == refs@,
{
    let n = refs.len();
    let mut r: Vec<RelationRef> = Vec::new();
    let mut k: usize = 0;
    while k < n
        invariant
            0 <= k <= n == refs@.len(),
            r@ == refs@.take(k as int),
        decreases n - k,
    {
        r.push(RelationRef { member: refs[k].member, role: refs[k].role.clone() });
        proof {
            assert(r@ =~= refs@.take(k + 1));
        }
        k = k + 1;
    }
    proof {
        assert(r@ =~= refs@);
    }
    r
}

fn add_member(rel_id: i64, builder: &mut OsmBuilder, coords: Vec<(Point, Option<String>)>, role: String)
    requires
        old(builder)@.node_id + coords@.len() <= i64::MAX,
        old(builder)@.way_id < i64::MAX,
        (lookup_spec(old(builder)@.objects, OsmId::Relation(rel_id)) matches Some(
            OsmObj::Relation(_),
        )),
    ensures
        member_added(old(builder)@, final(builder)@, rel_id, coords@, role@),
{
    let mut new_refs: Vec<RelationRef> = Vec::new();
    match builder.objects.lookup(OsmId::Relation(rel_id)) {
        Some(obj) => {
            match obj {
                OsmObj::Relation(r0) => {
                    new_refs = clone_refs(&r0.refs);
                },
                _ => {},
            }
        },
        None => {},
    }
    let wid = builder.way(coords);
    let ghost mid = builder@;
    new_refs.push(RelationRef { member: OsmId::Way(wid), role });
    let rel2 = crate::objects::Relation { id: rel_id, refs: new_refs };
    let ghost grel2 = rel2;
    let ghost grr = grel2.refs@[grel2.refs@.len() - 1];
    builder.objects.insert(OsmObj::Relation(rel2));
    proof {
        let s = spec_nodes(old(builder)@, coords@, 0);
        lemma_spec_nodes_counters(old(builder)@, coords@, 0);
        let gw = choose|w: Way|
            #![trigger w.id]
            w.id == s.0.way_id && w.nodes@ == s.1 && mid.objects == insert_spec(
                s.0.objects,
                OsmObj::Way(w),
            );
        if let Some(OsmObj::Relation(r0)) = lookup_spec(
            old(builder)@.objects,
            OsmId::Relation(rel_id),
        ) {
            assert(grel2.refs@ =~= r0.refs@.push(grr));
            assert(gw.id == s.0.way_id && grr.role@ == role@ && grel2.id == rel_id
                && grr.member == OsmId::Way(gw.id) && grel2.refs@ == r0.refs@.push(grr)
                && builder@.objects == insert_spec(
                insert_spec(s.0.objects, OsmObj::Way(gw)),
                OsmObj::Relation(grel2),
            ));
        }
    }
}

impl OsmBuilder {
    pub fn new() -> (b: OsmBuilder)
        ensures
            b@.node_id == 0,
            b@.way_id == 0,
            b@.relation_id == 0,
            b@.objects == Seq::<OsmObj>::empty(),
            b@.named_nodes == Seq::<(String, i64)>::empty(),
    {
        OsmBuilder {
            node_id: 0,
            way_id: 0,
            relation_id: 0,
            objects: ObjectStore::new(),
            named_nodes: Vec::new(),
        }
    }

    fn find_named(&self, name: &String) -> (r: Option<i64>)
        ensures
            r == find_named_from(self@.named_nodes, name@, 0),
    {
        let n = self.named_nodes.len();
        let mut k: usize = 0;
        while k < n
            invariant
                0 <= k <= n == self.named_nodes@.len(),
                find_named_from(self.named_nodes@, name@, 0) == find_named_from(
                    self.named_nodes@,
                    name@,
                    k as int,
                ),
            decreases n - k,
        {
            if self.named_nodes[k].0 == *name {
                return Some(self.named_nodes[k].1);
            }
            k = k + 1;
        }
        None
    }

    /// Start a fresh relation with no members and return a handle to it.
    pub fn relation(&mut self) -> (r: Relation)
        requires
            old(self)@.relation_id < i64::MAX,
        ensures
            r.relation_id == old(self)@.relation_id,
            final(self)@.node_id == old(self)@.node_id,
            final(self)@.way_id == old(self)@.way_id,
            final(self)@.named_nodes == old(self)@.named_nodes,
            final(self)@.relation_id == old(self)@.relation_id + 1,
            (exists|rel: crate::objects::Relation|
                #![trigger rel.id]
                rel.id == old(self)@.relation_id && rel.refs@ == Seq::<RelationRef>::empty()
                    && final(self)@.objects == insert_spec(
                    old(self)@.objects,
                    OsmObj::Relation(rel),
                )),
    {
        let id = self.relation_id;
        let rel = crate::objects::Relation { id, refs: Vec::new() };
        let ghost grel = rel;
        self.objects.insert(OsmObj::Relation(rel));
        self.relation_id = self.relation_id + 1;
        proof {
            assert(grel.refs@ =~= Seq::<RelationRef>::empty());
            assert(grel.id == old(self)@.relation_id && self@.objects == insert_spec(
                old(self)@.objects,
                OsmObj::Relation(grel),
            ));
        }
        Relation { relation_id: id }
    }

    /// Add the points as nodes and a way through them; returns the way's
    /// identifier.
    pub fn way(&mut self, coords: Vec<(Point, Option<String>)>) -> (id: i64)
        requires
            old(self)@.node_id + coords@.len() <= i64::MAX,
            old(self)@.way_id < i64::MAX,
        ensures
            ({
                let s = spec_nodes(old(self)@, coords@, 0);
                &&& id == s.0.way_id
                &&& final(self)@.node_id == s.0.node_id
                &&& final(self)@.relation_id == s.0.relation_id
                &&& final(self)@.named_nodes == s.0.named_nodes
                &&& final(self)@.way_id == s.0.way_id + 1
                &&& exists|w: Way|
                    #![trigger w.id]
                    w.id == s.0.way_id && w.nodes@ == s.1 && final(self)@.objects == insert_spec(
                        s.0.objects,
                        OsmObj::Way(w),
                    )
            }),
    {
        let ghost target = spec_nodes(self@, coords@, 0);
        let n = coords.len();
        let mut ids: Vec<i64> = Vec::new();
        let mut j: usize = 0;
        while j < n
            invariant
                0 <= j <= n == coords@.len(),
                self@.node_id + (n - j) <= i64::MAX,
                self@.way_id == old(self)@.way_id,
                self@.relation_id == old(self)@.relation_id,
                spec_nodes(self@, coords@, j as int).0 == target.0,
                ids@ + spec_nodes(self@, coords@, j as int).1 == target.1,
            decreases n - j,
        {
            let ghost pre_ids = ids@;
            let ghost pre_model = self@;
            let p = &coords[j];
            let nm: Option<String> = match &p.1 {
                Some(s) => Some(s.clone()),
                None => None,
            };
            proof {
                assert(nm == coords@[j as int].1);
            }
            let nid = self.node(p.0, nm);
            ids.push(nid);
            proof {
                assert(pre_ids + spec_nodes(pre_model, coords@, j as int).1 =~= ids@ + spec_nodes(
                    self@,
                    coords@,
                    j + 1,
                ).1);
            }
            j = j + 1;
        }
        proof {
            assert(ids@ + spec_nodes(self@, coords@, n as int).1 =~= ids@);
        }
        let id = self.way_id;
        let w = Way { id, nodes: ids };
        let ghost gw = w;
        self.objects.insert(OsmObj::Way(w));
        self.way_id = self.way_id + 1;
        proof {
            let s = spec_nodes(old(self)@, coords@, 0);
            assert(gw.id == s.0.way_id && gw.nodes@ == s.1 && self@.objects == insert_spec(
                s.0.objects,
                OsmObj::Way(gw),
            ));
        }
        id
    }

    /// Add one point as a node; a named point whose name was already used
    /// returns the node recorded for that name instead of a new one.
    pub fn node(&mut self, coord: Point, name: Option<String>) -> (id: i64)
        requires
            old(self)@.node_id < i64::MAX,
        ensures
            final(self)@ == spec_node(old(self)@, coord, name).0,
            id == spec_node(old(self)@, coord, name).1,
    {
        let reuse: Option<i64> = match &name {
            Some(nm) => self.find_named(nm),
            None => None,
        };
        match reuse {
            Some(id) => {
                proof {
                    assert(self@ =~= spec_node(old(self)@, coord, name).0);
                }
                id
            },
            None => {
                let id = self.node_id;
                let node = Node { id, decimicro_lat: coord.y, decimicro_lon: coord.x };
                self.objects.insert(OsmObj::Node(node));
                self.node_id = self.node_id + 1;
                match name {
                    Some(nm) => {
                        self.named_nodes.push((nm, id));
                    },
                    None => {},
                }
                proof {
                    assert(self@ =~= spec_node(old(self)@, coord, name).0);
                }
                id
            },
        }
    }
}

} // verus!
