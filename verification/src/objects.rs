//! The object model: nodes, ways, relations, and the read-only store that
//! resolves an identifier to the entity it names.

use vstd::prelude::*;

verus! {

/// A single geographic point with a stable identifier. Coordinates are held
/// in decimicro degrees: 1e-7 of a degree of latitude or longitude.
#[derive(Clone, Copy, PartialEq, Eq, Structural, Debug)]
pub struct Node {
    pub id: i64,
    pub decimicro_lat: i32,
    pub decimicro_lon: i32,
}

/// An ordered sequence of node identifiers describing a line or open path.
/// Geometry is resolved by looking each identifier up in the store.
#[derive(Clone, Debug)]
pub struct Way {
    pub id: i64,
    pub nodes: Vec<i64>,
}

/// A key into the store. Identifiers of different kinds never collide: the
/// key space is the disjoint union of the node, way and relation id spaces.
#[derive(Clone, Copy, PartialEq, Eq, Structural, Debug, Hash)]
pub enum OsmId {
    Node(i64),
    Way(i64),
    Relation(i64),
}

/// One member of a relation: the member's identifier and its role.
#[derive(Clone, Debug)]
pub struct RelationRef {
    pub member: OsmId,
    pub role: String,
}

/// A map entity whose members are tagged with a role describing their part
/// in a composite feature.
#[derive(Clone, Debug)]
pub struct Relation {
    pub id: i64,
    pub refs: Vec<RelationRef>,
}

/// Any entity the store can hold.
#[derive(Clone, Debug)]
pub enum OsmObj {
    Node(Node),
    Way(Way),
    Relation(Relation),
}

impl OsmObj {
    /// The store key of this entity.
    pub open spec fn spec_id(&self) -> OsmId {
        match *self {
            OsmObj::Node(n) => OsmId::Node(n.id),
            OsmObj::Way(ref w) => OsmId::Way(w.id),
            OsmObj::Relation(ref r) => OsmId::Relation(r.id),
        }
    }

    pub fn id(&self) -> (r: OsmId)
        ensures
            r == self.spec_id(),
    {
        match *self {
            OsmObj::Node(ref n) => OsmId::Node(n.id),
            OsmObj::Way(ref w) => OsmId::Way(w.id),
            OsmObj::Relation(ref r) => OsmId::Relation(r.id),
        }
    }

    /// The way held by this entity, if it is one.
    pub fn way(&self) -> (r: Option<&Way>)
        ensures
            match r {
                Some(w) => *self is Way && *w == self->Way_0,
                None => !(*self is Way),
            },
    {
        match *self {
            OsmObj::Way(ref w) => Some(w),
            _ => None,
        }
    }
}

/// First entity at or after position `i` whose id is `id`.
pub open spec fn lookup_from(s: Seq<OsmObj>, id: OsmId, i: int) -> Option<OsmObj>
    decreases s.len() - i,
{
    if i < 0 || i >= s.len() {
        None
    } else if s[i].spec_id() == id {
        Some(s[i])
    } else {
        lookup_from(s, id, i + 1)
    }
}

/// What an identifier resolves to: the first entity in the store carrying it.
pub open spec fn lookup_spec(s: Seq<OsmObj>, id: OsmId) -> Option<OsmObj> {
    lookup_from(s, id, 0)
}

/// Store contents after an insert: the first entity with the same id is
/// replaced; if none exists, the entity is appended.
pub open spec fn insert_from(s: Seq<OsmObj>, obj: OsmObj, i: int) -> Seq<OsmObj>
    decreases s.len() - i,
{
    if i < 0 || i >= s.len() {
        s.push(obj)
    } else if s[i].spec_id() == obj.spec_id() {
        s.update(i, obj)
    } else {
        insert_from(s, obj, i + 1)
    }
}

pub open spec fn insert_spec(s: Seq<OsmObj>, obj: OsmObj) -> Seq<OsmObj> {
    insert_from(s, obj, 0)
}

/// An in-memory entity store keyed by `OsmId`. Read-only during assembly;
/// writes happen only while the store is being built.
#[derive(Clone, Debug)]
pub struct ObjectStore {
    objs: Vec<OsmObj>,
}

impl View for ObjectStore {
    type V = Seq<OsmObj>;

    closed spec fn view(&self) -> Seq<OsmObj> {
        self.objs@
    }
}

impl ObjectStore {
    pub fn new() -> (s: Self)
        ensures
            s@ == Seq::<OsmObj>::empty(),
    {
        ObjectStore { objs: Vec::new() }
    }

    /// Resolve an identifier to the entity carrying it, if any.
    pub fn lookup(&self, id: OsmId) -> (r: Option<&OsmObj>)
        ensures
            match r {
                Some(o) => lookup_spec(self@, id) == Some(*o),
                None => lookup_spec(self@, id) is None,
            },
    {
        let n = self.objs.len();
        let mut i: usize = 0;
        while i < n
            invariant
                0 <= i <= n == self@.len(),
                lookup_from(self@, id, 0) == lookup_from(self@, id, i as int),
            decreases n - i,
        {
            if self.objs[i].id() == id {
                return Some(&self.objs[i]);
            }
            i = i + 1;
        }
        None
    }

    /// Add an entity, replacing any entity that already carries its id.
    pub fn insert(&mut self, obj: OsmObj)
        ensures
            final(self)@ == insert_spec(old(self)@, obj),
    {
        let n = self.objs.len();
        let mut i: usize = 0;
        while i < n
            invariant
                0 <= i <= n == self@.len(),
                self@ == old(self)@,
                insert_from(self@, obj, 0) == insert_from(self@, obj, i as int),
            decreases n - i,
        {
            if self.objs[i].id() == obj.id() {
                self.objs.set(i, obj);
                return ;
            }
            i = i + 1;
        }
        self.objs.push(obj);
    }
}

} // verus!
