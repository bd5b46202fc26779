//! Boundary-part extraction, hole composition, and the boundary builder.

use crate::assembly::{
    assemble, assemble_rings, closed_distinct_part, cross_disjoint, distinct_ids,
    lemma_assembled_rings_closed, lemma_disjoint_parts_yield_no_rings,
    lemma_open_path_yields_no_rings, lemma_ordered_cycle_yields_one_ring,
    lemma_separate_closed_parts, lemma_single_closed_part, links_forward, last_link,
    parts_ids_disjoint, parts_model, path_tail, ring_closed, rings_model,
};
use crate::geometry::Point;
use crate::multipolygon::{seg_meets_polygon, MultiPolygon, Polygon, PolygonModel, Ring};
use crate::objects::{lookup_spec, Node, ObjectStore, OsmId, OsmObj, Relation, RelationRef, Way};
use vstd::prelude::*;

verus! {

/// The resolved point sequence of one way selected for boundary assembly.
/// Its first and last nodes are its connection endpoints; endpoints are
/// compared by node identifier, never by coordinate.
pub struct BoundaryPart {
    pub nodes: Vec<Node>,
}

impl BoundaryPart {
    pub fn new(nodes: Vec<Node>) -> (p: BoundaryPart)
        ensures
            p.nodes == nodes,
    {
        BoundaryPart { nodes }
    }

    /// Identifier of the leading endpoint.
    pub fn first(&self) -> (r: i64)
        requires
            self.nodes@.len() >= 1,
        ensures
            r == self.nodes@[0].id,
    {
        self.nodes[0].id
    }

    /// Identifier of the trailing endpoint.
    pub fn last(&self) -> (r: i64)
        requires
            self.nodes@.len() >= 1,
        ensures
            r == self.nodes@[self.nodes@.len() - 1].id,
    {
        self.nodes[self.nodes.len() - 1].id
    }
}

/// The nodes that the identifiers `ids[j..]` resolve to, in order.
/// Identifiers that are missing from the store or name something other
/// than a node are dropped.
pub open spec fn resolve_nodes_from(ids: Seq<i64>, store: Seq<OsmObj>, j: int) -> Seq<Node>
    decreases ids.len() - j,
{
    if j < 0 || j >= ids.len() {
        Seq::empty()
    } else {
        let rest = resolve_nodes_from(ids, store, j + 1);
        match lookup_spec(store, OsmId::Node(ids[j])) {
            Some(OsmObj::Node(n)) => seq![n] + rest,
            _ => rest,
        }
    }
}

/// Resolve a way's node identifiers to their points via the store.
pub fn get_nodes(way: &Way, objects: &ObjectStore) -> (r: Vec<Node>)
    ensures
        r@ == resolve_nodes_from(way.nodes@, objects@, 0),
{
    let ghost total = resolve_nodes_from(way.nodes@, objects@, 0);
    let mut res: Vec<Node> = Vec::new();
    let n = way.nodes.len();
    let mut j: usize = 0;
    while j < n
        invariant
            0 <= j <= n == way.nodes@.len(),
            res@ + resolve_nodes_from(way.nodes@, objects@, j as int) == total,
        decreases n - j,
    {
        let ghost pre = res@;
        match objects.lookup(OsmId::Node(way.nodes[j])) {
            Some(obj) => {
                match *obj {
                    OsmObj::Node(node) => {
                        res.push(node);
                        proof {
                            assert(pre + resolve_nodes_from(way.nodes@, objects@, j as int) =~= res@
                                + resolve_nodes_from(way.nodes@, objects@, j + 1));
                        }
                    },
                    _ => {},
                }
            },
            None => {},
        }
        j = j + 1;
    }
    proof {
        assert(res@ + resolve_nodes_from(way.nodes@, objects@, n as int) =~= res@);
    }
    res
}

/// The member's role is one of the accepted role strings.
pub open spec fn role_matches(role: Seq<char>, roles: Seq<Seq<char>>) -> bool {
    exists|i: int| 0 <= i < roles.len() && roles[i] == role
}

/// The views of a list of role strings.
pub open spec fn role_views(roles: Seq<String>) -> Seq<Seq<char>> {
    roles.map_values(|s: String| s@)
}

/// The node sequences of the members `refs[j..]` that carry an accepted
/// role and resolve to a way of at least two points, in member order.
pub open spec fn extract_from(
    refs: Seq<RelationRef>,
    store: Seq<OsmObj>,
    roles: Seq<Seq<char>>,
    j: int,
) -> Seq<Seq<Node>>
    decreases refs.len() - j,
{
    if j < 0 || j >= refs.len() {
        Seq::empty()
    } else {
        let rest = extract_from(refs, store, roles, j + 1);
        if role_matches(refs[j].role@, roles) {
            match lookup_spec(store, refs[j].member) {
                Some(OsmObj::Way(w)) => {
                    let nodes = resolve_nodes_from(w.nodes@, store, 0);
                    if nodes.len() > 1 {
                        seq![nodes] + rest
                    } else {
                        rest
                    }
                },
                _ => rest,
            }
        } else {
            rest
        }
    }
}

/// The members among `refs[j..]` that carry an accepted role but are
/// missing from the store; these are skipped, and reported so that a
/// caller can surface them as diagnostics.
pub open spec fn missing_from(
    refs: Seq<RelationRef>,
    store: Seq<OsmObj>,
    roles: Seq<Seq<char>>,
    j: int,
) -> Seq<OsmId>
    decreases refs.len() - j,
{
    if j < 0 || j >= refs.len() {
        Seq::empty()
    } else {
        let rest = missing_from(refs, store, roles, j + 1);
        if role_matches(refs[j].role@, roles) && lookup_spec(store, refs[j].member) is None {
            seq![refs[j].member] + rest
        } else {
            rest
        }
    }
}

proof fn lemma_extract_wf(refs: Seq<RelationRef>, store: Seq<OsmObj>, roles: Seq<Seq<char>>, j: int)
    ensures
        forall|k: int|
            0 <= k < extract_from(refs, store, roles, j).len() ==> #[trigger] extract_from(
                refs,
                store,
                roles,
                j,
            )[k].len() >= 2,
    decreases refs.len() - j,
{
    if j < 0 || j >= refs.len() {
    } else {
        lemma_extract_wf(refs, store, roles, j + 1);
        let cur = extract_from(refs, store, roles, j);
        let rest = extract_from(refs, store, roles, j + 1);
        assert forall|k: int| 0 <= k < cur.len() implies #[trigger] cur[k].len() >= 2 by {
            if cur.len() == rest.len() + 1 {
                if k > 0 {
                    assert(cur[k] == rest[k - 1]);
                }
            } else {
                assert(cur == rest);
                assert(cur[k] == rest[k]);
            }
        }
    }
}

fn role_matches_exec(role: &String, roles: &Vec<String>) -> (b: bool)
    ensures
        b == role_matches(role@, role_views(roles@)),
{
    let n = roles.len();
    let mut i: usize = 0;
    while i < n
        invariant
            0 <= i <= n == roles@.len(),
            forall|k: int| 0 <= k < i ==> #[trigger] roles@[k]@ != role@,
        decreases n - i,
    {
        if roles[i] == *role {
            proof {
                assert(role_views(roles@)[i as int] == role@);
            }
            return true;
        }
        i = i + 1;
    }
    proof {
        assert forall|k: int| 0 <= k < role_views(roles@).len() implies role_views(roles@)[k]
            != role@ by {
            assert(roles@[k]@ != role@);
        }
    }
    false
}

/// Select the members of the relation whose role is accepted, resolve each
/// one's way to its points, and drop degenerate fragments (fewer than two
/// points). Also returns the members that matched a role but were missing
/// from the store, so a caller can report them.
pub fn extract_boundary_parts(relation: &Relation, objects: &ObjectStore, roles: &Vec<String>) -> (r:
    (Vec<BoundaryPart>, Vec<OsmId>))
    ensures
        parts_model(r.0@) == extract_from(relation.refs@, objects@, role_views(roles@), 0),
        r.1@ == missing_from(relation.refs@, objects@, role_views(roles@), 0),
        forall|k: int| 0 <= k < r.0@.len() ==> #[trigger] r.0@[k].nodes@.len() >= 2,
{
    let ghost rvs = role_views(roles@);
    let ghost total = extract_from(relation.refs@, objects@, rvs, 0);
    let ghost total_missing = missing_from(relation.refs@, objects@, rvs, 0);
    let mut parts: Vec<BoundaryPart> = Vec::new();
    let mut missing: Vec<OsmId> = Vec::new();
    let n = relation.refs.len();
    let mut j: usize = 0;
    while j < n
        invariant
            0 <= j <= n == relation.refs@.len(),
            rvs == role_views(roles@),
            parts_model(parts@) + extract_from(relation.refs@, objects@, rvs, j as int) == total,
            missing@ + missing_from(relation.refs@, objects@, rvs, j as int) == total_missing,
            forall|k: int| 0 <= k < parts@.len() ==> #[trigger] parts@[k].nodes@.len() >= 2,
        decreases n - j,
    {
        let ghost pre = parts_model(parts@);
        let ghost pre_missing = missing@;
        let member_ref = &relation.refs[j];
        if role_matches_exec(&member_ref.role, roles) {
            match objects.lookup(member_ref.member) {
                Some(obj) => {
                    match obj.way() {
                        Some(way) => {
                            let nodes = get_nodes(way, objects);
                            if nodes.len() > 1 {
                                let ghost resolved = resolve_nodes_from(way.nodes@, objects@, 0);
                                parts.push(BoundaryPart::new(nodes));
                                proof {
                                    assert(role_matches(relation.refs@[j as int].role@, rvs));
                                    assert(lookup_spec(objects@, relation.refs@[j as int].member)
                                        == Some(OsmObj::Way(*way)));
                                    assert(extract_from(relation.refs@, objects@, rvs, j as int)
                                        == seq![resolved] + extract_from(
                                        relation.refs@,
                                        objects@,
                                        rvs,
                                        j + 1,
                                    ));
                                    assert(parts_model(parts@) =~= pre.push(resolved));
                                    assert(pre + (seq![resolved] + extract_from(
                                        relation.refs@,
                                        objects@,
                                        rvs,
                                        j + 1,
                                    )) =~= parts_model(parts@) + extract_from(
                                        relation.refs@,
                                        objects@,
                                        rvs,
                                        j + 1,
                                    ));
                                }
                            }
                        },
                        None => {},
                    }
                },
                None => {
                    missing.push(member_ref.member);
                    proof {
                        assert(pre_missing + missing_from(relation.refs@, objects@, rvs, j as int)
                            =~= missing@ + missing_from(relation.refs@, objects@, rvs, j + 1));
                    }
                },
            }
        }
        j = j + 1;
    }
    proof {
        assert(parts_model(parts@) + extract_from(relation.refs@, objects@, rvs, n as int)
            =~= parts_model(parts@));
        assert(missing@ + missing_from(relation.refs@, objects@, rvs, n as int) =~= missing@);
    }
    (parts, missing)
}

/// One polygon without holes for each assembled ring.
pub open spec fn rings_to_polys(rings: Seq<Seq<Point>>) -> Seq<PolygonModel> {
    rings.map_values(|r: Seq<Point>| PolygonModel { exterior: r, interiors: Seq::empty() })
}

/// What `build_boundary_parts` returns: the rings assembled from the
/// members carrying one of the given roles, one hole-free polygon per
/// ring, or nothing when no ring closed.
pub open spec fn build_boundary_parts_spec(
    rel: Relation,
    store: Seq<OsmObj>,
    roles: Seq<Seq<char>>,
) -> Option<Seq<PolygonModel>> {
    let rings = assemble(extract_from(rel.refs@, store, roles, 0)).0;
    if rings.len() == 0 {
        None
    } else {
        Some(rings_to_polys(rings))
    }
}

/// Extract the members carrying one of the given roles and assemble their
/// fragments into closed rings, as one polygon per ring. Returns `None`
/// when nothing closed. Missing members and unclosed chains are dropped
/// silently here; `extract_boundary_parts` and `assemble_rings` expose
/// them to callers that want the diagnostics.
pub fn build_boundary_parts(relation: &Relation, objects: &ObjectStore, roles: Vec<String>) -> (r:
    Option<MultiPolygon>)
    ensures
        match r {
            Some(mp) => build_boundary_parts_spec(*relation, objects@, role_views(roles@))
                == Some(mp@),
            None => build_boundary_parts_spec(*relation, objects@, role_views(roles@)) is None,
        },
{
    let (parts, _missing) = extract_boundary_parts(relation, objects, &roles);
    let assembled = assemble_rings(parts);
    let ghost ring_seq = assemble(extract_from(relation.refs@, objects@, role_views(roles@), 0)).0;
    let mut rings = assembled.rings;
    if rings.len() == 0 {
        return None;
    }
    let ghost total = rings_to_polys(ring_seq);
    let mut polys: Vec<Polygon> = Vec::new();
    proof {
        assert(polys@.map_values(|p: Polygon| p@) + rings_to_polys(rings_model(rings@)) =~= total);
    }
    while rings.len() > 0
        invariant
            polys@.map_values(|p: Polygon| p@) + rings_to_polys(rings_model(rings@)) == total,
        decreases rings@.len(),
    {
        let ghost pre = polys@.map_values(|p: Polygon| p@);
        let ghost rm_pre = rings_model(rings@);
        let ring = rings.remove(0);
        let ghost rv = ring@;
        let poly = Polygon::of_ring(ring);
        polys.push(poly);
        proof {
            assert(rings_model(rings@) =~= rm_pre.drop_first());
            assert(polys@.map_values(|p: Polygon| p@) =~= pre.push(poly@));
            assert(poly@ == rings_to_polys(rm_pre)[0]);
            assert(polys@.map_values(|p: Polygon| p@) + rings_to_polys(rings_model(rings@)) =~= pre
                + rings_to_polys(rm_pre));
        }
    }
    proof {
        assert(polys@.map_values(|p: Polygon| p@) =~= total);
    }
    Some(MultiPolygon(polys))
}

/// Every segment of the candidate hole shares at least one point with the
/// polygon (its boundary or its remaining area).
pub open spec fn ring_fits(poly: PolygonModel, ring: Seq<Point>) -> bool {
    forall|k: int|
        0 <= k && k + 1 < ring.len() ==> #[trigger] seg_meets_polygon(poly, ring[k], ring[k + 1])
}

/// The first polygon, in discovery order, that the hole fits.
pub open spec fn first_owner_from(polys: Seq<PolygonModel>, ring: Seq<Point>, j: int) -> Option<
    int,
>
    decreases polys.len() - j,
{
    if j < 0 || j >= polys.len() {
        None
    } else if ring_fits(polys[j], ring) {
        Some(j)
    } else {
        first_owner_from(polys, ring, j + 1)
    }
}

/// Attach one hole ring to its owner, if it has one; a hole that fits no
/// polygon is dropped.
pub open spec fn attach_ring(polys: Seq<PolygonModel>, ring: Seq<Point>) -> Seq<PolygonModel> {
    match first_owner_from(polys, ring, 0) {
        Some(j) => polys.update(
            j,
            PolygonModel { exterior: polys[j].exterior, interiors: polys[j].interiors.push(ring) },
        ),
        None => polys,
    }
}

/// Attach the hole rings `inners[j..]`, in order.
pub open spec fn attach_rings_from(
    polys: Seq<PolygonModel>,
    inners: Seq<Seq<Point>>,
    j: int,
) -> Seq<PolygonModel>
    decreases inners.len() - j,
{
    if j < 0 || j >= inners.len() {
        polys
    } else {
        attach_rings_from(attach_ring(polys, inners[j]), inners, j + 1)
    }
}

/// The exterior rings of a list of polygons.
pub open spec fn exteriors_of(polys: Seq<PolygonModel>) -> Seq<Seq<Point>> {
    polys.map_values(|p: PolygonModel| p.exterior)
}

fn ring_fits_exec(poly: &Polygon, ring: &Ring) -> (b: bool)
    ensures
        b == ring_fits(poly@, ring@),
{
    let n = ring.0.len();
    if n == 0 {
        return true;
    }
    let mut k: usize = 0;
    while k < n - 1
        invariant
            0 < n == ring@.len(),
            0 <= k <= n,
            forall|t: int|
                0 <= t < k && t + 1 < ring@.len() ==> #[trigger] seg_meets_polygon(
                    poly@,
                    ring@[t],
                    ring@[t + 1],
                ),
        decreases n - k,
    {
        if !crate::multipolygon::seg_meets_polygon_exec(poly, ring.0[k], ring.0[k + 1]) {
            return false;
        }
        k = k + 1;
    }
    true
}

fn attach_one_exec(outers: &mut MultiPolygon, ring: Ring)
    ensures
        final(outers)@ == attach_ring(old(outers)@, ring@),
{
    let n = outers.0.len();
    let mut j: usize = 0;
    while j < n
        invariant
            0 <= j <= n == outers.0@.len(),
            outers@ == old(outers)@,
            first_owner_from(outers@, ring@, 0) == first_owner_from(outers@, ring@, j as int),
        decreases n - j,
    {
        if ring_fits_exec(&outers.0[j], &ring) {
            let ghost pre = outers@;
            let ghost vec_pre = outers.0@;
            let ghost rv = ring@;
            let mut owner = outers.0.remove(j);
            owner.interiors.push(ring);
            let ghost ow = owner;
            outers.0.insert(j, owner);
            proof {
                let newp = PolygonModel {
                    exterior: pre[j as int].exterior,
                    interiors: pre[j as int].interiors.push(rv),
                };
                assert(first_owner_from(pre, rv, j as int) == Some(j as int));
                assert(outers.0@ =~= vec_pre.update(j as int, ow));
                assert(ow@.interiors =~= newp.interiors);
                assert(ow@ =~= newp);
                assert(outers@ =~= pre.update(j as int, newp));
                assert(outers@ =~= attach_ring(pre, rv));
            }
            return ;
        }
        j = j + 1;
    }
}

fn clone_ring(r: &Ring) -> (c: Ring)
    ensures
        c@ == r@,
{
    let n = r.0.len();
    let mut pts: Vec<Point> = Vec::new();
    let mut k: usize = 0;
    while k < n
        invariant
            0 <= k <= n == r@.len(),
            pts@ == r@.take(k as int),
        decreases n - k,
    {
        pts.push(r.0[k]);
        proof {
            assert(pts@ =~= r@.take(k + 1));
        }
        k = k + 1;
    }
    proof {
        assert(pts@ =~= r@);
    }
    Ring(pts)
}

/// Attach each candidate hole to the polygon it fits: the first outer
/// polygon, in discovery order, such that every segment of the hole ring
/// shares a point with that polygon. A hole that fits no polygon is
/// dropped. Only the exterior ring of each entry of `inners` is used.
pub fn attach_inner_rings(outers: &mut MultiPolygon, inners: MultiPolygon)
    ensures
        final(outers)@ == attach_rings_from(old(outers)@, exteriors_of(inners@), 0),
{
    let ghost inner_rings = exteriors_of(inners@);
    let ghost target = attach_rings_from(outers@, inner_rings, 0);
    let n = inners.0.len();
    let mut idx: usize = 0;
    while idx < n
        invariant
            0 <= idx <= n == inners.0@.len(),
            inner_rings == exteriors_of(inners@),
            inner_rings.len() == n,
            attach_rings_from(outers@, inner_rings, idx as int) == target,
        decreases n - idx,
    {
        let ring = clone_ring(&inners.0[idx].exterior);
        proof {
            assert(ring@ == inner_rings[idx as int]);
        }
        attach_one_exec(outers, ring);
        idx = idx + 1;
    }
}

/// What `build_boundary` returns for a relation and a store.
pub open spec fn build_boundary_spec(rel: Relation, store: Seq<OsmObj>) -> Option<
    Seq<PolygonModel>,
> {
    let outers = build_boundary_parts_spec(rel, store, outer_roles());
    let inner_rings = assemble(extract_from(rel.refs@, store, inner_roles(), 0)).0;
    match outers {
        None => None,
        Some(polys) => Some(attach_rings_from(polys, inner_rings, 0)),
    }
}

/// The roles whose members contribute to a polygon's outer edge. The empty
/// role is treated as an alias for "outer".
pub open spec fn outer_roles() -> Seq<Seq<char>> {
    seq!["outer"@, "enclave"@, ""@]
}

/// The role whose members contribute holes.
pub open spec fn inner_roles() -> Seq<Seq<char>> {
    seq!["inner"@]
}

fn outer_role_strings() -> (r: Vec<String>)
    ensures
        role_views(r@) =~= outer_roles(),
{
    let mut v: Vec<String> = Vec::new();
    v.push("outer".to_owned());
    v.push("enclave".to_owned());
    v.push("".to_owned());
    v
}

fn inner_role_strings() -> (r: Vec<String>)
    ensures
        role_views(r@) =~= inner_roles(),
{
    let mut v: Vec<String> = Vec::new();
    v.push("inner".to_owned());
    v
}

/// Build the boundary that a relation describes: assemble the closed rings
/// of its outer-role members (roles "outer", "enclave" and ""), assemble
/// the rings of its "inner"-role members, and attach each inner ring to
/// the outer polygon it fits. Returns `None` when no outer ring closed;
/// inner rings without outers are dropped.
pub fn build_boundary(relation: &Relation, objects: &ObjectStore) -> (r: Option<MultiPolygon>)
    ensures
        match r {
            Some(mp) => build_boundary_spec(*relation, objects@) == Some(mp@),
            None => build_boundary_spec(*relation, objects@) is None,
        },
{
    let outer_polys = build_boundary_parts(relation, objects, outer_role_strings());
    let inner_polys = build_boundary_parts(relation, objects, inner_role_strings());
    match outer_polys {
        None => None,
        Some(mut outers) => {
            match inner_polys {
                Some(inners) => {
                    proof {
                        assert(exteriors_of(inners@) =~= assemble(
                            extract_from(relation.refs@, objects@, inner_roles(), 0),
                        ).0);
                    }
                    attach_inner_rings(&mut outers, inners);
                    Some(outers)
                },
                None => Some(outers),
            }
        },
    }
}

proof fn lemma_extract_none_matching(
    refs: Seq<RelationRef>,
    store: Seq<OsmObj>,
    roles: Seq<Seq<char>>,
    j: int,
)
    requires
        forall|i: int|
            #![trigger refs[i]]
            0 <= i < refs.len() ==> !role_matches(refs[i].role@, roles),
    ensures
        extract_from(refs, store, roles, j) == Seq::<Seq<Node>>::empty(),
    decreases refs.len() - j,
{
    if j < 0 || j >= refs.len() {
    } else {
        lemma_extract_none_matching(refs, store, roles, j + 1);
    }
}

/// For a relation with no member of any accepted role — neither
/// outer-like nor inner — no boundary is produced.
pub proof fn lemma_no_accepted_members_yield_none(rel: Relation, store: Seq<OsmObj>)
    requires
        forall|i: int|
            #![trigger rel.refs@[i]]
            0 <= i < rel.refs@.len() ==> !role_matches(rel.refs@[i].role@, outer_roles())
                && !role_matches(rel.refs@[i].role@, inner_roles()),
    ensures
        build_boundary_spec(rel, store) is None,
{
    lemma_extract_none_matching(rel.refs@, store, outer_roles(), 0);
}

/// Outer-role fragments that share no node identifiers cannot chain by
/// shared endpoints, so no chain returns to its starting point and the
/// relation yields no boundary.
pub proof fn lemma_disjoint_outer_fragments_yield_none(rel: Relation, store: Seq<OsmObj>)
    requires
        parts_ids_disjoint(extract_from(rel.refs@, store, outer_roles(), 0)),
    ensures
        build_boundary_spec(rel, store) is None,
{
    lemma_extract_wf(rel.refs@, store, outer_roles(), 0);
    lemma_disjoint_parts_yield_no_rings(extract_from(rel.refs@, store, outer_roles(), 0));
}

/// Outer-role fragments that chain front to back into a single open
/// path, with no node identifier repeated anywhere along it, never
/// return to a point of the chain, so the relation yields no boundary.
pub proof fn lemma_open_outer_path_yields_none(rel: Relation, store: Seq<OsmObj>)
    requires
        ({
            let pool = extract_from(rel.refs@, store, outer_roles(), 0);
            &&& pool.len() >= 1
            &&& pool[0].len() >= 2
            &&& links_forward(pool[0][pool[0].len() - 1].id, pool.drop_first())
            &&& distinct_ids(pool[0] + path_tail(pool.drop_first()))
        }),
    ensures
        build_boundary_spec(rel, store) is None,
{
    lemma_open_path_yields_no_rings(extract_from(rel.refs@, store, outer_roles(), 0));
}

proof fn lemma_first_owner_bounds(polys: Seq<PolygonModel>, ring: Seq<Point>, j: int)
    ensures
        match first_owner_from(polys, ring, j) {
            Some(m) => 0 <= m < polys.len(),
            None => true,
        },
    decreases polys.len() - j,
{
    if j < 0 || j >= polys.len() {
    } else if ring_fits(polys[j], ring) {
    } else {
        lemma_first_owner_bounds(polys, ring, j + 1);
    }
}

proof fn lemma_attach_preserves_len(polys: Seq<PolygonModel>, inners: Seq<Seq<Point>>, j: int)
    ensures
        attach_rings_from(polys, inners, j).len() == polys.len(),
    decreases inners.len() - j,
{
    if j < 0 || j >= inners.len() {
    } else {
        lemma_first_owner_bounds(polys, inners[j], 0);
        let next = attach_ring(polys, inners[j]);
        assert(next.len() == polys.len());
        lemma_attach_preserves_len(next, inners, j + 1);
    }
}

/// A relation whose outer-role members extract to a single fragment that
/// returns to its starting identifier yields exactly one polygon,
/// whatever the fragment's orientation.
pub proof fn lemma_single_closed_outer_yields_one_polygon(
    rel: Relation,
    store: Seq<OsmObj>,
    part: Seq<Node>,
)
    requires
        extract_from(rel.refs@, store, outer_roles(), 0) == seq![part],
        part.len() >= 2,
        part[0].id == part[part.len() - 1].id,
        distinct_ids(part.take(part.len() - 1)),
    ensures
        (build_boundary_spec(rel, store) matches Some(polys) && polys.len() == 1),
{
    lemma_single_closed_part(part);
    let polys = rings_to_polys(assemble(seq![part]).0);
    assert(polys.len() == 1);
    let inner_rings = assemble(extract_from(rel.refs@, store, inner_roles(), 0)).0;
    lemma_attach_preserves_len(polys, inner_rings, 0);
}

/// A relation whose outer-role fragments chain front to back, in member
/// order, with the last fragment returning to the first one's starting
/// identifier, yields exactly one polygon: the fragments close into one
/// ring.
pub proof fn lemma_ordered_outer_cycle_yields_one_polygon(rel: Relation, store: Seq<OsmObj>)
    requires
        ({
            let pool = extract_from(rel.refs@, store, outer_roles(), 0);
            &&& pool.len() >= 2
            &&& pool[0].len() >= 2
            &&& links_forward(pool[0][pool[0].len() - 1].id, pool.drop_first())
            &&& last_link(pool[0][pool[0].len() - 1].id, pool.drop_first()) == pool[0][0].id
            &&& distinct_ids((pool[0] + path_tail(pool.drop_first())).drop_last())
        }),
    ensures
        (build_boundary_spec(rel, store) matches Some(polys) && polys.len() == 1),
{
    let pool = extract_from(rel.refs@, store, outer_roles(), 0);
    lemma_ordered_cycle_yields_one_ring(pool);
    let polys = rings_to_polys(assemble(pool).0);
    let inner_rings = assemble(extract_from(rel.refs@, store, inner_roles(), 0)).0;
    lemma_attach_preserves_len(polys, inner_rings, 0);
}

/// A relation whose outer-role members extract to separately closed
/// fragments — each returning to its own starting identifier, none
/// sharing an identifier with another, whatever their winding direction —
/// yields exactly one polygon per fragment.
pub proof fn lemma_separate_closed_outers_yield_one_polygon_each(rel: Relation, store: Seq<OsmObj>)
    requires
        extract_from(rel.refs@, store, outer_roles(), 0).len() >= 1,
        forall|p: int|
            0 <= p < extract_from(rel.refs@, store, outer_roles(), 0).len()
                ==> closed_distinct_part(#[trigger] extract_from(rel.refs@, store, outer_roles(), 0)[p]),
        cross_disjoint(extract_from(rel.refs@, store, outer_roles(), 0)),
    ensures
        (build_boundary_spec(rel, store) matches Some(polys) && polys.len() == extract_from(
            rel.refs@,
            store,
            outer_roles(),
            0,
        ).len()),
{
    let pool = extract_from(rel.refs@, store, outer_roles(), 0);
    lemma_separate_closed_parts(pool);
    let polys = rings_to_polys(assemble(pool).0);
    let inner_rings = assemble(extract_from(rel.refs@, store, inner_roles(), 0)).0;
    lemma_attach_preserves_len(polys, inner_rings, 0);
}

proof fn lemma_first_owner_is(polys: Seq<PolygonModel>, ring: Seq<Point>, i: int, j: int)
    requires
        0 <= i <= j < polys.len(),
        ring_fits(polys[j], ring),
        forall|t: int| i <= t < j ==> !ring_fits(#[trigger] polys[t], ring),
    ensures
        first_owner_from(polys, ring, i) == Some(j),
    decreases j - i,
{
    if i == j {
    } else {
        lemma_first_owner_is(polys, ring, i + 1, j);
    }
}

proof fn lemma_first_owner_none(polys: Seq<PolygonModel>, ring: Seq<Point>, i: int)
    requires
        forall|t: int| 0 <= t < polys.len() ==> !ring_fits(#[trigger] polys[t], ring),
    ensures
        first_owner_from(polys, ring, i) is None,
    decreases polys.len() - i,
{
    if i < 0 || i >= polys.len() {
    } else {
        lemma_first_owner_none(polys, ring, i + 1);
    }
}

/// First match wins: a hole ring whose every segment meets polygon `j`,
/// and no polygon before `j`, is attached to `j` and to no other — even
/// when a later polygon would also fit. In particular, a hole that only
/// touches its owner's boundary (say at a single shared point) is still
/// attached, since touching counts as meeting.
pub proof fn lemma_hole_attached_to_first_fitting_polygon(
    polys: Seq<PolygonModel>,
    ring: Seq<Point>,
    j: int,
)
    requires
        0 <= j < polys.len(),
        ring_fits(polys[j], ring),
        forall|t: int| 0 <= t < j ==> !ring_fits(#[trigger] polys[t], ring),
    ensures
        attach_ring(polys, ring) == polys.update(
            j,
            (PolygonModel {
                exterior: polys[j].exterior,
                interiors: polys[j].interiors.push(ring),
            }),
        ),
{
    lemma_first_owner_is(polys, ring, 0, j);
}

/// A hole ring that fits no polygon is dropped: attachment leaves the
/// polygons unchanged.
pub proof fn lemma_unmatched_hole_dropped(polys: Seq<PolygonModel>, ring: Seq<Point>)
    requires
        forall|t: int| 0 <= t < polys.len() ==> !ring_fits(#[trigger] polys[t], ring),
    ensures
        attach_ring(polys, ring) == polys,
{
    lemma_first_owner_none(polys, ring, 0);
}

/// Every ring of a polygon is closed: the exterior returns to its first
/// point, and so does every hole.
pub open spec fn polygon_rings_closed(p: PolygonModel) -> bool {
    &&& ring_closed(p.exterior)
    &&& forall|h: int| 0 <= h < p.interiors.len() ==> ring_closed(#[trigger] p.interiors[h])
}

pub open spec fn all_polygons_closed(polys: Seq<PolygonModel>) -> bool {
    forall|k: int| 0 <= k < polys.len() ==> polygon_rings_closed(#[trigger] polys[k])
}

proof fn lemma_attach_ring_closed(polys: Seq<PolygonModel>, ring: Seq<Point>)
    requires
        all_polygons_closed(polys),
        ring_closed(ring),
    ensures
        all_polygons_closed(attach_ring(polys, ring)),
{
    lemma_first_owner_bounds(polys, ring, 0);
    match first_owner_from(polys, ring, 0) {
        Some(j) => {
            let out = attach_ring(polys, ring);
            assert forall|k: int| 0 <= k < out.len() implies polygon_rings_closed(
                #[trigger] out[k],
            ) by {
                if k == j {
                    assert(polygon_rings_closed(polys[j]));
                    assert forall|h: int| 0 <= h < out[k].interiors.len() implies ring_closed(
                        #[trigger] out[k].interiors[h],
                    ) by {
                        if h < polys[j].interiors.len() {
                            assert(out[k].interiors[h] == polys[j].interiors[h]);
                        } else {
                            assert(out[k].interiors[h] == ring);
                        }
                    }
                } else {
                    assert(out[k] == polys[k]);
                }
            }
        },
        None => {},
    }
}

proof fn lemma_attach_rings_closed(polys: Seq<PolygonModel>, inners: Seq<Seq<Point>>, j: int)
    requires
        all_polygons_closed(polys),
        crate::assembly::all_rings_closed(inners),
    ensures
        all_polygons_closed(attach_rings_from(polys, inners, j)),
    decreases inners.len() - j,
{
    if j < 0 || j >= inners.len() {
    } else {
        lemma_attach_ring_closed(polys, inners[j]);
        lemma_attach_rings_closed(attach_ring(polys, inners[j]), inners, j + 1);
    }
}

/// Every polygon a built boundary carries is made of closed rings: each
/// emitted ring returned to an already-seen node identifier and was
/// completed back to its first point, and hole attachment only moves such
/// rings around.
pub proof fn lemma_built_polygons_closed(rel: Relation, store: Seq<OsmObj>)
    ensures
        (build_boundary_spec(rel, store) matches Some(polys) ==> all_polygons_closed(polys)),
{
    let outer_rings = assemble(extract_from(rel.refs@, store, outer_roles(), 0)).0;
    let inner_rings = assemble(extract_from(rel.refs@, store, inner_roles(), 0)).0;
    lemma_assembled_rings_closed(extract_from(rel.refs@, store, outer_roles(), 0));
    lemma_assembled_rings_closed(extract_from(rel.refs@, store, inner_roles(), 0));
    if outer_rings.len() > 0 {
        let polys = rings_to_polys(outer_rings);
        assert forall|k: int| 0 <= k < polys.len() implies polygon_rings_closed(
            #[trigger] polys[k],
        ) by {
            assert(polys[k].exterior == outer_rings[k]);
            assert(ring_closed(outer_rings[k]));
        }
        lemma_attach_rings_closed(polys, inner_rings, 0);
    }
}

/// Running the builder twice on the same relation and object-store
/// snapshot yields identical output: the result is a pure function of
/// the inputs, with no hidden mutable state. The executable
/// `build_boundary` returns exactly `build_boundary_spec` of its inputs,
/// so any two runs agree.
pub proof fn lemma_build_boundary_idempotent(
    rel: Relation,
    store: Seq<OsmObj>,
    first: Option<Seq<PolygonModel>>,
    second: Option<Seq<PolygonModel>>,
)
    requires
        first == build_boundary_spec(rel, store),
        second == build_boundary_spec(rel, store),
    ensures
        first == second,
{
}

} // verus!
