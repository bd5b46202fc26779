//! Ring assembly: joining boundary parts at shared endpoint identifiers
//! into closed rings.
//!
//! The spec functions in this module are the reference description of the
//! assembler: a chain of accepted nodes grows by appending parts whose
//! leading or trailing endpoint matches the chain's running endpoint; a ring
//! is emitted whenever a node identifier reappears anywhere in the open
//! chain, splitting the closed portion off. The executable assembler is
//! proved to return exactly what these functions describe.

use crate::boundaries::BoundaryPart;
use crate::geometry::Point;
use crate::multipolygon::Ring;
use crate::objects::Node;
use vstd::prelude::*;

verus! {

/// The coordinates of a node.
pub open spec fn point_of(n: Node) -> Point {
    Point { x: n.decimicro_lon, y: n.decimicro_lat }
}

/// The coordinate sequence of a chain of nodes.
pub open spec fn points_of(chain: Seq<Node>) -> Seq<Point> {
    chain.map_values(|n: Node| point_of(n))
}

/// A finished ring returns to its first point: the first coordinate is
/// appended at the end unless the sequence already ends with it.
pub open spec fn close_ring(pts: Seq<Point>) -> Seq<Point> {
    if pts.len() == 0 {
        pts
    } else if pts[0] == pts[pts.len() - 1] {
        pts
    } else {
        pts.push(pts[0])
    }
}

/// The position most recently recorded for `id` in the open chain: the
/// last index holding it, or `None` when the identifier is new.
pub open spec fn chain_find(chain: Seq<Node>, id: i64) -> Option<int>
    decreases chain.len(),
{
    if chain.len() == 0 {
        None
    } else if chain[chain.len() - 1].id == id {
        Some(chain.len() - 1)
    } else {
        chain_find(chain.drop_last(), id)
    }
}

/// Accept one node into the open chain. If its identifier already appears
/// at position `i`, the closed portion `chain[i..]` is emitted as a ring,
/// the chain is cut back to `chain[..i]`, and the node starts extending the
/// remainder.
pub open spec fn push_node(chain: Seq<Node>, rings: Seq<Seq<Point>>, n: Node) -> (
    Seq<Node>,
    Seq<Seq<Point>>,
) {
    match chain_find(chain, n.id) {
        Some(i) => (chain.take(i).push(n), rings.push(close_ring(points_of(chain.skip(i))))),
        None => (chain.push(n), rings),
    }
}

/// Accept the nodes `nodes[j..]` into the open chain, one at a time.
pub open spec fn push_nodes(
    chain: Seq<Node>,
    rings: Seq<Seq<Point>>,
    nodes: Seq<Node>,
    j: int,
) -> (Seq<Node>, Seq<Seq<Point>>)
    decreases nodes.len() - j,
{
    if j < 0 || j >= nodes.len() {
        (chain, rings)
    } else {
        let s = push_node(chain, rings, nodes[j]);
        push_nodes(s.0, s.1, nodes, j + 1)
    }
}

/// Append a whole part to the chain. A part appended to a nonempty chain
/// shares its first node with the chain's running endpoint, so that node is
/// skipped.
pub open spec fn add_part(chain: Seq<Node>, rings: Seq<Seq<Point>>, part: Seq<Node>) -> (
    Seq<Node>,
    Seq<Seq<Point>>,
) {
    if chain.len() == 0 {
        push_nodes(chain, rings, part, 0)
    } else {
        push_nodes(chain, rings, part, 1)
    }
}

/// One scan over the pool, from position `i` on: a part whose leading
/// endpoint matches the running endpoint is appended forward, one whose
/// trailing endpoint matches is appended reversed; either way it leaves the
/// pool and the running endpoint advances. Returns the chain, the rings,
/// the running endpoint, the remaining pool, and whether anything was
/// consumed.
pub open spec fn scan_once(
    chain: Seq<Node>,
    rings: Seq<Seq<Point>>,
    current: i64,
    pool: Seq<Seq<Node>>,
    i: int,
    added: bool,
) -> (Seq<Node>, Seq<Seq<Point>>, i64, Seq<Seq<Node>>, bool)
    decreases pool.len() - i,
{
    if i < 0 || i >= pool.len() {
        (chain, rings, current, pool, added)
    } else {
        let part = pool[i];
        if part.len() > 0 && part[0].id == current {
            let s = add_part(chain, rings, part);
            scan_once(s.0, s.1, part[part.len() - 1].id, pool.remove(i), i, true)
        } else if part.len() > 0 && part[part.len() - 1].id == current {
            let rev = part.reverse();
            let s = add_part(chain, rings, rev);
            scan_once(s.0, s.1, rev[rev.len() - 1].id, pool.remove(i), i, true)
        } else {
            scan_once(chain, rings, current, pool, i + 1, added)
        }
    }
}

proof fn lemma_scan_once_len(
    chain: Seq<Node>,
    rings: Seq<Seq<Point>>,
    current: i64,
    pool: Seq<Seq<Node>>,
    i: int,
    added: bool,
)
    ensures
        ({
            let s = scan_once(chain, rings, current, pool, i, added);
            s.3.len() <= pool.len() && ((s.4 && !added) ==> s.3.len() < pool.len())
        }),
    decreases pool.len() - i,
{
    if i < 0 || i >= pool.len() {
    } else {
        let part = pool[i];
        if part.len() > 0 && part[0].id == current {
            let s = add_part(chain, rings, part);
            lemma_scan_once_len(s.0, s.1, part[part.len() - 1].id, pool.remove(i), i, true);
        } else if part.len() > 0 && part[part.len() - 1].id == current {
            let rev = part.reverse();
            let s = add_part(chain, rings, rev);
            lemma_scan_once_len(s.0, s.1, rev[rev.len() - 1].id, pool.remove(i), i, true);
        } else {
            lemma_scan_once_len(chain, rings, current, pool, i + 1, added);
        }
    }
}

/// Scan the pool again and again until a full pass consumes nothing.
/// Returns the final open chain, the rings emitted so far, and the pool of
/// parts that could not be connected.
pub open spec fn extend_chain(
    chain: Seq<Node>,
    rings: Seq<Seq<Point>>,
    current: i64,
    pool: Seq<Seq<Node>>,
) -> (Seq<Node>, Seq<Seq<Point>>, Seq<Seq<Node>>)
    decreases pool.len(),
    via extend_chain_decreases
{
    let s = scan_once(chain, rings, current, pool, 0, false);
    if s.4 {
        extend_chain(s.0, s.1, s.2, s.3)
    } else {
        (s.0, s.1, s.3)
    }
}

#[via_fn]
proof fn extend_chain_decreases(
    chain: Seq<Node>,
    rings: Seq<Seq<Point>>,
    current: i64,
    pool: Seq<Seq<Node>>,
) {
    lemma_scan_once_len(chain, rings, current, pool, 0, false);
}

proof fn lemma_extend_chain_len(
    chain: Seq<Node>,
    rings: Seq<Seq<Point>>,
    current: i64,
    pool: Seq<Seq<Node>>,
)
    ensures
        extend_chain(chain, rings, current, pool).2.len() <= pool.len(),
    decreases pool.len(),
{
    lemma_scan_once_len(chain, rings, current, pool, 0, false);
    let s = scan_once(chain, rings, current, pool, 0, false);
    if s.4 {
        lemma_extend_chain_len(s.0, s.1, s.2, s.3);
    }
}

/// Assemble every chain the pool gives rise to. Each round seeds a chain
/// with the first remaining part, extends it until no pass adds anything,
/// and starts over with what is left. Returns the emitted rings, in
/// discovery order, and one entry per chain that stopped while still open
/// (more than one node long): its first and last node, the dangling ends.
pub open spec fn assemble(pool: Seq<Seq<Node>>) -> (Seq<Seq<Point>>, Seq<(Node, Node)>)
    decreases pool.len(),
    via assemble_decreases
{
    if pool.len() == 0 {
        (Seq::empty(), Seq::empty())
    } else {
        let part = pool[0];
        let seeded = add_part(Seq::empty(), Seq::empty(), part);
        let current = if part.len() > 0 {
            part[part.len() - 1].id
        } else {
            0
        };
        let ext = extend_chain(seeded.0, seeded.1, current, pool.drop_first());
        let rest = assemble(ext.2);
        let warn: Seq<(Node, Node)> = if ext.0.len() > 1 {
            seq![(ext.0[0], ext.0[ext.0.len() - 1])]
        } else {
            Seq::empty()
        };
        (ext.1 + rest.0, warn + rest.1)
    }
}

#[via_fn]
proof fn assemble_decreases(pool: Seq<Seq<Node>>) {
    if pool.len() > 0 {
        let part = pool[0];
        let seeded = add_part(Seq::empty(), Seq::empty(), part);
        let current = if part.len() > 0 {
            part[part.len() - 1].id
        } else {
            0
        };
        lemma_extend_chain_len(seeded.0, seeded.1, current, pool.drop_first());
    }
}

/// A closed point sequence: nonempty, and its last point returns to its
/// first.
pub open spec fn ring_closed(r: Seq<Point>) -> bool {
    r.len() >= 1 && r[0] == r[r.len() - 1]
}

/// Every ring in the list is closed.
pub open spec fn all_rings_closed(rings: Seq<Seq<Point>>) -> bool {
    forall|k: int| 0 <= k < rings.len() ==> ring_closed(#[trigger] rings[k])
}

proof fn lemma_push_node_closed(chain: Seq<Node>, rings: Seq<Seq<Point>>, n: Node)
    requires
        all_rings_closed(rings),
    ensures
        all_rings_closed(push_node(chain, rings, n).1),
{
    lemma_chain_find_some(chain, n.id);
    match chain_find(chain, n.id) {
        Some(i) => {
            let pts = points_of(chain.skip(i));
            assert(pts.len() >= 1);
            assert(ring_closed(close_ring(pts)));
            let out = push_node(chain, rings, n).1;
            assert forall|k: int| 0 <= k < out.len() implies ring_closed(#[trigger] out[k]) by {
                if k < rings.len() {
                    assert(out[k] == rings[k]);
                }
            }
        },
        None => {},
    }
}

proof fn lemma_push_nodes_closed(chain: Seq<Node>, rings: Seq<Seq<Point>>, nodes: Seq<Node>, j: int)
    requires
        all_rings_closed(rings),
    ensures
        all_rings_closed(push_nodes(chain, rings, nodes, j).1),
    decreases nodes.len() - j,
{
    if j < 0 || j >= nodes.len() {
    } else {
        let s = push_node(chain, rings, nodes[j]);
        lemma_push_node_closed(chain, rings, nodes[j]);
        lemma_push_nodes_closed(s.0, s.1, nodes, j + 1);
    }
}

proof fn lemma_add_part_closed(chain: Seq<Node>, rings: Seq<Seq<Point>>, part: Seq<Node>)
    requires
        all_rings_closed(rings),
    ensures
        all_rings_closed(add_part(chain, rings, part).1),
{
    if chain.len() == 0 {
        lemma_push_nodes_closed(chain, rings, part, 0);
    } else {
        lemma_push_nodes_closed(chain, rings, part, 1);
    }
}

proof fn lemma_scan_once_closed(
    chain: Seq<Node>,
    rings: Seq<Seq<Point>>,
    current: i64,
    pool: Seq<Seq<Node>>,
    i: int,
    added: bool,
)
    requires
        all_rings_closed(rings),
    ensures
        all_rings_closed(scan_once(chain, rings, current, pool, i, added).1),
    decreases pool.len() - i,
{
    if i < 0 || i >= pool.len() {
    } else {
        let part = pool[i];
        if part.len() > 0 && part[0].id == current {
            let s = add_part(chain, rings, part);
            lemma_add_part_closed(chain, rings, part);
            lemma_scan_once_closed(s.0, s.1, part[part.len() - 1].id, pool.remove(i), i, true);
        } else if part.len() > 0 && part[part.len() - 1].id == current {
            let rev = part.reverse();
            let s = add_part(chain, rings, rev);
            lemma_add_part_closed(chain, rings, rev);
            lemma_scan_once_closed(s.0, s.1, rev[rev.len() - 1].id, pool.remove(i), i, true);
        } else {
            lemma_scan_once_closed(chain, rings, current, pool, i + 1, added);
        }
    }
}

proof fn lemma_extend_chain_closed(
    chain: Seq<Node>,
    rings: Seq<Seq<Point>>,
    current: i64,
    pool: Seq<Seq<Node>>,
)
    requires
        all_rings_closed(rings),
    ensures
        all_rings_closed(extend_chain(chain, rings, current, pool).1),
    decreases pool.len(),
{
    lemma_scan_once_len(chain, rings, current, pool, 0, false);
    lemma_scan_once_closed(chain, rings, current, pool, 0, false);
    let s = scan_once(chain, rings, current, pool, 0, false);
    if s.4 {
        lemma_extend_chain_closed(s.0, s.1, s.2, s.3);
    }
}

/// Every ring that assembly emits is closed: its first point identifier
/// was met again, and the emitted ring is completed back to its first
/// point.
pub proof fn lemma_assembled_rings_closed(pool: Seq<Seq<Node>>)
    ensures
        all_rings_closed(assemble(pool).0),
    decreases pool.len(),
{
    if pool.len() == 0 {
    } else {
        let part = pool[0];
        let seeded = add_part(Seq::empty(), Seq::empty(), part);
        let current = if part.len() > 0 {
            part[part.len() - 1].id
        } else {
            0
        };
        assert(all_rings_closed(Seq::<Seq<Point>>::empty()));
        lemma_add_part_closed(Seq::empty(), Seq::empty(), part);
        let ext = extend_chain(seeded.0, seeded.1, current, pool.drop_first());
        lemma_extend_chain_closed(seeded.0, seeded.1, current, pool.drop_first());
        lemma_extend_chain_len(seeded.0, seeded.1, current, pool.drop_first());
        lemma_assembled_rings_closed(ext.2);
        let rest = assemble(ext.2);
        let out = assemble(pool).0;
        assert forall|k: int| 0 <= k < out.len() implies ring_closed(#[trigger] out[k]) by {
            if k < ext.1.len() {
                assert(out[k] == ext.1[k]);
            } else {
                assert(out[k] == rest.0[k - ext.1.len()]);
            }
        }
    }
}

/// No node identifier occurs twice in the nodes of `nodes`.
pub open spec fn distinct_ids(nodes: Seq<Node>) -> bool {
    forall|a: int, b: int|
        #![trigger nodes[a].id, nodes[b].id]
        0 <= a < nodes.len() && 0 <= b < nodes.len() && a != b ==> nodes[a].id != nodes[b].id
}

/// No node identifier occurs twice anywhere in the pool: the parts share
/// no endpoints and cannot chain at all.
pub open spec fn parts_ids_disjoint(pool: Seq<Seq<Node>>) -> bool {
    forall|p: int, k: int, q: int, t: int|
        #![trigger pool[p][k].id, pool[q][t].id]
        0 <= p < pool.len() && 0 <= k < pool[p].len() && 0 <= q < pool.len() && 0 <= t
            < pool[q].len() && (p != q || k != t) ==> pool[p][k].id != pool[q][t].id
}

proof fn lemma_chain_find_none(chain: Seq<Node>, id: i64)
    ensures
        (chain_find(chain, id) is None) <==> (forall|k: int|
            0 <= k < chain.len() ==> #[trigger] chain[k].id != id),
    decreases chain.len(),
{
    if chain.len() == 0 {
    } else if chain[chain.len() - 1].id == id {
    } else {
        lemma_chain_find_none(chain.drop_last(), id);
        if chain_find(chain, id) is None {
            assert forall|k: int| 0 <= k < chain.len() implies #[trigger] chain[k].id != id by {
                if k < chain.len() - 1 {
                    assert(chain.drop_last()[k].id != id);
                }
            }
        } else {
            lemma_chain_find_some(chain.drop_last(), id);
            if let Some(i) = chain_find(chain.drop_last(), id) {
                assert(chain[i].id == id);
            }
        }
    }
}

proof fn lemma_chain_find_at(chain: Seq<Node>, id: i64, k: int)
    requires
        0 <= k < chain.len(),
        chain[k].id == id,
        forall|t: int| 0 <= t < chain.len() && t != k ==> #[trigger] chain[t].id != id,
    ensures
        chain_find(chain, id) == Some(k),
    decreases chain.len(),
{
    if k == chain.len() - 1 {
    } else {
        assert(chain[chain.len() - 1].id != id);
        lemma_chain_find_at(chain.drop_last(), id, k);
    }
}

proof fn lemma_push_prefix(part: Seq<Node>, rings: Seq<Seq<Point>>, j: int, m: int)
    requires
        0 <= j <= m <= part.len(),
        distinct_ids(part.take(m)),
    ensures
        push_nodes(part.take(j), rings, part, j) == push_nodes(part.take(m), rings, part, m),
    decreases m - j,
{
    if j == m {
    } else {
        lemma_chain_find_none(part.take(j), part[j].id);
        assert forall|k: int| 0 <= k < j implies #[trigger] part.take(j)[k].id != part[j].id by {
            assert(part.take(m)[k].id != part.take(m)[j].id);
        }
        assert(chain_find(part.take(j), part[j].id) is None);
        assert(part.take(j).push(part[j]) =~= part.take(j + 1));
        lemma_push_prefix(part, rings, j + 1, m);
    }
}

proof fn lemma_scan_no_match(
    chain: Seq<Node>,
    rings: Seq<Seq<Point>>,
    current: i64,
    pool: Seq<Seq<Node>>,
    i: int,
    added: bool,
)
    requires
        forall|p: int|
            0 <= p < pool.len() && #[trigger] pool[p].len() > 0 ==> pool[p][0].id != current
                && pool[p][pool[p].len() - 1].id != current,
    ensures
        scan_once(chain, rings, current, pool, i, added) == (chain, rings, current, pool, added),
    decreases pool.len() - i,
{
    if i < 0 || i >= pool.len() {
    } else {
        lemma_scan_no_match(chain, rings, current, pool, i + 1, added);
    }
}

/// Fragments that share no node identifiers cannot chain by shared
/// endpoints and never return to a starting point, so assembly emits no
/// ring at all; each fragment is left as an open chain.
pub proof fn lemma_disjoint_parts_yield_no_rings(pool: Seq<Seq<Node>>)
    requires
        parts_ids_disjoint(pool),
        forall|p: int| 0 <= p < pool.len() ==> #[trigger] pool[p].len() >= 1,
    ensures
        assemble(pool).0 == Seq::<Seq<Point>>::empty(),
    decreases pool.len(),
{
    if pool.len() == 0 {
    } else {
        let part = pool[0];
        assert(distinct_ids(part)) by {
            assert forall|a: int, b: int|
                0 <= a < part.len() && 0 <= b < part.len() && a != b implies #[trigger] part[a].id
                != #[trigger] part[b].id by {
                assert(pool[0][a].id != pool[0][b].id);
            }
        }
        assert(part.take(0) =~= Seq::<Node>::empty());
        assert(part.take(part.len() as int) =~= part);
        lemma_push_prefix(part, Seq::empty(), 0, part.len() as int);
        let seeded = add_part(Seq::empty(), Seq::empty(), part);
        assert(seeded == (part, Seq::<Seq<Point>>::empty()));
        let current = part[part.len() - 1].id;
        let rest_pool = pool.drop_first();
        assert forall|p: int|
            0 <= p < rest_pool.len() && #[trigger] rest_pool[p].len() > 0 implies rest_pool[p][0].id
            != current && rest_pool[p][rest_pool[p].len() - 1].id != current by {
            assert(rest_pool[p] == pool[p + 1]);
            assert(pool[p + 1][0].id != pool[0][part.len() - 1].id);
            assert(pool[p + 1][pool[p + 1].len() - 1].id != pool[0][part.len() - 1].id);
        }
        lemma_scan_no_match(part, Seq::empty(), current, rest_pool, 0, false);
        assert(extend_chain(seeded.0, seeded.1, current, rest_pool) == (
            part,
            Seq::<Seq<Point>>::empty(),
            rest_pool,
        ));
        assert(parts_ids_disjoint(rest_pool)) by {
            assert forall|p: int, k: int, q: int, t: int|
                0 <= p < rest_pool.len() && 0 <= k < rest_pool[p].len() && 0 <= q
                    < rest_pool.len() && 0 <= t < rest_pool[q].len() && (p != q || k != t) implies #[trigger] rest_pool[p][k].id != #[trigger] rest_pool[q][t].id by {
                assert(rest_pool[p] == pool[p + 1]);
                assert(rest_pool[q] == pool[q + 1]);
                assert(pool[p + 1][k].id != pool[q + 1][t].id);
            }
        }
        lemma_disjoint_parts_yield_no_rings(rest_pool);
        assert(assemble(pool).0 =~= Seq::<Seq<Point>>::empty());
    }
}

/// The parts continue one another front to back: each part starts with
/// the identifier the previous one ended with, beginning from `current`.
pub open spec fn links_forward(current: i64, pool: Seq<Seq<Node>>) -> bool
    decreases pool.len(),
{
    if pool.len() == 0 {
        true
    } else {
        &&& pool[0].len() >= 2
        &&& pool[0][0].id == current
        &&& links_forward(pool[0][pool[0].len() - 1].id, pool.drop_first())
    }
}

/// The nodes that chaining the parts onto an existing chain contributes:
/// each part minus its first node, which the chain already ends with.
pub open spec fn path_tail(pool: Seq<Seq<Node>>) -> Seq<Node>
    decreases pool.len(),
{
    if pool.len() == 0 {
        Seq::empty()
    } else {
        pool[0].skip(1) + path_tail(pool.drop_first())
    }
}

proof fn lemma_distinct_prefix(s: Seq<Node>, t: Seq<Node>)
    requires
        distinct_ids(s + t),
    ensures
        distinct_ids(s),
    decreases t.len(),
{
    assert forall|a: int, b: int|
        0 <= a < s.len() && 0 <= b < s.len() && a != b implies #[trigger] s[a].id
        != #[trigger] s[b].id by {
        assert((s + t)[a].id != (s + t)[b].id);
        assert((s + t)[a] == s[a]);
        assert((s + t)[b] == s[b]);
    }
}

proof fn lemma_push_nodes_fresh(chain: Seq<Node>, rings: Seq<Seq<Point>>, nodes: Seq<Node>, j: int)
    requires
        0 <= j <= nodes.len(),
        distinct_ids(chain + nodes.skip(j)),
    ensures
        push_nodes(chain, rings, nodes, j) == (chain + nodes.skip(j), rings),
    decreases nodes.len() - j,
{
    if j >= nodes.len() {
        assert(chain + nodes.skip(j) =~= chain);
    } else {
        lemma_chain_find_none(chain, nodes[j].id);
        let cat = chain + nodes.skip(j);
        assert forall|k: int| 0 <= k < chain.len() implies #[trigger] chain[k].id
            != nodes[j].id by {
            assert(cat[k] == chain[k]);
            assert(cat[chain.len() as int] == nodes[j]);
            assert(cat[k].id != cat[chain.len() as int].id);
        }
        assert(chain_find(chain, nodes[j].id) is None);
        let chain2 = chain.push(nodes[j]);
        assert(chain2 + nodes.skip(j + 1) =~= cat);
        lemma_push_nodes_fresh(chain2, rings, nodes, j + 1);
    }
}

proof fn lemma_scan_path(
    chain: Seq<Node>,
    rings: Seq<Seq<Point>>,
    current: i64,
    pool: Seq<Seq<Node>>,
    added: bool,
)
    requires
        chain.len() >= 1,
        current == chain[chain.len() - 1].id,
        links_forward(current, pool),
        distinct_ids(chain + path_tail(pool)),
    ensures
        ({
            let s = scan_once(chain, rings, current, pool, 0, added);
            let total = chain + path_tail(pool);
            &&& s.0 == total
            &&& s.1 == rings
            &&& s.2 == total[total.len() - 1].id
            &&& s.3 == Seq::<Seq<Node>>::empty()
            &&& s.4 == (added || pool.len() > 0)
        }),
    decreases pool.len(),
{
    if pool.len() == 0 {
        assert(chain + path_tail(pool) =~= chain);
        assert(scan_once(chain, rings, current, pool, 0, added) == (
            chain,
            rings,
            current,
            pool,
            added,
        ));
        assert(pool =~= Seq::<Seq<Node>>::empty());
    } else {
        let part = pool[0];
        let total = chain + path_tail(pool);
        assert(part.len() >= 2 && part[0].id == current);
        // the consumed part extends the chain with its tail nodes
        let chain2 = chain + part.skip(1);
        assert(chain2 + path_tail(pool.drop_first()) =~= total);
        lemma_distinct_prefix(chain2, path_tail(pool.drop_first()));
        lemma_push_nodes_fresh(chain, rings, part, 1);
        assert(add_part(chain, rings, part) == (chain + part.skip(1), rings));
        let cur2 = part[part.len() - 1].id;
        assert(chain2[chain2.len() - 1] == part[part.len() - 1]) by {
            assert(part.skip(1)[part.len() - 2] == part[part.len() - 1]);
        }
        assert(pool.remove(0) =~= pool.drop_first());
        lemma_scan_path(chain2, rings, cur2, pool.drop_first(), true);
    }
}

/// Fragments that chain front to back into a single open path, without
/// any repeated node identifier, never return to a point of the chain:
/// assembly emits no ring, and reports the path's two dangling ends.
pub proof fn lemma_open_path_yields_no_rings(pool: Seq<Seq<Node>>)
    requires
        pool.len() >= 1,
        pool[0].len() >= 2,
        links_forward(pool[0][pool[0].len() - 1].id, pool.drop_first()),
        distinct_ids(pool[0] + path_tail(pool.drop_first())),
    ensures
        assemble(pool).0 == Seq::<Seq<Point>>::empty(),
        ({
            let total = pool[0] + path_tail(pool.drop_first());
            assemble(pool).1 == seq![(total[0], total[total.len() - 1])]
        }),
{
    let part = pool[0];
    let total = part + path_tail(pool.drop_first());
    // seeding pushes the whole first part, emitting nothing
    assert(Seq::<Node>::empty() + part.skip(0) =~= part);
    assert(part + path_tail(pool.drop_first()) =~= (Seq::<Node>::empty() + part.skip(0))
        + path_tail(pool.drop_first()));
    lemma_distinct_prefix(Seq::<Node>::empty() + part.skip(0), path_tail(pool.drop_first()));
    lemma_push_nodes_fresh(Seq::empty(), Seq::empty(), part, 0);
    let seeded = add_part(Seq::empty(), Seq::empty(), part);
    assert(seeded == (Seq::<Node>::empty() + part.skip(0), Seq::<Seq<Point>>::empty()));
    assert(seeded.0 =~= part);
    let current = part[part.len() - 1].id;
    // the first pass consumes the whole path; the second finds nothing
    assert(distinct_ids(part + path_tail(pool.drop_first())));
    lemma_scan_path(part, Seq::empty(), current, pool.drop_first(), false);
    if pool.drop_first().len() > 0 {
        let s = scan_once(part, Seq::empty(), current, pool.drop_first(), 0, false);
        assert(s.3 =~= Seq::<Seq<Node>>::empty());
        assert(scan_once(s.0, s.1, s.2, s.3, 0, false) == (s.0, s.1, s.2, s.3, false));
        assert(extend_chain(s.0, s.1, s.2, s.3) == (s.0, s.1, s.3));
    }
    let ext = extend_chain(seeded.0, seeded.1, current, pool.drop_first());
    assert(ext.0 == total && ext.1 == Seq::<Seq<Point>>::empty() && ext.2 == Seq::<
        Seq<Node>,
    >::empty());
    assert(total.len() >= 2);
    assert(assemble(ext.2).0 == Seq::<Seq<Point>>::empty());
    assert(assemble(pool).0 =~= Seq::<Seq<Point>>::empty());
    assert(assemble(pool).1 =~= seq![(total[0], total[total.len() - 1])]);
}

/// The identifier the last part ends with, chaining forward from
/// `current`.
pub open spec fn last_link(current: i64, pool: Seq<Seq<Node>>) -> i64
    decreases pool.len(),
{
    if pool.len() == 0 {
        current
    } else {
        last_link(pool[0][pool[0].len() - 1].id, pool.drop_first())
    }
}

proof fn lemma_push_nodes_fresh_upto(
    chain: Seq<Node>,
    rings: Seq<Seq<Point>>,
    nodes: Seq<Node>,
    j: int,
    m: int,
)
    requires
        0 <= j <= m <= nodes.len(),
        distinct_ids(chain + nodes.subrange(j, m)),
    ensures
        push_nodes(chain, rings, nodes, j) == push_nodes(chain + nodes.subrange(j, m), rings, nodes, m),
    decreases m - j,
{
    if j == m {
        assert(chain + nodes.subrange(j, m) =~= chain);
    } else {
        lemma_chain_find_none(chain, nodes[j].id);
        let cat = chain + nodes.subrange(j, m);
        assert forall|k: int| 0 <= k < chain.len() implies #[trigger] chain[k].id
            != nodes[j].id by {
            assert(cat[k] == chain[k]);
            assert(cat[chain.len() as int] == nodes[j]);
            assert(cat[k].id != cat[chain.len() as int].id);
        }
        assert(chain_find(chain, nodes[j].id) is None);
        let chain2 = chain.push(nodes[j]);
        assert(chain2 + nodes.subrange(j + 1, m) =~= cat);
        lemma_push_nodes_fresh_upto(chain2, rings, nodes, j + 1, m);
    }
}

proof fn lemma_push_closing_part(chain: Seq<Node>, rings: Seq<Seq<Point>>, part: Seq<Node>)
    requires
        chain.len() >= 1,
        part.len() >= 2,
        part[part.len() - 1].id == chain[0].id,
        distinct_ids(chain + part.subrange(1, part.len() - 1)),
    ensures
        push_nodes(chain, rings, part, 1) == (
            seq![part[part.len() - 1]],
            rings.push(close_ring(points_of(chain + part.subrange(1, part.len() - 1)))),
        ),
{
    let m = part.len() - 1;
    let glued = chain + part.subrange(1, m);
    lemma_push_nodes_fresh_upto(chain, rings, part, 1, m);
    assert(push_nodes(chain, rings, part, 1) == push_nodes(glued, rings, part, m));
    // the part's last node carries the chain's first identifier, closing
    // the ring at position 0
    assert(glued[0] == chain[0]);
    assert forall|t: int| 0 <= t < glued.len() && t != 0 implies #[trigger] glued[t].id
        != part[m].id by {
        assert(glued[t].id != glued[0].id);
    }
    lemma_chain_find_at(glued, part[m].id, 0);
    let s = push_node(glued, rings, part[m]);
    assert(glued.skip(0) =~= glued);
    assert(glued.take(0).push(part[m]) =~= seq![part[m]]);
    assert(s.0 =~= seq![part[m]]);
    assert(s.1 =~= rings.push(close_ring(points_of(glued))));
    assert(push_nodes(glued, rings, part, m) == push_nodes(s.0, s.1, part, m + 1));
}

proof fn lemma_scan_closing_path(
    chain: Seq<Node>,
    rings: Seq<Seq<Point>>,
    current: i64,
    pool: Seq<Seq<Node>>,
    added: bool,
)
    requires
        chain.len() >= 1,
        current == chain[chain.len() - 1].id,
        pool.len() >= 1,
        links_forward(current, pool),
        last_link(current, pool) == chain[0].id,
        distinct_ids(chain + path_tail(pool).drop_last()),
    ensures
        ({
            let s = scan_once(chain, rings, current, pool, 0, added);
            let body = chain + path_tail(pool).drop_last();
            &&& s.0 == seq![path_tail(pool)[path_tail(pool).len() - 1]]
            &&& s.1 == rings.push(close_ring(points_of(body)))
            &&& s.3 == Seq::<Seq<Node>>::empty()
            &&& s.4 == true
        }),
    decreases pool.len(),
{
    let part = pool[0];
    assert(part.len() >= 2 && part[0].id == current);
    assert(links_forward(part[part.len() - 1].id, pool.drop_first()));
    assert(last_link(current, pool) == last_link(part[part.len() - 1].id, pool.drop_first()));
    if pool.len() == 1 {
        assert(pool.drop_first().len() == 0);
        assert(last_link(part[part.len() - 1].id, pool.drop_first()) == part[part.len() - 1].id);
        assert(path_tail(pool) =~= part.skip(1) + path_tail(pool.drop_first()));
        assert(path_tail(pool.drop_first()) =~= Seq::<Node>::empty());
        assert(path_tail(pool) =~= part.skip(1));
        assert(part[part.len() - 1].id == chain[0].id);
        assert(part.subrange(1, part.len() - 1) =~= path_tail(pool).drop_last());
        lemma_push_closing_part(chain, rings, part);
        assert(add_part(chain, rings, part) == (
            seq![part[part.len() - 1]],
            rings.push(close_ring(points_of(chain + part.subrange(1, part.len() - 1)))),
        ));
        assert(pool.remove(0) =~= Seq::<Seq<Node>>::empty());
        let s1 = add_part(chain, rings, part);
        assert(scan_once(s1.0, s1.1, part[part.len() - 1].id, pool.remove(0), 0, true) == (
            s1.0,
            s1.1,
            part[part.len() - 1].id,
            pool.remove(0),
            true,
        ));
        assert(path_tail(pool)[path_tail(pool).len() - 1] == part[part.len() - 1]) by {
            assert(part.skip(1)[part.len() - 2] == part[part.len() - 1]);
        }
    } else {
        // the first part extends the chain without closing
        let tail_rest = path_tail(pool.drop_first());
        assert(path_tail(pool) =~= part.skip(1) + tail_rest);
        assert(pool.drop_first().len() >= 1);
        assert(pool.drop_first()[0].len() >= 2);
        assert(tail_rest.len() >= 1) by {
            assert(tail_rest =~= pool.drop_first()[0].skip(1) + path_tail(
                pool.drop_first().drop_first(),
            ));
        }
        let chain2 = chain + part.skip(1);
        assert(part.subrange(1, part.len() as int) =~= part.skip(1));
        assert(chain2 + tail_rest.drop_last() =~= chain + path_tail(pool).drop_last());
        lemma_distinct_prefix(chain2, tail_rest.drop_last());
        assert(distinct_ids(chain + part.subrange(1, part.len() as int))) by {
            lemma_distinct_prefix(chain + part.skip(1), tail_rest.drop_last());
        }
        lemma_push_nodes_fresh(chain, rings, part, 1);
        assert(add_part(chain, rings, part) == (chain2, rings));
        let cur2 = part[part.len() - 1].id;
        assert(chain2[chain2.len() - 1] == part[part.len() - 1]) by {
            assert(part.skip(1)[part.len() - 2] == part[part.len() - 1]);
        }
        assert(chain2[0] == chain[0]);
        assert(pool.remove(0) =~= pool.drop_first());
        lemma_scan_closing_path(chain2, rings, cur2, pool.drop_first(), true);
        assert(path_tail(pool)[path_tail(pool).len() - 1] == tail_rest[tail_rest.len() - 1]);
    }
}

/// Fragments that chain front to back, in the order given, and whose last
/// fragment returns to the first one's starting identifier assemble into
/// exactly one ring: the whole cycle, closed back to its first point.
pub proof fn lemma_ordered_cycle_yields_one_ring(pool: Seq<Seq<Node>>)
    requires
        pool.len() >= 2,
        pool[0].len() >= 2,
        links_forward(pool[0][pool[0].len() - 1].id, pool.drop_first()),
        last_link(pool[0][pool[0].len() - 1].id, pool.drop_first()) == pool[0][0].id,
        distinct_ids((pool[0] + path_tail(pool.drop_first())).drop_last()),
    ensures
        ({
            let body = (pool[0] + path_tail(pool.drop_first())).drop_last();
            assemble(pool).0 == seq![close_ring(points_of(body))]
        }),
        assemble(pool).1 == Seq::<(Node, Node)>::empty(),
{
    let part = pool[0];
    let total = part + path_tail(pool.drop_first());
    let body = total.drop_last();
    // seeding pushes the whole first part, emitting nothing
    assert(pool.drop_first().len() >= 1);
    assert(path_tail(pool.drop_first()).len() >= 1) by {
        assert(pool.drop_first()[0].len() >= 2);
        assert(path_tail(pool.drop_first()) =~= pool.drop_first()[0].skip(1) + path_tail(
            pool.drop_first().drop_first(),
        ));
    }
    assert(Seq::<Node>::empty() + part.subrange(0, part.len() as int) =~= part);
    assert(part + path_tail(pool.drop_first()).drop_last() =~= body);
    assert(distinct_ids(Seq::<Node>::empty() + part.subrange(0, part.len() as int))) by {
        lemma_distinct_prefix(part, path_tail(pool.drop_first()).drop_last());
        assert(Seq::<Node>::empty() + part.subrange(0, part.len() as int) =~= part);
    }
    lemma_push_nodes_fresh_upto(Seq::empty(), Seq::empty(), part, 0, part.len() as int);
    let seeded = add_part(Seq::empty(), Seq::empty(), part);
    assert(seeded.0 =~= part && seeded.1 =~= Seq::<Seq<Point>>::empty()) by {
        assert(push_nodes(
            Seq::<Node>::empty() + part.subrange(0, part.len() as int),
            Seq::empty(),
            part,
            part.len() as int,
        ) == (Seq::<Node>::empty() + part.subrange(0, part.len() as int), Seq::<Seq<Point>>::empty()));
        assert(Seq::<Node>::empty() + part.subrange(0, part.len() as int) =~= part);
    }
    let current = part[part.len() - 1].id;
    // the first pass consumes the rest of the cycle and closes the ring
    assert(distinct_ids(part + path_tail(pool.drop_first()).drop_last()));
    lemma_scan_closing_path(part, Seq::empty(), current, pool.drop_first(), false);
    let s = scan_once(part, Seq::empty(), current, pool.drop_first(), 0, false);
    assert(s.0.len() == 1);
    // the second pass finds nothing
    assert(scan_once(s.0, s.1, s.2, s.3, 0, false) == (s.0, s.1, s.2, s.3, false));
    assert(extend_chain(s.0, s.1, s.2, s.3) == (s.0, s.1, s.3));
    let ext = extend_chain(seeded.0, seeded.1, current, pool.drop_first());
    assert(ext.0.len() == 1);
    assert(ext.1 == Seq::<Seq<Point>>::empty().push(close_ring(points_of(body))));
    assert(ext.2 == Seq::<Seq<Node>>::empty());
    assert(assemble(ext.2).0 == Seq::<Seq<Point>>::empty());
    assert(assemble(pool).0 =~= seq![close_ring(points_of(body))]);
    assert(assemble(pool).1 =~= Seq::<(Node, Node)>::empty());
}

/// A fragment that returns to its starting identifier, with no other
/// identifier repeated.
pub open spec fn closed_distinct_part(part: Seq<Node>) -> bool {
    &&& part.len() >= 2
    &&& part[0].id == part[part.len() - 1].id
    &&& distinct_ids(part.take(part.len() - 1))
}

/// Parts that share no node identifiers with one another (each may still
/// repeat its own).
pub open spec fn cross_disjoint(pool: Seq<Seq<Node>>) -> bool {
    forall|p: int, k: int, q: int, t: int|
        #![trigger pool[p][k].id, pool[q][t].id]
        0 <= p < pool.len() && 0 <= k < pool[p].len() && 0 <= q < pool.len() && 0 <= t
            < pool[q].len() && p != q ==> pool[p][k].id != pool[q][t].id
}

proof fn lemma_seed_closed_part(part: Seq<Node>)
    requires
        closed_distinct_part(part),
    ensures
        add_part(Seq::empty(), Seq::empty(), part) == (
            seq![part[part.len() - 1]],
            seq![close_ring(points_of(part.take(part.len() - 1)))],
        ),
{
    let m = part.len() - 1;
    let pre = part.take(m);
    assert(part.take(0) =~= Seq::<Node>::empty());
    lemma_push_prefix(part, Seq::empty(), 0, m);
    // the final node's identifier closes the ring at position 0
    assert(pre[0].id == part[m].id);
    lemma_chain_find_at(pre, part[m].id, 0);
    let s = push_node(pre, Seq::empty(), part[m]);
    assert(pre.skip(0) =~= pre);
    assert(pre.take(0).push(part[m]) =~= seq![part[m]]);
    assert(s.0 =~= seq![part[m]]);
    assert(s.1 =~= seq![close_ring(points_of(pre))]);
    let seeded = add_part(Seq::empty(), Seq::empty(), part);
    assert(seeded == push_nodes(pre, Seq::empty(), part, m));
    assert(seeded == push_nodes(s.0, s.1, part, m + 1));
}

/// Fragments that are each already closed, and share no identifiers with
/// one another, assemble into exactly one ring per fragment, in order,
/// whatever each fragment's orientation: disjoint rings never disturb one
/// another.
pub proof fn lemma_separate_closed_parts(pool: Seq<Seq<Node>>)
    requires
        forall|p: int| 0 <= p < pool.len() ==> closed_distinct_part(#[trigger] pool[p]),
        cross_disjoint(pool),
    ensures
        assemble(pool).0.len() == pool.len(),
        forall|p: int|
            0 <= p < pool.len() ==> assemble(pool).0[p] == close_ring(
                points_of(#[trigger] pool[p].take(pool[p].len() - 1)),
            ),
        assemble(pool).1 == Seq::<(Node, Node)>::empty(),
    decreases pool.len(),
{
    if pool.len() == 0 {
    } else {
        let part = pool[0];
        let m = part.len() - 1;
        lemma_seed_closed_part(part);
        let seeded = add_part(Seq::empty(), Seq::empty(), part);
        let current = part[part.len() - 1].id;
        let rest_pool = pool.drop_first();
        // no other fragment touches this one's identifiers
        assert forall|p: int|
            0 <= p < rest_pool.len() && #[trigger] rest_pool[p].len() > 0 implies rest_pool[p][0].id
            != current && rest_pool[p][rest_pool[p].len() - 1].id != current by {
            assert(rest_pool[p] == pool[p + 1]);
            assert(pool[p + 1][0].id != pool[0][part.len() - 1].id);
            assert(pool[p + 1][pool[p + 1].len() - 1].id != pool[0][part.len() - 1].id);
        }
        lemma_scan_no_match(seeded.0, seeded.1, current, rest_pool, 0, false);
        let ext = extend_chain(seeded.0, seeded.1, current, rest_pool);
        assert(ext.0.len() == 1);
        assert forall|p: int|
            0 <= p < rest_pool.len() implies closed_distinct_part(#[trigger] rest_pool[p]) by {
            assert(rest_pool[p] == pool[p + 1]);
            assert(closed_distinct_part(pool[p + 1]));
        }
        assert(cross_disjoint(rest_pool)) by {
            assert forall|p: int, k: int, q: int, t: int|
                0 <= p < rest_pool.len() && 0 <= k < rest_pool[p].len() && 0 <= q
                    < rest_pool.len() && 0 <= t < rest_pool[q].len() && p != q implies #[trigger] rest_pool[p][k].id != #[trigger] rest_pool[q][t].id by {
                assert(rest_pool[p] == pool[p + 1]);
                assert(rest_pool[q] == pool[q + 1]);
                assert(pool[p + 1][k].id != pool[q + 1][t].id);
            }
        }
        lemma_separate_closed_parts(rest_pool);
        let out = assemble(pool).0;
        assert(out =~= seq![close_ring(points_of(part.take(m)))] + assemble(rest_pool).0);
        assert(out.len() == pool.len());
        assert forall|p: int|
            0 <= p < pool.len() implies out[p] == close_ring(
                points_of(#[trigger] pool[p].take(pool[p].len() - 1)),
            ) by {
            if p > 0 {
                assert(out[p] == assemble(rest_pool).0[p - 1]);
                assert(rest_pool[p - 1] == pool[p]);
            }
        }
        assert(assemble(pool).1 =~= Seq::<(Node, Node)>::empty());
    }
}

/// A single fragment that returns to its starting identifier, with no
/// other identifier repeated, assembles into exactly one ring: the
/// fragment's points closed back to its first point. This holds whatever
/// the fragment's orientation, since the hypotheses are symmetric under
/// reversal.
pub proof fn lemma_single_closed_part(part: Seq<Node>)
    requires
        part.len() >= 2,
        part[0].id == part[part.len() - 1].id,
        distinct_ids(part.take(part.len() - 1)),
    ensures
        assemble(seq![part]).0 =~= seq![close_ring(points_of(part.take(part.len() - 1)))],
        assemble(seq![part]).1 == Seq::<(Node, Node)>::empty(),
{
    let pool: Seq<Seq<Node>> = seq![part];
    assert(closed_distinct_part(pool[0]));
    lemma_separate_closed_parts(pool);
    assert(assemble(pool).0 =~= seq![close_ring(points_of(part.take(part.len() - 1)))]);
}

/// The node sequences of a list of boundary parts.
pub open spec fn parts_model(parts: Seq<BoundaryPart>) -> Seq<Seq<Node>> {
    parts.map_values(|p: BoundaryPart| p.nodes@)
}

/// The point sequences of a list of rings.
pub open spec fn rings_model(rings: Seq<Ring>) -> Seq<Seq<Point>> {
    rings.map_values(|r: Ring| r@)
}

/// A chain that stopped extending without closing: the identifiers and
/// coordinates of its two dangling ends.
#[derive(Clone, Copy, PartialEq, Eq, Structural, Debug)]
pub struct UnclosedChain {
    pub first: Node,
    pub last: Node,
}

/// The dangling-end pairs of a list of unclosed chains.
pub open spec fn unclosed_model(warns: Seq<UnclosedChain>) -> Seq<(Node, Node)> {
    warns.map_values(|u: UnclosedChain| (u.first, u.last))
}

/// What one assembly run produces: the closed rings, and a record of every
/// chain that was left open, for diagnostics.
pub struct RingAssembly {
    pub rings: Vec<Ring>,
    pub unclosed: Vec<UnclosedChain>,
}

proof fn lemma_chain_find_some(chain: Seq<Node>, id: i64)
    ensures
        match chain_find(chain, id) {
            Some(i) => 0 <= i < chain.len() && chain[i].id == id,
            None => true,
        },
    decreases chain.len(),
{
    if chain.len() == 0 {
    } else if chain[chain.len() - 1].id == id {
    } else {
        lemma_chain_find_some(chain.drop_last(), id);
    }
}

fn chain_find_exec(chain: &Vec<Node>, id: i64) -> (r: Option<usize>)
    ensures
        match r {
            Some(i) => chain_find(chain@, id) == Some(i as int),
            None => chain_find(chain@, id) is None,
        },
{
    let mut i: usize = chain.len();
    proof {
        assert(chain@.take(chain@.len() as int) =~= chain@);
    }
    while i > 0
        invariant
            0 <= i <= chain@.len(),
            chain_find(chain@, id) == chain_find(chain@.take(i as int), id),
        decreases i,
    {
        proof {
            assert(chain@.take(i as int).drop_last() =~= chain@.take(i as int - 1));
        }
        if chain[i - 1].id == id {
            return Some(i - 1);
        }
        i = i - 1;
    }
    None
}

/// Emit the closed portion `chain[i..]` as a finished ring.
fn ring_from_chain(chain: &Vec<Node>, i: usize) -> (r: Ring)
    requires
        i < chain@.len(),
    ensures
        r@ == close_ring(points_of(chain@.skip(i as int))),
{
    let n = chain.len();
    let mut pts: Vec<Point> = Vec::new();
    let mut k: usize = i;
    while k < n
        invariant
            i <= k <= n == chain@.len(),
            pts@ == points_of(chain@.subrange(i as int, k as int)),
        decreases n - k,
    {
        let node = chain[k];
        pts.push(Point { x: node.decimicro_lon, y: node.decimicro_lat });
        proof {
            assert(pts@ =~= points_of(chain@.subrange(i as int, k as int + 1)));
        }
        k = k + 1;
    }
    proof {
        assert(chain@.subrange(i as int, n as int) =~= chain@.skip(i as int));
    }
    let m = pts.len();
    let first = pts[0];
    if !(first == pts[m - 1]) {
        pts.push(first);
    }
    Ring(pts)
}

fn push_node_exec(chain: &mut Vec<Node>, rings: &mut Vec<Ring>, n: Node)
    ensures
        final(chain)@ == push_node(old(chain)@, rings_model(old(rings)@), n).0,
        rings_model(final(rings)@) == push_node(old(chain)@, rings_model(old(rings)@), n).1,
{
    match chain_find_exec(chain, n.id) {
        Some(i) => {
            proof {
                lemma_chain_find_some(chain@, n.id);
            }
            let ring = ring_from_chain(chain, i);
            rings.push(ring);
            proof {
                assert(rings_model(rings@) =~= rings_model(old(rings)@).push(
                    close_ring(points_of(old(chain)@.skip(i as int))),
                ));
            }
            chain.truncate(i);
            proof {
                assert(chain@ =~= old(chain)@.take(i as int));
            }
            chain.push(n);
        },
        None => {
            chain.push(n);
        },
    }
}

fn add_part_exec(chain: &mut Vec<Node>, rings: &mut Vec<Ring>, part: &Vec<Node>)
    ensures
        final(chain)@ == add_part(old(chain)@, rings_model(old(rings)@), part@).0,
        rings_model(final(rings)@) == add_part(old(chain)@, rings_model(old(rings)@), part@).1,
{
    let ghost target = add_part(chain@, rings_model(rings@), part@);
    let mut j: usize = if chain.len() == 0 {
        0
    } else {
        1
    };
    let n = part.len();
    while j < n
        invariant
            n == part@.len(),
            j <= n || j == 1,
            push_nodes(chain@, rings_model(rings@), part@, j as int) == target,
        decreases n - j,
    {
        push_node_exec(chain, rings, part[j]);
        j = j + 1;
    }
    proof {
        assert(push_nodes(chain@, rings_model(rings@), part@, j as int) == (
            chain@,
            rings_model(rings@),
        ));
    }
}

fn reversed_nodes(v: &Vec<Node>) -> (r: Vec<Node>)
    ensures
        r@ == v@.reverse(),
{
    let n = v.len();
    let mut r: Vec<Node> = Vec::new();
    let mut k: usize = n;
    while k > 0
        invariant
            0 <= k <= n == v@.len(),
            r@.len() == n - k,
            forall|t: int| 0 <= t < r@.len() ==> r@[t] == v@[n - 1 - t],
        decreases k,
    {
        k = k - 1;
        r.push(v[k]);
    }
    proof {
        assert(r@ =~= v@.reverse());
    }
    r
}

/// One pass over the pool: every part whose endpoint matches the running
/// endpoint is appended (reversed when its trailing endpoint matched) and
/// leaves the pool. Returns whether the pass consumed anything.
fn scan_exec(
    chain: &mut Vec<Node>,
    rings: &mut Vec<Ring>,
    current: &mut i64,
    pool: &mut Vec<BoundaryPart>,
) -> (added: bool)
    requires
        forall|k: int| 0 <= k < old(pool)@.len() ==> #[trigger] old(pool)@[k].nodes@.len() >= 1,
    ensures
        ({
            let s = scan_once(
                old(chain)@,
                rings_model(old(rings)@),
                *old(current),
                parts_model(old(pool)@),
                0,
                false,
            );
            final(chain)@ == s.0 && rings_model(final(rings)@) == s.1 && *final(current) == s.2
                && parts_model(final(pool)@) == s.3 && added == s.4
        }),
        forall|k: int| 0 <= k < final(pool)@.len() ==> #[trigger] final(pool)@[k].nodes@.len() >= 1,
{
    let ghost s0 = scan_once(
        chain@,
        rings_model(rings@),
        *current,
        parts_model(pool@),
        0,
        false,
    );
    let mut i: usize = 0;
    let mut added = false;
    while i < pool.len()
        invariant
            0 <= i <= pool@.len(),
            scan_once(chain@, rings_model(rings@), *current, parts_model(pool@), i as int, added)
                == s0,
            forall|k: int| 0 <= k < pool@.len() ==> #[trigger] pool@[k].nodes@.len() >= 1,
        decreases pool@.len() - i,
    {
        let ghost pre = parts_model(pool@);
        if pool[i].first() == *current {
            let part = pool.remove(i);
            proof {
                assert(parts_model(pool@) =~= pre.remove(i as int));
            }
            *current = part.last();
            add_part_exec(chain, rings, &part.nodes);
            added = true;
        } else if pool[i].last() == *current {
            let part = pool.remove(i);
            proof {
                assert(parts_model(pool@) =~= pre.remove(i as int));
            }
            *current = part.first();
            let rev = reversed_nodes(&part.nodes);
            add_part_exec(chain, rings, &rev);
            added = true;
        } else {
            i = i + 1;
        }
    }
    added
}

/// Extend the open chain until a full pass over the pool adds nothing.
fn extend_chain_exec(
    chain: &mut Vec<Node>,
    rings: &mut Vec<Ring>,
    current: i64,
    pool: &mut Vec<BoundaryPart>,
)
    requires
        forall|k: int| 0 <= k < old(pool)@.len() ==> #[trigger] old(pool)@[k].nodes@.len() >= 1,
    ensures
        ({
            let t = extend_chain(
                old(chain)@,
                rings_model(old(rings)@),
                current,
                parts_model(old(pool)@),
            );
            final(chain)@ == t.0 && rings_model(final(rings)@) == t.1 && parts_model(final(pool)@)
                == t.2
        }),
        forall|k: int| 0 <= k < final(pool)@.len() ==> #[trigger] final(pool)@[k].nodes@.len() >= 1,
{
    let ghost t = extend_chain(chain@, rings_model(rings@), current, parts_model(pool@));
    let mut cur: i64 = current;
    loop
        invariant_except_break
            extend_chain(chain@, rings_model(rings@), cur, parts_model(pool@)) == t,
            forall|k: int| 0 <= k < pool@.len() ==> #[trigger] pool@[k].nodes@.len() >= 1,
        ensures
            chain@ == t.0,
            rings_model(rings@) == t.1,
            parts_model(pool@) == t.2,
            forall|k: int| 0 <= k < pool@.len() ==> #[trigger] pool@[k].nodes@.len() >= 1,
        decreases parts_model(pool@).len(),
    {
        let ghost pre_chain = chain@;
        let ghost pre_rings = rings_model(rings@);
        let ghost pre_cur = cur;
        let ghost pre_pool = parts_model(pool@);
        let added = scan_exec(chain, rings, &mut cur, pool);
        proof {
            lemma_scan_once_len(pre_chain, pre_rings, pre_cur, pre_pool, 0, false);
        }
        if !added {
            break ;
        }
    }
}

/// Join the parts at shared endpoint identifiers into closed rings.
///
/// Every ring in the result is closed: its first and last points coincide.
/// Chains that stop extending while still open are dropped; each one longer
/// than a single node is reported in `unclosed`, so that a caller can
/// surface near-misses as diagnostics.
pub fn assemble_rings(parts: Vec<BoundaryPart>) -> (res: RingAssembly)
    requires
        forall|k: int| 0 <= k < parts@.len() ==> #[trigger] parts@[k].nodes@.len() >= 1,
    ensures
        rings_model(res.rings@) == assemble(parts_model(parts@)).0,
        unclosed_model(res.unclosed@) == assemble(parts_model(parts@)).1,
        all_rings_closed(rings_model(res.rings@)),
{
    proof {
        lemma_assembled_rings_closed(parts_model(parts@));
    }
    let ghost t = assemble(parts_model(parts@));
    let mut pool = parts;
    let mut rings_acc: Vec<Ring> = Vec::new();
    let mut warns_acc: Vec<UnclosedChain> = Vec::new();
    while pool.len() > 0
        invariant
            rings_model(rings_acc@) + assemble(parts_model(pool@)).0 == t.0,
            unclosed_model(warns_acc@) + assemble(parts_model(pool@)).1 == t.1,
            forall|k: int| 0 <= k < pool@.len() ==> #[trigger] pool@[k].nodes@.len() >= 1,
        decreases pool@.len(),
    {
        let ghost pm = parts_model(pool@);
        let ghost acc0 = rings_model(rings_acc@);
        let ghost warns0 = unclosed_model(warns_acc@);
        let part = pool.remove(0);
        proof {
            assert(parts_model(pool@) =~= pm.drop_first());
        }
        let ghost seeded = add_part(Seq::<Node>::empty(), Seq::<Seq<Point>>::empty(), part.nodes@);
        let ghost ext = extend_chain(seeded.0, seeded.1, part.nodes@[part.nodes@.len() - 1].id, pm.drop_first());
        let ghost rest = assemble(ext.2);
        let ghost warn: Seq<(Node, Node)> = if ext.0.len() > 1 {
            seq![(ext.0[0], ext.0[ext.0.len() - 1])]
        } else {
            Seq::<(Node, Node)>::empty()
        };
        proof {
            assert(assemble(pm).0 == ext.1 + rest.0);
            assert(assemble(pm).1 == warn + rest.1);
        }
        let cur = part.last();
        let mut chain: Vec<Node> = Vec::new();
        let mut chain_rings: Vec<Ring> = Vec::new();
        proof {
            assert(rings_model(chain_rings@) =~= Seq::<Seq<Point>>::empty());
        }
        add_part_exec(&mut chain, &mut chain_rings, &part.nodes);
        extend_chain_exec(&mut chain, &mut chain_rings, cur, &mut pool);
        proof {
            lemma_extend_chain_len(seeded.0, seeded.1, cur, pm.drop_first());
            assert(chain@ == ext.0);
            assert(rings_model(chain_rings@) == ext.1);
            assert(parts_model(pool@) == ext.2);
        }
        if chain.len() > 1 {
            warns_acc.push(UnclosedChain { first: chain[0], last: chain[chain.len() - 1] });
            proof {
                assert(unclosed_model(warns_acc@) =~= warns0 + warn);
            }
        } else {
            proof {
                assert(unclosed_model(warns_acc@) =~= warns0 + warn);
            }
        }
        rings_acc.append(&mut chain_rings);
        proof {
            assert(rings_model(rings_acc@) =~= acc0 + ext.1);
            assert(rings_model(rings_acc@) + assemble(parts_model(pool@)).0 =~= t.0);
            assert(unclosed_model(warns_acc@) + assemble(parts_model(pool@)).1 =~= t.1);
        }
    }
    proof {
        assert(rings_model(rings_acc@) + assemble(parts_model(pool@)).0 == t.0);
        assert(rings_model(rings_acc@) =~= t.0);
        assert(unclosed_model(warns_acc@) =~= t.1);
    }
    RingAssembly { rings: rings_acc, unclosed: warns_acc }
}

} // verus!
