//! Laws of resolution, proved once and for all documents.
//!
//! Each proof function here states a property of `Api::resolve` over the
//! spec vocabulary of its contract (`resolution_ok`, `nodes_evolve`,
//! `subtree_references`, the definition graph of `crate::graph`), so a
//! caller holding the contract of a successful resolution can invoke them
//! directly.

use vstd::prelude::*;

use crate::graph::{def_edge, on_cycle, points_to, slot_leads};
use crate::models::{graph_wf, has_slot, is_root, node_wf, Api, SchemaNode};
use crate::resolver::{
    name_step, node_evolves, node_marker, nodes_evolve, ref_target, replaces,
    resolution_ok, slot_evolves, subtree_linked, subtree_references, target_backfilled, valid_ref,
    with_cyclic_of,
};

verus! {

/// Sharing: two slots whose markers name the same definition are replaced
/// by the identical handle — both parents alias one shared node, so a
/// change seen through one is seen through the other.
pub proof fn lemma_sharing(
    nodes: Seq<SchemaNode>,
    defs: Seq<(String, usize)>,
    x1: int,
    y1: int,
    x2: int,
    y2: int,
)
    requires
        graph_wf(nodes, defs),
        replaces(nodes, defs, x1, y1),
        replaces(nodes, defs, x2, y2),
        node_marker(nodes[x1]) is Some,
        node_marker(nodes[x1]) == node_marker(nodes[x2]),
    ensures
        y1 == y2,
        is_root(defs, y1),
{
    let m = match node_marker(nodes[x1]) {
        Some(m0) => m0,
        None => Seq::empty(),
    };
    let d1 = choose|d: int|
        0 <= d < defs.len() && #[trigger] defs[d].0@ == ref_target(m) && y1 == defs[d].1 as int;
    let d2 = choose|d: int|
        0 <= d < defs.len() && #[trigger] defs[d].0@ == ref_target(m) && y2 == defs[d].1 as int;
    assert(defs[d1].0@ == defs[d2].0@);
    assert(d1 == d2);
    assert(is_root(defs, y1));
}

/// `post`'s arena differs from the evolution witness only in cyclic flags.
proof fn lemma_mid_shape(pre: Api, post: Api)
    requires
        resolution_ok(pre, post),
    ensures
        crate::resolver::only_cyclic_differs(
            post.nodes@,
            with_cyclic_of(post.nodes@, pre.nodes@),
        ),
        with_cyclic_of(post.nodes@, pre.nodes@).len() == post.nodes@.len(),
{
    let mid = with_cyclic_of(post.nodes@, pre.nodes@);
    assert forall|i: int| 0 <= i < post.nodes@.len() implies {
        let a = post.nodes@[i];
        let b = #[trigger] mid[i];
        &&& b.name == a.name
        &&& b.description == a.description
        &&& b.data_type == a.data_type
        &&& b.format == a.format
        &&& b.reference == a.reference
        &&& b.items == a.items
        &&& b.additional_properties == a.additional_properties
        &&& b.properties@ == a.properties@
    } by {}
}

/// A marker sitting in the tree of definition `d` and naming `t` leaves, in
/// the resolved document, every definition named `t` carrying a name.
proof fn lemma_backfill_walk(
    pre: Seq<SchemaNode>,
    mid: Seq<SchemaNode>,
    defs: Seq<(String, usize)>,
    v: int,
    t: Seq<char>,
)
    requires
        graph_wf(pre, defs),
        nodes_evolve(pre, mid, defs),
        0 <= v < pre.len(),
        subtree_references(pre, defs, v, t),
        subtree_linked(mid, defs, v),
    ensures
        forall|e: int|
            0 <= e < defs.len() && #[trigger] defs[e].0@ == t ==> mid[defs[e].1 as int].name
                is Some,
    decreases v,
{
    let j = choose|j: int| #[trigger] has_slot(pre[v], j) && 0 <= j < pre.len() && {
        ||| (match node_marker(pre[j]) {
            Some(m) => valid_ref(m) && ref_target(m) == t,
            None => false,
        })
        ||| (node_marker(pre[j]) is None && !is_root(defs, j) && 0 <= j < v
            && subtree_references(pre, defs, j, t))
    };
    assert(node_evolves(pre, mid, defs, v, pre[v], mid[v]));
    assert(node_evolves(pre, mid, defs, j, pre[j], mid[j]));
    assert(mid[j].reference == pre[j].reference);
    if node_marker(pre[j]) is Some {
        let m = match node_marker(pre[j]) {
            Some(m0) => m0,
            None => Seq::empty(),
        };
        if pre[v].items matches Some(x) && x as int == j {
            let y = match mid[v].items {
                Some(y0) => y0 as int,
                None => 0int,
            };
            assert(slot_evolves(pre, mid, defs, j, y));
            assert(has_slot(mid[v], y));
            if y == j {
                assert(mid[j].reference is None);
                assert(false);
            }
            assert(target_backfilled(pre, mid, defs, j));
        } else if pre[v].additional_properties matches Some(x) && x as int == j {
            let y = match mid[v].additional_properties {
                Some(y0) => y0 as int,
                None => 0int,
            };
            assert(slot_evolves(pre, mid, defs, j, y));
            assert(has_slot(mid[v], y));
            if y == j {
                assert(mid[j].reference is None);
                assert(false);
            }
            assert(target_backfilled(pre, mid, defs, j));
        } else {
            assert(exists|p: int|
                0 <= p < pre[v].properties@.len() && (#[trigger] pre[v].properties@[p]).1 as int
                    == j);
            let p = choose|p: int|
                0 <= p < pre[v].properties@.len() && (#[trigger] pre[v].properties@[p]).1 as int
                    == j;
            let y = mid[v].properties@[p].1 as int;
            assert((mid[v].properties@[p]).0 == (pre[v].properties@[p]).0 && slot_evolves(
                pre,
                mid,
                defs,
                pre[v].properties@[p].1 as int,
                mid[v].properties@[p].1 as int,
            ));
            assert(has_slot(mid[v], y));
            if y == j {
                assert(mid[j].reference is None);
                assert(false);
            }
            assert(target_backfilled(pre, mid, defs, j));
        }
        assert forall|e: int| 0 <= e < defs.len() && #[trigger] defs[e].0@ == t implies mid[defs[
            e].1 as int].name is Some by {
            assert(defs[e].0@ == ref_target(m));
        }
    } else {
        assert(!is_root(defs, j) && 0 <= j < v && subtree_references(pre, defs, j, t));
        if pre[v].items matches Some(x) && x as int == j {
            let y = match mid[v].items {
                Some(y0) => y0 as int,
                None => 0int,
            };
            assert(slot_evolves(pre, mid, defs, j, y));
            if y != j {
                assert(replaces(pre, defs, j, y));
                assert(false);
            }
            assert(has_slot(mid[v], j));
        } else if pre[v].additional_properties matches Some(x) && x as int == j {
            let y = match mid[v].additional_properties {
                Some(y0) => y0 as int,
                None => 0int,
            };
            assert(slot_evolves(pre, mid, defs, j, y));
            if y != j {
                assert(replaces(pre, defs, j, y));
                assert(false);
            }
            assert(has_slot(mid[v], j));
        } else {
            assert(exists|p: int|
                0 <= p < pre[v].properties@.len() && (#[trigger] pre[v].properties@[p]).1 as int
                    == j);
            let p = choose|p: int|
                0 <= p < pre[v].properties@.len() && (#[trigger] pre[v].properties@[p]).1 as int
                    == j;
            assert((mid[v].properties@[p]).0 == (pre[v].properties@[p]).0 && slot_evolves(
                pre,
                mid,
                defs,
                pre[v].properties@[p].1 as int,
                mid[v].properties@[p].1 as int,
            ));
            let y = mid[v].properties@[p].1 as int;
            if y != j {
                assert(replaces(pre, defs, j, y));
                assert(false);
            }
            assert(has_slot(mid[v], j));
        }
        assert(subtree_linked(mid, defs, j));
        lemma_backfill_walk(pre, mid, defs, j, t);
    }
}

/// Name back-fill: a definition whose key is named by a reference in some
/// definition's tree ends up carrying a name; if it had none, the name is
/// its own mapping key.
pub proof fn lemma_name_backfill(pre: Api, post: Api, d: int, t: Seq<char>)
    requires
        pre.wf(),
        resolution_ok(pre, post),
        0 <= d < pre.definitions@.len(),
        subtree_references(pre.nodes@, pre.definitions@, pre.definitions@[d].1 as int, t),
    ensures
        forall|e: int|
            0 <= e < pre.definitions@.len() && #[trigger] pre.definitions@[e].0@ == t ==> {
                let r = pre.definitions@[e].1 as int;
                &&& post.nodes@[r].name is Some
                &&& (pre.nodes@[r].name is None ==> post.nodes@[r].name == Some(
                    pre.definitions@[e].0,
                ))
            },
{
    let defs = pre.definitions@;
    let mid = with_cyclic_of(post.nodes@, pre.nodes@);
    let root = defs[d].1 as int;
    lemma_mid_shape(pre, post);
    crate::resolver::lemma_linked_congruent(post.nodes@, mid, defs, root);
    lemma_backfill_walk(pre.nodes@, mid, defs, root, t);
    assert forall|e: int| 0 <= e < defs.len() && #[trigger] defs[e].0@ == t implies {
        let r = defs[e].1 as int;
        &&& post.nodes@[r].name is Some
        &&& (pre.nodes@[r].name is None ==> post.nodes@[r].name == Some(defs[e].0))
    } by {
        let r = defs[e].1 as int;
        assert(mid[r].name is Some);
        assert(post.nodes@[r].name == mid[r].name);
        if pre.nodes@[r].name is None {
            assert(node_evolves(pre.nodes@, mid, defs, r, pre.nodes@[r], mid[r]));
            assert(name_step(pre.nodes@, defs, r, pre.nodes@[r], mid[r]));
            let e2 = choose|e2: int|
                0 <= e2 < defs.len() && #[trigger] defs[e2].1 as int == r && mid[r].name == Some(
                    defs[e2].0,
                ) && crate::resolver::marker_names(pre.nodes@, defs[e2].0@);
            assert(e2 == e);
        }
    }
}

/// An items slot of definition `d`'s root that carries a marker naming
/// definition `e`'s key becomes an edge from `d` to `e` in the resolved
/// definition graph.
pub proof fn lemma_items_marker_edge(pre: Api, post: Api, d: int, e: int, jx: usize)
    requires
        pre.wf(),
        resolution_ok(pre, post),
        0 <= d < pre.definitions@.len(),
        0 <= e < pre.definitions@.len(),
        pre.nodes@[pre.definitions@[d].1 as int].items == Some(jx),
        (jx as int) < pre.nodes@.len(),
        (match node_marker(pre.nodes@[jx as int]) {
            Some(m) => valid_ref(m) && ref_target(m) == pre.definitions@[e].0@,
            None => false,
        }),
    ensures
        def_edge(post.nodes@, pre.definitions@, d, e),
{
    let defs = pre.definitions@;
    let mid = with_cyclic_of(post.nodes@, pre.nodes@);
    let r = defs[d].1 as int;
    let j = jx as int;
    assert(has_slot(pre.nodes@[r], j));
    assert(node_wf(pre.nodes@, defs, r));
    assert(node_evolves(pre.nodes@, mid, defs, r, pre.nodes@[r], mid[r]));
    assert(node_evolves(pre.nodes@, mid, defs, j, pre.nodes@[j], mid[j]));
    let y = match mid[r].items {
        Some(y0) => y0 as int,
        None => 0int,
    };
    assert(slot_evolves(pre.nodes@, mid, defs, j, y));
    assert(mid[r].items == Some(y as usize));
    assert(has_slot(mid[r], y));
    lemma_mid_shape(pre, post);
    crate::resolver::lemma_linked_congruent(post.nodes@, mid, defs, r);
    if y == j {
        assert(mid[j].reference == pre.nodes@[j].reference);
        assert(mid[j].reference is None);
        assert(false);
    }
    assert(replaces(pre.nodes@, defs, j, y));
    let m = match node_marker(pre.nodes@[j]) {
        Some(m0) => m0,
        None => Seq::empty(),
    };
    let d2 = choose|d2: int|
        0 <= d2 < defs.len() && #[trigger] defs[d2].0@ == ref_target(m) && y == defs[d2].1 as int;
    assert(d2 == e);
    assert(post.nodes@[r].items == mid[r].items);
    assert(slot_leads(post.nodes@, defs, r, y, defs[e].1 as int));
    assert(points_to(post.nodes@, defs, r, defs[e].1 as int));
}

/// Self-cycle: a definition whose items slot references the definition
/// itself resolves with its cyclic flag raised.
pub proof fn lemma_self_cycle(pre: Api, post: Api, d: int, jx: usize)
    requires
        pre.wf(),
        resolution_ok(pre, post),
        0 <= d < pre.definitions@.len(),
        pre.nodes@[pre.definitions@[d].1 as int].items == Some(jx),
        (jx as int) < pre.nodes@.len(),
        (match node_marker(pre.nodes@[jx as int]) {
            Some(m) => valid_ref(m) && ref_target(m) == pre.definitions@[d].0@,
            None => false,
        }),
    ensures
        post.nodes@[pre.definitions@[d].1 as int].cyclic,
{
    lemma_items_marker_edge(pre, post, d, d, jx);
    crate::graph::lemma_edge_reaches(post.nodes@, pre.definitions@, d, d);
}

/// Mutual cycle: two definitions that reference each other (and not
/// themselves directly) both resolve with their cyclic flags raised.
pub proof fn lemma_mutual_cycle(pre: Api, post: Api, dx: int, dy: int)
    requires
        pre.wf(),
        resolution_ok(pre, post),
        0 <= dx < pre.definitions@.len(),
        0 <= dy < pre.definitions@.len(),
        def_edge(post.nodes@, pre.definitions@, dx, dy),
        def_edge(post.nodes@, pre.definitions@, dy, dx),
    ensures
        post.nodes@[pre.definitions@[dx].1 as int].cyclic,
        post.nodes@[pre.definitions@[dy].1 as int].cyclic,
{
    crate::graph::lemma_edge_reaches(post.nodes@, pre.definitions@, dx, dy);
    crate::graph::lemma_reaches_extend(post.nodes@, pre.definitions@, dx, dy, dx);
    crate::graph::lemma_edge_reaches(post.nodes@, pre.definitions@, dy, dx);
    crate::graph::lemma_reaches_extend(post.nodes@, pre.definitions@, dy, dx, dy);
}

/// One slot value `jj` of input node `i` connects it to definition `b`:
/// it already holds `b`'s root handle, it points at a placeholder whose
/// marker names `b`'s key, or it descends into a smaller anonymous child
/// that does.
pub open spec fn input_slot_leads(
    nodes: Seq<SchemaNode>,
    defs: Seq<(String, usize)>,
    i: int,
    jj: int,
    b: int,
) -> bool
    decreases i, 0int,
{
    ||| (jj == defs[b].1 as int && is_root(defs, jj))
    ||| (0 <= jj < nodes.len() && (match node_marker(nodes[jj]) {
        Some(m) => valid_ref(m) && ref_target(m) == defs[b].0@,
        None => false,
    }))
    ||| (!is_root(defs, jj) && 0 <= jj < i && input_points(nodes, defs, jj, b))
}

/// The input tree of node `i` references definition `b`, by handle or by
/// marker.
pub open spec fn input_points(
    nodes: Seq<SchemaNode>,
    defs: Seq<(String, usize)>,
    i: int,
    b: int,
) -> bool
    decreases i, 1int,
{
    ||| (nodes[i].items matches Some(j) && input_slot_leads(nodes, defs, i, j as int, b))
    ||| (nodes[i].additional_properties matches Some(j) && input_slot_leads(
        nodes,
        defs,
        i,
        j as int,
        b,
    ))
    ||| (exists|q: int|
        0 <= q < nodes[i].properties@.len() && input_slot_leads(
            nodes,
            defs,
            i,
            (#[trigger] nodes[i].properties@[q]).1 as int,
            b,
        ))
}

/// Edge of the input document's reference graph: definition `a`'s tree
/// references definition `b` by handle or marker.
pub open spec fn input_edge(pre: Api, a: int, b: int) -> bool {
    &&& 0 <= a < pre.definitions@.len()
    &&& 0 <= b < pre.definitions@.len()
    &&& input_points(pre.nodes@, pre.definitions@, pre.definitions@[a].1 as int, b)
}

/// A walk through the input reference graph.
pub open spec fn input_chain(pre: Api, c: Seq<int>) -> bool {
    forall|q: int| 0 <= q < c.len() - 1 ==> input_edge(pre, #[trigger] c[q], c[q + 1])
}

/// Definition `d` lies on a reference cycle of the input document.
pub open spec fn input_cycle(pre: Api, d: int) -> bool {
    exists|c: Seq<int>|
        input_chain(pre, c) && c.len() >= 2 && c.first() == d && c.last() == d
}

/// Every handle the resolved tree holds traces back to an input-document
/// reference: a handle the input already held, or a marker it carried.
proof fn lemma_points_source(pre: Api, mid: Seq<SchemaNode>, v: int, b: int)
    requires
        pre.wf(),
        nodes_evolve(pre.nodes@, mid, pre.definitions@),
        0 <= v < pre.nodes@.len(),
        0 <= b < pre.definitions@.len(),
        points_to(mid, pre.definitions@, v, pre.definitions@[b].1 as int),
    ensures
        input_points(pre.nodes@, pre.definitions@, v, b),
    decreases v,
{
    let nodes = pre.nodes@;
    let defs = pre.definitions@;
    let k = defs[b].1 as int;
    assert(node_evolves(nodes, mid, defs, v, nodes[v], mid[v]));
    assert(node_wf(nodes, defs, v));
    let yi = match mid[v].items {
        Some(v0) => v0 as int,
        None => 0int,
    };
    let ya = match mid[v].additional_properties {
        Some(v0) => v0 as int,
        None => 0int,
    };
    if mid[v].items is Some && slot_leads(mid, defs, v, yi, k) {
        let y = yi;
        let x = match nodes[v].items {
            Some(x0) => x0 as int,
            None => 0int,
        };
        assert(slot_evolves(nodes, mid, defs, x, y));
        assert(has_slot(nodes[v], x));
        if y == k && is_root(defs, k) {
            if x == y {
                assert(input_slot_leads(nodes, defs, v, x, b));
            } else {
                assert(replaces(nodes, defs, x, y));
                let m = match node_marker(nodes[x]) {
                    Some(m0) => m0,
                    None => Seq::empty(),
                };
                let d2 = choose|d2: int|
                    0 <= d2 < defs.len() && #[trigger] defs[d2].0@ == ref_target(m) && y == defs[
                        d2].1 as int;
                assert(d2 == b);
                assert(input_slot_leads(nodes, defs, v, x, b));
            }
        } else {
            assert(!is_root(defs, y) && 0 <= y < v && points_to(mid, defs, y, k));
            if x != y {
                assert(replaces(nodes, defs, x, y));
                crate::resolver::lemma_replaces_root(nodes, defs, x, y);
                assert(false);
            }
            lemma_points_source(pre, mid, y, b);
            assert(input_slot_leads(nodes, defs, v, x, b));
        }
        assert(nodes[v].items matches Some(xx) && input_slot_leads(nodes, defs, v, xx as int, b));
    } else if mid[v].additional_properties is Some && slot_leads(mid, defs, v, ya, k) {
        let y = ya;
        let x = match nodes[v].additional_properties {
            Some(x0) => x0 as int,
            None => 0int,
        };
        assert(slot_evolves(nodes, mid, defs, x, y));
        assert(has_slot(nodes[v], x));
        if y == k && is_root(defs, k) {
            if x == y {
                assert(input_slot_leads(nodes, defs, v, x, b));
            } else {
                assert(replaces(nodes, defs, x, y));
                let m = match node_marker(nodes[x]) {
                    Some(m0) => m0,
                    None => Seq::empty(),
                };
                let d2 = choose|d2: int|
                    0 <= d2 < defs.len() && #[trigger] defs[d2].0@ == ref_target(m) && y == defs[
                        d2].1 as int;
                assert(d2 == b);
                assert(input_slot_leads(nodes, defs, v, x, b));
            }
        } else {
            assert(!is_root(defs, y) && 0 <= y < v && points_to(mid, defs, y, k));
            if x != y {
                assert(replaces(nodes, defs, x, y));
                crate::resolver::lemma_replaces_root(nodes, defs, x, y);
                assert(false);
            }
            lemma_points_source(pre, mid, y, b);
            assert(input_slot_leads(nodes, defs, v, x, b));
        }
        assert(nodes[v].additional_properties matches Some(xx) && input_slot_leads(
            nodes,
            defs,
            v,
            xx as int,
            b,
        ));
    } else {
        let q = choose|q: int|
            0 <= q < mid[v].properties@.len() && slot_leads(
                mid,
                defs,
                v,
                (#[trigger] mid[v].properties@[q]).1 as int,
                k,
            );
        assert((mid[v].properties@[q]).0 == (nodes[v].properties@[q]).0 && slot_evolves(
            nodes,
            mid,
            defs,
            nodes[v].properties@[q].1 as int,
            mid[v].properties@[q].1 as int,
        ));
        let y = mid[v].properties@[q].1 as int;
        let x = nodes[v].properties@[q].1 as int;
        assert(has_slot(nodes[v], x));
        if y == k && is_root(defs, k) {
            if x == y {
                assert(input_slot_leads(nodes, defs, v, x, b));
            } else {
                assert(replaces(nodes, defs, x, y));
                let m = match node_marker(nodes[x]) {
                    Some(m0) => m0,
                    None => Seq::empty(),
                };
                let d2 = choose|d2: int|
                    0 <= d2 < defs.len() && #[trigger] defs[d2].0@ == ref_target(m) && y == defs[
                        d2].1 as int;
                assert(d2 == b);
                assert(input_slot_leads(nodes, defs, v, x, b));
            }
        } else {
            assert(!is_root(defs, y) && 0 <= y < v && points_to(mid, defs, y, k));
            if x != y {
                assert(replaces(nodes, defs, x, y));
                crate::resolver::lemma_replaces_root(nodes, defs, x, y);
                assert(false);
            }
            lemma_points_source(pre, mid, y, b);
            assert(input_slot_leads(nodes, defs, v, x, b));
        }
        assert(exists|q2: int|
            0 <= q2 < nodes[v].properties@.len() && input_slot_leads(
                nodes,
                defs,
                v,
                (#[trigger] nodes[v].properties@[q2]).1 as int,
                b,
            ));
    }
}

/// Acyclic graph unaffected: when the input document's reference graph has
/// no cycle and no cyclic flag was set in the input, every cyclic flag in
/// the resolved output is still false.
pub proof fn lemma_acyclic_unaffected(pre: Api, post: Api)
    requires
        pre.wf(),
        resolution_ok(pre, post),
        forall|d: int| 0 <= d < pre.definitions@.len() ==> !input_cycle(pre, d),
        forall|i: int| 0 <= i < pre.nodes@.len() ==> !(#[trigger] pre.nodes@[i]).cyclic,
    ensures
        forall|i: int| 0 <= i < post.nodes@.len() ==> !(#[trigger] post.nodes@[i]).cyclic,
{
    let defs = pre.definitions@;
    let mid = with_cyclic_of(post.nodes@, pre.nodes@);
    lemma_mid_shape(pre, post);
    assert forall|d: int| 0 <= d < defs.len() implies !on_cycle(post.nodes@, defs, d) by {
        if on_cycle(post.nodes@, defs, d) {
            let c = choose|c: Seq<int>|
                crate::graph::is_chain(post.nodes@, defs, c) && c.len() >= 2 && c.first() == d
                    && c.last() == d;
            assert forall|q: int| 0 <= q < c.len() - 1 implies input_edge(
                pre,
                #[trigger] c[q],
                c[q + 1],
            ) by {
                assert(def_edge(post.nodes@, defs, c[q], c[q + 1]));
                assert(post.nodes@[defs[c[q]].1 as int].items == mid[defs[c[q]].1 as int].items);
                crate::resolver::lemma_points_congruent(
                    post.nodes@,
                    mid,
                    defs,
                    defs[c[q]].1 as int,
                    defs[c[q + 1]].1 as int,
                );
                lemma_points_source(pre, mid, defs[c[q]].1 as int, c[q + 1]);
            }
            assert(input_chain(pre, c) && c.len() >= 2 && c.first() == d && c.last() == d);
            assert(input_cycle(pre, d));
            assert(false);
        }
    }
    assert forall|i: int| 0 <= i < post.nodes@.len() implies !(#[trigger] post.nodes@[i]).cyclic by {
        if is_root(defs, i) {
            let d = choose|d: int| 0 <= d < defs.len() && defs[d].1 as int == i;
            assert(post.nodes@[defs[d].1 as int].cyclic == (pre.nodes@[defs[d].1 as int].cyclic
                || on_cycle(post.nodes@, defs, d)));
        }
    }
}

/// Linked trees are fixed points of the link pass: resolving a document
/// whose definition trees are already linked replaces no slot of any tree
/// node, even while unreachable placeholders still carry markers — the
/// aliasing structure of the graph is untouched.
///
/// Stated per tree node: `v` is a linked node of the input (a definition
/// root, or any node its tree reaches).
pub proof fn lemma_reresolution_keeps_slots(pre: Api, post: Api, v: int)
    requires
        pre.wf(),
        resolution_ok(pre, post),
        0 <= v < pre.nodes@.len(),
        subtree_linked(pre.nodes@, pre.definitions@, v),
    ensures
        post.nodes@[v].items == pre.nodes@[v].items,
        post.nodes@[v].additional_properties == pre.nodes@[v].additional_properties,
        post.nodes@[v].properties@ == pre.nodes@[v].properties@,
{
    let defs = pre.definitions@;
    let mid = with_cyclic_of(post.nodes@, pre.nodes@);
    assert(node_evolves(pre.nodes@, mid, defs, v, pre.nodes@[v], mid[v]));
    match (pre.nodes@[v].items, mid[v].items) {
        (Some(x), Some(y)) => {
            assert(slot_evolves(pre.nodes@, mid, defs, x as int, y as int));
            assert(has_slot(pre.nodes@[v], x as int));
            assert(node_wf(pre.nodes@, defs, v));
            assert(pre.nodes@[x as int].reference is None);
            if y != x {
                assert(replaces(pre.nodes@, defs, x as int, y as int));
                assert(false);
            }
        },
        _ => {},
    }
    match (pre.nodes@[v].additional_properties, mid[v].additional_properties) {
        (Some(x), Some(y)) => {
            assert(slot_evolves(pre.nodes@, mid, defs, x as int, y as int));
            assert(has_slot(pre.nodes@[v], x as int));
            assert(node_wf(pre.nodes@, defs, v));
            assert(pre.nodes@[x as int].reference is None);
            if y != x {
                assert(replaces(pre.nodes@, defs, x as int, y as int));
                assert(false);
            }
        },
        _ => {},
    }
    assert forall|p: int| 0 <= p < pre.nodes@[v].properties@.len() implies (#[trigger] mid[
        v].properties@[p]) == pre.nodes@[v].properties@[p] by {
        let x = pre.nodes@[v].properties@[p].1;
        let y = mid[v].properties@[p].1;
        assert((mid[v].properties@[p]).0 == (pre.nodes@[v].properties@[p]).0 && slot_evolves(
            pre.nodes@,
            mid,
            defs,
            pre.nodes@[v].properties@[p].1 as int,
            mid[v].properties@[p].1 as int,
        ));
        assert(has_slot(pre.nodes@[v], x as int));
        assert(node_wf(pre.nodes@, defs, v));
        assert(pre.nodes@[x as int].reference is None);
        if y != x {
            assert(replaces(pre.nodes@, defs, x as int, y as int));
            assert(false);
        }
    }
    assert(mid[v].properties@ =~= pre.nodes@[v].properties@);
    assert(post.nodes@[v].items == mid[v].items);
    assert(post.nodes@[v].additional_properties == mid[v].additional_properties);
    assert(post.nodes@[v].properties@ == mid[v].properties@);
}

/// Idempotence of re-resolution: resolving a document in which no marker
/// string remains — the state `resolve` itself leaves behind, with each
/// cycle already flagged — changes nothing: every node keeps its name,
/// metadata, handles and cyclic flag, and the version marker and the
/// definitions mapping come through unchanged.
pub proof fn lemma_idempotent(r: Api, r2: Api)
    requires
        r.wf(),
        resolution_ok(r, r2),
        forall|i: int| 0 <= i < r.nodes@.len() ==> (#[trigger] r.nodes@[i].reference) is None,
        forall|d: int|
            0 <= d < r.definitions@.len() ==> (on_cycle(r.nodes@, r.definitions@, d)
                ==> r.nodes@[r.definitions@[d].1 as int].cyclic),
    ensures
        r2.swagger == r.swagger,
        r2.definitions == r.definitions,
        r2.nodes@.len() == r.nodes@.len(),
        forall|i: int| 0 <= i < r.nodes@.len() ==> {
            let a = r.nodes@[i];
            let b = #[trigger] r2.nodes@[i];
            &&& b.name == a.name
            &&& b.description == a.description
            &&& b.data_type == a.data_type
            &&& b.format == a.format
            &&& b.reference == a.reference
            &&& b.items == a.items
            &&& b.additional_properties == a.additional_properties
            &&& b.properties@ == a.properties@
            &&& b.cyclic == a.cyclic
        },
{
    let defs = r.definitions@;
    let mid = with_cyclic_of(r2.nodes@, r.nodes@);
    lemma_mid_shape(r, r2);
    assert forall|i: int| 0 <= i < r.nodes@.len() implies {
        let a = r.nodes@[i];
        let b = #[trigger] r2.nodes@[i];
        &&& b.name == a.name
        &&& b.description == a.description
        &&& b.data_type == a.data_type
        &&& b.format == a.format
        &&& b.reference == a.reference
        &&& b.items == a.items
        &&& b.additional_properties == a.additional_properties
        &&& b.properties@ == a.properties@
    } by {
        let a = r.nodes@[i];
        assert(node_evolves(r.nodes@, mid, defs, i, a, mid[i]));
        match (a.items, mid[i].items) {
            (Some(x), Some(y)) => {
                assert(slot_evolves(r.nodes@, mid, defs, x as int, y as int));
                if y != x {
                    assert(replaces(r.nodes@, defs, x as int, y as int));
                    assert(r.nodes@[x as int].reference is None);
                    assert(false);
                }
            },
            _ => {},
        }
        match (a.additional_properties, mid[i].additional_properties) {
            (Some(x), Some(y)) => {
                assert(slot_evolves(r.nodes@, mid, defs, x as int, y as int));
                if y != x {
                    assert(replaces(r.nodes@, defs, x as int, y as int));
                    assert(r.nodes@[x as int].reference is None);
                    assert(false);
                }
            },
            _ => {},
        }
        assert forall|p: int| 0 <= p < a.properties@.len() implies (#[trigger] mid[
            i].properties@[p]) == a.properties@[p] by {
            assert((mid[i].properties@[p]).0 == (a.properties@[p]).0 && slot_evolves(
                r.nodes@,
                mid,
                defs,
                a.properties@[p].1 as int,
                mid[i].properties@[p].1 as int,
            ));
            let x = a.properties@[p].1;
            let y = mid[i].properties@[p].1;
            if y != x {
                assert(replaces(r.nodes@, defs, x as int, y as int));
                assert(r.nodes@[x as int].reference is None);
                assert(false);
            }
        }
        assert(mid[i].properties@ =~= a.properties@);
        if mid[i].name != a.name {
            assert(name_step(r.nodes@, defs, i, a, mid[i]));
            let d = choose|d: int|
                0 <= d < defs.len() && #[trigger] defs[d].1 as int == i && mid[i].name == Some(
                    defs[d].0,
                ) && crate::resolver::marker_names(r.nodes@, defs[d].0@);
            let p = choose|p: int|
                0 <= p < r.nodes@.len() && (match node_marker(#[trigger] r.nodes@[p]) {
                    Some(m) => valid_ref(m) && ref_target(m) == defs[d].0@,
                    None => false,
                });
            assert(r.nodes@[p].reference is None);
            assert(false);
        }
    }
    assert(crate::resolver::only_cyclic_differs(r.nodes@, r2.nodes@));
    assert forall|i: int| 0 <= i < r.nodes@.len() implies (#[trigger] r2.nodes@[i]).cyclic
        == r.nodes@[i].cyclic by {
        if is_root(defs, i) {
            let d = choose|d: int| 0 <= d < defs.len() && defs[d].1 as int == i;
            assert(r2.nodes@[defs[d].1 as int].cyclic == (r.nodes@[defs[d].1 as int].cyclic
                || on_cycle(r2.nodes@, defs, d)));
            crate::resolver::lemma_on_cycle_congruent(r.nodes@, r2.nodes@, defs, d);
        }
    }
}

} // verus!
