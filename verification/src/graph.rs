//! The definition graph of a linked document, and cycle detection.
//!
//! After the link pass, every definition's tree points at other definitions
//! only through handles. `points_to` reads those handles off the tree,
//! `def_edge` turns them into edges between definition positions, and
//! `def_reaches_itself` decides, by an exhaustive worklist search, whether a
//! definition can reach itself through one or more reference hops — exactly
//! the definitions the resolver must flag as cyclic.

use vstd::prelude::*;

use crate::models::{graph_wf, has_slot, is_root, node_wf, SchemaNode};

verus! {

/// One slot value `jj` of node `i` leads to the definition-root handle `k`:
/// directly, or through a smaller anonymous child.
pub open spec fn slot_leads(
    nodes: Seq<SchemaNode>,
    defs: Seq<(String, usize)>,
    i: int,
    jj: int,
    k: int,
) -> bool
    decreases i, 0int,
{
    ||| (jj == k && is_root(defs, k))
    ||| (!is_root(defs, jj) && 0 <= jj < i && points_to(nodes, defs, jj, k))
}

/// The tree of node `i` (descending only through anonymous children) has a
/// slot holding the definition-root handle `k`.
pub open spec fn points_to(
    nodes: Seq<SchemaNode>,
    defs: Seq<(String, usize)>,
    i: int,
    k: int,
) -> bool
    decreases i, 1int,
{
    ||| (nodes[i].items matches Some(j) && slot_leads(nodes, defs, i, j as int, k))
    ||| (nodes[i].additional_properties matches Some(j) && slot_leads(nodes, defs, i, j as int, k))
    ||| (exists|q: int|
        0 <= q < nodes[i].properties@.len() && slot_leads(
            nodes,
            defs,
            i,
            (#[trigger] nodes[i].properties@[q]).1 as int,
            k,
        ))
}

/// Edge between definition positions: `a`'s tree holds a handle to `b`'s
/// root.
pub open spec fn def_edge(
    nodes: Seq<SchemaNode>,
    defs: Seq<(String, usize)>,
    a: int,
    b: int,
) -> bool {
    &&& 0 <= a < defs.len()
    &&& 0 <= b < defs.len()
    &&& points_to(nodes, defs, defs[a].1 as int, defs[b].1 as int)
}

/// A walk through the definition graph: consecutive positions are joined by
/// edges.
pub open spec fn is_chain(
    nodes: Seq<SchemaNode>,
    defs: Seq<(String, usize)>,
    c: Seq<int>,
) -> bool {
    forall|q: int| 0 <= q < c.len() - 1 ==> def_edge(nodes, defs, #[trigger] c[q], c[q + 1])
}

/// Definition position `b` is reachable from `a` through one or more edges.
pub open spec fn reaches(
    nodes: Seq<SchemaNode>,
    defs: Seq<(String, usize)>,
    a: int,
    b: int,
) -> bool {
    exists|c: Seq<int>|
        is_chain(nodes, defs, c) && c.len() >= 2 && c.first() == a && c.last() == b
}

/// Definition position `d` lies on a reference cycle: it reaches itself
/// through one or more edges.
pub open spec fn on_cycle(nodes: Seq<SchemaNode>, defs: Seq<(String, usize)>, d: int) -> bool {
    reaches(nodes, defs, d, d)
}

/// One edge is a walk.
pub proof fn lemma_edge_reaches(
    nodes: Seq<SchemaNode>,
    defs: Seq<(String, usize)>,
    a: int,
    b: int,
)
    requires
        def_edge(nodes, defs, a, b),
    ensures
        reaches(nodes, defs, a, b),
{
    let c = seq![a, b];
    assert forall|q: int| 0 <= q < c.len() - 1 implies def_edge(nodes, defs, #[trigger] c[q], c[q
        + 1]) by {
        assert(c[0] == a && c[1] == b);
    }
    assert(is_chain(nodes, defs, c) && c.len() >= 2 && c.first() == a && c.last() == b);
}

/// A walk extended by one edge is a walk.
pub proof fn lemma_reaches_extend(
    nodes: Seq<SchemaNode>,
    defs: Seq<(String, usize)>,
    a: int,
    b: int,
    e: int,
)
    requires
        reaches(nodes, defs, a, b),
        def_edge(nodes, defs, b, e),
    ensures
        reaches(nodes, defs, a, e),
{
    let c = choose|c: Seq<int>|
        is_chain(nodes, defs, c) && c.len() >= 2 && c.first() == a && c.last() == b;
    let c2 = c.push(e);
    assert forall|q: int| 0 <= q < c2.len() - 1 implies def_edge(nodes, defs, #[trigger] c2[q], c2[
        q + 1]) by {
        if q < c.len() - 1 {
            assert(c2[q] == c[q] && c2[q + 1] == c[q + 1]);
            assert(def_edge(nodes, defs, c[q], c[q + 1]));
        } else {
            assert(c2[q] == c.last() && c2[q + 1] == e);
        }
    }
    assert(is_chain(nodes, defs, c2) && c2.len() >= 2 && c2.first() == a && c2.last() == e);
}

/// If a visited set contains every direct successor of `d` and is closed
/// under edges, it contains the end of every walk that starts at `d`.
proof fn lemma_chain_visited(
    nodes: Seq<SchemaNode>,
    defs: Seq<(String, usize)>,
    vis: Seq<bool>,
    d: int,
    c: Seq<int>,
)
    requires
        vis.len() == defs.len(),
        is_chain(nodes, defs, c),
        c.len() >= 2,
        c.first() == d,
        forall|e: int| 0 <= e < defs.len() && def_edge(nodes, defs, d, e) ==> vis[e],
        forall|u: int, w: int|
            0 <= u < defs.len() && vis[u] && 0 <= w < defs.len() && def_edge(nodes, defs, u, w)
                ==> vis[w],
    ensures
        0 <= c.last() < defs.len() && vis[c.last()],
    decreases c.len(),
{
    if c.len() == 2 {
        assert(def_edge(nodes, defs, c[0], c[1]));
    } else {
        let c0 = c.drop_last();
        assert forall|q: int| 0 <= q < c0.len() - 1 implies def_edge(
            nodes,
            defs,
            #[trigger] c0[q],
            c0[q + 1],
        ) by {
            assert(c0[q] == c[q] && c0[q + 1] == c[q + 1]);
            assert(def_edge(nodes, defs, c[q], c[q + 1]));
        }
        lemma_chain_visited(nodes, defs, vis, d, c0);
        assert(def_edge(nodes, defs, c[c.len() - 2], c[c.len() - 1]));
    }
}

/// The number of `true` entries of a boolean sequence.
pub closed spec fn count_trues(s: Seq<bool>) -> int
    decreases s.len(),
{
    if s.len() == 0 {
        0
    } else {
        count_trues(s.drop_last()) + if s.last() {
            1int
        } else {
            0int
        }
    }
}

proof fn lemma_count_trues_bound(s: Seq<bool>)
    ensures
        0 <= count_trues(s) <= s.len(),
    decreases s.len(),
{
    if s.len() > 0 {
        lemma_count_trues_bound(s.drop_last());
    }
}

proof fn lemma_count_trues_push(s: Seq<bool>, b: bool)
    ensures
        count_trues(s.push(b)) == count_trues(s) + if b {
            1int
        } else {
            0int
        },
{
    assert(s.push(b).drop_last() =~= s);
    assert(s.push(b).last() == b);
}

proof fn lemma_count_trues_set(s: Seq<bool>, i: int)
    requires
        0 <= i < s.len(),
        !s[i],
    ensures
        count_trues(s.update(i, true)) == count_trues(s) + 1,
    decreases s.len(),
{
    let s2 = s.update(i, true);
    if i == s.len() - 1 {
        assert(s2.drop_last() =~= s.drop_last());
        assert(s2.last());
        assert(!s.last());
    } else {
        assert(s2.drop_last() =~= s.drop_last().update(i, true));
        assert(s2.last() == s.last());
        lemma_count_trues_set(s.drop_last(), i);
    }
}

proof fn lemma_count_trues_lt(s: Seq<bool>, i: int)
    requires
        0 <= i < s.len(),
        !s[i],
    ensures
        count_trues(s) < s.len(),
    decreases s.len(),
{
    if i == s.len() - 1 {
        lemma_count_trues_bound(s.drop_last());
    } else {
        lemma_count_trues_lt(s.drop_last(), i);
    }
}

proof fn lemma_push_keeps_contains(s: Seq<usize>, x: usize)
    ensures
        forall|e: usize| s.contains(e) ==> #[trigger] s.push(x).contains(e),
        s.push(x).contains(x),
        forall|e: usize| #[trigger] s.push(x).contains(e) ==> s.contains(e) || e == x,
{
    assert forall|e: usize| s.contains(e) implies s.push(x).contains(e) by {
        let idx = choose|idx: int| 0 <= idx < s.len() && s[idx] == e;
        assert(s.push(x)[idx] == e);
    }
    assert(s.push(x)[s.len() as int] == x);
    assert forall|e: usize| s.push(x).contains(e) implies s.contains(e) || e == x by {
        let idx = choose|idx: int| 0 <= idx < s.push(x).len() && s.push(x)[idx] == e;
        if idx < s.len() {
            assert(s[idx] == e);
        }
    }
}

/// Collect into `out` the position of every definition whose root the tree
/// of node `i` holds a handle to.
#[verifier::rlimit(60)]
fn collect_targets(
    nodes: &Vec<SchemaNode>,
    defs: &Vec<(String, usize)>,
    i: usize,
    out: &mut Vec<usize>,
)
    requires
        graph_wf(nodes@, defs@),
        i < nodes@.len(),
    ensures
        forall|e: usize| old(out)@.contains(e) ==> final(out)@.contains(e),
        forall|e: usize| #[trigger]
            final(out)@.contains(e) ==> old(out)@.contains(e) || ((e as int) < defs@.len()
                && points_to(nodes@, defs@, i as int, defs@[e as int].1 as int)),
        forall|b: int|
            0 <= b < defs@.len() && points_to(nodes@, defs@, i as int, (#[trigger] defs@[b]).1 as int)
                ==> final(out)@.contains(b as usize),
    decreases i,
{
    let ghost out0 = out@;

    let it = nodes[i].items;
    if let Some(j) = it {
        proof {
            assert(has_slot(nodes@[i as int], j as int));
            assert(node_wf(nodes@, defs@, i as int));
        }
        match crate::resolver::root_position(defs, j) {
            Some(dpos) => {
                let ghost ob = out@;
                out.push(dpos);
                proof {
                    lemma_push_keeps_contains(ob, dpos);
                    assert(is_root(defs@, j as int));
                    assert forall|b: int|
                        0 <= b < defs@.len() && slot_leads(
                            nodes@,
                            defs@,
                            i as int,
                            j as int,
                            (#[trigger] defs@[b]).1 as int,
                        ) implies out@.contains(b as usize) by {
                        assert(defs@[b].1 == j);
                        assert(b == dpos as int);
                    }
                    assert(slot_leads(nodes@, defs@, i as int, j as int, defs@[
                        dpos as int].1 as int));
                    assert(points_to(nodes@, defs@, i as int, defs@[dpos as int].1 as int));
                    assert forall|e: usize| #[trigger] out@.contains(e) implies ob.contains(e)
                        || ((e as int) < defs@.len() && points_to(
                        nodes@,
                        defs@,
                        i as int,
                        defs@[e as int].1 as int,
                    )) by {}
                }
            },
            None => {
                let ghost ob = out@;
                collect_targets(nodes, defs, j, out);
                proof {
                    assert forall|b: int|
                        0 <= b < defs@.len() && slot_leads(
                            nodes@,
                            defs@,
                            i as int,
                            j as int,
                            (#[trigger] defs@[b]).1 as int,
                        ) implies out@.contains(b as usize) by {
                        assert(!is_root(defs@, j as int));
                        assert(points_to(nodes@, defs@, j as int, defs@[b].1 as int));
                    }
                    assert((j as int) < i as int);
                    assert forall|e: usize| #[trigger] out@.contains(e) implies ob.contains(e)
                        || ((e as int) < defs@.len() && points_to(
                        nodes@,
                        defs@,
                        i as int,
                        defs@[e as int].1 as int,
                    )) by {
                        if !ob.contains(e) {
                            assert((e as int) < defs@.len() && points_to(
                                nodes@,
                                defs@,
                                j as int,
                                defs@[e as int].1 as int,
                            ));
                            assert(slot_leads(
                                nodes@,
                                defs@,
                                i as int,
                                j as int,
                                defs@[e as int].1 as int,
                            ));
                        }
                    }
                }
            },
        }
    }
    let ghost out1 = out@;

    let ad = nodes[i].additional_properties;
    if let Some(j) = ad {
        proof {
            assert(has_slot(nodes@[i as int], j as int));
            assert(node_wf(nodes@, defs@, i as int));
        }
        match crate::resolver::root_position(defs, j) {
            Some(dpos) => {
                let ghost ob = out@;
                out.push(dpos);
                proof {
                    lemma_push_keeps_contains(ob, dpos);
                    assert(is_root(defs@, j as int));
                    assert forall|b: int|
                        0 <= b < defs@.len() && slot_leads(
                            nodes@,
                            defs@,
                            i as int,
                            j as int,
                            (#[trigger] defs@[b]).1 as int,
                        ) implies out@.contains(b as usize) by {
                        assert(defs@[b].1 == j);
                        assert(b == dpos as int);
                    }
                    assert(slot_leads(nodes@, defs@, i as int, j as int, defs@[
                        dpos as int].1 as int));
                    assert(points_to(nodes@, defs@, i as int, defs@[dpos as int].1 as int));
                    assert forall|e: usize| #[trigger] out@.contains(e) implies ob.contains(e)
                        || ((e as int) < defs@.len() && points_to(
                        nodes@,
                        defs@,
                        i as int,
                        defs@[e as int].1 as int,
                    )) by {}
                }
            },
            None => {
                let ghost ob = out@;
                collect_targets(nodes, defs, j, out);
                proof {
                    assert forall|b: int|
                        0 <= b < defs@.len() && slot_leads(
                            nodes@,
                            defs@,
                            i as int,
                            j as int,
                            (#[trigger] defs@[b]).1 as int,
                        ) implies out@.contains(b as usize) by {
                        assert(!is_root(defs@, j as int));
                        assert(points_to(nodes@, defs@, j as int, defs@[b].1 as int));
                    }
                    assert((j as int) < i as int);
                    assert forall|e: usize| #[trigger] out@.contains(e) implies ob.contains(e)
                        || ((e as int) < defs@.len() && points_to(
                        nodes@,
                        defs@,
                        i as int,
                        defs@[e as int].1 as int,
                    )) by {
                        if !ob.contains(e) {
                            assert((e as int) < defs@.len() && points_to(
                                nodes@,
                                defs@,
                                j as int,
                                defs@[e as int].1 as int,
                            ));
                            assert(slot_leads(
                                nodes@,
                                defs@,
                                i as int,
                                j as int,
                                defs@[e as int].1 as int,
                            ));
                        }
                    }
                }
            },
        }
    }
    let ghost out2 = out@;

    let np = nodes[i].properties.len();
    let mut p: usize = 0;
    while p < np
        invariant
            graph_wf(nodes@, defs@),
            i < nodes@.len(),
            np == nodes@[i as int].properties@.len(),
            p <= np,
            forall|e: usize| out0.contains(e) ==> out@.contains(e),
            forall|e: usize| #[trigger]
                out@.contains(e) ==> out0.contains(e) || ((e as int) < defs@.len() && points_to(
                    nodes@,
                    defs@,
                    i as int,
                    defs@[e as int].1 as int,
                )),
            forall|b: int|
                0 <= b < defs@.len() && (nodes@[i as int].items matches Some(j) && slot_leads(
                    nodes@,
                    defs@,
                    i as int,
                    j as int,
                    (#[trigger] defs@[b]).1 as int,
                )) ==> out@.contains(b as usize),
            forall|b: int|
                0 <= b < defs@.len() && (nodes@[i as int].additional_properties matches Some(j)
                    && slot_leads(
                    nodes@,
                    defs@,
                    i as int,
                    j as int,
                    (#[trigger] defs@[b]).1 as int,
                )) ==> out@.contains(b as usize),
            forall|b: int, q: int|
                0 <= b < defs@.len() && 0 <= q < p && slot_leads(
                    nodes@,
                    defs@,
                    i as int,
                    (#[trigger] nodes@[i as int].properties@[q]).1 as int,
                    (#[trigger] defs@[b]).1 as int,
                ) ==> out@.contains(b as usize),
        decreases np - p,
    {
        let j = nodes[i].properties[p].1;
        proof {
            assert(has_slot(nodes@[i as int], j as int));
            assert(node_wf(nodes@, defs@, i as int));
        }
        match crate::resolver::root_position(defs, j) {
            Some(dpos) => {
                let ghost ob = out@;
                out.push(dpos);
                proof {
                    lemma_push_keeps_contains(ob, dpos);
                    assert(is_root(defs@, j as int));
                    assert forall|b: int|
                        0 <= b < defs@.len() && slot_leads(
                            nodes@,
                            defs@,
                            i as int,
                            j as int,
                            (#[trigger] defs@[b]).1 as int,
                        ) implies out@.contains(b as usize) by {
                        assert(defs@[b].1 == j);
                        assert(b == dpos as int);
                    }
                    assert(slot_leads(nodes@, defs@, i as int, j as int, defs@[
                        dpos as int].1 as int));
                    assert(points_to(nodes@, defs@, i as int, defs@[dpos as int].1 as int));
                    assert forall|e: usize| #[trigger] out@.contains(e) implies ob.contains(e)
                        || ((e as int) < defs@.len() && points_to(
                        nodes@,
                        defs@,
                        i as int,
                        defs@[e as int].1 as int,
                    )) by {}
                }
            },
            None => {
                let ghost ob = out@;
                collect_targets(nodes, defs, j, out);
                proof {
                    assert forall|b: int|
                        0 <= b < defs@.len() && slot_leads(
                            nodes@,
                            defs@,
                            i as int,
                            j as int,
                            (#[trigger] defs@[b]).1 as int,
                        ) implies out@.contains(b as usize) by {
                        assert(!is_root(defs@, j as int));
                        assert(points_to(nodes@, defs@, j as int, defs@[b].1 as int));
                    }
                    assert((j as int) < i as int);
                    assert forall|e: usize| #[trigger] out@.contains(e) implies ob.contains(e)
                        || ((e as int) < defs@.len() && points_to(
                        nodes@,
                        defs@,
                        i as int,
                        defs@[e as int].1 as int,
                    )) by {
                        if !ob.contains(e) {
                            assert((e as int) < defs@.len() && points_to(
                                nodes@,
                                defs@,
                                j as int,
                                defs@[e as int].1 as int,
                            ));
                            assert(slot_leads(
                                nodes@,
                                defs@,
                                i as int,
                                j as int,
                                defs@[e as int].1 as int,
                            ));
                        }
                    }
                }
            },
        }
        p = p + 1;
    }
    proof {
        assert forall|b: int|
            0 <= b < defs@.len() && points_to(nodes@, defs@, i as int, (#[trigger] defs@[b]).1 as int)
            implies out@.contains(b as usize) by {
            let k = defs@[b].1 as int;
            if nodes@[i as int].items matches Some(j) && slot_leads(nodes@, defs@, i as int,
            j as int, k) {
            } else if nodes@[i as int].additional_properties matches Some(j) && slot_leads(
                nodes@,
                defs@,
                i as int,
                j as int,
                k,
            ) {
            } else {
                let q = choose|q: int|
                    0 <= q < nodes@[i as int].properties@.len() && slot_leads(
                        nodes@,
                        defs@,
                        i as int,
                        (#[trigger] nodes@[i as int].properties@[q]).1 as int,
                        k,
                    );
            }
        }
    }
}

/// Whether the definition at position `d` lies on a reference cycle,
/// decided by an exhaustive search of everything reachable from `d`.
#[verifier::rlimit(100)]
#[verifier::spinoff_prover]
pub fn def_reaches_itself(
    nodes: &Vec<SchemaNode>,
    defs: &Vec<(String, usize)>,
    d: usize,
) -> (res: bool)
    requires
        graph_wf(nodes@, defs@),
        d < defs@.len(),
    ensures
        res == on_cycle(nodes@, defs@, d as int),
{
    let n = defs.len();
    let mut visited: Vec<bool> = Vec::new();
    let mut z: usize = 0;
    while z < n
        invariant
            visited@.len() == z,
            z <= n,
            forall|e: int| 0 <= e < z ==> !visited@[e],
            count_trues(visited@) == 0,
        decreases n - z,
    {
        proof {
            lemma_count_trues_push(visited@, false);
        }
        visited.push(false);
        z = z + 1;
    }
    let mut vcount: usize = 0;
    let mut stack: Vec<usize> = Vec::new();
    let mut seeds: Vec<usize> = Vec::new();
    collect_targets(nodes, defs, defs[d].1, &mut seeds);
    let ns = seeds.len();
    let mut q: usize = 0;
    while q < ns
        invariant
            graph_wf(nodes@, defs@),
            d < defs@.len(),
            n == defs@.len(),
            ns == seeds@.len(),
            q <= ns,
            visited@.len() == n,
            vcount == count_trues(visited@),
            forall|e: usize| #[trigger]
                seeds@.contains(e) ==> (e as int) < defs@.len() && def_edge(
                    nodes@,
                    defs@,
                    d as int,
                    e as int,
                ),
            forall|b: int|
                0 <= b < n && def_edge(nodes@, defs@, d as int, b) ==> seeds@.contains(b as usize),
            forall|e: int| 0 <= e < n && visited@[e] ==> reaches(nodes@, defs@, d as int, e),
            forall|t: int|
                0 <= t < stack@.len() ==> ((#[trigger] stack@[t]) as int) < n && visited@[stack@[t] as int],
            forall|qq: int|
                0 <= qq < q ==> ((#[trigger] seeds@[qq]) as int) < n && visited@[seeds@[qq] as int],
            forall|u: int|
                0 <= u < n && visited@[u] && !stack@.contains(u as usize) ==> (forall|w: int|
                    0 <= w < n && def_edge(nodes@, defs@, u, w) ==> visited@[w]),
        decreases ns - q,
    {
        let s = seeds[q];
        proof {
            assert(seeds@.contains(seeds@[q as int]));
            assert((s as int) < n);
        }
        if !visited[s] {
            proof {
                lemma_count_trues_set(visited@, s as int);
                lemma_count_trues_lt(visited@, s as int);
                lemma_edge_reaches(nodes@, defs@, d as int, s as int);
            }
            visited[s] = true;
            vcount = vcount + 1;
            let ghost sb = stack@;
            stack.push(s);
            proof {
                lemma_push_keeps_contains(sb, s);
            }
        }
        q = q + 1;
    }
    proof {
        lemma_count_trues_bound(visited@);
        assert forall|b: int| 0 <= b < n && def_edge(nodes@, defs@, d as int, b)
            implies visited@[b] by {
            assert(seeds@.contains(b as usize));
            let qq = choose|qq: int| 0 <= qq < seeds@.len() && seeds@[qq] == b as usize;
        }
    }
    while stack.len() > 0
        invariant
            graph_wf(nodes@, defs@),
            d < defs@.len(),
            n == defs@.len(),
            visited@.len() == n,
            vcount == count_trues(visited@),
            vcount <= n,
            forall|e: int| 0 <= e < n && visited@[e] ==> reaches(nodes@, defs@, d as int, e),
            forall|t: int|
                0 <= t < stack@.len() ==> ((#[trigger] stack@[t]) as int) < n && visited@[stack@[t] as int],
            forall|b: int| 0 <= b < n && def_edge(nodes@, defs@, d as int, b) ==> visited@[b],
            forall|u: int|
                0 <= u < n && visited@[u] && !stack@.contains(u as usize) ==> (forall|w: int|
                    0 <= w < n && def_edge(nodes@, defs@, u, w) ==> visited@[w]),
        decreases n - vcount, stack@.len(),
    {
        let ghost stack0 = stack@;
        let ghost vc0 = vcount;
        let u = match stack.pop() {
            Some(u) => u,
            None => {
                proof {
                    assert(false);
                }
                0
            },
        };
        proof {
            assert(stack0[stack0.len() - 1] == u);
            assert(visited@[u as int]);
            assert forall|uu: usize| stack0.contains(uu) && uu != u implies #[trigger] stack@.contains(
                uu,
            ) by {
                let idx = choose|idx: int| 0 <= idx < stack0.len() && stack0[idx] == uu;
                assert(idx < stack0.len() - 1);
                assert(stack@[idx] == uu);
            }
        }
        let mut ts: Vec<usize> = Vec::new();
        collect_targets(nodes, defs, defs[u].1, &mut ts);
        let m = ts.len();
        let mut w: usize = 0;
        while w < m
            invariant
                graph_wf(nodes@, defs@),
                d < defs@.len(),
                u < defs@.len(),
                n == defs@.len(),
                m == ts@.len(),
                w <= m,
                visited@.len() == n,
                vcount == count_trues(visited@),
                vcount <= n,
                visited@[u as int],
                reaches(nodes@, defs@, d as int, u as int),
                forall|e: usize| #[trigger]
                    ts@.contains(e) ==> (e as int) < defs@.len() && def_edge(
                        nodes@,
                        defs@,
                        u as int,
                        e as int,
                    ),
                forall|b: int|
                    0 <= b < n && def_edge(nodes@, defs@, u as int, b) ==> ts@.contains(b as usize),
                forall|e: int| 0 <= e < n && visited@[e] ==> reaches(nodes@, defs@, d as int, e),
                forall|t: int|
                    0 <= t < stack@.len() ==> ((#[trigger] stack@[t]) as int) < n && visited@[stack@[t] as int],
                forall|b: int| 0 <= b < n && def_edge(nodes@, defs@, d as int, b) ==> visited@[b],
                forall|ww: int|
                    0 <= ww < w ==> ((#[trigger] ts@[ww]) as int) < n && visited@[ts@[ww] as int],
                forall|uu: int|
                    0 <= uu < n && visited@[uu] && uu != u as int && !stack@.contains(uu as usize)
                        ==> (forall|v2: int|
                        0 <= v2 < n && def_edge(nodes@, defs@, uu, v2) ==> visited@[v2]),
                vcount >= vc0,
                stack@.len() + vc0 == stack0.len() - 1 + vcount,
            decreases m - w,
        {
            let e = ts[w];
            proof {
                assert(ts@.contains(ts@[w as int]));
                assert((e as int) < n);
            }
            if !visited[e] {
                proof {
                    lemma_count_trues_set(visited@, e as int);
                    lemma_count_trues_lt(visited@, e as int);
                    assert(reaches(nodes@, defs@, d as int, u as int));
                    lemma_reaches_extend(nodes@, defs@, d as int, u as int, e as int);
                }
                visited[e] = true;
                vcount = vcount + 1;
                let ghost sb = stack@;
                stack.push(e);
                proof {
                    lemma_push_keeps_contains(sb, e);
                }
            }
            w = w + 1;
        }
        proof {
            assert forall|b: int| 0 <= b < n && def_edge(nodes@, defs@, u as int, b)
                implies visited@[b] by {
                assert(ts@.contains(b as usize));
                let ww = choose|ww: int| 0 <= ww < ts@.len() && ts@[ww] == b as usize;
            }
        }
    }
    let res = visited[d];
    proof {
        if on_cycle(nodes@, defs@, d as int) {
            let c = choose|c: Seq<int>|
                is_chain(nodes@, defs@, c) && c.len() >= 2 && c.first() == d as int && c.last()
                    == d as int;
            lemma_chain_visited(nodes@, defs@, visited@, d as int, c);
        }
    }
    res
}

} // verus!
