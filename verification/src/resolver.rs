//! The reference resolver.
//!
//! Resolution has two passes. The link pass walks every definition's tree of
//! anonymous children; each slot that points at a placeholder carrying a
//! reference marker is replaced by the handle of the named definition, and
//! the named definition is given its name if it had none. The cycle pass
//! then marks `cyclic` on exactly those definitions that can reach
//! themselves through one or more reference hops in the linked graph.
//!
//! The evolution predicates below (`nodes_evolve`, `slot_evolves`) pin down
//! everything the link pass may do to the arena: they are the shared
//! vocabulary of every contract in this module.

use vstd::prelude::*;

use crate::models::{graph_wf, has_def, has_slot, is_root, node_wf, Api, SchemaNode};

verus! {

/// An error that aborts resolution.
#[derive(Debug, PartialEq, Eq)]
pub enum Error {
    /// A reference marker names a definition absent from the mapping.
    UnresolvedReference { source: String, target: String },
    /// A reference marker does not have the `#/definitions/<name>` shape.
    MalformedReference { source: String, reference: String },
}

/// The marker prefix every internal reference must carry.
pub open spec fn ref_prefix() -> Seq<char> {
    "#/definitions/"@
}

/// `r` has the shape of an internal reference: the prefix followed by a
/// non-empty definition name.
pub open spec fn valid_ref(r: Seq<char>) -> bool {
    r.len() > ref_prefix().len() && r.subrange(0, ref_prefix().len() as int) == ref_prefix()
}

/// The definition name a well-shaped marker points at.
pub open spec fn ref_target(r: Seq<char>) -> Seq<char> {
    r.subrange(ref_prefix().len() as int, r.len() as int)
}

/// The reference marker carried by `n`, as a character sequence.
pub open spec fn node_marker(n: SchemaNode) -> Option<Seq<char>> {
    match n.reference {
        Some(r) => Some(r@),
        None => None,
    }
}

/// Handle `x` pointed at a placeholder whose well-shaped marker names the
/// definition whose root is `y`.
pub open spec fn replaces(
    old: Seq<SchemaNode>,
    defs: Seq<(String, usize)>,
    x: int,
    y: int,
) -> bool {
    &&& 0 <= x < old.len()
    &&& match node_marker(old[x]) {
        Some(m) => valid_ref(m) && (exists|d: int|
            0 <= d < defs.len() && #[trigger] defs[d].0@ == ref_target(m)
                && y == defs[d].1 as int),
        None => false,
    }
}

/// After a slot changed from `x` to `y`, the referenced definition's root
/// carries a name.
pub open spec fn target_backfilled(
    old: Seq<SchemaNode>,
    new: Seq<SchemaNode>,
    defs: Seq<(String, usize)>,
    x: int,
) -> bool {
    match node_marker(old[x]) {
        Some(m) => forall|d: int|
            0 <= d < defs.len() && #[trigger] defs[d].0@ == ref_target(m)
                ==> new[defs[d].1 as int].name is Some,
        None => true,
    }
}

/// What the link pass may do to one slot: leave it, or replace a marker
/// placeholder by the named definition's root, back-filling that root's name.
pub open spec fn slot_evolves(
    old: Seq<SchemaNode>,
    new: Seq<SchemaNode>,
    defs: Seq<(String, usize)>,
    x: int,
    y: int,
) -> bool {
    &&& (y == x || replaces(old, defs, x, y))
    &&& (y != x ==> 0 <= x < old.len() && target_backfilled(old, new, defs, x))
}

/// `slot_evolves` lifted to optional slots.
pub open spec fn opt_slot_evolves(
    old: Seq<SchemaNode>,
    new: Seq<SchemaNode>,
    defs: Seq<(String, usize)>,
    a: Option<usize>,
    b: Option<usize>,
) -> bool {
    match (a, b) {
        (Option::None, Option::None) => true,
        (Option::Some(x), Option::Some(y)) => slot_evolves(old, new, defs, x as int, y as int),
        _ => false,
    }
}

/// What the link pass may do to the name of node `i`: keep it, or fill in
/// the node's own definition key if it had none.
pub open spec fn name_step(
    old: Seq<SchemaNode>,
    defs: Seq<(String, usize)>,
    i: int,
    a: SchemaNode,
    b: SchemaNode,
) -> bool {
    ||| b.name == a.name
    ||| (a.name is None && (exists|d: int|
        0 <= d < defs.len() && #[trigger] defs[d].1 as int == i && b.name == Some(defs[d].0)
            && marker_names(old, defs[d].0@)))
}

/// Some placeholder in the arena carries a well-shaped marker naming `t`.
pub open spec fn marker_names(old: Seq<SchemaNode>, t: Seq<char>) -> bool {
    exists|p: int| 0 <= p < old.len() && (match node_marker(#[trigger] old[p]) {
        Some(m) => valid_ref(m) && ref_target(m) == t,
        None => false,
    })
}

/// What the link pass may do to one node: descriptive metadata, the marker,
/// the cyclic flag and property names are untouched; slots may be replaced
/// per `slot_evolves`; the name may be back-filled per `name_step`.
pub open spec fn node_evolves(
    old: Seq<SchemaNode>,
    new: Seq<SchemaNode>,
    defs: Seq<(String, usize)>,
    i: int,
    a: SchemaNode,
    b: SchemaNode,
) -> bool {
    &&& b.description == a.description
    &&& b.data_type == a.data_type
    &&& b.format == a.format
    &&& b.reference == a.reference
    &&& b.cyclic == a.cyclic
    &&& name_step(old, defs, i, a, b)
    &&& opt_slot_evolves(old, new, defs, a.items, b.items)
    &&& opt_slot_evolves(old, new, defs, a.additional_properties, b.additional_properties)
    &&& b.properties@.len() == a.properties@.len()
    &&& forall|p: int| 0 <= p < a.properties@.len()
        ==> (#[trigger] b.properties@[p]).0 == (#[trigger] a.properties@[p]).0
            && slot_evolves(old, new, defs, a.properties@[p].1 as int, b.properties@[p].1 as int)
}

/// The whole arena evolved as the link pass permits.
pub open spec fn nodes_evolve(
    old: Seq<SchemaNode>,
    new: Seq<SchemaNode>,
    defs: Seq<(String, usize)>,
) -> bool {
    &&& new.len() == old.len()
    &&& forall|i: int| 0 <= i < old.len()
        ==> node_evolves(old, new, defs, i, old[i], #[trigger] new[i])
}

/// Whether two character sequences are equal, decided character by character.
fn str_eq_seq(a: &str, b: &str) -> (r: bool)
    ensures
        r == (a@ == b@),
{
    let an = a.unicode_len();
    let bn = b.unicode_len();
    if an != bn {
        proof {
            assert(a@ != b@) by {
                if a@ == b@ {
                    assert(a@.len() == b@.len());
                }
            }
        }
        return false;
    }
    let mut i: usize = 0;
    while i < an
        invariant
            an == a@.len(),
            bn == b@.len(),
            an == bn,
            i <= an,
            forall|k: int| 0 <= k < i ==> a@[k] == b@[k],
        decreases an - i,
    {
        if a.get_char(i) != b.get_char(i) {
            return false;
        }
        i = i + 1;
    }
    proof {
        assert(a@ =~= b@);
    }
    true
}

/// Whether `r` is a well-shaped internal reference marker.
fn check_ref(r: &str) -> (res: bool)
    ensures
        res == valid_ref(r@),
{
    let pre: &str = "#/definitions/";
    proof {
        reveal_strlit("#/definitions/");
    }
    let plen = pre.unicode_len();
    let n = r.unicode_len();
    if n <= plen {
        return false;
    }
    let mut i: usize = 0;
    while i < plen
        invariant
            pre@ == ref_prefix(),
            plen == ref_prefix().len(),
            n == r@.len(),
            n > plen,
            i <= plen,
            forall|k: int| 0 <= k < i ==> r@[k] == ref_prefix()[k],
        decreases plen - i,
    {
        if r.get_char(i) != pre.get_char(i) {
            proof {
                assert(!valid_ref(r@)) by {
                    if valid_ref(r@) {
                        let ii = i as int;
                        assert(r@.subrange(0, ref_prefix().len() as int)[ii] == r@[ii]);
                    }
                }
            }
            return false;
        }
        i = i + 1;
    }
    proof {
        assert(r@.subrange(0, ref_prefix().len() as int) =~= ref_prefix());
    }
    true
}

/// The definition name inside a well-shaped marker.
fn ref_target_str<'a>(r: &'a str) -> (res: &'a str)
    requires
        valid_ref(r@),
    ensures
        res@ == ref_target(r@),
{
    let pre: &str = "#/definitions/";
    proof {
        reveal_strlit("#/definitions/");
    }
    let plen = pre.unicode_len();
    let n = r.unicode_len();
    r.substring_char(plen, n)
}

/// Position of the definition named `t`, if any.
fn lookup_def(defs: &Vec<(String, usize)>, t: &str) -> (res: Option<usize>)
    ensures
        match res {
            Some(d) => 0 <= d < defs@.len() && defs@[d as int].0@ == t@,
            None => !has_def(defs@, t@),
        },
{
    let n = defs.len();
    let mut d: usize = 0;
    while d < n
        invariant
            n == defs@.len(),
            d <= n,
            forall|k: int| 0 <= k < d ==> #[trigger] defs@[k].0@ != t@,
        decreases n - d,
    {
        if str_eq_seq(defs[d].0.as_str(), t) {
            return Some(d);
        }
        d = d + 1;
    }
    None
}

/// Resolve the content of one slot currently holding handle `x`, on behalf
/// of the definition named `src`.
///
/// If `x` points at a placeholder carrying a marker, the returned handle is
/// the named definition's root (whose name is back-filled if absent);
/// otherwise `x` comes back unchanged. A missing target or a malformed
/// marker aborts with the matching error.
fn resolve_slot(
    nodes: &mut Vec<SchemaNode>,
    defs: &Vec<(String, usize)>,
    x: usize,
    src: &String,
) -> (res: Result<usize, Error>)
    requires
        graph_wf(old(nodes)@, defs@),
        x < old(nodes)@.len(),
    ensures
        final(nodes)@.len() == old(nodes)@.len(),
        nodes_evolve(old(nodes)@, final(nodes)@, defs@),
        graph_wf(final(nodes)@, defs@),
        match res {
            Ok(y) => {
                &&& y < old(nodes)@.len()
                &&& slot_evolves(old(nodes)@, final(nodes)@, defs@, x as int, y as int)
                &&& match node_marker(old(nodes)@[x as int]) {
                    Some(m) => replaces(old(nodes)@, defs@, x as int, y as int),
                    None => y == x && final(nodes)@ == old(nodes)@,
                }
            },
            Err(e) => {
                &&& final(nodes)@ == old(nodes)@
                &&& match e {
                    Error::UnresolvedReference { ref source, ref target } => {
                        &&& source@ == src@
                        &&& node_marker(old(nodes)@[x as int]) matches Some(m)
                            && valid_ref(m) && target@ == ref_target(m)
                            && !has_def(defs@, ref_target(m))
                    },
                    Error::MalformedReference { ref source, ref reference } => {
                        &&& source@ == src@
                        &&& node_marker(old(nodes)@[x as int]) == Some(reference@)
                        &&& !valid_ref(reference@)
                    },
                }
            },
        },
{
    let ghost orig = nodes@;
    let found: usize;
    match &nodes[x].reference {
        None => {
            proof {
                lemma_nodes_evolve_refl(nodes@, defs@);
            }
            return Ok(x);
        },
        Some(r) => {
            if !check_ref(r.as_str()) {
                proof {
                    lemma_nodes_evolve_refl(nodes@, defs@);
                }
                return Err(
                    Error::MalformedReference { source: src.clone(), reference: r.clone() },
                );
            }
            let tgt = ref_target_str(r.as_str());
            match lookup_def(defs, tgt) {
                Some(d) => {
                    found = d;
                },
                None => {
                    proof {
                        lemma_nodes_evolve_refl(nodes@, defs@);
                    }
                    return Err(
                        Error::UnresolvedReference {
                            source: src.clone(),
                            target: tgt.to_owned(),
                        },
                    );
                },
            }
        },
    }
    let k = defs[found].1;
    if nodes[k].name.is_none() {
        let key = defs[found].0.clone();
        nodes[k].name = Some(key);
    }
    proof {
        assert forall|i: int| 0 <= i < orig.len() implies node_evolves(
            orig,
            nodes@,
            defs@,
            i,
            orig[i],
            #[trigger] nodes@[i],
        ) by {
            lemma_node_evolves_refl(orig, nodes@, defs@, i, orig[i]);
            if i != k as int {
                assert(nodes@[i] == orig[i]);
            }
        }
        assert(replaces(orig, defs@, x as int, k as int));
        lemma_evolve_preserves_wf(orig, nodes@, defs@);
    }
    Ok(k)
}

/// A node unchanged under an arena that only gained names evolves trivially.
proof fn lemma_node_evolves_refl(
    old: Seq<SchemaNode>,
    new: Seq<SchemaNode>,
    defs: Seq<(String, usize)>,
    i: int,
    a: SchemaNode,
)
    ensures
        node_evolves(old, new, defs, i, a, a),
{
    assert forall|p: int| 0 <= p < a.properties@.len() implies #[trigger] a.properties@[p].0
        == a.properties@[p].0 && slot_evolves(
        old,
        new,
        defs,
        a.properties@[p].1 as int,
        a.properties@[p].1 as int,
    ) by {}
}

/// An unchanged arena evolves trivially.
proof fn lemma_nodes_evolve_refl(nodes: Seq<SchemaNode>, defs: Seq<(String, usize)>)
    ensures
        nodes_evolve(nodes, nodes, defs),
{
    assert forall|i: int| 0 <= i < nodes.len() implies node_evolves(
        nodes,
        nodes,
        defs,
        i,
        nodes[i],
        #[trigger] nodes[i],
    ) by {
        lemma_node_evolves_refl(nodes, nodes, defs, i, nodes[i]);
    }
}

/// Evolution preserves graph well-formedness: replaced slots point at
/// definition roots, which `node_wf` allows.
proof fn lemma_evolve_preserves_wf(
    old: Seq<SchemaNode>,
    new: Seq<SchemaNode>,
    defs: Seq<(String, usize)>,
)
    requires
        graph_wf(old, defs),
        nodes_evolve(old, new, defs),
    ensures
        graph_wf(new, defs),
{
    assert forall|i: int| 0 <= i < new.len() implies node_wf(new, defs, i) by {
        assert(node_evolves(old, new, defs, i, old[i], new[i]));
        assert forall|j: int| #[trigger] has_slot(new[i], j) implies 0 <= j < new.len() && (j < i
            || is_root(defs, j)) by {
            lemma_slot_source(old, new, defs, i, j);
        }
    }
}

/// A replacement's result handle is an in-range, reference-free definition
/// root.
pub proof fn lemma_replaces_root(
    old: Seq<SchemaNode>,
    defs: Seq<(String, usize)>,
    x: int,
    y: int,
)
    requires
        graph_wf(old, defs),
        replaces(old, defs, x, y),
    ensures
        0 <= y < old.len(),
        is_root(defs, y),
        old[y].reference is None,
{
    match node_marker(old[x]) {
        Some(m) => {
            let d = choose|d: int|
                0 <= d < defs.len() && #[trigger] defs[d].0@ == ref_target(m)
                    && y == defs[d].1 as int;
            assert(defs[d].1 as int == y);
            assert((defs[d].1 as int) < old.len());
            assert(old[defs[d].1 as int].reference is None);
            assert(is_root(defs, y));
        },
        None => {
            assert(false);
        },
    }
}

/// Every slot of an evolved node either existed before or is a definition
/// root installed by a replacement; either way it is in range and permitted
/// by `node_wf`.
proof fn lemma_slot_source(
    old: Seq<SchemaNode>,
    new: Seq<SchemaNode>,
    defs: Seq<(String, usize)>,
    i: int,
    j: int,
)
    requires
        graph_wf(old, defs),
        nodes_evolve(old, new, defs),
        0 <= i < old.len(),
        has_slot(new[i], j),
    ensures
        0 <= j < old.len(),
        j < i || is_root(defs, j),
        exists|x: int| #![auto] has_slot(old[i], x) && slot_evolves(old, new, defs, x, j),
{
    let a = old[i];
    let b = new[i];
    assert(node_evolves(old, new, defs, i, a, b));
    assert(node_wf(old, defs, i));
    if b.items matches Some(y) && y as int == j {
        let x = match a.items {
            Some(x0) => x0,
            None => 0usize,
        };
        assert(has_slot(old[i], x as int));
        assert(slot_evolves(old, new, defs, x as int, j));
        assert((x as int) < old.len() && ((x as int) < i || is_root(defs, x as int)));
        if j != x as int {
            assert(replaces(old, defs, x as int, j));
            lemma_replaces_root(old, defs, x as int, j);
        }
    } else if b.additional_properties matches Some(y) && y as int == j {
        let x = match a.additional_properties {
            Some(x0) => x0,
            None => 0usize,
        };
        assert(has_slot(old[i], x as int));
        assert(slot_evolves(old, new, defs, x as int, j));
        assert((x as int) < old.len() && ((x as int) < i || is_root(defs, x as int)));
        if j != x as int {
            assert(replaces(old, defs, x as int, j));
            lemma_replaces_root(old, defs, x as int, j);
        }
    } else {
        assert(exists|p: int|
            0 <= p < b.properties@.len() && #[trigger] b.properties@[p].1 as int == j);
        let p = choose|p: int|
            0 <= p < b.properties@.len() && #[trigger] b.properties@[p].1 as int == j;
        let x = a.properties@[p].1;
        assert(b.properties@[p].0 == a.properties@[p].0 && slot_evolves(
            old,
            new,
            defs,
            a.properties@[p].1 as int,
            b.properties@[p].1 as int,
        ));
        assert(has_slot(old[i], x as int));
        assert((x as int) < old.len() && ((x as int) < i || is_root(defs, x as int)));
        if j != x as int {
            assert(replaces(old, defs, x as int, j));
            lemma_replaces_root(old, defs, x as int, j);
        }
    }
}

/// Evolution steps compose.
pub proof fn lemma_evolve_trans(
    s0: Seq<SchemaNode>,
    s1: Seq<SchemaNode>,
    s2: Seq<SchemaNode>,
    defs: Seq<(String, usize)>,
)
    requires
        graph_wf(s0, defs),
        nodes_evolve(s0, s1, defs),
        nodes_evolve(s1, s2, defs),
    ensures
        nodes_evolve(s0, s2, defs),
{
    assert forall|i: int| 0 <= i < s0.len() implies node_evolves(
        s0,
        s2,
        defs,
        i,
        s0[i],
        #[trigger] s2[i],
    ) by {
        let a = s0[i];
        let b = s1[i];
        let c = s2[i];
        assert(node_evolves(s0, s1, defs, i, a, b));
        assert(node_evolves(s1, s2, defs, i, b, c));
        match (a.items, b.items, c.items) {
            (Some(x), Some(m), Some(y)) => {
                lemma_slot_evolves_trans(s0, s1, s2, defs, x as int, m as int, y as int);
            },
            _ => {},
        }
        match (a.additional_properties, b.additional_properties, c.additional_properties) {
            (Some(x), Some(m), Some(y)) => {
                lemma_slot_evolves_trans(s0, s1, s2, defs, x as int, m as int, y as int);
            },
            _ => {},
        }
        assert forall|p: int| 0 <= p < a.properties@.len() implies #[trigger] c.properties@[p].0
            == a.properties@[p].0 && slot_evolves(
            s0,
            s2,
            defs,
            a.properties@[p].1 as int,
            c.properties@[p].1 as int,
        ) by {
            assert(b.properties@[p].0 == a.properties@[p].0 && slot_evolves(
                s0,
                s1,
                defs,
                a.properties@[p].1 as int,
                b.properties@[p].1 as int,
            ));
            assert(c.properties@[p].0 == b.properties@[p].0 && slot_evolves(
                s1,
                s2,
                defs,
                b.properties@[p].1 as int,
                c.properties@[p].1 as int,
            ));
            lemma_slot_evolves_trans(
                s0,
                s1,
                s2,
                defs,
                a.properties@[p].1 as int,
                b.properties@[p].1 as int,
                c.properties@[p].1 as int,
            );
        }
    }
}

/// One slot's evolution steps compose.
proof fn lemma_slot_evolves_trans(
    s0: Seq<SchemaNode>,
    s1: Seq<SchemaNode>,
    s2: Seq<SchemaNode>,
    defs: Seq<(String, usize)>,
    x: int,
    m: int,
    y: int,
)
    requires
        graph_wf(s0, defs),
        nodes_evolve(s0, s1, defs),
        nodes_evolve(s1, s2, defs),
        slot_evolves(s0, s1, defs, x, m),
        slot_evolves(s1, s2, defs, m, y),
    ensures
        slot_evolves(s0, s2, defs, x, y),
{
    if m != x {
        lemma_replaces_root(s0, defs, x, m);
        assert(node_evolves(s0, s1, defs, m, s0[m], s1[m]));
        assert(s1[m].reference is None);
        assert(y == m);
        assert(replaces(s0, defs, x, y));
        let mk = match node_marker(s0[x]) {
            Some(mk0) => mk0,
            None => Seq::empty(),
        };
        assert forall|d: int|
            0 <= d < defs.len() && #[trigger] defs[d].0@ == ref_target(mk) implies s2[(defs[
            d].1) as int].name is Some by {
            let r = defs[d].1 as int;
            assert(s1[r].name is Some);
            assert(node_evolves(s1, s2, defs, r, s1[r], s2[r]));
        }
        assert(target_backfilled(s0, s2, defs, x));
    } else {
        if y != m {
            assert(replaces(s1, defs, x, y));
            assert(node_evolves(s0, s1, defs, x, s0[x], s1[x]));
            assert(s1[x].reference == s0[x].reference);
            assert(replaces(s0, defs, x, y));
            let mk = match node_marker(s0[x]) {
                Some(mk0) => mk0,
                None => Seq::empty(),
            };
            assert forall|d: int|
                0 <= d < defs.len() && #[trigger] defs[d].0@ == ref_target(mk) implies s2[(defs[
                d].1) as int].name is Some by {
                assert(target_backfilled(s1, s2, defs, x));
            }
            assert(target_backfilled(s0, s2, defs, x));
        }
    }
}

/// Every slot of the linked subtree rooted at `i` points at a
/// reference-free node that is either a definition root or a smaller,
/// itself linked, anonymous child.
pub open spec fn subtree_linked(
    nodes: Seq<SchemaNode>,
    defs: Seq<(String, usize)>,
    i: int,
) -> bool
    decreases i,
{
    forall|j: int| #[trigger] has_slot(nodes[i], j) && 0 <= j < nodes.len() ==> {
        &&& nodes[j].reference is None
        &&& (is_root(defs, j) || (0 <= j < i && subtree_linked(nodes, defs, j)))
    }
}

/// The subtree rooted at `i` contains a well-shaped marker whose target
/// name `t` is not defined.
pub open spec fn subtree_has_unresolved(
    nodes: Seq<SchemaNode>,
    defs: Seq<(String, usize)>,
    i: int,
    t: Seq<char>,
) -> bool
    decreases i,
{
    exists|j: int| #[trigger] has_slot(nodes[i], j) && 0 <= j < nodes.len() && {
        ||| (match node_marker(nodes[j]) {
            Some(m) => valid_ref(m) && ref_target(m) == t && !has_def(defs, t),
            None => false,
        })
        ||| (node_marker(nodes[j]) is None && !is_root(defs, j) && 0 <= j < i
            && subtree_has_unresolved(nodes, defs, j, t))
    }
}

/// The subtree rooted at `i` contains a well-shaped marker naming `t`.
pub open spec fn subtree_references(
    nodes: Seq<SchemaNode>,
    defs: Seq<(String, usize)>,
    i: int,
    t: Seq<char>,
) -> bool
    decreases i,
{
    exists|j: int| #[trigger] has_slot(nodes[i], j) && 0 <= j < nodes.len() && {
        ||| (match node_marker(nodes[j]) {
            Some(m) => valid_ref(m) && ref_target(m) == t,
            None => false,
        })
        ||| (node_marker(nodes[j]) is None && !is_root(defs, j) && 0 <= j < i
            && subtree_references(nodes, defs, j, t))
    }
}

/// The subtree rooted at `i` contains a marker `r` that is not well shaped.
pub open spec fn subtree_has_malformed(
    nodes: Seq<SchemaNode>,
    defs: Seq<(String, usize)>,
    i: int,
    r: Seq<char>,
) -> bool
    decreases i,
{
    exists|j: int| #[trigger] has_slot(nodes[i], j) && 0 <= j < nodes.len() && {
        ||| (node_marker(nodes[j]) == Some(r) && !valid_ref(r))
        ||| (node_marker(nodes[j]) is None && !is_root(defs, j) && 0 <= j < i
            && subtree_has_malformed(nodes, defs, j, r))
    }
}

/// A linked subtree stays linked under further evolution: its slots point
/// at reference-free nodes, which no replacement touches.
pub proof fn lemma_linked_stable(
    s1: Seq<SchemaNode>,
    s2: Seq<SchemaNode>,
    defs: Seq<(String, usize)>,
    v: int,
)
    requires
        graph_wf(s1, defs),
        nodes_evolve(s1, s2, defs),
        0 <= v < s1.len(),
        subtree_linked(s1, defs, v),
    ensures
        subtree_linked(s2, defs, v),
    decreases v,
{
    assert forall|j: int| #[trigger] has_slot(s2[v], j) && 0 <= j < s2.len() implies {
        &&& s2[j].reference is None
        &&& (is_root(defs, j) || (0 <= j < v && subtree_linked(s2, defs, j)))
    } by {
        lemma_slot_source(s1, s2, defs, v, j);
        let x = choose|x: int| #![auto] has_slot(s1[v], x) && slot_evolves(s1, s2, defs, x, j);
        assert(s1[x].reference is None);
        if j != x {
            assert(replaces(s1, defs, x, j));
            assert(false);
        }
        assert(node_evolves(s1, s2, defs, j, s1[j], s2[j]));
        assert(s2[j].reference is None);
        if !is_root(defs, j) {
            assert(0 <= j < v && subtree_linked(s1, defs, j));
            lemma_linked_stable(s1, s2, defs, j);
        }
    }
}

/// An unresolved-reference witness in an evolved arena already existed in
/// the arena it evolved from.
pub proof fn lemma_unresolved_transfer(
    s0: Seq<SchemaNode>,
    s2: Seq<SchemaNode>,
    defs: Seq<(String, usize)>,
    v: int,
    t: Seq<char>,
)
    requires
        graph_wf(s0, defs),
        nodes_evolve(s0, s2, defs),
        0 <= v < s0.len(),
        subtree_has_unresolved(s2, defs, v, t),
    ensures
        subtree_has_unresolved(s0, defs, v, t),
    decreases v,
{
    let j = choose|j: int| #[trigger] has_slot(s2[v], j) && 0 <= j < s2.len() && {
        ||| (match node_marker(s2[j]) {
            Some(m) => valid_ref(m) && ref_target(m) == t && !has_def(defs, t),
            None => false,
        })
        ||| (node_marker(s2[j]) is None && !is_root(defs, j) && 0 <= j < v
            && subtree_has_unresolved(s2, defs, j, t))
    };
    lemma_slot_source(s0, s2, defs, v, j);
    let x = choose|x: int| #![auto] has_slot(s0[v], x) && slot_evolves(s0, s2, defs, x, j);
    assert(node_evolves(s0, s2, defs, j, s0[j], s2[j]));
    assert(s2[j].reference == s0[j].reference);
    if j != x {
        assert(replaces(s0, defs, x, j));
        lemma_replaces_root(s0, defs, x, j);
        assert(s0[j].reference is None);
        assert(false);
    }
    assert(has_slot(s0[v], j));
    if node_marker(s2[j]) is None {
        lemma_unresolved_transfer(s0, s2, defs, j, t);
    }
}

/// A malformed-reference witness in an evolved arena already existed in the
/// arena it evolved from.
pub proof fn lemma_malformed_transfer(
    s0: Seq<SchemaNode>,
    s2: Seq<SchemaNode>,
    defs: Seq<(String, usize)>,
    v: int,
    r: Seq<char>,
)
    requires
        graph_wf(s0, defs),
        nodes_evolve(s0, s2, defs),
        0 <= v < s0.len(),
        subtree_has_malformed(s2, defs, v, r),
    ensures
        subtree_has_malformed(s0, defs, v, r),
    decreases v,
{
    let j = choose|j: int| #[trigger] has_slot(s2[v], j) && 0 <= j < s2.len() && {
        ||| (node_marker(s2[j]) == Some(r) && !valid_ref(r))
        ||| (node_marker(s2[j]) is None && !is_root(defs, j) && 0 <= j < v
            && subtree_has_malformed(s2, defs, j, r))
    };
    lemma_slot_source(s0, s2, defs, v, j);
    let x = choose|x: int| #![auto] has_slot(s0[v], x) && slot_evolves(s0, s2, defs, x, j);
    assert(node_evolves(s0, s2, defs, j, s0[j], s2[j]));
    assert(s2[j].reference == s0[j].reference);
    if j != x {
        assert(replaces(s0, defs, x, j));
        lemma_replaces_root(s0, defs, x, j);
        assert(false);
    }
    assert(has_slot(s0[v], j));
    if node_marker(s2[j]) is None {
        lemma_malformed_transfer(s0, s2, defs, j, r);
    }
}

/// A processed slot: its handle is reference-free and either a definition
/// root or a smaller, fully linked, anonymous child of node `i`.
pub open spec fn slot_done(
    nodes: Seq<SchemaNode>,
    defs: Seq<(String, usize)>,
    i: int,
    v: int,
) -> bool {
    &&& 0 <= v < nodes.len()
    &&& nodes[v].reference is None
    &&& (is_root(defs, v) || (0 <= v < i && subtree_linked(nodes, defs, v)))
}

/// `slot_done` lifted to optional slots.
pub open spec fn opt_done(
    nodes: Seq<SchemaNode>,
    defs: Seq<(String, usize)>,
    i: int,
    o: Option<usize>,
) -> bool {
    match o {
        Some(v) => slot_done(nodes, defs, i, v as int),
        None => true,
    }
}

/// A slot pointing at a reference-free node cannot be replaced.
proof fn lemma_ref_free_slot_fixed(
    s1: Seq<SchemaNode>,
    s2: Seq<SchemaNode>,
    defs: Seq<(String, usize)>,
    x: int,
    y: int,
)
    requires
        slot_evolves(s1, s2, defs, x, y),
        0 <= x < s1.len(),
        s1[x].reference is None,
    ensures
        y == x,
{
    if y != x {
        assert(replaces(s1, defs, x, y));
    }
}

/// A processed slot stays processed under further evolution.
proof fn lemma_slot_done_stable(
    s1: Seq<SchemaNode>,
    s2: Seq<SchemaNode>,
    defs: Seq<(String, usize)>,
    i: int,
    v: int,
)
    requires
        graph_wf(s1, defs),
        nodes_evolve(s1, s2, defs),
        slot_done(s1, defs, i, v),
    ensures
        slot_done(s2, defs, i, v),
{
    assert(node_evolves(s1, s2, defs, v, s1[v], s2[v]));
    if !is_root(defs, v) {
        lemma_linked_stable(s1, s2, defs, v);
    }
}

/// The slots of node `i` that are already processed are untouched, and stay
/// processed, under further evolution.
proof fn lemma_done_slots_stable(
    s1: Seq<SchemaNode>,
    s2: Seq<SchemaNode>,
    defs: Seq<(String, usize)>,
    i: int,
    pdone: int,
)
    requires
        graph_wf(s1, defs),
        nodes_evolve(s1, s2, defs),
        0 <= i < s1.len(),
        opt_done(s1, defs, i, s1[i].items),
        opt_done(s1, defs, i, s1[i].additional_properties),
        0 <= pdone <= s1[i].properties@.len(),
        forall|q: int| 0 <= q < pdone
            ==> slot_done(s1, defs, i, (#[trigger] s1[i].properties@[q]).1 as int),
    ensures
        s2[i].items == s1[i].items,
        s2[i].additional_properties == s1[i].additional_properties,
        forall|q: int| 0 <= q < pdone
            ==> (#[trigger] s2[i].properties@[q]).1 == s1[i].properties@[q].1,
        opt_done(s2, defs, i, s2[i].items),
        opt_done(s2, defs, i, s2[i].additional_properties),
        forall|q: int| 0 <= q < pdone
            ==> slot_done(s2, defs, i, (#[trigger] s2[i].properties@[q]).1 as int),
{
    assert(node_evolves(s1, s2, defs, i, s1[i], s2[i]));
    match (s1[i].items, s2[i].items) {
        (Some(x), Some(y)) => {
            lemma_ref_free_slot_fixed(s1, s2, defs, x as int, y as int);
            lemma_slot_done_stable(s1, s2, defs, i, x as int);
        },
        _ => {},
    }
    match (s1[i].additional_properties, s2[i].additional_properties) {
        (Some(x), Some(y)) => {
            lemma_ref_free_slot_fixed(s1, s2, defs, x as int, y as int);
            lemma_slot_done_stable(s1, s2, defs, i, x as int);
        },
        _ => {},
    }
    assert forall|q: int| 0 <= q < pdone implies (#[trigger] s2[i].properties@[q]).1 == s1[
        i].properties@[q].1 && slot_done(s2, defs, i, s2[i].properties@[q].1 as int) by {
        assert((s2[i].properties@[q]).0 == (s1[i].properties@[q]).0 && slot_evolves(
            s1,
            s2,
            defs,
            s1[i].properties@[q].1 as int,
            s2[i].properties@[q].1 as int,
        ));
        lemma_ref_free_slot_fixed(
            s1,
            s2,
            defs,
            s1[i].properties@[q].1 as int,
            s2[i].properties@[q].1 as int,
        );
        lemma_slot_done_stable(s1, s2, defs, i, s1[i].properties@[q].1 as int);
    }
}

/// The error `e` faithfully reports a bad marker inside the subtree of `i`,
/// on behalf of the definition named `src`.
pub open spec fn err_witness(
    nodes: Seq<SchemaNode>,
    defs: Seq<(String, usize)>,
    i: int,
    src: Seq<char>,
    e: Error,
) -> bool {
    match e {
        Error::UnresolvedReference { source, target } => source@ == src
            && subtree_has_unresolved(nodes, defs, i, target@),
        Error::MalformedReference { source, reference } => source@ == src
            && subtree_has_malformed(nodes, defs, i, reference@),
    }
}

/// Position of the definition whose root handle is `v`, if any.
pub(crate) fn root_position(defs: &Vec<(String, usize)>, v: usize) -> (res: Option<usize>)
    ensures
        match res {
            Some(d) => 0 <= d < defs@.len() && defs@[d as int].1 == v,
            None => !is_root(defs@, v as int),
        },
{
    let n = defs.len();
    let mut d: usize = 0;
    while d < n
        invariant
            n == defs@.len(),
            d <= n,
            forall|k: int| 0 <= k < d ==> (#[trigger] defs@[k]).1 != v,
        decreases n - d,
    {
        if defs[d].1 == v {
            return Some(d);
        }
        d = d + 1;
    }
    None
}

/// Link every slot in the subtree of node `i`, on behalf of the definition
/// named `src`: markers are replaced by handles to the named definitions
/// (whose names are back-filled), anonymous children are walked recursively,
/// and the first bad marker aborts the whole walk.
#[verifier::rlimit(100)]
#[verifier::spinoff_prover]
fn link_node(
    nodes: &mut Vec<SchemaNode>,
    defs: &Vec<(String, usize)>,
    i: usize,
    src: &String,
) -> (res: Result<(), Error>)
    requires
        graph_wf(old(nodes)@, defs@),
        i < old(nodes)@.len(),
    ensures
        final(nodes)@.len() == old(nodes)@.len(),
        nodes_evolve(old(nodes)@, final(nodes)@, defs@),
        graph_wf(final(nodes)@, defs@),
        match res {
            Ok(_) => subtree_linked(final(nodes)@, defs@, i as int)
                && opt_done(final(nodes)@, defs@, i as int, final(nodes)@[i as int].items)
                && opt_done(
                final(nodes)@,
                defs@,
                i as int,
                final(nodes)@[i as int].additional_properties,
            )
                && (forall|q: int| 0 <= q < final(nodes)@[i as int].properties@.len()
                ==> slot_done(
                    final(nodes)@,
                    defs@,
                    i as int,
                    (#[trigger] final(nodes)@[i as int].properties@[q]).1 as int,
                )),
            Err(e) => err_witness(old(nodes)@, defs@, i as int, src@, e),
        },
    decreases i,
{
    let ghost s0 = nodes@;
    proof {
        lemma_nodes_evolve_refl(nodes@, defs@);
    }

    // --- items slot ---
    let it = nodes[i].items;
    if let Some(j) = it {
        proof {
            assert(has_slot(s0[i as int], j as int));
            assert(node_wf(s0, defs@, i as int));
        }
        let ghost sa = nodes@;
        let k = match resolve_slot(nodes, defs, j, src) {
            Ok(k) => k,
            Err(e) => {
                proof {
                    assert(err_witness(s0, defs@, i as int, src@, e));
                }
                return Err(e);
            },
        };
        let ghost sb = nodes@;
        nodes[i].items = Some(k);
        proof {
            assert forall|x: int| 0 <= x < sb.len() implies node_evolves(
                sb,
                nodes@,
                defs@,
                x,
                sb[x],
                #[trigger] nodes@[x],
            ) by {
                lemma_node_evolves_refl(sb, nodes@, defs@, x, sb[x]);
                if x != i as int {
                    assert(nodes@[x] == sb[x]);
                } else {
                    if k != j {
                        assert(node_evolves(sa, sb, defs@, j as int, sa[j as int], sb[j as int]));
                        assert(replaces(sb, defs@, j as int, k as int));
                        assert(target_backfilled(sb, nodes@, defs@, j as int));
                    }
                }
            }
            assert(nodes_evolve(sb, nodes@, defs@));
            lemma_evolve_trans(sa, sb, nodes@, defs@);
            lemma_evolve_preserves_wf(sa, nodes@, defs@);
        }
        let rt = root_position(defs, k);
        if rt.is_none() {
            proof {
                if node_marker(sa[j as int]) is Some {
                    lemma_replaces_root(sa, defs@, j as int, k as int);
                    assert(false);
                }
                assert(k == j);
                assert(nodes@[k as int].reference is None);
                assert((k as int) < i as int);
            }
            let ghost sc = nodes@;
            match link_node(nodes, defs, k, src) {
                Ok(_) => {},
                Err(e) => {
                    proof {
                        assert(has_slot(sc[i as int], k as int));
                        match e {
                            Error::UnresolvedReference { ref source, ref target } => {
                                assert(subtree_has_unresolved(sc, defs@, k as int, target@));
                                assert(subtree_has_unresolved(sc, defs@, i as int, target@));
                                lemma_unresolved_transfer(s0, sc, defs@, i as int, target@);
                            },
                            Error::MalformedReference { ref source, ref reference } => {
                                assert(subtree_has_malformed(sc, defs@, k as int, reference@));
                                assert(subtree_has_malformed(sc, defs@, i as int, reference@));
                                lemma_malformed_transfer(s0, sc, defs@, i as int, reference@);
                            },
                        }
                        lemma_evolve_trans(s0, sc, nodes@, defs@);
                    }
                    return Err(e);
                },
            }
            proof {
                assert(node_evolves(sc, nodes@, defs@, i as int, sc[i as int], nodes@[i as int]));
                lemma_ref_free_slot_fixed(sc, nodes@, defs@, k as int, k as int);
                match (sc[i as int].items, nodes@[i as int].items) {
                    (Some(x), Some(y)) => {
                        lemma_ref_free_slot_fixed(sc, nodes@, defs@, x as int, y as int);
                    },
                    _ => {},
                }
                assert(nodes@[i as int].items == Some(k));
                assert(slot_done(nodes@, defs@, i as int, k as int));
                lemma_evolve_trans(s0, sc, nodes@, defs@);
            }
        } else {
            proof {
                assert(is_root(defs@, k as int));
                assert(nodes@[k as int].reference is None);
                assert(slot_done(nodes@, defs@, i as int, k as int));
                lemma_evolve_trans(s0, sa, nodes@, defs@);
            }
        }
        proof {
            assert(opt_done(nodes@, defs@, i as int, nodes@[i as int].items));
        }
    }
    proof {
        assert(nodes_evolve(s0, nodes@, defs@));
        assert(opt_done(nodes@, defs@, i as int, nodes@[i as int].items));
    }

    // --- additional_properties slot ---
    let ghost t0 = nodes@;
    let ad = nodes[i].additional_properties;
    if let Some(j) = ad {
        proof {
            assert(has_slot(t0[i as int], j as int));
            assert(node_wf(t0, defs@, i as int));
        }
        let ghost sa = nodes@;
        let k = match resolve_slot(nodes, defs, j, src) {
            Ok(k) => k,
            Err(e) => {
                proof {
                    assert(err_witness(sa, defs@, i as int, src@, e));
                    match e {
                        Error::UnresolvedReference { ref source, ref target } => {
                            lemma_unresolved_transfer(s0, sa, defs@, i as int, target@);
                        },
                        Error::MalformedReference { ref source, ref reference } => {
                            lemma_malformed_transfer(s0, sa, defs@, i as int, reference@);
                        },
                    }
                    lemma_evolve_trans(s0, sa, nodes@, defs@);
                }
                return Err(e);
            },
        };
        let ghost sb = nodes@;
        nodes[i].additional_properties = Some(k);
        proof {
            assert forall|x: int| 0 <= x < sb.len() implies node_evolves(
                sb,
                nodes@,
                defs@,
                x,
                sb[x],
                #[trigger] nodes@[x],
            ) by {
                lemma_node_evolves_refl(sb, nodes@, defs@, x, sb[x]);
                if x != i as int {
                    assert(nodes@[x] == sb[x]);
                } else {
                    if k != j {
                        assert(node_evolves(sa, sb, defs@, j as int, sa[j as int], sb[j as int]));
                        assert(replaces(sb, defs@, j as int, k as int));
                        assert(target_backfilled(sb, nodes@, defs@, j as int));
                    }
                }
            }
            assert(nodes_evolve(sb, nodes@, defs@));
            lemma_evolve_trans(sa, sb, nodes@, defs@);
            lemma_evolve_preserves_wf(sa, nodes@, defs@);
        }
        let rt = root_position(defs, k);
        if rt.is_none() {
            proof {
                if node_marker(sa[j as int]) is Some {
                    lemma_replaces_root(sa, defs@, j as int, k as int);
                    assert(false);
                }
                assert(k == j);
                assert(nodes@[k as int].reference is None);
                assert((k as int) < i as int);
            }
            let ghost sc = nodes@;
            match link_node(nodes, defs, k, src) {
                Ok(_) => {},
                Err(e) => {
                    proof {
                        assert(has_slot(sc[i as int], k as int));
                        lemma_evolve_trans(s0, sa, sc, defs@);
                        match e {
                            Error::UnresolvedReference { ref source, ref target } => {
                                assert(subtree_has_unresolved(sc, defs@, k as int, target@));
                                assert(subtree_has_unresolved(sc, defs@, i as int, target@));
                                lemma_unresolved_transfer(s0, sc, defs@, i as int, target@);
                            },
                            Error::MalformedReference { ref source, ref reference } => {
                                assert(subtree_has_malformed(sc, defs@, k as int, reference@));
                                assert(subtree_has_malformed(sc, defs@, i as int, reference@));
                                lemma_malformed_transfer(s0, sc, defs@, i as int, reference@);
                            },
                        }
                        lemma_evolve_trans(s0, sc, nodes@, defs@);
                    }
                    return Err(e);
                },
            }
            proof {
                assert(node_evolves(sc, nodes@, defs@, i as int, sc[i as int], nodes@[i as int]));
                match (sc[i as int].additional_properties, nodes@[i as int].additional_properties) {
                    (Some(x), Some(y)) => {
                        lemma_ref_free_slot_fixed(sc, nodes@, defs@, x as int, y as int);
                    },
                    _ => {},
                }
                assert(nodes@[i as int].additional_properties == Some(k));
                assert(nodes@[k as int].reference is None);
                assert(slot_done(nodes@, defs@, i as int, k as int));
                lemma_evolve_trans(s0, sa, sc, defs@);
                lemma_evolve_trans(s0, sc, nodes@, defs@);
            }
        } else {
            proof {
                assert(is_root(defs@, k as int));
                assert(nodes@[k as int].reference is None);
                assert(slot_done(nodes@, defs@, i as int, k as int));
                lemma_evolve_trans(s0, sa, nodes@, defs@);
            }
        }
        proof {
            match (t0[i as int].items, nodes@[i as int].items) {
                (Some(x), Some(y)) => {
                    assert(node_evolves(t0, nodes@, defs@, i as int, t0[i as int], nodes@[
                        i as int]));
                    lemma_ref_free_slot_fixed(t0, nodes@, defs@, x as int, y as int);
                    lemma_slot_done_stable(t0, nodes@, defs@, i as int, x as int);
                },
                _ => {
                    assert(node_evolves(t0, nodes@, defs@, i as int, t0[i as int], nodes@[
                        i as int]));
                },
            }
            assert(opt_done(nodes@, defs@, i as int, nodes@[i as int].items));
            assert(opt_done(nodes@, defs@, i as int, nodes@[i as int].additional_properties));
        }
    }
    proof {
        assert(nodes_evolve(s0, nodes@, defs@));
        assert(opt_done(nodes@, defs@, i as int, nodes@[i as int].items));
        assert(opt_done(nodes@, defs@, i as int, nodes@[i as int].additional_properties));
    }

    // --- properties ---
    let np = nodes[i].properties.len();
    let mut p: usize = 0;
    while p < np
        invariant
            s0 == old(nodes)@,
            graph_wf(s0, defs@),
            graph_wf(nodes@, defs@),
            nodes_evolve(s0, nodes@, defs@),
            nodes@.len() == s0.len(),
            i < s0.len(),
            p <= np,
            np == nodes@[i as int].properties@.len(),
            opt_done(nodes@, defs@, i as int, nodes@[i as int].items),
            opt_done(nodes@, defs@, i as int, nodes@[i as int].additional_properties),
            forall|q: int| 0 <= q < p
                ==> slot_done(
                    nodes@,
                    defs@,
                    i as int,
                    (#[trigger] nodes@[i as int].properties@[q]).1 as int,
                ),
        decreases np - p,
    {
        let j = nodes[i].properties[p].1;
        let ghost sa = nodes@;
        proof {
            assert(has_slot(sa[i as int], j as int));
            assert(node_wf(sa, defs@, i as int));
        }
        let k = match resolve_slot(nodes, defs, j, src) {
            Ok(k) => k,
            Err(e) => {
                proof {
                    assert(err_witness(sa, defs@, i as int, src@, e));
                    match e {
                        Error::UnresolvedReference { ref source, ref target } => {
                            lemma_unresolved_transfer(s0, sa, defs@, i as int, target@);
                        },
                        Error::MalformedReference { ref source, ref reference } => {
                            lemma_malformed_transfer(s0, sa, defs@, i as int, reference@);
                        },
                    }
                    lemma_evolve_trans(s0, sa, nodes@, defs@);
                }
                return Err(e);
            },
        };
        let ghost sb = nodes@;
        nodes[i].properties[p].1 = k;
        proof {
            assert(nodes@[i as int].properties@ == sb[i as int].properties@.update(
                p as int,
                (sb[i as int].properties@[p as int].0, k),
            ));
            assert forall|x: int| 0 <= x < sb.len() implies node_evolves(
                sb,
                nodes@,
                defs@,
                x,
                sb[x],
                #[trigger] nodes@[x],
            ) by {
                lemma_node_evolves_refl(sb, nodes@, defs@, x, sb[x]);
                if x != i as int {
                    assert(nodes@[x] == sb[x]);
                } else {
                    if k != j {
                        assert(node_evolves(sa, sb, defs@, j as int, sa[j as int], sb[j as int]));
                        assert(replaces(sb, defs@, j as int, k as int));
                        assert(target_backfilled(sb, nodes@, defs@, j as int));
                    }
                    assert forall|q: int| 0 <= q < sb[x].properties@.len() implies (
                    #[trigger] nodes@[x].properties@[q]).0 == (#[trigger] sb[x].properties@[
                    q]).0 && slot_evolves(
                        sb,
                        nodes@,
                        defs@,
                        sb[x].properties@[q].1 as int,
                        nodes@[x].properties@[q].1 as int,
                    ) by {}
                }
            }
            assert(nodes_evolve(sb, nodes@, defs@));
            lemma_evolve_trans(sa, sb, nodes@, defs@);
            lemma_evolve_preserves_wf(sa, nodes@, defs@);
            lemma_done_slots_stable(sa, nodes@, defs@, i as int, p as int);
        }
        let rt = root_position(defs, k);
        if rt.is_none() {
            proof {
                if node_marker(sa[j as int]) is Some {
                    lemma_replaces_root(sa, defs@, j as int, k as int);
                    assert(false);
                }
                assert(k == j);
                assert(nodes@[k as int].reference is None);
                assert((k as int) < i as int);
            }
            let ghost sc = nodes@;
            match link_node(nodes, defs, k, src) {
                Ok(_) => {},
                Err(e) => {
                    proof {
                        assert(has_slot(sc[i as int], k as int));
                        lemma_evolve_trans(s0, sa, sc, defs@);
                        match e {
                            Error::UnresolvedReference { ref source, ref target } => {
                                assert(subtree_has_unresolved(sc, defs@, k as int, target@));
                                assert(subtree_has_unresolved(sc, defs@, i as int, target@));
                                lemma_unresolved_transfer(s0, sc, defs@, i as int, target@);
                            },
                            Error::MalformedReference { ref source, ref reference } => {
                                assert(subtree_has_malformed(sc, defs@, k as int, reference@));
                                assert(subtree_has_malformed(sc, defs@, i as int, reference@));
                                lemma_malformed_transfer(s0, sc, defs@, i as int, reference@);
                            },
                        }
                        lemma_evolve_trans(s0, sc, nodes@, defs@);
                    }
                    return Err(e);
                },
            }
            proof {
                lemma_done_slots_stable(sc, nodes@, defs@, i as int, p as int);
                assert(nodes@[i as int].properties@[p as int].1 == k);
                assert(nodes@[k as int].reference is None);
                assert(slot_done(nodes@, defs@, i as int, k as int));
                lemma_evolve_trans(s0, sa, sc, defs@);
                lemma_evolve_trans(s0, sc, nodes@, defs@);
            }
        } else {
            proof {
                assert(is_root(defs@, k as int));
                assert(nodes@[k as int].reference is None);
                assert(slot_done(nodes@, defs@, i as int, k as int));
                lemma_evolve_trans(s0, sa, nodes@, defs@);
            }
        }
        proof {
            assert(nodes@[i as int].properties@[p as int].1 == k);
            assert forall|q: int| 0 <= q < p + 1 implies slot_done(
                nodes@,
                defs@,
                i as int,
                (#[trigger] nodes@[i as int].properties@[q]).1 as int,
            ) by {}
        }
        p = p + 1;
    }

    // --- assemble ---
    proof {
        assert forall|j: int| #[trigger] has_slot(nodes@[i as int], j) && 0 <= j < nodes@.len()
            implies {
            &&& nodes@[j].reference is None
            &&& (is_root(defs@, j) || (0 <= j < i as int && subtree_linked(nodes@, defs@, j)))
        } by {
            let n = nodes@[i as int];
            if n.items matches Some(v) && v as int == j {
                assert(slot_done(nodes@, defs@, i as int, j));
            } else if n.additional_properties matches Some(v) && v as int == j {
                assert(slot_done(nodes@, defs@, i as int, j));
            } else {
                assert(exists|q: int|
                    0 <= q < n.properties@.len() && (#[trigger] n.properties@[q]).1 as int == j);
                let q = choose|q: int|
                    0 <= q < n.properties@.len() && (#[trigger] n.properties@[q]).1 as int == j;
                assert(slot_done(nodes@, defs@, i as int, j));
            }
        }
        assert(subtree_linked(nodes@, defs@, i as int));
    }
    Ok(())
}

/// `b` equals `a` in every field but possibly `cyclic`.
pub open spec fn same_but_cyclic(a: SchemaNode, b: SchemaNode) -> bool {
    &&& b.name == a.name
    &&& b.description == a.description
    &&& b.data_type == a.data_type
    &&& b.format == a.format
    &&& b.reference == a.reference
    &&& b.items == a.items
    &&& b.additional_properties == a.additional_properties
    &&& b.properties == a.properties
}

/// `s2` is `s1` with at most the `cyclic` flags changed.
pub open spec fn only_cyclic_differs(s1: Seq<SchemaNode>, s2: Seq<SchemaNode>) -> bool {
    &&& s2.len() == s1.len()
    &&& forall|i: int| 0 <= i < s1.len() ==> {
        let a = s1[i];
        let b = #[trigger] s2[i];
        &&& b.name == a.name
        &&& b.description == a.description
        &&& b.data_type == a.data_type
        &&& b.format == a.format
        &&& b.reference == a.reference
        &&& b.items == a.items
        &&& b.additional_properties == a.additional_properties
        &&& b.properties@ == a.properties@
    }
}

/// `s` with every node's `cyclic` flag taken from `c` instead.
pub open spec fn with_cyclic_of(s: Seq<SchemaNode>, c: Seq<SchemaNode>) -> Seq<SchemaNode> {
    Seq::new(s.len(), |i: int| SchemaNode { cyclic: c[i].cyclic, ..s[i] })
}

/// Changing only cyclic flags preserves graph well-formedness.
proof fn lemma_wf_congruent(s1: Seq<SchemaNode>, s2: Seq<SchemaNode>, defs: Seq<(String, usize)>)
    requires
        graph_wf(s1, defs),
        only_cyclic_differs(s1, s2),
    ensures
        graph_wf(s2, defs),
{
    assert forall|i: int| 0 <= i < s2.len() implies node_wf(s2, defs, i) by {
        assert forall|j: int| #[trigger] has_slot(s2[i], j) implies 0 <= j < s2.len() && (j < i
            || is_root(defs, j)) by {
            assert(has_slot(s1[i], j));
            assert(node_wf(s1, defs, i));
        }
    }
    assert forall|d: int| 0 <= d < defs.len() implies (#[trigger] s2[defs[
        d].1 as int].reference) is None by {
        assert(s1[defs[d].1 as int].reference is None);
    }
}

/// Changing only cyclic flags preserves the handles a tree points at.
pub proof fn lemma_points_congruent(
    s1: Seq<SchemaNode>,
    s2: Seq<SchemaNode>,
    defs: Seq<(String, usize)>,
    i: int,
    k: int,
)
    requires
        only_cyclic_differs(s1, s2),
        0 <= i < s1.len(),
    ensures
        crate::graph::points_to(s1, defs, i, k) == crate::graph::points_to(s2, defs, i, k),
    decreases i,
{
    assert(s2[i].items == s1[i].items);
    assert(s2[i].additional_properties == s1[i].additional_properties);
    assert(s2[i].properties@ == s1[i].properties@);
    let ji = match s1[i].items {
        Some(x) => x as int,
        None => 0int,
    };
    let ja = match s1[i].additional_properties {
        Some(x) => x as int,
        None => 0int,
    };
    if crate::graph::points_to(s1, defs, i, k) {
        if s1[i].items is Some && crate::graph::slot_leads(s1, defs, i, ji, k) {
            if !(ji == k && is_root(defs, k)) {
                lemma_points_congruent(s1, s2, defs, ji, k);
            }
            assert(crate::graph::slot_leads(s2, defs, i, ji, k));
        } else if s1[i].additional_properties is Some && crate::graph::slot_leads(
            s1,
            defs,
            i,
            ja,
            k,
        ) {
            if !(ja == k && is_root(defs, k)) {
                lemma_points_congruent(s1, s2, defs, ja, k);
            }
            assert(crate::graph::slot_leads(s2, defs, i, ja, k));
        } else {
            let q = choose|q: int|
                0 <= q < s1[i].properties@.len() && crate::graph::slot_leads(
                    s1,
                    defs,
                    i,
                    (#[trigger] s1[i].properties@[q]).1 as int,
                    k,
                );
            let jq = s1[i].properties@[q].1 as int;
            if !(jq == k && is_root(defs, k)) {
                lemma_points_congruent(s1, s2, defs, jq, k);
            }
            assert(crate::graph::slot_leads(s2, defs, i, jq, k));
            assert(s2[i].properties@[q].1 as int == jq);
        }
        assert(crate::graph::points_to(s2, defs, i, k));
    }
    if crate::graph::points_to(s2, defs, i, k) {
        if s2[i].items is Some && crate::graph::slot_leads(s2, defs, i, ji, k) {
            if !(ji == k && is_root(defs, k)) {
                lemma_points_congruent(s1, s2, defs, ji, k);
            }
            assert(crate::graph::slot_leads(s1, defs, i, ji, k));
        } else if s2[i].additional_properties is Some && crate::graph::slot_leads(
            s2,
            defs,
            i,
            ja,
            k,
        ) {
            if !(ja == k && is_root(defs, k)) {
                lemma_points_congruent(s1, s2, defs, ja, k);
            }
            assert(crate::graph::slot_leads(s1, defs, i, ja, k));
        } else {
            let q = choose|q: int|
                0 <= q < s2[i].properties@.len() && crate::graph::slot_leads(
                    s2,
                    defs,
                    i,
                    (#[trigger] s2[i].properties@[q]).1 as int,
                    k,
                );
            let jq = s2[i].properties@[q].1 as int;
            if !(jq == k && is_root(defs, k)) {
                lemma_points_congruent(s1, s2, defs, jq, k);
            }
            assert(crate::graph::slot_leads(s1, defs, i, jq, k));
            assert(s1[i].properties@[q].1 as int == jq);
        }
        assert(crate::graph::points_to(s1, defs, i, k));
    }
}

/// Changing only cyclic flags preserves cycle membership.
pub proof fn lemma_on_cycle_congruent(
    s1: Seq<SchemaNode>,
    s2: Seq<SchemaNode>,
    defs: Seq<(String, usize)>,
    d: int,
)
    requires
        graph_wf(s1, defs),
        only_cyclic_differs(s1, s2),
    ensures
        crate::graph::on_cycle(s1, defs, d) == crate::graph::on_cycle(s2, defs, d),
{
    if crate::graph::on_cycle(s1, defs, d) {
        let c = choose|c: Seq<int>|
            crate::graph::is_chain(s1, defs, c) && c.len() >= 2 && c.first() == d && c.last()
                == d;
        assert forall|q: int| 0 <= q < c.len() - 1 implies crate::graph::def_edge(
            s2,
            defs,
            #[trigger] c[q],
            c[q + 1],
        ) by {
            assert(crate::graph::def_edge(s1, defs, c[q], c[q + 1]));
            lemma_points_congruent(s1, s2, defs, defs[c[q]].1 as int, defs[c[q + 1]].1 as int);
        }
        assert(crate::graph::is_chain(s2, defs, c) && c.len() >= 2 && c.first() == d && c.last()
            == d);
    }
    if crate::graph::on_cycle(s2, defs, d) {
        let c = choose|c: Seq<int>|
            crate::graph::is_chain(s2, defs, c) && c.len() >= 2 && c.first() == d && c.last()
                == d;
        assert forall|q: int| 0 <= q < c.len() - 1 implies crate::graph::def_edge(
            s1,
            defs,
            #[trigger] c[q],
            c[q + 1],
        ) by {
            assert(crate::graph::def_edge(s2, defs, c[q], c[q + 1]));
            lemma_points_congruent(s1, s2, defs, defs[c[q]].1 as int, defs[c[q + 1]].1 as int);
        }
        assert(crate::graph::is_chain(s1, defs, c) && c.len() >= 2 && c.first() == d && c.last()
            == d);
    }
}

/// Changing only cyclic flags preserves linkedness.
pub proof fn lemma_linked_congruent(
    s1: Seq<SchemaNode>,
    s2: Seq<SchemaNode>,
    defs: Seq<(String, usize)>,
    v: int,
)
    requires
        only_cyclic_differs(s1, s2),
        0 <= v < s1.len(),
        subtree_linked(s1, defs, v),
    ensures
        subtree_linked(s2, defs, v),
    decreases v,
{
    assert forall|j: int| #[trigger] has_slot(s2[v], j) && 0 <= j < s2.len() implies {
        &&& s2[j].reference is None
        &&& (is_root(defs, j) || (0 <= j < v && subtree_linked(s2, defs, j)))
    } by {
        assert(has_slot(s1[v], j));
        assert(s2[j].reference == s1[j].reference);
        if !is_root(defs, j) {
            assert(0 <= j < v && subtree_linked(s1, defs, j));
            lemma_linked_congruent(s1, s2, defs, j);
        }
    }
}

/// Everything resolution promises of its successful result `post`, stated
/// against the input document `pre`:
/// - the version marker and the definitions mapping come through unchanged;
/// - the arena evolved only as `nodes_evolve` permits (slots replaced by
///   handles to the named definitions, names back-filled, everything else
///   untouched), once the cyclic flags are read from the input;
/// - every definition's tree is fully linked: no reachable slot points at a
///   node still carrying a reference marker;
/// - a node's cyclic flag is raised exactly when its definition lies on a
///   reference cycle of the resolved graph; all other flags are unchanged.
pub open spec fn resolution_ok(pre: Api, post: Api) -> bool {
    &&& post.swagger == pre.swagger
    &&& post.definitions == pre.definitions
    &&& graph_wf(post.nodes@, post.definitions@)
    &&& post.nodes@.len() == pre.nodes@.len()
    &&& nodes_evolve(pre.nodes@, with_cyclic_of(post.nodes@, pre.nodes@), pre.definitions@)
    &&& forall|d: int|
        0 <= d < pre.definitions@.len() ==> subtree_linked(
            post.nodes@,
            pre.definitions@,
            (#[trigger] pre.definitions@[d]).1 as int,
        )
    &&& forall|i: int|
        0 <= i < post.nodes@.len() && !is_root(pre.definitions@, i)
            ==> (#[trigger] post.nodes@[i]).cyclic == pre.nodes@[i].cyclic
    &&& forall|d: int|
        0 <= d < pre.definitions@.len()
            ==> (#[trigger] post.nodes@[pre.definitions@[d].1 as int]).cyclic == (
        pre.nodes@[pre.definitions@[d].1 as int].cyclic || crate::graph::on_cycle(
            post.nodes@,
            pre.definitions@,
            d,
        ))
}

impl Api {
    /// Consume this document, resolve every reference, and return the
    /// resolved document, or the first error met on the walk.
    ///
    /// On success `resolution_ok` relates the result to the input. On
    /// failure the error names a definition of this document and a marker
    /// inside that definition's tree that is unresolvable or malformed —
    /// so a document whose trees hold only well-shaped markers naming
    /// existing definitions always resolves.
    #[verifier::rlimit(100)]
    #[verifier::spinoff_prover]
    pub fn resolve(self) -> (res: Result<Api, Error>)
        requires
            self.wf(),
        ensures
            match res {
                Ok(api) => resolution_ok(self, api),
                Err(e) => exists|d: int|
                    0 <= d < self.definitions@.len() && err_witness(
                        self.nodes@,
                        self.definitions@,
                        (#[trigger] self.definitions@[d]).1 as int,
                        self.definitions@[d].0@,
                        e,
                    ),
            },
    {
        let Api { swagger, mut nodes, definitions } = self;
        let ghost pre = nodes@;
        proof {
            lemma_nodes_evolve_refl(nodes@, definitions@);
        }
        let n = definitions.len();
        let mut d: usize = 0;
        while d < n
            invariant
                pre == self.nodes@,
                definitions@ == self.definitions@,
                graph_wf(pre, definitions@),
                graph_wf(nodes@, definitions@),
                nodes_evolve(pre, nodes@, definitions@),
                nodes@.len() == pre.len(),
                n == definitions@.len(),
                d <= n,
                forall|dd: int|
                    0 <= dd < d ==> subtree_linked(
                        nodes@,
                        definitions@,
                        (#[trigger] definitions@[dd]).1 as int,
                    ),
            decreases n - d,
        {
            let root = definitions[d].1;
            let ghost prev = nodes@;
            match link_node(&mut nodes, &definitions, root, &definitions[d].0) {
                Ok(_) => {},
                Err(e) => {
                    proof {
                        match e {
                            Error::UnresolvedReference { ref source, ref target } => {
                                lemma_unresolved_transfer(
                                    pre,
                                    prev,
                                    definitions@,
                                    root as int,
                                    target@,
                                );
                            },
                            Error::MalformedReference { ref source, ref reference } => {
                                lemma_malformed_transfer(
                                    pre,
                                    prev,
                                    definitions@,
                                    root as int,
                                    reference@,
                                );
                            },
                        }
                        assert(err_witness(
                            self.nodes@,
                            self.definitions@,
                            self.definitions@[d as int].1 as int,
                            self.definitions@[d as int].0@,
                            e,
                        ));
                    }
                    return Err(e);
                },
            }
            proof {
                assert forall|dd: int| 0 <= dd < d + 1 implies subtree_linked(
                    nodes@,
                    definitions@,
                    (#[trigger] definitions@[dd]).1 as int,
                ) by {
                    if dd < d {
                        lemma_linked_stable(prev, nodes@, definitions@, definitions@[dd].1 as int);
                    }
                }
                lemma_evolve_trans(pre, prev, nodes@, definitions@);
            }
            d = d + 1;
        }
        let ghost sl = nodes@;
        let mut d2: usize = 0;
        while d2 < n
            invariant
                pre == self.nodes@,
                definitions@ == self.definitions@,
                n == definitions@.len(),
                d2 <= n,
                sl.len() == nodes@.len(),
                graph_wf(sl, definitions@),
                graph_wf(nodes@, definitions@),
                only_cyclic_differs(sl, nodes@),
                forall|dd: int|
                    0 <= dd < d2 ==> (#[trigger] nodes@[definitions@[dd].1 as int]).cyclic == (
                    sl[definitions@[dd].1 as int].cyclic || crate::graph::on_cycle(
                        sl,
                        definitions@,
                        dd,
                    )),
                forall|dd: int|
                    0 <= dd < d2 ==> same_but_cyclic(
                        sl[definitions@[dd].1 as int],
                        #[trigger] nodes@[definitions@[dd].1 as int],
                    ),
                forall|dd: int|
                    d2 <= dd < n ==> #[trigger] nodes@[definitions@[dd].1 as int] == sl[
                        definitions@[dd].1 as int],
                forall|i: int|
                    0 <= i < nodes@.len() && !is_root(definitions@, i) ==> #[trigger] nodes@[i]
                        == sl[i],
            decreases n - d2,
        {
            let cyc = crate::graph::def_reaches_itself(&nodes, &definitions, d2);
            let root = definitions[d2].1;
            proof {
                lemma_on_cycle_congruent(sl, nodes@, definitions@, d2 as int);
            }
            if cyc {
                let ghost before = nodes@;
                nodes[root].cyclic = true;
                proof {
                    assert forall|dd: int|
                        0 <= dd < n && dd != d2 as int implies definitions@[dd].1 != root by {}
                    assert forall|i: int|
                        0 <= i < nodes@.len() && i != root as int implies nodes@[i] == before[
                        i] by {}
                    assert(same_but_cyclic(before[root as int], nodes@[root as int]));
                    assert(same_but_cyclic(sl[root as int], nodes@[root as int]));
                }
            } else {
                proof {
                    assert(same_but_cyclic(sl[root as int], nodes@[root as int]));
                }
            }
            proof {
                lemma_wf_congruent(sl, nodes@, definitions@);
            }
            d2 = d2 + 1;
        }
        proof {
            let fin = nodes@;
            let mid = with_cyclic_of(fin, pre);
            assert forall|i: int| 0 <= i < fin.len() implies mid[i] == sl[i] by {
                assert(node_evolves(pre, sl, definitions@, i, pre[i], sl[i]));
                assert(sl[i].cyclic == pre[i].cyclic);
                if !is_root(definitions@, i) {
                    assert(fin[i] == sl[i]);
                } else {
                    let dd = choose|dd: int|
                        0 <= dd < definitions@.len() && definitions@[dd].1 as int == i;
                    assert(same_but_cyclic(sl[i], fin[i]));
                }
            }
            assert(mid =~= sl);
            assert forall|dd: int| 0 <= dd < definitions@.len() implies subtree_linked(
                fin,
                definitions@,
                (#[trigger] definitions@[dd]).1 as int,
            ) by {
                lemma_linked_congruent(sl, fin, definitions@, definitions@[dd].1 as int);
            }
            assert forall|dd: int| 0 <= dd < definitions@.len() implies (#[trigger] fin[
                definitions@[dd].1 as int]).cyclic == (pre[definitions@[dd].1 as int].cyclic
                || crate::graph::on_cycle(fin, definitions@, dd)) by {
                assert(node_evolves(
                    pre,
                    sl,
                    definitions@,
                    definitions@[dd].1 as int,
                    pre[definitions@[dd].1 as int],
                    sl[definitions@[dd].1 as int],
                ));
                lemma_on_cycle_congruent(sl, fin, definitions@, dd);
            }
            assert forall|i: int|
                0 <= i < fin.len() && !is_root(definitions@, i) implies (#[trigger] fin[
                i]).cyclic == pre[i].cyclic by {
                assert(fin[i] == sl[i]);
                assert(node_evolves(pre, sl, definitions@, i, pre[i], sl[i]));
            }
        }
        Ok(Api { swagger, nodes, definitions })
    }
}

} // verus!
