use vstd::prelude::*;

verus! {

/// Marks an absent child.
pub const NO_CHILD: u32 = 0xffff_ffff;

/// Deepest level at which a particle is still placed; a particle that shares its
/// octants with another down to this level is dropped from the tree.
pub const MAX_DEPTH: usize = 32;

/// Most nodes one insertion can add: a split per level and the new leaf.
pub const NODES_PER_INSERT: usize = 34;

/// A node of the arena: eight child slots (`NO_CHILD` when absent) and, for a
/// leaf, the particle it holds.
#[derive(Clone, Copy, Debug)]
pub struct OctreeNode {
    pub children: [u32; 8],
    pub particle: Option<u32>,
}

/// Octants of a particle: `path[d]` (in 0..8) is the octant it falls in at depth
/// `d`, relative to the centre of the box it reached at that depth.
pub open spec fn valid_path(path: Seq<u8>) -> bool {
    path.len() > MAX_DEPTH && forall|d: int| 0 <= d < path.len() ==> #[trigger] path[d] < 8
}

pub open spec fn valid_paths(paths: Seq<Vec<u8>>) -> bool {
    forall|q: int| 0 <= q < paths.len() ==> valid_path(#[trigger] paths[q]@)
}

/// `n` is a leaf holding `p`, with no children.
pub open spec fn is_leaf_of(n: OctreeNode, p: u32) -> bool {
    n.particle == Some(p) && forall|o: int| 0 <= o < 8 ==> #[trigger] n.children@[o] == NO_CHILD
}

/// The links of an arena form a tree rooted at node 0: the root is internal,
/// child links point forward, and leaves have no children.
pub open spec fn arena_linked(nodes: Seq<OctreeNode>) -> bool {
    &&& nodes.len() >= 1
    &&& nodes.len() <= u32::MAX
    &&& nodes[0].particle is None
    &&& forall|n: int, o: int|
        0 <= n < nodes.len() && 0 <= o < 8 ==> {
            let c = #[trigger] nodes[n].children@[o];
            c == NO_CHILD || (n < c < nodes.len())
        }
    &&& forall|n: int, o: int|
        0 <= n < nodes.len() && 0 <= o < 8 && (#[trigger] nodes[n].children@[o]) != NO_CHILD
            ==> nodes[n].particle is None
}

/// An arena for particles `0 .. n_particles`: linked as a tree, and no particle
/// is held by two leaves.
pub open spec fn arena_wf(nodes: Seq<OctreeNode>, n_particles: nat) -> bool {
    &&& arena_linked(nodes)
    &&& forall|n: int|
        0 <= n < nodes.len() && (#[trigger] nodes[n]).particle is Some ==> nodes[n].particle->0
            < n_particles
    &&& forall|n1: int, n2: int|
        0 <= n1 < nodes.len() && 0 <= n2 < nodes.len() && n1 != n2 && (#[trigger] nodes[n1]).particle is Some
            && (#[trigger] nodes[n2]).particle is Some ==> nodes[n1].particle != nodes[n2].particle
}

/// Some leaf of the arena holds `p`.
pub open spec fn arena_holds(nodes: Seq<OctreeNode>, p: u32) -> bool {
    exists|n: int| 0 <= n < nodes.len() && (#[trigger] nodes[n]).particle == Some(p)
}

/// Splitting leaf `node`, which holds `e`: `e` moves to a new leaf at index
/// `le`, linked as child `oe` of `node`.
proof fn lemma_split(
    before: Seq<OctreeNode>,
    after: Seq<OctreeNode>,
    node: int,
    le: int,
    oe: int,
    e: u32,
    np: nat,
)
    requires
        arena_wf(before, np),
        0 <= node < before.len(),
        before[node].particle == Some(e),
        le == before.len(),
        le + 1 <= u32::MAX,
        0 <= oe < 8,
        after.len() == before.len() + 1,
        is_leaf_of(after[le], e),
        after[node].particle is None,
        forall|o: int| 0 <= o < 8 ==> #[trigger] after[node].children@[o] == if o == oe {
            le as u32
        } else {
            before[node].children@[o]
        },
        forall|m: int| 0 <= m < before.len() && m != node ==> #[trigger] after[m] == before[m],
    ensures
        arena_wf(after, np),
        forall|x: u32| arena_holds(before, x) <==> arena_holds(after, x),
        forall|o: int| 0 <= o < 8 && o != oe ==> #[trigger] after[node].children@[o] == NO_CHILD,
{
    assert(node != 0);
    assert forall|o: int| 0 <= o < 8 implies #[trigger] before[node].children@[o] == NO_CHILD by {
        if before[node].children@[o] != NO_CHILD {
            assert(before[node].particle is None);
        }
    }
    assert forall|n: int, o: int| 0 <= n < after.len() && 0 <= o < 8 implies {
        let c = #[trigger] after[n].children@[o];
        c == NO_CHILD || (n < c < after.len())
    } by {
        if n < before.len() && n != node {
            assert(after[n] == before[n]);
        }
    }
    assert forall|n: int, o: int|
        0 <= n < after.len() && 0 <= o < 8 && (#[trigger] after[n].children@[o]) != NO_CHILD implies after[n].particle is None by {
        if n < before.len() && n != node {
            assert(after[n] == before[n]);
        }
    }
    assert forall|n1: int, n2: int|
        0 <= n1 < after.len() && 0 <= n2 < after.len() && n1 != n2 && (#[trigger] after[n1]).particle is Some
            && (#[trigger] after[n2]).particle is Some implies after[n1].particle != after[n2].particle by {
        if n1 < before.len() && n1 != node {
            assert(after[n1] == before[n1]);
        }
        if n2 < before.len() && n2 != node {
            assert(after[n2] == before[n2]);
        }
    }
    assert forall|x: u32| arena_holds(before, x) implies arena_holds(after, x) by {
        let n = choose|n: int| 0 <= n < before.len() && (#[trigger] before[n]).particle == Some(x);
        if n == node {
            assert(after[le].particle == Some(x));
        } else {
            assert(after[n] == before[n]);
        }
    }
    assert forall|x: u32| arena_holds(after, x) implies arena_holds(before, x) by {
        let n = choose|n: int| 0 <= n < after.len() && (#[trigger] after[n]).particle == Some(x);
        if n == le {
            assert(before[node].particle == Some(x));
        } else {
            assert(after[n] == before[n]);
        }
    }
}

/// Making `p`, held by no leaf yet, a new leaf at index `lp`, linked as the free
/// child `o` of the internal node `node`.
proof fn lemma_attach(
    before: Seq<OctreeNode>,
    after: Seq<OctreeNode>,
    node: int,
    lp: int,
    o: int,
    p: u32,
    np: nat,
)
    requires
        arena_wf(before, np),
        0 <= node < before.len(),
        before[node].particle is None,
        0 <= o < 8,
        before[node].children@[o] == NO_CHILD,
        (p as int) < np,
        !arena_holds(before, p),
        lp == before.len(),
        lp + 1 <= u32::MAX,
        after.len() == before.len() + 1,
        is_leaf_of(after[lp], p),
        after[node].particle is None,
        forall|o2: int| 0 <= o2 < 8 ==> #[trigger] after[node].children@[o2] == if o2 == o {
            lp as u32
        } else {
            before[node].children@[o2]
        },
        forall|m: int| 0 <= m < before.len() && m != node ==> #[trigger] after[m] == before[m],
    ensures
        arena_wf(after, np),
        forall|x: u32| x != p ==> (arena_holds(before, x) <==> arena_holds(after, x)),
        after[lp].particle == Some(p),
{
    assert forall|n: int, o2: int| 0 <= n < after.len() && 0 <= o2 < 8 implies {
        let c = #[trigger] after[n].children@[o2];
        c == NO_CHILD || (n < c < after.len())
    } by {
        if n < before.len() && n != node {
            assert(after[n] == before[n]);
        }
    }
    assert forall|n: int, o2: int|
        0 <= n < after.len() && 0 <= o2 < 8 && (#[trigger] after[n].children@[o2]) != NO_CHILD implies after[n].particle is None by {
        if n < before.len() && n != node {
            assert(after[n] == before[n]);
        }
    }
    assert forall|n: int| 0 <= n < after.len() && (#[trigger] after[n]).particle is Some implies after[n].particle->0 < np by {
        if n < before.len() && n != node {
            assert(after[n] == before[n]);
        }
    }
    assert forall|n1: int, n2: int|
        0 <= n1 < after.len() && 0 <= n2 < after.len() && n1 != n2 && (#[trigger] after[n1]).particle is Some
            && (#[trigger] after[n2]).particle is Some implies after[n1].particle != after[n2].particle by {
        if n1 < before.len() && n1 != node {
            assert(after[n1] == before[n1]);
        }
        if n2 < before.len() && n2 != node {
            assert(after[n2] == before[n2]);
        }
        if n1 == lp && n2 < before.len() && n2 != node {
            assert(before[n2].particle != Some(p));
        }
        if n2 == lp && n1 < before.len() && n1 != node {
            assert(before[n1].particle != Some(p));
        }
    }
    assert forall|x: u32| x != p && arena_holds(before, x) implies arena_holds(after, x) by {
        let n = choose|n: int| 0 <= n < before.len() && (#[trigger] before[n]).particle == Some(x);
        assert(n != node);
        assert(after[n] == before[n]);
    }
    assert forall|x: u32| x != p && arena_holds(after, x) implies arena_holds(before, x) by {
        let n = choose|n: int| 0 <= n < after.len() && (#[trigger] after[n]).particle == Some(x);
        assert(n != node && n != lp);
        assert(after[n] == before[n]);
    }
}

/// Node reached from the root by the first `d` octants of `path`, or -1 where a
/// link on the way is absent.
pub open spec fn follow(nodes: Seq<OctreeNode>, path: Seq<u8>, d: nat) -> int
    decreases d,
{
    if d == 0 {
        0
    } else {
        let n = follow(nodes, path, (d - 1) as nat);
        if n < 0 || n >= nodes.len() {
            -1
        } else {
            let c = nodes[n].children@[path[d - 1] as int];
            if c == NO_CHILD {
                -1
            } else {
                c as int
            }
        }
    }
}

/// No node is the child of two links.
pub open spec fn links_unique(nodes: Seq<OctreeNode>) -> bool {
    forall|n1: int, o1: int, n2: int, o2: int|
        0 <= n1 < nodes.len() && 0 <= o1 < 8 && 0 <= n2 < nodes.len() && 0 <= o2 < 8
            && #[trigger] nodes[n1].children@[o1] != NO_CHILD && nodes[n1].children@[o1]
            == #[trigger] nodes[n2].children@[o2] ==> n1 == n2 && o1 == o2
}

/// The first `MAX_DEPTH + 1` octants of particle `q`: two particles that agree on
/// them cannot be told apart by the tree.
pub open spec fn octant_prefix(paths: Seq<Vec<u8>>, q: int) -> Seq<u8> {
    paths[q]@.take(MAX_DEPTH + 1)
}

/// Each leaf, at depth `depths[n]`, is the node that its particle's own octants
/// lead to from the root; a child is one level below its parent, each node has a
/// single parent link, and nodes below `MAX_DEPTH` are leaves.
pub open spec fn arena_leaves_on_paths(nodes: Seq<OctreeNode>, depths: Seq<nat>, paths: Seq<Vec<u8>>) -> bool {
    &&& depths.len() == nodes.len()
    &&& depths[0] == 0
    &&& links_unique(nodes)
    &&& forall|n: int| 0 <= n < nodes.len() && depths[n] > MAX_DEPTH ==> (#[trigger] nodes[n]).particle is Some
    &&& forall|n: int, o: int|
        0 <= n < nodes.len() && 0 <= o < 8 && #[trigger] nodes[n].children@[o] != NO_CHILD
            && nodes[n].children@[o] < nodes.len() ==> depths[nodes[n].children@[o] as int] == depths[n] + 1
    &&& forall|n: int|
        0 <= n < nodes.len() && (#[trigger] nodes[n]).particle is Some ==> {
            let q = nodes[n].particle->0;
            &&& depths[n] <= MAX_DEPTH + 1
            &&& (q as int) < paths.len()
            &&& follow(nodes, paths[q as int]@, depths[n]) == n
        }
}

/// Adding links where there were none keeps every walk that got somewhere.
proof fn lemma_follow_stable(before: Seq<OctreeNode>, after: Seq<OctreeNode>, path: Seq<u8>, d: nat, np: nat)
    requires
        arena_wf(before, np),
        after.len() >= before.len(),
        valid_path(path),
        d <= path.len(),
        forall|m: int, o: int|
            0 <= m < before.len() && 0 <= o < 8 && before[m].children@[o] != NO_CHILD
                ==> #[trigger] after[m].children@[o] == before[m].children@[o],
    ensures
        follow(before, path, d) >= 0 ==> follow(after, path, d) == follow(before, path, d),
        follow(before, path, d) < before.len(),
    decreases d,
{
    if d > 0 {
        lemma_follow_stable(before, after, path, (d - 1) as nat, np);
        let n = follow(before, path, (d - 1) as nat);
        if n >= 0 {
            assert(path[d - 1] < 8);
            let c = before[n].children@[path[d - 1] as int];
            assert(c == NO_CHILD || (n < c < before.len()));
        }
    }
}

/// Linking a new leaf for `q` at index `newn`, as child `o` of the node that
/// `q`'s first `d` octants lead to, keeps every leaf on its particle's octants.
proof fn lemma_link_keeps_leaves(
    before: Seq<OctreeNode>,
    after: Seq<OctreeNode>,
    db: Seq<nat>,
    da: Seq<nat>,
    paths: Seq<Vec<u8>>,
    node: int,
    newn: int,
    o: int,
    q: u32,
    d: nat,
)
    requires
        arena_wf(before, paths.len()),
        valid_paths(paths),
        db.len() == before.len(),
        db[0] == 0,
        db[node] == d,
        newn < u32::MAX,
        forall|n: int, o2: int|
            0 <= n < before.len() && 0 <= o2 < 8 && #[trigger] before[n].children@[o2] != NO_CHILD
                && before[n].children@[o2] < before.len() ==> db[before[n].children@[o2] as int] == db[n] + 1,
        forall|n: int|
            0 <= n < before.len() && n != node && (#[trigger] before[n]).particle is Some ==> {
                let x = before[n].particle->0;
                &&& db[n] <= MAX_DEPTH + 1
                &&& (x as int) < paths.len()
                &&& follow(before, paths[x as int]@, db[n]) == n
            },
        links_unique(before),
        forall|n: int| 0 <= n < before.len() && n != node && db[n] > MAX_DEPTH ==> (#[trigger] before[n]).particle is Some,
        0 <= node < before.len(),
        newn == before.len(),
        after.len() == before.len() + 1,
        da == db.push(d + 1),
        d <= MAX_DEPTH,
        (q as int) < paths.len(),
        0 <= o < 8,
        paths[q as int]@[d as int] == o,
        follow(before, paths[q as int]@, d) == node,
        is_leaf_of(after[newn], q),
        after[node].particle is None,
        after[node].children@[o] == newn as u32,
        forall|o2: int| 0 <= o2 < 8 && o2 != o ==> #[trigger] after[node].children@[o2] == before[node].children@[o2],
        before[node].children@[o] == NO_CHILD,
        forall|m: int| 0 <= m < before.len() && m != node ==> #[trigger] after[m] == before[m],
    ensures
        arena_leaves_on_paths(after, da, paths),
{
    assert forall|m: int, o2: int|
        0 <= m < before.len() && 0 <= o2 < 8 && before[m].children@[o2] != NO_CHILD
            implies #[trigger] after[m].children@[o2] == before[m].children@[o2] by {
        if m != node {
            assert(after[m] == before[m]);
        } else {
            assert(o2 != o);
        }
    }
    assert(valid_path(paths[q as int]@));
    lemma_follow_stable(before, after, paths[q as int]@, d, paths.len());
    assert(follow(after, paths[q as int]@, d) == node);
    assert(paths[q as int]@[d as int] as int == o);
    assert(after[node].children@[o] != NO_CHILD);
    assert(follow(after, paths[q as int]@, (d + 1) as nat) == newn);
    assert forall|n: int, o2: int|
        0 <= n < after.len() && 0 <= o2 < 8 && #[trigger] after[n].children@[o2] != NO_CHILD
            && after[n].children@[o2] < after.len() implies da[after[n].children@[o2] as int] == da[n] + 1 by {
        if n == newn {
            assert(after[n].children@[o2] == NO_CHILD);
        } else if n == node {
            if o2 != o {
                assert(after[n].children@[o2] == before[n].children@[o2]);
                assert(before[n].children@[o2] != NO_CHILD);
                assert(before[n].particle is None);
            }
        } else {
            assert(after[n] == before[n]);
        }
    }
    assert forall|n: int| 0 <= n < after.len() && da[n] > MAX_DEPTH implies (#[trigger] after[n]).particle is Some by {
        if n < before.len() && n != node {
            assert(after[n] == before[n]);
        }
    }
    assert forall|n1: int, o1: int, n2: int, o2: int|
        0 <= n1 < after.len() && 0 <= o1 < 8 && 0 <= n2 < after.len() && 0 <= o2 < 8
            && #[trigger] after[n1].children@[o1] != NO_CHILD && after[n1].children@[o1]
            == #[trigger] after[n2].children@[o2] implies n1 == n2 && o1 == o2 by {
        let c = after[n1].children@[o1];
        if n1 == newn {
            assert(after[n1].children@[o1] == NO_CHILD);
        } else if n2 == newn {
            assert(after[n2].children@[o2] == NO_CHILD);
        } else {
            // Old links point below `newn`; only the new link points at it.
            assert(n1 < before.len() && n2 < before.len());
            let fresh1 = n1 == node && o1 == o;
            let fresh2 = n2 == node && o2 == o;
            if !fresh1 {
                if n1 != node {
                    assert(after[n1] == before[n1]);
                }
                assert(before[n1].children@[o1] == c);
                assert(c < before.len());
            }
            if !fresh2 {
                if n2 != node {
                    assert(after[n2] == before[n2]);
                }
                assert(before[n2].children@[o2] == c);
                assert(c < before.len());
            }
            if !fresh1 && !fresh2 {
                assert(before[n1].children@[o1] == before[n2].children@[o2]);
            }
        }
    }
    assert forall|n: int| 0 <= n < after.len() && (#[trigger] after[n]).particle is Some implies {
        let x = after[n].particle->0;
        &&& da[n] <= MAX_DEPTH + 1
        &&& (x as int) < paths.len()
        &&& follow(after, paths[x as int]@, da[n]) == n
    } by {
        if n != newn {
            assert(n != node);
            assert(after[n] == before[n]);
            let x = before[n].particle->0;
            assert(valid_path(paths[x as int]@));
            lemma_follow_stable(before, after, paths[x as int]@, db[n], paths.len());
        }
    }
}

/// `r` is the walk of `mass_nodes` for particle `p` with octants `path`: it
/// follows the octants from the root, holds only internal nodes but for its last,
/// goes below `MAX_DEPTH` only onto `p`'s own leaf, and stops only at a leaf, at
/// an absent link, or at the depth limit.
pub open spec fn mass_walk(nodes: Seq<OctreeNode>, path: Seq<u8>, p: u32, r: Seq<u32>) -> bool {
    &&& 1 <= r.len() <= MAX_DEPTH + 2
    &&& forall|k: int| 0 <= k < r.len() ==> #[trigger] r[k] as int == follow(nodes, path, k as nat)
    &&& forall|k: int| 0 <= k < r.len() - 1 ==> (#[trigger] nodes[r[k] as int]).particle is None
    &&& forall|k: int| 0 <= k < r.len() && k > MAX_DEPTH ==> (#[trigger] nodes[r[k] as int]).particle == Some(p)
    &&& ({
        let len = r.len();
        let last = nodes[r[len - 1] as int];
        let next = follow(nodes, path, len);
        last.particle is Some || next < 0 || len == MAX_DEPTH + 2 || (len == MAX_DEPTH + 1
            && nodes[next].particle != Some(p))
    })
}

/// A walk that got nowhere stays nowhere.
proof fn lemma_follow_absent(nodes: Seq<OctreeNode>, path: Seq<u8>, k: nat, d: nat)
    requires
        k <= d,
        follow(nodes, path, k) < 0,
    ensures
        follow(nodes, path, d) < 0,
    decreases d - k,
{
    if k < d {
        lemma_follow_absent(nodes, path, k, (d - 1) as nat);
    }
}

/// After a build, the mass walk of a particle held by a leaf ends at that leaf:
/// a placed particle's mass reaches every node from the root down to its leaf.
pub proof fn lemma_mass_walk_ends_at_leaf(t: &Octree, paths: Seq<Vec<u8>>, p: u32, r: Seq<u32>, n: int)
    requires
        t.wf(paths.len()),
        t.leaves_on_paths(paths),
        valid_paths(paths),
        0 <= n < t.nodes_spec().len(),
        t.nodes_spec()[n].particle == Some(p),
        mass_walk(t.nodes_spec(), paths[p as int]@, p, r),
    ensures
        r[r.len() - 1] as int == n,
{
    let nodes = t.nodes_spec();
    let path = paths[p as int]@;
    let dd = t.depths_spec()[n];
    assert(follow(nodes, path, dd) == n);
    let len = r.len();
    if len <= dd {
        if follow(nodes, path, len) < 0 {
            lemma_follow_absent(nodes, path, len, dd);
        }
        let last = r[len - 1] as int;
        assert(last == follow(nodes, path, (len - 1) as nat));
        let next = follow(nodes, path, len);
        assert(path[len - 1] < 8);
        assert(nodes[last].children@[path[len - 1] as int] != NO_CHILD);
        assert(nodes[last].particle is None);
        if len == MAX_DEPTH + 1 {
            assert(len == dd);
        }
        assert(false);
    } else if len > dd + 1 {
        assert(r[dd as int] as int == n);
        assert(nodes[r[dd as int] as int].particle is None);
    }
}

/// Walks along paths that agree on their first `d` octants end at the same node.
proof fn lemma_follow_same_prefix(nodes: Seq<OctreeNode>, a: Seq<u8>, b: Seq<u8>, d: nat)
    requires
        d <= a.len(),
        d <= b.len(),
        forall|k: int| 0 <= k < d ==> a[k] == b[k],
    ensures
        follow(nodes, a, d) == follow(nodes, b, d),
    decreases d,
{
    if d > 0 {
        lemma_follow_same_prefix(nodes, a, b, (d - 1) as nat);
    }
}

/// Since each node has a single parent link, two walks that end at the same node
/// took the same octants.
proof fn lemma_follow_injective(nodes: Seq<OctreeNode>, a: Seq<u8>, b: Seq<u8>, d: nat)
    requires
        links_unique(nodes),
        valid_path(a),
        valid_path(b),
        d <= a.len(),
        d <= b.len(),
        follow(nodes, a, d) >= 0,
        follow(nodes, a, d) == follow(nodes, b, d),
    ensures
        forall|k: int| 0 <= k < d ==> a[k] == b[k],
    decreases d,
{
    if d > 0 {
        let na = follow(nodes, a, (d - 1) as nat);
        let nb = follow(nodes, b, (d - 1) as nat);
        assert(0 <= na < nodes.len() && 0 <= nb < nodes.len());
        assert(a[d - 1] < 8 && b[d - 1] < 8);
        assert(nodes[na].children@[a[d - 1] as int] != NO_CHILD);
        assert(nodes[na].children@[a[d - 1] as int] == nodes[nb].children@[b[d - 1] as int]);
        lemma_follow_injective(nodes, a, b, (d - 1) as nat);
    }
}

/// A leaf at depth `d1` and a node at depth `d2 >= d1`, on walks that agree on
/// their first `d2` octants, are one and the same node.
proof fn lemma_leaves_apart(
    nodes: Seq<OctreeNode>,
    a: Seq<u8>,
    b: Seq<u8>,
    n1: int,
    n2: int,
    d1: nat,
    d2: nat,
)
    requires
        arena_linked(nodes),
        valid_path(a),
        valid_path(b),
        d1 <= d2 <= MAX_DEPTH + 1,
        0 <= n1 < nodes.len(),
        0 <= n2 < nodes.len(),
        nodes[n1].particle is Some,
        follow(nodes, a, d1) == n1,
        follow(nodes, b, d2) == n2,
        forall|k: int| 0 <= k < d2 ==> a[k] == b[k],
    ensures
        n1 == n2,
{
    lemma_follow_same_prefix(nodes, a, b, d2);
    if d1 < d2 {
        if follow(nodes, a, d1 + 1) < 0 {
            lemma_follow_absent(nodes, a, d1 + 1, d2);
        }
        assert(a[d1 as int] < 8);
        assert(nodes[n1].children@[a[d1 as int] as int] != NO_CHILD);
    }
}

/// Two particles held by leaves of the arena differ in their first
/// `MAX_DEPTH + 1` octants.
proof fn lemma_held_prefixes_differ(
    nodes: Seq<OctreeNode>,
    depths: Seq<nat>,
    paths: Seq<Vec<u8>>,
    n1: int,
    n2: int,
)
    requires
        arena_wf(nodes, paths.len()),
        arena_leaves_on_paths(nodes, depths, paths),
        valid_paths(paths),
        0 <= n1 < nodes.len(),
        0 <= n2 < nodes.len(),
        n1 != n2,
        nodes[n1].particle is Some,
        nodes[n2].particle is Some,
    ensures
        octant_prefix(paths, nodes[n1].particle->0 as int) != octant_prefix(paths, nodes[n2].particle->0 as int),
{
    let q1 = nodes[n1].particle->0 as int;
    let q2 = nodes[n2].particle->0 as int;
    let a = paths[q1]@;
    let b = paths[q2]@;
    assert(valid_path(a) && valid_path(b));
    if octant_prefix(paths, q1) == octant_prefix(paths, q2) {
        assert forall|k: int| 0 <= k < MAX_DEPTH + 1 implies a[k] == b[k] by {
            assert(a.take(MAX_DEPTH + 1)[k] == a[k]);
            assert(b.take(MAX_DEPTH + 1)[k] == b[k]);
        }
        if depths[n1] <= depths[n2] {
            lemma_leaves_apart(nodes, a, b, n1, n2, depths[n1], depths[n2]);
        } else {
            lemma_leaves_apart(nodes, b, a, n2, n1, depths[n2], depths[n1]);
        }
    }
}

/// Once `p` sits in leaf `lp`, no other held particle shares its octants.
proof fn lemma_no_sharer(nodes: Seq<OctreeNode>, depths: Seq<nat>, paths: Seq<Vec<u8>>, lp: int, p: u32)
    requires
        arena_wf(nodes, paths.len()),
        arena_leaves_on_paths(nodes, depths, paths),
        valid_paths(paths),
        0 <= lp < nodes.len(),
        nodes[lp].particle == Some(p),
    ensures
        forall|q: u32|
            q != p && #[trigger] arena_holds(nodes, q) ==> octant_prefix(paths, q as int) != octant_prefix(
                paths,
                p as int,
            ),
{
    assert forall|q: u32| q != p && #[trigger] arena_holds(nodes, q) implies octant_prefix(paths, q as int)
        != octant_prefix(paths, p as int) by {
        let nq = choose|n: int| 0 <= n < nodes.len() && (#[trigger] nodes[n]).particle == Some(q);
        lemma_held_prefixes_differ(nodes, depths, paths, nq, lp);
    }
}

/// In a tree built from particles `0 .. p` in order, where each is held unless an
/// earlier one shares its octants: if some `q < p` shares `p`'s octants, then a
/// held particle does.
proof fn lemma_first_sharer(t: Octree, paths: Seq<Vec<u8>>, p: u32, q: u32)
    requires
        (q as int) < p,
        octant_prefix(paths, q as int) == octant_prefix(paths, p as int),
        forall|e: u32|
            (e as int) < p ==> (#[trigger] t.holds(e) <==> forall|x: u32|
                (x as int) < e ==> octant_prefix(paths, x as int) != octant_prefix(paths, e as int)),
    ensures
        exists|x: u32| #[trigger] t.holds(x) && octant_prefix(paths, x as int) == octant_prefix(paths, p as int),
    decreases q,
{
    if !t.holds(q) {
        let x = choose|x: u32| (x as int) < q && octant_prefix(paths, x as int) == octant_prefix(paths, q as int);
        lemma_first_sharer(t, paths, p, x);
    }
}

/// Barnes-Hut octree as an arena of nodes addressed by index; node 0 is the root.
/// A child always stands after its parent, so the links form a tree.
pub struct Octree {
    nodes: Vec<OctreeNode>,
    /// Depth of each node.
    depths: Ghost<Seq<nat>>,
}

impl Octree {
    pub closed spec fn nodes_spec(&self) -> Seq<OctreeNode> {
        self.nodes@
    }

    /// Depth of each node: the root is at 0.
    pub closed spec fn depths_spec(&self) -> Seq<nat> {
        self.depths@
    }

    /// Each leaf is where its particle's octants, `paths`, lead from the root.
    pub open spec fn leaves_on_paths(&self, paths: Seq<Vec<u8>>) -> bool {
        arena_leaves_on_paths(self.nodes_spec(), self.depths_spec(), paths)
    }

    /// Well formed for particles `0 .. n_particles` (see `arena_wf`).
    pub open spec fn wf(&self, n_particles: nat) -> bool {
        arena_wf(self.nodes_spec(), n_particles)
    }

    /// Particle `p` is held by some leaf.
    pub open spec fn holds(&self, p: u32) -> bool {
        arena_holds(self.nodes_spec(), p)
    }

    /// A tree with an empty root.
    pub fn new() -> (t: Self)
        ensures
            t.wf(0),
            t.nodes_spec().len() == 1,
            forall|paths: Seq<Vec<u8>>| #[trigger] t.leaves_on_paths(paths),
    {
        let mut nodes: Vec<OctreeNode> = Vec::new();
        nodes.push(OctreeNode { children: [NO_CHILD; 8], particle: None });
        Octree { nodes, depths: Ghost(Seq::empty().push(0nat)) }
    }

    pub fn len(&self) -> (r: usize)
        ensures
            r == self.nodes_spec().len(),
    {
        self.nodes.len()
    }

    pub fn node(&self, i: usize) -> (r: OctreeNode)
        requires
            i < self.nodes_spec().len(),
        ensures
            r == self.nodes_spec()[i as int],
    {
        self.nodes[i]
    }

    /// Places particle `p`, following its octants from the root: an internal node
    /// passes it to the child of its octant, or makes it a new leaf there; a leaf
    /// is split, its particle moving to the child of its own octant, and the
    /// descent goes on. Returns the leaf that holds `p`, or `None` when `p` went
    /// past `MAX_DEPTH` and was dropped.
    pub fn insert(&mut self, p: u32, paths: &Vec<Vec<u8>>) -> (r: Option<u32>)
        requires
            old(self).wf(paths@.len()),
            (p as int) < paths@.len(),
            valid_paths(paths@),
            !old(self).holds(p),
            old(self).nodes_spec().len() + NODES_PER_INSERT <= u32::MAX,
            old(self).leaves_on_paths(paths@),
        ensures
            final(self).wf(paths@.len()),
            final(self).leaves_on_paths(paths@),
            final(self).nodes_spec().len() <= old(self).nodes_spec().len() + NODES_PER_INSERT,
            final(self).nodes_spec().len() >= old(self).nodes_spec().len(),
            r is Some ==> (r->0 as int) < final(self).nodes_spec().len() && final(self).nodes_spec()[r->0 as int].particle
                == Some(p),
            r is None ==> !final(self).holds(p),
            r is None <==> exists|q: u32|
                #[trigger] old(self).holds(q) && octant_prefix(paths@, q as int) == octant_prefix(paths@, p as int),
            forall|e: u32| e != p ==> (old(self).holds(e) <==> final(self).holds(e)),
    {
        let ghost n_paths = paths@.len();
        let ghost len0 = self.nodes@.len();
        let mut node: usize = 0;
        let mut depth: usize = 0;
        loop
            invariant
                self.wf(n_paths),
                n_paths == paths@.len(),
                (p as int) < paths@.len(),
                valid_paths(paths@),
                !self.holds(p),
                node < self.nodes@.len(),
                depth <= MAX_DEPTH + 1,
                len0 == old(self).nodes@.len(),
                !old(self).holds(p),
                self.nodes@.len() <= len0 + depth,
                len0 + NODES_PER_INSERT <= u32::MAX,
                self.nodes@.len() >= len0,
                forall|e: u32| e != p ==> (old(self).holds(e) <==> self.holds(e)),
                self.leaves_on_paths(paths@),
                self.depths@[node as int] == depth,
                follow(self.nodes@, paths@[p as int]@, depth as nat) == node,
            decreases MAX_DEPTH + 1 - depth,
        {
            if depth > MAX_DEPTH {
                proof {
                    // The node one level below the cap is a leaf whose particle
                    // took the same octants as `p`.
                    let q = self.nodes@[node as int].particle->0;
                    assert(self.nodes@[node as int].particle is Some);
                    assert(valid_path(paths@[q as int]@));
                    assert(valid_path(paths@[p as int]@));
                    lemma_follow_injective(self.nodes@, paths@[q as int]@, paths@[p as int]@, depth as nat);
                    assert(octant_prefix(paths@, q as int) =~= octant_prefix(paths@, p as int));
                    assert(q != p);
                    assert(self.holds(q));
                    assert(old(self).holds(q));
                }
                return None;
            }
            let nd = self.nodes[node];
            let o = paths[p as usize][depth] as usize;
            proof {
                assert(valid_path(paths@[p as int]@));
            }
            match nd.particle {
                Some(e) => {
                    // Split the leaf: `e` moves one level down.
                    proof {
                        assert(valid_path(paths@[e as int]@));
                    }
                    let oe = paths[e as usize][depth] as usize;
                    let le = self.nodes.len();
                    let ghost before = self.nodes@;
                    let ghost db = self.depths@;
                    self.nodes.push(OctreeNode { children: [NO_CHILD; 8], particle: Some(e) });
                    let mut inner = nd;
                    inner.children[oe] = le as u32;
                    inner.particle = None;
                    self.nodes.set(node, inner);
                    proof {
                        lemma_split(before, self.nodes@, node as int, le as int, oe as int, e, n_paths);
                        self.depths = Ghost(db.push((depth + 1) as nat));
                        lemma_link_keeps_leaves(
                            before,
                            self.nodes@,
                            db,
                            self.depths@,
                            paths@,
                            node as int,
                            le as int,
                            oe as int,
                            e,
                            depth as nat,
                        );
                        assert(valid_path(paths@[p as int]@));
                        lemma_follow_stable(before, self.nodes@, paths@[p as int]@, depth as nat, n_paths);
                    }
                    if o == oe {
                        node = le;
                        depth += 1;
                    } else {
                        let lp = self.nodes.len();
                        let ghost before2 = self.nodes@;
                        let ghost db2 = self.depths@;
                        self.nodes.push(OctreeNode { children: [NO_CHILD; 8], particle: Some(p) });
                        let mut inner2 = self.nodes[node];
                        inner2.children[o] = lp as u32;
                        self.nodes.set(node, inner2);
                        proof {
                            lemma_attach(before2, self.nodes@, node as int, lp as int, o as int, p, n_paths);
                            self.depths = Ghost(db2.push((depth + 1) as nat));
                            lemma_link_keeps_leaves(
                                before2,
                                self.nodes@,
                                db2,
                                self.depths@,
                                paths@,
                                node as int,
                                lp as int,
                                o as int,
                                p,
                                depth as nat,
                            );
                            lemma_no_sharer(self.nodes@, self.depths@, paths@, lp as int, p);
                            assert forall|q: u32| #[trigger] old(self).holds(q) implies octant_prefix(paths@, q as int)
                                != octant_prefix(paths@, p as int) by {
                                assert(q != p);
                                assert(self.holds(q));
                                assert(arena_holds(self.nodes@, q));
                            }
                        }
                        return Some(lp as u32);
                    }
                },
                None => {
                    let c = nd.children[o];
                    if c != NO_CHILD {
                        node = c as usize;
                        depth += 1;
                    } else {
                        let lp = self.nodes.len();
                        let ghost before = self.nodes@;
                        let ghost db = self.depths@;
                        self.nodes.push(OctreeNode { children: [NO_CHILD; 8], particle: Some(p) });
                        let mut inner = nd;
                        inner.children[o] = lp as u32;
                        self.nodes.set(node, inner);
                        proof {
                            lemma_attach(before, self.nodes@, node as int, lp as int, o as int, p, n_paths);
                            self.depths = Ghost(db.push((depth + 1) as nat));
                            lemma_link_keeps_leaves(
                                before,
                                self.nodes@,
                                db,
                                self.depths@,
                                paths@,
                                node as int,
                                lp as int,
                                o as int,
                                p,
                                depth as nat,
                            );
                            lemma_no_sharer(self.nodes@, self.depths@, paths@, lp as int, p);
                            assert forall|q: u32| #[trigger] old(self).holds(q) implies octant_prefix(paths@, q as int)
                                != octant_prefix(paths@, p as int) by {
                                assert(q != p);
                                assert(self.holds(q));
                                assert(arena_holds(self.nodes@, q));
                            }
                        }
                        return Some(lp as u32);
                    }
                },
            }
        }
    }
    /// Nodes whose mass includes particle `p`, whose octants are `path`: the nodes
    /// its octants lead through from the root, down to depth `MAX_DEPTH`, and one
    /// level deeper only when that node is `p`'s own leaf. The walk ends at a leaf.
    pub fn mass_nodes(&self, path: &Vec<u8>, p: u32) -> (r: Vec<u32>)
        requires
            arena_linked(self.nodes_spec()),
            valid_path(path@),
        ensures
            mass_walk(self.nodes_spec(), path@, p, r@),
    {
        let mut r: Vec<u32> = Vec::new();
        r.push(0);
        let mut node: usize = 0;
        let mut d: usize = 0;
        loop
            invariant
                arena_linked(self.nodes_spec()),
                valid_path(path@),
                r@.len() == d + 1,
                d <= MAX_DEPTH + 1,
                node < self.nodes_spec().len(),
                r@[d as int] == node,
                follow(self.nodes_spec(), path@, d as nat) == node,
                forall|k: int| 0 <= k < r@.len() ==> #[trigger] r@[k] as int == follow(self.nodes_spec(), path@, k as nat),
                forall|k: int| 0 <= k < r@.len() - 1 ==> (#[trigger] self.nodes_spec()[r@[k] as int]).particle is None,
                forall|k: int|
                    0 <= k < r@.len() && k > MAX_DEPTH ==> (#[trigger] self.nodes_spec()[r@[k] as int]).particle
                        == Some(p),
            decreases MAX_DEPTH + 1 - d,
        {
            let nd = self.nodes[node];
            if nd.particle.is_some() || d > MAX_DEPTH {
                return r;
            }
            proof {
                assert(path@[d as int] < 8);
            }
            let c = nd.children[path[d] as usize];
            if c == NO_CHILD {
                return r;
            }
            assert(follow(self.nodes_spec(), path@, (d + 1) as nat) == c);
            if d + 1 <= MAX_DEPTH || self.nodes[c as usize].particle == Some(p) {
                let ghost before = r@;
                r.push(c);
                proof {
                    assert forall|k: int| 0 <= k < r@.len() implies #[trigger] r@[k] as int == follow(
                        self.nodes_spec(),
                        path@,
                        k as nat,
                    ) by {
                        if k < before.len() {
                            assert(r@[k] == before[k]);
                        }
                    }
                    assert forall|k: int| 0 <= k < r@.len() - 1 implies (#[trigger] self.nodes_spec()[r@[k] as int]).particle is None by {
                        assert(r@[k] == before[k]);
                    }
                    assert forall|k: int| 0 <= k < r@.len() && k > MAX_DEPTH implies (
                    #[trigger] self.nodes_spec()[r@[k] as int]).particle == Some(p) by {
                        if k < before.len() {
                            assert(r@[k] == before[k]);
                        }
                    }
                }
                node = c as usize;
                d += 1;
            } else {
                return r;
            }
        }
    }

    /// The octree of particles `0 .. count`, inserted in index order; `paths[p]`
    /// gives the octants of particle `p`.
    pub fn build(paths: &Vec<Vec<u8>>, count: usize) -> (t: Self)
        requires
            count <= paths@.len(),
            valid_paths(paths@),
            count * NODES_PER_INSERT + 1 <= u32::MAX,
        ensures
            t.wf(paths@.len()),
            t.leaves_on_paths(paths@),
            forall|e: u32| #[trigger] t.holds(e) ==> (e as int) < count,
            forall|e: u32|
                (e as int) < count ==> (#[trigger] t.holds(e) <==> forall|q: u32|
                    (q as int) < e ==> octant_prefix(paths@, q as int) != octant_prefix(paths@, e as int)),
    {
        let mut t = Octree::new();
        let mut i: usize = 0;
        while i < count
            invariant
                i <= count,
                count <= paths@.len(),
                valid_paths(paths@),
                count * NODES_PER_INSERT + 1 <= u32::MAX,
                t.wf(paths@.len()),
                t.leaves_on_paths(paths@),
                t.nodes_spec().len() <= i * NODES_PER_INSERT + 1,
                forall|e: u32| #[trigger] t.holds(e) ==> (e as int) < i,
                forall|e: u32|
                    (e as int) < i ==> (#[trigger] t.holds(e) <==> forall|q: u32|
                        (q as int) < e ==> octant_prefix(paths@, q as int) != octant_prefix(paths@, e as int)),
            decreases count - i,
        {
            assert(t.nodes_spec().len() + NODES_PER_INSERT <= u32::MAX) by (nonlinear_arith)
                requires
                    t.nodes_spec().len() <= i * NODES_PER_INSERT + 1,
                    i < count,
                    count * NODES_PER_INSERT + 1 <= u32::MAX,
            ;
            let ghost before = t;
            let r = t.insert(i as u32, paths);
            proof {
                let p = i as u32;
                if r is Some {
                    assert(t.holds(p));
                    assert forall|q: u32| (q as int) < p implies octant_prefix(paths@, q as int) != octant_prefix(
                        paths@,
                        p as int,
                    ) by {
                        if octant_prefix(paths@, q as int) == octant_prefix(paths@, p as int) {
                            lemma_first_sharer(before, paths@, p, q);
                        }
                    }
                } else {
                    let q = choose|q: u32|
                        #[trigger] before.holds(q) && octant_prefix(paths@, q as int) == octant_prefix(paths@, p as int);
                    assert((q as int) < p);
                }
                assert forall|e: u32|
                    (e as int) < i + 1 implies (#[trigger] t.holds(e) <==> forall|q: u32|
                        (q as int) < e ==> octant_prefix(paths@, q as int) != octant_prefix(paths@, e as int)) by {
                    if e != p {
                        assert(before.holds(e) == t.holds(e));
                    }
                }
                assert forall|e: u32| #[trigger] t.holds(e) implies (e as int) < i + 1 by {
                    if e != i as u32 {
                        assert(before.holds(e));
                    }
                }
                assert(t.nodes_spec().len() <= (i + 1) * NODES_PER_INSERT + 1) by (nonlinear_arith)
                    requires
                        t.nodes_spec().len() <= before.nodes_spec().len() + NODES_PER_INSERT,
                        before.nodes_spec().len() <= i * NODES_PER_INSERT + 1,
                ;
            }
            i += 1;
        }
        t
    }
}

} // verus!
