//! Groups: connected components of the bond graph among living particles.
//!
//! Components are found with a union-find forest (with path compression) and
//! numbered in the order in which their first member appears in the store.
//! The same grouping gives component sizes (the largest one among a set of
//! particles) and colonies of linked organisms, and it commutes with the
//! store's compaction.
use vstd::prelude::*;
use std::collections::HashMap;
use crate::particle_store::{
    ParticleStore, alive_before, keep, remap_bonds, lemma_alive_before_mono, lemma_keep_index,
    lemma_keep_len, lemma_keep_source, lemma_remap_source,
};

verus! {

broadcast use vstd::std_specs::hash::group_hash_axioms;

/// Particle `i` lists a bond to particle `j`, and both are alive.
pub open spec fn bonded<F>(alive: Seq<bool>, bonds: Seq<Vec<(usize, F)>>, i: int, j: int) -> bool {
    &&& 0 <= i < alive.len()
    &&& 0 <= j < alive.len()
    &&& i < bonds.len()
    &&& alive[i]
    &&& alive[j]
    &&& exists|k: int| 0 <= k < bonds[i]@.len() && #[trigger] bonds[i]@[k].0 == j
}

/// A bond joins `i` and `j`, listed on either side.
pub open spec fn linked<F>(alive: Seq<bool>, bonds: Seq<Vec<(usize, F)>>, i: int, j: int) -> bool {
    bonded(alive, bonds, i, j) || bonded(alive, bonds, j, i)
}

/// `path` walks from particle to particle along bonds.
pub open spec fn is_bond_path<F>(
    alive: Seq<bool>,
    bonds: Seq<Vec<(usize, F)>>,
    path: Seq<int>,
) -> bool {
    &&& path.len() >= 1
    &&& forall|k: int|
        0 <= k < path.len() - 1 ==> #[trigger] linked(alive, bonds, path[k], path[k + 1])
}

/// Particles `x` and `y` are joined by a chain of bonds (every particle is joined to itself).
pub open spec fn connected<F>(alive: Seq<bool>, bonds: Seq<Vec<(usize, F)>>, x: int, y: int) -> bool {
    exists|path: Seq<int>|
        #[trigger] is_bond_path(alive, bonds, path) && path[0] == x && path.last() == y
}

proof fn lemma_connected_refl<F>(alive: Seq<bool>, bonds: Seq<Vec<(usize, F)>>, x: int)
    ensures
        connected(alive, bonds, x, x),
{
    let p = seq![x];
    assert(is_bond_path(alive, bonds, p));
}

proof fn lemma_linked_connected<F>(alive: Seq<bool>, bonds: Seq<Vec<(usize, F)>>, x: int, y: int)
    requires
        linked(alive, bonds, x, y),
    ensures
        connected(alive, bonds, x, y),
{
    let p = seq![x, y];
    assert(is_bond_path(alive, bonds, p));
}

proof fn lemma_connected_symm<F>(alive: Seq<bool>, bonds: Seq<Vec<(usize, F)>>, x: int, y: int)
    requires
        connected(alive, bonds, x, y),
    ensures
        connected(alive, bonds, y, x),
{
    let p = choose|path: Seq<int>|
        #[trigger] is_bond_path(alive, bonds, path) && path[0] == x && path.last() == y;
    let n = p.len();
    let q = Seq::new(n, |k: int| p[n - 1 - k]);
    assert forall|k: int| 0 <= k < q.len() - 1 implies #[trigger] linked(
        alive,
        bonds,
        q[k],
        q[k + 1],
    ) by {
        assert(linked(alive, bonds, p[n - 2 - k], p[n - 2 - k + 1]));
    }
    assert(is_bond_path(alive, bonds, q));
}

proof fn lemma_connected_trans<F>(
    alive: Seq<bool>,
    bonds: Seq<Vec<(usize, F)>>,
    x: int,
    y: int,
    z: int,
)
    requires
        connected(alive, bonds, x, y),
        connected(alive, bonds, y, z),
    ensures
        connected(alive, bonds, x, z),
{
    let p1 = choose|path: Seq<int>|
        #[trigger] is_bond_path(alive, bonds, path) && path[0] == x && path.last() == y;
    let p2 = choose|path: Seq<int>|
        #[trigger] is_bond_path(alive, bonds, path) && path[0] == y && path.last() == z;
    let q = p1 + p2.drop_first();
    assert forall|k: int| 0 <= k < q.len() - 1 implies #[trigger] linked(
        alive,
        bonds,
        q[k],
        q[k + 1],
    ) by {
        if k < p1.len() - 1 {
            assert(linked(alive, bonds, p1[k], p1[k + 1]));
        } else if k == p1.len() - 1 {
            assert(p2.len() >= 2);
            assert(q[k] == p2[0]);
            assert(q[k + 1] == p2[1]);
            assert(linked(alive, bonds, p2[0int], p2[0int + 1]));
        } else {
            let k2 = k - p1.len() + 1;
            assert(linked(alive, bonds, p2[k2], p2[k2 + 1]));
        }
    }
    assert(is_bond_path(alive, bonds, q));
    if p2.len() == 1 {
        assert(q.last() == p1.last());
    } else {
        assert(q.last() == p2.last());
    }
}

// ── Union-find forest ────────────────────────────────────────────────────────
/// The forest is well formed: every parent is in range and every non-root's
/// parent stands higher (by the ghost height `h`, bounded by `b`).
pub open spec fn uf_wf(p: Seq<usize>, h: Seq<int>, b: int) -> bool {
    &&& h.len() == p.len()
    &&& forall|x: int| 0 <= x < p.len() ==> #[trigger] p[x] < p.len()
    &&& forall|x: int| 0 <= x < p.len() ==> 0 <= #[trigger] h[x] <= b
    &&& forall|x: int| 0 <= x < p.len() && #[trigger] p[x] != x ==> h[x] < h[p[x] as int]
}

/// The root of the tree that holds `x`.
pub open spec fn root_of(p: Seq<usize>, h: Seq<int>, b: int, x: int) -> int
    decreases b - h[x],
    when uf_wf(p, h, b) && 0 <= x < p.len()
{
    if p[x] == x {
        x
    } else {
        root_of(p, h, b, p[x] as int)
    }
}

proof fn lemma_root<F>(p: Seq<usize>, h: Seq<int>, b: int, x: int)
    requires
        uf_wf(p, h, b),
        0 <= x < p.len(),
    ensures
        0 <= root_of(p, h, b, x) < p.len(),
        p[root_of(p, h, b, x)] == root_of(p, h, b, x),
        root_of(p, h, b, x) == x || h[x] < h[root_of(p, h, b, x)],
        p[x] != x ==> root_of(p, h, b, x) == root_of(p, h, b, p[x] as int),
    decreases b - h[x],
{
    if p[x] != x {
        lemma_root::<F>(p, h, b, p[x] as int);
    }
}

proof fn lemma_root_bound_indep(p: Seq<usize>, h: Seq<int>, b1: int, b2: int, x: int)
    requires
        uf_wf(p, h, b1),
        uf_wf(p, h, b2),
        0 <= x < p.len(),
    ensures
        root_of(p, h, b1, x) == root_of(p, h, b2, x),
    decreases b1 - h[x],
{
    if p[x] != x {
        lemma_root_bound_indep(p, h, b1, b2, p[x] as int);
    }
}

/// Every node is joined by bonds to its parent.
pub open spec fn uf_sound<F>(
    p: Seq<usize>,
    alive: Seq<bool>,
    bonds: Seq<Vec<(usize, F)>>,
) -> bool {
    forall|x: int|
        0 <= x < p.len() && #[trigger] p[x] != x ==> connected(alive, bonds, x, p[x] as int)
}

proof fn lemma_root_connected<F>(
    p: Seq<usize>,
    h: Seq<int>,
    b: int,
    alive: Seq<bool>,
    bonds: Seq<Vec<(usize, F)>>,
    x: int,
)
    requires
        uf_wf(p, h, b),
        uf_sound(p, alive, bonds),
        0 <= x < p.len(),
    ensures
        connected(alive, bonds, x, root_of(p, h, b, x)),
    decreases b - h[x],
{
    if p[x] == x {
        lemma_connected_refl(alive, bonds, x);
    } else {
        lemma_root_connected(p, h, b, alive, bonds, p[x] as int);
        lemma_connected_trans(alive, bonds, x, p[x] as int, root_of(p, h, b, p[x] as int));
    }
}

/// Pointing `c` straight at its root keeps the forest well formed and every root unchanged.
proof fn lemma_redirect(p: Seq<usize>, h: Seq<int>, b: int, c: int)
    requires
        uf_wf(p, h, b),
        0 <= c < p.len(),
    ensures
        uf_wf(p.update(c, root_of(p, h, b, c) as usize), h, b),
        forall|y: int|
            0 <= y < p.len() ==> #[trigger] root_of(p.update(c, root_of(p, h, b, c) as usize), h, b, y)
                == root_of(p, h, b, y),
{
    let r = root_of(p, h, b, c);
    lemma_root::<()>(p, h, b, c);
    let p2 = p.update(c, r as usize);
    assert(uf_wf(p2, h, b));
    assert forall|y: int| 0 <= y < p.len() implies #[trigger] root_of(p2, h, b, y) == root_of(
        p,
        h,
        b,
        y,
    ) by {
        lemma_redirect_one(p, h, b, c, y);
    }
}

proof fn lemma_redirect_one(p: Seq<usize>, h: Seq<int>, b: int, c: int, y: int)
    requires
        uf_wf(p, h, b),
        0 <= c < p.len(),
        0 <= y < p.len(),
        uf_wf(p.update(c, root_of(p, h, b, c) as usize), h, b),
    ensures
        root_of(p.update(c, root_of(p, h, b, c) as usize), h, b, y) == root_of(p, h, b, y),
    decreases b - h[y],
{
    let r = root_of(p, h, b, c);
    lemma_root::<()>(p, h, b, c);
    let p2 = p.update(c, r as usize);
    if y == c {
        if r != c {
            assert(p2[r] == r);
            assert(root_of(p2, h, b, r) == r);
            assert(root_of(p2, h, b, c) == root_of(p2, h, b, r));
        } else {
            assert(p2 =~= p);
        }
    } else if p[y] != y {
        lemma_redirect_one(p, h, b, c, p[y] as int);
        assert(p2[y] == p[y]);
        assert(root_of(p2, h, b, y) == root_of(p2, h, b, p2[y] as int));
    } else {
        assert(p2[y] == y);
    }
}

/// Hanging root `ra` under root `rb` merges their trees and keeps every other root.
proof fn lemma_link(p: Seq<usize>, h: Seq<int>, b: int, ra: int, rb: int)
    requires
        uf_wf(p, h, b),
        0 <= ra < p.len(),
        0 <= rb < p.len(),
        p[ra] == ra,
        p[rb] == rb,
        ra != rb,
    ensures
        ({
            let h2 = h.update(rb, if h[rb] > h[ra] { h[rb] } else { h[ra] + 1 });
            let b2 = if b > h2[rb] { b } else { h2[rb] };
            let p2 = p.update(ra, rb as usize);
            &&& uf_wf(p2, h2, b2)
            &&& forall|y: int|
                0 <= y < p.len() ==> #[trigger] root_of(p2, h2, b2, y) == if root_of(p, h, b, y)
                    == ra {
                    rb
                } else {
                    root_of(p, h, b, y)
                }
        }),
{
    let h2 = h.update(rb, if h[rb] > h[ra] { h[rb] } else { h[ra] + 1 });
    let b2 = if b > h2[rb] { b } else { h2[rb] };
    let p2 = p.update(ra, rb as usize);
    assert(uf_wf(p2, h2, b2));
    assert forall|y: int| 0 <= y < p.len() implies #[trigger] root_of(p2, h2, b2, y) == if root_of(
        p,
        h,
        b,
        y,
    ) == ra {
        rb
    } else {
        root_of(p, h, b, y)
    } by {
        lemma_link_one(p, h, b, ra, rb, y);
    }
}

proof fn lemma_link_one(p: Seq<usize>, h: Seq<int>, b: int, ra: int, rb: int, y: int)
    requires
        uf_wf(p, h, b),
        0 <= ra < p.len(),
        0 <= rb < p.len(),
        p[ra] == ra,
        p[rb] == rb,
        ra != rb,
        0 <= y < p.len(),
        uf_wf(
            p.update(ra, rb as usize),
            h.update(rb, if h[rb] > h[ra] { h[rb] } else { h[ra] + 1 }),
            if b > (if h[rb] > h[ra] { h[rb] } else { h[ra] + 1 }) {
                b
            } else {
                if h[rb] > h[ra] { h[rb] } else { h[ra] + 1 }
            },
        ),
    ensures
        ({
            let h2 = h.update(rb, if h[rb] > h[ra] { h[rb] } else { h[ra] + 1 });
            let b2 = if b > h2[rb] { b } else { h2[rb] };
            let p2 = p.update(ra, rb as usize);
            root_of(p2, h2, b2, y) == if root_of(p, h, b, y) == ra {
                rb
            } else {
                root_of(p, h, b, y)
            }
        }),
    decreases b - h[y],
{
    let h2 = h.update(rb, if h[rb] > h[ra] { h[rb] } else { h[ra] + 1 });
    let b2 = if b > h2[rb] { b } else { h2[rb] };
    let p2 = p.update(ra, rb as usize);
    if y == ra {
        assert(root_of(p2, h2, b2, rb) == rb);
    } else if y == rb {
    } else if p[y] != y {
        lemma_link_one(p, h, b, ra, rb, p[y] as int);
    }
}

/// All consecutive particles of a bond path share a root, so its ends do too.
proof fn lemma_path_same_root<F>(
    p: Seq<usize>,
    h: Seq<int>,
    b: int,
    alive: Seq<bool>,
    bonds: Seq<Vec<(usize, F)>>,
    path: Seq<int>,
)
    requires
        uf_wf(p, h, b),
        p.len() == alive.len(),
        is_bond_path(alive, bonds, path),
        0 <= path[0] < p.len(),
        forall|x: int, y: int|
            #[trigger] linked(alive, bonds, x, y) ==> root_of(p, h, b, x) == root_of(p, h, b, y),
    ensures
        root_of(p, h, b, path[0]) == root_of(p, h, b, path.last()),
    decreases path.len(),
{
    if path.len() > 1 {
        let q = path.drop_last();
        assert forall|k: int| 0 <= k < q.len() - 1 implies #[trigger] linked(
            alive,
            bonds,
            q[k],
            q[k + 1],
        ) by {
            assert(linked(alive, bonds, path[k], path[k + 1]));
        }
        lemma_path_same_root(p, h, b, alive, bonds, q);
        let m = path.len() - 2;
        assert(linked(alive, bonds, path[m], path[m + 1]));
    }
}

/// The root `key` carries the number `v`.
spec fn numbered(m: Map<usize, u32>, key: usize, v: i32) -> bool {
    m.contains_key(key) && m[key] as i32 == v
}

/// Some root carries the number `v`.
spec fn numbers_some_root(m: Map<usize, u32>, v: u32) -> bool {
    exists|key: usize| #[trigger] m.contains_key(key) && m[key] == v
}

/// Finds the root of `x`, pointing every node on the way straight at it.
fn find<F>(
    parent: &mut Vec<usize>,
    x: usize,
    Ghost(h): Ghost<Seq<int>>,
    Ghost(b): Ghost<int>,
    Ghost(alive): Ghost<Seq<bool>>,
    Ghost(bonds): Ghost<Seq<Vec<(usize, F)>>>,
) -> (r: usize)
    requires
        uf_wf(old(parent)@, h, b),
        uf_sound(old(parent)@, alive, bonds),
        x < old(parent)@.len(),
    ensures
        uf_wf(final(parent)@, h, b),
        uf_sound(final(parent)@, alive, bonds),
        final(parent)@.len() == old(parent)@.len(),
        r as int == root_of(old(parent)@, h, b, x as int),
        forall|y: int|
            0 <= y < old(parent)@.len() ==> #[trigger] root_of(final(parent)@, h, b, y) == root_of(
                old(parent)@,
                h,
                b,
                y,
            ),
{
    let ghost p0 = parent@;
    let mut root = x;
    while parent[root] != root
        invariant
            uf_wf(parent@, h, b),
            parent@ == p0,
            root < parent@.len(),
            root_of(parent@, h, b, root as int) == root_of(parent@, h, b, x as int),
        decreases b - h[root as int],
    {
        proof {
            lemma_root::<()>(parent@, h, b, root as int);
        }
        root = parent[root];
    }
    let mut cur = x;
    while parent[cur] != root
        invariant
            uf_wf(parent@, h, b),
            uf_sound(parent@, alive, bonds),
            parent@.len() == p0.len(),
            cur < parent@.len(),
            root < parent@.len(),
            parent@[root as int] == root,
            root as int == root_of(p0, h, b, x as int),
            root_of(parent@, h, b, cur as int) == root as int,
            forall|y: int|
                0 <= y < p0.len() ==> #[trigger] root_of(parent@, h, b, y) == root_of(p0, h, b, y),
        decreases b - h[cur as int],
    {
        let next = parent[cur];
        proof {
            lemma_root::<()>(parent@, h, b, cur as int);
            lemma_root_connected(parent@, h, b, alive, bonds, cur as int);
            lemma_redirect(parent@, h, b, cur as int);
        }
        let ghost before = parent@;
        parent.set(cur, root);
        proof {
            assert(parent@ == before.update(cur as int, root));
            assert forall|y: int|
                0 <= y < p0.len() implies #[trigger] root_of(parent@, h, b, y) == root_of(
                p0,
                h,
                b,
                y,
            ) by {
                assert(root_of(parent@, h, b, y) == root_of(before, h, b, y));
            }
            assert forall|y: int|
                0 <= y < parent@.len() && #[trigger] parent@[y] != y implies connected(
                alive,
                bonds,
                y,
                parent@[y] as int,
            ) by {
                if y != cur {
                    assert(before[y] != y);
                }
            }
            lemma_root::<()>(before, h, b, next as int);
        }
        cur = next;
    }
    root
}

/// `ids` numbers the components of the bond graph among living particles:
/// dead particles get -1; living ones get a number from 0 that they share
/// exactly with the particles joined to them by chains of bonds; and a number
/// above 0 is only used after the number below it has been used by an
/// earlier particle, so components are numbered 0, 1, 2, ... in the order in
/// which their first member appears.
pub open spec fn is_group_labeling<F>(
    alive: Seq<bool>,
    bonds: Seq<Vec<(usize, F)>>,
    ids: Seq<i32>,
) -> bool {
    &&& ids.len() == alive.len()
    &&& forall|i: int| 0 <= i < alive.len() ==> (#[trigger] ids[i] == -1 <==> !alive[i])
    &&& forall|i: int| 0 <= i < alive.len() && alive[i] ==> #[trigger] ids[i] >= 0
    &&& forall|i: int, j: int|
        0 <= i < alive.len() && 0 <= j < alive.len() && alive[i] && alive[j] ==> (
        #[trigger] ids[i] == #[trigger] ids[j] <==> connected(alive, bonds, i, j))
    &&& forall|i: int|
        0 <= i < alive.len() && alive[i] && #[trigger] ids[i] > 0 ==> exists|j: int|
            0 <= j < i && alive[j] && #[trigger] ids[j] == ids[i] - 1
}

/// One more than the largest label among the living particles before `i`
/// (0 where there is none).
spec fn label_bound(alive: Seq<bool>, ids: Seq<i32>, i: int) -> int
    decreases i,
{
    if i <= 0 {
        0
    } else {
        let m = label_bound(alive, ids, i - 1);
        if alive[i - 1] && ids[i - 1] + 1 > m {
            ids[i - 1] + 1
        } else {
            m
        }
    }
}

proof fn lemma_label_bound_above(alive: Seq<bool>, ids: Seq<i32>, i: int, j: int)
    requires
        0 <= j < i,
        alive[j],
    ensures
        ids[j] < label_bound(alive, ids, i),
    decreases i,
{
    if j < i - 1 {
        lemma_label_bound_above(alive, ids, i - 1, j);
    }
}

proof fn lemma_label_bound_witness(alive: Seq<bool>, ids: Seq<i32>, i: int)
    requires
        0 <= i,
    ensures
        label_bound(alive, ids, i) >= 0,
        label_bound(alive, ids, i) == 0 || exists|k: int|
            0 <= k < i && alive[k] && ids[k] + 1 == label_bound(alive, ids, i),
    decreases i,
{
    if i > 0 {
        lemma_label_bound_witness(alive, ids, i - 1);
    }
}

proof fn lemma_label_bound_eq(alive: Seq<bool>, ids1: Seq<i32>, ids2: Seq<i32>, i: int)
    requires
        forall|j: int| 0 <= j < i ==> ids1[j] == ids2[j],
    ensures
        label_bound(alive, ids1, i) == label_bound(alive, ids2, i),
    decreases i,
{
    if i > 0 {
        lemma_label_bound_eq(alive, ids1, ids2, i - 1);
    }
}

/// Every label below that of a living particle `k` is carried by a living
/// particle at or before `k`.
proof fn lemma_reach_down<F>(
    alive: Seq<bool>,
    bonds: Seq<Vec<(usize, F)>>,
    ids: Seq<i32>,
    k: int,
    v: int,
)
    requires
        is_group_labeling(alive, bonds, ids),
        0 <= k < alive.len(),
        alive[k],
        0 <= v <= ids[k],
    ensures
        exists|j: int| 0 <= j <= k && alive[j] && #[trigger] ids[j] == v,
    decreases ids[k] - v,
{
    if ids[k] == v {
        assert(ids[k] == v);
    } else {
        let j = choose|j: int| 0 <= j < k && alive[j] && #[trigger] ids[j] == ids[k] - 1;
        lemma_reach_down(alive, bonds, ids, j, v);
    }
}

/// A living particle either joins a component met earlier, or opens a new one
/// and carries the next unused label.
proof fn lemma_label_value<F>(alive: Seq<bool>, bonds: Seq<Vec<(usize, F)>>, ids: Seq<i32>, i: int)
    requires
        is_group_labeling(alive, bonds, ids),
        0 <= i < alive.len(),
        alive[i],
    ensures
        (exists|j: int| 0 <= j < i && alive[j] && #[trigger] connected(alive, bonds, j, i))
            || ids[i] == label_bound(alive, ids, i),
{
    if !(exists|j: int| 0 <= j < i && alive[j] && #[trigger] connected(alive, bonds, j, i)) {
        let lb = label_bound(alive, ids, i);
        lemma_label_bound_witness(alive, ids, i);
        if ids[i] < lb {
            let k = choose|k: int| 0 <= k < i && alive[k] && ids[k] + 1 == lb;
            lemma_reach_down(alive, bonds, ids, k, ids[i] as int);
            let j = choose|j: int| 0 <= j <= k && alive[j] && #[trigger] ids[j] == ids[i];
            assert(connected(alive, bonds, j, i));
        }
        if ids[i] > 0 {
            let j = choose|j: int| 0 <= j < i && alive[j] && #[trigger] ids[j] == ids[i] - 1;
            lemma_label_bound_above(alive, ids, i, j);
        }
    }
}

proof fn lemma_labeling_step<F>(
    alive: Seq<bool>,
    bonds: Seq<Vec<(usize, F)>>,
    ids1: Seq<i32>,
    ids2: Seq<i32>,
    k: int,
)
    requires
        is_group_labeling(alive, bonds, ids1),
        is_group_labeling(alive, bonds, ids2),
        0 <= k < alive.len(),
        forall|j: int| 0 <= j < k ==> ids1[j] == ids2[j],
    ensures
        ids1[k] == ids2[k],
{
    if alive[k] {
        lemma_label_value(alive, bonds, ids1, k);
        lemma_label_value(alive, bonds, ids2, k);
        if exists|j: int| 0 <= j < k && alive[j] && #[trigger] connected(alive, bonds, j, k) {
            let j = choose|j: int| 0 <= j < k && alive[j] && #[trigger] connected(alive, bonds, j, k);
            assert(ids1[j] == ids1[k]);
            assert(ids2[j] == ids2[k]);
        } else {
            lemma_label_bound_eq(alive, ids1, ids2, k);
        }
    } else {
        assert(ids1[k] == -1 && ids2[k] == -1);
    }
}

/// Both sequences are group numberings of the same particles.
#[verifier::opaque]
spec fn both_labelings<F>(
    alive: Seq<bool>,
    bonds: Seq<Vec<(usize, F)>>,
    ids1: Seq<i32>,
    ids2: Seq<i32>,
) -> bool {
    is_group_labeling(alive, bonds, ids1) && is_group_labeling(alive, bonds, ids2)
}

proof fn lemma_labeling_prefix_eq<F>(
    alive: Seq<bool>,
    bonds: Seq<Vec<(usize, F)>>,
    ids1: Seq<i32>,
    ids2: Seq<i32>,
    i: int,
)
    requires
        both_labelings(alive, bonds, ids1, ids2),
        0 <= i <= alive.len(),
    ensures
        forall|j: int| 0 <= j < i ==> ids1[j] == ids2[j],
    decreases i,
{
    if i > 0 {
        lemma_labeling_prefix_eq(alive, bonds, ids1, ids2, i - 1);
        assert(ids1[i - 1] == ids2[i - 1]) by {
            reveal(both_labelings);
            lemma_labeling_step(alive, bonds, ids1, ids2, i - 1);
        }
    }
}

/// The group numbering is determined by the living particles and their bonds:
/// two numberings that both meet the description of `assign_group_ids` are
/// the same.
pub proof fn lemma_group_labeling_unique<F>(
    alive: Seq<bool>,
    bonds: Seq<Vec<(usize, F)>>,
    ids1: Seq<i32>,
    ids2: Seq<i32>,
)
    requires
        is_group_labeling(alive, bonds, ids1),
        is_group_labeling(alive, bonds, ids2),
    ensures
        ids1 == ids2,
{
    assert(both_labelings(alive, bonds, ids1, ids2)) by {
        reveal(both_labelings);
    }
    lemma_labeling_prefix_eq(alive, bonds, ids1, ids2, alive.len() as int);
    assert(ids1 =~= ids2);
}

/// Numbers the connected components of the bond graph among living particles.
///
/// A dead particle gets `-1`. Two living particles get the same number
/// exactly when a chain of bonds between living particles joins them, and the
/// numbers 0, 1, 2, ... go to the components in the order in which their first
/// member appears in the store.
pub fn assign_group_ids<F>(alive: &Vec<bool>, bonds: &Vec<Vec<(usize, F)>>) -> (ids: Vec<i32>)
    requires
        alive@.len() == bonds@.len(),
        alive@.len() < i32::MAX,
    ensures
        is_group_labeling(alive@, bonds@, ids@),
{
    let n = alive.len();
    let ghost al = alive@;
    let ghost bs = bonds@;
    let mut parent: Vec<usize> = Vec::new();
    let mut i: usize = 0;
    while i < n
        invariant
            0 <= i <= n,
            parent@.len() == i,
            forall|y: int| 0 <= y < i ==> parent@[y] == y,
        decreases n - i,
    {
        parent.push(i);
        i = i + 1;
    }
    let ghost mut h: Seq<int> = Seq::new(n as nat, |y: int| 0int);
    let ghost mut b: int = 0;
    assert(uf_wf(parent@, h, b));
    assert(uf_sound(parent@, al, bs));
    // Phase 1: merge the two ends of every bond between living particles.
    i = 0;
    while i < n
        invariant
            0 <= i <= n,
            n == alive@.len(),
            al == alive@,
            bs == bonds@,
            n == bonds@.len(),
            parent@.len() == n,
            uf_wf(parent@, h, b),
            uf_sound(parent@, al, bs),
            forall|i2: int, k2: int|
                0 <= i2 < i && 0 <= k2 < bs[i2]@.len() && al[i2] && (#[trigger] bs[i2]@[k2]).0 < n
                    && al[bs[i2]@[k2].0 as int] ==> root_of(parent@, h, b, i2) == root_of(
                    parent@,
                    h,
                    b,
                    bs[i2]@[k2].0 as int,
                ),
        decreases n - i,
    {
        if alive[i] {
            let m = bonds[i].len();
            let mut k: usize = 0;
            while k < m
                invariant
                    0 <= i < n,
                    0 <= k <= m,
                    m == bs[i as int]@.len(),
                    n == alive@.len(),
                    al == alive@,
                    bs == bonds@,
                    n == bonds@.len(),
                    al[i as int],
                    parent@.len() == n,
                    uf_wf(parent@, h, b),
                    uf_sound(parent@, al, bs),
                    forall|i2: int, k2: int|
                        (0 <= i2 < i || (i2 == i && 0 <= k2 < k)) && 0 <= k2 < bs[i2]@.len()
                            && al[i2] && (#[trigger] bs[i2]@[k2]).0 < n && al[bs[i2]@[k2].0 as int]
                            ==> root_of(parent@, h, b, i2) == root_of(
                            parent@,
                            h,
                            b,
                            bs[i2]@[k2].0 as int,
                        ),
                decreases m - k,
            {
                let j = bonds[i][k].0;
                if j < n && alive[j] {
                    let ghost p_before = parent@;
                    let ra = find::<F>(&mut parent, i, Ghost(h), Ghost(b), Ghost(al), Ghost(bs));
                    let rb = find::<F>(&mut parent, j, Ghost(h), Ghost(b), Ghost(al), Ghost(bs));
                    proof {
                        lemma_root::<()>(p_before, h, b, i as int);
                        lemma_root::<()>(p_before, h, b, j as int);
                    }
                    if ra != rb {
                        let ghost p_mid = parent@;
                        proof {
                            lemma_root::<()>(p_mid, h, b, ra as int);
                            lemma_root::<()>(p_mid, h, b, rb as int);
                            lemma_link(p_mid, h, b, ra as int, rb as int);
                            lemma_root_connected(p_mid, h, b, al, bs, i as int);
                            lemma_root_connected(p_mid, h, b, al, bs, j as int);
                            assert(bonded(al, bs, i as int, j as int));
                            assert(linked(al, bs, i as int, j as int));
                            lemma_linked_connected(al, bs, i as int, j as int);
                            lemma_connected_symm(al, bs, i as int, ra as int);
                            lemma_connected_trans(al, bs, ra as int, i as int, j as int);
                            lemma_connected_trans(al, bs, ra as int, j as int, rb as int);
                        }
                        parent.set(ra, rb);
                        proof {
                            let h2 = h.update(
                                rb as int,
                                if h[rb as int] > h[ra as int] {
                                    h[rb as int]
                                } else {
                                    h[ra as int] + 1
                                },
                            );
                            let b2 = if b > h2[rb as int] {
                                b
                            } else {
                                h2[rb as int]
                            };
                            assert(parent@ == p_mid.update(ra as int, rb));
                            assert forall|y: int|
                                0 <= y < parent@.len() && #[trigger] parent@[y] != y implies connected(
                                al,
                                bs,
                                y,
                                parent@[y] as int,
                            ) by {
                                if y != ra {
                                    assert(p_mid[y] != y);
                                }
                            }
                            assert forall|i2: int, k2: int|
                                (0 <= i2 < i || (i2 == i && 0 <= k2 < k + 1)) && 0 <= k2
                                    < bs[i2]@.len() && al[i2] && (#[trigger] bs[i2]@[k2]).0 < n
                                    && al[bs[i2]@[k2].0 as int] implies root_of(
                                parent@,
                                h2,
                                b2,
                                i2,
                            ) == root_of(parent@, h2, b2, bs[i2]@[k2].0 as int) by {
                                let j2 = bs[i2]@[k2].0 as int;
                                lemma_link_one(p_mid, h, b, ra as int, rb as int, i2);
                                lemma_link_one(p_mid, h, b, ra as int, rb as int, j2);
                                if i2 == i && k2 == k {
                                } else {
                                    assert(root_of(p_before, h, b, i2) == root_of(
                                        p_before,
                                        h,
                                        b,
                                        j2,
                                    ));
                                }
                            }
                            h = h2;
                            b = b2;
                        }
                    } else {
                        proof {
                            assert forall|i2: int, k2: int|
                                (0 <= i2 < i || (i2 == i && 0 <= k2 < k + 1)) && 0 <= k2
                                    < bs[i2]@.len() && al[i2] && (#[trigger] bs[i2]@[k2]).0 < n
                                    && al[bs[i2]@[k2].0 as int] implies root_of(
                                parent@,
                                h,
                                b,
                                i2,
                            ) == root_of(parent@, h, b, bs[i2]@[k2].0 as int) by {
                                let j2 = bs[i2]@[k2].0 as int;
                                if i2 == i && k2 == k {
                                } else {
                                    assert(root_of(p_before, h, b, i2) == root_of(
                                        p_before,
                                        h,
                                        b,
                                        j2,
                                    ));
                                }
                            }
                        }
                    }
                }
                k = k + 1;
            }
        }
        i = i + 1;
    }
    let ghost p1 = parent@;
    let ghost h1 = h;
    let ghost b1 = b;
    proof {
        assert forall|x: int, y: int| #[trigger] linked(al, bs, x, y) implies root_of(
            p1,
            h1,
            b1,
            x,
        ) == root_of(p1, h1, b1, y) by {
            if bonded(al, bs, x, y) {
                let k2 = choose|k: int| 0 <= k < bs[x]@.len() && #[trigger] bs[x]@[k].0 == y;
                assert(bs[x]@[k2].0 < n);
            } else {
                let k2 = choose|k: int| 0 <= k < bs[y]@.len() && #[trigger] bs[y]@[k].0 == x;
                assert(bs[y]@[k2].0 < n);
            }
        }
    }
    // Phase 2: number the roots in order of first appearance.
    let mut ids: Vec<i32> = Vec::new();
    let mut map: HashMap<usize, u32> = HashMap::new();
    let mut next: u32 = 0;
    i = 0;
    while i < n
        invariant
            0 <= i <= n,
            n == alive@.len(),
            al == alive@,
            bs == bonds@,
            n < i32::MAX,
            parent@.len() == n,
            p1.len() == n,
            uf_wf(p1, h1, b1),
            uf_sound(p1, al, bs),
            uf_wf(parent@, h1, b1),
            uf_sound(parent@, al, bs),
            forall|y: int|
                0 <= y < n ==> #[trigger] root_of(parent@, h1, b1, y) == root_of(p1, h1, b1, y),
            ids@.len() == i,
            next <= i,
            forall|j: int| 0 <= j < i ==> (#[trigger] ids@[j] == -1 <==> !al[j]),
            forall|j: int|
                0 <= j < i && al[j] ==> numbered(
                    map@,
                    root_of(p1, h1, b1, j) as usize,
                    #[trigger] ids@[j],
                ),
            forall|key: usize|
                #[trigger] map@.contains_key(key) ==> exists|j: int|
                    0 <= j < i && al[j] && root_of(p1, h1, b1, j) == key,
            forall|key: usize| #[trigger] map@.contains_key(key) ==> map@[key] < next,
            forall|k1: usize, k2: usize|
                #[trigger] map@.contains_key(k1) && #[trigger] map@.contains_key(k2) && k1 != k2
                    ==> map@[k1] != map@[k2],
            forall|v: u32| v < next ==> #[trigger] numbers_some_root(map@, v),
            forall|j: int|
                0 <= j < i && al[j] && #[trigger] ids@[j] > 0 ==> exists|j2: int|
                    0 <= j2 < j && al[j2] && #[trigger] ids@[j2] == ids@[j] - 1,
        decreases n - i,
    {
        if !alive[i] {
            let ghost ids0 = ids@;
            ids.push(-1);
            proof {
                assert forall|j: int| 0 <= j < i + 1 && al[j] implies numbered(
                    map@,
                    root_of(p1, h1, b1, j) as usize,
                    #[trigger] ids@[j],
                ) by {
                    assert(ids@[j] == ids0[j]);
                }
                assert forall|j: int|
                    0 <= j < i + 1 && al[j] && #[trigger] ids@[j] > 0 implies exists|j2: int|
                    0 <= j2 < j && al[j2] && #[trigger] ids@[j2] == ids@[j] - 1 by {
                    assert(ids@[j] == ids0[j]);
                    let j2 = choose|j2: int| 0 <= j2 < j && al[j2] && #[trigger] ids0[j2] == ids0[j] - 1;
                    assert(ids@[j2] == ids0[j2]);
                }
            }
        } else {
            let ghost map0 = map@;
            let ghost ids0 = ids@;
            let ghost next0 = next;
            let r = find::<F>(&mut parent, i, Ghost(h1), Ghost(b1), Ghost(al), Ghost(bs));
            proof {
                lemma_root::<()>(p1, h1, b1, i as int);
            }
            let gid: u32 = match map.get(&r) {
                Some(g) => *g,
                None => {
                    let g = next;
                    map.insert(r, g);
                    next = next + 1;
                    g
                },
            };
            ids.push(gid as i32);
            proof {
                let rr = root_of(p1, h1, b1, i as int);
                assert(r as int == rr);
                assert(map@.contains_key(r) && map@[r] == gid);
                assert(gid < next);
                assert forall|key: usize| #[trigger]
                    map0.contains_key(key) implies map@.contains_key(key) && map@[key]
                    == map0[key] by {}
                assert forall|j: int| 0 <= j < i + 1 && al[j] implies numbered(
                    map@,
                    root_of(p1, h1, b1, j) as usize,
                    #[trigger] ids@[j],
                ) by {
                    if j < i {
                        assert(ids@[j] == ids0[j]);
                    }
                }
                assert forall|key: usize| #[trigger]
                    map@.contains_key(key) implies exists|j: int|
                    0 <= j < i + 1 && al[j] && root_of(p1, h1, b1, j) == key by {
                    if key == r {
                        assert(root_of(p1, h1, b1, i as int) == key);
                    } else {
                        assert(map0.contains_key(key));
                    }
                }
                assert forall|k1: usize, k2: usize| #[trigger]
                    map@.contains_key(k1) && #[trigger] map@.contains_key(k2) && k1 != k2 implies map@[k1]
                    != map@[k2] by {
                    if k1 != r && k2 != r {
                        assert(map0.contains_key(k1) && map0.contains_key(k2));
                    } else if k1 == r && !map0.contains_key(r) {
                        assert(map0.contains_key(k2));
                    } else if k2 == r && !map0.contains_key(r) {
                        assert(map0.contains_key(k1));
                    }
                }
                assert forall|v: u32| v < next implies #[trigger] numbers_some_root(map@, v) by {
                    if v < next0 {
                        assert(numbers_some_root(map0, v));
                        let key = choose|key: usize|
                            #[trigger] map0.contains_key(key) && map0[key] == v;
                        assert(map@.contains_key(key) && map@[key] == v);
                    } else {
                        assert(map@.contains_key(r) && map@[r] == v);
                    }
                }
                if gid > 0 {
                    let v = (gid - 1) as u32;
                    assert(v < next0);
                    assert(numbers_some_root(map0, v));
                    let key = choose|key: usize| #[trigger] map0.contains_key(key) && map0[key] == v;
                    let j = choose|j: int| 0 <= j < i && al[j] && root_of(p1, h1, b1, j) == key;
                    assert(ids@[j] == ids0[j]);
                    assert(ids@[j] == ids@[i as int] - 1);
                }
                assert forall|j: int|
                    0 <= j < i + 1 && al[j] && #[trigger] ids@[j] > 0 implies exists|j2: int|
                    0 <= j2 < j && al[j2] && #[trigger] ids@[j2] == ids@[j] - 1 by {
                    if j < i {
                        assert(ids@[j] == ids0[j]);
                        let j2 = choose|j2: int| 0 <= j2 < j && al[j2] && #[trigger] ids0[j2] == ids0[j] - 1;
                        assert(ids@[j2] == ids0[j2]);
                    }
                }
            }
        }
        i = i + 1;
    }
    proof {
        assert forall|x: int, y: int|
            0 <= x < n && 0 <= y < n && al[x] && al[y] implies (#[trigger] ids@[x]
            == #[trigger] ids@[y] <==> connected(al, bs, x, y)) by {
            lemma_root::<()>(p1, h1, b1, x);
            lemma_root::<()>(p1, h1, b1, y);
            if ids@[x] == ids@[y] {
                assert(root_of(p1, h1, b1, x) == root_of(p1, h1, b1, y));
                lemma_root_connected(p1, h1, b1, al, bs, x);
                lemma_root_connected(p1, h1, b1, al, bs, y);
                lemma_connected_symm(al, bs, y, root_of(p1, h1, b1, y));
                lemma_connected_trans(al, bs, x, root_of(p1, h1, b1, x), y);
            }
            if connected(al, bs, x, y) {
                let path = choose|path: Seq<int>|
                    #[trigger] is_bond_path(al, bs, path) && path[0] == x && path.last() == y;
                lemma_path_same_root(p1, h1, b1, al, bs, path);
            }
        }
    }
    ids
}

impl<F, C, G> ParticleStore<F, C, G> {
    /// Sets every particle's group id to the number of its bond-connected
    /// component among living particles (-1 for dead particles).
    pub fn assign_groups(&mut self)
        requires
            old(self).wf(),
            old(self).count < i32::MAX,
        ensures
            final(self).wf(),
            is_group_labeling(old(self).alive@, old(self).bonds@, final(self).group_ids@),
            final(self).count == old(self).count,
            final(self).alive@ == old(self).alive@,
            final(self).bonds@ == old(self).bonds@,
            final(self).particle_ids@ == old(self).particle_ids@,
            final(self).x@ == old(self).x@,
            final(self).y@ == old(self).y@,
            final(self).vx@ == old(self).vx@,
            final(self).vy@ == old(self).vy@,
            final(self).energy@ == old(self).energy@,
            final(self).chem@ == old(self).chem@,
            final(self).genomes@ == old(self).genomes@,
            final(self).ages@ == old(self).ages@,
            final(self).parent_ids@ == old(self).parent_ids@,
            final(self).generations@ == old(self).generations@,
            final(self).roles@ == old(self).roles@,
            final(self).next_id == old(self).next_id,
    {
        let ids = assign_group_ids(&self.alive, &self.bonds);
        self.group_ids = ids;
    }
}

// ── Component sizes ─────────────────────────────────────────────────────────
/// Number of living particles among the first `k` that are connected to `i`.
pub open spec fn connected_count<F>(
    alive: Seq<bool>,
    bonds: Seq<Vec<(usize, F)>>,
    i: int,
    k: int,
) -> nat
    decreases k,
{
    if k <= 0 {
        0
    } else {
        connected_count(alive, bonds, i, k - 1) + if alive[k - 1] && connected(
            alive,
            bonds,
            i,
            k - 1,
        ) {
            1nat
        } else {
            0nat
        }
    }
}

/// Number of living particles in the bond-connected component of `i`.
pub open spec fn component_size<F>(alive: Seq<bool>, bonds: Seq<Vec<(usize, F)>>, i: int) -> nat {
    connected_count(alive, bonds, i, alive.len() as int)
}

/// `m` is the size of the largest component: no component is larger, some
/// living particle's component has size `m`, and `m` is 0 only without
/// living particles.
pub open spec fn is_largest_component<F>(
    alive: Seq<bool>,
    bonds: Seq<Vec<(usize, F)>>,
    m: nat,
) -> bool {
    &&& forall|i: int| 0 <= i < alive.len() && alive[i] ==> #[trigger] component_size(alive, bonds, i) <= m
    &&& m > 0 ==> exists|i: int|
        0 <= i < alive.len() && alive[i] && #[trigger] component_size(alive, bonds, i) == m
    &&& m == 0 ==> forall|i: int| 0 <= i < alive.len() ==> !#[trigger] alive[i]
}

/// Number of living particles among the first `k` labelled `v`.
spec fn label_count(alive: Seq<bool>, ids: Seq<i32>, v: int, k: int) -> nat
    decreases k,
{
    if k <= 0 {
        0
    } else {
        label_count(alive, ids, v, k - 1) + if alive[k - 1] && ids[k - 1] == v {
            1nat
        } else {
            0nat
        }
    }
}

proof fn lemma_label_count_is_size<F>(
    alive: Seq<bool>,
    bonds: Seq<Vec<(usize, F)>>,
    ids: Seq<i32>,
    i: int,
    k: int,
)
    requires
        is_group_labeling(alive, bonds, ids),
        0 <= i < alive.len(),
        alive[i],
        0 <= k <= alive.len(),
    ensures
        label_count(alive, ids, ids[i] as int, k) == connected_count(alive, bonds, i, k),
    decreases k,
{
    if k > 0 {
        lemma_label_count_is_size(alive, bonds, ids, i, k - 1);
        if alive[k - 1] {
            assert(ids[i] == ids[k - 1] <==> connected(alive, bonds, i, k - 1));
        }
    }
}

proof fn lemma_label_count_witness(alive: Seq<bool>, ids: Seq<i32>, v: int, k: int)
    requires
        label_count(alive, ids, v, k) > 0,
    ensures
        exists|j: int| 0 <= j < k && alive[j] && #[trigger] ids[j] == v,
    decreases k,
{
    if k > 0 && !(alive[k - 1] && ids[k - 1] == v) {
        lemma_label_count_witness(alive, ids, v, k - 1);
    }
}

proof fn lemma_label_count_le(alive: Seq<bool>, ids: Seq<i32>, v: int, k: int)
    requires
        0 <= k,
    ensures
        label_count(alive, ids, v, k) <= k,
    decreases k,
{
    if k > 0 {
        lemma_label_count_le(alive, ids, v, k - 1);
    }
}

/// Labels never exceed positions: the particle at `j` carries a label of at most `j`.
proof fn lemma_labels_bounded<F>(alive: Seq<bool>, bonds: Seq<Vec<(usize, F)>>, ids: Seq<i32>, k: int)
    requires
        is_group_labeling(alive, bonds, ids),
        0 <= k <= alive.len(),
    ensures
        forall|j: int| 0 <= j < k && alive[j] ==> #[trigger] ids[j] <= j,
        label_bound(alive, ids, k) <= k,
    decreases k,
{
    if k > 0 {
        lemma_labels_bounded(alive, bonds, ids, k - 1);
        let j = k - 1;
        if alive[j] {
            lemma_label_value(alive, bonds, ids, j);
            if exists|j2: int| 0 <= j2 < j && alive[j2] && #[trigger] connected(alive, bonds, j2, j) {
                let j2 = choose|j2: int| 0 <= j2 < j && alive[j2] && #[trigger] connected(alive, bonds, j2, j);
                assert(ids[j2] == ids[j]);
            }
        }
    }
}

/// How many living particles carry each label `0..n`.
fn label_counts<F>(alive: &Vec<bool>, bonds: &Vec<Vec<(usize, F)>>, ids: &Vec<i32>) -> (counts: Vec<
    usize,
>)
    requires
        alive@.len() == bonds@.len(),
        is_group_labeling(alive@, bonds@, ids@),
    ensures
        counts@.len() == alive@.len(),
        forall|u: int|
            0 <= u < alive@.len() ==> #[trigger] counts@[u] == label_count(
                alive@,
                ids@,
                u,
                alive@.len() as int,
            ),
{
    let n = alive.len();
    let ghost al = alive@;
    let ghost bs = bonds@;
    proof {
        lemma_labels_bounded(al, bs, ids@, n as int);
    }
    let mut counts: Vec<usize> = Vec::new();
    let mut v: usize = 0;
    while v < n
        invariant
            0 <= v <= n,
            counts@.len() == v,
            forall|u: int| 0 <= u < v ==> #[trigger] counts@[u] == 0,
        decreases n - v,
    {
        counts.push(0);
        v = v + 1;
    }
    let mut j: usize = 0;
    while j < n
        invariant
            n == al.len(),
            al == alive@,
            is_group_labeling(al, bs, ids@),
            forall|x: int| 0 <= x < n && al[x] ==> #[trigger] ids@[x] <= x,
            0 <= j <= n,
            counts@.len() == n,
            forall|u: int| 0 <= u < n ==> #[trigger] counts@[u] == label_count(al, ids@, u, j as int),
        decreases n - j,
    {
        proof {
            lemma_label_count_le(al, ids@, ids@[j as int] as int, j as int);
        }
        if alive[j] {
            let u = ids[j] as usize;
            assert(ids@[j as int] >= 0);
            counts.set(u, counts[u] + 1);
        }
        j = j + 1;
    }
    counts
}

/// Size of the largest bond-connected component among living particles (0
/// when none lives).
pub fn largest_group_size<F>(alive: &Vec<bool>, bonds: &Vec<Vec<(usize, F)>>) -> (m: usize)
    requires
        alive@.len() == bonds@.len(),
        alive@.len() < i32::MAX,
    ensures
        is_largest_component(alive@, bonds@, m as nat),
{
    let n = alive.len();
    let ghost al = alive@;
    let ghost bs = bonds@;
    let ids = assign_group_ids(alive, bonds);
    proof {
        lemma_labels_bounded(al, bs, ids@, n as int);
    }
    let counts = label_counts(alive, bonds, &ids);
    let mut m: usize = 0;
    let mut u: usize = 0;
    while u < n
        invariant
            counts@.len() == n,
            0 <= u <= n,
            forall|x: int| 0 <= x < u ==> #[trigger] counts@[x] <= m,
            m > 0 ==> exists|x: int| 0 <= x < u && #[trigger] counts@[x] == m,
        decreases n - u,
    {
        if counts[u] > m {
            m = counts[u];
        }
        u = u + 1;
    }
    proof {
        assert forall|i: int| 0 <= i < al.len() && al[i] implies #[trigger] component_size(al, bs, i)
            <= m by {
            lemma_label_count_is_size(al, bs, ids@, i, n as int);
            assert(counts@[ids@[i] as int] <= m);
        }
        if m > 0 {
            let x = choose|x: int| 0 <= x < n && #[trigger] counts@[x] == m;
            lemma_label_count_witness(al, ids@, x, n as int);
            let i = choose|i: int| 0 <= i < n && al[i] && #[trigger] ids@[i] == x;
            lemma_label_count_is_size(al, bs, ids@, i, n as int);
            assert(component_size(al, bs, i) == m);
        } else {
            assert forall|i: int| 0 <= i < al.len() implies !#[trigger] al[i] by {
                if al[i] {
                    lemma_label_count_is_size(al, bs, ids@, i, n as int);
                    lemma_connected_refl(al, bs, i);
                    lemma_connected_count_pos(al, bs, i, i, n as int);
                    assert(counts@[ids@[i] as int] <= m);
                }
            }
        }
    }
    m
}

proof fn lemma_connected_count_pos<F>(
    alive: Seq<bool>,
    bonds: Seq<Vec<(usize, F)>>,
    i: int,
    j: int,
    k: int,
)
    requires
        0 <= j < k,
        alive[j],
        connected(alive, bonds, i, j),
    ensures
        connected_count(alive, bonds, i, k) > 0,
    decreases k,
{
    if j < k - 1 {
        lemma_connected_count_pos(alive, bonds, i, j, k - 1);
    }
}

// ── Colonies ────────────────────────────────────────────────────────────────
/// `c` gives each of the organisms joined by `links` its colony: organisms
/// linked, directly or through others, into a group of two or more share a
/// colony number below `k`, each number below `k` is used, distinct groups
/// have distinct numbers, and a lone organism has none (-1). Which group gets
/// which number is left open.
pub open spec fn is_colony_labeling<F>(links: Seq<Vec<(usize, F)>>, c: Seq<i32>, k: nat) -> bool {
    let a = all_true(links.len() as int);
    &&& c.len() == links.len()
    &&& forall|i: int|
        0 <= i < c.len() ==> (#[trigger] c[i] == -1 <==> component_size(a, links, i) < 2)
    &&& forall|i: int| 0 <= i < c.len() ==> -1 <= #[trigger] c[i] < k
    &&& forall|i: int, j: int|
        0 <= i < c.len() && 0 <= j < c.len() && c[i] >= 0 && c[j] >= 0 ==> (#[trigger] c[i]
            == #[trigger] c[j] <==> connected(a, links, i, j))
    &&& forall|v: int| 0 <= v < k ==> #[trigger] number_used(c, v)
}

/// Some entry of `c` is `v`.
pub open spec fn number_used(c: Seq<i32>, v: int) -> bool {
    exists|i: int| 0 <= i < c.len() && #[trigger] c[i] == v
}

/// Some label below `v` with at least two members got colony number `w`.
spec fn colony_given(colony_of: Seq<i32>, counts: Seq<usize>, v: int, w: int) -> bool {
    exists|u: int| 0 <= u < v && counts[u] >= 2 && #[trigger] colony_of[u] == w
}

/// Groups organisms into colonies along `links` (the organisms each one is
/// linked to); returns each organism's colony (-1 for a lone organism) and
/// the number of colonies `k`. The colonies carry the numbers `0..k`; which
/// colony gets which number is left open.
pub fn assign_colonies<F>(links: &Vec<Vec<(usize, F)>>) -> (r: (Vec<i32>, usize))
    requires
        links@.len() < i32::MAX,
    ensures
        is_colony_labeling(links@, r.0@, r.1 as nat),
{
    let n = links.len();
    let ghost ls = links@;
    let mut alive: Vec<bool> = Vec::new();
    let mut i: usize = 0;
    while i < n
        invariant
            0 <= i <= n,
            alive@ == all_true(i as int),
        decreases n - i,
    {
        alive.push(true);
        i = i + 1;
        assert(alive@ =~= all_true(i as int));
    }
    let ghost al = alive@;
    let ids = assign_group_ids(&alive, links);
    let counts = label_counts(&alive, links, &ids);
    proof {
        lemma_labels_bounded(al, ls, ids@, n as int);
    }
    let mut colony_of: Vec<i32> = Vec::new();
    let mut k: usize = 0;
    let mut v: usize = 0;
    while v < n
        invariant
            n == ls.len(),
            n < i32::MAX,
            counts@.len() == n,
            0 <= k <= v <= n,
            colony_of@.len() == v,
            forall|u: int| 0 <= u < v ==> (#[trigger] colony_of@[u] == -1 <==> counts@[u] < 2),
            forall|u: int| 0 <= u < v ==> -1 <= #[trigger] colony_of@[u] < k,
            forall|u1: int, u2: int|
                0 <= u1 < u2 < v && colony_of@[u1] >= 0 && colony_of@[u2] >= 0 ==> #[trigger] colony_of@[u1]
                    < #[trigger] colony_of@[u2],
            forall|w: int| 0 <= w < k ==> #[trigger] colony_given(colony_of@, counts@, v as int, w),
        decreases n - v,
    {
        let ghost old_of = colony_of@;
        if counts[v] >= 2 {
            colony_of.push(k as i32);
            proof {
                assert(colony_of@[v as int] == k);
                assert forall|w: int| 0 <= w < k + 1 implies #[trigger] colony_given(
                    colony_of@,
                    counts@,
                    v + 1,
                    w,
                ) by {
                    if w < k {
                        assert(colony_given(old_of, counts@, v as int, w));
                        let u = choose|u: int| 0 <= u < v && counts@[u] >= 2 && #[trigger] old_of[u] == w;
                        assert(colony_of@[u] == w);
                    } else {
                        assert(colony_of@[v as int] == w);
                    }
                }
            }
            k = k + 1;
        } else {
            colony_of.push(-1);
            proof {
                assert forall|w: int| 0 <= w < k implies #[trigger] colony_given(
                    colony_of@,
                    counts@,
                    v + 1,
                    w,
                ) by {
                    assert(colony_given(old_of, counts@, v as int, w));
                    let u = choose|u: int| 0 <= u < v && counts@[u] >= 2 && #[trigger] old_of[u] == w;
                    assert(colony_of@[u] == w);
                }
            }
        }
        v = v + 1;
    }
    let mut c: Vec<i32> = Vec::new();
    let mut j: usize = 0;
    while j < n
        invariant
            n == ls.len(),
            al == all_true(n as int),
            ids@.len() == n,
            forall|x: int| 0 <= x < n && al[x] ==> #[trigger] ids@[x] <= x,
            is_group_labeling(al, ls, ids@),
            colony_of@.len() == n,
            0 <= j <= n,
            c@.len() == j,
            forall|x: int| 0 <= x < j ==> #[trigger] c@[x] == colony_of@[ids@[x] as int],
        decreases n - j,
    {
        assert(al[j as int]);
        assert(ids@[j as int] >= 0);
        c.push(colony_of[ids[j] as usize]);
        j = j + 1;
    }
    proof {
        assert forall|x: int| 0 <= x < n implies (#[trigger] c@[x] == -1 <==> component_size(al, ls, x)
            < 2) by {
            assert(al[x]);
            lemma_label_count_is_size(al, ls, ids@, x, n as int);
        }
        assert forall|x: int| 0 <= x < n implies -1 <= #[trigger] c@[x] < k by {
            assert(al[x]);
        }
        assert forall|x: int, y: int|
            0 <= x < n && 0 <= y < n && c@[x] >= 0 && c@[y] >= 0 implies (#[trigger] c@[x]
            == #[trigger] c@[y] <==> connected(al, ls, x, y)) by {
            assert(al[x] && al[y]);
            let gx = ids@[x] as int;
            let gy = ids@[y] as int;
            if gx < gy {
                assert(colony_of@[gx] < colony_of@[gy]);
            } else if gy < gx {
                assert(colony_of@[gy] < colony_of@[gx]);
            }
        }
        assert forall|w: int| 0 <= w < k implies #[trigger] number_used(c@, w) by {
            assert(colony_given(colony_of@, counts@, n as int, w));
            let u = choose|u: int| 0 <= u < n && counts@[u] >= 2 && #[trigger] colony_of@[u] == w;
            lemma_label_count_witness(al, ids@, u, n as int);
            let x = choose|x: int| 0 <= x < n && al[x] && #[trigger] ids@[x] == u;
            assert(c@[x] == w);
        }
    }
    (c, k)
}

// ── Grouping and compaction ─────────────────────────────────────────────────
/// A mask of `n` living particles.
pub open spec fn all_true(n: int) -> Seq<bool> {
    Seq::new(n as nat, |i: int| true)
}

/// The survivor that lands at index `i` when a store with liveness `a` is
/// compacted.
spec fn source_of(a: Seq<bool>, i: int) -> int {
    choose|r: int| 0 <= r < a.len() && a[r] && alive_before(a, r) == i
}

proof fn lemma_source_of(a: Seq<bool>, i: int)
    requires
        0 <= i < alive_before(a, a.len() as int),
    ensures
        0 <= source_of(a, i) < a.len(),
        a[source_of(a, i)],
        alive_before(a, source_of(a, i)) == i,
{
    lemma_keep_len(a, a);
    lemma_keep_source(a, a, i);
}

/// Distinct survivors land at distinct indices.
proof fn lemma_landing_injective(a: Seq<bool>, r: int, q: int)
    requires
        0 <= r < a.len(),
        0 <= q < a.len(),
        a[r],
        a[q],
        alive_before(a, r) == alive_before(a, q),
    ensures
        r == q,
{
    if r < q {
        lemma_alive_before_mono(a, r, q);
    } else if q < r {
        lemma_alive_before_mono(a, q, r);
    }
}

proof fn lemma_landing_in_range(a: Seq<bool>, r: int)
    requires
        0 <= r < a.len(),
        a[r],
    ensures
        alive_before(a, r) < alive_before(a, a.len() as int),
{
    lemma_keep_index(a, a, r);
    lemma_keep_len(a, a);
}

/// A bond to a surviving partner is kept, renumbered, by compaction.
proof fn lemma_remap_keeps_bond<F>(b: Seq<(usize, F)>, a: Seq<bool>, k: int)
    requires
        0 <= k < b.len(),
        (b[k].0 as int) < a.len(),
        a[b[k].0 as int],
        a.len() <= usize::MAX,
    ensures
        exists|k2: int|
            0 <= k2 < remap_bonds(b, a).len() && #[trigger] remap_bonds(b, a)[k2].0 as int
                == alive_before(a, b[k].0 as int),
    decreases b.len(),
{
    let rest = remap_bonds(b.drop_last(), a);
    if k < b.len() - 1 {
        lemma_remap_keeps_bond(b.drop_last(), a, k);
        let k2 = choose|k2: int|
            0 <= k2 < rest.len() && #[trigger] rest[k2].0 as int == alive_before(a, b.drop_last()[k].0 as int);
        assert(remap_bonds(b, a)[k2] == rest[k2]);
    } else {
        crate::particle_store::lemma_alive_before_bounds(a, b[k].0 as int);
        assert(remap_bonds(b, a)[rest.len() as int].0 as int == alive_before(a, b[k].0 as int));
    }
}

/// The compacted bond lists of survivors: `nb[i]` is the renumbered list of
/// the survivor landing at `i`.
pub open spec fn is_compacted_bonds<F>(
    alive: Seq<bool>,
    bonds: Seq<Vec<(usize, F)>>,
    nb: Seq<Vec<(usize, F)>>,
) -> bool {
    &&& nb.len() == alive_before(alive, alive.len() as int)
    &&& forall|i: int| 0 <= i < nb.len() ==> #[trigger] nb[i]@ == remap_bonds(keep(bonds, alive)[i]@, alive)
}

proof fn lemma_bond_forward<F>(
    alive: Seq<bool>,
    bonds: Seq<Vec<(usize, F)>>,
    nb: Seq<Vec<(usize, F)>>,
    r: int,
    q: int,
)
    requires
        alive.len() == bonds.len() <= usize::MAX,
        is_compacted_bonds(alive, bonds, nb),
        bonded(alive, bonds, r, q),
    ensures
        bonded(all_true(nb.len() as int), nb, alive_before(alive, r) as int, alive_before(alive, q) as int),
{
    let k = choose|k: int| 0 <= k < bonds[r]@.len() && #[trigger] bonds[r]@[k].0 == q;
    lemma_keep_index(bonds, alive, r);
    lemma_keep_len(bonds, alive);
    lemma_landing_in_range(alive, q);
    lemma_remap_keeps_bond(bonds[r]@, alive, k);
    let i = alive_before(alive, r) as int;
    assert(nb[i]@ == remap_bonds(bonds[r]@, alive));
    let k2 = choose|k2: int|
        0 <= k2 < remap_bonds(bonds[r]@, alive).len() && #[trigger] remap_bonds(bonds[r]@, alive)[k2].0 as int
            == alive_before(alive, bonds[r]@[k].0 as int);
    assert(nb[i]@[k2].0 == alive_before(alive, q));
}

proof fn lemma_bond_backward<F>(
    alive: Seq<bool>,
    bonds: Seq<Vec<(usize, F)>>,
    nb: Seq<Vec<(usize, F)>>,
    i: int,
    j: int,
)
    requires
        alive.len() == bonds.len() <= usize::MAX,
        is_compacted_bonds(alive, bonds, nb),
        bonded(all_true(nb.len() as int), nb, i, j),
    ensures
        bonded(alive, bonds, source_of(alive, i), source_of(alive, j)),
{
    let t = all_true(nb.len() as int);
    lemma_source_of(alive, i);
    lemma_source_of(alive, j);
    let r = source_of(alive, i);
    lemma_keep_index(bonds, alive, r);
    assert(nb[i]@ == remap_bonds(bonds[r]@, alive));
    let k = choose|k: int| 0 <= k < nb[i]@.len() && #[trigger] nb[i]@[k].0 == j;
    lemma_remap_source(bonds[r]@, alive, k);
    let (q0, w) = remap_bonds(bonds[r]@, alive)[k];
    let tt = choose|tt: int|
        0 <= tt < bonds[r]@.len() && (bonds[r]@[tt].0 as int) < alive.len() && alive[bonds[r]@[tt].0 as int]
            && #[trigger] bonds[r]@[tt].1 == w && q0 as int == alive_before(alive, bonds[r]@[tt].0 as int);
    let p = bonds[r]@[tt].0 as int;
    lemma_landing_injective(alive, p, source_of(alive, j));
    assert(bonds[r]@[tt].0 == source_of(alive, j));
}

proof fn lemma_connected_forward<F>(
    alive: Seq<bool>,
    bonds: Seq<Vec<(usize, F)>>,
    nb: Seq<Vec<(usize, F)>>,
    r: int,
    q: int,
)
    requires
        alive.len() == bonds.len() <= usize::MAX,
        is_compacted_bonds(alive, bonds, nb),
        0 <= r < alive.len(),
        alive[r],
        connected(alive, bonds, r, q),
    ensures
        connected(all_true(nb.len() as int), nb, alive_before(alive, r) as int, alive_before(alive, q) as int),
{
    let t = all_true(nb.len() as int);
    let p = choose|path: Seq<int>| #[trigger] is_bond_path(alive, bonds, path) && path[0] == r && path.last() == q;
    let p2 = Seq::new(p.len(), |k: int| alive_before(alive, p[k]) as int);
    assert forall|k: int| 0 <= k < p2.len() - 1 implies #[trigger] linked(t, nb, p2[k], p2[k + 1]) by {
        assert(linked(alive, bonds, p[k], p[k + 1]));
        if bonded(alive, bonds, p[k], p[k + 1]) {
            lemma_bond_forward(alive, bonds, nb, p[k], p[k + 1]);
        } else {
            lemma_bond_forward(alive, bonds, nb, p[k + 1], p[k]);
        }
    }
    assert(is_bond_path(t, nb, p2));
}

proof fn lemma_connected_backward<F>(
    alive: Seq<bool>,
    bonds: Seq<Vec<(usize, F)>>,
    nb: Seq<Vec<(usize, F)>>,
    i: int,
    j: int,
)
    requires
        alive.len() == bonds.len() <= usize::MAX,
        is_compacted_bonds(alive, bonds, nb),
        0 <= i < nb.len(),
        connected(all_true(nb.len() as int), nb, i, j),
    ensures
        connected(alive, bonds, source_of(alive, i), source_of(alive, j)),
{
    let t = all_true(nb.len() as int);
    let p2 = choose|path: Seq<int>| #[trigger] is_bond_path(t, nb, path) && path[0] == i && path.last() == j;
    let p = Seq::new(p2.len(), |k: int| source_of(alive, p2[k]));
    assert forall|k: int| 0 <= k < p.len() - 1 implies #[trigger] linked(alive, bonds, p[k], p[k + 1]) by {
        assert(linked(t, nb, p2[k], p2[k + 1]));
        if bonded(t, nb, p2[k], p2[k + 1]) {
            lemma_bond_backward(alive, bonds, nb, p2[k], p2[k + 1]);
        } else {
            lemma_bond_backward(alive, bonds, nb, p2[k + 1], p2[k]);
        }
    }
    assert(is_bond_path(alive, bonds, p));
}

/// Grouping commutes with compaction: numbering the groups of a compacted
/// store gives each survivor the number it had before compaction.
pub proof fn lemma_groups_survive_compaction<F>(
    alive: Seq<bool>,
    bonds: Seq<Vec<(usize, F)>>,
    ids: Seq<i32>,
    new_bonds: Seq<Vec<(usize, F)>>,
    new_ids: Seq<i32>,
)
    requires
        alive.len() == bonds.len() <= usize::MAX,
        is_group_labeling(alive, bonds, ids),
        is_compacted_bonds(alive, bonds, new_bonds),
        is_group_labeling(all_true(new_bonds.len() as int), new_bonds, new_ids),
    ensures
        new_ids == keep(ids, alive),
{
    let n2 = new_bonds.len() as int;
    let t = all_true(n2);
    let l = keep(ids, alive);
    lemma_keep_len(ids, alive);
    assert forall|i: int| 0 <= i < n2 implies #[trigger] l[i] == ids[source_of(alive, i)] by {
        lemma_source_of(alive, i);
        lemma_keep_index(ids, alive, source_of(alive, i));
    }
    assert(is_group_labeling(t, new_bonds, l)) by {
        assert forall|i: int| 0 <= i < t.len() implies (#[trigger] l[i] == -1 <==> !t[i]) by {
            lemma_source_of(alive, i);
        }
        assert forall|i: int| 0 <= i < t.len() && t[i] implies #[trigger] l[i] >= 0 by {
            lemma_source_of(alive, i);
        }
        assert forall|i: int, j: int|
            0 <= i < t.len() && 0 <= j < t.len() && t[i] && t[j] implies (#[trigger] l[i]
            == #[trigger] l[j] <==> connected(t, new_bonds, i, j)) by {
            lemma_source_of(alive, i);
            lemma_source_of(alive, j);
            let r = source_of(alive, i);
            let q = source_of(alive, j);
            if connected(t, new_bonds, i, j) {
                lemma_connected_backward(alive, bonds, new_bonds, i, j);
            }
            if ids[r] == ids[q] {
                lemma_connected_forward(alive, bonds, new_bonds, r, q);
            }
        }
        assert forall|i: int| 0 <= i < t.len() && t[i] && #[trigger] l[i] > 0 implies exists|j: int|
            0 <= j < i && t[j] && #[trigger] l[j] == l[i] - 1 by {
            lemma_source_of(alive, i);
            let r = source_of(alive, i);
            let q = choose|q: int| 0 <= q < r && alive[q] && #[trigger] ids[q] == ids[r] - 1;
            lemma_alive_before_mono(alive, q, r);
            lemma_landing_in_range(alive, q);
            let j = alive_before(alive, q) as int;
            lemma_source_of(alive, j);
            lemma_landing_injective(alive, q, source_of(alive, j));
            assert(l[j] == ids[q]);
        }
    }
    lemma_group_labeling_unique(t, new_bonds, new_ids, l);
}

} // verus!
