//! The bond graph of the particle store: which pairs may bond, forming bonds
//! on both sides, and breaking them on both sides.
//!
//! Particle `i` lists its bonds as `(partner index, strength)` pairs. The bond
//! system keeps the lists symmetric: `i` lists `j` exactly as often as `j`
//! lists `i`. Distances and strengths are real numbers; the caller decides
//! with them which pairs bond or break and hands the decision to these
//! functions.
use vstd::prelude::*;
use crate::particle_store::{
    alive_before, keep, lemma_alive_before_mono, lemma_keep_len, lemma_keep_source, remap_bonds,
};

verus! {

broadcast use vstd::seq_lib::to_multiset_build, vstd::seq_lib::to_multiset_remove,
    vstd::seq_lib::to_multiset_update;

/// Most bonds a particle may have before it forms a new one.
pub const MAX_BONDS: usize = 4;

/// The bond lists of a store, each taken by its contents.
pub open spec fn bond_lists<F>(bonds: Seq<Vec<(usize, F)>>) -> Seq<Seq<(usize, F)>> {
    bonds.map_values(|v: Vec<(usize, F)>| v@)
}

/// The partner indices of a bond list, in order.
pub open spec fn partners<F>(s: Seq<(usize, F)>) -> Seq<usize> {
    s.map_values(|p: (usize, F)| p.0)
}

/// How often a bond list names partner `x`.
pub open spec fn partner_count<F>(s: Seq<(usize, F)>, x: usize) -> nat {
    partners(s).to_multiset().count(x)
}

/// Every particle lists each other particle exactly as often as that one lists it.
pub open spec fn symmetric<F>(bs: Seq<Seq<(usize, F)>>) -> bool {
    forall|i: usize, j: usize|
        #![trigger partner_count(bs[i as int], j)]
        i < bs.len() && j < bs.len() ==> partner_count(bs[i as int], j) == partner_count(
            bs[j as int],
            i,
        )
}

/// No particle names itself as a partner.
pub open spec fn no_self_bonds<F>(bs: Seq<Seq<(usize, F)>>) -> bool {
    forall|i: int, k: int| 0 <= i < bs.len() && 0 <= k < bs[i].len() ==> #[trigger] bs[i][k].0 != i
}

// ── Forming bonds ───────────────────────────────────────────────────────────
/// Whether particles `i` and `j` may form a bond: `j` comes after `i`, both
/// are alive, each has fewer than `MAX_BONDS` bonds, and they are not bonded yet.
pub open spec fn spec_may_bond<F>(bs: Seq<Seq<(usize, F)>>, alive: Seq<bool>, i: int, j: int) -> bool {
    &&& i < j
    &&& alive[i]
    &&& alive[j]
    &&& bs[i].len() < MAX_BONDS
    &&& bs[j].len() < MAX_BONDS
    &&& !partners(bs[i]).contains(j as usize)
}

/// Whether particles `i` and `j` are candidates for a new bond.
pub fn may_bond<F>(bonds: &Vec<Vec<(usize, F)>>, alive: &Vec<bool>, i: usize, j: usize) -> (b: bool)
    requires
        alive@.len() == bonds@.len(),
        i < bonds@.len(),
        j < bonds@.len(),
    ensures
        b == spec_may_bond(bond_lists(bonds@), alive@, i as int, j as int),
{
    if j <= i || !alive[i] || !alive[j] || bonds[i].len() >= MAX_BONDS || bonds[j].len()
        >= MAX_BONDS {
        return false;
    }
    let row = &bonds[i];
    let mut k: usize = 0;
    while k < row.len()
        invariant
            alive@.len() == bonds@.len(),
            i < j < bonds@.len(),
            alive@[i as int] && alive@[j as int],
            bonds@[i as int]@.len() < MAX_BONDS && bonds@[j as int]@.len() < MAX_BONDS,
            row@ == bonds@[i as int]@,
            0 <= k <= row@.len(),
            forall|q: int| 0 <= q < k ==> row@[q].0 != j,
        decreases row@.len() - k,
    {
        if row[k].0 == j {
            assert(partners(row@)[k as int] == j);
            assert(partners(row@).contains(j));
            return false;
        }
        k = k + 1;
    }
    assert(!partners(row@).contains(j));
    true
}

/// Lists after bond `e = (i, j, strength)` is formed: `i` lists `j`, then `j` lists `i`.
pub open spec fn apply_bond<F>(bs: Seq<Seq<(usize, F)>>, e: (usize, usize, F)) -> Seq<
    Seq<(usize, F)>,
> {
    let b1 = bs.update(e.0 as int, bs[e.0 as int].push((e.1, e.2)));
    b1.update(e.1 as int, b1[e.1 as int].push((e.0, e.2)))
}

/// Lists after the first `k` bonds of `es` are formed, in order.
pub open spec fn apply_bonds<F>(bs: Seq<Seq<(usize, F)>>, es: Seq<(usize, usize, F)>, k: int) -> Seq<
    Seq<(usize, F)>,
>
    decreases k,
{
    if k <= 0 {
        bs
    } else {
        apply_bond(apply_bonds(bs, es, k - 1), es[k - 1])
    }
}

/// Whether every bond of `es` joins two particles of a store of `n`.
pub open spec fn bonds_in_range<F>(es: Seq<(usize, usize, F)>, n: int) -> bool {
    forall|k: int| 0 <= k < es.len() ==> #[trigger] es[k].0 < n && es[k].1 < n
}

/// Forms each bond `(i, j, strength)` of `new_bonds` on both sides, in order.
pub fn form_bonds<F: Copy>(bonds: &mut Vec<Vec<(usize, F)>>, new_bonds: &Vec<(usize, usize, F)>)
    requires
        bonds_in_range(new_bonds@, old(bonds)@.len() as int),
    ensures
        final(bonds)@.len() == old(bonds)@.len(),
        bond_lists(final(bonds)@) == apply_bonds(
            bond_lists(old(bonds)@),
            new_bonds@,
            new_bonds@.len() as int,
        ),
{
    let mut k: usize = 0;
    while k < new_bonds.len()
        invariant
            bonds_in_range(new_bonds@, old(bonds)@.len() as int),
            bonds@.len() == old(bonds)@.len(),
            0 <= k <= new_bonds@.len(),
            bond_lists(bonds@) == apply_bonds(bond_lists(old(bonds)@), new_bonds@, k as int),
        decreases new_bonds@.len() - k,
    {
        let (i, j, s) = new_bonds[k];
        assert(new_bonds@[k as int].0 < old(bonds)@.len());
        let ghost before = bond_lists(bonds@);
        bonds[i].push((j, s));
        bonds[j].push((i, s));
        k = k + 1;
        assert(bond_lists(bonds@) =~= apply_bond(before, (i, j, s)));
    }
}

proof fn lemma_partners_push<F>(s: Seq<(usize, F)>, p: (usize, F), x: usize)
    ensures
        partner_count(s.push(p), x) == partner_count(s, x) + if p.0 == x {
            1nat
        } else {
            0nat
        },
{
    broadcast use vstd::multiset::group_multiset_axioms;

    assert(partners(s.push(p)) =~= partners(s).push(p.0));
}

proof fn lemma_apply_bond_symmetric<F>(bs: Seq<Seq<(usize, F)>>, e: (usize, usize, F))
    requires
        symmetric(bs),
        e.0 < bs.len(),
        e.1 < bs.len(),
    ensures
        symmetric(apply_bond(bs, e)),
        apply_bond(bs, e).len() == bs.len(),
{
    let r = apply_bond(bs, e);
    let b1 = bs.update(e.0 as int, bs[e.0 as int].push((e.1, e.2)));
    assert forall|a: usize, b: usize| a < r.len() && b < r.len() implies #[trigger] partner_count(
        r[a as int],
        b,
    ) == partner_count(r[b as int], a) by {
        lemma_partners_push(bs[e.0 as int], (e.1, e.2), b);
        lemma_partners_push(bs[e.0 as int], (e.1, e.2), a);
        lemma_partners_push(b1[e.1 as int], (e.0, e.2), b);
        lemma_partners_push(b1[e.1 as int], (e.0, e.2), a);
        lemma_partners_push(bs[e.1 as int], (e.0, e.2), b);
        lemma_partners_push(bs[e.1 as int], (e.0, e.2), a);
        assert(partner_count(bs[a as int], b) == partner_count(bs[b as int], a));
    }
}

/// Forming bonds keeps the bond lists symmetric.
pub proof fn lemma_form_bonds_symmetric<F>(
    bs: Seq<Seq<(usize, F)>>,
    es: Seq<(usize, usize, F)>,
    k: int,
)
    requires
        symmetric(bs),
        bonds_in_range(es, bs.len() as int),
        0 <= k <= es.len(),
    ensures
        symmetric(apply_bonds(bs, es, k)),
        apply_bonds(bs, es, k).len() == bs.len(),
    decreases k,
{
    if k > 0 {
        lemma_form_bonds_symmetric(bs, es, k - 1);
        assert(es[k - 1].0 < bs.len() && es[k - 1].1 < bs.len());
        lemma_apply_bond_symmetric(apply_bonds(bs, es, k - 1), es[k - 1]);
    }
}

// ── Compaction ──────────────────────────────────────────────────────────────
/// Renumbering a bond list for compaction keeps, for each surviving partner,
/// how often the list names it.
proof fn lemma_remap_count<F>(b: Seq<(usize, F)>, a: Seq<bool>, q: int)
    requires
        0 <= q < a.len() <= usize::MAX,
        a[q],
    ensures
        partner_count(remap_bonds(b, a), alive_before(a, q) as usize) == partner_count(
            b,
            q as usize,
        ),
    decreases b.len(),
{
    if b.len() > 0 {
        let t = b.drop_last();
        lemma_remap_count(t, a, q);
        let e = b.last();
        let p = e.0;
        let qa = alive_before(a, q) as usize;
        assert(b =~= t.push(e));
        lemma_partners_push(t, e, q as usize);
        lemma_alive_before_bounds_le(a, q);
        assert(qa as int == alive_before(a, q));
        if (p as int) < a.len() && a[p as int] {
            let pa = alive_before(a, p as int) as usize;
            lemma_alive_before_bounds_le(a, p as int);
            assert(pa as int == alive_before(a, p as int));
            assert(remap_bonds(b, a) == remap_bonds(t, a).push((pa, e.1)));
            lemma_partners_push(remap_bonds(t, a), (pa, e.1), qa);
            if p as int != q {
                if (p as int) < q {
                    lemma_alive_before_mono(a, p as int, q);
                } else {
                    lemma_alive_before_mono(a, q, p as int);
                }
                assert(pa != qa);
            }
        } else {
            assert(remap_bonds(b, a) == remap_bonds(t, a));
            assert(p != q as usize);
        }
    } else {
        let qa = alive_before(a, q) as usize;
        vstd::seq_lib::to_multiset_contains(partners(b), q as usize);
        vstd::seq_lib::to_multiset_contains(partners(remap_bonds(b, a)), qa);
    }
}

proof fn lemma_alive_before_bounds_le(a: Seq<bool>, k: int)
    requires
        0 <= k <= a.len() <= usize::MAX,
    ensures
        alive_before(a, k) <= k,
{
    crate::particle_store::lemma_alive_before_bounds(a, k);
}

/// Compaction keeps the bond lists symmetric: where the bonds of a store are
/// symmetric, so are the renumbered bonds of its survivors.
pub proof fn lemma_compact_keeps_symmetry<F>(
    bonds: Seq<Vec<(usize, F)>>,
    alive: Seq<bool>,
    new_bonds: Seq<Vec<(usize, F)>>,
)
    requires
        bonds.len() == alive.len() <= usize::MAX,
        symmetric(bond_lists(bonds)),
        new_bonds.len() == alive_before(alive, alive.len() as int),
        forall|i: int|
            0 <= i < new_bonds.len() ==> #[trigger] new_bonds[i]@ == remap_bonds(
                keep(bonds, alive)[i]@,
                alive,
            ),
    ensures
        symmetric(bond_lists(new_bonds)),
{
    let l = bond_lists(new_bonds);
    let bl = bond_lists(bonds);
    lemma_keep_len(bonds, alive);
    assert forall|x: usize, y: usize| x < l.len() && y < l.len() implies #[trigger] partner_count(
        l[x as int],
        y,
    ) == partner_count(l[y as int], x) by {
        lemma_keep_source(bonds, alive, x as int);
        let r = choose|r: int|
            0 <= r < bonds.len() && alive[r] && alive_before(alive, r) == x && #[trigger] bonds[r]
                == keep(bonds, alive)[x as int];
        lemma_keep_source(bonds, alive, y as int);
        let q = choose|q: int|
            0 <= q < bonds.len() && alive[q] && alive_before(alive, q) == y && #[trigger] bonds[q]
                == keep(bonds, alive)[y as int];
        lemma_remap_count(bonds[r]@, alive, q);
        lemma_remap_count(bonds[q]@, alive, r);
        assert(l[x as int] == remap_bonds(bonds[r]@, alive));
        assert(l[y as int] == remap_bonds(bonds[q]@, alive));
        assert(alive_before(alive, q) as usize == y);
        assert(alive_before(alive, r) as usize == x);
        assert(bl[r] == bonds[r]@);
        assert(bl[q] == bonds[q]@);
        assert(partner_count(bl[(r as usize) as int], q as usize) == partner_count(bl[(q as usize) as int], r as usize));
    }
}

// ── Breaking bonds ──────────────────────────────────────────────────────────
/// Whether a bond to `partner` is broken regardless of distance and
/// strength: the partner is not a particle of the store, or is dead.
pub fn is_stale_partner(alive: &Vec<bool>, partner: usize) -> (b: bool)
    ensures
        b == (partner >= alive@.len() || !alive@[partner as int]),
{
    partner >= alive.len() || !alive[partner]
}

/// `s` without its element at `b`, the last element taking its place.
pub open spec fn swap_removed<A>(s: Seq<A>, b: int) -> Seq<A> {
    s.update(b, s.last()).drop_last()
}

/// Lists after particle `i` drops its bond at position `b`: the bond leaves
/// `i`'s list, and the partner, when it is a particle of the store, drops the
/// first entry that names `i`.
pub open spec fn break_one<F>(bs: Seq<Seq<(usize, F)>>, i: int, b: int) -> Seq<Seq<(usize, F)>> {
    let j = bs[i][b].0;
    let b1 = bs.update(i, swap_removed(bs[i], b));
    if j < bs.len() {
        match partners(b1[j as int]).index_of_first(i as usize) {
            Some(p) => b1.update(j as int, swap_removed(b1[j as int], p)),
            None => b1,
        }
    } else {
        b1
    }
}

/// Lists after particle `i` drops the bonds at positions `doomed[k - 1]`,
/// ..., `doomed[0]`, in that order.
pub open spec fn break_all<F>(bs: Seq<Seq<(usize, F)>>, i: int, doomed: Seq<usize>, k: int) -> Seq<
    Seq<(usize, F)>,
>
    decreases k,
{
    if k <= 0 {
        bs
    } else {
        break_all(break_one(bs, i, doomed[k - 1] as int), i, doomed, k - 1)
    }
}

/// Positions listed in increasing order, all below `len`.
pub open spec fn increasing_below(d: Seq<usize>, len: int) -> bool {
    &&& forall|a: int, b: int| 0 <= a < b < d.len() ==> d[a] < d[b]
    &&& forall|a: int| 0 <= a < d.len() ==> #[trigger] d[a] < len
}

/// Position of the first entry of `row` that names `x`.
fn find_partner<F>(row: &Vec<(usize, F)>, x: usize) -> (p: Option<usize>)
    ensures
        match p {
            Some(q) => q < row@.len() && partners(row@).index_of_first(x) == Some(q as int),
            None => partners(row@).index_of_first(x) is None,
        },
{
    let mut k: usize = 0;
    while k < row.len()
        invariant
            0 <= k <= row@.len(),
            forall|q: int| 0 <= q < k ==> partners(row@)[q] != x,
        decreases row@.len() - k,
    {
        if row[k].0 == x {
            proof {
                partners(row@).index_of_first_ensures(x);
                assert(partners(row@)[k as int] == x);
                assert(partners(row@).contains(x));
                let q = partners(row@).index_of_first(x).unwrap();
                if q < k {
                    assert(partners(row@)[q] != x);
                }
                if k < q {
                    assert(partners(row@)[k as int] != x);
                }
            }
            return Some(k);
        }
        k = k + 1;
    }
    proof {
        partners(row@).index_of_first_ensures(x);
        if partners(row@).contains(x) {
            let q = choose|q: int| 0 <= q < partners(row@).len() && partners(row@)[q] == x;
            assert(partners(row@)[q] != x);
        }
    }
    None
}

/// Particle `i` drops its bonds at the positions `doomed` (given in
/// increasing order), from the last to the first. Each dropped bond leaves
/// `i`'s list by a swap with its last entry, and the partner, when it is a
/// particle of the store, drops the first entry that names `i` the same way.
pub fn break_bonds<F>(bonds: &mut Vec<Vec<(usize, F)>>, i: usize, doomed: &Vec<usize>)
    requires
        i < old(bonds)@.len(),
        increasing_below(doomed@, old(bonds)@[i as int]@.len() as int),
        no_self_bonds(bond_lists(old(bonds)@)),
    ensures
        final(bonds)@.len() == old(bonds)@.len(),
        bond_lists(final(bonds)@) == break_all(
            bond_lists(old(bonds)@),
            i as int,
            doomed@,
            doomed@.len() as int,
        ),
{
    let ghost total = break_all(bond_lists(old(bonds)@), i as int, doomed@, doomed@.len() as int);
    let ghost row0 = old(bonds)@[i as int]@;
    let mut k: usize = doomed.len();
    while k > 0
        invariant
            i < bonds@.len(),
            bonds@.len() == old(bonds)@.len(),
            0 <= k <= doomed@.len(),
            increasing_below(doomed@, row0.len() as int),
            no_self_bonds(bond_lists(bonds@)),
            forall|q: int| 0 <= q < k ==> #[trigger] doomed@[q] < bonds@[i as int]@.len(),
            break_all(bond_lists(bonds@), i as int, doomed@, k as int) == total,
        decreases k,
    {
        let b = doomed[k - 1];
        let ghost before = bond_lists(bonds@);
        let j = bonds[i][b].0;
        bonds[i].swap_remove(b);
        let ghost mid = bond_lists(bonds@);
        assert(mid =~= before.update(i as int, swap_removed(before[i as int], b as int)));
        if j < bonds.len() {
            let pos = find_partner(&bonds[j], i);
            match pos {
                Some(p) => {
                    bonds[j].swap_remove(p);
                },
                None => {},
            }
        }
        proof {
            assert(before[i as int][b as int].0 != i);
            assert(bond_lists(bonds@) =~= break_one(before, i as int, b as int));
            assert forall|q: int| 0 <= q < k - 1 implies #[trigger] doomed@[q] < bonds@[i as int]@.len() by {
                assert(doomed@[q] < doomed@[k - 1]);
            }
            lemma_break_one_no_self(before, i as int, b as int);
        }
        k = k - 1;
    }
}

proof fn lemma_swap_removed_count<F>(s: Seq<(usize, F)>, b: int, x: usize)
    requires
        0 <= b < s.len(),
    ensures
        partner_count(swap_removed(s, b), x) + (if s[b].0 == x {
            1nat
        } else {
            0nat
        }) == partner_count(s, x),
{
    broadcast use vstd::multiset::group_multiset_axioms;

    let ps = partners(s);
    let l = ps.last();
    let u = ps.update(b, l);
    assert(partners(swap_removed(s, b)) =~= u.drop_last());
    assert(u.drop_last() =~= u.remove(u.len() - 1));
    assert(u[u.len() - 1] == l);
    assert(ps[b] == s[b].0);
    vstd::seq_lib::to_multiset_update(ps, b, l);
    vstd::seq_lib::to_multiset_remove(u, u.len() - 1);
    vstd::seq_lib::to_multiset_contains(ps, ps[b]);
    assert(ps.contains(ps[b]));
    let m = ps.to_multiset();
    assert(u.drop_last().to_multiset() == m.insert(l).remove(ps[b]).remove(l));
    assert(m.insert(l).remove(ps[b]).remove(l).count(x) + (if ps[b] == x {
        1nat
    } else {
        0nat
    }) == m.count(x));
}

proof fn lemma_break_one_symmetric<F>(bs: Seq<Seq<(usize, F)>>, i: int, b: int)
    requires
        symmetric(bs),
        no_self_bonds(bs),
        0 <= i < bs.len() <= usize::MAX,
        0 <= b < bs[i].len(),
    ensures
        symmetric(break_one(bs, i, b)),
        break_one(bs, i, b).len() == bs.len(),
{
    broadcast use vstd::multiset::group_multiset_axioms;

    let j = bs[i][b].0;
    let b1 = bs.update(i, swap_removed(bs[i], b));
    let r = break_one(bs, i, b);
    assert(j != i);
    if j < bs.len() {
        let iu = i as usize;
        let ju = j;
        assert(iu as int == i);
        assert(partner_count(bs[i], ju) >= 1) by {
            lemma_swap_removed_count(bs[i], b, ju);
        }
        assert(partner_count(bs[ju as int], iu) == partner_count(bs[iu as int], ju));
        assert(partners(b1[j as int]).contains(iu)) by {
            vstd::seq_lib::to_multiset_contains(partners(bs[j as int]), iu);
        }
        partners(b1[j as int]).index_of_first_ensures(iu);
        let p = partners(b1[j as int]).index_of_first(iu).unwrap();
        assert forall|x: usize, y: usize| x < r.len() && y < r.len() implies #[trigger] partner_count(
            r[x as int],
            y,
        ) == partner_count(r[y as int], x) by {
            lemma_swap_removed_count(bs[i], b, y);
            lemma_swap_removed_count(bs[i], b, x);
            lemma_swap_removed_count(bs[j as int], p, y);
            lemma_swap_removed_count(bs[j as int], p, x);
            assert(partner_count(bs[x as int], y) == partner_count(bs[y as int], x));
            assert(partners(bs[j as int])[p] == iu);
        }
    } else {
        assert forall|x: usize, y: usize| x < r.len() && y < r.len() implies #[trigger] partner_count(
            r[x as int],
            y,
        ) == partner_count(r[y as int], x) by {
            lemma_swap_removed_count(bs[i], b, y);
            lemma_swap_removed_count(bs[i], b, x);
            assert(partner_count(bs[x as int], y) == partner_count(bs[y as int], x));
        }
    }
}

proof fn lemma_break_one_no_self<F>(bs: Seq<Seq<(usize, F)>>, i: int, b: int)
    requires
        no_self_bonds(bs),
        0 <= i < bs.len(),
        0 <= b < bs[i].len(),
    ensures
        no_self_bonds(break_one(bs, i, b)),
        break_one(bs, i, b).len() == bs.len(),
        break_one(bs, i, b)[i] == swap_removed(bs[i], b),
{
    let j = bs[i][b].0;
    let b1 = bs.update(i, swap_removed(bs[i], b));
    let r = break_one(bs, i, b);
    assert(j != i);
    assert forall|a: int, c: int| 0 <= a < r.len() && 0 <= c < r[a].len() implies #[trigger] r[a][c].0
        != a by {
        if a == i {
            if c == b {
                assert(bs[i][bs[i].len() - 1].0 != a);
            } else {
                assert(bs[i][c].0 != a);
            }
        } else if a == j && j < bs.len() && partners(b1[j as int]).index_of_first(i as usize) is Some {
            let p = partners(b1[j as int]).index_of_first(i as usize).unwrap();
            partners(b1[j as int]).index_of_first_ensures(i as usize);
            if c == p {
                assert(bs[a][bs[a].len() - 1].0 != a);
            } else {
                assert(bs[a][c].0 != a);
            }
        } else {
            assert(bs[a][c].0 != a);
        }
    }
}

proof fn lemma_break_prefix_symmetric<F>(
    bs: Seq<Seq<(usize, F)>>,
    i: int,
    doomed: Seq<usize>,
    k: int,
)
    requires
        symmetric(bs),
        no_self_bonds(bs),
        0 <= i < bs.len() <= usize::MAX,
        0 <= k <= doomed.len(),
        forall|a: int, b: int| 0 <= a < b < doomed.len() ==> doomed[a] < doomed[b],
        forall|q: int| 0 <= q < k ==> #[trigger] doomed[q] < bs[i].len(),
    ensures
        symmetric(break_all(bs, i, doomed, k)),
    decreases k,
{
    if k > 0 {
        let b = doomed[k - 1] as int;
        lemma_break_one_symmetric(bs, i, b);
        lemma_break_one_no_self(bs, i, b);
        let nb = break_one(bs, i, b);
        assert forall|q: int| 0 <= q < k - 1 implies #[trigger] doomed[q] < nb[i].len() by {
            assert(doomed[q] < doomed[k - 1]);
        }
        lemma_break_prefix_symmetric(nb, i, doomed, k - 1);
    }
}

/// Breaking bonds keeps the bond lists symmetric, where no particle is
/// bonded to itself.
pub proof fn lemma_break_bonds_symmetric<F>(bs: Seq<Seq<(usize, F)>>, i: int, doomed: Seq<usize>)
    requires
        symmetric(bs),
        no_self_bonds(bs),
        0 <= i < bs.len() <= usize::MAX,
        increasing_below(doomed, bs[i].len() as int),
    ensures
        symmetric(break_all(bs, i, doomed, doomed.len() as int)),
{
    lemma_break_prefix_symmetric(bs, i, doomed, doomed.len() as int);
}

} // verus!
