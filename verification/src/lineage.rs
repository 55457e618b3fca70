//! Organism detection: connected groups of bonded particles become
//! organisms, and each keeps the identity of the organism most of its members
//! belonged to, or starts a new lineage.
//!
//! Living, non-deposit particles are grouped by chains of bonds (the store
//! keeps bonds symmetric, so a bond listed on either side joins two
//! particles). Groups are handled in the order in which their first member
//! appears. A group of fewer than `MIN_ORGANISM_SIZE` particles is no
//! organism. A larger group takes the organism id that most of its members
//! had (on a tie, the one whose first holder comes first), unless an earlier
//! group already took it: then the organism has split, and the group becomes
//! a new organism one generation below the oldest registered lineage among
//! its members. A group whose members had no organism becomes a new organism
//! of generation 0. Particles outside the living, non-deposit set keep their
//! previous organism.
use vstd::prelude::*;
use crate::groups::{assign_group_ids, connected, is_group_labeling};

verus! {

/// Fewest particles that make an organism.
pub const MIN_ORGANISM_SIZE: usize = 2;

/// An organism created by one detection.
#[derive(Clone, Copy, Debug, PartialEq, Eq, Structural)]
pub struct FormedOrganism {
    pub id: u32,
    pub generation: u32,
    /// The organism it split from, or -1 for a new lineage.
    pub parent: i32,
    pub size: usize,
    /// Whether it split from an organism that continues elsewhere.
    pub split: bool,
}

/// The result of one detection.
pub struct OrganismUpdate {
    /// The group number of each particle (-1 outside the living, non-deposit set).
    pub components: Vec<i32>,
    /// The organism of each particle after detection (-1 for none).
    pub org_ids: Vec<i32>,
    /// The organisms created, in the order of their groups.
    pub formed: Vec<FormedOrganism>,
    /// Every organism id in use after detection, in the order of its group.
    pub kept: Vec<u32>,
    /// The next fresh organism id.
    pub next_id: u32,
}

/// Particles taking part: living and not deposits.
pub open spec fn active_of(alive: Seq<bool>, deposit: Seq<bool>) -> Seq<bool> {
    Seq::new(alive.len(), |i: int| alive[i] && !deposit[i])
}

/// The members of group `c` among the first `m` particles, in index order.
pub open spec fn group_members(labels: Seq<i32>, c: int, m: int) -> Seq<usize>
    decreases m,
{
    if m <= 0 {
        Seq::empty()
    } else if labels[m - 1] == c {
        group_members(labels, c, m - 1).push((m - 1) as usize)
    } else {
        group_members(labels, c, m - 1)
    }
}

/// One more than the largest group number among the first `m` particles.
pub open spec fn label_span(labels: Seq<i32>, m: int) -> int
    decreases m,
{
    if m <= 0 {
        0
    } else if labels[m - 1] + 1 > label_span(labels, m - 1) {
        labels[m - 1] + 1
    } else {
        label_span(labels, m - 1)
    }
}

/// Number of the first `m` members whose previous organism is `v`.
pub open spec fn vote_count(prev: Seq<i32>, ms: Seq<usize>, v: i32, m: int) -> nat
    decreases m,
{
    if m <= 0 {
        0
    } else {
        vote_count(prev, ms, v, m - 1) + if prev[ms[m - 1] as int] == v {
            1nat
        } else {
            0nat
        }
    }
}

/// The most-voted previous organism among the first `m` members, with its
/// vote count: (-1, 0) where none had one; a later candidate wins only with
/// strictly more votes.
pub open spec fn best_vote(prev: Seq<i32>, ms: Seq<usize>, m: int) -> (int, int)
    decreases m,
{
    if m <= 0 {
        (-1, 0)
    } else {
        let (b, bc) = best_vote(prev, ms, m - 1);
        let v = prev[ms[m - 1] as int];
        if v >= 0 && vote_count(prev, ms, v, ms.len() as int) > bc {
            (v as int, vote_count(prev, ms, v, ms.len() as int) as int)
        } else {
            (b, bc)
        }
    }
}

/// The generation registered for organism `id` among the first `m` entries
/// of the registry (the last entry wins).
pub open spec fn registered_generation(registry: Seq<(u32, u32)>, id: int, m: int) -> Option<u32>
    decreases m,
{
    if m <= 0 {
        None
    } else if registry[m - 1].0 as int == id {
        Some(registry[m - 1].1)
    } else {
        registered_generation(registry, id, m - 1)
    }
}

/// Over the first `m` members: the highest generation among their registered
/// previous organisms (0 where none), and the last such organism (-1 where none).
pub open spec fn lineage_of(prev: Seq<i32>, registry: Seq<(u32, u32)>, ms: Seq<usize>, m: int) -> (int, int)
    decreases m,
{
    if m <= 0 {
        (0, -1)
    } else {
        let (g, p) = lineage_of(prev, registry, ms, m - 1);
        let v = prev[ms[m - 1] as int];
        if v >= 0 && registered_generation(registry, v as int, registry.len() as int) is Some {
            let rg = registered_generation(registry, v as int, registry.len() as int).unwrap() as int;
            (if rg > g {
                rg
            } else {
                g
            }, v as int)
        } else {
            (g, p)
        }
    }
}

/// The state of detection after some groups: ids in use, the next fresh id,
/// the organism of each group so far (-1 for none) and the organisms formed.
pub struct Detection {
    pub claimed: Seq<u32>,
    pub next: int,
    pub assigned: Seq<int>,
    pub formed: Seq<FormedOrganism>,
}

/// The decision for a group with members `ms`.
pub open spec fn decide(prev: Seq<i32>, registry: Seq<(u32, u32)>, ms: Seq<usize>, d: Detection) -> Detection {
    let size = ms.len();
    if size < MIN_ORGANISM_SIZE {
        Detection { assigned: d.assigned.push(-1), ..d }
    } else {
        let (b, bc) = best_vote(prev, ms, ms.len() as int);
        if b < 0 {
            Detection {
                claimed: d.claimed.push(d.next as u32),
                next: d.next + 1,
                assigned: d.assigned.push(d.next),
                formed: d.formed.push(
                    FormedOrganism {
                        id: d.next as u32,
                        generation: 0u32,
                        parent: -1i32,
                        size: size as usize,
                        split: false,
                    },
                ),
            }
        } else if !d.claimed.contains(b as u32) {
            Detection {
                claimed: d.claimed.push(b as u32),
                assigned: d.assigned.push(b),
                ..d
            }
        } else {
            let (g, p) = lineage_of(prev, registry, ms, ms.len() as int);
            Detection {
                claimed: d.claimed.push(d.next as u32),
                next: d.next + 1,
                assigned: d.assigned.push(d.next),
                formed: d.formed.push(
                    FormedOrganism {
                        id: d.next as u32,
                        generation: (g + 1) as u32,
                        parent: p as i32,
                        size: size as usize,
                        split: true,
                    },
                ),
            }
        }
    }
}

/// The state after groups `0 .. c`.
pub open spec fn detection(
    labels: Seq<i32>,
    prev: Seq<i32>,
    registry: Seq<(u32, u32)>,
    next_id: int,
    c: int,
) -> Detection
    decreases c,
{
    if c <= 0 {
        Detection { claimed: Seq::empty(), next: next_id, assigned: Seq::empty(), formed: Seq::empty() }
    } else {
        decide(
            prev,
            registry,
            group_members(labels, c - 1, labels.len() as int),
            detection(labels, prev, registry, next_id, c - 1),
        )
    }
}

/// The organism of each particle: its previous one outside the living,
/// non-deposit set, else the organism of its group.
pub open spec fn organism_ids(labels: Seq<i32>, prev: Seq<i32>, assigned: Seq<int>) -> Seq<i32> {
    Seq::new(
        labels.len(),
        |i: int|
            if labels[i] < 0 {
                prev[i]
            } else {
                assigned[labels[i] as int] as i32
            },
    )
}

proof fn lemma_label_at_most_index(labels: Seq<i32>, active: Seq<bool>, i: int)
    requires
        labels.len() == active.len(),
        forall|j: int| 0 <= j < active.len() ==> (#[trigger] labels[j] == -1 <==> !active[j]),
        forall|j: int| 0 <= j < active.len() && active[j] ==> #[trigger] labels[j] >= 0,
        forall|j: int|
            0 <= j < active.len() && active[j] && #[trigger] labels[j] > 0 ==> exists|q: int|
                0 <= q < j && active[q] && #[trigger] labels[q] == labels[j] - 1,
        0 <= i < labels.len(),
    ensures
        labels[i] <= i,
    decreases i,
{
    if active[i] && labels[i] > 0 {
        let q = choose|q: int| 0 <= q < i && active[q] && #[trigger] labels[q] == labels[i] - 1;
        lemma_label_at_most_index(labels, active, q);
    }
}

proof fn lemma_span_bound(labels: Seq<i32>, m: int)
    requires
        0 <= m <= labels.len(),
        forall|i: int| 0 <= i < labels.len() ==> #[trigger] labels[i] <= i,
    ensures
        0 <= label_span(labels, m) <= m,
        forall|i: int| 0 <= i < m ==> #[trigger] labels[i] < label_span(labels, m),
    decreases m,
{
    if m > 0 {
        lemma_span_bound(labels, m - 1);
    }
}

fn span_of(labels: &Vec<i32>) -> (k: usize)
    requires
        forall|i: int| 0 <= i < labels@.len() ==> #[trigger] labels@[i] <= i,
    ensures
        k == label_span(labels@, labels@.len() as int),
{
    let mut k: usize = 0;
    let mut m: usize = 0;
    while m < labels.len()
        invariant
            0 <= m <= labels@.len(),
            forall|i: int| 0 <= i < labels@.len() ==> #[trigger] labels@[i] <= i,
            k == label_span(labels@, m as int),
        decreases labels@.len() - m,
    {
        proof {
            lemma_span_bound(labels@, m as int);
        }
        if labels[m] >= 0 && labels[m] as usize + 1 > k {
            k = labels[m] as usize + 1;
        }
        m = m + 1;
    }
    k
}

fn members_of(labels: &Vec<i32>, c: usize) -> (ms: Vec<usize>)
    requires
        c <= i32::MAX,
    ensures
        ms@ == group_members(labels@, c as int, labels@.len() as int),
{
    let mut ms: Vec<usize> = Vec::new();
    let mut m: usize = 0;
    while m < labels.len()
        invariant
            0 <= m <= labels@.len(),
            c <= i32::MAX,
            ms@ == group_members(labels@, c as int, m as int),
        decreases labels@.len() - m,
    {
        if labels[m] >= 0 && labels[m] as usize == c {
            ms.push(m);
        }
        m = m + 1;
    }
    ms
}

proof fn lemma_members_bound(labels: Seq<i32>, c: int, m: int)
    requires
        0 <= m <= labels.len(),
        labels.len() <= usize::MAX,
    ensures
        group_members(labels, c, m).len() <= m,
        forall|j: int|
            0 <= j < group_members(labels, c, m).len() ==> #[trigger] group_members(labels, c, m)[j] < m,
        forall|j: int|
            0 <= j < group_members(labels, c, m).len() ==> labels[#[trigger] group_members(
                labels,
                c,
                m,
            )[j] as int] == c,
    decreases m,
{
    if m > 0 {
        lemma_members_bound(labels, c, m - 1);
    }
}

fn count_votes(prev: &Vec<i32>, ms: &Vec<usize>, v: i32) -> (n: usize)
    requires
        forall|j: int| 0 <= j < ms@.len() ==> #[trigger] ms@[j] < prev@.len(),
    ensures
        n == vote_count(prev@, ms@, v, ms@.len() as int),
        n <= ms@.len(),
{
    let mut n: usize = 0;
    let mut m: usize = 0;
    while m < ms.len()
        invariant
            0 <= m <= ms@.len(),
            forall|j: int| 0 <= j < ms@.len() ==> #[trigger] ms@[j] < prev@.len(),
            n == vote_count(prev@, ms@, v, m as int),
            n <= m,
        decreases ms@.len() - m,
    {
        if prev[ms[m]] == v {
            n = n + 1;
        }
        m = m + 1;
    }
    n
}

fn most_voted(prev: &Vec<i32>, ms: &Vec<usize>) -> (r: (i32, usize))
    requires
        forall|j: int| 0 <= j < ms@.len() ==> #[trigger] ms@[j] < prev@.len(),
    ensures
        r.0 as int == best_vote(prev@, ms@, ms@.len() as int).0,
        r.1 as int == best_vote(prev@, ms@, ms@.len() as int).1,
{
    let mut b: i32 = -1;
    let mut bc: usize = 0;
    let mut m: usize = 0;
    while m < ms.len()
        invariant
            0 <= m <= ms@.len(),
            forall|j: int| 0 <= j < ms@.len() ==> #[trigger] ms@[j] < prev@.len(),
            b as int == best_vote(prev@, ms@, m as int).0,
            bc as int == best_vote(prev@, ms@, m as int).1,
        decreases ms@.len() - m,
    {
        let v = prev[ms[m]];
        if v >= 0 {
            let c = count_votes(prev, ms, v);
            if c > bc {
                b = v;
                bc = c;
            }
        }
        m = m + 1;
    }
    (b, bc)
}

fn lookup_generation(registry: &Vec<(u32, u32)>, id: i32) -> (g: Option<u32>)
    ensures
        g == registered_generation(registry@, id as int, registry@.len() as int),
{
    let mut g: Option<u32> = None;
    let mut m: usize = 0;
    while m < registry.len()
        invariant
            0 <= m <= registry@.len(),
            g == registered_generation(registry@, id as int, m as int),
        decreases registry@.len() - m,
    {
        if id >= 0 && registry[m].0 == id as u32 {
            g = Some(registry[m].1);
        }
        m = m + 1;
    }
    g
}

fn lineage(prev: &Vec<i32>, registry: &Vec<(u32, u32)>, ms: &Vec<usize>) -> (r: (u32, i32))
    requires
        forall|j: int| 0 <= j < ms@.len() ==> #[trigger] ms@[j] < prev@.len(),
    ensures
        r.0 as int == lineage_of(prev@, registry@, ms@, ms@.len() as int).0,
        r.1 as int == lineage_of(prev@, registry@, ms@, ms@.len() as int).1,
{
    let mut g: u32 = 0;
    let mut p: i32 = -1;
    let mut m: usize = 0;
    while m < ms.len()
        invariant
            0 <= m <= ms@.len(),
            forall|j: int| 0 <= j < ms@.len() ==> #[trigger] ms@[j] < prev@.len(),
            g as int == lineage_of(prev@, registry@, ms@, m as int).0,
            p as int == lineage_of(prev@, registry@, ms@, m as int).1,
        decreases ms@.len() - m,
    {
        let v = prev[ms[m]];
        if v >= 0 {
            match lookup_generation(registry, v) {
                Some(rg) => {
                    if rg > g {
                        g = rg;
                    }
                    p = v;
                },
                None => {},
            }
        }
        m = m + 1;
    }
    (g, p)
}

fn contains_u32(ids: &Vec<u32>, x: u32) -> (b: bool)
    ensures
        b == ids@.contains(x),
{
    let mut k: usize = 0;
    while k < ids.len()
        invariant
            0 <= k <= ids@.len(),
            forall|j: int| 0 <= j < k ==> ids@[j] != x,
        decreases ids@.len() - k,
    {
        if ids[k] == x {
            return true;
        }
        k = k + 1;
    }
    false
}

proof fn lemma_generation_bound(registry: Seq<(u32, u32)>, id: int, m: int)
    requires
        0 <= m <= registry.len(),
        forall|k: int| 0 <= k < registry.len() ==> #[trigger] registry[k].1 < u32::MAX,
    ensures
        registered_generation(registry, id, m) is Some ==> registered_generation(registry, id, m).unwrap()
            < u32::MAX,
    decreases m,
{
    if m > 0 {
        lemma_generation_bound(registry, id, m - 1);
    }
}

proof fn lemma_lineage_bound(prev: Seq<i32>, registry: Seq<(u32, u32)>, ms: Seq<usize>, m: int)
    requires
        0 <= m <= ms.len(),
        forall|k: int| 0 <= k < registry.len() ==> #[trigger] registry[k].1 < u32::MAX,
    ensures
        0 <= lineage_of(prev, registry, ms, m).0 < u32::MAX,
        -1 <= lineage_of(prev, registry, ms, m).1 <= i32::MAX,
    decreases m,
{
    if m > 0 {
        lemma_lineage_bound(prev, registry, ms, m - 1);
        let v = prev[ms[m - 1] as int];
        lemma_generation_bound(registry, v as int, registry.len() as int);
    }
}

proof fn lemma_best_vote_range(prev: Seq<i32>, ms: Seq<usize>, m: int)
    requires
        0 <= m <= ms.len(),
    ensures
        -1 <= best_vote(prev, ms, m).0 <= i32::MAX,
    decreases m,
{
    if m > 0 {
        lemma_best_vote_range(prev, ms, m - 1);
    }
}

/// Detects organisms. `alive`, `deposit`, `bonds` and `prev_org` describe the
/// particles (bonds by partner index, as the store keeps them); `registry`
/// lists the registered organisms as `(id, generation)`; fresh organism ids
/// are taken in order from `next_id`.
///
/// The groups are numbered as by `assign_group_ids` over the living,
/// non-deposit particles, and each group is decided in turn as `decide`
/// states: no organism below `MIN_ORGANISM_SIZE` members; else the most-voted
/// previous organism if no earlier group took it; else a fresh organism, split
/// from the registered lineage of its members (generation one below the
/// highest, parent the last such organism in member order); or a fresh
/// organism of generation 0 where no member had one.
pub fn detect_organisms<F>(
    alive: &Vec<bool>,
    deposit: &Vec<bool>,
    bonds: &Vec<Vec<(usize, F)>>,
    prev_org: &Vec<i32>,
    registry: &Vec<(u32, u32)>,
    next_id: u32,
) -> (r: OrganismUpdate)
    requires
        deposit@.len() == alive@.len(),
        bonds@.len() == alive@.len(),
        prev_org@.len() == alive@.len(),
        next_id + alive@.len() < i32::MAX,
        forall|k: int| 0 <= k < registry@.len() ==> #[trigger] registry@[k].1 < u32::MAX,
    ensures
        is_group_labeling(active_of(alive@, deposit@), bonds@, r.components@),
        ({
            let d = detection(
                r.components@,
                prev_org@,
                registry@,
                next_id as int,
                label_span(r.components@, alive@.len() as int),
            );
            &&& r.org_ids@ == organism_ids(r.components@, prev_org@, d.assigned)
            &&& r.formed@ == d.formed
            &&& r.kept@ == d.claimed
            &&& r.next_id == d.next
        }),
{
    let n = alive.len();
    let mut active: Vec<bool> = Vec::new();
    let mut i: usize = 0;
    while i < n
        invariant
            n == alive@.len(),
            deposit@.len() == n,
            0 <= i <= n,
            active@.len() == i,
            forall|j: int| 0 <= j < i ==> #[trigger] active@[j] == (alive@[j] && !deposit@[j]),
        decreases n - i,
    {
        active.push(alive[i] && !deposit[i]);
        i = i + 1;
    }
    assert(active@ =~= active_of(alive@, deposit@));
    let labels = assign_group_ids(&active, bonds);
    let ghost ls = labels@;
    proof {
        assert forall|q: int| 0 <= q < ls.len() implies #[trigger] ls[q] <= q by {
            lemma_label_at_most_index(ls, active@, q);
        }
        lemma_span_bound(ls, n as int);
    }
    let k = span_of(&labels);
    let ghost pv = prev_org@;
    let ghost rg = registry@;
    let mut claimed: Vec<u32> = Vec::new();
    let mut next: u32 = next_id;
    let mut assigned: Vec<i32> = Vec::new();
    let mut formed: Vec<FormedOrganism> = Vec::new();
    let mut c: usize = 0;
    while c < k
        invariant
            labels@ == ls,
            ls.len() == n,
            prev_org@ == pv,
            registry@ == rg,
            pv.len() == n,
            k <= n,
            n < i32::MAX,
            next_id + n < i32::MAX,
            forall|q: int| 0 <= q < rg.len() ==> #[trigger] rg[q].1 < u32::MAX,
            0 <= c <= k,
            next as int == detection(ls, pv, rg, next_id as int, c as int).next,
            next_id <= next <= next_id + c,
            claimed@ == detection(ls, pv, rg, next_id as int, c as int).claimed,
            formed@ == detection(ls, pv, rg, next_id as int, c as int).formed,
            assigned@.len() == c,
            detection(ls, pv, rg, next_id as int, c as int).assigned.len() == c,
            forall|j: int|
                0 <= j < c ==> #[trigger] assigned@[j] as int == detection(
                    ls,
                    pv,
                    rg,
                    next_id as int,
                    c as int,
                ).assigned[j],
        decreases k - c,
    {
        let ghost d0 = detection(ls, pv, rg, next_id as int, c as int);
        let ms = members_of(&labels, c);
        proof {
            lemma_members_bound(ls, c as int, n as int);
        }
        let size = ms.len();
        if size < MIN_ORGANISM_SIZE {
            assigned.push(-1);
        } else {
            let (b, _bc) = most_voted(prev_org, &ms);
            proof {
                lemma_best_vote_range(pv, ms@, ms@.len() as int);
            }
            if b < 0 {
                formed.push(
                    FormedOrganism { id: next, generation: 0, parent: -1, size, split: false },
                );
                claimed.push(next);
                assigned.push(next as i32);
                next = next + 1;
            } else if !contains_u32(&claimed, b as u32) {
                claimed.push(b as u32);
                assigned.push(b);
            } else {
                let (g, p) = lineage(prev_org, registry, &ms);
                proof {
                    lemma_lineage_bound(pv, rg, ms@, ms@.len() as int);
                }
                formed.push(
                    FormedOrganism { id: next, generation: g + 1, parent: p, size, split: true },
                );
                claimed.push(next);
                assigned.push(next as i32);
                next = next + 1;
            }
        }
        proof {
            let d1 = detection(ls, pv, rg, next_id as int, c as int + 1);
            assert(d1 == decide(pv, rg, group_members(ls, c as int, n as int), d0));
            assert forall|j: int| 0 <= j < c + 1 implies #[trigger] assigned@[j] as int == d1.assigned[j] by {
                if j < c {
                    assert(d1.assigned[j] == d0.assigned[j]);
                }
            }
        }
        c = c + 1;
    }
    let mut org_ids: Vec<i32> = Vec::new();
    let mut i: usize = 0;
    while i < n
        invariant
            labels@ == ls,
            ls.len() == n,
            prev_org@ == pv,
            pv.len() == n,
            assigned@.len() == k,
            k == label_span(ls, n as int),
            forall|q: int| 0 <= q < n ==> #[trigger] ls[q] < label_span(ls, n as int),
            0 <= i <= n,
            org_ids@.len() == i,
            forall|j: int|
                0 <= j < i ==> #[trigger] org_ids@[j] == (if ls[j] < 0 {
                    pv[j]
                } else {
                    assigned@[ls[j] as int]
                }),
        decreases n - i,
    {
        let l = labels[i];
        if l < 0 {
            org_ids.push(prev_org[i]);
        } else {
            org_ids.push(assigned[l as usize]);
        }
        i = i + 1;
    }
    let ghost d = detection(ls, pv, rg, next_id as int, k as int);
    assert(org_ids@ =~= organism_ids(ls, pv, d.assigned));
    OrganismUpdate { components: labels, org_ids, formed, kept: claimed, next_id: next }
}

proof fn lemma_best_vote_below(prev: Seq<i32>, ms: Seq<usize>, m: int, bound: int)
    requires
        0 <= m <= ms.len(),
        forall|j: int| 0 <= j < ms.len() ==> #[trigger] prev[ms[j] as int] < bound,
        bound >= 0,
    ensures
        best_vote(prev, ms, m).0 < bound,
    decreases m,
{
    if m > 0 {
        lemma_best_vote_below(prev, ms, m - 1, bound);
    }
}

spec fn detection_wf(d: Detection, next_id: int, c: int) -> bool {
    &&& d.assigned.len() == c
    &&& next_id <= d.next
    &&& forall|q: int| 0 <= q < d.claimed.len() ==> #[trigger] d.claimed[q] < d.next
    &&& forall|j: int| 0 <= j < c ==> #[trigger] d.assigned[j] >= -1
    &&& forall|j: int| 0 <= j < c && d.assigned[j] >= 0 ==> #[trigger] d.claimed.contains(
        d.assigned[j] as u32,
    ) && d.assigned[j] < d.next
    &&& forall|j1: int, j2: int|
        0 <= j1 < j2 < c && #[trigger] d.assigned[j1] >= 0 && #[trigger] d.assigned[j2] >= 0
            ==> d.assigned[j1] != d.assigned[j2]
}

proof fn lemma_detection_wf(
    labels: Seq<i32>,
    prev: Seq<i32>,
    registry: Seq<(u32, u32)>,
    next_id: int,
    c: int,
)
    requires
        0 <= c,
        0 <= next_id,
        labels.len() == prev.len(),
        labels.len() <= usize::MAX,
        next_id + c <= u32::MAX,
        forall|i: int| 0 <= i < prev.len() ==> #[trigger] prev[i] < next_id,
    ensures
        detection_wf(detection(labels, prev, registry, next_id, c), next_id, c),
        detection(labels, prev, registry, next_id, c).next <= next_id + c,
        forall|j: int|
            0 <= j < c ==> (#[trigger] detection(labels, prev, registry, next_id, c).assigned[j] >= 0
                <==> group_members(labels, j, labels.len() as int).len() >= MIN_ORGANISM_SIZE),
    decreases c,
{
    if c > 0 {
        lemma_detection_wf(labels, prev, registry, next_id, c - 1);
        let d0 = detection(labels, prev, registry, next_id, c - 1);
        let ms = group_members(labels, c - 1, labels.len() as int);
        let d1 = detection(labels, prev, registry, next_id, c);
        lemma_members_bound(labels, c - 1, labels.len() as int);
        assert(d1 == decide(prev, registry, ms, d0));
        assert forall|j: int| 0 <= j < c - 1 implies d1.assigned[j] == d0.assigned[j] by {}
        if ms.len() >= MIN_ORGANISM_SIZE {
            lemma_best_vote_below(prev, ms, ms.len() as int, next_id);
            let b = best_vote(prev, ms, ms.len() as int).0;
            let x = d1.assigned[c - 1];
            assert(x >= 0);
            assert(x < d1.next);
            assert(!d0.claimed.contains(x as u32)) by {
                if b >= 0 && !d0.claimed.contains(b as u32) {
                } else {
                    if d0.claimed.contains(x as u32) {
                        let q = choose|q: int| 0 <= q < d0.claimed.len() && d0.claimed[q] == x as u32;
                        assert(d0.claimed[q] < d0.next);
                    }
                }
            }
            assert(d1.claimed == d0.claimed.push(x as u32));
            assert forall|y: u32| d0.claimed.contains(y) implies d1.claimed.contains(y) by {
                let q = choose|q: int| 0 <= q < d0.claimed.len() && d0.claimed[q] == y;
                assert(d1.claimed[q] == y);
            }
            assert(d1.claimed[d0.claimed.len() as int] == x as u32);
            assert forall|q: int| 0 <= q < d1.claimed.len() implies #[trigger] d1.claimed[q] < d1.next by {
                if q < d0.claimed.len() {
                    assert(d1.claimed[q] == d0.claimed[q]);
                }
            }
            assert forall|j: int| 0 <= j < c && d1.assigned[j] >= 0 implies #[trigger] d1.claimed.contains(
                d1.assigned[j] as u32,
            ) && d1.assigned[j] < d1.next by {
                if j < c - 1 {
                    assert(d0.claimed.contains(d0.assigned[j] as u32));
                }
            }
            assert forall|j1: int, j2: int|
                0 <= j1 < j2 < c && #[trigger] d1.assigned[j1] >= 0 && #[trigger] d1.assigned[j2] >= 0
                    implies d1.assigned[j1] != d1.assigned[j2] by {
                if j2 == c - 1 {
                    assert(d0.claimed.contains(d0.assigned[j1] as u32));
                    assert(d0.assigned[j1] < d0.next);
                }
            }
        } else {
            assert(d1.claimed == d0.claimed);
            assert(d1.next == d0.next);
            assert(d1.assigned == d0.assigned.push(-1));
            assert forall|j: int| 0 <= j < c && d1.assigned[j] >= 0 implies #[trigger] d1.claimed.contains(
                d1.assigned[j] as u32,
            ) && d1.assigned[j] < d1.next by {
                assert(d1.assigned[j] == d0.assigned[j]);
            }
            assert forall|j1: int, j2: int|
                0 <= j1 < j2 < c && #[trigger] d1.assigned[j1] >= 0 && #[trigger] d1.assigned[j2] >= 0
                    implies d1.assigned[j1] != d1.assigned[j2] by {
                if j2 < c - 1 {
                    assert(d0.assigned[j1] != d0.assigned[j2]);
                }
            }
        }
    }
}

proof fn lemma_assigned_below(d: Detection, next_id: int, c: int, j: int)
    requires
        detection_wf(d, next_id, c),
        0 <= j < c,
    ensures
        -1 <= d.assigned[j],
        d.assigned[j] >= 0 ==> d.assigned[j] < d.next,
{
    if d.assigned[j] >= 0 {
        assert(d.claimed.contains(d.assigned[j] as u32));
    }
}

/// Organism detection gives each living, non-deposit particle an organism
/// exactly when its group has at least `MIN_ORGANISM_SIZE` particles, and two
/// such particles share an organism exactly when they are joined by a chain
/// of bonds, provided every previous organism id is below `next_id` (as when
/// fresh ids are only ever taken from that counter).
#[verifier::rlimit(40)]
pub proof fn lemma_detection_partitions<F>(
    active: Seq<bool>,
    bonds: Seq<Vec<(usize, F)>>,
    labels: Seq<i32>,
    prev: Seq<i32>,
    registry: Seq<(u32, u32)>,
    next_id: u32,
)
    requires
        is_group_labeling(active, bonds, labels),
        prev.len() == labels.len(),
        next_id + labels.len() < i32::MAX,
        forall|i: int| 0 <= i < prev.len() ==> #[trigger] prev[i] < next_id,
    ensures
        ({
            let n = labels.len() as int;
            let d = detection(labels, prev, registry, next_id as int, label_span(labels, n));
            let ids = organism_ids(labels, prev, d.assigned);
            &&& forall|i: int|
                0 <= i < n && active[i] ==> (#[trigger] ids[i] >= 0 <==> group_members(
                    labels,
                    labels[i] as int,
                    n,
                ).len() >= MIN_ORGANISM_SIZE)
            &&& forall|i: int, j: int|
                0 <= i < n && 0 <= j < n && active[i] && active[j] && #[trigger] ids[i] >= 0
                    && #[trigger] ids[j] >= 0 ==> (ids[i] == ids[j] <==> connected(active, bonds, i, j))
        }),
{
    let n = labels.len() as int;
    assert forall|q: int| 0 <= q < n implies #[trigger] labels[q] <= q by {
        lemma_label_at_most_index(labels, active, q);
    }
    lemma_span_bound(labels, n);
    let k = label_span(labels, n);
    lemma_detection_wf(labels, prev, registry, next_id as int, k);
    let d = detection(labels, prev, registry, next_id as int, k);
    let ids = organism_ids(labels, prev, d.assigned);
    assert forall|i: int| 0 <= i < n && active[i] implies (#[trigger] ids[i] >= 0 <==> group_members(
        labels,
        labels[i] as int,
        n,
    ).len() >= MIN_ORGANISM_SIZE) by {
        let li = labels[i] as int;
        assert(0 <= li < k);
        assert(ids[i] == d.assigned[li] as i32);
        lemma_assigned_below(d, next_id as int, k, li);
    }
    assert forall|i: int, j: int|
        0 <= i < n && 0 <= j < n && active[i] && active[j] && #[trigger] ids[i] >= 0
            && #[trigger] ids[j] >= 0 implies (ids[i] == ids[j] <==> connected(active, bonds, i, j)) by {
        let li = labels[i] as int;
        let lj = labels[j] as int;
        assert(labels[i] == labels[j] <==> connected(active, bonds, i, j));
        assert(ids[i] == d.assigned[li] as i32);
        assert(ids[j] == d.assigned[lj] as i32);
        assert(d.assigned[li] >= 0);
        assert(d.assigned[lj] >= 0);
        assert(0 <= li < k && 0 <= lj < k);
        lemma_assigned_below(d, next_id as int, k, li);
        lemma_assigned_below(d, next_id as int, k, lj);
        if li != lj {
            if li < lj {
                assert(d.assigned[li] != d.assigned[lj]);
            } else {
                assert(d.assigned[lj] != d.assigned[li]);
            }
        }
    }
}

/// The registry entries among the first `m` whose organism is still in use.
pub open spec fn surviving_prefix(registry: Seq<(u32, u32)>, kept: Seq<u32>, m: int) -> Seq<(u32, u32)>
    decreases m,
{
    if m <= 0 {
        Seq::empty()
    } else if kept.contains(registry[m - 1].0) {
        surviving_prefix(registry, kept, m - 1).push(registry[m - 1])
    } else {
        surviving_prefix(registry, kept, m - 1)
    }
}

/// The registry after a detection: the entries of organisms still in use, in
/// order, then each organism formed with its generation.
pub open spec fn spec_updated_registry(
    registry: Seq<(u32, u32)>,
    kept: Seq<u32>,
    formed: Seq<FormedOrganism>,
) -> Seq<(u32, u32)> {
    surviving_prefix(registry, kept, registry.len() as int) + formed.map_values(
        |f: FormedOrganism| (f.id, f.generation),
    )
}

fn in_use(kept: &Vec<u32>, id: u32) -> (b: bool)
    ensures
        b == kept@.contains(id),
{
    contains_u32(kept, id)
}

/// Updates the registry of organisms after a detection: organisms no longer
/// in use dissolve, and the organisms formed join with their generations.
pub fn updated_registry(registry: &Vec<(u32, u32)>, update: &OrganismUpdate) -> (r: Vec<(u32, u32)>)
    ensures
        r@ == spec_updated_registry(registry@, update.kept@, update.formed@),
{
    let mut r: Vec<(u32, u32)> = Vec::new();
    let mut m: usize = 0;
    while m < registry.len()
        invariant
            0 <= m <= registry@.len(),
            r@ == surviving_prefix(registry@, update.kept@, m as int),
        decreases registry@.len() - m,
    {
        if in_use(&update.kept, registry[m].0) {
            r.push(registry[m]);
        }
        m = m + 1;
    }
    let ghost base = r@;
    let mut k: usize = 0;
    while k < update.formed.len()
        invariant
            0 <= k <= update.formed@.len(),
            base == surviving_prefix(registry@, update.kept@, registry@.len() as int),
            r@ == base + update.formed@.take(k as int).map_values(
                |f: FormedOrganism| (f.id, f.generation),
            ),
        decreases update.formed@.len() - k,
    {
        let f = update.formed[k];
        r.push((f.id, f.generation));
        k = k + 1;
        assert(r@ =~= base + update.formed@.take(k as int).map_values(
            |f: FormedOrganism| (f.id, f.generation),
        ));
    }
    assert(update.formed@.take(update.formed@.len() as int) =~= update.formed@);
    r
}

/// Member `j`'s previous organism is registered, with generation `g`.
pub open spec fn member_registered(prev: Seq<i32>, registry: Seq<(u32, u32)>, ms: Seq<usize>, j: int) -> bool {
    prev[ms[j] as int] >= 0 && registered_generation(
        registry,
        prev[ms[j] as int] as int,
        registry.len() as int,
    ) is Some
}

/// The registered generation of member `j`'s previous organism.
pub open spec fn member_generation(prev: Seq<i32>, registry: Seq<(u32, u32)>, ms: Seq<usize>, j: int) -> int {
    registered_generation(registry, prev[ms[j] as int] as int, registry.len() as int).unwrap() as int
}

proof fn lemma_lineage_of_max(prev: Seq<i32>, registry: Seq<(u32, u32)>, ms: Seq<usize>, m: int)
    requires
        0 <= m <= ms.len(),
    ensures
        ({
            let (g, p) = lineage_of(prev, registry, ms, m);
            &&& forall|j: int|
                0 <= j < m && #[trigger] member_registered(prev, registry, ms, j) ==> member_generation(
                    prev,
                    registry,
                    ms,
                    j,
                ) <= g
            &&& (exists|j: int|
                0 <= j < m && #[trigger] member_registered(prev, registry, ms, j) && member_generation(
                    prev,
                    registry,
                    ms,
                    j,
                ) == g) || (g == 0 && forall|j: int|
                0 <= j < m ==> !#[trigger] member_registered(prev, registry, ms, j))
            &&& (p == -1 && forall|j: int| 0 <= j < m ==> !#[trigger] member_registered(prev, registry, ms, j))
                || (exists|j: int|
                0 <= j < m && #[trigger] member_registered(prev, registry, ms, j) && prev[ms[j] as int] == p)
        }),
    decreases m,
{
    if m > 0 {
        lemma_lineage_of_max(prev, registry, ms, m - 1);
        let (g0, p0) = lineage_of(prev, registry, ms, m - 1);
        if member_registered(prev, registry, ms, m - 1) {
            assert(member_registered(prev, registry, ms, m - 1));
        } else {
            let (g, p) = lineage_of(prev, registry, ms, m);
            assert((g, p) == (g0, p0));
            if exists|j: int| 0 <= j < m - 1 && #[trigger] member_registered(prev, registry, ms, j)
                && member_generation(prev, registry, ms, j) == g0 {
                let j = choose|j: int| 0 <= j < m - 1 && #[trigger] member_registered(prev, registry, ms, j)
                    && member_generation(prev, registry, ms, j) == g0;
                assert(0 <= j < m && member_registered(prev, registry, ms, j));
            }
            if exists|j: int| 0 <= j < m - 1 && #[trigger] member_registered(prev, registry, ms, j)
                && prev[ms[j] as int] == p0 {
                let j = choose|j: int| 0 <= j < m - 1 && #[trigger] member_registered(prev, registry, ms, j)
                    && prev[ms[j] as int] == p0;
                assert(0 <= j < m && member_registered(prev, registry, ms, j));
            }
        }
    }
}

/// A group that splits off forms an organism one generation past the highest
/// registered generation among its members' previous organisms (generation 1
/// when none is registered): strictly above each of them and one past one of
/// them. Its parent is the previous organism of a registered member, or -1
/// when none is registered.
pub proof fn lemma_split_generation(prev: Seq<i32>, registry: Seq<(u32, u32)>, ms: Seq<usize>, d: Detection)
    requires
        forall|k: int| 0 <= k < registry.len() ==> #[trigger] registry[k].1 < u32::MAX,
    ensures
        ({
            let d1 = decide(prev, registry, ms, d);
            d1.formed.len() == d.formed.len() + 1 && d1.formed.last().split ==> {
                let f = d1.formed.last();
                &&& forall|j: int|
                    0 <= j < ms.len() && #[trigger] member_registered(prev, registry, ms, j) ==> f.generation
                        > member_generation(prev, registry, ms, j)
                &&& (exists|j: int|
                    0 <= j < ms.len() && #[trigger] member_registered(prev, registry, ms, j) && f.generation
                        == member_generation(prev, registry, ms, j) + 1) || (f.generation == 1 && forall|j: int|
                    0 <= j < ms.len() ==> !#[trigger] member_registered(prev, registry, ms, j))
                &&& (f.parent == -1 && forall|j: int|
                    0 <= j < ms.len() ==> !#[trigger] member_registered(prev, registry, ms, j)) || (exists|j: int|
                    0 <= j < ms.len() && #[trigger] member_registered(prev, registry, ms, j) && prev[ms[j] as int]
                        == f.parent)
            }
        }),
{
    lemma_lineage_of_max(prev, registry, ms, ms.len() as int);
    lemma_lineage_bound(prev, registry, ms, ms.len() as int);
    let d1 = decide(prev, registry, ms, d);
    if d1.formed.len() == d.formed.len() + 1 && d1.formed.last().split {
        let (g, p) = lineage_of(prev, registry, ms, ms.len() as int);
        assert(d1.formed.last().generation == g + 1);
        assert(d1.formed.last().parent == p);
    }
}

proof fn lemma_best_vote_props(prev: Seq<i32>, ms: Seq<usize>, m: int)
    requires
        0 <= m <= ms.len(),
    ensures
        ({
            let (b, bc) = best_vote(prev, ms, m);
            &&& forall|j: int|
                0 <= j < m && prev[ms[j] as int] >= 0 ==> vote_count(prev, ms, #[trigger] prev[ms[j] as int], ms.len() as int)
                    <= bc
            &&& (b == -1 && bc == 0 && forall|j: int| 0 <= j < m ==> #[trigger] prev[ms[j] as int] < 0) || (exists|j: int|
                0 <= j < m && prev[ms[j] as int] >= 0 && #[trigger] prev[ms[j] as int] == b && bc
                    == vote_count(prev, ms, prev[ms[j] as int], ms.len() as int) && forall|q: int|
                    0 <= q < j && prev[ms[q] as int] >= 0 ==> vote_count(prev, ms, #[trigger] prev[ms[q] as int], ms.len() as int)
                        < bc)
        }),
    decreases m,
{
    if m > 0 {
        lemma_best_vote_props(prev, ms, m - 1);
        let (b0, bc0) = best_vote(prev, ms, m - 1);
        let v = prev[ms[m - 1] as int];
        if !(v >= 0 && vote_count(prev, ms, v, ms.len() as int) > bc0) {
            if exists|j: int|
                0 <= j < m - 1 && prev[ms[j] as int] >= 0 && #[trigger] prev[ms[j] as int] == b0 && bc0
                    == vote_count(prev, ms, prev[ms[j] as int], ms.len() as int) && forall|q: int|
                    0 <= q < j && prev[ms[q] as int] >= 0 ==> vote_count(prev, ms, #[trigger] prev[ms[q] as int], ms.len() as int)
                        < bc0 {
                let j = choose|j: int|
                    0 <= j < m - 1 && prev[ms[j] as int] >= 0 && #[trigger] prev[ms[j] as int] == b0 && bc0
                        == vote_count(prev, ms, prev[ms[j] as int], ms.len() as int) && forall|q: int|
                        0 <= q < j && prev[ms[q] as int] >= 0 ==> vote_count(prev, ms, #[trigger] prev[ms[q] as int], ms.len() as int)
                            < bc0;
                assert(0 <= j < m);
            } else {
                if v >= 0 {
                    assert(vote_count(prev, ms, v, ms.len() as int) >= 1) by {
                        lemma_vote_count_positive(prev, ms, m - 1, ms.len() as int);
                    }
                }
            }
        } else {
            assert(0 <= m - 1 < m && prev[ms[m - 1] as int] >= 0);
        }
    }
}

proof fn lemma_vote_count_positive(prev: Seq<i32>, ms: Seq<usize>, j: int, m: int)
    requires
        0 <= j < m <= ms.len(),
    ensures
        vote_count(prev, ms, prev[ms[j] as int], m) >= 1,
    decreases m,
{
    if m - 1 > j {
        lemma_vote_count_positive(prev, ms, j, m - 1);
    }
}

/// The organism a group keeps or contests is its most-voted previous
/// organism: no previous organism of a member has more votes among the
/// members, the first member holding it has no earlier member whose organism
/// has as many votes, and there is none exactly when no member had an organism.
pub proof fn lemma_best_vote_is_most_voted(prev: Seq<i32>, ms: Seq<usize>)
    ensures
        ({
            let (b, bc) = best_vote(prev, ms, ms.len() as int);
            &&& forall|j: int|
                0 <= j < ms.len() && prev[ms[j] as int] >= 0 ==> vote_count(
                    prev,
                    ms,
                    #[trigger] prev[ms[j] as int],
                    ms.len() as int,
                ) <= vote_count(prev, ms, b as i32, ms.len() as int)
            &&& b == -1 <==> forall|j: int| 0 <= j < ms.len() ==> #[trigger] prev[ms[j] as int] < 0
            &&& b != -1 ==> exists|j: int|
                0 <= j < ms.len() && #[trigger] prev[ms[j] as int] == b && forall|q: int|
                    0 <= q < j && prev[ms[q] as int] >= 0 ==> vote_count(
                        prev,
                        ms,
                        #[trigger] prev[ms[q] as int],
                        ms.len() as int,
                    ) < vote_count(prev, ms, b as i32, ms.len() as int)
        }),
{
    lemma_best_vote_props(prev, ms, ms.len() as int);
    lemma_best_vote_range(prev, ms, ms.len() as int);
    let (b, bc) = best_vote(prev, ms, ms.len() as int);
    if b != -1 {
        let j = choose|j: int|
            0 <= j < ms.len() && prev[ms[j] as int] >= 0 && #[trigger] prev[ms[j] as int] == b && bc
                == vote_count(prev, ms, prev[ms[j] as int], ms.len() as int) && forall|q: int|
                0 <= q < j && prev[ms[q] as int] >= 0 ==> vote_count(prev, ms, #[trigger] prev[ms[q] as int], ms.len() as int)
                    < bc;
        assert(b as i32 == prev[ms[j] as int]);
    } else {
        if exists|j: int| 0 <= j < ms.len() && #[trigger] prev[ms[j] as int] >= 0 {
            let j = choose|j: int| 0 <= j < ms.len() && #[trigger] prev[ms[j] as int] >= 0;
            lemma_vote_count_positive(prev, ms, j, ms.len() as int);
        }
    }
}

/// The decision for one group: a group of fewer than `MIN_ORGANISM_SIZE`
/// members gets no organism and forms none; a larger group whose members had
/// no organism forms a new one of generation 0 with no parent, under the next
/// fresh id; a larger group whose most-voted organism is not yet taken keeps
/// it and forms none; otherwise it splits off under the next fresh id. Every
/// formed organism records the group's size, and fresh ids advance by one.
pub proof fn lemma_decide_cases(prev: Seq<i32>, registry: Seq<(u32, u32)>, ms: Seq<usize>, d: Detection)
    requires
        0 <= d.next <= u32::MAX,
        ms.len() <= usize::MAX,
    ensures
        ({
            let d1 = decide(prev, registry, ms, d);
            let b = best_vote(prev, ms, ms.len() as int).0;
            &&& d1.assigned.len() == d.assigned.len() + 1
            &&& d1.assigned.drop_last() == d.assigned
            &&& ms.len() < MIN_ORGANISM_SIZE ==> d1.assigned.last() == -1 && d1.formed == d.formed
                && d1.claimed == d.claimed && d1.next == d.next
            &&& ms.len() >= MIN_ORGANISM_SIZE && (forall|j: int| 0 <= j < ms.len() ==> #[trigger] prev[ms[j] as int] < 0)
                ==> d1.assigned.last() == d.next && d1.next == d.next + 1 && d1.formed == d.formed.push(
                FormedOrganism {
                    id: d.next as u32,
                    generation: 0u32,
                    parent: -1i32,
                    size: ms.len() as usize,
                    split: false,
                },
            )
            &&& ms.len() >= MIN_ORGANISM_SIZE && b >= 0 && !d.claimed.contains(b as u32) ==> d1.assigned.last()
                == b && d1.formed == d.formed && d1.next == d.next && d1.claimed == d.claimed.push(b as u32)
            &&& ms.len() >= MIN_ORGANISM_SIZE && b >= 0 && d.claimed.contains(b as u32) ==> d1.assigned.last()
                == d.next && d1.next == d.next + 1 && d1.formed.len() == d.formed.len() + 1
                && d1.formed.drop_last() == d.formed && d1.formed.last().id == d.next && d1.formed.last().split
                && d1.formed.last().size == ms.len()
        }),
{
    lemma_best_vote_is_most_voted(prev, ms);
    let d1 = decide(prev, registry, ms, d);
    assert(d1.assigned.drop_last() =~= d.assigned);
    if d1.formed.len() == d.formed.len() + 1 {
        assert(d1.formed.drop_last() =~= d.formed);
    }
}

} // verus!
