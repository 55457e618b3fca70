//! Symbiogenesis: organisms whose membranes touch accumulate contact time,
//! and after long enough contact the larger absorbs the smaller.
//!
//! The geometric test (which pairs of organisms touch) is made by the caller
//! on positions; these functions take the touching pairs and decide the
//! contact counters, the merges and the order in which merges take effect.
use vstd::prelude::*;
use crate::organism::{
    contact_key, merge_roles, spec_contact_key, MERGE_CONTACT_TICKS, MERGE_MAX_SIZE,
};

verus! {

/// Contact time added to a touching pair on each check.
pub const CONTACT_STEP: u32 = 10;

/// The contact time recorded under `key` among the first `m` entries (the
/// last such entry wins; 0 where there is none).
pub open spec fn contact_lookup(contacts: Seq<((u32, u32), u32)>, key: (u32, u32), m: int) -> int
    decreases m,
{
    if m <= 0 {
        0
    } else if contacts[m - 1].0 == key {
        contacts[m - 1].1 as int
    } else {
        contact_lookup(contacts, key, m - 1)
    }
}

/// The contact time of `key`.
pub open spec fn contact_time(contacts: Seq<((u32, u32), u32)>, key: (u32, u32)) -> int {
    contact_lookup(contacts, key, contacts.len() as int)
}

/// The key of a touching pair `(a, b, size_a, size_b)`.
pub open spec fn touch_key(t: (u32, u32, usize, usize)) -> (u32, u32) {
    spec_contact_key(t.0, t.1)
}

/// The contact entries after a check: each touching pair under its key, with
/// its previous contact time plus `CONTACT_STEP`; pairs no longer touching
/// are gone.
pub open spec fn spec_new_contacts(
    contacts: Seq<((u32, u32), u32)>,
    touching: Seq<(u32, u32, usize, usize)>,
) -> Seq<((u32, u32), u32)> {
    Seq::new(
        touching.len(),
        |t: int|
            (
                touch_key(touching[t]),
                (contact_time(contacts, touch_key(touching[t])) + CONTACT_STEP) as u32,
            ),
    )
}

/// Whether a touching pair with this new contact time merges: long enough in
/// contact, and small enough together.
pub open spec fn merges_now(t: (u32, u32, usize, usize), time: int) -> bool {
    time >= MERGE_CONTACT_TICKS && t.2 + t.3 <= MERGE_MAX_SIZE
}

/// The (keeper, donor) of a merging pair: the larger keeps, the first named on a tie.
pub open spec fn keeper_donor(t: (u32, u32, usize, usize)) -> (u32, u32) {
    if t.2 >= t.3 {
        (t.0, t.1)
    } else {
        (t.1, t.0)
    }
}

/// The merges decided among the first `m` touching pairs, in order.
pub open spec fn merges_prefix(
    contacts: Seq<((u32, u32), u32)>,
    touching: Seq<(u32, u32, usize, usize)>,
    m: int,
) -> Seq<(u32, u32)>
    decreases m,
{
    if m <= 0 {
        Seq::empty()
    } else {
        let prev = merges_prefix(contacts, touching, m - 1);
        let t = touching[m - 1];
        if merges_now(t, contact_time(contacts, touch_key(t)) + CONTACT_STEP) {
            prev.push(keeper_donor(t))
        } else {
            prev
        }
    }
}

/// No two touching pairs share a key, each pair names two organisms, and
/// their sizes can be added.
pub open spec fn touching_wf(touching: Seq<(u32, u32, usize, usize)>) -> bool {
    &&& forall|t: int| 0 <= t < touching.len() ==> #[trigger] touching[t].0 != touching[t].1
    &&& forall|t: int| 0 <= t < touching.len() ==> #[trigger] touching[t].2 + touching[t].3 <= usize::MAX
    &&& forall|t1: int, t2: int|
        0 <= t1 < t2 < touching.len() ==> touch_key(#[trigger] touching[t1]) != touch_key(
            #[trigger] touching[t2],
        )
}

fn lookup_contact(contacts: &Vec<((u32, u32), u32)>, key: (u32, u32)) -> (c: u32)
    ensures
        c == contact_time(contacts@, key),
{
    let mut c: u32 = 0;
    let mut m: usize = 0;
    while m < contacts.len()
        invariant
            0 <= m <= contacts@.len(),
            c == contact_lookup(contacts@, key, m as int),
        decreases contacts@.len() - m,
    {
        if contacts[m].0.0 == key.0 && contacts[m].0.1 == key.1 {
            c = contacts[m].1;
        }
        m = m + 1;
    }
    c
}

/// One contact check. `contacts` holds the contact time of each pair of
/// organisms by key (smaller id first); `touching` lists the pairs whose
/// membranes touch now, as `(a, b, size_a, size_b)`. Returns the new contact
/// entries (one per touching pair, in order, its time raised by
/// `CONTACT_STEP`; every other entry is dropped) and the merges `(keeper,
/// donor)` of the pairs whose new time reaches `MERGE_CONTACT_TICKS` and whose
/// combined size is at most `MERGE_MAX_SIZE`.
pub fn symbiogenesis_step(
    contacts: &Vec<((u32, u32), u32)>,
    touching: &Vec<(u32, u32, usize, usize)>,
) -> (r: (Vec<((u32, u32), u32)>, Vec<(u32, u32)>))
    requires
        touching_wf(touching@),
        forall|k: int| 0 <= k < contacts@.len() ==> #[trigger] contacts@[k].1 + CONTACT_STEP <= u32::MAX,
    ensures
        r.0@ == spec_new_contacts(contacts@, touching@),
        r.1@ == merges_prefix(contacts@, touching@, touching@.len() as int),
{
    let mut fresh: Vec<((u32, u32), u32)> = Vec::new();
    let mut merges: Vec<(u32, u32)> = Vec::new();
    let mut t: usize = 0;
    while t < touching.len()
        invariant
            touching_wf(touching@),
            forall|k: int| 0 <= k < contacts@.len() ==> #[trigger] contacts@[k].1 + CONTACT_STEP <= u32::MAX,
            0 <= t <= touching@.len(),
            fresh@.len() == t,
            forall|j: int| 0 <= j < t ==> #[trigger] fresh@[j] == spec_new_contacts(contacts@, touching@)[j],
            merges@ == merges_prefix(contacts@, touching@, t as int),
        decreases touching@.len() - t,
    {
        let (a, b, sa, sb) = touching[t];
        let key = contact_key(a, b);
        let old = lookup_contact(contacts, key);
        proof {
            lemma_lookup_bound(contacts@, key, contacts@.len() as int);
        }
        let time = old + CONTACT_STEP;
        fresh.push((key, time));
        if time >= MERGE_CONTACT_TICKS && sa <= MERGE_MAX_SIZE && sb <= MERGE_MAX_SIZE - sa {
            merges.push(merge_roles(a, sa, b, sb));
        }
        t = t + 1;
    }
    assert(fresh@ =~= spec_new_contacts(contacts@, touching@));
    (fresh, merges)
}

proof fn lemma_lookup_bound(contacts: Seq<((u32, u32), u32)>, key: (u32, u32), m: int)
    requires
        0 <= m <= contacts.len(),
        forall|k: int| 0 <= k < contacts.len() ==> #[trigger] contacts[k].1 + CONTACT_STEP <= u32::MAX,
    ensures
        0 <= contact_lookup(contacts, key, m) <= u32::MAX - CONTACT_STEP,
    decreases m,
{
    if m > 0 {
        lemma_lookup_bound(contacts, key, m - 1);
    }
}

/// Which merges take effect, in order, and which organisms are removed: a
/// merge is skipped when its donor is already gone; otherwise the donor is
/// removed, and the merge takes effect unless its keeper is gone too.
/// Returns (merges that take effect, removed organisms).
pub open spec fn merge_outcome_prefix(merges: Seq<(u32, u32)>, m: int) -> (Seq<(u32, u32)>, Seq<u32>)
    decreases m,
{
    if m <= 0 {
        (Seq::empty(), Seq::empty())
    } else {
        let (done, gone) = merge_outcome_prefix(merges, m - 1);
        let (keeper, donor) = merges[m - 1];
        if gone.contains(donor) {
            (done, gone)
        } else if gone.contains(keeper) || keeper == donor {
            (done, gone.push(donor))
        } else {
            (done.push(merges[m - 1]), gone.push(donor))
        }
    }
}

fn contains_id(ids: &Vec<u32>, x: u32) -> (b: bool)
    ensures
        b == ids@.contains(x),
{
    let mut k: usize = 0;
    while k < ids.len()
        invariant
            0 <= k <= ids@.len(),
            forall|j: int| 0 <= j < k ==> ids@[j] != x,
        decreases ids@.len() - k,
    {
        if ids[k] == x {
            return true;
        }
        k = k + 1;
    }
    false
}

/// Carries out merge decisions in order: a donor already absorbed earlier in
/// the same round is skipped, and a donor whose keeper was absorbed is
/// removed without a merge. Returns the merges that take effect and the
/// organisms removed.
pub fn resolve_merges(merges: &Vec<(u32, u32)>) -> (r: (Vec<(u32, u32)>, Vec<u32>))
    ensures
        r.0@ == merge_outcome_prefix(merges@, merges@.len() as int).0,
        r.1@ == merge_outcome_prefix(merges@, merges@.len() as int).1,
{
    let mut done: Vec<(u32, u32)> = Vec::new();
    let mut gone: Vec<u32> = Vec::new();
    let mut m: usize = 0;
    while m < merges.len()
        invariant
            0 <= m <= merges@.len(),
            done@ == merge_outcome_prefix(merges@, m as int).0,
            gone@ == merge_outcome_prefix(merges@, m as int).1,
        decreases merges@.len() - m,
    {
        let (keeper, donor) = merges[m];
        if contains_id(&gone, donor) {
        } else if contains_id(&gone, keeper) || keeper == donor {
            gone.push(donor);
        } else {
            done.push((keeper, donor));
            gone.push(donor);
        }
        m = m + 1;
    }
    (done, gone)
}

/// The contact entries that do not name organism `x`.
pub open spec fn without_organism(contacts: Seq<((u32, u32), u32)>, x: u32) -> Seq<((u32, u32), u32)> {
    contacts.filter(|e: ((u32, u32), u32)| e.0.0 != x && e.0.1 != x)
}

/// Drops every contact entry that names organism `x`, keeping the others in order.
pub fn drop_contacts_of(contacts: &mut Vec<((u32, u32), u32)>, x: u32)
    ensures
        final(contacts)@ == without_organism(old(contacts)@, x),
{
    let ghost orig = contacts@;
    let mut kept: Vec<((u32, u32), u32)> = Vec::new();
    let mut k: usize = 0;
    while k < contacts.len()
        invariant
            contacts@ == orig,
            0 <= k <= orig.len(),
            kept@ == without_organism(orig.take(k as int), x),
        decreases orig.len() - k,
    {
        let e = contacts[k];
        proof {
            reveal(Seq::filter);
            assert(orig.take(k as int + 1).drop_last() =~= orig.take(k as int));
        }
        if e.0.0 != x && e.0.1 != x {
            kept.push(e);
        }
        k = k + 1;
    }
    assert(orig.take(orig.len() as int) =~= orig);
    *contacts = kept;
}

/// After each merge, the donor's particles belong to the keeper: every
/// particle recorded under `donor` is recorded under `keeper`, every other
/// one keeps its organism.
pub fn transfer_members(org_ids: &mut Vec<i32>, keeper: u32, donor: u32)
    requires
        keeper <= i32::MAX,
        donor <= i32::MAX,
    ensures
        final(org_ids)@.len() == old(org_ids)@.len(),
        forall|i: int|
            0 <= i < old(org_ids)@.len() ==> #[trigger] final(org_ids)@[i] == if old(org_ids)@[i]
                == donor as i32 {
                keeper as i32
            } else {
                old(org_ids)@[i]
            },
{
    let ghost orig = org_ids@;
    let mut i: usize = 0;
    while i < org_ids.len()
        invariant
            org_ids@.len() == orig.len(),
            keeper <= i32::MAX,
            donor <= i32::MAX,
            0 <= i <= orig.len(),
            forall|j: int|
                0 <= j < i ==> #[trigger] org_ids@[j] == if orig[j] == donor as i32 {
                    keeper as i32
                } else {
                    orig[j]
                },
            forall|j: int| i <= j < orig.len() ==> #[trigger] org_ids@[j] == orig[j],
        decreases orig.len() - i,
    {
        if org_ids[i] == donor as i32 {
            org_ids.set(i, keeper as i32);
        }
        i = i + 1;
    }
}

/// A merge that takes effect absorbs an organism that was still present: no
/// organism is removed twice, and no merge that takes effect has a keeper
/// removed before it.
pub proof fn lemma_merges_remove_once(merges: Seq<(u32, u32)>, m: int)
    requires
        0 <= m <= merges.len(),
    ensures
        forall|a: int, b: int|
            0 <= a < b < merge_outcome_prefix(merges, m).1.len() ==> merge_outcome_prefix(merges, m).1[a]
                != merge_outcome_prefix(merges, m).1[b],
        forall|k: int|
            0 <= k < merge_outcome_prefix(merges, m).0.len() ==> merge_outcome_prefix(merges, m).1.contains(
                #[trigger] merge_outcome_prefix(merges, m).0[k].1,
            ),
    decreases m,
{
    if m > 0 {
        lemma_merges_remove_once(merges, m - 1);
        let (done, gone) = merge_outcome_prefix(merges, m - 1);
        let (keeper, donor) = merges[m - 1];
        if !gone.contains(donor) {
            let g2 = gone.push(donor);
            assert(g2[gone.len() as int] == donor);
            assert forall|k: int| 0 <= k < gone.len() implies #[trigger] g2[k] == gone[k] by {}
            assert forall|x: u32| gone.contains(x) implies g2.contains(x) by {
                let k = choose|k: int| 0 <= k < gone.len() && gone[k] == x;
                assert(g2[k] == x);
            }
            assert(g2.contains(donor));
        }
    }
}

/// Touching pair `t` qualifies for a merge: its contact time, raised by this
/// check, reaches `MERGE_CONTACT_TICKS`, and its organisms together have at
/// most `MERGE_MAX_SIZE` particles.
pub open spec fn pair_merges(
    contacts: Seq<((u32, u32), u32)>,
    touching: Seq<(u32, u32, usize, usize)>,
    t: int,
) -> bool {
    let (a, b, sa, sb) = touching[t];
    let key = if a < b {
        (a, b)
    } else {
        (b, a)
    };
    contact_time(contacts, key) + CONTACT_STEP >= MERGE_CONTACT_TICKS && sa + sb <= MERGE_MAX_SIZE
}

/// The merge `m` is made from touching pair `t`: the larger organism keeps
/// (the first named on a tie) and the other is absorbed.
pub open spec fn merge_of_pair(touching: Seq<(u32, u32, usize, usize)>, t: int, m: (u32, u32)) -> bool {
    let (a, b, sa, sb) = touching[t];
    (sa >= sb && m == (a, b)) || (sa < sb && m == (b, a))
}

proof fn lemma_pair_facts(contacts: Seq<((u32, u32), u32)>, touching: Seq<(u32, u32, usize, usize)>, t: int)
    requires
        0 <= t < touching.len(),
    ensures
        pair_merges(contacts, touching, t) == merges_now(
            touching[t],
            contact_time(contacts, touch_key(touching[t])) + CONTACT_STEP,
        ),
        merge_of_pair(touching, t, keeper_donor(touching[t])),
{
}

/// Merge `x` comes from a qualifying pair among the first `m` touching pairs.
pub open spec fn merge_has_source(
    contacts: Seq<((u32, u32), u32)>,
    touching: Seq<(u32, u32, usize, usize)>,
    m: int,
    x: (u32, u32),
) -> bool {
    exists|t: int| 0 <= t < m && pair_merges(contacts, touching, t) && #[trigger] merge_of_pair(touching, t, x)
}

proof fn lemma_merges_sound(
    contacts: Seq<((u32, u32), u32)>,
    touching: Seq<(u32, u32, usize, usize)>,
    m: int,
)
    requires
        0 <= m <= touching.len(),
    ensures
        forall|q: int|
            0 <= q < merges_prefix(contacts, touching, m).len() ==> merge_has_source(
                contacts,
                touching,
                m,
                #[trigger] merges_prefix(contacts, touching, m)[q],
            ),
    decreases m,
{
    if m > 0 {
        lemma_merges_sound(contacts, touching, m - 1);
        lemma_pair_facts(contacts, touching, m - 1);
        let prev = merges_prefix(contacts, touching, m - 1);
        let cur = merges_prefix(contacts, touching, m);
        assert forall|q: int| 0 <= q < cur.len() implies merge_has_source(contacts, touching, m, #[trigger] cur[q]) by {
            if q < prev.len() {
                assert(cur[q] == prev[q]);
                assert(merge_has_source(contacts, touching, m - 1, prev[q]));
                let t = choose|t: int|
                    0 <= t < m - 1 && pair_merges(contacts, touching, t) && #[trigger] merge_of_pair(
                        touching,
                        t,
                        prev[q],
                    );
                assert(merge_of_pair(touching, t, cur[q]));
            } else {
                assert(cur[q] == keeper_donor(touching[m - 1]));
                assert(merge_of_pair(touching, m - 1, cur[q]));
            }
        }
    }
}

proof fn lemma_merges_complete(
    contacts: Seq<((u32, u32), u32)>,
    touching: Seq<(u32, u32, usize, usize)>,
    m: int,
)
    requires
        0 <= m <= touching.len(),
    ensures
        forall|t: int|
            0 <= t < m && #[trigger] pair_merges(contacts, touching, t) ==> exists|q: int|
                0 <= q < merges_prefix(contacts, touching, m).len() && merge_of_pair(
                    touching,
                    t,
                    #[trigger] merges_prefix(contacts, touching, m)[q],
                ),
    decreases m,
{
    if m > 0 {
        lemma_merges_complete(contacts, touching, m - 1);
        lemma_pair_facts(contacts, touching, m - 1);
        let prev = merges_prefix(contacts, touching, m - 1);
        let cur = merges_prefix(contacts, touching, m);
        assert forall|t: int| 0 <= t < m && #[trigger] pair_merges(contacts, touching, t) implies exists|q: int|
            0 <= q < cur.len() && merge_of_pair(touching, t, #[trigger] cur[q]) by {
            if t < m - 1 {
                let q = choose|q: int| 0 <= q < prev.len() && merge_of_pair(touching, t, #[trigger] prev[q]);
                assert(cur[q] == prev[q]);
            } else {
                assert(cur[prev.len() as int] == keeper_donor(touching[m - 1]));
            }
        }
    }
}

/// The merges of a contact check are exactly those of the qualifying touching
/// pairs: each merge comes from a pair whose contact time reached
/// `MERGE_CONTACT_TICKS` and whose combined size is at most `MERGE_MAX_SIZE`,
/// with the larger organism keeping; and every such pair gives a merge.
pub proof fn lemma_merges_exact(contacts: Seq<((u32, u32), u32)>, touching: Seq<(u32, u32, usize, usize)>)
    ensures
        forall|q: int|
            0 <= q < merges_prefix(contacts, touching, touching.len() as int).len() ==> merge_has_source(
                contacts,
                touching,
                touching.len() as int,
                #[trigger] merges_prefix(contacts, touching, touching.len() as int)[q],
            ),
        forall|t: int|
            0 <= t < touching.len() && #[trigger] pair_merges(contacts, touching, t) ==> exists|q: int|
                0 <= q < merges_prefix(contacts, touching, touching.len() as int).len() && merge_of_pair(
                    touching,
                    t,
                    #[trigger] merges_prefix(contacts, touching, touching.len() as int)[q],
                ),
{
    lemma_merges_sound(contacts, touching, touching.len() as int);
    lemma_merges_complete(contacts, touching, touching.len() as int);
}

/// Each new contact entry is the touching pair's key, smaller id first, with
/// its previous contact time (0 for a new contact) raised by `CONTACT_STEP`.
pub proof fn lemma_new_contacts_exact(contacts: Seq<((u32, u32), u32)>, touching: Seq<(u32, u32, usize, usize)>)
    requires
        forall|k: int| 0 <= k < contacts.len() ==> #[trigger] contacts[k].1 + CONTACT_STEP <= u32::MAX,
    ensures
        spec_new_contacts(contacts, touching).len() == touching.len(),
        forall|t: int|
            0 <= t < touching.len() ==> {
                let e = #[trigger] spec_new_contacts(contacts, touching)[t];
                let (a, b, sa, sb) = touching[t];
                &&& e.0.0 <= e.0.1
                &&& (e.0 == (a, b) || e.0 == (b, a))
                &&& e.1 == contact_time(contacts, e.0) + CONTACT_STEP
            },
{
    assert forall|t: int| 0 <= t < touching.len() implies {
        let e = #[trigger] spec_new_contacts(contacts, touching)[t];
        let (a, b, sa, sb) = touching[t];
        &&& e.0.0 <= e.0.1
        &&& (e.0 == (a, b) || e.0 == (b, a))
        &&& e.1 == contact_time(contacts, e.0) + CONTACT_STEP
    } by {
        lemma_lookup_bound(contacts, touch_key(touching[t]), contacts.len() as int);
    }
}

/// Merges that take effect never involve an organism already absorbed by an
/// earlier one: neither the keeper nor the donor of a merge is the donor of an
/// earlier merge that took effect, and no merge keeps and absorbs the same
/// organism.
pub proof fn lemma_effective_merges_fresh(merges: Seq<(u32, u32)>, m: int)
    requires
        0 <= m <= merges.len(),
    ensures
        ({
            let done = merge_outcome_prefix(merges, m).0;
            &&& forall|k: int| 0 <= k < done.len() ==> (#[trigger] done[k]).0 != done[k].1
            &&& forall|k1: int, k2: int|
                0 <= k1 < k2 < done.len() ==> (#[trigger] done[k2]).0 != (#[trigger] done[k1]).1 && done[k2].1
                    != done[k1].1
        }),
    decreases m,
{
    if m > 0 {
        lemma_effective_merges_fresh(merges, m - 1);
        lemma_merges_remove_once(merges, m - 1);
        let (done, gone) = merge_outcome_prefix(merges, m - 1);
        let (keeper, donor) = merges[m - 1];
        if !gone.contains(donor) && !gone.contains(keeper) && keeper != donor {
            let d2 = done.push(merges[m - 1]);
            assert forall|k1: int, k2: int| 0 <= k1 < k2 < d2.len() implies (#[trigger] d2[k2]).0 != (
            #[trigger] d2[k1]).1 && d2[k2].1 != d2[k1].1 by {
                if k2 == done.len() {
                    assert(d2[k1] == done[k1]);
                    assert(gone.contains(done[k1].1));
                } else {
                    assert(d2[k1] == done[k1] && d2[k2] == done[k2]);
                }
            }
            assert forall|k: int| 0 <= k < d2.len() implies (#[trigger] d2[k]).0 != d2[k].1 by {
                if k < done.len() {
                    assert(d2[k] == done[k]);
                }
            }
        }
    }
}

} // verus!
