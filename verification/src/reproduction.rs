//! Which particles reproduce in a tick.
//!
//! A particle may reproduce when it is alive, rich enough in energy (a
//! comparison of real numbers that the caller makes) and old enough; parents
//! are taken in store order until the offspring would fill the store to its
//! particle cap.
use vstd::prelude::*;

verus! {

/// Whether particle `i` may reproduce.
pub open spec fn may_reproduce(alive: Seq<bool>, rich: Seq<bool>, ages: Seq<u64>, min_age: u64, i: int) -> bool {
    alive[i] && rich[i] && ages[i] >= min_age
}

/// The particles among the first `k` that may reproduce, in order.
pub open spec fn candidates(alive: Seq<bool>, rich: Seq<bool>, ages: Seq<u64>, min_age: u64, k: int) -> Seq<
    usize,
>
    decreases k,
{
    if k <= 0 {
        Seq::empty()
    } else if may_reproduce(alive, rich, ages, min_age, k - 1) {
        candidates(alive, rich, ages, min_age, k - 1).push((k - 1) as usize)
    } else {
        candidates(alive, rich, ages, min_age, k - 1)
    }
}

/// The parents of a tick: the first candidates, as many as the store has
/// room for below `max_particles`; none when the store is already full.
pub open spec fn spec_parents(
    alive: Seq<bool>,
    rich: Seq<bool>,
    ages: Seq<u64>,
    min_age: u64,
    max_particles: int,
) -> Seq<usize> {
    let n = alive.len() as int;
    let c = candidates(alive, rich, ages, min_age, n);
    if n >= max_particles {
        Seq::empty()
    } else if c.len() <= max_particles - n {
        c
    } else {
        c.take(max_particles - n)
    }
}

proof fn lemma_candidates_prefix(
    alive: Seq<bool>,
    rich: Seq<bool>,
    ages: Seq<u64>,
    min_age: u64,
    i: int,
    k: int,
)
    requires
        0 <= i <= k,
    ensures
        candidates(alive, rich, ages, min_age, i).len() <= candidates(alive, rich, ages, min_age, k).len(),
        candidates(alive, rich, ages, min_age, k).take(
            candidates(alive, rich, ages, min_age, i).len() as int,
        ) == candidates(alive, rich, ages, min_age, i),
    decreases k - i,
{
    if i < k {
        lemma_candidates_prefix(alive, rich, ages, min_age, i, k - 1);
        let ci = candidates(alive, rich, ages, min_age, i);
        let ck1 = candidates(alive, rich, ages, min_age, k - 1);
        let ck = candidates(alive, rich, ages, min_age, k);
        assert(ck.take(ci.len() as int) =~= ck1.take(ci.len() as int));
    } else {
        let ci = candidates(alive, rich, ages, min_age, i);
        assert(ci.take(ci.len() as int) =~= ci);
    }
}

/// The particles that reproduce this tick, in store order: those alive, rich
/// enough (`rich`) and at least `min_age` ticks old, taken until the store
/// plus the offspring reach `max_particles`.
pub fn select_parents(alive: &Vec<bool>, rich: &Vec<bool>, ages: &Vec<u64>, min_age: u64, max_particles: usize) -> (parents: Vec<usize>)
    requires
        rich@.len() == alive@.len(),
        ages@.len() == alive@.len(),
    ensures
        parents@ == spec_parents(alive@, rich@, ages@, min_age, max_particles as int),
{
    let n = alive.len();
    let mut parents: Vec<usize> = Vec::new();
    if n >= max_particles {
        return parents;
    }
    let room = max_particles - n;
    let mut i: usize = 0;
    while i < n && parents.len() < room
        invariant
            rich@.len() == n,
            ages@.len() == n,
            alive@.len() == n,
            room == max_particles - n,
            0 <= i <= n,
            parents@.len() <= room,
            parents@ == candidates(alive@, rich@, ages@, min_age, i as int),
        decreases n - i,
    {
        if alive[i] && rich[i] && ages[i] >= min_age {
            parents.push(i);
        }
        i = i + 1;
    }
    proof {
        lemma_candidates_prefix(alive@, rich@, ages@, min_age, i as int, n as int);
        let c = candidates(alive@, rich@, ages@, min_age, n as int);
        if i < n {
            assert(parents@.len() == room);
        } else {
            assert(c == parents@);
        }
    }
    parents
}

/// Reproduction never fills the store past its cap: the store and the
/// offspring of the chosen parents together hold at most `max_particles`
/// particles, unless the store was already full (then there are no parents).
pub proof fn lemma_parents_respect_cap(
    alive: Seq<bool>,
    rich: Seq<bool>,
    ages: Seq<u64>,
    min_age: u64,
    max_particles: int,
)
    ensures
        alive.len() >= max_particles ==> spec_parents(alive, rich, ages, min_age, max_particles).len() == 0,
        alive.len() < max_particles ==> alive.len() + spec_parents(alive, rich, ages, min_age, max_particles).len()
            <= max_particles,
{
}

} // verus!
