//! Cultural memes: organisms of more than `CULTURE_MIN_SIZE` members without
//! a meme may innovate one, and organisms with a meme pass it to nearby
//! organisms without one. Each adoption is remembered in the organism's
//! cultural memory, which keeps at most `MEMORY_CAP` memes.
//!
//! Which pairs are near, and the chance draws, are the caller's: it is told
//! which organisms may innovate and which pairs are candidates for
//! transmission, in the order in which the draws are made, and hands back the
//! outcomes.
use vstd::prelude::*;
use crate::organism::{innovation_base, remember, remember_meme, spec_meme_kind, MEMORY_CAP};

verus! {

/// Organisms of at most this many members take no part in culture.
pub const CULTURE_MIN_SIZE: usize = 5;

/// Whether organism `o` takes part: more than `CULTURE_MIN_SIZE` members.
pub open spec fn takes_part(sizes: Seq<usize>, o: int) -> bool {
    sizes[o] > CULTURE_MIN_SIZE
}

/// The organisms among the first `m` that may innovate: taking part, and
/// without a meme.
pub open spec fn innovators_prefix(sizes: Seq<usize>, memes: Seq<u16>, m: int) -> Seq<usize>
    decreases m,
{
    if m <= 0 {
        Seq::empty()
    } else if takes_part(sizes, m - 1) && memes[m - 1] == 0 {
        innovators_prefix(sizes, memes, m - 1).push((m - 1) as usize)
    } else {
        innovators_prefix(sizes, memes, m - 1)
    }
}

/// The organisms that may innovate, in order.
pub fn innovation_candidates(sizes: &Vec<usize>, memes: &Vec<u16>) -> (c: Vec<usize>)
    requires
        memes@.len() == sizes@.len(),
    ensures
        c@ == innovators_prefix(sizes@, memes@, sizes@.len() as int),
{
    let mut c: Vec<usize> = Vec::new();
    let mut o: usize = 0;
    while o < sizes.len()
        invariant
            memes@.len() == sizes@.len(),
            0 <= o <= sizes@.len(),
            c@ == innovators_prefix(sizes@, memes@, o as int),
        decreases sizes@.len() - o,
    {
        if sizes[o] > CULTURE_MIN_SIZE && memes[o] == 0 {
            c.push(o);
        }
        o = o + 1;
    }
    c
}

/// The meme an organism innovates: the base its context chooses plus a
/// random offset below 4; it lies between 1 and 16.
pub fn innovated_meme(predation_count: u32, high_fitness: bool, energy_rich: bool, offset: u16) -> (m: u16)
    requires
        offset < 4,
    ensures
        m == innovation_base_spec(predation_count, high_fitness, energy_rich) + offset,
        1 <= m <= 16,
        spec_meme_kind(m) is Some,
{
    innovation_base(predation_count, high_fitness, energy_rich) + offset
}

/// The first meme of the block an organism innovates in.
pub open spec fn innovation_base_spec(predation_count: u32, high_fitness: bool, energy_rich: bool) -> int {
    if predation_count > 2 {
        9
    } else if high_fitness {
        5
    } else if energy_rich {
        13
    } else {
        1
    }
}

/// Whether source `s` may pass its meme to target `t`: both take part, `s`
/// has a meme, `t` has none, and they are near.
pub open spec fn may_transmit(
    sizes: Seq<usize>,
    memes: Seq<u16>,
    near: Seq<Vec<bool>>,
    s: int,
    t: int,
) -> bool {
    &&& s != t
    &&& takes_part(sizes, s)
    &&& takes_part(sizes, t)
    &&& memes[s] != 0
    &&& memes[t] == 0
    &&& near[s]@[t]
}

/// Candidate pairs of source `s` with targets `0 .. m`.
pub open spec fn row_candidates(
    sizes: Seq<usize>,
    memes: Seq<u16>,
    near: Seq<Vec<bool>>,
    s: int,
    m: int,
) -> Seq<(usize, usize)>
    decreases m,
{
    if m <= 0 {
        Seq::empty()
    } else if may_transmit(sizes, memes, near, s, m - 1) {
        row_candidates(sizes, memes, near, s, m - 1).push((s as usize, (m - 1) as usize))
    } else {
        row_candidates(sizes, memes, near, s, m - 1)
    }
}

/// Candidate pairs of sources `0 .. k`, source by source.
pub open spec fn all_candidates(sizes: Seq<usize>, memes: Seq<u16>, near: Seq<Vec<bool>>, k: int) -> Seq<
    (usize, usize),
>
    decreases k,
{
    if k <= 0 {
        Seq::empty()
    } else {
        all_candidates(sizes, memes, near, k - 1) + row_candidates(
            sizes,
            memes,
            near,
            k - 1,
            sizes.len() as int,
        )
    }
}

/// The pairs `(source, target)` for which a transmission draw is made, in
/// the order of the draws: sources in order, and for each its targets in order.
pub fn transmission_candidates(sizes: &Vec<usize>, memes: &Vec<u16>, near: &Vec<Vec<bool>>) -> (c: Vec<
    (usize, usize),
>)
    requires
        memes@.len() == sizes@.len(),
        near@.len() == sizes@.len(),
        forall|s: int| 0 <= s < near@.len() ==> #[trigger] near@[s]@.len() == sizes@.len(),
    ensures
        c@ == all_candidates(sizes@, memes@, near@, sizes@.len() as int),
{
    let n = sizes.len();
    let mut c: Vec<(usize, usize)> = Vec::new();
    let mut s: usize = 0;
    while s < n
        invariant
            n == sizes@.len(),
            memes@.len() == n,
            near@.len() == n,
            forall|q: int| 0 <= q < near@.len() ==> #[trigger] near@[q]@.len() == n,
            0 <= s <= n,
            c@ == all_candidates(sizes@, memes@, near@, s as int),
        decreases n - s,
    {
        let ghost before = c@;
        let mut t: usize = 0;
        while t < n
            invariant
                n == sizes@.len(),
                memes@.len() == n,
                near@.len() == n,
                forall|q: int| 0 <= q < near@.len() ==> #[trigger] near@[q]@.len() == n,
                0 <= s < n,
                0 <= t <= n,
                c@ == before + row_candidates(sizes@, memes@, near@, s as int, t as int),
            decreases n - t,
        {
            if t != s && sizes[s] > CULTURE_MIN_SIZE && sizes[t] > CULTURE_MIN_SIZE && memes[s] != 0
                && memes[t] == 0 && near[s][t] {
                c.push((s, t));
                assert(c@ =~= before + row_candidates(sizes@, memes@, near@, s as int, t + 1));
            }
            t = t + 1;
        }
        s = s + 1;
    }
    c
}

/// The adoptions of a round, in order: each innovation `(organism, meme)`,
/// then each transmission `(source, target)` as the target adopting the
/// source's meme from before the round.
pub open spec fn adoptions(
    memes: Seq<u16>,
    innovations: Seq<(usize, u16)>,
    transmissions: Seq<(usize, usize)>,
) -> Seq<(usize, u16)> {
    innovations + transmissions.map_values(|p: (usize, usize)| (p.1, memes[p.0 as int]))
}

/// The memes after the first `k` adoptions.
pub open spec fn memes_after(memes: Seq<u16>, events: Seq<(usize, u16)>, k: int) -> Seq<u16>
    decreases k,
{
    if k <= 0 {
        memes
    } else {
        memes_after(memes, events, k - 1).update(events[k - 1].0 as int, events[k - 1].1)
    }
}

/// The cultural memories after the first `k` adoptions.
pub open spec fn memories_after(mems: Seq<Seq<u16>>, events: Seq<(usize, u16)>, k: int) -> Seq<Seq<u16>>
    decreases k,
{
    if k <= 0 {
        mems
    } else {
        let prev = memories_after(mems, events, k - 1);
        let (o, m) = events[k - 1];
        prev.update(o as int, remember(prev[o as int], m))
    }
}

/// One round of culture. `memes[o]` is organism `o`'s meme before the round
/// (0 for none), `innovations` the memes innovated `(organism, meme)`, and
/// `transmissions` the pairs `(source, target)` whose draw succeeded. The
/// adoptions take effect in order: innovations first, then each target takes
/// its source's meme from before the round. Each adoption is remembered in
/// the adopter's memory. Returns the memes after the round and the number of
/// cultural events.
pub fn culture_round(
    memes: &Vec<u16>,
    innovations: &Vec<(usize, u16)>,
    transmissions: &Vec<(usize, usize)>,
    memories: &mut Vec<Vec<u16>>,
) -> (r: (Vec<u16>, usize))
    requires
        old(memories)@.len() == memes@.len(),
        forall|k: int| 0 <= k < innovations@.len() ==> (#[trigger] innovations@[k]).0 < memes@.len(),
        forall|k: int|
            0 <= k < transmissions@.len() ==> (#[trigger] transmissions@[k]).0 < memes@.len()
                && transmissions@[k].1 < memes@.len(),
        innovations@.len() + transmissions@.len() <= usize::MAX,
    ensures
        ({
            let ev = adoptions(memes@, innovations@, transmissions@);
            &&& r.0@ == memes_after(memes@, ev, ev.len() as int)
            &&& final(memories)@.len() == old(memories)@.len()
            &&& forall|o: int|
                0 <= o < memes@.len() ==> #[trigger] final(memories)@[o]@ == memories_after(
                    old(memories)@.map_values(|v: Vec<u16>| v@),
                    ev,
                    ev.len() as int,
                )[o]
            &&& r.1 == ev.len()
        }),
{
    let ghost ev = adoptions(memes@, innovations@, transmissions@);
    let ghost m0 = old(memories)@.map_values(|v: Vec<u16>| v@);
    let mut events: Vec<(usize, u16)> = Vec::new();
    let mut k: usize = 0;
    while k < innovations.len()
        invariant
            0 <= k <= innovations@.len(),
            events@ == innovations@.take(k as int),
        decreases innovations@.len() - k,
    {
        events.push(innovations[k]);
        k = k + 1;
        assert(events@ =~= innovations@.take(k as int));
    }
    let mut k: usize = 0;
    while k < transmissions.len()
        invariant
            0 <= k <= transmissions@.len(),
            forall|q: int|
                0 <= q < transmissions@.len() ==> (#[trigger] transmissions@[q]).0 < memes@.len()
                    && transmissions@[q].1 < memes@.len(),
            events@ == innovations@ + transmissions@.take(k as int).map_values(
                |p: (usize, usize)| (p.1, memes@[p.0 as int]),
            ),
        decreases transmissions@.len() - k,
    {
        let (s, t) = transmissions[k];
        events.push((t, memes[s]));
        k = k + 1;
        assert(events@ =~= innovations@ + transmissions@.take(k as int).map_values(
            |p: (usize, usize)| (p.1, memes@[p.0 as int]),
        ));
    }
    assert(transmissions@.take(transmissions@.len() as int) =~= transmissions@);
    assert(events@ == ev);
    let mut out: Vec<u16> = memes.clone();
    let mut k: usize = 0;
    while k < events.len()
        invariant
            events@ == ev,
            memes@.len() == m0.len(),
            forall|q: int| 0 <= q < ev.len() ==> (#[trigger] ev[q]).0 < memes@.len(),
            0 <= k <= ev.len(),
            out@ == memes_after(memes@, ev, k as int),
            out@.len() == memes@.len(),
            memories@.len() == m0.len(),
            memories_after(m0, ev, k as int).len() == m0.len(),
            forall|o: int| 0 <= o < m0.len() ==> #[trigger] memories@[o]@ == memories_after(m0, ev, k as int)[o],
        decreases ev.len() - k,
    {
        let (o, m) = events[k];
        out.set(o, m);
        let mut row = memories.remove(o);
        remember_meme(&mut row, m);
        memories.insert(o, row);
        k = k + 1;
        proof {
            let prev = memories_after(m0, ev, k - 1);
            assert(memories_after(m0, ev, k as int) == prev.update(o as int, remember(prev[o as int], m)));
        }
    }
    (out, events.len())
}

/// Cultural memory stays bounded: a round leaves every memory that held at
/// most `MEMORY_CAP` memes still holding at most `MEMORY_CAP`, with each
/// adopter's newest meme last.
pub proof fn lemma_memories_bounded(mems: Seq<Seq<u16>>, events: Seq<(usize, u16)>, k: int)
    requires
        0 <= k <= events.len(),
        forall|o: int| 0 <= o < mems.len() ==> (#[trigger] mems[o]).len() <= MEMORY_CAP,
        forall|q: int| 0 <= q < events.len() ==> (#[trigger] events[q]).0 < mems.len(),
    ensures
        memories_after(mems, events, k).len() == mems.len(),
        forall|o: int|
            0 <= o < mems.len() ==> (#[trigger] memories_after(mems, events, k)[o]).len() <= MEMORY_CAP,
        k > 0 ==> memories_after(mems, events, k)[events[k - 1].0 as int].last() == events[k - 1].1,
    decreases k,
{
    if k > 0 {
        lemma_memories_bounded(mems, events, k - 1);
        let prev = memories_after(mems, events, k - 1);
        let (o, m) = events[k - 1];
        crate::organism::lemma_remember_bounded(prev[o as int], m);
    }
}

proof fn lemma_row_candidates_sound(
    sizes: Seq<usize>,
    memes: Seq<u16>,
    near: Seq<Vec<bool>>,
    s: int,
    m: int,
)
    requires
        0 <= s < sizes.len(),
        0 <= m <= sizes.len(),
        sizes.len() <= usize::MAX,
    ensures
        forall|q: int|
            0 <= q < row_candidates(sizes, memes, near, s, m).len() ==> {
                let (a, b) = #[trigger] row_candidates(sizes, memes, near, s, m)[q];
                &&& a as int == s
                &&& (b as int) < m
                &&& a != b
                &&& sizes[a as int] > CULTURE_MIN_SIZE
                &&& sizes[b as int] > CULTURE_MIN_SIZE
                &&& memes[a as int] != 0
                &&& memes[b as int] == 0
                &&& near[a as int]@[b as int]
            },
        forall|t: int|
            0 <= t < m && t != s && sizes[s] > CULTURE_MIN_SIZE && sizes[t] > CULTURE_MIN_SIZE
                && memes[s] != 0 && memes[t] == 0 && near[s]@[t] ==> row_candidates(
                sizes,
                memes,
                near,
                s,
                m,
            ).contains((s as usize, t as usize)),
    decreases m,
{
    if m > 0 {
        lemma_row_candidates_sound(sizes, memes, near, s, m - 1);
        let prev = row_candidates(sizes, memes, near, s, m - 1);
        let cur = row_candidates(sizes, memes, near, s, m);
        assert forall|t: int|
            0 <= t < m && t != s && sizes[s] > CULTURE_MIN_SIZE && sizes[t] > CULTURE_MIN_SIZE
                && memes[s] != 0 && memes[t] == 0 && near[s]@[t] implies cur.contains(
                (s as usize, t as usize),
            ) by {
            if t < m - 1 {
                let q = choose|q: int| 0 <= q < prev.len() && prev[q] == (s as usize, t as usize);
                if may_transmit(sizes, memes, near, s, m - 1) {
                    assert(cur[q] == prev[q]);
                }
            } else {
                assert(cur[prev.len() as int] == (s as usize, t as usize));
            }
        }
    }
}

proof fn lemma_all_candidates_sound(sizes: Seq<usize>, memes: Seq<u16>, near: Seq<Vec<bool>>, k: int)
    requires
        0 <= k <= sizes.len(),
        sizes.len() <= usize::MAX,
    ensures
        forall|q: int|
            0 <= q < all_candidates(sizes, memes, near, k).len() ==> {
                let (a, b) = #[trigger] all_candidates(sizes, memes, near, k)[q];
                &&& (a as int) < k
                &&& (b as int) < sizes.len()
                &&& a != b
                &&& sizes[a as int] > CULTURE_MIN_SIZE
                &&& sizes[b as int] > CULTURE_MIN_SIZE
                &&& memes[a as int] != 0
                &&& memes[b as int] == 0
                &&& near[a as int]@[b as int]
            },
        forall|s: int, t: int|
            0 <= s < k && 0 <= t < sizes.len() && s != t && sizes[s] > CULTURE_MIN_SIZE
                && sizes[t] > CULTURE_MIN_SIZE && memes[s] != 0 && memes[t] == 0 && near[s]@[t]
                ==> all_candidates(sizes, memes, near, k).contains((s as usize, t as usize)),
    decreases k,
{
    if k > 0 {
        lemma_all_candidates_sound(sizes, memes, near, k - 1);
        lemma_row_candidates_sound(sizes, memes, near, k - 1, sizes.len() as int);
        let prev = all_candidates(sizes, memes, near, k - 1);
        let row = row_candidates(sizes, memes, near, k - 1, sizes.len() as int);
        let cur = all_candidates(sizes, memes, near, k);
        assert(cur == prev + row);
        assert forall|q: int| 0 <= q < cur.len() implies {
            let (a, b) = #[trigger] cur[q];
            &&& (a as int) < k
            &&& (b as int) < sizes.len()
            &&& a != b
            &&& sizes[a as int] > CULTURE_MIN_SIZE
            &&& sizes[b as int] > CULTURE_MIN_SIZE
            &&& memes[a as int] != 0
            &&& memes[b as int] == 0
            &&& near[a as int]@[b as int]
        } by {
            if q < prev.len() {
                assert(cur[q] == prev[q]);
            } else {
                assert(cur[q] == row[q - prev.len()]);
            }
        }
        assert forall|s: int, t: int|
            0 <= s < k && 0 <= t < sizes.len() && s != t && sizes[s] > CULTURE_MIN_SIZE
                && sizes[t] > CULTURE_MIN_SIZE && memes[s] != 0 && memes[t] == 0 && near[s]@[t]
                implies cur.contains((s as usize, t as usize)) by {
            if s < k - 1 {
                let q = choose|q: int| 0 <= q < prev.len() && prev[q] == (s as usize, t as usize);
                assert(cur[q] == prev[q]);
            } else {
                let q = choose|q: int| 0 <= q < row.len() && row[q] == (s as usize, t as usize);
                assert(cur[prev.len() + q] == row[q]);
            }
        }
    }
}

/// The transmission candidates are exactly the pairs `(s, t)` of different
/// organisms, both of more than `CULTURE_MIN_SIZE` members, where `s` holds a
/// meme, `t` holds none, and `t` is near `s`.
pub proof fn lemma_transmission_candidates_exact(sizes: Seq<usize>, memes: Seq<u16>, near: Seq<Vec<bool>>)
    requires
        sizes.len() <= usize::MAX,
    ensures
        forall|s: int, t: int|
            0 <= s < sizes.len() && 0 <= t < sizes.len() ==> (all_candidates(
                sizes,
                memes,
                near,
                sizes.len() as int,
            ).contains((s as usize, t as usize)) <==> (s != t && sizes[s] > CULTURE_MIN_SIZE
                && sizes[t] > CULTURE_MIN_SIZE && memes[s] != 0 && memes[t] == 0 && near[s]@[t])),
        forall|q: int|
            0 <= q < all_candidates(sizes, memes, near, sizes.len() as int).len() ==> {
                let (s, t) = #[trigger] all_candidates(sizes, memes, near, sizes.len() as int)[q];
                &&& (s as int) < sizes.len()
                &&& (t as int) < sizes.len()
                &&& s != t
                &&& memes[s as int] != 0
                &&& memes[t as int] == 0
            },
{
    let n = sizes.len() as int;
    lemma_all_candidates_sound(sizes, memes, near, n);
    let c = all_candidates(sizes, memes, near, n);
    assert forall|s: int, t: int| 0 <= s < n && 0 <= t < n && c.contains((s as usize, t as usize))
        implies (s != t && sizes[s] > CULTURE_MIN_SIZE && sizes[t] > CULTURE_MIN_SIZE && memes[s] != 0
        && memes[t] == 0 && near[s]@[t]) by {
        let q = choose|q: int| 0 <= q < c.len() && c[q] == (s as usize, t as usize);
        let (a, b) = c[q];
        assert(a as int == s && b as int == t);
    }
}

/// After a round, an organism that adopted no meme keeps its meme and its
/// memory, and an organism that adopted holds the meme of its last adoption.
pub proof fn lemma_round_outcome(
    memes: Seq<u16>,
    mems: Seq<Seq<u16>>,
    events: Seq<(usize, u16)>,
    k: int,
)
    requires
        0 <= k <= events.len(),
        mems.len() == memes.len(),
        forall|q: int| 0 <= q < events.len() ==> (#[trigger] events[q]).0 < memes.len(),
    ensures
        memes_after(memes, events, k).len() == memes.len(),
        memories_after(mems, events, k).len() == mems.len(),
        forall|o: int|
            0 <= o < memes.len() && (forall|q: int| 0 <= q < k ==> (#[trigger] events[q]).0 != o) ==> {
                &&& #[trigger] memes_after(memes, events, k)[o] == memes[o]
                &&& memories_after(mems, events, k)[o] == mems[o]
            },
        forall|o: int, q: int|
            0 <= o < memes.len() && 0 <= q < k && (#[trigger] events[q]).0 == o && (forall|r: int|
                q < r < k ==> (#[trigger] events[r]).0 != o) ==> #[trigger] memes_after(memes, events, k)[o]
                == events[q].1,
    decreases k,
{
    if k > 0 {
        lemma_round_outcome(memes, mems, events, k - 1);
        let (x, m) = events[k - 1];
        assert forall|o: int, q: int|
            0 <= o < memes.len() && 0 <= q < k && (#[trigger] events[q]).0 == o && (forall|r: int|
                q < r < k ==> (#[trigger] events[r]).0 != o) implies #[trigger] memes_after(memes, events, k)[o]
            == events[q].1 by {
            if q < k - 1 {
                assert(events[k - 1].0 != o);
            }
        }
        assert forall|o: int|
            0 <= o < memes.len() && (forall|q: int| 0 <= q < k ==> (#[trigger] events[q]).0 != o) implies {
            &&& #[trigger] memes_after(memes, events, k)[o] == memes[o]
            &&& memories_after(mems, events, k)[o] == mems[o]
        } by {
            assert(events[k - 1].0 != o);
            assert(forall|q: int| 0 <= q < k - 1 ==> (#[trigger] events[q]).0 != o);
        }
    }
}

/// A round's adoptions are its innovations, in order, followed by one
/// adoption per successful transmission, in order, in which the target takes
/// the meme its source held before the round.
pub proof fn lemma_adoptions_order(
    memes: Seq<u16>,
    innovations: Seq<(usize, u16)>,
    transmissions: Seq<(usize, usize)>,
)
    ensures
        ({
            let ev = adoptions(memes, innovations, transmissions);
            &&& ev.len() == innovations.len() + transmissions.len()
            &&& forall|q: int| 0 <= q < innovations.len() ==> #[trigger] ev[q] == innovations[q]
            &&& forall|q: int|
                0 <= q < transmissions.len() ==> #[trigger] ev[innovations.len() + q] == (
                    transmissions[q].1,
                    memes[transmissions[q].0 as int],
                )
        }),
{
}

} // verus!
