//! Symbol emission: the sensor particles of an organism of at least four
//! members emit on a channel chosen from their surroundings, and the channels
//! in use form the active symbol set.
//!
//! Reading symbols samples real-valued fields and stays with the caller.
use vstd::prelude::*;
use crate::organism::{dominant_prefix, emit_channel, spec_emit_channel};
use crate::roles::{type_index, ParticleType, NUM_TYPES};

verus! {

/// Fewest members of an organism whose sensors emit symbols.
pub const MIN_EMITTER_SIZE: usize = 4;

/// Number of symbol channels (channel 0 stays unused by emitters).
pub const NUM_CHANNELS: usize = 8;

/// Number of the first `m` members of type index `t`.
pub open spec fn type_count(types: Seq<ParticleType>, t: int, m: int) -> nat
    decreases m,
{
    if m <= 0 {
        0
    } else {
        type_count(types, t, m - 1) + if type_index(types[m - 1]) == t {
            1nat
        } else {
            0nat
        }
    }
}

/// The members counted by type, in type order.
pub open spec fn type_counts(types: Seq<ParticleType>) -> Seq<u32> {
    Seq::new(NUM_TYPES as nat, |t: int| type_count(types, t, types.len() as int) as u32)
}

/// What each member emits: nothing in an organism of fewer than
/// `MIN_EMITTER_SIZE` members; else a Catalyst member with a high signal
/// emits on the channel its surroundings choose, and no other member emits.
pub open spec fn spec_emissions(
    types: Seq<ParticleType>,
    signal_high: Seq<bool>,
    near_vent: Seq<bool>,
    predation_count: u32,
    energy_rich: bool,
) -> Seq<Option<u8>> {
    Seq::new(
        types.len(),
        |k: int|
            if types.len() >= MIN_EMITTER_SIZE && types[k] == ParticleType::Catalyst && signal_high[k] {
                Some(
                    spec_emit_channel(
                        near_vent[k],
                        predation_count,
                        energy_rich,
                        type_counts(types),
                    ) as u8,
                )
            } else {
                None
            },
    )
}

fn count_types(types: &Vec<ParticleType>) -> (c: Vec<u32>)
    requires
        types@.len() <= u32::MAX,
    ensures
        c@ == type_counts(types@),
{
    let mut c: Vec<u32> = vec![0, 0, 0, 0, 0, 0];
    let mut m: usize = 0;
    while m < types.len()
        invariant
            types@.len() <= u32::MAX,
            0 <= m <= types@.len(),
            c@.len() == NUM_TYPES,
            forall|t: int| 0 <= t < NUM_TYPES ==> #[trigger] c@[t] == type_count(types@, t, m as int),
            forall|t: int| 0 <= t < NUM_TYPES ==> #[trigger] type_count(types@, t, m as int) <= m,
        decreases types@.len() - m,
    {
        proof {
            assert forall|t: int| 0 <= t < NUM_TYPES implies #[trigger] type_count(
                types@,
                t,
                m + 1,
            ) <= m + 1 by {
                assert(type_count(types@, t, m as int) <= m);
            }
        }
        let t: usize = match types[m] {
            ParticleType::Alpha => 0,
            ParticleType::Beta => 1,
            ParticleType::Catalyst => 2,
            ParticleType::Data => 3,
            ParticleType::Membrane => 4,
            ParticleType::Motor => 5,
        };
        c.set(t, c[t] + 1);
        m = m + 1;
    }
    assert(c@ =~= type_counts(types@));
    c
}

/// The symbols an organism's members emit. `types`, `signal_high` (signal
/// above the emission threshold) and `near_vent` describe its members;
/// `energy_rich` tells whether the organism holds more energy than three per
/// member. Returns each member's channel, or `None` where it does not emit.
pub fn emit_symbols(
    types: &Vec<ParticleType>,
    signal_high: &Vec<bool>,
    near_vent: &Vec<bool>,
    predation_count: u32,
    energy_rich: bool,
) -> (emits: Vec<Option<u8>>)
    requires
        signal_high@.len() == types@.len(),
        near_vent@.len() == types@.len(),
        types@.len() <= u32::MAX,
    ensures
        emits@ == spec_emissions(types@, signal_high@, near_vent@, predation_count, energy_rich),
        forall|k: int|
            0 <= k < emits@.len() && #[trigger] emits@[k] is Some ==> 1 <= emits@[k].unwrap() <= 7,
{
    let n = types.len();
    let counts = count_types(types);
    let mut emits: Vec<Option<u8>> = Vec::new();
    let mut k: usize = 0;
    while k < n
        invariant
            n == types@.len(),
            signal_high@.len() == n,
            near_vent@.len() == n,
            counts@ == type_counts(types@),
            0 <= k <= n,
            emits@.len() == k,
            forall|j: int|
                0 <= j < k ==> #[trigger] emits@[j] == spec_emissions(
                    types@,
                    signal_high@,
                    near_vent@,
                    predation_count,
                    energy_rich,
                )[j],
            forall|j: int| 0 <= j < k && #[trigger] emits@[j] is Some ==> 1 <= emits@[j].unwrap() <= 7,
        decreases n - k,
    {
        if n >= MIN_EMITTER_SIZE && types[k] == ParticleType::Catalyst && signal_high[k] {
            let ch = emit_channel(near_vent[k], predation_count, energy_rich, &counts);
            emits.push(Some(ch));
        } else {
            emits.push(None);
        }
        k = k + 1;
    }
    assert(emits@ =~= spec_emissions(types@, signal_high@, near_vent@, predation_count, energy_rich));
    emits
}

/// Whether channel `ch` is among the emissions.
pub open spec fn channel_in_use(emits: Seq<Option<u8>>, ch: int) -> bool {
    exists|k: int| 0 <= k < emits.len() && #[trigger] emits[k] == Some(ch as u8)
}

/// The active symbol set of a round's emissions, as one flag per channel:
/// `active[ch]` holds exactly when some member emitted on `ch`.
pub fn active_channels(emits: &Vec<Option<u8>>) -> (active: Vec<bool>)
    ensures
        active@.len() == NUM_CHANNELS,
        forall|ch: int| 0 <= ch < NUM_CHANNELS ==> #[trigger] active@[ch] == channel_in_use(emits@, ch),
{
    let mut active: Vec<bool> = vec![false, false, false, false, false, false, false, false];
    let mut k: usize = 0;
    while k < emits.len()
        invariant
            0 <= k <= emits@.len(),
            active@.len() == NUM_CHANNELS,
            forall|ch: int|
                0 <= ch < NUM_CHANNELS ==> (#[trigger] active@[ch] <==> exists|j: int|
                    0 <= j < k && #[trigger] emits@[j] == Some(ch as u8)),
        decreases emits@.len() - k,
    {
        match emits[k] {
            Some(ch) => {
                if (ch as usize) < NUM_CHANNELS {
                    active.set(ch as usize, true);
                }
            },
            None => {},
        }
        proof {
            assert forall|ch: int| 0 <= ch < NUM_CHANNELS implies (#[trigger] active@[ch] <==> exists|j: int|
                0 <= j < k + 1 && #[trigger] emits@[j] == Some(ch as u8)) by {
                if active@[ch] && !(exists|j: int| 0 <= j < k && #[trigger] emits@[j] == Some(ch as u8)) {
                    assert(emits@[k as int] == Some(ch as u8));
                }
                if exists|j: int| 0 <= j < k + 1 && #[trigger] emits@[j] == Some(ch as u8) {
                    let j = choose|j: int| 0 <= j < k + 1 && #[trigger] emits@[j] == Some(ch as u8);
                    if j == k {
                        assert(active@[ch]);
                    }
                }
            }
        }
        k = k + 1;
    }
    active
}

proof fn lemma_dominant_prefix(counts: Seq<u32>, k: int)
    requires
        1 <= k <= counts.len(),
    ensures
        0 <= dominant_prefix(counts, k) < k,
        forall|j: int| 0 <= j < k ==> #[trigger] counts[j] <= counts[dominant_prefix(counts, k)],
        forall|j: int| dominant_prefix(counts, k) < j < k ==> #[trigger] counts[j] < counts[dominant_prefix(counts, k)],
    decreases k,
{
    if k > 1 {
        lemma_dominant_prefix(counts, k - 1);
    }
}

/// Number of members of type index `t`, counted directly.
pub open spec fn members_of_type(types: Seq<ParticleType>, t: int) -> nat {
    type_count(types, t, types.len() as int)
}

/// `d` is the type index with the most members: no type has more, and every
/// later type has fewer.
pub open spec fn is_dominant_type(types: Seq<ParticleType>, d: int) -> bool {
    &&& 0 <= d < NUM_TYPES
    &&& forall|t: int| 0 <= t < NUM_TYPES ==> #[trigger] members_of_type(types, t) <= members_of_type(types, d)
    &&& forall|t: int| d < t < NUM_TYPES ==> #[trigger] members_of_type(types, t) < members_of_type(types, d)
}

/// What each member emits: a member emits exactly when the organism has at
/// least `MIN_EMITTER_SIZE` members and it is a Catalyst with a high signal;
/// an emitter near a vent emits on channel 1; otherwise on channel 2 after
/// more than three predations; otherwise on 3 when rich in energy; otherwise
/// on `d + 1`, where `d` is the type index with the most members (no type has
/// more, and every later type has fewer).
pub proof fn lemma_emissions_by_context(
    types: Seq<ParticleType>,
    signal_high: Seq<bool>,
    near_vent: Seq<bool>,
    predation_count: u32,
    energy_rich: bool,
)
    requires
        signal_high.len() == types.len(),
        near_vent.len() == types.len(),
        types.len() <= u32::MAX,
    ensures
        ({
            let e = spec_emissions(types, signal_high, near_vent, predation_count, energy_rich);
            &&& e.len() == types.len()
            &&& forall|k: int|
                0 <= k < types.len() ==> ((#[trigger] e[k] is Some) <==> (types.len() >= MIN_EMITTER_SIZE
                    && types[k] == ParticleType::Catalyst && signal_high[k]))
            &&& forall|k: int|
                0 <= k < types.len() && #[trigger] e[k] is Some && near_vent[k] ==> e[k] == Some(1u8)
            &&& forall|k: int|
                0 <= k < types.len() && #[trigger] e[k] is Some && !near_vent[k] && predation_count > 3
                    ==> e[k] == Some(2u8)
            &&& forall|k: int|
                0 <= k < types.len() && #[trigger] e[k] is Some && !near_vent[k] && predation_count <= 3
                    && energy_rich ==> e[k] == Some(3u8)
            &&& exists|d: int| #[trigger] is_dominant_type(types, d)
            &&& forall|k: int, d: int|
                0 <= k < types.len() && #[trigger] e[k] is Some && !near_vent[k] && predation_count <= 3
                    && !energy_rich && #[trigger] is_dominant_type(types, d) ==> e[k] == Some((d + 1) as u8)
        }),
{
    let counts = type_counts(types);
    lemma_dominant_prefix(counts, NUM_TYPES as int);
    let d = dominant_prefix(counts, NUM_TYPES as int);
    assert forall|t: int| 0 <= t < NUM_TYPES implies members_of_type(types, t) == counts[t] by {
        lemma_type_count_bound(types, t, types.len() as int);
    }
    let e = spec_emissions(types, signal_high, near_vent, predation_count, energy_rich);
    assert(is_dominant_type(types, d));
    assert forall|d2: int| #[trigger] is_dominant_type(types, d2) implies d2 == d by {
        if d2 < d {
            assert(members_of_type(types, d) < members_of_type(types, d2));
        } else if d < d2 {
            assert(members_of_type(types, d2) < members_of_type(types, d));
        }
    }
    assert(d % 7 == d);
}

proof fn lemma_type_count_bound(types: Seq<ParticleType>, t: int, m: int)
    requires
        0 <= m <= types.len(),
    ensures
        type_count(types, t, m) <= m,
    decreases m,
{
    if m > 0 {
        lemma_type_count_bound(types, t, m - 1);
    }
}

} // verus!
