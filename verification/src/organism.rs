//! Integer rules of organism-level behaviour: immune signatures, symbol
//! channels, cultural memory, the merge rule of symbiogenesis, the layout of
//! offspring made by two parents and the depth of meta-cognition.
//!
//! Positions, energies and probabilities are real numbers and stay with the
//! caller; these functions take the integer facts that the rules decide on.
use vstd::prelude::*;
use crate::groups::{all_true, is_largest_component, largest_group_size};

verus! {

/// Number of memes an organism remembers; the oldest is forgotten first.
pub const MEMORY_CAP: usize = 8;

/// Ticks of membrane contact after which two organisms may merge.
pub const MERGE_CONTACT_TICKS: u32 = 200;

/// Largest combined size of two organisms that may merge.
pub const MERGE_MAX_SIZE: usize = 50;

// ── Immune signatures ───────────────────────────────────────────────────────
/// The signature after folding in the first `k` type counts: it starts at the
/// low 16 bits of the seed, and each count `c` maps `s` to `(7 s + c / 2) mod 2^16`.
pub open spec fn signature_prefix(seed: u32, counts: Seq<u32>, k: int) -> int
    decreases k,
{
    if k <= 0 {
        seed as int % 0x10000
    } else {
        (signature_prefix(seed, counts, k - 1) * 7 + counts[k - 1] / 2) % 0x10000
    }
}

/// The immune signature of an organism whose members count `counts[t]`
/// particles of type `t`.
pub open spec fn spec_immune_signature(seed: u32, counts: Seq<u32>) -> int {
    signature_prefix(seed, counts, counts.len() as int)
}

proof fn lemma_signature_range(seed: u32, counts: Seq<u32>, k: int)
    ensures
        0 <= signature_prefix(seed, counts, k) < 0x10000,
    decreases k,
{
    if k > 0 {
        lemma_signature_range(seed, counts, k - 1);
    }
}

/// Every immune signature fits in 16 bits.
pub proof fn lemma_immune_signature_16_bits(seed: u32, counts: Seq<u32>)
    ensures
        0 <= spec_immune_signature(seed, counts) < 0x10000,
{
    lemma_signature_range(seed, counts, counts.len() as int);
}

/// Signature of an organism from the seed and its per-type particle counts.
pub fn immune_signature(seed: u32, type_counts: &Vec<u32>) -> (sig: u32)
    ensures
        sig as int == spec_immune_signature(seed, type_counts@),
        sig < 0x10000,
{
    let mut sig: u32 = seed & 0xFFFF;
    assert(seed & 0xFFFFu32 == seed % 0x10000) by (bit_vector);
    let mut t: usize = 0;
    while t < type_counts.len()
        invariant
            0 <= t <= type_counts@.len(),
            sig as int == signature_prefix(seed, type_counts@, t as int),
            sig < 0x10000,
        decreases type_counts@.len() - t,
    {
        let v: u32 = sig * 7 + type_counts[t] / 2;
        let next: u32 = v & 0xFFFF;
        assert(v & 0xFFFFu32 == v % 0x10000) by (bit_vector);
        sig = next;
        t = t + 1;
    }
    sig
}

// ── Dominant type and symbol channels ───────────────────────────────────────
/// Index of the largest of the first `k` counts; among equal counts the last
/// one wins (0 when `k` is at most 1).
pub open spec fn dominant_prefix(counts: Seq<u32>, k: int) -> int
    decreases k,
{
    if k <= 1 {
        0
    } else {
        let d = dominant_prefix(counts, k - 1);
        if counts[k - 1] >= counts[d] {
            k - 1
        } else {
            d
        }
    }
}

/// Index of the type with the most particles; among equal counts the last
/// one wins, and an empty count list gives 0.
pub fn dominant_type(counts: &Vec<u32>) -> (d: usize)
    ensures
        d == dominant_prefix(counts@, counts@.len() as int),
        counts@.len() > 0 ==> d < counts@.len(),
        forall|k: int| 0 <= k < counts@.len() ==> #[trigger] counts@[k] <= counts@[d as int],
        forall|k: int| d < k < counts@.len() ==> #[trigger] counts@[k] < counts@[d as int],
{
    if counts.len() == 0 {
        return 0;
    }
    let mut d: usize = 0;
    let mut k: usize = 1;
    while k < counts.len()
        invariant
            0 <= d < k <= counts@.len(),
            d == dominant_prefix(counts@, k as int),
            forall|j: int| 0 <= j < k ==> #[trigger] counts@[j] <= counts@[d as int],
            forall|j: int| d < j < k ==> #[trigger] counts@[j] < counts@[d as int],
        decreases counts@.len() - k,
    {
        if counts[k] >= counts[d] {
            d = k;
        }
        k = k + 1;
    }
    d
}

/// The symbol channel an organism's sensor emits on: food (1) near a vent,
/// else danger (2) after more than three predations, else mating (3) when
/// rich in energy, else `d mod 7 + 1` for its dominant type `d`.
pub open spec fn spec_emit_channel(
    near_vent: bool,
    predation_count: u32,
    energy_rich: bool,
    counts: Seq<u32>,
) -> int {
    if near_vent {
        1
    } else if predation_count > 3 {
        2
    } else if energy_rich {
        3
    } else {
        dominant_prefix(counts, counts.len() as int) % 7 + 1
    }
}

/// The channel (1 to 7) on which an organism's sensors emit symbols.
pub fn emit_channel(near_vent: bool, predation_count: u32, energy_rich: bool, type_counts: &Vec<
    u32,
>) -> (ch: u8)
    ensures
        ch == spec_emit_channel(near_vent, predation_count, energy_rich, type_counts@),
        1 <= ch <= 7,
{
    if near_vent {
        1
    } else if predation_count > 3 {
        2
    } else if energy_rich {
        3
    } else {
        let d = dominant_type(type_counts);
        ((d % 7) as u8) + 1
    }
}

// ── Cultural memory ─────────────────────────────────────────────────────────
/// The kind of behaviour a meme stands for.
#[derive(Clone, Copy, Debug, PartialEq, Eq, Structural)]
pub enum MemeKind {
    /// Memes 1 to 4.
    Foraging,
    /// Memes 5 to 8.
    Social,
    /// Memes 9 to 12.
    Defensive,
    /// Memes 13 to 16.
    ToolBuilding,
}

/// The kind of a meme; 0 (no meme) and numbers above 16 have none.
pub open spec fn spec_meme_kind(meme: u16) -> Option<MemeKind> {
    if 1 <= meme <= 4 {
        Some(MemeKind::Foraging)
    } else if 5 <= meme <= 8 {
        Some(MemeKind::Social)
    } else if 9 <= meme <= 12 {
        Some(MemeKind::Defensive)
    } else if 13 <= meme <= 16 {
        Some(MemeKind::ToolBuilding)
    } else {
        None
    }
}

/// The kind of behaviour that meme `meme` drives, if any.
pub fn meme_kind(meme: u16) -> (k: Option<MemeKind>)
    ensures
        k == spec_meme_kind(meme),
{
    if 1 <= meme && meme <= 4 {
        Some(MemeKind::Foraging)
    } else if 5 <= meme && meme <= 8 {
        Some(MemeKind::Social)
    } else if 9 <= meme && meme <= 12 {
        Some(MemeKind::Defensive)
    } else if 13 <= meme && meme <= 16 {
        Some(MemeKind::ToolBuilding)
    } else {
        None
    }
}

/// First meme of the block an organism innovates in: defensive (9) when it
/// has preyed more than twice, else social (5) when it is highly fit, else
/// tool-building (13) when it is rich in energy, else foraging (1). The meme
/// itself is this base plus a random offset from 0 to 3.
pub fn innovation_base(predation_count: u32, high_fitness: bool, energy_rich: bool) -> (base: u16)
    ensures
        base == if predation_count > 2 {
            9u16
        } else if high_fitness {
            5u16
        } else if energy_rich {
            13u16
        } else {
            1u16
        },
        spec_meme_kind(base) is Some,
{
    if predation_count > 2 {
        9
    } else if high_fitness {
        5
    } else if energy_rich {
        13
    } else {
        1
    }
}

/// Memory after remembering `meme`: when it is full, the oldest entry is
/// forgotten first.
pub open spec fn remember(mem: Seq<u16>, meme: u16) -> Seq<u16> {
    if mem.len() >= MEMORY_CAP {
        mem.subrange(1, mem.len() as int).push(meme)
    } else {
        mem.push(meme)
    }
}

/// Appends `meme` to an organism's cultural memory, forgetting the oldest
/// entry when the memory already holds `MEMORY_CAP` memes.
pub fn remember_meme(memory: &mut Vec<u16>, meme: u16)
    ensures
        final(memory)@ == remember(old(memory)@, meme),
{
    if memory.len() >= MEMORY_CAP {
        memory.remove(0);
    }
    memory.push(meme);
    proof {
        if old(memory)@.len() >= MEMORY_CAP {
            assert(old(memory)@.remove(0) =~= old(memory)@.subrange(1, old(memory)@.len() as int));
        }
    }
}

/// A memory that held at most `MEMORY_CAP` memes still does after one more is
/// remembered, and the newest meme is last.
pub proof fn lemma_remember_bounded(mem: Seq<u16>, meme: u16)
    requires
        mem.len() <= MEMORY_CAP,
    ensures
        remember(mem, meme).len() <= MEMORY_CAP,
        remember(mem, meme).last() == meme,
        remember(mem, meme).len() == if mem.len() == MEMORY_CAP {
            MEMORY_CAP as int
        } else {
            mem.len() + 1int
        },
{
}

/// Memory after merging in the first `k` memes of `donor`: each one not yet
/// held is remembered, in the donor's order.
pub open spec fn merge_prefix(keeper: Seq<u16>, donor: Seq<u16>, k: int) -> Seq<u16>
    decreases k,
{
    if k <= 0 {
        keeper
    } else {
        let m = merge_prefix(keeper, donor, k - 1);
        if m.contains(donor[k - 1]) {
            m
        } else {
            remember(m, donor[k - 1])
        }
    }
}

/// The memory of a keeper organism after absorbing a donor's memory.
pub open spec fn merged_memory(keeper: Seq<u16>, donor: Seq<u16>) -> Seq<u16> {
    merge_prefix(keeper, donor, donor.len() as int)
}

/// Whether `mem` holds `meme`.
fn holds_meme(mem: &Vec<u16>, meme: u16) -> (b: bool)
    ensures
        b == mem@.contains(meme),
{
    let mut i: usize = 0;
    while i < mem.len()
        invariant
            0 <= i <= mem@.len(),
            forall|j: int| 0 <= j < i ==> mem@[j] != meme,
        decreases mem@.len() - i,
    {
        if mem[i] == meme {
            assert(mem@[i as int] == meme);
            return true;
        }
        i = i + 1;
    }
    false
}

/// Merges a donor's cultural memory into a keeper's: each donor meme that the
/// keeper does not hold yet is remembered, in order, the oldest entries being
/// forgotten once the memory is full.
pub fn merge_memories(keeper: &mut Vec<u16>, donor: &Vec<u16>)
    ensures
        final(keeper)@ == merged_memory(old(keeper)@, donor@),
{
    let mut k: usize = 0;
    while k < donor.len()
        invariant
            0 <= k <= donor@.len(),
            keeper@ == merge_prefix(old(keeper)@, donor@, k as int),
        decreases donor@.len() - k,
    {
        let meme = donor[k];
        if !holds_meme(keeper, meme) {
            remember_meme(keeper, meme);
        }
        k = k + 1;
    }
}

/// No meme occurs twice in `mem`.
pub open spec fn distinct_memes(mem: Seq<u16>) -> bool {
    forall|i: int, j: int| 0 <= i < j < mem.len() ==> mem[i] != mem[j]
}

proof fn lemma_remember_distinct(mem: Seq<u16>, meme: u16)
    requires
        distinct_memes(mem),
        !mem.contains(meme),
    ensures
        distinct_memes(remember(mem, meme)),
{
    let r = remember(mem, meme);
    assert forall|i: int, j: int| 0 <= i < j < r.len() implies r[i] != r[j] by {
        if mem.len() >= MEMORY_CAP {
            if j == r.len() - 1 {
                assert(mem[i + 1] == r[i]);
            } else {
                assert(r[i] == mem[i + 1] && r[j] == mem[j + 1]);
            }
        } else {
            if j == r.len() - 1 {
                assert(mem[i] == r[i]);
            }
        }
    }
}

proof fn lemma_merge_prefix_props(keeper: Seq<u16>, donor: Seq<u16>, k: int)
    requires
        distinct_memes(keeper),
        keeper.len() <= MEMORY_CAP,
        0 <= k <= donor.len(),
    ensures
        distinct_memes(merge_prefix(keeper, donor, k)),
        merge_prefix(keeper, donor, k).len() <= MEMORY_CAP,
        k > 0 ==> merge_prefix(keeper, donor, k).contains(donor[k - 1]),
    decreases k,
{
    if k > 0 {
        lemma_merge_prefix_props(keeper, donor, k - 1);
        let m = merge_prefix(keeper, donor, k - 1);
        if !m.contains(donor[k - 1]) {
            lemma_remember_distinct(m, donor[k - 1]);
            lemma_remember_bounded(m, donor[k - 1]);
            let r = remember(m, donor[k - 1]);
            assert(r[r.len() - 1] == donor[k - 1]);
        }
    }
}

/// Merging memories never duplicates a meme, never exceeds `MEMORY_CAP`, and
/// leaves the donor's newest meme in the keeper's memory.
pub proof fn lemma_merged_memory_well_formed(keeper: Seq<u16>, donor: Seq<u16>)
    requires
        distinct_memes(keeper),
        keeper.len() <= MEMORY_CAP,
    ensures
        distinct_memes(merged_memory(keeper, donor)),
        merged_memory(keeper, donor).len() <= MEMORY_CAP,
        donor.len() > 0 ==> merged_memory(keeper, donor).contains(donor.last()),
{
    lemma_merge_prefix_props(keeper, donor, donor.len() as int);
}

// ── Symbiogenesis ───────────────────────────────────────────────────────────
/// The key under which the contact of two organisms is tracked: the smaller
/// id first.
pub open spec fn spec_contact_key(a: u32, b: u32) -> (u32, u32) {
    if a < b {
        (a, b)
    } else {
        (b, a)
    }
}

/// The tracking key of the contact between organisms `a` and `b`.
pub fn contact_key(a: u32, b: u32) -> (k: (u32, u32))
    ensures
        k == spec_contact_key(a, b),
{
    if a < b {
        (a, b)
    } else {
        (b, a)
    }
}

/// A contact has the same key whichever organism is named first.
pub proof fn lemma_contact_key_symmetric(a: u32, b: u32)
    ensures
        spec_contact_key(a, b) == spec_contact_key(b, a),
        spec_contact_key(a, b).0 <= spec_contact_key(a, b).1,
{
}

/// Whether two organisms in contact for `contact_ticks` ticks, of the given
/// sizes, merge: after `MERGE_CONTACT_TICKS` ticks, when their combined size is
/// at most `MERGE_MAX_SIZE`. The sizes must be counts of particles, so their
/// sum fits in a `usize`.
pub fn ready_to_merge(contact_ticks: u32, size_a: usize, size_b: usize) -> (b: bool)
    requires
        size_a + size_b <= usize::MAX,
    ensures
        b == (contact_ticks >= MERGE_CONTACT_TICKS && size_a + size_b <= MERGE_MAX_SIZE),
{
    contact_ticks >= MERGE_CONTACT_TICKS && size_a + size_b <= MERGE_MAX_SIZE
}

/// Which organism of a merging pair keeps its identity: the larger one, the
/// first named on a tie. Returns (keeper, donor).
pub fn merge_roles(id_a: u32, size_a: usize, id_b: u32, size_b: usize) -> (r: (u32, u32))
    ensures
        r == if size_a >= size_b {
            (id_a, id_b)
        } else {
            (id_b, id_a)
        },
{
    if size_a >= size_b {
        (id_a, id_b)
    } else {
        (id_b, id_a)
    }
}

// ── Offspring of two parents ────────────────────────────────────────────────
/// Size of the child of parents of sizes `a` and `b`: a quarter of their
/// combined size, but at least 2 and at most 8.
pub open spec fn spec_child_size(a: int, b: int) -> int {
    let q = (a + b) / 4;
    if q > 8 {
        8
    } else if q < 2 {
        2
    } else {
        q
    }
}

/// Number of particles of the child of two organisms of the given sizes.
pub fn child_size(size_a: usize, size_b: usize) -> (n: usize)
    requires
        size_a + size_b <= usize::MAX,
    ensures
        n == spec_child_size(size_a as int, size_b as int),
        2 <= n <= 8,
{
    let q = (size_a + size_b) / 4;
    let capped = if q < 8 {
        q
    } else {
        8
    };
    if capped > 2 {
        capped
    } else {
        2
    }
}

/// Generation of the child: one past the later of its parents' generations.
pub fn child_generation(gen_a: u32, gen_b: u32) -> (g: u32)
    requires
        gen_a < u32::MAX,
        gen_b < u32::MAX,
    ensures
        g == (if gen_a >= gen_b {
            gen_a
        } else {
            gen_b
        }) + 1,
        g > gen_a,
        g > gen_b,
{
    let m = if gen_a >= gen_b {
        gen_a
    } else {
        gen_b
    };
    m + 1
}

/// The parent trait a child particle takes before mutation: even positions
/// take from parent `a`, odd ones from parent `b`, each cycling through that
/// parent's particles.
pub open spec fn inherited_at<T>(a: Seq<T>, b: Seq<T>, ci: int) -> T {
    if ci % 2 == 0 {
        a[ci % (a.len() as int)]
    } else {
        b[ci % (b.len() as int)]
    }
}

/// The traits of a child of `n` particles, taken alternately from the
/// particles of parents `a` and `b`.
pub fn inherited_types<T: Copy>(a: &Vec<T>, b: &Vec<T>, n: usize) -> (child: Vec<T>)
    requires
        a@.len() > 0,
        b@.len() > 0,
    ensures
        child@.len() == n,
        forall|ci: int| 0 <= ci < n ==> #[trigger] child@[ci] == inherited_at(a@, b@, ci),
{
    let mut child: Vec<T> = Vec::new();
    let mut ci: usize = 0;
    while ci < n
        invariant
            a@.len() > 0,
            b@.len() > 0,
            0 <= ci <= n,
            child@.len() == ci,
            forall|j: int| 0 <= j < ci ==> #[trigger] child@[j] == inherited_at(a@, b@, j),
        decreases n - ci,
    {
        let t = if ci % 2 == 0 {
            a[ci % a.len()]
        } else {
            b[ci % b.len()]
        };
        child.push(t);
        ci = ci + 1;
    }
    child
}

/// The bonds of a newborn child of `n` particles: a chain through them in
/// order, closed into a ring when there are at least 4.
pub open spec fn child_bonds_spec(n: int) -> Seq<(usize, usize)> {
    let chain = Seq::new((n - 1) as nat, |k: int| (k as usize, (k + 1) as usize));
    if n >= 4 {
        chain.push((0usize, (n - 1) as usize))
    } else {
        chain
    }
}

/// Pairs of child particles (by position) that are bonded at birth.
pub fn child_bond_pairs(n: usize) -> (pairs: Vec<(usize, usize)>)
    requires
        n >= 1,
    ensures
        pairs@ == child_bonds_spec(n as int),
{
    let mut pairs: Vec<(usize, usize)> = Vec::new();
    let mut k: usize = 0;
    while k < n - 1
        invariant
            n >= 1,
            0 <= k <= n - 1,
            pairs@ == Seq::new(k as nat, |j: int| (j as usize, (j + 1) as usize)),
        decreases n - 1 - k,
    {
        pairs.push((k, k + 1));
        k = k + 1;
        assert(pairs@ =~= Seq::new(k as nat, |j: int| (j as usize, (j + 1) as usize)));
    }
    if n >= 4 {
        pairs.push((0, n - 1));
    }
    pairs
}

/// Number of pairs in `pairs` that involve particle `i`.
pub open spec fn bond_degree(pairs: Seq<(usize, usize)>, i: int) -> nat
    decreases pairs.len(),
{
    if pairs.len() == 0 {
        0
    } else {
        bond_degree(pairs.drop_last(), i) + if pairs.last().0 == i || pairs.last().1 == i {
            1nat
        } else {
            0nat
        }
    }
}

proof fn lemma_chain_degree(k: int, i: int)
    requires
        0 <= k <= usize::MAX,
        i >= 0,
    ensures
        bond_degree(Seq::new(k as nat, |j: int| (j as usize, (j + 1) as usize)), i) == (if i < k {
            1nat
        } else {
            0nat
        }) + (if 1 <= i <= k {
            1nat
        } else {
            0nat
        }),
    decreases k,
{
    let c = Seq::new(k as nat, |j: int| (j as usize, (j + 1) as usize));
    if k > 0 {
        lemma_chain_degree(k - 1, i);
        assert(c.drop_last() =~= Seq::new((k - 1) as nat, |j: int| (j as usize, (j + 1) as usize)));
    }
}

/// Every particle of a child of at least 4 particles is bonded to exactly two
/// others at birth: its neighbours on the ring.
pub proof fn lemma_child_ring(n: int, i: int)
    requires
        4 <= n <= usize::MAX,
        0 <= i < n,
    ensures
        bond_degree(child_bonds_spec(n), i) == 2,
{
    let chain = Seq::new((n - 1) as nat, |k: int| (k as usize, (k + 1) as usize));
    lemma_chain_degree(n - 1, i);
    assert(child_bonds_spec(n).drop_last() =~= chain);
}

// ── Meta-cognition ──────────────────────────────────────────────────────────
/// Depth reached by an organism of `member_count` particles whose Data
/// particles' largest bond-connected chain has `chain` particles, out of
/// `data_count` Data particles: none unless the organism has more than 6
/// members, at least 3 Data particles and a chain of at least 3; else a
/// third of the chain.
pub open spec fn spec_meta_depth(member_count: int, data_count: int, chain: int) -> Option<int> {
    if member_count <= 6 || data_count < 3 || chain < 3 {
        None
    } else {
        Some(chain / 3)
    }
}

/// Meta-cognition depth of an organism of `member_count` particles, from the
/// bonds among its Data particles: `data_bonds[k]` lists the bonds of the
/// `k`-th Data particle by Data index (entries naming no Data particle are
/// ignored).
pub fn meta_cognition_depth<F>(member_count: usize, data_bonds: &Vec<Vec<(usize, F)>>) -> (d: Option<
    usize,
>)
    requires
        data_bonds@.len() < i32::MAX,
    ensures
        exists|m: nat| is_largest_component(all_true(data_bonds@.len() as int), data_bonds@, m),
        forall|m: nat|
            is_largest_component(all_true(data_bonds@.len() as int), data_bonds@, m) ==> match d {
                Some(x) => spec_meta_depth(member_count as int, data_bonds@.len() as int, m as int)
                    == Some(x as int),
                None => spec_meta_depth(member_count as int, data_bonds@.len() as int, m as int)
                    is None,
            },
{
    let n = data_bonds.len();
    let mut alive: Vec<bool> = Vec::new();
    let mut i: usize = 0;
    while i < n
        invariant
            0 <= i <= n,
            alive@ == all_true(i as int),
        decreases n - i,
    {
        alive.push(true);
        i = i + 1;
        assert(alive@ =~= all_true(i as int));
    }
    let chain = largest_group_size(&alive, data_bonds);
    proof {
        assert forall|m: nat| is_largest_component(all_true(n as int), data_bonds@, m) implies m
            == chain by {
            lemma_largest_unique(all_true(n as int), data_bonds@, m, chain as nat);
        }
        assert(is_largest_component(all_true(n as int), data_bonds@, chain as nat));
    }
    if member_count <= 6 || n < 3 || chain < 3 {
        None
    } else {
        Some(chain / 3)
    }
}

/// The depth an organism reaches, stated over the size of the largest chain
/// of its Data particles, whichever `m` that is.
pub open spec fn depth_matches<F>(member_count: int, data_bonds: Seq<Vec<(usize, F)>>, d: Option<usize>) -> bool {
    forall|m: nat|
        is_largest_component(all_true(data_bonds.len() as int), data_bonds, m) ==> match d {
            Some(x) => spec_meta_depth(member_count, data_bonds.len() as int, m as int) == Some(x as int),
            None => spec_meta_depth(member_count, data_bonds.len() as int, m as int) is None,
        }
}

/// Number of organisms among the first `k` that reach meta-cognition.
pub open spec fn depth_count(depths: Seq<Option<usize>>, k: int) -> nat
    decreases k,
{
    if k <= 0 {
        0
    } else {
        depth_count(depths, k - 1) + if depths[k - 1] is Some {
            1nat
        } else {
            0nat
        }
    }
}

/// The organisms among the first `k` that reach meta-cognition for the first time.
pub open spec fn first_achievers(depths: Seq<Option<usize>>, had_depth: Seq<bool>, k: int) -> Seq<usize>
    decreases k,
{
    if k <= 0 {
        Seq::empty()
    } else if depths[k - 1] is Some && !had_depth[k - 1] {
        first_achievers(depths, had_depth, k - 1).push((k - 1) as usize)
    } else {
        first_achievers(depths, had_depth, k - 1)
    }
}

/// One round of meta-cognition over all organisms: `member_counts[o]` is the
/// size of organism `o`, `data_bonds[o]` the bonds among its Data particles
/// (as for `meta_cognition_depth`) and `had_depth[o]` whether it had a depth
/// before. Returns each organism's depth, the number that reach one, and
/// those that reach one for the first time.
pub fn meta_cognition_round<F>(
    member_counts: &Vec<usize>,
    data_bonds: &Vec<Vec<Vec<(usize, F)>>>,
    had_depth: &Vec<bool>,
) -> (r: (Vec<Option<usize>>, usize, Vec<usize>))
    requires
        data_bonds@.len() == member_counts@.len(),
        had_depth@.len() == member_counts@.len(),
        forall|o: int| 0 <= o < data_bonds@.len() ==> (#[trigger] data_bonds@[o])@.len() < i32::MAX,
    ensures
        r.0@.len() == member_counts@.len(),
        forall|o: int|
            0 <= o < member_counts@.len() ==> depth_matches(
                member_counts@[o] as int,
                data_bonds@[o]@,
                #[trigger] r.0@[o],
            ),
        r.1 == depth_count(r.0@, r.0@.len() as int),
        r.2@ == first_achievers(r.0@, had_depth@, r.0@.len() as int),
{
    let n = member_counts.len();
    let mut depths: Vec<Option<usize>> = Vec::new();
    let mut count: usize = 0;
    let mut first: Vec<usize> = Vec::new();
    let mut o: usize = 0;
    while o < n
        invariant
            n == member_counts@.len(),
            data_bonds@.len() == n,
            had_depth@.len() == n,
            forall|q: int| 0 <= q < data_bonds@.len() ==> (#[trigger] data_bonds@[q])@.len() < i32::MAX,
            0 <= o <= n,
            depths@.len() == o,
            forall|q: int|
                0 <= q < o ==> depth_matches(
                    member_counts@[q] as int,
                    data_bonds@[q]@,
                    #[trigger] depths@[q],
                ),
            count == depth_count(depths@, o as int),
            count <= o,
            first@ == first_achievers(depths@, had_depth@, o as int),
        decreases n - o,
    {
        let d = meta_cognition_depth(member_counts[o], &data_bonds[o]);
        let ghost before = depths@;
        depths.push(d);
        proof {
            assert forall|k: int| 0 <= k <= o implies depth_count(depths@, k) == depth_count(before, k) by {
                lemma_depth_count_prefix(depths@, before, k);
            }
            assert forall|k: int| 0 <= k <= o implies first_achievers(depths@, had_depth@, k)
                == first_achievers(before, had_depth@, k) by {
                lemma_first_prefix(depths@, before, had_depth@, k);
            }
        }
        if d.is_some() {
            count = count + 1;
            if !had_depth[o] {
                first.push(o);
            }
        }
        o = o + 1;
    }
    (depths, count, first)
}

proof fn lemma_depth_count_prefix(a: Seq<Option<usize>>, b: Seq<Option<usize>>, k: int)
    requires
        0 <= k <= b.len(),
        b.len() <= a.len(),
        forall|q: int| 0 <= q < b.len() ==> a[q] == b[q],
    ensures
        depth_count(a, k) == depth_count(b, k),
    decreases k,
{
    if k > 0 {
        lemma_depth_count_prefix(a, b, k - 1);
    }
}

proof fn lemma_first_prefix(a: Seq<Option<usize>>, b: Seq<Option<usize>>, h: Seq<bool>, k: int)
    requires
        0 <= k <= b.len(),
        b.len() <= a.len(),
        forall|q: int| 0 <= q < b.len() ==> a[q] == b[q],
    ensures
        first_achievers(a, h, k) == first_achievers(b, h, k),
    decreases k,
{
    if k > 0 {
        lemma_first_prefix(a, b, h, k - 1);
    }
}

/// A depth is reached only by an organism of at least 7 members with at
/// least 3 Data particles, and then it is the number of whole triples in the
/// chain: `3 d <= chain < 3 d + 3`, at least 1; every other organism reaches none.
pub proof fn lemma_meta_depth_meaning(member_count: int, data_count: int, chain: int)
    ensures
        spec_meta_depth(member_count, data_count, chain) is Some <==> (member_count >= 7 && data_count >= 3
            && chain >= 3),
        spec_meta_depth(member_count, data_count, chain) is Some ==> {
            let d = spec_meta_depth(member_count, data_count, chain).unwrap();
            &&& d >= 1
            &&& 3 * d <= chain < 3 * d + 3
        },
{
}

/// The first achievers of a round are exactly the organisms that reach a
/// depth without having had one, in increasing order; and the number reaching
/// a depth counts every organism that does, so it is at least the number of
/// first achievers and at most the number of organisms.
pub proof fn lemma_first_achievers_meaning(depths: Seq<Option<usize>>, had_depth: Seq<bool>, k: int)
    requires
        0 <= k <= depths.len(),
        depths.len() <= usize::MAX,
    ensures
        forall|o: int|
            #![trigger depths[o]]
            0 <= o < k ==> (first_achievers(depths, had_depth, k).contains(o as usize) <==> (depths[o] is Some
                && !had_depth[o])),
        forall|q1: int, q2: int|
            0 <= q1 < q2 < first_achievers(depths, had_depth, k).len() ==> (#[trigger] first_achievers(
                depths,
                had_depth,
                k,
            )[q1]) < (#[trigger] first_achievers(depths, had_depth, k)[q2]),
        forall|q: int|
            0 <= q < first_achievers(depths, had_depth, k).len() ==> (#[trigger] first_achievers(
                depths,
                had_depth,
                k,
            )[q]) < k,
        first_achievers(depths, had_depth, k).len() <= depth_count(depths, k) <= k,
    decreases k,
{
    if k > 0 {
        lemma_first_achievers_meaning(depths, had_depth, k - 1);
        let f0 = first_achievers(depths, had_depth, k - 1);
        let f = first_achievers(depths, had_depth, k);
        if depths[k - 1] is Some && !had_depth[k - 1] {
            assert(f == f0.push((k - 1) as usize));
            assert forall|y: usize| f.contains(y) <==> (f0.contains(y) || y == (k - 1) as usize) by {
                if f.contains(y) {
                    let q = choose|q: int| 0 <= q < f.len() && f[q] == y;
                    if q < f0.len() {
                        assert(f0[q] == y);
                    }
                }
                if f0.contains(y) {
                    let q = choose|q: int| 0 <= q < f0.len() && f0[q] == y;
                    assert(f[q] == y);
                }
                if y == (k - 1) as usize {
                    assert(f[f0.len() as int] == y);
                }
            }
        } else {
            assert(f == f0);
        }
        assert forall|o: int| #![trigger depths[o]] 0 <= o < k implies (f.contains(o as usize) <==> (depths[o] is Some
            && !had_depth[o])) by {
            if o < k - 1 {
                assert(f0.contains(o as usize) <==> (depths[o] is Some && !had_depth[o]));
                assert(o as usize != (k - 1) as usize);
            } else {
                if f0.contains(o as usize) {
                    let q = choose|q: int| 0 <= q < f0.len() && f0[q] == o as usize;
                    assert(f0[q] < k - 1);
                }
            }
        }
    }
}

/// The size of the largest component is unique.
proof fn lemma_largest_unique<F>(alive: Seq<bool>, bonds: Seq<Vec<(usize, F)>>, m1: nat, m2: nat)
    requires
        is_largest_component(alive, bonds, m1),
        is_largest_component(alive, bonds, m2),
    ensures
        m1 == m2,
{
    if m1 > 0 {
        let i = choose|i: int|
            0 <= i < alive.len() && alive[i] && #[trigger] crate::groups::component_size(alive, bonds, i)
                == m1;
        assert(crate::groups::component_size(alive, bonds, i) <= m2);
    }
    if m2 > 0 {
        let i = choose|i: int|
            0 <= i < alive.len() && alive[i] && #[trigger] crate::groups::component_size(alive, bonds, i)
                == m2;
        assert(crate::groups::component_size(alive, bonds, i) <= m1);
    }
}

} // verus!
