//! Population metrics over genomes: assembly index, innovation and species counts.
use vstd::prelude::*;
use std::collections::HashSet;
use crate::reaction::{ReactionKey, reaction_hash, spec_reaction_hash};
use crate::particle_store::alive_before;

verus! {

broadcast use vstd::std_specs::hash::group_hash_axioms;

// ── Assembly index ──────────────────────────────────────────────────────────
/// The length that the greedy fragment at `idx` has reached when it starts at
/// `len` and grows one token at a time while it is already in the dictionary.
pub open spec fn run_len(t: Seq<u64>, idx: int, dict: Set<Seq<u64>>, len: int) -> int
    decreases t.len() + 1 - idx - len,
{
    if idx + len <= t.len() && dict.contains(t.subrange(idx, idx + len)) {
        run_len(t, idx, dict, len + 1)
    } else {
        len
    }
}

/// A run never ends shorter than it started.
pub proof fn lemma_run_len_ge(t: Seq<u64>, idx: int, dict: Set<Seq<u64>>, len: int)
    ensures
        run_len(t, idx, dict, len) >= len,
    decreases t.len() + 1 - idx - len,
{
    if idx + len <= t.len() && dict.contains(t.subrange(idx, idx + len)) {
        lemma_run_len_ge(t, idx, dict, len + 1);
    }
}

/// LZ-style decomposition of `t` from position `idx`: repeatedly take the
/// shortest prefix of the rest that is not yet in the dictionary, add it, and
/// count it. `None` where the rest of the sequence is entirely made of known
/// fragments, so that the next fragment would run past its end.
pub open spec fn lz_parse(t: Seq<u64>, idx: int, dict: Set<Seq<u64>>) -> Option<nat>
    decreases t.len() - idx,
{
    if idx >= t.len() {
        Some(0)
    } else {
        let l = run_len(t, idx, dict, 1);
        proof {
            lemma_run_len_ge(t, idx, dict, 1);
        }
        if idx + l > t.len() {
            None
        } else {
            match lz_parse(t, idx + l, dict.insert(t.subrange(idx, idx + l))) {
                Some(c) => Some(c + 1),
                None => None,
            }
        }
    }
}

/// The fragments stored in a dictionary vector, as a set.
pub open spec fn dict_set(d: Seq<Vec<u64>>) -> Set<Seq<u64>> {
    Set::new(|s: Seq<u64>| exists|i: int| 0 <= i < d.len() && #[trigger] d[i]@ == s)
}

/// Whether `t[start..end]` equals `f`.
fn same_fragment(f: &Vec<u64>, t: &Vec<u64>, start: usize, end: usize) -> (b: bool)
    requires
        start <= end <= t@.len(),
    ensures
        b == (f@ == t@.subrange(start as int, end as int)),
{
    if f.len() != end - start {
        return false;
    }
    let mut i: usize = 0;
    while i < f.len()
        invariant
            f@.len() == end - start,
            start <= end <= t@.len(),
            0 <= i <= f@.len(),
            forall|j: int| 0 <= j < i ==> f@[j] == t@[start + j],
        decreases f@.len() - i,
    {
        if f[i] != t[start + i] {
            assert(f@[i as int] != t@.subrange(start as int, end as int)[i as int]);
            return false;
        }
        i = i + 1;
    }
    assert(f@ =~= t@.subrange(start as int, end as int));
    true
}

/// Whether the dictionary holds `t[start..end]`.
fn dict_contains(dict: &Vec<Vec<u64>>, t: &Vec<u64>, start: usize, end: usize) -> (b: bool)
    requires
        start <= end <= t@.len(),
    ensures
        b == dict_set(dict@).contains(t@.subrange(start as int, end as int)),
{
    let mut i: usize = 0;
    while i < dict.len()
        invariant
            start <= end <= t@.len(),
            0 <= i <= dict@.len(),
            forall|j: int| 0 <= j < i ==> dict@[j]@ != t@.subrange(start as int, end as int),
        decreases dict@.len() - i,
    {
        if same_fragment(&dict[i], t, start, end) {
            return true;
        }
        i = i + 1;
    }
    false
}

/// Copies `t[start..end]` into a new vector.
fn fragment(t: &Vec<u64>, start: usize, end: usize) -> (f: Vec<u64>)
    requires
        start <= end <= t@.len(),
    ensures
        f@ == t@.subrange(start as int, end as int),
{
    let mut f: Vec<u64> = Vec::new();
    let mut i = start;
    while i < end
        invariant
            start <= i <= end <= t@.len(),
            f@ == t@.subrange(start as int, i as int),
        decreases end - i,
    {
        f.push(t[i]);
        i = i + 1;
        assert(f@ =~= t@.subrange(start as int, i as int));
    }
    f
}

/// Number of fragments of the LZ-style decomposition of `tokens`: scanning
/// left to right, each fragment is the shortest run not seen as a fragment
/// before. `None` where the sequence ends inside a run of known fragments.
pub fn lz_fragment_count(tokens: &Vec<u64>) -> (c: Option<usize>)
    ensures
        c is Some <==> lz_parse(tokens@, 0, Set::empty()) is Some,
        c is Some ==> lz_parse(tokens@, 0, Set::empty())->0 == c->0 as nat,
{
    let t = tokens;
    let n = t.len();
    let mut dict: Vec<Vec<u64>> = Vec::new();
    let mut idx: usize = 0;
    let mut count: usize = 0;
    assert(dict_set(dict@) =~= Set::<Seq<u64>>::empty());
    while idx < n
        invariant
            n == t@.len(),
            t@ == tokens@,
            0 <= count <= idx <= n,
            lz_parse(t@, 0, Set::empty()) == match lz_parse(t@, idx as int, dict_set(dict@)) {
                Some(c) => Some((c + count) as nat),
                None => None,
            },
        decreases n - idx,
    {
        let ghost d = dict_set(dict@);
        let mut length: usize = 1;
        while length < n - idx && dict_contains(&dict, t, idx, idx + length)
            invariant
                n == t@.len(),
                t@ == tokens@,
                idx < n,
                1 <= length <= n - idx,
                d == dict_set(dict@),
                run_len(t@, idx as int, d, 1) == run_len(t@, idx as int, d, length as int),
            decreases n - idx - length,
        {
            length = length + 1;
        }
        if length == n - idx && dict_contains(&dict, t, idx, n) {
            proof {
                assert(run_len(t@, idx as int, d, length + 1) == length + 1);
                assert(run_len(t@, idx as int, d, 1) == length + 1);
                assert(lz_parse(t@, idx as int, d) is None);
                assert(lz_parse(t@, 0, Set::<Seq<u64>>::empty()) is None);
            }
            return None;
        }
        assert(run_len(t@, idx as int, d, length as int) == length);
        let f = fragment(t, idx, idx + length);
        let ghost frag = f@;
        let ghost dict0 = dict@;
        dict.push(f);
        proof {
            assert(dict_set(dict@) =~= d.insert(frag)) by {
                assert forall|s: Seq<u64>| dict_set(dict@).contains(s) implies d.insert(frag).contains(s) by {
                    let i = choose|i: int| 0 <= i < dict@.len() && #[trigger] dict@[i]@ == s;
                    if i < dict@.len() - 1 {
                        assert(dict@[i] == dict0[i]);
                    }
                }
                assert forall|s: Seq<u64>| d.insert(frag).contains(s) implies dict_set(dict@).contains(s) by {
                    if s == frag {
                        assert(dict@[dict@.len() - 1]@ == s);
                    } else {
                        let i = choose|i: int| 0 <= i < dict0.len() && #[trigger] dict0[i]@ == s;
                        assert(dict@[i] == dict0[i]);
                    }
                }
            }
        }
        count = count + 1;
        idx = idx + length;
    }
    Some(count)
}

/// The hashes of a genome's reactions, in order.
pub open spec fn reaction_tokens(rs: Seq<ReactionKey>) -> Seq<u64> {
    rs.map_values(|r: ReactionKey| spec_reaction_hash(r))
}

/// Whether the assembly index of a genome is defined: its token sequence
/// does not end inside a run of already-seen fragments.
pub open spec fn assembly_index_defined(rs: Seq<ReactionKey>) -> bool {
    lz_parse(reaction_tokens(rs), 0, Set::empty()) is Some
}

/// Approximate assembly index: hash each reaction to a token and count the
/// fragments of the LZ-style decomposition of the token sequence.
pub fn assembly_index(reactions: &Vec<ReactionKey>) -> (ai: usize)
    requires
        assembly_index_defined(reactions@),
    ensures
        ai == lz_parse(reaction_tokens(reactions@), 0, Set::empty())->0,
{
    if reactions.len() == 0 {
        return 0;
    }
    let mut tokens: Vec<u64> = Vec::new();
    let mut i: usize = 0;
    while i < reactions.len()
        invariant
            0 <= i <= reactions@.len(),
            tokens@ == reaction_tokens(reactions@).subrange(0, i as int),
        decreases reactions@.len() - i,
    {
        let h = reaction_hash(&reactions[i]);
        tokens.push(h);
        i = i + 1;
        assert(tokens@ =~= reaction_tokens(reactions@).subrange(0, i as int));
    }
    assert(tokens@ =~= reaction_tokens(reactions@));
    match lz_fragment_count(&tokens) {
        Some(c) => c,
        None => 0,
    }
}

/// Every fragment holds at least one token, and a nonempty sequence has at
/// least one fragment.
pub proof fn lemma_lz_bounds(t: Seq<u64>, idx: int, dict: Set<Seq<u64>>)
    requires
        0 <= idx <= t.len(),
        lz_parse(t, idx, dict) is Some,
    ensures
        lz_parse(t, idx, dict)->0 <= t.len() - idx,
        idx < t.len() ==> lz_parse(t, idx, dict)->0 >= 1,
    decreases t.len() - idx,
{
    if idx < t.len() {
        let l = run_len(t, idx, dict, 1);
        lemma_run_len_ge(t, idx, dict, 1);
        lemma_lz_bounds(t, idx + l, dict.insert(t.subrange(idx, idx + l)));
    }
}

/// The assembly index of a nonempty genome lies between 1 and its length.
pub proof fn lemma_assembly_index_bounds(rs: Seq<ReactionKey>)
    requires
        assembly_index_defined(rs),
    ensures
        lz_parse(reaction_tokens(rs), 0, Set::empty())->0 <= rs.len(),
        rs.len() > 0 ==> lz_parse(reaction_tokens(rs), 0, Set::empty())->0 >= 1,
{
    lemma_lz_bounds(reaction_tokens(rs), 0, Set::empty());
}

// ── Innovation ──────────────────────────────────────────────────────────────
/// The hashes of the first `k` reactions of a genome.
pub open spec fn hashes_prefix(g: Seq<ReactionKey>, k: int) -> Set<u64>
    decreases k,
{
    if k <= 0 {
        Set::empty()
    } else {
        hashes_prefix(g, k - 1).insert(spec_reaction_hash(g[k - 1]))
    }
}

/// The hashes of all reactions of the first `n` genomes.
pub open spec fn genomes_hashes(gs: Seq<Vec<ReactionKey>>, n: int) -> Set<u64>
    decreases n,
{
    if n <= 0 {
        Set::empty()
    } else {
        genomes_hashes(gs, n - 1).union(hashes_prefix(gs[n - 1]@, gs[n - 1]@.len() as int))
    }
}

proof fn lemma_hashes_prefix_finite(g: Seq<ReactionKey>, k: int)
    ensures
        hashes_prefix(g, k).finite(),
    decreases k,
{
    if k > 0 {
        lemma_hashes_prefix_finite(g, k - 1);
    }
}

proof fn lemma_genomes_hashes_finite(gs: Seq<Vec<ReactionKey>>, n: int)
    ensures
        genomes_hashes(gs, n).finite(),
    decreases n,
{
    if n > 0 {
        lemma_genomes_hashes_finite(gs, n - 1);
        lemma_hashes_prefix_finite(gs[n - 1]@, gs[n - 1]@.len() as int);
    }
}

/// std's `HashSet::clone` on `u64` keys: the clone holds the same keys.
#[verifier::external_body]
fn clone_hash_set(s: &HashSet<u64>) -> (r: HashSet<u64>)
    ensures
        r@ == s@,
{
    s.clone()
}

/// Total number of reactions in the first `n` genomes.
pub open spec fn total_reactions(gs: Seq<Vec<ReactionKey>>, n: int) -> nat
    decreases n,
{
    if n <= 0 {
        0
    } else {
        total_reactions(gs, n - 1) + gs[n - 1]@.len()
    }
}

proof fn lemma_hashes_prefix_len(g: Seq<ReactionKey>, k: int)
    requires
        0 <= k,
    ensures
        hashes_prefix(g, k).finite(),
        hashes_prefix(g, k).len() <= k,
    decreases k,
{
    if k > 0 {
        lemma_hashes_prefix_len(g, k - 1);
    }
}

proof fn lemma_genomes_hashes_len(gs: Seq<Vec<ReactionKey>>, n: int)
    requires
        0 <= n,
    ensures
        genomes_hashes(gs, n).finite(),
        genomes_hashes(gs, n).len() <= total_reactions(gs, n),
    decreases n,
{
    if n > 0 {
        lemma_genomes_hashes_len(gs, n - 1);
        lemma_hashes_prefix_len(gs[n - 1]@, gs[n - 1]@.len() as int);
        vstd::set_lib::lemma_len_union(
            genomes_hashes(gs, n - 1),
            hashes_prefix(gs[n - 1]@, gs[n - 1]@.len() as int),
        );
    }
}

proof fn lemma_total_reactions_mono(gs: Seq<Vec<ReactionKey>>, i: int, n: int)
    requires
        0 <= i <= n,
    ensures
        total_reactions(gs, i) <= total_reactions(gs, n),
    decreases n - i,
{
    if i < n {
        lemma_total_reactions_mono(gs, i, n - 1);
    }
}

/// One step of the innovation scan: the seen set grows by `h`, and the count
/// of new hashes grows by one exactly when `h` is neither old nor seen.
proof fn lemma_innovation_step(seen: Set<u64>, prev: Set<u64>, h: u64)
    requires
        seen.finite(),
    ensures
        seen.insert(h).finite(),
        seen.difference(prev).finite(),
        !prev.contains(h) && !seen.contains(h) ==> seen.insert(h).difference(prev).len()
            == seen.difference(prev).len() + 1,
        prev.contains(h) || seen.contains(h) ==> seen.insert(h).difference(prev)
            == seen.difference(prev),
        seen.difference(prev).len() <= seen.len(),
{
    vstd::set_lib::lemma_len_difference(seen, prev);
    if !prev.contains(h) && !seen.contains(h) {
        assert(seen.insert(h).difference(prev) =~= seen.difference(prev).insert(h));
    } else {
        assert(seen.insert(h).difference(prev) =~= seen.difference(prev));
    }
}

/// Counts the distinct reaction hashes of `current_genomes` that were not in
/// `previous_reactions`, and returns that count together with the union of
/// `previous_reactions` and all hashes found.
pub fn innovation_count(
    current_genomes: &Vec<Vec<ReactionKey>>,
    previous_reactions: &HashSet<u64>,
) -> (res: (usize, HashSet<u64>))
    requires
        total_reactions(current_genomes@, current_genomes@.len() as int) <= usize::MAX,
    ensures
        res.1@ == previous_reactions@.union(
            genomes_hashes(current_genomes@, current_genomes@.len() as int),
        ),
        res.0 == genomes_hashes(current_genomes@, current_genomes@.len() as int).difference(
            previous_reactions@,
        ).len(),
{
    let ghost gs = current_genomes@;
    let ghost prev = previous_reactions@;
    let mut updated = clone_hash_set(previous_reactions);
    let mut new_count: usize = 0;
    let mut i: usize = 0;
    proof {
        assert(prev.union(genomes_hashes(gs, 0)) =~= prev);
        assert(genomes_hashes(gs, 0).difference(prev) =~= Set::<u64>::empty());
    }
    while i < current_genomes.len()
        invariant
            gs == current_genomes@,
            prev == previous_reactions@,
            total_reactions(gs, gs.len() as int) <= usize::MAX,
            0 <= i <= gs.len(),
            updated@ == prev.union(genomes_hashes(gs, i as int)),
            new_count == genomes_hashes(gs, i as int).difference(prev).len(),
        decreases gs.len() - i,
    {
        let g = &current_genomes[i];
        let mut k: usize = 0;
        let ghost before = genomes_hashes(gs, i as int);
        proof {
            assert(before.union(hashes_prefix(g@, 0)) =~= before);
            lemma_genomes_hashes_len(gs, i as int);
            lemma_total_reactions_mono(gs, i + 1, gs.len() as int);
        }
        while k < g.len()
            invariant
                gs == current_genomes@,
                prev == previous_reactions@,
                0 <= i < gs.len(),
                g@ == gs[i as int]@,
                0 <= k <= g@.len(),
                before == genomes_hashes(gs, i as int),
                before.finite(),
                before.len() <= total_reactions(gs, i as int),
                total_reactions(gs, i + 1) <= usize::MAX,
                updated@ == prev.union(before.union(hashes_prefix(g@, k as int))),
                new_count == before.union(hashes_prefix(g@, k as int)).difference(prev).len(),
            decreases g@.len() - k,
        {
            let h = reaction_hash(&g[k]);
            let ghost seen = before.union(hashes_prefix(g@, k as int));
            proof {
                lemma_hashes_prefix_len(g@, k as int);
                vstd::set_lib::lemma_len_union(before, hashes_prefix(g@, k as int));
                assert(before.union(hashes_prefix(g@, k + 1)) =~= seen.insert(h));
                lemma_innovation_step(seen, prev, h);
            }
            let is_new = !previous_reactions.contains(&h) && updated.insert(h);
            if is_new {
                new_count = new_count + 1;
            }
            k = k + 1;
        }
        proof {
            assert(before.union(hashes_prefix(g@, g@.len() as int)) =~= genomes_hashes(gs, i + 1));
        }
        i = i + 1;
    }
    (new_count, updated)
}

// ── Genome statistics ───────────────────────────────────────────────────────
/// The assembly index of a genome, where it is defined.
pub open spec fn spec_assembly_index(g: Seq<ReactionKey>) -> nat {
    lz_parse(reaction_tokens(g), 0, Set::empty())->0
}

/// Over the living genomes among the first `n`: the sum and the largest of
/// their assembly indices, and the sum and the largest of their lengths.
pub open spec fn genome_stats_prefix(gs: Seq<Vec<ReactionKey>>, alive: Seq<bool>, n: int) -> (
    nat,
    nat,
    nat,
    nat,
)
    decreases n,
{
    if n <= 0 {
        (0, 0, 0, 0)
    } else {
        let p = genome_stats_prefix(gs, alive, n - 1);
        if alive[n - 1] {
            let ai = spec_assembly_index(gs[n - 1]@);
            let l = gs[n - 1]@.len();
            (
                p.0 + ai,
                if ai > p.1 {
                    ai
                } else {
                    p.1
                },
                p.2 + l,
                if l > p.3 {
                    l
                } else {
                    p.3
                },
            )
        } else {
            p
        }
    }
}

/// Every living genome has a defined assembly index.
pub open spec fn living_indices_defined(gs: Seq<Vec<ReactionKey>>, alive: Seq<bool>) -> bool {
    forall|i: int| 0 <= i < alive.len() && alive[i] ==> assembly_index_defined(#[trigger] gs[i]@)
}

proof fn lemma_stats_bounds(gs: Seq<Vec<ReactionKey>>, alive: Seq<bool>, i: int, n: int)
    requires
        gs.len() == alive.len(),
        living_indices_defined(gs, alive),
        0 <= i <= n <= alive.len(),
    ensures
        genome_stats_prefix(gs, alive, i).0 <= genome_stats_prefix(gs, alive, i).2,
        genome_stats_prefix(gs, alive, i).1 <= genome_stats_prefix(gs, alive, i).0,
        genome_stats_prefix(gs, alive, i).3 <= genome_stats_prefix(gs, alive, i).2,
        genome_stats_prefix(gs, alive, i).2 <= genome_stats_prefix(gs, alive, n).2,
    decreases n,
{
    if n > i {
        lemma_stats_bounds(gs, alive, i, n - 1);
    } else if i > 0 {
        lemma_stats_bounds(gs, alive, i - 1, i - 1);
        if alive[i - 1] {
            lemma_assembly_index_bounds(gs[i - 1]@);
        }
    }
}

/// Sum and largest assembly index, and sum and largest length, of the
/// living genomes.
pub fn genome_stats(genomes: &Vec<Vec<ReactionKey>>, alive: &Vec<bool>) -> (r: (
    usize,
    usize,
    usize,
    usize,
))
    requires
        genomes@.len() == alive@.len(),
        living_indices_defined(genomes@, alive@),
        genome_stats_prefix(genomes@, alive@, alive@.len() as int).2 <= usize::MAX,
    ensures
        (r.0 as nat, r.1 as nat, r.2 as nat, r.3 as nat) == genome_stats_prefix(
            genomes@,
            alive@,
            alive@.len() as int,
        ),
{
    let ghost n = alive@.len() as int;
    let mut total_ai: usize = 0;
    let mut max_ai: usize = 0;
    let mut total_len: usize = 0;
    let mut max_len: usize = 0;
    let mut i: usize = 0;
    while i < alive.len()
        invariant
            genomes@.len() == alive@.len(),
            n == alive@.len(),
            living_indices_defined(genomes@, alive@),
            genome_stats_prefix(genomes@, alive@, n).2 <= usize::MAX,
            0 <= i <= n,
            (total_ai as nat, max_ai as nat, total_len as nat, max_len as nat)
                == genome_stats_prefix(genomes@, alive@, i as int),
        decreases n - i,
    {
        proof {
            lemma_stats_bounds(genomes@, alive@, i + 1, n);
        }
        if alive[i] {
            assert(assembly_index_defined(genomes@[i as int]@));
            let ai = assembly_index(&genomes[i]);
            let gl = genomes[i].len();
            total_ai = total_ai + ai;
            if ai > max_ai {
                max_ai = ai;
            }
            total_len = total_len + gl;
            if gl > max_len {
                max_len = gl;
            }
        }
        i = i + 1;
    }
    (total_ai, max_ai, total_len, max_len)
}

/// Counting innovations against the set that a count returned finds nothing
/// new: every hash of the genomes is then known, and the known set stays as it is.
pub proof fn lemma_innovation_settles(gs: Seq<Vec<ReactionKey>>, prev: Set<u64>)
    ensures
        genomes_hashes(gs, gs.len() as int).difference(
            prev.union(genomes_hashes(gs, gs.len() as int)),
        ).len() == 0,
        prev.union(genomes_hashes(gs, gs.len() as int)).union(genomes_hashes(gs, gs.len() as int))
            == prev.union(genomes_hashes(gs, gs.len() as int)),
{
    let h = genomes_hashes(gs, gs.len() as int);
    let u = prev.union(h);
    assert(h.difference(u) =~= Set::<u64>::empty());
    assert(u.union(h) =~= u);
}

/// Innovation counting never forgets a known reaction: the returned set
/// holds every hash known before.
pub proof fn lemma_known_reactions_grow(gs: Seq<Vec<ReactionKey>>, prev: Set<u64>)
    ensures
        prev.subset_of(prev.union(genomes_hashes(gs, gs.len() as int))),
{
}

// ── Species and lineages ────────────────────────────────────────────────────
/// Signature of the first `k` reactions: the xor over `j < k` of reaction
/// hash `j` times `j + 1`, modulo 2^64.
pub open spec fn signature_prefix(g: Seq<ReactionKey>, k: int) -> u64
    decreases k,
{
    if k <= 0 {
        0
    } else {
        signature_prefix(g, k - 1) ^ spec_reaction_hash(g[k - 1]).wrapping_mul(k as u64)
    }
}

/// A genome's species signature: the signature of its first three reactions
/// (of all of them if it has fewer).
pub open spec fn species_signature(g: Seq<ReactionKey>) -> u64 {
    signature_prefix(g, if g.len() < 3 { g.len() as int } else { 3 })
}

/// The species signatures of the living genomes among the first `n`.
pub open spec fn species_set(gs: Seq<Vec<ReactionKey>>, alive: Seq<bool>, n: int) -> Set<u64>
    decreases n,
{
    if n <= 0 {
        Set::empty()
    } else if alive[n - 1] {
        species_set(gs, alive, n - 1).insert(species_signature(gs[n - 1]@))
    } else {
        species_set(gs, alive, n - 1)
    }
}

/// There are never more species than living genomes.
pub proof fn lemma_species_at_most_population(gs: Seq<Vec<ReactionKey>>, alive: Seq<bool>, n: int)
    requires
        0 <= n,
    ensures
        species_set(gs, alive, n).finite(),
        species_set(gs, alive, n).len() <= alive_before(alive, n),
    decreases n,
{
    if n > 0 {
        lemma_species_at_most_population(gs, alive, n - 1);
        if alive[n - 1] {
            let prev = species_set(gs, alive, n - 1);
            let sig = species_signature(gs[n - 1]@);
            if prev.contains(sig) {
                assert(prev.insert(sig) =~= prev);
            }
        }
    }
}

/// The species signature of one genome.
pub fn species_hash(reactions: &Vec<ReactionKey>) -> (h: u64)
    ensures
        h == species_signature(reactions@),
{
    let mut hash: u64 = 0;
    let mut idx: usize = 0;
    while idx < reactions.len() && idx < 3
        invariant
            0 <= idx <= reactions@.len(),
            idx <= 3,
            hash == signature_prefix(reactions@, idx as int),
        decreases reactions@.len() - idx,
    {
        let rh = reaction_hash(&reactions[idx]);
        hash = hash ^ rh.wrapping_mul(idx as u64 + 1);
        idx = idx + 1;
    }
    hash
}

/// Approximate number of species: the number of distinct species signatures
/// among living genomes.
pub fn estimate_species(genomes: &Vec<Vec<ReactionKey>>, alive: &Vec<bool>) -> (n: usize)
    requires
        genomes@.len() == alive@.len(),
    ensures
        n == species_set(genomes@, alive@, alive@.len() as int).len(),
{
    let mut species: HashSet<u64> = HashSet::new();
    let mut i: usize = 0;
    while i < alive.len()
        invariant
            genomes@.len() == alive@.len(),
            0 <= i <= alive@.len(),
            species@ == species_set(genomes@, alive@, i as int),
        decreases alive@.len() - i,
    {
        if alive[i] {
            let h = species_hash(&genomes[i]);
            species.insert(h);
        }
        i = i + 1;
    }
    species.len()
}

/// Number of distinct parent ids (lineages).
pub fn unique_lineages(parent_ids: &Vec<i32>) -> (n: usize)
    ensures
        n == parent_ids@.to_set().len(),
{
    let mut lineages: HashSet<i32> = HashSet::new();
    let mut i: usize = 0;
    proof {
        assert(parent_ids@.subrange(0, 0).to_set() =~= Set::<i32>::empty());
    }
    while i < parent_ids.len()
        invariant
            0 <= i <= parent_ids@.len(),
            lineages@ == parent_ids@.subrange(0, i as int).to_set(),
        decreases parent_ids@.len() - i,
    {
        lineages.insert(parent_ids[i]);
        proof {
            let a = parent_ids@.subrange(0, i as int);
            let b = parent_ids@.subrange(0, i + 1);
            assert(b =~= a.push(parent_ids@[i as int]));
            assert forall|x: i32| b.to_set().contains(x) <==> a.to_set().insert(parent_ids@[i as int]).contains(x) by {
                if b.contains(x) {
                    let j = choose|j: int| 0 <= j < b.len() && b[j] == x;
                    if j < a.len() {
                        assert(a[j] == x);
                    }
                }
                if a.contains(x) {
                    let j = choose|j: int| 0 <= j < a.len() && a[j] == x;
                    assert(b[j] == x);
                }
                if x == parent_ids@[i as int] {
                    assert(b[i as int] == x);
                }
            }
            assert(b.to_set() =~= a.to_set().insert(parent_ids@[i as int]));
        }
        i = i + 1;
    }
    assert(parent_ids@.subrange(0, parent_ids@.len() as int) =~= parent_ids@);
    lineages.len()
}

} // verus!
