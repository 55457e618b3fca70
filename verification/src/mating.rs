//! Pairing of organisms ready for sexual reproduction.
//!
//! Organisms are scanned in order; each one not yet paired takes the first
//! later organism, not yet paired, that is in range, of compatible size and
//! passes the chance draws that established lineages of low fitness must
//! pass. Distances and the draws themselves are made by the caller: the
//! function takes whether each pair is in range, and the outcomes of the
//! draws in the order in which they would be drawn, and says how many it used.
use vstd::prelude::*;

verus! {

/// Room that must remain under the particle cap for any mating to happen.
pub const MATING_HEADROOM: usize = 20;

/// Two sizes are compatible when the larger is at most 2.5 times the smaller.
pub open spec fn sizes_compatible(a: int, b: int) -> bool {
    if a >= b {
        2 * a <= 5 * b
    } else {
        2 * b <= 5 * a
    }
}

/// The state of the scan: which organisms are paired, the pairs so far, and
/// how many draws were used.
pub struct MatingScan {
    pub used: Seq<bool>,
    pub pairs: Seq<(usize, usize)>,
    pub draws: int,
}

/// Outcome of draw number `d`: a draw beyond the supplied ones fails.
pub open spec fn luck_at(luck: Seq<bool>, d: int) -> bool {
    0 <= d < luck.len() && luck[d]
}

/// Considering partner `j` for organism `i` in state `s`.
pub open spec fn consider(
    sizes: Seq<usize>,
    needs_luck: Seq<bool>,
    in_range: Seq<Vec<bool>>,
    luck: Seq<bool>,
    i: int,
    j: int,
    s: MatingScan,
) -> MatingScan {
    if s.used[j] || !in_range[i]@[j] || !sizes_compatible(sizes[i] as int, sizes[j] as int) {
        s
    } else if needs_luck[i] && !luck_at(luck, s.draws) {
        MatingScan { draws: s.draws + 1, ..s }
    } else {
        let d = if needs_luck[i] {
            s.draws + 1
        } else {
            s.draws
        };
        if needs_luck[j] && !luck_at(luck, d) {
            MatingScan { draws: d + 1, ..s }
        } else {
            let d2 = if needs_luck[j] {
                d + 1
            } else {
                d
            };
            MatingScan {
                used: s.used.update(i, true).update(j, true),
                pairs: s.pairs.push((i as usize, j as usize)),
                draws: d2,
            }
        }
    }
}

/// The state after organism `i` has considered partners `i + 1 .. j`; it
/// stops at its first partner.
pub open spec fn row_scan(
    sizes: Seq<usize>,
    needs_luck: Seq<bool>,
    in_range: Seq<Vec<bool>>,
    luck: Seq<bool>,
    i: int,
    s: MatingScan,
    j: int,
) -> MatingScan
    decreases j - i,
{
    if j <= i + 1 {
        s
    } else {
        let t = row_scan(sizes, needs_luck, in_range, luck, i, s, j - 1);
        if t.used[i] {
            t
        } else {
            consider(sizes, needs_luck, in_range, luck, i, j - 1, t)
        }
    }
}

/// The state after organisms `0 .. i` have looked for partners.
pub open spec fn rows_scan(
    sizes: Seq<usize>,
    needs_luck: Seq<bool>,
    in_range: Seq<Vec<bool>>,
    luck: Seq<bool>,
    i: int,
) -> MatingScan
    decreases i,
{
    if i <= 0 {
        MatingScan { used: Seq::new(sizes.len(), |k: int| false), pairs: Seq::empty(), draws: 0 }
    } else {
        let s = rows_scan(sizes, needs_luck, in_range, luck, i - 1);
        if s.used[i - 1] {
            s
        } else {
            row_scan(sizes, needs_luck, in_range, luck, i - 1, s, sizes.len() as int)
        }
    }
}

/// The pairs formed and the draws used: nothing when fewer than
/// `MATING_HEADROOM` particles remain under the cap, else the full scan.
pub open spec fn spec_mating(
    sizes: Seq<usize>,
    needs_luck: Seq<bool>,
    in_range: Seq<Vec<bool>>,
    luck: Seq<bool>,
    alive_count: int,
    max_particles: int,
) -> (Seq<(usize, usize)>, int) {
    if alive_count + MATING_HEADROOM >= max_particles {
        (Seq::empty(), 0)
    } else {
        let s = rows_scan(sizes, needs_luck, in_range, luck, sizes.len() as int);
        (s.pairs, s.draws)
    }
}

proof fn lemma_consider_frame(
    sizes: Seq<usize>,
    needs_luck: Seq<bool>,
    in_range: Seq<Vec<bool>>,
    luck: Seq<bool>,
    i: int,
    j: int,
    s: MatingScan,
)
    requires
        0 <= i < j < s.used.len(),
    ensures
        ({
            let t = consider(sizes, needs_luck, in_range, luck, i, j, s);
            &&& t.used.len() == s.used.len()
            &&& t.draws >= s.draws
            &&& t.draws <= s.draws + 2
        }),
{
}

proof fn lemma_row_scan_frame(
    sizes: Seq<usize>,
    needs_luck: Seq<bool>,
    in_range: Seq<Vec<bool>>,
    luck: Seq<bool>,
    i: int,
    s: MatingScan,
    j: int,
)
    requires
        0 <= i < s.used.len(),
        i + 1 <= j <= s.used.len(),
    ensures
        ({
            let t = row_scan(sizes, needs_luck, in_range, luck, i, s, j);
            &&& t.used.len() == s.used.len()
            &&& s.draws <= t.draws <= s.draws + 2 * (j - i)
        }),
    decreases j - i,
{
    if j > i + 1 {
        lemma_row_scan_frame(sizes, needs_luck, in_range, luck, i, s, j - 1);
        let t = row_scan(sizes, needs_luck, in_range, luck, i, s, j - 1);
        if !t.used[i] {
            lemma_consider_frame(sizes, needs_luck, in_range, luck, i, j - 1, t);
        }
    }
}

fn compatible(a: usize, b: usize) -> (c: bool)
    ensures
        c == sizes_compatible(a as int, b as int),
{
    if a >= b {
        (a as u128) * 2 <= (b as u128) * 5
    } else {
        (b as u128) * 2 <= (a as u128) * 5
    }
}

fn draw(luck: &Vec<bool>, d: usize) -> (b: bool)
    ensures
        b == luck_at(luck@, d as int),
{
    d < luck.len() && luck[d]
}

/// Pairs ready organisms for mating. `sizes[i]` is the size of ready organism
/// `i`, `needs_luck[i]` whether it must pass a chance draw (an established
/// lineage of low fitness), `in_range[i][j]` whether organisms `i` and `j`
/// are close enough, and `luck` the outcomes of successive draws. Nothing is
/// paired when `alive_count + MATING_HEADROOM >= max_particles`. Returns the
/// pairs `(i, j)`, `i < j`, and the number of draws used.
pub fn mating_pairs(
    sizes: &Vec<usize>,
    needs_luck: &Vec<bool>,
    in_range: &Vec<Vec<bool>>,
    luck: &Vec<bool>,
    alive_count: usize,
    max_particles: usize,
) -> (r: (Vec<(usize, usize)>, usize))
    requires
        needs_luck@.len() == sizes@.len(),
        in_range@.len() == sizes@.len(),
        forall|i: int| 0 <= i < in_range@.len() ==> #[trigger] in_range@[i]@.len() == sizes@.len(),
        2 * sizes@.len() * sizes@.len() <= usize::MAX,
    ensures
        r.0@ == spec_mating(sizes@, needs_luck@, in_range@, luck@, alive_count as int, max_particles as int).0,
        r.1 == spec_mating(sizes@, needs_luck@, in_range@, luck@, alive_count as int, max_particles as int).1,
{
    if alive_count >= max_particles || max_particles - alive_count <= MATING_HEADROOM {
        return (Vec::new(), 0);
    }
    let n = sizes.len();
    let ghost sz = sizes@;
    let ghost nl = needs_luck@;
    let ghost ir = in_range@;
    let ghost lk = luck@;
    let mut used: Vec<bool> = Vec::new();
    let mut k: usize = 0;
    while k < n
        invariant
            0 <= k <= n,
            used@.len() == k,
            forall|q: int| 0 <= q < k ==> !#[trigger] used@[q],
        decreases n - k,
    {
        used.push(false);
        k = k + 1;
    }
    let mut pairs: Vec<(usize, usize)> = Vec::new();
    let mut draws: usize = 0;
    let mut i: usize = 0;
    proof {
        assert(used@ =~= rows_scan(sz, nl, ir, lk, 0).used);
    }
    while i < n
        invariant
            n == sz.len(),
            sizes@ == sz,
            needs_luck@ == nl,
            in_range@ == ir,
            luck@ == lk,
            nl.len() == n,
            ir.len() == n,
            forall|q: int| 0 <= q < ir.len() ==> #[trigger] ir[q]@.len() == n,
            2 * n * n <= usize::MAX,
            0 <= i <= n,
            used@ == rows_scan(sz, nl, ir, lk, i as int).used,
            pairs@ == rows_scan(sz, nl, ir, lk, i as int).pairs,
            draws == rows_scan(sz, nl, ir, lk, i as int).draws,
            draws <= 2 * i * n,
            used@.len() == n,
        decreases n - i,
    {
        if !used[i] {
            let mut j: usize = i + 1;
            let ghost s0 = rows_scan(sz, nl, ir, lk, i as int);
            proof {
                assert(2 * i * n + 2 * n <= 2 * n * n) by (nonlinear_arith)
                    requires
                        i < n,
                ;
            }
            while j < n && !used[i]
                invariant
                    n == sz.len(),
                    sizes@ == sz,
                    needs_luck@ == nl,
                    in_range@ == ir,
                    luck@ == lk,
                    nl.len() == n,
                    ir.len() == n,
                    forall|q: int| 0 <= q < ir.len() ==> #[trigger] ir[q]@.len() == n,
                    0 <= i < n,
                    i + 1 <= j <= n,
                    s0.used.len() == n,
                    !s0.used[i as int],
                    s0.draws <= 2 * i * n,
                    2 * i * n + 2 * n <= 2 * n * n,
                    2 * n * n <= usize::MAX,
                    used@ == row_scan(sz, nl, ir, lk, i as int, s0, j as int).used,
                    pairs@ == row_scan(sz, nl, ir, lk, i as int, s0, j as int).pairs,
                    draws == row_scan(sz, nl, ir, lk, i as int, s0, j as int).draws,
                    used@.len() == n,
                    draws <= s0.draws + 2 * (j - i),
                decreases n - j,
            {
                proof {
                    lemma_row_scan_frame(sz, nl, ir, lk, i as int, s0, j as int + 1);
                }
                if !used[j] && in_range[i][j] && compatible(sizes[i], sizes[j]) {
                    let mut ok = true;
                    if needs_luck[i] {
                        ok = draw(luck, draws);
                        draws = draws + 1;
                    }
                    if ok && needs_luck[j] {
                        ok = draw(luck, draws);
                        draws = draws + 1;
                    }
                    if ok {
                        used.set(i, true);
                        used.set(j, true);
                        pairs.push((i, j));
                    }
                }
                j = j + 1;
            }
            proof {
                if j < n {
                    lemma_row_scan_rest(sz, nl, ir, lk, i as int, s0, j as int, n as int);
                }
                lemma_row_scan_frame(sz, nl, ir, lk, i as int, s0, n as int);
            }
        }
        proof {
            assert(2 * i * n + 2 * (n - i) <= 2 * (i + 1) * n) by (nonlinear_arith)
                requires
                    i < n,
            ;
            assert(2 * i * n <= 2 * (i + 1) * n) by (nonlinear_arith);
        }
        i = i + 1;
    }
    (pairs, draws)
}

proof fn lemma_row_scan_rest(
    sizes: Seq<usize>,
    needs_luck: Seq<bool>,
    in_range: Seq<Vec<bool>>,
    luck: Seq<bool>,
    i: int,
    s: MatingScan,
    j: int,
    n: int,
)
    requires
        0 <= i < s.used.len(),
        i + 1 <= j <= n,
        row_scan(sizes, needs_luck, in_range, luck, i, s, j).used[i],
    ensures
        row_scan(sizes, needs_luck, in_range, luck, i, s, n) == row_scan(
            sizes,
            needs_luck,
            in_range,
            luck,
            i,
            s,
            j,
        ),
    decreases n - j,
{
    if n > j {
        lemma_row_scan_rest(sizes, needs_luck, in_range, luck, i, s, j, n - 1);
    }
}

/// Every pair joins two in-range organisms of compatible sizes, the first
/// before the second, and the pairs are disjoint.
pub open spec fn pairs_valid(sizes: Seq<usize>, in_range: Seq<Vec<bool>>, pairs: Seq<(usize, usize)>) -> bool {
    &&& forall|k: int|
        0 <= k < pairs.len() ==> {
            let (a, b) = #[trigger] pairs[k];
            &&& a < b < sizes.len()
            &&& in_range[a as int]@[b as int]
            &&& sizes_compatible(sizes[a as int] as int, sizes[b as int] as int)
        }
    &&& forall|k1: int, k2: int|
        0 <= k1 < k2 < pairs.len() ==> {
            let (a1, b1) = #[trigger] pairs[k1];
            let (a2, b2) = #[trigger] pairs[k2];
            a1 != a2 && a1 != b2 && b1 != a2 && b1 != b2
        }
}

spec fn scan_wf(sizes: Seq<usize>, in_range: Seq<Vec<bool>>, s: MatingScan) -> bool {
    &&& s.used.len() == sizes.len()
    &&& pairs_valid(sizes, in_range, s.pairs)
    &&& forall|k: int|
        0 <= k < s.pairs.len() ==> s.used[(#[trigger] s.pairs[k]).0 as int] && s.used[s.pairs[k].1 as int]
}

proof fn lemma_consider_wf(
    sizes: Seq<usize>,
    needs_luck: Seq<bool>,
    in_range: Seq<Vec<bool>>,
    luck: Seq<bool>,
    i: int,
    j: int,
    s: MatingScan,
)
    requires
        0 <= i < j < sizes.len(),
        sizes.len() <= usize::MAX,
        scan_wf(sizes, in_range, s),
        !s.used[i],
    ensures
        scan_wf(sizes, in_range, consider(sizes, needs_luck, in_range, luck, i, j, s)),
{
    let t = consider(sizes, needs_luck, in_range, luck, i, j, s);
    if t.pairs.len() != s.pairs.len() {
        assert(t.pairs == s.pairs.push((i as usize, j as usize)));
        assert(t.used == s.used.update(i, true).update(j, true));
        assert forall|k: int| 0 <= k < t.pairs.len() implies t.used[(#[trigger] t.pairs[k]).0 as int]
            && t.used[t.pairs[k].1 as int] by {
            if k < s.pairs.len() {
                assert(t.pairs[k] == s.pairs[k]);
            }
        }
        assert forall|k1: int, k2: int| 0 <= k1 < k2 < t.pairs.len() implies {
            let (a1, b1) = #[trigger] t.pairs[k1];
            let (a2, b2) = #[trigger] t.pairs[k2];
            a1 != a2 && a1 != b2 && b1 != a2 && b1 != b2
        } by {
            assert(t.pairs[k1] == s.pairs[k1]);
            if k2 < s.pairs.len() {
                assert(t.pairs[k2] == s.pairs[k2]);
            } else {
                assert(s.used[s.pairs[k1].0 as int] && s.used[s.pairs[k1].1 as int]);
            }
        }
        assert forall|k: int| 0 <= k < t.pairs.len() implies {
            let (a, b) = #[trigger] t.pairs[k];
            &&& a < b < sizes.len()
            &&& in_range[a as int]@[b as int]
            &&& sizes_compatible(sizes[a as int] as int, sizes[b as int] as int)
        } by {
            if k < s.pairs.len() {
                assert(t.pairs[k] == s.pairs[k]);
            }
        }
    }
}

proof fn lemma_row_scan_wf(
    sizes: Seq<usize>,
    needs_luck: Seq<bool>,
    in_range: Seq<Vec<bool>>,
    luck: Seq<bool>,
    i: int,
    s: MatingScan,
    j: int,
)
    requires
        0 <= i < sizes.len(),
        sizes.len() <= usize::MAX,
        i + 1 <= j <= sizes.len(),
        scan_wf(sizes, in_range, s),
    ensures
        scan_wf(sizes, in_range, row_scan(sizes, needs_luck, in_range, luck, i, s, j)),
    decreases j - i,
{
    if j > i + 1 {
        lemma_row_scan_wf(sizes, needs_luck, in_range, luck, i, s, j - 1);
        let t = row_scan(sizes, needs_luck, in_range, luck, i, s, j - 1);
        if !t.used[i] {
            lemma_consider_wf(sizes, needs_luck, in_range, luck, i, j - 1, t);
        }
    }
}

proof fn lemma_rows_scan_wf(
    sizes: Seq<usize>,
    needs_luck: Seq<bool>,
    in_range: Seq<Vec<bool>>,
    luck: Seq<bool>,
    i: int,
)
    requires
        0 <= i <= sizes.len(),
        sizes.len() <= usize::MAX,
    ensures
        scan_wf(sizes, in_range, rows_scan(sizes, needs_luck, in_range, luck, i)),
    decreases i,
{
    if i > 0 {
        lemma_rows_scan_wf(sizes, needs_luck, in_range, luck, i - 1);
        let s = rows_scan(sizes, needs_luck, in_range, luck, i - 1);
        if !s.used[i - 1] {
            lemma_row_scan_wf(sizes, needs_luck, in_range, luck, i - 1, s, sizes.len() as int);
        }
    }
}

/// No organism mates twice in one round, and every pair is in range and of
/// compatible sizes (the larger at most 2.5 times the smaller).
pub proof fn lemma_mating_pairs_valid(
    sizes: Seq<usize>,
    needs_luck: Seq<bool>,
    in_range: Seq<Vec<bool>>,
    luck: Seq<bool>,
    alive_count: int,
    max_particles: int,
)
    requires
        sizes.len() <= usize::MAX,
    ensures
        pairs_valid(sizes, in_range, spec_mating(sizes, needs_luck, in_range, luck, alive_count, max_particles).0),
{
    lemma_rows_scan_wf(sizes, needs_luck, in_range, luck, sizes.len() as int);
}

/// Number of successful draws among the first `m`.
pub open spec fn successes(luck: Seq<bool>, m: int) -> nat
    decreases m,
{
    if m <= 0 {
        0
    } else {
        successes(luck, m - 1) + if luck_at(luck, m - 1) {
            1nat
        } else {
            0nat
        }
    }
}

/// Number of paired organisms, among the first `m` pairs, that must pass a draw.
pub open spec fn needy_paired(needs_luck: Seq<bool>, pairs: Seq<(usize, usize)>, m: int) -> nat
    decreases m,
{
    if m <= 0 {
        0
    } else {
        needy_paired(needs_luck, pairs, m - 1) + (if needs_luck[pairs[m - 1].0 as int] {
            1nat
        } else {
            0nat
        }) + (if needs_luck[pairs[m - 1].1 as int] {
            1nat
        } else {
            0nat
        })
    }
}

proof fn lemma_successes_mono(luck: Seq<bool>, a: int, b: int)
    requires
        0 <= a <= b,
    ensures
        successes(luck, a) <= successes(luck, b),
    decreases b - a,
{
    if a < b {
        lemma_successes_mono(luck, a, b - 1);
    }
}

spec fn luck_wf(needs_luck: Seq<bool>, luck: Seq<bool>, s: MatingScan) -> bool {
    &&& s.draws >= 0
    &&& needy_paired(needs_luck, s.pairs, s.pairs.len() as int) <= successes(luck, s.draws)
    &&& needy_paired(needs_luck, s.pairs, s.pairs.len() as int) <= s.draws
    &&& (forall|q: int| 0 <= q < needs_luck.len() ==> !#[trigger] needs_luck[q]) ==> s.draws == 0
}

proof fn lemma_consider_luck(
    sizes: Seq<usize>,
    needs_luck: Seq<bool>,
    in_range: Seq<Vec<bool>>,
    luck: Seq<bool>,
    i: int,
    j: int,
    s: MatingScan,
)
    requires
        0 <= i < j < sizes.len(),
        sizes.len() <= usize::MAX,
        needs_luck.len() == sizes.len(),
        luck_wf(needs_luck, luck, s),
    ensures
        luck_wf(needs_luck, luck, consider(sizes, needs_luck, in_range, luck, i, j, s)),
{
    let t = consider(sizes, needs_luck, in_range, luck, i, j, s);
    lemma_successes_mono(luck, s.draws, t.draws);
    if t.pairs.len() != s.pairs.len() {
        let d = if needs_luck[i] {
            s.draws + 1
        } else {
            s.draws
        };
        assert(t.pairs == s.pairs.push((i as usize, j as usize)));
        assert(t.pairs.drop_last() == s.pairs);
        assert forall|m: int| 0 <= m <= s.pairs.len() implies needy_paired(needs_luck, t.pairs, m)
            == needy_paired(needs_luck, s.pairs, m) by {
            lemma_needy_prefix(needs_luck, t.pairs, s.pairs, m);
        }
        assert(successes(luck, d) == successes(luck, s.draws) + if needs_luck[i] {
            1nat
        } else {
            0nat
        });
        assert(successes(luck, t.draws) == successes(luck, d) + if needs_luck[j] {
            1nat
        } else {
            0nat
        });
    }
}

proof fn lemma_needy_prefix(needs_luck: Seq<bool>, a: Seq<(usize, usize)>, b: Seq<(usize, usize)>, m: int)
    requires
        0 <= m <= b.len(),
        b.len() <= a.len(),
        forall|q: int| 0 <= q < b.len() ==> a[q] == b[q],
    ensures
        needy_paired(needs_luck, a, m) == needy_paired(needs_luck, b, m),
    decreases m,
{
    if m > 0 {
        lemma_needy_prefix(needs_luck, a, b, m - 1);
    }
}

proof fn lemma_row_scan_luck(
    sizes: Seq<usize>,
    needs_luck: Seq<bool>,
    in_range: Seq<Vec<bool>>,
    luck: Seq<bool>,
    i: int,
    s: MatingScan,
    j: int,
)
    requires
        0 <= i < sizes.len(),
        sizes.len() <= usize::MAX,
        needs_luck.len() == sizes.len(),
        i + 1 <= j <= sizes.len(),
        luck_wf(needs_luck, luck, s),
    ensures
        luck_wf(needs_luck, luck, row_scan(sizes, needs_luck, in_range, luck, i, s, j)),
    decreases j - i,
{
    if j > i + 1 {
        lemma_row_scan_luck(sizes, needs_luck, in_range, luck, i, s, j - 1);
        let t = row_scan(sizes, needs_luck, in_range, luck, i, s, j - 1);
        if !t.used[i] {
            lemma_consider_luck(sizes, needs_luck, in_range, luck, i, j - 1, t);
        }
    }
}

proof fn lemma_rows_scan_luck(
    sizes: Seq<usize>,
    needs_luck: Seq<bool>,
    in_range: Seq<Vec<bool>>,
    luck: Seq<bool>,
    i: int,
)
    requires
        0 <= i <= sizes.len(),
        sizes.len() <= usize::MAX,
        needs_luck.len() == sizes.len(),
    ensures
        luck_wf(needs_luck, luck, rows_scan(sizes, needs_luck, in_range, luck, i)),
    decreases i,
{
    if i > 0 {
        lemma_rows_scan_luck(sizes, needs_luck, in_range, luck, i - 1);
        let s = rows_scan(sizes, needs_luck, in_range, luck, i - 1);
        if !s.used[i - 1] {
            lemma_row_scan_luck(sizes, needs_luck, in_range, luck, i - 1, s, sizes.len() as int);
        }
    }
}

/// Every paired organism that must pass a draw passed its own: the paired
/// organisms that need luck are no more than the successful draws among those
/// used (so none pairs when every draw fails), and no more than the draws
/// used; and no draw is used when no organism needs luck.
pub proof fn lemma_mating_draws(
    sizes: Seq<usize>,
    needs_luck: Seq<bool>,
    in_range: Seq<Vec<bool>>,
    luck: Seq<bool>,
    alive_count: int,
    max_particles: int,
)
    requires
        sizes.len() <= usize::MAX,
        needs_luck.len() == sizes.len(),
    ensures
        ({
            let (pairs, draws) = spec_mating(sizes, needs_luck, in_range, luck, alive_count, max_particles);
            &&& needy_paired(needs_luck, pairs, pairs.len() as int) <= successes(luck, draws)
            &&& needy_paired(needs_luck, pairs, pairs.len() as int) <= draws
            &&& (forall|q: int| 0 <= q < needs_luck.len() ==> !#[trigger] needs_luck[q]) ==> draws == 0
        }),
{
    lemma_rows_scan_luck(sizes, needs_luck, in_range, luck, sizes.len() as int);
}

/// When every draw fails, no organism that needs luck is paired.
pub proof fn lemma_no_luck_no_needy_pairs(
    sizes: Seq<usize>,
    needs_luck: Seq<bool>,
    in_range: Seq<Vec<bool>>,
    luck: Seq<bool>,
    alive_count: int,
    max_particles: int,
)
    requires
        sizes.len() <= usize::MAX,
        needs_luck.len() == sizes.len(),
        forall|d: int| 0 <= d < luck.len() ==> !#[trigger] luck[d],
    ensures
        ({
            let pairs = spec_mating(sizes, needs_luck, in_range, luck, alive_count, max_particles).0;
            forall|q: int|
                0 <= q < pairs.len() ==> !needs_luck[(#[trigger] pairs[q]).0 as int] && !needs_luck[pairs[q].1 as int]
        }),
{
    lemma_mating_draws(sizes, needs_luck, in_range, luck, alive_count, max_particles);
    let (pairs, draws) = spec_mating(sizes, needs_luck, in_range, luck, alive_count, max_particles);
    lemma_no_successes(luck, draws);
    assert forall|q: int| 0 <= q < pairs.len() implies !needs_luck[(#[trigger] pairs[q]).0 as int]
        && !needs_luck[pairs[q].1 as int] by {
        lemma_needy_at_least(needs_luck, pairs, q, pairs.len() as int);
    }
}

proof fn lemma_no_successes(luck: Seq<bool>, m: int)
    requires
        forall|d: int| 0 <= d < luck.len() ==> !#[trigger] luck[d],
    ensures
        successes(luck, m) == 0,
    decreases m,
{
    if m > 0 {
        lemma_no_successes(luck, m - 1);
    }
}

proof fn lemma_needy_at_least(needs_luck: Seq<bool>, pairs: Seq<(usize, usize)>, q: int, m: int)
    requires
        0 <= q < m <= pairs.len(),
    ensures
        needs_luck[pairs[q].0 as int] || needs_luck[pairs[q].1 as int] ==> needy_paired(needs_luck, pairs, m) >= 1,
    decreases m,
{
    if m - 1 > q {
        lemma_needy_at_least(needs_luck, pairs, q, m - 1);
    }
}

/// Organisms `a` and `b` could mate without any draw: in range, of
/// compatible sizes, and neither needs luck.
pub open spec fn freely_compatible(
    sizes: Seq<usize>,
    needs_luck: Seq<bool>,
    in_range: Seq<Vec<bool>>,
    a: int,
    b: int,
) -> bool {
    &&& in_range[a]@[b]
    &&& sizes_compatible(sizes[a] as int, sizes[b] as int)
    &&& !needs_luck[a]
    &&& !needs_luck[b]
}

/// Organism `x` is in one of the pairs.
pub open spec fn is_paired(pairs: Seq<(usize, usize)>, x: int) -> bool {
    exists|q: int| 0 <= q < pairs.len() && ((#[trigger] pairs[q]).0 == x || pairs[q].1 == x)
}

spec fn used_means_paired(s: MatingScan) -> bool {
    forall|x: int| 0 <= x < s.used.len() && #[trigger] s.used[x] ==> is_paired(s.pairs, x)
}

proof fn lemma_consider_mono(
    sizes: Seq<usize>,
    needs_luck: Seq<bool>,
    in_range: Seq<Vec<bool>>,
    luck: Seq<bool>,
    i: int,
    j: int,
    s: MatingScan,
)
    requires
        0 <= i < j < s.used.len(),
        s.used.len() <= usize::MAX,
        used_means_paired(s),
    ensures
        ({
            let t = consider(sizes, needs_luck, in_range, luck, i, j, s);
            &&& t.used.len() == s.used.len()
            &&& forall|x: int| 0 <= x < s.used.len() && s.used[x] ==> #[trigger] t.used[x]
            &&& used_means_paired(t)
            &&& !s.used[i] && !s.used[j] && freely_compatible(sizes, needs_luck, in_range, i, j) ==> t.used[i]
        }),
{
    let t = consider(sizes, needs_luck, in_range, luck, i, j, s);
    if t.pairs.len() != s.pairs.len() {
        assert(t.pairs == s.pairs.push((i as usize, j as usize)));
        assert forall|x: int| 0 <= x < t.used.len() && #[trigger] t.used[x] implies is_paired(t.pairs, x) by {
            if x == i || x == j {
                assert(t.pairs[s.pairs.len() as int] == (i as usize, j as usize));
            } else {
                assert(s.used[x]);
                let q = choose|q: int| 0 <= q < s.pairs.len() && ((#[trigger] s.pairs[q]).0 == x || s.pairs[q].1 == x);
                assert(t.pairs[q] == s.pairs[q]);
            }
        }
    }
}

proof fn lemma_row_maximal(
    sizes: Seq<usize>,
    needs_luck: Seq<bool>,
    in_range: Seq<Vec<bool>>,
    luck: Seq<bool>,
    i: int,
    s: MatingScan,
    j: int,
)
    requires
        0 <= i < s.used.len(),
        s.used.len() <= usize::MAX,
        i + 1 <= j <= s.used.len(),
        used_means_paired(s),
    ensures
        ({
            let t = row_scan(sizes, needs_luck, in_range, luck, i, s, j);
            &&& t.used.len() == s.used.len()
            &&& forall|x: int| 0 <= x < s.used.len() && s.used[x] ==> #[trigger] t.used[x]
            &&& used_means_paired(t)
            &&& !t.used[i] ==> forall|b: int|
                i < b < j && !#[trigger] t.used[b] ==> !freely_compatible(sizes, needs_luck, in_range, i, b)
        }),
    decreases j - i,
{
    if j > i + 1 {
        lemma_row_maximal(sizes, needs_luck, in_range, luck, i, s, j - 1);
        let t = row_scan(sizes, needs_luck, in_range, luck, i, s, j - 1);
        if !t.used[i] {
            lemma_consider_mono(sizes, needs_luck, in_range, luck, i, j - 1, t);
        }
    }
}

proof fn lemma_rows_maximal(
    sizes: Seq<usize>,
    needs_luck: Seq<bool>,
    in_range: Seq<Vec<bool>>,
    luck: Seq<bool>,
    k: int,
)
    requires
        0 <= k <= sizes.len(),
        sizes.len() <= usize::MAX,
    ensures
        ({
            let t = rows_scan(sizes, needs_luck, in_range, luck, k);
            &&& t.used.len() == sizes.len()
            &&& used_means_paired(t)
            &&& forall|a: int, b: int|
                0 <= a < k && a < b < sizes.len() && !#[trigger] t.used[a] && !#[trigger] t.used[b]
                    ==> !freely_compatible(sizes, needs_luck, in_range, a, b)
        }),
    decreases k,
{
    if k > 0 {
        lemma_rows_maximal(sizes, needs_luck, in_range, luck, k - 1);
        let s = rows_scan(sizes, needs_luck, in_range, luck, k - 1);
        if !s.used[k - 1] {
            lemma_row_maximal(sizes, needs_luck, in_range, luck, k - 1, s, sizes.len() as int);
            let t = rows_scan(sizes, needs_luck, in_range, luck, k);
            assert forall|a: int, b: int|
                0 <= a < k && a < b < sizes.len() && !#[trigger] t.used[a] && !#[trigger] t.used[b]
                    implies !freely_compatible(sizes, needs_luck, in_range, a, b) by {
                if a < k - 1 {
                    if s.used[a] {
                        assert(t.used[a]);
                    }
                    if s.used[b] {
                        assert(t.used[b]);
                    }
                }
            }
        }
    }
}

/// The pairing is maximal among organisms that need no luck: when mating
/// happens at all, no two organisms left unpaired are in range, of compatible
/// sizes and both free of draws.
pub proof fn lemma_mating_maximal(
    sizes: Seq<usize>,
    needs_luck: Seq<bool>,
    in_range: Seq<Vec<bool>>,
    luck: Seq<bool>,
    alive_count: int,
    max_particles: int,
)
    requires
        sizes.len() <= usize::MAX,
        alive_count + MATING_HEADROOM < max_particles,
    ensures
        ({
            let pairs = spec_mating(sizes, needs_luck, in_range, luck, alive_count, max_particles).0;
            forall|a: int, b: int|
                0 <= a < b < sizes.len() && !#[trigger] is_paired(pairs, a) && !#[trigger] is_paired(pairs, b)
                    ==> !freely_compatible(sizes, needs_luck, in_range, a, b)
        }),
{
    lemma_rows_maximal(sizes, needs_luck, in_range, luck, sizes.len() as int);
    let t = rows_scan(sizes, needs_luck, in_range, luck, sizes.len() as int);
    assert forall|a: int, b: int|
        0 <= a < b < sizes.len() && !#[trigger] is_paired(t.pairs, a) && !#[trigger] is_paired(t.pairs, b)
            implies !freely_compatible(sizes, needs_luck, in_range, a, b) by {
        assert(!t.used[a]);
        assert(!t.used[b]);
    }
}

} // verus!
