//! Structure-of-arrays particle store.
//!
//! Each column holds one attribute of every particle; index `i` of every
//! column belongs to particle `i`. The scalar type `F` (positions, velocities,
//! energy, bond strengths), the chemistry vector `C` and the genome `G` are
//! carried through unchanged, so the store's bookkeeping (ids, liveness,
//! bonds and compaction) is independent of them.
use vstd::prelude::*;
use crate::cell_role::CellRole;

verus! {

/// Number of `true` entries among the first `k` of `a`.
pub open spec fn alive_before(a: Seq<bool>, k: int) -> nat
    decreases k,
{
    if k <= 0 {
        0
    } else {
        alive_before(a, k - 1) + if a[k - 1] {
            1nat
        } else {
            0nat
        }
    }
}

/// The entries of `s` whose index is marked alive in `a`, in their order.
pub open spec fn keep<T>(s: Seq<T>, a: Seq<bool>) -> Seq<T>
    decreases s.len(),
{
    if s.len() == 0 {
        Seq::empty()
    } else if a[s.len() - 1] {
        keep(s.drop_last(), a).push(s.last())
    } else {
        keep(s.drop_last(), a)
    }
}

/// A bond list after compaction: bonds to particles outside the store or dead
/// are dropped, and every other partner index is renumbered to the partner's
/// position among the survivors.
pub open spec fn remap_bonds<F>(b: Seq<(usize, F)>, a: Seq<bool>) -> Seq<(usize, F)>
    decreases b.len(),
{
    if b.len() == 0 {
        Seq::empty()
    } else {
        let rest = remap_bonds(b.drop_last(), a);
        let (p, w) = b.last();
        if (p as int) < a.len() && a[p as int] {
            rest.push((alive_before(a, p as int) as usize, w))
        } else {
            rest
        }
    }
}

pub proof fn lemma_alive_before_bounds(a: Seq<bool>, k: int)
    requires
        0 <= k,
    ensures
        alive_before(a, k) <= k,
    decreases k,
{
    if k > 0 {
        lemma_alive_before_bounds(a, k - 1);
    }
}

/// Positions `j < k` keep their count when the sequence grows past `k`.
pub proof fn lemma_alive_before_mono(a: Seq<bool>, j: int, k: int)
    requires
        0 <= j <= k,
    ensures
        alive_before(a, j) <= alive_before(a, k),
        j < k && j < a.len() && a[j] ==> alive_before(a, j) < alive_before(a, k),
    decreases k - j,
{
    if j < k {
        lemma_alive_before_mono(a, j, k - 1);
        if j == k - 1 {
        }
    }
}

pub proof fn lemma_keep_len<T>(s: Seq<T>, a: Seq<bool>)
    requires
        s.len() <= a.len(),
    ensures
        keep(s, a).len() == alive_before(a, s.len() as int),
    decreases s.len(),
{
    if s.len() > 0 {
        lemma_keep_len(s.drop_last(), a);
    }
}

/// The survivor at position `r` of `s` lands at index `alive_before(a, r)`.
pub proof fn lemma_keep_index<T>(s: Seq<T>, a: Seq<bool>, r: int)
    requires
        s.len() <= a.len(),
        0 <= r < s.len(),
        a[r],
    ensures
        alive_before(a, r) < keep(s, a).len(),
        keep(s, a)[alive_before(a, r) as int] == s[r],
    decreases s.len(),
{
    lemma_keep_len(s, a);
    lemma_keep_len(s.drop_last(), a);
    if r < s.len() - 1 {
        lemma_keep_index(s.drop_last(), a, r);
    }
    lemma_alive_before_mono(a, r, s.len() as int);
}

/// Every index of the kept sequence comes from a surviving position.
pub proof fn lemma_keep_source<T>(s: Seq<T>, a: Seq<bool>, i: int)
    requires
        s.len() <= a.len(),
        0 <= i < keep(s, a).len(),
    ensures
        exists|r: int| 0 <= r < s.len() && a[r] && alive_before(a, r) == i && #[trigger] s[r]
            == keep(s, a)[i],
    decreases s.len(),
{
    lemma_keep_len(s, a);
    lemma_keep_len(s.drop_last(), a);
    let n = s.len() - 1;
    if a[n] && i == keep(s.drop_last(), a).len() {
        assert(s[n] == keep(s, a)[i]);
    } else {
        lemma_keep_source(s.drop_last(), a, i);
        let r = choose|r: int|
            0 <= r < s.drop_last().len() && a[r] && alive_before(a, r) == i && #[trigger] s.drop_last()[r]
                == keep(s.drop_last(), a)[i];
        assert(s[r] == keep(s, a)[i]);
    }
}

/// Moves into `v` exactly the entries whose index is marked alive, in order.
fn retain_alive<T>(v: &mut Vec<T>, alive: &Vec<bool>)
    requires
        old(v)@.len() == alive@.len(),
    ensures
        final(v)@ == keep(old(v)@, alive@),
{
    let ghost orig = v@;
    let n = v.len();
    let mut read: usize = 0;
    let mut write: usize = 0;
    while read < n
        invariant
            n == orig.len(),
            n == alive@.len(),
            0 <= write <= read <= n,
            v@.len() == n - read + write,
            v@.subrange(0, write as int) == keep(orig.subrange(0, read as int), alive@),
            v@.subrange(write as int, v@.len() as int) == orig.subrange(read as int, n as int),
        decreases n - read,
    {
        let ghost before = v@;
        assert(orig.subrange(0, read as int + 1).drop_last() =~= orig.subrange(0, read as int));
        assert(before[write as int] == orig[read as int]) by {
            assert(before.subrange(write as int, before.len() as int)[0] == orig.subrange(
                read as int,
                n as int,
            )[0]);
        }
        assert forall|m: int| write <= m < before.len() implies #[trigger] before[m] == orig[m
            - write + read] by {
            assert(before.subrange(write as int, before.len() as int)[m - write] == orig.subrange(
                read as int,
                n as int,
            )[m - write]);
        }
        if alive[read] {
            write = write + 1;
            assert(v@.subrange(0, write as int) =~= before.subrange(0, write - 1).push(
                orig[read as int],
            ));
            assert(v@.subrange(write as int, v@.len() as int) =~= orig.subrange(
                read as int + 1,
                n as int,
            ));
        } else {
            v.remove(write);
            assert(v@.subrange(0, write as int) =~= before.subrange(0, write as int));
            assert(v@.subrange(write as int, v@.len() as int) =~= orig.subrange(
                read as int + 1,
                n as int,
            ));
        }
        read = read + 1;
    }
    assert(orig.subrange(0, n as int) =~= orig);
    assert(v@.subrange(0, write as int) =~= v@);
}

/// The new index of every old index: survivors are numbered in order, dead
/// particles have none.
pub open spec fn is_survivor_table(t: Seq<Option<usize>>, alive: Seq<bool>) -> bool {
    &&& t.len() == alive.len()
    &&& forall|r: int|
        0 <= r < alive.len() ==> #[trigger] t[r] == if alive[r] {
            Some(alive_before(alive, r) as usize)
        } else {
            None
        }
}

/// The index each particle gets when the dead ones are dropped.
pub(crate) fn survivor_indices(alive: &Vec<bool>) -> (t: Vec<Option<usize>>)
    ensures
        is_survivor_table(t@, alive@),
{
    let n = alive.len();
    let mut t: Vec<Option<usize>> = Vec::new();
    let mut write: usize = 0;
    let mut read: usize = 0;
    while read < n
        invariant
            n == alive@.len(),
            0 <= read <= n,
            t@.len() == read,
            write == alive_before(alive@, read as int),
            forall|r: int|
                0 <= r < read ==> #[trigger] t@[r] == if alive@[r] {
                    Some(alive_before(alive@, r) as usize)
                } else {
                    None
                },
        decreases n - read,
    {
        proof {
            lemma_alive_before_bounds(alive@, read as int);
        }
        if alive[read] {
            t.push(Some(write));
            write = write + 1;
        } else {
            t.push(None);
        }
        read = read + 1;
    }
    t
}

/// A bond list renumbered through the survivor table: bonds to dead partners
/// or to indices outside the store are dropped.
pub(crate) fn remap_bond_list<F: Copy>(
    b: &Vec<(usize, F)>,
    old_to_new: &Vec<Option<usize>>,
    Ghost(alive0): Ghost<Seq<bool>>,
) -> (nb: Vec<(usize, F)>)
    requires
        is_survivor_table(old_to_new@, alive0),
    ensures
        nb@ == remap_bonds(b@, alive0),
{
    let m = b.len();
    let mut nb: Vec<(usize, F)> = Vec::new();
    let mut k: usize = 0;
    while k < m
        invariant
            m == b@.len(),
            0 <= k <= m,
            is_survivor_table(old_to_new@, alive0),
            nb@ == remap_bonds(b@.subrange(0, k as int), alive0),
        decreases m - k,
    {
        let (p, w) = b[k];
        proof {
            assert(b@.subrange(0, k + 1).drop_last() =~= b@.subrange(0, k as int));
        }
        if p < old_to_new.len() {
            match old_to_new[p] {
                Some(q) => {
                    nb.push((q, w));
                },
                None => {},
            }
        }
        k = k + 1;
    }
    proof {
        assert(b@.subrange(0, m as int) =~= b@);
    }
    nb
}

/// Renumbers the partner of every bond through `old_to_new`, dropping bonds
/// whose partner has no new index.
fn remap_all_bonds<F: Copy>(
    bonds: &mut Vec<Vec<(usize, F)>>,
    old_to_new: &Vec<Option<usize>>,
    Ghost(alive0): Ghost<Seq<bool>>,
)
    requires
        is_survivor_table(old_to_new@, alive0),
    ensures
        final(bonds)@.len() == old(bonds)@.len(),
        forall|j: int|
            0 <= j < old(bonds)@.len() ==> #[trigger] final(bonds)@[j]@ == remap_bonds(
                old(bonds)@[j]@,
                alive0,
            ),
{
    let ghost kept = bonds@;
    let new_count = bonds.len();
    let mut i: usize = 0;
    while i < new_count
        invariant
            0 <= i <= new_count,
            bonds@.len() == new_count,
            kept.len() == new_count,
            is_survivor_table(old_to_new@, alive0),
            forall|j: int| i <= j < new_count ==> #[trigger] bonds@[j] == kept[j],
            forall|j: int| 0 <= j < i ==> #[trigger] bonds@[j]@ == remap_bonds(kept[j]@, alive0),
        decreases new_count - i,
    {
        let nb = remap_bond_list(&bonds[i], old_to_new, Ghost(alive0));
        bonds.set(i, nb);
        i = i + 1;
    }
}

/// Store `c` is store `s` after compaction: the survivors of `s` in order,
/// every column kept, all alive, each bond list renumbered to the survivors'
/// new positions, and the same next id.
pub open spec fn is_compaction_of<F, C, G>(c: ParticleStore<F, C, G>, s: ParticleStore<F, C, G>) -> bool {
    &&& c.wf()
    &&& c.count == alive_before(s.alive@, s.count as int)
    &&& c.x@ == keep(s.x@, s.alive@)
    &&& c.y@ == keep(s.y@, s.alive@)
    &&& c.vx@ == keep(s.vx@, s.alive@)
    &&& c.vy@ == keep(s.vy@, s.alive@)
    &&& c.energy@ == keep(s.energy@, s.alive@)
    &&& c.chem@ == keep(s.chem@, s.alive@)
    &&& c.genomes@ == keep(s.genomes@, s.alive@)
    &&& c.ages@ == keep(s.ages@, s.alive@)
    &&& c.parent_ids@ == keep(s.parent_ids@, s.alive@)
    &&& c.generations@ == keep(s.generations@, s.alive@)
    &&& c.group_ids@ == keep(s.group_ids@, s.alive@)
    &&& c.particle_ids@ == keep(s.particle_ids@, s.alive@)
    &&& c.roles@ == keep(s.roles@, s.alive@)
    &&& forall|i: int| 0 <= i < c.count ==> #[trigger] c.alive@[i]
    &&& forall|i: int|
        0 <= i < c.count ==> #[trigger] c.bonds@[i]@ == remap_bonds(keep(s.bonds@, s.alive@)[i]@, s.alive@)
    &&& c.next_id == s.next_id
}

/// SoA (structure of arrays) particle store for batch processing.
pub struct ParticleStore<F, C, G> {
    pub count: usize,
    pub x: Vec<F>,
    pub y: Vec<F>,
    pub vx: Vec<F>,
    pub vy: Vec<F>,
    pub energy: Vec<F>,
    pub chem: Vec<C>,
    pub genomes: Vec<G>,
    pub ages: Vec<u64>,
    pub parent_ids: Vec<i32>,
    pub generations: Vec<u32>,
    pub group_ids: Vec<i32>,
    pub particle_ids: Vec<u32>,
    pub alive: Vec<bool>,
    pub bonds: Vec<Vec<(usize, F)>>,
    pub roles: Vec<CellRole>,
    /// The id that the next added particle receives.
    pub next_id: u32,
}

impl<F, C, G> Default for ParticleStore<F, C, G> {
    fn default() -> (s: Self)
        ensures
            s.wf(),
            s.count == 0,
            s.next_id == 0,
    {
        ParticleStore {
            count: 0,
            x: Vec::new(),
            y: Vec::new(),
            vx: Vec::new(),
            vy: Vec::new(),
            energy: Vec::new(),
            chem: Vec::new(),
            genomes: Vec::new(),
            ages: Vec::new(),
            parent_ids: Vec::new(),
            generations: Vec::new(),
            group_ids: Vec::new(),
            particle_ids: Vec::new(),
            alive: Vec::new(),
            bonds: Vec::new(),
            roles: Vec::new(),
            next_id: 0,
        }
    }
}

impl<F, C, G> ParticleStore<F, C, G> {
    /// Every column holds one entry per particle.
    pub open spec fn wf(&self) -> bool {
        &&& self.x@.len() == self.count
        &&& self.y@.len() == self.count
        &&& self.vx@.len() == self.count
        &&& self.vy@.len() == self.count
        &&& self.energy@.len() == self.count
        &&& self.chem@.len() == self.count
        &&& self.genomes@.len() == self.count
        &&& self.ages@.len() == self.count
        &&& self.parent_ids@.len() == self.count
        &&& self.generations@.len() == self.count
        &&& self.group_ids@.len() == self.count
        &&& self.particle_ids@.len() == self.count
        &&& self.alive@.len() == self.count
        &&& self.bonds@.len() == self.count
        &&& self.roles@.len() == self.count
    }

    /// Appends a living particle at rest, with no bonds, age 0, no group, an
    /// undifferentiated role and the next particle id; returns its index.
    pub fn add_particle(
        &mut self,
        x: F,
        y: F,
        chem: C,
        genome: G,
        energy: F,
        parent_id: i32,
        generation: u32,
    ) -> (idx: usize) where F: Default
        requires
            old(self).wf(),
            old(self).count < usize::MAX,
            old(self).next_id < u32::MAX,
        ensures
            final(self).wf(),
            idx == old(self).count,
            final(self).count == old(self).count + 1,
            final(self).next_id == old(self).next_id + 1,
            final(self).x@ == old(self).x@.push(x),
            final(self).y@ == old(self).y@.push(y),
            final(self).vx@ == old(self).vx@.push(final(self).vx@.last()),
            final(self).vy@ == old(self).vy@.push(final(self).vy@.last()),
            call_ensures(F::default, (), final(self).vx@.last()),
            call_ensures(F::default, (), final(self).vy@.last()),
            final(self).energy@ == old(self).energy@.push(energy),
            final(self).chem@ == old(self).chem@.push(chem),
            final(self).genomes@ == old(self).genomes@.push(genome),
            final(self).ages@ == old(self).ages@.push(0u64),
            final(self).parent_ids@ == old(self).parent_ids@.push(parent_id),
            final(self).generations@ == old(self).generations@.push(generation),
            final(self).group_ids@ == old(self).group_ids@.push(-1i32),
            final(self).particle_ids@ == old(self).particle_ids@.push(old(self).next_id),
            final(self).alive@ == old(self).alive@.push(true),
            final(self).bonds@.len() == old(self).bonds@.len() + 1,
            forall|i: int| 0 <= i < old(self).count ==> #[trigger] final(self).bonds@[i] == old(self).bonds@[i],
            final(self).bonds@.last()@ == Seq::<(usize, F)>::empty(),
            final(self).roles@ == old(self).roles@.push(CellRole::Undifferentiated),
    {
        let idx = self.count;
        self.x.push(x);
        self.y.push(y);
        self.vx.push(F::default());
        self.vy.push(F::default());
        self.energy.push(energy);
        self.chem.push(chem);
        self.genomes.push(genome);
        self.ages.push(0);
        self.parent_ids.push(parent_id);
        self.generations.push(generation);
        self.group_ids.push(-1);
        self.particle_ids.push(self.next_id);
        self.alive.push(true);
        self.bonds.push(Vec::new());
        self.roles.push(CellRole::Undifferentiated);
        self.next_id = self.next_id + 1;
        self.count = self.count + 1;
        idx
    }

    /// Marks particle `idx` dead; an index outside the store is ignored.
    pub fn kill(&mut self, idx: usize)
        requires
            old(self).wf(),
        ensures
            final(self).wf(),
            final(self).count == old(self).count,
            final(self).alive@ == if idx < old(self).count {
                old(self).alive@.update(idx as int, false)
            } else {
                old(self).alive@
            },
            final(self).x@ == old(self).x@,
            final(self).y@ == old(self).y@,
            final(self).vx@ == old(self).vx@,
            final(self).vy@ == old(self).vy@,
            final(self).energy@ == old(self).energy@,
            final(self).chem@ == old(self).chem@,
            final(self).genomes@ == old(self).genomes@,
            final(self).ages@ == old(self).ages@,
            final(self).parent_ids@ == old(self).parent_ids@,
            final(self).generations@ == old(self).generations@,
            final(self).group_ids@ == old(self).group_ids@,
            final(self).particle_ids@ == old(self).particle_ids@,
            final(self).bonds@ == old(self).bonds@,
            final(self).roles@ == old(self).roles@,
            final(self).next_id == old(self).next_id,
    {
        if idx < self.count {
            self.alive.set(idx, false);
        }
    }

    /// Number of living particles.
    pub fn population(&self) -> (n: usize)
        requires
            self.wf(),
        ensures
            n == alive_before(self.alive@, self.count as int),
    {
        let mut n: usize = 0;
        let mut i: usize = 0;
        while i < self.count
            invariant
                self.wf(),
                0 <= i <= self.count,
                n == alive_before(self.alive@, i as int),
            decreases self.count - i,
        {
            proof {
                lemma_alive_before_bounds(self.alive@, i as int);
            }
            if self.alive[i] {
                n = n + 1;
            }
            i = i + 1;
        }
        n
    }

    /// Removes dead particles, keeping the survivors in order, and renumbers
    /// every bond to its partner's new index; bonds to dead partners, or to
    /// indices outside the store, are dropped.
    pub fn compact(&mut self) where F: Copy
        requires
            old(self).wf(),
        ensures
            final(self).wf(),
            final(self).count == alive_before(old(self).alive@, old(self).count as int),
            final(self).x@ == keep(old(self).x@, old(self).alive@),
            final(self).y@ == keep(old(self).y@, old(self).alive@),
            final(self).vx@ == keep(old(self).vx@, old(self).alive@),
            final(self).vy@ == keep(old(self).vy@, old(self).alive@),
            final(self).energy@ == keep(old(self).energy@, old(self).alive@),
            final(self).chem@ == keep(old(self).chem@, old(self).alive@),
            final(self).genomes@ == keep(old(self).genomes@, old(self).alive@),
            final(self).ages@ == keep(old(self).ages@, old(self).alive@),
            final(self).parent_ids@ == keep(old(self).parent_ids@, old(self).alive@),
            final(self).generations@ == keep(old(self).generations@, old(self).alive@),
            final(self).group_ids@ == keep(old(self).group_ids@, old(self).alive@),
            final(self).particle_ids@ == keep(old(self).particle_ids@, old(self).alive@),
            final(self).roles@ == keep(old(self).roles@, old(self).alive@),
            forall|i: int| 0 <= i < final(self).count ==> #[trigger] final(self).alive@[i],
            forall|i: int|
                0 <= i < final(self).count ==> #[trigger] final(self).bonds@[i]@ == remap_bonds(
                    keep(old(self).bonds@, old(self).alive@)[i]@,
                    old(self).alive@,
                ),
            final(self).next_id == old(self).next_id,
            is_compaction_of(*final(self), *old(self)),
    {
        let ghost alive0 = self.alive@;
        // Old index -> new index, for the survivors.
        let old_to_new = survivor_indices(&self.alive);
        proof {
            lemma_keep_len(self.x@, alive0);
            lemma_keep_len(self.bonds@, alive0);
        }
        retain_alive(&mut self.x, &self.alive);
        retain_alive(&mut self.y, &self.alive);
        retain_alive(&mut self.vx, &self.alive);
        retain_alive(&mut self.vy, &self.alive);
        retain_alive(&mut self.energy, &self.alive);
        retain_alive(&mut self.chem, &self.alive);
        retain_alive(&mut self.genomes, &self.alive);
        retain_alive(&mut self.ages, &self.alive);
        retain_alive(&mut self.parent_ids, &self.alive);
        retain_alive(&mut self.generations, &self.alive);
        retain_alive(&mut self.group_ids, &self.alive);
        retain_alive(&mut self.particle_ids, &self.alive);
        retain_alive(&mut self.roles, &self.alive);
        retain_alive(&mut self.bonds, &self.alive);
        let new_count = self.x.len();
        proof {
            lemma_keep_len(old(self).y@, alive0);
            lemma_keep_len(old(self).vx@, alive0);
            lemma_keep_len(old(self).vy@, alive0);
            lemma_keep_len(old(self).energy@, alive0);
            lemma_keep_len(old(self).chem@, alive0);
            lemma_keep_len(old(self).genomes@, alive0);
            lemma_keep_len(old(self).ages@, alive0);
            lemma_keep_len(old(self).parent_ids@, alive0);
            lemma_keep_len(old(self).generations@, alive0);
            lemma_keep_len(old(self).group_ids@, alive0);
            lemma_keep_len(old(self).particle_ids@, alive0);
            lemma_keep_len(old(self).roles@, alive0);
        }
        let mut new_alive: Vec<bool> = Vec::new();
        let mut i: usize = 0;
        while i < new_count
            invariant
                0 <= i <= new_count,
                new_alive@.len() == i,
                forall|j: int| 0 <= j < i ==> #[trigger] new_alive@[j],
            decreases new_count - i,
        {
            new_alive.push(true);
            i = i + 1;
        }
        self.alive = new_alive;
        self.count = new_count;
        remap_all_bonds(&mut self.bonds, &old_to_new, Ghost(alive0));
    }
}


/// Counting the living among particles that are all alive counts them all.
pub proof fn lemma_all_alive_count(a: Seq<bool>, n: int)
    requires
        0 <= n <= a.len(),
        forall|i: int| 0 <= i < n ==> #[trigger] a[i],
    ensures
        alive_before(a, n) == n,
    decreases n,
{
    if n > 0 {
        lemma_all_alive_count(a, n - 1);
    }
}

/// Compaction loses no living particle: the store afterwards holds exactly as
/// many particles as were alive before, and all of them are alive.
pub proof fn lemma_compaction_keeps_population(old_alive: Seq<bool>, new_alive: Seq<bool>, new_count: int)
    requires
        new_count == alive_before(old_alive, old_alive.len() as int),
        new_alive.len() == new_count,
        forall|i: int| 0 <= i < new_count ==> #[trigger] new_alive[i],
    ensures
        alive_before(new_alive, new_count) == alive_before(old_alive, old_alive.len() as int),
{
    lemma_alive_before_bounds(old_alive, old_alive.len() as int);
    lemma_all_alive_count(new_alive, new_count);
}

proof fn lemma_alive_before_update(a: Seq<bool>, i: int, n: int)
    requires
        0 <= i < n <= a.len(),
        a[i],
    ensures
        alive_before(a.update(i, false), n) + 1 == alive_before(a, n),
    decreases n,
{
    if n - 1 > i {
        lemma_alive_before_update(a, i, n - 1);
    } else {
        lemma_alive_before_unchanged(a, i, i);
    }
}

proof fn lemma_alive_before_unchanged(a: Seq<bool>, i: int, k: int)
    requires
        0 <= k <= i < a.len(),
    ensures
        alive_before(a.update(i, false), k) == alive_before(a, k),
    decreases k,
{
    if k > 0 {
        lemma_alive_before_unchanged(a, i, k - 1);
    }
}

/// Killing a living particle lowers the population by exactly one; killing a
/// dead one, or an index outside the store, leaves it unchanged.
pub proof fn lemma_kill_population(a: Seq<bool>, idx: int)
    requires
        0 <= idx,
    ensures
        idx < a.len() && a[idx] ==> alive_before(a.update(idx, false), a.len() as int) + 1
            == alive_before(a, a.len() as int),
        idx < a.len() && !a[idx] ==> alive_before(a.update(idx, false), a.len() as int)
            == alive_before(a, a.len() as int),
{
    if idx < a.len() {
        if a[idx] {
            lemma_alive_before_update(a, idx, a.len() as int);
        } else {
            assert(a.update(idx, false) =~= a);
        }
    }
}

/// Adding a particle raises the population by one.
pub proof fn lemma_add_population(a: Seq<bool>)
    ensures
        alive_before(a.push(true), a.len() + 1int) == alive_before(a, a.len() as int) + 1,
{
    assert forall|k: int| 0 <= k <= a.len() implies alive_before(a.push(true), k) == alive_before(a, k) by {
        lemma_alive_before_push(a, k);
    }
}

proof fn lemma_alive_before_push(a: Seq<bool>, k: int)
    requires
        0 <= k <= a.len(),
    ensures
        alive_before(a.push(true), k) == alive_before(a, k),
    decreases k,
{
    if k > 0 {
        lemma_alive_before_push(a, k - 1);
    }
}

/// Every renumbered bond comes from a bond of the same list to a living
/// partner `p`, and its new partner index is `p`'s position among the survivors.
pub proof fn lemma_remap_source<F>(b: Seq<(usize, F)>, a: Seq<bool>, k: int)
    requires
        0 <= k < remap_bonds(b, a).len(),
    ensures
        ({
            let (q, w) = remap_bonds(b, a)[k];
            exists|t: int|
                0 <= t < b.len() && (b[t].0 as int) < a.len() && a[b[t].0 as int] && #[trigger] b[t].1 == w
                    && q as int == alive_before(a, b[t].0 as int)
        }),
    decreases b.len(),
{
    let rest = remap_bonds(b.drop_last(), a);
    if k < rest.len() {
        lemma_remap_source(b.drop_last(), a, k);
        let (q, w) = rest[k];
        let t = choose|t: int|
            0 <= t < b.drop_last().len() && (b.drop_last()[t].0 as int) < a.len() && a[b.drop_last()[t].0 as int]
                && #[trigger] b.drop_last()[t].1 == w && q as int == alive_before(a, b.drop_last()[t].0 as int);
        assert(b[t] == b.drop_last()[t]);
    } else {
        let t = b.len() - 1;
        let p = b[t].0;
        lemma_alive_before_bounds(a, p as int);
        assert(b[t].1 == remap_bonds(b, a)[k].1);
    }
}

/// After compaction every bond of a survivor names a particle inside the
/// store, and that particle carries the id of the partner the bond named before.
pub proof fn lemma_compacted_bond_targets<F>(
    old_bonds: Seq<Vec<(usize, F)>>,
    old_ids: Seq<u32>,
    alive: Seq<bool>,
    i: int,
    k: int,
)
    requires
        old_bonds.len() == alive.len(),
        old_ids.len() == alive.len(),
        0 <= i < keep(old_bonds, alive).len(),
        0 <= k < remap_bonds(keep(old_bonds, alive)[i]@, alive).len(),
    ensures
        ({
            let q = remap_bonds(keep(old_bonds, alive)[i]@, alive)[k].0 as int;
            &&& q < alive_before(alive, alive.len() as int)
            &&& exists|p: int|
                0 <= p < alive.len() && alive[p] && #[trigger] keep(old_ids, alive)[q] == old_ids[p]
        }),
{
    let kb = keep(old_bonds, alive)[i]@;
    lemma_remap_source(kb, alive, k);
    let (q, w) = remap_bonds(kb, alive)[k];
    let t = choose|t: int|
        0 <= t < kb.len() && (kb[t].0 as int) < alive.len() && alive[kb[t].0 as int] && #[trigger] kb[t].1 == w
            && q as int == alive_before(alive, kb[t].0 as int);
    let p = kb[t].0 as int;
    lemma_keep_index(old_ids, alive, p);
    lemma_keep_len(old_ids, alive);
    assert(keep(old_ids, alive)[q as int] == old_ids[p]);
}

} // verus!
