//! Save / load snapshots of the particle store.
//!
//! A snapshot lists the living particles in store order, with their bonds
//! renumbered to the survivors' positions; loading a snapshot rebuilds a
//! store from it with the saved ids. Loading a save of a store gives that
//! store as compaction leaves it.
use vstd::prelude::*;
use crate::cell_role::{CellRole, role_index, role_of_index};
use crate::particle_store::{
    ParticleStore, is_compaction_of, alive_before, keep, remap_bonds, remap_bond_list, survivor_indices,
};

verus! {

/// One node of the phylogeny as it is saved.
pub struct SavePhyloNode {
    pub parent_id: i32,
    pub tick: u64,
    pub generation: u32,
    pub genome_hash: u64,
    pub size: usize,
}

/// One particle as it is saved.
pub struct SaveParticle<F, C, G> {
    pub id: u32,
    pub x: F,
    pub y: F,
    pub vx: F,
    pub vy: F,
    pub energy: F,
    pub chem: C,
    pub genome: G,
    pub age: u64,
    pub parent_id: i32,
    pub generation: u32,
    pub group_id: i32,
    pub bonds: Vec<(usize, F)>,
    pub role: u8,
}

/// Record `rec` holds particle `i` of `s`.
pub open spec fn saves_particle<F, C, G: Clone>(
    rec: SaveParticle<F, C, G>,
    s: ParticleStore<F, C, G>,
    i: int,
) -> bool {
    &&& rec.id == s.particle_ids@[i]
    &&& rec.x == s.x@[i]
    &&& rec.y == s.y@[i]
    &&& rec.vx == s.vx@[i]
    &&& rec.vy == s.vy@[i]
    &&& rec.energy == s.energy@[i]
    &&& rec.chem == s.chem@[i]
    &&& cloned(s.genomes@[i], rec.genome)
    &&& rec.age == s.ages@[i]
    &&& rec.parent_id == s.parent_ids@[i]
    &&& rec.generation == s.generations@[i]
    &&& rec.group_id == s.group_ids@[i]
    &&& rec.bonds@ == remap_bonds(s.bonds@[i]@, s.alive@)
    &&& rec.role as nat == role_index(s.roles@[i])
}

/// The position of living particle `i` of `s` in a snapshot of `s`: the number
/// of living particles before it.
pub open spec fn snapshot_slot<F, C, G>(s: ParticleStore<F, C, G>, i: int) -> int {
    alive_before(s.alive@, i) as int
}

/// `saved` lists the living particles of `s`, in store order.
pub open spec fn is_snapshot_of<F, C, G: Clone>(
    saved: Seq<SaveParticle<F, C, G>>,
    s: ParticleStore<F, C, G>,
) -> bool {
    &&& saved.len() == alive_before(s.alive@, s.count as int)
    &&& forall|i: int|
        0 <= i < s.count && s.alive@[i] ==> saves_particle(
            saved[#[trigger] snapshot_slot(s, i)],
            s,
            i,
        )
}

/// One more than the largest id among the first `k` records (0 for none).
pub open spec fn next_free_id<F, C, G>(saved: Seq<SaveParticle<F, C, G>>, k: int) -> int
    decreases k,
{
    if k <= 0 {
        0
    } else {
        let m = next_free_id(saved, k - 1);
        if saved[k - 1].id + 1 > m {
            saved[k - 1].id + 1
        } else {
            m
        }
    }
}

/// Store `l` holds, at index `j`, a living particle built from record `j` of
/// `saved`, with the record's id; the next id is past every saved one.
pub open spec fn is_loaded_from<F, C, G: Clone>(
    l: ParticleStore<F, C, G>,
    saved: Seq<SaveParticle<F, C, G>>,
) -> bool {
    &&& l.wf()
    &&& l.count == saved.len()
    &&& l.next_id == next_free_id(saved, saved.len() as int)
    &&& forall|j: int|
        0 <= j < saved.len() ==> {
            let rec = #[trigger] saved[j];
            &&& l.particle_ids@[j] == rec.id
            &&& l.x@[j] == rec.x
            &&& l.y@[j] == rec.y
            &&& l.vx@[j] == rec.vx
            &&& l.vy@[j] == rec.vy
            &&& l.energy@[j] == rec.energy
            &&& l.chem@[j] == rec.chem
            &&& cloned(rec.genome, l.genomes@[j])
            &&& l.ages@[j] == rec.age
            &&& l.parent_ids@[j] == rec.parent_id
            &&& l.generations@[j] == rec.generation
            &&& l.group_ids@[j] == rec.group_id
            &&& l.alive@[j]
            &&& l.bonds@[j]@ == rec.bonds@
            &&& l.roles@[j] == role_of_index(rec.role as nat)
        }
}

fn copy_bonds<F: Copy>(b: &Vec<(usize, F)>) -> (r: Vec<(usize, F)>)
    ensures
        r@ == b@,
{
    let mut r: Vec<(usize, F)> = Vec::new();
    let mut k: usize = 0;
    while k < b.len()
        invariant
            0 <= k <= b@.len(),
            r@ == b@.subrange(0, k as int),
        decreases b@.len() - k,
    {
        r.push(b[k]);
        k = k + 1;
        assert(r@ =~= b@.subrange(0, k as int));
    }
    assert(b@.subrange(0, b@.len() as int) =~= b@);
    r
}

/// Lists the living particles of the store, in order, as save records; each
/// bond list is renumbered as compaction renumbers it (bonds to dead partners
/// are dropped, the others name their partner's position among the survivors).
pub fn save_particles<F: Copy, C: Copy, G: Clone>(store: &ParticleStore<F, C, G>) -> (saved: Vec<
    SaveParticle<F, C, G>,
>)
    requires
        store.wf(),
    ensures
        is_snapshot_of(saved@, *store),
{
    let old_to_new = survivor_indices(&store.alive);
    let mut saved: Vec<SaveParticle<F, C, G>> = Vec::new();
    let mut i: usize = 0;
    while i < store.count
        invariant
            store.wf(),
            crate::particle_store::is_survivor_table(old_to_new@, store.alive@),
            0 <= i <= store.count,
            saved@.len() == alive_before(store.alive@, i as int),
            forall|i2: int|
                0 <= i2 < i && store.alive@[i2] ==> saves_particle(
                    saved@[#[trigger] snapshot_slot(*store, i2)],
                    *store,
                    i2,
                ),
        decreases store.count - i,
    {
        if store.alive[i] {
            let role = store.roles[i].as_index() as u8;
            let rec = SaveParticle {
                id: store.particle_ids[i],
                x: store.x[i],
                y: store.y[i],
                vx: store.vx[i],
                vy: store.vy[i],
                energy: store.energy[i],
                chem: store.chem[i],
                genome: store.genomes[i].clone(),
                age: store.ages[i],
                parent_id: store.parent_ids[i],
                generation: store.generations[i],
                group_id: store.group_ids[i],
                bonds: remap_bond_list(&store.bonds[i], &old_to_new, Ghost(store.alive@)),
                role,
            };
            let ghost before = saved@;
            saved.push(rec);
            proof {
                assert forall|i2: int|
                    0 <= i2 < i + 1 && store.alive@[i2] implies saves_particle(
                    saved@[#[trigger] snapshot_slot(*store, i2)],
                    *store,
                    i2,
                ) by {
                    if i2 < i {
                        lemma_alive_before_lt(store.alive@, i2, i as int);
                        assert(saved@[alive_before(store.alive@, i2) as int] == before[alive_before(
                            store.alive@,
                            i2,
                        ) as int]);
                    }
                }
            }
        }
        i = i + 1;
    }
    saved
}

proof fn lemma_alive_before_lt(a: Seq<bool>, j: int, k: int)
    requires
        0 <= j < k,
        j < a.len(),
        a[j],
    ensures
        alive_before(a, j) < alive_before(a, k),
    decreases k - j,
{
    if j < k - 1 {
        lemma_alive_before_lt(a, j, k - 1);
    }
}

/// Builds a store holding one living particle per record, in order, each with
/// its saved id; the next id given out is one past the largest saved id.
pub fn load_particles<F: Copy + Default, C: Copy, G: Clone>(
    saved: &Vec<SaveParticle<F, C, G>>,
) -> (store: ParticleStore<F, C, G>)
    requires
        saved@.len() < u32::MAX,
        forall|j: int| 0 <= j < saved@.len() ==> #[trigger] saved@[j].id < u32::MAX,
    ensures
        is_loaded_from(store, saved@),
{
    let mut store: ParticleStore<F, C, G> = ParticleStore::default();
    let mut next: u32 = 0;
    let mut j: usize = 0;
    while j < saved.len()
        invariant
            saved@.len() < u32::MAX,
            forall|j2: int| 0 <= j2 < saved@.len() ==> #[trigger] saved@[j2].id < u32::MAX,
            0 <= j <= saved@.len(),
            store.wf(),
            store.count == j,
            store.next_id == j,
            next == next_free_id(saved@, j as int),
            forall|j2: int|
                0 <= j2 < j ==> {
                    let rec = #[trigger] saved@[j2];
                    &&& store.particle_ids@[j2] == rec.id
                    &&& store.x@[j2] == rec.x
                    &&& store.y@[j2] == rec.y
                    &&& store.vx@[j2] == rec.vx
                    &&& store.vy@[j2] == rec.vy
                    &&& store.energy@[j2] == rec.energy
                    &&& store.chem@[j2] == rec.chem
                    &&& cloned(rec.genome, store.genomes@[j2])
                    &&& store.ages@[j2] == rec.age
                    &&& store.parent_ids@[j2] == rec.parent_id
                    &&& store.generations@[j2] == rec.generation
                    &&& store.group_ids@[j2] == rec.group_id
                    &&& store.alive@[j2]
                    &&& store.bonds@[j2]@ == rec.bonds@
                    &&& store.roles@[j2] == role_of_index(rec.role as nat)
                },
        decreases saved@.len() - j,
    {
        let p = &saved[j];
        let ghost s0 = store;
        let idx = store.add_particle(
            p.x,
            p.y,
            p.chem,
            p.genome.clone(),
            p.energy,
            p.parent_id,
            p.generation,
        );
        store.particle_ids.set(idx, p.id);
        store.vx.set(idx, p.vx);
        store.vy.set(idx, p.vy);
        store.ages.set(idx, p.age);
        store.group_ids.set(idx, p.group_id);
        store.bonds.set(idx, copy_bonds(&p.bonds));
        store.roles.set(idx, CellRole::from_index(p.role as usize));
        if p.id + 1 > next {
            next = p.id + 1;
        }
        proof {
            assert forall|j2: int| 0 <= j2 < j + 1 implies {
                let rec = #[trigger] saved@[j2];
                &&& store.particle_ids@[j2] == rec.id
                &&& store.x@[j2] == rec.x
                &&& store.y@[j2] == rec.y
                &&& store.vx@[j2] == rec.vx
                &&& store.vy@[j2] == rec.vy
                &&& store.energy@[j2] == rec.energy
                &&& store.chem@[j2] == rec.chem
                &&& cloned(rec.genome, store.genomes@[j2])
                &&& store.ages@[j2] == rec.age
                &&& store.parent_ids@[j2] == rec.parent_id
                &&& store.generations@[j2] == rec.generation
                &&& store.group_ids@[j2] == rec.group_id
                &&& store.alive@[j2]
                &&& store.bonds@[j2]@ == rec.bonds@
                &&& store.roles@[j2] == role_of_index(rec.role as nat)
            } by {
                if j2 < j {
                    assert(store.bonds@[j2] == s0.bonds@[j2]);
                }
            }
        }
        j = j + 1;
    }
    store.next_id = next;
    store
}

proof fn lemma_survivor_at<F, C, G: Clone>(
    s: ParticleStore<F, C, G>,
    saved: Seq<SaveParticle<F, C, G>>,
    l: ParticleStore<F, C, G>,
    j: int,
)
    requires
        s.wf(),
        is_snapshot_of(saved, s),
        is_loaded_from(l, saved),
        0 <= j < l.count,
    ensures
        l.x@[j] == keep(s.x@, s.alive@)[j],
        l.y@[j] == keep(s.y@, s.alive@)[j],
        l.vx@[j] == keep(s.vx@, s.alive@)[j],
        l.vy@[j] == keep(s.vy@, s.alive@)[j],
        l.energy@[j] == keep(s.energy@, s.alive@)[j],
        l.chem@[j] == keep(s.chem@, s.alive@)[j],
        l.ages@[j] == keep(s.ages@, s.alive@)[j],
        l.parent_ids@[j] == keep(s.parent_ids@, s.alive@)[j],
        l.generations@[j] == keep(s.generations@, s.alive@)[j],
        l.group_ids@[j] == keep(s.group_ids@, s.alive@)[j],
        l.particle_ids@[j] == keep(s.particle_ids@, s.alive@)[j],
        l.roles@[j] == keep(s.roles@, s.alive@)[j],
        l.bonds@[j]@ == remap_bonds(keep(s.bonds@, s.alive@)[j]@, s.alive@),
        l.alive@[j],
{
    let a = s.alive@;
    crate::particle_store::lemma_keep_len(s.x@, a);
    crate::particle_store::lemma_keep_source(s.x@, a, j);
    let r = choose|r: int|
        0 <= r < s.x@.len() && a[r] && alive_before(a, r) == j && #[trigger] s.x@[r] == keep(
            s.x@,
            a,
        )[j];
    assert(snapshot_slot(s, r) == j);
    assert(saves_particle(saved[j], s, r));
    crate::particle_store::lemma_keep_index(s.y@, a, r);
    crate::particle_store::lemma_keep_index(s.vx@, a, r);
    crate::particle_store::lemma_keep_index(s.vy@, a, r);
    crate::particle_store::lemma_keep_index(s.energy@, a, r);
    crate::particle_store::lemma_keep_index(s.chem@, a, r);
    crate::particle_store::lemma_keep_index(s.ages@, a, r);
    crate::particle_store::lemma_keep_index(s.parent_ids@, a, r);
    crate::particle_store::lemma_keep_index(s.generations@, a, r);
    crate::particle_store::lemma_keep_index(s.group_ids@, a, r);
    crate::particle_store::lemma_keep_index(s.particle_ids@, a, r);
    crate::particle_store::lemma_keep_index(s.roles@, a, r);
    crate::particle_store::lemma_keep_index(s.bonds@, a, r);
    crate::cell_role::lemma_role_index_round_trip(s.roles@[r]);
    let rec = saved[j];
    assert(l.x@[j] == rec.x);
}

/// Saving a store and loading the snapshot gives the store as compaction
/// leaves it: the survivors in order, with their ids, their bonds renumbered
/// to their partners' new positions, and every column but the genomes equal
/// (genomes are clones of clones). The loaded store's next id lies past every
/// id it holds.
pub proof fn lemma_load_of_save_is_compaction<F, C, G: Clone>(
    s: ParticleStore<F, C, G>,
    saved: Seq<SaveParticle<F, C, G>>,
    l: ParticleStore<F, C, G>,
    c: ParticleStore<F, C, G>,
)
    requires
        s.wf(),
        is_snapshot_of(saved, s),
        is_loaded_from(l, saved),
        is_compaction_of(c, s),
    ensures
        l.count == c.count,
        l.x@ == c.x@,
        l.y@ == c.y@,
        l.vx@ == c.vx@,
        l.vy@ == c.vy@,
        l.energy@ == c.energy@,
        l.chem@ == c.chem@,
        l.ages@ == c.ages@,
        l.parent_ids@ == c.parent_ids@,
        l.generations@ == c.generations@,
        l.group_ids@ == c.group_ids@,
        l.particle_ids@ == c.particle_ids@,
        l.roles@ == c.roles@,
        l.alive@ == c.alive@,
        forall|j: int| 0 <= j < l.count ==> #[trigger] l.bonds@[j]@ == c.bonds@[j]@,
        forall|j: int| 0 <= j < l.count ==> #[trigger] l.particle_ids@[j] < l.next_id,
{
    let a = s.alive@;
    crate::particle_store::lemma_keep_len(s.x@, a);
    crate::particle_store::lemma_keep_len(s.y@, a);
    crate::particle_store::lemma_keep_len(s.vx@, a);
    crate::particle_store::lemma_keep_len(s.vy@, a);
    crate::particle_store::lemma_keep_len(s.energy@, a);
    crate::particle_store::lemma_keep_len(s.chem@, a);
    crate::particle_store::lemma_keep_len(s.ages@, a);
    crate::particle_store::lemma_keep_len(s.parent_ids@, a);
    crate::particle_store::lemma_keep_len(s.generations@, a);
    crate::particle_store::lemma_keep_len(s.group_ids@, a);
    crate::particle_store::lemma_keep_len(s.particle_ids@, a);
    crate::particle_store::lemma_keep_len(s.roles@, a);
    assert forall|j: int| 0 <= j < l.count implies #[trigger] l.x@[j] == c.x@[j] by {
        lemma_survivor_at(s, saved, l, j);
    }
    assert forall|j: int| 0 <= j < l.count implies #[trigger] l.y@[j] == c.y@[j] by {
        lemma_survivor_at(s, saved, l, j);
    }
    assert forall|j: int| 0 <= j < l.count implies #[trigger] l.vx@[j] == c.vx@[j] by {
        lemma_survivor_at(s, saved, l, j);
    }
    assert forall|j: int| 0 <= j < l.count implies #[trigger] l.vy@[j] == c.vy@[j] by {
        lemma_survivor_at(s, saved, l, j);
    }
    assert forall|j: int| 0 <= j < l.count implies #[trigger] l.energy@[j] == c.energy@[j] by {
        lemma_survivor_at(s, saved, l, j);
    }
    assert forall|j: int| 0 <= j < l.count implies #[trigger] l.chem@[j] == c.chem@[j] by {
        lemma_survivor_at(s, saved, l, j);
    }
    assert forall|j: int| 0 <= j < l.count implies #[trigger] l.ages@[j] == c.ages@[j] by {
        lemma_survivor_at(s, saved, l, j);
    }
    assert forall|j: int| 0 <= j < l.count implies #[trigger] l.parent_ids@[j] == c.parent_ids@[j] by {
        lemma_survivor_at(s, saved, l, j);
    }
    assert forall|j: int| 0 <= j < l.count implies #[trigger] l.generations@[j] == c.generations@[j] by {
        lemma_survivor_at(s, saved, l, j);
    }
    assert forall|j: int| 0 <= j < l.count implies #[trigger] l.group_ids@[j] == c.group_ids@[j] by {
        lemma_survivor_at(s, saved, l, j);
    }
    assert forall|j: int| 0 <= j < l.count implies #[trigger] l.particle_ids@[j] == c.particle_ids@[j] by {
        lemma_survivor_at(s, saved, l, j);
    }
    assert forall|j: int| 0 <= j < l.count implies #[trigger] l.roles@[j] == c.roles@[j] by {
        lemma_survivor_at(s, saved, l, j);
    }
    assert forall|j: int| 0 <= j < l.count implies #[trigger] l.bonds@[j]@ == c.bonds@[j]@ by {
        lemma_survivor_at(s, saved, l, j);
    }
    assert forall|j: int| 0 <= j < l.count implies #[trigger] l.alive@[j] == c.alive@[j] by {
        lemma_survivor_at(s, saved, l, j);
    }
    assert forall|j: int| 0 <= j < l.count implies #[trigger] l.particle_ids@[j] < l.next_id by {
        lemma_next_free_id_above(saved, saved.len() as int, j);
    }
    assert(l.x@ =~= c.x@);
    assert(l.y@ =~= c.y@);
    assert(l.vx@ =~= c.vx@);
    assert(l.vy@ =~= c.vy@);
    assert(l.energy@ =~= c.energy@);
    assert(l.chem@ =~= c.chem@);
    assert(l.ages@ =~= c.ages@);
    assert(l.parent_ids@ =~= c.parent_ids@);
    assert(l.generations@ =~= c.generations@);
    assert(l.group_ids@ =~= c.group_ids@);
    assert(l.particle_ids@ =~= c.particle_ids@);
    assert(l.roles@ =~= c.roles@);
    assert(l.alive@ =~= c.alive@);
}

proof fn lemma_next_free_id_above<F, C, G>(saved: Seq<SaveParticle<F, C, G>>, k: int, j: int)
    requires
        0 <= j < k <= saved.len(),
    ensures
        saved[j].id < next_free_id(saved, k),
    decreases k,
{
    if j < k - 1 {
        lemma_next_free_id_above(saved, k - 1, j);
    }
}

} // verus!
