//! Cell roles within an organism: each particle takes a role from its type,
//! an Alpha particle the role of the type most common among its bonded
//! neighbours, and an organism is multicellular when two roles each hold at
//! least two particles.
use vstd::prelude::*;
use crate::organism::{dominant_prefix, dominant_type};

verus! {

/// The six particle types, in index order.
#[derive(Clone, Copy, Debug, PartialEq, Eq, Structural)]
pub enum ParticleType {
    Alpha,
    Beta,
    Catalyst,
    Data,
    Membrane,
    Motor,
}

/// Number of particle types.
pub const NUM_TYPES: usize = 6;

/// The index of a type: 0 to 5 in declaration order.
pub open spec fn type_index(t: ParticleType) -> int {
    match t {
        ParticleType::Alpha => 0,
        ParticleType::Beta => 1,
        ParticleType::Catalyst => 2,
        ParticleType::Data => 3,
        ParticleType::Membrane => 4,
        ParticleType::Motor => 5,
    }
}

/// The type with index `i`.
pub open spec fn type_of_index(i: int) -> ParticleType {
    if i == 1 {
        ParticleType::Beta
    } else if i == 2 {
        ParticleType::Catalyst
    } else if i == 3 {
        ParticleType::Data
    } else if i == 4 {
        ParticleType::Membrane
    } else if i == 5 {
        ParticleType::Motor
    } else {
        ParticleType::Alpha
    }
}

/// The specialised role of a particle within an organism.
#[derive(Clone, Copy, Debug, PartialEq, Eq, Structural)]
pub enum OrganRole {
    Unspecialised,
    Sensor,
    MotorCell,
    Defense,
    Digester,
    Reproducer,
}

/// The role a type gives: Catalyst senses, Motor moves, Membrane defends,
/// Beta digests, Data reproduces, Alpha is unspecialised.
pub open spec fn role_of_type(t: ParticleType) -> OrganRole {
    match t {
        ParticleType::Catalyst => OrganRole::Sensor,
        ParticleType::Motor => OrganRole::MotorCell,
        ParticleType::Membrane => OrganRole::Defense,
        ParticleType::Beta => OrganRole::Digester,
        ParticleType::Data => OrganRole::Reproducer,
        ParticleType::Alpha => OrganRole::Unspecialised,
    }
}

fn role_for(t: ParticleType) -> (r: OrganRole)
    ensures
        r == role_of_type(t),
{
    match t {
        ParticleType::Catalyst => OrganRole::Sensor,
        ParticleType::Motor => OrganRole::MotorCell,
        ParticleType::Membrane => OrganRole::Defense,
        ParticleType::Beta => OrganRole::Digester,
        ParticleType::Data => OrganRole::Reproducer,
        ParticleType::Alpha => OrganRole::Unspecialised,
    }
}

/// Among the first `m` entries of `row`, those naming a member (an index
/// below `types.len()`) of type index `t`.
pub open spec fn neighbour_count(types: Seq<ParticleType>, row: Seq<usize>, t: int, m: int) -> nat
    decreases m,
{
    if m <= 0 {
        0
    } else {
        neighbour_count(types, row, t, m - 1) + if (row[m - 1] as int) < types.len() && type_index(
            types[row[m - 1] as int],
        ) == t {
            1nat
        } else {
            0nat
        }
    }
}

/// Counts by type of the members that a member lists as bonded partners.
pub open spec fn neighbour_counts(types: Seq<ParticleType>, row: Seq<usize>) -> Seq<u32> {
    Seq::new(NUM_TYPES as nat, |t: int| neighbour_count(types, row, t, row.len() as int) as u32)
}

/// The role of member `k`: from its type, and for an Alpha member from the
/// type most common among its bonded members (the last of equal counts wins;
/// with no bonded member that is Motor).
pub open spec fn member_role(types: Seq<ParticleType>, bonds: Seq<Vec<usize>>, k: int) -> OrganRole {
    if types[k] == ParticleType::Alpha {
        role_of_type(type_of_index(dominant_prefix(neighbour_counts(types, bonds[k]@), NUM_TYPES as int)))
    } else {
        role_of_type(types[k])
    }
}

/// The roles of an organism's members: unspecialised for an organism of fewer than 5
/// members, else each member's role.
pub open spec fn spec_roles(types: Seq<ParticleType>, bonds: Seq<Vec<usize>>) -> Seq<OrganRole> {
    Seq::new(
        types.len(),
        |k: int|
            if types.len() < 5 {
                OrganRole::Unspecialised
            } else {
                member_role(types, bonds, k)
            },
    )
}

fn type_slot(t: ParticleType) -> (i: usize)
    ensures
        i == type_index(t),
{
    match t {
        ParticleType::Alpha => 0,
        ParticleType::Beta => 1,
        ParticleType::Catalyst => 2,
        ParticleType::Data => 3,
        ParticleType::Membrane => 4,
        ParticleType::Motor => 5,
    }
}

fn type_at(i: usize) -> (t: ParticleType)
    ensures
        t == type_of_index(i as int),
{
    if i == 1 {
        ParticleType::Beta
    } else if i == 2 {
        ParticleType::Catalyst
    } else if i == 3 {
        ParticleType::Data
    } else if i == 4 {
        ParticleType::Membrane
    } else if i == 5 {
        ParticleType::Motor
    } else {
        ParticleType::Alpha
    }
}

fn count_neighbours(types: &Vec<ParticleType>, row: &Vec<usize>) -> (c: Vec<u32>)
    requires
        row@.len() <= u32::MAX,
    ensures
        c@ == neighbour_counts(types@, row@),
{
    let mut c: Vec<u32> = vec![0, 0, 0, 0, 0, 0];
    let mut m: usize = 0;
    while m < row.len()
        invariant
            row@.len() <= u32::MAX,
            0 <= m <= row@.len(),
            c@.len() == NUM_TYPES,
            forall|t: int| 0 <= t < NUM_TYPES ==> #[trigger] c@[t] == neighbour_count(types@, row@, t, m as int),
            forall|t: int| 0 <= t < NUM_TYPES ==> #[trigger] neighbour_count(types@, row@, t, m as int) <= m,
        decreases row@.len() - m,
    {
        proof {
            assert forall|t: int| 0 <= t < NUM_TYPES implies #[trigger] neighbour_count(
                types@,
                row@,
                t,
                m + 1,
            ) <= m + 1 by {
                assert(neighbour_count(types@, row@, t, m as int) <= m);
            }
        }
        let p = row[m];
        if p < types.len() {
            let t = type_slot(types[p]);
            c.set(t, c[t] + 1);
        }
        m = m + 1;
    }
    assert(c@ =~= neighbour_counts(types@, row@));
    c
}

/// Assigns each member of an organism its role. `types[k]` is the type of
/// member `k` and `local_bonds[k]` lists the members it is bonded to (entries
/// naming no member are ignored).
pub fn assign_roles(types: &Vec<ParticleType>, local_bonds: &Vec<Vec<usize>>) -> (roles: Vec<OrganRole>)
    requires
        local_bonds@.len() == types@.len(),
        forall|k: int| 0 <= k < local_bonds@.len() ==> #[trigger] local_bonds@[k]@.len() <= u32::MAX,
    ensures
        roles@ == spec_roles(types@, local_bonds@),
{
    let n = types.len();
    let mut roles: Vec<OrganRole> = Vec::new();
    let mut k: usize = 0;
    while k < n
        invariant
            n == types@.len(),
            local_bonds@.len() == n,
            forall|k2: int| 0 <= k2 < n ==> #[trigger] local_bonds@[k2]@.len() <= u32::MAX,
            0 <= k <= n,
            roles@.len() == k,
            forall|j: int| 0 <= j < k ==> #[trigger] roles@[j] == spec_roles(types@, local_bonds@)[j],
        decreases n - k,
    {
        let r = if n < 5 {
            OrganRole::Unspecialised
        } else if types[k] == ParticleType::Alpha {
            let counts = count_neighbours(types, &local_bonds[k]);
            let d = dominant_type(&counts);
            role_for(type_at(d))
        } else {
            role_for(types[k])
        };
        roles.push(r);
        k = k + 1;
    }
    assert(roles@ =~= spec_roles(types@, local_bonds@));
    roles
}

/// Number of members among the first `k` with role `r`.
pub open spec fn role_count_prefix(roles: Seq<OrganRole>, r: OrganRole, k: int) -> nat
    decreases k,
{
    if k <= 0 {
        0
    } else {
        role_count_prefix(roles, r, k - 1) + if roles[k - 1] == r {
            1nat
        } else {
            0nat
        }
    }
}

/// Whether role `r` is a specialised role held by at least two members.
pub open spec fn qualifies(roles: Seq<OrganRole>, r: OrganRole) -> bool {
    r != OrganRole::Unspecialised && role_count_prefix(roles, r, roles.len() as int) >= 2
}

/// An organism is multicellular when at least two specialised roles each
/// have at least two members.
pub open spec fn spec_is_multicellular(roles: Seq<OrganRole>) -> bool {
    (if qualifies(roles, OrganRole::Sensor) {
        1int
    } else {
        0int
    }) + (if qualifies(roles, OrganRole::MotorCell) {
        1int
    } else {
        0int
    }) + (if qualifies(roles, OrganRole::Defense) {
        1int
    } else {
        0int
    }) + (if qualifies(roles, OrganRole::Digester) {
        1int
    } else {
        0int
    }) + (if qualifies(roles, OrganRole::Reproducer) {
        1int
    } else {
        0int
    }) >= 2
}

fn count_role(roles: &Vec<OrganRole>, r: OrganRole) -> (c: usize)
    ensures
        c == role_count_prefix(roles@, r, roles@.len() as int),
{
    let mut c: usize = 0;
    let mut k: usize = 0;
    while k < roles.len()
        invariant
            0 <= k <= roles@.len(),
            c == role_count_prefix(roles@, r, k as int),
            c <= k,
        decreases roles@.len() - k,
    {
        if roles[k] == r {
            c = c + 1;
        }
        k = k + 1;
    }
    c
}

/// Whether an organism with these member roles is multicellular.
pub fn is_multicellular(roles: &Vec<OrganRole>) -> (b: bool)
    ensures
        b == spec_is_multicellular(roles@),
{
    let mut q: usize = 0;
    if count_role(roles, OrganRole::Sensor) >= 2 {
        q = q + 1;
    }
    if count_role(roles, OrganRole::MotorCell) >= 2 {
        q = q + 1;
    }
    if count_role(roles, OrganRole::Defense) >= 2 {
        q = q + 1;
    }
    if count_role(roles, OrganRole::Digester) >= 2 {
        q = q + 1;
    }
    if count_role(roles, OrganRole::Reproducer) >= 2 {
        q = q + 1;
    }
    q >= 2
}

/// Whether `r` is one of the five specialised roles.
pub open spec fn is_specialised(r: OrganRole) -> bool {
    r != OrganRole::Unspecialised
}

/// Role `r` is held by two different members.
pub open spec fn held_twice(roles: Seq<OrganRole>, r: OrganRole) -> bool {
    exists|a: int, b: int| 0 <= a < b < roles.len() && roles[a] == r && roles[b] == r
}

proof fn lemma_count_two_iff_held_twice(roles: Seq<OrganRole>, r: OrganRole, k: int)
    requires
        0 <= k <= roles.len(),
    ensures
        role_count_prefix(roles, r, k) >= 2 <==> exists|a: int, b: int|
            0 <= a < b < k && roles[a] == r && roles[b] == r,
        role_count_prefix(roles, r, k) >= 1 <==> exists|a: int| 0 <= a < k && roles[a] == r,
    decreases k,
{
    if k > 0 {
        lemma_count_two_iff_held_twice(roles, r, k - 1);
        if roles[k - 1] == r {
            if role_count_prefix(roles, r, k - 1) >= 1 {
                let a = choose|a: int| 0 <= a < k - 1 && roles[a] == r;
                assert(0 <= a < k - 1 < k && roles[a] == r && roles[k - 1] == r);
            }
            if exists|a: int, b: int| 0 <= a < b < k && roles[a] == r && roles[b] == r {
                let (a, b) = choose|a: int, b: int| 0 <= a < b < k && roles[a] == r && roles[b] == r;
                assert(0 <= a < k - 1 && roles[a] == r);
            }
        } else {
            if exists|a: int, b: int| 0 <= a < b < k && roles[a] == r && roles[b] == r {
                let (a, b) = choose|a: int, b: int| 0 <= a < b < k && roles[a] == r && roles[b] == r;
                assert(b < k - 1);
            }
            if exists|a: int| 0 <= a < k && roles[a] == r {
                let a = choose|a: int| 0 <= a < k && roles[a] == r;
                assert(a < k - 1);
            }
        }
    }
}

/// An organism is multicellular exactly when two different specialised roles
/// are each held by at least two of its members.
pub proof fn lemma_multicellular_iff_two_roles_held_twice(roles: Seq<OrganRole>)
    ensures
        spec_is_multicellular(roles) <==> exists|r1: OrganRole, r2: OrganRole|
            is_specialised(r1) && is_specialised(r2) && r1 != r2 && held_twice(roles, r1)
                && held_twice(roles, r2),
{
    let n = roles.len() as int;
    lemma_count_two_iff_held_twice(roles, OrganRole::Sensor, n);
    lemma_count_two_iff_held_twice(roles, OrganRole::MotorCell, n);
    lemma_count_two_iff_held_twice(roles, OrganRole::Defense, n);
    lemma_count_two_iff_held_twice(roles, OrganRole::Digester, n);
    lemma_count_two_iff_held_twice(roles, OrganRole::Reproducer, n);
    if exists|r1: OrganRole, r2: OrganRole|
        is_specialised(r1) && is_specialised(r2) && r1 != r2 && held_twice(roles, r1) && held_twice(
            roles,
            r2,
        ) {
        let (r1, r2) = choose|r1: OrganRole, r2: OrganRole|
            is_specialised(r1) && is_specialised(r2) && r1 != r2 && held_twice(roles, r1)
                && held_twice(roles, r2);
        lemma_count_two_iff_held_twice(roles, r1, n);
        lemma_count_two_iff_held_twice(roles, r2, n);
        assert(qualifies(roles, r1) && qualifies(roles, r2));
        match r1 {
            OrganRole::Sensor => {},
            OrganRole::MotorCell => {},
            OrganRole::Defense => {},
            OrganRole::Digester => {},
            OrganRole::Reproducer => {},
            OrganRole::Unspecialised => {},
        }
        match r2 {
            OrganRole::Sensor => {},
            OrganRole::MotorCell => {},
            OrganRole::Defense => {},
            OrganRole::Digester => {},
            OrganRole::Reproducer => {},
            OrganRole::Unspecialised => {},
        }
        assert(spec_is_multicellular(roles));
    }
    if spec_is_multicellular(roles) {
        let q1 = qualifies(roles, OrganRole::Sensor);
        let q2 = qualifies(roles, OrganRole::MotorCell);
        let q3 = qualifies(roles, OrganRole::Defense);
        let q4 = qualifies(roles, OrganRole::Digester);
        let q5 = qualifies(roles, OrganRole::Reproducer);
        let rs = seq![
            OrganRole::Sensor,
            OrganRole::MotorCell,
            OrganRole::Defense,
            OrganRole::Digester,
            OrganRole::Reproducer,
        ];
        let (a, b): (int, int) = if q1 && q2 {
            (0, 1)
        } else if q1 && q3 {
            (0, 2)
        } else if q1 && q4 {
            (0, 3)
        } else if q1 && q5 {
            (0, 4)
        } else if q2 && q3 {
            (1, 2)
        } else if q2 && q4 {
            (1, 3)
        } else if q2 && q5 {
            (1, 4)
        } else if q3 && q4 {
            (2, 3)
        } else if q3 && q5 {
            (2, 4)
        } else {
            (3, 4)
        };
        assert(qualifies(roles, rs[a]) && qualifies(roles, rs[b]));
        assert(held_twice(roles, rs[a]) && held_twice(roles, rs[b]));
        assert(rs[a] != rs[b]);
        assert(is_specialised(rs[a]) && is_specialised(rs[b]));
        assert(exists|r1: OrganRole, r2: OrganRole|
            is_specialised(r1) && is_specialised(r2) && r1 != r2 && held_twice(roles, r1)
                && held_twice(roles, r2));
    }
}

/// Number of member `k`'s listed partners that are members of type index `t`.
pub open spec fn partners_of_type(types: Seq<ParticleType>, bonds: Seq<Vec<usize>>, k: int, t: int) -> nat {
    neighbour_count(types, bonds[k]@, t, bonds[k]@.len() as int)
}

/// `d` is the partner type most common among member `k`'s partners: no type
/// is more common, and every later type is less common.
pub open spec fn most_common_partner(types: Seq<ParticleType>, bonds: Seq<Vec<usize>>, k: int, d: int) -> bool {
    &&& 0 <= d < NUM_TYPES
    &&& forall|t: int|
        0 <= t < NUM_TYPES ==> #[trigger] partners_of_type(types, bonds, k, t) <= partners_of_type(
            types,
            bonds,
            k,
            d,
        )
    &&& forall|t: int|
        d < t < NUM_TYPES ==> #[trigger] partners_of_type(types, bonds, k, t) < partners_of_type(
            types,
            bonds,
            k,
            d,
        )
}

/// Some type is the most common among member `k`'s partners.
pub open spec fn has_most_common_partner(types: Seq<ParticleType>, bonds: Seq<Vec<usize>>, k: int) -> bool {
    exists|d: int| #[trigger] most_common_partner(types, bonds, k, d)
}

proof fn lemma_dominant_prefix_props(counts: Seq<u32>, k: int)
    requires
        1 <= k <= counts.len(),
    ensures
        0 <= dominant_prefix(counts, k) < k,
        forall|j: int| 0 <= j < k ==> #[trigger] counts[j] <= counts[dominant_prefix(counts, k)],
        forall|j: int| dominant_prefix(counts, k) < j < k ==> #[trigger] counts[j] < counts[dominant_prefix(counts, k)],
    decreases k,
{
    if k > 1 {
        lemma_dominant_prefix_props(counts, k - 1);
    }
}

proof fn lemma_neighbour_count_bound(types: Seq<ParticleType>, row: Seq<usize>, t: int, m: int)
    requires
        0 <= m <= row.len(),
    ensures
        neighbour_count(types, row, t, m) <= m,
    decreases m,
{
    if m > 0 {
        lemma_neighbour_count_bound(types, row, t, m - 1);
    }
}

/// The roles of an organism's members: none below five members; otherwise a
/// Catalyst senses, a Motor moves, a Membrane defends, a Beta digests, a Data
/// reproduces, and an Alpha takes the role of the type most common among its
/// bonded members (an Alpha partner leaving it unspecialised).
pub proof fn lemma_roles_by_type_and_neighbours(types: Seq<ParticleType>, bonds: Seq<Vec<usize>>)
    requires
        bonds.len() == types.len(),
        forall|k: int| 0 <= k < bonds.len() ==> #[trigger] bonds[k]@.len() <= u32::MAX,
    ensures
        ({
            let roles = spec_roles(types, bonds);
            &&& roles.len() == types.len()
            &&& types.len() < 5 ==> forall|k: int| 0 <= k < types.len() ==> #[trigger] roles[k] == OrganRole::Unspecialised
            &&& types.len() >= 5 ==> forall|k: int|
                0 <= k < types.len() ==> {
                    &&& types[k] == ParticleType::Catalyst ==> #[trigger] roles[k] == OrganRole::Sensor
                    &&& types[k] == ParticleType::Motor ==> roles[k] == OrganRole::MotorCell
                    &&& types[k] == ParticleType::Membrane ==> roles[k] == OrganRole::Defense
                    &&& types[k] == ParticleType::Beta ==> roles[k] == OrganRole::Digester
                    &&& types[k] == ParticleType::Data ==> roles[k] == OrganRole::Reproducer
                }
            &&& types.len() >= 5 ==> forall|k: int, d: int|
                0 <= k < types.len() && types[k] == ParticleType::Alpha && #[trigger] most_common_partner(
                    types,
                    bonds,
                    k,
                    d,
                ) ==> roles[k] == (if d == 0 {
                    OrganRole::Unspecialised
                } else if d == 1 {
                    OrganRole::Digester
                } else if d == 2 {
                    OrganRole::Sensor
                } else if d == 3 {
                    OrganRole::Reproducer
                } else if d == 4 {
                    OrganRole::Defense
                } else {
                    OrganRole::MotorCell
                })
            &&& forall|k: int| 0 <= k < types.len() ==> #[trigger] has_most_common_partner(types, bonds, k)
        }),
{
    let roles = spec_roles(types, bonds);
    assert forall|k: int| 0 <= k < types.len() implies #[trigger] has_most_common_partner(types, bonds, k) by {
        let counts = neighbour_counts(types, bonds[k]@);
        lemma_dominant_prefix_props(counts, NUM_TYPES as int);
        let d = dominant_prefix(counts, NUM_TYPES as int);
        assert(bonds[k]@.len() <= u32::MAX);
        assert forall|t: int| 0 <= t < NUM_TYPES implies partners_of_type(types, bonds, k, t) == counts[t] by {
            lemma_neighbour_count_bound(types, bonds[k]@, t, bonds[k]@.len() as int);
        }
        assert forall|t: int| 0 <= t < NUM_TYPES implies #[trigger] partners_of_type(types, bonds, k, t)
            <= partners_of_type(types, bonds, k, d) by {
            assert(counts[t] <= counts[d]);
        }
        assert forall|t: int| d < t < NUM_TYPES implies #[trigger] partners_of_type(types, bonds, k, t)
            < partners_of_type(types, bonds, k, d) by {
            assert(counts[t] < counts[d]);
        }
        assert(most_common_partner(types, bonds, k, d));
    }
    assert forall|k: int, d: int|
        0 <= k < types.len() && types.len() >= 5 && types[k] == ParticleType::Alpha
            && #[trigger] most_common_partner(types, bonds, k, d) implies roles[k] == (if d == 0 {
        OrganRole::Unspecialised
    } else if d == 1 {
        OrganRole::Digester
    } else if d == 2 {
        OrganRole::Sensor
    } else if d == 3 {
        OrganRole::Reproducer
    } else if d == 4 {
        OrganRole::Defense
    } else {
        OrganRole::MotorCell
    }) by {
        let counts = neighbour_counts(types, bonds[k]@);
        lemma_dominant_prefix_props(counts, NUM_TYPES as int);
        let d0 = dominant_prefix(counts, NUM_TYPES as int);
        assert(bonds[k]@.len() <= u32::MAX);
        assert forall|t: int| 0 <= t < NUM_TYPES implies partners_of_type(types, bonds, k, t) == counts[t] by {
            lemma_neighbour_count_bound(types, bonds[k]@, t, bonds[k]@.len() as int);
        }
        assert(partners_of_type(types, bonds, k, d0) == counts[d0]);
        assert(partners_of_type(types, bonds, k, d) == counts[d]);
        if d < d0 {
            assert(counts[d0] < counts[d]);
        } else if d0 < d {
            assert(counts[d] < counts[d0]);
        }
        assert(d == d0);
    }
}

} // verus!
