//! Cell differentiation roles within groups.
use vstd::prelude::*;

verus! {

/// Cell differentiation roles within groups.
#[derive(Clone, Copy, Debug, PartialEq, Eq, Hash, Structural)]
pub enum CellRole {
    /// Not yet differentiated.
    Undifferentiated,
    /// Interior cell (surrounded by bonds).
    Interior,
    /// Border cell (fewer bonds, exposed to environment).
    Border,
}

/// The index that stands for a role: 0, 1 and 2 in declaration order.
pub open spec fn role_index(r: CellRole) -> nat {
    match r {
        CellRole::Undifferentiated => 0,
        CellRole::Interior => 1,
        CellRole::Border => 2,
    }
}

/// The role that an index stands for; every index beyond 2 reads as undifferentiated.
pub open spec fn role_of_index(i: nat) -> CellRole {
    if i == 1 {
        CellRole::Interior
    } else if i == 2 {
        CellRole::Border
    } else {
        CellRole::Undifferentiated
    }
}

impl Default for CellRole {
    fn default() -> (r: Self)
        ensures
            r == CellRole::Undifferentiated,
    {
        CellRole::Undifferentiated
    }
}

impl CellRole {
    /// The role's index: 0 for undifferentiated, 1 for interior, 2 for border.
    pub fn as_index(&self) -> (i: usize)
        ensures
            i == role_index(*self),
            i < 3,
    {
        match self {
            CellRole::Undifferentiated => 0,
            CellRole::Interior => 1,
            CellRole::Border => 2,
        }
    }

    /// The role for an index; indices other than 1 and 2 give `Undifferentiated`.
    pub fn from_index(i: usize) -> (r: Self)
        ensures
            r == role_of_index(i as nat),
    {
        match i {
            1 => CellRole::Interior,
            2 => CellRole::Border,
            _ => CellRole::Undifferentiated,
        }
    }
}

/// Reading back the index of a role gives the role again.
pub proof fn lemma_role_index_round_trip(r: CellRole)
    ensures
        role_of_index(role_index(r)) == r,
        role_index(r) < 3,
{
}

/// An index below 3 survives the trip through its role; every other index
/// comes back as 0, the index of `Undifferentiated`.
pub proof fn lemma_index_role_round_trip(i: nat)
    ensures
        i < 3 ==> role_index(role_of_index(i)) == i,
        i >= 3 ==> role_index(role_of_index(i)) == 0,
{
}

} // verus!
