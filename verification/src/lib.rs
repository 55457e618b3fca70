//! Genesis: the integer core of an open-ended particle-life evolution simulator.
//!
//! The library holds the parts of the simulation that are exact: cell roles,
//! the spatial hash grid used for neighbour queries, the structure-of-arrays
//! particle store with its compaction, the symmetric bond graph, grouping of
//! bonded particles and colonies of organisms, the xorshift generator,
//! reaction hashing, assembly index, innovation and species counting, save
//! records, genome crossover and transposition, organism-level rules
//! (immune signatures, cultural memory, merging, offspring layout, symbol
//! channels, meta-cognition depth), organism detection and lineage, cell
//! roles and multicellularity, symbol emission, cultural rounds,
//! symbiogenesis contacts and merges, pairing for sexual reproduction,
//! field-grid indexing, the tick schedule and the illumination map of
//! behaviour search.
use vstd::prelude::*;

pub mod cell_role;
pub mod spatial_grid;
pub mod groups;
pub mod particle_store;
pub mod reaction;
pub mod metrics;
pub mod rng;
pub mod save;
pub mod organism;
pub mod genome;
pub mod bonds;
pub mod environment;
pub mod schedule;
pub mod explore;
pub mod reproduction;
pub mod roles;
pub mod symbiogenesis;
pub mod mating;
pub mod lineage;
pub mod symbols;
pub mod culture;

verus! {

} // verus!
