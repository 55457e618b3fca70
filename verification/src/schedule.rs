//! What the simulation loop does on a tick: which phases of the full tick
//! run, when metrics are recorded, when progress is reported and when a
//! headless run ends.
use vstd::prelude::*;

verus! {

/// Metrics are recorded every this many ticks.
pub const METRICS_INTERVAL: u64 = 50;

/// The actions due after a tick.
#[derive(Clone, Copy, Debug, PartialEq, Eq, Structural)]
pub struct TickActions {
    /// Record a metrics snapshot.
    pub record_metrics: bool,
    /// Print a progress line.
    pub report: bool,
    /// The run has reached its target and ends.
    pub finish: bool,
}

/// Actions due after tick `tick` of a run that reports every `report_every`
/// ticks (never when 0) and ends at tick `target`.
pub open spec fn spec_plan_tick(tick: u64, report_every: u64, target: u64) -> TickActions {
    TickActions {
        record_metrics: tick % METRICS_INTERVAL == 0,
        report: report_every > 0 && tick > 0 && tick % report_every == 0,
        finish: tick >= target,
    }
}

/// The actions due after tick `tick`.
pub fn plan_tick(tick: u64, report_every: u64, target: u64) -> (a: TickActions)
    ensures
        a == spec_plan_tick(tick, report_every, target),
{
    TickActions {
        record_metrics: tick % METRICS_INTERVAL == 0,
        report: report_every > 0 && tick > 0 && tick % report_every == 0,
        finish: tick >= target,
    }
}

/// The phases of the full simulation tick that run on a given tick. Grid
/// rebuild, forces, integration, bonds, metabolism and reproduction run on
/// every tick; the others run on their cadence.
#[derive(Clone, Copy, Debug, PartialEq, Eq, Structural)]
pub struct TickPhases {
    /// Signal propagation and oscillator phase: every 2 ticks.
    pub signals: bool,
    /// Organism detection: every 4 ticks.
    pub organisms: bool,
    /// Gene expression, epigenetics and specialisation: every 2 ticks.
    pub advanced: bool,
    /// Colony detection: every 8 ticks.
    pub colonies: bool,
    /// Field diffusion and injection: every 4 ticks.
    pub fields: bool,
    /// Immune signatures: every 6 ticks.
    pub immune: bool,
    /// Symbiogenesis: every 10 ticks.
    pub symbiogenesis: bool,
    /// Sexual reproduction: every 4 ticks.
    pub sexual_reproduction: bool,
    /// Ecological niche bonuses: every 6 ticks.
    pub niches: bool,
    /// Symbols: every 4 ticks.
    pub symbols: bool,
    /// Tool use: every 5 ticks.
    pub tools: bool,
    /// Construction: every 8 ticks.
    pub construction: bool,
    /// Culture: every 10 ticks.
    pub culture: bool,
    /// Meta-cognition: every 8 ticks.
    pub meta_cognition: bool,
    /// Removal of dead particles: every 50 ticks.
    pub cleanup: bool,
}

/// The phases that run on tick `tick`.
pub open spec fn spec_tick_phases(tick: u64) -> TickPhases {
    TickPhases {
        signals: tick % 2 == 0,
        organisms: tick % 4 == 0,
        advanced: tick % 2 == 0,
        colonies: tick % 8 == 0,
        fields: tick % 4 == 0,
        immune: tick % 6 == 0,
        symbiogenesis: tick % 10 == 0,
        sexual_reproduction: tick % 4 == 0,
        niches: tick % 6 == 0,
        symbols: tick % 4 == 0,
        tools: tick % 5 == 0,
        construction: tick % 8 == 0,
        culture: tick % 10 == 0,
        meta_cognition: tick % 8 == 0,
        cleanup: tick % 50 == 0,
    }
}

/// The phases of the simulation tick that run on tick `tick` (ticks count
/// from 1, the counter being advanced before the phases run).
pub fn tick_phases(tick: u64) -> (p: TickPhases)
    ensures
        p == spec_tick_phases(tick),
{
    TickPhases {
        signals: tick % 2 == 0,
        organisms: tick % 4 == 0,
        advanced: tick % 2 == 0,
        colonies: tick % 8 == 0,
        fields: tick % 4 == 0,
        immune: tick % 6 == 0,
        symbiogenesis: tick % 10 == 0,
        sexual_reproduction: tick % 4 == 0,
        niches: tick % 6 == 0,
        symbols: tick % 4 == 0,
        tools: tick % 5 == 0,
        construction: tick % 8 == 0,
        culture: tick % 10 == 0,
        meta_cognition: tick % 8 == 0,
        cleanup: tick % 50 == 0,
    }
}

/// The phases of a simulation tick, in the order in which they run.
#[derive(Clone, Copy, Debug, PartialEq, Eq, Structural)]
pub enum Phase {
    Grid,
    Forces,
    Integration,
    Bonds,
    Signals,
    Metabolism,
    Organisms,
    Advanced,
    Reproduction,
    Colonies,
    Fields,
    Immune,
    Symbiogenesis,
    SexualReproduction,
    Niches,
    Symbols,
    Tools,
    Construction,
    Culture,
    MetaCognition,
    Cleanup,
}

/// Every phase, in running order.
pub open spec fn phase_order() -> Seq<Phase> {
    seq![
        Phase::Grid,
        Phase::Forces,
        Phase::Integration,
        Phase::Bonds,
        Phase::Signals,
        Phase::Metabolism,
        Phase::Organisms,
        Phase::Advanced,
        Phase::Reproduction,
        Phase::Colonies,
        Phase::Fields,
        Phase::Immune,
        Phase::Symbiogenesis,
        Phase::SexualReproduction,
        Phase::Niches,
        Phase::Symbols,
        Phase::Tools,
        Phase::Construction,
        Phase::Culture,
        Phase::MetaCognition,
        Phase::Cleanup,
    ]
}

/// Whether phase `p` runs on tick `tick`: the grid, forces, integration,
/// bonds, metabolism and reproduction on every tick, the others at their cadence.
pub open spec fn phase_runs(p: Phase, tick: u64) -> bool {
    let t = spec_tick_phases(tick);
    match p {
        Phase::Grid | Phase::Forces | Phase::Integration | Phase::Bonds | Phase::Metabolism
        | Phase::Reproduction => true,
        Phase::Signals => t.signals,
        Phase::Organisms => t.organisms,
        Phase::Advanced => t.advanced,
        Phase::Colonies => t.colonies,
        Phase::Fields => t.fields,
        Phase::Immune => t.immune,
        Phase::Symbiogenesis => t.symbiogenesis,
        Phase::SexualReproduction => t.sexual_reproduction,
        Phase::Niches => t.niches,
        Phase::Symbols => t.symbols,
        Phase::Tools => t.tools,
        Phase::Construction => t.construction,
        Phase::Culture => t.culture,
        Phase::MetaCognition => t.meta_cognition,
        Phase::Cleanup => t.cleanup,
    }
}

/// The phases among the first `k` in running order that run on tick `tick`.
pub open spec fn due_prefix(tick: u64, k: int) -> Seq<Phase>
    decreases k,
{
    if k <= 0 {
        Seq::empty()
    } else if phase_runs(phase_order()[k - 1], tick) {
        due_prefix(tick, k - 1).push(phase_order()[k - 1])
    } else {
        due_prefix(tick, k - 1)
    }
}

fn runs(p: Phase, t: &TickPhases) -> (b: bool)
    ensures
        match p {
            Phase::Grid | Phase::Forces | Phase::Integration | Phase::Bonds | Phase::Metabolism
            | Phase::Reproduction => b,
            Phase::Signals => b == t.signals,
            Phase::Organisms => b == t.organisms,
            Phase::Advanced => b == t.advanced,
            Phase::Colonies => b == t.colonies,
            Phase::Fields => b == t.fields,
            Phase::Immune => b == t.immune,
            Phase::Symbiogenesis => b == t.symbiogenesis,
            Phase::SexualReproduction => b == t.sexual_reproduction,
            Phase::Niches => b == t.niches,
            Phase::Symbols => b == t.symbols,
            Phase::Tools => b == t.tools,
            Phase::Construction => b == t.construction,
            Phase::Culture => b == t.culture,
            Phase::MetaCognition => b == t.meta_cognition,
            Phase::Cleanup => b == t.cleanup,
        },
{
    match p {
        Phase::Grid | Phase::Forces | Phase::Integration | Phase::Bonds | Phase::Metabolism
        | Phase::Reproduction => true,
        Phase::Signals => t.signals,
        Phase::Organisms => t.organisms,
        Phase::Advanced => t.advanced,
        Phase::Colonies => t.colonies,
        Phase::Fields => t.fields,
        Phase::Immune => t.immune,
        Phase::Symbiogenesis => t.symbiogenesis,
        Phase::SexualReproduction => t.sexual_reproduction,
        Phase::Niches => t.niches,
        Phase::Symbols => t.symbols,
        Phase::Tools => t.tools,
        Phase::Construction => t.construction,
        Phase::Culture => t.culture,
        Phase::MetaCognition => t.meta_cognition,
        Phase::Cleanup => t.cleanup,
    }
}

/// The phases that run on tick `tick`, in running order.
pub fn phases_due(tick: u64) -> (due: Vec<Phase>)
    ensures
        due@ == due_prefix(tick, phase_order().len() as int),
{
    let order: Vec<Phase> = vec![
        Phase::Grid,
        Phase::Forces,
        Phase::Integration,
        Phase::Bonds,
        Phase::Signals,
        Phase::Metabolism,
        Phase::Organisms,
        Phase::Advanced,
        Phase::Reproduction,
        Phase::Colonies,
        Phase::Fields,
        Phase::Immune,
        Phase::Symbiogenesis,
        Phase::SexualReproduction,
        Phase::Niches,
        Phase::Symbols,
        Phase::Tools,
        Phase::Construction,
        Phase::Culture,
        Phase::MetaCognition,
        Phase::Cleanup,
    ];
    assert(order@ =~= phase_order());
    let t = tick_phases(tick);
    let mut due: Vec<Phase> = Vec::new();
    let mut k: usize = 0;
    while k < order.len()
        invariant
            order@ == phase_order(),
            t == spec_tick_phases(tick),
            0 <= k <= order@.len(),
            due@ == due_prefix(tick, k as int),
        decreases order@.len() - k,
    {
        let p = order[k];
        if runs(p, &t) {
            due.push(p);
        }
        k = k + 1;
    }
    due
}

} // verus!
