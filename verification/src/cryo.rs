//! Cryostat stages of the cryogenic control layer.
//!
//! The stages of a dilution refrigerator, from room temperature down to the
//! mixing-chamber plate where the qubits live, and their position in the
//! per-stage tables (heater powers, temperatures) kept by the control layer.

use vstd::prelude::*;

verus! {

/// Cooling stages of a dilution refrigerator, from room temperature down to
/// the mixing-chamber plate where the qubits live.
#[derive(Clone, Copy, Debug, PartialEq, Eq, Structural)]
pub enum Stage {
    /// Room temperature (300 K) — top plate.
    Room,
    /// 4 K plate.
    Plate4K,
    /// 100 mK plate.
    Plate100mK,
    /// 10 mK mixing-chamber plate (qubit operating temperature).
    MixingChamber,
}

/// Position of a stage in per-stage tables, hottest first.
pub open spec fn stage_position(s: Stage) -> int {
    match s {
        Stage::Room => 0,
        Stage::Plate4K => 1,
        Stage::Plate100mK => 2,
        Stage::MixingChamber => 3,
    }
}

impl Stage {
    /// All stages in order, hottest first.
    pub fn all() -> (stages: [Stage; 4])
        ensures
            stages@ == seq![Stage::Room, Stage::Plate4K, Stage::Plate100mK, Stage::MixingChamber],
            forall|i: int| 0 <= i < 4 ==> stage_position(#[trigger] stages@[i]) == i,
    {
        let stages = [Stage::Room, Stage::Plate4K, Stage::Plate100mK, Stage::MixingChamber];
        assert(stages@ =~= seq![Stage::Room, Stage::Plate4K, Stage::Plate100mK, Stage::MixingChamber]);
        stages
    }
}

/// Index of a stage in a per-stage table (heater powers, temperatures).
pub fn stage_index(s: Stage) -> (i: usize)
    ensures
        i == stage_position(s),
        i < 4,
{
    match s {
        Stage::Room => 0,
        Stage::Plate4K => 1,
        Stage::Plate100mK => 2,
        Stage::MixingChamber => 3,
    }
}

/// Each stage has its own table slot: distinct stages never share an index.
pub proof fn law_stage_positions_distinct(a: Stage, b: Stage)
    ensures
        stage_position(a) == stage_position(b) <==> a == b,
        0 <= stage_position(a) < 4,
{
}

} // verus!
