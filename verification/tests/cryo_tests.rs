use qphase::cryo::{stage_index, Stage};

#[test]
fn stages_are_listed_hottest_first() {
    assert_eq!(Stage::all(), [Stage::Room, Stage::Plate4K, Stage::Plate100mK, Stage::MixingChamber]);
}

#[test]
fn stage_indices_follow_the_listing() {
    for (i, s) in Stage::all().iter().enumerate() {
        assert_eq!(stage_index(*s), i);
    }
}
