use dice_sim::model::{Model, Options};

fn model(num_dice: i32, dice_stat: i32, num_rerolls: i32) -> Model {
    Model { num_dice, dice_stat, num_rerolls, armor: 0, ap: 0, num_shield_dice: 0, toxic_dmg: 0 }
}

#[test]
fn valid_models() {
    assert!(model(5, 5, 0).is_valid());
    assert!(model(0, 1, 0).is_valid());
    assert!(model(i32::MAX, 9, i32::MAX).is_valid());
    let full = Model {
        num_dice: 3,
        dice_stat: 4,
        num_rerolls: 2,
        armor: 1,
        ap: 2,
        num_shield_dice: 29,
        toxic_dmg: i32::MAX,
    };
    assert!(full.is_valid());
}

#[test]
fn invalid_models() {
    assert!(!model(-1, 5, 0).is_valid());
    assert!(!model(5, 0, 0).is_valid());
    assert!(!model(5, 10, 0).is_valid());
    assert!(!model(5, 5, -1).is_valid());
    let base = model(5, 5, 0);
    assert!(!Model { armor: -1, ..base }.is_valid());
    assert!(!Model { ap: -1, ..base }.is_valid());
    assert!(!Model { num_shield_dice: -1, ..base }.is_valid());
    assert!(!Model { num_shield_dice: 30, ..base }.is_valid());
    assert!(!Model { toxic_dmg: -1, ..base }.is_valid());
}

#[test]
fn valid_and_invalid_options() {
    assert!(Options { num_simulations: 1, num_rounds: 1 }.is_valid());
    assert!(Options { num_simulations: i32::MAX, num_rounds: i32::MAX }.is_valid());
    assert!(!Options { num_simulations: 0, num_rounds: 1 }.is_valid());
    assert!(!Options { num_simulations: -5, num_rounds: 1 }.is_valid());
    assert!(!Options { num_simulations: 10, num_rounds: 0 }.is_valid());
}
