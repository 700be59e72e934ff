use battle_calc::calc::{fight_in_order, optimise_battle, BattleState};
use battle_calc::units::Unit;

fn trooper(attack: i128, defence: i128, health: i128, max_health: i128) -> Unit {
    Unit {
        display_name: String::from("Trooper"),
        max_health,
        health,
        attack,
        defence,
        defence_with_bonus: defence,
        forced_retaliation: None,
        can_freeze: false,
        can_convert: false,
        can_retaliate: attack != 0 && defence != 0,
        ranged: false,
        veteran: false,
        frozen: false,
        converted: false,
    }
}

fn healths(state: &BattleState) -> Vec<i128> {
    state.attackers.iter().map(|unit| unit.health).collect()
}

#[test]
fn optimise_single_attacker() {
    let state = BattleState {
        attackers: vec![trooper(200, 200, 1000, 1000)],
        defender: trooper(300, 300, 2000, 2000),
    };
    let (order, best) = optimise_battle(state);
    assert_eq!(order, vec![0]);
    assert_eq!(healths(&best), vec![200]);
    assert_eq!(best.defender.health, 1600);
}

#[test]
fn optimise_prefers_the_lower_defender_health() {
    let mut archer = trooper(100, 100, 1000, 1000);
    archer.ranged = true;
    let state = BattleState {
        attackers: vec![archer, trooper(400, 100, 1000, 1000)],
        defender: trooper(300, 300, 1000, 1000),
    };
    let (order, best) = optimise_battle(state);
    assert_eq!(order, vec![1, 0]);
    assert_eq!(healths(&best), vec![1000, 1000]);
    assert_eq!(best.defender.health, -500);
}

#[test]
fn optimise_tie_keeps_the_first_order() {
    let state = BattleState {
        attackers: vec![trooper(200, 200, 1000, 1000), trooper(200, 200, 1000, 1000)],
        defender: trooper(300, 300, 2000, 2000),
    };
    let (order, best) = optimise_battle(state);
    assert_eq!(order, vec![0, 1]);
    assert_eq!(healths(&best), vec![200, 300]);
    assert_eq!(best.defender.health, 1200);
}

#[test]
fn optimise_three_attackers() {
    let mut ranged = trooper(300, 100, 1500, 1500);
    ranged.ranged = true;
    let mut freezer = trooper(100, 300, 1000, 1000);
    freezer.can_freeze = true;
    let mut defender = trooper(300, 300, 2000, 2000);
    defender.defence_with_bonus = 450;
    let state =
        BattleState { attackers: vec![trooper(200, 200, 1000, 1000), ranged, freezer], defender };
    let (order, best) = optimise_battle(state);
    assert_eq!(order, vec![2, 1, 0]);
    assert_eq!(healths(&best), vec![-100, 1500, 200]);
    assert_eq!(best.defender.health, 900);
    assert!(!best.defender.frozen);
    assert_eq!(best.attackers[0].attack, 100);
    assert_eq!(best.attackers[2].attack, 200);
}

#[test]
fn optimise_converts_first_where_it_can() {
    let mut converter = trooper(0, 100, 1000, 1000);
    converter.can_convert = true;
    let mut ranged = trooper(500, 100, 1000, 1000);
    ranged.ranged = true;
    let state = BattleState {
        attackers: vec![
            trooper(200, 200, 1000, 1000),
            converter,
            ranged,
            trooper(300, 300, 400, 1000),
        ],
        defender: trooper(300, 300, 2000, 2000),
    };
    let (order, best) = optimise_battle(state);
    assert_eq!(order, vec![1, 0, 2, 3]);
    assert_eq!(healths(&best), vec![1000, 1000, 1000, 400]);
    assert_eq!(best.defender.health, 2000);
    assert!(best.defender.converted);
}

#[test]
fn fight_in_order_leaves_the_state_untouched() {
    let mut archer = trooper(100, 100, 1000, 1000);
    archer.ranged = true;
    let state = BattleState {
        attackers: vec![archer, trooper(400, 100, 1000, 1000)],
        defender: trooper(300, 300, 1000, 1000),
    };
    let forth = fight_in_order(&state, &vec![0, 1]);
    assert_eq!(healths(&forth), vec![1000, 1000]);
    assert_eq!(forth.defender.health, -200);
    assert_eq!(forth.attackers[0].attack, 100);
    let back = fight_in_order(&state, &vec![1, 0]);
    assert_eq!(back.defender.health, -500);
    assert_eq!(back.attackers[0].attack, 400);
    assert_eq!(state.defender.health, 1000);
    assert_eq!(healths(&state), vec![1000, 1000]);
}
