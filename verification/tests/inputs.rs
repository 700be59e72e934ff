use battle_calc::calc::{BattleError, BattleInput, UnitInput};
use battle_calc::units::{UnitType, UnitTypeList};

fn template(id: &str, health: i128, attack: i128, defence: i128) -> UnitType {
    UnitType {
        id: String::from(id),
        display_name: String::from(id),
        aliases: vec![],
        hidden: false,
        health,
        attack,
        defence,
        range: 1,
        abilities: vec![],
    }
}

fn catalog() -> UnitTypeList {
    UnitTypeList {
        units: vec![
            template("warrior", 1000, 200, 200),
            template("defender", 1500, 100, 300),
            template("titan", 20_000, 200, 200),
        ],
    }
}

fn input(unit: &str, health: Option<i128>, flags: u8) -> UnitInput {
    UnitInput { unit: String::from(unit), health, flags }
}

#[test]
fn to_unit_makes_a_fresh_unit() {
    let unit = input("warrior", None, 0).to_unit(&catalog()).unwrap();
    assert_eq!(unit, template("warrior", 1000, 200, 200).create_unit());
}

#[test]
fn to_unit_applies_flags_then_health() {
    // a veteran without a health of its own starts at the raised full health
    let unit = input("defender", None, 0b0001_0010).to_unit(&catalog()).unwrap();
    assert!(unit.veteran);
    assert_eq!(unit.max_health, 2000);
    assert_eq!(unit.health, 2000);
    assert_eq!(unit.defence_with_bonus, 450);
    let unit = input("defender", Some(700), 0b1001_0000).to_unit(&catalog()).unwrap();
    assert_eq!(unit.max_health, 2000);
    assert_eq!(unit.health, 700);
    assert!(unit.frozen);
    let unit = input("defender", Some(-300), 0).to_unit(&catalog()).unwrap();
    assert_eq!(unit.health, -300);
    assert_eq!(unit.max_health, 1500);
}

#[test]
fn to_unit_unknown_id() {
    assert_eq!(input("wizard", None, 0).to_unit(&catalog()), Err(BattleError::UnknownUnitId));
    assert_eq!(input("", Some(100), 3).to_unit(&catalog()), Err(BattleError::UnknownUnitId));
}

#[test]
fn to_unit_out_of_range() {
    assert_eq!(input("titan", None, 0).to_unit(&catalog()), Err(BattleError::OutOfRange));
    assert_eq!(input("titan", Some(100), 0).to_unit(&catalog()), Err(BattleError::OutOfRange));
    assert_eq!(
        input("warrior", Some(100_000_001), 0).to_unit(&catalog()),
        Err(BattleError::OutOfRange)
    );
    assert_eq!(
        input("warrior", Some(-100_000_001), 0).to_unit(&catalog()),
        Err(BattleError::OutOfRange)
    );
    assert!(input("warrior", Some(100_000_000), 0).to_unit(&catalog()).is_ok());
    assert!(input("warrior", Some(-100_000_000), 0).to_unit(&catalog()).is_ok());
}

#[test]
fn to_state_makes_the_battle() {
    let request = BattleInput {
        attackers: vec![input("warrior", Some(500), 0), input("defender", None, 0b0000_0100)],
        defender: input("warrior", None, 0b0000_1000),
    };
    let state = request.to_state(&catalog()).unwrap();
    assert!(state.is_ready());
    assert_eq!(state.attackers.len(), 2);
    assert_eq!(state.attackers[0].health, 500);
    assert_eq!(state.attackers[0].attack, 200);
    assert_eq!(state.attackers[1].defence_with_bonus, 1200);
    assert_eq!(state.attackers[1].health, 1500);
    assert_eq!(state.defender.defence_with_bonus, 250);
    assert_eq!(state.defender.health, 1000);
}

#[test]
fn to_state_without_attackers() {
    let request = BattleInput { attackers: vec![], defender: input("warrior", None, 0) };
    let state = request.to_state(&catalog()).unwrap();
    assert!(state.attackers.is_empty());
    assert_eq!(state.defender.health, 1000);
}

#[test]
fn to_state_reports_the_first_failure() {
    let request = BattleInput {
        attackers: vec![
            input("warrior", None, 0),
            input("titan", None, 0),
            input("wizard", None, 0),
        ],
        defender: input("ghost", None, 0),
    };
    assert_eq!(request.to_state(&catalog()).err(), Some(BattleError::OutOfRange));
    let request = BattleInput {
        attackers: vec![input("wizard", None, 0), input("titan", None, 0)],
        defender: input("warrior", None, 0),
    };
    assert_eq!(request.to_state(&catalog()).err(), Some(BattleError::UnknownUnitId));
    let request = BattleInput {
        attackers: vec![input("warrior", None, 0)],
        defender: input("ghost", None, 0),
    };
    assert_eq!(request.to_state(&catalog()).err(), Some(BattleError::UnknownUnitId));
}

#[test]
fn to_state_too_many_attackers() {
    let mut attackers = vec![];
    for _ in 0..256 {
        attackers.push(input("wizard", None, 0));
    }
    let request = BattleInput { attackers, defender: input("warrior", None, 0) };
    assert_eq!(request.to_state(&catalog()).err(), Some(BattleError::TooManyAttackers));
    let mut attackers = vec![];
    for _ in 0..255 {
        attackers.push(input("warrior", None, 0));
    }
    let request = BattleInput { attackers, defender: input("warrior", None, 0) };
    assert!(request.to_state(&catalog()).is_ok());
}
