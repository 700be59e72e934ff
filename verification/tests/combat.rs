use battle_calc::calc::{attack, battle, battle_many, check_retaliation, BattleState};
use battle_calc::units::Unit;

fn fighter(attack: i128, defence: i128, health: i128, max_health: i128) -> Unit {
    Unit {
        display_name: String::from("Fighter"),
        max_health,
        health,
        attack,
        defence,
        defence_with_bonus: defence,
        forced_retaliation: None,
        can_freeze: false,
        can_convert: false,
        can_retaliate: attack != 0 && defence != 0,
        ranged: false,
        veteran: false,
        frozen: false,
        converted: false,
    }
}

fn fresh(attack: i128, defence: i128) -> Unit {
    fighter(attack, defence, 1000, 1000)
}

#[test]
fn attack_worked_example() {
    // attack 5 at full health against defence 5 at full health: 11.25 -> 11
    let mut attacker = fresh(500, 0);
    let mut defender = fresh(100, 500);
    attack(&mut attacker, &mut defender);
    assert_eq!(defender.health, -100);
    assert_eq!(attacker.health, 1000);
}

#[test]
fn attack_worked_example_no_retaliation_even_if_forced() {
    let mut attacker = fresh(500, 100);
    attacker.forced_retaliation = Some(true);
    let mut defender = fresh(100, 500);
    defender.forced_retaliation = Some(true);
    defender.ranged = true;
    attack(&mut attacker, &mut defender);
    assert_eq!(defender.health, -100);
    assert_eq!(attacker.health, 1000);
}

#[test]
fn attack_rounds_half_away_from_zero_and_retaliates() {
    // 2 * 2 * 4.5 / (2 + 2) = 4.5 -> 5, both ways
    let mut attacker = fresh(200, 200);
    let mut defender = fresh(200, 200);
    attack(&mut attacker, &mut defender);
    assert_eq!(defender.health, 500);
    assert_eq!(attacker.health, 500);
}

#[test]
fn attack_changes_health_only() {
    let mut attacker = fresh(200, 200);
    attacker.can_convert = true;
    attacker.veteran = true;
    let mut defender = fresh(200, 200);
    defender.can_freeze = true;
    let mut expected_attacker = attacker.clone();
    let mut expected_defender = defender.clone();
    attack(&mut attacker, &mut defender);
    expected_attacker.health = 500;
    expected_defender.health = 500;
    assert_eq!(attacker, expected_attacker);
    assert_eq!(defender, expected_defender);
}

#[test]
fn attack_wounded_attacker_hits_softer() {
    let mut attacker = fighter(300, 200, 500, 1000);
    let mut defender = fresh(200, 200);
    defender.defence_with_bonus = 300;
    attack(&mut attacker, &mut defender);
    assert_eq!(defender.health, 500);
    // the retaliation uses the plain defence, not the bonus: 3 * 2 * 1 = 6
    assert_eq!(attacker.health, -100);
}

#[test]
fn attack_mixed_full_healths() {
    let mut attacker = fighter(350, 100, 1200, 1500);
    let mut defender = fighter(150, 250, 700, 2000);
    defender.defence_with_bonus = 375;
    attack(&mut attacker, &mut defender);
    assert_eq!(defender.health, -400);
    assert_eq!(attacker.health, 1200);
}

#[test]
fn attack_retaliation_can_kill_the_attacker() {
    let mut attacker = fighter(100, 100, 300, 1000);
    let mut defender = fighter(500, 500, 4000, 4000);
    defender.defence_with_bonus = 2000;
    attack(&mut attacker, &mut defender);
    assert_eq!(defender.health, 4000);
    assert_eq!(attacker.health, -1900);
}

#[test]
fn attack_ranged_attacker_is_not_retaliated_against() {
    let mut attacker = fresh(200, 100);
    attacker.ranged = true;
    let mut defender = fresh(200, 200);
    attack(&mut attacker, &mut defender);
    assert_eq!(defender.health, 500);
    assert_eq!(attacker.health, 1000);
}

#[test]
fn attack_ranged_defender_retaliates_against_ranged() {
    let mut attacker = fresh(200, 100);
    attacker.ranged = true;
    let mut defender = fresh(200, 200);
    defender.ranged = true;
    attack(&mut attacker, &mut defender);
    assert_eq!(defender.health, 500);
    assert_eq!(attacker.health, 500);
}

#[test]
fn attack_forced_retaliation_overrides() {
    // the attacker's override: retaliation although ranged
    let mut attacker = fresh(200, 100);
    attacker.ranged = true;
    attacker.forced_retaliation = Some(true);
    let mut defender = fresh(200, 200);
    attack(&mut attacker, &mut defender);
    assert_eq!(attacker.health, 500);
    // the attacker's override wins over the defender's
    let mut attacker = fresh(200, 100);
    attacker.forced_retaliation = Some(false);
    let mut defender = fresh(200, 200);
    defender.forced_retaliation = Some(true);
    attack(&mut attacker, &mut defender);
    assert_eq!(attacker.health, 1000);
    assert_eq!(defender.health, 500);
    // the defender's override: retaliation against a ranged attacker
    let mut attacker = fresh(200, 100);
    attacker.ranged = true;
    let mut defender = fresh(200, 200);
    defender.forced_retaliation = Some(true);
    attack(&mut attacker, &mut defender);
    assert_eq!(attacker.health, 500);
    // the defender's override: none against a melee attacker
    let mut attacker = fresh(200, 100);
    let mut defender = fresh(200, 200);
    defender.forced_retaliation = Some(false);
    attack(&mut attacker, &mut defender);
    assert_eq!(attacker.health, 1000);
}

#[test]
fn attack_frozen_defender_does_not_retaliate() {
    let mut attacker = fresh(200, 100);
    let mut defender = fresh(200, 200);
    defender.frozen = true;
    defender.forced_retaliation = Some(true);
    attack(&mut attacker, &mut defender);
    assert_eq!(defender.health, 500);
    assert!(defender.frozen);
    assert_eq!(attacker.health, 1000);
}

#[test]
fn attack_defender_that_cannot_retaliate() {
    let mut attacker = fresh(200, 100);
    let mut defender = fresh(0, 200);
    attack(&mut attacker, &mut defender);
    assert_eq!(defender.health, 500);
    assert_eq!(attacker.health, 1000);
}

#[test]
fn attack_on_a_dead_defender_goes_on() {
    let mut attacker = fresh(500, 100);
    let mut defender = fighter(200, 500, -100, 1000);
    attack(&mut attacker, &mut defender);
    assert_eq!(defender.health, -2600);
    assert_eq!(attacker.health, 1000);
}

#[test]
fn attack_forces_that_cancel_do_nothing() {
    // attack force 0.5, defence force -0.5
    let mut attacker = fresh(50, 100);
    let mut defender = fighter(200, 500, -100, 1000);
    let attacker_before = attacker.clone();
    let defender_before = defender.clone();
    attack(&mut attacker, &mut defender);
    assert_eq!(attacker, attacker_before);
    assert_eq!(defender, defender_before);
}

#[test]
fn attack_both_forces_zero_does_nothing() {
    let mut attacker = fresh(0, 100);
    let mut defender = fresh(200, 0);
    let attacker_before = attacker.clone();
    let defender_before = defender.clone();
    attack(&mut attacker, &mut defender);
    assert_eq!(attacker, attacker_before);
    assert_eq!(defender, defender_before);
}

#[test]
fn attack_negative_balance_heals() {
    // attack force 0.2, defence force -0.5: the quotient is negative
    let mut attacker = fresh(20, 100);
    let mut defender = fighter(200, 500, -100, 1000);
    attack(&mut attacker, &mut defender);
    assert_eq!(defender.health, 0);
    assert_eq!(attacker.health, 1000);
}

#[test]
fn attack_against_no_defence() {
    // 2 * 2 * 4.5 / 2 = 9
    let mut attacker = fresh(200, 100);
    let mut defender = fresh(200, 0);
    attack(&mut attacker, &mut defender);
    assert_eq!(defender.health, 100);
    assert_eq!(attacker.health, 1000);
}

#[test]
fn check_retaliation_decision_order() {
    let attacker = fresh(200, 200);
    let defender = fresh(200, 200);
    assert!(check_retaliation(&attacker, &defender));
    let mut frozen = fresh(200, 200);
    frozen.frozen = true;
    assert!(!check_retaliation(&attacker, &frozen));
    let mut converted = fresh(200, 200);
    converted.converted = true;
    assert!(!check_retaliation(&attacker, &converted));
    let spent = fighter(200, 200, 0, 1000);
    assert!(!check_retaliation(&attacker, &spent));
    let barely = fighter(200, 200, 1, 1000);
    assert!(check_retaliation(&attacker, &barely));
    let mut unable = fresh(200, 200);
    unable.can_retaliate = false;
    unable.forced_retaliation = Some(true);
    assert!(!check_retaliation(&attacker, &unable));
    let mut forcing = fresh(200, 200);
    forcing.forced_retaliation = Some(true);
    assert!(!check_retaliation(&forcing, &spent));
}

#[test]
fn check_retaliation_default_rule() {
    let melee = fresh(200, 200);
    let mut ranged = fresh(200, 200);
    ranged.ranged = true;
    assert!(check_retaliation(&melee, &melee));
    assert!(check_retaliation(&melee, &ranged));
    assert!(!check_retaliation(&ranged, &melee));
    assert!(check_retaliation(&ranged, &ranged));
}

#[test]
fn battle_converted_defender_is_left_alone() {
    let mut attacker = fresh(500, 100);
    attacker.can_freeze = true;
    let mut defender = fresh(200, 200);
    defender.converted = true;
    let attacker_before = attacker.clone();
    let defender_before = defender.clone();
    battle(&mut attacker, &mut defender);
    assert_eq!(attacker, attacker_before);
    assert_eq!(defender, defender_before);
}

#[test]
fn battle_without_attack_still_converts() {
    let mut attacker = fresh(0, 100);
    attacker.can_convert = true;
    let mut defender = fresh(200, 200);
    battle(&mut attacker, &mut defender);
    assert!(defender.converted);
    assert!(!defender.frozen);
    assert_eq!(defender.health, 1000);
    assert_eq!(attacker.health, 1000);
}

#[test]
fn battle_freezes_after_the_attack() {
    let mut attacker = fresh(100, 100);
    attacker.can_freeze = true;
    attacker.ranged = true;
    let mut defender = fresh(200, 200);
    battle(&mut attacker, &mut defender);
    assert_eq!(defender.health, 800);
    assert!(defender.frozen);
    assert!(!defender.converted);
    assert_eq!(attacker.health, 1000);
}

#[test]
fn battle_conversion_comes_before_freezing() {
    let mut attacker = fresh(100, 100);
    attacker.can_freeze = true;
    attacker.can_convert = true;
    let mut defender = fresh(200, 200);
    battle(&mut attacker, &mut defender);
    assert_eq!(defender.health, 800);
    assert_eq!(attacker.health, 400);
    assert!(defender.converted);
    assert!(!defender.frozen);
}

#[test]
fn battle_dead_attacker_does_not_convert() {
    let mut attacker = fighter(100, 100, 300, 1000);
    attacker.can_convert = true;
    let mut defender = fighter(500, 500, 4000, 4000);
    defender.defence_with_bonus = 2000;
    battle(&mut attacker, &mut defender);
    assert_eq!(attacker.health, -1900);
    assert!(!defender.converted);
    assert_eq!(defender.health, 4000);
}

#[test]
fn battle_attacker_without_health_does_not_convert() {
    let mut attacker = fighter(100, 100, 0, 1000);
    attacker.can_convert = true;
    attacker.ranged = true;
    let mut defender = fresh(500, 500);
    battle(&mut attacker, &mut defender);
    assert!(!defender.converted);
    assert_eq!(defender.health, 1000);
    assert_eq!(attacker.health, 0);
}

#[test]
fn battle_plain_attacker_only_attacks() {
    let mut attacker = fresh(200, 200);
    let mut defender = fresh(200, 200);
    battle(&mut attacker, &mut defender);
    assert_eq!(defender.health, 500);
    assert_eq!(attacker.health, 500);
    assert!(!defender.frozen);
    assert!(!defender.converted);
}

#[test]
fn battle_many_attacks_in_order() {
    let mut ranged = fighter(300, 100, 1500, 1500);
    ranged.ranged = true;
    let mut freezer = fresh(100, 300);
    freezer.can_freeze = true;
    let mut defender = fighter(300, 300, 2000, 2000);
    defender.defence_with_bonus = 450;
    let mut state = BattleState { attackers: vec![fresh(200, 200), ranged, freezer], defender };
    battle_many(&mut state);
    assert_eq!(state.attackers.len(), 3);
    assert_eq!(state.attackers[0].health, 100);
    assert_eq!(state.attackers[1].health, 1500);
    // the third is left without health by the retaliation, and so does not freeze
    assert_eq!(state.attackers[2].health, 0);
    assert_eq!(state.defender.health, 1000);
    assert!(!state.defender.frozen);
}

#[test]
fn battle_many_order_matters() {
    let mut ranged = fighter(300, 100, 1500, 1500);
    ranged.ranged = true;
    let mut freezer = fresh(100, 300);
    freezer.can_freeze = true;
    let mut defender = fighter(300, 300, 2000, 2000);
    defender.defence_with_bonus = 450;
    let mut state = BattleState { attackers: vec![freezer, ranged, fresh(200, 200)], defender };
    battle_many(&mut state);
    assert_eq!(state.attackers[0].health, -100);
    assert_eq!(state.attackers[1].health, 1500);
    assert_eq!(state.attackers[2].health, 200);
    assert_eq!(state.defender.health, 900);
}

#[test]
fn battle_many_without_attackers() {
    let defender = fresh(300, 300);
    let mut state = BattleState { attackers: vec![], defender: defender.clone() };
    battle_many(&mut state);
    assert!(state.attackers.is_empty());
    assert_eq!(state.defender, defender);
}

#[test]
fn battle_many_stops_at_conversion() {
    let mut converter = fresh(0, 100);
    converter.can_convert = true;
    let strong = fresh(500, 100);
    let wounded = fighter(300, 300, 400, 1000);
    let defender = fighter(300, 300, 2000, 2000);
    let mut state = BattleState {
        attackers: vec![fresh(200, 200), converter.clone(), strong.clone(), wounded.clone()],
        defender,
    };
    battle_many(&mut state);
    assert_eq!(state.attackers[0].health, 200);
    assert_eq!(state.attackers[1], converter);
    assert_eq!(state.attackers[2], strong);
    assert_eq!(state.attackers[3], wounded);
    assert_eq!(state.defender.health, 1600);
    assert!(state.defender.converted);
    assert!(!state.defender.frozen);
}

#[test]
fn battle_many_frozen_defender_takes_damage_without_retaliating() {
    let mut freezer = fresh(100, 100);
    freezer.can_freeze = true;
    freezer.ranged = true;
    let defender = fighter(300, 300, 2000, 2000);
    let mut state =
        BattleState { attackers: vec![freezer, fresh(200, 200), fresh(200, 200)], defender };
    battle_many(&mut state);
    assert_eq!(state.attackers[0].health, 1000);
    assert_eq!(state.attackers[1].health, 1000);
    assert_eq!(state.attackers[2].health, 1000);
    assert_eq!(state.defender.health, 1100);
    assert!(state.defender.frozen);
    assert!(!state.defender.converted);
}

#[test]
fn battle_state_report() {
    let mut defender = fresh(300, 300);
    defender.health = -250;
    defender.frozen = true;
    let mut first = fresh(200, 200);
    first.health = 700;
    let mut second = fresh(200, 200);
    second.health = -100;
    let state = BattleState { attackers: vec![first, second], defender };
    let report = state.report();
    assert_eq!(report.attackers, vec![700, -100]);
    assert_eq!(report.defender, -250);
    assert!(report.frozen);
    assert!(!report.converted);
    let empty = BattleState { attackers: vec![], defender: fresh(100, 100) };
    assert!(empty.report().attackers.is_empty());
}

#[test]
fn battle_state_readiness() {
    let state = BattleState { attackers: vec![fresh(200, 200)], defender: fresh(300, 300) };
    assert!(state.is_ready());
    let mut far = fresh(200, 200);
    far.health = 100_000_001;
    let state = BattleState { attackers: vec![fresh(200, 200), far], defender: fresh(300, 300) };
    assert!(!state.is_ready());
    let mut odd = fresh(300, 300);
    odd.max_health = 0;
    let state = BattleState { attackers: vec![], defender: odd };
    assert!(!state.is_ready());
    let mut crowd = vec![];
    for _ in 0..255 {
        crowd.push(fresh(100, 100));
    }
    let state = BattleState { attackers: crowd, defender: fresh(300, 300) };
    assert!(state.is_ready());
    let mut crowd = vec![];
    for _ in 0..256 {
        crowd.push(fresh(100, 100));
    }
    let state = BattleState { attackers: crowd, defender: fresh(300, 300) };
    assert!(!state.is_ready());
}

#[test]
fn battle_many_full_crowd_at_the_limits() {
    // every figure at its limit: the arithmetic must hold
    let mut crowd = vec![];
    for k in 0..255 {
        let mut unit = fighter(10_000, 10_000, 100_000_000, 10_500);
        if k % 2 == 1 {
            unit.health = -100_000_000;
        }
        crowd.push(unit);
    }
    let mut defender = fighter(10_000, 10_000, -100_000_000, 10_500);
    defender.defence_with_bonus = 60_050;
    let mut state = BattleState { attackers: crowd, defender };
    battle_many(&mut state);
    assert_eq!(state.attackers.len(), 255);
}

/// The integer nearest to `num / den`, a half going away from zero, found by
/// trying the neighbours of the truncated quotient.
fn nearest(num: i128, den: i128) -> i128 {
    let base = num / den;
    let mut best = base;
    for candidate in [base - 1, base, base + 1] {
        let gap = (2 * num - 2 * candidate * den).abs();
        let best_gap = (2 * num - 2 * best * den).abs();
        if gap < best_gap || (gap == best_gap && candidate.abs() > best.abs()) {
            best = candidate;
        }
    }
    best
}

fn next_random(seed: &mut u64) -> i128 {
    *seed = seed.wrapping_mul(6364136223846793005).wrapping_add(1442695040888963407);
    ((*seed >> 33) % 100_000) as i128
}

#[test]
fn attack_matches_the_formula_on_many_inputs() {
    let mut seed: u64 = 2024;
    for _ in 0..2000 {
        let mut attacker = fighter(
            next_random(&mut seed) % 1000,
            next_random(&mut seed) % 1000,
            next_random(&mut seed) % 6000 - 1000,
            next_random(&mut seed) % 4000 + 1,
        );
        attacker.ranged = next_random(&mut seed) % 2 == 0;
        let mut defender = fighter(
            next_random(&mut seed) % 1000,
            next_random(&mut seed) % 1000,
            next_random(&mut seed) % 6000 - 1000,
            next_random(&mut seed) % 4000 + 1,
        );
        defender.defence_with_bonus = next_random(&mut seed) % 3000;
        let a = attacker.clone();
        let d = defender.clone();
        attack(&mut attacker, &mut defender);
        let attack_side = a.attack * a.health * d.max_health;
        let defence_side = d.defence_with_bonus * d.health * a.max_health;
        let balance = attack_side + defence_side;
        let (blow, counter_blow) = if balance == 0 {
            (0, 0)
        } else {
            (
                nearest(9 * a.attack * attack_side, 200 * balance),
                nearest(9 * d.defence * defence_side, 200 * balance),
            )
        };
        assert_eq!(defender.health, d.health - 100 * blow);
        let strikes_back = defender.health > 0 && d.can_retaliate && (!a.ranged || d.ranged);
        let expected = if strikes_back { a.health - 100 * counter_blow } else { a.health };
        assert_eq!(attacker.health, expected);
    }
}
