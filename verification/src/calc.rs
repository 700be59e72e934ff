//! Battles: one attack, one encounter, a sequence of attackers against one
//! defender, the comparison of two outcomes, and the search for the best order
//! of attack.
//!
//! The damage formula works on forces, a unit's strength scaled by the share
//! of its health that is left:
//!
//! ```text
//! attack force  = attack * health / full health            (of the attacker)
//! defence force = bonus defence * health / full health     (of the defender)
//! damage        = round(attack force * attack * 4.5 / (attack force + defence force))
//! retaliation   = round(defence force * defence * 4.5 / (attack force + defence force))
//! ```
//!
//! To stay in whole numbers, both forces are taken over the common divisor
//! `SCALE * attacker's full health * defender's full health`, which is
//! positive. `attack_force` and `defence_force` below are the numerators; the
//! quotients of the formula do not change.

use crate::arith::{
    abs, lemma_product_bound, lemma_round_half_away_scaled, round_div, round_half_away, SCALE,
};
use crate::units::{
    find_template, lemma_modified_defence_range, Unit, UnitType, UnitTypeList,
    START_HEALTH_LIMIT,
};
use crate::permuter::{
    attacker_permuatations, factorial, lemma_factorial_positive, lemma_orderings_are_permutations,
    orderings,
};
use vstd::prelude::*;

verus! {

/// The attacker's force, over the common divisor.
pub open spec fn attack_force(attacker: Unit, defender: Unit) -> int {
    attacker.attack * attacker.health * defender.max_health
}

/// The defender's force, over the common divisor.
pub open spec fn defence_force(attacker: Unit, defender: Unit) -> int {
    defender.defence_with_bonus * defender.health * attacker.max_health
}

/// The sum of the two forces, over the common divisor. It is zero exactly when
/// the forces cancel, which leaves the damage formula without a value.
pub open spec fn force_balance(attacker: Unit, defender: Unit) -> int {
    attack_force(attacker, defender) + defence_force(attacker, defender)
}

/// The damage, in whole points, that the attacker does to the defender.
/// Where the forces cancel (both are zero, or one is the negative of the
/// other) no damage is done.
pub open spec fn damage(attacker: Unit, defender: Unit) -> int {
    let balance = force_balance(attacker, defender);
    if balance == 0 {
        0
    } else {
        round_half_away(
            9 * (attacker.attack * attack_force(attacker, defender)),
            2 * SCALE * balance,
        )
    }
}

/// The damage, in whole points, that the defender does in return, reckoned
/// from the defender's health before the attack. Zero where the forces
/// cancel.
pub open spec fn retaliation_damage(attacker: Unit, defender: Unit) -> int {
    let balance = force_balance(attacker, defender);
    if balance == 0 {
        0
    } else {
        round_half_away(
            9 * (defender.defence * defence_force(attacker, defender)),
            2 * SCALE * balance,
        )
    }
}

/// Whether the defender strikes back. A frozen or converted defender, one
/// with no health left, and one that cannot retaliate never do. Otherwise the
/// attacker's override decides, then the defender's; without either, the
/// defender strikes back unless the attacker is ranged and the defender is
/// not.
pub open spec fn should_retaliate(attacker: Unit, defender: Unit) -> bool {
    if defender.frozen || defender.converted {
        false
    } else if defender.health <= 0 {
        false
    } else if !defender.can_retaliate {
        false
    } else if attacker.forced_retaliation is Some {
        attacker.forced_retaliation->0
    } else if defender.forced_retaliation is Some {
        defender.forced_retaliation->0
    } else {
        !attacker.ranged || defender.ranged
    }
}

/// The defender after the attacker's blow.
pub open spec fn struck(attacker: Unit, defender: Unit) -> Unit {
    Unit { health: (defender.health - SCALE * damage(attacker, defender)) as i128, ..defender }
}

/// Attacker and defender after one attack: the defender takes the damage,
/// and the attacker the retaliation if the defender, as the blow left it,
/// strikes back.
pub open spec fn attack_outcome(attacker: Unit, defender: Unit) -> (Unit, Unit) {
    let hit = struck(attacker, defender);
    if should_retaliate(attacker, hit) {
        (
            Unit {
                health: (attacker.health - SCALE * retaliation_damage(attacker, defender)) as i128,
                ..attacker
            },
            hit,
        )
    } else {
        (attacker, hit)
    }
}

/// The numbers of one attack stay within the machine's integers.
proof fn lemma_attack_fits(attacker: Unit, defender: Unit)
    requires
        attacker.in_range(),
        defender.in_range(),
    ensures
        -10_000_000_000_000_000_000_000_000_000 <= attacker.attack * attacker.health
            <= 10_000_000_000_000_000_000_000_000_000,
        -105_000_000_000_000_000_000_000_000_000_000 <= attack_force(attacker, defender)
            <= 105_000_000_000_000_000_000_000_000_000_000,
        -60_050_000_000_000_000_000_000_000_000 <= defender.defence_with_bonus * defender.health
            <= 60_050_000_000_000_000_000_000_000_000,
        -630_525_000_000_000_000_000_000_000_000_000 <= defence_force(attacker, defender)
            <= 630_525_000_000_000_000_000_000_000_000_000,
        -1_050_000_000_000_000_000_000_000_000_000_000_000 <= attacker.attack * attack_force(
            attacker,
            defender,
        ) <= 1_050_000_000_000_000_000_000_000_000_000_000_000,
        -6_305_250_000_000_000_000_000_000_000_000_000_000 <= defender.defence * defence_force(
            attacker,
            defender,
        ) <= 6_305_250_000_000_000_000_000_000_000_000_000_000,
        -4_725_000_000_000_000_000_000_000_000_000_000_050 <= SCALE * damage(attacker, defender)
            <= 4_725_000_000_000_000_000_000_000_000_000_000_050,
        -28_373_625_000_000_000_000_000_000_000_000_000_050 <= SCALE * retaliation_damage(
            attacker,
            defender,
        ) <= 28_373_625_000_000_000_000_000_000_000_000_000_050,
{
    let a = attacker.attack as int;
    let ha = attacker.health as int;
    let ma = attacker.max_health as int;
    let d = defender.defence as int;
    let db = defender.defence_with_bonus as int;
    let hd = defender.health as int;
    let md = defender.max_health as int;
    lemma_product_bound(a, ha, 10_000, 1_000_000_000_000_000_000_000_000);
    lemma_product_bound(a * ha, md, 10_000_000_000_000_000_000_000_000_000, 10_500);
    lemma_product_bound(db, hd, 60_050, 1_000_000_000_000_000_000_000_000);
    lemma_product_bound(db * hd, ma, 60_050_000_000_000_000_000_000_000_000, 10_500);
    lemma_product_bound(a, a * ha * md, 10_000, 105_000_000_000_000_000_000_000_000_000_000);
    lemma_product_bound(d, db * hd * ma, 10_000, 630_525_000_000_000_000_000_000_000_000_000);
    let balance = force_balance(attacker, defender);
    if balance != 0 {
        let divisor = 2 * SCALE * balance;
        assert(divisor == 200 * balance);
        assert(abs(divisor) >= 200);
        lemma_round_half_away_scaled(9 * (a * (a * ha * md)), divisor, 100);
        lemma_round_half_away_scaled(9 * (d * (db * hd * ma)), divisor, 100);
    }
}

/// The damage and the retaliation damage of one attack, in whole points.
fn blows(attacker: &Unit, defender: &Unit) -> (dealt: (i128, i128))
    requires
        attacker.in_range(),
        defender.in_range(),
    ensures
        dealt.0 == damage(*attacker, *defender),
        dealt.1 == retaliation_damage(*attacker, *defender),
        -4_725_000_000_000_000_000_000_000_000_000_000_050 <= SCALE * dealt.0
            <= 4_725_000_000_000_000_000_000_000_000_000_000_050,
        -28_373_625_000_000_000_000_000_000_000_000_000_050 <= SCALE * dealt.1
            <= 28_373_625_000_000_000_000_000_000_000_000_000_050,
{
    proof {
        lemma_attack_fits(*attacker, *defender);
    }
    let attack_side: i128 = attacker.attack * attacker.health * defender.max_health;
    let defence_side: i128 = defender.defence_with_bonus * defender.health * attacker.max_health;
    let balance: i128 = attack_side + defence_side;
    if balance == 0 {
        return (0, 0);
    }
    let divisor: i128 = 2 * SCALE * balance;
    let blow: i128 = round_div(9 * (attacker.attack * attack_side), divisor);
    let counter_blow: i128 = round_div(9 * (defender.defence * defence_side), divisor);
    (blow, counter_blow)
}

/// Tells whether the defender strikes back at the attacker.
pub fn check_retaliation(attacker: &Unit, defender: &Unit) -> (strikes_back: bool)
    ensures
        strikes_back == should_retaliate(*attacker, *defender),
{
    if defender.frozen || defender.converted {
        false
    } else if defender.health <= 0 {
        false
    } else if !defender.can_retaliate {
        false
    } else if attacker.forced_retaliation.is_some() {
        attacker.forced_retaliation.unwrap()
    } else if defender.forced_retaliation.is_some() {
        defender.forced_retaliation.unwrap()
    } else {
        !attacker.ranged || defender.ranged
    }
}

/// One attack: the defender takes the damage, and strikes back if it can.
/// Where the forces cancel nothing happens.
pub fn attack(attacker: &mut Unit, defender: &mut Unit)
    requires
        old(attacker).in_range(),
        old(defender).in_range(),
    ensures
        (*final(attacker), *final(defender)) == attack_outcome(*old(attacker), *old(defender)),
        final(defender).health == old(defender).health - SCALE * damage(
            *old(attacker),
            *old(defender),
        ),
        final(attacker).health == old(attacker).health - (if should_retaliate(
            *old(attacker),
            *final(defender),
        ) {
            SCALE * retaliation_damage(*old(attacker), *old(defender))
        } else {
            0
        }),
{
    let (blow, counter_blow) = blows(attacker, defender);
    defender.health = defender.health - SCALE * blow;
    if check_retaliation(attacker, defender) {
        attacker.health = attacker.health - SCALE * counter_blow;
    }
}

/// Attacker and defender after one encounter. A converted defender is out of
/// the engagement: nothing happens. Otherwise the attacker attacks if it has
/// any attack, and if it then has health left it converts the defender if it
/// can, or else freezes it if it can.
pub open spec fn battle_outcome(attacker: Unit, defender: Unit) -> (Unit, Unit) {
    if defender.converted {
        (attacker, defender)
    } else {
        let (fought, hit) = if attacker.attack > 0 {
            attack_outcome(attacker, defender)
        } else {
            (attacker, defender)
        };
        if fought.health > 0 && fought.can_convert {
            (fought, Unit { converted: true, ..hit })
        } else if fought.health > 0 && fought.can_freeze {
            (fought, Unit { frozen: true, ..hit })
        } else {
            (fought, hit)
        }
    }
}

/// Greatest change of a defender's health, in raw units, under the blow of an
/// attacker that is at its start.
pub const BLOW_LIMIT: i128 = 500_000_000_000_000_000_000;

/// An encounter changes nothing of the attacker but its health, and nothing
/// of the defender but its health and its frozen and converted marks. It sets
/// these marks and never clears them.
pub proof fn lemma_battle_outcome_frame(attacker: Unit, defender: Unit)
    ensures
        ({
            let (fought, hit) = battle_outcome(attacker, defender);
            &&& fought == Unit { health: fought.health, ..attacker }
            &&& hit == Unit {
                health: hit.health,
                frozen: hit.frozen,
                converted: hit.converted,
                ..defender
            }
            &&& defender.frozen ==> hit.frozen
            &&& defender.converted ==> hit.converted
        }),
{
}

/// The blow of an attacker that is at its start moves the health of a
/// defender that is in range by at most `BLOW_LIMIT`.
pub proof fn lemma_battle_outcome_range(attacker: Unit, defender: Unit)
    requires
        attacker.at_start(),
        defender.in_range(),
    ensures
        ({
            let (fought, hit) = battle_outcome(attacker, defender);
            defender.health - BLOW_LIMIT <= hit.health <= defender.health + BLOW_LIMIT
        }),
{
    lemma_attack_fits(attacker, defender);
    let a = attacker.attack as int;
    let ha = attacker.health as int;
    let md = defender.max_health as int;
    lemma_product_bound(a, ha, 10_000, 100_000_000);
    lemma_product_bound(a * ha, md, 1_000_000_000_000, 10_500);
    lemma_product_bound(a, a * ha * md, 10_000, 10_500_000_000_000_000);
    let balance = force_balance(attacker, defender);
    if balance != 0 {
        let divisor = 2 * SCALE * balance;
        assert(divisor == 200 * balance);
        assert(abs(divisor) >= 200);
        lemma_round_half_away_scaled(9 * (a * (a * ha * md)), divisor, 100);
    }
}

/// One encounter of an attacker with the defender: the attack, if the
/// attacker has any, and then the conversion or the freezing of the defender,
/// if the attacker has health left and the ability. Nothing happens to either
/// unit where the defender is converted already.
pub fn battle(attacker: &mut Unit, defender: &mut Unit)
    requires
        old(attacker).in_range(),
        old(defender).in_range(),
    ensures
        (*final(attacker), *final(defender)) == battle_outcome(*old(attacker), *old(defender)),
        old(defender).converted ==> *final(attacker) == *old(attacker) && *final(defender) == *old(
            defender,
        ),
{
    if defender.converted {
        return ;
    }
    if attacker.attack > 0 {
        attack(attacker, defender);
    }
    if attacker.health > 0 {
        if attacker.can_convert {
            defender.converted = true;
        } else if attacker.can_freeze {
            defender.frozen = true;
        }
    }
}

/// Most attackers that a battle may have.
pub const MAX_ATTACKERS: usize = 255;

/// A battle: the attackers, in the order in which they attack, and the one
/// defender.
#[derive(Debug)]
pub struct BattleState {
    pub attackers: Vec<Unit>,
    pub defender: Unit,
}

/// What a battle state holds.
pub ghost struct BattleView {
    pub attackers: Seq<Unit>,
    pub defender: Unit,
}

impl View for BattleState {
    type V = BattleView;

    open spec fn view(&self) -> BattleView {
        BattleView { attackers: self.attackers@, defender: self.defender }
    }
}

/// How many of `units` are dead: have health below zero. A unit with no
/// health left, but not less, is not counted.
pub open spec fn dead_among(units: Seq<Unit>) -> nat
    decreases units.len(),
{
    if units.len() == 0 {
        0
    } else {
        dead_among(units.drop_last()) + (if units.last().health < 0 {
            1nat
        } else {
            0nat
        })
    }
}

impl BattleView {
    /// The battle can be fought: it has no more than `MAX_ATTACKERS`
    /// attackers and every unit is at its start.
    pub open spec fn ready(self) -> bool {
        &&& self.attackers.len() <= MAX_ATTACKERS
        &&& self.defender.at_start()
        &&& forall|i: int| 0 <= i < self.attackers.len() ==> (#[trigger] self.attackers[i]).at_start()
    }

    /// Whether this state is better for the attackers than `other` by what
    /// became of the defender. A converted defender beats one that is not.
    /// Between two converted defenders the better unit wins; between two that
    /// are not, the worse one. `None` where the defenders do not decide.
    pub open spec fn defender_preference(self, other: BattleView) -> Option<bool> {
        let units = self.defender.preference(other.defender);
        if self.defender.converted {
            if !other.defender.converted {
                Some(true)
            } else {
                units
            }
        } else if other.defender.converted {
            Some(false)
        } else {
            match units {
                Some(better) => Some(!better),
                None => None,
            }
        }
    }

    /// How many attackers are dead.
    pub open spec fn dead_count(self) -> nat {
        dead_among(self.attackers)
    }

    /// Whether this state is better than `other`: by the defenders where they
    /// decide, and else by having fewer dead attackers. With as many dead on
    /// both sides this state is not the better one.
    pub open spec fn better_than(self, other: BattleView) -> bool {
        match self.defender_preference(other) {
            Some(better) => better,
            None => self.dead_count() < other.dead_count(),
        }
    }
}

impl BattleState {
    /// Tells whether the battle can be fought.
    pub fn is_ready(&self) -> (ok: bool)
        ensures
            ok == self@.ready(),
    {
        if self.attackers.len() > MAX_ATTACKERS || !self.defender.is_at_start() {
            return false;
        }
        let mut i: usize = 0;
        while i < self.attackers.len()
            invariant
                i <= self.attackers@.len(),
                forall|k: int| 0 <= k < i ==> (#[trigger] self.attackers@[k]).at_start(),
            decreases self.attackers@.len() - i,
        {
            if !self.attackers[i].is_at_start() {
                return false;
            }
            i += 1;
        }
        true
    }

    /// Tells whether this state is better for the attackers than `other` by
    /// what became of the defender, or `None` where the defenders do not
    /// decide.
    pub fn defender_is_better(&self, other: &BattleState) -> (verdict: Option<bool>)
        ensures
            verdict == self@.defender_preference(other@),
    {
        let units = self.defender.is_better_than(&other.defender);
        if self.defender.converted {
            if !other.defender.converted {
                Some(true)
            } else {
                units
            }
        } else if other.defender.converted {
            Some(false)
        } else {
            match units {
                Some(better) => Some(!better),
                None => None,
            }
        }
    }

    /// Counts the attackers whose health is below zero.
    pub fn count_dead(&self) -> (count: u8)
        requires
            self.attackers@.len() <= MAX_ATTACKERS,
        ensures
            count == self@.dead_count(),
    {
        let mut count: u8 = 0;
        let mut i: usize = 0;
        while i < self.attackers.len()
            invariant
                i <= self.attackers@.len() <= MAX_ATTACKERS,
                count == dead_among(self.attackers@.take(i as int)),
                count <= i,
            decreases self.attackers@.len() - i,
        {
            proof {
                assert(self.attackers@.take(i + 1).drop_last() == self.attackers@.take(i as int));
            }
            if self.attackers[i].health < 0 {
                count += 1;
            }
            i += 1;
        }
        proof {
            assert(self.attackers@.take(i as int) == self.attackers@);
        }
        count
    }

    /// Tells whether this state has fewer dead attackers than `other`. With
    /// as many dead in both, the answer is no: `other` is preferred, whatever
    /// health the survivors have.
    pub fn attackers_are_better(&self, other: &BattleState) -> (better: bool)
        requires
            self.attackers@.len() <= MAX_ATTACKERS,
            other.attackers@.len() <= MAX_ATTACKERS,
        ensures
            better == (self@.dead_count() < other@.dead_count()),
            self@.dead_count() == other@.dead_count() ==> !better,
    {
        let this_dead = self.count_dead();
        let other_dead = other.count_dead();
        this_dead < other_dead
    }

    /// Tells whether this state is better for the attackers than `other`: by
    /// the defenders where they decide, and else by the dead attackers.
    pub fn is_better_than(&self, other: &BattleState) -> (better: bool)
        requires
            self.attackers@.len() <= MAX_ATTACKERS,
            other.attackers@.len() <= MAX_ATTACKERS,
        ensures
            better == self@.better_than(other@),
    {
        match self.defender_is_better(other) {
            Some(better) => better,
            None => self.attackers_are_better(other),
        }
    }
}

impl BattleView {
    /// The battle of the first `count` attackers only.
    pub open spec fn first(self, count: int) -> BattleView {
        BattleView { attackers: self.attackers.take(count), defender: self.defender }
    }
}

/// The state after every attacker, in order, has had its encounter with the
/// defender: each attacker meets the defender as the attackers before it left
/// it.
pub open spec fn sequence_outcome(state: BattleView) -> BattleView
    decreases state.attackers.len(),
{
    if state.attackers.len() == 0 {
        state
    } else {
        let earlier = sequence_outcome(
            BattleView { attackers: state.attackers.drop_last(), defender: state.defender },
        );
        let (fought, hit) = battle_outcome(state.attackers.last(), earlier.defender);
        BattleView { attackers: earlier.attackers.push(fought), defender: hit }
    }
}

/// A battle changes nothing of an attacker but its health, and nothing of the
/// defender but its health and its frozen and converted marks, which it sets
/// and never clears. There are as many attackers after it as before.
pub proof fn lemma_sequence_outcome_frame(state: BattleView)
    ensures
        ({
            let after = sequence_outcome(state);
            &&& after.attackers.len() == state.attackers.len()
            &&& forall|i: int|
                0 <= i < state.attackers.len() ==> (#[trigger] after.attackers[i]) == (Unit {
                    health: after.attackers[i].health,
                    ..state.attackers[i]
                })
            &&& after.defender == Unit {
                health: after.defender.health,
                frozen: after.defender.frozen,
                converted: after.defender.converted,
                ..state.defender
            }
            &&& state.defender.frozen ==> after.defender.frozen
            &&& state.defender.converted ==> after.defender.converted
        }),
    decreases state.attackers.len(),
{
    if state.attackers.len() > 0 {
        let shorter = BattleView {
            attackers: state.attackers.drop_last(),
            defender: state.defender,
        };
        lemma_sequence_outcome_frame(shorter);
        let earlier = sequence_outcome(shorter);
        lemma_battle_outcome_frame(state.attackers.last(), earlier.defender);
        let after = sequence_outcome(state);
        assert forall|i: int| 0 <= i < state.attackers.len() implies (
        #[trigger] after.attackers[i]) == (Unit {
            health: after.attackers[i].health,
            ..state.attackers[i]
        }) by {
            if i < shorter.attackers.len() {
                assert(after.attackers[i] == earlier.attackers[i]);
                assert(shorter.attackers[i] == state.attackers[i]);
            }
        }
    }
}

/// A battle that is ready leaves its defender in range: after `count`
/// attackers the defender's health has moved by at most `count` blows, and
/// its other figures not at all. There are as many attackers after the battle
/// as before.
pub proof fn lemma_sequence_outcome_range(state: BattleView)
    requires
        state.ready(),
    ensures
        ({
            let after = sequence_outcome(state);
            &&& after.attackers.len() == state.attackers.len()
            &&& after.defender.in_range()
            &&& state.defender.health - state.attackers.len() * BLOW_LIMIT <= after.defender.health
                <= state.defender.health + state.attackers.len() * BLOW_LIMIT
        }),
    decreases state.attackers.len(),
{
    if state.attackers.len() > 0 {
        let shorter = BattleView {
            attackers: state.attackers.drop_last(),
            defender: state.defender,
        };
        assert forall|i: int| 0 <= i < shorter.attackers.len() implies (
        #[trigger] shorter.attackers[i]).at_start() by {
            assert(shorter.attackers[i] == state.attackers[i]);
        }
        lemma_sequence_outcome_range(shorter);
        let earlier = sequence_outcome(shorter);
        assert(state.attackers.last() == state.attackers[state.attackers.len() - 1]);
        lemma_battle_outcome_frame(state.attackers.last(), earlier.defender);
        lemma_battle_outcome_range(state.attackers.last(), earlier.defender);
    }
}

/// Once the defender is converted the battle is over: if the first `count`
/// attackers leave the defender converted, the attackers after them leave the
/// battle as they entered it, and the defender stays as those first left it.
pub proof fn lemma_converted_defender_ends_battle(state: BattleView, count: int)
    requires
        0 <= count <= state.attackers.len(),
        sequence_outcome(state.first(count)).defender.converted,
    ensures
        sequence_outcome(state).defender == sequence_outcome(state.first(count)).defender,
        sequence_outcome(state).attackers == sequence_outcome(state.first(count)).attackers
            + state.attackers.skip(count),
    decreases state.attackers.len(),
{
    let decided = sequence_outcome(state.first(count));
    if count == state.attackers.len() {
        assert(state.first(count).attackers == state.attackers);
        assert(state.attackers.skip(count) == Seq::<Unit>::empty());
        assert(decided.attackers + Seq::<Unit>::empty() == decided.attackers);
    } else {
        let shorter = BattleView {
            attackers: state.attackers.drop_last(),
            defender: state.defender,
        };
        assert(shorter.first(count).attackers == state.first(count).attackers);
        lemma_converted_defender_ends_battle(shorter, count);
        let earlier = sequence_outcome(shorter);
        assert(earlier.attackers.push(state.attackers.last()) == decided.attackers
            + state.attackers.skip(count));
    }
}

/// Fights the battle: every attacker, in order, has its encounter with the
/// defender. A later attacker meets the defender as the earlier ones left it.
pub fn battle_many(state: &mut BattleState)
    requires
        old(state)@.ready(),
    ensures
        final(state)@ == sequence_outcome(old(state)@),
{
    let ghost before = state@;
    let count = state.attackers.len();
    let mut i: usize = 0;
    proof {
        assert(before.first(0).attackers == Seq::<Unit>::empty());
        assert(state.attackers@.take(0) == Seq::<Unit>::empty());
    }
    while i < count
        invariant
            before.ready(),
            count == before.attackers.len(),
            count == state.attackers@.len(),
            i <= count,
            forall|k: int| i <= k < count ==> state.attackers@[k] == before.attackers[k],
            state@.first(i as int) == sequence_outcome(before.first(i as int)),
        decreases count - i,
    {
        proof {
            let fought = before.first(i as int);
            assert forall|k: int| 0 <= k < fought.attackers.len() implies (
            #[trigger] fought.attackers[k]).at_start() by {
                assert(fought.attackers[k] == before.attackers[k]);
            }
            lemma_sequence_outcome_range(fought);
            assert(i * BLOW_LIMIT <= 255 * BLOW_LIMIT) by (nonlinear_arith)
                requires
                    i <= 255,
            ;
            assert(before.first(i + 1).attackers.drop_last() == before.first(i as int).attackers);
            assert(before.first(i + 1).attackers.last() == before.attackers[i as int]);
        }
        let ghost earlier = state@;
        battle(&mut state.attackers[i], &mut state.defender);
        proof {
            assert(state@.first(i + 1).attackers == earlier.first(i as int).attackers.push(
                state.attackers@[i as int],
            ));
        }
        i += 1;
    }
    proof {
        assert(state@.first(count as int).attackers == state@.attackers);
        assert(before.first(count as int).attackers == before.attackers);
    }
}

/// `units` in the order that `order` gives: the unit at `order[0]` first.
pub open spec fn arranged(units: Seq<Unit>, order: Seq<usize>) -> Seq<Unit> {
    Seq::new(order.len(), |k: int| units[order[k] as int])
}

impl BattleView {
    /// The battle with its attackers in the order that `order` gives.
    pub open spec fn reordered(self, order: Seq<usize>) -> BattleView {
        BattleView { attackers: arranged(self.attackers, order), defender: self.defender }
    }
}

/// The order that the search through `orders` retains, with the outcome of
/// the battle fought in that order. The first order is retained until a later
/// one has a better outcome than the one retained; an outcome that is merely
/// as good does not replace it.
pub open spec fn best_of(state: BattleView, orders: Seq<Seq<usize>>) -> (Seq<usize>, BattleView)
    recommends
        orders.len() > 0,
    decreases orders.len(),
{
    if orders.len() <= 1 {
        (orders[0], sequence_outcome(state.reordered(orders[0])))
    } else {
        let (retained_order, retained) = best_of(state, orders.drop_last());
        let candidate = sequence_outcome(state.reordered(orders.last()));
        if candidate.better_than(retained) {
            (orders.last(), candidate)
        } else {
            (retained_order, retained)
        }
    }
}

/// What the search retains: one of the orders it went through, with the
/// outcome of the battle fought in that order, and no order after that one has
/// a better outcome.
pub proof fn lemma_best_of_retained(state: BattleView, orders: Seq<Seq<usize>>)
    requires
        orders.len() > 0,
    ensures
        exists|k: int|
            {
                &&& 0 <= k < orders.len()
                &&& best_of(state, orders).0 == #[trigger] orders[k]
                &&& best_of(state, orders).1 == sequence_outcome(state.reordered(orders[k]))
                &&& forall|j: int|
                    k < j < orders.len() ==> !sequence_outcome(
                        state.reordered(#[trigger] orders[j]),
                    ).better_than(best_of(state, orders).1)
            },
    decreases orders.len(),
{
    if orders.len() <= 1 {
        assert(best_of(state, orders).0 == orders[0]);
    } else {
        let earlier = orders.drop_last();
        lemma_best_of_retained(state, earlier);
        let k = choose|k: int|
            {
                &&& 0 <= k < earlier.len()
                &&& best_of(state, earlier).0 == #[trigger] earlier[k]
                &&& best_of(state, earlier).1 == sequence_outcome(state.reordered(earlier[k]))
                &&& forall|j: int|
                    k < j < earlier.len() ==> !sequence_outcome(
                        state.reordered(#[trigger] earlier[j]),
                    ).better_than(best_of(state, earlier).1)
            };
        let candidate = sequence_outcome(state.reordered(orders.last()));
        let last = orders.len() - 1;
        if candidate.better_than(best_of(state, earlier).1) {
            assert(best_of(state, orders).0 == orders[last]);
        } else {
            assert(earlier[k] == orders[k]);
            assert(best_of(state, orders).0 == orders[k]);
            assert forall|j: int| k < j < orders.len() implies !sequence_outcome(
                state.reordered(#[trigger] orders[j]),
            ).better_than(best_of(state, orders).1) by {
                if j < last {
                    assert(earlier[j] == orders[j]);
                }
            }
        }
    }
}

/// Fights the battle with fresh copies of the units of `state`, the attackers
/// in the order that `order` gives.
pub fn fight_in_order(state: &BattleState, order: &Vec<usize>) -> (fought: BattleState)
    requires
        state@.ready(),
        order@.len() <= MAX_ATTACKERS,
        forall|k: int| 0 <= k < order@.len() ==> (#[trigger] order@[k]) < state.attackers@.len(),
    ensures
        fought@ == sequence_outcome(state@.reordered(order@)),
        fought.attackers@.len() == order@.len(),
{
    let mut attackers: Vec<Unit> = Vec::new();
    let mut k: usize = 0;
    while k < order.len()
        invariant
            k <= order@.len(),
            attackers@.len() == k,
            forall|m: int| 0 <= m < order@.len() ==> (#[trigger] order@[m]) < state.attackers@.len(),
            forall|m: int| 0 <= m < k ==> attackers@[m] == state.attackers@[order@[m] as int],
        decreases order@.len() - k,
    {
        attackers.push(state.attackers[order[k]].clone());
        k += 1;
    }
    let mut candidate = BattleState { attackers, defender: state.defender.clone() };
    proof {
        assert(candidate@.attackers == arranged(state.attackers@, order@));
        lemma_sequence_outcome_range(candidate@);
    }
    battle_many(&mut candidate);
    candidate
}

/// Finds the best order of attack: fights the battle in every order of the
/// attackers, each time with fresh copies of the units, and retains the first
/// order whose outcome no later one betters. Returns that order, as the
/// positions of the attackers in `state`, and the outcome of the battle fought
/// in it.
pub fn optimise_battle(state: BattleState) -> (best: (Vec<usize>, BattleState))
    requires
        state@.ready(),
        state.attackers@.len() >= 1,
    ensures
        (best.0@, best.1@) == best_of(state@, orderings(state.attackers@.len())),
{
    let count = state.attackers.len();
    let ghost orders = orderings(count as nat);
    let mut permuter = attacker_permuatations(count);
    proof {
        lemma_factorial_positive(count as nat);
        lemma_orderings_are_permutations(count as nat, 0);
        assert(orders.take(1).drop_last() == Seq::<Seq<usize>>::empty());
    }
    let first = permuter.next();
    let mut best_order = first.unwrap();
    let mut best_state = fight_in_order(&state, &best_order);
    loop
        invariant
            state@.ready(),
            count == state.attackers@.len(),
            orders == orderings(count as nat),
            orders.len() == factorial(count as nat),
            permuter.wf(),
            permuter.count() == count,
            1 <= permuter.produced() <= orders.len(),
            best_state.attackers@.len() == count,
            (best_order@, best_state@) == best_of(state@, orders.take(permuter.produced() as int)),
        ensures
            (best_order@, best_state@) == best_of(state@, orders),
        decreases orders.len() - permuter.produced(),
    {
        let ghost tried = permuter.produced() as int;
        match permuter.next() {
            None => {
                proof {
                    assert(orders.take(tried) == orders);
                }
                break ;
            },
            Some(order) => {
                proof {
                    lemma_orderings_are_permutations(count as nat, tried);
                    assert(orders.take(tried + 1).drop_last() == orders.take(tried));
                    assert(orders.take(tried + 1).last() == orders[tried]);
                }
                let candidate = fight_in_order(&state, &order);
                if candidate.is_better_than(&best_state) {
                    best_state = candidate;
                    best_order = order;
                }
            },
        }
    }
    (best_order, best_state)
}

/// Why a request for a battle cannot be met.
#[derive(Debug, Clone, Copy, PartialEq, Eq)]
pub enum BattleError {
    /// The catalog has no unit type of the identifier asked for.
    UnknownUnitId,
    /// The unit type asked for, or the health asked for, lies beyond the
    /// limits for which the battle arithmetic is proved.
    OutOfRange,
    /// The battle has more than `MAX_ATTACKERS` attackers.
    TooManyAttackers,
}

/// A unit as a request describes it: the identifier of its type, the health
/// it starts with (its full health if none is given) and its flags.
#[derive(Debug)]
pub struct UnitInput {
    pub unit: String,
    pub health: Option<i128>,
    pub flags: u8,
}

impl UnitInput {
    /// The unit described, made from the first of `templates` that has the
    /// identifier: the flags are applied to a fresh unit of that type, and
    /// then the health is set.
    pub open spec fn unit_in(&self, templates: Seq<UnitType>) -> Result<Unit, BattleError> {
        match find_template(templates, self.unit@) {
            None => Err(BattleError::UnknownUnitId),
            Some(template) => {
                let flagged = template.unit().with_flags(self.flags);
                let health = match self.health {
                    Some(health) => health,
                    None => flagged.max_health,
                };
                if template.in_range() && -START_HEALTH_LIMIT <= health <= START_HEALTH_LIMIT {
                    Ok(Unit { health, ..flagged })
                } else {
                    Err(BattleError::OutOfRange)
                }
            },
        }
    }

    /// Makes the unit described from the catalog. Fails if the catalog does
    /// not know the type, or if the type or the health is out of range. A unit
    /// that is made is at its start.
    pub fn to_unit(&self, catalog: &UnitTypeList) -> (made: Result<Unit, BattleError>)
        ensures
            made == self.unit_in(catalog.units@),
            made matches Ok(unit) ==> unit.at_start(),
    {
        let template = match catalog.find_type(&self.unit) {
            Some(template) => template,
            None => {
                return Err(BattleError::UnknownUnitId);
            },
        };
        if !template.is_in_range() {
            return Err(BattleError::OutOfRange);
        }
        let mut unit = template.create_unit();
        proof {
            lemma_modified_defence_range(unit.defence_with_bonus as int, self.flags);
        }
        unit.apply_bit_flags(self.flags);
        let health = match self.health {
            Some(health) => health,
            None => unit.max_health,
        };
        if health < -START_HEALTH_LIMIT || health > START_HEALTH_LIMIT {
            return Err(BattleError::OutOfRange);
        }
        unit.health = health;
        Ok(unit)
    }
}

/// The units that `inputs` describe, in their order, or the failure of the
/// first that cannot be made.
pub open spec fn units_in(inputs: Seq<UnitInput>, templates: Seq<UnitType>) -> Result<
    Seq<Unit>,
    BattleError,
>
    decreases inputs.len(),
{
    if inputs.len() == 0 {
        Ok(Seq::empty())
    } else {
        match units_in(inputs.drop_last(), templates) {
            Err(failure) => Err(failure),
            Ok(units) => match inputs.last().unit_in(templates) {
                Err(failure) => Err(failure),
                Ok(unit) => Ok(units.push(unit)),
            },
        }
    }
}

/// A battle as a request describes it.
#[derive(Debug)]
pub struct BattleInput {
    pub attackers: Vec<UnitInput>,
    pub defender: UnitInput,
}

impl BattleInput {
    /// The battle described: too many attackers fail first, then the first
    /// attacker that cannot be made, then the defender.
    pub open spec fn state_in(&self, templates: Seq<UnitType>) -> Result<BattleView, BattleError> {
        if self.attackers@.len() > MAX_ATTACKERS {
            Err(BattleError::TooManyAttackers)
        } else {
            match units_in(self.attackers@, templates) {
                Err(failure) => Err(failure),
                Ok(attackers) => match self.defender.unit_in(templates) {
                    Err(failure) => Err(failure),
                    Ok(defender) => Ok(BattleView { attackers, defender }),
                },
            }
        }
    }

    /// Makes the battle described from the catalog. A battle that is made is
    /// ready to be fought.
    pub fn to_state(&self, catalog: &UnitTypeList) -> (made: Result<BattleState, BattleError>)
        ensures
            match made {
                Ok(state) => self.state_in(catalog.units@) == Ok::<BattleView, BattleError>(state@)
                    && state@.ready(),
                Err(failure) => self.state_in(catalog.units@) == Err::<BattleView, BattleError>(
                    failure,
                ),
            },
    {
        if self.attackers.len() > MAX_ATTACKERS {
            return Err(BattleError::TooManyAttackers);
        }
        let mut attackers: Vec<Unit> = Vec::new();
        let mut i: usize = 0;
        proof {
            assert(self.attackers@.take(0) == Seq::<UnitInput>::empty());
        }
        while i < self.attackers.len()
            invariant
                i <= self.attackers@.len() <= MAX_ATTACKERS,
                units_in(self.attackers@.take(i as int), catalog.units@) == Ok::<
                    Seq<Unit>,
                    BattleError,
                >(attackers@),
                attackers@.len() == i,
                forall|k: int| 0 <= k < i ==> (#[trigger] attackers@[k]).at_start(),
            decreases self.attackers@.len() - i,
        {
            proof {
                assert(self.attackers@.take(i + 1).drop_last() == self.attackers@.take(i as int));
                assert(self.attackers@.take(i + 1).last() == self.attackers@[i as int]);
            }
            match self.attackers[i].to_unit(catalog) {
                Ok(unit) => {
                    attackers.push(unit);
                },
                Err(failure) => {
                    proof {
                        let tried = self.attackers@.take(i + 1);
                        assert(tried.last().unit_in(catalog.units@) == Err::<Unit, BattleError>(
                            failure,
                        ));
                        assert(units_in(tried, catalog.units@) == Err::<Seq<Unit>, BattleError>(
                            failure,
                        ));
                        lemma_units_in_failure(self.attackers@, catalog.units@, i + 1);
                    }
                    return Err(failure);
                },
            }
            i += 1;
        }
        proof {
            assert(self.attackers@.take(i as int) == self.attackers@);
        }
        match self.defender.to_unit(catalog) {
            Ok(defender) => Ok(BattleState { attackers, defender }),
            Err(failure) => Err(failure),
        }
    }
}

/// A failure among the first `count` inputs is the failure of them all.
proof fn lemma_units_in_failure(inputs: Seq<UnitInput>, templates: Seq<UnitType>, count: int)
    requires
        0 <= count <= inputs.len(),
        units_in(inputs.take(count), templates) is Err,
    ensures
        units_in(inputs, templates) == units_in(inputs.take(count), templates),
    decreases inputs.len(),
{
    if count == inputs.len() {
        assert(inputs.take(count) == inputs);
    } else {
        assert(inputs.drop_last().take(count) == inputs.take(count));
        lemma_units_in_failure(inputs.drop_last(), templates, count);
    }
}

/// What is reported of a battle that has been fought.
#[derive(Debug, PartialEq, Eq)]
pub struct BattleReport {
    /// The health of each attacker, in the order of attack.
    pub attackers: Vec<i128>,
    /// The health of the defender.
    pub defender: i128,
    pub frozen: bool,
    pub converted: bool,
}

impl BattleState {
    /// Reports the state: the health of every unit, and whether the defender
    /// is frozen or converted.
    pub fn report(&self) -> (report: BattleReport)
        ensures
            report.attackers@ == Seq::new(
                self.attackers@.len(),
                |k: int| self.attackers@[k].health,
            ),
            report.defender == self.defender.health,
            report.frozen == self.defender.frozen,
            report.converted == self.defender.converted,
    {
        let mut attackers: Vec<i128> = Vec::new();
        let mut i: usize = 0;
        while i < self.attackers.len()
            invariant
                i <= self.attackers@.len(),
                attackers@.len() == i,
                forall|k: int| 0 <= k < i ==> attackers@[k] == self.attackers@[k].health,
            decreases self.attackers@.len() - i,
        {
            attackers.push(self.attackers[i].health);
            i += 1;
        }
        BattleReport {
            attackers,
            defender: self.defender.health,
            frozen: self.defender.frozen,
            converted: self.defender.converted,
        }
    }
}

} // verus!
