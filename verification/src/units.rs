//! Units, the templates they are made from, and the catalog of templates.

use crate::arith::{
    abs, lemma_round_half_away_bound, lemma_round_half_away_positive, round_div, round_half_away,
};
use vstd::prelude::*;

verus! {

/// Greatest attack, defence and base health, in raw units, that the combat
/// arithmetic is proved for.
pub const STAT_LIMIT: i128 = 10_000;

/// Greatest defence after situational modifiers: every modifier applied to a
/// defence of `STAT_LIMIT`.
pub const BONUS_LIMIT: i128 = 60_050;

/// Greatest full health: a base health of `STAT_LIMIT` plus the veteran bonus.
pub const MAX_HEALTH_LIMIT: i128 = 10_500;

/// Greatest magnitude of the health with which a unit may enter a battle.
pub const START_HEALTH_LIMIT: i128 = 100_000_000;

/// Greatest magnitude of health for which a single attack is proved free of
/// overflow. A battle of up to `MAX_ATTACKERS` units that starts within
/// `START_HEALTH_LIMIT` never carries its defender beyond it.
pub const HEALTH_LIMIT: i128 = 1_000_000_000_000_000_000_000_000;

/// Health added to the full health of a veteran.
pub const VETERAN_BONUS: i128 = 500;

/// Defence added to a boosted unit.
pub const BOOST: i128 = 50;

/// Greatest magnitude of bonus defence that `apply_bit_flags` takes.
pub const FLAG_INPUT_LIMIT: i128 = 1_000_000_000_000_000_000_000_000_000_000;

/// A combat participant. All numbers are raw fixed-point values.
#[derive(Debug, PartialEq, Eq)]
pub struct Unit {
    pub display_name: String,
    pub max_health: i128,
    /// May be negative: a unit is dead when its health is below zero.
    pub health: i128,
    pub attack: i128,
    pub defence: i128,
    /// Defence after the situational modifiers.
    pub defence_with_bonus: i128,
    /// For an attacker: whether it is retaliated against. For a defender:
    /// whether it retaliates. `None` leaves the decision to the default rule.
    pub forced_retaliation: Option<bool>,
    pub can_freeze: bool,
    pub can_convert: bool,
    pub can_retaliate: bool,
    pub ranged: bool,
    pub veteran: bool,
    pub frozen: bool,
    pub converted: bool,
}

impl Clone for Unit {
    fn clone(&self) -> (copy: Self)
        ensures
            copy == *self,
    {
        Unit {
            display_name: self.display_name.clone(),
            max_health: self.max_health,
            health: self.health,
            attack: self.attack,
            defence: self.defence,
            defence_with_bonus: self.defence_with_bonus,
            forced_retaliation: self.forced_retaliation,
            can_freeze: self.can_freeze,
            can_convert: self.can_convert,
            can_retaliate: self.can_retaliate,
            ranged: self.ranged,
            veteran: self.veteran,
            frozen: self.frozen,
            converted: self.converted,
        }
    }
}

/// Whether bit `flag_num` of `flags` is set, bit 0 being the least
/// significant.
pub open spec fn flag_set(flags: u8, flag_num: u8) -> bool {
    ((1u8 << flag_num) & flags) != 0
}

/// Reads one flag from a byte of flags.
pub fn read_flag(flags: u8, flag_num: u8) -> (set: bool)
    requires
        flag_num < 8,
    ensures
        set == flag_set(flags, flag_num),
{
    ((1u8 << flag_num) & flags) != 0
}

/// The bonus defence that the modifier flags make of `base`: poison takes a
/// fifth away, bonus terrain adds a half, a wall quadruples, a boost adds half
/// a point, in this order. The two fractions are rounded to the nearest raw
/// unit.
pub open spec fn modified_defence(base: int, flags: u8) -> int {
    let poisoned = if flag_set(flags, 0) { round_half_away(4 * base, 5) } else { base };
    let on_terrain = if flag_set(flags, 1) { round_half_away(3 * poisoned, 2) } else { poisoned };
    let walled = if flag_set(flags, 2) { 4 * on_terrain } else { on_terrain };
    if flag_set(flags, 3) {
        walled + BOOST
    } else {
        walled
    }
}

/// The override of the retaliation rule that the flags ask for: bit 5 forces
/// retaliation and wins over bit 6, which forbids it.
pub open spec fn flagged_retaliation(flags: u8) -> Option<bool> {
    if flag_set(flags, 5) {
        Some(true)
    } else if flag_set(flags, 6) {
        Some(false)
    } else {
        None
    }
}

/// `value` times `numerator / denominator`, rounded to the nearest raw unit.
fn scaled(value: i128, numerator: i128, denominator: i128) -> (product: i128)
    requires
        -2 * FLAG_INPUT_LIMIT <= value <= 2 * FLAG_INPUT_LIMIT,
        1 <= numerator <= 4,
        2 <= denominator <= 5,
    ensures
        product == round_half_away(numerator * value, denominator as int),
        abs(product as int) * denominator <= numerator * abs(value as int) + 2,
{
    proof {
        lemma_round_half_away_bound(numerator * value, denominator as int);
        assert(abs(numerator * value) == numerator * abs(value as int)) by (nonlinear_arith)
            requires
                1 <= numerator,
        ;
        assert(-8 * FLAG_INPUT_LIMIT <= numerator * value <= 8 * FLAG_INPUT_LIMIT)
            by (nonlinear_arith)
            requires
                -2 * FLAG_INPUT_LIMIT <= value <= 2 * FLAG_INPUT_LIMIT,
                1 <= numerator <= 4,
        ;
    }
    round_div(numerator * value, denominator)
}

impl Unit {
    /// The unit's figures lie within the limits for which an attack is proved
    /// free of overflow, and its full health is positive.
    pub open spec fn in_range(&self) -> bool {
        &&& 0 <= self.attack <= STAT_LIMIT
        &&& 0 <= self.defence <= STAT_LIMIT
        &&& 0 <= self.defence_with_bonus <= BONUS_LIMIT
        &&& 0 < self.max_health <= MAX_HEALTH_LIMIT
        &&& -HEALTH_LIMIT <= self.health <= HEALTH_LIMIT
    }

    /// The unit is in range and its health is one with which a battle may
    /// start.
    pub open spec fn at_start(&self) -> bool {
        &&& self.in_range()
        &&& -START_HEALTH_LIMIT <= self.health <= START_HEALTH_LIMIT
    }

    /// Tells whether the unit is in range.
    pub fn is_in_range(&self) -> (ok: bool)
        ensures
            ok == self.in_range(),
    {
        0 <= self.attack && self.attack <= STAT_LIMIT && 0 <= self.defence && self.defence
            <= STAT_LIMIT && 0 <= self.defence_with_bonus && self.defence_with_bonus
            <= BONUS_LIMIT && 0 < self.max_health && self.max_health <= MAX_HEALTH_LIMIT
            && -HEALTH_LIMIT <= self.health && self.health <= HEALTH_LIMIT
    }

    /// Tells whether the unit may enter a battle.
    pub fn is_at_start(&self) -> (ok: bool)
        ensures
            ok == self.at_start(),
    {
        self.is_in_range() && -START_HEALTH_LIMIT <= self.health && self.health
            <= START_HEALTH_LIMIT
    }

    /// The unit after a byte of flags has been applied to it.
    pub open spec fn with_flags(self, flags: u8) -> Unit {
        Unit {
            defence_with_bonus: modified_defence(self.defence_with_bonus as int, flags) as i128,
            veteran: flag_set(flags, 4),
            max_health: if flag_set(flags, 4) {
                (self.max_health + VETERAN_BONUS) as i128
            } else {
                self.max_health
            },
            forced_retaliation: flagged_retaliation(flags),
            frozen: flag_set(flags, 7),
            ..self
        }
    }

    /// Reads a byte of flags and applies it: bits 0 to 3 modify the bonus
    /// defence, bit 4 marks a veteran and raises the full health, bits 5 and 6
    /// force or forbid retaliation, bit 7 freezes the unit.
    pub fn apply_bit_flags(&mut self, flags: u8)
        requires
            -FLAG_INPUT_LIMIT <= old(self).defence_with_bonus <= FLAG_INPUT_LIMIT,
            old(self).max_health <= i128::MAX - VETERAN_BONUS,
        ensures
            *final(self) == old(self).with_flags(flags),
            final(self).defence_with_bonus == modified_defence(
                old(self).defence_with_bonus as int,
                flags,
            ),
            final(self).max_health == old(self).max_health + (if flag_set(flags, 4) {
                VETERAN_BONUS as int
            } else {
                0
            }),
    {
        if read_flag(flags, 0) {
            self.defence_with_bonus = scaled(self.defence_with_bonus, 4, 5);
        }
        if read_flag(flags, 1) {
            self.defence_with_bonus = scaled(self.defence_with_bonus, 3, 2);
        }
        if read_flag(flags, 2) {
            self.defence_with_bonus = 4 * self.defence_with_bonus;
        }
        if read_flag(flags, 3) {
            self.defence_with_bonus = self.defence_with_bonus + BOOST;
        }
        self.veteran = read_flag(flags, 4);
        if self.veteran {
            self.max_health = self.max_health + VETERAN_BONUS;
        }
        self.forced_retaliation = if read_flag(flags, 5) {
            Some(true)
        } else if read_flag(flags, 6) {
            Some(false)
        } else {
            None
        };
        self.frozen = read_flag(flags, 7);
    }

    /// Which of two units is in the better state: the one with more health,
    /// and at equal health the one that is not frozen. `None` where neither
    /// decides.
    pub open spec fn preference(self, other: Unit) -> Option<bool> {
        if self.health > other.health {
            Some(true)
        } else if other.health > self.health {
            Some(false)
        } else if !self.frozen && other.frozen {
            Some(true)
        } else if self.frozen && !other.frozen {
            Some(false)
        } else {
            None
        }
    }

    /// Tells whether this unit is in a better state than `other`, or `None`
    /// where that cannot be told.
    pub fn is_better_than(&self, other: &Unit) -> (verdict: Option<bool>)
        ensures
            verdict == self.preference(*other),
    {
        if self.health > other.health {
            return Some(true);
        } else if other.health > self.health {
            return Some(false);
        }
        if !self.frozen && other.frozen {
            return Some(true);
        } else if self.frozen && !other.frozen {
            return Some(false);
        }
        None
    }
}

/// The modifiers make of a defence within `STAT_LIMIT` a bonus defence within
/// `BONUS_LIMIT`.
pub proof fn lemma_modified_defence_range(base: int, flags: u8)
    requires
        0 <= base <= STAT_LIMIT,
    ensures
        0 <= modified_defence(base, flags) <= BONUS_LIMIT,
{
    let poisoned = if flag_set(flags, 0) { round_half_away(4 * base, 5) } else { base };
    lemma_round_half_away_positive(4 * base, 5);
    assert(0 <= poisoned <= STAT_LIMIT);
    let on_terrain = if flag_set(flags, 1) { round_half_away(3 * poisoned, 2) } else { poisoned };
    lemma_round_half_away_positive(3 * poisoned, 2);
    assert(0 <= on_terrain <= 15_000);
}

/// The preference between two units is antisymmetric: one is better than the
/// other exactly when the other is worse than it. It is undecided exactly
/// when the two have the same health and the same frozen status.
pub proof fn lemma_preference_antisymmetric(a: Unit, b: Unit)
    ensures
        a.preference(b) == Some(true) <==> b.preference(a) == Some(false),
        a.preference(b) == Some(false) <==> b.preference(a) == Some(true),
        a.preference(b) is None <==> (a.health == b.health && a.frozen == b.frozen),
{
}

/// A unit type of the catalog, such as a catapult: the template from which
/// units are made.
#[derive(Debug)]
pub struct UnitType {
    pub id: String,
    pub display_name: String,
    pub aliases: Vec<String>,
    pub hidden: bool,
    pub health: i128,
    pub attack: i128,
    pub defence: i128,
    pub range: u8,
    pub abilities: Vec<String>,
}

impl UnitType {
    /// Whether `ability` is among the abilities of this type.
    pub open spec fn has_ability(&self, ability: Seq<char>) -> bool {
        exists|i: int| 0 <= i < self.abilities@.len() && (#[trigger] self.abilities@[i])@ == ability
    }

    /// The unit that this type makes: at full health, with no modifier, able
    /// to retaliate if and only if both its attack and its defence are not
    /// zero, ranged if and only if its range is more than one.
    pub open spec fn unit(&self) -> Unit {
        Unit {
            display_name: self.display_name,
            max_health: self.health,
            health: self.health,
            attack: self.attack,
            defence: self.defence,
            defence_with_bonus: self.defence,
            forced_retaliation: None,
            can_freeze: self.has_ability("freeze_area"@),
            can_convert: self.has_ability("convert"@),
            can_retaliate: self.attack != 0 && self.defence != 0,
            ranged: self.range > 1,
            veteran: false,
            frozen: false,
            converted: false,
        }
    }

    /// The figures of this type are such that every unit made from it is in
    /// range, whatever flags are applied to it.
    pub open spec fn in_range(&self) -> bool {
        &&& 0 <= self.attack <= STAT_LIMIT
        &&& 0 <= self.defence <= STAT_LIMIT
        &&& 0 < self.health <= STAT_LIMIT
    }

    /// Tells whether the figures of this type are in range.
    pub fn is_in_range(&self) -> (ok: bool)
        ensures
            ok == self.in_range(),
    {
        0 <= self.attack && self.attack <= STAT_LIMIT && 0 <= self.defence && self.defence
            <= STAT_LIMIT && 0 < self.health && self.health <= STAT_LIMIT
    }

    /// Tells whether `ability` is among the abilities of this type.
    pub fn knows(&self, ability: &str) -> (known: bool)
        ensures
            known == self.has_ability(ability@),
    {
        let wanted = ability.to_owned();
        let mut i: usize = 0;
        while i < self.abilities.len()
            invariant
                i <= self.abilities@.len(),
                wanted@ == ability@,
                forall|k: int| 0 <= k < i ==> (#[trigger] self.abilities@[k])@ != ability@,
            decreases self.abilities@.len() - i,
        {
            if self.abilities[i] == wanted {
                return true;
            }
            i += 1;
        }
        false
    }

    /// Makes a unit of this type, with no flags applied.
    pub fn create_unit(&self) -> (unit: Unit)
        ensures
            unit == self.unit(),
    {
        let can_retaliate = self.attack != 0 && self.defence != 0;
        let can_freeze = self.knows("freeze_area");
        let can_convert = self.knows("convert");
        Unit {
            display_name: self.display_name.clone(),
            max_health: self.health,
            health: self.health,
            attack: self.attack,
            defence: self.defence,
            defence_with_bonus: self.defence,
            forced_retaliation: None,
            can_freeze,
            can_convert,
            can_retaliate,
            ranged: self.range > 1,
            veteran: false,
            frozen: false,
            converted: false,
        }
    }
}

/// The first of `templates` whose identifier is `id`, if there is one.
pub open spec fn find_template(templates: Seq<UnitType>, id: Seq<char>) -> Option<UnitType>
    decreases templates.len(),
{
    if templates.len() == 0 {
        None
    } else if templates[0].id@ == id {
        Some(templates[0])
    } else {
        find_template(templates.skip(1), id)
    }
}

/// `find_template` finds nothing exactly when no template has the identifier,
/// and what it finds has the identifier and stands before every other
/// template that has it.
pub proof fn lemma_find_template(templates: Seq<UnitType>, id: Seq<char>)
    ensures
        match find_template(templates, id) {
            None => forall|i: int| 0 <= i < templates.len() ==> (#[trigger] templates[i]).id@ != id,
            Some(found) => exists|i: int|
                {
                    &&& 0 <= i < templates.len()
                    &&& #[trigger] templates[i] == found
                    &&& found.id@ == id
                    &&& forall|j: int| 0 <= j < i ==> (#[trigger] templates[j]).id@ != id
                },
        },
    decreases templates.len(),
{
    if templates.len() == 0 {
    } else if templates[0].id@ == id {
        assert(templates[0] == templates[0]);
    } else {
        let rest = templates.skip(1);
        lemma_find_template(rest, id);
        match find_template(rest, id) {
            None => {
                assert forall|i: int| 0 <= i < templates.len() implies (#[trigger] templates[i]).id@
                    != id by {
                    if i > 0 {
                        assert(rest[i - 1] == templates[i]);
                    }
                }
            },
            Some(found) => {
                let i = choose|i: int|
                    {
                        &&& 0 <= i < rest.len()
                        &&& #[trigger] rest[i] == found
                        &&& found.id@ == id
                        &&& forall|j: int| 0 <= j < i ==> (#[trigger] rest[j]).id@ != id
                    };
                assert(templates[i + 1] == found);
                assert forall|j: int| 0 <= j < i + 1 implies (#[trigger] templates[j]).id@
                    != id by {
                    if j > 0 {
                        assert(rest[j - 1] == templates[j]);
                    }
                }
            },
        }
    }
}

/// The catalog: every unit type there is.
#[derive(Debug)]
pub struct UnitTypeList {
    pub units: Vec<UnitType>,
}

impl UnitTypeList {
    /// Every type of the catalog is in range.
    pub open spec fn in_range(&self) -> bool {
        forall|i: int| 0 <= i < self.units@.len() ==> (#[trigger] self.units@[i]).in_range()
    }

    /// Tells whether every type of the catalog is in range.
    pub fn is_in_range(&self) -> (ok: bool)
        ensures
            ok == self.in_range(),
    {
        let mut i: usize = 0;
        while i < self.units.len()
            invariant
                i <= self.units@.len(),
                forall|k: int| 0 <= k < i ==> (#[trigger] self.units@[k]).in_range(),
            decreases self.units@.len() - i,
        {
            if !self.units[i].is_in_range() {
                return false;
            }
            i += 1;
        }
        true
    }

    /// Looks a unit type up by its identifier: the first of the catalog that
    /// has it, or `None` where none has.
    pub fn find_type(&self, unit_id: &String) -> (found: Option<&UnitType>)
        ensures
            match found {
                Some(template) => find_template(self.units@, unit_id@) == Some(*template),
                None => find_template(self.units@, unit_id@) is None,
            },
    {
        let mut i: usize = 0;
        proof {
            assert(self.units@.skip(0) == self.units@);
        }
        while i < self.units.len()
            invariant
                i <= self.units@.len(),
                find_template(self.units@, unit_id@) == find_template(
                    self.units@.skip(i as int),
                    unit_id@,
                ),
            decreases self.units@.len() - i,
        {
            proof {
                assert(self.units@.skip(i as int).skip(1) == self.units@.skip(i + 1));
                assert(self.units@.skip(i as int)[0] == self.units@[i as int]);
            }
            if self.units[i].id == *unit_id {
                return Some(&self.units[i]);
            }
            i += 1;
        }
        None
    }

    /// Looks a unit type up by its identifier and makes a unit of it. `None`
    /// where the catalog has no type of that identifier.
    pub fn get_unit_by_id(&self, unit_id: &String) -> (found: Option<Unit>)
        ensures
            found == match find_template(self.units@, unit_id@) {
                Some(template) => Some(template.unit()),
                None => None,
            },
    {
        match self.find_type(unit_id) {
            Some(template) => Some(template.create_unit()),
            None => None,
        }
    }
}

} // verus!
