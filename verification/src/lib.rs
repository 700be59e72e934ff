//! Combat resolution for a turn-based strategy game: one attack exchange, a
//! sequence of attackers against a single defender, the comparison of two
//! outcomes, and the search through every order of attack for the best one.
//!
//! # Numbers
//!
//! Health, attack and defence are fixed-point numbers: whole counts of
//! hundredths of a point, held in `i128`. The damage formula is evaluated
//! exactly on them, so the one rounding of an attack is the rounding, a half
//! away from zero, that the formula asks for. Where the two forces of an
//! attack cancel, the formula has no value and no damage is done.
//!
//! # Limits
//!
//! The arithmetic is proved free of overflow within limits: a unit's attack,
//! defence and base health are at most `STAT_LIMIT`, the health with which it
//! enters a battle at most `START_HEALTH_LIMIT` in magnitude, and a battle has
//! at most `MAX_ATTACKERS` attackers. `Unit::is_in_range`,
//! `Unit::is_at_start` and `BattleState::is_ready` test this, and
//! `BattleInput::to_state` makes only battles that are ready.
//!
//! # Modules
//!
//! - `arith`: rounding division.
//! - `units`: units, unit types and the catalog.
//! - `calc`: attacks, battles, comparisons and the search.
//! - `permuter`: the enumeration of the orders of attack.
//! - `blocks`: the proof that the enumeration repeats no order.

pub mod arith;
pub mod blocks;
pub mod calc;
pub mod permuter;
pub mod units;
