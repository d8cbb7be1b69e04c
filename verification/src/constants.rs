//! Search parameters and evaluation weights.
use vstd::prelude::*;

verus! {

pub const BOARD_SIZE: usize = 19;

pub const MAX_VALUE: i32 = 100_000;
pub const MIN_VALUE: i32 = -100_000;
pub const SHALLOW_ORDER_DEPTH: usize = 2;
pub const RADIUS: usize = 2;
/// From this ply (inclusive) onward, the candidate radius shrinks to `DEEP_RADIUS`.
pub const DEEP_RADIUS_DEPTH: usize = 3;
pub const DEEP_RADIUS: usize = 1;

/// Clamp of the search board's static evaluation.
pub const SB_EVAL_CLAMP: i32 = 99_991;
/// Clamp of the evaluation reported for a whole game position.
pub const HEURISTIC_EVAL_CLAMP: i32 = 99_999;

pub const WEIGHT_FIVE: i32 = 80_001;
pub const WEIGHT_OPEN_FOUR: i32 = 70_000;
pub const WEIGHT_BLOCK_FOUR: i32 = 7_000;
pub const WEIGHT_FREE_THREE: i32 = 5_000;
pub const WEIGHT_OPEN_THREE: i32 = 100;
pub const WEIGHT_OPEN_TWO: i32 = 50;

pub const CAPTURE_BONUS_1: i32 = 5_000;
pub const CAPTURE_BONUS_2: i32 = 12_000;
pub const CAPTURE_BONUS_3: i32 = 25_000;
pub const CAPTURE_BONUS_4_PLUS: i32 = 50_000;

pub const COMBO_DOUBLE_OPEN_FOUR: i32 = 40_000;
pub const COMBO_OPEN_AND_BLOCK_FOUR: i32 = 35_000;
pub const COMBO_DOUBLE_BLOCK_FOUR: i32 = 30_000;
pub const COMBO_OPEN_FOUR_AND_THREE: i32 = 30_000;
pub const COMBO_BLOCK_FOUR_AND_THREE: i32 = 20_000;
pub const COMBO_DOUBLE_THREE: i32 = 15_000;
pub const COMBO_CAPTURE_AND_FOUR: i32 = 25_000;

/// Bonuses for the side to move: a four or a near capture win is worth more
/// when it is your turn.
pub const TEMPO_OPEN_FOUR: i32 = 70_000;
pub const TEMPO_BLOCK_FOUR: i32 = 70_000;
pub const TEMPO_CAPTURE: i32 = 60_000;

} // verus!
