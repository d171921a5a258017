//! Commands of a turn and what a turn reports.

use vstd::prelude::*;
use vstd::string::*;

verus! {

/// The direction in which the tiles slide, or `INVALID` for a command that
/// names none.
#[derive(PartialEq, Eq, Structural, Clone, Copy, Debug)]
pub enum Operation {
    LEFT,
    RIGHT,
    UP,
    DOWN,
    INVALID,
}

/// What an accepted turn led to.
#[derive(PartialEq, Eq, Structural, Clone, Copy, Debug)]
pub enum TurnOutcome {
    /// At least one move is still possible.
    Continued,
    /// No move is left: the game has ended.
    GameOver,
}

/// Why a turn was rejected. A rejected turn leaves the game untouched.
#[derive(PartialEq, Eq, Structural, Clone, Copy, Debug)]
pub enum TurnError {
    /// The command names no direction.
    InvalidDirection,
    /// The game had already ended.
    TurnAfterGameOver,
}

/// The direction that a command text names: `w` up, `a` left, `s` down,
/// `d` right, and no direction for any other text.
pub open spec fn direction_of(text: Seq<char>) -> Operation {
    if text.len() != 1 {
        Operation::INVALID
    } else if text[0] == 'w' {
        Operation::UP
    } else if text[0] == 'a' {
        Operation::LEFT
    } else if text[0] == 's' {
        Operation::DOWN
    } else if text[0] == 'd' {
        Operation::RIGHT
    } else {
        Operation::INVALID
    }
}

/// Maps a command text to its direction.
pub fn parse_direction(text: &str) -> (op: Operation)
    ensures
        op == direction_of(text@),
{
    if text.unicode_len() != 1 {
        return Operation::INVALID;
    }
    let c: char = text.get_char(0);
    if c == 'w' {
        Operation::UP
    } else if c == 'a' {
        Operation::LEFT
    } else if c == 's' {
        Operation::DOWN
    } else if c == 'd' {
        Operation::RIGHT
    } else {
        Operation::INVALID
    }
}

} // verus!
