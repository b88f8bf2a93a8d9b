//! Rock-paper-scissors strategy rounds. A round is a three-character text
//! `"<opponent> <response>"` where the opponent plays `'A'..='C'` and the
//! response column holds `'X'..='Z'`.

use vstd::prelude::*;

verus! {

/// The result of one round, seen from the responder's side.
#[derive(Clone, Copy, PartialEq, Eq, Structural, Debug)]
pub enum Outcome {
    Loss,
    Draw,
    Win,
}

/// Shape index of the opponent column: rock 0, paper 1, scissors 2.
pub open spec fn opponent_index(c: char) -> int {
    c as int - 'A' as int
}

/// Shape index of the response column: rock 0, paper 1, scissors 2.
pub open spec fn response_index(c: char) -> int {
    c as int - 'X' as int
}

/// The round's result: equal shapes draw, and each shape beats the one
/// whose index is one lower (cyclically).
pub open spec fn spec_outcome(opponent: char, response: char) -> Outcome {
    let d = (response_index(response) - opponent_index(opponent) + 3) % 3;
    if d == 0 {
        Outcome::Draw
    } else if d == 1 {
        Outcome::Win
    } else {
        Outcome::Loss
    }
}

/// A round text is three characters with the shapes in columns 0 and 2.
pub open spec fn valid_round(s: Seq<char>) -> bool {
    &&& s.len() >= 3
    &&& 'A' <= s[0] && s[0] <= 'C'
    &&& 'X' <= s[2] && s[2] <= 'Z'
}

/// Decides one round from its text.
pub fn outcome(game: &str) -> (r: Outcome)
    requires
        valid_round(game@),
    ensures
        r == spec_outcome(game@[0], game@[2]),
{
    let opponent_shape: u32 = game.get_char(0) as u32 + ('X' as u32 - 'A' as u32);
    let shape: u32 = game.get_char(2) as u32;
    match (shape + 3 - opponent_shape) % 3 {
        0 => Outcome::Draw,
        1 => Outcome::Win,
        _ => Outcome::Loss,
    }
}

/// The score of a result: loss 0, draw 3, win 6.
pub open spec fn spec_outcome_points(o: Outcome) -> u32 {
    match o {
        Outcome::Loss => 0u32,
        Outcome::Draw => 3u32,
        Outcome::Win => 6u32,
    }
}

/// Scores one round's result.
pub fn outcome_points(outcome: Outcome) -> (r: u32)
    ensures
        r == spec_outcome_points(outcome),
{
    match outcome {
        Outcome::Loss => 0,
        Outcome::Draw => 3,
        Outcome::Win => 6,
    }
}

/// Scores the responder's shape: rock 1, paper 2, scissors 3.
pub fn shape_points(game: &str) -> (r: u32)
    requires
        game@.len() >= 3,
        'X' <= game@[2] && game@[2] <= 'Z',
    ensures
        r == response_index(game@[2]) + 1,
{
    (game.get_char(2) as u32) - ('W' as u32)
}

/// Scores one round of play: the result's points plus the shape's points.
pub fn round_score(game: &str) -> (r: u32)
    requires
        valid_round(game@),
    ensures
        r == spec_outcome_points(spec_outcome(game@[0], game@[2])) + response_index(game@[2]) + 1,
{
    outcome_points(outcome(game)) + shape_points(game)
}

/// The response column read as a desired result: X loss, Y draw, Z win.
pub open spec fn desired_outcome(c: char) -> Outcome {
    if c == 'X' {
        Outcome::Loss
    } else if c == 'Y' {
        Outcome::Draw
    } else {
        Outcome::Win
    }
}

/// The shape index that yields outcome `o` against opponent shape index `opp`.
pub open spec fn desired_shape_index(opp: int, o: Outcome) -> int {
    (opp + match o {
        Outcome::Loss => 2int,
        Outcome::Draw => 0int,
        Outcome::Win => 1int,
    }) % 3
}

/// Rewrites a round whose response column names a desired result into a
/// round whose response column is the shape achieving that result.
pub fn adjust_for_desired_outcome(game: &str) -> (r: String)
    requires
        valid_round(game@),
    ensures
        r@.len() == 3,
        r@[0] == game@[0],
        r@[1] == ' ',
        'X' <= r@[2] && r@[2] <= 'Z',
        response_index(r@[2]) == desired_shape_index(
            opponent_index(game@[0]),
            desired_outcome(game@[2]),
        ),
        spec_outcome(game@[0], r@[2]) == desired_outcome(game@[2]),
{
    let opp = game.get_char(0);
    let want = game.get_char(2);
    let opp_index: u32 = opp as u32 - 'A' as u32;
    let delta: u32 = if want == 'X' {
        2
    } else if want == 'Y' {
        0
    } else {
        1
    };
    let shape_index = (opp_index + delta) % 3;
    let shape: &str = if shape_index == 0 {
        "X"
    } else if shape_index == 1 {
        "Y"
    } else {
        "Z"
    };
    proof {
        reveal_strlit("X");
        reveal_strlit("Y");
        reveal_strlit("Z");
        reveal_strlit(" ");
    }
    let head = game.substring_char(0, 1);
    let r = String::from_str(head).concat(" ").concat(shape);
    proof {
        assert(r@ =~= seq![game@[0], ' ', shape@[0]]);
    }
    r
}

} // verus!
