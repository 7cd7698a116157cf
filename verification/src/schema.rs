//! Input shapes for the create and update operations.

use vstd::prelude::*;

verus! {

/// Input for creating or updating a game: a title and the full turn list.
/// On update the list replaces the game's previous turns wholesale.
#[derive(Debug, Clone, PartialEq, Eq)]
pub struct CreateGameSchema {
    pub title: String,
    pub turns: Vec<CreateTurnSchema>,
}

/// Input for one turn. Its position in the enclosing list decides its
/// `turn_order`; no caller-supplied order is consulted.
#[derive(Debug, Clone, PartialEq, Eq)]
#[allow(non_snake_case)]
pub struct CreateTurnSchema {
    pub turn: String,
    pub xCoord: i32,
    pub yCoord: i32,
}

/// Mathematical value of one turn input.
#[verifier::ext_equal]
pub struct TurnInputView {
    pub turn: Seq<char>,
    pub x_coord: int,
    pub y_coord: int,
}

/// Mathematical value of a create/update input.
#[verifier::ext_equal]
pub struct GameInputView {
    pub title: Seq<char>,
    pub turns: Seq<TurnInputView>,
}

impl View for CreateTurnSchema {
    type V = TurnInputView;

    open spec fn view(&self) -> TurnInputView {
        TurnInputView { turn: self.turn@, x_coord: self.xCoord as int, y_coord: self.yCoord as int }
    }
}

impl View for CreateGameSchema {
    type V = GameInputView;

    open spec fn view(&self) -> GameInputView {
        GameInputView {
            title: self.title@,
            turns: self.turns@.map_values(|t: CreateTurnSchema| t@),
        }
    }
}

} // verus!
