//! Row and response types for the game-with-turns aggregate.
//!
//! `GameModel` and `TurnModel` mirror the two relational tables
//! (`games` and `turns`); the response types are what the store hands back
//! to callers. Timestamps are plain integers: milliseconds since the Unix
//! epoch.

use vstd::prelude::*;

verus! {

/// A row of the `games` table.
#[derive(Debug, Clone, PartialEq, Eq)]
pub struct GameModel {
    /// Primary key, generated on insert; always at least 1.
    pub id: i64,
    /// Display title of the game; mutable.
    pub title: String,
    /// Time of insertion, in milliseconds since the Unix epoch; immutable.
    pub created_at: i64,
    /// Time of the most recent successful mutation of the game or its turns.
    pub updated_at: i64,
}

/// A row of the `turns` table.
#[derive(Debug, Clone, PartialEq, Eq)]
pub struct TurnModel {
    /// Primary key, generated on insert; always at least 1.
    pub id: i64,
    /// Foreign key: the owning game's id.
    pub game_id: i64,
    /// Zero-based position of this turn within its game.
    pub turn_order: i64,
    /// Marker of the acting side (free text, e.g. "X" or "O").
    pub turn: String,
    /// Board x coordinate of the move; unvalidated.
    pub x_coord: i64,
    /// Board y coordinate of the move; unvalidated.
    pub y_coord: i64,
}

/// A game summary, as returned by the list operation: the game row without
/// its turns.
#[derive(Debug, Clone, PartialEq, Eq)]
pub struct GameResponse {
    pub id: i64,
    pub title: String,
    pub created_at: i64,
    pub updated_at: i64,
}

/// One turn of a game, as returned inside an aggregate: the turn row without
/// the foreign key (the owning game is implied by the enclosing response).
#[derive(Debug, Clone, PartialEq, Eq)]
pub struct TurnResponse {
    pub id: i64,
    pub turn_order: i64,
    pub turn: String,
    pub x_coord: i64,
    pub y_coord: i64,
}

/// The full aggregate: a game together with its turns, sorted ascending by
/// `turn_order`.
#[derive(Debug, Clone, PartialEq, Eq)]
pub struct GameWithTurnsResponse {
    pub id: i64,
    pub title: String,
    pub created_at: i64,
    pub updated_at: i64,
    pub turns: Vec<TurnResponse>,
}

/// Mathematical value of a `games` row (and of a game summary).
#[verifier::ext_equal]
pub struct GameView {
    pub id: int,
    pub title: Seq<char>,
    pub created_at: int,
    pub updated_at: int,
}

/// Mathematical value of a `turns` row.
#[verifier::ext_equal]
pub struct TurnView {
    pub id: int,
    pub game_id: int,
    pub turn_order: int,
    pub turn: Seq<char>,
    pub x_coord: int,
    pub y_coord: int,
}

/// Mathematical value of one turn inside an aggregate response.
#[verifier::ext_equal]
pub struct TurnResponseView {
    pub id: int,
    pub turn_order: int,
    pub turn: Seq<char>,
    pub x_coord: int,
    pub y_coord: int,
}

/// Mathematical value of a full game-with-turns response.
#[verifier::ext_equal]
pub struct AggregateView {
    pub id: int,
    pub title: Seq<char>,
    pub created_at: int,
    pub updated_at: int,
    pub turns: Seq<TurnResponseView>,
}

impl View for GameModel {
    type V = GameView;

    open spec fn view(&self) -> GameView {
        GameView {
            id: self.id as int,
            title: self.title@,
            created_at: self.created_at as int,
            updated_at: self.updated_at as int,
        }
    }
}

impl View for TurnModel {
    type V = TurnView;

    open spec fn view(&self) -> TurnView {
        TurnView {
            id: self.id as int,
            game_id: self.game_id as int,
            turn_order: self.turn_order as int,
            turn: self.turn@,
            x_coord: self.x_coord as int,
            y_coord: self.y_coord as int,
        }
    }
}

impl View for GameResponse {
    type V = GameView;

    open spec fn view(&self) -> GameView {
        GameView {
            id: self.id as int,
            title: self.title@,
            created_at: self.created_at as int,
            updated_at: self.updated_at as int,
        }
    }
}

impl View for TurnResponse {
    type V = TurnResponseView;

    open spec fn view(&self) -> TurnResponseView {
        TurnResponseView {
            id: self.id as int,
            turn_order: self.turn_order as int,
            turn: self.turn@,
            x_coord: self.x_coord as int,
            y_coord: self.y_coord as int,
        }
    }
}

impl View for GameWithTurnsResponse {
    type V = AggregateView;

    open spec fn view(&self) -> AggregateView {
        AggregateView {
            id: self.id as int,
            title: self.title@,
            created_at: self.created_at as int,
            updated_at: self.updated_at as int,
            turns: self.turns@.map_values(|t: TurnResponse| t@),
        }
    }
}

/// What a turn row looks like once stripped down to a response: the foreign
/// key is dropped, everything else is kept.
pub open spec fn turn_resp_of(t: TurnView) -> TurnResponseView {
    TurnResponseView {
        id: t.id,
        turn_order: t.turn_order,
        turn: t.turn,
        x_coord: t.x_coord,
        y_coord: t.y_coord,
    }
}

/// The aggregate assembled from a game row and a sequence of turn rows.
pub open spec fn aggregate_of(g: GameView, ts: Seq<TurnView>) -> AggregateView {
    AggregateView {
        id: g.id,
        title: g.title,
        created_at: g.created_at,
        updated_at: g.updated_at,
        turns: ts.map_values(|t: TurnView| turn_resp_of(t)),
    }
}

/// Strips a turn row down to the response shape.
pub fn filter_turn_record(record: &TurnModel) -> (r: TurnResponse)
    ensures
        r@ == turn_resp_of(record@),
{
    TurnResponse {
        id: record.id,
        turn_order: record.turn_order,
        turn: record.turn.clone(),
        x_coord: record.x_coord,
        y_coord: record.y_coord,
    }
}

/// Strips a game row down to the summary shape.
pub fn filter_game_response(record: &GameModel) -> (r: GameResponse)
    ensures
        r@ == record@,
{
    GameResponse {
        id: record.id,
        title: record.title.clone(),
        created_at: record.created_at,
        updated_at: record.updated_at,
    }
}

/// Assembles the full aggregate response from a game row and its turn rows
/// (in the order given).
pub fn create_game_with_turns(record: GameModel, turns: Vec<TurnModel>) -> (r:
    GameWithTurnsResponse)
    ensures
        r@ == aggregate_of(record@, turns@.map_values(|t: TurnModel| t@)),
{
    let mut out: Vec<TurnResponse> = Vec::new();
    let mut i: usize = 0;
    while i < turns.len()
        invariant
            i <= turns.len(),
            out@.len() == i,
            forall|k: int| 0 <= k < i ==> out@[k]@ == turn_resp_of(turns@[k]@),
        decreases turns.len() - i,
    {
        out.push(filter_turn_record(&turns[i]));
        i = i + 1;
    }
    let r = GameWithTurnsResponse {
        id: record.id,
        title: record.title,
        created_at: record.created_at,
        updated_at: record.updated_at,
        turns: out,
    };
    proof {
        assert(r@.turns =~= turns@.map_values(|t: TurnModel| t@).map_values(
            |t: TurnView| turn_resp_of(t),
        ));
        assert(r@ =~= aggregate_of(record@, turns@.map_values(|t: TurnModel| t@)));
    }
    r
}

} // verus!
