//! A record-keeping library for turn-based game sessions.
//!
//! A game session ("game") owns an ordered collection of "turns". The store
//! keeps games and turns as two relational tables and offers atomic
//! create/read/update/delete operations over the game-with-turns aggregate:
//! a game and its turns are always read and written as one consistent unit,
//! and turns are returned sorted ascending by their order within the game.

mod laws;
mod model;
mod schema;
mod store;

pub use model::AggregateView;
pub use model::GameModel;
pub use model::GameResponse;
pub use model::GameView;
pub use model::GameWithTurnsResponse;
pub use model::TurnModel;
pub use model::TurnResponse;
pub use model::TurnResponseView;
pub use model::TurnView;
pub use model::create_game_with_turns;
pub use model::filter_game_response;
pub use model::filter_turn_record;
pub use schema::CreateGameSchema;
pub use schema::CreateTurnSchema;
pub use schema::GameInputView;
pub use schema::TurnInputView;
pub use laws::lemma_aggregate_sorted;
pub use laws::lemma_create_get_round_trip;
pub use laws::lemma_delete_cascade;
pub use laws::lemma_update_bumps_timestamp;
pub use laws::lemma_update_full_replace;
pub use model::aggregate_of;
pub use model::turn_resp_of;
pub use store::Store;
pub use store::StoreError;
pub use store::StoreView;
pub use store::game_id_present;
pub use store::game_rows_ok;
pub use store::max_game_id;
pub use store::max_turn_id;
pub use store::rows_consistent;
pub use store::rows_game_sorted;
pub use store::sorted_by_turn_order;
pub use store::turn_rows_ok;
pub use store::turn_rows_sorted;
