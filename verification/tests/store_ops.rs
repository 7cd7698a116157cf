use tictactoe_server::CreateGameSchema;
use tictactoe_server::CreateTurnSchema;
use tictactoe_server::GameModel;
use tictactoe_server::Store;
use tictactoe_server::StoreError;
use tictactoe_server::TurnModel;

fn turn(side: &str, x: i32, y: i32) -> CreateTurnSchema {
    CreateTurnSchema { turn: side.to_string(), xCoord: x, yCoord: y }
}

fn schema(title: &str, turns: Vec<CreateTurnSchema>) -> CreateGameSchema {
    CreateGameSchema { title: title.to_string(), turns }
}

#[test]
fn create_assigns_ids_and_orders() {
    let mut s = Store::new();
    let a = s.create_game_at(schema("G1", vec![turn("X", 0, 0), turn("O", 1, 1)]), 5).unwrap();
    assert_eq!(a.id, 1);
    assert_eq!(a.title, "G1");
    assert_eq!(a.created_at, 5);
    assert_eq!(a.updated_at, 5);
    assert_eq!(a.turns.len(), 2);
    assert_eq!(a.turns[0].id, 1);
    assert_eq!(a.turns[0].turn_order, 0);
    assert_eq!(a.turns[0].turn, "X");
    assert_eq!(a.turns[0].x_coord, 0);
    assert_eq!(a.turns[0].y_coord, 0);
    assert_eq!(a.turns[1].id, 2);
    assert_eq!(a.turns[1].turn_order, 1);
    assert_eq!(a.turns[1].turn, "O");
    assert_eq!(a.turns[1].x_coord, 1);
    assert_eq!(a.turns[1].y_coord, 1);
}

#[test]
fn create_get_round_trip() {
    let mut s = Store::new();
    let created = s
        .create_game_at(schema("G1", vec![turn("X", 0, 0), turn("O", 1, 1)]), 5)
        .unwrap();
    let read = s.get_game(created.id).unwrap();
    assert_eq!(read, created);
}

#[test]
fn ids_continue_across_games() {
    let mut s = Store::new();
    let a = s.create_game_at(schema("A", vec![turn("X", 0, 0)]), 1).unwrap();
    let b = s.create_game_at(schema("B", vec![turn("O", 2, 2)]), 2).unwrap();
    assert_eq!(a.id, 1);
    assert_eq!(b.id, 2);
    assert_eq!(a.turns[0].id, 1);
    assert_eq!(b.turns[0].id, 2);
}

#[test]
fn reads_are_sorted_by_turn_order() {
    let mut s = Store::new();
    let many: Vec<CreateTurnSchema> =
        (0..7).map(|i| turn(if i % 2 == 0 { "X" } else { "O" }, i, 6 - i)).collect();
    let a = s.create_game_at(schema("G", many), 3).unwrap();
    for w in a.turns.windows(2) {
        assert!(w[0].turn_order < w[1].turn_order);
    }
    let read = s.get_game(a.id).unwrap();
    for w in read.turns.windows(2) {
        assert!(w[0].turn_order < w[1].turn_order);
    }
    let rows = s.turns_for_game(a.id);
    for w in rows.windows(2) {
        assert!(w[0].turn_order < w[1].turn_order);
    }
}

#[test]
fn update_replaces_title_turns_and_timestamp() {
    let mut s = Store::new();
    let a = s.create_game_at(schema("G1", vec![turn("X", 0, 0), turn("O", 1, 1)]), 5).unwrap();
    let b = s.update_game_at(a.id, schema("G1-renamed", vec![turn("O", 2, 2)]), 9).unwrap();
    assert_eq!(b.id, a.id);
    assert_eq!(b.title, "G1-renamed");
    assert_eq!(b.created_at, 5);
    assert_eq!(b.updated_at, 9);
    assert_eq!(b.turns.len(), 1);
    assert_eq!(b.turns[0].turn, "O");
    assert_eq!(b.turns[0].turn_order, 0);
    let read = s.get_game(a.id).unwrap();
    assert_eq!(read, b);
}

#[test]
fn update_with_empty_list_leaves_zero_turns() {
    let mut s = Store::new();
    let a = s.create_game_at(schema("G1", vec![turn("X", 0, 0), turn("O", 1, 1)]), 5).unwrap();
    let b = s.update_game_at(a.id, schema("G1-renamed", vec![]), 9).unwrap();
    assert_eq!(b.turns.len(), 0);
    let read = s.get_game(a.id).unwrap();
    assert_eq!(read.turns.len(), 0);
    assert_eq!(read.title, "G1-renamed");
}

#[test]
fn update_timestamp_strictly_increases() {
    let mut s = Store::new();
    let a = s.create_game_at(schema("G", vec![turn("X", 0, 0)]), 5).unwrap();
    let before = s.get_game(a.id).unwrap().updated_at;
    let after = s.update_game_at(a.id, schema("G", vec![]), 9).unwrap().updated_at;
    assert!(after > before);
}

#[test]
fn get_on_missing_id_is_not_found() {
    let s = Store::new();
    assert_eq!(s.get_game(1).unwrap_err(), StoreError::NotFound);
}

#[test]
fn update_on_missing_id_is_not_found() {
    let mut s = Store::new();
    assert_eq!(
        s.update_game_at(42, schema("T", vec![]), 1).unwrap_err(),
        StoreError::NotFound
    );
}

#[test]
fn delete_on_missing_id_affects_zero_rows() {
    let mut s = Store::new();
    assert_eq!(s.delete_game(42), 0);
}

#[test]
fn delete_cascades_to_turns() {
    let mut s = Store::new();
    let a = s.create_game_at(schema("G", vec![turn("X", 0, 0), turn("O", 1, 1)]), 5).unwrap();
    assert_eq!(s.delete_game(a.id), 1);
    assert!(s.turns_for_game(a.id).is_empty());
    assert_eq!(s.get_game(a.id).unwrap_err(), StoreError::NotFound);
    assert!(s.game_list().is_empty());
}

#[test]
fn delete_leaves_other_games_alone() {
    let mut s = Store::new();
    let a = s.create_game_at(schema("A", vec![turn("X", 0, 0)]), 1).unwrap();
    let b = s.create_game_at(schema("B", vec![turn("O", 1, 1)]), 2).unwrap();
    assert_eq!(s.delete_game(a.id), 1);
    let read = s.get_game(b.id).unwrap();
    assert_eq!(read, b);
    assert_eq!(s.game_list().len(), 1);
}

#[test]
fn game_list_returns_summaries_in_table_order() {
    let mut s = Store::new();
    s.create_game_at(schema("A", vec![turn("X", 0, 0)]), 1).unwrap();
    s.create_game_at(schema("B", vec![]), 2).unwrap();
    let l = s.game_list();
    assert_eq!(l.len(), 2);
    assert_eq!(l[0].id, 1);
    assert_eq!(l[0].title, "A");
    assert_eq!(l[0].created_at, 1);
    assert_eq!(l[1].id, 2);
    assert_eq!(l[1].title, "B");
}

#[test]
fn clocked_create_stamps_a_nonnegative_time() {
    let mut s = Store::new();
    let a = s.create_game(schema("G", vec![turn("X", 0, 0)])).unwrap();
    assert!(a.created_at >= 0);
    assert_eq!(a.created_at, a.updated_at);
}

#[test]
fn clocked_update_keeps_created_at() {
    let mut s = Store::new();
    let a = s.create_game(schema("G", vec![])).unwrap();
    let b = s.update_game(a.id, schema("G2", vec![turn("X", 1, 2)])).unwrap();
    assert_eq!(b.created_at, a.created_at);
    assert_eq!(b.title, "G2");
    assert_eq!(b.turns.len(), 1);
}

#[test]
fn full_lifecycle_scenario() {
    let mut s = Store::new();
    let a = s.create_game_at(schema("G1", vec![turn("X", 0, 0), turn("O", 1, 1)]), 5).unwrap();
    assert_eq!(a.id, 1);
    assert_eq!(a.title, "G1");
    assert_eq!(a.turns[0].turn_order, 0);
    assert_eq!(a.turns[1].turn_order, 1);
    let b = s.update_game_at(1, schema("G1-renamed", vec![]), 6).unwrap();
    assert_eq!(b.title, "G1-renamed");
    assert!(b.turns.is_empty());
    assert_eq!(s.delete_game(1), 1);
    assert_eq!(s.get_game(1).unwrap_err(), StoreError::NotFound);
}

fn game_row(id: i64, title: &str, created_at: i64, updated_at: i64) -> GameModel {
    GameModel { id, title: title.to_string(), created_at, updated_at }
}

fn turn_row(id: i64, game_id: i64, turn_order: i64, side: &str, x: i64, y: i64) -> TurnModel {
    TurnModel { id, game_id, turn_order, turn: side.to_string(), x_coord: x, y_coord: y }
}

#[test]
fn from_rows_resumes_id_generation() {
    let games = vec![game_row(3, "G", 1, 2)];
    let turns = vec![turn_row(5, 3, 0, "X", 0, 0)];
    let mut s = Store::from_rows(games, turns).unwrap();
    let a = s.create_game_at(schema("H", vec![turn("O", 1, 1)]), 7).unwrap();
    assert_eq!(a.id, 4);
    assert_eq!(a.turns[0].id, 6);
    let old = s.get_game(3).unwrap();
    assert_eq!(old.title, "G");
    assert_eq!(old.turns.len(), 1);
    assert_eq!(old.turns[0].id, 5);
}

#[test]
fn from_rows_rejects_duplicate_game_ids() {
    let games = vec![game_row(1, "A", 0, 0), game_row(1, "B", 0, 0)];
    let r = Store::from_rows(games, vec![]);
    assert_eq!(r.unwrap_err(), StoreError::ConstraintViolation);
}

#[test]
fn from_rows_rejects_dangling_foreign_key() {
    let games = vec![game_row(1, "A", 0, 0)];
    let turns = vec![turn_row(1, 2, 0, "X", 0, 0)];
    let r = Store::from_rows(games, turns);
    assert_eq!(r.unwrap_err(), StoreError::ConstraintViolation);
}

#[test]
fn from_rows_rejects_unsorted_turns_of_one_game() {
    let games = vec![game_row(1, "A", 0, 0)];
    let turns = vec![turn_row(1, 1, 1, "X", 0, 0), turn_row(2, 1, 0, "O", 1, 1)];
    let r = Store::from_rows(games, turns);
    assert_eq!(r.unwrap_err(), StoreError::ConstraintViolation);
}

#[test]
fn from_rows_rejects_nonpositive_ids() {
    let games = vec![game_row(0, "A", 0, 0)];
    let r = Store::from_rows(games, vec![]);
    assert_eq!(r.unwrap_err(), StoreError::ConstraintViolation);
}

#[test]
fn create_fails_when_game_ids_are_exhausted() {
    let games = vec![game_row(i64::MAX - 1, "old", 0, 0)];
    let mut s = Store::from_rows(games, vec![]).unwrap();
    let r = s.create_game_at(schema("new", vec![]), 1);
    assert_eq!(r.unwrap_err(), StoreError::StorageError);
    assert_eq!(s.game_list().len(), 1);
}

#[test]
fn failed_create_leaves_no_rows_behind() {
    let games = vec![game_row(7, "old", 0, 0)];
    let turns = vec![turn_row(i64::MAX - 1, 7, 0, "X", 0, 0)];
    let mut s = Store::from_rows(games, turns).unwrap();
    let r = s.create_game_at(schema("new", vec![turn("O", 1, 1), turn("X", 2, 2)]), 1);
    assert_eq!(r.unwrap_err(), StoreError::StorageError);
    let l = s.game_list();
    assert_eq!(l.len(), 1);
    assert_eq!(l[0].title, "old");
    assert_eq!(s.turns_for_game(7).len(), 1);
}

#[test]
fn failed_update_leaves_store_unchanged() {
    let games = vec![game_row(7, "old", 0, 3)];
    let turns = vec![turn_row(i64::MAX - 1, 7, 0, "X", 0, 0)];
    let mut s = Store::from_rows(games, turns).unwrap();
    let r = s.update_game_at(7, schema("new", vec![turn("O", 1, 1), turn("X", 2, 2)]), 9);
    assert_eq!(r.unwrap_err(), StoreError::StorageError);
    let read = s.get_game(7).unwrap();
    assert_eq!(read.title, "old");
    assert_eq!(read.updated_at, 3);
    assert_eq!(read.turns.len(), 1);
}
