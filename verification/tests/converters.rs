use tictactoe_server::GameModel;
use tictactoe_server::TurnModel;
use tictactoe_server::create_game_with_turns;
use tictactoe_server::filter_game_response;
use tictactoe_server::filter_turn_record;

#[test]
fn filter_turn_record_keeps_every_field_but_the_foreign_key() {
    let row = TurnModel {
        id: 9,
        game_id: 4,
        turn_order: 2,
        turn: "O".to_string(),
        x_coord: 1,
        y_coord: 2,
    };
    let resp = filter_turn_record(&row);
    assert_eq!(resp.id, 9);
    assert_eq!(resp.turn_order, 2);
    assert_eq!(resp.turn, "O");
    assert_eq!(resp.x_coord, 1);
    assert_eq!(resp.y_coord, 2);
}

#[test]
fn filter_game_response_keeps_every_field() {
    let row = GameModel { id: 3, title: "G".to_string(), created_at: 11, updated_at: 12 };
    let resp = filter_game_response(&row);
    assert_eq!(resp.id, 3);
    assert_eq!(resp.title, "G");
    assert_eq!(resp.created_at, 11);
    assert_eq!(resp.updated_at, 12);
}

#[test]
fn create_game_with_turns_assembles_the_aggregate_in_order() {
    let game = GameModel { id: 5, title: "G".to_string(), created_at: 1, updated_at: 2 };
    let rows = vec![
        TurnModel {
            id: 1,
            game_id: 5,
            turn_order: 0,
            turn: "X".to_string(),
            x_coord: 0,
            y_coord: 0,
        },
        TurnModel {
            id: 2,
            game_id: 5,
            turn_order: 1,
            turn: "O".to_string(),
            x_coord: 2,
            y_coord: 1,
        },
    ];
    let agg = create_game_with_turns(game, rows);
    assert_eq!(agg.id, 5);
    assert_eq!(agg.title, "G");
    assert_eq!(agg.created_at, 1);
    assert_eq!(agg.updated_at, 2);
    assert_eq!(agg.turns.len(), 2);
    assert_eq!(agg.turns[0].id, 1);
    assert_eq!(agg.turns[0].turn, "X");
    assert_eq!(agg.turns[1].id, 2);
    assert_eq!(agg.turns[1].x_coord, 2);
}
