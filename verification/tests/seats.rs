use variant_go::game::{Color, Game, GameModifier, HiddenMoveGo, Seat, TakeSeatError};

#[test]
fn seats() {
    let mut game = Game::standard(&vec![1, 2], vec![0, 15], (9, 9), GameModifier::default()).unwrap();

    assert_eq!(
        &game.shared.seats,
        &vec![
            Seat { player: None, team: Color(1), resigned: false },
            Seat { player: None, team: Color(2), resigned: false },
        ]
    );

    game.take_seat(100, 0).expect("Take seat");
    game.take_seat(200, 1).expect("Take seat");

    assert_eq!(
        &game.shared.seats,
        &vec![
            Seat { player: Some(100), team: Color(1), resigned: false },
            Seat { player: Some(200), team: Color(2), resigned: false },
        ]
    );

    assert_eq!(game.take_seat(300, 2), Err(TakeSeatError::DoesNotExist));
    assert_eq!(game.take_seat(300, 1), Err(TakeSeatError::NotOpen));
    assert_eq!(game.leave_seat(300, 1), Err(TakeSeatError::NotOpen));
}

#[test]
fn lib_it_works() {
    assert_eq!(2 + 2, 4);
}

#[test]
fn leave_seat_undoes_take_seat() {
    let mut game = Game::standard(&vec![1, 2], vec![0, 15], (9, 9), GameModifier::default()).unwrap();
    let before = game.shared.seats.clone();
    game.take_seat(7, 1).unwrap();
    assert_eq!(game.shared.seats[1].player, Some(7));
    game.leave_seat(7, 1).unwrap();
    assert_eq!(game.shared.seats, before);
    assert_eq!(game.actions.len(), 2);
}

#[test]
fn leave_seat_errors() {
    let mut game = Game::standard(&vec![1, 2], vec![0, 15], (9, 9), GameModifier::default()).unwrap();
    assert_eq!(game.leave_seat(1, 5), Err(TakeSeatError::DoesNotExist));
    assert_eq!(game.leave_seat(1, 0), Err(TakeSeatError::NotOpen));
    assert_eq!(game.actions.len(), 0);
}

#[test]
fn hidden_move_one_seat_per_player() {
    let mut mods = GameModifier::default();
    mods.hidden_move = Some(HiddenMoveGo { placement_count: 2, teams_share_stones: true });
    let mut game = Game::standard(&vec![1, 2], vec![0, 15], (9, 9), mods).unwrap();
    game.take_seat(5, 0).unwrap();
    assert_eq!(game.take_seat(5, 1), Err(TakeSeatError::CanOnlyHoldOne));
    assert_eq!(game.shared.seats[1].player, None);
}

#[test]
fn one_player_may_hold_two_seats() {
    let mut game = Game::standard(&vec![1, 2], vec![0, 15], (9, 9), GameModifier::default()).unwrap();
    game.take_seat(5, 0).unwrap();
    game.take_seat(5, 1).unwrap();
    assert_eq!(game.shared.seats[0].player, Some(5));
    assert_eq!(game.shared.seats[1].player, Some(5));
}

#[test]
fn standard_refuses_bad_setups() {
    assert!(Game::standard(&vec![], vec![0], (9, 9), GameModifier::default()).is_none());
    assert!(Game::standard(&vec![1, 5], vec![0, 0], (9, 9), GameModifier::default()).is_none());
    assert!(Game::standard(&vec![1, 2], vec![], (9, 9), GameModifier::default()).is_none());
    assert!(Game::standard(&vec![1, 2], vec![0, 0], (26, 9), GameModifier::default()).is_none());
    assert!(Game::standard(&vec![1, 2, 1, 2, 1, 2, 1, 2], vec![0, 0], (9, 9), GameModifier::default()).is_none());
    let g = Game::standard(&vec![1, 2, 3], vec![0, 0, 0], (19, 13), GameModifier::default()).unwrap();
    assert_eq!(g.shared.board.width, 19);
    assert_eq!(g.shared.board.height, 13);
    assert_eq!(g.shared.board.points.len(), 19 * 13);
    assert_eq!(g.shared.points, vec![0, 0, 0]);
    assert_eq!(g.shared.board_history.len(), 1);
}

#[test]
fn seats_of_a_setup_without_scores_can_be_taken() {
    let mut game = Game::standard(&vec![1, 3], vec![0], (9, 9), GameModifier::default()).unwrap();
    game.take_seat(1, 1).unwrap();
    assert_eq!(game.shared.seats[1].player, Some(1));
    game.leave_seat(1, 1).unwrap();
    assert_eq!(game.shared.seats[1].player, None);
}
