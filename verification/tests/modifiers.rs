use variant_go::game::clock::Millisecond;
use variant_go::game::{
    ActionKind, Color, Game, GameModifier, HiddenMoveGo, MakeActionError, NPlusOne, TetrisGo, ToroidalGo, ZenGo,
};
use variant_go::states::GameState;

fn seated(seats: &[u8], komis: Vec<i32>, size: (u8, u8), mods: GameModifier) -> Game {
    let mut game = Game::standard(seats, komis, size, mods).unwrap();
    for i in 0..seats.len() {
        game.take_seat(100 + i as u64, i).unwrap();
    }
    game
}

fn at(game: &Game, x: u32, y: u32) -> Color {
    game.shared.board.points[(y * game.shared.board.width + x) as usize]
}

fn act(game: &mut Game, player: u64, action: ActionKind) -> Result<(), MakeActionError> {
    game.make_action(player, action, Millisecond(0))
}

#[test]
fn pixel_places_a_blob() {
    let mut mods = GameModifier::default();
    mods.pixel = true;
    let mut game = seated(&[1, 2], vec![0, 0], (9, 9), mods);
    act(&mut game, 100, ActionKind::Place(1, 1)).unwrap();
    for (x, y) in [(0, 0), (1, 0), (0, 1), (1, 1)] {
        assert_eq!(at(&game, x, y), Color(1));
    }
    assert_eq!(act(&mut game, 101, ActionKind::Place(10, 0)), Err(MakeActionError::OutOfBounds));
    assert_eq!(act(&mut game, 101, ActionKind::Place(1, 1)), Err(MakeActionError::PointOccupied));
    assert_eq!(act(&mut game, 101, ActionKind::Place(9, 9)), Err(MakeActionError::OutOfBounds));
    assert_eq!(act(&mut game, 101, ActionKind::Place(0, 3)), Err(MakeActionError::OutOfBounds));
    assert_eq!(act(&mut game, 101, ActionKind::Place(3, 0)), Err(MakeActionError::OutOfBounds));
    assert_eq!(game.shared.board.points.iter().filter(|c| **c == Color(2)).count(), 0);
    act(&mut game, 101, ActionKind::Place(8, 8)).unwrap();
    for (x, y) in [(7, 7), (8, 7), (7, 8), (8, 8)] {
        assert_eq!(at(&game, x, y), Color(2));
    }
}

#[test]
fn pixel_wraps_on_a_torus() {
    let mut mods = GameModifier::default();
    mods.pixel = true;
    mods.toroidal = Some(ToroidalGo {});
    let mut game = seated(&[1, 2], vec![0, 0], (9, 9), mods);
    act(&mut game, 100, ActionKind::Place(0, 0)).unwrap();
    for (x, y) in [(8, 8), (0, 8), (8, 0), (0, 0)] {
        assert_eq!(at(&game, x, y), Color(1));
    }
    assert_eq!(act(&mut game, 101, ActionKind::Place(10, 1)), Err(MakeActionError::OutOfBounds));
}

#[test]
fn hidden_pixels_must_fit() {
    let mut mods = GameModifier::default();
    mods.pixel = true;
    mods.hidden_move = Some(HiddenMoveGo { placement_count: 2, teams_share_stones: false });
    let mut game = seated(&[1, 2], vec![0, 0], (9, 9), mods);
    assert_eq!(act(&mut game, 100, ActionKind::Place(0, 4)), Err(MakeActionError::OutOfBounds));
    assert_eq!(act(&mut game, 100, ActionKind::Place(9, 4)), Err(MakeActionError::OutOfBounds));
    act(&mut game, 100, ActionKind::Place(1, 1)).unwrap();
    match &game.state {
        GameState::FreePlacement(fp) => {
            assert_eq!(fp.boards[0].points.iter().filter(|c| **c == Color(1)).count(), 4);
        }
        _ => panic!("not placing"),
    }
}

#[test]
fn tetris_forbids_four_stone_groups() {
    let mut mods = GameModifier::default();
    mods.tetris = Some(TetrisGo {});
    let mut game = seated(&[1, 2], vec![0, 0], (9, 9), mods);
    for (i, p) in [(0, 0), (8, 8), (1, 0), (8, 6), (2, 0), (8, 4)].iter().enumerate() {
        act(&mut game, 100 + (i % 2) as u64, ActionKind::Place(p.0, p.1)).unwrap();
    }
    assert_eq!(act(&mut game, 100, ActionKind::Place(3, 0)), Err(MakeActionError::Illegal));
    assert_eq!(at(&game, 3, 0), Color(0));
    assert_eq!(game.shared.turn, 0);
    act(&mut game, 100, ActionKind::Place(4, 0)).unwrap();
    assert_eq!(at(&game, 4, 0), Color(1));
}

#[test]
fn n_plus_one_gives_an_extra_turn() {
    let mut mods = GameModifier::default();
    mods.n_plus_one = Some(NPlusOne { length: 4 });
    let mut game = seated(&[1, 2], vec![0, 0], (9, 9), mods);
    for (i, p) in [(0, 0), (8, 8), (1, 0), (8, 6), (2, 0), (8, 4)].iter().enumerate() {
        act(&mut game, 100 + (i % 2) as u64, ActionKind::Place(p.0, p.1)).unwrap();
    }
    assert_eq!(game.shared.turn, 0);
    act(&mut game, 100, ActionKind::Place(3, 0)).unwrap();
    assert_eq!(game.shared.turn, 0);
    act(&mut game, 100, ActionKind::Place(5, 5)).unwrap();
    assert_eq!(game.shared.turn, 1);
}

#[test]
fn zen_go_cycles_the_colours() {
    let mut mods = GameModifier::default();
    mods.zen_go = Some(ZenGo { color_count: 3 });
    let mut game = seated(&[1, 1, 1], vec![0, 0, 0], (9, 9), mods);
    act(&mut game, 100, ActionKind::Place(0, 0)).unwrap();
    assert_eq!(at(&game, 0, 0), Color(1));
    assert!(game.shared.seats.iter().all(|s| s.team == Color(2)));
    act(&mut game, 101, ActionKind::Place(1, 1)).unwrap();
    assert_eq!(at(&game, 1, 1), Color(2));
    assert!(game.shared.seats.iter().all(|s| s.team == Color(3)));
    act(&mut game, 102, ActionKind::Place(2, 2)).unwrap();
    assert_eq!(at(&game, 2, 2), Color(3));
    assert!(game.shared.seats.iter().all(|s| s.team == Color(1)));
}

#[test]
fn toroidal_capture_across_the_edge() {
    let mut mods = GameModifier::default();
    mods.toroidal = Some(ToroidalGo {});
    let mut game = seated(&[1, 2], vec![0, 0], (5, 5), mods);
    let moves = [(4, 0), (0, 0), (1, 0), (2, 2), (0, 4), (3, 3), (0, 1)];
    for (i, p) in moves.iter().enumerate() {
        act(&mut game, 100 + (i % 2) as u64, ActionKind::Place(p.0, p.1)).unwrap();
    }
    assert_eq!(at(&game, 0, 0), Color(0));
    assert_eq!(at(&game, 2, 2), Color(2));
}

#[test]
fn hidden_moves_are_placed_then_revealed_to_their_owner() {
    let mut mods = GameModifier::default();
    mods.hidden_move = Some(HiddenMoveGo { placement_count: 1, teams_share_stones: false });
    let mut game = seated(&[1, 2], vec![0, 0], (9, 9), mods);
    assert!(matches!(game.state, GameState::FreePlacement(_)));
    act(&mut game, 100, ActionKind::Place(2, 2)).unwrap();
    assert_eq!(act(&mut game, 100, ActionKind::Place(4, 4)), Err(MakeActionError::PointOccupied));
    act(&mut game, 101, ActionKind::Place(3, 3)).unwrap();
    act(&mut game, 100, ActionKind::Pass).unwrap();
    assert!(matches!(game.state, GameState::FreePlacement(_)));
    act(&mut game, 101, ActionKind::Pass).unwrap();
    assert!(matches!(game.state, GameState::Play(_)));
    assert_eq!(at(&game, 2, 2), Color(1));
    assert_eq!(at(&game, 3, 3), Color(2));
    let vis = game.shared.board_visibility.as_ref().unwrap();
    assert_eq!(vis.points[2 * 9 + 2].0, 2);
    assert_eq!(vis.points[3 * 9 + 3].0, 4);
    assert_eq!(game.shared.board_history.len(), 1);

    let black_view = game.get_view(100);
    assert_eq!(black_view.board[2 * 9 + 2], Color(1));
    assert_eq!(black_view.board[3 * 9 + 3], Color(0));
    let white_view = game.get_view(101);
    assert_eq!(white_view.board[2 * 9 + 2], Color(0));
    assert_eq!(white_view.board[3 * 9 + 3], Color(2));
}

#[test]
fn hidden_moves_on_one_point_cancel_out() {
    let mut mods = GameModifier::default();
    mods.hidden_move = Some(HiddenMoveGo { placement_count: 1, teams_share_stones: false });
    let mut game = seated(&[1, 2], vec![0, 0], (9, 9), mods);
    act(&mut game, 100, ActionKind::Place(2, 2)).unwrap();
    act(&mut game, 101, ActionKind::Place(2, 2)).unwrap();
    act(&mut game, 100, ActionKind::Pass).unwrap();
    act(&mut game, 101, ActionKind::Pass).unwrap();
    assert_eq!(at(&game, 2, 2), Color(0));
    assert_eq!(game.shared.board_visibility.as_ref().unwrap().points[2 * 9 + 2].0, 6);
}

#[test]
fn hidden_placement_can_be_cancelled() {
    let mut mods = GameModifier::default();
    mods.hidden_move = Some(HiddenMoveGo { placement_count: 1, teams_share_stones: false });
    let mut game = seated(&[1, 2], vec![0, 0], (9, 9), mods);
    act(&mut game, 100, ActionKind::Place(2, 2)).unwrap();
    act(&mut game, 100, ActionKind::Cancel).unwrap();
    act(&mut game, 100, ActionKind::Place(5, 5)).unwrap();
    act(&mut game, 100, ActionKind::Pass).unwrap();
    act(&mut game, 101, ActionKind::Pass).unwrap();
    assert_eq!(at(&game, 2, 2), Color(0));
    assert_eq!(at(&game, 5, 5), Color(1));
}
