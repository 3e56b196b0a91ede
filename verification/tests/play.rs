use variant_go::game::clock::Millisecond;
use variant_go::game::{ActionKind, Color, Game, GameAction, GameModifier, MakeActionError};
use variant_go::states::GameState;

const BLACK: u64 = 100;
const WHITE: u64 = 200;

fn two_player_game(mods: GameModifier) -> Game {
    let mut game = Game::standard(&vec![1, 2], vec![0, 15], (9, 9), mods).unwrap();
    game.take_seat(BLACK, 0).unwrap();
    game.take_seat(WHITE, 1).unwrap();
    game
}

fn play(game: &mut Game, player: u64, action: ActionKind) -> Result<(), variant_go::game::MakeActionError> {
    game.make_action(player, action, Millisecond(0))
}

fn at(game: &Game, x: u32, y: u32) -> Color {
    game.shared.board.points[(y * game.shared.board.width + x) as usize]
}

#[test]
fn placing_a_stone_passes_the_turn() {
    let mut game = two_player_game(GameModifier::default());
    assert_eq!(play(&mut game, BLACK, ActionKind::Place(2, 3)), Ok(()));
    assert_eq!(at(&game, 2, 3), Color(1));
    assert_eq!(game.shared.turn, 1);
    assert_eq!(game.shared.board_history.len(), 2);
    assert_eq!(game.actions.len(), 3);
}

#[test]
fn refused_actions() {
    let mut game = two_player_game(GameModifier::default());
    assert_eq!(play(&mut game, 300, ActionKind::Pass), Err(MakeActionError::NotPlayer));
    assert_eq!(play(&mut game, WHITE, ActionKind::Place(0, 0)), Err(MakeActionError::NotTurn));
    assert_eq!(play(&mut game, BLACK, ActionKind::Place(9, 0)), Err(MakeActionError::OutOfBounds));
    play(&mut game, BLACK, ActionKind::Place(4, 4)).unwrap();
    assert_eq!(play(&mut game, WHITE, ActionKind::Place(4, 4)), Err(MakeActionError::PointOccupied));
    assert_eq!(game.shared.turn, 1);
    assert_eq!(game.shared.board_history.len(), 2);
    assert_eq!(game.actions.len(), 3);
    assert_eq!(game.actions[2], GameAction::play(BLACK, ActionKind::Place(4, 4)));
}

#[test]
fn capture_and_suicide() {
    let mut game = two_player_game(GameModifier::default());
    play(&mut game, BLACK, ActionKind::Place(1, 0)).unwrap();
    play(&mut game, WHITE, ActionKind::Place(0, 0)).unwrap();
    play(&mut game, BLACK, ActionKind::Place(0, 1)).unwrap();
    assert_eq!(at(&game, 0, 0), Color(0));
    assert_eq!(game.shared.points, vec![0, 15]);
    match &game.state {
        GameState::Play(p) => assert_eq!(p.capture_count, 1),
        _ => panic!("not in play"),
    }
    assert_eq!(play(&mut game, WHITE, ActionKind::Place(0, 0)), Err(MakeActionError::Suicide));
    assert_eq!(at(&game, 0, 0), Color(0));
    assert_eq!(game.shared.turn, 1);
}

#[test]
fn captures_give_points() {
    let mut mods = GameModifier::default();
    mods.captures_give_points = Some(variant_go::game::CapturesGivePoints {});
    let mut game = two_player_game(mods);
    play(&mut game, BLACK, ActionKind::Place(1, 0)).unwrap();
    play(&mut game, WHITE, ActionKind::Place(0, 0)).unwrap();
    play(&mut game, BLACK, ActionKind::Place(0, 1)).unwrap();
    assert_eq!(game.shared.points, vec![2, 15]);
}

#[test]
fn ko_is_refused() {
    let mut game = two_player_game(GameModifier::default());
    let moves = [(1, 0), (2, 0), (0, 1), (3, 1), (1, 2), (2, 2), (8, 8), (1, 1), (2, 1)];
    for (i, (x, y)) in moves.iter().enumerate() {
        let player = if i % 2 == 0 { BLACK } else { WHITE };
        play(&mut game, player, ActionKind::Place(*x, *y)).unwrap();
    }
    assert_eq!(at(&game, 1, 1), Color(0));
    let before = game.shared.board.points.clone();
    assert_eq!(play(&mut game, WHITE, ActionKind::Place(1, 1)), Err(MakeActionError::Ko));
    assert_eq!(game.shared.board.points, before);
    assert_eq!(game.shared.turn, 1);
    play(&mut game, WHITE, ActionKind::Place(7, 7)).unwrap();
    play(&mut game, BLACK, ActionKind::Place(6, 6)).unwrap();
    assert_eq!(play(&mut game, WHITE, ActionKind::Place(1, 1)), Ok(()));
    assert_eq!(at(&game, 2, 1), Color(0));
}

#[test]
fn cancel_undoes_a_move() {
    let mut game = two_player_game(GameModifier::default());
    play(&mut game, BLACK, ActionKind::Place(3, 3)).unwrap();
    let board = game.shared.board.points.clone();
    play(&mut game, WHITE, ActionKind::Place(4, 4)).unwrap();
    play(&mut game, BLACK, ActionKind::Cancel).unwrap();
    assert_eq!(game.shared.board.points, board);
    assert_eq!(game.shared.turn, 1);
    assert_eq!(game.shared.board_history.len(), 2);
}

#[test]
fn cancel_at_start_is_refused() {
    let mut game = two_player_game(GameModifier::default());
    assert_eq!(play(&mut game, BLACK, ActionKind::Cancel), Err(MakeActionError::OutOfBounds));
}

#[test]
fn two_passes_start_scoring_and_accepting_ends() {
    let mut game = two_player_game(GameModifier::default());
    play(&mut game, BLACK, ActionKind::Place(4, 4)).unwrap();
    play(&mut game, WHITE, ActionKind::Pass).unwrap();
    assert!(matches!(game.state, GameState::Play(_)));
    play(&mut game, BLACK, ActionKind::Pass).unwrap();
    match &game.state {
        GameState::Scoring(s) => {
            assert_eq!(s.scores, vec![162, 15]);
            assert_eq!(s.players_accepted, vec![false, false]);
        }
        _ => panic!("not scoring"),
    }
    assert_eq!(game.state_stack.len(), 1);
    play(&mut game, BLACK, ActionKind::Pass).unwrap();
    assert!(matches!(game.state, GameState::Scoring(_)));
    play(&mut game, WHITE, ActionKind::Pass).unwrap();
    match &game.state {
        GameState::Done(s) => assert_eq!(s.scores, vec![162, 15]),
        _ => panic!("not done"),
    }
    assert_eq!(play(&mut game, BLACK, ActionKind::Pass), Err(MakeActionError::GameDone));
}

#[test]
fn marking_a_group_dead_rescores() {
    let mut game = two_player_game(GameModifier::default());
    play(&mut game, BLACK, ActionKind::Place(4, 4)).unwrap();
    play(&mut game, WHITE, ActionKind::Place(0, 0)).unwrap();
    play(&mut game, BLACK, ActionKind::Pass).unwrap();
    play(&mut game, WHITE, ActionKind::Pass).unwrap();
    match &game.state {
        GameState::Scoring(s) => assert_eq!(s.scores, vec![2, 17]),
        _ => panic!("not scoring"),
    }
    play(&mut game, BLACK, ActionKind::Place(0, 0)).unwrap();
    match &game.state {
        GameState::Scoring(s) => assert_eq!(s.scores, vec![162, 15]),
        _ => panic!("not scoring"),
    }
    play(&mut game, WHITE, ActionKind::Cancel).unwrap();
    assert!(matches!(game.state, GameState::Play(_)));
    assert_eq!(game.state_stack.len(), 0);
}

#[test]
fn resigning_leaves_the_other_player() {
    let mut game = two_player_game(GameModifier::default());
    play(&mut game, BLACK, ActionKind::Resign).unwrap();
    assert!(game.shared.seats[0].resigned);
    assert!(matches!(game.state, GameState::Done(_)));
    assert_eq!(game.state_stack.len(), 1);
}

#[test]
fn sgf_of_a_short_game() {
    let mut game = two_player_game(GameModifier::default());
    play(&mut game, BLACK, ActionKind::Place(2, 3)).unwrap();
    play(&mut game, WHITE, ActionKind::Place(4, 4)).unwrap();
    let sgf = variant_go::game::export::sgf_export(&game);
    assert_eq!(sgf, "(;FF[4]GM[1]SZ[9];AB[cd];AW[ee];)");
}

#[test]
fn sgf_of_a_rectangular_capture() {
    let mut game = Game::standard(&vec![1, 2], vec![0, 0], (3, 2), GameModifier::default()).unwrap();
    game.take_seat(BLACK, 0).unwrap();
    game.take_seat(WHITE, 1).unwrap();
    play(&mut game, BLACK, ActionKind::Place(1, 0)).unwrap();
    play(&mut game, WHITE, ActionKind::Place(0, 0)).unwrap();
    play(&mut game, BLACK, ActionKind::Place(0, 1)).unwrap();
    let sgf = variant_go::game::export::sgf_export(&game);
    assert_eq!(sgf, "(;FF[4]GM[1]SZ[3:2];AB[ba];AW[aa];AE[aa]AB[ab];)");
}

#[test]
fn dump_and_load_replay_the_game() {
    let mut game = two_player_game(GameModifier::default());
    play(&mut game, BLACK, ActionKind::Place(1, 0)).unwrap();
    play(&mut game, WHITE, ActionKind::Place(0, 0)).unwrap();
    play(&mut game, BLACK, ActionKind::Place(0, 1)).unwrap();
    let replay = game.dump();
    assert_eq!(replay.seats, vec![1, 2]);
    assert_eq!(replay.komis, vec![0, 15]);
    assert_eq!(replay.size, (9, 9));
    assert_eq!(replay.actions.len(), 5);
    let loaded = Game::load(replay).unwrap();
    assert_eq!(loaded.shared.board.points, game.shared.board.points);
    assert_eq!(loaded.shared.seats, game.shared.seats);
    assert_eq!(loaded.shared.turn, game.shared.turn);
    assert_eq!(loaded.actions, game.actions);
}

#[test]
fn view_shows_the_board() {
    let mut game = two_player_game(GameModifier::default());
    play(&mut game, BLACK, ActionKind::Place(2, 3)).unwrap();
    let view = game.get_view(BLACK);
    assert_eq!(view.turn, 1);
    assert_eq!(view.move_number, 1);
    assert_eq!(view.size, (9, 9));
    assert_eq!(view.board[3 * 9 + 2], Color(1));
    assert!(view.board_visibility.is_none());
    let past = game.get_view_at(BLACK, 0).unwrap();
    assert!(past.board.iter().all(|c| *c == 0));
    assert!(game.get_view_at(BLACK, 2).is_none());
}

#[test]
fn no_history_hides_the_past() {
    let mut mods = GameModifier::default();
    mods.no_history = true;
    let mut game = two_player_game(mods);
    play(&mut game, BLACK, ActionKind::Place(2, 3)).unwrap();
    assert!(game.get_view_at(BLACK, 0).is_none());
}

fn snapshot(game: &Game) -> (Vec<Color>, Vec<i32>, usize, usize, usize) {
    (
        game.shared.board.points.clone(),
        game.shared.points.clone(),
        game.shared.turn,
        game.shared.board_history.len(),
        game.actions.len(),
    )
}

#[test]
fn refused_moves_change_nothing() {
    let mut mods = GameModifier::default();
    mods.captures_give_points = Some(variant_go::game::CapturesGivePoints {});
    let mut game = two_player_game(mods);
    let moves = [(1, 0), (2, 0), (0, 1), (3, 1), (1, 2), (2, 2), (8, 8), (1, 1), (2, 1)];
    for (i, (x, y)) in moves.iter().enumerate() {
        let player = if i % 2 == 0 { BLACK } else { WHITE };
        play(&mut game, player, ActionKind::Place(*x, *y)).unwrap();
    }
    let before = snapshot(&game);
    assert_eq!(play(&mut game, WHITE, ActionKind::Place(1, 1)), Err(MakeActionError::Ko));
    assert_eq!(snapshot(&game), before);
    play(&mut game, WHITE, ActionKind::Place(0, 8)).unwrap();
    play(&mut game, BLACK, ActionKind::Place(1, 8)).unwrap();
    let before = snapshot(&game);
    assert_eq!(play(&mut game, WHITE, ActionKind::Place(0, 0)), Err(MakeActionError::Suicide));
    assert_eq!(snapshot(&game), before);
    assert_eq!(play(&mut game, WHITE, ActionKind::Place(1, 0)), Err(MakeActionError::PointOccupied));
    assert_eq!(play(&mut game, WHITE, ActionKind::Place(0, 9)), Err(MakeActionError::OutOfBounds));
    assert_eq!(play(&mut game, BLACK, ActionKind::Pass), Err(MakeActionError::NotTurn));
    assert_eq!(play(&mut game, 7, ActionKind::Pass), Err(MakeActionError::NotPlayer));
    assert_eq!(snapshot(&game), before);
}

#[test]
fn the_board_is_always_the_last_recorded_position() {
    let mut mods = GameModifier::default();
    mods.captures_give_points = Some(variant_go::game::CapturesGivePoints {});
    let mut game = two_player_game(mods);
    let synced = |g: &Game| {
        let last = g.shared.board_history.last().unwrap();
        last.board.points == g.shared.board.points && last.points == g.shared.points
    };
    assert!(synced(&game));
    play(&mut game, BLACK, ActionKind::Place(1, 0)).unwrap();
    play(&mut game, WHITE, ActionKind::Place(0, 0)).unwrap();
    assert!(synced(&game));
    play(&mut game, BLACK, ActionKind::Place(0, 1)).unwrap();
    assert!(synced(&game));
    assert_eq!(play(&mut game, WHITE, ActionKind::Place(0, 0)), Err(MakeActionError::Suicide));
    assert!(synced(&game));
    play(&mut game, WHITE, ActionKind::Pass).unwrap();
    assert!(synced(&game));
    play(&mut game, BLACK, ActionKind::Cancel).unwrap();
    assert!(synced(&game));
    play(&mut game, WHITE, ActionKind::Resign).unwrap();
    assert!(synced(&game));
}

#[test]
fn zen_go_replays_from_the_setup_teams() {
    let mut mods = GameModifier::default();
    mods.zen_go = Some(variant_go::game::ZenGo { color_count: 2 });
    let mut game = Game::standard(&[1, 2, 1], vec![0, 15], (9, 9), mods).unwrap();
    game.take_seat(100, 0).unwrap();
    game.take_seat(200, 1).unwrap();
    game.take_seat(300, 2).unwrap();
    play(&mut game, 100, ActionKind::Place(0, 0)).unwrap();
    assert_eq!(at(&game, 0, 0), Color(1));
    assert!(game.shared.seats.iter().all(|s| s.team == Color(2)));
    let replay = game.dump();
    assert_eq!(replay.seats, vec![1, 2, 1]);
    let loaded = Game::load(replay).unwrap();
    assert_eq!(loaded.shared.board.points, game.shared.board.points);
    assert_eq!(at(&loaded, 0, 0), Color(1));
}

#[test]
fn marking_a_group_twice_restores_the_scoring() {
    let mut game = two_player_game(GameModifier::default());
    play(&mut game, BLACK, ActionKind::Place(4, 4)).unwrap();
    play(&mut game, WHITE, ActionKind::Place(0, 0)).unwrap();
    play(&mut game, BLACK, ActionKind::Pass).unwrap();
    play(&mut game, WHITE, ActionKind::Pass).unwrap();
    play(&mut game, BLACK, ActionKind::Pass).unwrap();
    let before = match &game.state {
        GameState::Scoring(s) => (s.scores.clone(), s.points.points.clone(), s.players_accepted.clone()),
        _ => panic!("not scoring"),
    };
    assert_eq!(before.2, vec![true, false]);
    play(&mut game, WHITE, ActionKind::Place(0, 0)).unwrap();
    play(&mut game, WHITE, ActionKind::Place(0, 0)).unwrap();
    match &game.state {
        GameState::Scoring(s) => {
            assert_eq!(s.scores, before.0);
            assert_eq!(s.points.points, before.1);
            assert_eq!(s.players_accepted, vec![false, false]);
            assert!(s.groups.iter().all(|g| g.alive));
        }
        _ => panic!("not scoring"),
    }
}

#[test]
fn one_colour_display_plays_the_same() {
    let mut plain = two_player_game(GameModifier::default());
    let mut mods = GameModifier::default();
    mods.visibility_mode = Some(variant_go::game::VisibilityMode::OneColor);
    let mut one = two_player_game(mods);
    let moves = [(BLACK, (1, 0)), (WHITE, (0, 0)), (BLACK, (0, 1)), (WHITE, (0, 0)), (WHITE, (5, 5))];
    for (player, (x, y)) in moves {
        assert_eq!(play(&mut plain, player, ActionKind::Place(x, y)), play(&mut one, player, ActionKind::Place(x, y)));
        assert_eq!(plain.shared.board.points, one.shared.board.points);
        assert_eq!(plain.shared.turn, one.shared.turn);
        assert_eq!(plain.shared.points, one.shared.points);
    }
    let view = one.get_view(BLACK);
    assert_eq!(view.board[0 * 9 + 1], Color(2));
}

#[test]
fn cancel_restores_scores_after_a_capture() {
    let mut mods = GameModifier::default();
    mods.captures_give_points = Some(variant_go::game::CapturesGivePoints {});
    let mut game = two_player_game(mods);
    play(&mut game, BLACK, ActionKind::Place(1, 0)).unwrap();
    play(&mut game, WHITE, ActionKind::Place(0, 0)).unwrap();
    let before = snapshot(&game);
    play(&mut game, BLACK, ActionKind::Place(0, 1)).unwrap();
    assert_eq!(game.shared.points, vec![2, 15]);
    play(&mut game, WHITE, ActionKind::Cancel).unwrap();
    let after = snapshot(&game);
    assert_eq!((after.0, after.1, after.2, after.3), (before.0, before.1, before.2, before.3));
}

#[test]
fn cancel_undoes_a_move_under_a_running_clock() {
    let mut mods = GameModifier::default();
    mods.clock = Some(variant_go::game::Clock {
        rule: variant_go::game::clock::ClockRule::Simple(variant_go::game::clock::SimpleClock { turn_time: Millisecond(60_000) }),
    });
    let mut game = two_player_game(mods);
    game.shared.clock.as_mut().unwrap().pause(false);
    game.make_action(BLACK, ActionKind::Place(3, 3), Millisecond(1_000)).unwrap();
    let before = snapshot(&game);
    assert!(game.has_room_for_action(Millisecond(2_000)));
    game.make_action(WHITE, ActionKind::Place(4, 4), Millisecond(2_000)).unwrap();
    game.make_action(BLACK, ActionKind::Cancel, Millisecond(3_000)).unwrap();
    let after = snapshot(&game);
    assert_eq!((after.0, after.1, after.2, after.3), (before.0, before.1, before.2, before.3));
}
