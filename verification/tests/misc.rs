use variant_go::display::{board_to_view_coord, view_to_board_coord, Direction, Input, PaletteOption};
use variant_go::game::clock::{ClockRule, FischerClock, GameClock, Millisecond, PlayerClock, SimpleClock};
use variant_go::game::{Color, TraitorGo};
use variant_go::message::Error;
use variant_go::states::play::traitor::TraitorState;

fn reading(c: &PlayerClock) -> (i128, i128) {
    match c {
        PlayerClock::Plain { last_time, time_left } => (last_time.0, time_left.0),
    }
}

#[test]
fn view_coordinates_on_a_flat_board() {
    assert_eq!(view_to_board_coord((3, 4), false, 2, (9, 9), (1, 1)), (3, 4));
    assert_eq!(board_to_view_coord((3, 4), false, 0, (9, 9), (0, 0)), vec![(3, 4)]);
    assert_eq!(board_to_view_coord((-1, 4), false, 0, (9, 9), (0, 0)), vec![]);
}

#[test]
fn view_coordinates_on_a_torus() {
    assert_eq!(view_to_board_coord((2, 3), true, 2, (9, 9), (0, 0)), (0, 1));
    assert_eq!(view_to_board_coord((0, 0), true, 2, (9, 9), (0, 0)), (7, 7));
    assert_eq!(view_to_board_coord((0, 0), true, 2, (9, 9), (1, 0)), (8, 7));
    assert_eq!(view_to_board_coord((2, 2), true, 2, (9, 9), (-1, 0)), (8, 0));
    assert_eq!(
        board_to_view_coord((0, 0), true, 2, (9, 9), (0, 0)),
        vec![(2, 2), (11, 2), (11, 11), (2, 11)]
    );
    assert_eq!(board_to_view_coord((4, 4), true, 2, (9, 9), (0, 0)), vec![(6, 6)]);
    assert_eq!(board_to_view_coord((8, 4), true, 2, (9, 9), (0, 0)), vec![(10, 6), (1, 6)]);
}

#[test]
fn inputs_and_palettes() {
    assert_eq!(Input::Place((1, 2), true).into_selection(), Some((1, 2)));
    assert_eq!(Input::Move(Direction::Up, false).into_selection(), None);
    assert_eq!(Input::NoInput.into_selection(), None);
    let normal = PaletteOption::Normal.to_palette();
    assert_eq!(normal.stone_colors[2], "#5074bc");
    assert_eq!(normal.background, "#e0bb6c");
    let colorblind = PaletteOption::Colorblind.to_palette();
    assert_eq!(colorblind.stone_colors[3], "#d52e00");
}

#[test]
fn errors() {
    match Error::other("boom") {
        Error::Other(s) => assert_eq!(s, "boom"),
        _ => panic!("wrong variant"),
    }
}

#[test]
fn simple_clock() {
    let mut c = GameClock::new(ClockRule::Simple(SimpleClock { turn_time: Millisecond(30_000) }), 2);
    assert!(c.paused);
    assert_eq!(reading(&c.clocks[1]), (0, 30_000));
    c.initialize_clocks(Millisecond(1_000));
    assert_eq!(c.advance_clock(0, Millisecond(9_000)), Millisecond(0));
    assert_eq!(reading(&c.clocks[0]), (1_000, 30_000));
    c.pause(false);
    assert_eq!(c.advance_clock(0, Millisecond(6_000)), Millisecond(25_000));
    assert_eq!(reading(&c.clocks[0]), (6_000, 25_000));
    c.end_turn(0, Millisecond(6_000));
    assert_eq!(reading(&c.clocks[0]), (6_000, 30_000));
    assert_eq!(reading(&c.clocks[1]), (6_000, 30_000));
}

#[test]
fn fischer_clock() {
    let rule = ClockRule::Fischer(FischerClock { main_time: Millisecond(60_000), increment: Millisecond(5_000) });
    let mut c = GameClock::new(rule, 2);
    c.initialize_clocks(Millisecond(1_000));
    c.pause(false);
    assert_eq!(c.advance_clock(1, Millisecond(11_000)), Millisecond(50_000));
    assert_eq!(c.advance_clock(1, Millisecond(11_000)), Millisecond(50_000));
    assert_eq!(c.advance_clock(1, Millisecond(12_000)), Millisecond(49_000));
    c.end_turn(1, Millisecond(12_000));
    assert_eq!(reading(&c.clocks[1]), (12_000, 54_000));
    assert_eq!(reading(&c.clocks[0]), (12_000, 60_000));
    let copy = c.copy();
    assert_eq!(copy.clocks, c.clocks);
}

#[test]
fn traitor_stones() {
    let rule = TraitorGo { traitor_count: 2 };
    let mut t = TraitorState::new(2, 10, 42, &rule);
    assert_eq!(t.team_states.len(), 2);
    assert_eq!(t.team_states[0].stone_count, 10);
    assert_eq!(t.team_states[0].traitor_count, 2);
    assert!(t.take_stone(Color(1), 11));
    assert_eq!(t.team_states[0].stone_count, 9);
    assert_eq!(t.team_states[0].traitor_count, 1);
    assert!(!t.take_stone(Color(1), 5));
    assert_eq!(t.team_states[0].stone_count, 8);
    assert_eq!(t.team_states[0].traitor_count, 1);
    assert_eq!(t.team_states[1].stone_count, 10);
}

#[test]
fn traitor_colors_all_go_to_the_other_team() {
    let rule = TraitorGo { traitor_count: 4 };
    let mut t = TraitorState::new(2, 4, 7, &rule);
    for _ in 0..4 {
        assert_eq!(t.next_color(Color(1)), Color(2));
    }
    assert_eq!(t.team_states[0].traitor_count, 0);
    assert_eq!(t.team_states[0].stone_count, 0);
    let rule = TraitorGo { traitor_count: 0 };
    let mut t = TraitorState::new(3, 5, 7, &rule);
    assert_eq!(t.next_color(Color(3)), Color(3));
}
