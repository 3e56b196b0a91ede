use variant_go::game::result::{team_results, winner, TeamResult};
use variant_go::game::{Color, Seat};

fn seat(team: u8, resigned: bool) -> Seat {
    Seat { player: Some(team as u64), team: Color(team), resigned }
}

#[test]
fn results_mark_resigned_teams() {
    let seats = vec![seat(1, false), seat(2, true), seat(1, false), seat(3, false)];
    let teams = team_results(&vec![10, 30, -4], &seats);
    assert_eq!(
        teams,
        vec![
            TeamResult { half_points: 10, resigned: false },
            TeamResult { half_points: 30, resigned: true },
            TeamResult { half_points: -4, resigned: false },
        ]
    );
    assert_eq!(winner(&teams), 1);
}

#[test]
fn the_first_best_team_wins() {
    let t = |half_points: i32| TeamResult { half_points, resigned: false };
    assert_eq!(winner(&vec![t(5), t(9), t(9)]), 2);
    assert_eq!(winner(&vec![t(0), t(-3)]), 0);
    assert_eq!(winner(&vec![]), 0);
    assert_eq!(winner(&vec![TeamResult { half_points: 50, resigned: true }, t(1)]), 2);
}
