use variant_go::game::GameModifier;
use variant_go::lobby::{check_game_start, start_game};
use variant_go::message::Error;

fn other(r: Result<u64, Error>) -> &'static str {
    match r {
        Err(Error::Other(s)) => s,
        _ => panic!("not an other error"),
    }
}

#[test]
fn game_start_checks() {
    assert_eq!(other(check_game_start(51, Some(Some(3)), None)), "Name too long");
    assert_eq!(other(check_game_start(50, None, None)), "No session");
    assert_eq!(other(check_game_start(10, Some(None), None)), "Not identified");
    assert!(matches!(check_game_start(10, Some(Some(3)), None), Ok(3)));
    assert!(matches!(check_game_start(10, Some(Some(3)), Some(120_000_000_000)), Ok(3)));
    assert!(matches!(
        check_game_start(10, Some(Some(3)), Some(5_000_000_001)),
        Err(Error::GameStartTimer(114))
    ));
    assert!(matches!(
        check_game_start(10, Some(Some(3)), Some(0)),
        Err(Error::GameStartTimer(120))
    ));
}

#[test]
fn starting_a_game() {
    let (user, game) = start_game(4, Some(Some(8)), None, &[1, 2], vec![0, 15], (9, 9), GameModifier::default()).unwrap();
    assert_eq!(user, 8);
    assert_eq!(game.shared.seats.len(), 2);
    match start_game(4, Some(Some(8)), None, &[1, 9], vec![0, 15], (9, 9), GameModifier::default()) {
        Err(Error::Other(s)) => assert_eq!(s, "Rules not accepted"),
        _ => panic!("setup accepted"),
    }
    assert!(matches!(
        start_game(4, Some(Some(8)), Some(1), &[1, 2], vec![0, 15], (9, 9), GameModifier::default()),
        Err(Error::GameStartTimer(119))
    ));
}
