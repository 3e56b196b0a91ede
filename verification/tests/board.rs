use variant_go::game::board::wrap_point;
use variant_go::game::groups::group_index;
use variant_go::game::{find_groups, Board, Color, Visibility};

fn board_with(width: u32, height: u32, toroidal: bool, stones: &[((u32, u32), u8)]) -> Board<Color> {
    let mut b = Board::<Color>::empty(width, height, toroidal);
    for (p, c) in stones {
        b.set_point(*p, Color(*c));
    }
    b
}

#[test]
fn points_are_stored_row_by_row() {
    let mut b = Board::<Color>::empty(4, 3, false);
    assert_eq!(b.points.len(), 12);
    b.set_point((3, 1), Color(2));
    assert_eq!(b.points[7], Color(2));
    assert_eq!(b.get_point((3, 1)), Color(2));
    assert_eq!(b.idx_to_coord(7), Some((3, 1)));
    assert_eq!(b.idx_to_coord(12), None);
    assert!(b.point_within((3, 2)));
    assert!(!b.point_within((4, 0)));
    assert!(!b.point_within((0, 3)));
}

#[test]
fn wrapping_points() {
    assert_eq!(wrap_point(2, 2, 5, 5, false), Some((2, 2)));
    assert_eq!(wrap_point(-1, 2, 5, 5, false), None);
    assert_eq!(wrap_point(-1, 2, 5, 5, true), Some((4, 2)));
    assert_eq!(wrap_point(5, 5, 5, 5, true), Some((0, 0)));
    let b = Board::<Color>::empty(5, 4, true);
    assert_eq!(b.wrap_point(2, -1), Some((2, 3)));
    assert_eq!(b.wrap_point(2, 4), Some((2, 0)));
}

#[test]
fn neighbours_on_flat_and_toroidal_boards() {
    let flat = Board::<Color>::empty(9, 9, false);
    assert_eq!(flat.surrounding_points((0, 0)), vec![(1, 0), (0, 1)]);
    assert_eq!(flat.surrounding_points((4, 4)), vec![(3, 4), (5, 4), (4, 3), (4, 5)]);
    let torus = Board::<Color>::empty(9, 9, true);
    assert_eq!(torus.surrounding_points((0, 0)), vec![(8, 0), (1, 0), (0, 8), (0, 1)]);
    assert_eq!(flat.surrounding_diagonal_points((0, 0)), vec![(1, 1)]);
    assert_eq!(torus.surrounding_diagonal_points((0, 0)).len(), 4);
}

#[test]
fn groups_are_found_with_liberties() {
    let b = board_with(9, 9, false, &[((0, 0), 1), ((1, 0), 1), ((3, 3), 2)]);
    let groups = find_groups(&b);
    assert_eq!(groups.len(), 2);
    let black = groups.iter().find(|g| g.team == Color(1)).unwrap();
    let white = groups.iter().find(|g| g.team == Color(2)).unwrap();
    let mut pts = black.points.clone();
    pts.sort();
    assert_eq!(pts, vec![(0, 0), (1, 0)]);
    assert_eq!(black.liberties, 3);
    assert!(black.alive);
    assert_eq!(white.points, vec![(3, 3)]);
    assert_eq!(white.liberties, 4);

    let index = group_index(&b, &groups);
    assert_eq!(index.len(), 81);
    let bi = groups.iter().position(|g| g.team == Color(1)).unwrap();
    let wi = groups.iter().position(|g| g.team == Color(2)).unwrap();
    assert_eq!(index[0], bi);
    assert_eq!(index[1], bi);
    assert_eq!(index[3 * 9 + 3], wi);
}

#[test]
fn shared_liberties_count_once() {
    let b = board_with(3, 3, false, &[((0, 1), 1), ((1, 0), 2), ((1, 2), 1), ((2, 1), 2)]);
    let groups = find_groups(&b);
    assert_eq!(groups.len(), 4);
    for g in &groups {
        assert_eq!(g.points.len(), 1);
        assert_eq!(g.liberties, 3);
    }
    let c = board_with(3, 3, false, &[((0, 1), 1), ((1, 1), 1), ((1, 0), 1)]);
    let groups = find_groups(&c);
    assert_eq!(groups.len(), 1);
    assert_eq!(groups[0].liberties, 5);
}

#[test]
fn toroidal_groups_join_across_the_edge() {
    let b = board_with(5, 5, true, &[((0, 2), 1), ((4, 2), 1)]);
    let groups = find_groups(&b);
    assert_eq!(groups.len(), 1);
    assert_eq!(groups[0].points.len(), 2);
    assert_eq!(groups[0].liberties, 6);
}

#[test]
fn visibility_bits() {
    let mut v = Visibility::new();
    assert!(v.is_empty());
    v.set(2, true);
    assert!(v.get(2));
    assert!(!v.get(1));
    assert_eq!(v.len(), 1);
    assert_eq!(v.into_value(), 4);
    v.set(2, false);
    assert!(v.is_empty());
}

#[test]
fn colors() {
    assert!(Color::empty().is_empty());
    assert_eq!(Color::black(), Color(1));
    assert_eq!(Color::white(), Color(2));
    assert_eq!(Color(3).as_usize(), 3);
    assert_eq!(Color::name(Color(1)), "Black");
    assert_eq!(Color::name(Color(4)), "Red");
    assert_eq!(Color::name(Color(9)), "???");
    assert_eq!(Color::default(), Color(0));
}

#[test]
fn hashes_follow_the_board() {
    let a = board_with(9, 9, false, &[((2, 2), 1)]);
    let b = board_with(9, 9, false, &[((2, 2), 1)]);
    let c = board_with(9, 9, false, &[((2, 2), 2)]);
    assert_eq!(a.hash(), b.hash());
    assert_ne!(a.hash(), c.hash());
}

#[test]
fn group_points_come_in_breadth_first_order() {
    // A plus sign: from its last point (1, 2) the walk goes up to the centre,
    // then left, right and up from there.
    let b = board_with(4, 3, false, &[((0, 1), 1), ((1, 1), 1), ((2, 1), 1), ((1, 0), 1), ((1, 2), 1)]);
    let groups = find_groups(&b);
    assert_eq!(groups.len(), 1);
    assert_eq!(groups[0].points, vec![(1, 2), (1, 1), (0, 1), (2, 1), (1, 0)]);
    let scoring = variant_go::states::ScoringState::new(&b, 2, &[0, 0]);
    assert_eq!(scoring.groups.len(), 1);
    assert_eq!(scoring.groups[0].points, groups[0].points);
}
