use variant_go::display::{display_mode_for, DisplayMode, Preset};
use variant_go::rooms::{apply_room_event, GameRoom, RoomEvent};

fn room(id: u32, name: &str) -> GameRoom {
    GameRoom { id, name: name.to_string() }
}

fn ids(rooms: &Vec<GameRoom>) -> Vec<u32> {
    rooms.iter().map(|r| r.id).collect()
}

#[test]
fn rooms_stay_newest_first() {
    let mut rooms = Vec::new();
    apply_room_event(RoomEvent::Announce(room(5, "five")), &mut rooms);
    apply_room_event(RoomEvent::Announce(room(9, "nine")), &mut rooms);
    apply_room_event(RoomEvent::Announce(room(1, "one")), &mut rooms);
    apply_room_event(RoomEvent::Announce(room(7, "seven")), &mut rooms);
    assert_eq!(ids(&rooms), vec![9, 7, 5, 1]);
    apply_room_event(RoomEvent::Announce(room(7, "renamed")), &mut rooms);
    assert_eq!(ids(&rooms), vec![9, 7, 5, 1]);
    assert_eq!(rooms[1].name, "renamed");
    apply_room_event(RoomEvent::Close(5), &mut rooms);
    assert_eq!(ids(&rooms), vec![9, 7, 1]);
    apply_room_event(RoomEvent::Close(4), &mut rooms);
    assert_eq!(ids(&rooms), vec![9, 7, 1]);
    apply_room_event(RoomEvent::Close(9), &mut rooms);
    apply_room_event(RoomEvent::Close(1), &mut rooms);
    assert_eq!(ids(&rooms), vec![7]);
}

#[test]
fn layouts() {
    assert_eq!(display_mode_for(1000, 800), DisplayMode::Mobile);
    assert_eq!(display_mode_for(1100, 800), DisplayMode::Desktop(true));
    assert_eq!(display_mode_for(1399, 800), DisplayMode::Desktop(true));
    assert_eq!(display_mode_for(1400, 800), DisplayMode::Desktop(false));
    assert_eq!(DisplayMode::Desktop(true).class(), "desktop small");
    assert_eq!(DisplayMode::Desktop(false).class(), "desktop large");
    assert_eq!(DisplayMode::Mobile.class(), "mobile");
    assert!(DisplayMode::Mobile.is_mobile());
    assert!(!DisplayMode::Desktop(true).is_mobile());
}

#[test]
fn preset_names() {
    assert_eq!(Preset::Standard.name(), "Standard");
    assert_eq!(Preset::ThreeColor.name(), "Three Color Go");
    assert_eq!(Preset::ThreeColorRengo.name(), "Three Color Rengo");
}
