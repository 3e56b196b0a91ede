use vstd::prelude::*;

verus! {

/// A game room as the lobby lists it.
#[derive(Clone, Debug)]
pub struct GameRoom {
    pub id: u32,
    pub name: String,
}

/// A change to the list of rooms: a room is announced (or announced again
/// with new details), or closed.
#[derive(Debug)]
pub enum RoomEvent {
    Announce(GameRoom),
    Close(u32),
}

/// The rooms are listed newest first: by strictly decreasing id.
pub open spec fn newest_first(rooms: Seq<GameRoom>) -> bool {
    forall|i: int, j: int| 0 <= i < j < rooms.len() ==> rooms[i].id > rooms[j].id
}

/// A room with `id` belongs at position `p` of `rooms`: every room before
/// it is newer, every room from it on is older.
pub open spec fn slot_for(rooms: Seq<GameRoom>, id: u32, p: int) -> bool {
    &&& 0 <= p <= rooms.len()
    &&& forall|i: int| 0 <= i < p ==> (#[trigger] rooms[i]).id > id
    &&& forall|i: int| p <= i < rooms.len() ==> (#[trigger] rooms[i]).id < id
}

/// Looks up the room with `id` by binary search: its position, or the
/// position where it belongs.
fn find_room(rooms: &Vec<GameRoom>, id: u32) -> (r: Result<usize, usize>)
    requires
        newest_first(rooms@),
    ensures
        r matches Ok(k) ==> k < rooms@.len() && rooms@[k as int].id == id,
        r matches Err(p) ==> slot_for(rooms@, id, p as int),
{
    let mut lo: usize = 0;
    let mut hi: usize = rooms.len();
    while lo < hi
        invariant
            lo <= hi <= rooms@.len(),
            newest_first(rooms@),
            forall|i: int| 0 <= i < lo ==> (#[trigger] rooms@[i]).id > id,
            forall|i: int| hi <= i < rooms@.len() ==> (#[trigger] rooms@[i]).id < id,
        decreases hi - lo,
    {
        let mid = lo + (hi - lo) / 2;
        let mid_id = rooms[mid].id;
        if mid_id == id {
            return Ok(mid);
        } else if mid_id > id {
            lo = mid + 1;
        } else {
            hi = mid;
        }
    }
    Err(lo)
}

/// Applies a lobby event to the list of rooms, kept newest first: an
/// announced room replaces the room with its id, or is inserted in its
/// place; a closed room is removed. Events about unknown rooms change
/// nothing else.
pub fn apply_room_event(event: RoomEvent, rooms: &mut Vec<GameRoom>)
    requires
        newest_first(old(rooms)@),
    ensures
        newest_first(final(rooms)@),
        match event {
            RoomEvent::Announce(room) => {
                &&& forall|k: int|
                    0 <= k < old(rooms)@.len() && (#[trigger] old(rooms)@[k]).id == room.id ==> final(rooms)@ == old(
                        rooms,
                    )@.update(k, room)
                &&& (forall|k: int| 0 <= k < old(rooms)@.len() ==> (#[trigger] old(rooms)@[k]).id != room.id) ==> exists|
                    p: int,
                | slot_for(old(rooms)@, room.id, p) && final(rooms)@ == old(rooms)@.insert(p, room)
            },
            RoomEvent::Close(id) => {
                &&& forall|k: int|
                    0 <= k < old(rooms)@.len() && (#[trigger] old(rooms)@[k]).id == id ==> final(rooms)@ == old(
                        rooms,
                    )@.remove(k)
                &&& (forall|k: int| 0 <= k < old(rooms)@.len() ==> (#[trigger] old(rooms)@[k]).id != id) ==> final(rooms)@
                    == old(rooms)@
            },
        },
{
    let ghost s0 = rooms@;
    match event {
        RoomEvent::Announce(room) => {
            match find_room(rooms, room.id) {
                Ok(idx) => {
                    let ghost id = room.id;
                    rooms.set(idx, room);
                    proof {
                        assert forall|k: int| 0 <= k < s0.len() && (#[trigger] s0[k]).id == id implies k == idx by {
                            if k < idx {
                                assert(s0[k].id > s0[idx as int].id);
                            } else if k > idx {
                                assert(s0[idx as int].id > s0[k].id);
                            }
                        }
                    }
                },
                Err(idx) => {
                    let ghost r = room;
                    rooms.insert(idx, room);
                    proof {
                        assert(slot_for(s0, r.id, idx as int));
                        assert forall|i: int, j: int| 0 <= i < j < rooms@.len() implies rooms@[i].id > rooms@[j].id by {
                            if j < idx {
                                assert(rooms@[i] == s0[i] && rooms@[j] == s0[j]);
                            } else if j == idx {
                                assert(rooms@[i] == s0[i]);
                            } else if i < idx {
                                assert(rooms@[i] == s0[i] && rooms@[j] == s0[j - 1]);
                            } else if i == idx {
                                assert(rooms@[j] == s0[j - 1]);
                            } else {
                                assert(rooms@[i] == s0[i - 1] && rooms@[j] == s0[j - 1]);
                            }
                        }
                    }
                },
            }
        },
        RoomEvent::Close(id) => {
            match find_room(rooms, id) {
                Ok(idx) => {
                    rooms.remove(idx);
                    proof {
                        assert forall|k: int| 0 <= k < s0.len() && (#[trigger] s0[k]).id == id implies k == idx by {
                            if k < idx {
                                assert(s0[k].id > s0[idx as int].id);
                            } else if k > idx {
                                assert(s0[idx as int].id > s0[k].id);
                            }
                        }
                        assert forall|i: int, j: int| 0 <= i < j < rooms@.len() implies rooms@[i].id > rooms@[j].id by {
                            if j < idx {
                                assert(rooms@[i] == s0[i] && rooms@[j] == s0[j]);
                            } else if i < idx {
                                assert(rooms@[i] == s0[i] && rooms@[j] == s0[j + 1]);
                            } else {
                                assert(rooms@[i] == s0[i + 1] && rooms@[j] == s0[j + 1]);
                            }
                        }
                    }
                },
                Err(_) => {},
            }
        },
    }
}

} // verus!
