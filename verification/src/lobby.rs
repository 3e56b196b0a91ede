use vstd::prelude::*;

use crate::game::clock::Millisecond;
use crate::game::controller::{accepted_setup, created, Game};
use crate::game::GameModifier;
use crate::message::Error;

verus! {

/// The longest name a game may have, in bytes.
pub const MAX_GAME_NAME_LEN: usize = 50;

/// How long a player waits between starting two games, in nanoseconds.
pub const GAME_START_INTERVAL: u128 = 120_000_000_000;

/// The whole seconds left to wait, `since` nanoseconds after the player's
/// last game started.
pub open spec fn wait_secs(since: u128) -> u64 {
    ((GAME_START_INTERVAL - since) / 1_000_000_000) as u64
}

/// Whether a player may start a game named with `name_len` bytes: the name
/// must be short enough, the request must come from a session (`session`
/// is `None` without one) whose player is identified, and the player's last
/// game (started `since_last_game` nanoseconds ago, if any) must be two
/// minutes old. Gives the player, or the error the request is refused with.
pub open spec fn game_start_check(name_len: usize, session: Option<Option<u64>>, since_last_game: Option<u128>) -> Result<u64, Error> {
    if name_len > MAX_GAME_NAME_LEN {
        Err(Error::Other("Name too long"))
    } else {
        match session {
            None => Err(Error::Other("No session")),
            Some(None) => Err(Error::Other("Not identified")),
            Some(Some(user)) => match since_last_game {
                Some(d) => if d < GAME_START_INTERVAL {
                    Err(Error::GameStartTimer(wait_secs(d)))
                } else {
                    Ok(user)
                },
                None => Ok(user),
            },
        }
    }
}

/// Checks that a player may start a game: see `game_start_check`.
pub fn check_game_start(name_len: usize, session: Option<Option<u64>>, since_last_game: Option<u128>) -> (r: Result<
    u64,
    Error,
>)
    ensures
        r == game_start_check(name_len, session, since_last_game),
{
    if name_len > MAX_GAME_NAME_LEN {
        return Err(Error::other("Name too long"));
    }
    let user = match session {
        None => {
            return Err(Error::other("No session"));
        },
        Some(None) => {
            return Err(Error::other("Not identified"));
        },
        Some(Some(u)) => u,
    };
    if let Some(d) = since_last_game {
        if d < GAME_START_INTERVAL {
            let secs = (GAME_START_INTERVAL - d) / 1_000_000_000;
            return Err(Error::GameStartTimer(secs as u64));
        }
    }
    Ok(user)
}

/// Starts a game for a player: once `game_start_check` lets them, the setup
/// must be one `Game::standard` accepts, which creates the game.
pub fn start_game(
    name_len: usize,
    session: Option<Option<u64>>,
    since_last_game: Option<u128>,
    seats: &[u8],
    komis: Vec<i32>,
    size: (u8, u8),
    mods: GameModifier,
) -> (r: Result<(u64, Game), Error>)
    ensures
        match game_start_check(name_len, session, since_last_game) {
            Err(e) => r == Err::<(u64, Game), Error>(e),
            Ok(user) => if accepted_setup(seats@, komis@, size) {
                r matches Ok((u, g)) && u == user && exists|now: Millisecond| #[trigger] created(seats@, komis@, size, mods, now, g)
            } else {
                r == Err::<(u64, Game), Error>(Error::Other("Rules not accepted"))
            },
        },
{
    let user = match check_game_start(name_len, session, since_last_game) {
        Ok(u) => u,
        Err(e) => {
            return Err(e);
        },
    };
    match Game::standard(seats, komis, size, mods) {
        Some(g) => Ok((user, g)),
        None => Err(Error::other("Rules not accepted")),
    }
}

} // verus!
