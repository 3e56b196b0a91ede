# variant_go

The rules engine of a server for Go variants, verified with Verus.

A game (`game::Game`) holds seats, a board, scores, clocks and the phase it
is in: hidden placement, play, scoring or done. Its actions are specified as
relations between the game before and after (`game::controller::game_action`
and the relations of each phase), and every executable function is proved
against them. The variants are modifiers of a game: pixel go, ponnuki
points, zen go, hidden moves, one colour display, N+1, captures giving
points, tetris go, toroidal boards and clocks. The traitor stones of
traitor go are drawn by a state of their own (`TraitorState`), which no
game modifier switches on yet.

Layout:

- `src/game.rs` and `src/game/`: boards, groups, clocks, visibility sets,
  the game controller (seats, actions, views, replays), SGF export and game
  results.
- `src/states.rs` and `src/states/`: the phases of a game, with the capture,
  ko, tetris, N+1 and traitor rules of play.
- `src/display.rs`: the coordinate transforms, palettes and layouts of the
  board view.
- `src/rooms.rs` and `src/lobby.rs`: the lobby's list of rooms and the
  checks made before a game starts.
- `src/game/refusal.rs` and `src/game/modes.rs`: laws on refused and
  cancelled actions, the recorded position and visibility modes.
- `app/lib.rs`: the replay byte format (CBOR via serde), outside the verified
  library.
- `tests/`: scenarios on concrete games.
