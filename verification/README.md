# Spielesammlung

A small game collection — chess, Go, Kniffel (dice poker) and Minesweeper — with a
WebSocket server for two-player rooms. The rules of every game, the decisions of its
screens and the server's room logic live in the verified library under `src/`; each
public function states its behaviour in `requires`/`ensures` and Verus proves it.

Layout:

- `src/chess.rs`, `src/chess_game.rs` — move generation (no move leaves the own king in
  check), castling, en passant, promotion, triple repetition, and the flow of a game
  against a person, the engine or an opponent over the network.
- `src/go.rs`, `src/go_score.rs`, `src/go_ai.rs`, `src/go_session.rs` — groups,
  liberties, captures, suicide and ko, two passes ending the game, area scoring with
  komi, the candidate moves of the computer player, and the Go screen's decisions.
- `src/kniffel.rs`, `src/kniffel_bot.rs`, `src/kniffel_session.rs` — categories and
  points, score sheets, the computer player, and the Kniffel screen's decisions.
- `src/minesweeper.rs`, `src/minesweeper_ui.rs`, `src/minesweeper_entry.rs` — boards,
  flags, flood opening, a safe first click, winning and losing, and the screen's states.
- `src/server.rs` — rooms of at most two players and the server's answer to each request.
- `src/lobby.rs` — what a host shows after asking the server for a room. Each game's
  session takes the opponent's messages as a `RemoteMessage` and decides in `on_remote`
  what they do; `app/remote.rs` only reads the network text into those types.
- `src/text.rs`, `src/sorting.rs`, `src/rng.rs` — decimal text, sorting, random numbers.
- `app/` — the window (eframe/egui), the floating-point chess engine and Go tree search,
  and the Tokio server loop around the library; started with the argument `server`, the
  program runs the server, otherwise the window.
- `tests/` — the tests of the library.
