# minesweeper_backend

The server of a minesweeper game with single-player games and two-player online
lobbies. The game rules, the lobby and match decisions and the request checks form
a library verified with Verus; a thin HTTP server around it stores games in
PostgreSQL and pushes lobby events over WebSockets.

## Layout

- `src/` — the verified library
  - `board.rs`: cells, board shape, neighbourhoods, numbers, win check
  - `mines.rs`: the seeded generator, mine placement and the safe first opening
  - `flood.rs`: opening a cell and the empty region around it
  - `game.rs`: moves (open, chord, mark), statuses, what a client is shown
  - `game_laws.rs`: properties that hold across moves
  - `online.rs`: lobby parameters, seeds, invite codes and links, match checks
  - `auth.rs`, `credentials.rs`: token claims, the `Authorization` header,
    account requests and password checks (through `validator` and `bcrypt`)
  - `rate_limit.rs`: request buckets and the sliding window per client
  - `public_url.rs`: the public address used in invite links, allowed origins
  - `config.rs`, `text.rs`, `errors.rs`: settings, text helpers, refusals
- `app/` — the HTTP server (axum, sqlx, tokio, jsonwebtoken): routes, storage,
  JSON forms of the library's types
- `tests/` — tests of the library on concrete values
