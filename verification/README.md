# number_guessing

A multi-player number-guessing game over TCP: three players connect and take
turns guessing a secret number from 0 to 19; the first to guess it wins and
the others are told.

- `src/` is the verified library: the game (`data_type`), text rendering and
  input reading (`text`), and the decisions of each server: the threaded one
  with a lock (`box_cas`), the state actor (`state_actor`), the `select()`
  loop (`event_loop`), the async loop over `FuturesUnordered`
  (`event_loop_futures_unordered`) and the one with a task per player
  (`event_loop_spawn_local`).
- `app/` runs the servers and the terminal game: sockets, system calls,
  threads, channels, the async runtime and the terminal, around the game and
  the servers' decisions, which it takes from the library.
- `tests/` drives the library through the games the servers play.
