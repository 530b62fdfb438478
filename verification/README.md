# noughts

Super noughts and crosses: noughts and crosses played on boards nested to any depth,
where the cell a player marks decides the board the opponent must play in next, with a
computer player that searches the game by Monte Carlo tree search.

- `src/` is the library, verified with Verus: the rules of the game (`game`), the
  settings panel's state (`ui`), the search (`ai`), window titles (`common`) and the
  names of exported games (`export`). Contracts are stated over the models in
  `game::model`; the laws that span several operations are in `game::laws`.
- `app/` is the program around it: the raylib window, drawing, input, the search
  thread's loop and reading and writing game files.
- `tests/` runs the library on concrete games.
