# gnubg

The integer core of a GNU Backgammon engine, written in Verus: boards and
their 10-byte keys, PositionIDs and MatchIDs, legal move generation and
ordering, position classification, the integer features the neural-network
inputs are scaled from, the layout of the weights file, the transposition
table and evaluation cache of the search, and the text handling of the
command line and of an interactive game.

Every function in `src/` carries a contract that Verus proves. The public
proof functions state the laws that tie functions together, for example:

- a position key, a PositionID and a MatchID read back to what was written;
- a move that move generation lists replays, with `apply_move`, to the
  position its key records and keeps each side's checkers, and the order
  of the dice does not change the list of positions;
- a stored transposition or cache entry is found again.

`app/` holds what is not verified: the command line, reading files, the
floating-point neural-network evaluation, the alpha-beta search over
floating-point equities, and the browser bindings. It calls the library for
everything else.

`tests/` runs the library on concrete values.
