# hiddenmate

A verified solver for cooperative shogi mate problems in which some pieces
are hidden: *variable pieces* (覆面駒) whose side is known but whose kind is
one of several candidates, and *kind-known invisible pieces* (透明駒) whose
kind is known but whose square is not. A problem is examined over every
candidate world consistent with a legal initial position, and a line counts
as a solution when the mate is proven in every world that remains.

The library under `src/` is written in Verus; every function carries a
contract over mathematical models of the positions, worlds and states.
Laws that tie functions together (an observed move is one the state can be
advanced by, a move passes the turn and keeps resolved kinds, the initial
worlds are exactly the legal ones with none twice, a replayed history
reaches the same worlds however they were first ordered, the search rounds
keep their state and find the shortest lines first, a search that finds no
new position has no line at all) are stated as proof functions.

## Layout

- `piece`, `square`, `position`, `sfen`: pieces, squares, positions and the
  SFEN and USI notations.
- `rules`, `moves`: attacks and checks, the move generator, legality and
  mate.
- `observed`, `world`, `kind_set`, `world_id_set`: observed moves, candidate
  worlds and their bookkeeping.
- `problem`, `document`, `state`, `replay`, `solver`, `best_mate`,
  `metrics`: variable-piece problems, their enumeration, search and
  Japanese notation.
- `known_invisible`, `known_search`: kind-known invisible pieces: allocation
  from white's hand and the box, placement, transitions, grouping of
  successors, search and notation.
- `help_selfmate`, `low_mem`, `breadth`: ordinary help selfmates and the
  standard cooperative mate search, and the breadth-first search over
  positions with white to move that both shortest-line searches share.
- `smoke`, `census`: the search constraints and filters used when
  generating problems.
- `rule`, `text`: rules, and small text helpers.
- `sfen_source`: reading a position from a viewer URL (through the `url`
  crate) or from plain text.

`app/` holds the command-line front end (argument handling, files, JSON).

`tests/` holds the tests.
