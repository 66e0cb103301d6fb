# scrabble

The game of Scrabble and a computer opponent for it, written in Verus: the
rules of the game, the board, racks and the bag of tiles, word lists held
as finite state machines, and a move generator, each with contracts that
Verus proves.

## Layout

- `src/game`: tiles, racks, the bag, plays, the board (placing tiles,
  scoring and checking the words a play makes) and the game itself (turns,
  redraws, passes and the end of the game).
- `src/util`: positions and bitboards, grids and their text layout,
  scoring tables, tile counts, word boundaries, and the word machines: a
  builder that merges identical suffixes as sorted words are added, and two
  compact layouts of the result.
- `src/ai`: the lookup of tiles that fit across a line, the move generator,
  what the board's checks make of a generated move, and the players that
  pick a move from what it generates.
- `tests`: tests of the library on concrete values.
- `app`: what lies outside the proofs: reading word lists from files,
  printing boards, serde copies of the library's types, and the opponent
  that weighs moves with floating point.

Among what is proved: a play that the board accepts can be taken back; the
tiles of a game are neither made nor lost; the builder's machine accepts
exactly the words added to it, and can be followed from its initial state
exactly along the beginnings of those words; every generated move places
tiles of the rack in a line on empty squares and forms words the machine
accepts, with its score stated exactly; every such move, on the start
square or against tiles already played, is generated, and none twice;
each generated move passes every check the board makes before it reads
the words; the computer players pick the best of those moves by their
measure; a finished game has a winner, and winners and losers together
are the final scores.
