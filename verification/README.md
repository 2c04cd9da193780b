# robodoan

Blockbuilding search for the 4-dimensional 3×3×3×3 Rubik's cube, with the
puzzle model, the search and the Magic Cube 4D log file format verified with
Verus.

- `src/sim/common`: the rotation group of the hypercube (elements, grips,
  axes, twists, twist names, vectors). The elements are numbered by a table
  proved to be a bijection onto the rotations; a verified breadth-first
  generator lists the rotations, and the tests check that the numbering
  follows its order.
- `src/sim/blockbuilding`: blocks of pieces, layer masks, block lists and
  their canonical form; `pieces.rs` models where every piece's stickers are,
  which twisting, merging and adding blocks are proved to respect.
- `src/search`: the staged depth-first blockbuilding search and its segment
  store. What the search finds is proved to extend the segment it starts
  from, with the pieces moved by the found twists. Every twist sequence
  that the twists' contracts show to reach the target, within the depth,
  without a repeated grip and not cut off by the heuristic, is proved to be
  among the results, and each step keeps, depth by depth, what it was asked
  to keep of them. The full solve is proved to end, when it returns a
  solution, with a single block at the last stage built over exactly the
  cells of the first two layers. That the heuristics never cut off a
  branch that would succeed is not proved.
- `src/mc4d`: which twist each sticker of a log file stands for, and reading
  and writing log files; writing a log read from a file and reading it back
  is proved to give the same log. Words are split at every whitespace
  character that Rust's `char::is_whitespace` accepts.
- `src/util`: bit sets, short vectors, text.
- `app/main.rs`: the command-line program (file I/O, timing, printing).
