# nbs_fractal

Fractal structures of NBS songs. Every function of the library is specified
and proved by Verus, except the small wrappers that call outside crates
(`counter`, `itertools`, `rsnbs`): their contracts are trusted, and each one's
doc comment says what it claims of the outside function.

- `src/analysis/`: the time/event plane of a song as a multiset of points,
  translation equivalence classes (a kernel repeated at a set of offsets),
  their bounded forms, and the extraction of one class after another from a
  plane, with what is left as the residual.
- `src/schematic/`: layouts that say, for every position of their bounding
  box, which block stands there: the combinators (arranged, evenly arranged,
  overlaid, mirrored, clipped, floored), the compact zigzag track of note
  block tiles, and the linear time-proportional lanes.
- `src/schematic/song.rs`: a song's notes split into tracks where their
  layers have a gap, the song's length, and the choice of linear lanes.
- `src/note.rs`: tones as plain values and their order on the event axis.
- `app/`: the command line program that reads a song, builds a layout and
  writes the litematic file.
- `tests/`: tests on concrete values.
