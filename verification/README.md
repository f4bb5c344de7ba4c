# netlist_explorer

Reads the netlist that KiCad exports and answers questions about it: which parts and
nets there are, where a part is, what a pin is connected to once series resistors,
capacitors, inductors and beads are looked through, and which patterns in the net graph
are worth a look.

`src/` is the library. Every function in it carries a contract that Verus proves.

- `text`, `table`, `lists`, `ranking`, `tally`: strings, string-keyed tables, pages, stable
  sorting and counting, over `Seq` and `Map`.
- `parser`: the scanner and the parser of an export, and what they read back of a text that
  was written (`read_back`).
- `kicad_parser`, `netlist`: a parser for exports without white space, over a fixed set of
  keywords.
- `design`: the design that a netlist makes (`assemble`), and the questions: `details`,
  `neighbors`, `filter`, `nets`, `overview`, `roles`, `search`, `trace`; with what they
  rest on: reference designators (`classes`), sheets (`sheets`), rails (`rails`), values
  (`value`, `bead`), and the walk over the net graph (`walk`).
- `design::walk_laws`, `design::walk_distance`, `design::path_laws`: what a walk and a path
  say about the design. Other laws stand beside the functions that they are about.

Scores and magnitudes are floating-point numbers and are computed in `app/`. The library
takes them as bits, as hundredths, or as what is known of them.

`app/` is a server that offers the questions as tools over standard input and output. It
takes the path of an export as its argument.

`tests/` runs the library.
