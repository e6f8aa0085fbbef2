# nermal

The logic of a terminal workbench, verified with Verus: which shells a machine offers, what
environment a pane gets, how the command is put on the search path, how a process tree is ended,
when an update holds back a start, and what the panels show.

- `src/` is the library. It touches no file, no process and no clock: what was read is handed to it
  as plain values, and what is to be done comes back the same way. Laws that span functions are the
  public proof functions named `law_...`.
- `app/` does the reading, the writing and the drawing around it.
- `tests/` runs the library.

What a function cannot prove for itself stands behind a few trusted items, each with a comment that
says what is believed: the calls of `regex` behind the search, and a few conversions of the standard
library.
