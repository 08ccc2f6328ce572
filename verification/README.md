# vyges-em-ir

EM / IR-drop power-integrity sign-off: a power-grid resistor network in, a
power-integrity report out.

- `src/` is the verified library: the readers of the text formats (`.pdn` networks,
  `.emir` jobs, DEF special nets, placements, pins and via definitions, tech and cell
  LEF, per-net current maps), the extraction of the grid topology from DEF geometry
  (wire pieces split at via landings and instance taps, via stacks bridged in metal
  order, supply nodes from the power pin or the pad layer, load nodes, the node each
  instance's current enters at), the numbering of the solver's free
  nodes, and the command line. Numbers are carried as the exact tokens of the input.
- `app/` is the program around it: file I/O, the floating-point half (resistances from
  sheet resistance, the conjugate-gradient solve, the transient, EM ratios) and the
  report.
- `tests/` runs the library on concrete inputs.
