# metaritual

A compositional algebra for music: patterns, signals, harmony and routing
graphs that compile to a JSON description of an Ableton Live session.

## Layout

- `src/` — the verified library, checked by Verus:
  - `harmony` — pitch-class distance, minimal voice leading, chord labels,
    note-name parsing, and the voice-leading graph (neighbours, fewest-hop and
    lightest paths, seeded random walks, neo-Riemannian orbits);
  - `construct` — Bjorklund/Euclidean rhythm distribution and stacked
    interval sets;
  - `patch` — the routing topology of a patch: node kinds and their ports,
    edges, validation, series and parallel composition, feedback;
  - `ir` — the routing part of the compiled representation;
  - `combine` — pairing two event streams by position.
- `tests/` — tests of the library.
- `app/` — the layer around it: the floating-point pattern and signal
  algebra, effects, parameters, synth presets, weaves, compilation to JSON,
  and playback.
