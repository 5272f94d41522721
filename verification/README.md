# layouts_rs

A keyboard layout analyzer and optimizer. The library, under `src/`, is
verified with Verus; `app/` holds the command line around it.

- `matrix`: rectangular grids and positions.
- `layout`: fingers, keys and layouts built from a text definition and a
  configuration; looking keys up, exchanging characters, rendering.
- `swaps`: the moves an optimizer may make (single exchanges, whole
  columns, whole rows) and the laws they obey: a move made twice changes
  nothing, moves keep the layout's characters.
- `ngrams`: the kinds of bigrams and trigrams (skips, stretches, scissors,
  rolls, redirects, alternations), from the rounded distances between keys.
- `optimizer`: a layout under optimization, with pinned characters and a
  bound on how many keys may change.
- `dsl`: the types of the metrics/stats/targets rules language and the
  check that gives each let, stat and target its type. Reading the rules
  from text is not part of the library: its grammar is not available.
- `serialization`, `text`: reading finger assignments, positions and
  fingers from configuration text.
- `corpus`, `report`: the n-grams of a word and the report counter each
  n-gram kind adds to.

Floating point (key geometry, efforts, corpus counts, scores, simulated
annealing) lives in `app/`.
