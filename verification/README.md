# crosstune_generator

Dense crossword layouts from song metadata and lyric snippets, written in
Verus: the library's behaviour is stated in `requires`/`ensures` contracts and
proved.

Layout:

- `src/text.rs` — character classes (from std), UTF-8 widths, the grid form of
  a text (alphabetic characters, upper-cased), word splitting, trimming,
  decimal rendering.
- `src/input.rs` — the puzzle description and its validation.
- `src/derive.rs` — answer candidates: phrases of titles, artists, albums and
  lyric snippets, custom answers, scores, ranking, clues; and the laws that
  every derived candidate is the grid form of its phrase, ranked, and unique
  per track and answer.
- `src/grid.rs` — the grid, the placement rules, listing placements, clue
  numbering; and the laws of placement (letters stay consistent, entries are
  linked, every valid placement is listed, and any layout built on a new
  grid has distinct entries, every filled cell on an entry, and as many
  filled cells as letters less crossings).
- `src/search.rs` — scoring, move weights, the depth-first search from
  centred start entries. Its time checks go through a `Timer`: the clock
  against a deadline, or a count of checks that answer "not yet"; with no
  deadline, or with a count, the search's result is stated exactly
  (`search_best_n_with_timer`): the start entries (the best scored of the
  seeded shuffle of the first candidates), the order in which each level's
  moves are shuffled (`shuffle_order`, named after the seed and the lengths
  of the earlier shuffles), the layouts and the count of placed entries.
- `src/ranking.rs` — layout signatures and the ranked list of the best
  distinct layouts.
- `src/runtime.rs` — the clock and the seeded generator (`Generator`, modelled
  by its seed and the lengths it has shuffled) the search uses.
- `src/render.rs` — the printed report.
- `src/generate.rs` — validate, derive, search, report.
- `app/main.rs` — the command line: reads the YAML file and prints the report.

Input (YAML): `width`, `height`, and `tracks`, each with `name`, `artist`,
an optional `album`, optional `snippets` and optional `custom` answers
(`answer`, `clue`).
