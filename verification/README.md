# rs_wordle_solver

A Wordle solving library whose logic is verified with Verus.

## Layout

- `src/results.rs`: letter results of a guess against an objective (one per byte, letters matched
  by the byte offsets at which they start), compressed results, errors.
- `src/restrictions.rs`: what is known about the objective (`WordRestrictions`), with a
  mathematical model (`WordRestrictionsView`) of every update and merge.
- `src/consistency.rs`: laws about restrictions: learning true results keeps the objective
  possible, merging adds exactly the other restrictions, and a wrong guess rules itself out.
- `src/data.rs`: word banks (word lengths counted in bytes, as `str::len` counts them), letter
  counters and trackers.
- `src/grouped.rs`: the sectioned word list used by `MaxScoreGuesser`.
- `src/scorers.rs`: the `WordScorer` trait and the integer scorers, plus the integer cores of the
  expected-elimination computations.
- `src/engine.rs`: the `Guesser` trait, `RandomGuesser`, `MaxScoreGuesser`,
  `play_game_with_guesser` (whose turns are tied to the guesser's selections and updates) and
  `interactive_turn`, the decisions of an interactive game.
- `src/ranking.rs`: ranking and best-score selection, with the parallel versions run by rayon.
- `src/benchmark.rs`, `src/cli.rs`: the decisions behind the command-line program.
- `src/trie.rs`: a prefix lookup over `radix_trie`.
- `app/`: the command-line program (argument parsing, file reading, printing) and the
  floating-point scorers.
- `tests/`: tests of the library.
