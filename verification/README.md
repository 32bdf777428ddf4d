# go19

Go on nineteen lines: rules, conservative life and death, features for a
policy and value network, the text protocols of Go and of five in a row, and
the decisions of search, self-play and training. The library under `src/` is
written in Verus; every function there is proved against its contract. The
program around it, under `app/`, reads and writes files, talks to the terminal
and the training device, and computes in floating point.

## The library

| Module | What it holds |
| --- | --- |
| `grid`, `points`, `chains` | points, connected sets, chains and liberties |
| `game`, `moves` | boards, captures, superko, legal actions |
| `benson`, `life`, `scoring` | unconditional life, reading of small areas, seki, counting |
| `symmetry` | the eight symmetries, and that rules and life do not depend on them |
| `notation`, `text`, `console` | coordinates, words and numbers, the board at a terminal |
| `features`, `model`, `packing` | what the network reads of a position |
| `lines`, `batch` | tokens and attention along lines, padded batches |
| `tree`, `walk` | the search tree, and one simulation in it |
| `alphabeta`, `search` | threats of five in a row, and a window search |
| `gtp`, `gomocup` | the two protocols as steps from state and line to reply |
| `rng`, `selfplay`, `pipeline` | seeded choices, games and their labels, the training loop |
| `replay`, `record` | samples, batches of them, and the snapshot that holds them |
| `distill`, `config`, `profile` | teacher data, settings, timers |

Numbers that are floating point in the program are held as whole numbers here:
komi and scores in thousandths of a point, features as numerators over
`features::scale`, settings and sample weights by their bits, search scores by
ranks that order as the numbers do.

Public proof functions named `law_..` state what holds of the library as a
whole, such as that no position repeats, that living stones are never captured
while their owner passes, that what is called dead cannot be saved, that a
refused command changes nothing, and that a saved replay reads back.

What is trusted: a few calls into `bitvec` (`points`), `lz4_flex` and `bincode`
(`replay`, `record`), and `String::push` (`text`). Each states in its comment what is
taken for granted.

## The program

`app/main.rs` offers the commands `az-init`, `az-search`, `az-bench`,
`az-train-bench`, `az-loop`, `az-eval-best`, `az-arena-best`, `play`, `gtp`,
`gomocup`, `distill` and `solve`. `GO19_PROFILE` in the environment turns on
timers.
