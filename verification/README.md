# Kvadrat strategy

Kvadrat is a falling-block word game: every tetromino carries four letters, words
that cross pieces score when their line is cleared, and a game ends after forty
lines. This crate is the game's strategy kernel and what surrounds it, written in
Verus: each function states in `requires` and `ensures` what it does, and Verus
proves it.

- `src/` is the verified library. `board`, `pieces`, `placement`, `lexicon` and
  `words` are the rules; `binary64`, `float64`, `evaluation`, `ranking`, `search`,
  `rerank`, `roots` and `pool` choose moves; `native` and `abi` are the interfaces;
  `random`, `bags`, `game`, `records`, `episode` and `corpus` play and record games; `source`,
  `fragments`, `features`, `models`, `counterfactual`, `rollout`, `trials`,
  `selection`, `compare` and `statistics` hold training data and experiments;
  `bytes`, `text`, `options`, `archive`, `digest` and `clock` are tools.
- `app/` is the command-line program around it: files, threads, training with
  Candle, and the inference of learned models in floating point.
- `tests/` runs the library on concrete values.

The heuristic is binary64 arithmetic. The library computes it in whole numbers:
every value is a multiple of 2^-55, and each operation rounds to 53 bits as the
hardware does, so results equal those of floating point bit for bit. What a learned
model thinks of a leaf comes in as a bit pattern; `float64` adds and multiplies such
patterns as the hardware does.

What is taken on trust is marked in the source: `String::push`, gzip from `flate2`,
SHA-256 from `sha2`, and the text of a moment from `chrono`.
