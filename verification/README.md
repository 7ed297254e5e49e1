# spsa_tui

An SPSA tuner for UCI chess engines: it perturbs the engine's tunable options,
plays the two perturbed engines against each other with fastchess, and moves
the options by the result.

`src/` is the library, with its contracts and proofs:

- `text` — the `str` operations the rest relies on (lines, splitting, trimming,
  words, integer reading and writing), each with the meaning std gives it.
- `fastchess` — the fastchess command line of a match, and the score read from
  fastchess's report.
- `uci` — what each line of an engine's answer to `uci` means, and which
  options are tuned.
- `params` — parameters by name, and the names of the parameter checkpoint files.
- `checkpoint` — the history of a run: every parameter's values, kept sorted by
  name, and the latest match result.
- `control` — the keys of the terminal interface, when the next iteration
  starts, when a checkpoint is saved, and the time left.

Real numbers are held in the library as the bits of their IEEE 754 doubles; the
arithmetic on them (gain sequences, perturbation, update, averages, the chart)
is in `app/`, together with processes, files, threads and the terminal.
