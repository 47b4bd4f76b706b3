# ratchet

Point an agent at your code, name the number to improve, and let it run:
edit, benchmark, keep if better, revert if worse, repeat.

## Layout

- `src/` — the verified library (Verus): the parsing, comparisons and
  decisions that work on integers and text, with contracts over
  mathematical models. Judgements on floating-point values (ratios, the
  plateau and biggest-jump hints, UCB1 scores, chart scaling) are made in
  `app/` and handed in as flags, numbers or positions:
  - `num` — metric values as IEEE-754 bit patterns, compared as IEEE-754 does;
  - `text` — the string operations tables and logs go through (`lines`,
    `split`, `trim`, `find`, `replace`, `join`, decimal notation);
  - `config` — the configuration, its validation and its derived columns and grep pattern;
  - `compare` — single-metric comparison, Pareto dominance and its laws, best-value selection;
  - `table`, `results` — reading the results table for the loop and for the scoreboard;
  - `decide` — which result is kept, the best kept row, the rollback target, and the ratchet laws;
  - `session` — the loop's state machine (baseline first, iteration
    counting, stopping, outcomes, rollback), the experiment tag search and
    branch names, agent command, change summary;
  - `metrics` — reading values out of benchmark output (the grep is a
    prefix match), constraint limits, baselines;
  - `bandit` — the UCB1 strategy bandit's bookkeeping and arm selection;
  - `hints` — strategy hints from the experiment history.
- `app/` — the command-line program: argument parsing, files, git, processes,
  signals, template rendering, JSON/YAML, and floating-point formatting.
- `tests/` — tests of the library.

The templates `templates/program.md.j2` and `templates/iterate.md.j2` are
read at run time from the working directory; `ratchet init` and
`ratchet loop` need them there.
