# clark-autoresearch

Primitives for autonomous research loops — experiment lineage, metrics,
gates, outcomes, Pareto frontiers, frontier ranking, an evaluation cache and
an evidence ledger — written in Verus, with each operation's behaviour stated
in its contract and proved.

## Layout

- `src/` — the verified library.
  - `graph`: the experiment graph (allocation, status changes, outcomes,
    gates, lineage walks, frontier tips, best committed node).
  - `outcome`, `acceptance`, `stop`, `policy`: metrics and score codes,
    acceptance verdicts, stop conditions, gates and policies.
  - `pareto`, `frontier`: Pareto frontiers of four kinds and the frontier
    ranking strategies.
  - `cache`, `adapter`, `proposer`, `loop_opt`, `optimize`: the evaluation
    cache, gate runs, the reflective dataset, reflective mutation, the
    decisions of the optimization loop and the loop itself, which calls the
    host's evaluator, proposer and gate runner as functions handed in.
  - `lm_loop`, `absorb`: the research ledger, its dossier and the absorption
    of agent output.
  - `opportunity`, `boss`: dispatch classes and focus texts.
  - `cli_args`: what the command line's arguments mean.
  - `text`, `textmap`, `keyed`, `json`, `ids`, `clock`: text, ordered maps,
    keyed records, JSON values, SHA-1 identifiers and time.
- `app/` — the command-line program: files, HTTP, processes, serialization
  and the floating-point parts (sampling, softmax, opportunity scores).
- `tests/` — tests run against the compiled library.

Scores travel through the library as `i64` codes of the `f64` values they
stand for (`outcome::score_from_bits`), which order exactly as the scores do
when neither is NaN; comparisons of scores, as with `f64`, never hold of a NaN.
