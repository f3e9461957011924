# drill_core

A verified engine for arithmetic and algebra drill worksheets, written in
Verus. Problems, answers and worksheets are modelled exactly: answers are
trees of exact integers, fractions and decimals, and every public function
states what it returns over mathematical models (`int`, `Seq`, views).

## Layout

- `src/` is the library, each module verified:
  - `answer`, `exact`, `exact_value`, `normalize`, `grade`: answer trees,
    exact arithmetic, normalisation and grading;
  - `input`, `mathlive_input`, `semantics`, `schema`: input interfaces and
    the parsing of typed answers under a node budget;
  - `effort`, `solutions`, `worked`: operation plans (how much work a
    problem takes) and worked solutions;
  - `identity`, `rng`, `config`, `sampling`, `generator_support`,
    `curriculum`, `theme`, `model`: problem-set identities, the seeded
    generator, the work budget, layered quotas and the choice of a
    worksheet's problems from a candidate pool;
  - `registry`: theme registrations keyed by numeric theme ID;
  - `generation`: the candidate-pool loop as a state machine and the
    steps from a finished pool to numbered problems, replayable from the
    seed;
  - `editor`: the structured answer editor, whose every state stays within
    the size limit and the input capability;
  - `text`: the one place that builds a `String` from characters.
- `tests/` runs the library on concrete values.
- `app/` is the JSON wire layer (serde) and the generation driver, which
  holds what stays outside the proofs: the clock and the floating-point
  effort that orders candidates.
