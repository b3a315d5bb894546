# shinri

Two parts of an SMT solver's toolbox, verified with Verus.

- `src/bv`: bit-vector terms and their meaning (`terms`), gate-level
  blasting to CNF (`blast`, one module per operation family, with `word`
  blasting whole term tables), a word-level simplifier (`rewrite`) and the
  lowering of a set of predicates to one CNF (`lower`). The contracts say
  that in every model of the clauses each word carries its term's value,
  that every value of the variables extends to a model, and that
  simplification keeps a term's width and meaning.
- `src/bench`: the benchmark harness's logic: JSON reading and writing of
  result rows, the manifest and archive formats, command-line parsing,
  verdict classification, and the report's counting and statistics.
- `src/text.rs`: text helpers shared by both.
- `app/`: the command-line program around the harness: file and network
  I/O, running solvers under limits, and laying out the Markdown report.
- `tests/`: the test suite, run against the compiled library.

## What is not here

- The arithmetic, array and array/bit-vector theory crates (`shinri-arith`,
  `shinri-abv`, `shinri-arrays`) are built on the number and core crates of
  the solver, whose sources are not part of this tree, so they cannot be
  compiled, let alone verified, here.
- The bit-vector crate's own multiplier circuit (`blast::arith::bvmul`)
  is not part of this tree. The blaster here multiplies by shift and add
  (`bv::blast::arith::bvmul`), proved to give the product modulo `2^w`;
  its gate layout is this crate's own.
- `model::pack` works on the arithmetic crate's values and stays out with it.
- In `app/`: walking the corpus directory tree (the order in which the
  instances come out is `bench::instance::order_instances`), running `z3`
  and `cvc5` as processes (what their output means is
  `bench::oracle::answer_of`), downloading and unpacking archives, and the
  report's floating-point columns.
