# bril_passes

Compiler passes over [Bril](https://capra.cs.cornell.edu/bril/) programs,
verified with Verus.

- `src/` is the verified library:
  - `bril.rs`: the instruction and function types, their models, and the
    split of a function into basic blocks;
  - `cfg.rs`: the control-flow graph as predecessor and successor lists;
  - `dominance.rs`: the dominator sets and dominance frontiers;
  - `reaching.rs`, `names.rs`: reaching definitions as a least solution of
    their equations, over lists of names used as sets;
  - `loops.rs`: a function's blocks, graph and dominators, its natural
    loops and its reaching definitions;
  - `licm.rs`: loop-invariant code motion into blocks placed before loops;
  - `ssa.rs`: placement of `set`/`get` instructions along dominance
    frontiers and renaming of the first block;
  - `trace.rs`: speculation markers around a trace and stitching it into
    `main`;
  - `skeleton.rs`: the decisions of the LLVM skeleton pass.
- `tests/` holds the tests of the library.
- `app/` is the command-line front end (JSON in and out) and the LLVM plugin.
