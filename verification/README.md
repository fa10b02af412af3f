# bulloak

A Solidity test generator for the Branching Tree Technique, written in Verus.

`bulloak scaffold` turns a `.tree` specification into a Solidity test contract;
`bulloak check` compares a `.tree` specification with an existing `.t.sol` file
and, where it can, fixes the file.

## Layout

- `src/`: the verified library.
  - `syntax/`: the tokenizer, parser and semantic analyzer of `.tree` files.
  - `hir/`: the translation of a tree into functions and modifiers, and the
    combination of several trees of one file into one contract.
  - `scaffold/`: modifier discovery, the Solidity emitter, and the emitted
    code seen as lines (`scaffold/lines.rs`).
  - `check/`: the structural rule, its violations and their fixes, over a model
    of a parsed Solidity file (`sol.rs`), and the step-by-step order of
    `bulloak check --fix` (`check/fixing.rs`).
  - `error.rs`, `span.rs`, `text.rs`, `utils.rs`: error reports, positions and
    string helpers.
- `tests/`: tests of the library.
- `app/`: the command line: argument parsing, file I/O, Solidity parsing and
  formatting, and colored output.

Every function in `src/` carries a contract that Verus proves. The few calls
into `std`, `indexmap` and `unicode-xid` whose behaviour is taken on trust are
marked `#[verifier::external_body]`, each with a doc comment saying what is
claimed of it.
