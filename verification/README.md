# toycc

A compiler for a small imperative language with structs, references and generic types,
written and proved in Verus.

The passes, each a module of `src/passes/`:

- `lexing`: program text to tokens;
- `parse`: tokens to an AST (structs with sorted fields, functions keyed by signature);
- `make_hir`: AST to HIR: variables resolved to identifiers, expressions typed, calls
  recorded in a call graph; `try_lower_ast` type checks a program first and refuses one that
  does not type check;
- `hir_to_mir`: HIR to a control-flow graph of blocks over numbered cells;
- `concretize_mir`: the generic MIR instantiated for every function instance the entry
  function reaches;
- `cmir_to_lir`: concrete MIR to LIR, where every cell is a chunk of a stack frame and every
  field access an offset;
- `lir_codegen`: LIR to ARM assembly text.

`src/shared/` holds the identifiers, types and type tables, the call graph and its
monomorphization, the dependency graph of struct definitions, the binary operators, and the
text helpers;
`src/stages/` holds the intermediate representations.

Each pass states its result over a mathematical model of its input and output (spec functions
over `Seq`, `Map` and views of the representations); properties that relate several functions
of a module are proof functions whose names begin with `law_`. `app/main.rs` is the command-line driver: it
reads a source file and writes each stage, and the assembly, to a directory.
