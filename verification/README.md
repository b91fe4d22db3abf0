# chip8-lang

A compiler for a small functional language whose programs run on the CHIP-8 virtual
machine, written in Verus. Source text goes through a lexer, a parser, a semantic
analyzer and a code generator, and comes out as a ROM image to be loaded at 0x200.

## Layout

- `src/` is the verified library.
  - `lexer/`: tokens, and `Lexer::tokenize`, whose result is stated exactly by the
    lexical grammar `lex_from`; token spans are proved to follow the text.
  - `parser/`: the AST (`ast.rs`), the grammar as spec functions over token sequences
    (`grammar.rs`), and the recursive-descent parser, each of whose steps is proved to
    compute what the grammar says.
  - `analyzer/`: type checking and scope resolution. `rules.rs` states, as spec
    functions, the list of errors a program has; `Analyzer::analyze` is proved to report
    exactly that list. `report.rs` renders each error as text.
  - `codegen/`: code generation. `CodeGen::generate` is proved to give whole CHIP-8
    instruction words followed by the data section of the globals, with the program's
    functions laid out in order (`rom_layout`): each ends in `RET`, or `main` in a jump to
    itself, the opening jump lands on the first word of `main`, and a function whose
    parameters and body stay in registers (literals, variables, `let` blocks, arithmetic,
    logic, comparisons, `if`/`else`, `match` on integer patterns) reaches its closing word
    with the body's value in V0. Every call in the code is a `CALL` to the start of the last
    function of that name (`calls_land`), every tail self-call a `JP` to the start of the
    function that holds it (`jumps_land`), and every read of a global an `LD I` of `0x200`
    + code length + the global's offset in the data section (`global_offset`). For a
    program whose only function is such a `main`, the ROM is proved to halt with that value
    in V0. The instructions of each builtin, the copy of a call's result from V0, the load
    after a global's `LD I`, and the copy of a `let` or assigned value into the variable's
    register are stated by the generator's internal steps. `fragment.rs` holds the
    register fragment and the proofs about its code.
  - `machine.rs`: a model of the CHIP-8 instructions the generator uses for such
    programs (jumps, skips and register instructions), and the runs of a ROM on it.
  - `chip8.rs`: registers, addresses and the instruction set, with the exact encoding
    of every instruction.
  - `emitter/`: the ROM size limit.
  - `table.rs`, `text.rs`: association lists and string building used throughout.
- `tests/`: the test suite, with a CHIP-8 interpreter that runs compiled programs.
- `app/`: the command-line driver (file input and output).

## Usage

    chip8-lang program.ch8l

writes `program.ch8`.
