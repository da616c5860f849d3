# rotom

A compiler and decompiler for the Gen 4 Pokémon script engine, written in
Verus: the library's logic carries `requires`/`ensures` contracts that Verus
proves.

## Layout

- `src/` — the verified library.
  - `compiler/` — lexer, parser and syntax tree, preprocessor, source maps,
    the symbol table and the resolution of constant expressions, the
    lowering of statements to IR (control flow, match, break, aliases,
    argument arithmetic), the IR and the code generator that turns IR into
    the binary script format, diagnostics.
  - `decompiler/` — the disassembler of binary scripts, the rendering of
    disassembled scripts back to source, and the levelscript (init-script)
    binary format.
  - `database.rs` — the command database: lookup by name, legacy name,
    `ScrCmd_`/`Dummy` alias and opcode; variant selection.
  - `constant_db.rs` — named constants; a decomp project's symbol table is
    plugged in through the `SymbolSource` trait.
  - `helpers.rs`, `levelscript.rs`, `text.rs` — number text, enum names,
    character and string helpers.
- `app/` — the I/O around the library: JSON files of the command database
  and of levelscripts, loading constants and decomp projects with Uxie,
  terminal diagnostics with codespan, LSP ranges, ROM paths.
- `tests/` — tests of the library.

## Verified properties (examples)

- Levelscript binaries: parsing the image written by `to_bytes` gives the
  levelscript back.
- Source maps: a byte offset converted to a position and back is unchanged.
- Number text: `number_from_str(number_to_str(n))` is `n`.
- Code generation: the output is the image of the jump table, end markers,
  scripts and aligned actions, with every reference slot holding the relative
  offset of its target.
- Disassembly: every label a disassembled script refers to is defined.
- Parsing: between number literals, one or two operators group by
  precedence (`1 + 2 * 3` is `1 + (2 * 3)`, `1 * 2 + 3` is `(1 * 2) + 3`),
  and a single header slot range `#[lo-hi]` expands to every slot from `lo`
  to `hi`.
- Lowering: the opcodes of every statement, `if`/`else`, `while`, `break`
  and `match` included, are exactly those of a specification of the
  lowering, with generated labels `.end_if_gen_n`, `.while_start_gen_n` and
  so on numbered in order.
- Keywords ignore ASCII case; leaving a scope gives back the scopes from
  before it was entered.
