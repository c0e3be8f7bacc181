# cuicui_chirp

A parser and interpreter for `chirp` files, a small language describing bevy
entity hierarchies, verified with Verus.

## Layout

- `src/` is the verified library:
  - `lex`: the lexer (byte classes, comments, strings, the 8-byte
    search used to skip comments) and its specification `lex`.
  - `stream`: the token stream the parser reads.
  - `ast`: the syntax tree and its mathematical view.
  - `grammar`: the parser, specified by `sp_chirp_file` and friends.
  - `interpret`: template expansion and parameter substitution; a chirp
    file becomes a sequence of operations (`Op`), specified by
    `interpretation`.
  - `spawn`: the parent bookkeeping used to spawn the entities of those
    operations, method name checks and error reporting.
  - `parse_dsl`: method arguments: splitting, Unicode trimming, escapes.
  - `quick`: the simple comma splitter of method argument text.
  - `dsl`: the base DSL, which names entities.
  - `state`: the life cycle of a scene instance (loading, reloading when
    its file changes, removal).
- `tests/` runs the library on concrete inputs.
- `app/` performs the operations on a bevy `World`: the DSL traits, bevy
  argument parsers, reflection-based DSL, error reports, and the asset
  loader with the systems that spawn, reload and remove scenes.

## What is proved

Every function of `src/` has a contract over the specification functions
above. Among the laws: interpretation is balanced (every children list
started is completed), spawning never runs out of parents, more expansion
fuel never changes the result, escapes, trimming and argument splitting
keep text valid UTF-8, and split arguments are trimmed and exactly as many
as asked for.

## Not included

The `parse_dsl_impl` attribute macro, which writes a `ParseDsl`
implementation from an `impl` block, is not part of this crate: it is a
procedural macro (a crate of its own, working on `syn` syntax trees and
producing code with `quote!`), and none of its work is logic of the
library that can be stated over plain values.
