# whipsnake

A front end for a small subset of Python, with two smaller pieces beside it:
a bytecode chunk with its disassembler, and a decoder for WebAssembly binary
modules.

The library in `src/` is verified with Verus; each public function states
what it returns in its contract.

- `lexer` turns source text into tokens, including `Indent`, `Dedent` and
  `NewLine` tokens for the line structure. Its contract says that the tokens
  that stand for text are the source text at their places, in order, with
  the kinds and values that the text calls for, each on the line it stands
  on, that the blocks opened are closed, and that indentation tokens only
  follow line ends. `lex_faults` states, as functions of the source text,
  the tokens the lexer yields (their kinds, texts and lines) and the faults
  it reports (each with its line), so that the contract of `lex` says which
  errors are recorded and when none is.
- `parser` is a recursive-descent parser. `grammar` states the grammar it
  follows over token sequences; the parser's contract says that, when no
  error was found, the tokens it read form the statements it returns, and
  that programs laid out as the lexer lays them out (the last line may also
  end at the end marker) are parsed without error. In the grammar an `if`
  statement keeps every `elif` part; a second `else` replaces an `elif`
  chain only when that chain already ended in an `else`. `derivation`
  holds the facts about the grammar that the completeness part rests on.
- `environment` holds variable bindings in nested scopes; looking a name up
  gives the innermost binding of it.
- `printer` renders syntax trees as S-expressions, on one line when short
  and aligned over several lines otherwise; `layout_laws` proves that
  replacing each line break of the layout, with the indentation after it,
  by one space gives the one-line text back.
- `eval_errors` builds the errors that running a program raises (unbound
  names, calls with the wrong number of arguments, attributes, calls of
  values that are no functions), with their exact messages.
- `operators` holds what the operators, truth values and type names of the
  language are on runtime values; floating-point arithmetic is named there
  and carried out by the caller.
- `error` collects the errors of every stage, `token` and `ast` hold the data
  types, `repl` the helpers of the interactive loop, and `text` exact string
  building.
- `bytecode` and `wasm` hold the chunk, the disassembler, the binary reader,
  the module decoder, the store and the runtime's instantiation.

`app/` is the `whipsnake` command: the interactive loop, running a script,
and the evaluator, whose values hold floating-point numbers.
