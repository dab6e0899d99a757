# gdstyle (verified core)

A linter for GDScript (Godot 4) whose library is written in Verus: the
lexer, the parser, the lint rules and the linting pipeline (line-ending
normalization, suppression comments, per-rule configuration) carry
`requires`/`ensures` contracts that Verus proves.

Layout:

- `src/token.rs`, `src/lexer.rs`: tokens and the lexer. The lexer is
  described as a state machine over the source (`scan_ok`, `step_ok`,
  `lexes`): `Lexer::next_token` takes one step of it and `Lexer::tokenize`
  returns the whole token stream that it describes. A text token is the one
  its first character calls for, read as far as it goes (longest operator,
  whole identifier or keyword, whole number literal with its exact integer,
  float or error kind, string up to its closing quote or an `unterminated
  string` error, comment to the end of its line); its text is the source at
  its offset and its line is one more than the newlines before it. `Indent`
  and `Dedent` come only at line starts where the indentation width changes
  (a tab to the next multiple of four columns, a space one column), `Newline`
  only at newlines outside brackets, a backslash before a newline joins the
  lines, and `Dedent` and `Eof` tokens are empty.
- `src/ast.rs`, `src/parser.rs`: class members and the parser. `Parser::parse`
  reads tokens up to the first `Eof` as a chain of top-level steps
  (`pstep_ok`, `parses`): annotations, comments and declarations each become
  the member read at their first token, class annotations wait for the
  declaration after them, other tokens are skipped, and each declaration
  ends exactly where its grammar says (`decl_end`: signature, parameter
  list, body, enum braces, get/set block, inner class body, read the way
  `block_parses` describes). A declaration takes
  its name from the identifier that follows its keyword and has a type hint
  exactly when a `:` follows that name, spelled as the type after the `:`
  in canonical spacing (`type_text`), and so do parameters; an `extends`
  declaration's base is the dotted name after the keyword, an enum's items
  are exactly the names of its body in order, and a function's body line
  count is the number of lines from its body's first token to its last line
  (`body_lines`).
- `src/rules/`: the naming, format and quality rules. Each rule states
  exactly which findings it reports, as a specification over the parsed file,
  its lines and its tokens; `rules::run_all_rules` runs the enabled ones.
- `src/linter.rs`: `lint_source`, which lints the tokens that `lexes`
  describes and the members that `parses` describes, with the laws of the
  suppression comments and of disabled rules in its contract.
- `src/text.rs`: character-sequence helpers.
- `app/main.rs`: the command-line front end (file reading and printing).
- `tests/`: the test suite.
