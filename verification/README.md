# migine

A tokenizer and precedence-climbing parser for a small language of
mathematical expressions, verified with Verus, and its Python bindings.

- `src/` is the verified library:
  - `tokenized.rs`: operators, tokens, and the tokenizer (`tokenizez`), with
    its specification `tokenize_spec` over characters and their Unicode classes;
  - `ast.rs`: the syntax tree and the precedence table of the operators;
  - `parsed.rs`: the parser (`Parser`), with its specification `parse_spec`;
  - `laws.rs`: proved laws — the tokenizer never looks behind and whitespace
    separates tokens; operators group by the precedence table; a step of the
    parser never passes the first `EOF`;
  - `messages.rs`: the messages of the errors, by their texts;
  - `chars.rs`: the character classes of std (whitespace stated, the others
    by name), and string helpers;
  - `lib.rs`: `parse`, from text to tree.
- `app/` is the Python extension module `_core_migine` (pyo3): the node
  classes, the conversion of trees to Python objects (real literals become
  `float`s there), and the messages that show a real or complex literal.
- `tests/` exercises the library on concrete inputs.

Real and complex literals are carried through the library by their decimal
texts, which `str::parse::<f64>` accepts; the Python layer turns them into
numbers.
