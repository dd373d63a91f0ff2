# Kyber

Kyber is a small statically typed scripting language: `let`/`const`
declarations of `int`, `float` and `bool` variables, assignments, `print`,
`if`/`else`, `while` and counting `for` loops. The evaluator also runs
function definitions and calls, which the parser has no syntax for yet:
they are built as statements directly.

## Layout

- `src/` is the verified library.
  - `token.rs`, `lexer.rs`: source text to tokens. `try_tokenize` is
    specified by the spec function `lex`.
  - `ast.rs`, `parser.rs`: tokens to statements, by recursive descent.
    Every parsing method is specified by a spec function of the grammar
    (`parse_comparison_at`, ..., `program_items`).
  - `value.rs`, `environment.rs`: runtime values, declared types, and the
    stack of scopes, viewed as a sequence of maps.
  - `evaluator.rs`: execution. A `Machine` holds a stack of pending work and
    a stack of values and advances one step at a time; `next` specifies each
    step exactly.
- `app/` is the command-line program and read-eval-print loop.
- `tests/` runs programs end to end.

## Floating point

The library holds a float as the bits of an IEEE 754 binary64 number and
never computes on it. When a step needs a float literal's value, an int
converted to a float, float arithmetic or a comparison of numbers that are
not both small ints, the machine returns `Action::Compute` with a `Request`,
and its caller hands the result back with the next step. The caller in
`app/` does these computations with `f64`.

## Laws

Besides the contract of each function, the library proves, among others:
a lexed program never makes the parser run out of tokens; a line break
only separates tokens; a value stored in a variable can be read back;
entering a scope, defining in it and leaving it restores the environment;
a statement that runs to its end leaves the scopes it found with the same
names, mutability and declared types (adding only its own declarations);
every variable always holds a value of its declared type; and a call-free
expression never changes the environment.
