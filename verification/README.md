# pyo3_test

A small parser-combinator library over character input, a JSON reader and a
demonstration grammar written with it, and a Python module around them.

- `src/` is the library, verified with Verus.
  - `parser.rs`: the error type, the `Input` trait (slices of `char` and
    `&str`), the `Parser` trait with its builder methods, and `any_char`.
  - `combinators.rs`, `chars.rs`, `repeat.rs`: the parsers. Each states over
    the characters of its input when it may succeed (what it leaves and the
    value it gives), when it may fail and with which error, and on which
    inputs it runs to the end.
  - `refine.rs`: parsers that behave as functions, and how that carries
    from parts to the combinators built on them.
  - `json.rs`: the JSON reader; each reader is proved to agree with a
    function over characters that says what it reads, or which error it gives.
  - `demo.rs`: the demonstration grammar, stated step by step.
  - `laws.rs`: properties that relate the parsers to each other.
  - `foo.rs`, `strings.rs`: plain helpers.
- `tests/` runs the library on concrete inputs.
- `app/` is the Python module: classes and functions that convert Python
  values and hand them to the library.
