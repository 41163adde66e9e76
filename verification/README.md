# ironcalc_base

Spreadsheet functions of the IronCalc engine (dynamic arrays, text, lambda
helpers, reshaping) written in Verus, each with a contract that states what it
returns, and proved.

Numbers are held exactly, as billionths in an `i128`. Where a function
computes new numbers (SEQUENCE), values that do not fit that range give
`#NUM!`; this bound comes from the representation.

The lambda helpers (MAP, REDUCE, SCAN, BYCOL, BYROW, MAKEARRAY) and LET
take the lambda, or the evaluation of an argument, as a Rust closure: the
formula evaluator that builds these closures is not part of the library.
Their contracts state each result in terms of what the closure may return
for the arguments it is given (for LET: which scope each value and the
calculation are evaluated in, and which names are bound to which values).

## Layout

- `src/` — the verified library.
  - `number.rs`: numbers, held exactly in billionths, and their general text.
  - `values.rs`: error kinds, array elements, cells, results, and the views
    of arrays as sequences.
  - `model.rs`: the evaluation context and the LET scope.
  - `compare.rs`: equality and order of array elements.
  - `dynamic_arrays.rs`: SEQUENCE, FILTER, UNIQUE, SORT, SORTBY, XMATCH, TAKE,
    DROP, CHOOSECOLS, CHOOSEROWS, VSTACK, HSTACK, WRAPROWS, WRAPCOLS, EXPAND,
    TEXTSPLIT and the checks of RANDARRAY.
  - `text.rs`, `textutil.rs`, `wildcard.rs`: the text functions, text
    searching and splitting, and wildcard patterns.
  - `text_bytes.rs`: ASC, JIS, DBCS and the byte-counting text functions.
  - `lambda_helpers.rs`, `matrix.rs`, `array_manipulation.rs`: MAP, REDUCE,
    SCAN, BYCOL, BYROW, MAKEARRAY, MUNIT, GROUPBY, PIVOTBY, TOCOL, TOROW and
    the zero-padding forms of the reshaping functions.
  - `grouping.rs`: thousands separators and the dollar form of FIXED and
    DOLLAR.
  - `commands.rs`: the answers of the desktop application's file commands.
  - `laws.rs`: properties relating several functions.
  - `strings.rs`: string helpers and the standard-library calls the library
    relies on without proof.
- `tests/` — tests of the library on concrete values.
- `app/` — what stays outside the proofs: floating-point functions (matrix
  algebra, bond formulas, number formatting and parsing, random arrays), file
  and system access of the desktop commands, and the tools that rebuild the
  language and locale tables.
