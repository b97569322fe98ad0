# compare-json

Structured comparison of two JSON values: the library lists what changed
between a *base* and a *contrast* value, each entry with its path (as
segments and in dotted form such as `users[0].name`), the side it belongs to
(`base`, `contrast` or `both`) and the kind of change (`added`, `deleted`,
`typeChanged`, `valueChanged`).

Options: arrays compared by index (the default), along a longest common
subsequence, or as multisets; keys and/or string values compared without
regard to case; numeric strings equal to the numbers they read as.

## Layout

- `src/` – the library, verified with Verus.
  - `types.rs` – values, options and differences.
  - `spec.rs` – what a comparison reports, as mathematical functions.
  - `compare.rs` – the comparison, proved to report exactly that.
  - `lcs.rs`, `unordered.rs` – the two array matchings and their properties.
  - `laws.rs` – properties of every comparison (a value compared with
    itself, consistency of entries, objects compared key by key,
    minimality of the LCS method, the unordered method as a multiset
    match).
  - `path.rs`, `table.rs`, `utils.rs`, `text.rs`, `seqs.rs` – path strings,
    the text table, type names, string operations, concatenation.
- `tests/` – tests on concrete values.
- `app/` – the command-line program: argument parsing, reading inputs,
  JSON parsing and output.

## Numbers

Floating point stays out of the library. A number is held as its exact
integer value (when it was written as an integer) and the *key* of its value
as a double: the double's bit pattern with negative zero folded into zero.
Two finite doubles are equal exactly when their keys are. A string carries the
key of the double it reads as, if any. The program computes these keys when it
reads the inputs.
