# ects_calc

An ECTS grade calculator: subjects grouped by semester, their weighted grade
average (A = 5 … E = 1, weighted by credits), the credits earned, and a
"what if" projection from planned retake grades. A terminal editor lets one
add, edit, delete, reorder and exclude subjects; the list is kept in a TOML
file.

Layout:

- `src/` — the verified library (Verus):
  - `model.rs` — grades, outcomes, subjects and semesters, and their views;
  - `calculator.rs` — averages (as exact fractions) and credit totals;
  - `persistence.rs` — grade words, semester keys, and the conversion between
    semesters and the sections of the stored document;
  - `app.rs` — the editor state and what each key press does to it;
  - `text.rs` — decimal numbers, credits, ASCII case and trimming;
  - `laws.rs` — properties across operations, proved.
- `app/` — the terminal program: file and TOML I/O, drawing, key events.
- `tests/` — tests of the library.

A subject's credit is kept as the text its floating-point value is written
as, so it is stored back exactly as it was read. The library computes sums
and averages exactly, in thousandths of a credit, whenever every credit that
counts is a whole number of thousandths (`7.5`, `10`, `0.125`); when one is
not (`0.0005`, `-5`, `inf`), it declines and the program computes in
floating point.
