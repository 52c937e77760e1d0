# latin_squares

A library for Latin squares, verified with Verus: squares of fixed and run-time order,
partial squares, permutations of rows, columns and symbols, completion by constraint
propagation and depth-first search, transversals, subsquares, orthogonal mates, sets of
mutually orthogonal squares, cycle structures, conjugates, Latin rectangles stored row by
row, a compact binary coding of reduced squares, text formats for all of them and TikZ
pictures of partial squares.

Isotopy-class and main-class representatives are searched with a table of row-pair
normalisations: for the row pairs of least cycle type, the values are renamed by blocks of
the pair's cycles, and each entry of the table's list for that type gives a candidate with
its rows ordered by their first entries. The table's contract is exact: the list of a
cycle type holds every renaming of the values that commutes with the canonical second row
of that type, each once, in increasing order, with the column order that undoes it. The
search contracts state that the result is the least candidate in reading order (or the
input, when none comes before it) and that the lists of permutations returned record every
way the search reaches it; that this least candidate is the same for every square of a
class is not proved here.

Layout:

- `src/` — the library; its functions carry contracts that Verus proves, apart from one
  trusted call into the standard library that collects characters into a `String`.
- `tests/` — ordinary Rust tests of the library.
- `app/main.rs` — a command-line tool that reads squares from standard input and prints
  what the chosen mode computes.
