# scicomp

Verified building blocks for a set of scientific-computing exercises, written in Verus.

- `src/` is the library. Every function in it carries a `requires`/`ensures` contract that
  Verus proves. Laws that relate several functions are public proof functions named `law_*`.
- `tests/` runs the library on concrete inputs.
- `app/` is the command-line program around the library: file and network I/O, floating
  point work (Cholesky, Mandelbrot), threads and the outside crates' image decoding.

Modules of the library:

| module | what it holds |
|---|---|
| `gates` | half/full adders, 4-bit adder and multiplier on bit vectors |
| `fibonacci`, `collatz`, `crc` | integer sequences, Collatz lengths with a memo, CRC-32 |
| `graph` | unweighted graph: text reading, BFS depths, connected components |
| `weighted`, `spanning` | weighted graph: text reading, Prim's tree weight, Dijkstra; why Prim's tree is lightest |
| `sudoku` | backtracking Sudoku solver |
| `knapsack` | 0/1 knapsack by dynamic programming, with the chosen items |
| `partition` | splitting rows among workers |
| `basic`, `expr` | the decisions of a small BASIC interpreter and its expression parser |
| `mtx` | Matrix Market coordinate files |
| `pbm`, `regions` | plain PBM bitmaps, character cells, dark regions of a scanned page |
| `hexscan` | orientation of scanned digit pages and the labels of their digits |
| `listing` | the image names of the course server's HTML index |
| `exercises`, `progress`, `marks` | small arithmetic exercises, a progress counter, mark counting |
| `text`, `tokens` | white space, trimming, lines, tokens and integer parsing |
