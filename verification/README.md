# dlx

Exact cover by dancing links, with its contracts proved by Verus.

## Layout

- `src/dlx_table.rs`: the dancing-links table over index sets: building it
  from sets, and covering and uncovering elements and rows.  Covering a
  column and uncovering it again gives back the table as it was; the same
  holds for rows.
- `src/dlx.rs`: the search.  `dlx` returns every exact cover of the listed
  elements by the rows of a table, each once, and nothing else, and leaves
  the table as it found it; `exact_cover` returns every exact cover of sets
  of named elements and nothing else.
- `src/dlx_items.rs`: the search with primary and secondary columns on the
  same table: every solution it lists covers each primary column once and
  each secondary column at most once, and it lists every such solution
  once.
- `src/item_cover.rs`: exact cover over items given by value (`dlx`,
  `dlx_iter`, `dlx_first`): the sets are numbered, searched on a table, and
  read back; the same laws hold of the sets and items.  `dlx_tasks` splits
  the search into tasks, the sets holding the item it branches on first,
  and `dlx_task_solutions` searches some of them; the program runs the
  tasks in threads.
- `src/dlxc.rs`: exact cover with colours (`dlxc_iter`, `dlxc_first` and
  their randomized forms): every solution listed is one, every one is
  listed once, and secondary items shared by chosen options agree on a
  colour.  `dlxc_first_search` tells a search that ran out of time from
  one that found no solution; without a time limit it finds a solution
  whenever there is one.
- `src/naming.rs`: element names and the index sets that stand for them.
- `src/dlx_table2.rs`: a second table layout, with item headers and spacer
  nodes; the table built from sets is laid out exactly (`layout`): the
  headers, then each non-empty set as a spacer and one node per member,
  each linked at the end of its column.
- `src/exact_cover2.rs`: exact cover by recursive branching over sets given
  as membership vectors.  For a non-empty list of vectors of one width,
  each with some `true`, `exact_cover` returns every exact cover once and
  nothing else (`src/bool_cover_laws.rs` holds the proof).
- `src/exact_cover.rs`: exact cover of named elements by boolean rows on
  shrinking sub-matrices, branching on the column with the fewest `true`s;
  its result is stated as the search it makes (`solutions_of`), on the
  inputs where it never meets two rows and no column.
- `src/knapsack.rs`: the 0/1 knapsack problem by dynamic programming over
  the items after the first (item 0 is never taken), and the naive search,
  which takes nothing; the value `knapsack_dp` finds is the greatest one
  among the choices of items after the first, when each of them takes
  some volume.
- `src/queens.rs`: n queens by depth-first search: every placement found is
  a solution, and when the search finishes it has found each of them once,
  in descending order of columns row by row; the first search finds the
  greatest.
  The searches take an optional time limit in nanoseconds and say
  whether they ran out of time; a limit of 0 has always run out.
- `src/queens_dlx.rs`: n queens as exact cover: every placement found is
  one, `n_queens_dlx_iter` finds each of them once, and
  `n_queens_dlx_first_search` ends exhausted only when there is none.
- `src/sudoku.rs`: sudoku: clues, the candidates they leave, sudoku by
  depth-first search, and `sudoku_dlx`, which lists every exact cover of
  the board by the candidates' options, each once, and nothing else.
- `src/cnf_sat.rs`: the items of satisfiability as an exact cover problem.
- `src/vertex_cover.rs`: checking a vertex cover.
- `src/test_cases.rs`: random exact cover problems: the numbers `0..n`
  shuffled and cut into runs, which always form a partition.
- `src/sorting.rs`: sorting of index vectors and facts about multisets.
- `app/main.rs`: the command line program: n queens (by search or by exact
  cover, on one board or many in threads), exact cover of named
  sets, random problems (also searched in threads, one share of the tasks
  each), and vertex cover checks of DIMACS graphs.
- `tests/`: tests of the library.
