# icfpc2021

Tools for the ICFP Programming Contest 2021 ("Brain Wall"): a figure of
vertices and edges must be bent into a pose that fits inside a polygonal
hole, each edge keeping its squared length within a tolerance, while the
hole's corners stay close to the pose's vertices.

The library (`src/`) is verified with Verus:

- `geom`, `segment`, `polygon`: exact integer geometry (products,
  projections, segment crossing, point and segment containment in the hole).
- `problem`: problems, poses and bonuses, and their internal coordinates.
- `score`: the validity checks, dislikes, scores and evaluations.
- `shortest_path`: which hole corners see each other, and the expansion of
  shortest paths.
- `ugougo`: a random local search that never makes a pose worse; the
  climb itself is a function of the drawn moves.
- `lib_chokudai`: the relaxation of a pose toward the figure's lengths, and
  the board of the annealing search.
- `sat`, `sat_hillclimber`: the clause encodings of the SAT-based repair and
  improvement steps, what any model of them gives, the reading of their
  solutions, and the decisions of the loops that run the solver.
- `paths`: the data of the SVG drawings (edge classes, view box, path text).
- `viewer`: the checks behind the web viewer.
- `tree_decomposition`, `td_orders`, `union_find`: tree decompositions of the
  figure, read from files or built along elimination orders.
- `problem_stats`, `sorting`: statistics of a figure, and sorting helpers.

`app/` holds what stays outside the proofs: JSON and file I/O, SVG output,
the floating-point parts of scoring and path lengths, the runs of the SAT
solver, the clock, and the searches that decide in floating point on the
clock (the annealing searches, the depth-first search and the dynamic
program over a tree decomposition).
