# operation_research

Classic operations-research algorithms, written in Verus and proved against
their contracts.

- `src/notes.rs`: Fibonacci numbers and the 0/1 knapsack by dynamic
  programming; the knapsack value is proved to be the best value of any
  selection that fits.
- `src/bin_packing.rs`: best fit, first fit, exhaustive search (proved
  optimal), branch and bound (proved never to beat the exhaustive search), the
  cost of a packing, and the random moves of the annealing heuristic (proved
  to keep every item and the bin sums).
- `src/operation_research_algorithms.rs`: the travelling salesman problem:
  path costs, nearest distances, exhaustive search (proved optimal), branch and
  bound, nearest neighbour, 2-opt (proved to end at a 2-opt local optimum no
  longer than its start), random distance matrices and random 2-opt moves.
- `src/random.rs`: the calls into the `rand` crate, each behind a contract.

`app/` holds the program: it draws a random ten-city instance and runs the
tour heuristics on it, including simulated annealing and ant colony
optimisation, whose acceptance rules work on floating-point numbers.
