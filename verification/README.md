# practica_one

Metaheuristics for loading palets onto trucks: 168 palets, each bound for
one of the 50 cities of a cost matrix (the first row and column are the
depot's), go onto 12 trucks of 14 slots; a truck leaves the depot, calls at
the city of each of its palets the first time it comes up, and returns. The
cost of a plan is the sum of the legs of its trucks.

The library (`src/`) is written in Verus and verified:

- `algo/model.rs`: the mathematical model — what a plan costs, which plans
  hold the same palets, the moves between plans, and the laws about them.
- `algo/mod.rs`: the cost of a plan, neighbourhood moves, random plans, and
  the test of whether an instance suits the searches.
- `algo/parse.rs`: the two text formats of the instance files.
- one module per search: local search, random search, simulated annealing
  (its decisions; the temperatures are real numbers and stay outside),
  tabu search, greedy constructions, GRASP, iterated local search, the
  genetic search and the memetic search.
- `rng.rs`: the seeded `SmallRng` of `rand` and a small home-made generator.

`app/` is the program around it: reading the instance files, printing and
recording results, the annealing temperatures, and handing the memetic
search's work to the threads of `rayon`.
