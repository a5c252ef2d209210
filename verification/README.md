# Verified solutions to seven grid, string, tree and game problems

A Verus library with two or more algorithms per problem, each proved
against a mathematical statement of what it computes:

| module | problem | algorithms |
|---|---|---|
| `another_game` | coin heaps, who wins | parity scan, binary heap (`max_heap`) |
| `counting_rooms` | rooms of a map | BFS, DFS and union-find on a floor mask; stack and recursive flood fill on a character grid |
| `finding_borders` | all borders of a string | prefix function, Z-array |
| `increasing_array` | fewest raises to sort | in place, running maximum, prefix maxima, recursion |
| `labyrinth` | shortest path from `A` to `B` | BFS, A* with the Manhattan heuristic |
| `subordinates` | subtree sizes of a company tree | explicit-stack DFS, recursive DFS |
| `hanoi` | Tower of Hanoi moves | recursion, parity rule |

Besides the functions' contracts, `src/` states and proves the facts the
algorithms rest on: the parity rule of the coin game, the optimality of the
greedy raise, that the two border algorithms and the two labyrinth searches
agree, and that the Hanoi moves are legal, and the only sequence of
`2^n - 1` moves, the fewest possible.

`tests/` runs the library on the problems' examples and on random inputs.
`app/` is a command-line front end that reads a problem from stdin and
prints the answer.
