# Verified algorithms coursework

Five small programs, with their logic as a library verified by Verus:

- high scores: Hoare-partition quicksort, counting sort, and a column sorter that
  combines them (`src/scores.rs`);
- loot: the dynamic-programming knapsack and the walk back through its table
  (`src/knapsack.rs`);
- griefer list: banned players in an arena-based AVL tree (`src/avl.rs`) or scapegoat
  tree (`src/scapegoat.rs`), sharing a name store and report lines (`src/names.rs`)
  and a model of arena trees (`src/shape.rs`);
- loot map: the tile grid and its moves (`src/grid.rs`);
- text handling shared by the readers and writers (`src/text.rs`).

The determinant calculator and the A* path finder compute in floating point and stay
in `app/`, which also holds the programs' input and output:

```
app <determinant | scores standard|custom | griefers scapegoat|avl FILE | loot | astar> < INPUT
```
