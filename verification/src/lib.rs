//! Algorithms coursework as a verified library: high-score sorting
//! (quicksort and counting sort), a dynamic-programming knapsack, two
//! arena-based search trees (scapegoat and AVL) holding a list of banned players,
//! and the tile grid of a loot map.

pub mod scores;
pub mod text;
pub mod knapsack;
pub mod names;
pub mod shape;
pub mod avl;
pub mod scapegoat;
pub mod grid;

