//! Classical weighted-graph algorithms (Prim, Kruskal, Dijkstra) over a
//! binary min-heap and a disjoint-set forest, with a few companion containers.

pub mod bst;
pub mod heap;
pub mod linked_list;
pub mod sorter;
pub mod union_find;
pub mod unweighted;
pub mod weighted;
