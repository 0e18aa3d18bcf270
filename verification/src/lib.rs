//! Synthesis of short CX circuits between linear-reversible operators.

pub mod a_star;
pub mod a_star_sound;
pub mod bfs;
pub mod bfs_circuits;
pub mod bfs_layers;
pub mod bfs_sound;
pub mod bfs_ways;
pub mod circ_moves;
pub mod column_ops;
pub mod cx;
pub mod cx_circuit;
pub mod file_io;
pub mod hash_table;
pub mod invertible;
pub mod mitm_beyond;
pub mod mitm_shortest;
pub mod qubit_set;
pub mod row_products;
pub mod rows;
pub mod stab_state;
pub mod synth;
