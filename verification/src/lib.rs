//! Verified building blocks from a scientific-computing course:
//! gate-level arithmetic, Fibonacci variants, Collatz lengths, CRC-32,
//! graph searches, Sudoku, knapsack and small parsing/decision helpers.

pub mod gates;
pub mod marks;
pub mod graph;
pub mod sudoku;
pub mod text;
pub mod crc;
pub mod fibonacci;
pub mod collatz;
pub mod knapsack;
pub mod weighted;
pub mod partition;
pub mod hexscan;
pub mod listing;
pub mod exercises;
pub mod progress;
pub mod tokens;
pub mod basic;
pub mod expr;
pub mod mtx;
pub mod pbm;
pub mod regions;
pub mod spanning;
