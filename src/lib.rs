//! A cellular-automaton "falling sand" engine: particles live on a square
//! grid, fall under gravity, stack on collision and slide diagonally when
//! blocked. Every tick is decided against the positions as they stood at
//! the start of the tick.
pub mod grid;
pub mod rules;
pub mod engine;
pub mod index;
pub mod laws;
pub mod people;
