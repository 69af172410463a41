//! A configurable cellular automaton: a toroidal grid of cells, each in one of
//! a user-defined set of states, advanced one generation at a time by
//! per-state transition rules over neighbour counts.
//!
//! `rule` holds the rule model (predicates, rules, state definitions and the
//! first-match transition); `board` holds the engine (the grid, neighbour
//! counting, the synchronous step and the edits to grid and state list).
pub mod board;
pub mod rule;
