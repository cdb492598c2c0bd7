//! Rule engine, solver and generator for Str8ts, a Sudoku-like puzzle on a
//! 9x9 grid of black and white cells. White cells form maximal runs
//! ("straights") within each row and column; the digits of a straight must,
//! once complete, form a set of consecutive integers, and no digit may repeat
//! in a row or column (black filled cells count for the duplicate rule).

pub mod cell;
pub mod group;
pub mod board;
pub mod solver;
pub mod generator;
pub mod persist;
pub mod validator;
pub mod rng;
