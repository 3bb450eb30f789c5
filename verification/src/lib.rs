//! Keeps the numbers in front of the folder names of a directory in order.
//!
//! A numbered folder is named `007_name`: digits, `_`, and a remainder.
//! `entities` reads and writes such names, `planner` plans the renames that
//! close a numbering or put one folder at a rank, `schedule` puts the
//! renames of a plan in an order in which each finds its new name free, and
//! `usecase` carries them out through whatever renames folders. `laws`
//! states what this does to a directory.

pub mod args_struct;
pub mod digits;
pub mod entities;
pub mod folders;
pub mod laws;
pub mod number;
pub mod order;
pub mod planner;
pub mod rank;
pub mod ranking;
pub mod schedule;
pub mod usecase;
