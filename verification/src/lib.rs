//! Disk-head scheduling: the order in which pending cylinder requests are
//! visited, the distance the arm travels, and the direction of each step.
//!
//! [`TemplateApp`] holds a simulated disk and offers the four algorithms.
//! The modules [`closeness`], [`schedule`], [`seek`] and [`movement`] say,
//! over sequences, what each of them computes, and prove what holds of it.

pub mod app;
pub mod closeness;
pub mod movement;
pub mod order;
pub mod position;
pub mod schedule;
pub mod seek;
pub mod sequence;
mod sorting;

pub use app::{Direction, Panel, TemplateApp};
pub use movement::{Movement, Segment};
