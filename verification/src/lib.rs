//! An engine that presents experimental stimuli to a participant: a task is a list of
//! blocks, a block a graph of actions that wait for each other, and a dispatcher runs one
//! block at a time.
//!
//! `action` holds the actions and what makes them ready for the graph, `block` the graph
//! and its record, `dispatch` the dispatcher, `task` the task around it, and `laws` what is
//! proved of them together. The library decides and computes; what it decides is carried
//! out by whoever calls it.

pub mod action;
pub mod block;
pub mod comm;
pub mod config;
pub mod dispatch;
pub mod error;
pub mod global;
pub mod gui;
pub mod idset;
pub mod laws;
pub mod logger;
pub mod question;
pub mod style;
pub mod task;
pub mod text;
pub mod trisyllabic;
pub mod util;
pub mod window;
