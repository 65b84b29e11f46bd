//! Grouping engine for tabbed window containers.
//!
//! Windows live in a forest kept by the display server: each window has an
//! ordered sequence of children. This crate holds the decision core of a
//! tool that merges windows into tabbed containers: it classifies windows,
//! resolves user-supplied selectors, and turns each grouping operation
//! (create, transfer, detach, fix) into an explicit sequence of commands
//! whose effect on the window tree is specified and proved. The process
//! that carries the commands out against a live server sits outside this
//! crate and hands it plain values: window identifiers, property bytes,
//! and the text that external programs print.

pub mod bytes;
pub mod classify;
pub mod engine;
pub mod laws;
pub mod model;
pub mod parse;
pub mod render;
pub mod selector;
pub mod sim;
