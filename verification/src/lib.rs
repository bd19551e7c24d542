//! Work sessions kept as heading-structured text documents.

pub mod action;
pub mod aggregator;
pub mod config;
pub mod date_time;
pub mod document;
pub mod label;
pub mod mark;
pub mod number;
pub mod round_trip;
pub mod session;
pub mod text;
