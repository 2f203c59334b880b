//! Address reports for uniquely owned heap boxes.
//!
//! A box lives on the heap and is owned by exactly one handle, a variable
//! slot on the stack. This crate renders the two addresses of such a pair as
//! one line of text and drives the fixed run that builds four boxes, reports
//! each of them and then fails.
pub mod hex;
pub mod line;
pub mod address;
pub mod harness;
