//! Month-scoped shift aggregation and invoice synthesis.
//!
//! The library walks a weekly scheduling feed one week at a time, keeps the
//! shifts of one employee that fall in one calendar month, turns each shift
//! into a billable work item and totals the items into an invoice.
use vstd::prelude::*;

pub mod anita;
pub mod calendar;
pub mod event;
pub mod factuur;
pub mod report;
pub mod text;

verus! {

/// The pages of the web front end.
#[derive(Debug, Clone, Copy, PartialEq, Eq, Structural)]
pub enum Page {
    Dashboard,
    Facturen,
    Btw,
    Anita,
    Factuur,
    Auth,
}

} // verus!
