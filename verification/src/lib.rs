//! Turn purchase receipts into ledger transactions.  The crate learns,
//! per user, which accounting category each purchased item belongs to,
//! ranks the candidates by how often they were chosen, narrows a chart
//! of accounts from partial queries, and drives a chat conversation that
//! asks the user to categorize whatever the statistics cannot decide.
//! Parsing receipt files, durable storage and message transport live
//! outside; this crate holds the rules and proves them.

use vstd::prelude::*;

pub mod categories;
pub mod conv;
pub mod convert;
pub mod filters;
pub mod import;
pub mod manager;
pub mod matcher;
pub mod receipt;
pub mod textutil;
pub mod ui;
pub mod user;

verus! {

} // verus!
