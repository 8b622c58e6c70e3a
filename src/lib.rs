//! Panel reconciliation for electronic-board test history: board positions
//! from log file names, the serials of a panel from one of them, the product
//! catalog, and the merge of the boards' test rows into one table per panel.

pub mod catalog;
pub mod config;
pub mod panel;
pub mod serial;
pub mod session;
