//! Metrics for a CKB node: a tracker that follows pool transactions to a
//! terminal outcome, the measurements it emits, the tags the dispatcher
//! attaches on the way to the time-series store, and the cursor of the scanner
//! that fills in peers' countries.

pub mod dispatch;
pub mod measurement;
pub mod peer_scanner;
pub mod pool_transaction;
pub mod sink;
