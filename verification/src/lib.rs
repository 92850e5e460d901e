//! Session-based recommendations: an in-memory index over historical sessions and
//! the VMIS-kNN query that ranks the items most likely to come next.
//!
//! * [`vmisknn`] holds the index, the search for neighbor sessions, the scoring of
//!   items and the laws that hold of them;
//! * [`io`] reads training and test data;
//! * [`ranking`] and [`heap`] hold the ordered collections that the query uses,
//!   [`table`] the hash table;
//! * [`config`], [`hyperparameter`], [`metrics`], [`sessions`] and [`endpoints`]
//!   hold what the service and the evaluation decide around the query.
//!
//! Scores are whole numbers in fixed units, so that ranking is exact: the
//! similarity of a session counts in units of one over the number of distinct items
//! of the evolving session, the score of an item in tenths of that unit times the
//! unit of the IDF weights.

pub mod config;
pub mod endpoints;
pub mod heap;
pub mod hyperparameter;
pub mod io;
pub mod metrics;
pub mod ranking;
pub mod sessions;
pub mod table;
pub mod vmisknn;
