//! Per-validator core of a DAG-based BFT consensus protocol.
//!
//! Each validator proposes one node per round; a node carries strong links to
//! certified nodes of the previous round and is reliably broadcast to peers.
//! The crate holds the driver's decision logic as a verified state machine:
//! the in-memory DAG store, the round-advancement and recovery rules, and the
//! construction of every outward action (journal writes, broadcasts, fetch and
//! payload requests). An embedding runtime performs the actions and feeds the
//! resulting events back in.

pub mod types;
pub mod validator_verifier;
pub mod dag_store;
pub mod dag_driver;
