//! Core of a CBC Casper consensus engine: content-addressed messages whose
//! justifications form a DAG, per-validator latest-message bookkeeping with
//! equivocation detection, a fault-weight budget, weighted estimators, the
//! GHOST fork choice and a clique-based safety oracle.

pub mod blockchain;
pub mod example;
pub mod fork_choice;
pub mod justification;
pub mod message;
pub mod traits;
pub mod util;
