//! Ballot ingestion, consistency checking and tallying for shielded-pool
//! elections, with every rule stated as a contract and proved.

pub mod audit;
pub mod ballot;
pub mod broadcast;
pub mod election;
pub mod element;
pub mod element_set;
pub mod encoding;
pub mod error;
pub mod frontier;
pub mod keys;
pub mod ledger;
pub mod merkle;
pub mod pool;
pub mod props;
pub mod runs;
pub mod state;
pub mod sync;
pub mod text;
pub mod trees;
pub mod validate;
pub mod wallet;
