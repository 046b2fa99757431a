pub mod assets;
pub mod config;
pub mod decutil;
pub mod gnucash;
pub mod rational;
pub mod rebalance;
