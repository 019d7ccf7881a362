pub mod miner;
pub mod vector;
