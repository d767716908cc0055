pub mod miner;
