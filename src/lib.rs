pub mod archive;
pub mod block_index;
pub mod cli;
pub mod decoder;
pub mod distributor;
pub mod error;
pub mod laws;
pub mod record_index;
pub mod scanner;
