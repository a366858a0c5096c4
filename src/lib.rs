//! Per-barcode read tallies over a stream of alignment records.
pub mod aux;
pub mod cli;
pub mod order;
pub mod render;
pub mod scan;
pub mod tally;
