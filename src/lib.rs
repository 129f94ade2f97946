//! An automated market maker that trades unique items against a fungible
//! balance through bonding-curve pools, with a best-price index and a batch
//! matching engine.

pub mod curve;
pub mod error;
pub mod execute;
pub mod index;
pub mod msg;
pub mod pair;
pub mod quote;
pub mod swap_processor;
