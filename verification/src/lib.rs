//! Pricing and position accounting for a prediction market that is run by a
//! constant-product market maker.

pub mod api;
pub mod cpmm;
pub mod decimal;
pub mod error;
pub mod execute;
pub mod laws;
pub mod ledger;
pub mod math;
pub mod sanity;
pub mod state;
pub mod store;
pub mod swap;
pub mod types;
pub mod util;
pub mod wide;
