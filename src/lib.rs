//! Location ledger: an append-only store of position fixes per log, with
//! retention sweeps, trip segmentation and sealed (client-encrypted) fixes.

pub mod models;
pub mod retention;
pub mod segment;
pub mod hexcodec;
pub mod sealed;
pub mod series;
pub mod ledger;
pub mod apitypes;
pub mod laws;

