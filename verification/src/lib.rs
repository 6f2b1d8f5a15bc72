//! Purchase-order aggregation for Amazon Vendor Central and iHerb orders.
//!
//! Numbers are exact: quantities and prices are read as decimals in
//! hundred-millionths (digits past the eighth decimal place dropped), aggregated
//! quantities are held in units of 1/1200000000 (so that a sixth or a twelfth of
//! a case is exact) and money in units of 10^-16 (the exact product of a quantity
//! and a price). Every sum is exact; a report fails with `TotalTooLarge` only
//! when the magnitudes of its lines' figures add up to more than 2^125.
pub mod text;

pub use text::{col, str_eq};
mod keys;
pub mod number;
pub mod rules;
pub mod group;
pub mod order;
pub mod table;
pub mod aggregate;
pub mod sources;
pub mod combine;
pub mod bigticket;
pub mod sheet;
pub mod laws;
