//! Axis coordinate transforms and "nice" grid-mark generation for plot axes.
//!
//! The grid algorithm works on exact integers: every value is a whole number
//! of some fixed unit chosen by the caller (for example thousandths of a data
//! unit), so that tick positions, tiers and deduplication are exact.

pub mod grid;
pub mod power;
pub mod transform;
