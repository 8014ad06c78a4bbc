//! Target encoding of categorical columns.
//!
//! A categorical column is replaced by a continuous one: every category gets a
//! statistic of the targets observed with it, blended toward the global prior.
//! Categories, targets and encoded values travel through the library as the
//! IEEE-754 bit patterns of `f64` values; the library groups rows by category,
//! decides for every group which blending rule applies, builds the
//! category-to-value map and applies it. The floating-point arithmetic of the
//! blending rules is carried out by the caller on the groups handed out here.
use vstd::prelude::*;

pub mod key;
pub mod error;
pub mod group;
pub mod strategy;
pub mod column;
pub mod matrix;
