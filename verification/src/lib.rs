//! Portfolio risk tracking: open positions with exact profit-and-loss
//! arithmetic, a position-size limit enforced on insertion, stop-loss breach
//! detection against a configured threshold, and a simplified value-at-risk
//! estimate.
//!
//! All quantities, prices and percentage limits are fixed-point numbers: an
//! `i64` counting hundredths of a unit (see `position::SCALE`). Derived
//! metrics are either integers at a documented scale or exact fractions
//! (`rational::Ratio`), so every contract states the arithmetic exactly.

pub mod guard;
pub mod position;
pub mod rational;

pub use crate::guard::RiskGuard;
pub use crate::position::Position;
pub use crate::position::RiskError;
pub use crate::rational::Ratio;
