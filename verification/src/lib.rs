//! Tolerant parsing and aggregation for a produce-rancidness survey.
//!
//! Free-text survey cells are parsed into typed records: a strict yes/no
//! intent, and two 1-to-5 scale ratings recovered from noisy text. Records
//! are normalized by clamping into the scale range and folded into per-item
//! counts and running averages. All values are kept exact: scale ratings as
//! decimal numbers, averages as rationals.

pub mod aggregate;
pub mod decimal;
pub mod record;
pub mod scale;
