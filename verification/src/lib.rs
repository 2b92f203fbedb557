//! Parts & spares platform: a parts catalog, multi-location stock with reorder
//! policy, bill-of-materials with where-used, supersession chains, suppliers,
//! stock movements (receipt / issue / transfer / adjust), reservations, usage
//! history and reorder / demand analytics, all over an audit trail.
//!
//! Quantities, reorder levels and costs are fixed-point integers counted in
//! thousandths of a unit (see `types::QTY_SCALE`); timestamps are microseconds
//! since the Unix epoch and calendar dates are day numbers counted from
//! 0001-01-01 (day 1).

pub mod clock;
pub mod demand;
pub mod order;
pub mod server;
pub mod store;
pub mod text;
pub mod types;
