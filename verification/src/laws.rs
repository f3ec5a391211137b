//! What holds of the library's operations, whatever their inputs.
//!
//! The statements here speak of inputs and results: what a result must be made of, and
//! how the results for two inputs relate.

pub mod arguments;
pub mod builds;
pub mod invocations;
pub mod orders;
pub mod packages;
pub mod reports;
pub mod texts;
pub mod units;
