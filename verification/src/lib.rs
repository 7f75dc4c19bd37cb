//! A small data pipeline: descriptive statistics over sequences of IEEE-754
//! binary64 values, and a validated named numeric record with a plain-text
//! and a JSON rendering.
//!
//! Every floating-point value is carried as its IEEE-754 binary64 bit
//! pattern in a `u64`.  Classification (finite / NaN), ordering, filtering,
//! sorting and element selection are implemented and verified directly on
//! the bit patterns; the rounding arithmetic itself (add, multiply, divide,
//! square root, decimal rendering) is delegated to outside soft-float
//! crates through a small set of trusted wrappers.

pub mod bits;

pub mod arith;

pub mod stats;

pub mod record;

pub mod render;

pub mod parse;

pub use parse::parse_record;
pub use parse::rendered_round_trips;
pub use record::CoreError;
pub use record::DataModel;
pub use render::format_data;
pub use render::serialize_data;
pub use stats::calculate_average;
pub use stats::calculate_median;
pub use stats::calculate_std_deviation;
pub use stats::calculate_variance;
pub use stats::find_max;
pub use stats::find_min;
