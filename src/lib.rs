//! Infers an aggregate statistical schema from a stream of semi-structured
//! documents: for every field path it tallies the value kinds seen, how often
//! each occurs, a bounded sample of distinct values, duplicates, and the
//! probability that a document carries the field.

pub mod value;
pub mod field_type;
pub mod field;
pub mod schema;

pub use value::{Kind, Sample, SchemaError, Value};
pub use field_type::{FieldType, SAMPLE_CAP};
pub use field::{Field, Probability};
pub use schema::{parser, SchemaAggregator};
