//! SoAKit: a verified Structure-of-Arrays data engine.
//!
//! A `Bulk` stores many named fields (columns) for a fixed number of rows in
//! fixed-capacity tiles, supports derived (computed) columns with a versioned
//! memoization cache, and offers row-level (`Proxy`) and partition-level
//! (`View`) read access without copying the backing columns.

pub mod bulk;
pub mod error;
pub mod fieldmap;
pub mod meta;
pub mod partition;
pub mod proxy;
pub mod records;
pub mod rules;
pub mod util;
pub mod view;
pub mod value;

pub use bulk::{init, Bulk, CacheEntry, Chunk, Meta};
pub use error::SoAKitError;
pub use records::{from_records_values, to_records_values};
pub use meta::{DerivedRule, FieldMetadata, Registry, Validator};
pub use proxy::Proxy;
pub use view::View;
pub use rules::{ElementwiseAdd, TypeCheck};
pub use util::{filter_system_fields, is_matrix, is_scalar, is_valid_field_name, is_vector};
pub use value::{Val, ValKind, Value};
