//! A layered configuration store.
//!
//! Values from three prioritized layers (defaults, sources, overrides) are
//! merged into one cached tree of dynamically typed values. Dotted and
//! indexed path expressions (`"items[0].name"`) address locations in that
//! tree for both reading and auto-vivifying writes, and coercions read a
//! value back as a concrete scalar, array or subtree.

pub mod config;
pub mod error;
pub mod file_format;
pub mod path;
pub mod strutil;
pub mod value;

pub use config::Config;
pub use config::ConfigResult;
pub use config::Source;
pub use config::ValueWithKey;
pub use error::ConfigError;
pub use file_format::FileFormat;
pub use path::Expression;
pub use value::FloatVal;
pub use value::Table;
pub use value::Value;
pub use value::ValueKind;
