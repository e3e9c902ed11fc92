//! Logical table schemas for columnar storage: nested column types, stable
//! column identifiers, schema evolution and column pruning.
//!
//! A [`TableSchema`] numbers the leaves of its fields' types with column
//! identifiers that are never handed out twice. Fields can be added and
//! dropped; projections select parts of a schema and keep the identifiers.

pub mod builder;
pub mod data_type;
pub mod error;
pub mod field;
pub mod flatten;
pub mod laws;
pub mod numbering;
pub mod ordered;
pub mod project;
pub mod schema;

pub use builder::ColumnBuilder;
pub use builder::NewColumn;
pub use builder::NewNullableColumn;
pub use data_type::ColumnId;
pub use data_type::FieldIndex;
pub use data_type::NumberDataType;
pub use data_type::TableDataType;
pub use error::SchemaError;
pub use field::TableField;
pub use schema::TableSchema;
