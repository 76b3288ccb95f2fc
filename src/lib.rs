//! Execution core of an embedded relational database: typed tuples, a
//! predicate language over them, paged record storage under a schema
//! catalogue, and the relational operators that run against it.
pub mod dml;
pub mod engine;
pub mod error;
pub mod predicate;
pub mod record;
pub mod storage;
pub mod value;

pub use dml::{DbName, Insert, Join, Project, Select, TableName};
pub use engine::{Database, Engine};
pub use error::Error;
pub use predicate::{Cmp, Comparator};
pub use storage::Table;
pub use value::{ColType, LabeledTypedTuple, Value, ValueModel};
