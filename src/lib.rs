//! An embeddable table store: typed schemas, a primary-key index over an
//! append-only log of length-prefixed frames, point lookups, inserts and
//! boolean filters.
//!
//! The library decides and computes; reading and writing files, and turning
//! a frame's payload into a row, are left to the code around it.
pub mod catalog;
pub mod ddl;
pub mod dml;
pub mod error;
pub mod expression;
pub mod output;
pub mod storage;
pub mod table;
pub mod types;

pub use catalog::{Catalog, CatalogError, Table};
pub use ddl::{create_table, drop_table, CreateTableCommand, DropTableCommand};
pub use dml::{
    build_record, filter_item, get_item, item_to_tuple, put_item, typecheck_column,
    FilterItemCommand, GetItemCommand, Item, PreparedWrite, PutItemCommand,
};
pub use error::{InternalError, QueryError};
pub use expression::{column_position, evaluate_binary_operator, evaluate_expression};
pub use output::Output;
pub use storage::{
    calculate_new_offset, decode_length_prefix, encode_frame, encode_length_prefix, parse_frames,
    read_frame, Frame, StorageError, LENGTH_PREFIX_SIZE,
};
pub use table::{Index, Lookup, TableBuffer, TableBufferError};
pub use types::{
    ColumnComparison, ColumnDefinition, ColumnName, ColumnType, ColumnValue, Expression, Operator,
    Record, TableDefinition, TableName, Tuple,
};
