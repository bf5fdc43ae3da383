//! Errors of the query layer.
use vstd::prelude::*;

use vstd::string::StringExecFns;

use crate::catalog::CatalogError;
use crate::storage::StorageError;
use crate::table::TableBufferError;
use crate::types::{ColumnName, ColumnType, ColumnValue, TableName, Value};

verus! {

/// Why a query failed: the first six are the caller's doing, the last three
/// come from the storage below.
#[derive(Debug, Clone)]
pub enum QueryError {
    TableNotFound(TableName),
    TableAlreadyExists(TableName),
    ItemMustContainPrimaryKey(ColumnName),
    PrimaryKeyAlreadyExists(ColumnValue),
    UnknownColumnInItem(ColumnName),
    ColumnTypeMismatch { expected: ColumnType, given: ColumnType },
    InternalError(InternalError),
    TableStorageError(TableBufferError),
    CatalogError(CatalogError),
}

/// A failure on the files of a table.
#[derive(Debug, Clone, PartialEq, Eq)]
pub enum InternalError {
    FilepathNotFound(String),
    FilepathAlreadyExists(String),
    FailedToCreateFile { filepath: String, error: String },
    FailedToDeleteFile { filepath: String, error: String },
}

/// The character of the decimal digit `d`.
pub open spec fn digit_char(d: nat) -> char {
    if d == 0 {
        '0'
    } else if d == 1 {
        '1'
    } else if d == 2 {
        '2'
    } else if d == 3 {
        '3'
    } else if d == 4 {
        '4'
    } else if d == 5 {
        '5'
    } else if d == 6 {
        '6'
    } else if d == 7 {
        '7'
    } else if d == 8 {
        '8'
    } else {
        '9'
    }
}

/// `n` written in decimal, without leading zeros.
pub open spec fn decimal_text(n: nat) -> Seq<char>
    decreases n,
{
    if n < 10 {
        seq![digit_char(n)]
    } else {
        decimal_text(n / 10).push(digit_char(n % 10))
    }
}

/// A value as a message shows it.
pub open spec fn value_text(v: Value) -> Seq<char> {
    match v {
        Value::Integer(n) => decimal_text(n as nat),
        Value::Boolean(b) => if b {
            "true"@
        } else {
            "false"@
        },
        Value::Text(s) => s,
    }
}

/// The name of a column type.
pub open spec fn type_text(t: ColumnType) -> Seq<char> {
    match t {
        ColumnType::Integer => "Integer"@,
        ColumnType::Float => "Float"@,
        ColumnType::Text => "Text"@,
        ColumnType::Boolean => "Boolean"@,
    }
}

/// The message of a storage error.
pub open spec fn storage_error_text(e: StorageError) -> Seq<char> {
    match e {
        StorageError::TruncatedFrame => "The log ends in the middle of a frame."@,
        StorageError::Io(s) => s@,
        StorageError::Decode(s) => s@,
        StorageError::LogTooLarge => "The log would grow past the largest offset."@,
    }
}

/// The message of a table buffer error.
pub open spec fn table_buffer_error_text(e: TableBufferError) -> Seq<char> {
    match e {
        TableBufferError::PrimaryKeyNotInDefn =>
            "Unexpected invariant violation: primary key not found in column definitions."@,
        TableBufferError::PrimaryKeyNotInTuple =>
            "Unexpected invariant violation: primary key not found in data tuple."@,
        TableBufferError::StorageError(s) => "Internal Storage Engine Error: "@
            + storage_error_text(s),
    }
}

/// The message of a catalog error.
pub open spec fn catalog_error_text(e: CatalogError) -> Seq<char> {
    match e {
        CatalogError::DbDirNotExist(d) => "Database directory '"@ + d@ + "' does not exist."@,
        CatalogError::TableStorageError(t) => "Internal Error: "@ + table_buffer_error_text(t),
        CatalogError::FileOperationError(s) => "Internal Error: "@ + s@,
        CatalogError::DeserError(s) => "Internal Error: "@ + s@,
    }
}

/// The message of an error on the files of a table.
pub open spec fn internal_error_text(e: InternalError) -> Seq<char> {
    match e {
        InternalError::FilepathNotFound(p) => "Table filepath does not exist: "@ + p@,
        InternalError::FilepathAlreadyExists(p) => "Table filepath "@ + p@ + " already exists."@,
        InternalError::FailedToCreateFile { filepath, error } =>
            "Failed to create table file path: "@ + filepath@ + ". Error: "@ + error@,
        InternalError::FailedToDeleteFile { filepath, error } =>
            "Failed to delete table file path: "@ + filepath@ + ". Error: "@ + error@,
    }
}

/// The message of a query error, as a user sees it.
pub open spec fn message_text(e: QueryError) -> Seq<char> {
    match e {
        QueryError::TableNotFound(n) => "Table '"@ + n@ + "' not found."@,
        QueryError::TableAlreadyExists(n) => "Table name '"@ + n@ + "' already exists."@,
        QueryError::ItemMustContainPrimaryKey(c) => "Item object must contain primary key: "@
            + c@ + "."@,
        QueryError::PrimaryKeyAlreadyExists(v) => "Record with primary key '"@ + value_text(v@)
            + "' already exists."@,
        QueryError::UnknownColumnInItem(c) => "Unknown column in item object: "@ + c@ + "."@,
        QueryError::ColumnTypeMismatch { expected, given } =>
            "Column type mismatch. Column defined as type: "@ + type_text(expected)
            + ", but provided value has type: "@ + type_text(given) + "."@,
        QueryError::InternalError(i) => "Internal Error: "@ + internal_error_text(i),
        QueryError::TableStorageError(t) => "Internal Error: "@ + table_buffer_error_text(t),
        QueryError::CatalogError(c) => "Internal Error: "@ + catalog_error_text(c),
    }
}

/// The text of the decimal digit `d`.
fn digit_str(d: u64) -> (r: &'static str)
    requires
        d < 10,
    ensures
        r@ == seq![digit_char(d as nat)],
{
    proof {
        reveal_strlit("0");
        reveal_strlit("1");
        reveal_strlit("2");
        reveal_strlit("3");
        reveal_strlit("4");
        reveal_strlit("5");
        reveal_strlit("6");
        reveal_strlit("7");
        reveal_strlit("8");
        reveal_strlit("9");
    }
    let r = if d == 0 {
        "0"
    } else if d == 1 {
        "1"
    } else if d == 2 {
        "2"
    } else if d == 3 {
        "3"
    } else if d == 4 {
        "4"
    } else if d == 5 {
        "5"
    } else if d == 6 {
        "6"
    } else if d == 7 {
        "7"
    } else if d == 8 {
        "8"
    } else {
        "9"
    };
    assert(r@ =~= seq![digit_char(d as nat)]);
    r
}

/// Appends `n` written in decimal to `s`.
fn push_decimal(s: &mut String, n: u64)
    ensures
        final(s)@ == old(s)@ + decimal_text(n as nat),
    decreases n,
{
    if n >= 10 {
        push_decimal(s, n / 10);
        s.append(digit_str(n % 10));
        assert(s@ =~= old(s)@ + decimal_text(n as nat));
    } else {
        s.append(digit_str(n));
        assert(s@ =~= old(s)@ + decimal_text(n as nat));
    }
}

fn push_value(s: &mut String, v: &ColumnValue)
    ensures
        final(s)@ == old(s)@ + value_text(v@),
{
    match v {
        ColumnValue::Integer(n) => push_decimal(s, *n),
        ColumnValue::Boolean(b) => {
            if *b {
                s.append("true");
            } else {
                s.append("false");
            }
        },
        ColumnValue::Text(t) => s.append(t.as_str()),
    }
}

fn push_type(s: &mut String, t: ColumnType)
    ensures
        final(s)@ == old(s)@ + type_text(t),
{
    match t {
        ColumnType::Integer => s.append("Integer"),
        ColumnType::Float => s.append("Float"),
        ColumnType::Text => s.append("Text"),
        ColumnType::Boolean => s.append("Boolean"),
    }
}

fn push_storage_error(s: &mut String, e: &StorageError)
    ensures
        final(s)@ == old(s)@ + storage_error_text(*e),
{
    match e {
        StorageError::TruncatedFrame => s.append("The log ends in the middle of a frame."),
        StorageError::Io(t) => s.append(t.as_str()),
        StorageError::Decode(t) => s.append(t.as_str()),
        StorageError::LogTooLarge => s.append("The log would grow past the largest offset."),
    }
}

fn push_table_buffer_error(s: &mut String, e: &TableBufferError)
    ensures
        final(s)@ == old(s)@ + table_buffer_error_text(*e),
{
    match e {
        TableBufferError::PrimaryKeyNotInDefn => s.append(
            "Unexpected invariant violation: primary key not found in column definitions.",
        ),
        TableBufferError::PrimaryKeyNotInTuple => s.append(
            "Unexpected invariant violation: primary key not found in data tuple.",
        ),
        TableBufferError::StorageError(inner) => {
            s.append("Internal Storage Engine Error: ");
            push_storage_error(s, inner);
            assert(s@ =~= old(s)@ + table_buffer_error_text(*e));
        },
    }
}

fn push_catalog_error(s: &mut String, e: &CatalogError)
    ensures
        final(s)@ == old(s)@ + catalog_error_text(*e),
{
    match e {
        CatalogError::DbDirNotExist(d) => {
            s.append("Database directory '");
            s.append(d.as_str());
            s.append("' does not exist.");
        },
        CatalogError::TableStorageError(t) => {
            s.append("Internal Error: ");
            push_table_buffer_error(s, t);
        },
        CatalogError::FileOperationError(t) => {
            s.append("Internal Error: ");
            s.append(t.as_str());
        },
        CatalogError::DeserError(t) => {
            s.append("Internal Error: ");
            s.append(t.as_str());
        },
    }
    assert(s@ =~= old(s)@ + catalog_error_text(*e));
}

fn push_internal_error(s: &mut String, e: &InternalError)
    ensures
        final(s)@ == old(s)@ + internal_error_text(*e),
{
    match e {
        InternalError::FilepathNotFound(p) => {
            s.append("Table filepath does not exist: ");
            s.append(p.as_str());
        },
        InternalError::FilepathAlreadyExists(p) => {
            s.append("Table filepath ");
            s.append(p.as_str());
            s.append(" already exists.");
        },
        InternalError::FailedToCreateFile { filepath, error } => {
            s.append("Failed to create table file path: ");
            s.append(filepath.as_str());
            s.append(". Error: ");
            s.append(error.as_str());
        },
        InternalError::FailedToDeleteFile { filepath, error } => {
            s.append("Failed to delete table file path: ");
            s.append(filepath.as_str());
            s.append(". Error: ");
            s.append(error.as_str());
        },
    }
    assert(s@ =~= old(s)@ + internal_error_text(*e));
}

impl QueryError {
    /// The message of this error, as a user sees it.
    pub fn message(&self) -> (r: String)
        ensures
            r@ == message_text(*self),
    {
        let mut s = String::new();
        match self {
            QueryError::TableNotFound(n) => {
                s.append("Table '");
                s.append(n.as_str());
                s.append("' not found.");
            },
            QueryError::TableAlreadyExists(n) => {
                s.append("Table name '");
                s.append(n.as_str());
                s.append("' already exists.");
            },
            QueryError::ItemMustContainPrimaryKey(c) => {
                s.append("Item object must contain primary key: ");
                s.append(c.as_str());
                s.append(".");
            },
            QueryError::PrimaryKeyAlreadyExists(v) => {
                s.append("Record with primary key '");
                push_value(&mut s, v);
                s.append("' already exists.");
            },
            QueryError::UnknownColumnInItem(c) => {
                s.append("Unknown column in item object: ");
                s.append(c.as_str());
                s.append(".");
            },
            QueryError::ColumnTypeMismatch { expected, given } => {
                s.append("Column type mismatch. Column defined as type: ");
                push_type(&mut s, *expected);
                s.append(", but provided value has type: ");
                push_type(&mut s, *given);
                s.append(".");
            },
            QueryError::InternalError(i) => {
                s.append("Internal Error: ");
                push_internal_error(&mut s, i);
            },
            QueryError::TableStorageError(t) => {
                s.append("Internal Error: ");
                push_table_buffer_error(&mut s, t);
            },
            QueryError::CatalogError(c) => {
                s.append("Internal Error: ");
                push_catalog_error(&mut s, c);
            },
        }
        assert(s@ =~= message_text(*self));
        s
    }
}

} // verus!
