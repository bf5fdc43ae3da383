//! Putting, getting and filtering rows.
use vstd::prelude::*;

use crate::catalog::{recorded, table_names, Catalog, Table};
use crate::error::QueryError;
use crate::expression::evaluate_expression;
use crate::table::Lookup;
use crate::types::{
    column_names, duplicate_opt, expression_holds, first_index, lemma_first_index, lemma_no_index,
    opt_view, tuple_view, value_type, ColumnDefinition, ColumnName, ColumnType, ColumnValue,
    Expression, Record, TableName, Tuple, Value,
};

verus! {

/// The values of a row to put, each under its column's name.
pub type Item = Vec<(ColumnName, ColumnValue)>;

/// A row to put into a table.
#[derive(Debug, Clone)]
pub struct PutItemCommand {
    pub table_name: TableName,
    pub item: Item,
}

/// A key to look up in a table.
#[derive(Debug, Clone)]
pub struct GetItemCommand {
    pub table_name: TableName,
    pub key: ColumnValue,
}

/// A filter to run over the rows of a table.
#[derive(Debug)]
pub struct FilterItemCommand {
    pub table_name: TableName,
    pub filter: Expression,
}

/// A put that passed every check: the row to append to the log of the table
/// at position `table` in the catalog, under `key`.
#[derive(Debug, Clone)]
pub struct PreparedWrite {
    pub table: usize,
    pub key: ColumnValue,
    pub tuple: Tuple,
}

/// The names of an item's entries, in order.
pub open spec fn item_names(item: Seq<(ColumnName, ColumnValue)>) -> Seq<Seq<char>> {
    item.map_values(|e: (ColumnName, ColumnValue)| e.0@)
}

/// The value that an item gives for the column `name`, if any (the first, if
/// it names the column twice).
pub open spec fn item_value(item: Seq<(ColumnName, ColumnValue)>, name: Seq<char>) -> Option<
    Value,
> {
    match first_index(item_names(item), name) {
        Some(i) => Some(item[i].1@),
        None => None,
    }
}

/// An entry of an item names a column of the schema and has its type.
pub open spec fn fits(columns: Seq<ColumnDefinition>, e: (ColumnName, ColumnValue)) -> bool {
    match first_index(column_names(columns), e.0@) {
        Some(j) => columns[j].column_type == value_type(e.1@),
        None => false,
    }
}

/// `i` is the first entry of `item` that does not fit the schema.
pub open spec fn is_first_misfit(
    columns: Seq<ColumnDefinition>,
    item: Seq<(ColumnName, ColumnValue)>,
    i: int,
) -> bool {
    &&& 0 <= i < item.len()
    &&& !fits(columns, item[i])
    &&& forall|j: int| 0 <= j < i ==> fits(columns, #[trigger] item[j])
}

/// The first entry of `item` that does not fit the schema, if any.
pub open spec fn first_misfit(columns: Seq<ColumnDefinition>, item: Seq<(ColumnName, ColumnValue)>) -> Option<int> {
    if exists|i: int| is_first_misfit(columns, item, i) {
        Some(choose|i: int| is_first_misfit(columns, item, i))
    } else {
        None
    }
}

proof fn lemma_first_misfit(
    columns: Seq<ColumnDefinition>,
    item: Seq<(ColumnName, ColumnValue)>,
    i: int,
)
    requires
        is_first_misfit(columns, item, i),
    ensures
        first_misfit(columns, item) == Some(i),
{
    let k = choose|k: int| is_first_misfit(columns, item, k);
    assert(is_first_misfit(columns, item, k));
    if k < i {
        assert(fits(columns, item[k]));
    } else if k > i {
        assert(fits(columns, item[i]));
    }
}

/// The row that an item makes for a schema: for each column in order, the
/// value the item gives for it, or null.
pub open spec fn schema_tuple(
    columns: Seq<ColumnDefinition>,
    item: Seq<(ColumnName, ColumnValue)>,
) -> Seq<Option<Value>> {
    Seq::new(columns.len(), |i: int| item_value(item, columns[i].name@))
}

/// What a put decides, before anything is written.
pub enum PutOutcome {
    TableNotFound,
    MissingPrimaryKey(Seq<char>),
    KeyExists(Value),
    UnknownColumn(Seq<char>),
    TypeMismatch(ColumnType, ColumnType),
    /// The row goes to the table at this position, under this key.
    Accepted(int, Value),
}

/// The decision on putting `item` into the table named `table_name`: the
/// table must exist; the item must give the primary key; the key must be new
/// to the table; then each entry, in order, must name a column and have its
/// type.
pub open spec fn put_check(
    catalog: Catalog,
    table_name: Seq<char>,
    item: Seq<(ColumnName, ColumnValue)>,
) -> PutOutcome {
    match catalog.position(table_name) {
        None => PutOutcome::TableNotFound,
        Some(t) => {
            let table = catalog.tables()[t];
            match item_value(item, table.primary_key@) {
                None => PutOutcome::MissingPrimaryKey(table.primary_key@),
                Some(k) => if table.table_buffer.offsets().contains_key(k) {
                    PutOutcome::KeyExists(k)
                } else {
                    match first_misfit(table.columns@, item) {
                        Some(i) => match first_index(column_names(table.columns@), item[i].0@) {
                            None => PutOutcome::UnknownColumn(item[i].0@),
                            Some(j) => PutOutcome::TypeMismatch(
                                table.columns@[j].column_type,
                                value_type(item[i].1@),
                            ),
                        },
                        None => PutOutcome::Accepted(t, k),
                    }
                },
            }
        },
    }
}

/// The value that `item` gives for the column `name`.
fn find_item_value<'a>(item: &'a [(ColumnName, ColumnValue)], name: &ColumnName) -> (r: Option<
    &'a ColumnValue,
>)
    ensures
        match item_value(item@, name@) {
            Some(v) => r is Some && r->Some_0@ == v,
            None => r is None,
        },
{
    let ghost names = item_names(item@);
    let mut i: usize = 0;
    while i < item.len()
        invariant
            i <= item@.len(),
            names == item_names(item@),
            names.len() == item@.len(),
            forall|j: int| 0 <= j < i ==> names[j] != name@,
        decreases item@.len() - i,
    {
        assert(names[i as int] == item@[i as int].0@);
        if item[i].0.eq(name) {
            proof {
                lemma_first_index(names, name@, i as int);
            }
            return Some(&item[i].1);
        }
        i = i + 1;
    }
    proof {
        lemma_no_index(names, name@);
    }
    None
}

/// Checks that `value` has the type declared for `column`.
pub fn typecheck_column(column: &ColumnDefinition, value: &ColumnValue) -> (r: Result<(), QueryError>)
    ensures
        column.column_type == value_type(value@) ==> r is Ok,
        column.column_type != value_type(value@) ==> (match r {
            Err(QueryError::ColumnTypeMismatch { expected, given }) => expected
                == column.column_type && given == value_type(value@),
            _ => false,
        }),
{
    match (column.column_type, value) {
        (ColumnType::Boolean, ColumnValue::Boolean(_)) => Ok(()),
        (ColumnType::Integer, ColumnValue::Integer(_)) => Ok(()),
        (ColumnType::Text, ColumnValue::Text(_)) => Ok(()),
        (col_type, col_val) => Err(
            QueryError::ColumnTypeMismatch { expected: col_type, given: col_val.to_type() },
        ),
    }
}

/// The row that `item` makes for the schema `columns`.
pub fn item_to_tuple(item: &[(ColumnName, ColumnValue)], columns: &[ColumnDefinition]) -> (r:
    Tuple)
    ensures
        tuple_view(r@) == schema_tuple(columns@, item@),
{
    let mut values: Tuple = Vec::new();
    let mut i: usize = 0;
    while i < columns.len()
        invariant
            i <= columns@.len(),
            values@.len() == i,
            forall|j: int|
                0 <= j < i ==> opt_view(#[trigger] values@[j]) == item_value(
                    item@,
                    columns@[j].name@,
                ),
        decreases columns@.len() - i,
    {
        let value = match find_item_value(item, &columns[i].name) {
            Some(v) => Some(v.duplicate()),
            None => None,
        };
        values.push(value);
        i = i + 1;
    }
    assert(tuple_view(values@) =~= schema_tuple(columns@, item@));
    values
}

/// Checks a put against the catalog and, where it passes, makes the row to
/// append to the table's log. Nothing is written here: once the frame of the
/// row is in the log, `Catalog::record_write` records it in the index.
#[verifier::loop_isolation(false)]
pub fn put_item(command: PutItemCommand, catalog: &Catalog) -> (r: Result<PreparedWrite, QueryError>)
    requires
        catalog.wf(),
    ensures
        match put_check(*catalog, command.table_name@, command.item@) {
            PutOutcome::TableNotFound => match r {
                Err(QueryError::TableNotFound(n)) => n@ == command.table_name@,
                _ => false,
            },
            PutOutcome::MissingPrimaryKey(c) => match r {
                Err(QueryError::ItemMustContainPrimaryKey(n)) => n@ == c,
                _ => false,
            },
            PutOutcome::KeyExists(k) => match r {
                Err(QueryError::PrimaryKeyAlreadyExists(v)) => v@ == k,
                _ => false,
            },
            PutOutcome::UnknownColumn(c) => match r {
                Err(QueryError::UnknownColumnInItem(n)) => n@ == c,
                _ => false,
            },
            PutOutcome::TypeMismatch(e, g) => match r {
                Err(QueryError::ColumnTypeMismatch { expected, given }) => expected == e && given
                    == g,
                _ => false,
            },
            PutOutcome::Accepted(t, k) => match r {
                Ok(w) => w.table == t && w.key@ == k && tuple_view(w.tuple@) == schema_tuple(
                    catalog.tables()[t].columns@,
                    command.item@,
                ),
                _ => false,
            },
        },
{
    let t = match catalog.find_table(&command.table_name) {
        None => {
            return Err(QueryError::TableNotFound(command.table_name));
        },
        Some(t) => t,
    };
    let table = catalog.table_at(t);
    assert(table.wf());
    let key = match find_item_value(command.item.as_slice(), &table.primary_key) {
        None => {
            return Err(QueryError::ItemMustContainPrimaryKey(table.primary_key.duplicate()));
        },
        Some(v) => v.duplicate(),
    };
    if table.table_buffer.contains_key(&key) {
        return Err(QueryError::PrimaryKeyAlreadyExists(key));
    }
    let ghost columns = table.columns@;
    let ghost item = command.item@;
    let mut i: usize = 0;
    while i < command.item.len()
        invariant
            i <= item.len(),
            item == command.item@,
            columns == table.columns@,
            forall|j: int| 0 <= j < i ==> fits(columns, #[trigger] item[j]),
        decreases item.len() - i,
    {
        let entry = &command.item[i];
        match table.get_column(&entry.0) {
            None => {
                proof {
                    lemma_first_misfit(columns, item, i as int);
                }
                return Err(QueryError::UnknownColumnInItem(entry.0.duplicate()));
            },
            Some(column) => {
                match typecheck_column(column, &entry.1) {
                    Err(e) => {
                        proof {
                            lemma_first_misfit(columns, item, i as int);
                        }
                        return Err(e);
                    },
                    Ok(()) => {},
                }
            },
        }
        i = i + 1;
    }
    assert(first_misfit(columns, item) is None);
    let tuple = item_to_tuple(command.item.as_slice(), table.columns.as_slice());
    Ok(PreparedWrite { table: t, key, tuple })
}

/// Where the row of the key of `command` is to be found: the position of the
/// table in the catalog, and what its index says.
pub fn get_item(command: &GetItemCommand, catalog: &Catalog, scan_file: bool) -> (r: Result<
    (usize, Lookup),
    QueryError,
>)
    requires
        catalog.wf(),
    ensures
        match catalog.position(command.table_name@) {
            None => match r {
                Err(QueryError::TableNotFound(n)) => n@ == command.table_name@,
                _ => false,
            },
            Some(t) => match r {
                Ok((i, l)) => {
                    let offsets = catalog.tables()[t].table_buffer.offsets();
                    &&& i == t
                    &&& offsets.contains_key(command.key@) ==> l == Lookup::Offset(
                        offsets[command.key@] as u64,
                    )
                    &&& !offsets.contains_key(command.key@) ==> l == (if scan_file {
                        Lookup::Scan
                    } else {
                        Lookup::Absent
                    })
                },
                _ => false,
            },
        },
{
    match catalog.find_table(&command.table_name) {
        None => Err(QueryError::TableNotFound(command.table_name.duplicate())),
        Some(t) => {
            let table = catalog.table_at(t);
            assert(table.wf());
            Ok((t, table.table_buffer.get(&command.key, scan_file)))
        },
    }
}

/// Number of fields in the record of a row: one per value of the row, up
/// to the number of columns of the schema.
pub open spec fn record_len(columns: Seq<ColumnDefinition>, t: Seq<Option<ColumnValue>>) -> nat {
    if t.len() < columns.len() {
        t.len()
    } else {
        columns.len()
    }
}

/// The record of a row: each value of the row under the name of the column
/// at its position, in order; values past the last column are left out.
pub open spec fn record_of(columns: Seq<ColumnDefinition>, t: Seq<Option<ColumnValue>>) -> Seq<
    (Seq<char>, Option<Value>),
> {
    Seq::new(record_len(columns, t), |i: int| (columns[i].name@, opt_view(t[i])))
}

/// The record of the row `item` of a table with the given columns.
pub fn build_record(columns: &[ColumnDefinition], item: Tuple) -> (r: Record)
    ensures
        r@ == record_of(columns@, item@),
{
    let n = if item.len() < columns.len() {
        item.len()
    } else {
        columns.len()
    };
    let mut fields: Vec<(ColumnName, Option<ColumnValue>)> = Vec::new();
    let mut i: usize = 0;
    while i < n
        invariant
            n == record_len(columns@, item@),
            i <= n,
            fields@.len() == i,
            forall|j: int|
                0 <= j < i ==> (#[trigger] fields@[j]).0@ == columns@[j].name@ && opt_view(
                    fields@[j].1,
                ) == opt_view(item@[j]),
        decreases n - i,
    {
        fields.push((columns[i].name.duplicate(), duplicate_opt(&item[i])));
        i = i + 1;
    }
    let r = Record { fields };
    assert(r@ =~= record_of(columns@, item@));
    r
}

/// What a list of records stands for.
pub open spec fn records_view(rs: Seq<Record>) -> Seq<Seq<(Seq<char>, Option<Value>)>> {
    rs.map_values(|r: Record| r@)
}

/// The records of the rows, in order, of which `e` holds.
pub open spec fn filter_records(
    columns: Seq<ColumnDefinition>,
    e: Expression,
    rows: Seq<Tuple>,
) -> Seq<Seq<(Seq<char>, Option<Value>)>> {
    rows.filter(|t: Tuple| expression_holds(columns, e, t@)).map_values(
        |t: Tuple| record_of(columns, t@),
    )
}

/// A copy of a row.
fn duplicate_tuple(t: &[Option<ColumnValue>]) -> (r: Tuple)
    ensures
        tuple_view(r@) == tuple_view(t@),
        r@.len() == t@.len(),
        forall|i: int| 0 <= i < t@.len() ==> opt_view(#[trigger] r@[i]) == opt_view(t@[i]),
{
    let mut out: Tuple = Vec::new();
    let mut i: usize = 0;
    while i < t.len()
        invariant
            i <= t@.len(),
            out@.len() == i,
            forall|j: int| 0 <= j < i ==> opt_view(#[trigger] out@[j]) == opt_view(t@[j]),
        decreases t@.len() - i,
    {
        out.push(duplicate_opt(&t[i]));
        i = i + 1;
    }
    assert(tuple_view(out@) =~= tuple_view(t@));
    out
}

proof fn lemma_record_of_view(columns: Seq<ColumnDefinition>, a: Tuple, b: Tuple)
    requires
        a@.len() == b@.len(),
        forall|i: int| 0 <= i < a@.len() ==> opt_view(#[trigger] a@[i]) == opt_view(b@[i]),
    ensures
        record_of(columns, a@) == record_of(columns, b@),
{
    assert(record_of(columns, a@) =~= record_of(columns, b@));
}

/// The records of the rows of the table named in `command` of which its
/// filter holds, in log order. `rows` are the rows of that table's log.
pub fn filter_item(command: &FilterItemCommand, catalog: &Catalog, rows: &[Tuple]) -> (r: Result<
    Vec<Record>,
    QueryError,
>)
    ensures
        match catalog.position(command.table_name@) {
            None => match r {
                Err(QueryError::TableNotFound(n)) => n@ == command.table_name@,
                _ => false,
            },
            Some(t) => match r {
                Ok(records) => records_view(records@) == filter_records(
                    catalog.tables()[t].columns@,
                    command.filter,
                    rows@,
                ),
                _ => false,
            },
        },
{
    let t = match catalog.find_table(&command.table_name) {
        None => {
            return Err(QueryError::TableNotFound(command.table_name.duplicate()));
        },
        Some(t) => t,
    };
    let table: &Table = catalog.table_at(t);
    let columns = table.columns.as_slice();
    let ghost e = command.filter;
    let ghost keep = |x: Tuple| expression_holds(columns@, e, x@);
    let ghost to_record = |x: Tuple| record_of(columns@, x@);
    let mut res: Vec<Record> = Vec::new();
    let mut i: usize = 0;
    proof {
        reveal(Seq::filter);
        assert(rows@.take(0) =~= Seq::<Tuple>::empty());
        assert(records_view(res@) =~= rows@.take(0).filter(keep).map_values(to_record));
    }
    while i < rows.len()
        invariant
            i <= rows@.len(),
            columns@ == catalog.tables()[t as int].columns@,
            e == command.filter,
            keep == (|x: Tuple| expression_holds(columns@, e, x@)),
            to_record == (|x: Tuple| record_of(columns@, x@)),
            records_view(res@) == rows@.take(i as int).filter(keep).map_values(to_record),
        decreases rows@.len() - i,
    {
        let ghost prev = res@;
        let ghost before = rows@.take(i as int).filter(keep);
        proof {
            reveal(Seq::filter);
            assert(rows@.take(i + 1).drop_last() =~= rows@.take(i as int));
            assert(rows@.take(i + 1).last() == rows@[i as int]);
        }
        if evaluate_expression(columns, &command.filter, rows[i].as_slice()) {
            let copy = duplicate_tuple(rows[i].as_slice());
            proof {
                lemma_record_of_view(columns@, copy, rows@[i as int]);
            }
            let record = build_record(columns, copy);
            res.push(record);
            proof {
                assert(rows@.take(i + 1).filter(keep) == before.push(rows@[i as int]));
                assert(records_view(res@) =~= records_view(prev).push(record@));
                assert(before.push(rows@[i as int]).map_values(to_record) =~= before.map_values(
                    to_record,
                ).push(to_record(rows@[i as int])));
            }
        } else {
            proof {
                assert(rows@.take(i + 1).filter(keep) == before);
            }
        }
        i = i + 1;
    }
    proof {
        assert(rows@.take(rows@.len() as int) =~= rows@);
    }
    Ok(res)
}

/// Keys are unique per table: once a put has been accepted and its frame
/// recorded, a put of another item with the same key into the same table is
/// refused with `KeyExists`.
pub proof fn lemma_put_unique(
    before: Catalog,
    after: Catalog,
    table_name: Seq<char>,
    first: Seq<(ColumnName, ColumnValue)>,
    second: Seq<(ColumnName, ColumnValue)>,
)
    requires
        put_check(before, table_name, first) is Accepted,
        recorded(
            before,
            after,
            put_check(before, table_name, first)->Accepted_0,
            put_check(before, table_name, first)->Accepted_1,
        ),
        item_value(second, before.tables()[put_check(before, table_name, first)->Accepted_0].primary_key@)
            == item_value(
            first,
            before.tables()[put_check(before, table_name, first)->Accepted_0].primary_key@,
        ),
    ensures
        put_check(after, table_name, second) == PutOutcome::KeyExists(
            put_check(before, table_name, first)->Accepted_1,
        ),
{
    let t = put_check(before, table_name, first)->Accepted_0;
    assert(table_names(after.tables()) =~= table_names(before.tables())) by {
        assert forall|i: int| 0 <= i < before.tables().len() implies table_names(after.tables())[i]
            == table_names(before.tables())[i] by {
            if i != t {
                assert(after.tables()[i] == before.tables()[i]);
            }
        }
    }
}

proof fn lemma_filter_all<A>(s: Seq<A>, p: spec_fn(A) -> bool)
    requires
        forall|x: A| #[trigger] p(x),
    ensures
        s.filter(p) == s,
    decreases s.len(),
{
    reveal(Seq::filter);
    if s.len() > 0 {
        lemma_filter_all(s.drop_last(), p);
        assert(s.drop_last().push(s.last()) =~= s);
    }
}

proof fn lemma_filter_none<A>(s: Seq<A>, p: spec_fn(A) -> bool)
    requires
        forall|x: A| !#[trigger] p(x),
    ensures
        s.filter(p) == Seq::<A>::empty(),
    decreases s.len(),
{
    reveal(Seq::filter);
    if s.len() > 0 {
        lemma_filter_none(s.drop_last(), p);
    }
}

/// A filter made of an empty conjunction keeps every row; one made of an
/// empty disjunction keeps none.
pub proof fn lemma_filter_empty_and_or(
    columns: Seq<ColumnDefinition>,
    rows: Seq<Tuple>,
    parts: Vec<Expression>,
)
    requires
        parts@.len() == 0,
    ensures
        filter_records(columns, Expression::And(parts), rows) == rows.map_values(
            |t: Tuple| record_of(columns, t@),
        ),
        filter_records(columns, Expression::Or(parts), rows) == Seq::<
            Seq<(Seq<char>, Option<Value>)>,
        >::empty(),
{
    let and_keep = |t: Tuple| expression_holds(columns, Expression::And(parts), t@);
    let or_keep = |t: Tuple| expression_holds(columns, Expression::Or(parts), t@);
    lemma_filter_all(rows, and_keep);
    lemma_filter_none(rows, or_keep);
    assert(rows.filter(or_keep).map_values(|t: Tuple| record_of(columns, t@)) =~= Seq::<
        Seq<(Seq<char>, Option<Value>)>,
    >::empty());
}

} // verus!
