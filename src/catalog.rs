//! The tables of a database directory, each with its schema and its buffer.
use vstd::prelude::*;

use crate::expression::column_position;
use crate::table::{all_keyed, frame_keys, frames_size, replay, TableBuffer, TableBufferError};
use crate::types::{
    column_names, first_index, lemma_first_index, lemma_no_index, pk_index, ColumnDefinition,
    ColumnName, ColumnValue, TableDefinition, TableName, Tuple, Value,
};

verus! {

/// Why the catalog could not be opened or changed.
#[derive(Debug, Clone, PartialEq, Eq)]
pub enum CatalogError {
    /// The database directory does not exist.
    DbDirNotExist(String),
    /// A table's buffer could not be built.
    TableStorageError(TableBufferError),
    /// A file of the catalog could not be read or written.
    FileOperationError(String),
    /// The schema file does not hold a list of table definitions.
    DeserError(String),
}

/// A table: its schema and the buffer over its log.
pub struct Table {
    pub name: TableName,
    pub columns: Vec<ColumnDefinition>,
    pub primary_key: ColumnName,
    pub table_buffer: TableBuffer,
}

impl Table {
    /// The buffer is sound and its key position is that of the primary key
    /// in the schema.
    pub open spec fn wf(&self) -> bool {
        &&& self.table_buffer.wf()
        &&& first_index(column_names(self.columns@), self.primary_key@) == Some(
            self.table_buffer.pk() as int,
        )
    }

    /// Builds a table from its schema and the decoded frames of its log (each
    /// a row and its payload length, in log order).
    pub fn new(table_definition: TableDefinition, frames: &[(Tuple, u64)]) -> (r: Result<
        Table,
        CatalogError,
    >)
        requires
            frames_size(frames@) <= u64::MAX,
        ensures
            match pk_index(table_definition) {
                None => r == Err::<Table, CatalogError>(
                    CatalogError::TableStorageError(TableBufferError::PrimaryKeyNotInDefn),
                ),
                Some(pk) => if all_keyed(frames@, pk) {
                    r is Ok && {
                        let t = r->Ok_0;
                        &&& t.wf()
                        &&& t.name@ == table_definition.name@
                        &&& t.columns@ == table_definition.columns@
                        &&& t.primary_key@ == table_definition.primary_key@
                        &&& t.table_buffer.pk() == pk
                        &&& t.table_buffer.history() == frame_keys(frames@, pk)
                        &&& t.table_buffer.offsets() == replay(frame_keys(frames@, pk))
                    }
                } else {
                    r == Err::<Table, CatalogError>(
                        CatalogError::TableStorageError(TableBufferError::PrimaryKeyNotInTuple),
                    )
                },
            },
            r is Ok ==> r->Ok_0.wf() && r->Ok_0.name@ == table_definition.name@,
    {
        match TableBuffer::new(&table_definition, frames) {
            Ok(table_buffer) => Ok(Table {
                name: table_definition.name,
                columns: table_definition.columns,
                primary_key: table_definition.primary_key,
                table_buffer,
            }),
            Err(e) => Err(CatalogError::TableStorageError(e)),
        }
    }

    /// The first column of the schema named `name`.
    pub fn get_column(&self, name: &ColumnName) -> (r: Option<&ColumnDefinition>)
        ensures
            match first_index(column_names(self.columns@), name@) {
                Some(i) => r == Some(&self.columns@[i]),
                None => r is None,
            },
    {
        match column_position(self.columns.as_slice(), name) {
            Some(i) => Some(&self.columns[i]),
            None => None,
        }
    }

    /// The schema of the table.
    pub fn definition(&self) -> (r: TableDefinition)
        ensures
            r.name@ == self.name@,
            r.primary_key@ == self.primary_key@,
            r.columns@.len() == self.columns@.len(),
            forall|i: int|
                0 <= i < self.columns@.len() ==> (#[trigger] r.columns@[i]).name@
                    == self.columns@[i].name@ && r.columns@[i].column_type
                    == self.columns@[i].column_type,
    {
        let mut columns: Vec<ColumnDefinition> = Vec::new();
        let mut i: usize = 0;
        while i < self.columns.len()
            invariant
                i <= self.columns@.len(),
                columns@.len() == i,
                forall|j: int|
                    0 <= j < i ==> (#[trigger] columns@[j]).name@ == self.columns@[j].name@
                        && columns@[j].column_type == self.columns@[j].column_type,
            decreases self.columns@.len() - i,
        {
            columns.push(
                ColumnDefinition {
                    name: self.columns[i].name.duplicate(),
                    column_type: self.columns[i].column_type,
                },
            );
            i = i + 1;
        }
        TableDefinition {
            name: self.name.duplicate(),
            columns,
            primary_key: self.primary_key.duplicate(),
        }
    }
}

/// The names of a list of tables, in order.
pub open spec fn table_names(tables: Seq<Table>) -> Seq<Seq<char>> {
    tables.map_values(|t: Table| t.name@)
}

/// `after` is `before` with a frame of the row of key `k` recorded in the
/// table at position `t`: the schemas stay, and that table's index holds `k`.
pub open spec fn recorded(before: Catalog, after: Catalog, t: int, k: Value) -> bool {
    &&& after.tables().len() == before.tables().len()
    &&& 0 <= t < before.tables().len()
    &&& forall|i: int|
        0 <= i < before.tables().len() && i != t ==> #[trigger] after.tables()[i]
            == before.tables()[i]
    &&& after.tables()[t].name == before.tables()[t].name
    &&& after.tables()[t].columns == before.tables()[t].columns
    &&& after.tables()[t].primary_key == before.tables()[t].primary_key
    &&& after.tables()[t].table_buffer.offsets().contains_key(k)
}

/// The tables of one database directory, in the order they were added.
pub struct Catalog {
    tables: Vec<Table>,
}

impl Catalog {
    /// The tables, in order.
    pub closed spec fn tables(&self) -> Seq<Table> {
        self.tables@
    }

    /// Every table is sound.
    pub open spec fn wf(&self) -> bool {
        forall|i: int| 0 <= i < self.tables().len() ==> (#[trigger] self.tables()[i]).wf()
    }

    /// Position of the first table named `name`.
    pub open spec fn position(&self, name: Seq<char>) -> Option<int> {
        first_index(table_names(self.tables()), name)
    }

    /// A catalog with no table.
    pub fn new() -> (r: Catalog)
        ensures
            r.wf(),
            r.tables().len() == 0,
    {
        Catalog { tables: Vec::new() }
    }

    /// Number of tables.
    pub fn len(&self) -> (r: usize)
        ensures
            r == self.tables().len(),
    {
        self.tables.len()
    }

    /// The table at position `i`.
    pub fn table_at(&self, i: usize) -> (r: &Table)
        requires
            i < self.tables().len(),
        ensures
            *r == self.tables()[i as int],
    {
        &self.tables[i]
    }

    /// Position of the first table named `name`.
    pub fn find_table(&self, name: &TableName) -> (r: Option<usize>)
        ensures
            match r {
                Some(i) => self.position(name@) == Some(i as int),
                None => self.position(name@) is None,
            },
    {
        let ghost names = table_names(self.tables@);
        let mut i: usize = 0;
        while i < self.tables.len()
            invariant
                i <= self.tables@.len(),
                names == table_names(self.tables@),
                names.len() == self.tables@.len(),
                forall|j: int| 0 <= j < i ==> names[j] != name@,
            decreases self.tables@.len() - i,
        {
            assert(names[i as int] == self.tables@[i as int].name@);
            if self.tables[i].name.eq(name) {
                proof {
                    lemma_first_index(names, name@, i as int);
                }
                return Some(i);
            }
            i = i + 1;
        }
        proof {
            lemma_no_index(names, name@);
        }
        None
    }

    /// The first table named `name`.
    pub fn get_table(&self, name: &TableName) -> (r: Option<&Table>)
        ensures
            match self.position(name@) {
                Some(i) => r == Some(&self.tables()[i]),
                None => r is None,
            },
    {
        match self.find_table(name) {
            Some(i) => Some(&self.tables[i]),
            None => None,
        }
    }

    /// The names of the tables, in order.
    pub fn list_tables(&self) -> (r: Vec<TableName>)
        ensures
            r@.len() == self.tables().len(),
            forall|i: int| 0 <= i < r@.len() ==> (#[trigger] r@[i])@ == self.tables()[i].name@,
    {
        let mut names: Vec<TableName> = Vec::new();
        let mut i: usize = 0;
        while i < self.tables.len()
            invariant
                i <= self.tables@.len(),
                names@.len() == i,
                forall|j: int| 0 <= j < i ==> (#[trigger] names@[j])@ == self.tables@[j].name@,
            decreases self.tables@.len() - i,
        {
            names.push(self.tables[i].name.duplicate());
            i = i + 1;
        }
        names
    }

    /// Number of distinct keys of the first table named `name`.
    pub fn get_table_size(&self, name: &TableName) -> (r: Option<usize>)
        requires
            self.wf(),
        ensures
            match self.position(name@) {
                Some(i) => r == Some(self.tables()[i].table_buffer.offsets().dom().len() as usize),
                None => r is None,
            },
    {
        match self.find_table(name) {
            Some(i) => {
                assert(self.tables()[i as int].wf());
                Some(self.tables[i].table_buffer.size())
            },
            None => None,
        }
    }

    /// Adds a table built from `table_def` and the decoded frames of its log,
    /// after the tables already there. Names are not checked here: keeping
    /// them unique is the caller's part.
    pub fn add_table(&mut self, table_def: TableDefinition, frames: &[(Tuple, u64)]) -> (r: Result<
        (),
        CatalogError,
    >)
        requires
            old(self).wf(),
            frames_size(frames@) <= u64::MAX,
        ensures
            final(self).wf(),
            match r {
                Ok(()) => {
                    &&& pk_index(table_def) is Some
                    &&& final(self).tables().len() == old(self).tables().len() + 1
                    &&& final(self).tables().drop_last() == old(self).tables()
                    &&& final(self).tables().last().name@ == table_def.name@
                    &&& final(self).tables().last().columns@ == table_def.columns@
                    &&& final(self).tables().last().primary_key@ == table_def.primary_key@
                    &&& final(self).tables().last().table_buffer.pk() == pk_index(table_def)->Some_0
                    &&& final(self).tables().last().table_buffer.history() == frame_keys(
                        frames@,
                        pk_index(table_def)->Some_0,
                    )
                    &&& final(self).tables().last().table_buffer.offsets() == replay(
                        frame_keys(frames@, final(self).tables().last().table_buffer.pk() as int),
                    )
                },
                Err(_) => final(self).tables() == old(self).tables(),
            },
            pk_index(table_def) is None ==> r == Err::<(), CatalogError>(
                CatalogError::TableStorageError(TableBufferError::PrimaryKeyNotInDefn),
            ),
            pk_index(table_def) is Some && all_keyed(frames@, pk_index(table_def)->Some_0) ==> r is Ok,
    {
        let ghost def = table_def;
        let table = Table::new(table_def, frames)?;
        proof {
            assert(pk_index(def) == first_index(column_names(table.columns@), table.primary_key@))
                by {
                assert(column_names(table.columns@) == column_names(def.columns@));
            }
        }
        let ghost prev = self.tables@;
        let ghost added = table;
        assert(added.wf());
        self.tables.push(table);
        proof {
            assert(self.tables@.drop_last() =~= prev);
            assert forall|i: int| 0 <= i < self.tables().len() implies (
            #[trigger] self.tables()[i]).wf() by {
                if i < prev.len() {
                    assert(self.tables()[i] == prev[i]);
                    assert(old(self).tables()[i].wf());
                } else {
                    assert(self.tables()[i] == added);
                }
            }
        }
        Ok(())
    }

    /// Removes every table named `table_name`, keeping the others in order.
    pub fn drop_table(&mut self, table_name: &TableName)
        requires
            old(self).wf(),
        ensures
            final(self).wf(),
            final(self).tables() == old(self).tables().filter(|t: Table| t.name@ != table_name@),
    {
        let ghost orig = self.tables@;
        assert forall|i: int| 0 <= i < orig.len() implies (#[trigger] orig[i]).wf() by {
            assert(self.tables()[i].wf());
        }
        let ghost keep = |t: Table| t.name@ != table_name@;
        let mut rest: Vec<Table> = Vec::new();
        core::mem::swap(&mut self.tables, &mut rest);
        let ghost mut j: int = 0;
        proof {
            reveal(Seq::filter);
            assert(orig.take(0) =~= Seq::<Table>::empty());
            assert(orig.skip(0) =~= orig);
            assert(self.tables@ =~= orig.take(0).filter(keep));
        }
        while rest.len() > 0
            invariant
                0 <= j <= orig.len(),
                rest@ == orig.skip(j),
                self.tables@ == orig.take(j).filter(keep),
                keep == (|t: Table| t.name@ != table_name@),
                forall|i: int| 0 <= i < orig.len() ==> (#[trigger] orig[i]).wf(),
                forall|i: int| 0 <= i < self.tables@.len() ==> (#[trigger] self.tables@[i]).wf(),
            decreases rest@.len(),
        {
            let table = rest.remove(0);
            proof {
                reveal(Seq::filter);
                assert(table == orig[j]);
                assert(orig.take(j + 1).drop_last() =~= orig.take(j));
                assert(orig.take(j + 1).last() == orig[j]);
                assert(rest@ =~= orig.skip(j + 1));
            }
            let ghost prev = self.tables@;
            if !table.name.eq(table_name) {
                self.tables.push(table);
                proof {
                    assert forall|i: int| 0 <= i < self.tables@.len() implies (
                    #[trigger] self.tables@[i]).wf() by {
                        if i < prev.len() {
                            assert(self.tables@[i] == prev[i]);
                        }
                    }
                }
            }
            proof {
                j = j + 1;
            }
        }
        proof {
            assert(orig.take(j) =~= orig);
        }
    }

    /// Records in the buffer of the table at position `table` that its log
    /// has just received a frame of `tuple_length` payload bytes holding the
    /// row of `key`.
    pub fn record_write(&mut self, table: usize, key: ColumnValue, tuple_length: u64)
        requires
            old(self).wf(),
            table < old(self).tables().len(),
            old(self).tables()[table as int].table_buffer.cursor() + 8 + tuple_length <= u64::MAX,
        ensures
            final(self).wf(),
            recorded(*old(self), *final(self), table as int, key@),
            final(self).tables().len() == old(self).tables().len(),
            forall|i: int|
                0 <= i < old(self).tables().len() && i != table ==> #[trigger] final(self).tables()[i]
                    == old(self).tables()[i],
            ({
                let (o, f) = (old(self).tables()[table as int], final(self).tables()[table as int]);
                &&& f.name == o.name
                &&& f.columns == o.columns
                &&& f.primary_key == o.primary_key
                &&& f.table_buffer.pk() == o.table_buffer.pk()
                &&& f.table_buffer.history() == o.table_buffer.history().push(
                    (key@, tuple_length as nat),
                )
                &&& f.table_buffer.offsets() == o.table_buffer.offsets().insert(
                    key@,
                    o.table_buffer.cursor(),
                )
                &&& f.table_buffer.cursor() == o.table_buffer.cursor() + 8 + tuple_length
                &&& f.table_buffer.offsets().dom().finite()
                &&& f.table_buffer.offsets().dom().len() == o.table_buffer.offsets().dom().len()
                    + (if o.table_buffer.offsets().contains_key(key@) {
                    0int
                } else {
                    1int
                })
            }),
    {
        let ghost prev = self.tables@;
        let mut t = self.tables.remove(table);
        assert(t == prev[table as int]);
        t.table_buffer.write(key, tuple_length);
        self.tables.insert(table, t);
        proof {
            assert forall|i: int|
                0 <= i < prev.len() && i != table implies #[trigger] self.tables@[i] == prev[i] by {
            }
            assert forall|i: int| 0 <= i < self.tables().len() implies (
            #[trigger] self.tables()[i]).wf() by {
                if i != table {
                    assert(self.tables@[i] == prev[i]);
                    assert(prev[i].wf());
                }
            }
        }
    }
}

} // verus!
