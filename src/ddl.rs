//! Creating and dropping tables.
use vstd::prelude::*;

use crate::catalog::{table_names, Catalog, CatalogError, Table};
use crate::error::QueryError;
use crate::table::{all_keyed, frame_keys, frames_size, TableBufferError};
use crate::types::{
    lemma_first_index, lemma_no_index_prefix, pk_index, TableDefinition, TableName, Tuple, Value,
};

verus! {

/// The schema of a table to create.
pub type CreateTableCommand = TableDefinition;

/// The name of a table to drop.
#[derive(Debug, Clone)]
pub struct DropTableCommand {
    pub table_name: TableName,
}

/// Registers a new, empty table. Fails where a table of that name exists, or
/// where the primary key is not one of the columns.
pub fn create_table(table: TableDefinition, catalog: &mut Catalog) -> (r: Result<(), QueryError>)
    requires
        old(catalog).wf(),
    ensures
        final(catalog).wf(),
        old(catalog).position(table.name@) is Some ==> (match r {
            Err(QueryError::TableAlreadyExists(n)) => n@ == table.name@,
            _ => false,
        }),
        old(catalog).position(table.name@) is None && pk_index(table) is None ==> (match r {
            Err(QueryError::CatalogError(e)) => e == CatalogError::TableStorageError(
                TableBufferError::PrimaryKeyNotInDefn,
            ),
            _ => false,
        }),
        old(catalog).position(table.name@) is None && pk_index(table) is Some ==> r is Ok,
        r is Ok ==> {
            &&& final(catalog).tables().len() == old(catalog).tables().len() + 1
            &&& final(catalog).tables().drop_last() == old(catalog).tables()
            &&& final(catalog).tables().last().name@ == table.name@
            &&& final(catalog).tables().last().columns@ == table.columns@
            &&& final(catalog).tables().last().primary_key@ == table.primary_key@
            &&& final(catalog).tables().last().table_buffer.pk() == pk_index(table)->Some_0
            &&& final(catalog).tables().last().table_buffer.history() == Seq::<(Value, nat)>::empty()
            &&& final(catalog).tables().last().table_buffer.offsets() == Map::<Value, nat>::empty()
            &&& final(catalog).position(table.name@) == Some(old(catalog).tables().len() as int)
        },
        r is Err ==> final(catalog).tables() == old(catalog).tables(),
{
    if catalog.find_table(&table.name).is_some() {
        return Err(QueryError::TableAlreadyExists(table.name));
    }
    let ghost name = table.name@;
    let ghost old_len = catalog.tables().len();
    let no_frames: Vec<(Tuple, u64)> = Vec::new();
    assert(frames_size(no_frames@) == 0);
    assert(forall|pk: int| all_keyed(no_frames@, pk));
    match catalog.add_table(table, no_frames.as_slice()) {
        Ok(()) => {
            proof {
                let names = table_names(catalog.tables());
                assert(table_names(catalog.tables().drop_last())
                    =~= names.drop_last());
                lemma_no_index_prefix(names, name);
                assert(names[old_len as int] == name);
                lemma_first_index(names, name, old_len as int);
                assert(no_frames@.len() == 0);
                assert(frame_keys(no_frames@, catalog.tables().last().table_buffer.pk() as int)
                    =~= Seq::<(Value, nat)>::empty());
            }
            Ok(())
        },
        Err(e) => Err(QueryError::CatalogError(e)),
    }
}

/// Removes the table named in `command`. Fails where there is none.
pub fn drop_table(command: DropTableCommand, catalog: &mut Catalog) -> (r: Result<(), QueryError>)
    requires
        old(catalog).wf(),
    ensures
        final(catalog).wf(),
        old(catalog).position(command.table_name@) is None ==> (match r {
            Err(QueryError::TableNotFound(n)) => n@ == command.table_name@,
            _ => false,
        }) && final(catalog).tables() == old(catalog).tables(),
        old(catalog).position(command.table_name@) is Some ==> r is Ok && final(catalog).tables()
            == old(catalog).tables().filter(|t: Table| t.name@ != command.table_name@),
{
    if catalog.find_table(&command.table_name).is_none() {
        return Err(QueryError::TableNotFound(command.table_name));
    }
    catalog.drop_table(&command.table_name);
    Ok(())
}

} // verus!
