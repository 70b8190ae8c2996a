use vstd::prelude::*;
use crate::data::{ExecError, Row, RowView, Schema, SchemaView, rows_view};

verus! {

/// Whether no two rows share a key.
pub open spec fn unique_keys<K>(rows: Seq<RowView<K>>) -> bool {
    forall|i: int, j: int|
        0 <= i < rows.len() && 0 <= j < rows.len() && i != j ==> rows[i].0 != rows[j].0
}

/// Whether some row has key `k`.
pub open spec fn has_key<K>(rows: Seq<RowView<K>>, k: K) -> bool {
    exists|i: int| 0 <= i < rows.len() && rows[i].0 == k
}

/// The rows without those of key `k`, in order.
pub open spec fn without_key<K>(rows: Seq<RowView<K>>, k: K) -> Seq<RowView<K>>
    decreases rows.len(),
{
    if rows.len() == 0 {
        rows
    } else {
        let rest = without_key(rows.drop_last(), k);
        if rows.last().0 == k {
            rest
        } else {
            rest.push(rows.last())
        }
    }
}

/// The rows after storing `row`: it replaces the rows of its key where there
/// are any, else it comes last.
pub open spec fn upsert<K>(rows: Seq<RowView<K>>, row: RowView<K>) -> Seq<RowView<K>> {
    if has_key(rows, row.0) {
        Seq::new(rows.len(), |i: int| if rows[i].0 == row.0 { row } else { rows[i] })
    } else {
        rows.push(row)
    }
}

/// Whether `k` is the key of no row of any table.
pub open spec fn key_is_fresh<K>(tables: Map<Seq<char>, Seq<RowView<K>>>, k: K) -> bool {
    forall|t: Seq<char>| #[trigger] tables.contains_key(t) ==> !has_key(tables[t], k)
}

/// What a storage backend offers the executor. Its state is seen as two maps
/// from table names: to schemas, and to the rows in storage order.
pub trait Store<K>: Sized {
    /// The backend's own consistency condition.
    spec fn wf(&self) -> bool;

    spec fn schemas(&self) -> Map<Seq<char>, SchemaView>;

    spec fn tables(&self) -> Map<Seq<char>, Seq<RowView<K>>>;

    /// The schema of a table; `TableNotFound` where there is none.
    fn get_schema(&self, table: &str) -> (r: Result<Schema, ExecError>)
        requires
            self.wf(),
        ensures
            r matches Ok(s) ==> self.schemas().contains_key(table@) && s@ == self.schemas()[table@],
            !self.schemas().contains_key(table@) ==> (r matches Err(ExecError::TableNotFound(n))
                && n@ == table@),
    ;

    /// Creates a table without rows; `TableAlreadyExists`, with nothing
    /// changed, where the name is taken.
    fn set_schema(&mut self, schema: Schema) -> (r: Result<(), ExecError>)
        requires
            old(self).wf(),
        ensures
            final(self).wf(),
            old(self).schemas().contains_key(schema@.0) ==> (r matches Err(
                ExecError::TableAlreadyExists(n),
            ) && n@ == schema@.0),
            old(self).schemas().contains_key(schema@.0) ==> final(self).schemas() == old(
                self,
            ).schemas() && final(self).tables() == old(self).tables(),
            r is Ok ==> final(self).schemas() == old(self).schemas().insert(schema@.0, schema@)
                && final(self).tables() == old(self).tables().insert(
                schema@.0,
                Seq::<RowView<K>>::empty(),
            ),
    ;

    /// A key that no stored row has.
    fn gen_id(&mut self) -> (r: Result<K, ExecError>)
        requires
            old(self).wf(),
        ensures
            final(self).wf(),
            final(self).schemas() == old(self).schemas(),
            final(self).tables() == old(self).tables(),
            r matches Ok(k) ==> key_is_fresh(old(self).tables(), k),
    ;

    /// The rows of a table, in storage order; `TableNotFound` where there is
    /// no such table.
    fn get_data(&self, table: &str) -> (r: Result<Vec<Row<K>>, ExecError>)
        requires
            self.wf(),
        ensures
            r matches Ok(rows) ==> self.tables().contains_key(table@) && rows_view(rows@)
                == self.tables()[table@] && unique_keys(rows_view(rows@)),
            !self.tables().contains_key(table@) ==> (r matches Err(ExecError::TableNotFound(n))
                && n@ == table@),
    ;

    /// Stores a row, replacing the row of the same key; gives back the row as
    /// stored.
    fn set_data(&mut self, table: &str, row: Row<K>) -> (r: Result<Row<K>, ExecError>)
        requires
            old(self).wf(),
        ensures
            final(self).wf(),
            r is Ok ==> old(self).tables().contains_key(table@),
            r matches Ok(stored) ==> stored@ == row@,
            r is Ok ==> final(self).schemas() == old(self).schemas() && final(self).tables()
                == old(self).tables().insert(table@, upsert(old(self).tables()[table@], row@)),
            !old(self).tables().contains_key(table@) ==> (r matches Err(
                ExecError::TableNotFound(n),
            ) && n@ == table@),
    ;

    /// Removes the row of key `key`; a key that no row has changes nothing.
    fn del_data(&mut self, table: &str, key: &K) -> (r: Result<(), ExecError>)
        requires
            old(self).wf(),
        ensures
            final(self).wf(),
            r is Ok ==> old(self).tables().contains_key(table@),
            r is Ok ==> final(self).schemas() == old(self).schemas() && final(self).tables()
                == old(self).tables().insert(table@, without_key(old(self).tables()[table@], *key)),
            !old(self).tables().contains_key(table@) ==> (r matches Err(
                ExecError::TableNotFound(n),
            ) && n@ == table@),
    ;
}

/// A sequence holding no row of key `k` loses nothing to `without_key`.
pub proof fn lemma_without_absent_key<K>(rows: Seq<RowView<K>>, k: K)
    requires
        !has_key(rows, k),
    ensures
        without_key(rows, k) == rows,
    decreases rows.len(),
{
    if rows.len() > 0 {
        let d = rows.drop_last();
        assert(!has_key(d, k)) by {
            if has_key(d, k) {
                let i = choose|i: int| 0 <= i < d.len() && d[i].0 == k;
                assert(rows[i].0 == k);
            }
        }
        lemma_without_absent_key(d, k);
        assert(rows.last().0 != k) by {
            assert(rows[rows.len() - 1].0 != k);
        }
        assert(d.push(rows.last()) =~= rows);
    }
}

/// Where only position `idx` holds key `k`, `without_key` removes just that
/// position.
pub proof fn lemma_without_single_key<K>(rows: Seq<RowView<K>>, k: K, idx: int)
    requires
        0 <= idx < rows.len(),
        rows[idx].0 == k,
        forall|j: int| 0 <= j < rows.len() && j != idx ==> rows[j].0 != k,
    ensures
        without_key(rows, k) == rows.remove(idx),
    decreases rows.len(),
{
    let d = rows.drop_last();
    if idx == rows.len() - 1 {
        assert(!has_key(d, k)) by {
            if has_key(d, k) {
                let i = choose|i: int| 0 <= i < d.len() && d[i].0 == k;
                assert(rows[i].0 == k);
            }
        }
        lemma_without_absent_key(d, k);
        assert(rows.remove(idx) =~= d);
    } else {
        lemma_without_single_key(d, k, idx);
        assert(rows.last().0 != k) by {
            assert(rows[rows.len() - 1].0 != k);
        }
        assert(d.remove(idx).push(rows.last()) =~= rows.remove(idx));
    }
}

/// Where only position `idx` holds the row's key, `upsert` replaces just that
/// position.
pub proof fn lemma_upsert_single_key<K>(rows: Seq<RowView<K>>, row: RowView<K>, idx: int)
    requires
        0 <= idx < rows.len(),
        rows[idx].0 == row.0,
        forall|j: int| 0 <= j < rows.len() && j != idx ==> rows[j].0 != row.0,
    ensures
        upsert(rows, row) == rows.update(idx, row),
{
    assert(has_key(rows, row.0));
    assert(upsert(rows, row) =~= rows.update(idx, row));
}

} // verus!
