use vstd::prelude::*;
use crate::data::{ExecError, Row, RowView, Schema, SchemaView, rows_view};
use crate::store::{
    Store, unique_keys, upsert, has_key, lemma_without_single_key,
    lemma_upsert_single_key, lemma_without_absent_key,
};
use crate::value::Value;

verus! {

/// One table of a `MemoryStore`.
pub struct Table {
    pub schema: Schema,
    pub rows: Vec<Row<u64>>,
}

/// A store that keeps its tables in memory, in creation order, and keys rows
/// by a counter.
pub struct MemoryStore {
    tables: Vec<Table>,
    next_id: u64,
}

fn copy_items(items: &Vec<Value>) -> (r: Vec<Value>)
    ensures
        r@ == items@,
{
    let mut r: Vec<Value> = Vec::new();
    let mut i: usize = 0;
    while i < items.len()
        invariant
            i <= items.len(),
            r@ == items@.subrange(0, i as int),
        decreases items.len() - i,
    {
        r.push(items[i].duplicate());
        proof {
            assert(r@ =~= items@.subrange(0, i + 1));
        }
        i = i + 1;
    }
    assert(items@.subrange(0, items@.len() as int) =~= items@);
    r
}

fn copy_rows(rows: &Vec<Row<u64>>) -> (r: Vec<Row<u64>>)
    ensures
        rows_view(r@) == rows_view(rows@),
{
    let mut r: Vec<Row<u64>> = Vec::new();
    let mut i: usize = 0;
    while i < rows.len()
        invariant
            i <= rows.len(),
            r@.len() == i,
            forall|k: int| 0 <= k < i ==> (#[trigger] r@[k])@ == rows@[k]@,
        decreases rows.len() - i,
    {
        r.push(Row { key: rows[i].key, items: copy_items(&rows[i].items) });
        i = i + 1;
    }
    assert(rows_view(r@) =~= rows_view(rows@));
    r
}

/// The position of a table of name `n` among `tables`.
spec fn table_position(tables: Seq<Table>, n: Seq<char>) -> int {
    choose|i: int| 0 <= i < tables.len() && tables[i].schema.table_name@ == n
}

impl MemoryStore {
    /// A store without tables.
    pub fn new() -> (r: MemoryStore)
        ensures
            r.wf(),
            r.schemas() == Map::<Seq<char>, SchemaView>::empty(),
            r.tables() == Map::<Seq<char>, Seq<RowView<u64>>>::empty(),
    {
        let r = MemoryStore { tables: Vec::new(), next_id: 0 };
        assert(r.schemas() =~= Map::<Seq<char>, SchemaView>::empty());
        assert(r.tables() =~= Map::<Seq<char>, Seq<RowView<u64>>>::empty());
        r
    }

    closed spec fn name_at(self, i: int) -> Seq<char> {
        self.tables@[i].schema.table_name@
    }

    closed spec fn has_table(self, n: Seq<char>) -> bool {
        exists|i: int| 0 <= i < self.tables@.len() && self.name_at(i) == n
    }

    closed spec fn position(self, n: Seq<char>) -> int {
        table_position(self.tables@, n)
    }

    closed spec fn names_unique(self) -> bool {
        forall|i: int, j: int|
            0 <= i < self.tables@.len() && 0 <= j < self.tables@.len() && i != j ==> self.name_at(i)
                != self.name_at(j)
    }

    proof fn lemma_position(self, i: int)
        requires
            self.names_unique(),
            0 <= i < self.tables@.len(),
        ensures
            self.has_table(self.name_at(i)),
            self.position(self.name_at(i)) == i,
    {
        assert(self.tables@[i].schema.table_name@ == self.name_at(i));
        assert(self.has_table(self.name_at(i)));
        let p = self.position(self.name_at(i));
        assert(0 <= p < self.tables@.len() && self.name_at(p) == self.name_at(i));
    }

    proof fn lemma_same_tables(self, other: MemoryStore)
        requires
            self.tables@ == other.tables@,
        ensures
            self.schemas() == other.schemas(),
            self.tables() == other.tables(),
    {
        assert forall|n: Seq<char>| self.has_table(n) == other.has_table(n) by {
            if self.has_table(n) {
                let j = choose|j: int| 0 <= j < self.tables@.len() && self.name_at(j) == n;
                assert(other.name_at(j) == n);
            }
            if other.has_table(n) {
                let j = choose|j: int| 0 <= j < other.tables@.len() && other.name_at(j) == n;
                assert(self.name_at(j) == n);
            }
        }
        assert(self.schemas() =~= other.schemas());
        assert(self.tables() =~= other.tables());
    }

    /// After table `ti` is replaced by one of the same schema, the schemas
    /// stay and that table's rows are the new ones.
    proof fn lemma_replace(self, other: MemoryStore, ti: int)
        requires
            self.names_unique(),
            0 <= ti < self.tables@.len(),
            other.tables@.len() == self.tables@.len(),
            other.tables@[ti].schema == self.tables@[ti].schema,
            forall|j: int| 0 <= j < self.tables@.len() && j != ti ==> other.tables@[j] == self.tables@[j],
        ensures
            other.names_unique(),
            other.schemas() == self.schemas(),
            other.tables() == self.tables().insert(
                self.name_at(ti),
                rows_view(other.tables@[ti].rows@),
            ),
    {
        assert forall|j: int| 0 <= j < self.tables@.len() implies other.name_at(j) == self.name_at(j) by {}
        assert forall|n: Seq<char>| other.has_table(n) <==> self.has_table(n) by {
            if other.has_table(n) {
                let j = choose|j: int| 0 <= j < other.tables@.len() && other.name_at(j) == n;
                assert(self.name_at(j) == n);
            }
            if self.has_table(n) {
                let j = choose|j: int| 0 <= j < self.tables@.len() && self.name_at(j) == n;
                assert(other.name_at(j) == n);
            }
        }
        assert forall|n: Seq<char>| self.has_table(n) implies other.position(n) == self.position(n) by {
            let j = self.position(n);
            self.lemma_position(j);
            other.lemma_position(j);
        }
        assert(other.schemas() =~= self.schemas());
        self.lemma_position(ti);
        assert(other.tables() =~= self.tables().insert(
            self.name_at(ti),
            rows_view(other.tables@[ti].rows@),
        ));
    }

    fn find(&self, table: &str) -> (r: Option<usize>)
        requires
            self.names_unique(),
        ensures
            match r {
                Some(i) => i < self.tables@.len() && self.name_at(i as int) == table@
                    && self.has_table(table@) && self.position(table@) == i,
                None => !self.has_table(table@),
            },
    {
        let name = table.to_owned();
        let mut i: usize = 0;
        while i < self.tables.len()
            invariant
                self.names_unique(),
                name@ == table@,
                i <= self.tables@.len(),
                forall|j: int| 0 <= j < i ==> self.name_at(j) != table@,
            decreases self.tables.len() - i,
        {
            if self.tables[i].schema.table_name == name {
                proof {
                    self.lemma_position(i as int);
                }
                return Some(i);
            }
            i = i + 1;
        }
        None
    }

    fn find_key(rows: &Vec<Row<u64>>, key: u64) -> (r: Option<usize>)
        ensures
            match r {
                Some(j) => j < rows@.len() && rows@[j as int].key == key,
                None => !has_key(rows_view(rows@), key),
            },
    {
        let mut j: usize = 0;
        while j < rows.len()
            invariant
                j <= rows@.len(),
                forall|k: int| 0 <= k < j ==> rows@[k].key != key,
            decreases rows.len() - j,
        {
            if rows[j].key == key {
                return Some(j);
            }
            j = j + 1;
        }
        proof {
            if has_key(rows_view(rows@), key) {
                let k = choose|k: int| 0 <= k < rows@.len() && rows_view(rows@)[k].0 == key;
                assert(rows@[k].key == key);
            }
        }
        None
    }
}

impl Store<u64> for MemoryStore {
    closed spec fn wf(&self) -> bool {
        &&& self.names_unique()
        &&& forall|i: int| 0 <= i < self.tables@.len() ==> unique_keys(rows_view(#[trigger] self.tables@[i].rows@))
        &&& forall|i: int, j: int|
            0 <= i < self.tables@.len() && 0 <= j < self.tables@[i].rows@.len() ==> (
            #[trigger] self.tables@[i].rows@[j]).key < self.next_id || self.next_id == u64::MAX
    }

    closed spec fn schemas(&self) -> Map<Seq<char>, SchemaView> {
        Map::new(|n: Seq<char>| self.has_table(n), |n: Seq<char>| self.tables@[self.position(n)].schema@)
    }

    closed spec fn tables(&self) -> Map<Seq<char>, Seq<RowView<u64>>> {
        Map::new(
            |n: Seq<char>| self.has_table(n),
            |n: Seq<char>| rows_view(self.tables@[self.position(n)].rows@),
        )
    }

    fn get_schema(&self, table: &str) -> (r: Result<Schema, ExecError>)
        ensures
            self.schemas().contains_key(table@) ==> r is Ok,
    {
        match self.find(table) {
            Some(i) => Ok(self.tables[i].schema.duplicate()),
            None => Err(ExecError::TableNotFound(table.to_owned())),
        }
    }

    fn set_schema(&mut self, schema: Schema) -> (r: Result<(), ExecError>)
        ensures
            !old(self).schemas().contains_key(schema@.0) ==> r is Ok,
    {
        match self.find(schema.table_name.as_str()) {
            Some(_) => {
                return Err(ExecError::TableAlreadyExists(schema.table_name.clone()));
            },
            None => {},
        }
        let ghost pre = *self;
        let ghost n = schema@.0;
        self.tables.push(Table { schema, rows: Vec::new() });
        proof {
            let last = pre.tables@.len() as int;
            assert forall|j: int| 0 <= j < last implies self.name_at(j) == pre.name_at(j) by {}
            assert(self.name_at(last) == n);
            assert(self.names_unique()) by {
                assert forall|i: int, j: int|
                    0 <= i < self.tables@.len() && 0 <= j < self.tables@.len() && i != j
                        implies self.name_at(i) != self.name_at(j) by {
                    if i == last && j < last {
                        assert(pre.name_at(j) != n);
                    } else if j == last && i < last {
                        assert(pre.name_at(i) != n);
                    } else {
                        assert(pre.name_at(i) != pre.name_at(j));
                    }
                }
            }
            assert forall|m: Seq<char>| self.has_table(m) <==> (pre.has_table(m) || m == n) by {
                if self.has_table(m) {
                    let j = choose|j: int| 0 <= j < self.tables@.len() && self.name_at(j) == m;
                    if j < last {
                        assert(pre.name_at(j) == m);
                    }
                }
                if pre.has_table(m) {
                    let j = choose|j: int| 0 <= j < pre.tables@.len() && pre.name_at(j) == m;
                    assert(self.name_at(j) == m);
                }
                if m == n {
                    assert(self.name_at(last) == m);
                }
            }
            assert forall|m: Seq<char>| pre.has_table(m) implies self.position(m) == pre.position(m) by {
                let j = pre.position(m);
                pre.lemma_position(j);
                self.lemma_position(j);
            }
            self.lemma_position(last);
            assert(self.schemas() =~= pre.schemas().insert(n, schema@));
            assert(rows_view(self.tables@[last].rows@) =~= Seq::<RowView<u64>>::empty());
            assert(self.tables() =~= pre.tables().insert(n, Seq::<RowView<u64>>::empty()));
            assert forall|i: int| 0 <= i < self.tables@.len() implies unique_keys(
                rows_view(#[trigger] self.tables@[i].rows@),
            ) by {
                if i < last {
                    assert(self.tables@[i] == pre.tables@[i]);
                }
            }
            assert forall|i: int, j: int|
                0 <= i < self.tables@.len() && 0 <= j < self.tables@[i].rows@.len() implies (
                #[trigger] self.tables@[i].rows@[j]).key < self.next_id || self.next_id == u64::MAX by {
                assert(i < last);
                assert(self.tables@[i] == pre.tables@[i]);
            }
        }
        Ok(())
    }

    fn gen_id(&mut self) -> (r: Result<u64, ExecError>) {
        if self.next_id == u64::MAX {
            return Err(ExecError::Storage("no key left".to_owned()));
        }
        let ghost pre = *self;
        let k = self.next_id;
        self.next_id = self.next_id + 1;
        proof {
            self.lemma_same_tables(pre);
            assert forall|i: int, j: int|
                0 <= i < self.tables@.len() && 0 <= j < self.tables@[i].rows@.len() implies (
                #[trigger] self.tables@[i].rows@[j]).key < self.next_id || self.next_id == u64::MAX by {
                assert(pre.tables@[i].rows@[j].key < pre.next_id);
            }
            assert forall|i: int| 0 <= i < self.tables@.len() implies unique_keys(
                rows_view(#[trigger] self.tables@[i].rows@),
            ) by {
                assert(unique_keys(rows_view(pre.tables@[i].rows@)));
            }
            assert forall|i: int, j: int|
                0 <= i < self.tables@.len() && 0 <= j < self.tables@.len() && i != j
                    implies self.name_at(i) != self.name_at(j) by {
                assert(pre.name_at(i) != pre.name_at(j));
            }
            assert forall|t: Seq<char>| #[trigger] pre.tables().contains_key(t) implies !has_key(
                pre.tables()[t],
                k,
            ) by {
                let i = pre.position(t);
                let rv = rows_view(pre.tables@[i].rows@);
                if has_key(rv, k) {
                    let j = choose|j: int| 0 <= j < rv.len() && rv[j].0 == k;
                    assert(pre.tables@[i].rows@[j].key < k);
                }
            }
        }
        Ok(k)
    }

    fn get_data(&self, table: &str) -> (r: Result<Vec<Row<u64>>, ExecError>)
        ensures
            self.tables().contains_key(table@) ==> r is Ok,
    {
        match self.find(table) {
            Some(i) => {
                let rows = copy_rows(&self.tables[i].rows);
                assert(unique_keys(rows_view(self.tables@[i as int].rows@)));
                Ok(rows)
            },
            None => Err(ExecError::TableNotFound(table.to_owned())),
        }
    }

    fn set_data(&mut self, table: &str, row: Row<u64>) -> (r: Result<Row<u64>, ExecError>)
        ensures
            old(self).tables().contains_key(table@) ==> r is Ok,
    {
        let ti = match self.find(table) {
            Some(i) => i,
            None => {
                return Err(ExecError::TableNotFound(table.to_owned()));
            },
        };
        let ghost pre = *self;
        let ghost rv = row@;
        let echo = Row { key: row.key, items: copy_items(&row.items) };
        if row.key >= self.next_id {
            if row.key < u64::MAX {
                self.next_id = row.key + 1;
            } else {
                self.next_id = u64::MAX;
            }
        }
        let ghost mid = *self;
        let mut tbl = self.tables.remove(ti);
        let ghost old_rows = rows_view(tbl.rows@);
        match MemoryStore::find_key(&tbl.rows, row.key) {
            Some(j) => {
                proof {
                    assert(old_rows[j as int].0 == rv.0);
                    lemma_upsert_single_key(old_rows, rv, j as int);
                }
                tbl.rows.set(j, row);
                proof {
                    assert(rows_view(tbl.rows@) =~= old_rows.update(j as int, rv));
                }
            },
            None => {
                tbl.rows.push(row);
                proof {
                    assert(rows_view(tbl.rows@) =~= old_rows.push(rv));
                }
            },
        }
        proof {
            assert(rows_view(tbl.rows@) == upsert(old_rows, rv));
            assert(unique_keys(rows_view(tbl.rows@))) by {
                assert(unique_keys(old_rows));
            }
        }
        self.tables.insert(ti, tbl);
        proof {
            mid.lemma_same_tables(pre);
            assert forall|i: int, j: int|
                0 <= i < mid.tables@.len() && 0 <= j < mid.tables@.len() && i != j
                    implies mid.name_at(i) != mid.name_at(j) by {
                assert(pre.name_at(i) != pre.name_at(j));
            }
            mid.lemma_replace(*self, ti as int);
            mid.lemma_position(ti as int);
            assert forall|i: int, j: int|
                0 <= i < self.tables@.len() && 0 <= j < self.tables@[i].rows@.len() implies (
                #[trigger] self.tables@[i].rows@[j]).key < self.next_id || self.next_id == u64::MAX by {
                if i != ti {
                    assert(self.tables@[i] == pre.tables@[i]);
                } else {
                    let rw = rows_view(self.tables@[i].rows@);
                    assert(rw[j].0 == self.tables@[i].rows@[j].key);
                    if rw[j].0 != rv.0 {
                        assert(has_key(old_rows, rw[j].0) || rw[j].0 == rv.0);
                    }
                }
            }
        }
        Ok(echo)
    }

    fn del_data(&mut self, table: &str, key: &u64) -> (r: Result<(), ExecError>)
        ensures
            old(self).tables().contains_key(table@) ==> r is Ok,
    {
        let ti = match self.find(table) {
            Some(i) => i,
            None => {
                return Err(ExecError::TableNotFound(table.to_owned()));
            },
        };
        let ghost pre = *self;
        let mut tbl = self.tables.remove(ti);
        let ghost old_rows = rows_view(tbl.rows@);
        let ghost old_vec = tbl.rows@;
        match MemoryStore::find_key(&tbl.rows, *key) {
            Some(j) => {
                proof {
                    assert(unique_keys(old_rows));
                    assert(old_rows[j as int].0 == *key);
                    lemma_without_single_key(old_rows, *key, j as int);
                }
                tbl.rows.remove(j);
                proof {
                    assert(rows_view(tbl.rows@) =~= old_rows.remove(j as int));
                    assert forall|q: int| 0 <= q < tbl.rows@.len() implies exists|m: int|
                        0 <= m < old_vec.len() && #[trigger] tbl.rows@[q] == old_vec[m] by {
                        if q < j {
                            assert(tbl.rows@[q] == old_vec[q]);
                        } else {
                            assert(tbl.rows@[q] == old_vec[q + 1]);
                        }
                    }
                }
            },
            None => {
                proof {
                    lemma_without_absent_key(old_rows, *key);
                    assert forall|q: int| 0 <= q < tbl.rows@.len() implies exists|m: int|
                        0 <= m < old_vec.len() && #[trigger] tbl.rows@[q] == old_vec[m] by {
                        assert(tbl.rows@[q] == old_vec[q]);
                    }
                }
            },
        }
        self.tables.insert(ti, tbl);
        proof {
            pre.lemma_replace(*self, ti as int);
            pre.lemma_position(ti as int);
            assert forall|i: int| 0 <= i < self.tables@.len() implies unique_keys(
                rows_view(#[trigger] self.tables@[i].rows@),
            ) by {
                if i != ti {
                    assert(self.tables@[i] == pre.tables@[i]);
                }
            }
            assert forall|i: int, j: int|
                0 <= i < self.tables@.len() && 0 <= j < self.tables@[i].rows@.len() implies (
                #[trigger] self.tables@[i].rows@[j]).key < self.next_id || self.next_id == u64::MAX by {
                if i != ti {
                    assert(self.tables@[i] == pre.tables@[i]);
                } else {
                    let m = choose|m: int|
                        0 <= m < old_vec.len() && #[trigger] self.tables@[i].rows@[j] == old_vec[m];
                    assert(pre.tables@[i].rows@[m] == old_vec[m]);
                }
            }
        }
        Ok(())
    }
}

} // verus!
