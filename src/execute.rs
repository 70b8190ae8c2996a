use vstd::prelude::*;
use crate::data::{
    ExecError, Row, RowView, Schema, rows_view, build_row, validate_insert, schema_names,
    lemma_schema_names, inserted_items, expected_width, fields_known,
};
use crate::store::{
    Store, unique_keys, upsert, has_key, key_is_fresh, lemma_without_single_key,
    lemma_upsert_single_key,
};
use crate::translate::{Blend, Filter, Limit, Update};
use crate::value::Value;

verus! {

/// What a `SELECT` asks for: the table, the columns, the predicate and the
/// window over the matching rows.
pub struct SelectTranslation {
    pub table_name: String,
    pub blend: Blend,
    pub filter: Filter,
    pub limit: Limit,
}

/// One statement, ready to run.
pub enum CommandType {
    Create(Schema),
    Select(SelectTranslation),
    /// Insert one row; an empty column list stands for all columns.
    Insert { table_name: String, fields: Vec<String>, values: Vec<Value> },
    Delete { table_name: String, filter: Filter },
    Update { table_name: String, update: Update, filter: Filter },
}

/// The result of one command.
#[derive(Debug)]
pub enum Payload<K> {
    Create,
    Insert(Row<K>),
    Select(Vec<Row<K>>),
    Delete(usize),
    Update(usize),
}

/// The rows that pass the filter, in order.
pub open spec fn selected<K>(rows: Seq<RowView<K>>, f: Filter) -> Seq<RowView<K>>
    decreases rows.len(),
{
    if rows.len() == 0 {
        rows
    } else {
        let rest = selected(rows.drop_last(), f);
        if f.holds(rows.last().1) {
            rest.push(rows.last())
        } else {
            rest
        }
    }
}

/// The rows that fail the filter, in order.
pub open spec fn rejected<K>(rows: Seq<RowView<K>>, f: Filter) -> Seq<RowView<K>>
    decreases rows.len(),
{
    if rows.len() == 0 {
        rows
    } else {
        let rest = rejected(rows.drop_last(), f);
        if f.holds(rows.last().1) {
            rest
        } else {
            rest.push(rows.last())
        }
    }
}

/// The first position of the window over `n` rows.
pub open spec fn window_start(l: Limit, n: int) -> int {
    if l.offset < n {
        l.offset as int
    } else {
        n
    }
}

/// The position after the window over `n` rows.
pub open spec fn window_end(l: Limit, n: int) -> int {
    match l.count {
        None => n,
        Some(c) => if l.offset + c < n {
            l.offset + c
        } else {
            n
        },
    }
}

/// Each row under its key with the blend's items.
pub open spec fn projected<K>(rows: Seq<RowView<K>>, b: Blend) -> Seq<RowView<K>> {
    Seq::new(rows.len(), |i: int| (rows[i].0, b.project(rows[i].1)))
}

/// What a `SELECT` returns from a table's rows.
pub open spec fn select_result<K>(rows: Seq<RowView<K>>, f: Filter, l: Limit, b: Blend) -> Seq<
    RowView<K>,
> {
    let s = selected(rows, f);
    projected(s.subrange(window_start(l, s.len() as int), window_end(l, s.len() as int)), b)
}

/// A table's rows after an `UPDATE`: the matching rows updated in place.
pub open spec fn updated_rows<K>(rows: Seq<RowView<K>>, f: Filter, u: Update) -> Seq<RowView<K>> {
    Seq::new(
        rows.len(),
        |i: int|
            if f.holds(rows[i].1) {
                (rows[i].0, u.apply_items(rows[i].1))
            } else {
                rows[i]
            },
    )
}

pub proof fn lemma_rejected_from<K>(rows: Seq<RowView<K>>, f: Filter)
    ensures
        forall|j: int|
            0 <= j < rejected(rows, f).len() ==> exists|m: int|
                0 <= m < rows.len() && #[trigger] rejected(rows, f)[j] == #[trigger] rows[m],
    decreases rows.len(),
{
    if rows.len() > 0 {
        let d = rows.drop_last();
        lemma_rejected_from(d, f);
        assert forall|j: int| 0 <= j < rejected(rows, f).len() implies exists|m: int|
            0 <= m < rows.len() && #[trigger] rejected(rows, f)[j] == #[trigger] rows[m] by {
            if j < rejected(d, f).len() {
                let m = choose|m: int| 0 <= m < d.len() && #[trigger] rejected(d, f)[j] == #[trigger] d[m];
                assert(rows[m] == d[m]);
            } else {
                assert(rejected(rows, f)[j] == rows[rows.len() - 1]);
            }
        }
    }
}

/// The rows of a table that pass the filter, in storage order.
pub fn execute_get_data<K, S: Store<K>>(storage: &S, table_name: &str, filter: &Filter) -> (r:
    Result<Vec<Row<K>>, ExecError>)
    requires
        storage.wf(),
    ensures
        r matches Ok(rows) ==> storage.tables().contains_key(table_name@) && rows_view(rows@)
            == selected(storage.tables()[table_name@], *filter),
        !storage.tables().contains_key(table_name@) ==> (r matches Err(
            ExecError::TableNotFound(n),
        ) && n@ == table_name@),
{
    let mut rows = match storage.get_data(table_name) {
        Ok(rows) => rows,
        Err(e) => {
            return Err(e);
        },
    };
    let ghost all = rows@;
    let ghost v = rows_view(all);
    let n = rows.len();
    let mut out: Vec<Row<K>> = Vec::new();
    let mut i: usize = 0;
    while i < n
        invariant
            n == all.len(),
            v == rows_view(all),
            i <= n,
            rows@ == all.subrange(i as int, n as int),
            rows_view(out@) == selected(v.subrange(0, i as int), *filter),
        decreases n - i,
    {
        let row = rows.remove(0);
        proof {
            assert(row == all[i as int]);
            assert(v.subrange(0, i + 1).drop_last() =~= v.subrange(0, i as int));
            assert(v.subrange(0, i + 1).last() == row@);
            assert(rows@ =~= all.subrange(i + 1, n as int));
        }
        if filter.check(&row) {
            let ghost before = out@;
            out.push(row);
            assert(rows_view(out@) =~= rows_view(before).push(row@));
        }
        i = i + 1;
    }
    assert(v.subrange(0, n as int) =~= v);
    Ok(out)
}

/// The rows of a `SELECT`: those that pass the filter, cut to the limit's
/// window over their positions, each keeping the blend's columns.
pub fn execute_select<K, S: Store<K>>(storage: &S, translation: SelectTranslation) -> (r: Result<
    Vec<Row<K>>,
    ExecError,
>)
    requires
        storage.wf(),
    ensures
        r matches Ok(rows) ==> storage.tables().contains_key(translation.table_name@) && rows_view(
            rows@,
        ) == select_result(
            storage.tables()[translation.table_name@],
            translation.filter,
            translation.limit,
            translation.blend,
        ),
        !storage.tables().contains_key(translation.table_name@) ==> (r matches Err(
            ExecError::TableNotFound(n),
        ) && n@ == translation.table_name@),
{
    let SelectTranslation { table_name, blend, filter, limit } = translation;
    let mut rows = match execute_get_data(storage, table_name.as_str(), &filter) {
        Ok(rows) => rows,
        Err(e) => {
            return Err(e);
        },
    };
    let ghost all = rows@;
    let ghost s = rows_view(all);
    let n = rows.len();
    let mut out: Vec<Row<K>> = Vec::new();
    let mut i: usize = 0;
    while i < n
        invariant
            n == all.len(),
            s == rows_view(all),
            i <= n,
            rows@ == all.subrange(i as int, n as int),
            rows_view(out@) == projected(
                s.subrange(window_start(limit, i as int), window_end(limit, i as int)),
                blend,
            ),
        decreases n - i,
    {
        let row = rows.remove(0);
        proof {
            assert(row == all[i as int]);
            assert(rows@ =~= all.subrange(i + 1, n as int));
        }
        let ghost before = out@;
        if limit.check(i) {
            let projected_row = blend.apply(row);
            out.push(projected_row);
            proof {
                assert(s[i as int] == row@);
                assert(rows_view(out@) =~= rows_view(before).push(projected_row@));
                assert(window_start(limit, i + 1) == window_start(limit, i as int));
                assert(window_end(limit, i + 1) == i + 1);
                assert(window_end(limit, i as int) == i);
                assert(rows_view(out@) =~= projected(
                    s.subrange(window_start(limit, i + 1), window_end(limit, i + 1)),
                    blend,
                ));
            }
        } else {
            proof {
                if i < limit.offset {
                    assert(window_start(limit, i + 1) == i + 1);
                    assert(window_end(limit, i + 1) == i + 1);
                    assert(window_start(limit, i as int) == i);
                    assert(window_end(limit, i as int) == i);
                } else {
                    assert(window_start(limit, i + 1) == window_start(limit, i as int));
                    assert(window_end(limit, i + 1) == window_end(limit, i as int));
                }
                assert(rows_view(out@) =~= projected(
                    s.subrange(window_start(limit, i + 1), window_end(limit, i + 1)),
                    blend,
                ));
            }
        }
        i = i + 1;
    }
    Ok(out)
}

/// What `CREATE` does: a taken name fails with `TableAlreadyExists` and
/// changes nothing; success adds the schema and an empty table.
pub open spec fn create_done<K, S: Store<K>>(
    pre: S,
    post: S,
    schema: Schema,
    r: Result<Payload<K>, ExecError>,
) -> bool {
    &&& r is Ok ==> (r matches Ok(Payload::Create))
    &&& pre.schemas().contains_key(schema@.0) ==> (r matches Err(
        ExecError::TableAlreadyExists(n),
    ) && n@ == schema@.0)
    &&& pre.schemas().contains_key(schema@.0) ==> post.schemas() == pre.schemas()
        && post.tables() == pre.tables()
    &&& r is Ok ==> post.schemas() == pre.schemas().insert(schema@.0, schema@) && post.tables()
        == pre.tables().insert(schema@.0, Seq::<RowView<K>>::empty())
}

/// Whether the state is as before.
pub open spec fn unchanged<K, S: Store<K>>(pre: S, post: S) -> bool {
    post.schemas() == pre.schemas() && post.tables() == pre.tables()
}

/// Whether values under a column list fit a table of the given column names.
pub open spec fn insert_fits(names: Seq<Seq<char>>, fields: Seq<String>, values: Seq<Value>) -> bool {
    values.len() == expected_width(names, fields) && fields_known(names, fields)
}

/// What `INSERT` does: a missing table, a value count that differs from the
/// column list, or a column the table lacks each fail, changing nothing (the
/// error for the last two is that of `validate_insert`, unless the storage
/// fails first); success appends the row built from the values under a fresh
/// key.
pub open spec fn insert_done<K, S: Store<K>>(
    pre: S,
    post: S,
    table: Seq<char>,
    fields: Seq<String>,
    values: Seq<Value>,
    r: Result<Payload<K>, ExecError>,
) -> bool {
    let names = schema_names(pre.schemas()[table]);
    &&& r is Ok ==> (r matches Ok(Payload::Insert(_)))
    &&& !pre.schemas().contains_key(table) ==> (r matches Err(ExecError::TableNotFound(n)) && n@
        == table) && unchanged(pre, post)
    &&& pre.schemas().contains_key(table) && !insert_fits(names, fields, values) ==> r is Err
        && unchanged(pre, post)
    &&& r matches Ok(Payload::Insert(row)) ==> pre.schemas().contains_key(table) && row@.1
        == inserted_items(names, fields, values) && key_is_fresh(pre.tables(), row.key)
        && pre.tables().contains_key(table) && post.schemas() == pre.schemas() && post.tables()
        == pre.tables().insert(table, pre.tables()[table].push(row@))
}

/// What `DELETE` does: a missing table fails and changes nothing; success
/// removes the matching rows and counts them.
pub open spec fn delete_done<K, S: Store<K>>(
    pre: S,
    post: S,
    table: Seq<char>,
    f: Filter,
    r: Result<Payload<K>, ExecError>,
) -> bool {
    &&& r is Ok ==> (r matches Ok(Payload::Delete(_)))
    &&& !pre.tables().contains_key(table) ==> (r matches Err(ExecError::TableNotFound(n)) && n@
        == table) && unchanged(pre, post)
    &&& r matches Ok(Payload::Delete(n)) ==> pre.tables().contains_key(table) && n == selected(
        pre.tables()[table],
        f,
    ).len() && post.schemas() == pre.schemas() && post.tables() == pre.tables().insert(
        table,
        rejected(pre.tables()[table], f),
    )
}

/// What `UPDATE` does: a missing table fails and changes nothing; success
/// updates the matching rows in place and counts them.
pub open spec fn update_done<K, S: Store<K>>(
    pre: S,
    post: S,
    table: Seq<char>,
    u: Update,
    f: Filter,
    r: Result<Payload<K>, ExecError>,
) -> bool {
    &&& r is Ok ==> (r matches Ok(Payload::Update(_)))
    &&& !pre.tables().contains_key(table) ==> (r matches Err(ExecError::TableNotFound(n)) && n@
        == table) && unchanged(pre, post)
    &&& r matches Ok(Payload::Update(n)) ==> pre.tables().contains_key(table) && n == selected(
        pre.tables()[table],
        f,
    ).len() && post.schemas() == pre.schemas() && post.tables() == pre.tables().insert(
        table,
        updated_rows(pre.tables()[table], f, u),
    )
}

/// Creates a table.
pub fn execute_create<K, S: Store<K>>(storage: &mut S, schema: Schema) -> (r: Result<
    Payload<K>,
    ExecError,
>)
    requires
        old(storage).wf(),
    ensures
        final(storage).wf(),
        create_done(*old(storage), *final(storage), schema, r),
{
    let ghost s = schema;
    match storage.set_schema(schema) {
        Ok(()) => Ok(Payload::Create),
        Err(e) => Err(e),
    }
}

/// Inserts one row.
pub fn execute_insert<K, S: Store<K>>(
    storage: &mut S,
    table_name: &str,
    fields: Vec<String>,
    values: Vec<Value>,
) -> (r: Result<Payload<K>, ExecError>)
    requires
        old(storage).wf(),
    ensures
        final(storage).wf(),
        insert_done(*old(storage), *final(storage), table_name@, fields@, values@, r),
{
    let ghost pre = *storage;
    let schema = match storage.get_schema(table_name) {
        Ok(s) => s,
        Err(e) => {
            return Err(e);
        },
    };
    proof {
        lemma_schema_names(schema);
    }
    match validate_insert(&schema.columns, &fields, values.len()) {
        Ok(()) => {},
        Err(e) => {
            return Err(e);
        },
    }
    let key = match storage.gen_id() {
        Ok(k) => k,
        Err(e) => {
            return Err(e);
        },
    };
    let row = match build_row(key, &schema.columns, &fields, values) {
        Ok(row) => row,
        Err(e) => {
            return Err(e);
        },
    };
    let ghost mid = *storage;
    let ghost rv = row@;
    match storage.set_data(table_name, row) {
        Ok(stored) => {
            proof {
                assert(!has_key(mid.tables()[table_name@], rv.0));
                assert(upsert(mid.tables()[table_name@], rv) == mid.tables()[table_name@].push(rv));
            }
            Ok(Payload::Insert(stored))
        },
        Err(e) => Err(e),
    }
}

/// Deletes the rows that pass the filter, one by one, and counts them.
pub fn execute_delete<K, S: Store<K>>(storage: &mut S, table_name: &str, filter: &Filter) -> (r:
    Result<Payload<K>, ExecError>)
    requires
        old(storage).wf(),
    ensures
        final(storage).wf(),
        delete_done(*old(storage), *final(storage), table_name@, *filter, r),
{
    let ghost pre = *storage;
    let rows = match storage.get_data(table_name) {
        Ok(rows) => rows,
        Err(e) => {
            return Err(e);
        },
    };
    let ghost v = rows_view(rows@);
    let ghost t = table_name@;
    let n = rows.len();
    proof {
        assert(rejected(v.subrange(0, 0), *filter) + v.subrange(0, n as int) =~= v);
        assert(pre.tables().insert(t, v) =~= pre.tables());
    }
    let mut count: usize = 0;
    let mut i: usize = 0;
    while i < n
        invariant
            pre == *old(storage),
            t == table_name@,
            storage.wf(),
            n == rows.len(),
            v == rows_view(rows@),
            unique_keys(v),
            pre.tables().contains_key(t),
            pre.tables()[t] == v,
            i <= n,
            count <= i,
            count == selected(v.subrange(0, i as int), *filter).len(),
            storage.schemas() == pre.schemas(),
            storage.tables() == pre.tables().insert(
                t,
                rejected(v.subrange(0, i as int), *filter) + v.subrange(i as int, n as int),
            ),
        decreases n - i,
    {
        let ghost prefix = v.subrange(0, i as int);
        let ghost next = v.subrange(0, i + 1);
        proof {
            assert(next.drop_last() =~= prefix);
            assert(next.last() == v[i as int]);
        }
        if filter.check(&rows[i]) {
            let ghost rj = rejected(prefix, *filter);
            let ghost cur = rj + v.subrange(i as int, n as int);
            let ghost k = v[i as int].0;
            proof {
                lemma_rejected_from(prefix, *filter);
                assert(cur[rj.len() as int] == v[i as int]);
                assert forall|j: int| 0 <= j < cur.len() && j != rj.len() implies cur[j].0 != k by {
                    if j < rj.len() {
                        assert(cur[j] == rj[j]);
                        let m = choose|m: int|
                            0 <= m < prefix.len() && #[trigger] rj[j] == #[trigger] prefix[m];
                        assert(prefix[m] == v[m]);
                    } else {
                        assert(cur[j] == v[i + (j - rj.len())]);
                    }
                }
                lemma_without_single_key(cur, k, rj.len() as int);
                assert(rows@[i as int]@ == v[i as int]);
                assert(cur.remove(rj.len() as int) =~= rejected(next, *filter) + v.subrange(
                    i + 1,
                    n as int,
                ));
            }
            match storage.del_data(table_name, &rows[i].key) {
                Ok(()) => {},
                Err(e) => {
                    return Err(e);
                },
            }
            proof {
                assert(storage.tables() =~= pre.tables().insert(
                    t,
                    rejected(next, *filter) + v.subrange(i + 1, n as int),
                ));
            }
            count = count + 1;
        } else {
            proof {
                assert(rejected(prefix, *filter) + v.subrange(i as int, n as int) =~= rejected(
                    next,
                    *filter,
                ) + v.subrange(i + 1, n as int));
            }
        }
        i = i + 1;
    }
    proof {
        assert(v.subrange(0, n as int) =~= v);
        assert(v.subrange(n as int, n as int) =~= Seq::<RowView<K>>::empty());
        assert(rejected(v, *filter) + Seq::<RowView<K>>::empty() =~= rejected(v, *filter));
    }
    Ok(Payload::Delete(count))
}

/// Updates the rows that pass the filter, one by one, and counts them.
pub fn execute_update<K, S: Store<K>>(
    storage: &mut S,
    table_name: &str,
    update: &Update,
    filter: &Filter,
) -> (r: Result<Payload<K>, ExecError>)
    requires
        old(storage).wf(),
    ensures
        final(storage).wf(),
        update_done(*old(storage), *final(storage), table_name@, *update, *filter, r),
{
    let ghost pre = *storage;
    let mut rows = match storage.get_data(table_name) {
        Ok(rows) => rows,
        Err(e) => {
            return Err(e);
        },
    };
    let ghost all = rows@;
    let ghost v = rows_view(all);
    let ghost t = table_name@;
    let n = rows.len();
    proof {
        assert(updated_rows(v.subrange(0, 0), *filter, *update) + v.subrange(0, n as int) =~= v);
        assert(pre.tables().insert(t, v) =~= pre.tables());
    }
    let mut count: usize = 0;
    let mut i: usize = 0;
    while i < n
        invariant
            pre == *old(storage),
            t == table_name@,
            storage.wf(),
            n == all.len(),
            v == rows_view(all),
            rows@ == all.subrange(i as int, n as int),
            unique_keys(v),
            pre.tables().contains_key(t),
            pre.tables()[t] == v,
            i <= n,
            count <= i,
            count == selected(v.subrange(0, i as int), *filter).len(),
            storage.schemas() == pre.schemas(),
            storage.tables() == pre.tables().insert(
                t,
                updated_rows(v.subrange(0, i as int), *filter, *update) + v.subrange(
                    i as int,
                    n as int,
                ),
            ),
        decreases n - i,
    {
        let ghost prefix = v.subrange(0, i as int);
        let ghost next = v.subrange(0, i + 1);
        let row = rows.remove(0);
        proof {
            assert(row == all[i as int]);
            assert(row@ == v[i as int]);
            assert(rows@ =~= all.subrange(i + 1, n as int));
            assert(next.drop_last() =~= prefix);
            assert(next.last() == v[i as int]);
        }
        if filter.check(&row) {
            let new_row = update.apply(row);
            let ghost cur = updated_rows(prefix, *filter, *update) + v.subrange(i as int, n as int);
            proof {
                assert(cur[i as int] == v[i as int]);
                assert forall|j: int| 0 <= j < cur.len() && j != i implies cur[j].0 != new_row@.0 by {
                    if j < i {
                        assert(cur[j].0 == v[j].0);
                    } else {
                        assert(cur[j] == v[j]);
                    }
                }
                lemma_upsert_single_key(cur, new_row@, i as int);
                assert(cur.update(i as int, new_row@) =~= updated_rows(next, *filter, *update)
                    + v.subrange(i + 1, n as int));
            }
            match storage.set_data(table_name, new_row) {
                Ok(_) => {},
                Err(e) => {
                    return Err(e);
                },
            }
            proof {
                assert(storage.tables() =~= pre.tables().insert(
                    t,
                    updated_rows(next, *filter, *update) + v.subrange(i + 1, n as int),
                ));
            }
            count = count + 1;
        } else {
            proof {
                assert(updated_rows(prefix, *filter, *update) + v.subrange(i as int, n as int)
                    =~= updated_rows(next, *filter, *update) + v.subrange(i + 1, n as int));
            }
        }
        i = i + 1;
    }
    proof {
        assert(v.subrange(0, n as int) =~= v);
        assert(updated_rows(v, *filter, *update) + v.subrange(n as int, n as int) =~= updated_rows(
            v,
            *filter,
            *update,
        ));
    }
    Ok(Payload::Update(count))
}

/// What `SELECT` does: it changes nothing; a missing table fails; success
/// gives the rows of `select_result`.
pub open spec fn select_done<K, S: Store<K>>(
    pre: S,
    post: S,
    translation: SelectTranslation,
    r: Result<Payload<K>, ExecError>,
) -> bool {
    let t = translation.table_name@;
    &&& unchanged(pre, post)
    &&& r is Ok ==> (r matches Ok(Payload::Select(_)))
    &&& !pre.tables().contains_key(t) ==> (r matches Err(ExecError::TableNotFound(n)) && n@ == t)
    &&& r matches Ok(Payload::Select(rows)) ==> pre.tables().contains_key(t) && rows_view(rows@)
        == select_result(pre.tables()[t], translation.filter, translation.limit, translation.blend)
}

/// Runs one command against the storage.
pub fn execute<K, S: Store<K>>(storage: &mut S, command_type: CommandType) -> (r: Result<
    Payload<K>,
    ExecError,
>)
    requires
        old(storage).wf(),
    ensures
        final(storage).wf(),
        match command_type {
            CommandType::Create(schema) => create_done(*old(storage), *final(storage), schema, r),
            CommandType::Select(translation) => select_done(
                *old(storage),
                *final(storage),
                translation,
                r,
            ),
            CommandType::Insert { table_name, fields, values } => insert_done(
                *old(storage),
                *final(storage),
                table_name@,
                fields@,
                values@,
                r,
            ),
            CommandType::Delete { table_name, filter } => delete_done(
                *old(storage),
                *final(storage),
                table_name@,
                filter,
                r,
            ),
            CommandType::Update { table_name, update, filter } => update_done(
                *old(storage),
                *final(storage),
                table_name@,
                update,
                filter,
                r,
            ),
        },
{
    match command_type {
        CommandType::Create(schema) => execute_create(storage, schema),
        CommandType::Select(translation) => {
            match execute_select(&*storage, translation) {
                Ok(rows) => Ok(Payload::Select(rows)),
                Err(e) => Err(e),
            }
        },
        CommandType::Insert { table_name, fields, values } => execute_insert(
            storage,
            table_name.as_str(),
            fields,
            values,
        ),
        CommandType::Delete { table_name, filter } => execute_delete(
            storage,
            table_name.as_str(),
            &filter,
        ),
        CommandType::Update { table_name, update, filter } => execute_update(
            storage,
            table_name.as_str(),
            &update,
            &filter,
        ),
    }
}

} // verus!
