use vstd::prelude::*;
use crate::data::{ExecError, Row, RowView, Schema, rows_view, schema_names, inserted_items};
use crate::execute::{
    Payload, SelectTranslation, selected, rejected, projected, window_start,
    window_end, insert_done, select_done, delete_done, update_done, create_done,
};
use crate::store::Store;
use crate::translate::{Blend, Filter, Limit, Update, item_at, assigned, updated_item, lemma_unassigned_kept};
use crate::value::Value;

verus! {

proof fn lemma_selected_push<K>(rows: Seq<RowView<K>>, x: RowView<K>, f: Filter)
    requires
        f.holds(x.1),
    ensures
        selected(rows.push(x), f) == selected(rows, f).push(x),
{
    assert(rows.push(x).drop_last() =~= rows);
}

proof fn lemma_nothing_selected_in_rejected<K>(rows: Seq<RowView<K>>, f: Filter)
    ensures
        selected(rejected(rows, f), f).len() == 0,
    decreases rows.len(),
{
    if rows.len() > 0 {
        let d = rows.drop_last();
        lemma_nothing_selected_in_rejected(d, f);
        if !f.holds(rows.last().1) {
            assert(rejected(rows, f).drop_last() =~= rejected(d, f));
        }
    }
}

proof fn lemma_selected_from<K>(rows: Seq<RowView<K>>, f: Filter)
    ensures
        forall|j: int|
            0 <= j < selected(rows, f).len() ==> exists|m: int|
                0 <= m < rows.len() && #[trigger] selected(rows, f)[j] == #[trigger] rows[m],
    decreases rows.len(),
{
    if rows.len() > 0 {
        let d = rows.drop_last();
        lemma_selected_from(d, f);
        assert forall|j: int| 0 <= j < selected(rows, f).len() implies exists|m: int|
            0 <= m < rows.len() && #[trigger] selected(rows, f)[j] == #[trigger] rows[m] by {
            if j < selected(d, f).len() {
                let m = choose|m: int| 0 <= m < d.len() && #[trigger] selected(d, f)[j] == #[trigger] d[m];
                assert(rows[m] == d[m]);
            } else {
                assert(selected(rows, f)[j] == rows[rows.len() - 1]);
            }
        }
    }
}

/// A row that was inserted and then selected, with all columns, no window and a
/// filter that it passes, comes back last with the key and the items it was
/// stored with, which are the inserted values in schema order.
pub proof fn insert_then_select_round_trip<K, S: Store<K>>(
    pre: S,
    mid: S,
    post: S,
    table: Seq<char>,
    fields: Seq<String>,
    values: Seq<Value>,
    inserted: Row<K>,
    translation: SelectTranslation,
    rows: Vec<Row<K>>,
)
    requires
        insert_done(pre, mid, table, fields, values, Ok(Payload::Insert(inserted))),
        select_done(mid, post, translation, Ok(Payload::Select(rows))),
        translation.table_name@ == table,
        translation.blend == Blend::All,
        translation.limit == (Limit { offset: 0, count: None }),
        translation.filter.holds(inserted.items@),
    ensures
        rows@.len() > 0,
        rows@.last()@ == inserted@,
        rows@.last().items@ == inserted_items(schema_names(pre.schemas()[table]), fields, values),
{
    let f = translation.filter;
    let old_rows = pre.tables()[table];
    let now = mid.tables()[table];
    assert(now == old_rows.push(inserted@));
    lemma_selected_push(old_rows, inserted@, f);
    let s = selected(now, f);
    assert(s.subrange(window_start(translation.limit, s.len() as int), window_end(translation.limit, s.len() as int)) =~= s);
    assert(projected(s, Blend::All) =~= s);
    assert(rows_view(rows@)[rows@.len() - 1] == rows@.last()@);
}

/// `DELETE` with a filter counts the rows that passed it, and a `SELECT` with
/// the same filter afterwards finds none.
pub proof fn delete_leaves_no_match<K, S: Store<K>>(
    pre: S,
    post: S,
    after: S,
    table: Seq<char>,
    filter: Filter,
    count: usize,
    translation: SelectTranslation,
    rows: Vec<Row<K>>,
)
    requires
        delete_done(pre, post, table, filter, Ok(Payload::Delete(count))),
        select_done(post, after, translation, Ok(Payload::Select(rows))),
        translation.table_name@ == table,
        translation.filter == filter,
    ensures
        count == selected(pre.tables()[table], filter).len(),
        rows@.len() == 0,
{
    lemma_nothing_selected_in_rejected(pre.tables()[table], filter);
    assert(rows_view(rows@).len() == rows@.len());
}

/// `UPDATE` keeps every row in place under its key; a row that fails the
/// filter is left as it was, and in a row that passes it only the assigned
/// columns change, each to the value its last assignment computes.
pub proof fn update_changes_only_matches<K, S: Store<K>>(
    pre: S,
    post: S,
    table: Seq<char>,
    update: Update,
    filter: Filter,
    count: usize,
)
    requires
        update_done(pre, post, table, update, filter, Ok(Payload::Update(count))),
    ensures
        post.tables()[table].len() == pre.tables()[table].len(),
        forall|i: int|
            0 <= i < pre.tables()[table].len() && !filter.holds(pre.tables()[table][i].1) ==> post.tables()[table][i]
                == pre.tables()[table][i],
        forall|i: int|
            0 <= i < pre.tables()[table].len() && filter.holds(pre.tables()[table][i].1) ==> {
                let before = pre.tables()[table][i];
                let after = post.tables()[table][i];
                &&& after.0 == before.0
                &&& after.1.len() == before.1.len()
                &&& forall|j: int|
                    0 <= j < before.1.len() && !assigned(update.assignments@, j) ==> after.1[j]
                        == before.1[j]
                &&& forall|j: int|
                    0 <= j < before.1.len() && assigned(update.assignments@, j) ==> after.1[j]
                        == updated_item(update.assignments@, before.1, j)
            },
{
    let rows = pre.tables()[table];
    assert forall|i: int, j: int|
        0 <= i < rows.len() && filter.holds(rows[i].1) && 0 <= j < rows[i].1.len() && !assigned(
            update.assignments@,
            j,
        ) implies #[trigger] post.tables()[table][i].1[j] == rows[i].1[j] by {
        lemma_unassigned_kept(update.assignments@, rows[i].1, j);
    }
}

/// The rows of a `SELECT` with all columns are the filtered rows, in storage
/// order, at positions `offset` up to `offset + count` (or the end).
pub proof fn select_pages_filtered_rows<K, S: Store<K>>(
    pre: S,
    post: S,
    translation: SelectTranslation,
    rows: Vec<Row<K>>,
)
    requires
        select_done(pre, post, translation, Ok(Payload::Select(rows))),
        translation.blend == Blend::All,
    ensures
        ({
            let s = selected(pre.tables()[translation.table_name@], translation.filter);
            let l = translation.limit;
            let start = if l.offset < s.len() { l.offset as int } else { s.len() as int };
            let end = match l.count {
                None => s.len() as int,
                Some(c) => if l.offset + c < s.len() { l.offset + c } else { s.len() as int },
            };
            rows_view(rows@) == s.subrange(start, end)
        }),
{
    let s = selected(pre.tables()[translation.table_name@], translation.filter);
    let l = translation.limit;
    let w = s.subrange(window_start(l, s.len() as int), window_end(l, s.len() as int));
    assert(projected(w, Blend::All) =~= w);
}

/// Whether `row` holds, under the key of `src`, the columns `cs` of `src` in
/// that order.
pub open spec fn projects_from<K>(row: RowView<K>, src: RowView<K>, cs: Seq<usize>) -> bool {
    row.0 == src.0 && row.1 == Seq::new(cs.len(), |j: int| item_at(src.1, cs[j]))
}

/// With listed columns, every row of a `SELECT` holds exactly as many items as
/// the list, item `j` being column `cs[j]` of a stored row of the same key.
pub proof fn select_projection_width<K, S: Store<K>>(
    pre: S,
    post: S,
    translation: SelectTranslation,
    cs: Vec<usize>,
    rows: Vec<Row<K>>,
)
    requires
        select_done(pre, post, translation, Ok(Payload::Select(rows))),
        translation.blend == Blend::Columns(cs),
    ensures
        forall|i: int| 0 <= i < rows@.len() ==> (#[trigger] rows@[i]).items@.len() == cs@.len(),
        forall|i: int|
            0 <= i < rows@.len() ==> exists|m: int|
                0 <= m < pre.tables()[translation.table_name@].len() && projects_from(
                    (#[trigger] rows@[i])@,
                    #[trigger] pre.tables()[translation.table_name@][m],
                    cs@,
                ),
{
    let all = pre.tables()[translation.table_name@];
    let s = selected(all, translation.filter);
    let l = translation.limit;
    let lo = window_start(l, s.len() as int);
    let w = s.subrange(lo, window_end(l, s.len() as int));
    lemma_selected_from(all, translation.filter);
    assert(0 <= lo <= window_end(l, s.len() as int) <= s.len());
    assert(rows_view(rows@) == projected(w, Blend::Columns(cs)));
    assert(rows_view(rows@).len() == rows@.len());
    assert forall|i: int| 0 <= i < rows@.len() implies (#[trigger] rows@[i]).items@.len() == cs@.len() by {
        assert(rows_view(rows@)[i] == rows@[i]@);
    }
    assert forall|i: int| 0 <= i < rows@.len() implies exists|m: int|
        0 <= m < all.len() && projects_from((#[trigger] rows@[i])@, #[trigger] all[m], cs@) by {
        assert(rows_view(rows@)[i] == rows@[i]@);
        assert(w[i] == s[lo + i]);
        let m = choose|m: int| 0 <= m < all.len() && #[trigger] s[lo + i] == #[trigger] all[m];
        assert(all[m] == w[i]);
        assert(projects_from(rows@[i]@, all[m], cs@));
    }
}

/// `CREATE` of a name already taken fails with `TableAlreadyExists` and
/// leaves every schema and every table's rows as they were.
pub proof fn create_collision_changes_nothing<K, S: Store<K>>(
    pre: S,
    post: S,
    schema: Schema,
    r: Result<Payload<K>, ExecError>,
)
    requires
        create_done(pre, post, schema, r),
        pre.schemas().contains_key(schema@.0),
    ensures
        r matches Err(ExecError::TableAlreadyExists(n)) && n@ == schema@.0,
        post.schemas() == pre.schemas(),
        post.tables() == pre.tables(),
{
}

} // verus!
