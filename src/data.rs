use vstd::prelude::*;
use crate::value::Value;

verus! {

/// The declared type of a column.
#[derive(Debug, Clone, Copy, PartialEq, Eq, Structural)]
pub enum DataType {
    Integer,
    Text,
}

/// A named, typed column of a table.
#[derive(Debug, Clone, PartialEq)]
pub struct Column {
    pub name: String,
    pub data_type: DataType,
}

/// A table's name and its columns, in order.
#[derive(Debug, Clone, PartialEq)]
pub struct Schema {
    pub table_name: String,
    pub columns: Vec<Column>,
}

/// One stored record: a key chosen by the storage and the values of the
/// table's columns, in schema order.
#[derive(Debug, Clone, PartialEq)]
pub struct Row<K> {
    pub key: K,
    pub items: Vec<Value>,
}

impl View for Column {
    type V = (Seq<char>, DataType);

    open spec fn view(&self) -> (Seq<char>, DataType) {
        (self.name@, self.data_type)
    }
}

impl View for Schema {
    type V = SchemaView;

    open spec fn view(&self) -> SchemaView {
        (self.table_name@, self.columns@.map_values(|c: Column| c@))
    }
}

impl<K> View for Row<K> {
    type V = RowView<K>;

    open spec fn view(&self) -> RowView<K> {
        (self.key, self.items@)
    }
}

/// A schema as its table name and its columns' names and types.
pub type SchemaView = (Seq<char>, Seq<(Seq<char>, DataType)>);

/// A row as its key and its items.
pub type RowView<K> = (K, Seq<Value>);

/// The views of a sequence of rows.
pub open spec fn rows_view<K>(rows: Seq<Row<K>>) -> Seq<RowView<K>> {
    Seq::new(rows.len(), |i: int| rows[i]@)
}

impl Column {
    pub fn duplicate(&self) -> (r: Column)
        ensures
            r@ == self@,
    {
        Column { name: self.name.clone(), data_type: self.data_type }
    }
}

impl Schema {
    /// A copy of the schema.
    pub fn duplicate(&self) -> (r: Schema)
        ensures
            r@ == self@,
    {
        let mut columns: Vec<Column> = Vec::new();
        let mut i: usize = 0;
        while i < self.columns.len()
            invariant
                i <= self.columns.len(),
                columns@.len() == i,
                forall|k: int| 0 <= k < i ==> (#[trigger] columns@[k])@ == self.columns@[k]@,
            decreases self.columns.len() - i,
        {
            columns.push(self.columns[i].duplicate());
            i = i + 1;
        }
        let r = Schema { table_name: self.table_name.clone(), columns };
        assert(r.columns@.map_values(|c: Column| c@) =~= self.columns@.map_values(|c: Column| c@));
        r
    }
}

/// The failures a command can end in.
#[derive(Debug, Clone, PartialEq)]
pub enum ExecError {
    TableNotFound(String),
    TableAlreadyExists(String),
    ColumnCountMismatch,
    UnknownColumn(String),
    RowNotFound,
    Storage(String),
}

/// The names of a schema's columns.
pub open spec fn column_names(columns: Seq<Column>) -> Seq<Seq<char>> {
    columns.map_values(|c: Column| c.name@)
}

/// The names of a list of strings, as character sequences.
pub open spec fn names_of(names: Seq<String>) -> Seq<Seq<char>> {
    names.map_values(|n: String| n@)
}

/// The first position of `n` in `names`, or -1 when it is absent.
pub open spec fn position_of(names: Seq<Seq<char>>, n: Seq<char>) -> int
    decreases names.len(),
{
    if names.len() == 0 {
        -1
    } else if names[0] == n {
        0
    } else {
        let p = position_of(names.drop_first(), n);
        if p < 0 {
            -1
        } else {
            p + 1
        }
    }
}

pub proof fn lemma_position_of(names: Seq<Seq<char>>, n: Seq<char>)
    ensures
        -1 <= position_of(names, n) < names.len(),
        position_of(names, n) >= 0 ==> names[position_of(names, n)] == n,
        position_of(names, n) >= 0 ==> forall|k: int|
            0 <= k < position_of(names, n) ==> names[k] != n,
        position_of(names, n) < 0 ==> forall|k: int| 0 <= k < names.len() ==> names[k] != n,
    decreases names.len(),
{
    if names.len() > 0 {
        lemma_position_of(names.drop_first(), n);
        assert forall|k: int| 1 <= k < names.len() implies names[k] == names.drop_first()[k - 1] by {}
    }
}

/// The value that column `j` of a table with the given column names takes in
/// a row inserted with the column list `fields` and `values`: the value named
/// for it, or `Null`.
pub open spec fn inserted_item(
    names: Seq<Seq<char>>,
    fields: Seq<String>,
    values: Seq<Value>,
    j: int,
) -> Value {
    if fields.len() == 0 {
        values[j]
    } else {
        let p = position_of(names_of(fields), names[j]);
        if p < 0 {
            Value::Null
        } else {
            values[p]
        }
    }
}

/// The items of a row inserted with the given column list and values, in
/// schema order.
pub open spec fn inserted_items(names: Seq<Seq<char>>, fields: Seq<String>, values: Seq<Value>) -> Seq<
    Value,
> {
    Seq::new(names.len(), |j: int| inserted_item(names, fields, values, j))
}

/// Whether every name of the column list belongs to the schema.
pub open spec fn fields_known(names: Seq<Seq<char>>, fields: Seq<String>) -> bool {
    forall|i: int| 0 <= i < fields.len() ==> names.contains(#[trigger] fields[i]@)
}

/// How many values the column list asks for.
pub open spec fn expected_width(names: Seq<Seq<char>>, fields: Seq<String>) -> int {
    if fields.len() == 0 {
        names.len() as int
    } else {
        fields.len() as int
    }
}

/// The column names of a schema's view.
pub open spec fn schema_names(s: SchemaView) -> Seq<Seq<char>> {
    s.1.map_values(|c: (Seq<char>, DataType)| c.0)
}

pub proof fn lemma_schema_names(s: Schema)
    ensures
        schema_names(s@) == column_names(s.columns@),
{
    assert(schema_names(s@) =~= column_names(s.columns@));
}

fn find_name(names: &Vec<String>, n: &String) -> (r: Option<usize>)
    ensures
        match r {
            Some(p) => p as int == position_of(names_of(names@), n@),
            None => position_of(names_of(names@), n@) < 0,
        },
{
    let ghost ns = names_of(names@);
    proof {
        lemma_position_of(ns, n@);
    }
    let mut i: usize = 0;
    while i < names.len()
        invariant
            ns == names_of(names@),
            i <= names.len(),
            forall|k: int| 0 <= k < i ==> ns[k] != n@,
            -1 <= position_of(ns, n@) < ns.len(),
            position_of(ns, n@) >= 0 ==> ns[position_of(ns, n@)] == n@,
            position_of(ns, n@) >= 0 ==> forall|k: int|
                0 <= k < position_of(ns, n@) ==> ns[k] != n@,
            position_of(ns, n@) < 0 ==> forall|k: int| 0 <= k < ns.len() ==> ns[k] != n@,
        decreases names.len() - i,
    {
        if names[i] == *n {
            assert(ns[i as int] == n@);
            return Some(i);
        }
        i = i + 1;
    }
    None
}

fn column_name_list(columns: &Vec<Column>) -> (r: Vec<String>)
    ensures
        names_of(r@) == column_names(columns@),
{
    let mut r: Vec<String> = Vec::new();
    let mut i: usize = 0;
    while i < columns.len()
        invariant
            i <= columns.len(),
            r@.len() == i,
            forall|k: int| 0 <= k < i ==> (#[trigger] r@[k])@ == columns@[k].name@,
        decreases columns.len() - i,
    {
        r.push(columns[i].name.clone());
        i = i + 1;
    }
    assert(names_of(r@) =~= column_names(columns@));
    r
}

/// Checks an insert's column list and value count against a table's columns:
/// `ColumnCountMismatch` when the count differs from the list's length (the
/// whole schema's for an empty list), else `UnknownColumn` with the first name
/// that the table lacks.
pub fn validate_insert(columns: &Vec<Column>, fields: &Vec<String>, count: usize) -> (r: Result<
    (),
    ExecError,
>)
    ensures
        count != expected_width(column_names(columns@), fields@) ==> r == Err::<(), ExecError>(
            ExecError::ColumnCountMismatch,
        ),
        count == expected_width(column_names(columns@), fields@) && !fields_known(
            column_names(columns@),
            fields@,
        ) ==> (r matches Err(ExecError::UnknownColumn(n)) && exists|i: int|
            0 <= i < fields.len() && fields[i]@ == n@ && !column_names(columns@).contains(
                fields[i]@,
            )),
        count == expected_width(column_names(columns@), fields@) && fields_known(
            column_names(columns@),
            fields@,
        ) ==> r is Ok,
{
    if fields.len() == 0 {
        if count != columns.len() {
            return Err(ExecError::ColumnCountMismatch);
        }
        return Ok(());
    }
    if count != fields.len() {
        return Err(ExecError::ColumnCountMismatch);
    }
    let names = column_name_list(columns);
    let mut i: usize = 0;
    while i < fields.len()
        invariant
            i <= fields.len(),
            count == fields.len(),
            fields.len() > 0,
            names_of(names@) == column_names(columns@),
            forall|k: int| 0 <= k < i ==> column_names(columns@).contains(#[trigger] fields[k]@),
        decreases fields.len() - i,
    {
        match find_name(&names, &fields[i]) {
            Some(p) => {
                proof {
                    lemma_position_of(names_of(names@), fields[i as int]@);
                    assert(names_of(names@)[p as int] == fields[i as int]@);
                }
            },
            None => {
                proof {
                    lemma_position_of(names_of(names@), fields[i as int]@);
                }
                return Err(ExecError::UnknownColumn(fields[i].clone()));
            },
        }
        i = i + 1;
    }
    Ok(())
}

/// Builds the row that an insert of `values` under the column list `fields`
/// stores in a table of the given columns. An empty column list stands for all
/// columns in schema order; columns left out of the list are `Null`.
pub fn build_row<K>(key: K, columns: &Vec<Column>, fields: &Vec<String>, values: Vec<Value>) -> (r:
    Result<Row<K>, ExecError>)
    ensures
        values.len() != expected_width(column_names(columns@), fields@) ==> r == Err::<
            Row<K>,
            ExecError,
        >(ExecError::ColumnCountMismatch),
        values.len() == expected_width(column_names(columns@), fields@) && !fields_known(
            column_names(columns@),
            fields@,
        ) ==> (r matches Err(ExecError::UnknownColumn(n)) && exists|i: int|
            0 <= i < fields.len() && fields[i]@ == n@ && !column_names(columns@).contains(
                fields[i]@,
            )),
        values.len() == expected_width(column_names(columns@), fields@) && fields_known(
            column_names(columns@),
            fields@,
        ) ==> (r matches Ok(row) && row.key == key && row.items@ == inserted_items(
            column_names(columns@),
            fields@,
            values@,
        )),
{
    match validate_insert(columns, fields, values.len()) {
        Err(e) => {
            return Err(e);
        },
        Ok(()) => {},
    }
    if fields.len() == 0 {
        assert(values@ =~= inserted_items(column_names(columns@), fields@, values@));
        return Ok(Row { key, items: values });
    }
    let mut items: Vec<Value> = Vec::new();
    let mut j: usize = 0;
    while j < columns.len()
        invariant
            j <= columns.len(),
            values.len() == fields.len(),
            fields.len() > 0,
            items@ =~= inserted_items(column_names(columns@), fields@, values@).subrange(0, j as int),
        decreases columns.len() - j,
    {
        proof {
            lemma_position_of(names_of(fields@), columns[j as int].name@);
        }
        match find_name(fields, &columns[j].name) {
            Some(p) => items.push(values[p].duplicate()),
            None => items.push(Value::Null),
        }
        j = j + 1;
    }
    Ok(Row { key, items })
}

} // verus!
