use glue_exec::data::{Column, DataType, ExecError, Row, Schema};
use glue_exec::execute::{execute, CommandType, Payload, SelectTranslation};
use glue_exec::memory::MemoryStore;
use glue_exec::store::Store;
use glue_exec::translate::{Assignment, Blend, CmpOp, Expr, Filter, Limit, Operand, Update};
use glue_exec::value::Value;

fn text(s: &str) -> Value {
    Value::Text(s.to_string())
}

fn schema(name: &str, cols: &[(&str, DataType)]) -> Schema {
    Schema {
        table_name: name.to_string(),
        columns: cols
            .iter()
            .map(|(n, t)| Column { name: n.to_string(), data_type: *t })
            .collect(),
    }
}

fn create(store: &mut MemoryStore, s: Schema) {
    assert!(matches!(execute(store, CommandType::Create(s)), Ok(Payload::Create)));
}

fn insert(store: &mut MemoryStore, table: &str, fields: &[&str], values: Vec<Value>) -> Result<Row<u64>, ExecError> {
    let cmd = CommandType::Insert {
        table_name: table.to_string(),
        fields: fields.iter().map(|f| f.to_string()).collect(),
        values,
    };
    match execute(store, cmd) {
        Ok(Payload::Insert(row)) => Ok(row),
        Ok(other) => panic!("unexpected payload {:?}", other),
        Err(e) => Err(e),
    }
}

fn select(store: &mut MemoryStore, table: &str, filter: Filter, blend: Blend, limit: Limit) -> Result<Vec<Row<u64>>, ExecError> {
    let cmd = CommandType::Select(SelectTranslation { table_name: table.to_string(), blend, filter, limit });
    match execute(store, cmd) {
        Ok(Payload::Select(rows)) => Ok(rows),
        Ok(other) => panic!("unexpected payload {:?}", other),
        Err(e) => Err(e),
    }
}

fn all() -> Limit {
    Limit { offset: 0, count: None }
}

fn col_eq(c: usize, v: Value) -> Filter {
    Filter::Compare(Operand::Column(c), CmpOp::Eq, Operand::Literal(v))
}

fn items(rows: &[Row<u64>]) -> Vec<Vec<Value>> {
    rows.iter().map(|r| r.items.clone()).collect()
}

#[test]
fn greet_scenario() {
    let mut store = MemoryStore::new();
    create(&mut store, schema("greet", &[("name", DataType::Text)]));
    for n in ["World!", "Glue!", "AST Builder!", "You!"] {
        insert(&mut store, "greet", &[], vec![text(n)]).unwrap();
    }
    let r = execute(&mut store, CommandType::Delete { table_name: "greet".to_string(), filter: col_eq(0, text("AST Builder!")) });
    assert!(matches!(r, Ok(Payload::Delete(1))));
    let rest = select(&mut store, "greet", Filter::All, Blend::All, all()).unwrap();
    assert_eq!(items(&rest), vec![vec![text("World!")], vec![text("Glue!")], vec![text("You!")]]);
    let update = Update { assignments: vec![Assignment { column: 0, expr: Expr::Literal(text("Glue World!")) }] };
    let r = execute(&mut store, CommandType::Update { table_name: "greet".to_string(), update, filter: col_eq(0, text("Glue!")) });
    assert!(matches!(r, Ok(Payload::Update(1))));
    let found = select(
        &mut store,
        "greet",
        Filter::Like(Operand::Column(0), "%world%".to_string(), true),
        Blend::All,
        all(),
    )
    .unwrap();
    assert_eq!(items(&found), vec![vec![text("World!")], vec![text("Glue World!")]]);
}

#[test]
fn insert_then_select_returns_same_items() {
    let mut store = MemoryStore::new();
    create(&mut store, schema("t", &[("id", DataType::Integer), ("name", DataType::Text)]));
    insert(&mut store, "t", &[], vec![Value::Integer(1), text("a")]).unwrap();
    let row = insert(&mut store, "t", &[], vec![Value::Integer(2), text("b")]).unwrap();
    let rows = select(&mut store, "t", col_eq(0, Value::Integer(2)), Blend::All, all()).unwrap();
    assert_eq!(rows, vec![row.clone()]);
    assert_eq!(rows[0].items, vec![Value::Integer(2), text("b")]);
}

#[test]
fn insert_with_column_list_fills_nulls_in_schema_order() {
    let mut store = MemoryStore::new();
    create(&mut store, schema("t", &[("a", DataType::Integer), ("b", DataType::Text), ("c", DataType::Integer)]));
    let row = insert(&mut store, "t", &["c", "b"], vec![Value::Integer(7), text("x")]).unwrap();
    assert_eq!(row.items, vec![Value::Null, text("x"), Value::Integer(7)]);
}

#[test]
fn insert_errors() {
    let mut store = MemoryStore::new();
    create(&mut store, schema("t", &[("a", DataType::Integer), ("b", DataType::Text)]));
    assert_eq!(insert(&mut store, "t", &[], vec![Value::Integer(1)]), Err(ExecError::ColumnCountMismatch));
    assert_eq!(insert(&mut store, "t", &["a"], vec![Value::Integer(1), text("x")]), Err(ExecError::ColumnCountMismatch));
    assert_eq!(insert(&mut store, "t", &["a", "zz"], vec![Value::Integer(1), text("x")]), Err(ExecError::UnknownColumn("zz".to_string())));
    assert_eq!(insert(&mut store, "nope", &[], vec![]), Err(ExecError::TableNotFound("nope".to_string())));
    assert_eq!(select(&mut store, "t", Filter::All, Blend::All, all()).unwrap().len(), 0);
}

#[test]
fn keys_are_distinct() {
    let mut store = MemoryStore::new();
    create(&mut store, schema("t", &[("a", DataType::Integer)]));
    let a = insert(&mut store, "t", &[], vec![Value::Integer(1)]).unwrap();
    let b = insert(&mut store, "t", &[], vec![Value::Integer(1)]).unwrap();
    assert_ne!(a.key, b.key);
}

#[test]
fn delete_counts_matches_and_leaves_none() {
    let mut store = MemoryStore::new();
    create(&mut store, schema("t", &[("n", DataType::Integer)]));
    for i in 0..10 {
        insert(&mut store, "t", &[], vec![Value::Integer(i)]).unwrap();
    }
    let f = || Filter::Compare(Operand::Column(0), CmpOp::GtEq, Operand::Literal(Value::Integer(6)));
    let r = execute(&mut store, CommandType::Delete { table_name: "t".to_string(), filter: f() });
    assert!(matches!(r, Ok(Payload::Delete(4))));
    assert!(select(&mut store, "t", f(), Blend::All, all()).unwrap().is_empty());
    assert_eq!(select(&mut store, "t", Filter::All, Blend::All, all()).unwrap().len(), 6);
}

#[test]
fn delete_missing_table_fails() {
    let mut store = MemoryStore::new();
    let r = execute(&mut store, CommandType::Delete { table_name: "x".to_string(), filter: Filter::All });
    assert!(matches!(r, Err(ExecError::TableNotFound(n)) if n == "x"));
}

#[test]
fn update_touches_only_matching_rows_and_assigned_columns() {
    let mut store = MemoryStore::new();
    create(&mut store, schema("t", &[("id", DataType::Integer), ("x", DataType::Integer), ("tag", DataType::Text)]));
    for i in 0..4 {
        insert(&mut store, "t", &[], vec![Value::Integer(i), Value::Integer(10 * i), text("k")]).unwrap();
    }
    let before = select(&mut store, "t", Filter::All, Blend::All, all()).unwrap();
    let update = Update {
        assignments: vec![Assignment {
            column: 1,
            expr: Expr::Add(Box::new(Expr::Column(1)), Box::new(Expr::Literal(Value::Integer(1)))),
        }],
    };
    let filter = Filter::Or(Box::new(col_eq(0, Value::Integer(1))), Box::new(col_eq(0, Value::Integer(3))));
    let r = execute(&mut store, CommandType::Update { table_name: "t".to_string(), update, filter });
    assert!(matches!(r, Ok(Payload::Update(2))));
    let after = select(&mut store, "t", Filter::All, Blend::All, all()).unwrap();
    assert_eq!(after[0], before[0]);
    assert_eq!(after[2], before[2]);
    assert_eq!(after[1].key, before[1].key);
    assert_eq!(after[1].items, vec![Value::Integer(1), Value::Integer(11), text("k")]);
    assert_eq!(after[3].items, vec![Value::Integer(3), Value::Integer(31), text("k")]);
}

#[test]
fn update_last_assignment_wins_and_overflow_is_null() {
    let mut store = MemoryStore::new();
    create(&mut store, schema("t", &[("x", DataType::Integer)]));
    insert(&mut store, "t", &[], vec![Value::Integer(i64::MAX)]).unwrap();
    let update = Update {
        assignments: vec![
            Assignment { column: 0, expr: Expr::Literal(Value::Integer(5)) },
            Assignment {
                column: 0,
                expr: Expr::Add(Box::new(Expr::Column(0)), Box::new(Expr::Literal(Value::Integer(1)))),
            },
        ],
    };
    execute(&mut store, CommandType::Update { table_name: "t".to_string(), update, filter: Filter::All }).unwrap();
    let rows = select(&mut store, "t", Filter::All, Blend::All, all()).unwrap();
    assert_eq!(rows[0].items, vec![Value::Null]);
}

#[test]
fn limit_pages_over_filtered_rows() {
    let mut store = MemoryStore::new();
    create(&mut store, schema("t", &[("n", DataType::Integer)]));
    for i in 0..10 {
        insert(&mut store, "t", &[], vec![Value::Integer(i)]).unwrap();
    }
    let kept = || Filter::Not(Box::new(Filter::Or(
        Box::new(col_eq(0, Value::Integer(1))),
        Box::new(Filter::Compare(Operand::Column(0), CmpOp::Gt, Operand::Literal(Value::Integer(8)))),
    )));
    // the filter keeps 0, 2, 3, 4, 5, 6, 7, 8
    let page = select(&mut store, "t", kept(), Blend::All, Limit { offset: 2, count: Some(3) }).unwrap();
    assert_eq!(items(&page), vec![vec![Value::Integer(3)], vec![Value::Integer(4)], vec![Value::Integer(5)]]);
    let tail = select(&mut store, "t", kept(), Blend::All, Limit { offset: 6, count: Some(5) }).unwrap();
    assert_eq!(items(&tail), vec![vec![Value::Integer(7)], vec![Value::Integer(8)]]);
    let past = select(&mut store, "t", kept(), Blend::All, Limit { offset: 20, count: None }).unwrap();
    assert!(past.is_empty());
}

#[test]
fn projection_keeps_requested_columns_in_order() {
    let mut store = MemoryStore::new();
    create(&mut store, schema("t", &[("a", DataType::Integer), ("b", DataType::Text), ("c", DataType::Integer)]));
    insert(&mut store, "t", &[], vec![Value::Integer(1), text("x"), Value::Integer(3)]).unwrap();
    let rows = select(&mut store, "t", Filter::All, Blend::Columns(vec![2, 0]), all()).unwrap();
    assert_eq!(items(&rows), vec![vec![Value::Integer(3), Value::Integer(1)]]);
    let wide = select(&mut store, "t", Filter::All, Blend::Columns(vec![1, 9]), all()).unwrap();
    assert_eq!(items(&wide), vec![vec![text("x"), Value::Null]]);
}

#[test]
fn create_existing_table_fails_and_keeps_data() {
    let mut store = MemoryStore::new();
    create(&mut store, schema("t", &[("a", DataType::Integer)]));
    insert(&mut store, "t", &[], vec![Value::Integer(1)]).unwrap();
    let r = execute(&mut store, CommandType::Create(schema("t", &[("z", DataType::Text)])));
    assert!(matches!(r, Err(ExecError::TableAlreadyExists(n)) if n == "t"));
    let s = store.get_schema("t").unwrap();
    assert_eq!(s.columns.len(), 1);
    assert_eq!(s.columns[0].name, "a");
    assert_eq!(items(&select(&mut store, "t", Filter::All, Blend::All, all()).unwrap()), vec![vec![Value::Integer(1)]]);
}

#[test]
fn select_missing_table_fails() {
    let mut store = MemoryStore::new();
    let r = select(&mut store, "gone", Filter::All, Blend::All, all());
    assert_eq!(r, Err(ExecError::TableNotFound("gone".to_string())));
}

#[test]
fn deleting_absent_key_changes_nothing() {
    let mut store = MemoryStore::new();
    create(&mut store, schema("t", &[("a", DataType::Integer)]));
    let row = insert(&mut store, "t", &[], vec![Value::Integer(1)]).unwrap();
    assert_eq!(store.del_data("t", &(row.key + 100)), Ok(()));
    assert_eq!(store.get_data("t").unwrap(), vec![row]);
}

#[test]
fn set_data_replaces_row_of_same_key() {
    let mut store = MemoryStore::new();
    create(&mut store, schema("t", &[("a", DataType::Integer)]));
    let row = insert(&mut store, "t", &[], vec![Value::Integer(1)]).unwrap();
    let changed = Row { key: row.key, items: vec![Value::Integer(2)] };
    assert_eq!(store.set_data("t", changed.clone()), Ok(changed.clone()));
    assert_eq!(store.get_data("t").unwrap(), vec![changed]);
}
