use poorly::schema::Columns;
use poorly::strmap::StrMap;
use poorly::table::{ColumnSet, Table};
use poorly::types::{DataType, TypedValue};

fn table() -> Table {
    let columns: Columns = vec![
        ("id".to_string(), DataType::Int),
        ("price".to_string(), DataType::Float),
    ];
    Table::new("test".to_string(), columns)
}

fn row(id: i64, price: f64) -> ColumnSet {
    let mut row: ColumnSet = StrMap::new();
    row.insert("id".to_string(), TypedValue::Int(id));
    row.insert("price".to_string(), TypedValue::Float(price.to_bits()));
    row
}

#[test]
fn select() {
    let mut table = table();
    let row = row(1, 1.23);

    table.insert(row.clone()).unwrap();

    let rows = table.select(vec![], StrMap::new()).unwrap();
    assert_eq!(rows.len(), 1);
    assert_eq!(rows[0], row);
}

#[test]
fn project() {
    let mut table = table();
    let mut row = row(1, 1.23);

    table.insert(row.clone()).unwrap();

    let rows = table.select(vec!["price".to_string()], StrMap::new()).unwrap();
    assert_eq!(rows.len(), 1);

    row.remove("id");
    assert_eq!(rows[0], row);
}

#[test]
fn filter() {
    let mut table = table();
    let row1 = row(1, 1.23);

    table.insert(row1).unwrap();

    let row2 = row(2, 18.18);
    table.insert(row2.clone()).unwrap();

    let mut conditions: ColumnSet = StrMap::new();
    conditions.insert("id".to_string(), TypedValue::Int(2));
    let rows = table.select(vec![], conditions).unwrap();
    assert_eq!(rows.len(), 1);
    assert_eq!(rows[0], row2);
}

#[test]
fn update() {
    let mut table = table();
    let row1 = row(1, 1.23);

    table.insert(row1).unwrap();
    let mut set: ColumnSet = StrMap::new();
    set.insert("price".to_string(), TypedValue::Float(123.45f64.to_bits()));
    table.update(set, StrMap::new()).unwrap();

    let rows = table.select(vec![], StrMap::new()).unwrap();
    assert_eq!(rows.len(), 1);
    assert_eq!(
        rows[0].get("price"),
        Some(&TypedValue::Float(123.45f64.to_bits()))
    );
}

#[test]
fn delete() {
    let mut table = table();
    let row1 = row(1, 1.23);

    table.insert(row1).unwrap();
    table.delete(StrMap::new()).unwrap();

    let rows = table.select(vec![], StrMap::new()).unwrap();
    assert!(rows.is_empty());
}
