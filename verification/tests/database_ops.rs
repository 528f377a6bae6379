use poorly::schema::Columns;
use poorly::strmap::StrMap;
use poorly::table::{ColumnSet, Table};
use poorly::types::{DataType, TypedValue};

fn table() -> Table {
    let columns: Columns = vec![
        ("id".to_string(), DataType::Int),
        ("price".to_string(), DataType::Float),
    ];
    Table::new("test".to_string(), columns)
}

fn join(i: i32) -> Table {
    let columns: Columns = vec![
        ("id".to_string(), DataType::Int),
        ("email".to_string(), DataType::Email),
    ];
    Table::new(format!("join{}", i), columns)
}

fn row(id: i64, price: f64) -> ColumnSet {
    let mut row: ColumnSet = StrMap::new();
    row.insert("id".to_string(), TypedValue::Int(id));
    row.insert("price".to_string(), TypedValue::Float(price.to_bits()));
    row
}

fn email_row(id: i64, email: &str) -> ColumnSet {
    let mut row: ColumnSet = StrMap::new();
    row.insert("id".to_string(), TypedValue::Int(id));
    row.insert("email".to_string(), TypedValue::Email(email.to_string()));
    row
}

#[test]
fn tests_select() {
    let mut table = table();
    let row = row(1, 1.23);

    table.insert(row.clone()).unwrap();

    let rows = table.select(vec![], StrMap::new()).unwrap();
    assert_eq!(rows.len(), 1);
    assert_eq!(rows[0], row);
}

#[test]
fn test_join() {
    let mut table1 = join(1);
    let mut table2 = join(2);
    let row1 = email_row(1, "test@gmail.com");
    let row2 = email_row(2, "test2@gmail.com");
    let row3 = email_row(1, "table2@gmail.com");
    let row4 = email_row(2, "table22@gmail.com");

    table1.insert(row1).unwrap();
    table1.insert(row2).unwrap();
    table2.insert(row3).unwrap();
    table2.insert(row4).unwrap();

    let mut conditions: ColumnSet = StrMap::new();
    conditions.insert("join1.id".to_string(), TypedValue::Int(1));

    let mut join_on: StrMap<String> = StrMap::new();
    join_on.insert("join1.id".to_string(), "join2.id".to_string());

    let mut result = table1
        .join(&table2, vec![], conditions, join_on)
        .unwrap();
    let result = result.remove(0);

    assert_eq!(result.get("join1.id"), Some(&TypedValue::Int(1)));
    assert_eq!(result.get("join2.id"), Some(&TypedValue::Int(1)));
    assert_eq!(
        result.get("join1.email"),
        Some(&TypedValue::Email("test@gmail.com".to_string()))
    );
    assert_eq!(
        result.get("join2.email"),
        Some(&TypedValue::Email("table2@gmail.com".to_string()))
    );

    assert_eq!(result.len(), 4);
}

#[test]
fn tests_project() {
    let mut table = table();
    let mut row = row(1, 1.23);

    table.insert(row.clone()).unwrap();

    let rows = table.select(vec!["price".to_string()], StrMap::new()).unwrap();
    assert_eq!(rows.len(), 1);

    row.remove("id");
    assert_eq!(rows[0], row);
}

#[test]
fn tests_filter() {
    let mut table = table();
    let row1 = row(1, 1.23);

    table.insert(row1).unwrap();

    let row2 = row(2, 18.18);
    table.insert(row2.clone()).unwrap();

    let mut conditions: ColumnSet = StrMap::new();
    conditions.insert("id".to_string(), TypedValue::Int(2));
    let rows = table.select(vec![], conditions).unwrap();
    assert_eq!(rows.len(), 1);
    assert_eq!(rows[0], row2);
}

#[test]
fn tests_update() {
    let mut table = table();
    let row1 = row(1, 1.23);

    table.insert(row1).unwrap();
    let mut set: ColumnSet = StrMap::new();
    set.insert("price".to_string(), TypedValue::Float(123.45f64.to_bits()));
    table.update(set, StrMap::new()).unwrap();

    let rows = table.select(vec![], StrMap::new()).unwrap();
    assert_eq!(rows.len(), 1);
    assert_eq!(
        rows[0].get("price"),
        Some(&TypedValue::Float(123.45f64.to_bits()))
    );
}

#[test]
fn tests_delete() {
    let mut table = table();
    let row1 = row(1, 1.23);

    table.insert(row1).unwrap();
    table.delete(StrMap::new()).unwrap();

    let rows = table.select(vec![], StrMap::new()).unwrap();
    assert!(rows.is_empty());
}
