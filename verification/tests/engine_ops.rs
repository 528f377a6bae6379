use poorly::database::Database;
use poorly::engine::{Poorly, Query};
use poorly::schema::{Columns, Schema};
use poorly::strmap::StrMap;
use poorly::table::{ColumnSet, Table};
use poorly::types::{DataType, PoorlyError, TypedValue};

fn item_columns() -> Columns {
    vec![
        ("id".to_string(), DataType::Serial),
        ("name".to_string(), DataType::String),
    ]
}

fn engine_with_table() -> Poorly {
    let mut engine = Poorly::open();
    engine.init().unwrap();
    engine
        .execute(Query::Create {
            db: "poorly".to_string(),
            table: "items".to_string(),
            columns: item_columns(),
        })
        .unwrap();
    engine
}

#[test]
fn engine_insert_and_select() {
    let mut engine = engine_with_table();
    let mut values: ColumnSet = StrMap::new();
    values.insert("name".to_string(), TypedValue::String("pen".to_string()));
    let inserted = engine
        .execute(Query::Insert {
            db: "poorly".to_string(),
            into: "items".to_string(),
            values,
        })
        .unwrap();
    assert_eq!(inserted.len(), 1);
    // the serial column is populated with the assigned value
    assert_eq!(inserted[0].get("id"), Some(&TypedValue::Serial(0)));
    let rows = engine
        .execute(Query::Select {
            db: "poorly".to_string(),
            from: "items".to_string(),
            columns: vec![],
            conditions: StrMap::new(),
        })
        .unwrap();
    assert_eq!(rows.len(), 1);
    assert_eq!(rows[0], inserted[0]);
}

#[test]
fn engine_serial_is_engine_assigned() {
    let mut engine = engine_with_table();
    let mut values: ColumnSet = StrMap::new();
    values.insert("id".to_string(), TypedValue::Serial(9));
    values.insert("name".to_string(), TypedValue::String("pen".to_string()));
    let r = engine.execute(Query::Insert {
        db: "poorly".to_string(),
        into: "items".to_string(),
        values,
    });
    assert!(matches!(r, Err(PoorlyError::InvalidOperation(_))));
}

#[test]
fn engine_incomplete_insert() {
    let mut engine = engine_with_table();
    let r = engine.execute(Query::Insert {
        db: "poorly".to_string(),
        into: "items".to_string(),
        values: StrMap::new(),
    });
    assert!(matches!(r, Err(PoorlyError::IncompleteData(_, _))));
}

#[test]
fn engine_show_tables() {
    let mut engine = engine_with_table();
    let rows = engine
        .execute(Query::ShowTables { db: "poorly".to_string() })
        .unwrap();
    assert_eq!(rows.len(), 1);
    assert_eq!(
        rows[0].get("items"),
        Some(&TypedValue::String(String::new()))
    );
}

#[test]
fn engine_db_lifecycle() {
    let mut engine = Poorly::open();
    engine.init().unwrap();
    let r = engine.execute(Query::DropDb { name: "poorly".to_string() });
    assert!(matches!(r, Err(PoorlyError::CannotDropDefaultDb)));
    engine
        .execute(Query::CreateDb { name: "shop".to_string() })
        .unwrap();
    let r = engine.execute(Query::CreateDb { name: "shop".to_string() });
    assert!(matches!(r, Err(PoorlyError::DatabaseAlreadyExists(_))));
    engine
        .execute(Query::DropDb { name: "shop".to_string() })
        .unwrap();
    let r = engine.execute(Query::Select {
        db: "shop".to_string(),
        from: "items".to_string(),
        columns: vec![],
        conditions: StrMap::new(),
    });
    assert!(matches!(r, Err(PoorlyError::DatabaseNotFound(_))));
}

#[test]
fn engine_schema_rules() {
    let mut engine = engine_with_table();
    // a duplicate column name is refused
    let r = engine.execute(Query::Create {
        db: "poorly".to_string(),
        table: "dup".to_string(),
        columns: vec![
            ("a".to_string(), DataType::Int),
            ("a".to_string(), DataType::String),
        ],
    });
    assert!(matches!(r, Err(PoorlyError::ColumnAlreadyExists(_, _))));
    // an empty column list is refused
    let r = engine.execute(Query::Create {
        db: "poorly".to_string(),
        table: "none_at_all".to_string(),
        columns: vec![],
    });
    assert!(matches!(r, Err(PoorlyError::NoColumns)));
    // an existing table is not silently overwritten
    let r = engine.execute(Query::Create {
        db: "poorly".to_string(),
        table: "items".to_string(),
        columns: item_columns(),
    });
    assert!(matches!(r, Err(PoorlyError::TableAlreadyExists(_))));
    // an invalid name is refused
    let r = engine.execute(Query::Create {
        db: "poorly".to_string(),
        table: "bad name".to_string(),
        columns: item_columns(),
    });
    assert!(matches!(r, Err(PoorlyError::InvalidName(_))));
}

#[test]
fn engine_alter_keeps_rows() {
    // renaming a column of an opened table keeps its stored rows
    let mut engine = engine_with_table();
    let mut values: ColumnSet = StrMap::new();
    values.insert("name".to_string(), TypedValue::String("pen".to_string()));
    engine
        .execute(Query::Insert {
            db: "poorly".to_string(),
            into: "items".to_string(),
            values,
        })
        .unwrap();
    let mut rename: StrMap<String> = StrMap::new();
    rename.insert("name".to_string(), "title".to_string());
    engine
        .execute(Query::Alter {
            db: "poorly".to_string(),
            table: "items".to_string(),
            rename,
        })
        .unwrap();
    let rows = engine
        .execute(Query::Select {
            db: "poorly".to_string(),
            from: "items".to_string(),
            columns: vec![],
            conditions: StrMap::new(),
        })
        .unwrap();
    assert_eq!(rows.len(), 1);
    assert_eq!(
        rows[0].get("title"),
        Some(&TypedValue::String("pen".to_string()))
    );
    assert_eq!(rows[0].get("name"), None);
}

#[test]
fn engine_alter() {
    let mut engine = engine_with_table();
    let mut rename: StrMap<String> = StrMap::new();
    rename.insert("name".to_string(), "title".to_string());
    engine
        .execute(Query::Alter {
            db: "poorly".to_string(),
            table: "items".to_string(),
            rename,
        })
        .unwrap();
    let mut values: ColumnSet = StrMap::new();
    values.insert("title".to_string(), TypedValue::String("pen".to_string()));
    let inserted = engine
        .execute(Query::Insert {
            db: "poorly".to_string(),
            into: "items".to_string(),
            values,
        })
        .unwrap();
    assert_eq!(
        inserted[0].get("title"),
        Some(&TypedValue::String("pen".to_string()))
    );
    // a rename that matches no column is a column-not-found failure
    let mut rename: StrMap<String> = StrMap::new();
    rename.insert("ghostly".to_string(), "other".to_string());
    let r = engine.execute(Query::Alter {
        db: "poorly".to_string(),
        table: "items".to_string(),
        rename,
    });
    assert!(matches!(r, Err(PoorlyError::ColumnNotFound(_, _))));
}

#[test]
fn engine_update_delete() {
    let mut engine = engine_with_table();
    let mut values: ColumnSet = StrMap::new();
    values.insert("name".to_string(), TypedValue::String("pen".to_string()));
    engine
        .execute(Query::Insert {
            db: "poorly".to_string(),
            into: "items".to_string(),
            values,
        })
        .unwrap();
    let mut set: ColumnSet = StrMap::new();
    set.insert("name".to_string(), TypedValue::String("ink".to_string()));
    let updated = engine
        .execute(Query::Update {
            db: "poorly".to_string(),
            table: "items".to_string(),
            set,
            conditions: StrMap::new(),
        })
        .unwrap();
    assert_eq!(updated.len(), 1);
    assert_eq!(
        updated[0].get("name"),
        Some(&TypedValue::String("ink".to_string()))
    );
    let deleted = engine
        .execute(Query::Delete {
            db: "poorly".to_string(),
            from: "items".to_string(),
            conditions: StrMap::new(),
        })
        .unwrap();
    assert_eq!(deleted.len(), 1);
    let rows = engine
        .execute(Query::Select {
            db: "poorly".to_string(),
            from: "items".to_string(),
            columns: vec![],
            conditions: StrMap::new(),
        })
        .unwrap();
    assert!(rows.is_empty());
}

#[test]
fn table_image_round_trip() {
    let columns: Columns = vec![
        ("id".to_string(), DataType::Int),
        ("note".to_string(), DataType::String),
    ];
    let mut t = Table::new("notes".to_string(), columns.clone());
    let mut row: ColumnSet = StrMap::new();
    row.insert("id".to_string(), TypedValue::Int(7));
    row.insert("note".to_string(), TypedValue::String("héllo".to_string()));
    t.insert(row.clone()).unwrap();
    t.delete(StrMap::new()).unwrap();
    let mut row2: ColumnSet = StrMap::new();
    row2.insert("id".to_string(), TypedValue::Int(8));
    row2.insert("note".to_string(), TypedValue::String("kept".to_string()));
    t.insert(row2.clone()).unwrap();

    let image = t.to_bytes();
    // the counter sits in the first four little-endian bytes
    assert_eq!(&image[0..4], &[2, 0, 0, 0]);
    let back = Table::open("notes".to_string(), columns, &image).unwrap();
    let rows = back.select(vec![], StrMap::new()).unwrap();
    assert_eq!(rows.len(), 1);
    assert_eq!(rows[0], row2);

    // an empty image is a fresh table
    let fresh = Table::open("notes".to_string(), item_columns(), &Vec::new()).unwrap();
    assert!(fresh.select(vec![], StrMap::new()).unwrap().is_empty());

    // a torn image is refused
    let mut torn = t.to_bytes();
    torn.pop();
    let r = Table::open("notes".to_string(), item_columns(), &torn);
    assert!(matches!(r, Err(PoorlyError::IoError(_))));
}

#[test]
fn schema_text_round_trip() {
    let mut schema = Schema::new_poorly("shop".to_string());
    schema
        .create_table(
            "items".to_string(),
            vec![
                ("name".to_string(), DataType::String),
                ("id".to_string(), DataType::Serial),
            ],
        )
        .unwrap();
    let text = schema.dump();
    assert_eq!(text, "shop:poorly\nitems#id:serial,name:string\n");
    let back = Schema::parse(&text).unwrap();
    assert!(back.is_poorly());
    assert_eq!(back.name, "shop".to_string());
    let cols = back.tables.get("items").unwrap();
    assert_eq!(cols.len(), 2);
    assert_eq!(cols[0], ("id".to_string(), DataType::Serial));
    assert_eq!(cols[1], ("name".to_string(), DataType::String));
    assert!(Schema::parse("no header here").is_none());
    assert!(Schema::parse("x:poorly\nitems#a:blob\n").is_none());
}

#[test]
fn database_opens_tables_lazily() {
    let mut schema = Schema::new_poorly("shop".to_string());
    schema
        .create_table("items".to_string(), vec![("id".to_string(), DataType::Int)])
        .unwrap();
    let mut db = Database::new("shop".to_string(), schema);
    assert_eq!(db.get_tables(), vec!["items".to_string()]);
    let t = db.get_table("items").unwrap();
    assert!(t.columns_len() == 1);
    db.put_table("items".to_string(), t);
    let r = db.get_table("ghosts");
    assert!(matches!(r, Err(PoorlyError::TableNotFound(_))));
}
