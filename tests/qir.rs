use std::rc::Rc;
use vector_example1::qir::{Column, DataType, Filter, IdentitySink, Scan, Table};

#[test]
fn test_table_macro() {
    let users = Table {
        name: "users".to_string(),
        columns: vec![
            Column { name: "id".to_string(), data_type: DataType::I64 },
            Column { name: "name".to_string(), data_type: DataType::String },
            Column { name: "age".to_string(), data_type: DataType::I32 },
        ],
    };

    assert_eq!(users.name, "users");
    assert_eq!(users.columns.len(), 3);

    assert_eq!(users.columns[0].name, "id");
    assert!(matches!(users.columns[0].data_type, DataType::I64));

    assert_eq!(users.columns[1].name, "name");
    assert!(matches!(users.columns[1].data_type, DataType::String));

    assert_eq!(users.columns[2].name, "age");
    assert!(matches!(users.columns[2].data_type, DataType::I32));
}

#[test]
fn test_column_macro() {
    let col: Column = Column { name: "id".to_string(), data_type: DataType::I64 };

    assert_eq!(col.name, "id");
    assert!(matches!(col.data_type, DataType::I64));
}

#[test]
fn scan_filter_and_sink_chain() {
    let users = Table {
        name: "users".to_string(),
        columns: vec![
            Column { name: "id".to_string(), data_type: DataType::I64 },
            Column { name: "birthday".to_string(), data_type: DataType::Date },
            Column {
                name: "tags".to_string(),
                data_type: DataType::List(Box::new(DataType::String)),
            },
        ],
    };
    let scan = Rc::new(Scan {
        name: "users_scan".to_string(),
        table: Rc::new(users),
        output: vec!["id".to_string(), "birthday".to_string()],
    });
    let filter = Rc::new(Filter {
        input: scan.clone(),
        predicate: "row.birthday > '1990-01-01'".to_string(),
        output: vec!["id".to_string()],
    });
    let sink = IdentitySink { input: filter.clone() };
    let _ = sink.input;

    assert_eq!(scan.name, "users_scan");
    assert_eq!(scan.table.columns.len(), 3);
    assert_eq!(filter.predicate, "row.birthday > '1990-01-01'");
    assert_eq!(filter.output, vec!["id"]);
}
