//! Small pieces: column ids, the id map, and the progress formatting.

use stream_core::catalog::{columns_extend, is_column_ids_dedup, ColumnCatalog, ColumnDesc};
use stream_core::parquet::{ParquetParser, SourceColumnDesc, SourceContextRef};
use stream_core::risedev::{KafkaConfig, SchemaRegistryConfig};
use stream_core::sql_server::{SchemaTableName, SqlServerExternalTableReader};
use stream_core::text::{format_basis_points, u64_to_string};
use stream_core::{ColumnId, VecMap};

#[test]
fn column_id_arithmetic() {
    let id = ColumnId::new(3);
    assert_eq!(id.get_id(), 3);
    assert_eq!(id.next().get_id(), 4);
    let mut shifted = ColumnId::new(5);
    shifted.apply_delta_if_not_row_id(10);
    assert_eq!(shifted.get_id(), 15);
    // the reserved row-id column never moves
    let mut row_id = ColumnId::new(0);
    row_id.apply_delta_if_not_row_id(10);
    assert_eq!(row_id.get_id(), 0);
    assert_eq!(ColumnId::placeholder().get_id(), i32::MAX - 1);
}

#[test]
fn vec_map_insert_get_remove() {
    let mut m: VecMap<u64> = VecMap::new();
    assert!(m.is_empty());
    m.insert(1, 10);
    m.insert(2, 20);
    m.insert(1, 11);
    assert_eq!(m.len(), 2);
    assert_eq!(m.get(1), Some(&11));
    assert_eq!(m.get(2), Some(&20));
    assert_eq!(m.remove(1), Some(11));
    assert_eq!(m.get(1), None);
    assert_eq!(m.keys(), vec![2]);
}

#[test]
fn decimal_formatting() {
    assert_eq!(u64_to_string(0), "0");
    assert_eq!(u64_to_string(7), "7");
    assert_eq!(u64_to_string(12034), "12034");
    assert_eq!(format_basis_points(0), "0.00%");
    assert_eq!(format_basis_points(1234), "12.34%");
    assert_eq!(format_basis_points(9900), "99.00%");
    assert_eq!(format_basis_points(10000), "100.00%");
    assert_eq!(format_basis_points(205), "2.05%");
}

#[test]
fn parquet_parser_accepts_columns() {
    let columns = vec![
        SourceColumnDesc { name: String::from("v"), is_hidden_addition_col: false },
        SourceColumnDesc { name: String::from("_rw_file"), is_hidden_addition_col: true },
    ];
    let parser = ParquetParser::new(columns, SourceContextRef { actor_id: 1 });
    assert!(parser.is_ok());
}

#[test]
fn schema_registry_envs() {
    let config = SchemaRegistryConfig {
        id: String::from("schema-registry-0"),
        user_managed: false,
        image: String::from("confluentinc/cp-schema-registry"),
        port: 8081,
        provide_kafka: Some(vec![KafkaConfig { port: 9092 }]),
    };
    assert_eq!(config.id(), "schema-registry-0");
    assert!(!config.is_user_managed());
    assert!(config.use_host_network());
    assert!(config.ports().is_empty());
    assert!(config.data_path().is_none());
    let envs = config.envs();
    assert_eq!(envs.len(), 4);
    assert_eq!(envs[0].0, "SCHEMA_REGISTRY_HOST_NAME");
    assert_eq!(envs[0].1, "localhost");
    assert_eq!(envs[1].1, "http://0.0.0.0:8081");
    assert_eq!(envs[2].1, "PLAINTEXT://localhost:9092");
    assert_eq!(envs[3].0, "SCHEMA_REGISTRY_DEBUG");
    assert_eq!(envs[3].1, "true");
}

#[test]
fn columns_extend_shifts_preserved_ids() {
    let col = |id: i32, name: &str, hidden: bool| ColumnCatalog {
        column_desc: ColumnDesc { column_id: ColumnId::new(id), name: String::from(name) },
        is_hidden: hidden,
    };
    // a hidden row-id column keeps its reserved id; the others shift past
    // the largest incoming id
    let mut preserved = vec![col(0, "_row_id", true), col(1, "a", false), col(2, "b", false)];
    let incoming = vec![col(1, "c", false), col(3, "d", false)];
    columns_extend(&mut preserved, incoming);
    let ids: Vec<i32> = preserved.iter().map(|c| c.column_desc.column_id.get_id()).collect();
    assert_eq!(ids, vec![0, 4, 5, 1, 3]);
    assert_eq!(preserved[3].column_desc.name, "c");
    assert!(preserved[0].is_hidden);
}

#[test]
fn column_id_dedup_detects_duplicates() {
    let col = |id: i32| ColumnCatalog {
        column_desc: ColumnDesc { column_id: ColumnId::new(id), name: String::new() },
        is_hidden: false,
    };
    assert!(is_column_ids_dedup(&vec![]));
    assert!(is_column_ids_dedup(&vec![col(1), col(2), col(5)]));
    assert!(!is_column_ids_dedup(&vec![col(1), col(2), col(1)]));
}

#[test]
fn test_sql_server_filter_expr() {
    let cols = vec!["id".to_string()];
    let expr = SqlServerExternalTableReader::filter_expression(&cols);
    assert_eq!(expr, "(\"id\" > @P1)");

    let cols = vec!["aa".to_string(), "bb".to_string(), "cc".to_string()];
    let expr = SqlServerExternalTableReader::filter_expression(&cols);
    assert_eq!(
        expr,
        "(\"aa\" > @P1) OR ((\"aa\" = @P1) AND (\"bb\" > @P2)) OR ((\"aa\" = @P1) AND (\"bb\" = @P2) AND (\"cc\" > @P3))"
    );
}

#[test]
fn sql_server_table_name_is_quoted() {
    let name = SchemaTableName {
        schema_name: "dbo".to_string(),
        table_name: "orders".to_string(),
    };
    assert_eq!(
        SqlServerExternalTableReader::get_normalized_table_name(&name),
        "\"dbo\".\"orders\""
    );
    assert_eq!(
        SqlServerExternalTableReader::quote_column(&"a b".to_string()),
        "\"a b\""
    );
}
