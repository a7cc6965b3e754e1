use ucsync::model::{Catalog, Schema, Table};
use ucsync::querygen::{clone_kind_for, render_plan, CloneKind, Query, QueryGen};

const HOUR_MS: i64 = 3_600_000;

fn cfg(hours: u32, deep: bool, create_schema: bool) -> QueryGen {
    QueryGen {
        staleness_threshold_hours: hours,
        deep_clone_non_managed: deep,
        create_schema_if_missing: create_schema,
    }
}

fn table(catalog: &str, schema: &str, name: &str, updated_at: i64) -> Table {
    Table {
        name: String::from(name),
        schema_name: String::from(schema),
        catalog_name: String::from(catalog),
        table_type: String::from("MANAGED"),
        data_source_format: Some(String::from("DELTA")),
        updated_at,
        updated_by: String::from("someone"),
        properties: Vec::new(),
    }
}

fn external_table(catalog: &str, schema: &str, name: &str, updated_at: i64) -> Table {
    let mut t = table(catalog, schema, name, updated_at);
    t.table_type = String::from("EXTERNAL");
    t.data_source_format = Some(String::from("CSV"));
    t
}

fn schema_with(catalog: &str, name: &str, tables: Vec<Table>) -> Schema {
    Schema { name: String::from(name), catalog_name: String::from(catalog), tables }
}

fn catalog_with(name: &str, schemas: Vec<Schema>) -> Catalog {
    Catalog { name: String::from(name), schemas }
}

fn render(source: &Catalog, target: Option<&Catalog>, target_name: &str, c: &QueryGen) -> Vec<String> {
    match source.diff(target, (c.staleness_threshold_hours as i64) * HOUR_MS) {
        Some(node) => render_plan(Query::from_diff_node(&node, target_name, c)),
        None => Vec::new(),
    }
}

#[test]
fn managed_delta_source_is_cloned_shallow() {
    let k = clone_kind_for(
        &String::from("MANAGED"),
        &Some(String::from("DELTA")),
        false,
    );
    assert_eq!(k, Some(CloneKind::Shallow));
    let k2 = clone_kind_for(&String::from("MANAGED"), &Some(String::from("DELTA")), true);
    assert_eq!(k2, Some(CloneKind::Shallow));
}

#[test]
fn non_managed_source_is_cloned_deep_only_with_fallback() {
    let k = clone_kind_for(&String::from("EXTERNAL"), &Some(String::from("DELTA")), true);
    assert_eq!(k, Some(CloneKind::Deep));
    let k2 = clone_kind_for(&String::from("EXTERNAL"), &Some(String::from("DELTA")), false);
    assert_eq!(k2, None);
    let k3 = clone_kind_for(&String::from("MANAGED"), &Some(String::from("CSV")), false);
    assert_eq!(k3, None);
    let k4 = clone_kind_for(&String::from("MANAGED"), &None, true);
    assert_eq!(k4, Some(CloneKind::Deep));
}

#[test]
fn missing_schema_is_created_and_cloned_when_enabled() {
    let source = catalog_with(
        "prod",
        vec![schema_with("prod", "sales", vec![table("prod", "sales", "orders", 100)])],
    );
    let target = catalog_with("dev", vec![]);
    let statements = render(&source, Some(&target), "dev", &cfg(1, false, true));
    assert_eq!(
        statements,
        vec![
            String::from("CREATE SCHEMA dev.sales"),
            String::from("CREATE TABLE dev.sales.orders SHALLOW CLONE prod.sales.orders"),
        ]
    );
}

#[test]
fn missing_schema_is_skipped_when_disabled() {
    let source = catalog_with(
        "prod",
        vec![schema_with("prod", "sales", vec![table("prod", "sales", "orders", 100)])],
    );
    let target = catalog_with("dev", vec![]);
    let statements = render(&source, Some(&target), "dev", &cfg(1, false, false));
    assert!(statements.is_empty());
}

#[test]
fn stale_table_is_replaced_via_drop_and_clone() {
    let now = 100 * HOUR_MS;
    let source = catalog_with(
        "prod",
        vec![schema_with("prod", "sales", vec![table("prod", "sales", "orders", now)])],
    );
    let target = catalog_with(
        "dev",
        vec![schema_with("dev", "sales", vec![table("dev", "sales", "orders", now - 2 * HOUR_MS)])],
    );
    let statements = render(&source, Some(&target), "dev", &cfg(1, false, true));
    assert_eq!(
        statements,
        vec![String::from(
            "DROP TABLE dev.sales.orders;\nCREATE TABLE dev.sales.orders SHALLOW CLONE prod.sales.orders"
        )]
    );
}

#[test]
fn table_within_threshold_yields_no_statement() {
    let now = 100 * HOUR_MS;
    let source = catalog_with(
        "prod",
        vec![schema_with("prod", "sales", vec![table("prod", "sales", "orders", now)])],
    );
    let target = catalog_with(
        "dev",
        vec![schema_with("dev", "sales", vec![table("dev", "sales", "orders", now - 2 * HOUR_MS)])],
    );
    let statements = render(&source, Some(&target), "dev", &cfg(3, false, true));
    assert!(statements.is_empty());
}

#[test]
fn create_everything_emits_parent_before_children() {
    let source = catalog_with(
        "prod",
        vec![schema_with("prod", "sales", vec![table("prod", "sales", "orders", 100)])],
    );
    let statements = render(&source, None, "dev", &cfg(1, false, true));
    assert_eq!(
        statements,
        vec![
            String::from("CREATE CATALOG dev"),
            String::from("CREATE SCHEMA dev.sales"),
            String::from("CREATE TABLE dev.sales.orders SHALLOW CLONE prod.sales.orders"),
        ]
    );
}

#[test]
fn drop_statements_carry_cascade() {
    let source = catalog_with(
        "prod",
        vec![schema_with("prod", "sales", vec![table("prod", "sales", "orders", 100)])],
    );
    let target = catalog_with(
        "dev",
        vec![
            schema_with("dev", "sales", vec![
                table("dev", "sales", "orders", 100),
                table("dev", "sales", "junk", 5),
            ]),
            schema_with("dev", "scratch", vec![table("dev", "scratch", "a", 1)]),
        ],
    );
    let statements = render(&source, Some(&target), "dev", &cfg(1, false, true));
    // breadth-first: the schema-level drop is one level above the table drop
    assert_eq!(
        statements,
        vec![
            String::from("DROP SCHEMA dev.scratch CASCADE"),
            String::from("DROP TABLE dev.sales.junk"),
        ]
    );
}

#[test]
fn non_managed_table_deep_clones_with_fallback_and_skips_without() {
    let source = catalog_with(
        "prod",
        vec![schema_with("prod", "sales", vec![external_table("prod", "sales", "raw", 100)])],
    );
    let target = catalog_with("dev", vec![]);
    let deep = render(&source, Some(&target), "dev", &cfg(1, true, true));
    assert_eq!(
        deep,
        vec![
            String::from("CREATE SCHEMA dev.sales"),
            String::from("CREATE TABLE dev.sales.raw DEEP CLONE prod.sales.raw"),
        ]
    );
    let skipped = render(&source, Some(&target), "dev", &cfg(1, false, true));
    assert_eq!(skipped, vec![String::from("CREATE SCHEMA dev.sales")]);
}

#[test]
fn staleness_threshold_millis_converts_hours() {
    assert_eq!(cfg(1, false, false).staleness_threshold_millis(), HOUR_MS);
    assert_eq!(cfg(24, false, false).staleness_threshold_millis(), 24 * HOUR_MS);
}
