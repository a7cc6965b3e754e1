use ucsync::diff::{DiffNode, Operation};
use ucsync::model::{Catalog, Schema, Table};

const HOUR_MS: i64 = 3_600_000;

fn table(catalog: &str, schema: &str, name: &str, updated_at: i64) -> Table {
    Table {
        name: String::from(name),
        schema_name: String::from(schema),
        catalog_name: String::from(catalog),
        table_type: String::from("MANAGED"),
        data_source_format: Some(String::from("DELTA")),
        updated_at,
        updated_by: String::from("someone"),
        properties: Vec::new(),
    }
}

fn schema_with(catalog: &str, name: &str, tables: Vec<Table>) -> Schema {
    Schema { name: String::from(name), catalog_name: String::from(catalog), tables }
}

fn catalog_with(name: &str, schemas: Vec<Schema>) -> Catalog {
    Catalog { name: String::from(name), schemas }
}

fn sample_tree(name: &str) -> Catalog {
    catalog_with(
        name,
        vec![
            schema_with(name, "sales", vec![table(name, "sales", "orders", 100)]),
            schema_with(name, "hr", vec![table(name, "hr", "people", 200)]),
        ],
    )
}

fn count_drop_nodes_with_children(node: &DiffNode) -> usize {
    let mut bad = 0;
    let is_drop = matches!(
        node.operation,
        Some(Operation::DropCatalog { .. })
            | Some(Operation::DropSchema { .. })
            | Some(Operation::DropTable { .. })
    );
    if is_drop && !node.children.is_empty() {
        bad += 1;
    }
    for child in &node.children {
        bad += count_drop_nodes_with_children(child);
    }
    bad
}

#[test]
fn diff_of_equal_trees_is_empty() {
    let a = sample_tree("prod");
    let b = sample_tree("prod");
    assert!(a.diff(Some(&b), HOUR_MS).is_none());

    let s = schema_with("prod", "sales", vec![table("prod", "sales", "orders", 100)]);
    let s2 = schema_with("prod", "sales", vec![table("prod", "sales", "orders", 100)]);
    assert!(s.diff(Some(&s2), HOUR_MS).is_none());

    let t = table("prod", "sales", "orders", 100);
    let t2 = table("prod", "sales", "orders", 100);
    assert!(t.diff(Some(&t2), HOUR_MS).is_none());
}

#[test]
fn diff_against_nothing_creates_everything() {
    let a = sample_tree("prod");
    let root = a.diff(None, HOUR_MS).expect("create-everything must yield a plan");
    assert!(matches!(root.operation, Some(Operation::CreateCatalog { .. })));
    assert_eq!(root.children.len(), 2);
    for (i, child) in root.children.iter().enumerate() {
        match &child.operation {
            Some(Operation::CreateSchema { name, .. }) => {
                assert_eq!(name.as_str(), if i == 0 { "sales" } else { "hr" });
            }
            other => panic!("expected a create-schema node, got {:?}", other.is_some()),
        }
        assert_eq!(child.children.len(), 1);
        match &child.children[0].operation {
            Some(Operation::CloneTable { target, .. }) => assert!(target.is_none()),
            _ => panic!("expected a clone node"),
        }
        assert!(child.children[0].children.is_empty());
    }
}

#[test]
fn drop_nodes_have_no_children() {
    // the target side has a whole populated schema and an extra table that
    // the source lacks: both must come back as childless drop leaves
    let source = catalog_with(
        "prod",
        vec![schema_with("prod", "sales", vec![table("prod", "sales", "orders", 100)])],
    );
    let target = catalog_with(
        "prod",
        vec![
            schema_with(
                "prod",
                "sales",
                vec![table("prod", "sales", "orders", 100), table("prod", "sales", "junk", 5)],
            ),
            schema_with(
                "prod",
                "scratch",
                vec![table("prod", "scratch", "a", 1), table("prod", "scratch", "b", 2)],
            ),
        ],
    );
    let plan = source.diff(Some(&target), HOUR_MS).expect("orphans must yield a plan");
    assert_eq!(count_drop_nodes_with_children(&plan), 0);

    let mut seen_drop_schema = false;
    let mut seen_drop_table = false;
    let mut stack = vec![&plan];
    while let Some(node) = stack.pop() {
        match &node.operation {
            Some(Operation::DropSchema { name, .. }) => {
                assert_eq!(name.as_str(), "scratch");
                assert!(node.children.is_empty());
                seen_drop_schema = true;
            }
            Some(Operation::DropTable { table }) => {
                assert_eq!(table.name, "junk");
                assert!(node.children.is_empty());
                seen_drop_table = true;
            }
            _ => {}
        }
        for child in &node.children {
            stack.push(child);
        }
    }
    assert!(seen_drop_schema && seen_drop_table);
}

#[test]
fn staleness_exactly_at_threshold_is_in_sync() {
    let source = table("prod", "sales", "orders", 2 * HOUR_MS);
    let target = table("dev", "sales", "orders", HOUR_MS);
    // difference is exactly one hour: no clone
    assert!(source.diff(Some(&target), HOUR_MS).is_none());
}

#[test]
fn staleness_one_second_above_threshold_clones() {
    let source = table("prod", "sales", "orders", 2 * HOUR_MS + 1000);
    let target = table("dev", "sales", "orders", HOUR_MS);
    let node = source.diff(Some(&target), HOUR_MS).expect("stale table must yield a clone");
    match &node.operation {
        Some(Operation::CloneTable { source: s, target: t }) => {
            assert_eq!(s.name, "orders");
            assert!(t.is_some());
        }
        _ => panic!("expected a clone node"),
    }
    assert!(node.children.is_empty());
}

#[test]
fn newer_target_is_not_cloned() {
    // the target being newer than the source yields a negative difference
    let source = table("prod", "sales", "orders", 0);
    let target = table("dev", "sales", "orders", 10 * HOUR_MS);
    assert!(source.diff(Some(&target), HOUR_MS).is_none());
}

#[test]
fn shared_table_within_threshold_prunes_whole_branch() {
    let source = catalog_with(
        "prod",
        vec![schema_with("prod", "sales", vec![table("prod", "sales", "orders", 1000)])],
    );
    let target = catalog_with(
        "dev",
        vec![schema_with("dev", "sales", vec![table("dev", "sales", "orders", 500)])],
    );
    assert!(source.diff(Some(&target), HOUR_MS).is_none());
}

#[test]
fn format_tree_lists_one_line_per_node() {
    let a = catalog_with(
        "prod",
        vec![schema_with("prod", "sales", vec![table("prod", "sales", "orders", 100)])],
    );
    let root = a.diff(None, 3_600_000).expect("create-everything must yield a plan");
    let rendered = root.format_tree();
    assert_eq!(
        rendered,
        "+- CreateCatalog prod\n\
         | +- CreateSchema prod.sales\n\
         | | +- CloneTable prod.sales.orders\n"
    );
}
