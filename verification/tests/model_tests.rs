use ucsync::model::{
    Catalog, ModelError, Object, Schema, Table, UnityCatalog, UnityCatalogElement,
};

fn table(catalog: &str, schema: &str, name: &str, updated_at: i64) -> Table {
    Table {
        name: String::from(name),
        schema_name: String::from(schema),
        catalog_name: String::from(catalog),
        table_type: String::from("MANAGED"),
        data_source_format: Some(String::from("DELTA")),
        updated_at,
        updated_by: String::from("someone"),
        properties: Vec::new(),
    }
}

fn schema(catalog: &str, name: &str) -> Schema {
    Schema { name: String::from(name), catalog_name: String::from(catalog), tables: Vec::new() }
}

fn catalog(name: &str) -> Catalog {
    Catalog { name: String::from(name), schemas: Vec::new() }
}

#[test]
fn upsert_same_table_twice_keeps_one_entry_with_later_fields() {
    let mut forest = UnityCatalog::new();
    assert!(forest.insert_assume_ordered(UnityCatalogElement::Catalog(catalog("prod"))).is_ok());
    assert!(forest
        .insert_assume_ordered(UnityCatalogElement::Schema(schema("prod", "sales")))
        .is_ok());
    assert!(forest
        .insert_assume_ordered(UnityCatalogElement::Table(table("prod", "sales", "orders", 100)))
        .is_ok());
    assert!(forest
        .insert_assume_ordered(UnityCatalogElement::Table(table("prod", "sales", "orders", 999)))
        .is_ok());

    let cat = forest.get_catalog(&String::from("prod")).expect("catalog must exist");
    assert_eq!(cat.schemas.len(), 1);
    assert_eq!(cat.schemas[0].tables.len(), 1);
    assert_eq!(cat.schemas[0].tables[0].name, "orders");
    assert_eq!(cat.schemas[0].tables[0].updated_at, 999);
}

#[test]
fn schema_before_catalog_fails_fatally_and_after_succeeds() {
    let mut forest = UnityCatalog::new();
    let early = forest.insert_assume_ordered(UnityCatalogElement::Schema(schema("prod", "sales")));
    assert_eq!(early, Err(ModelError::MissingCatalog));

    assert!(forest.insert_assume_ordered(UnityCatalogElement::Catalog(catalog("prod"))).is_ok());
    let late = forest.insert_assume_ordered(UnityCatalogElement::Schema(schema("prod", "sales")));
    assert_eq!(late, Ok(()));
}

#[test]
fn table_before_schema_fails_fatally() {
    let mut forest = UnityCatalog::new();
    assert!(forest.insert_assume_ordered(UnityCatalogElement::Catalog(catalog("prod"))).is_ok());
    let r = forest
        .insert_assume_ordered(UnityCatalogElement::Table(table("prod", "sales", "orders", 1)));
    assert_eq!(r, Err(ModelError::MissingSchema));

    let r2 = forest
        .insert_assume_ordered(UnityCatalogElement::Table(table("ghost", "sales", "orders", 1)));
    assert_eq!(r2, Err(ModelError::MissingCatalog));
}

#[test]
fn get_catalog_finds_present_and_rejects_absent() {
    let mut forest = UnityCatalog::new();
    assert!(forest.insert_assume_ordered(UnityCatalogElement::Catalog(catalog("dev"))).is_ok());
    assert!(forest.get_catalog(&String::from("dev")).is_some());
    assert!(forest.get_catalog(&String::from("prod")).is_none());
}

#[test]
fn reinserting_catalog_overwrites_prior_value() {
    let mut forest = UnityCatalog::new();
    assert!(forest.insert_assume_ordered(UnityCatalogElement::Catalog(catalog("prod"))).is_ok());
    assert!(forest
        .insert_assume_ordered(UnityCatalogElement::Schema(schema("prod", "sales")))
        .is_ok());
    assert!(forest.insert_assume_ordered(UnityCatalogElement::Catalog(catalog("prod"))).is_ok());
    let cat = forest.get_catalog(&String::from("prod")).expect("catalog must exist");
    assert_eq!(cat.schemas.len(), 0);
}

#[test]
fn to_path_renders_dotted_paths() {
    let c = catalog("prod");
    let s = schema("prod", "sales");
    let t = table("prod", "sales", "orders", 7);
    assert_eq!(Object::Catalog(&c).to_path(), "prod");
    assert_eq!(Object::Schema(&s).to_path(), "prod.sales");
    assert_eq!(Object::Table(&t).to_path(), "prod.sales.orders");
}

#[test]
fn iter_tables_yields_every_table_in_schema_order() {
    let mut forest = UnityCatalog::new();
    assert!(forest.insert_assume_ordered(UnityCatalogElement::Catalog(catalog("prod"))).is_ok());
    assert!(forest
        .insert_assume_ordered(UnityCatalogElement::Schema(schema("prod", "a")))
        .is_ok());
    assert!(forest
        .insert_assume_ordered(UnityCatalogElement::Schema(schema("prod", "b")))
        .is_ok());
    assert!(forest
        .insert_assume_ordered(UnityCatalogElement::Table(table("prod", "a", "t1", 1)))
        .is_ok());
    assert!(forest
        .insert_assume_ordered(UnityCatalogElement::Table(table("prod", "b", "t2", 2)))
        .is_ok());
    assert!(forest
        .insert_assume_ordered(UnityCatalogElement::Table(table("prod", "b", "t3", 3)))
        .is_ok());
    let cat = forest.get_catalog(&String::from("prod")).expect("catalog must exist");
    let all = cat.iter_tables();
    let names: Vec<&str> = all.iter().map(|t| t.name.as_str()).collect();
    assert_eq!(names, vec!["t1", "t2", "t3"]);
}
