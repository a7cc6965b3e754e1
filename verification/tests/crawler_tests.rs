use ucsync::api::{
    next_page_action, process_job, Catalog as CatalogRec, FetchCatalog, FetchJob, FetchOutcome,
    FetchSchema, PageAction, Schema as SchemaRec, Table as TableRec,
};
use ucsync::crawler::Crawler;
use ucsync::model::{ModelError, UnityCatalogElement};

fn schema_rec(catalog: &str, name: &str) -> SchemaRec {
    SchemaRec { name: String::from(name), catalog_name: String::from(catalog) }
}

fn table_rec(catalog: &str, schema: &str, name: &str, updated_at: i64) -> TableRec {
    TableRec {
        name: String::from(name),
        catalog_name: String::from(catalog),
        schema_name: String::from(schema),
        table_type: String::from("MANAGED"),
        data_source_format: Some(String::from("DELTA")),
        updated_at,
        updated_by: String::from("someone"),
        properties: vec![(String::from("owner"), String::from("data-team"))],
    }
}

#[test]
fn job_endpoints_and_filters() {
    let all = FetchJob::FetchAllCatalogs(ucsync::api::FetchAllCatalogs {});
    assert_eq!(all.resource_path(), "api/2.1/unity-catalog/catalogs");
    assert!(all.filter_params().is_empty());

    let cat = FetchJob::FetchCatalog(FetchCatalog { catalog_name: String::from("prod") });
    assert_eq!(cat.resource_path(), "api/2.1/unity-catalog/schemas");
    let params = cat.filter_params();
    assert_eq!(params.len(), 1);
    assert_eq!(params[0].0, "catalog_name");
    assert_eq!(params[0].1, "prod");

    let sch = FetchJob::FetchSchema(FetchSchema {
        catalog_name: String::from("prod"),
        schema_name: String::from("sales"),
    });
    assert_eq!(sch.resource_path(), "api/2.1/unity-catalog/tables");
    let params = sch.filter_params();
    assert_eq!(params.len(), 2);
    assert_eq!(params[0].0, "catalog_name");
    assert_eq!(params[0].1, "prod");
    assert_eq!(params[1].0, "schema_name");
    assert_eq!(params[1].1, "sales");
}

#[test]
fn pagination_continues_on_token_and_stops_without() {
    match next_page_action(Some(String::from("abc"))) {
        PageAction::FetchNext(t) => assert_eq!(t, "abc"),
        PageAction::Complete => panic!("a token must mean another fetch"),
    }
    assert!(matches!(next_page_action(None), PageAction::Complete));
}

#[test]
fn catalog_job_expands_to_schema_jobs_and_schema_entities() {
    let job = FetchJob::FetchCatalog(FetchCatalog { catalog_name: String::from("prod") });
    let outcome = FetchOutcome::Schemas(vec![schema_rec("prod", "sales"), schema_rec("prod", "hr")]);
    let (jobs, elements) = process_job(&job, outcome);
    assert_eq!(jobs.len(), 2);
    match &jobs[0] {
        FetchJob::FetchSchema(j) => {
            assert_eq!(j.catalog_name, "prod");
            assert_eq!(j.schema_name, "sales");
        }
        _ => panic!("expected a table-discovery job"),
    }
    assert_eq!(elements.len(), 2);
    match &elements[0] {
        UnityCatalogElement::Schema(s) => {
            assert_eq!(s.name, "sales");
            assert_eq!(s.catalog_name, "prod");
            assert!(s.tables.is_empty());
        }
        _ => panic!("expected a schema entity"),
    }
}

#[test]
fn table_discovery_is_terminal() {
    let job = FetchJob::FetchSchema(FetchSchema {
        catalog_name: String::from("prod"),
        schema_name: String::from("sales"),
    });
    let outcome = FetchOutcome::Tables(vec![table_rec("prod", "sales", "orders", 42)]);
    let (jobs, elements) = process_job(&job, outcome);
    assert!(jobs.is_empty());
    assert_eq!(elements.len(), 1);
    match &elements[0] {
        UnityCatalogElement::Table(t) => {
            assert_eq!(t.name, "orders");
            assert_eq!(t.updated_at, 42);
            assert_eq!(t.properties.len(), 1);
        }
        _ => panic!("expected a table entity"),
    }
}

#[test]
fn failed_job_contributes_nothing() {
    let job = FetchJob::FetchCatalog(FetchCatalog { catalog_name: String::from("prod") });
    let (jobs, elements) = process_job(&job, FetchOutcome::Failed);
    assert!(jobs.is_empty());
    assert!(elements.is_empty());
}

#[test]
fn inventory_job_expands_to_catalog_jobs() {
    let job = FetchJob::FetchAllCatalogs(ucsync::api::FetchAllCatalogs {});
    let outcome = FetchOutcome::Catalogs(vec![
        CatalogRec { name: String::from("prod") },
        CatalogRec { name: String::from("dev") },
    ]);
    let (jobs, elements) = process_job(&job, outcome);
    assert_eq!(jobs.len(), 2);
    assert_eq!(elements.len(), 2);
    match &jobs[1] {
        FetchJob::FetchCatalog(j) => assert_eq!(j.catalog_name, "dev"),
        _ => panic!("expected a schema-discovery job"),
    }
}

#[test]
fn crawl_round_builds_the_forest_ancestor_first() {
    let seeds = vec![String::from("prod"), String::from("dev")];
    let mut crawler = Crawler::new(seeds, 10);
    assert!(!crawler.is_done());

    // schema discovery for prod
    let job = crawler.launch().expect("capacity and work are available");
    match &job {
        FetchJob::FetchCatalog(j) => assert_eq!(j.catalog_name, "prod"),
        _ => panic!("seed jobs discover schemas"),
    }
    let r = crawler.complete(0, FetchOutcome::Schemas(vec![schema_rec("prod", "sales")]));
    assert_eq!(r, Ok(()));

    // schema discovery for dev
    let job = crawler.launch().expect("second seed is queued");
    match &job {
        FetchJob::FetchCatalog(j) => assert_eq!(j.catalog_name, "dev"),
        _ => panic!("seed jobs discover schemas"),
    }
    let r = crawler.complete(0, FetchOutcome::Schemas(vec![]));
    assert_eq!(r, Ok(()));

    // table discovery for prod.sales
    let job = crawler.launch().expect("the discovered schema queued a job");
    match &job {
        FetchJob::FetchSchema(j) => {
            assert_eq!(j.catalog_name, "prod");
            assert_eq!(j.schema_name, "sales");
        }
        _ => panic!("expected table discovery"),
    }
    let r = crawler.complete(
        0,
        FetchOutcome::Tables(vec![table_rec("prod", "sales", "orders", 7)]),
    );
    assert_eq!(r, Ok(()));
    assert!(crawler.is_done());

    let cat = crawler.forest.get_catalog(&String::from("prod")).expect("prod was crawled");
    assert_eq!(cat.schemas.len(), 1);
    assert_eq!(cat.schemas[0].tables.len(), 1);
    assert_eq!(cat.schemas[0].tables[0].name, "orders");
    let dev = crawler.forest.get_catalog(&String::from("dev")).expect("dev was crawled");
    assert!(dev.schemas.is_empty());
}

#[test]
fn completion_with_orphan_record_reports_the_broken_ordering() {
    let mut crawler = Crawler::new(vec![String::from("prod")], 4);
    let _job = crawler.launch().expect("one job is queued");
    // the service answers with a schema of a catalog that was never inserted
    let r = crawler.complete(0, FetchOutcome::Schemas(vec![schema_rec("elsewhere", "sales")]));
    assert_eq!(r, Err(ModelError::MissingCatalog));
}

#[test]
fn launch_respects_the_concurrency_cap() {
    let seeds = vec![String::from("a"), String::from("b"), String::from("c")];
    let mut crawler = Crawler::new(seeds, 2);
    assert!(crawler.launch().is_some());
    assert!(crawler.launch().is_some());
    // the cap of two in-flight fetches is reached
    assert!(crawler.launch().is_none());
    assert_eq!(crawler.complete(0, FetchOutcome::Failed), Ok(()));
    assert!(crawler.launch().is_some());
}

#[test]
fn duplicate_copies_a_job() {
    let job = FetchJob::FetchSchema(FetchSchema {
        catalog_name: String::from("prod"),
        schema_name: String::from("sales"),
    });
    match job.duplicate() {
        FetchJob::FetchSchema(j) => {
            assert_eq!(j.catalog_name, "prod");
            assert_eq!(j.schema_name, "sales");
        }
        _ => panic!("the copy must keep the variant"),
    }
}
