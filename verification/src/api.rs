//! The wire-level records of the remote metadata service, the crawl jobs
//! that discover the catalog hierarchy, and the pure expansion of one
//! completed fetch into new jobs and new tree entities. The HTTP transport
//! itself lives outside the library; it hands these plain records in.

use vstd::prelude::*;
use crate::model::{CatalogV, SchemaV, TableV, UnityCatalogElement, UnityCatalogElementV};

verus! {

/// One catalog record, as the service lists it.
pub struct Catalog {
    pub name: String,
}

/// One schema record: its name and its owning catalog's name.
pub struct Schema {
    pub name: String,
    pub catalog_name: String,
}

/// One table record; `updated_at` is a UTC epoch-millisecond timestamp.
pub struct Table {
    pub name: String,
    pub catalog_name: String,
    pub schema_name: String,
    pub table_type: String,
    pub data_source_format: Option<String>,
    pub updated_at: i64,
    pub updated_by: String,
    pub properties: Vec<(String, String)>,
}

pub struct CatalogRecV {
    pub name: Seq<char>,
}

pub struct SchemaRecV {
    pub name: Seq<char>,
    pub catalog_name: Seq<char>,
}

pub struct TableRecV {
    pub name: Seq<char>,
    pub catalog_name: Seq<char>,
    pub schema_name: Seq<char>,
    pub table_type: Seq<char>,
    pub data_source_format: Option<Seq<char>>,
    pub updated_at: int,
    pub updated_by: Seq<char>,
    pub properties: Seq<(Seq<char>, Seq<char>)>,
}

impl View for Catalog {
    type V = CatalogRecV;

    open spec fn view(&self) -> CatalogRecV {
        CatalogRecV { name: self.name@ }
    }
}

impl View for Schema {
    type V = SchemaRecV;

    open spec fn view(&self) -> SchemaRecV {
        SchemaRecV { name: self.name@, catalog_name: self.catalog_name@ }
    }
}

impl View for Table {
    type V = TableRecV;

    open spec fn view(&self) -> TableRecV {
        TableRecV {
            name: self.name@,
            catalog_name: self.catalog_name@,
            schema_name: self.schema_name@,
            table_type: self.table_type@,
            data_source_format: match self.data_source_format {
                Option::Some(f) => Option::Some(f@),
                Option::None => Option::None,
            },
            updated_at: self.updated_at as int,
            updated_by: self.updated_by@,
            properties: Seq::new(
                self.properties@.len(),
                |i: int| (self.properties@[i].0@, self.properties@[i].1@),
            ),
        }
    }
}

/// The tree entity a table record stands for.
pub open spec fn table_of_record(t: TableRecV) -> TableV {
    TableV {
        name: t.name,
        schema_name: t.schema_name,
        catalog_name: t.catalog_name,
        table_type: t.table_type,
        data_source_format: t.data_source_format,
        updated_at: t.updated_at,
        updated_by: t.updated_by,
        properties: t.properties,
    }
}

// ---------------------------------------------------------------------------
// Fetch jobs
// ---------------------------------------------------------------------------

/// Discover the full remote catalog inventory.
pub struct FetchAllCatalogs {}

/// Discover the schemas of one catalog.
pub struct FetchCatalog {
    pub catalog_name: String,
}

/// Discover the tables of one schema; table discovery is terminal.
pub struct FetchSchema {
    pub catalog_name: String,
    pub schema_name: String,
}

/// One unit of crawl work, targeting one resource-hierarchy node's children.
pub enum FetchJob {
    FetchAllCatalogs(FetchAllCatalogs),
    FetchCatalog(FetchCatalog),
    FetchSchema(FetchSchema),
}

pub enum FetchJobV {
    FetchAllCatalogs,
    FetchCatalog { catalog_name: Seq<char> },
    FetchSchema { catalog_name: Seq<char>, schema_name: Seq<char> },
}

impl View for FetchJob {
    type V = FetchJobV;

    open spec fn view(&self) -> FetchJobV {
        match self {
            FetchJob::FetchAllCatalogs(j) => FetchJobV::FetchAllCatalogs,
            FetchJob::FetchCatalog(j) => FetchJobV::FetchCatalog { catalog_name: j.catalog_name@ },
            FetchJob::FetchSchema(j) => FetchJobV::FetchSchema {
                catalog_name: j.catalog_name@,
                schema_name: j.schema_name@,
            },
        }
    }
}

impl FetchJob {
    /// An owned copy of the job, so that one can be handed to the transport
    /// while another is kept in the in-flight list.
    pub fn duplicate(&self) -> (r: FetchJob)
        ensures
            r@ == self@,
    {
        match self {
            FetchJob::FetchAllCatalogs(_) => FetchJob::FetchAllCatalogs(FetchAllCatalogs {}),
            FetchJob::FetchCatalog(j) => FetchJob::FetchCatalog(
                FetchCatalog { catalog_name: j.catalog_name.clone() },
            ),
            FetchJob::FetchSchema(j) => FetchJob::FetchSchema(
                FetchSchema {
                    catalog_name: j.catalog_name.clone(),
                    schema_name: j.schema_name.clone(),
                },
            ),
        }
    }

    /// The resource path of the endpoint this job fetches from.
    pub fn resource_path(&self) -> (r: &'static str)
        ensures
            r@ == match self@ {
                FetchJobV::FetchAllCatalogs => "api/2.1/unity-catalog/catalogs"@,
                FetchJobV::FetchCatalog { .. } => "api/2.1/unity-catalog/schemas"@,
                FetchJobV::FetchSchema { .. } => "api/2.1/unity-catalog/tables"@,
            },
    {
        match self {
            FetchJob::FetchAllCatalogs(_) => "api/2.1/unity-catalog/catalogs",
            FetchJob::FetchCatalog(_) => "api/2.1/unity-catalog/schemas",
            FetchJob::FetchSchema(_) => "api/2.1/unity-catalog/tables",
        }
    }

    /// The filter parameters of the fetch: nothing for the inventory, the
    /// catalog name for schema listing, both names for table listing.
    pub fn filter_params(&self) -> (r: Vec<(String, String)>)
        ensures
            match self@ {
                FetchJobV::FetchAllCatalogs => r@.len() == 0,
                FetchJobV::FetchCatalog { catalog_name } => r@.len() == 1 && r@[0].0@
                    == "catalog_name"@ && r@[0].1@ == catalog_name,
                FetchJobV::FetchSchema { catalog_name, schema_name } => r@.len() == 2 && r@[0].0@
                    == "catalog_name"@ && r@[0].1@ == catalog_name && r@[1].0@ == "schema_name"@
                    && r@[1].1@ == schema_name,
            },
    {
        let mut params: Vec<(String, String)> = Vec::new();
        match self {
            FetchJob::FetchAllCatalogs(_) => {},
            FetchJob::FetchCatalog(j) => {
                params.push((String::from_str("catalog_name"), j.catalog_name.clone()));
            },
            FetchJob::FetchSchema(j) => {
                params.push((String::from_str("catalog_name"), j.catalog_name.clone()));
                params.push((String::from_str("schema_name"), j.schema_name.clone()));
            },
        }
        params
    }
}

// ---------------------------------------------------------------------------
// Pagination
// ---------------------------------------------------------------------------

/// What to do after one page of a paginated fetch: the presence of a
/// continuation token means "fetch again with this token appended", its
/// absence means pagination is complete for this query.
pub enum PageAction {
    FetchNext(String),
    Complete,
}

pub fn next_page_action(next_page_token: Option<String>) -> (r: PageAction)
    ensures
        match next_page_token {
            Option::Some(t) => r matches PageAction::FetchNext(u) && u@ == t@,
            Option::None => r is Complete,
        },
{
    match next_page_token {
        Some(t) => PageAction::FetchNext(t),
        None => PageAction::Complete,
    }
}

// ---------------------------------------------------------------------------
// Job expansion
// ---------------------------------------------------------------------------

/// What one fetch came back with; `Failed` stands for a job whose retries
/// were exhausted, which contributes nothing (best-effort crawl).
pub enum FetchOutcome {
    Failed,
    Catalogs(Vec<Catalog>),
    Schemas(Vec<Schema>),
    Tables(Vec<Table>),
}

pub enum FetchOutcomeV {
    Failed,
    Catalogs(Seq<CatalogRecV>),
    Schemas(Seq<SchemaRecV>),
    Tables(Seq<TableRecV>),
}

impl View for FetchOutcome {
    type V = FetchOutcomeV;

    open spec fn view(&self) -> FetchOutcomeV {
        match self {
            FetchOutcome::Failed => FetchOutcomeV::Failed,
            FetchOutcome::Catalogs(cs) => FetchOutcomeV::Catalogs(
                Seq::new(cs@.len(), |i: int| cs@[i]@),
            ),
            FetchOutcome::Schemas(ss) => FetchOutcomeV::Schemas(
                Seq::new(ss@.len(), |i: int| ss@[i]@),
            ),
            FetchOutcome::Tables(ts) => FetchOutcomeV::Tables(
                Seq::new(ts@.len(), |i: int| ts@[i]@),
            ),
        }
    }
}

/// Whether an outcome is of the kind the job's fetch returns.
pub open spec fn outcome_matches(job: FetchJobV, outcome: FetchOutcomeV) -> bool {
    match outcome {
        FetchOutcomeV::Failed => true,
        FetchOutcomeV::Catalogs(_) => job is FetchAllCatalogs,
        FetchOutcomeV::Schemas(_) => job is FetchCatalog,
        FetchOutcomeV::Tables(_) => job is FetchSchema,
    }
}

/// The expansion of one completed job: which jobs it enqueues and which
/// entities it inserts, in record order. A catalog's children become
/// follow-up jobs plus entity insertions; table discovery is terminal; a
/// failed job contributes nothing.
pub open spec fn spec_process_job(outcome: FetchOutcomeV) -> (Seq<FetchJobV>, Seq<
    UnityCatalogElementV,
>) {
    match outcome {
        FetchOutcomeV::Failed => (Seq::empty(), Seq::empty()),
        FetchOutcomeV::Catalogs(cs) => (
            Seq::new(cs.len(), |i: int| FetchJobV::FetchCatalog { catalog_name: cs[i].name }),
            Seq::new(
                cs.len(),
                |i: int|
                    UnityCatalogElementV::Catalog(
                        CatalogV { name: cs[i].name, schemas: Seq::empty() },
                    ),
            ),
        ),
        FetchOutcomeV::Schemas(ss) => (
            Seq::new(
                ss.len(),
                |i: int|
                    FetchJobV::FetchSchema {
                        catalog_name: ss[i].catalog_name,
                        schema_name: ss[i].name,
                    },
            ),
            Seq::new(
                ss.len(),
                |i: int|
                    UnityCatalogElementV::Schema(
                        SchemaV {
                            name: ss[i].name,
                            catalog_name: ss[i].catalog_name,
                            tables: Seq::empty(),
                        },
                    ),
            ),
        ),
        FetchOutcomeV::Tables(ts) => (
            Seq::empty(),
            Seq::new(
                ts.len(),
                |i: int| UnityCatalogElementV::Table(table_of_record(ts[i])),
            ),
        ),
    }
}

pub open spec fn jobs_vec_view(v: Vec<FetchJob>) -> Seq<FetchJobV> {
    Seq::new(v@.len(), |i: int| v@[i]@)
}

pub open spec fn elements_vec_view(v: Vec<UnityCatalogElement>) -> Seq<UnityCatalogElementV> {
    Seq::new(v@.len(), |i: int| v@[i]@)
}

/// Expands one completed job into `(new jobs, new entities)`, exactly as
/// `spec_process_job` describes. Pure: the fetch itself happened elsewhere.
pub fn process_job(job: &FetchJob, outcome: FetchOutcome) -> (r: (Vec<FetchJob>, Vec<
    UnityCatalogElement,
>))
    requires
        outcome_matches(job@, outcome@),
    ensures
        (jobs_vec_view(r.0), elements_vec_view(r.1)) == spec_process_job(outcome@),
{
    let mut new_jobs: Vec<FetchJob> = Vec::new();
    let mut new_elements: Vec<UnityCatalogElement> = Vec::new();
    match outcome {
        FetchOutcome::Failed => {
            proof {
                assert(jobs_vec_view(new_jobs) =~= spec_process_job(FetchOutcomeV::Failed).0);
                assert(elements_vec_view(new_elements) =~= spec_process_job(
                    FetchOutcomeV::Failed,
                ).1);
            }
        },
        FetchOutcome::Catalogs(children) => {
            let ghost cs = Seq::new(children@.len(), |i: int| children@[i]@);
            let n = children.len();
            let mut i: usize = 0;
            while i < n
                invariant
                    n == children.len(),
                    cs == Seq::new(children@.len(), |k: int| children@[k]@),
                    0 <= i <= n,
                    new_jobs@.len() == i,
                    new_elements@.len() == i,
                    forall|k: int|
                        0 <= k < i ==> (#[trigger] new_jobs@[k])@ == (FetchJobV::FetchCatalog {
                            catalog_name: cs[k].name,
                        }),
                    forall|k: int|
                        0 <= k < i ==> (#[trigger] new_elements@[k])@
                            == UnityCatalogElementV::Catalog(
                            CatalogV { name: cs[k].name, schemas: Seq::empty() },
                        ),
                decreases n - i,
            {
                assert(cs[i as int] == children@[i as int]@);
                new_jobs.push(
                    FetchJob::FetchCatalog(FetchCatalog { catalog_name: children[i].name.clone() }),
                );
                let element = crate::model::Catalog { name: children[i].name.clone(), schemas: Vec::new() };
                proof {
                    assert(element@.schemas =~= Seq::<SchemaV>::empty());
                }
                new_elements.push(UnityCatalogElement::Catalog(element));
                i = i + 1;
            }
            proof {
                assert(jobs_vec_view(new_jobs) =~= spec_process_job(FetchOutcomeV::Catalogs(cs)).0);
                assert(elements_vec_view(new_elements) =~= spec_process_job(
                    FetchOutcomeV::Catalogs(cs),
                ).1);
            }
        },
        FetchOutcome::Schemas(children) => {
            let ghost ss = Seq::new(children@.len(), |i: int| children@[i]@);
            let n = children.len();
            let mut i: usize = 0;
            while i < n
                invariant
                    n == children.len(),
                    ss == Seq::new(children@.len(), |k: int| children@[k]@),
                    0 <= i <= n,
                    new_jobs@.len() == i,
                    new_elements@.len() == i,
                    forall|k: int|
                        0 <= k < i ==> (#[trigger] new_jobs@[k])@ == (FetchJobV::FetchSchema {
                            catalog_name: ss[k].catalog_name,
                            schema_name: ss[k].name,
                        }),
                    forall|k: int|
                        0 <= k < i ==> (#[trigger] new_elements@[k])@
                            == UnityCatalogElementV::Schema(
                            SchemaV {
                                name: ss[k].name,
                                catalog_name: ss[k].catalog_name,
                                tables: Seq::empty(),
                            },
                        ),
                decreases n - i,
            {
                assert(ss[i as int] == children@[i as int]@);
                new_jobs.push(
                    FetchJob::FetchSchema(
                        FetchSchema {
                            catalog_name: children[i].catalog_name.clone(),
                            schema_name: children[i].name.clone(),
                        },
                    ),
                );
                let element = crate::model::Schema {
                    name: children[i].name.clone(),
                    catalog_name: children[i].catalog_name.clone(),
                    tables: Vec::new(),
                };
                proof {
                    assert(element@.tables =~= Seq::<TableV>::empty());
                }
                new_elements.push(UnityCatalogElement::Schema(element));
                i = i + 1;
            }
            proof {
                assert(jobs_vec_view(new_jobs) =~= spec_process_job(FetchOutcomeV::Schemas(ss)).0);
                assert(elements_vec_view(new_elements) =~= spec_process_job(
                    FetchOutcomeV::Schemas(ss),
                ).1);
            }
        },
        FetchOutcome::Tables(mut children) => {
            let ghost ts = Seq::new(children@.len(), |i: int| children@[i]@);
            let n = children.len();
            let mut i: usize = 0;
            while i < n
                invariant
                    n == ts.len(),
                    n - i == children.len(),
                    forall|k: int| 0 <= k < children@.len() ==> children@[k]@ == ts[k + i],
                    0 <= i <= n,
                    new_jobs@.len() == 0,
                    new_elements@.len() == i,
                    forall|k: int|
                        0 <= k < i ==> (#[trigger] new_elements@[k])@
                            == UnityCatalogElementV::Table(table_of_record(ts[k])),
                decreases n - i,
            {
                let rec = children.remove(0);
                proof {
                    assert(rec@ == ts[i as int]);
                }
                let element = crate::model::Table {
                    name: rec.name,
                    schema_name: rec.schema_name,
                    catalog_name: rec.catalog_name,
                    table_type: rec.table_type,
                    data_source_format: rec.data_source_format,
                    updated_at: rec.updated_at,
                    updated_by: rec.updated_by,
                    properties: rec.properties,
                };
                proof {
                    assert(element@.properties =~= table_of_record(ts[i as int]).properties);
                    assert(element@ == table_of_record(ts[i as int]));
                }
                new_elements.push(UnityCatalogElement::Table(element));
                i = i + 1;
            }
            proof {
                assert(jobs_vec_view(new_jobs) =~= spec_process_job(FetchOutcomeV::Tables(ts)).0);
                assert(elements_vec_view(new_elements) =~= spec_process_job(
                    FetchOutcomeV::Tables(ts),
                ).1);
            }
        },
    }
    (new_jobs, new_elements)
}

} // verus!
