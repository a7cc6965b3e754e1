//! In-memory catalog tree model: catalogs own schemas, schemas own tables,
//! each level keyed by name with names unique among siblings. Insertion is
//! ordered: an entity may only be inserted once its ancestors exist.

use vstd::prelude::*;

verus! {

/// A table entry, the leaf of the catalog hierarchy. `catalog_name` and
/// `schema_name` are denormalized copies of the ancestors' keys, used to
/// render dotted paths and to locate the owning schema on insertion.
/// `updated_at` is a UTC epoch-millisecond timestamp.
pub struct Table {
    pub name: String,
    pub schema_name: String,
    pub catalog_name: String,
    pub table_type: String,
    pub data_source_format: Option<String>,
    pub updated_at: i64,
    pub updated_by: String,
    pub properties: Vec<(String, String)>,
}

/// A schema: a named collection of tables. `catalog_name` is a back-reference
/// to the owning catalog's key, used only for lookup and path rendering.
pub struct Schema {
    pub name: String,
    pub catalog_name: String,
    pub tables: Vec<Table>,
}

/// A catalog: a named collection of schemas.
pub struct Catalog {
    pub name: String,
    pub schemas: Vec<Schema>,
}

/// One entity to be inserted into the forest.
pub enum UnityCatalogElement {
    Catalog(Catalog),
    Schema(Schema),
    Table(Table),
}

/// The top-level container: a forest of catalogs keyed by name.
pub struct UnityCatalog {
    pub catalogs: Vec<Catalog>,
}

/// Why an insertion was refused: the required ancestor is absent, which means
/// the crawl-ordering guarantee was broken. Callers must treat this as fatal.
#[derive(Debug, Clone, Copy, PartialEq, Eq, Structural)]
pub enum ModelError {
    MissingCatalog,
    MissingSchema,
}

// ---------------------------------------------------------------------------
// Mathematical views
// ---------------------------------------------------------------------------

pub struct TableV {
    pub name: Seq<char>,
    pub schema_name: Seq<char>,
    pub catalog_name: Seq<char>,
    pub table_type: Seq<char>,
    pub data_source_format: Option<Seq<char>>,
    pub updated_at: int,
    pub updated_by: Seq<char>,
    pub properties: Seq<(Seq<char>, Seq<char>)>,
}

pub struct SchemaV {
    pub name: Seq<char>,
    pub catalog_name: Seq<char>,
    pub tables: Seq<TableV>,
}

pub struct CatalogV {
    pub name: Seq<char>,
    pub schemas: Seq<SchemaV>,
}

pub enum UnityCatalogElementV {
    Catalog(CatalogV),
    Schema(SchemaV),
    Table(TableV),
}

impl View for Table {
    type V = TableV;

    open spec fn view(&self) -> TableV {
        TableV {
            name: self.name@,
            schema_name: self.schema_name@,
            catalog_name: self.catalog_name@,
            table_type: self.table_type@,
            data_source_format: match self.data_source_format {
                Option::Some(f) => Option::Some(f@),
                Option::None => Option::None,
            },
            updated_at: self.updated_at as int,
            updated_by: self.updated_by@,
            properties: Seq::new(
                self.properties@.len(),
                |i: int| (self.properties@[i].0@, self.properties@[i].1@),
            ),
        }
    }
}

impl View for Schema {
    type V = SchemaV;

    open spec fn view(&self) -> SchemaV {
        SchemaV {
            name: self.name@,
            catalog_name: self.catalog_name@,
            tables: Seq::new(self.tables@.len(), |i: int| self.tables@[i]@),
        }
    }
}

impl View for Catalog {
    type V = CatalogV;

    open spec fn view(&self) -> CatalogV {
        CatalogV {
            name: self.name@,
            schemas: Seq::new(self.schemas@.len(), |i: int| self.schemas@[i]@),
        }
    }
}

impl View for UnityCatalogElement {
    type V = UnityCatalogElementV;

    open spec fn view(&self) -> UnityCatalogElementV {
        match self {
            UnityCatalogElement::Catalog(c) => UnityCatalogElementV::Catalog(c@),
            UnityCatalogElement::Schema(s) => UnityCatalogElementV::Schema(s@),
            UnityCatalogElement::Table(t) => UnityCatalogElementV::Table(t@),
        }
    }
}

impl View for UnityCatalog {
    type V = Seq<CatalogV>;

    open spec fn view(&self) -> Seq<CatalogV> {
        Seq::new(self.catalogs@.len(), |i: int| self.catalogs@[i]@)
    }
}

// ---------------------------------------------------------------------------
// Keyed lookup over sibling sequences
// ---------------------------------------------------------------------------

pub open spec fn has_table(ts: Seq<TableV>, name: Seq<char>) -> bool {
    exists|i: int| 0 <= i < ts.len() && (#[trigger] ts[i]).name == name
}

pub open spec fn table_index(ts: Seq<TableV>, name: Seq<char>) -> int {
    choose|i: int| 0 <= i < ts.len() && (#[trigger] ts[i]).name == name
}

pub open spec fn table_at(ts: Seq<TableV>, name: Seq<char>) -> TableV {
    ts[table_index(ts, name)]
}

pub open spec fn has_schema(ss: Seq<SchemaV>, name: Seq<char>) -> bool {
    exists|i: int| 0 <= i < ss.len() && (#[trigger] ss[i]).name == name
}

pub open spec fn schema_index(ss: Seq<SchemaV>, name: Seq<char>) -> int {
    choose|i: int| 0 <= i < ss.len() && (#[trigger] ss[i]).name == name
}

pub open spec fn schema_at(ss: Seq<SchemaV>, name: Seq<char>) -> SchemaV {
    ss[schema_index(ss, name)]
}

pub open spec fn has_catalog(cs: Seq<CatalogV>, name: Seq<char>) -> bool {
    exists|i: int| 0 <= i < cs.len() && (#[trigger] cs[i]).name == name
}

pub open spec fn catalog_index(cs: Seq<CatalogV>, name: Seq<char>) -> int {
    choose|i: int| 0 <= i < cs.len() && (#[trigger] cs[i]).name == name
}

pub open spec fn catalog_at(cs: Seq<CatalogV>, name: Seq<char>) -> CatalogV {
    cs[catalog_index(cs, name)]
}

// ---------------------------------------------------------------------------
// Well-formedness: names unique among siblings, back-references consistent
// ---------------------------------------------------------------------------

pub open spec fn table_names_unique(ts: Seq<TableV>) -> bool {
    forall|i: int, j: int|
        0 <= i < j < ts.len() ==> (#[trigger] ts[i]).name != (#[trigger] ts[j]).name
}

pub open spec fn schema_names_unique(ss: Seq<SchemaV>) -> bool {
    forall|i: int, j: int|
        0 <= i < j < ss.len() ==> (#[trigger] ss[i]).name != (#[trigger] ss[j]).name
}

pub open spec fn catalog_names_unique(cs: Seq<CatalogV>) -> bool {
    forall|i: int, j: int|
        0 <= i < j < cs.len() ==> (#[trigger] cs[i]).name != (#[trigger] cs[j]).name
}

pub open spec fn schema_wf(s: SchemaV) -> bool {
    &&& table_names_unique(s.tables)
    &&& forall|i: int|
        0 <= i < s.tables.len() ==> (#[trigger] s.tables[i]).catalog_name == s.catalog_name
            && s.tables[i].schema_name == s.name
}

pub open spec fn catalog_wf(c: CatalogV) -> bool {
    &&& schema_names_unique(c.schemas)
    &&& forall|i: int|
        0 <= i < c.schemas.len() ==> schema_wf(#[trigger] c.schemas[i]) && c.schemas[i].catalog_name
            == c.name
}

pub open spec fn forest_wf(cs: Seq<CatalogV>) -> bool {
    &&& catalog_names_unique(cs)
    &&& forall|i: int| 0 <= i < cs.len() ==> catalog_wf(#[trigger] cs[i])
}

pub open spec fn element_wf(e: UnityCatalogElementV) -> bool {
    match e {
        UnityCatalogElementV::Catalog(c) => catalog_wf(c),
        UnityCatalogElementV::Schema(s) => schema_wf(s),
        UnityCatalogElementV::Table(t) => true,
    }
}

// ---------------------------------------------------------------------------
// Insertion, specified: upsert semantics at each level
// ---------------------------------------------------------------------------

/// Keyed upsert into a sibling sequence: replace the entry with the same name
/// if one exists, append otherwise.
pub open spec fn tables_upserted(ts: Seq<TableV>, t: TableV) -> Seq<TableV> {
    if has_table(ts, t.name) {
        ts.update(table_index(ts, t.name), t)
    } else {
        ts.push(t)
    }
}

pub open spec fn schemas_upserted(ss: Seq<SchemaV>, s: SchemaV) -> Seq<SchemaV> {
    if has_schema(ss, s.name) {
        ss.update(schema_index(ss, s.name), s)
    } else {
        ss.push(s)
    }
}

pub open spec fn catalogs_upserted(cs: Seq<CatalogV>, c: CatalogV) -> Seq<CatalogV> {
    if has_catalog(cs, c.name) {
        cs.update(catalog_index(cs, c.name), c)
    } else {
        cs.push(c)
    }
}

/// The forest after a schema is upserted under its owning catalog
/// (meaningful only when that catalog exists).
pub open spec fn forest_with_schema(cs: Seq<CatalogV>, s: SchemaV) -> Seq<CatalogV> {
    let i = catalog_index(cs, s.catalog_name);
    let c = cs[i];
    cs.update(i, CatalogV { schemas: schemas_upserted(c.schemas, s), ..c })
}

/// The forest after a table is upserted under its owning schema
/// (meaningful only when that catalog and schema exist).
pub open spec fn forest_with_table(cs: Seq<CatalogV>, t: TableV) -> Seq<CatalogV> {
    let i = catalog_index(cs, t.catalog_name);
    let c = cs[i];
    let j = schema_index(c.schemas, t.schema_name);
    let s = c.schemas[j];
    cs.update(
        i,
        CatalogV {
            schemas: c.schemas.update(j, SchemaV { tables: tables_upserted(s.tables, t), ..s }),
            ..c
        },
    )
}

/// The forest after one element is inserted, provided its ancestors exist.
pub open spec fn forest_after_insert(cs: Seq<CatalogV>, e: UnityCatalogElementV) -> Seq<CatalogV> {
    match e {
        UnityCatalogElementV::Catalog(c) => catalogs_upserted(cs, c),
        UnityCatalogElementV::Schema(s) => forest_with_schema(cs, s),
        UnityCatalogElementV::Table(t) => forest_with_table(cs, t),
    }
}

/// Whether the element's ancestors are present, so that insertion can succeed.
pub open spec fn insert_ancestors_present(cs: Seq<CatalogV>, e: UnityCatalogElementV) -> bool {
    match e {
        UnityCatalogElementV::Catalog(c) => true,
        UnityCatalogElementV::Schema(s) => has_catalog(cs, s.catalog_name),
        UnityCatalogElementV::Table(t) => has_catalog(cs, t.catalog_name) && has_schema(
            catalog_at(cs, t.catalog_name).schemas,
            t.schema_name,
        ),
    }
}

// ---------------------------------------------------------------------------
// Executable model
// ---------------------------------------------------------------------------

pub(crate) fn find_catalog_index(catalogs: &Vec<Catalog>, name: &String) -> (r: Option<usize>)
    requires
        catalog_names_unique(Seq::new(catalogs@.len(), |i: int| catalogs@[i]@)),
    ensures
        ({
            let cs = Seq::new(catalogs@.len(), |i: int| catalogs@[i]@);
            match r {
                Option::Some(i) => has_catalog(cs, name@) && i == catalog_index(cs, name@) && 0 <= i
                    < cs.len(),
                Option::None => !has_catalog(cs, name@),
            }
        }),
{
    let ghost cs = Seq::new(catalogs@.len(), |i: int| catalogs@[i]@);
    let n = catalogs.len();
    let mut i: usize = 0;
    while i < n
        invariant
            catalog_names_unique(cs),
            cs == Seq::new(catalogs@.len(), |i: int| catalogs@[i]@),
            n == catalogs.len(),
            0 <= i <= n,
            forall|k: int| 0 <= k < i ==> (#[trigger] cs[k]).name != name@,
        decreases n - i,
    {
        assert(cs[i as int] == catalogs@[i as int]@);
        if catalogs[i].name == *name {
            proof {
                assert(cs[i as int].name == name@);
                assert(has_catalog(cs, name@));
                let j = catalog_index(cs, name@);
                assert(0 <= j < cs.len() && cs[j].name == name@);
                assert(j == i as int);
            }
            return Some(i);
        }
        i = i + 1;
    }
    None
}

pub(crate) fn find_schema_index(schemas: &Vec<Schema>, name: &String) -> (r: Option<usize>)
    requires
        schema_names_unique(Seq::new(schemas@.len(), |i: int| schemas@[i]@)),
    ensures
        ({
            let ss = Seq::new(schemas@.len(), |i: int| schemas@[i]@);
            match r {
                Option::Some(i) => has_schema(ss, name@) && i == schema_index(ss, name@) && 0 <= i
                    < ss.len(),
                Option::None => !has_schema(ss, name@),
            }
        }),
{
    let ghost ss = Seq::new(schemas@.len(), |i: int| schemas@[i]@);
    let n = schemas.len();
    let mut i: usize = 0;
    while i < n
        invariant
            schema_names_unique(ss),
            ss == Seq::new(schemas@.len(), |i: int| schemas@[i]@),
            n == schemas.len(),
            0 <= i <= n,
            forall|k: int| 0 <= k < i ==> (#[trigger] ss[k]).name != name@,
        decreases n - i,
    {
        assert(ss[i as int] == schemas@[i as int]@);
        if schemas[i].name == *name {
            proof {
                assert(ss[i as int].name == name@);
                assert(has_schema(ss, name@));
                let j = schema_index(ss, name@);
                assert(0 <= j < ss.len() && ss[j].name == name@);
                assert(j == i as int);
            }
            return Some(i);
        }
        i = i + 1;
    }
    None
}

pub(crate) fn find_table_index(tables: &Vec<Table>, name: &String) -> (r: Option<usize>)
    requires
        table_names_unique(Seq::new(tables@.len(), |i: int| tables@[i]@)),
    ensures
        ({
            let ts = Seq::new(tables@.len(), |i: int| tables@[i]@);
            match r {
                Option::Some(i) => has_table(ts, name@) && i == table_index(ts, name@) && 0 <= i
                    < ts.len(),
                Option::None => !has_table(ts, name@),
            }
        }),
{
    let ghost ts = Seq::new(tables@.len(), |i: int| tables@[i]@);
    let n = tables.len();
    let mut i: usize = 0;
    while i < n
        invariant
            table_names_unique(ts),
            ts == Seq::new(tables@.len(), |i: int| tables@[i]@),
            n == tables.len(),
            0 <= i <= n,
            forall|k: int| 0 <= k < i ==> (#[trigger] ts[k]).name != name@,
        decreases n - i,
    {
        assert(ts[i as int] == tables@[i as int]@);
        if tables[i].name == *name {
            proof {
                assert(ts[i as int].name == name@);
                assert(has_table(ts, name@));
                let j = table_index(ts, name@);
                assert(0 <= j < ts.len() && ts[j].name == name@);
                assert(j == i as int);
            }
            return Some(i);
        }
        i = i + 1;
    }
    None
}

impl UnityCatalog {
    /// An empty forest.
    pub fn new() -> (r: UnityCatalog)
        ensures
            r@ == Seq::<CatalogV>::empty(),
            forest_wf(r@),
    {
        let r = UnityCatalog { catalogs: Vec::new() };
        proof {
            assert(r@ =~= Seq::<CatalogV>::empty());
        }
        r
    }

    /// Looks a catalog up by name.
    pub fn get_catalog(&self, name: &String) -> (r: Option<&Catalog>)
        requires
            catalog_names_unique(self@),
        ensures
            match r {
                Option::Some(c) => has_catalog(self@, name@) && c@ == catalog_at(self@, name@),
                Option::None => !has_catalog(self@, name@),
            },
    {
        match find_catalog_index(&self.catalogs, name) {
            Some(i) => Some(&self.catalogs[i]),
            None => None,
        }
    }

    /// Inserts one element, assuming its ancestors were inserted before it:
    /// a catalog always succeeds; a schema requires its catalog, a table its
    /// schema, and insertion is refused (a fatal condition for the caller)
    /// when the ancestor is absent. Re-insertion under an existing key
    /// replaces the old entry.
    pub fn insert_assume_ordered(&mut self, element: UnityCatalogElement) -> (r: Result<
        (),
        ModelError,
    >)
        requires
            forest_wf(old(self)@),
            element_wf(element@),
        ensures
            forest_wf(final(self)@),
            r is Ok <==> insert_ancestors_present(old(self)@, element@),
            r is Ok ==> final(self)@ == forest_after_insert(old(self)@, element@),
            r is Err ==> final(self)@ == old(self)@,
            r == Result::<(), ModelError>::Err(ModelError::MissingCatalog) <==> (match element@ {
                UnityCatalogElementV::Schema(s) => !has_catalog(old(self)@, s.catalog_name),
                UnityCatalogElementV::Table(t) => !has_catalog(old(self)@, t.catalog_name),
                UnityCatalogElementV::Catalog(c) => false,
            }),
    {
        match element {
            UnityCatalogElement::Catalog(catalog) => {
                self.upsert_catalog(catalog);
                Ok(())
            },
            UnityCatalogElement::Schema(schema) => self.upsert_schema(schema),
            UnityCatalogElement::Table(table) => self.upsert_table(table),
        }
    }

    fn upsert_catalog(&mut self, catalog: Catalog)
        requires
            forest_wf(old(self)@),
            catalog_wf(catalog@),
        ensures
            forest_wf(final(self)@),
            final(self)@ == catalogs_upserted(old(self)@, catalog@),
    {
        let ghost cs = self@;
        let ghost cv = catalog@;
        match find_catalog_index(&self.catalogs, &catalog.name) {
            Some(i) => {
                let slot = &mut self.catalogs[i];
                *slot = catalog;
                proof {
                    assert(self@ =~= cs.update(catalog_index(cs, cv.name), cv));
                    lemma_forest_wf_update(cs, catalog_index(cs, cv.name), cv);
                }
            },
            None => {
                self.catalogs.push(catalog);
                proof {
                    assert(self@ =~= cs.push(cv));
                    lemma_forest_wf_push(cs, cv);
                }
            },
        }
    }

    fn upsert_schema(&mut self, schema: Schema) -> (r: Result<(), ModelError>)
        requires
            forest_wf(old(self)@),
            schema_wf(schema@),
        ensures
            forest_wf(final(self)@),
            r is Ok <==> has_catalog(old(self)@, schema@.catalog_name),
            r is Ok ==> final(self)@ == forest_with_schema(old(self)@, schema@),
            r is Err ==> final(self)@ == old(self)@ && r == Result::<(), ModelError>::Err(
                ModelError::MissingCatalog,
            ),
    {
        let ghost cs = self@;
        let ghost sv = schema@;
        let idx = match find_catalog_index(&self.catalogs, &schema.catalog_name) {
            Some(i) => i,
            None => {
                return Err(ModelError::MissingCatalog);
            },
        };
        let ghost i = idx as int;
        let ghost c = cs[i];
        assert(c == self.catalogs@[i]@);
        assert(catalog_wf(c));
        let ghost ss = c.schemas;
        let found = find_schema_index(&self.catalogs[idx].schemas, &schema.name);
        assert(Seq::new(self.catalogs@[i].schemas@.len(), |k: int| self.catalogs@[i].schemas@[k]@)
            =~= ss);
        match found {
            Some(j) => {
                let catalog = &mut self.catalogs[idx];
                let slot = &mut catalog.schemas[j];
                *slot = schema;
            },
            None => {
                let catalog = &mut self.catalogs[idx];
                catalog.schemas.push(schema);
            },
        }
        proof {
            assert(self.catalogs@[i]@.schemas =~= schemas_upserted(ss, sv));
            assert(self.catalogs@[i]@ == (CatalogV { schemas: schemas_upserted(ss, sv), ..c }));
            assert(self@ =~= forest_with_schema(cs, sv));
            lemma_forest_wf_with_schema(cs, sv);
        }
        Ok(())
    }

    fn upsert_table(&mut self, table: Table) -> (r: Result<(), ModelError>)
        requires
            forest_wf(old(self)@),
        ensures
            forest_wf(final(self)@),
            r is Ok <==> insert_ancestors_present(old(self)@, UnityCatalogElementV::Table(table@)),
            r is Ok ==> final(self)@ == forest_with_table(old(self)@, table@),
            r is Err ==> final(self)@ == old(self)@,
            r == Result::<(), ModelError>::Err(ModelError::MissingCatalog) <==> !has_catalog(
                old(self)@,
                table@.catalog_name,
            ),
    {
        let ghost cs = self@;
        let ghost tv = table@;
        let idx = match find_catalog_index(&self.catalogs, &table.catalog_name) {
            Some(i) => i,
            None => {
                return Err(ModelError::MissingCatalog);
            },
        };
        let ghost i = idx as int;
        let ghost c = cs[i];
        assert(c == self.catalogs@[i]@);
        assert(catalog_wf(c));
        let ghost ss = c.schemas;
        let sfound = find_schema_index(&self.catalogs[idx].schemas, &table.schema_name);
        assert(Seq::new(self.catalogs@[i].schemas@.len(), |k: int| self.catalogs@[i].schemas@[k]@)
            =~= ss);
        let sidx = match sfound {
            Some(j) => j,
            None => {
                return Err(ModelError::MissingSchema);
            },
        };
        let ghost j = sidx as int;
        let ghost s = ss[j];
        assert(s == self.catalogs@[i].schemas@[j]@);
        assert(schema_wf(s));
        let ghost ts = s.tables;
        let tfound = find_table_index(&self.catalogs[idx].schemas[sidx].tables, &table.name);
        assert(Seq::new(
            self.catalogs@[i].schemas@[j].tables@.len(),
            |k: int| self.catalogs@[i].schemas@[j].tables@[k]@,
        ) =~= ts);
        match tfound {
            Some(q) => {
                let catalog = &mut self.catalogs[idx];
                let schema = &mut catalog.schemas[sidx];
                let slot = &mut schema.tables[q];
                *slot = table;
            },
            None => {
                let catalog = &mut self.catalogs[idx];
                let schema = &mut catalog.schemas[sidx];
                schema.tables.push(table);
            },
        }
        proof {
            assert(self.catalogs@[i].schemas@[j]@.tables =~= tables_upserted(ts, tv));
            assert(self.catalogs@[i].schemas@[j]@ == (SchemaV {
                tables: tables_upserted(ts, tv),
                ..s
            }));
            assert(self.catalogs@[i]@.schemas =~= ss.update(
                j,
                SchemaV { tables: tables_upserted(ts, tv), ..s },
            ));
            assert(self.catalogs@[i]@ == (CatalogV {
                schemas: ss.update(j, SchemaV { tables: tables_upserted(ts, tv), ..s }),
                ..c
            }));
            assert(self@ =~= forest_with_table(cs, tv));
            lemma_forest_wf_with_table(cs, tv);
        }
        Ok(())
    }
}

// ---------------------------------------------------------------------------
// Traversal
// ---------------------------------------------------------------------------

/// Every table under the given schemas, flattened schema by schema in order.
pub open spec fn spec_all_tables(ss: Seq<SchemaV>, i: int) -> Seq<TableV>
    decreases ss.len() - i,
{
    if 0 <= i < ss.len() {
        ss[i].tables + spec_all_tables(ss, i + 1)
    } else {
        Seq::empty()
    }
}

impl Catalog {
    /// Every table under this catalog, schema by schema in insertion order.
    pub fn iter_tables(&self) -> (r: Vec<&Table>)
        ensures
            Seq::new(r@.len(), |k: int| r@[k]@) == spec_all_tables(self@.schemas, 0),
    {
        let ghost sss = self@.schemas;
        let mut out: Vec<&Table> = Vec::new();
        let ghost out0: Seq<TableV> = Seq::new(out@.len(), |k: int| out@[k]@);
        proof {
            assert(out0 =~= Seq::<TableV>::empty());
            assert(spec_all_tables(sss, 0) =~= out0 + spec_all_tables(sss, 0));
        }
        let n = self.schemas.len();
        let mut i: usize = 0;
        while i < n
            invariant
                n == self.schemas.len(),
                sss == self@.schemas,
                n == sss.len(),
                0 <= i <= n,
                spec_all_tables(sss, 0) =~= Seq::new(out@.len(), |k: int| out@[k]@)
                    + spec_all_tables(sss, i as int),
            decreases n - i,
        {
            let ghost ts = sss[i as int].tables;
            let m = self.schemas[i].tables.len();
            let mut j: usize = 0;
            proof {
                assert(sss[i as int] == self.schemas@[i as int]@);
                assert(ts.skip(0) =~= ts);
                assert(spec_all_tables(sss, i as int) == ts + spec_all_tables(sss, i as int + 1));
                assert(Seq::new(out@.len(), |k: int| out@[k]@) + (ts.skip(0) + spec_all_tables(
                    sss,
                    i as int + 1,
                )) =~= Seq::new(out@.len(), |k: int| out@[k]@) + spec_all_tables(sss, i as int));
            }
            while j < m
                invariant
                    n == self.schemas.len(),
                    sss == self@.schemas,
                    n == sss.len(),
                    0 <= i < n,
                    m == self.schemas[i as int].tables.len(),
                    ts == sss[i as int].tables,
                    m == ts.len(),
                    0 <= j <= m,
                    spec_all_tables(sss, 0) =~= Seq::new(out@.len(), |k: int| out@[k]@) + (ts.skip(
                        j as int,
                    ) + spec_all_tables(sss, i as int + 1)),
                decreases m - j,
            {
                let ghost prev = Seq::new(out@.len(), |k: int| out@[k]@);
                proof {
                    assert(ts[j as int] == self.schemas@[i as int].tables@[j as int]@);
                }
                out.push(&self.schemas[i].tables[j]);
                proof {
                    assert(Seq::new(out@.len(), |k: int| out@[k]@) =~= prev.push(ts[j as int]));
                    assert(ts.skip(j as int) =~= seq![ts[j as int]] + ts.skip(j as int + 1));
                    assert(prev.push(ts[j as int]) + (ts.skip(j as int + 1) + spec_all_tables(
                        sss,
                        i as int + 1,
                    )) =~= prev + (ts.skip(j as int) + spec_all_tables(sss, i as int + 1)));
                }
                j = j + 1;
            }
            proof {
                assert(ts.skip(m as int) =~= Seq::<TableV>::empty());
                assert(Seq::new(out@.len(), |k: int| out@[k]@) + (ts.skip(m as int)
                    + spec_all_tables(sss, i as int + 1)) =~= Seq::new(
                    out@.len(),
                    |k: int| out@[k]@,
                ) + spec_all_tables(sss, i as int + 1));
            }
            i = i + 1;
        }
        proof {
            assert(spec_all_tables(sss, n as int) =~= Seq::<TableV>::empty());
            assert(Seq::new(out@.len(), |k: int| out@[k]@) =~= spec_all_tables(sss, 0));
        }
        out
    }
}

// ---------------------------------------------------------------------------
// Dotted paths
// ---------------------------------------------------------------------------

/// A reference to one object of the hierarchy, for path rendering.
pub enum Object<'a> {
    Catalog(&'a Catalog),
    Schema(&'a Schema),
    Table(&'a Table),
}

impl<'a> Object<'a> {
    /// The object's canonical dotted path: `catalog`, `catalog.schema`, or
    /// `catalog.schema.table`.
    pub fn to_path(&self) -> (r: String)
        ensures
            r@ == match *self {
                Object::Catalog(c) => c@.name,
                Object::Schema(s) => s@.catalog_name + "."@ + s@.name,
                Object::Table(t) => t@.catalog_name + "."@ + t@.schema_name + "."@ + t@.name,
            },
    {
        match self {
            Object::Catalog(c) => c.name.clone(),
            Object::Schema(s) => String::from_str(s.catalog_name.as_str()).concat(".").concat(
                s.name.as_str(),
            ),
            Object::Table(t) => String::from_str(t.catalog_name.as_str()).concat(".").concat(
                t.schema_name.as_str(),
            ).concat(".").concat(t.name.as_str()),
        }
    }
}

// ---------------------------------------------------------------------------
// Laws of the keyed upsert
// ---------------------------------------------------------------------------

/// What one upsert does to a sibling sequence with unique names: the key now
/// maps to the new entry, names stay unique, and every other key is untouched.
pub proof fn lemma_tables_upserted_unique(ts: Seq<TableV>, t: TableV)
    requires
        table_names_unique(ts),
    ensures
        table_names_unique(tables_upserted(ts, t)),
        has_table(tables_upserted(ts, t), t.name),
        table_at(tables_upserted(ts, t), t.name) == t,
        tables_upserted(ts, t).len() == if has_table(ts, t.name) {
            ts.len()
        } else {
            ts.len() + 1
        },
        forall|n: Seq<char>|
            n != t.name ==> (#[trigger] has_table(tables_upserted(ts, t), n) <==> has_table(ts, n)),
        forall|n: Seq<char>|
            n != t.name && has_table(ts, n) ==> #[trigger] table_at(tables_upserted(ts, t), n)
                == table_at(ts, n),
{
    let r = tables_upserted(ts, t);
    if has_table(ts, t.name) {
        let k = table_index(ts, t.name);
        assert(0 <= k < ts.len() && ts[k].name == t.name);
        assert(r == ts.update(k, t));
        assert forall|i: int, j: int| 0 <= i < j < r.len() implies (#[trigger] r[i]).name != (
        #[trigger] r[j]).name by {
            assert(r[i] == if i == k { t } else { ts[i] });
            assert(r[j] == if j == k { t } else { ts[j] });
            assert(ts[i].name != ts[j].name);
        }
        assert(r[k] == t);
        assert(has_table(r, t.name));
        let q = table_index(r, t.name);
        assert(0 <= q < r.len() && r[q].name == t.name);
        assert(q == k);
    } else {
        let k = ts.len() as int;
        let r2 = ts.push(t);
        assert(r == r2);
        assert forall|i: int, j: int| 0 <= i < j < r.len() implies (#[trigger] r[i]).name != (
        #[trigger] r[j]).name by {
            if j == k {
                assert(r[i] == ts[i]);
                if r[i].name == t.name {
                    assert(has_table(ts, t.name));
                }
            } else {
                assert(r[i] == ts[i] && r[j] == ts[j]);
            }
        }
        assert(r[k] == t);
        assert(has_table(r, t.name));
        let q = table_index(r, t.name);
        assert(0 <= q < r.len() && r[q].name == t.name);
        if q < k {
            assert(r[q] == ts[q]);
            assert(has_table(ts, t.name));
        }
        assert(q == k);
    }
    assert forall|n: Seq<char>| n != t.name implies (#[trigger] has_table(r, n) <==> has_table(
        ts,
        n,
    )) by {
        if has_table(r, n) {
            let q = table_index(r, n);
            assert(0 <= q < r.len() && r[q].name == n);
            if q < ts.len() && r[q] == ts[q] {
                assert(has_table(ts, n));
            } else {
                if has_table(ts, t.name) {
                    let k = table_index(ts, t.name);
                    if q != k {
                        assert(r[q] == ts[q]);
                        assert(has_table(ts, n));
                    } else {
                        assert(r[q] == t);
                    }
                } else {
                    if q < ts.len() {
                        assert(r[q] == ts[q]);
                        assert(has_table(ts, n));
                    } else {
                        assert(r[q] == t);
                    }
                }
            }
        }
        if has_table(ts, n) {
            let q = table_index(ts, n);
            assert(0 <= q < ts.len() && ts[q].name == n);
            if has_table(ts, t.name) {
                let k = table_index(ts, t.name);
                assert(q != k);
                assert(r[q] == ts[q]);
            } else {
                assert(r[q] == ts[q]);
            }
            assert(has_table(r, n));
        }
    }
    assert forall|n: Seq<char>| n != t.name && has_table(ts, n) implies #[trigger] table_at(r, n)
        == table_at(ts, n) by {
        let q = table_index(ts, n);
        assert(0 <= q < ts.len() && ts[q].name == n);
        if has_table(ts, t.name) {
            let k = table_index(ts, t.name);
            assert(q != k);
            assert(r[q] == ts[q]);
        } else {
            assert(r[q] == ts[q]);
        }
        assert(has_table(r, n));
        let q2 = table_index(r, n);
        assert(0 <= q2 < r.len() && r[q2].name == n);
        assert(q2 == q);
    }
}

/// Idempotent upsert: inserting a second entry under the same key leaves
/// exactly one entry under that key, carrying the later insertion's fields,
/// and does not grow the sequence.
pub proof fn lemma_upsert_idempotent(ts: Seq<TableV>, t1: TableV, t2: TableV)
    requires
        table_names_unique(ts),
        t1.name == t2.name,
    ensures
        ({
            let r = tables_upserted(tables_upserted(ts, t1), t2);
            &&& table_names_unique(r)
            &&& has_table(r, t2.name)
            &&& table_at(r, t2.name) == t2
            &&& forall|i: int, j: int|
                0 <= i < r.len() && 0 <= j < r.len() && (#[trigger] r[i]).name == t2.name && (
                #[trigger] r[j]).name == t2.name ==> i == j
            &&& r.len() == tables_upserted(ts, t1).len()
        }),
{
    lemma_tables_upserted_unique(ts, t1);
    let r1 = tables_upserted(ts, t1);
    lemma_tables_upserted_unique(r1, t2);
    let r = tables_upserted(r1, t2);
    assert(has_table(r1, t2.name));
    assert forall|i: int, j: int|
        0 <= i < r.len() && 0 <= j < r.len() && (#[trigger] r[i]).name == t2.name && (
        #[trigger] r[j]).name == t2.name implies i == j by {
        if i != j {
            if i < j {
                assert(r[i].name != r[j].name);
            } else {
                assert(r[j].name != r[i].name);
            }
        }
    }
}

// ---------------------------------------------------------------------------
// Well-formedness preservation lemmas
// ---------------------------------------------------------------------------

/// One insertion with its ancestors present keeps the forest well-formed.
pub proof fn lemma_forest_wf_after_insert(cs: Seq<CatalogV>, e: UnityCatalogElementV)
    requires
        forest_wf(cs),
        element_wf(e),
        insert_ancestors_present(cs, e),
    ensures
        forest_wf(forest_after_insert(cs, e)),
{
    match e {
        UnityCatalogElementV::Catalog(c) => {
            if has_catalog(cs, c.name) {
                let k = catalog_index(cs, c.name);
                assert(0 <= k < cs.len() && cs[k].name == c.name);
                lemma_forest_wf_update(cs, k, c);
            } else {
                lemma_forest_wf_push(cs, c);
            }
        },
        UnityCatalogElementV::Schema(s) => {
            lemma_forest_wf_with_schema(cs, s);
        },
        UnityCatalogElementV::Table(t) => {
            lemma_forest_wf_with_table(cs, t);
        },
    }
}

/// No insertion removes a catalog: whatever key was present stays present.
pub proof fn lemma_insert_preserves_has_catalog(
    cs: Seq<CatalogV>,
    e: UnityCatalogElementV,
    n: Seq<char>,
)
    requires
        has_catalog(cs, n),
        insert_ancestors_present(cs, e),
    ensures
        has_catalog(forest_after_insert(cs, e), n),
{
    let r = forest_after_insert(cs, e);
    let w = catalog_index(cs, n);
    assert(0 <= w < cs.len() && cs[w].name == n);
    match e {
        UnityCatalogElementV::Catalog(c) => {
            if has_catalog(cs, c.name) {
                let k = catalog_index(cs, c.name);
                assert(0 <= k < cs.len() && cs[k].name == c.name);
                assert(r[w].name == n);
            } else {
                assert(r[w].name == n);
            }
        },
        UnityCatalogElementV::Schema(s) => {
            let i = catalog_index(cs, s.catalog_name);
            assert(0 <= i < cs.len() && cs[i].name == s.catalog_name);
            assert(r[w].name == n);
        },
        UnityCatalogElementV::Table(t) => {
            let i = catalog_index(cs, t.catalog_name);
            assert(0 <= i < cs.len() && cs[i].name == t.catalog_name);
            let c = cs[i];
            assert(catalog_at(cs, t.catalog_name) == c);
            let j = schema_index(c.schemas, t.schema_name);
            assert(0 <= j < c.schemas.len() && c.schemas[j].name == t.schema_name);
            assert(r[w].name == n);
        },
    }
    assert(has_catalog(r, n));
}

/// Inserting a schema or a table removes no schema either: a schema that
/// stood under a named catalog still stands there afterwards. (A catalog
/// insertion is excluded: re-inserting a catalog replaces its children.)
pub proof fn lemma_insert_preserves_has_schema(
    cs: Seq<CatalogV>,
    e: UnityCatalogElementV,
    cn: Seq<char>,
    sn: Seq<char>,
)
    requires
        forest_wf(cs),
        insert_ancestors_present(cs, e),
        has_catalog(cs, cn),
        has_schema(catalog_at(cs, cn).schemas, sn),
        !(e is Catalog),
    ensures
        has_catalog(forest_after_insert(cs, e), cn),
        has_schema(catalog_at(forest_after_insert(cs, e), cn).schemas, sn),
{
    lemma_insert_preserves_has_catalog(cs, e, cn);
    let r = forest_after_insert(cs, e);
    let j = catalog_index(cs, cn);
    assert(0 <= j < cs.len() && cs[j].name == cn);
    let j2 = catalog_index(r, cn);
    assert(0 <= j2 < r.len() && r[j2].name == cn);
    match e {
        UnityCatalogElementV::Catalog(c) => {},
        UnityCatalogElementV::Schema(s) => {
            let i = catalog_index(cs, s.catalog_name);
            assert(0 <= i < cs.len() && cs[i].name == s.catalog_name);
            assert(forall|k: int| 0 <= k < r.len() ==> (#[trigger] r[k]).name == cs[k].name);
            assert(j2 == j) by {
                if j2 != j {
                    assert(cs[j2].name == cs[j].name);
                }
            }
            if i != j {
                assert(r[j] == cs[j]);
            } else {
                let ss = cs[i].schemas;
                let r2 = schemas_upserted(ss, s);
                assert(r[j].schemas == r2);
                let w = schema_index(ss, sn);
                assert(0 <= w < ss.len() && ss[w].name == sn);
                if has_schema(ss, s.name) {
                    let k = schema_index(ss, s.name);
                    assert(0 <= k < ss.len() && ss[k].name == s.name);
                    assert(r2[w].name == sn);
                } else {
                    assert(r2[w].name == sn);
                }
                assert(has_schema(r2, sn));
            }
        },
        UnityCatalogElementV::Table(t) => {
            let i = catalog_index(cs, t.catalog_name);
            assert(0 <= i < cs.len() && cs[i].name == t.catalog_name);
            let c = cs[i];
            assert(catalog_at(cs, t.catalog_name) == c);
            let jj = schema_index(c.schemas, t.schema_name);
            assert(0 <= jj < c.schemas.len() && c.schemas[jj].name == t.schema_name);
            assert(forall|k: int| 0 <= k < r.len() ==> (#[trigger] r[k]).name == cs[k].name);
            assert(j2 == j) by {
                if j2 != j {
                    assert(cs[j2].name == cs[j].name);
                }
            }
            if i != j {
                assert(r[j] == cs[j]);
            } else {
                let ss = cs[i].schemas;
                let r2 = r[j].schemas;
                assert(forall|k: int| 0 <= k < r2.len() ==> (#[trigger] r2[k]).name == ss[k].name);
                let w = schema_index(ss, sn);
                assert(0 <= w < ss.len() && ss[w].name == sn);
                assert(r2[w].name == sn);
                assert(has_schema(r2, sn));
            }
        },
    }
}

proof fn lemma_forest_wf_push(cs: Seq<CatalogV>, c: CatalogV)
    requires
        forest_wf(cs),
        catalog_wf(c),
        !has_catalog(cs, c.name),
    ensures
        forest_wf(cs.push(c)),
{
    let r = cs.push(c);
    assert forall|i: int, j: int| 0 <= i < j < r.len() implies (#[trigger] r[i]).name != (
    #[trigger] r[j]).name by {
        if j == cs.len() as int {
            assert(r[i] == cs[i]);
            if r[i].name == c.name {
                assert(has_catalog(cs, c.name));
            }
        } else {
            assert(r[i] == cs[i] && r[j] == cs[j]);
        }
    }
    assert forall|i: int| 0 <= i < r.len() implies catalog_wf(#[trigger] r[i]) by {
        if i < cs.len() {
            assert(r[i] == cs[i]);
        } else {
            assert(r[i] == c);
        }
    }
}

proof fn lemma_forest_wf_update(cs: Seq<CatalogV>, k: int, c: CatalogV)
    requires
        forest_wf(cs),
        catalog_wf(c),
        0 <= k < cs.len(),
        cs[k].name == c.name,
    ensures
        forest_wf(cs.update(k, c)),
{
    let r = cs.update(k, c);
    assert forall|i: int, j: int| 0 <= i < j < r.len() implies (#[trigger] r[i]).name != (
    #[trigger] r[j]).name by {
        assert(r[i] == if i == k { c } else { cs[i] });
        assert(r[j] == if j == k { c } else { cs[j] });
        assert(cs[i].name != cs[j].name);
    }
    assert forall|i: int| 0 <= i < r.len() implies catalog_wf(#[trigger] r[i]) by {
        if i != k {
            assert(r[i] == cs[i]);
        }
    }
}

proof fn lemma_catalog_wf_schemas_upserted(c: CatalogV, s: SchemaV)
    requires
        catalog_wf(c),
        schema_wf(s),
        s.catalog_name == c.name,
    ensures
        catalog_wf(CatalogV { schemas: schemas_upserted(c.schemas, s), ..c }),
{
    let ss = c.schemas;
    let r = schemas_upserted(ss, s);
    if has_schema(ss, s.name) {
        let k = schema_index(ss, s.name);
        assert(0 <= k < ss.len() && ss[k].name == s.name);
        assert forall|i: int, j: int| 0 <= i < j < r.len() implies (#[trigger] r[i]).name != (
        #[trigger] r[j]).name by {
            assert(r[i] == if i == k { s } else { ss[i] });
            assert(r[j] == if j == k { s } else { ss[j] });
            assert(ss[i].name != ss[j].name);
        }
        assert forall|i: int| 0 <= i < r.len() implies schema_wf(#[trigger] r[i])
            && r[i].catalog_name == c.name by {
            if i != k {
                assert(r[i] == ss[i]);
            }
        }
    } else {
        assert forall|i: int, j: int| 0 <= i < j < r.len() implies (#[trigger] r[i]).name != (
        #[trigger] r[j]).name by {
            if j == ss.len() as int {
                assert(r[i] == ss[i]);
                if r[i].name == s.name {
                    assert(has_schema(ss, s.name));
                }
            } else {
                assert(r[i] == ss[i] && r[j] == ss[j]);
            }
        }
        assert forall|i: int| 0 <= i < r.len() implies schema_wf(#[trigger] r[i])
            && r[i].catalog_name == c.name by {
            if i < ss.len() {
                assert(r[i] == ss[i]);
            } else {
                assert(r[i] == s);
            }
        }
    }
}

proof fn lemma_forest_wf_with_schema(cs: Seq<CatalogV>, s: SchemaV)
    requires
        forest_wf(cs),
        schema_wf(s),
        has_catalog(cs, s.catalog_name),
    ensures
        forest_wf(forest_with_schema(cs, s)),
{
    let i = catalog_index(cs, s.catalog_name);
    assert(0 <= i < cs.len() && cs[i].name == s.catalog_name);
    let c = cs[i];
    lemma_catalog_wf_schemas_upserted(c, s);
    lemma_forest_wf_update(cs, i, CatalogV { schemas: schemas_upserted(c.schemas, s), ..c });
}

proof fn lemma_schema_wf_tables_upserted(s: SchemaV, t: TableV)
    requires
        schema_wf(s),
        t.catalog_name == s.catalog_name,
        t.schema_name == s.name,
    ensures
        schema_wf(SchemaV { tables: tables_upserted(s.tables, t), ..s }),
{
    let ts = s.tables;
    let r = tables_upserted(ts, t);
    if has_table(ts, t.name) {
        let k = table_index(ts, t.name);
        assert(0 <= k < ts.len() && ts[k].name == t.name);
        assert forall|i: int, j: int| 0 <= i < j < r.len() implies (#[trigger] r[i]).name != (
        #[trigger] r[j]).name by {
            assert(r[i] == if i == k { t } else { ts[i] });
            assert(r[j] == if j == k { t } else { ts[j] });
            assert(ts[i].name != ts[j].name);
        }
        assert forall|i: int| 0 <= i < r.len() implies (#[trigger] r[i]).catalog_name
            == s.catalog_name && r[i].schema_name == s.name by {
            if i != k {
                assert(r[i] == ts[i]);
            }
        }
    } else {
        assert forall|i: int, j: int| 0 <= i < j < r.len() implies (#[trigger] r[i]).name != (
        #[trigger] r[j]).name by {
            if j == ts.len() as int {
                assert(r[i] == ts[i]);
                if r[i].name == t.name {
                    assert(has_table(ts, t.name));
                }
            } else {
                assert(r[i] == ts[i] && r[j] == ts[j]);
            }
        }
        assert forall|i: int| 0 <= i < r.len() implies (#[trigger] r[i]).catalog_name
            == s.catalog_name && r[i].schema_name == s.name by {
            if i < ts.len() {
                assert(r[i] == ts[i]);
            } else {
                assert(r[i] == t);
            }
        }
    }
}

proof fn lemma_forest_wf_with_table(cs: Seq<CatalogV>, t: TableV)
    requires
        forest_wf(cs),
        has_catalog(cs, t.catalog_name),
        has_schema(catalog_at(cs, t.catalog_name).schemas, t.schema_name),
    ensures
        forest_wf(forest_with_table(cs, t)),
{
    let i = catalog_index(cs, t.catalog_name);
    assert(0 <= i < cs.len() && cs[i].name == t.catalog_name);
    let c = cs[i];
    assert(catalog_wf(c));
    let j = schema_index(c.schemas, t.schema_name);
    assert(0 <= j < c.schemas.len() && c.schemas[j].name == t.schema_name);
    let s = c.schemas[j];
    assert(schema_wf(s) && s.catalog_name == c.name && s.name == t.schema_name);
    let s2 = SchemaV { tables: tables_upserted(s.tables, t), ..s };
    lemma_schema_wf_tables_upserted(s, t);
    let c2 = CatalogV { schemas: c.schemas.update(j, s2), ..c };
    assert forall|p: int, q: int| 0 <= p < q < c2.schemas.len() implies (
    #[trigger] c2.schemas[p]).name != (#[trigger] c2.schemas[q]).name by {
        assert(c2.schemas[p] == if p == j { s2 } else { c.schemas[p] });
        assert(c2.schemas[q] == if q == j { s2 } else { c.schemas[q] });
        assert(c.schemas[p].name != c.schemas[q].name);
    }
    assert forall|p: int| 0 <= p < c2.schemas.len() implies schema_wf(#[trigger] c2.schemas[p])
        && c2.schemas[p].catalog_name == c2.name by {
        if p != j {
            assert(c2.schemas[p] == c.schemas[p]);
        }
    }
    assert(catalog_wf(c2));
    lemma_forest_wf_update(cs, i, c2);
}

} // verus!
