//! Plan rendering: walks an operation tree and emits SQL statement strings,
//! applying the clone-type and schema-creation policy, and flattens the
//! resulting query tree breadth-first so that every create statement is
//! emitted before the statements of the objects inside it.

use vstd::prelude::*;
use crate::diff::{
    DiffNode, DiffNodeV, OperationV, Operation, TableRefV, diff_node_view, diff_nodes_view,
    lemma_diff_nodes_view,
};

verus! {

/// The query-generation policy knobs.
#[derive(Debug, Clone, Copy, PartialEq, Eq, Structural)]
pub struct QueryGen {
    /// A target table older than the source by strictly more than this many
    /// hours is considered out of date.
    pub staleness_threshold_hours: u32,
    /// Fall back to a deep clone for sources that are not MANAGED/DELTA
    /// instead of skipping them.
    pub deep_clone_non_managed: bool,
    /// Create a schema that is missing on the target side instead of
    /// skipping the comparison for it.
    pub create_schema_if_missing: bool,
}

impl QueryGen {
    /// The staleness threshold in epoch milliseconds.
    pub fn staleness_threshold_millis(&self) -> (r: i64)
        ensures
            r == self.staleness_threshold_hours * 3600000int,
    {
        (self.staleness_threshold_hours as i64) * 3600000i64
    }
}

/// How a table is cloned: shallow copies metadata only, deep copies data.
#[derive(Debug, Clone, Copy, PartialEq, Eq, Structural)]
pub enum CloneKind {
    Shallow,
    Deep,
}

/// The clone-type policy: a MANAGED/DELTA source is always cloned shallow;
/// any other source is cloned deep when the fallback is enabled and skipped
/// otherwise.
pub open spec fn spec_clone_kind(
    table_type: Seq<char>,
    data_source_format: Option<Seq<char>>,
    deep_clone_non_managed: bool,
) -> Option<CloneKind> {
    if table_type == "MANAGED"@ && data_source_format == Option::Some("DELTA"@) {
        Option::Some(CloneKind::Shallow)
    } else if deep_clone_non_managed {
        Option::Some(CloneKind::Deep)
    } else {
        Option::None
    }
}

/// Clone type selection: MANAGED/DELTA always yields SHALLOW; anything else
/// yields DEEP exactly when the fallback option is enabled, and no statement
/// at all otherwise.
pub proof fn lemma_clone_type_selection(
    table_type: Seq<char>,
    data_source_format: Option<Seq<char>>,
    deep_clone_non_managed: bool,
)
    ensures
        table_type == "MANAGED"@ && data_source_format == Option::Some("DELTA"@)
            ==> spec_clone_kind(table_type, data_source_format, deep_clone_non_managed)
            == Option::Some(CloneKind::Shallow),
        !(table_type == "MANAGED"@ && data_source_format == Option::Some("DELTA"@))
            && deep_clone_non_managed ==> spec_clone_kind(
            table_type,
            data_source_format,
            deep_clone_non_managed,
        ) == Option::Some(CloneKind::Deep),
        !(table_type == "MANAGED"@ && data_source_format == Option::Some("DELTA"@))
            && !deep_clone_non_managed ==> spec_clone_kind(
            table_type,
            data_source_format,
            deep_clone_non_managed,
        ) is None,
{
}

/// Picks the clone kind for a source table under the configured policy.
pub fn clone_kind_for(
    table_type: &String,
    data_source_format: &Option<String>,
    deep_clone_non_managed: bool,
) -> (r: Option<CloneKind>)
    ensures
        r == spec_clone_kind(
            table_type@,
            match data_source_format {
                Option::Some(f) => Option::Some(f@),
                Option::None => Option::None,
            },
            deep_clone_non_managed,
        ),
{
    let managed = String::from_str("MANAGED");
    let delta = String::from_str("DELTA");
    let managed_delta = *table_type == managed && (match data_source_format {
        Option::Some(f) => *f == delta,
        Option::None => false,
    });
    if managed_delta {
        Some(CloneKind::Shallow)
    } else if deep_clone_non_managed {
        Some(CloneKind::Deep)
    } else {
        None
    }
}

// ---------------------------------------------------------------------------
// Statement templates
// ---------------------------------------------------------------------------

pub open spec fn create_catalog_stmt(target: Seq<char>) -> Seq<char> {
    "CREATE CATALOG "@ + target
}

pub open spec fn create_schema_stmt(target: Seq<char>, schema: Seq<char>) -> Seq<char> {
    "CREATE SCHEMA "@ + target + "."@ + schema
}

pub open spec fn drop_catalog_stmt(catalog: Seq<char>) -> Seq<char> {
    "DROP CATALOG "@ + catalog + " CASCADE"@
}

pub open spec fn drop_schema_stmt(target: Seq<char>, schema: Seq<char>) -> Seq<char> {
    "DROP SCHEMA "@ + target + "."@ + schema + " CASCADE"@
}

pub open spec fn drop_table_stmt(target: Seq<char>, schema: Seq<char>, table: Seq<char>) -> Seq<
    char,
> {
    "DROP TABLE "@ + target + "."@ + schema + "."@ + table
}

pub open spec fn clone_kind_word(k: CloneKind) -> Seq<char> {
    match k {
        CloneKind::Shallow => "SHALLOW"@,
        CloneKind::Deep => "DEEP"@,
    }
}

/// `CREATE TABLE <target>.<schema>.<table> <KIND> CLONE <source path>`.
pub open spec fn create_clone_stmt(target: Seq<char>, source: TableRefV, kind: CloneKind) -> Seq<
    char,
> {
    "CREATE TABLE "@ + target + "."@ + source.schema_name + "."@ + source.name + " "@
        + clone_kind_word(kind) + " CLONE "@ + source.catalog_name + "."@ + source.schema_name
        + "."@ + source.name
}

/// The replace-via-clone batch: drop the stale target table, then clone.
pub open spec fn replace_clone_stmt(
    target: Seq<char>,
    existing: TableRefV,
    source: TableRefV,
    kind: CloneKind,
) -> Seq<char> {
    drop_table_stmt(target, existing.schema_name, existing.name) + ";\n"@ + create_clone_stmt(
        target,
        source,
        kind,
    )
}

// ---------------------------------------------------------------------------
// The query tree
// ---------------------------------------------------------------------------

/// One node of the rendered plan: zero or one statement (a semicolon-joined
/// batch is one string), plus child queries.
pub struct Query {
    pub query: Option<String>,
    pub is_fast: bool,
    pub children: Vec<Query>,
}

pub struct QueryV {
    pub query: Option<Seq<char>>,
    pub is_fast: bool,
    pub children: Seq<QueryV>,
}

pub open spec fn query_view(q: Query) -> QueryV
    decreases q, 0int,
{
    QueryV {
        query: match q.query {
            Option::Some(s) => Option::Some(s@),
            Option::None => Option::None,
        },
        is_fast: q.is_fast,
        children: queries_view(q.children, 0),
    }
}

pub open spec fn queries_view(qs: Vec<Query>, i: int) -> Seq<QueryV>
    decreases qs, qs.len() - i,
{
    if 0 <= i < qs.len() {
        proof {
            assert(decreases_to!(qs => qs[i]));
        }
        seq![query_view(qs[i])] + queries_view(qs, i + 1)
    } else {
        Seq::empty()
    }
}

impl View for Query {
    type V = QueryV;

    open spec fn view(&self) -> QueryV {
        query_view(*self)
    }
}

/// The view of a query vector, element by element.
pub proof fn lemma_queries_view(qs: Vec<Query>, i: int)
    requires
        0 <= i <= qs.len(),
    ensures
        queries_view(qs, i).len() == qs.len() - i,
        forall|k: int| i <= k < qs.len() ==> queries_view(qs, i)[k - i] == query_view(qs[k]),
    decreases qs.len() - i,
{
    if i < qs.len() {
        lemma_queries_view(qs, i + 1);
    }
}

// ---------------------------------------------------------------------------
// From operation tree to query tree
// ---------------------------------------------------------------------------

/// What one operation renders to under the policy: `None` for the skip
/// cases (schema creation disabled, clone policy refuses the source).
/// The second component tells whether the node keeps its subtree.
pub open spec fn spec_query(n: DiffNodeV, target: Seq<char>, cfg: QueryGen) -> QueryV
    decreases n, 0int,
{
    match n.operation {
        Option::None => QueryV {
            query: Option::None,
            is_fast: false,
            children: spec_queries(n.children, target, cfg, 0),
        },
        Option::Some(op) => match op {
            OperationV::CreateCatalog { name: _ } => QueryV {
                query: Option::Some(create_catalog_stmt(target)),
                is_fast: true,
                children: spec_queries(n.children, target, cfg, 0),
            },
            OperationV::CreateSchema { catalog_name: _, name } => if cfg.create_schema_if_missing {
                QueryV {
                    query: Option::Some(create_schema_stmt(target, name)),
                    is_fast: true,
                    children: spec_queries(n.children, target, cfg, 0),
                }
            } else {
                // schema-creation policy: skip the schema and its subtree
                QueryV { query: Option::None, is_fast: false, children: Seq::empty() }
            },
            OperationV::DropCatalog { name } => QueryV {
                query: Option::Some(drop_catalog_stmt(name)),
                is_fast: true,
                children: Seq::empty(),
            },
            OperationV::DropSchema { catalog_name: _, name } => QueryV {
                query: Option::Some(drop_schema_stmt(target, name)),
                is_fast: true,
                children: Seq::empty(),
            },
            OperationV::DropTable { table } => QueryV {
                query: Option::Some(drop_table_stmt(target, table.schema_name, table.name)),
                is_fast: true,
                children: Seq::empty(),
            },
            OperationV::CloneTable { source, target: existing } => match spec_clone_kind(
                source.table_type,
                source.data_source_format,
                cfg.deep_clone_non_managed,
            ) {
                Option::None => QueryV {
                    // clone policy: skip the table, emit nothing
                    query: Option::None,
                    is_fast: false,
                    children: Seq::empty(),
                },
                Option::Some(kind) => QueryV {
                    query: Option::Some(
                        match existing {
                            Option::Some(e) => replace_clone_stmt(target, e, source, kind),
                            Option::None => create_clone_stmt(target, source, kind),
                        },
                    ),
                    is_fast: true,
                    children: Seq::empty(),
                },
            },
        },
    }
}

pub open spec fn spec_queries(ns: Seq<DiffNodeV>, target: Seq<char>, cfg: QueryGen, i: int) -> Seq<
    QueryV,
>
    decreases ns, ns.len() - i,
{
    if 0 <= i < ns.len() {
        proof {
            assert(decreases_to!(ns => ns[i]));
        }
        seq![spec_query(ns[i], target, cfg)] + spec_queries(ns, target, cfg, i + 1)
    } else {
        Seq::empty()
    }
}

/// Element-wise description of `spec_queries`.
pub proof fn lemma_spec_queries(ns: Seq<DiffNodeV>, target: Seq<char>, cfg: QueryGen, i: int)
    requires
        0 <= i <= ns.len(),
    ensures
        spec_queries(ns, target, cfg, i).len() == ns.len() - i,
        forall|k: int|
            i <= k < ns.len() ==> spec_queries(ns, target, cfg, i)[k - i] == spec_query(
                ns[k],
                target,
                cfg,
            ),
    decreases ns.len() - i,
{
    if i < ns.len() {
        lemma_spec_queries(ns, target, cfg, i + 1);
    }
}

// ---------------------------------------------------------------------------
// Executable statement builders
// ---------------------------------------------------------------------------

fn stmt_create_catalog(target: &str) -> (r: String)
    ensures
        r@ == create_catalog_stmt(target@),
{
    String::from_str("CREATE CATALOG ").concat(target)
}

fn stmt_create_schema(target: &str, schema: &String) -> (r: String)
    ensures
        r@ == create_schema_stmt(target@, schema@),
{
    String::from_str("CREATE SCHEMA ").concat(target).concat(".").concat(schema.as_str())
}

fn stmt_drop_catalog(catalog: &String) -> (r: String)
    ensures
        r@ == drop_catalog_stmt(catalog@),
{
    String::from_str("DROP CATALOG ").concat(catalog.as_str()).concat(" CASCADE")
}

fn stmt_drop_schema(target: &str, schema: &String) -> (r: String)
    ensures
        r@ == drop_schema_stmt(target@, schema@),
{
    String::from_str("DROP SCHEMA ").concat(target).concat(".").concat(schema.as_str()).concat(
        " CASCADE",
    )
}

fn stmt_drop_table(target: &str, schema: &String, table: &String) -> (r: String)
    ensures
        r@ == drop_table_stmt(target@, schema@, table@),
{
    String::from_str("DROP TABLE ").concat(target).concat(".").concat(schema.as_str()).concat(
        ".",
    ).concat(table.as_str())
}

fn stmt_create_clone(target: &str, source: &crate::diff::TableRef, kind: CloneKind) -> (r: String)
    ensures
        r@ == create_clone_stmt(target@, source@, kind),
{
    let kind_word: &str = match kind {
        CloneKind::Shallow => "SHALLOW",
        CloneKind::Deep => "DEEP",
    };
    String::from_str("CREATE TABLE ").concat(target).concat(".").concat(
        source.schema_name.as_str(),
    ).concat(".").concat(source.name.as_str()).concat(" ").concat(kind_word).concat(
        " CLONE ",
    ).concat(source.catalog_name.as_str()).concat(".").concat(source.schema_name.as_str()).concat(
        ".",
    ).concat(source.name.as_str())
}

// ---------------------------------------------------------------------------
// Executable rendering
// ---------------------------------------------------------------------------

pub open spec fn queries_vec_view(v: Vec<Query>) -> Seq<QueryV> {
    Seq::new(v@.len(), |k: int| v@[k]@)
}

pub open spec fn strings_view(v: Vec<String>) -> Seq<Seq<char>> {
    Seq::new(v@.len(), |k: int| v@[k]@)
}

impl Query {
    /// Renders one operation node (and its subtree) under the policy.
    pub fn from_diff_node(diff_node: &DiffNode, target_catalog: &str, cfg: &QueryGen) -> (r: Query)
        ensures
            r@ == spec_query(diff_node@, target_catalog@, *cfg),
        decreases *diff_node, 0int,
    {
        let ghost nv = diff_node@;
        match &diff_node.operation {
            Option::None => {
                let children = children_from_nodes(&diff_node.children, target_catalog, cfg);
                let r = Query { query: None, is_fast: false, children };
                proof {
                    lemma_queries_view(r.children, 0);
                    assert(queries_view(r.children, 0) =~= queries_vec_view(r.children));
                    assert(r@.children =~= spec_query(nv, target_catalog@, *cfg).children);
                    assert(r@ == spec_query(nv, target_catalog@, *cfg));
                }
                r
            },
            Option::Some(op) => match op {
                Operation::CreateCatalog { name: _ } => {
                    let children = children_from_nodes(&diff_node.children, target_catalog, cfg);
                    let r = Query {
                        query: Some(stmt_create_catalog(target_catalog)),
                        is_fast: true,
                        children,
                    };
                    proof {
                        lemma_queries_view(r.children, 0);
                        assert(queries_view(r.children, 0) =~= queries_vec_view(r.children));
                        assert(r@.children =~= spec_query(nv, target_catalog@, *cfg).children);
                        assert(r@ == spec_query(nv, target_catalog@, *cfg));
                    }
                    r
                },
                Operation::CreateSchema { catalog_name: _, name } => {
                    if cfg.create_schema_if_missing {
                        let children = children_from_nodes(
                            &diff_node.children,
                            target_catalog,
                            cfg,
                        );
                        let r = Query {
                            query: Some(stmt_create_schema(target_catalog, name)),
                            is_fast: true,
                            children,
                        };
                        proof {
                            lemma_queries_view(r.children, 0);
                            assert(queries_view(r.children, 0) =~= queries_vec_view(r.children));
                            assert(r@.children =~= spec_query(nv, target_catalog@, *cfg).children);
                            assert(r@ == spec_query(nv, target_catalog@, *cfg));
                        }
                        r
                    } else {
                        let r = Query { query: None, is_fast: false, children: Vec::new() };
                        proof {
                            assert(r@.children =~= Seq::<QueryV>::empty());
                            assert(r@ == spec_query(nv, target_catalog@, *cfg));
                        }
                        r
                    }
                },
                Operation::DropCatalog { name } => {
                    let r = Query {
                        query: Some(stmt_drop_catalog(name)),
                        is_fast: true,
                        children: Vec::new(),
                    };
                    proof {
                        assert(r@.children =~= Seq::<QueryV>::empty());
                        assert(r@ == spec_query(nv, target_catalog@, *cfg));
                    }
                    r
                },
                Operation::DropSchema { catalog_name: _, name } => {
                    let r = Query {
                        query: Some(stmt_drop_schema(target_catalog, name)),
                        is_fast: true,
                        children: Vec::new(),
                    };
                    proof {
                        assert(r@.children =~= Seq::<QueryV>::empty());
                        assert(r@ == spec_query(nv, target_catalog@, *cfg));
                    }
                    r
                },
                Operation::DropTable { table } => {
                    let r = Query {
                        query: Some(stmt_drop_table(target_catalog, &table.schema_name, &table.name)),
                        is_fast: true,
                        children: Vec::new(),
                    };
                    proof {
                        assert(r@.children =~= Seq::<QueryV>::empty());
                        assert(r@ == spec_query(nv, target_catalog@, *cfg));
                    }
                    r
                },
                Operation::CloneTable { source, target } => {
                    match clone_kind_for(
                        &source.table_type,
                        &source.data_source_format,
                        cfg.deep_clone_non_managed,
                    ) {
                        None => {
                            let r = Query { query: None, is_fast: false, children: Vec::new() };
                            proof {
                                assert(r@.children =~= Seq::<QueryV>::empty());
                                assert(r@ == spec_query(nv, target_catalog@, *cfg));
                            }
                            r
                        },
                        Some(kind) => {
                            let stmt = match target {
                                Option::Some(existing) => {
                                    let drop_part = stmt_drop_table(
                                        target_catalog,
                                        &existing.schema_name,
                                        &existing.name,
                                    );
                                    drop_part.concat(";\n").concat(
                                        stmt_create_clone(target_catalog, source, kind).as_str(),
                                    )
                                },
                                Option::None => stmt_create_clone(target_catalog, source, kind),
                            };
                            let r = Query {
                                query: Some(stmt),
                                is_fast: true,
                                children: Vec::new(),
                            };
                            proof {
                                assert(r@.children =~= Seq::<QueryV>::empty());
                                assert(r@ == spec_query(nv, target_catalog@, *cfg));
                            }
                            r
                        },
                    }
                },
            },
        }
    }
}

fn children_from_nodes(ns: &Vec<DiffNode>, target_catalog: &str, cfg: &QueryGen) -> (r: Vec<Query>)
    ensures
        queries_vec_view(r) == spec_queries(diff_nodes_view(*ns, 0), target_catalog@, *cfg, 0),
    decreases *ns, 1int,
{
    let ghost s = diff_nodes_view(*ns, 0);
    proof {
        lemma_diff_nodes_view(*ns, 0);
    }
    let mut out: Vec<Query> = Vec::new();
    let n = ns.len();
    let mut i: usize = 0;
    proof {
        assert(queries_vec_view(out) =~= Seq::<QueryV>::empty());
        assert(spec_queries(s, target_catalog@, *cfg, 0) =~= queries_vec_view(out) + spec_queries(
            s,
            target_catalog@,
            *cfg,
            0,
        ));
    }
    while i < n
        invariant
            n == ns.len(),
            s == diff_nodes_view(*ns, 0),
            s.len() == n,
            forall|k: int| 0 <= k < n ==> s[k] == diff_node_view(ns@[k]),
            0 <= i <= n,
            spec_queries(s, target_catalog@, *cfg, 0) =~= queries_vec_view(out) + spec_queries(
                s,
                target_catalog@,
                *cfg,
                i as int,
            ),
        decreases n - i,
    {
        let ghost prev = queries_vec_view(out);
        proof {
            assert(decreases_to!(*ns => ns[i as int]));
        }
        let q = Query::from_diff_node(&ns[i], target_catalog, cfg);
        proof {
            assert(q@ == spec_query(s[i as int], target_catalog@, *cfg));
        }
        out.push(q);
        proof {
            assert(queries_vec_view(out) =~= prev.push(q@));
            assert(queries_vec_view(out) + spec_queries(s, target_catalog@, *cfg, i as int + 1)
                =~= prev + spec_queries(s, target_catalog@, *cfg, i as int));
        }
        i = i + 1;
    }
    proof {
        assert(spec_queries(s, target_catalog@, *cfg, n as int) =~= Seq::<QueryV>::empty());
        assert(queries_vec_view(out) =~= spec_queries(s, target_catalog@, *cfg, 0));
    }
    out
}

// ---------------------------------------------------------------------------
// Breadth-first flattening of the query tree
// ---------------------------------------------------------------------------

/// The number of nodes in a query tree; the flattening queue's measure.
pub open spec fn query_size(q: QueryV) -> nat
    decreases q, 0int,
{
    1 + seq_sizes(q.children, 0)
}

pub open spec fn seq_sizes(qs: Seq<QueryV>, i: int) -> nat
    decreases qs, qs.len() - i,
{
    if 0 <= i < qs.len() {
        proof {
            assert(decreases_to!(qs => qs[i]));
        }
        query_size(qs[i]) + seq_sizes(qs, i + 1)
    } else {
        0
    }
}

proof fn lemma_seq_sizes_drop_first(qs: Seq<QueryV>, i: int)
    requires
        qs.len() > 0,
        0 <= i <= qs.len() - 1,
    ensures
        seq_sizes(qs.drop_first(), i) == seq_sizes(qs, i + 1),
    decreases qs.len() - i,
{
    if i < qs.len() - 1 {
        lemma_seq_sizes_drop_first(qs, i + 1);
        assert(qs.drop_first()[i] == qs[i + 1]);
    }
}

proof fn lemma_seq_sizes_shift(a: Seq<QueryV>, b: Seq<QueryV>, j: int)
    requires
        0 <= j <= b.len(),
    ensures
        seq_sizes(a + b, a.len() + j) == seq_sizes(b, j),
    decreases b.len() - j,
{
    if j < b.len() {
        lemma_seq_sizes_shift(a, b, j + 1);
        assert((a + b)[a.len() + j] == b[j]);
    }
}

proof fn lemma_seq_sizes_concat(a: Seq<QueryV>, b: Seq<QueryV>, i: int)
    requires
        0 <= i <= a.len(),
    ensures
        seq_sizes(a + b, i) == seq_sizes(a, i) + seq_sizes(b, 0),
    decreases a.len() - i,
{
    if i < a.len() {
        lemma_seq_sizes_concat(a, b, i + 1);
        assert((a + b)[i] == a[i]);
    } else {
        lemma_seq_sizes_shift(a, b, 0);
    }
}

/// The statement sequence of a plan, defined breadth-first: a queue starts
/// with the root; each dequeued node contributes its own statement (if any)
/// before its children are appended to the back of the queue. A create at
/// any level is therefore emitted before the statements of the objects
/// inside it.
pub open spec fn spec_render(queue: Seq<QueryV>) -> Seq<Seq<char>>
    decreases seq_sizes(queue, 0),
    via spec_render_decreases
{
    if queue.len() == 0 {
        Seq::empty()
    } else {
        let rest = queue.drop_first() + queue[0].children;
        match queue[0].query {
            Option::Some(q) => seq![q] + spec_render(rest),
            Option::None => spec_render(rest),
        }
    }
}

#[via_fn]
proof fn spec_render_decreases(queue: Seq<QueryV>) {
    if queue.len() > 0 {
        let rest = queue.drop_first() + queue[0].children;
        lemma_seq_sizes_concat(queue.drop_first(), queue[0].children, 0);
        lemma_seq_sizes_drop_first(queue, 0);
        assert(seq_sizes(queue, 0) == query_size(queue[0]) + seq_sizes(queue, 1));
        assert(seq_sizes(rest, 0) < seq_sizes(queue, 0));
    }
}

/// Flattens a rendered plan into its statement sequence, breadth-first.
pub fn render_plan(root: Query) -> (r: Vec<String>)
    ensures
        strings_view(r) == spec_render(seq![root@]),
{
    let ghost rv = root@;
    let mut queue: Vec<Query> = Vec::new();
    queue.push(root);
    let mut out: Vec<String> = Vec::new();
    proof {
        assert(queries_vec_view(queue) =~= seq![rv]);
        assert(strings_view(out) =~= Seq::<Seq<char>>::empty());
        assert(strings_view(out) + spec_render(queries_vec_view(queue)) =~= spec_render(seq![rv]));
    }
    while queue.len() > 0
        invariant
            spec_render(seq![rv]) =~= strings_view(out) + spec_render(queries_vec_view(queue)),
        decreases seq_sizes(queries_vec_view(queue), 0),
    {
        let ghost qv = queries_vec_view(queue);
        let head = queue.remove(0);
        let ghost hv = head@;
        proof {
            assert(hv == qv[0]);
            assert(queries_vec_view(queue) =~= qv.drop_first());
        }
        let Query { query, is_fast: _, children } = head;
        let mut children = children;
        let ghost chv = children;
        let ghost prev_out = strings_view(out);
        match query {
            Some(s) => {
                let ghost sv = s@;
                out.push(s);
                proof {
                    assert(hv.query == Option::Some(sv));
                    assert(strings_view(out) =~= prev_out.push(sv));
                }
            },
            None => {
                proof {
                    assert(hv.query is None);
                }
            },
        }
        queue.append(&mut children);
        proof {
            lemma_queries_view(chv, 0);
            assert(hv.children == queries_view(chv, 0));
            assert forall|k: int| 0 <= k < queue@.len() implies queries_vec_view(queue)[k] == (
            qv.drop_first() + hv.children)[k] by {
                if k < qv.drop_first().len() {
                } else {
                    assert(queue@[k] == chv@[k - (qv.len() - 1)]);
                    assert(hv.children[k - (qv.len() - 1)] == query_view(
                        chv@[k - (qv.len() - 1)],
                    ));
                }
            }
            assert(queries_vec_view(queue) =~= qv.drop_first() + hv.children);
            // the dequeued node's statement keeps the flattening aligned
            let rest = qv.drop_first() + hv.children;
            assert(spec_render(qv) == (match hv.query {
                Option::Some(q) => seq![q] + spec_render(rest),
                Option::None => spec_render(rest),
            }));
            match hv.query {
                Option::Some(q) => {
                    assert(strings_view(out) + spec_render(rest) =~= prev_out + (seq![q]
                        + spec_render(rest)));
                },
                Option::None => {},
            }
            // the measure shrinks by exactly the dequeued node
            lemma_seq_sizes_concat(qv.drop_first(), hv.children, 0);
            lemma_seq_sizes_drop_first(qv, 0);
            assert(seq_sizes(qv, 0) == query_size(qv[0]) + seq_sizes(qv, 1));
            assert(seq_sizes(queries_vec_view(queue), 0) < seq_sizes(qv, 0));
        }
    }
    proof {
        assert(queries_vec_view(queue) =~= Seq::<QueryV>::empty());
        assert(spec_render(queries_vec_view(queue)) =~= Seq::<Seq<char>>::empty());
        assert(strings_view(out) =~= strings_view(out) + spec_render(queries_vec_view(queue)));
        assert(strings_view(out) =~= spec_render(seq![rv]));
    }
    out
}

} // verus!
