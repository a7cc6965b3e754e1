//! Recursive, set-based tree diff over two catalog trees. The result is an
//! operation tree: each node carries zero or one statement-producing action
//! plus child nodes; `None` anywhere in the recursion means "no difference,
//! prune this branch".

use vstd::prelude::*;
use crate::model::{
    Catalog, CatalogV, Schema, SchemaV, Table, TableV, catalog_wf, schema_wf, has_table, table_at,
    has_schema, schema_at, table_names_unique, table_index, schema_index,
};

verus! {

/// The table fields an operation needs: dotted-path components plus the
/// metadata the renderer's clone policy reads.
pub struct TableRef {
    pub catalog_name: String,
    pub schema_name: String,
    pub name: String,
    pub table_type: String,
    pub data_source_format: Option<String>,
    pub updated_at: i64,
}

pub struct TableRefV {
    pub catalog_name: Seq<char>,
    pub schema_name: Seq<char>,
    pub name: Seq<char>,
    pub table_type: Seq<char>,
    pub data_source_format: Option<Seq<char>>,
    pub updated_at: int,
}

impl View for TableRef {
    type V = TableRefV;

    open spec fn view(&self) -> TableRefV {
        TableRefV {
            catalog_name: self.catalog_name@,
            schema_name: self.schema_name@,
            name: self.name@,
            table_type: self.table_type@,
            data_source_format: match self.data_source_format {
                Option::Some(f) => Option::Some(f@),
                Option::None => Option::None,
            },
            updated_at: self.updated_at as int,
        }
    }
}

/// The projection of a table to the fields an operation carries.
pub open spec fn table_ref_of(t: TableV) -> TableRefV {
    TableRefV {
        catalog_name: t.catalog_name,
        schema_name: t.schema_name,
        name: t.name,
        table_type: t.table_type,
        data_source_format: t.data_source_format,
        updated_at: t.updated_at,
    }
}

/// One statement-producing action of the plan.
pub enum Operation {
    CreateCatalog { name: String },
    CreateSchema { catalog_name: String, name: String },
    DropCatalog { name: String },
    DropSchema { catalog_name: String, name: String },
    DropTable { table: TableRef },
    CloneTable { source: TableRef, target: Option<TableRef> },
}

pub enum OperationV {
    CreateCatalog { name: Seq<char> },
    CreateSchema { catalog_name: Seq<char>, name: Seq<char> },
    DropCatalog { name: Seq<char> },
    DropSchema { catalog_name: Seq<char>, name: Seq<char> },
    DropTable { table: TableRefV },
    CloneTable { source: TableRefV, target: Option<TableRefV> },
}

impl View for Operation {
    type V = OperationV;

    open spec fn view(&self) -> OperationV {
        match self {
            Operation::CreateCatalog { name } => OperationV::CreateCatalog { name: name@ },
            Operation::CreateSchema { catalog_name, name } => OperationV::CreateSchema {
                catalog_name: catalog_name@,
                name: name@,
            },
            Operation::DropCatalog { name } => OperationV::DropCatalog { name: name@ },
            Operation::DropSchema { catalog_name, name } => OperationV::DropSchema {
                catalog_name: catalog_name@,
                name: name@,
            },
            Operation::DropTable { table } => OperationV::DropTable { table: table@ },
            Operation::CloneTable { source, target } => OperationV::CloneTable {
                source: source@,
                target: match target {
                    Option::Some(t) => Option::Some(t@),
                    Option::None => Option::None,
                },
            },
        }
    }
}

/// One node of the operation tree.
pub struct DiffNode {
    pub operation: Option<Operation>,
    pub children: Vec<DiffNode>,
}

pub struct DiffNodeV {
    pub operation: Option<OperationV>,
    pub children: Seq<DiffNodeV>,
}

pub open spec fn diff_node_view(n: DiffNode) -> DiffNodeV
    decreases n, 0int,
{
    DiffNodeV {
        operation: match n.operation {
            Option::Some(op) => Option::Some(op@),
            Option::None => Option::None,
        },
        children: diff_nodes_view(n.children, 0),
    }
}

pub open spec fn diff_nodes_view(ns: Vec<DiffNode>, i: int) -> Seq<DiffNodeV>
    decreases ns, ns.len() - i,
{
    if 0 <= i < ns.len() {
        proof {
            assert(decreases_to!(ns => ns[i]));
        }
        seq![diff_node_view(ns[i])] + diff_nodes_view(ns, i + 1)
    } else {
        Seq::empty()
    }
}

impl View for DiffNode {
    type V = DiffNodeV;

    open spec fn view(&self) -> DiffNodeV {
        diff_node_view(*self)
    }
}

/// The view of a node vector, element by element.
pub proof fn lemma_diff_nodes_view(ns: Vec<DiffNode>, i: int)
    requires
        0 <= i <= ns.len(),
    ensures
        diff_nodes_view(ns, i).len() == ns.len() - i,
        forall|k: int|
            i <= k < ns.len() ==> diff_nodes_view(ns, i)[k - i] == diff_node_view(ns[k]),
    decreases ns.len() - i,
{
    if i < ns.len() {
        lemma_diff_nodes_view(ns, i + 1);
    }
}

// ---------------------------------------------------------------------------
// The diff, as a mathematical definition over tree views
// ---------------------------------------------------------------------------

/// The leaf decision for a table: absent on the target side means
/// create-and-clone; present means replace-via-clone exactly when the source
/// is newer by strictly more than the staleness threshold (both sides in
/// epoch milliseconds), and nothing otherwise.
pub open spec fn spec_table_diff(src: TableV, tgt: Option<TableV>, threshold: int) -> Option<
    DiffNodeV,
> {
    match tgt {
        Option::None => Option::Some(clone_node(src, Option::None)),
        Option::Some(t) => if src.updated_at - t.updated_at > threshold {
            Option::Some(clone_node(src, Option::Some(t)))
        } else {
            Option::None
        },
    }
}

pub open spec fn clone_node(src: TableV, tgt: Option<TableV>) -> DiffNodeV {
    DiffNodeV {
        operation: Option::Some(
            OperationV::CloneTable {
                source: table_ref_of(src),
                target: match tgt {
                    Option::Some(t) => Option::Some(table_ref_of(t)),
                    Option::None => Option::None,
                },
            },
        ),
        children: Seq::empty(),
    }
}

pub open spec fn drop_table_node(t: TableV) -> DiffNodeV {
    DiffNodeV {
        operation: Option::Some(OperationV::DropTable { table: table_ref_of(t) }),
        children: Seq::empty(),
    }
}

pub open spec fn drop_schema_node(s: SchemaV) -> DiffNodeV {
    DiffNodeV {
        operation: Option::Some(
            OperationV::DropSchema { catalog_name: s.catalog_name, name: s.name },
        ),
        children: Seq::empty(),
    }
}

/// Create-everything below a schema: one clone node per table, in order.
pub open spec fn create_table_nodes(ts: Seq<TableV>, i: int) -> Seq<DiffNodeV>
    decreases ts.len() - i,
{
    if 0 <= i < ts.len() {
        seq![clone_node(ts[i], Option::None)] + create_table_nodes(ts, i + 1)
    } else {
        Seq::empty()
    }
}

/// A schema compared against nothing: create it, then everything below it.
pub open spec fn create_schema_node(s: SchemaV) -> DiffNodeV {
    DiffNodeV {
        operation: Option::Some(
            OperationV::CreateSchema { catalog_name: s.catalog_name, name: s.name },
        ),
        children: create_table_nodes(s.tables, 0),
    }
}

/// Diffs of the source tables whose names also exist on the target side,
/// in source order, pruned where the table pair is in sync.
pub open spec fn shared_table_nodes(ts: Seq<TableV>, tgt: SchemaV, threshold: int, i: int) -> Seq<
    DiffNodeV,
>
    decreases ts.len() - i,
{
    if 0 <= i < ts.len() {
        let rest = shared_table_nodes(ts, tgt, threshold, i + 1);
        if has_table(tgt.tables, ts[i].name) {
            match spec_table_diff(ts[i], Option::Some(table_at(tgt.tables, ts[i].name)), threshold) {
                Option::Some(n) => seq![n] + rest,
                Option::None => rest,
            }
        } else {
            rest
        }
    } else {
        Seq::empty()
    }
}

/// Clone nodes for the source tables that are absent on the target side.
pub open spec fn only_source_table_nodes(ts: Seq<TableV>, tgt: SchemaV, i: int) -> Seq<DiffNodeV>
    decreases ts.len() - i,
{
    if 0 <= i < ts.len() {
        let rest = only_source_table_nodes(ts, tgt, i + 1);
        if !has_table(tgt.tables, ts[i].name) {
            seq![clone_node(ts[i], Option::None)] + rest
        } else {
            rest
        }
    } else {
        Seq::empty()
    }
}

/// Childless drop nodes for the target tables that are absent on the source
/// side (deletion cascades, so no per-descendant statement is needed).
pub open spec fn drop_table_nodes(tts: Seq<TableV>, src: SchemaV, i: int) -> Seq<DiffNodeV>
    decreases tts.len() - i,
{
    if 0 <= i < tts.len() {
        let rest = drop_table_nodes(tts, src, i + 1);
        if !has_table(src.tables, tts[i].name) {
            seq![drop_table_node(tts[i])] + rest
        } else {
            rest
        }
    } else {
        Seq::empty()
    }
}

/// A schema-level comparison: create everything when the target schema is
/// absent; otherwise partition tables into shared / only-source /
/// only-target, and prune to `None` when no child produced a difference.
pub open spec fn spec_schema_diff(src: SchemaV, tgt: Option<SchemaV>, threshold: int) -> Option<
    DiffNodeV,
> {
    match tgt {
        Option::None => Option::Some(create_schema_node(src)),
        Option::Some(t) => {
            let ch = shared_table_nodes(src.tables, t, threshold, 0) + only_source_table_nodes(
                src.tables,
                t,
                0,
            ) + drop_table_nodes(t.tables, src, 0);
            if ch.len() > 0 {
                Option::Some(DiffNodeV { operation: Option::None, children: ch })
            } else {
                Option::None
            }
        },
    }
}

/// Create-everything below a catalog: one create-schema subtree per schema.
pub open spec fn create_schema_nodes(ss: Seq<SchemaV>, i: int) -> Seq<DiffNodeV>
    decreases ss.len() - i,
{
    if 0 <= i < ss.len() {
        seq![create_schema_node(ss[i])] + create_schema_nodes(ss, i + 1)
    } else {
        Seq::empty()
    }
}

pub open spec fn shared_schema_nodes(ss: Seq<SchemaV>, tgt: CatalogV, threshold: int, i: int) -> Seq<
    DiffNodeV,
>
    decreases ss.len() - i,
{
    if 0 <= i < ss.len() {
        let rest = shared_schema_nodes(ss, tgt, threshold, i + 1);
        if has_schema(tgt.schemas, ss[i].name) {
            match spec_schema_diff(
                ss[i],
                Option::Some(schema_at(tgt.schemas, ss[i].name)),
                threshold,
            ) {
                Option::Some(n) => seq![n] + rest,
                Option::None => rest,
            }
        } else {
            rest
        }
    } else {
        Seq::empty()
    }
}

pub open spec fn only_source_schema_nodes(ss: Seq<SchemaV>, tgt: CatalogV, i: int) -> Seq<DiffNodeV>
    decreases ss.len() - i,
{
    if 0 <= i < ss.len() {
        let rest = only_source_schema_nodes(ss, tgt, i + 1);
        if !has_schema(tgt.schemas, ss[i].name) {
            seq![create_schema_node(ss[i])] + rest
        } else {
            rest
        }
    } else {
        Seq::empty()
    }
}

pub open spec fn drop_schema_nodes(tss: Seq<SchemaV>, src: CatalogV, i: int) -> Seq<DiffNodeV>
    decreases tss.len() - i,
{
    if 0 <= i < tss.len() {
        let rest = drop_schema_nodes(tss, src, i + 1);
        if !has_schema(src.schemas, tss[i].name) {
            seq![drop_schema_node(tss[i])] + rest
        } else {
            rest
        }
    } else {
        Seq::empty()
    }
}

/// A catalog-level comparison, with the same shape as the schema level.
pub open spec fn spec_catalog_diff(src: CatalogV, tgt: Option<CatalogV>, threshold: int) -> Option<
    DiffNodeV,
> {
    match tgt {
        Option::None => Option::Some(
            DiffNodeV {
                operation: Option::Some(OperationV::CreateCatalog { name: src.name }),
                children: create_schema_nodes(src.schemas, 0),
            },
        ),
        Option::Some(t) => {
            let ch = shared_schema_nodes(src.schemas, t, threshold, 0) + only_source_schema_nodes(
                src.schemas,
                t,
                0,
            ) + drop_schema_nodes(t.schemas, src, 0);
            if ch.len() > 0 {
                Option::Some(DiffNodeV { operation: Option::None, children: ch })
            } else {
                Option::None
            }
        },
    }
}

// ---------------------------------------------------------------------------
// Executable diff
// ---------------------------------------------------------------------------

pub open spec fn opt_node_view(r: Option<DiffNode>) -> Option<DiffNodeV> {
    match r {
        Option::Some(n) => Option::Some(n@),
        Option::None => Option::None,
    }
}

pub open spec fn opt_table_view(o: Option<&Table>) -> Option<TableV> {
    match o {
        Option::Some(t) => Option::Some(t@),
        Option::None => Option::None,
    }
}

pub open spec fn opt_schema_view(o: Option<&Schema>) -> Option<SchemaV> {
    match o {
        Option::Some(s) => Option::Some(s@),
        Option::None => Option::None,
    }
}

pub open spec fn opt_catalog_view(o: Option<&Catalog>) -> Option<CatalogV> {
    match o {
        Option::Some(c) => Option::Some(c@),
        Option::None => Option::None,
    }
}

/// The element-wise view of an already-built node vector.
pub open spec fn nodes_vec_view(v: Vec<DiffNode>) -> Seq<DiffNodeV> {
    Seq::new(v@.len(), |k: int| v@[k]@)
}

fn table_ref_from(t: &Table) -> (r: TableRef)
    ensures
        r@ == table_ref_of(t@),
{
    TableRef {
        catalog_name: t.catalog_name.clone(),
        schema_name: t.schema_name.clone(),
        name: t.name.clone(),
        table_type: t.table_type.clone(),
        data_source_format: match &t.data_source_format {
            Option::Some(f) => Option::Some(f.clone()),
            Option::None => Option::None,
        },
        updated_at: t.updated_at,
    }
}

impl Table {
    /// The leaf comparison: clone when the target table is absent or stale
    /// by strictly more than `threshold_millis`, nothing otherwise.
    pub fn diff(&self, other: Option<&Table>, threshold_millis: i64) -> (r: Option<DiffNode>)
        ensures
            opt_node_view(r) == spec_table_diff(self@, opt_table_view(other), threshold_millis as int),
    {
        match other {
            Option::Some(o) => {
                if (self.updated_at as i128) - (o.updated_at as i128) > (
                threshold_millis as i128) {
                    let node = DiffNode {
                        operation: Some(
                            Operation::CloneTable {
                                source: table_ref_from(self),
                                target: Some(table_ref_from(o)),
                            },
                        ),
                        children: Vec::new(),
                    };
                    proof {
                        assert(node@.children =~= Seq::<DiffNodeV>::empty());
                        assert(node@ == clone_node(self@, Option::Some(o@)));
                    }
                    Some(node)
                } else {
                    None
                }
            },
            Option::None => {
                let node = DiffNode {
                    operation: Some(
                        Operation::CloneTable { source: table_ref_from(self), target: None },
                    ),
                    children: Vec::new(),
                };
                proof {
                    assert(node@.children =~= Seq::<DiffNodeV>::empty());
                    assert(node@ == clone_node(self@, Option::None));
                }
                Some(node)
            },
        }
    }
}

fn drop_table_node_from(t: &Table) -> (r: DiffNode)
    ensures
        r@ == drop_table_node(t@),
{
    let node = DiffNode {
        operation: Some(Operation::DropTable { table: table_ref_from(t) }),
        children: Vec::new(),
    };
    proof {
        assert(node@.children =~= Seq::<DiffNodeV>::empty());
    }
    node
}

fn drop_schema_node_from(s: &Schema) -> (r: DiffNode)
    ensures
        r@ == drop_schema_node(s@),
{
    let node = DiffNode {
        operation: Some(
            Operation::DropSchema { catalog_name: s.catalog_name.clone(), name: s.name.clone() },
        ),
        children: Vec::new(),
    };
    proof {
        assert(node@.children =~= Seq::<DiffNodeV>::empty());
    }
    node
}

impl Schema {
    /// The schema-level comparison, as `spec_schema_diff` describes it.
    pub fn diff(&self, other: Option<&Schema>, threshold_millis: i64) -> (r: Option<DiffNode>)
        requires
            match other {
                Option::Some(o) => table_names_unique(self@.tables) && table_names_unique(
                    o@.tables,
                ),
                Option::None => true,
            },
        ensures
            opt_node_view(r) == spec_schema_diff(
                self@,
                opt_schema_view(other),
                threshold_millis as int,
            ),
    {
        let ghost th = threshold_millis as int;
        let ghost sts = self@.tables;
        match other {
            Option::None => {
                let mut children: Vec<DiffNode> = Vec::new();
                let n = self.tables.len();
                let mut i: usize = 0;
                proof {
                    assert(nodes_vec_view(children) =~= Seq::<DiffNodeV>::empty());
                    assert(create_table_nodes(sts, 0) =~= nodes_vec_view(children)
                        + create_table_nodes(sts, 0));
                }
                while i < n
                    invariant
                        n == self.tables.len(),
                        sts == self@.tables,
                        0 <= i <= n,
                        n == sts.len(),
                        create_table_nodes(sts, 0) =~= nodes_vec_view(children)
                            + create_table_nodes(sts, i as int),
                    decreases n - i,
                {
                    let ghost prev = nodes_vec_view(children);
                    let node = DiffNode {
                        operation: Some(
                            Operation::CloneTable {
                                source: table_ref_from(&self.tables[i]),
                                target: None,
                            },
                        ),
                        children: Vec::new(),
                    };
                    proof {
                        assert(node@.children =~= Seq::<DiffNodeV>::empty());
                        assert(node@ == clone_node(sts[i as int], Option::None));
                    }
                    children.push(node);
                    proof {
                        assert(nodes_vec_view(children) =~= prev.push(node@));
                        assert(nodes_vec_view(children) + create_table_nodes(sts, i as int + 1)
                            =~= prev + create_table_nodes(sts, i as int));
                    }
                    i = i + 1;
                }
                proof {
                    assert(create_table_nodes(sts, n as int) =~= Seq::<DiffNodeV>::empty());
                    assert(nodes_vec_view(children) =~= create_table_nodes(sts, 0));
                }
                let node = DiffNode {
                    operation: Some(
                        Operation::CreateSchema {
                            catalog_name: self.catalog_name.clone(),
                            name: self.name.clone(),
                        },
                    ),
                    children,
                };
                proof {
                    lemma_diff_nodes_view(node.children, 0);
                    assert(node@.children =~= nodes_vec_view(node.children));
                    assert(node@ == create_schema_node(self@));
                }
                Some(node)
            },
            Option::Some(o) => {
                let ghost ov = o@;
                let mut children: Vec<DiffNode> = Vec::new();
                let n = self.tables.len();
                let mut i: usize = 0;
                proof {
                    assert(Seq::new(o.tables@.len(), |k: int| o.tables@[k]@) =~= ov.tables);
                    assert(Seq::new(self.tables@.len(), |k: int| self.tables@[k]@) =~= sts);
                    assert(nodes_vec_view(children) =~= Seq::<DiffNodeV>::empty());
                    assert(shared_table_nodes(sts, ov, th, 0) =~= nodes_vec_view(children)
                        + shared_table_nodes(sts, ov, th, 0));
                }
                while i < n
                    invariant
                        n == self.tables.len(),
                        sts == self@.tables,
                        ov == o@,
                        th == threshold_millis as int,
                        table_names_unique(sts),
                        table_names_unique(ov.tables),
                        0 <= i <= n,
                        n == sts.len(),
                        shared_table_nodes(sts, ov, th, 0) =~= nodes_vec_view(children)
                            + shared_table_nodes(sts, ov, th, i as int),
                    decreases n - i,
                {
                    let ghost prev = nodes_vec_view(children);
                    proof {
                        assert(Seq::new(o.tables@.len(), |k: int| o.tables@[k]@) =~= ov.tables);
                        assert(sts[i as int] == self.tables@[i as int]@);
                    }
                    match crate::model::find_table_index(&o.tables, &self.tables[i].name) {
                        Some(j) => {
                            proof {
                                assert(ov.tables[j as int] == table_at(
                                    ov.tables,
                                    sts[i as int].name,
                                ));
                            }
                            match self.tables[i].diff(Some(&o.tables[j]), threshold_millis) {
                                Some(node) => {
                                    children.push(node);
                                    proof {
                                        assert(nodes_vec_view(children) =~= prev.push(node@));
                                        assert(nodes_vec_view(children) + shared_table_nodes(
                                            sts,
                                            ov,
                                            th,
                                            i as int + 1,
                                        ) =~= prev + shared_table_nodes(sts, ov, th, i as int));
                                    }
                                },
                                None => {
                                    proof {
                                        assert(shared_table_nodes(sts, ov, th, i as int)
                                            == shared_table_nodes(sts, ov, th, i as int + 1));
                                    }
                                },
                            }
                        },
                        None => {
                            proof {
                                assert(shared_table_nodes(sts, ov, th, i as int)
                                    == shared_table_nodes(sts, ov, th, i as int + 1));
                            }
                        },
                    }
                    i = i + 1;
                }
                let ghost shared_full = shared_table_nodes(sts, ov, th, 0);
                proof {
                    assert(shared_table_nodes(sts, ov, th, n as int) =~= Seq::<DiffNodeV>::empty());
                    assert(nodes_vec_view(children) =~= shared_full);
                }

                let mut i: usize = 0;
                while i < n
                    invariant
                        n == self.tables.len(),
                        sts == self@.tables,
                        ov == o@,
                        th == threshold_millis as int,
                        table_names_unique(ov.tables),
                        0 <= i <= n,
                        n == sts.len(),
                        shared_full == shared_table_nodes(sts, ov, th, 0),
                        shared_full + only_source_table_nodes(sts, ov, 0) =~= nodes_vec_view(
                            children,
                        ) + only_source_table_nodes(sts, ov, i as int),
                    decreases n - i,
                {
                    let ghost prev = nodes_vec_view(children);
                    proof {
                        assert(Seq::new(o.tables@.len(), |k: int| o.tables@[k]@) =~= ov.tables);
                        assert(sts[i as int] == self.tables@[i as int]@);
                    }
                    match crate::model::find_table_index(&o.tables, &self.tables[i].name) {
                        Some(_) => {
                            proof {
                                assert(only_source_table_nodes(sts, ov, i as int)
                                    == only_source_table_nodes(sts, ov, i as int + 1));
                            }
                        },
                        None => {
                            let node = DiffNode {
                                operation: Some(
                                    Operation::CloneTable {
                                        source: table_ref_from(&self.tables[i]),
                                        target: None,
                                    },
                                ),
                                children: Vec::new(),
                            };
                            proof {
                                assert(node@.children =~= Seq::<DiffNodeV>::empty());
                                assert(node@ == clone_node(sts[i as int], Option::None));
                            }
                            children.push(node);
                            proof {
                                assert(nodes_vec_view(children) =~= prev.push(node@));
                                assert(nodes_vec_view(children) + only_source_table_nodes(
                                    sts,
                                    ov,
                                    i as int + 1,
                                ) =~= prev + only_source_table_nodes(sts, ov, i as int));
                            }
                        },
                    }
                    i = i + 1;
                }
                let ghost upto_only = shared_full + only_source_table_nodes(sts, ov, 0);
                proof {
                    assert(only_source_table_nodes(sts, ov, n as int) =~= Seq::<DiffNodeV>::empty());
                    assert(nodes_vec_view(children) =~= upto_only);
                }

                let m = o.tables.len();
                let mut i: usize = 0;
                while i < m
                    invariant
                        m == o.tables.len(),
                        sts == self@.tables,
                        ov == o@,
                        th == threshold_millis as int,
                        table_names_unique(sts),
                        0 <= i <= m,
                        m == ov.tables.len(),
                        upto_only == shared_table_nodes(sts, ov, th, 0) + only_source_table_nodes(
                            sts,
                            ov,
                            0,
                        ),
                        upto_only + drop_table_nodes(ov.tables, self@, 0) =~= nodes_vec_view(
                            children,
                        ) + drop_table_nodes(ov.tables, self@, i as int),
                    decreases m - i,
                {
                    let ghost prev = nodes_vec_view(children);
                    proof {
                        assert(Seq::new(self.tables@.len(), |k: int| self.tables@[k]@) =~= sts);
                        assert(ov.tables[i as int] == o.tables@[i as int]@);
                    }
                    match crate::model::find_table_index(&self.tables, &o.tables[i].name) {
                        Some(_) => {
                            proof {
                                assert(drop_table_nodes(ov.tables, self@, i as int)
                                    == drop_table_nodes(ov.tables, self@, i as int + 1));
                            }
                        },
                        None => {
                            let node = drop_table_node_from(&o.tables[i]);
                            children.push(node);
                            proof {
                                assert(nodes_vec_view(children) =~= prev.push(node@));
                                assert(nodes_vec_view(children) + drop_table_nodes(
                                    ov.tables,
                                    self@,
                                    i as int + 1,
                                ) =~= prev + drop_table_nodes(ov.tables, self@, i as int));
                            }
                        },
                    }
                    i = i + 1;
                }
                let ghost ch = shared_table_nodes(sts, ov, th, 0) + only_source_table_nodes(
                    sts,
                    ov,
                    0,
                ) + drop_table_nodes(ov.tables, self@, 0);
                proof {
                    assert(drop_table_nodes(ov.tables, self@, m as int) =~= Seq::<
                        DiffNodeV,
                    >::empty());
                    assert(nodes_vec_view(children) =~= ch);
                }

                if children.len() > 0 {
                    let node = DiffNode { operation: None, children };
                    proof {
                        lemma_diff_nodes_view(node.children, 0);
                        assert(node@.children =~= nodes_vec_view(node.children));
                        assert(node@ == (DiffNodeV { operation: Option::None, children: ch }));
                    }
                    Some(node)
                } else {
                    proof {
                        assert(nodes_vec_view(children).len() == 0);
                        assert(ch.len() == 0);
                    }
                    None
                }
            },
        }
    }
}

impl Catalog {
    /// The catalog-level comparison, as `spec_catalog_diff` describes it.
    /// Both sides must be well-formed trees when a target is compared.
    pub fn diff(&self, other: Option<&Catalog>, threshold_millis: i64) -> (r: Option<DiffNode>)
        requires
            match other {
                Option::Some(o) => catalog_wf(self@) && catalog_wf(o@),
                Option::None => true,
            },
        ensures
            opt_node_view(r) == spec_catalog_diff(
                self@,
                opt_catalog_view(other),
                threshold_millis as int,
            ),
    {
        let ghost th = threshold_millis as int;
        let ghost sss = self@.schemas;
        match other {
            Option::None => {
                let mut children: Vec<DiffNode> = Vec::new();
                let n = self.schemas.len();
                let mut i: usize = 0;
                proof {
                    assert(nodes_vec_view(children) =~= Seq::<DiffNodeV>::empty());
                    assert(create_schema_nodes(sss, 0) =~= nodes_vec_view(children)
                        + create_schema_nodes(sss, 0));
                }
                while i < n
                    invariant
                        n == self.schemas.len(),
                        sss == self@.schemas,
                        th == threshold_millis as int,
                        0 <= i <= n,
                        n == sss.len(),
                        create_schema_nodes(sss, 0) =~= nodes_vec_view(children)
                            + create_schema_nodes(sss, i as int),
                    decreases n - i,
                {
                    let ghost prev = nodes_vec_view(children);
                    proof {
                        assert(sss[i as int] == self.schemas@[i as int]@);
                    }
                    let d = self.schemas[i].diff(None, threshold_millis);
                    let node = match d {
                        Some(node) => node,
                        None => {
                            proof {
                                assert(false);
                            }
                            DiffNode { operation: None, children: Vec::new() }
                        },
                    };
                    proof {
                        assert(node@ == create_schema_node(sss[i as int]));
                    }
                    children.push(node);
                    proof {
                        assert(nodes_vec_view(children) =~= prev.push(node@));
                        assert(nodes_vec_view(children) + create_schema_nodes(sss, i as int + 1)
                            =~= prev + create_schema_nodes(sss, i as int));
                    }
                    i = i + 1;
                }
                proof {
                    assert(create_schema_nodes(sss, n as int) =~= Seq::<DiffNodeV>::empty());
                    assert(nodes_vec_view(children) =~= create_schema_nodes(sss, 0));
                }
                let node = DiffNode {
                    operation: Some(Operation::CreateCatalog { name: self.name.clone() }),
                    children,
                };
                proof {
                    lemma_diff_nodes_view(node.children, 0);
                    assert(node@.children =~= nodes_vec_view(node.children));
                    assert(node@ == (DiffNodeV {
                        operation: Option::Some(OperationV::CreateCatalog { name: self@.name }),
                        children: create_schema_nodes(sss, 0),
                    }));
                }
                Some(node)
            },
            Option::Some(o) => {
                let ghost ov = o@;
                let mut children: Vec<DiffNode> = Vec::new();
                let n = self.schemas.len();
                let mut i: usize = 0;
                proof {
                    assert(Seq::new(o.schemas@.len(), |k: int| o.schemas@[k]@) =~= ov.schemas);
                    assert(Seq::new(self.schemas@.len(), |k: int| self.schemas@[k]@) =~= sss);
                    assert(nodes_vec_view(children) =~= Seq::<DiffNodeV>::empty());
                    assert(shared_schema_nodes(sss, ov, th, 0) =~= nodes_vec_view(children)
                        + shared_schema_nodes(sss, ov, th, 0));
                }
                while i < n
                    invariant
                        n == self.schemas.len(),
                        sss == self@.schemas,
                        ov == o@,
                        th == threshold_millis as int,
                        catalog_wf(self@),
                        catalog_wf(ov),
                        0 <= i <= n,
                        n == sss.len(),
                        shared_schema_nodes(sss, ov, th, 0) =~= nodes_vec_view(children)
                            + shared_schema_nodes(sss, ov, th, i as int),
                    decreases n - i,
                {
                    let ghost prev = nodes_vec_view(children);
                    proof {
                        assert(Seq::new(o.schemas@.len(), |k: int| o.schemas@[k]@) =~= ov.schemas);
                        assert(sss[i as int] == self.schemas@[i as int]@);
                        assert(schema_wf(sss[i as int]));
                    }
                    match crate::model::find_schema_index(&o.schemas, &self.schemas[i].name) {
                        Some(j) => {
                            proof {
                                assert(ov.schemas[j as int] == schema_at(
                                    ov.schemas,
                                    sss[i as int].name,
                                ));
                                assert(schema_wf(ov.schemas[j as int]));
                            }
                            match self.schemas[i].diff(Some(&o.schemas[j]), threshold_millis) {
                                Some(node) => {
                                    children.push(node);
                                    proof {
                                        assert(nodes_vec_view(children) =~= prev.push(node@));
                                        assert(nodes_vec_view(children) + shared_schema_nodes(
                                            sss,
                                            ov,
                                            th,
                                            i as int + 1,
                                        ) =~= prev + shared_schema_nodes(sss, ov, th, i as int));
                                    }
                                },
                                None => {
                                    proof {
                                        assert(shared_schema_nodes(sss, ov, th, i as int)
                                            == shared_schema_nodes(sss, ov, th, i as int + 1));
                                    }
                                },
                            }
                        },
                        None => {
                            proof {
                                assert(shared_schema_nodes(sss, ov, th, i as int)
                                    == shared_schema_nodes(sss, ov, th, i as int + 1));
                            }
                        },
                    }
                    i = i + 1;
                }
                let ghost shared_full = shared_schema_nodes(sss, ov, th, 0);
                proof {
                    assert(shared_schema_nodes(sss, ov, th, n as int) =~= Seq::<
                        DiffNodeV,
                    >::empty());
                    assert(nodes_vec_view(children) =~= shared_full);
                }

                let mut i: usize = 0;
                while i < n
                    invariant
                        n == self.schemas.len(),
                        sss == self@.schemas,
                        ov == o@,
                        th == threshold_millis as int,
                        catalog_wf(ov),
                        0 <= i <= n,
                        n == sss.len(),
                        shared_full == shared_schema_nodes(sss, ov, th, 0),
                        shared_full + only_source_schema_nodes(sss, ov, 0) =~= nodes_vec_view(
                            children,
                        ) + only_source_schema_nodes(sss, ov, i as int),
                    decreases n - i,
                {
                    let ghost prev = nodes_vec_view(children);
                    proof {
                        assert(Seq::new(o.schemas@.len(), |k: int| o.schemas@[k]@) =~= ov.schemas);
                        assert(sss[i as int] == self.schemas@[i as int]@);
                    }
                    match crate::model::find_schema_index(&o.schemas, &self.schemas[i].name) {
                        Some(_) => {
                            proof {
                                assert(only_source_schema_nodes(sss, ov, i as int)
                                    == only_source_schema_nodes(sss, ov, i as int + 1));
                            }
                        },
                        None => {
                            let d = self.schemas[i].diff(None, threshold_millis);
                            let node = match d {
                                Some(node) => node,
                                None => {
                                    proof {
                                        assert(false);
                                    }
                                    DiffNode { operation: None, children: Vec::new() }
                                },
                            };
                            proof {
                                assert(node@ == create_schema_node(sss[i as int]));
                            }
                            children.push(node);
                            proof {
                                assert(nodes_vec_view(children) =~= prev.push(node@));
                                assert(nodes_vec_view(children) + only_source_schema_nodes(
                                    sss,
                                    ov,
                                    i as int + 1,
                                ) =~= prev + only_source_schema_nodes(sss, ov, i as int));
                            }
                        },
                    }
                    i = i + 1;
                }
                let ghost upto_only = shared_full + only_source_schema_nodes(sss, ov, 0);
                proof {
                    assert(only_source_schema_nodes(sss, ov, n as int) =~= Seq::<
                        DiffNodeV,
                    >::empty());
                    assert(nodes_vec_view(children) =~= upto_only);
                }

                let m = o.schemas.len();
                let mut i: usize = 0;
                while i < m
                    invariant
                        m == o.schemas.len(),
                        sss == self@.schemas,
                        ov == o@,
                        th == threshold_millis as int,
                        catalog_wf(self@),
                        0 <= i <= m,
                        m == ov.schemas.len(),
                        upto_only == shared_schema_nodes(sss, ov, th, 0)
                            + only_source_schema_nodes(sss, ov, 0),
                        upto_only + drop_schema_nodes(ov.schemas, self@, 0) =~= nodes_vec_view(
                            children,
                        ) + drop_schema_nodes(ov.schemas, self@, i as int),
                    decreases m - i,
                {
                    let ghost prev = nodes_vec_view(children);
                    proof {
                        assert(Seq::new(self.schemas@.len(), |k: int| self.schemas@[k]@) =~= sss);
                        assert(ov.schemas[i as int] == o.schemas@[i as int]@);
                    }
                    match crate::model::find_schema_index(&self.schemas, &o.schemas[i].name) {
                        Some(_) => {
                            proof {
                                assert(drop_schema_nodes(ov.schemas, self@, i as int)
                                    == drop_schema_nodes(ov.schemas, self@, i as int + 1));
                            }
                        },
                        None => {
                            let node = drop_schema_node_from(&o.schemas[i]);
                            children.push(node);
                            proof {
                                assert(nodes_vec_view(children) =~= prev.push(node@));
                                assert(nodes_vec_view(children) + drop_schema_nodes(
                                    ov.schemas,
                                    self@,
                                    i as int + 1,
                                ) =~= prev + drop_schema_nodes(ov.schemas, self@, i as int));
                            }
                        },
                    }
                    i = i + 1;
                }
                let ghost ch = shared_schema_nodes(sss, ov, th, 0) + only_source_schema_nodes(
                    sss,
                    ov,
                    0,
                ) + drop_schema_nodes(ov.schemas, self@, 0);
                proof {
                    assert(drop_schema_nodes(ov.schemas, self@, m as int) =~= Seq::<
                        DiffNodeV,
                    >::empty());
                    assert(nodes_vec_view(children) =~= ch);
                }

                if children.len() > 0 {
                    let node = DiffNode { operation: None, children };
                    proof {
                        lemma_diff_nodes_view(node.children, 0);
                        assert(node@.children =~= nodes_vec_view(node.children));
                        assert(node@ == (DiffNodeV { operation: Option::None, children: ch }));
                    }
                    Some(node)
                } else {
                    proof {
                        assert(nodes_vec_view(children).len() == 0);
                        assert(ch.len() == 0);
                    }
                    None
                }
            },
        }
    }
}

// ---------------------------------------------------------------------------
// Tree formatting, for diagnostics
// ---------------------------------------------------------------------------

pub open spec fn table_ref_path(t: TableRefV) -> Seq<char> {
    t.catalog_name + "."@ + t.schema_name + "."@ + t.name
}

pub open spec fn op_label(op: OperationV) -> Seq<char> {
    match op {
        OperationV::CreateCatalog { name } => "CreateCatalog "@ + name,
        OperationV::CreateSchema { catalog_name, name } => "CreateSchema "@ + catalog_name + "."@
            + name,
        OperationV::DropCatalog { name } => "DropCatalog "@ + name,
        OperationV::DropSchema { catalog_name, name } => "DropSchema "@ + catalog_name + "."@
            + name,
        OperationV::DropTable { table } => "DropTable "@ + table_ref_path(table),
        OperationV::CloneTable { source, target } => match target {
            Option::Some(t) => "CloneTable "@ + table_ref_path(source) + " over "@
                + table_ref_path(t),
            Option::None => "CloneTable "@ + table_ref_path(source),
        },
    }
}

pub open spec fn node_label(n: DiffNodeV) -> Seq<char> {
    match n.operation {
        Option::Some(op) => "+- "@ + op_label(op),
        Option::None => "+- <noop>"@,
    }
}

/// One line per node, each child indented one step below its parent.
pub open spec fn spec_format_tree(n: DiffNodeV, prefix: Seq<char>) -> Seq<char>
    decreases n, 0int,
{
    prefix + node_label(n) + "\n"@ + spec_format_nodes(n.children, prefix + "| "@, 0)
}

pub open spec fn spec_format_nodes(ns: Seq<DiffNodeV>, prefix: Seq<char>, i: int) -> Seq<char>
    decreases ns, ns.len() - i,
{
    if 0 <= i < ns.len() {
        proof {
            assert(decreases_to!(ns => ns[i]));
        }
        spec_format_tree(ns[i], prefix) + spec_format_nodes(ns, prefix, i + 1)
    } else {
        Seq::empty()
    }
}

fn op_label_string(op: &Operation) -> (r: String)
    ensures
        r@ == op_label(op@),
{
    match op {
        Operation::CreateCatalog { name } => String::from_str("CreateCatalog ").concat(
            name.as_str(),
        ),
        Operation::CreateSchema { catalog_name, name } => String::from_str("CreateSchema ").concat(
            catalog_name.as_str(),
        ).concat(".").concat(name.as_str()),
        Operation::DropCatalog { name } => String::from_str("DropCatalog ").concat(name.as_str()),
        Operation::DropSchema { catalog_name, name } => String::from_str("DropSchema ").concat(
            catalog_name.as_str(),
        ).concat(".").concat(name.as_str()),
        Operation::DropTable { table } => String::from_str("DropTable ").concat(
            table.catalog_name.as_str(),
        ).concat(".").concat(table.schema_name.as_str()).concat(".").concat(table.name.as_str()),
        Operation::CloneTable { source, target } => {
            let src = String::from_str(source.catalog_name.as_str()).concat(".").concat(
                source.schema_name.as_str(),
            ).concat(".").concat(source.name.as_str());
            match target {
                Option::Some(t) => String::from_str("CloneTable ").concat(src.as_str()).concat(
                    " over ",
                ).concat(t.catalog_name.as_str()).concat(".").concat(t.schema_name.as_str()).concat(
                    ".",
                ).concat(t.name.as_str()),
                Option::None => String::from_str("CloneTable ").concat(src.as_str()),
            }
        },
    }
}

impl DiffNode {
    fn format_subtree(&self, prefix: &String) -> (r: String)
        ensures
            r@ == spec_format_tree(self@, prefix@),
        decreases *self, 1int,
    {
        let mut s = String::from_str(prefix.as_str());
        match &self.operation {
            Option::Some(op) => {
                s.append("+- ");
                let label = op_label_string(op);
                s.append(label.as_str());
            },
            Option::None => {
                s.append("+- <noop>");
            },
        }
        s.append("\n");
        let ghost head = prefix@ + node_label(self@) + "\n"@;
        proof {
            assert(s@ == head);
        }
        let child_prefix = String::from_str(prefix.as_str()).concat("| ");
        let ghost cp = prefix@ + "| "@;
        let ghost cv = self@.children;
        proof {
            lemma_diff_nodes_view(self.children, 0);
        }
        let n = self.children.len();
        let mut i: usize = 0;
        while i < n
            invariant
                n == self.children.len(),
                cv == self@.children,
                n == cv.len(),
                forall|k: int| 0 <= k < n ==> cv[k] == diff_node_view(self.children@[k]),
                head == prefix@ + node_label(self@) + "\n"@,
                cp == prefix@ + "| "@,
                child_prefix@ == cp,
                0 <= i <= n,
                spec_format_tree(self@, prefix@) == s@ + spec_format_nodes(cv, cp, i as int),
            decreases n - i,
        {
            let ghost prev = s@;
            proof {
                assert(decreases_to!(*self => self.children));
                assert(decreases_to!(self.children => self.children[i as int]));
            }
            let sub = self.children[i].format_subtree(&child_prefix);
            s.append(sub.as_str());
            proof {
                assert(sub@ == spec_format_tree(cv[i as int], cp));
                assert(s@ + spec_format_nodes(cv, cp, i as int + 1) =~= prev + spec_format_nodes(
                    cv,
                    cp,
                    i as int,
                ));
            }
            i = i + 1;
        }
        proof {
            assert(spec_format_nodes(cv, cp, n as int) =~= Seq::<char>::empty());
            assert(s@ =~= s@ + spec_format_nodes(cv, cp, n as int));
        }
        s
    }

    /// Renders the operation tree as an indented line-per-node listing.
    pub fn format_tree(&self) -> (r: String)
        ensures
            r@ == spec_format_tree(self@, Seq::<char>::empty()),
    {
        let empty = String::new();
        self.format_subtree(&empty)
    }
}

// ---------------------------------------------------------------------------
// Laws of the diff
// ---------------------------------------------------------------------------

/// Element-wise description of `create_table_nodes`.
pub proof fn lemma_create_table_nodes(ts: Seq<TableV>, i: int)
    requires
        0 <= i <= ts.len(),
    ensures
        create_table_nodes(ts, i).len() == ts.len() - i,
        forall|k: int|
            i <= k < ts.len() ==> create_table_nodes(ts, i)[k - i] == clone_node(
                ts[k],
                Option::None,
            ),
    decreases ts.len() - i,
{
    if i < ts.len() {
        lemma_create_table_nodes(ts, i + 1);
    }
}

/// Element-wise description of `create_schema_nodes`.
pub proof fn lemma_create_schema_nodes(ss: Seq<SchemaV>, i: int)
    requires
        0 <= i <= ss.len(),
    ensures
        create_schema_nodes(ss, i).len() == ss.len() - i,
        forall|k: int|
            i <= k < ss.len() ==> create_schema_nodes(ss, i)[k - i] == create_schema_node(ss[k]),
    decreases ss.len() - i,
{
    if i < ss.len() {
        lemma_create_schema_nodes(ss, i + 1);
    }
}

/// A table compared against itself is in sync whenever the staleness
/// threshold is not negative.
pub proof fn lemma_table_diff_self(t: TableV, threshold: int)
    requires
        threshold >= 0,
    ensures
        spec_table_diff(t, Option::Some(t), threshold) is None,
{
}

proof fn lemma_shared_table_nodes_self(s: SchemaV, threshold: int, i: int)
    requires
        threshold >= 0,
        table_names_unique(s.tables),
        0 <= i <= s.tables.len(),
    ensures
        shared_table_nodes(s.tables, s, threshold, i) == Seq::<DiffNodeV>::empty(),
    decreases s.tables.len() - i,
{
    let ts = s.tables;
    if i < ts.len() {
        lemma_shared_table_nodes_self(s, threshold, i + 1);
        assert(has_table(ts, ts[i].name));
        let j = table_index(ts, ts[i].name);
        assert(0 <= j < ts.len() && ts[j].name == ts[i].name);
        assert(j == i);
        assert(table_at(ts, ts[i].name) == ts[i]);
        assert(shared_table_nodes(ts, s, threshold, i) =~= Seq::<DiffNodeV>::empty());
    } else {
        assert(shared_table_nodes(ts, s, threshold, i) =~= Seq::<DiffNodeV>::empty());
    }
}

proof fn lemma_only_source_table_nodes_self(s: SchemaV, i: int)
    requires
        0 <= i <= s.tables.len(),
    ensures
        only_source_table_nodes(s.tables, s, i) == Seq::<DiffNodeV>::empty(),
    decreases s.tables.len() - i,
{
    let ts = s.tables;
    if i < ts.len() {
        lemma_only_source_table_nodes_self(s, i + 1);
        assert(has_table(ts, ts[i].name));
        assert(only_source_table_nodes(ts, s, i) =~= Seq::<DiffNodeV>::empty());
    } else {
        assert(only_source_table_nodes(ts, s, i) =~= Seq::<DiffNodeV>::empty());
    }
}

proof fn lemma_drop_table_nodes_self(s: SchemaV, i: int)
    requires
        0 <= i <= s.tables.len(),
    ensures
        drop_table_nodes(s.tables, s, i) == Seq::<DiffNodeV>::empty(),
    decreases s.tables.len() - i,
{
    let ts = s.tables;
    if i < ts.len() {
        lemma_drop_table_nodes_self(s, i + 1);
        assert(has_table(ts, ts[i].name));
        assert(drop_table_nodes(ts, s, i) =~= Seq::<DiffNodeV>::empty());
    } else {
        assert(drop_table_nodes(ts, s, i) =~= Seq::<DiffNodeV>::empty());
    }
}

/// A schema compared against itself yields no plan.
pub proof fn lemma_schema_diff_self(s: SchemaV, threshold: int)
    requires
        threshold >= 0,
        table_names_unique(s.tables),
    ensures
        spec_schema_diff(s, Option::Some(s), threshold) is None,
{
    lemma_shared_table_nodes_self(s, threshold, 0);
    lemma_only_source_table_nodes_self(s, 0);
    lemma_drop_table_nodes_self(s, 0);
}

proof fn lemma_shared_schema_nodes_self(c: CatalogV, threshold: int, i: int)
    requires
        threshold >= 0,
        catalog_wf(c),
        0 <= i <= c.schemas.len(),
    ensures
        shared_schema_nodes(c.schemas, c, threshold, i) == Seq::<DiffNodeV>::empty(),
    decreases c.schemas.len() - i,
{
    let ss = c.schemas;
    if i < ss.len() {
        lemma_shared_schema_nodes_self(c, threshold, i + 1);
        assert(has_schema(ss, ss[i].name));
        let j = schema_index(ss, ss[i].name);
        assert(0 <= j < ss.len() && ss[j].name == ss[i].name);
        assert(j == i);
        assert(schema_at(ss, ss[i].name) == ss[i]);
        assert(schema_wf(ss[i]));
        lemma_schema_diff_self(ss[i], threshold);
        assert(shared_schema_nodes(ss, c, threshold, i) =~= Seq::<DiffNodeV>::empty());
    } else {
        assert(shared_schema_nodes(ss, c, threshold, i) =~= Seq::<DiffNodeV>::empty());
    }
}

proof fn lemma_only_source_schema_nodes_self(c: CatalogV, i: int)
    requires
        0 <= i <= c.schemas.len(),
    ensures
        only_source_schema_nodes(c.schemas, c, i) == Seq::<DiffNodeV>::empty(),
    decreases c.schemas.len() - i,
{
    let ss = c.schemas;
    if i < ss.len() {
        lemma_only_source_schema_nodes_self(c, i + 1);
        assert(has_schema(ss, ss[i].name));
        assert(only_source_schema_nodes(ss, c, i) =~= Seq::<DiffNodeV>::empty());
    } else {
        assert(only_source_schema_nodes(ss, c, i) =~= Seq::<DiffNodeV>::empty());
    }
}

proof fn lemma_drop_schema_nodes_self(c: CatalogV, i: int)
    requires
        0 <= i <= c.schemas.len(),
    ensures
        drop_schema_nodes(c.schemas, c, i) == Seq::<DiffNodeV>::empty(),
    decreases c.schemas.len() - i,
{
    let ss = c.schemas;
    if i < ss.len() {
        lemma_drop_schema_nodes_self(c, i + 1);
        assert(has_schema(ss, ss[i].name));
        assert(drop_schema_nodes(ss, c, i) =~= Seq::<DiffNodeV>::empty());
    } else {
        assert(drop_schema_nodes(ss, c, i) =~= Seq::<DiffNodeV>::empty());
    }
}

/// Diff symmetry on equal trees: a well-formed catalog compared against
/// itself yields no plan at all, for any non-negative threshold.
pub proof fn lemma_catalog_diff_self(c: CatalogV, threshold: int)
    requires
        threshold >= 0,
        catalog_wf(c),
    ensures
        spec_catalog_diff(c, Option::Some(c), threshold) is None,
{
    lemma_shared_schema_nodes_self(c, threshold, 0);
    lemma_only_source_schema_nodes_self(c, 0);
    lemma_drop_schema_nodes_self(c, 0);
}

/// Create-everything: a catalog compared against nothing yields a
/// create-catalog root with exactly one create-schema child per schema, each
/// carrying exactly one childless clone node per table.
pub proof fn lemma_create_everything(c: CatalogV, threshold: int)
    ensures
        spec_catalog_diff(c, Option::None, threshold) is Some,
        ({
            let root = spec_catalog_diff(c, Option::None, threshold)->Some_0;
            &&& root.operation == Option::Some(OperationV::CreateCatalog { name: c.name })
            &&& root.children.len() == c.schemas.len()
            &&& forall|i: int|
                0 <= i < c.schemas.len() ==> (#[trigger] root.children[i]) == create_schema_node(
                    c.schemas[i],
                )
            &&& forall|i: int|
                0 <= i < c.schemas.len() ==> (#[trigger] root.children[i]).children.len()
                    == c.schemas[i].tables.len()
            &&& forall|i: int, k: int|
                0 <= i < c.schemas.len() && 0 <= k < c.schemas[i].tables.len()
                    ==> (#[trigger] root.children[i].children[k]) == clone_node(
                    c.schemas[i].tables[k],
                    Option::None,
                )
        }),
{
    lemma_create_schema_nodes(c.schemas, 0);
    let root = spec_catalog_diff(c, Option::None, threshold)->Some_0;
    assert(root.children == create_schema_nodes(c.schemas, 0));
    assert forall|i: int| 0 <= i < c.schemas.len() implies (#[trigger] root.children[i])
        == create_schema_node(c.schemas[i]) by {
        assert(create_schema_nodes(c.schemas, 0)[i - 0] == create_schema_node(c.schemas[i]));
    }
    assert forall|i: int| 0 <= i < c.schemas.len() implies (
    #[trigger] root.children[i]).children.len() == c.schemas[i].tables.len() by {
        lemma_create_table_nodes(c.schemas[i].tables, 0);
    }
    assert forall|i: int, k: int|
        0 <= i < c.schemas.len() && 0 <= k < c.schemas[i].tables.len() implies (
    #[trigger] root.children[i].children[k]) == clone_node(
        c.schemas[i].tables[k],
        Option::None,
    ) by {
        lemma_create_table_nodes(c.schemas[i].tables, 0);
        assert(create_table_nodes(c.schemas[i].tables, 0)[k - 0] == clone_node(
            c.schemas[i].tables[k],
            Option::None,
        ));
    }
}

/// Staleness threshold boundary: with the difference exactly at the
/// threshold nothing is emitted; strictly above it, a replace-via-clone is.
pub proof fn lemma_staleness_threshold_boundary(src: TableV, tgt: TableV, threshold: int)
    ensures
        src.updated_at - tgt.updated_at <= threshold ==> spec_table_diff(
            src,
            Option::Some(tgt),
            threshold,
        ) is None,
        src.updated_at - tgt.updated_at > threshold ==> spec_table_diff(
            src,
            Option::Some(tgt),
            threshold,
        ) == Option::Some(clone_node(src, Option::Some(tgt))),
{
}

// ---------------------------------------------------------------------------
// Drop nodes never carry children
// ---------------------------------------------------------------------------

pub open spec fn node_drop_ok(n: DiffNodeV) -> bool {
    match n.operation {
        Option::Some(OperationV::DropCatalog { .. }) => n.children.len() == 0,
        Option::Some(OperationV::DropSchema { .. }) => n.children.len() == 0,
        Option::Some(OperationV::DropTable { .. }) => n.children.len() == 0,
        _ => true,
    }
}

/// Every drop node in the tree rooted here is a leaf.
pub open spec fn drops_are_leaves(n: DiffNodeV) -> bool
    decreases n, 0int,
{
    node_drop_ok(n) && all_drops_are_leaves(n.children, 0)
}

pub open spec fn all_drops_are_leaves(ns: Seq<DiffNodeV>, i: int) -> bool
    decreases ns, ns.len() - i,
{
    if 0 <= i < ns.len() {
        proof {
            assert(decreases_to!(ns => ns[i]));
        }
        drops_are_leaves(ns[i]) && all_drops_are_leaves(ns, i + 1)
    } else {
        true
    }
}

pub proof fn lemma_all_drops_pointwise(ns: Seq<DiffNodeV>, i: int)
    requires
        0 <= i <= ns.len(),
    ensures
        all_drops_are_leaves(ns, i) <==> (forall|k: int|
            i <= k < ns.len() ==> drops_are_leaves(#[trigger] ns[k])),
    decreases ns.len() - i,
{
    if i < ns.len() {
        lemma_all_drops_pointwise(ns, i + 1);
    }
}

proof fn lemma_clone_node_drops(src: TableV, tgt: Option<TableV>)
    ensures
        drops_are_leaves(clone_node(src, tgt)),
{
    assert(all_drops_are_leaves(Seq::<DiffNodeV>::empty(), 0));
}

proof fn lemma_drop_table_node_drops(t: TableV)
    ensures
        drops_are_leaves(drop_table_node(t)),
{
    assert(all_drops_are_leaves(Seq::<DiffNodeV>::empty(), 0));
}

proof fn lemma_drop_schema_node_drops(s: SchemaV)
    ensures
        drops_are_leaves(drop_schema_node(s)),
{
    assert(all_drops_are_leaves(Seq::<DiffNodeV>::empty(), 0));
}

proof fn lemma_create_schema_node_drops(s: SchemaV)
    ensures
        drops_are_leaves(create_schema_node(s)),
{
    lemma_create_table_nodes(s.tables, 0);
    let ch = create_table_nodes(s.tables, 0);
    assert forall|k: int| 0 <= k < ch.len() implies drops_are_leaves(#[trigger] ch[k]) by {
        lemma_clone_node_drops(s.tables[k], Option::None);
    }
    lemma_all_drops_pointwise(ch, 0);
}

proof fn lemma_schema_diff_drops(src: SchemaV, tgt: Option<SchemaV>, threshold: int)
    ensures
        match spec_schema_diff(src, tgt, threshold) {
            Option::Some(n) => drops_are_leaves(n),
            Option::None => true,
        },
{
    match tgt {
        Option::None => {
            lemma_create_schema_node_drops(src);
        },
        Option::Some(t) => {
            let p1 = shared_table_nodes(src.tables, t, threshold, 0);
            let p2 = only_source_table_nodes(src.tables, t, 0);
            let p3 = drop_table_nodes(t.tables, src, 0);
            lemma_shared_table_nodes_drops(src.tables, t, threshold, 0);
            lemma_only_source_table_nodes_drops(src.tables, t, 0);
            lemma_drop_table_nodes_drops(t.tables, src, 0);
            let ch = p1 + p2 + p3;
            assert forall|k: int| 0 <= k < ch.len() implies drops_are_leaves(#[trigger] ch[k]) by {
                if k < p1.len() {
                    assert(ch[k] == p1[k]);
                } else if k < p1.len() + p2.len() {
                    assert(ch[k] == p2[k - p1.len()]);
                } else {
                    assert(ch[k] == p3[k - p1.len() - p2.len()]);
                }
            }
            lemma_all_drops_pointwise(ch, 0);
        },
    }
}

proof fn lemma_shared_table_nodes_drops(ts: Seq<TableV>, tgt: SchemaV, threshold: int, i: int)
    requires
        0 <= i <= ts.len(),
    ensures
        forall|k: int|
            0 <= k < shared_table_nodes(ts, tgt, threshold, i).len() ==> drops_are_leaves(
                #[trigger] shared_table_nodes(ts, tgt, threshold, i)[k],
            ),
    decreases ts.len() - i,
{
    if i < ts.len() {
        lemma_shared_table_nodes_drops(ts, tgt, threshold, i + 1);
        lemma_clone_node_drops(ts[i], Option::Some(table_at(tgt.tables, ts[i].name)));
        let cur = shared_table_nodes(ts, tgt, threshold, i);
        let rest = shared_table_nodes(ts, tgt, threshold, i + 1);
        assert forall|k: int| 0 <= k < cur.len() implies drops_are_leaves(#[trigger] cur[k]) by {
            if has_table(tgt.tables, ts[i].name) && spec_table_diff(
                ts[i],
                Option::Some(table_at(tgt.tables, ts[i].name)),
                threshold,
            ) is Some {
                if k > 0 {
                    assert(cur[k] == rest[k - 1]);
                }
            } else {
                assert(cur[k] == rest[k]);
            }
        }
    }
}

proof fn lemma_only_source_table_nodes_drops(ts: Seq<TableV>, tgt: SchemaV, i: int)
    requires
        0 <= i <= ts.len(),
    ensures
        forall|k: int|
            0 <= k < only_source_table_nodes(ts, tgt, i).len() ==> drops_are_leaves(
                #[trigger] only_source_table_nodes(ts, tgt, i)[k],
            ),
    decreases ts.len() - i,
{
    if i < ts.len() {
        lemma_only_source_table_nodes_drops(ts, tgt, i + 1);
        lemma_clone_node_drops(ts[i], Option::None);
        let cur = only_source_table_nodes(ts, tgt, i);
        let rest = only_source_table_nodes(ts, tgt, i + 1);
        assert forall|k: int| 0 <= k < cur.len() implies drops_are_leaves(#[trigger] cur[k]) by {
            if !has_table(tgt.tables, ts[i].name) {
                if k > 0 {
                    assert(cur[k] == rest[k - 1]);
                }
            } else {
                assert(cur[k] == rest[k]);
            }
        }
    }
}

proof fn lemma_drop_table_nodes_drops(tts: Seq<TableV>, src: SchemaV, i: int)
    requires
        0 <= i <= tts.len(),
    ensures
        forall|k: int|
            0 <= k < drop_table_nodes(tts, src, i).len() ==> drops_are_leaves(
                #[trigger] drop_table_nodes(tts, src, i)[k],
            ),
    decreases tts.len() - i,
{
    if i < tts.len() {
        lemma_drop_table_nodes_drops(tts, src, i + 1);
        lemma_drop_table_node_drops(tts[i]);
        let cur = drop_table_nodes(tts, src, i);
        let rest = drop_table_nodes(tts, src, i + 1);
        assert forall|k: int| 0 <= k < cur.len() implies drops_are_leaves(#[trigger] cur[k]) by {
            if !has_table(src.tables, tts[i].name) {
                if k > 0 {
                    assert(cur[k] == rest[k - 1]);
                }
            } else {
                assert(cur[k] == rest[k]);
            }
        }
    }
}

proof fn lemma_shared_schema_nodes_drops(ss: Seq<SchemaV>, tgt: CatalogV, threshold: int, i: int)
    requires
        0 <= i <= ss.len(),
    ensures
        forall|k: int|
            0 <= k < shared_schema_nodes(ss, tgt, threshold, i).len() ==> drops_are_leaves(
                #[trigger] shared_schema_nodes(ss, tgt, threshold, i)[k],
            ),
    decreases ss.len() - i,
{
    if i < ss.len() {
        lemma_shared_schema_nodes_drops(ss, tgt, threshold, i + 1);
        lemma_schema_diff_drops(
            ss[i],
            Option::Some(schema_at(tgt.schemas, ss[i].name)),
            threshold,
        );
        let cur = shared_schema_nodes(ss, tgt, threshold, i);
        let rest = shared_schema_nodes(ss, tgt, threshold, i + 1);
        assert forall|k: int| 0 <= k < cur.len() implies drops_are_leaves(#[trigger] cur[k]) by {
            if has_schema(tgt.schemas, ss[i].name) && spec_schema_diff(
                ss[i],
                Option::Some(schema_at(tgt.schemas, ss[i].name)),
                threshold,
            ) is Some {
                if k > 0 {
                    assert(cur[k] == rest[k - 1]);
                }
            } else {
                assert(cur[k] == rest[k]);
            }
        }
    }
}

proof fn lemma_only_source_schema_nodes_drops(ss: Seq<SchemaV>, tgt: CatalogV, i: int)
    requires
        0 <= i <= ss.len(),
    ensures
        forall|k: int|
            0 <= k < only_source_schema_nodes(ss, tgt, i).len() ==> drops_are_leaves(
                #[trigger] only_source_schema_nodes(ss, tgt, i)[k],
            ),
    decreases ss.len() - i,
{
    if i < ss.len() {
        lemma_only_source_schema_nodes_drops(ss, tgt, i + 1);
        lemma_create_schema_node_drops(ss[i]);
        let cur = only_source_schema_nodes(ss, tgt, i);
        let rest = only_source_schema_nodes(ss, tgt, i + 1);
        assert forall|k: int| 0 <= k < cur.len() implies drops_are_leaves(#[trigger] cur[k]) by {
            if !has_schema(tgt.schemas, ss[i].name) {
                if k > 0 {
                    assert(cur[k] == rest[k - 1]);
                }
            } else {
                assert(cur[k] == rest[k]);
            }
        }
    }
}

proof fn lemma_drop_schema_nodes_drops(tss: Seq<SchemaV>, src: CatalogV, i: int)
    requires
        0 <= i <= tss.len(),
    ensures
        forall|k: int|
            0 <= k < drop_schema_nodes(tss, src, i).len() ==> drops_are_leaves(
                #[trigger] drop_schema_nodes(tss, src, i)[k],
            ),
    decreases tss.len() - i,
{
    if i < tss.len() {
        lemma_drop_schema_nodes_drops(tss, src, i + 1);
        lemma_drop_schema_node_drops(tss[i]);
        let cur = drop_schema_nodes(tss, src, i);
        let rest = drop_schema_nodes(tss, src, i + 1);
        assert forall|k: int| 0 <= k < cur.len() implies drops_are_leaves(#[trigger] cur[k]) by {
            if !has_schema(src.schemas, tss[i].name) {
                if k > 0 {
                    assert(cur[k] == rest[k - 1]);
                }
            } else {
                assert(cur[k] == rest[k]);
            }
        }
    }
}

/// Drop has no children: every drop node in any produced plan is a leaf,
/// however populated the dropped subtree was.
pub proof fn lemma_catalog_diff_drops(src: CatalogV, tgt: Option<CatalogV>, threshold: int)
    ensures
        match spec_catalog_diff(src, tgt, threshold) {
            Option::Some(n) => drops_are_leaves(n),
            Option::None => true,
        },
{
    match tgt {
        Option::None => {
            lemma_create_schema_nodes(src.schemas, 0);
            let ch = create_schema_nodes(src.schemas, 0);
            assert forall|k: int| 0 <= k < ch.len() implies drops_are_leaves(#[trigger] ch[k]) by {
                lemma_create_schema_node_drops(src.schemas[k]);
            }
            lemma_all_drops_pointwise(ch, 0);
        },
        Option::Some(t) => {
            let p1 = shared_schema_nodes(src.schemas, t, threshold, 0);
            let p2 = only_source_schema_nodes(src.schemas, t, 0);
            let p3 = drop_schema_nodes(t.schemas, src, 0);
            lemma_shared_schema_nodes_drops(src.schemas, t, threshold, 0);
            lemma_only_source_schema_nodes_drops(src.schemas, t, 0);
            lemma_drop_schema_nodes_drops(t.schemas, src, 0);
            let ch = p1 + p2 + p3;
            assert forall|k: int| 0 <= k < ch.len() implies drops_are_leaves(#[trigger] ch[k]) by {
                if k < p1.len() {
                    assert(ch[k] == p1[k]);
                } else if k < p1.len() + p2.len() {
                    assert(ch[k] == p2[k - p1.len()]);
                } else {
                    assert(ch[k] == p3[k - p1.len() - p2.len()]);
                }
            }
            lemma_all_drops_pointwise(ch, 0);
        },
    }
}

} // verus!
