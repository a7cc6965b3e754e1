//! The crawl scheduler's state: a FIFO queue of pending fetch jobs, the
//! in-flight jobs (bounded by the concurrency cap), and the forest being
//! built. The loop that actually performs fetches lives outside the
//! library; it launches jobs from here and hands their outcomes back.

use vstd::prelude::*;
use crate::api::{
    FetchJob, FetchJobV, FetchCatalog, FetchOutcome, spec_process_job, process_job, jobs_vec_view,
    elements_vec_view, outcome_matches,
};
use crate::model::{
    UnityCatalog, UnityCatalogElement, UnityCatalogElementV, Catalog, CatalogV, SchemaV,
    ModelError, forest_wf, element_wf, insert_ancestors_present, forest_after_insert,
    catalogs_upserted, has_catalog, has_schema, catalog_at, lemma_forest_wf_after_insert,
    lemma_insert_preserves_has_catalog, lemma_insert_preserves_has_schema,
};
use crate::api::FetchOutcomeV;

verus! {

/// The forest after the given elements are inserted in order, or `None` as
/// soon as one of them misses its ancestor (a fatal ordering violation).
pub open spec fn spec_insert_all(
    cs: Seq<CatalogV>,
    es: Seq<UnityCatalogElementV>,
    i: int,
) -> Option<Seq<CatalogV>>
    decreases es.len() - i,
{
    if 0 <= i < es.len() {
        if insert_ancestors_present(cs, es[i]) {
            spec_insert_all(forest_after_insert(cs, es[i]), es, i + 1)
        } else {
            Option::None
        }
    } else {
        Option::Some(cs)
    }
}

/// The forest after one empty catalog per seed name is upserted, in order.
pub open spec fn spec_seed_forest(cs: Seq<CatalogV>, names: Seq<Seq<char>>, i: int) -> Seq<
    CatalogV,
>
    decreases names.len() - i,
{
    if 0 <= i < names.len() {
        spec_seed_forest(
            catalogs_upserted(cs, CatalogV { name: names[i], schemas: Seq::empty() }),
            names,
            i + 1,
        )
    } else {
        cs
    }
}

pub open spec fn names_view(v: Vec<String>) -> Seq<Seq<char>> {
    Seq::new(v@.len(), |i: int| v@[i]@)
}

/// Whether the tree node a job fetches the children of stands in the forest.
pub open spec fn job_ancestors_present(cs: Seq<CatalogV>, j: FetchJobV) -> bool {
    match j {
        FetchJobV::FetchAllCatalogs => true,
        FetchJobV::FetchCatalog { catalog_name } => has_catalog(cs, catalog_name),
        FetchJobV::FetchSchema { catalog_name, schema_name } => has_catalog(cs, catalog_name)
            && has_schema(catalog_at(cs, catalog_name).schemas, schema_name),
    }
}

/// Whether every record of an outcome names the job's own node as its
/// parent, as the service's filtered listings do.
pub open spec fn outcome_consistent(j: FetchJobV, o: FetchOutcomeV) -> bool {
    match o {
        FetchOutcomeV::Failed => true,
        FetchOutcomeV::Catalogs(_) => true,
        FetchOutcomeV::Schemas(ss) => match j {
            FetchJobV::FetchCatalog { catalog_name } => forall|i: int|
                0 <= i < ss.len() ==> (#[trigger] ss[i]).catalog_name == catalog_name,
            _ => false,
        },
        FetchOutcomeV::Tables(ts) => match j {
            FetchJobV::FetchSchema { catalog_name, schema_name } => forall|i: int|
                0 <= i < ts.len() ==> (#[trigger] ts[i]).catalog_name == catalog_name
                    && ts[i].schema_name == schema_name,
            _ => false,
        },
    }
}

proof fn lemma_insert_all_catalogs(cs: Seq<CatalogV>, recs: Seq<crate::api::CatalogRecV>, i: int)
    requires
        forest_wf(cs),
        0 <= i <= recs.len(),
    ensures
        spec_insert_all(cs, spec_process_job(FetchOutcomeV::Catalogs(recs)).1, i) is Some,
    decreases recs.len() - i,
{
    let es = spec_process_job(FetchOutcomeV::Catalogs(recs)).1;
    if i < recs.len() {
        let e = es[i];
        assert(e == UnityCatalogElementV::Catalog(
            CatalogV { name: recs[i].name, schemas: Seq::empty() },
        ));
        assert(element_wf(e));
        assert(insert_ancestors_present(cs, e));
        lemma_forest_wf_after_insert(cs, e);
        lemma_insert_all_catalogs(forest_after_insert(cs, e), recs, i + 1);
    }
}

proof fn lemma_insert_all_schemas(
    cs: Seq<CatalogV>,
    recs: Seq<crate::api::SchemaRecV>,
    cn: Seq<char>,
    i: int,
)
    requires
        forest_wf(cs),
        has_catalog(cs, cn),
        forall|k: int| 0 <= k < recs.len() ==> (#[trigger] recs[k]).catalog_name == cn,
        0 <= i <= recs.len(),
    ensures
        spec_insert_all(cs, spec_process_job(FetchOutcomeV::Schemas(recs)).1, i) is Some,
    decreases recs.len() - i,
{
    let es = spec_process_job(FetchOutcomeV::Schemas(recs)).1;
    if i < recs.len() {
        let sv = SchemaV {
            name: recs[i].name,
            catalog_name: recs[i].catalog_name,
            tables: Seq::empty(),
        };
        let e = es[i];
        assert(e == UnityCatalogElementV::Schema(sv));
        assert(element_wf(e));
        assert(insert_ancestors_present(cs, e));
        lemma_forest_wf_after_insert(cs, e);
        lemma_insert_preserves_has_catalog(cs, e, cn);
        lemma_insert_all_schemas(forest_after_insert(cs, e), recs, cn, i + 1);
    }
}

proof fn lemma_insert_all_tables(
    cs: Seq<CatalogV>,
    recs: Seq<crate::api::TableRecV>,
    cn: Seq<char>,
    sn: Seq<char>,
    i: int,
)
    requires
        forest_wf(cs),
        has_catalog(cs, cn),
        has_schema(catalog_at(cs, cn).schemas, sn),
        forall|k: int|
            0 <= k < recs.len() ==> (#[trigger] recs[k]).catalog_name == cn && recs[k].schema_name
                == sn,
        0 <= i <= recs.len(),
    ensures
        spec_insert_all(cs, spec_process_job(FetchOutcomeV::Tables(recs)).1, i) is Some,
    decreases recs.len() - i,
{
    let es = spec_process_job(FetchOutcomeV::Tables(recs)).1;
    if i < recs.len() {
        let e = es[i];
        assert(e == UnityCatalogElementV::Table(crate::api::table_of_record(recs[i])));
        assert(element_wf(e));
        assert(insert_ancestors_present(cs, e));
        lemma_forest_wf_after_insert(cs, e);
        lemma_insert_preserves_has_schema(cs, e, cn, sn);
        lemma_insert_all_tables(forest_after_insert(cs, e), recs, cn, sn, i + 1);
    }
}

/// The ordering guarantee behind the fail-fast model: when the node a job
/// fetched under stands in the forest, and every record the fetch returned
/// names that node as its parent, every insertion of the completion finds
/// its ancestor — none can fail.
pub proof fn lemma_consistent_completion_succeeds(
    cs: Seq<CatalogV>,
    j: FetchJobV,
    o: FetchOutcomeV,
)
    requires
        forest_wf(cs),
        outcome_matches(j, o),
        outcome_consistent(j, o),
        job_ancestors_present(cs, j),
    ensures
        spec_insert_all(cs, spec_process_job(o).1, 0) is Some,
{
    match o {
        FetchOutcomeV::Failed => {},
        FetchOutcomeV::Catalogs(recs) => {
            lemma_insert_all_catalogs(cs, recs, 0);
        },
        FetchOutcomeV::Schemas(recs) => {
            match j {
                FetchJobV::FetchCatalog { catalog_name } => {
                    lemma_insert_all_schemas(cs, recs, catalog_name, 0);
                },
                _ => {},
            }
        },
        FetchOutcomeV::Tables(recs) => {
            match j {
                FetchJobV::FetchSchema { catalog_name, schema_name } => {
                    lemma_insert_all_tables(cs, recs, catalog_name, schema_name, 0);
                },
                _ => {},
            }
        },
    }
}

/// The crawl scheduler's state. One writer drives it: jobs are launched
/// from the front of the queue while capacity lasts, and each completion
/// inserts the discovered entities before its follow-up jobs are enqueued,
/// which is what keeps insertions ancestor-first.
pub struct Crawler {
    pub queue: Vec<FetchJob>,
    pub in_flight: Vec<FetchJob>,
    pub limit: usize,
    pub forest: UnityCatalog,
}

impl Crawler {
    /// A scheduler seeded with one catalog (inserted empty, to be filled by
    /// the crawl) and one schema-discovery job per seed name.
    pub fn new(seed_catalogs: Vec<String>, limit: usize) -> (r: Crawler)
        ensures
            r.limit == limit,
            r.in_flight@.len() == 0,
            jobs_vec_view(r.queue).len() == seed_catalogs@.len(),
            forall|k: int|
                0 <= k < seed_catalogs@.len() ==> jobs_vec_view(r.queue)[k]
                    == (FetchJobV::FetchCatalog { catalog_name: names_view(seed_catalogs)[k] }),
            r.forest@ == spec_seed_forest(Seq::<CatalogV>::empty(), names_view(seed_catalogs), 0),
            forest_wf(r.forest@),
    {
        let ghost names = names_view(seed_catalogs);
        let mut forest = UnityCatalog::new();
        let mut queue: Vec<FetchJob> = Vec::new();
        let n = seed_catalogs.len();
        let mut i: usize = 0;
        proof {
            assert(spec_seed_forest(Seq::<CatalogV>::empty(), names, 0) == spec_seed_forest(
                forest@,
                names,
                0,
            ));
        }
        while i < n
            invariant
                n == seed_catalogs.len(),
                names == names_view(seed_catalogs),
                0 <= i <= n,
                queue@.len() == i,
                forall|k: int|
                    0 <= k < i ==> (#[trigger] queue@[k])@ == (FetchJobV::FetchCatalog {
                        catalog_name: names[k],
                    }),
                forest_wf(forest@),
                spec_seed_forest(Seq::<CatalogV>::empty(), names, 0) == spec_seed_forest(
                    forest@,
                    names,
                    i as int,
                ),
            decreases n - i,
        {
            assert(names[i as int] == seed_catalogs@[i as int]@);
            let element = Catalog { name: seed_catalogs[i].clone(), schemas: Vec::new() };
            proof {
                assert(element@.schemas =~= Seq::<SchemaV>::empty());
                assert(element@ == (CatalogV { name: names[i as int], schemas: Seq::empty() }));
            }
            let res = forest.insert_assume_ordered(UnityCatalogElement::Catalog(element));
            proof {
                assert(res is Ok);
            }
            queue.push(
                FetchJob::FetchCatalog(FetchCatalog { catalog_name: seed_catalogs[i].clone() }),
            );
            i = i + 1;
        }
        Crawler { queue, in_flight: Vec::new(), limit, forest }
    }

    /// Whether the crawl is finished: nothing queued and nothing in flight.
    pub fn is_done(&self) -> (r: bool)
        ensures
            r == (self.queue@.len() == 0 && self.in_flight@.len() == 0),
    {
        self.queue.is_empty() && self.in_flight.is_empty()
    }

    /// Takes the next job from the front of the queue if the concurrency cap
    /// allows another in-flight fetch; the job is also recorded in the
    /// in-flight list until `complete` hands its outcome back.
    pub fn launch(&mut self) -> (r: Option<FetchJob>)
        ensures
            match r {
                Option::Some(job) => old(self).in_flight@.len() < old(self).limit && old(
                    self,
                ).queue@.len() > 0 && job@ == old(self).queue@[0]@ && final(self).queue@ == old(
                    self,
                ).queue@.drop_first() && jobs_vec_view(final(self).in_flight) == jobs_vec_view(
                    old(self).in_flight,
                ).push(job@) && final(self).forest == old(self).forest && final(self).limit == old(
                    self,
                ).limit,
                Option::None => (old(self).in_flight@.len() >= old(self).limit || old(
                    self,
                ).queue@.len() == 0) && *final(self) == *old(self),
            },
    {
        if self.in_flight.len() < self.limit && self.queue.len() > 0 {
            let ghost prev = jobs_vec_view(self.in_flight);
            let job = self.queue.remove(0);
            self.in_flight.push(job.duplicate());
            proof {
                assert(jobs_vec_view(self.in_flight) =~= prev.push(job@));
            }
            Some(job)
        } else {
            None
        }
    }

    /// Hands the outcome of the in-flight job at `idx` back: the discovered
    /// entities are inserted into the forest first, then the follow-up jobs
    /// are enqueued. An entity whose ancestor is missing stops the run with
    /// the model's error — the ordering guarantee was broken.
    pub fn complete(&mut self, idx: usize, outcome: FetchOutcome) -> (r: Result<(), ModelError>)
        requires
            idx < old(self).in_flight@.len(),
            outcome_matches(old(self).in_flight@[idx as int]@, outcome@),
            forest_wf(old(self).forest@),
        ensures
            forest_wf(final(self).forest@),
            final(self).in_flight@ == old(self).in_flight@.remove(idx as int),
            final(self).limit == old(self).limit,
            match spec_insert_all(old(self).forest@, spec_process_job(outcome@).1, 0) {
                Option::Some(f2) => r is Ok && final(self).forest@ == f2 && jobs_vec_view(
                    final(self).queue,
                ) == jobs_vec_view(old(self).queue) + spec_process_job(outcome@).0,
                Option::None => r is Err && final(self).queue == old(self).queue,
            },
            job_ancestors_present(old(self).forest@, old(self).in_flight@[idx as int]@)
                && outcome_consistent(old(self).in_flight@[idx as int]@, outcome@) ==> r is Ok,
    {
        let ghost f0 = self.forest@;
        let ghost ov = outcome@;
        let ghost jv = self.in_flight@[idx as int]@;
        proof {
            if job_ancestors_present(f0, jv) && outcome_consistent(jv, ov) {
                lemma_consistent_completion_succeeds(f0, jv, ov);
            }
        }
        let job = self.in_flight.remove(idx);
        let (new_jobs, elements) = process_job(&job, outcome);
        let ghost jobs = spec_process_job(ov).0;
        let ghost elems = spec_process_job(ov).1;
        proof {
            assert(jobs_vec_view(new_jobs) == jobs);
            assert(elements_vec_view(elements) == elems);
            assert forall|k: int| 0 <= k < elems.len() implies element_wf(#[trigger] elems[k]) by {
                match ov {
                    crate::api::FetchOutcomeV::Failed => {},
                    crate::api::FetchOutcomeV::Catalogs(cs) => {
                        assert(elems[k] == UnityCatalogElementV::Catalog(
                            CatalogV { name: cs[k].name, schemas: Seq::empty() },
                        ));
                    },
                    crate::api::FetchOutcomeV::Schemas(ss) => {
                        assert(elems[k] == UnityCatalogElementV::Schema(
                            SchemaV {
                                name: ss[k].name,
                                catalog_name: ss[k].catalog_name,
                                tables: Seq::empty(),
                            },
                        ));
                    },
                    crate::api::FetchOutcomeV::Tables(ts) => {},
                }
            }
        }
        let mut elements = elements;
        let n = elements.len();
        let mut i: usize = 0;
        while i < n
            invariant
                ov == outcome@,
                elems == spec_process_job(ov).1,
                f0 == old(self).forest@,
                jv == old(self).in_flight@[idx as int]@,
                job_ancestors_present(f0, jv) && outcome_consistent(jv, ov) ==> spec_insert_all(
                    f0,
                    elems,
                    0,
                ) is Some,
                n == elems.len(),
                n - i == elements.len(),
                forall|k: int| 0 <= k < elements@.len() ==> (#[trigger] elements@[k])@ == elems[k + i],
                forall|k: int| 0 <= k < elems.len() ==> element_wf(#[trigger] elems[k]),
                0 <= i <= n,
                forest_wf(self.forest@),
                spec_insert_all(f0, elems, 0) == spec_insert_all(self.forest@, elems, i as int),
                self.queue == old(self).queue,
                self.in_flight@ == old(self).in_flight@.remove(idx as int),
                self.limit == old(self).limit,
            decreases n - i,
        {
            let e = elements.remove(0);
            proof {
                assert(e@ == elems[i as int]);
                assert(element_wf(e@));
            }
            let ghost fcur = self.forest@;
            match self.forest.insert_assume_ordered(e) {
                Ok(()) => {
                    proof {
                        assert(insert_ancestors_present(fcur, elems[i as int]));
                        assert(self.forest@ == forest_after_insert(fcur, elems[i as int]));
                        assert(spec_insert_all(fcur, elems, i as int) == spec_insert_all(
                            self.forest@,
                            elems,
                            i as int + 1,
                        ));
                    }
                },
                Err(err) => {
                    proof {
                        assert(!insert_ancestors_present(fcur, elems[i as int]));
                        assert(spec_insert_all(fcur, elems, i as int) is None);
                        assert(spec_insert_all(f0, elems, 0) is None);
                    }
                    return Err(err);
                },
            }
            i = i + 1;
        }
        proof {
            assert(spec_insert_all(self.forest@, elems, n as int) == Option::Some(self.forest@));
            assert(spec_insert_all(f0, elems, 0) == Option::Some(self.forest@));
        }
        let mut new_jobs = new_jobs;
        let ghost njvec = new_jobs;
        let ghost qprev = jobs_vec_view(self.queue);
        self.queue.append(&mut new_jobs);
        proof {
            assert(jobs_vec_view(njvec) == jobs);
            assert forall|k: int| 0 <= k < self.queue@.len() implies jobs_vec_view(self.queue)[k]
                == (qprev + jobs)[k] by {
                if k < qprev.len() {
                } else {
                    assert(self.queue@[k] == njvec@[k - qprev.len()]);
                    assert(jobs[k - qprev.len()] == njvec@[k - qprev.len()]@);
                }
            }
            assert(jobs_vec_view(self.queue) =~= qprev + jobs);
        }
        Ok(())
    }
}

} // verus!
