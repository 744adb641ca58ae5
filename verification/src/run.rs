//! The whole-run reconciliation: every configured source's fetch outcome is
//! folded into the shared cache, one commit per source, with best-effort
//! continuation — a failed source is reported and skipped, never allowed to
//! stop the others.

use vstd::prelude::*;
use crate::cache::{commit_map, entry_of, id_set, str_seq_view, DedupCache};
use crate::feed::{item_views, FeedItem, FeedItemView, FetchError};
use crate::ingest::{plan_docs, plan_ids, plan_source};
use crate::render::{Document, DocumentView};

verus! {

/// What one source's fetch stage delivered: its item list, or the error
/// that ended the source for this run.
pub struct SourceOutcome {
    pub name: String,
    pub fetched: Result<Vec<FeedItem>, FetchError>,
}

/// The mathematical shape of a fetch outcome.
pub ghost struct OutcomeView {
    pub name: Seq<char>,
    pub fetched: Result<Seq<FeedItemView>, FetchError>,
}

impl View for SourceOutcome {
    type V = OutcomeView;

    open spec fn view(&self) -> OutcomeView {
        OutcomeView {
            name: self.name@,
            fetched: match self.fetched {
                Ok(items) => Ok(item_views(items@)),
                Err(e) => Err(e),
            },
        }
    }
}

/// What the run reports for one source: the documents rendered for it, or
/// the error that failed it.
pub struct SourceReport {
    pub name: String,
    pub result: Result<Vec<Document>, FetchError>,
}

/// The mathematical shape of a source report.
pub ghost struct ReportView {
    pub name: Seq<char>,
    pub result: Result<Seq<DocumentView>, FetchError>,
}

impl View for SourceReport {
    type V = ReportView;

    open spec fn view(&self) -> ReportView {
        ReportView {
            name: self.name@,
            result: match self.result {
                Ok(docs) => Ok(docs@.map_values(|d: Document| d@)),
                Err(e) => Err(e),
            },
        }
    }
}

/// The views of a vector of outcomes.
pub open spec fn outcome_views(outs: Seq<SourceOutcome>) -> Seq<OutcomeView> {
    outs.map_values(|o: SourceOutcome| o@)
}

/// The views of a vector of reports.
pub open spec fn report_views(rs: Seq<SourceReport>) -> Seq<ReportView> {
    rs.map_values(|r: SourceReport| r@)
}

/// The cache after one source's outcome: a fetched source commits exactly
/// the identifiers of its newly rendered items; a failed source commits
/// nothing.
pub open spec fn step_cache(
    m: Map<Seq<char>, Set<Seq<char>>>,
    o: OutcomeView,
) -> Map<Seq<char>, Set<Seq<char>>> {
    match o.fetched {
        Ok(items) => commit_map(m, o.name, id_set(plan_ids(items, entry_of(m, o.name)))),
        Err(_) => m,
    }
}

/// What one source reports when its turn comes with the cache at `m`.
pub open spec fn source_report(m: Map<Seq<char>, Set<Seq<char>>>, o: OutcomeView) -> ReportView {
    ReportView {
        name: o.name,
        result: match o.fetched {
            Ok(items) => Ok(plan_docs(o.name, items, entry_of(m, o.name))),
            Err(e) => Err(e),
        },
    }
}

/// The cache after all outcomes are folded in, first to last.
pub open spec fn run_cache(
    m: Map<Seq<char>, Set<Seq<char>>>,
    outs: Seq<OutcomeView>,
) -> Map<Seq<char>, Set<Seq<char>>>
    decreases outs.len(),
{
    if outs.len() == 0 {
        m
    } else {
        step_cache(run_cache(m, outs.drop_last()), outs.last())
    }
}

/// The reports of all outcomes, one per source, in configuration order.
pub open spec fn run_reports(
    m: Map<Seq<char>, Set<Seq<char>>>,
    outs: Seq<OutcomeView>,
) -> Seq<ReportView>
    decreases outs.len(),
{
    if outs.len() == 0 {
        Seq::empty()
    } else {
        run_reports(m, outs.drop_last()).push(
            source_report(run_cache(m, outs.drop_last()), outs.last()),
        )
    }
}

/// Folds every source's outcome into the cache: for each fetched source, in
/// order, the new items are planned against the cache as that source sees
/// it and their identifiers committed; a failed source is reported with its
/// error and touches nothing. One commit per source, as the two-phase
/// stage-then-commit discipline demands.
pub fn execute_run(cache: &mut DedupCache, outcomes: &Vec<SourceOutcome>) -> (r: Vec<SourceReport>)
    requires
        old(cache).wf(),
    ensures
        final(cache).wf(),
        final(cache)@ == run_cache(old(cache)@, outcome_views(outcomes@)),
        report_views(r@) == run_reports(old(cache)@, outcome_views(outcomes@)),
{
    let ghost m0 = cache@;
    let ghost outs = outcome_views(outcomes@);
    let mut reports: Vec<SourceReport> = Vec::new();
    let mut i: usize = 0;
    while i < outcomes.len()
        invariant
            i <= outcomes@.len(),
            cache.wf(),
            outs == outcome_views(outcomes@),
            cache@ == run_cache(m0, outs.take(i as int)),
            report_views(reports@) == run_reports(m0, outs.take(i as int)),
        decreases outcomes@.len() - i,
    {
        let ghost pre_reports = reports@;
        let ghost m_pre = cache@;
        let o = &outcomes[i];
        proof {
            assert(outs[i as int] == outcomes@[i as int]@);
        }
        match &o.fetched {
            Ok(items) => {
                let plan = plan_source(&o.name, items, cache);
                cache.commit(&o.name, &plan.staged);
                reports.push(SourceReport { name: o.name.clone(), result: Ok(plan.documents) });
                proof {
                    assert(cache@ == step_cache(m_pre, outs[i as int]));
                }
            },
            Err(e) => {
                reports.push(SourceReport { name: o.name.clone(), result: Err(*e) });
                proof {
                    assert(cache@ == step_cache(m_pre, outs[i as int]));
                }
            },
        }
        proof {
            assert(outs.take(i as int + 1).drop_last() =~= outs.take(i as int));
            assert(outs.take(i as int + 1).last() == outs[i as int]);
            assert(report_views(reports@) =~= report_views(pre_reports).push(
                source_report(m_pre, outs[i as int]),
            ));
        }
        i = i + 1;
    }
    proof {
        assert(outs.take(outs.len() as int) =~= outs);
    }
    reports
}

/// Configured source names are pairwise distinct; a configuration that
/// reuses a name is an error, not a merge.
pub open spec fn names_distinct(outs: Seq<OutcomeView>) -> bool {
    forall|i: int, j: int| 0 <= i < j < outs.len() ==> outs[i].name != outs[j].name
}

/// The names of the sources whose result is an error, in configuration
/// order: the run surfaces them instead of hiding partial failure.
pub open spec fn failed_names(rs: Seq<ReportView>) -> Seq<Seq<char>>
    decreases rs.len(),
{
    if rs.len() == 0 {
        Seq::empty()
    } else {
        let rest = failed_names(rs.drop_last());
        if rs.last().result is Err {
            rest.push(rs.last().name)
        } else {
            rest
        }
    }
}

/// Collects the names of the sources that failed, for the run's
/// human-readable record; an empty result means overall success.
pub fn failed_sources(reports: &Vec<SourceReport>) -> (r: Vec<String>)
    ensures
        str_seq_view(r@) == failed_names(report_views(reports@)),
{
    let ghost views = report_views(reports@);
    let mut r: Vec<String> = Vec::new();
    let mut i: usize = 0;
    while i < reports.len()
        invariant
            i <= reports@.len(),
            views == report_views(reports@),
            str_seq_view(r@) == failed_names(views.take(i as int)),
        decreases reports@.len() - i,
    {
        let ghost pre = r@;
        proof {
            assert(views[i as int] == reports@[i as int]@);
        }
        match &reports[i].result {
            Err(_) => {
                r.push(reports[i].name.clone());
                proof {
                    assert(str_seq_view(r@) =~= str_seq_view(pre).push(views[i as int].name));
                }
            },
            Ok(_) => {},
        }
        proof {
            assert(views.take(i as int + 1).drop_last() =~= views.take(i as int));
            assert(views.take(i as int + 1).last() == views[i as int]);
        }
        i = i + 1;
    }
    proof {
        assert(views.take(views.len() as int) =~= views);
    }
    r
}

/// A run reports exactly one result per source.
pub proof fn lemma_run_reports_len(m: Map<Seq<char>, Set<Seq<char>>>, outs: Seq<OutcomeView>)
    ensures
        run_reports(m, outs).len() == outs.len(),
    decreases outs.len(),
{
    if outs.len() > 0 {
        lemma_run_reports_len(m, outs.drop_last());
    }
}

/// Idempotence of skip: when every renderable item a source fetched is
/// already in its committed seen set, that source's turn renders no
/// document and leaves the whole cache exactly as it was.
pub proof fn lemma_skip_idempotent_run(m: Map<Seq<char>, Set<Seq<char>>>, o: OutcomeView)
    requires
        m.contains_key(o.name),
        o.fetched is Ok,
        forall|k: int|
            0 <= k < o.fetched->Ok_0.len() && #[trigger] o.fetched->Ok_0[k].renderable()
                ==> entry_of(m, o.name).contains(o.fetched->Ok_0[k].identifier->Some_0),
    ensures
        step_cache(m, o) == m,
        source_report(m, o).result == Ok::<Seq<DocumentView>, FetchError>(
            Seq::<DocumentView>::empty(),
        ),
{
    let items = o.fetched->Ok_0;
    let seen = entry_of(m, o.name);
    crate::ingest::lemma_skip_idempotent(o.name, items, seen);
    assert(id_set(plan_ids(items, seen)) =~= Set::<Seq<char>>::empty());
    assert(id_set(plan_ids(items, seen)).subset_of(m[o.name]));
    crate::cache::lemma_commit_no_news(m, o.name, id_set(plan_ids(items, seen)));
}

/// One step never shrinks an entry and never drops a key.
proof fn lemma_step_monotonic(m: Map<Seq<char>, Set<Seq<char>>>, o: OutcomeView)
    ensures
        forall|n: Seq<char>| #[trigger]
            entry_of(m, n).subset_of(entry_of(step_cache(m, o), n)),
        forall|n: Seq<char>| m.contains_key(n) ==> step_cache(m, o).contains_key(n),
{
    assert forall|n: Seq<char>| #[trigger]
        entry_of(m, n).subset_of(entry_of(step_cache(m, o), n)) by {
        match o.fetched {
            Ok(items) => {
                if n == o.name {
                    assert(entry_of(step_cache(m, o), n) == entry_of(m, n).union(
                        id_set(plan_ids(items, entry_of(m, o.name))),
                    ));
                } else {
                    assert(entry_of(step_cache(m, o), n) == entry_of(m, n));
                }
            },
            Err(_) => {},
        }
    }
}

/// Monotonic growth: after a run, every source's committed seen set is a
/// superset of what it was before the run, whatever each source's outcome
/// was; no identifier is ever removed, and no entry disappears.
pub proof fn lemma_monotonic_growth(m: Map<Seq<char>, Set<Seq<char>>>, outs: Seq<OutcomeView>)
    ensures
        forall|n: Seq<char>| #[trigger]
            entry_of(m, n).subset_of(entry_of(run_cache(m, outs), n)),
        forall|n: Seq<char>| m.contains_key(n) ==> run_cache(m, outs).contains_key(n),
    decreases outs.len(),
{
    if outs.len() > 0 {
        lemma_monotonic_growth(m, outs.drop_last());
        lemma_step_monotonic(run_cache(m, outs.drop_last()), outs.last());
        assert forall|n: Seq<char>| #[trigger]
            entry_of(m, n).subset_of(entry_of(run_cache(m, outs), n)) by {
            let mid = run_cache(m, outs.drop_last());
            assert(entry_of(m, n).subset_of(entry_of(mid, n)));
            assert(entry_of(mid, n).subset_of(entry_of(run_cache(m, outs), n)));
            assert forall|x: Seq<char>| entry_of(m, n).contains(x) implies entry_of(
                run_cache(m, outs),
                n,
            ).contains(x) by {
                assert(entry_of(mid, n).contains(x));
            }
        }
    }
}

/// One step leaves every other source's entry untouched.
proof fn lemma_step_other(m: Map<Seq<char>, Set<Seq<char>>>, o: OutcomeView, n: Seq<char>)
    requires
        n != o.name,
    ensures
        entry_of(step_cache(m, o), n) == entry_of(m, n),
{
}

/// Two outcome sequences that agree on every source not named `bad` drive
/// the cache to the same entries for every name but `bad`.
proof fn lemma_run_agree(
    m: Map<Seq<char>, Set<Seq<char>>>,
    outs1: Seq<OutcomeView>,
    outs2: Seq<OutcomeView>,
    bad: Seq<char>,
)
    requires
        outs1.len() == outs2.len(),
        forall|k: int| 0 <= k < outs1.len() ==> outs1[k].name == outs2[k].name,
        forall|k: int|
            0 <= k < outs1.len() && outs1[k].name != bad ==> outs1[k] == outs2[k],
    ensures
        forall|n: Seq<char>|
            n != bad ==> #[trigger] entry_of(run_cache(m, outs1), n) == entry_of(
                run_cache(m, outs2),
                n,
            ),
    decreases outs1.len(),
{
    if outs1.len() > 0 {
        let d1 = outs1.drop_last();
        let d2 = outs2.drop_last();
        assert(forall|k: int| 0 <= k < d1.len() ==> d1[k] == outs1[k] && d2[k] == outs2[k]);
        lemma_run_agree(m, d1, d2, bad);
        let a = run_cache(m, d1);
        let b = run_cache(m, d2);
        let o1 = outs1.last();
        let o2 = outs2.last();
        assert(o1.name == o2.name);
        assert forall|n: Seq<char>|
            n != bad implies #[trigger] entry_of(run_cache(m, outs1), n) == entry_of(
            run_cache(m, outs2),
            n,
        ) by {
            if n != o1.name {
                lemma_step_other(a, o1, n);
                lemma_step_other(b, o2, n);
            } else {
                assert(o1.name != bad);
                assert(o1 == o2);
                assert(entry_of(a, o1.name) == entry_of(b, o1.name));
                match o1.fetched {
                    Ok(items) => {
                        assert(entry_of(step_cache(a, o1), n) == entry_of(a, n).union(
                            id_set(plan_ids(items, entry_of(a, o1.name))),
                        ));
                        assert(entry_of(step_cache(b, o2), n) == entry_of(b, n).union(
                            id_set(plan_ids(items, entry_of(b, o2.name))),
                        ));
                    },
                    Err(_) => {},
                }
            }
        }
    }
}

/// Isolation: when source names are distinct, changing one source's outcome
/// — say, a fetch failure in place of a success — changes nothing for any
/// other source: its report (the documents rendered for it) and its final
/// committed entry are identical in both runs.
pub proof fn lemma_isolation(
    m: Map<Seq<char>, Set<Seq<char>>>,
    outs1: Seq<OutcomeView>,
    outs2: Seq<OutcomeView>,
    i: int,
)
    requires
        outs1.len() == outs2.len(),
        0 <= i < outs1.len(),
        forall|k: int| 0 <= k < outs1.len() && k != i ==> outs1[k] == outs2[k],
        outs1[i].name == outs2[i].name,
        names_distinct(outs1),
    ensures
        forall|k: int|
            0 <= k < outs1.len() && k != i ==> #[trigger] run_reports(m, outs1)[k] == run_reports(
                m,
                outs2,
            )[k],
        forall|k: int|
            0 <= k < outs1.len() && k != i ==> #[trigger] entry_of(
                run_cache(m, outs1),
                outs1[k].name,
            ) == entry_of(run_cache(m, outs2), outs1[k].name),
    decreases outs1.len(),
{
    let bad = outs1[i].name;
    assert(forall|k: int| 0 <= k < outs1.len() ==> outs1[k].name == outs2[k].name);
    lemma_run_agree(m, outs1, outs2, bad);
    assert forall|k: int|
        0 <= k < outs1.len() && k != i implies #[trigger] entry_of(
        run_cache(m, outs1),
        outs1[k].name,
    ) == entry_of(run_cache(m, outs2), outs1[k].name) by {
        if k < i {
            assert(outs1[k].name != outs1[i].name);
        } else {
            assert(outs1[i].name != outs1[k].name);
        }
    }
    let last = outs1.len() - 1;
    let d1 = outs1.drop_last();
    let d2 = outs2.drop_last();
    assert(forall|k: int| 0 <= k < d1.len() ==> d1[k] == outs1[k] && d2[k] == outs2[k]);
    lemma_run_reports_len(m, d1);
    lemma_run_reports_len(m, d2);
    if i == last {
        assert(d1 =~= d2);
        assert forall|k: int|
            0 <= k < outs1.len() && k != i implies #[trigger] run_reports(m, outs1)[k]
            == run_reports(m, outs2)[k] by {
            assert(run_reports(m, outs1)[k] == run_reports(m, d1)[k]);
            assert(run_reports(m, outs2)[k] == run_reports(m, d2)[k]);
        }
    } else {
        assert(names_distinct(d1));
        lemma_isolation(m, d1, d2, i);
        lemma_run_agree(m, d1, d2, bad);
        assert forall|k: int|
            0 <= k < outs1.len() && k != i implies #[trigger] run_reports(m, outs1)[k]
            == run_reports(m, outs2)[k] by {
            if k < last {
                assert(run_reports(m, outs1)[k] == run_reports(m, d1)[k]);
                assert(run_reports(m, outs2)[k] == run_reports(m, d2)[k]);
                assert(run_reports(m, d1)[k] == run_reports(m, d2)[k]);
            } else {
                let o1 = outs1.last();
                let o2 = outs2.last();
                assert(o1 == o2);
                if i < last {
                    assert(outs1[i].name != outs1[last].name);
                }
                assert(o1.name != bad);
                assert(entry_of(run_cache(m, d1), o1.name) == entry_of(run_cache(m, d2), o1.name));
                assert(run_reports(m, outs1)[k] == source_report(run_cache(m, d1), o1));
                assert(run_reports(m, outs2)[k] == source_report(run_cache(m, d2), o2));
                assert(source_report(run_cache(m, d1), o1) == source_report(
                    run_cache(m, d2),
                    o2,
                ));
            }
        }
    }
}

} // verus!
