//! The per-source pipeline: filter a fetched item list against the cache and
//! render each surviving item, in feed order, while staging its identifier.
//!
//! The skip decision for an item looks only at the committed cache, never at
//! earlier items of the same fetch: a feed that repeats an identifier within
//! one document yields that document twice, matching the permissive
//! behaviour this pipeline preserves.

use vstd::prelude::*;
use crate::cache::{str_seq_view, DedupCache};
use crate::feed::{item_views, FeedItem, FeedItemView};
use crate::render::{render_document, spec_content, spec_file_name, Document, DocumentView};

verus! {

/// An item is new when it is renderable and its identifier is not in the
/// committed seen set.
pub open spec fn is_new(it: FeedItemView, seen: Set<Seq<char>>) -> bool {
    it.renderable() && !seen.contains(it.identifier->Some_0)
}

/// The document a renderable item becomes.
pub open spec fn doc_view(name: Seq<char>, it: FeedItemView) -> DocumentView {
    DocumentView {
        file_name: spec_file_name(name, it.title->Some_0),
        content: spec_content(name, it.title->Some_0, it.body->Some_0),
    }
}

/// The documents produced for `items` against the seen set `seen`, in feed
/// order, one per new item.
pub open spec fn plan_docs(
    name: Seq<char>,
    items: Seq<FeedItemView>,
    seen: Set<Seq<char>>,
) -> Seq<DocumentView>
    decreases items.len(),
{
    if items.len() == 0 {
        Seq::empty()
    } else {
        let rest = plan_docs(name, items.drop_last(), seen);
        if is_new(items.last(), seen) {
            rest.push(doc_view(name, items.last()))
        } else {
            rest
        }
    }
}

/// The identifiers staged for commit, in the order their items were
/// rendered.
pub open spec fn plan_ids(items: Seq<FeedItemView>, seen: Set<Seq<char>>) -> Seq<Seq<char>>
    decreases items.len(),
{
    if items.len() == 0 {
        Seq::empty()
    } else {
        let rest = plan_ids(items.drop_last(), seen);
        if is_new(items.last(), seen) {
            rest.push(items.last().identifier->Some_0)
        } else {
            rest
        }
    }
}

/// What one source's run produces before its commit: the documents to write
/// and the identifiers to stage.
pub struct SourcePlan {
    pub documents: Vec<Document>,
    pub staged: Vec<String>,
}

/// Filters `items` against the committed seen set for `name` and renders
/// every new item, in feed order. Nothing is committed here: the staged
/// identifiers become visible only through a later `DedupCache::commit`.
pub fn plan_source(name: &String, items: &Vec<FeedItem>, cache: &DedupCache) -> (r: SourcePlan)
    requires
        cache.wf(),
    ensures
        r.documents@.map_values(|d: Document| d@) == plan_docs(
            name@,
            item_views(items@),
            cache.entry_ids(name@),
        ),
        str_seq_view(r.staged@) == plan_ids(item_views(items@), cache.entry_ids(name@)),
{
    let ghost seen = cache.entry_ids(name@);
    let ghost views = item_views(items@);
    let mut documents: Vec<Document> = Vec::new();
    let mut staged: Vec<String> = Vec::new();
    let mut i: usize = 0;
    while i < items.len()
        invariant
            i <= items@.len(),
            cache.wf(),
            seen == cache.entry_ids(name@),
            views == item_views(items@),
            documents@.map_values(|d: Document| d@) == plan_docs(name@, views.take(i as int), seen),
            str_seq_view(staged@) == plan_ids(views.take(i as int), seen),
        decreases items@.len() - i,
    {
        let ghost pre_docs = documents@;
        let ghost pre_staged = staged@;
        let it = &items[i];
        proof {
            assert(views[i as int] == items@[i as int]@);
        }
        match (&it.identifier, &it.title, &it.body) {
            (Some(id), Some(title), Some(body)) => {
                if !cache.contains(name, id) {
                    proof {
                        assert(views[i as int].identifier->Some_0 == id@);
                        assert(!cache.seen(name@, id@));
                        assert(!seen.contains(id@));
                        assert(is_new(views[i as int], seen));
                    }
                    documents.push(render_document(name, title, body));
                    staged.push(id.clone());
                    proof {
                        assert(documents@.map_values(|d: Document| d@) =~= pre_docs.map_values(
                            |d: Document| d@,
                        ).push(doc_view(name@, views[i as int])));
                        assert(str_seq_view(staged@) =~= str_seq_view(pre_staged).push(id@));
                    }
                } else {
                    proof {
                        assert(seen.contains(id@));
                        assert(!is_new(views[i as int], seen));
                    }
                }
            },
            _ => {
                proof {
                    assert(!views[i as int].renderable());
                    assert(!is_new(views[i as int], seen));
                }
            },
        }
        proof {
            assert(views.take(i as int + 1).drop_last() =~= views.take(i as int));
            assert(views.take(i as int + 1).last() == views[i as int]);
        }
        i = i + 1;
    }
    proof {
        assert(views.take(views.len() as int) =~= views);
    }
    SourcePlan { documents, staged }
}

/// When every renderable item of the feed is already in the seen set, the
/// plan is empty: nothing is rendered and nothing is staged, so a later
/// commit of the staged identifiers cannot change the cache.
pub proof fn lemma_skip_idempotent(name: Seq<char>, items: Seq<FeedItemView>, seen: Set<Seq<char>>)
    requires
        forall|k: int|
            0 <= k < items.len() && #[trigger] items[k].renderable() ==> seen.contains(
                items[k].identifier->Some_0,
            ),
    ensures
        plan_docs(name, items, seen) == Seq::<DocumentView>::empty(),
        plan_ids(items, seen) == Seq::<Seq<char>>::empty(),
    decreases items.len(),
{
    if items.len() > 0 {
        assert(forall|k: int|
            0 <= k < items.drop_last().len() ==> items.drop_last()[k] == items[k]);
        lemma_skip_idempotent(name, items.drop_last(), seen);
        assert(!is_new(items.last(), seen));
    }
}

/// The identifiers of items that carry all three fields and are not yet in
/// `seen`: the only identifiers the pipeline may stage.
pub open spec fn new_ids_set(items: Seq<FeedItemView>, seen: Set<Seq<char>>) -> Set<Seq<char>> {
    Set::new(
        |x: Seq<char>|
            exists|k: int|
                0 <= k < items.len() && #[trigger] items[k].renderable() && !seen.contains(
                    items[k].identifier->Some_0,
                ) && items[k].identifier->Some_0 == x,
    )
}

/// The documents of items that carry all three fields and are not yet in
/// `seen`: the only documents the pipeline may produce.
pub open spec fn new_docs_set(
    name: Seq<char>,
    items: Seq<FeedItemView>,
    seen: Set<Seq<char>>,
) -> Set<DocumentView> {
    Set::new(
        |d: DocumentView|
            exists|k: int|
                0 <= k < items.len() && #[trigger] items[k].renderable() && !seen.contains(
                    items[k].identifier->Some_0,
                ) && d == doc_view(name, items[k]),
    )
}

proof fn lemma_new_sets_grow(
    name: Seq<char>,
    items: Seq<FeedItemView>,
    seen: Set<Seq<char>>,
)
    requires
        items.len() > 0,
    ensures
        new_ids_set(items.drop_last(), seen).subset_of(new_ids_set(items, seen)),
        new_docs_set(name, items.drop_last(), seen).subset_of(new_docs_set(name, items, seen)),
{
    assert forall|x: Seq<char>| new_ids_set(items.drop_last(), seen).contains(x)
        implies new_ids_set(items, seen).contains(x) by {
        let k = choose|k: int|
            0 <= k < items.drop_last().len() && #[trigger] items.drop_last()[k].renderable()
                && !seen.contains(items.drop_last()[k].identifier->Some_0)
                && items.drop_last()[k].identifier->Some_0 == x;
        assert(items.drop_last()[k] == items[k]);
        assert(items[k].renderable() && !seen.contains(items[k].identifier->Some_0)
            && items[k].identifier->Some_0 == x);
    }
    assert forall|d: DocumentView| new_docs_set(name, items.drop_last(), seen).contains(d)
        implies new_docs_set(name, items, seen).contains(d) by {
        let k = choose|k: int|
            0 <= k < items.drop_last().len() && #[trigger] items.drop_last()[k].renderable()
                && !seen.contains(items.drop_last()[k].identifier->Some_0) && d == doc_view(
                name,
                items.drop_last()[k],
            );
        assert(items.drop_last()[k] == items[k]);
        assert(items[k].renderable() && !seen.contains(items[k].identifier->Some_0)
            && d == doc_view(name, items[k]));
    }
}

/// Filtering correctness: every staged identifier, and every planned
/// document, comes from an item that carried all three fields and was not
/// yet seen. An item missing identifier, title or body, or one already
/// seen, contributes neither a document nor a committed identifier.
pub proof fn lemma_filtering_correctness(
    name: Seq<char>,
    items: Seq<FeedItemView>,
    seen: Set<Seq<char>>,
)
    ensures
        forall|j: int|
            0 <= j < plan_ids(items, seen).len() ==> new_ids_set(items, seen).contains(
                #[trigger] plan_ids(items, seen)[j],
            ),
        forall|j: int|
            0 <= j < plan_docs(name, items, seen).len() ==> new_docs_set(name, items, seen).contains(
                #[trigger] plan_docs(name, items, seen)[j],
            ),
    decreases items.len(),
{
    if items.len() > 0 {
        lemma_filtering_correctness(name, items.drop_last(), seen);
        lemma_new_sets_grow(name, items, seen);
        let rest_ids = plan_ids(items.drop_last(), seen);
        let rest_docs = plan_docs(name, items.drop_last(), seen);
        let last = items.len() - 1;
        assert forall|j: int| 0 <= j < plan_ids(items, seen).len()
            implies new_ids_set(items, seen).contains(#[trigger] plan_ids(items, seen)[j]) by {
            if is_new(items.last(), seen) && j == rest_ids.len() {
                assert(items[last].renderable() && !seen.contains(items[last].identifier->Some_0)
                    && items[last].identifier->Some_0 == plan_ids(items, seen)[j]);
            } else {
                assert(plan_ids(items, seen)[j] == rest_ids[j]);
            }
        }
        assert forall|j: int| 0 <= j < plan_docs(name, items, seen).len()
            implies new_docs_set(name, items, seen).contains(
            #[trigger] plan_docs(name, items, seen)[j],
        ) by {
            if is_new(items.last(), seen) && j == rest_docs.len() {
                assert(items[last].renderable() && !seen.contains(items[last].identifier->Some_0)
                    && plan_docs(name, items, seen)[j] == doc_view(name, items[last]));
            } else {
                assert(plan_docs(name, items, seen)[j] == rest_docs[j]);
            }
        }
    }
}

/// Order preservation: the plan of a feed splits along any cut of the feed,
/// so the documents of an earlier segment always precede those of a later
/// segment, and within one segment order is the feed's own.
pub proof fn lemma_order_preserved(
    name: Seq<char>,
    a: Seq<FeedItemView>,
    b: Seq<FeedItemView>,
    seen: Set<Seq<char>>,
)
    ensures
        plan_docs(name, a + b, seen) == plan_docs(name, a, seen) + plan_docs(name, b, seen),
        plan_ids(a + b, seen) == plan_ids(a, seen) + plan_ids(b, seen),
    decreases b.len(),
{
    if b.len() == 0 {
        assert(a + b =~= a);
        assert(plan_docs(name, a + b, seen) =~= plan_docs(name, a, seen) + plan_docs(
            name,
            b,
            seen,
        ));
        assert(plan_ids(a + b, seen) =~= plan_ids(a, seen) + plan_ids(b, seen));
    } else {
        lemma_order_preserved(name, a, b.drop_last(), seen);
        assert((a + b).drop_last() =~= a + b.drop_last());
        assert((a + b).last() == b.last());
        assert(plan_docs(name, a + b, seen) =~= plan_docs(name, a, seen) + plan_docs(
            name,
            b,
            seen,
        ));
        assert(plan_ids(a + b, seen) =~= plan_ids(a, seen) + plan_ids(b, seen));
    }
}

} // verus!
