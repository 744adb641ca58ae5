//! The deduplication cache: for each source name, the set of item
//! identifiers that have already been processed in earlier runs.
//!
//! The cache is modelled as a map from source name to the set of seen
//! identifiers. Entries are kept in insertion order so that persistence is
//! deterministic; source names are pairwise distinct.

use vstd::prelude::*;

verus! {

/// One source's record: the source name and the identifiers already seen.
pub struct CacheEntry {
    pub name: String,
    pub ids: Vec<String>,
}

/// The set of character sequences occurring in a sequence of identifiers.
pub open spec fn id_set(ids: Seq<Seq<char>>) -> Set<Seq<char>> {
    Set::new(|x: Seq<char>| exists|j: int| 0 <= j < ids.len() && ids[j] == x)
}

/// The views of a vector of identifier strings.
pub open spec fn str_seq_view(ids: Seq<String>) -> Seq<Seq<char>> {
    ids.map_values(|s: String| s@)
}

/// Appending one identifier adds exactly that element to the set.
proof fn lemma_id_set_push(s: Seq<Seq<char>>, x: Seq<char>)
    ensures
        id_set(s.push(x)) == id_set(s).insert(x),
{
    assert forall|y: Seq<char>| #[trigger]
        id_set(s.push(x)).contains(y) implies id_set(s).insert(x).contains(y) by {
        let t = choose|t: int| 0 <= t < s.push(x).len() && s.push(x)[t] == y;
        if t < s.len() {
            assert(s[t] == y);
            assert(id_set(s).contains(y));
        } else {
            assert(y == x);
        }
    }
    assert forall|y: Seq<char>| #[trigger]
        id_set(s).insert(x).contains(y) implies id_set(s.push(x)).contains(y) by {
        if y == x {
            assert(s.push(x)[s.len() as int] == y);
        } else {
            let t = choose|t: int| 0 <= t < s.len() && s[t] == y;
            assert(s.push(x)[t] == y);
        }
    }
    assert(id_set(s.push(x)) =~= id_set(s).insert(x));
}

/// The seen set recorded for `n`, or the empty set when `m` has no entry.
pub open spec fn entry_of(m: Map<Seq<char>, Set<Seq<char>>>, n: Seq<char>) -> Set<Seq<char>> {
    if m.contains_key(n) {
        m[n]
    } else {
        Set::empty()
    }
}

/// The cache after one source commits `ids`: its entry grows by union,
/// and is created when absent; no other entry moves.
pub open spec fn commit_map(
    m: Map<Seq<char>, Set<Seq<char>>>,
    n: Seq<char>,
    ids: Set<Seq<char>>,
) -> Map<Seq<char>, Set<Seq<char>>> {
    m.insert(n, entry_of(m, n).union(ids))
}

/// Re-running against nothing new changes nothing: committing identifiers
/// that are all already in a source's seen set leaves the whole cache
/// exactly as it was.
pub proof fn lemma_commit_no_news(
    m: Map<Seq<char>, Set<Seq<char>>>,
    n: Seq<char>,
    ids: Set<Seq<char>>,
)
    requires
        m.contains_key(n),
        ids.subset_of(m[n]),
    ensures
        commit_map(m, n, ids) == m,
{
    assert(entry_of(m, n).union(ids) =~= m[n]);
    assert(commit_map(m, n, ids) =~= m);
}

/// Concurrency-safe in spirit: each source touches only its own entry, so a
/// caller may serialize `commit` calls of distinct sources in any order.
pub struct DedupCache {
    entries: Vec<CacheEntry>,
}

impl DedupCache {
    /// Source names are pairwise distinct.
    pub closed spec fn wf(&self) -> bool {
        forall|i: int, j: int|
            0 <= i < j < self.entries@.len() ==> self.entries@[i].name@ != self.entries@[j].name@
    }

    pub closed spec fn has_name(&self, n: Seq<char>) -> bool {
        exists|i: int| 0 <= i < self.entries@.len() && self.entries@[i].name@ == n
    }

    pub closed spec fn idx_of(&self, n: Seq<char>) -> int {
        choose|i: int| 0 <= i < self.entries@.len() && self.entries@[i].name@ == n
    }

    /// The order in which entries were first committed, oldest first; it
    /// fixes the layout of the persisted form.
    pub closed spec fn entry_seq(&self) -> Seq<(Seq<char>, Seq<Seq<char>>)> {
        self.entries@.map_values(|e: CacheEntry| (e.name@, str_seq_view(e.ids@)))
    }
}

impl View for DedupCache {
    type V = Map<Seq<char>, Set<Seq<char>>>;

    closed spec fn view(&self) -> Map<Seq<char>, Set<Seq<char>>> {
        Map::new(
            |n: Seq<char>| self.has_name(n),
            |n: Seq<char>| id_set(str_seq_view(self.entries@[self.idx_of(n)].ids@)),
        )
    }
}

impl DedupCache {
    /// `id` is recorded as already seen for source `n`.
    pub open spec fn seen(&self, n: Seq<char>, id: Seq<char>) -> bool {
        self@.contains_key(n) && self@[n].contains(id)
    }

    /// The committed seen set for source `n`, empty when the source has no
    /// entry yet.
    pub open spec fn entry_ids(&self, n: Seq<char>) -> Set<Seq<char>> {
        entry_of(self@, n)
    }

    /// An empty cache: no source has an entry.
    pub fn new() -> (r: DedupCache)
        ensures
            r.wf(),
            r@ == Map::<Seq<char>, Set<Seq<char>>>::empty(),
    {
        let r = DedupCache { entries: Vec::new() };
        proof {
            assert(r@ =~= Map::<Seq<char>, Set<Seq<char>>>::empty());
        }
        r
    }

    fn index_of_name(&self, name: &String) -> (r: Option<usize>)
        ensures
            match r {
                Some(i) => i < self.entries@.len() && self.entries@[i as int].name@ == name@,
                None => forall|k: int|
                    0 <= k < self.entries@.len() ==> self.entries@[k].name@ != name@,
            },
    {
        let mut i: usize = 0;
        while i < self.entries.len()
            invariant
                i <= self.entries@.len(),
                forall|k: int| 0 <= k < i ==> self.entries@[k].name@ != name@,
            decreases self.entries@.len() - i,
        {
            if self.entries[i].name == *name {
                return Some(i);
            }
            i = i + 1;
        }
        None
    }

    proof fn lemma_found_idx(&self, i: int)
        requires
            self.wf(),
            0 <= i < self.entries@.len(),
        ensures
            self.has_name(self.entries@[i].name@),
            self.idx_of(self.entries@[i].name@) == i,
            self@.contains_key(self.entries@[i].name@),
            self@[self.entries@[i].name@] == id_set(str_seq_view(self.entries@[i].ids@)),
    {
        let n = self.entries@[i].name@;
        assert(self.has_name(n));
        let w = self.idx_of(n);
        assert(0 <= w < self.entries@.len() && self.entries@[w].name@ == n);
        if w != i {
            assert(false);
        }
    }

    /// True exactly when `id` is in the committed seen set for `name`, as of
    /// the last completed commit; a staged identifier of another source is
    /// never visible here.
    pub fn contains(&self, name: &String, id: &String) -> (r: bool)
        requires
            self.wf(),
        ensures
            r == self.seen(name@, id@),
    {
        match self.index_of_name(name) {
            None => {
                proof {
                    assert(!self.has_name(name@));
                    assert(!self@.contains_key(name@));
                }
                false
            },
            Some(i) => {
                proof {
                    self.lemma_found_idx(i as int);
                }
                let ids = &self.entries[i].ids;
                let ghost idseq = str_seq_view(ids@);
                let mut j: usize = 0;
                while j < ids.len()
                    invariant
                        j <= ids@.len(),
                        idseq == str_seq_view(ids@),
                        self@.contains_key(name@),
                        self@[name@] == id_set(idseq),
                        forall|k: int| 0 <= k < j ==> idseq[k] != id@,
                    decreases ids@.len() - j,
                {
                    if ids[j] == *id {
                        proof {
                            assert(idseq[j as int] == id@);
                            assert(id_set(idseq).contains(id@));
                        }
                        return true;
                    }
                    j = j + 1;
                }
                proof {
                    assert(forall|k: int| 0 <= k < idseq.len() ==> idseq[k] != id@);
                    assert(!id_set(idseq).contains(id@));
                }
                false
            },
        }
    }

    /// Extends `ids` with every element of `new_ids` not already present.
    fn union_ids(ids: &mut Vec<String>, new_ids: &Vec<String>)
        ensures
            id_set(str_seq_view(final(ids)@)) == id_set(str_seq_view(old(ids)@)).union(
                id_set(str_seq_view(new_ids@)),
            ),
    {
        let mut j: usize = 0;
        while j < new_ids.len()
            invariant
                j <= new_ids@.len(),
                id_set(str_seq_view(ids@)) == id_set(str_seq_view(old(ids)@)).union(
                    id_set(str_seq_view(new_ids@.take(j as int))),
                ),
            decreases new_ids@.len() - j,
        {
            let ghost pre = ids@;
            let ghost x = new_ids@[j as int]@;
            let mut present = false;
            let mut k: usize = 0;
            while k < ids.len()
                invariant
                    j < new_ids@.len(),
                    k <= ids@.len(),
                    ids@ == pre,
                    x == new_ids@[j as int]@,
                    present ==> id_set(str_seq_view(ids@)).contains(x),
                    !present ==> forall|t: int|
                        0 <= t < k ==> str_seq_view(ids@)[t] != x,
                decreases ids@.len() - k,
            {
                if ids[k] == new_ids[j] {
                    present = true;
                    proof {
                        assert(str_seq_view(ids@)[k as int] == x);
                    }
                }
                k = k + 1;
            }
            if !present {
                ids.push(new_ids[j].clone());
                proof {
                    assert(str_seq_view(ids@) =~= str_seq_view(pre).push(x));
                }
            }
            proof {
                assert(str_seq_view(new_ids@.take(j as int + 1)) =~= str_seq_view(
                    new_ids@.take(j as int),
                ).push(x));
                lemma_id_set_push(str_seq_view(new_ids@.take(j as int)), x);
                if present {
                    assert(forall|t: int|
                        0 <= t < pre.len() ==> #[trigger] str_seq_view(ids@)[t] == pre[t]@);
                    assert(id_set(str_seq_view(ids@)) =~= id_set(str_seq_view(old(ids)@)).union(
                        id_set(str_seq_view(new_ids@.take(j as int + 1))),
                    ));
                } else {
                    lemma_id_set_push(str_seq_view(pre), x);
                    assert(id_set(str_seq_view(ids@)) =~= id_set(str_seq_view(old(ids)@)).union(
                        id_set(str_seq_view(new_ids@.take(j as int + 1))),
                    ));
                }
            }
            j = j + 1;
        }
        proof {
            assert(new_ids@.take(new_ids@.len() as int) =~= new_ids@);
        }
    }

    /// Atomically unions `new_ids` into this cache's entry for `name`,
    /// creating the entry when absent. Every other source's entry is left
    /// exactly as it was.
    pub fn commit(&mut self, name: &String, new_ids: &Vec<String>)
        requires
            old(self).wf(),
        ensures
            final(self).wf(),
            final(self)@ == commit_map(old(self)@, name@, id_set(str_seq_view(new_ids@))),
    {
        let found = self.index_of_name(name);
        match found {
            Some(i) => {
                let ghost pre = *self;
                proof {
                    self.lemma_found_idx(i as int);
                }
                let mut entry = self.entries.remove(i);
                DedupCache::union_ids(&mut entry.ids, new_ids);
                self.entries.insert(i, entry);
                proof {
                    assert(self.entries@ =~= pre.entries@.update(
                        i as int,
                        self.entries@[i as int],
                    ));
                    self.lemma_commit_update(pre, i as int, name@, new_ids@);
                }
            },
            None => {
                let ghost pre = *self;
                let mut fresh: Vec<String> = Vec::new();
                DedupCache::union_ids(&mut fresh, new_ids);
                proof {
                    assert(id_set(str_seq_view(Seq::<String>::empty())) =~= Set::<
                        Seq<char>,
                    >::empty());
                    assert(id_set(str_seq_view(fresh@)) =~= id_set(str_seq_view(new_ids@)));
                }
                let entry = CacheEntry { name: name.clone(), ids: fresh };
                self.entries.push(entry);
                proof {
                    self.lemma_commit_push(pre, name@, new_ids@);
                }
            },
        }
    }

    /// The persisted entry list is faithful to the model: every listed
    /// name is a key of the cache whose seen set is exactly the listed
    /// identifiers, every key is listed, and no name is listed twice.
    pub proof fn lemma_entry_seq_faithful(&self)
        requires
            self.wf(),
        ensures
            forall|k: int|
                0 <= k < self.entry_seq().len() ==> self@.contains_key(
                    #[trigger] self.entry_seq()[k].0,
                ) && self@[self.entry_seq()[k].0] == id_set(self.entry_seq()[k].1),
            forall|n: Seq<char>| #[trigger]
                self@.contains_key(n) ==> exists|k: int|
                    0 <= k < self.entry_seq().len() && self.entry_seq()[k].0 == n,
            forall|k: int, l: int|
                0 <= k < l < self.entry_seq().len() ==> self.entry_seq()[k].0
                    != self.entry_seq()[l].0,
    {
        assert forall|k: int| 0 <= k < self.entry_seq().len() implies self@.contains_key(
            #[trigger] self.entry_seq()[k].0,
        ) && self@[self.entry_seq()[k].0] == id_set(self.entry_seq()[k].1) by {
            self.lemma_found_idx(k);
        }
        assert forall|n: Seq<char>| #[trigger] self@.contains_key(n) implies exists|k: int|
            0 <= k < self.entry_seq().len() && self.entry_seq()[k].0 == n by {
            let w = choose|i: int| 0 <= i < self.entries@.len() && self.entries@[i].name@ == n;
            assert(self.entry_seq()[w].0 == n);
        }
    }

    /// The entries in their stable order, for persistence.
    pub(crate) fn entries_ref(&self) -> (r: &Vec<CacheEntry>)
        ensures
            r@.map_values(|e: CacheEntry| (e.name@, str_seq_view(e.ids@))) == self.entry_seq(),
    {
        &self.entries
    }

    proof fn lemma_commit_update(
        &self,
        pre: DedupCache,
        i: int,
        n: Seq<char>,
        new_ids: Seq<String>,
    )
        requires
            pre.wf(),
            0 <= i < pre.entries@.len(),
            pre.entries@[i].name@ == n,
            self.entries@.len() == pre.entries@.len(),
            self.entries@ == pre.entries@.update(i, self.entries@[i]),
            self.entries@[i].name@ == n,
            id_set(str_seq_view(self.entries@[i].ids@)) == id_set(
                str_seq_view(pre.entries@[i].ids@),
            ).union(id_set(str_seq_view(new_ids))),
        ensures
            self.wf(),
            self@ == commit_map(pre@, n, id_set(str_seq_view(new_ids))),
    {
        assert(forall|k: int|
            0 <= k < self.entries@.len() ==> self.entries@[k].name@ == pre.entries@[k].name@);
        assert(self.wf());
        pre.lemma_found_idx(i);
        self.lemma_found_idx(i);
        assert forall|m: Seq<char>| #[trigger] self@.contains_key(m) <==> commit_map(
            pre@,
            n,
            id_set(str_seq_view(new_ids)),
        ).contains_key(m) by {
            assert(self.has_name(m) <==> pre.has_name(m));
        }
        assert forall|m: Seq<char>| self@.contains_key(m) implies #[trigger] self@[m]
            == commit_map(pre@, n, id_set(str_seq_view(new_ids)))[m] by {
            if m == n {
                assert(self@[n] == id_set(str_seq_view(self.entries@[i].ids@)));
                assert(pre@[n] == id_set(str_seq_view(pre.entries@[i].ids@)));
                assert(entry_of(pre@, n) == pre@[n]);
            } else {
                let w = choose|k: int|
                    0 <= k < self.entries@.len() && self.entries@[k].name@ == m;
                assert(w != i);
                self.lemma_found_idx(w);
                pre.lemma_found_idx(w);
                assert(self.entries@[w] == pre.entries@[w]);
            }
        }
        assert(self@ =~= commit_map(pre@, n, id_set(str_seq_view(new_ids))));
    }

    proof fn lemma_commit_push(&self, pre: DedupCache, n: Seq<char>, new_ids: Seq<String>)
        requires
            pre.wf(),
            forall|k: int| 0 <= k < pre.entries@.len() ==> pre.entries@[k].name@ != n,
            self.entries@ == pre.entries@.push(self.entries@[self.entries@.len() - 1]),
            self.entries@[self.entries@.len() - 1].name@ == n,
            id_set(str_seq_view(self.entries@[self.entries@.len() - 1].ids@)) == id_set(
                str_seq_view(new_ids),
            ),
        ensures
            self.wf(),
            self@ == commit_map(pre@, n, id_set(str_seq_view(new_ids))),
    {
        let last = pre.entries@.len() as int;
        assert(forall|k: int| 0 <= k < last ==> self.entries@[k] == pre.entries@[k]);
        assert(self.wf());
        assert(!pre.has_name(n));
        assert(!pre@.contains_key(n));
        self.lemma_found_idx(last);
        assert forall|m: Seq<char>| #[trigger] self@.contains_key(m) <==> commit_map(
            pre@,
            n,
            id_set(str_seq_view(new_ids)),
        ).contains_key(m) by {
            if m == n {
                assert(self.has_name(n));
            } else {
                if self.has_name(m) {
                    let w = choose|k: int|
                        0 <= k < self.entries@.len() && self.entries@[k].name@ == m;
                    assert(w != last);
                    assert(pre.entries@[w].name@ == m);
                    assert(pre.has_name(m));
                }
                if pre.has_name(m) {
                    let w = choose|k: int|
                        0 <= k < pre.entries@.len() && pre.entries@[k].name@ == m;
                    assert(self.entries@[w].name@ == m);
                }
            }
        }
        assert forall|m: Seq<char>| self@.contains_key(m) implies #[trigger] self@[m]
            == commit_map(pre@, n, id_set(str_seq_view(new_ids)))[m] by {
            if m == n {
                assert(self@[n] == id_set(str_seq_view(self.entries@[last].ids@)));
                assert(entry_of(pre@, n) =~= Set::<Seq<char>>::empty());
                assert(entry_of(pre@, n).union(id_set(str_seq_view(new_ids))) =~= id_set(
                    str_seq_view(new_ids),
                ));
            } else {
                let w = choose|k: int|
                    0 <= k < self.entries@.len() && self.entries@[k].name@ == m;
                assert(w != last);
                self.lemma_found_idx(w);
                pre.lemma_found_idx(w);
                assert(self.entries@[w] == pre.entries@[w]);
            }
        }
        assert(self@ =~= commit_map(pre@, n, id_set(str_seq_view(new_ids))));
    }
}

} // verus!
