//! Loading the cache from its durable text and writing it back.
//!
//! The durable form is a JSON object mapping each source name to the array
//! of its seen identifiers. Reading goes through a trusted JSON parse;
//! writing is built here character by character, with only the JSON string
//! literals themselves produced by a trusted call.

use vstd::prelude::*;
use vstd::string::StringExecFns;
use crate::cache::{id_set, str_seq_view, CacheEntry, DedupCache};

verus! {

/// What parsing some text as a name-to-identifier-list object yields:
/// `None` when the text is not such a JSON document, otherwise the map from
/// source name to its identifiers in array order. The parse depends on the
/// text alone; its full shape is left as a name that the parsing wrapper's
/// contract pins to the call.
pub uninterp spec fn cache_of(s: Seq<char>) -> Option<Map<Seq<char>, Seq<Seq<char>>>>;

/// The JSON string literal encoding some characters, quotes and escapes
/// included: a function of the characters alone, named rather than spelled
/// out.
pub uninterp spec fn json_string_of(s: Seq<char>) -> Seq<char>;

#[verifier::external_type_specification]
#[verifier::external_body]
pub struct ExSerdeJsonError(serde_json::Error);

/// The durable cache text could not be read as a name-to-identifiers
/// object.
#[derive(Clone, Copy, PartialEq, Eq, Structural, Debug)]
pub enum CacheError {
    Malformed,
}

/// Relies on serde_json::from_str for a map from string to array of
/// strings: the parse depends on the text alone; on success every source
/// name is unique, and maps to its identifiers in array order.
#[verifier::external_body]
fn parse_cache_entries(s: &str) -> (r: Result<Vec<CacheEntry>, serde_json::Error>)
    ensures
        match r {
            Ok(v) => {
                &&& cache_of(s@) matches Some(m) && m.dom().finite()
                    && (forall|i: int|
                    0 <= i < v@.len() ==> m.contains_key(#[trigger] v@[i].name@)
                        && m[v@[i].name@] == str_seq_view(v@[i].ids@)) && (forall|n: Seq<char>| #[trigger]
                    m.contains_key(n) ==> exists|i: int| 0 <= i < v@.len() && v@[i].name@ == n)
                &&& forall|i: int, j: int| 0 <= i < j < v@.len() ==> v@[i].name@ != v@[j].name@
            },
            Err(_) => cache_of(s@) is None,
        },
{
    match serde_json::from_str::<std::collections::HashMap<String, Vec<String>>>(s) {
        Ok(m) => Ok(
            m.into_iter().map(|(name, ids)| CacheEntry { name, ids }).collect(),
        ),
        Err(e) => Err(e),
    }
}

/// The seen sets a parsed cache map describes: each source's array of
/// identifiers, taken as a set.
pub open spec fn seen_map_of(m: Map<Seq<char>, Seq<Seq<char>>>) -> Map<Seq<char>, Set<Seq<char>>> {
    Map::new(|n: Seq<char>| m.contains_key(n), |n: Seq<char>| id_set(m[n]))
}

/// Reads the durable cache text into a live cache. Succeeds exactly when
/// the text parses as a name-to-identifiers object, and then the cache
/// records, for each source of the text, precisely the identifiers listed
/// for it; otherwise the run must not start.
pub fn load_cache(text: &str) -> (r: Result<DedupCache, CacheError>)
    ensures
        match r {
            Ok(c) => c.wf() && (cache_of(text@) matches Some(m) && c@ == seen_map_of(m)),
            Err(e) => cache_of(text@) is None && e == CacheError::Malformed,
        },
{
    let entries = match parse_cache_entries(text) {
        Ok(v) => v,
        Err(_) => {
            return Err(CacheError::Malformed);
        },
    };
    let ghost m = cache_of(text@)->Some_0;
    let mut c = DedupCache::new();
    let mut i: usize = 0;
    while i < entries.len()
        invariant
            i <= entries@.len(),
            c.wf(),
            cache_of(text@) == Some(m),
            forall|k: int|
                0 <= k < entries@.len() ==> m.contains_key(#[trigger] entries@[k].name@)
                    && m[entries@[k].name@] == str_seq_view(entries@[k].ids@),
            forall|k: int, l: int|
                0 <= k < l < entries@.len() ==> entries@[k].name@ != entries@[l].name@,
            forall|n: Seq<char>| #[trigger]
                c@.contains_key(n) <==> exists|k: int| 0 <= k < i && entries@[k].name@ == n,
            forall|k: int|
                0 <= k < i ==> c@[#[trigger] entries@[k].name@] == id_set(
                    str_seq_view(entries@[k].ids@),
                ),
        decreases entries@.len() - i,
    {
        let ghost pre = c@;
        let e = &entries[i];
        proof {
            assert(!pre.contains_key(entries@[i as int].name@));
        }
        c.commit(&e.name, &e.ids);
        proof {
            assert(c@[entries@[i as int].name@] =~= id_set(str_seq_view(entries@[i as int].ids@)));
            assert forall|n: Seq<char>| #[trigger] c@.contains_key(n) <==> exists|k: int|
                0 <= k < i + 1 && entries@[k].name@ == n by {
                if c@.contains_key(n) {
                    if n == entries@[i as int].name@ {
                        assert(entries@[i as int].name@ == n);
                    } else {
                        assert(pre.contains_key(n));
                    }
                }
            }
        }
        i = i + 1;
    }
    proof {
        assert forall|n: Seq<char>| #[trigger] c@.contains_key(n) <==> seen_map_of(
            m,
        ).contains_key(n) by {
            if m.contains_key(n) {
                let k = choose|k: int| 0 <= k < entries@.len() && entries@[k].name@ == n;
                assert(c@.contains_key(entries@[k].name@));
            }
        }
        assert forall|n: Seq<char>| c@.contains_key(n) implies #[trigger] c@[n] == seen_map_of(
            m,
        )[n] by {
            let k = choose|k: int| 0 <= k < entries@.len() && entries@[k].name@ == n;
            assert(c@[entries@[k].name@] == id_set(str_seq_view(entries@[k].ids@)));
            assert(m[n] == str_seq_view(entries@[k].ids@));
        }
        assert(c@ =~= seen_map_of(m));
    }
    Ok(c)
}

/// Relies on serde_json::to_string on a string slice: the result is the
/// JSON string literal for those characters and depends on them alone.
/// Serializing a plain string cannot fail, so the error arm is dead.
#[verifier::external_body]
fn json_quote(s: &String) -> (r: String)
    ensures
        r@ == json_string_of(s@),
{
    match serde_json::to_string(s.as_str()) {
        Ok(q) => q,
        Err(_) => String::new(),
    }
}

/// The identifiers of one entry, rendered as the inside of a JSON array.
pub open spec fn json_ids(ids: Seq<Seq<char>>) -> Seq<char>
    decreases ids.len(),
{
    if ids.len() == 0 {
        Seq::empty()
    } else if ids.len() == 1 {
        json_string_of(ids[0])
    } else {
        json_ids(ids.drop_last()) + ","@ + json_string_of(ids.last())
    }
}

/// One entry of the durable object: the quoted name, a colon, the array of
/// identifiers.
pub open spec fn json_member(e: (Seq<char>, Seq<Seq<char>>)) -> Seq<char> {
    json_string_of(e.0) + ":["@ + json_ids(e.1) + "]"@
}

/// All entries, comma-separated, in the cache's stable order.
pub open spec fn json_members(entries: Seq<(Seq<char>, Seq<Seq<char>>)>) -> Seq<char>
    decreases entries.len(),
{
    if entries.len() == 0 {
        Seq::empty()
    } else if entries.len() == 1 {
        json_member(entries[0])
    } else {
        json_members(entries.drop_last()) + ","@ + json_member(entries.last())
    }
}

/// The durable text of a cache: a JSON object from source name to the
/// array of its seen identifiers, in the cache's stable entry order.
pub open spec fn cache_json(entries: Seq<(Seq<char>, Seq<Seq<char>>)>) -> Seq<char> {
    "{"@ + json_members(entries) + "}"@
}

fn append_ids(out: &mut String, ids: &Vec<String>)
    ensures
        final(out)@ == old(out)@ + json_ids(str_seq_view(ids@)),
{
    let ghost base = out@;
    let ghost idseq = str_seq_view(ids@);
    let mut j: usize = 0;
    while j < ids.len()
        invariant
            j <= ids@.len(),
            idseq == str_seq_view(ids@),
            out@ == base + json_ids(idseq.take(j as int)),
        decreases ids@.len() - j,
    {
        let ghost pre = out@;
        if j > 0 {
            out.append(",");
        }
        let q = json_quote(&ids[j]);
        out.append(q.as_str());
        proof {
            assert(idseq.take(j as int + 1).drop_last() =~= idseq.take(j as int));
            assert(idseq.take(j as int + 1).last() == idseq[j as int]);
            assert(idseq[j as int] == ids@[j as int]@);
            if j == 0 {
                assert(out@ =~= base + json_ids(idseq.take(j as int + 1)));
            } else {
                assert(out@ =~= base + json_ids(idseq.take(j as int + 1)));
            }
        }
        j = j + 1;
    }
    proof {
        assert(idseq.take(idseq.len() as int) =~= idseq);
        assert(out@ =~= base + json_ids(idseq));
    }
}

/// Writes the cache in its durable form. The whole prior text is meant to
/// be overwritten with this result, once, after every source has committed.
pub fn cache_to_json(cache: &DedupCache) -> (r: String)
    ensures
        r@ == cache_json(cache.entry_seq()),
{
    let entries = cache.entries_ref();
    let ghost eseq = cache.entry_seq();
    let mut out = String::new();
    out.append("{");
    let mut i: usize = 0;
    while i < entries.len()
        invariant
            i <= entries@.len(),
            eseq == entries@.map_values(|e: CacheEntry| (e.name@, str_seq_view(e.ids@))),
            out@ == "{"@ + json_members(eseq.take(i as int)),
        decreases entries@.len() - i,
    {
        let ghost pre = out@;
        if i > 0 {
            out.append(",");
        }
        let q = json_quote(&entries[i].name);
        out.append(q.as_str());
        out.append(":[");
        append_ids(&mut out, &entries[i].ids);
        out.append("]");
        proof {
            assert(eseq[i as int] == (entries@[i as int].name@, str_seq_view(
                entries@[i as int].ids@,
            )));
            assert(eseq.take(i as int + 1).drop_last() =~= eseq.take(i as int));
            assert(eseq.take(i as int + 1).last() == eseq[i as int]);
            assert(out@ =~= "{"@ + json_members(eseq.take(i as int + 1)));
        }
        i = i + 1;
    }
    out.append("}");
    proof {
        assert(eseq.take(eseq.len() as int) =~= eseq);
        assert(out@ =~= cache_json(eseq));
    }
    out
}

} // verus!
