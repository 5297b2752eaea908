use vstd::prelude::*;

use crate::dictionary::{entries_view, Entry, EntryView};
use crate::chars::chars_of;
use crate::text::{lower_of, lowercase};

verus! {

/// `p` occurs in `t` as a contiguous run of characters.
pub open spec fn is_substring(p: Seq<char>, t: Seq<char>) -> bool {
    exists|i: int| 0 <= i && i + p.len() <= t.len() && #[trigger] t.subrange(i, i + p.len()) == p
}

/// An entry matches a lowercased query when the lowercase form of its word
/// or of its translation contains the query.
pub open spec fn entry_matches(e: EntryView, lowered_query: Seq<char>) -> bool {
    is_substring(lowered_query, lower_of(e.word)) || is_substring(
        lowered_query,
        lower_of(e.translation),
    )
}

/// The entries of `d` that match a lowercased query, each once, in their order in `d`.
pub open spec fn filter_matching(d: Seq<EntryView>, lowered_query: Seq<char>) -> Seq<EntryView>
    decreases d.len(),
{
    if d.len() == 0 {
        seq![]
    } else {
        let r = filter_matching(d.drop_last(), lowered_query);
        if entry_matches(d.last(), lowered_query) {
            r.push(d.last())
        } else {
            r
        }
    }
}

/// What a search for `query` over `d` gives: nothing for an empty query, else
/// the entries that match the query's lowercase form.
pub open spec fn search_result(d: Seq<EntryView>, query: Seq<char>) -> Seq<EntryView> {
    if query.len() == 0 {
        seq![]
    } else {
        filter_matching(d, lower_of(query))
    }
}

/// Whether `pattern` occurs in `text` as a contiguous run.
pub fn contains_chars(text: &Vec<char>, pattern: &Vec<char>) -> (r: bool)
    ensures
        r == is_substring(pattern@, text@),
{
    let n = text.len();
    let m = pattern.len();
    if m > n {
        return false;
    }
    let mut i: usize = 0;
    while i <= n - m
        invariant
            m <= n,
            n == text@.len(),
            m == pattern@.len(),
            forall|k: int| 0 <= k < i ==> #[trigger] text@.subrange(k, k + m) != pattern@,
        decreases n - m + 1 - i,
    {
        let mut j: usize = 0;
        while j < m && text[i + j] == pattern[j]
            invariant
                m <= n,
                i <= n - m,
                n == text@.len(),
                m == pattern@.len(),
                j <= m,
                forall|k: int| 0 <= k < j ==> text@[i + k] == pattern@[k],
            decreases m - j,
        {
            j = j + 1;
        }
        if j == m {
            assert(text@.subrange(i as int, i + m) =~= pattern@);
            return true;
        }
        assert(text@.subrange(i as int, i + m)[j as int] != pattern@[j as int]);
        i = i + 1;
    }
    proof {
        assert forall|k: int|
            0 <= k && k + m <= n implies #[trigger] text@.subrange(k, k + m) != pattern@ by {}
    }
    false
}

/// Whether an already lowercased keyword contains an already lowercased query.
pub fn keyword_matches(lowered_keyword: &str, lowered_query: &str) -> (r: bool)
    ensures
        r == is_substring(lowered_query@, lowered_keyword@),
{
    let k = chars_of(lowered_keyword);
    let q = chars_of(lowered_query);
    contains_chars(&k, &q)
}

/// Whether an entry matches a lowercased query: its keywords are lowercased
/// and tried in turn, the word first.
pub fn matches_query(entry: &Entry, lowered_query: &str) -> (r: bool)
    ensures
        r == entry_matches(entry@, lowered_query@),
{
    let keywords = entry.get_keywords();
    let mut i: usize = 0;
    while i < keywords.len()
        invariant
            keywords@.len() == 2,
            keywords@[0]@ == entry.word@,
            keywords@[1]@ == entry.translation@,
            i <= 2,
            forall|k: int|
                0 <= k < i ==> !is_substring(lowered_query@, lower_of(#[trigger] keywords@[k]@)),
        decreases 2 - i,
    {
        let lowered = lowercase(keywords[i].as_str());
        if keyword_matches(lowered.as_str(), lowered_query) {
            return true;
        }
        i = i + 1;
    }
    assert(!is_substring(lowered_query@, lower_of(keywords@[0]@)));
    assert(!is_substring(lowered_query@, lower_of(keywords@[1]@)));
    false
}

/// The entries of `dictionary` whose word or translation contains `query`,
/// ignoring case, each once and in dictionary order. An empty query gives no
/// entries.
pub fn search(dictionary: &Vec<Entry>, query: &str) -> (r: Vec<Entry>)
    ensures
        entries_view(r@) == search_result(entries_view(dictionary@), query@),
        query@.len() == 0 ==> r@.len() == 0,
{
    let mut out: Vec<Entry> = Vec::new();
    let q = chars_of(query);
    if q.len() == 0 {
        assert(entries_view(out@) =~= seq![]);
        return out;
    }
    let lowered = lowercase(query);
    let ghost d = entries_view(dictionary@);
    let mut i: usize = 0;
    while i < dictionary.len()
        invariant
            i <= dictionary@.len(),
            d == entries_view(dictionary@),
            lowered@ == lower_of(query@),
            entries_view(out@) == filter_matching(d.subrange(0, i as int), lowered@),
        decreases dictionary@.len() - i,
    {
        assert(d.subrange(0, i + 1).drop_last() =~= d.subrange(0, i as int));
        let entry = &dictionary[i];
        if matches_query(entry, lowered.as_str()) {
            let ghost before = out@;
            out.push(entry.duplicate());
            assert(entries_view(out@) =~= entries_view(before).push(entry@));
        }
        i = i + 1;
    }
    assert(d.subrange(0, i as int) =~= d);
    out
}

proof fn lemma_filter_append(d1: Seq<EntryView>, d2: Seq<EntryView>, lowered_query: Seq<char>)
    ensures
        filter_matching(d1 + d2, lowered_query) == filter_matching(d1, lowered_query)
            + filter_matching(d2, lowered_query),
    decreases d2.len(),
{
    if d2.len() == 0 {
        assert(d1 + d2 =~= d1);
        assert(filter_matching(d1, lowered_query) + seq![] =~= filter_matching(d1, lowered_query));
    } else {
        lemma_filter_append(d1, d2.drop_last(), lowered_query);
        assert((d1 + d2).drop_last() =~= d1 + d2.drop_last());
        assert((d1 + d2).last() == d2.last());
        let a = filter_matching(d1, lowered_query);
        let b = filter_matching(d2.drop_last(), lowered_query);
        assert((a + b).push(d2.last()) =~= a + b.push(d2.last()));
    }
}

/// Searching two dictionaries one after the other gives the results of the
/// first followed by those of the second: a search keeps dictionary order.
pub proof fn lemma_search_append(d1: Seq<EntryView>, d2: Seq<EntryView>, query: Seq<char>)
    ensures
        search_result(d1 + d2, query) == search_result(d1, query) + search_result(d2, query),
{
    if query.len() == 0 {
        assert(Seq::<EntryView>::empty() + Seq::<EntryView>::empty() =~= Seq::<EntryView>::empty());
    } else {
        lemma_filter_append(d1, d2, lower_of(query));
    }
}

/// Of three entries where the query matches only the second and the third,
/// a search gives the second, then the third.
pub proof fn lemma_search_keeps_order(a: EntryView, b: EntryView, c: EntryView, query: Seq<char>)
    requires
        query.len() > 0,
        !entry_matches(a, lower_of(query)),
        entry_matches(b, lower_of(query)),
        entry_matches(c, lower_of(query)),
    ensures
        search_result(seq![a, b, c], query) == seq![b, c],
{
    let q = lower_of(query);
    assert(seq![a, b, c].drop_last() =~= seq![a, b]);
    assert(seq![a, b].drop_last() =~= seq![a]);
    assert(seq![a].drop_last() =~= Seq::<EntryView>::empty());
    assert(seq![a].last() == a);
    assert(seq![a, b].last() == b);
    assert(seq![a, b, c].last() == c);
    assert(filter_matching(Seq::<EntryView>::empty(), q) == Seq::<EntryView>::empty());
    assert(filter_matching(seq![a], q) =~= Seq::<EntryView>::empty());
    assert(filter_matching(seq![a, b], q) =~= seq![b]);
    assert(filter_matching(seq![a, b, c], q) =~= seq![b, c]);
}

/// An entry whose word and translation both contain the query is added to
/// the results once, not once per keyword.
pub proof fn lemma_double_match_once(d: Seq<EntryView>, e: EntryView, query: Seq<char>)
    requires
        query.len() > 0,
        is_substring(lower_of(query), lower_of(e.word)),
        is_substring(lower_of(query), lower_of(e.translation)),
    ensures
        search_result(d.push(e), query) == search_result(d, query).push(e),
{
    assert(d.push(e).drop_last() =~= d);
}

proof fn lemma_filter_idempotent(d: Seq<EntryView>, lowered_query: Seq<char>)
    ensures
        filter_matching(filter_matching(d, lowered_query), lowered_query) == filter_matching(
            d,
            lowered_query,
        ),
    decreases d.len(),
{
    if d.len() > 0 {
        lemma_filter_idempotent(d.drop_last(), lowered_query);
        let r = filter_matching(d.drop_last(), lowered_query);
        assert(r.push(d.last()).drop_last() =~= r);
    }
}

/// Searching the results of a search again, with the same query, gives the
/// same results.
pub proof fn lemma_search_idempotent(d: Seq<EntryView>, query: Seq<char>)
    ensures
        search_result(search_result(d, query), query) == search_result(d, query),
{
    if query.len() > 0 {
        lemma_filter_idempotent(d, lower_of(query));
    }
}

} // verus!
