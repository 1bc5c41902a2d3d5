use vstd::prelude::*;

use crate::codec::is_valid_id;
use crate::codec::valid_id;
use crate::strings::contains_seq;
use crate::strings::contains_vec;
use crate::strings::from_char_vec;
use crate::strings::to_char_vec;
use crate::strings::trim_chars;
use crate::strings::trim_spec;

verus! {

// ---------------------------------------------------------------------------
// Search.
//
// The persistent index is a best-effort capability living with the caller;
// this module holds what can be decided and computed purely: when the
// caller must fall back to a substring scan, and the substring scan itself,
// scored, stably ordered and truncated.
// ---------------------------------------------------------------------------

/// One search hit.
#[derive(Clone, Debug)]
pub struct SearchResult {
    pub id: String,
    pub title: String,
    pub preview: String,
    pub modified: i64,
    /// Relevance: a title match scores 50, a content match 10, both 55.
    pub score: u64,
}

/// What the fallback scan sees of one note: its cached metadata and its
/// content, when the file could still be read.
pub struct FallbackDoc {
    pub id: String,
    pub title: String,
    pub preview: String,
    pub modified: i64,
    pub content: Option<String>,
}

// ---------------------------------------------------------------------------
// Lowercasing, for case-insensitive matching.
// ---------------------------------------------------------------------------

/// What `str::to_lowercase` yields for a text.
pub uninterp spec fn lower_of(s: Seq<char>) -> Seq<char>;

/// Relies on `str::to_lowercase`: the Unicode lowercase mapping of the
/// text, which depends on the characters alone; empty text stays empty.
#[verifier::external_body]
pub fn lowercase(s: &str) -> (r: String)
    ensures
        r@ == lower_of(s@),
        s@.len() == 0 ==> r@.len() == 0,
{
    s.to_lowercase()
}

// ---------------------------------------------------------------------------
// Query preparation and the decision to fall back.
// ---------------------------------------------------------------------------

/// Trim a query; an all-blank query means an empty result without touching
/// index or fallback.
pub fn search_query(query: &str) -> (r: Option<String>)
    ensures
        match r {
            Some(q) => q@ == trim_spec(query@) && q@.len() > 0,
            None => trim_spec(query@).len() == 0,
        },
{
    let v = to_char_vec(query);
    let t = trim_chars(&v);
    if t.len() == 0 {
        None
    } else {
        Some(from_char_vec(&t))
    }
}

/// What the caller learned from the index for a non-empty query.
#[derive(Clone, Copy, Debug, PartialEq, Eq, Structural)]
pub enum IndexProbe {
    /// No index is open for the folder.
    Absent,
    /// The index answered with this many hits.
    Hits(usize),
    /// The index failed to parse, search or load.
    Error,
}

/// Whether the caller must run the substring fallback: the index is absent,
/// it failed, or it found nothing for a non-empty query.
pub fn needs_fallback(probe: &IndexProbe) -> (r: bool)
    ensures
        r == match *probe {
            IndexProbe::Absent => true,
            IndexProbe::Hits(n) => n == 0,
            IndexProbe::Error => true,
        },
{
    match probe {
        IndexProbe::Absent => true,
        IndexProbe::Hits(n) => *n == 0,
        IndexProbe::Error => true,
    }
}

// ---------------------------------------------------------------------------
// The substring fallback.
// ---------------------------------------------------------------------------

/// The score of one note for a lowercased query: 50 for a title match,
/// 10 for a content match, 55 for both; an unreadable content can only
/// match by title.
pub open spec fn doc_score(d: FallbackDoc, ql: Seq<char>) -> u64 {
    let t = contains_seq(lower_of(d.title@), ql);
    let c = match d.content {
        Some(cs) => contains_seq(lower_of(cs@), ql),
        None => false,
    };
    if t && c {
        55
    } else if t {
        50
    } else if c {
        10
    } else {
        0
    }
}

/// The documents that score, in document order, as (index, score) pairs;
/// a document whose identifier the resolver rejects is skipped.
pub open spec fn scored_pairs(docs: Seq<FallbackDoc>, ql: Seq<char>) -> Seq<(usize, u64)>
    decreases docs.len(),
{
    if docs.len() == 0 {
        Seq::empty()
    } else {
        let pre = scored_pairs(docs.drop_last(), ql);
        let d = docs.last();
        if valid_id(d.id@) && doc_score(d, ql) > 0 {
            pre.push(((docs.len() - 1) as usize, doc_score(d, ql)))
        } else {
            pre
        }
    }
}

/// Insert a pair behind every pair scoring at least as high.
pub open spec fn pairs_insert(x: (usize, u64), s: Seq<(usize, u64)>) -> Seq<(usize, u64)>
    decreases s.len(),
{
    if s.len() == 0 {
        seq![x]
    } else if s[0].1 >= x.1 {
        seq![s[0]] + pairs_insert(x, s.drop_first())
    } else {
        seq![x] + s
    }
}

/// Stable sort by score, highest first.
pub open spec fn pairs_sort(s: Seq<(usize, u64)>) -> Seq<(usize, u64)>
    decreases s.len(),
{
    if s.len() == 0 {
        s
    } else {
        pairs_insert(s.last(), pairs_sort(s.drop_last()))
    }
}

/// The fallback result order: the scoring documents, stably sorted by score
/// descending, cut to the top 20.
pub open spec fn fallback_order(docs: Seq<FallbackDoc>, ql: Seq<char>) -> Seq<(usize, u64)> {
    let sorted = pairs_sort(scored_pairs(docs, ql));
    if sorted.len() <= 20 {
        sorted
    } else {
        sorted.take(20)
    }
}

fn score_doc(d: &FallbackDoc, qlv: &Vec<char>) -> (r: u64)
    ensures
        r == doc_score(*d, qlv@),
{
    let tl = lowercase(d.title.as_str());
    let tlv = to_char_vec(tl.as_str());
    let t = contains_vec(&tlv, qlv);
    let c = match &d.content {
        Some(cs) => {
            let cl = lowercase(cs.as_str());
            let clv = to_char_vec(cl.as_str());
            contains_vec(&clv, qlv)
        },
        None => false,
    };
    if t && c {
        55
    } else if t {
        50
    } else if c {
        10
    } else {
        0
    }
}

proof fn lemma_pairs_insert_at(s: Seq<(usize, u64)>, x: (usize, u64), idx: int)
    requires
        0 <= idx <= s.len(),
        forall|j: int| 0 <= j < idx ==> s[j].1 >= x.1,
        idx < s.len() ==> s[idx].1 < x.1,
    ensures
        pairs_insert(x, s) == s.take(idx) + seq![x] + s.skip(idx),
    decreases idx,
{
    if idx == 0 {
        assert(pairs_insert(x, s) =~= s.take(0) + seq![x] + s.skip(0));
    } else {
        let t = s.drop_first();
        assert(forall|j: int| 0 <= j < idx - 1 ==> #[trigger] t[j].1 >= x.1);
        lemma_pairs_insert_at(t, x, idx - 1);
        assert(seq![s[0]] + (t.take(idx - 1) + seq![x] + t.skip(idx - 1)) =~= s.take(idx)
            + seq![x] + s.skip(idx));
    }
}

/// The substring fallback over the cached notes: case-insensitive matching
/// of the (already trimmed) query against title and content, scored, stably
/// ordered by score, cut to the top 20.
pub fn fallback_search(query: &str, docs: &Vec<FallbackDoc>) -> (r: Vec<SearchResult>)
    ensures
        r@.len() == fallback_order(docs@, lower_of(query@)).len(),
        forall|i: int|
            #![trigger r@[i]]
            0 <= i < r@.len() ==> {
                let p = fallback_order(docs@, lower_of(query@))[i];
                &&& 0 <= p.0 < docs@.len()
                &&& r@[i].id == docs@[p.0 as int].id
                &&& r@[i].title == docs@[p.0 as int].title
                &&& r@[i].preview == docs@[p.0 as int].preview
                &&& r@[i].modified == docs@[p.0 as int].modified
                &&& r@[i].score == p.1
                &&& p.1 == doc_score(docs@[p.0 as int], lower_of(query@))
            },
{
    let ql = lowercase(query);
    let qlv = to_char_vec(ql.as_str());
    let ghost qls = lower_of(query@);
    // pins docs@.len() within usize for the bounds lemmas below
    let dn = docs.len();
    proof {
        assert(docs@.len() == dn);
    }

    // score the documents in order
    let mut pairs: Vec<(usize, u64)> = Vec::new();
    let mut j: usize = 0;
    while j < docs.len()
        invariant
            0 <= j <= docs@.len(),
            qlv@ == qls,
            pairs@ == scored_pairs(docs@.take(j as int), qls),
        decreases docs@.len() - j,
    {
        proof {
            assert(docs@.take(j + 1).drop_last() =~= docs@.take(j as int));
            assert(docs@.take(j + 1).last() == docs@[j as int]);
        }
        let d = &docs[j];
        let sc = score_doc(d, &qlv);
        if sc > 0 && is_valid_id(d.id.as_str()) {
            pairs.push((j, sc));
        }
        j = j + 1;
    }
    proof {
        assert(docs@.take(docs@.len() as int) =~= docs@);
    }

    // stable sort by score, highest first
    let ghost unsorted = pairs@;
    let mut rest = pairs;
    let mut sorted: Vec<(usize, u64)> = Vec::new();
    let ghost mut i: int = 0;
    while rest.len() > 0
        invariant
            0 <= i <= unsorted.len(),
            rest@ =~= unsorted.skip(i),
            sorted@ == pairs_sort(unsorted.take(i)),
        decreases rest@.len(),
    {
        let x = rest.remove(0);
        proof {
            assert(x == unsorted[i]);
            assert(rest@ =~= unsorted.skip(i + 1));
        }
        let xs = x.1;
        let mut idx: usize = 0;
        while idx < sorted.len() && sorted[idx].1 >= xs
            invariant
                0 <= idx <= sorted@.len(),
                forall|j2: int| 0 <= j2 < idx ==> sorted@[j2].1 >= xs,
            decreases sorted@.len() - idx,
        {
            idx = idx + 1;
        }
        proof {
            lemma_pairs_insert_at(sorted@, x, idx as int);
        }
        let ghost before = sorted@;
        sorted.insert(idx, x);
        proof {
            assert(sorted@ =~= before.take(idx as int) + seq![x] + before.skip(idx as int));
            assert(unsorted.take(i + 1).drop_last() =~= unsorted.take(i));
            assert(unsorted.take(i + 1).last() == unsorted[i]);
            i = i + 1;
        }
    }
    proof {
        assert(unsorted.take(unsorted.len() as int) =~= unsorted);
    }

    // cut to the top 20
    if sorted.len() > 20 {
        sorted.truncate(20);
        proof {
            assert(sorted@ =~= pairs_sort(unsorted).take(20));
        }
    }
    let ghost order = fallback_order(docs@, qls);
    proof {
        assert(sorted@ == order);
    }

    // pairs index into `docs`, so the copies below are in bounds
    proof {
        lemma_scored_pairs_bounds(docs@, qls);
        lemma_pairs_sort_keeps(unsorted);
    }

    let mut out: Vec<SearchResult> = Vec::new();
    let mut k: usize = 0;
    while k < sorted.len()
        invariant
            0 <= k <= sorted@.len(),
            sorted@ == order,
            forall|i2: int|
                0 <= i2 < sorted@.len() ==> 0 <= #[trigger] sorted@[i2].0 < docs@.len()
                    && sorted@[i2].1 == doc_score(docs@[sorted@[i2].0 as int], qls),
            out@.len() == k,
            forall|i2: int|
                #![trigger out@[i2]]
                0 <= i2 < k ==> {
                    let p = order[i2];
                    &&& out@[i2].id == docs@[p.0 as int].id
                    &&& out@[i2].title == docs@[p.0 as int].title
                    &&& out@[i2].preview == docs@[p.0 as int].preview
                    &&& out@[i2].modified == docs@[p.0 as int].modified
                    &&& out@[i2].score == p.1
                },
        decreases sorted@.len() - k,
    {
        let (di, sc) = sorted[k];
        let d = &docs[di];
        out.push(
            SearchResult {
                id: d.id.clone(),
                title: d.title.clone(),
                preview: d.preview.clone(),
                modified: d.modified,
                score: sc,
            },
        );
        k = k + 1;
    }
    out
}

// ---------------------------------------------------------------------------
// What the fallback ordering guarantees: every scoring document is listed
// (up to the top-20 cut), scores never rise along the list, and a title
// match always outranks a content-only match.
// ---------------------------------------------------------------------------

/// Scores never rise along the sequence.
pub open spec fn pairs_sorted_desc(s: Seq<(usize, u64)>) -> bool {
    forall|i: int, j: int| 0 <= i <= j < s.len() ==> s[i].1 >= s[j].1
}

proof fn lemma_pairs_insert_sorted(x: (usize, u64), s: Seq<(usize, u64)>)
    requires
        pairs_sorted_desc(s),
    ensures
        pairs_sorted_desc(pairs_insert(x, s)),
        pairs_insert(x, s).len() == s.len() + 1,
        exists|k: int| 0 <= k < pairs_insert(x, s).len() && pairs_insert(x, s)[k] == x,
        forall|j: int|
            0 <= j < s.len() ==> exists|k: int|
                0 <= k < pairs_insert(x, s).len() && pairs_insert(x, s)[k] == #[trigger] s[j],
    decreases s.len(),
{
    let m = pairs_insert(x, s);
    if s.len() == 0 {
        assert(m =~= seq![x]);
        assert(m[0] == x);
    } else if s[0].1 >= x.1 {
        let t = s.drop_first();
        assert(pairs_sorted_desc(t)) by {
            assert(forall|i: int| 0 <= i < t.len() ==> #[trigger] t[i] == s[i + 1]);
        }
        lemma_pairs_insert_sorted(x, t);
        let q = pairs_insert(x, t);
        assert(m == seq![s[0]] + q);
        assert forall|k: int| 0 <= k < q.len() implies #[trigger] q[k] == x || (exists|j: int|
            0 <= j < t.len() && t[j] == q[k]) by {
            lemma_pairs_insert_keeps(x, t);
        }
        assert forall|i: int, j: int| 0 <= i <= j < m.len() implies m[i].1 >= m[j].1 by {
            if i == 0 {
                if j > 0 {
                    assert(m[j] == q[j - 1]);
                    if q[j - 1] == x {
                    } else {
                        let j2 = choose|j2: int| 0 <= j2 < t.len() && t[j2] == q[j - 1];
                        assert(s[0].1 >= s[j2 + 1].1);
                    }
                }
            } else {
                assert(m[i] == q[i - 1]);
                assert(m[j] == q[j - 1]);
            }
        }
        let kx = choose|k: int| 0 <= k < q.len() && q[k] == x;
        assert(m[kx + 1] == x);
        assert forall|j: int| 0 <= j < s.len() implies exists|k: int|
            0 <= k < m.len() && m[k] == #[trigger] s[j] by {
            if j == 0 {
                assert(m[0] == s[0]);
            } else {
                let k = choose|k: int| 0 <= k < q.len() && q[k] == t[j - 1];
                assert(m[k + 1] == s[j]);
            }
        }
    } else {
        assert(m == seq![x] + s);
        assert(m[0] == x);
        assert forall|i: int, j: int| 0 <= i <= j < m.len() implies m[i].1 >= m[j].1 by {
            if i > 0 {
                assert(m[i] == s[i - 1]);
                assert(m[j] == s[j - 1]);
            } else if j > 0 {
                assert(m[j] == s[j - 1]);
                assert(s[0].1 >= s[j - 1].1);
            }
        }
        assert forall|j: int| 0 <= j < s.len() implies exists|k: int|
            0 <= k < m.len() && m[k] == #[trigger] s[j] by {
            assert(m[j + 1] == s[j]);
        }
    }
}

/// The sorted pairs are sorted, keep their length, and keep every pair.
pub proof fn lemma_pairs_sort_props(s: Seq<(usize, u64)>)
    ensures
        pairs_sorted_desc(pairs_sort(s)),
        pairs_sort(s).len() == s.len(),
        forall|j: int|
            0 <= j < s.len() ==> exists|k: int|
                0 <= k < pairs_sort(s).len() && pairs_sort(s)[k] == #[trigger] s[j],
    decreases s.len(),
{
    if s.len() > 0 {
        lemma_pairs_sort_props(s.drop_last());
        lemma_pairs_insert_sorted(s.last(), pairs_sort(s.drop_last()));
        let m = pairs_sort(s);
        let q = pairs_sort(s.drop_last());
        assert forall|j: int| 0 <= j < s.len() implies exists|k: int|
            0 <= k < m.len() && m[k] == #[trigger] s[j] by {
            if j == s.len() - 1 {
                let k = choose|k: int| 0 <= k < m.len() && m[k] == s.last();
            } else {
                assert(s.drop_last()[j] == s[j]);
                let k0 = choose|k: int| 0 <= k < q.len() && q[k] == s[j];
                let k1 = choose|k: int| 0 <= k < m.len() && m[k] == q[k0];
            }
        }
    }
}

/// Every document that scores appears among the scored pairs, with its
/// score.
pub proof fn lemma_scored_pairs_has(docs: Seq<FallbackDoc>, ql: Seq<char>, j: int)
    requires
        0 <= j < docs.len(),
        docs.len() <= usize::MAX,
        valid_id(docs[j].id@),
        doc_score(docs[j], ql) > 0,
    ensures
        exists|i: int|
            0 <= i < scored_pairs(docs, ql).len() && #[trigger] scored_pairs(docs, ql)[i] == (
            j as usize,
            doc_score(docs[j], ql),
        ),
    decreases docs.len(),
{
    let p = scored_pairs(docs, ql);
    let pre = scored_pairs(docs.drop_last(), ql);
    if j == docs.len() - 1 {
        assert(docs.last() == docs[j]);
        assert(p[p.len() - 1] == (j as usize, doc_score(docs[j], ql)));
    } else {
        assert(docs.drop_last()[j] == docs[j]);
        lemma_scored_pairs_has(docs.drop_last(), ql, j);
        let i = choose|i: int|
            0 <= i < pre.len() && #[trigger] pre[i] == (j as usize, doc_score(docs[j], ql));
        assert(p[i] == pre[i]);
    }
}

/// With the index unavailable, the substring fallback still returns a note
/// that matches only in its body — and ranks it strictly below a note that
/// matches in its title (as long as at most 20 notes score at all).
pub proof fn lemma_fallback_title_over_content(
    docs: Seq<FallbackDoc>,
    ql: Seq<char>,
    a: int,
    b: int,
)
    requires
        0 <= a < docs.len(),
        0 <= b < docs.len(),
        docs.len() <= usize::MAX,
        valid_id(docs[a].id@),
        valid_id(docs[b].id@),
        contains_seq(lower_of(docs[a].title@), ql),
        !contains_seq(lower_of(docs[b].title@), ql),
        docs[b].content is Some,
        contains_seq(lower_of(docs[b].content.unwrap()@), ql),
        scored_pairs(docs, ql).len() <= 20,
    ensures
        exists|ia: int, ib: int|
            #![trigger fallback_order(docs, ql)[ia], fallback_order(docs, ql)[ib]]
            {
                &&& 0 <= ia < fallback_order(docs, ql).len()
                &&& 0 <= ib < fallback_order(docs, ql).len()
                &&& ia < ib
                &&& fallback_order(docs, ql)[ia].0 == a as usize
                &&& fallback_order(docs, ql)[ib].0 == b as usize
                &&& fallback_order(docs, ql)[ia].1 > fallback_order(docs, ql)[ib].1
            },
{
    let sa = doc_score(docs[a], ql);
    let sb = doc_score(docs[b], ql);
    assert(sa == 50 || sa == 55);
    assert(sb == 10);
    lemma_scored_pairs_has(docs, ql, a);
    lemma_scored_pairs_has(docs, ql, b);
    let sp = scored_pairs(docs, ql);
    lemma_pairs_sort_props(sp);
    let sorted = pairs_sort(sp);
    assert(fallback_order(docs, ql) == sorted);
    let pa = choose|i: int| 0 <= i < sp.len() && #[trigger] sp[i] == (a as usize, sa);
    let pb = choose|i: int| 0 <= i < sp.len() && #[trigger] sp[i] == (b as usize, sb);
    let ia = choose|k: int| 0 <= k < sorted.len() && sorted[k] == sp[pa];
    let ib = choose|k: int| 0 <= k < sorted.len() && sorted[k] == sp[pb];
    assert(sorted[ia] == (a as usize, sa));
    assert(sorted[ib] == (b as usize, sb));
    assert(ia < ib) by {
        if ib <= ia {
            assert(sorted[ib].1 >= sorted[ia].1);
        }
    }
}

/// A query no document matches yields an empty result.
pub proof fn lemma_fallback_empty_when_nothing_scores(docs: Seq<FallbackDoc>, ql: Seq<char>)
    requires
        forall|j: int| 0 <= j < docs.len() ==> doc_score(#[trigger] docs[j], ql) == 0,
    ensures
        fallback_order(docs, ql).len() == 0,
    decreases docs.len(),
{
    if docs.len() > 0 {
        assert(forall|j: int|
            0 <= j < docs.len() - 1 ==> doc_score(#[trigger] docs.drop_last()[j], ql) == 0);
        lemma_fallback_empty_when_nothing_scores(docs.drop_last(), ql);
        assert(doc_score(docs.last(), ql) == 0);
    }
}

/// Every returned pair carries a positive score: only matching documents
/// are listed.
pub proof fn lemma_fallback_scores_positive(docs: Seq<FallbackDoc>, ql: Seq<char>)
    ensures
        forall|i: int|
            0 <= i < fallback_order(docs, ql).len() ==> (#[trigger] fallback_order(docs, ql)[i]).1
                > 0,
{
    lemma_scored_pairs_positive(docs, ql);
    let sp = scored_pairs(docs, ql);
    lemma_pairs_sort_keeps(sp);
    let sorted = pairs_sort(sp);
    assert forall|i: int| 0 <= i < fallback_order(docs, ql).len() implies (
    #[trigger] fallback_order(docs, ql)[i]).1 > 0 by {
        assert(fallback_order(docs, ql)[i] == sorted[i]);
        let j = choose|j: int| 0 <= j < sp.len() && sp[j] == sorted[i];
    }
}

proof fn lemma_scored_pairs_positive(docs: Seq<FallbackDoc>, ql: Seq<char>)
    ensures
        forall|i: int|
            0 <= i < scored_pairs(docs, ql).len() ==> (#[trigger] scored_pairs(docs, ql)[i]).1 > 0,
    decreases docs.len(),
{
    if docs.len() > 0 {
        lemma_scored_pairs_positive(docs.drop_last(), ql);
        let p = scored_pairs(docs, ql);
        let pre = scored_pairs(docs.drop_last(), ql);
        assert forall|i: int| 0 <= i < p.len() implies (#[trigger] p[i]).1 > 0 by {
            if i < pre.len() {
                assert(p[i] == pre[i]);
            } else {
                assert(p[i].1 == doc_score(docs.last(), ql));
            }
        }
    }
}

/// Every scored pair points into the documents and carries that document's
/// score.
proof fn lemma_scored_pairs_bounds(docs: Seq<FallbackDoc>, ql: Seq<char>)
    requires
        docs.len() <= usize::MAX,
    ensures
        forall|i: int|
            0 <= i < scored_pairs(docs, ql).len() ==> 0 <= (
            #[trigger] scored_pairs(docs, ql)[i]).0 < docs.len() && scored_pairs(docs, ql)[i].1
                == doc_score(docs[scored_pairs(docs, ql)[i].0 as int], ql),
    decreases docs.len(),
{
    if docs.len() > 0 {
        lemma_scored_pairs_bounds(docs.drop_last(), ql);
        let p = scored_pairs(docs, ql);
        let pre = scored_pairs(docs.drop_last(), ql);
        assert forall|i: int|
            0 <= i < p.len() implies 0 <= (#[trigger] p[i]).0 < docs.len() && p[i].1 == doc_score(
            docs[p[i].0 as int],
            ql,
        ) by {
            if i < pre.len() {
                assert(p[i] == pre[i]);
                assert(docs.drop_last()[pre[i].0 as int] == docs[pre[i].0 as int]);
            } else {
                assert(p[i] == (((docs.len() - 1) as usize, doc_score(docs.last(), ql))));
                assert(docs.last() == docs[docs.len() - 1]);
            }
        }
    }
}

/// Sorting keeps each pair's membership facts: anything true of every
/// element of `s` is true of every element of the sorted sequence.
proof fn lemma_pairs_insert_keeps(x: (usize, u64), s: Seq<(usize, u64)>)
    ensures
        forall|i: int|
            0 <= i < pairs_insert(x, s).len() ==> (#[trigger] pairs_insert(x, s)[i]) == x || (
            exists|j: int| 0 <= j < s.len() && s[j] == pairs_insert(x, s)[i]),
    decreases s.len(),
{
    if s.len() > 0 && s[0].1 >= x.1 {
        lemma_pairs_insert_keeps(x, s.drop_first());
        assert forall|i: int| 0 <= i < pairs_insert(x, s).len() implies (#[trigger] pairs_insert(
            x,
            s,
        )[i]) == x || (exists|j: int| 0 <= j < s.len() && s[j] == pairs_insert(x, s)[i]) by {
            let p = pairs_insert(x, s);
            if i == 0 {
                assert(p[0] == s[0]);
            } else {
                let q = pairs_insert(x, s.drop_first());
                assert(p[i] == q[i - 1]);
                if q[i - 1] == x {
                } else {
                    let j = choose|j: int|
                        0 <= j < s.drop_first().len() && s.drop_first()[j] == q[i - 1];
                    assert(s[j + 1] == q[i - 1]);
                }
            }
        }
    }
}

proof fn lemma_pairs_sort_keeps(s: Seq<(usize, u64)>)
    ensures
        forall|i: int|
            0 <= i < pairs_sort(s).len() ==> exists|j: int|
                0 <= j < s.len() && s[j] == #[trigger] pairs_sort(s)[i],
    decreases s.len(),
{
    if s.len() > 0 {
        lemma_pairs_sort_keeps(s.drop_last());
        lemma_pairs_insert_keeps(s.last(), pairs_sort(s.drop_last()));
        assert forall|i: int| 0 <= i < pairs_sort(s).len() implies exists|j: int|
            0 <= j < s.len() && s[j] == #[trigger] pairs_sort(s)[i] by {
            let p = pairs_sort(s);
            if p[i] == s.last() {
                assert(s[s.len() - 1] == p[i]);
            } else {
                let j0 = choose|j: int|
                    0 <= j < pairs_sort(s.drop_last()).len() && pairs_sort(s.drop_last())[j]
                        == p[i];
                let j1 = choose|j: int|
                    0 <= j < s.drop_last().len() && s.drop_last()[j] == pairs_sort(
                        s.drop_last(),
                    )[j0];
                assert(s[j1] == p[i]);
            }
        }
    }
}

} // verus!
