//! The search pipeline: filtered candidates on one channel or two, rank fusion,
//! an optional reranker, and the cut to the final results.

use crate::config::RetrievalMode;
use crate::float::FloatBits;
use crate::lexical;
use crate::lexical::DocMatch;
use crate::lexical::LexicalIndex;
use crate::order;
use crate::path;
use crate::store;
use crate::store::Hit;
use crate::store::Index;
use crate::store::Record;
use crate::store::ScanError;
use crate::text;
use vstd::hash_map::StringHashMap;
use vstd::prelude::*;

verus! {

/// One returned result: enough to open the exact span, or to fetch it by id.
#[derive(Debug, Clone)]
pub struct SearchResult {
    pub chunk_id: String,
    pub file: String,
    pub lang: String,
    pub symbol: Option<String>,
    pub kind: Option<String>,
    pub headings: Vec<String>,
    pub source: Option<String>,
    pub corpus_source: Option<String>,
    pub fetched: Option<String>,
    pub lines: [usize; 2],
    pub score: FloatBits,
    pub snippet: String,
}

/// What a single search asks for.
#[derive(Debug, Clone)]
pub struct SearchParams {
    pub query: String,
    pub top_k: usize,
    pub retrieve_n: usize,
    pub rerank: bool,
    pub min_score: FloatBits,
    /// Only these languages, if given.
    pub langs: Option<Vec<String>>,
    /// Only paths that contain this text, if given.
    pub path_prefix: Option<String>,
    /// Only web documents whose source contains this text, if given.
    pub source: Option<String>,
    pub retrieval: RetrievalMode,
    pub rrf_k: usize,
    /// Most chunks per file; zero for no limit.
    pub max_per_file: usize,
}

/// Why a search failed.
#[derive(Debug)]
pub enum SearchError {
    /// The mode needs the lexical channel, and there is none.
    NoLexicalChannel,
    /// The mode needs the embedding model, and there is none.
    NoEmbedder,
    Embed(String),
    Scan(ScanError),
    Rerank(String),
    /// The reranker named a candidate that it was not given.
    UnknownCandidate { position: usize, candidates: usize },
}

// ---------------------------------------------------------------------------
// Filters
// ---------------------------------------------------------------------------

/// Whether an optional text contains `part`.
pub open spec fn opt_contains(o: Option<String>, part: Seq<char>) -> bool {
    o is Some && text::contains(o->0@, part)
}

/// Whether a record meets the language, path and source filters. A record without
/// a source meets no source filter.
pub open spec fn passes(r: Record, p: SearchParams) -> bool {
    &&& p.langs is Some ==> text::texts(p.langs->0@).contains(r.lang@)
    &&& p.path_prefix is Some ==> text::contains(r.file@, p.path_prefix->0@)
    &&& p.source is Some ==> opt_contains(r.source, p.source->0@) || opt_contains(
        r.corpus_source,
        p.source->0@,
    )
}

fn opt_has_part(o: &Option<String>, part: &str) -> (b: bool)
    ensures
        b == opt_contains(*o, part@),
{
    match o {
        Some(s) => text::has_part(s.as_str(), part),
        None => false,
    }
}

/// Whether a record meets the filters of a search.
pub fn passes_filters(record: &Record, params: &SearchParams) -> (b: bool)
    ensures
        b == passes(*record, *params),
{
    let lang_ok = match &params.langs {
        Some(langs) => text::list_has(langs, record.lang.as_str()),
        None => true,
    };
    let path_ok = match &params.path_prefix {
        Some(p) => text::has_part(record.file.as_str(), p.as_str()),
        None => true,
    };
    let source_ok = match &params.source {
        Some(s) => opt_has_part(&record.source, s.as_str()) || opt_has_part(
            &record.corpus_source,
            s.as_str(),
        ),
        None => true,
    };
    lang_ok && path_ok && source_ok
}

/// Whether a score is good enough: a threshold of zero admits every score.
pub open spec fn good_enough(score: FloatBits, min_score: FloatBits) -> bool {
    min_score.zero() || score.at_least(min_score)
}

pub fn passes_min_score(score: FloatBits, min_score: FloatBits) -> (b: bool)
    ensures
        b == good_enough(score, min_score),
{
    min_score.is_zero() || score.ge(min_score)
}

/// How many chunks of each file were kept.
pub struct FileCounts {
    counts: StringHashMap<usize>,
}

impl View for FileCounts {
    type V = Map<Seq<char>, usize>;

    /// The counts by normal form of the path; a file without an entry has none.
    closed spec fn view(&self) -> Map<Seq<char>, usize> {
        self.counts@
    }
}

/// The count of a file.
pub open spec fn count_of(counts: Map<Seq<char>, usize>, file: Seq<char>) -> usize {
    if counts.contains_key(path::canonical(file)) {
        counts[path::canonical(file)]
    } else {
        0
    }
}

impl FileCounts {
    pub fn new() -> (r: Self)
        ensures
            r@ == Map::<Seq<char>, usize>::empty(),
    {
        FileCounts { counts: StringHashMap::new() }
    }
}

/// Whether another chunk of `file` may be kept, and notes it if so. With a cap of
/// zero every chunk may; else each file contributes at most `cap` chunks.
pub fn within_file_cap(per_file: &mut FileCounts, file: &str, cap: usize) -> (b: bool)
    ensures
        b == (cap == 0 || count_of(old(per_file)@, file@) < cap),
        final(per_file)@ == if cap > 0 && b {
            old(per_file)@.insert(
                path::canonical(file@),
                (count_of(old(per_file)@, file@) + 1) as usize,
            )
        } else {
            old(per_file)@
        },
{
    if cap == 0 {
        return true;
    }
    let key = path::canonical_text(file);
    let count: usize = match per_file.counts.get(key.as_str()) {
        Some(n) => *n,
        None => 0,
    };
    if count < cap {
        per_file.counts.insert(key, count + 1);
        true
    } else {
        false
    }
}

// ---------------------------------------------------------------------------
// Rank fusion
// ---------------------------------------------------------------------------

/// The denominators that a list contributes to a record: `k` plus the rank, from
/// one, of each place where the list names it.
pub open spec fn denominators(list: Seq<Hit>, k: nat, idx: usize) -> Seq<u128>
    decreases list.len(),
{
    if list.len() == 0 {
        seq![]
    } else {
        let rest = denominators(list.drop_last(), k, idx);
        if list.last().idx == idx {
            rest.push((k + list.len()) as u128)
        } else {
            rest
        }
    }
}

/// The denominators of a record over both lists.
pub open spec fn contributions(dense: Seq<Hit>, lexical: Seq<Hit>, k: nat, idx: usize) -> Seq<u128> {
    denominators(dense, k, idx) + denominators(lexical, k, idx)
}

/// The records that the lists name, each once, in order of first occurrence.
pub open spec fn union_ids(list: Seq<Hit>) -> Seq<usize>
    decreases list.len(),
{
    if list.len() == 0 {
        seq![]
    } else {
        let rest = union_ids(list.drop_last());
        if rest.contains(list.last().idx) {
            rest
        } else {
            rest.push(list.last().idx)
        }
    }
}

/// Whether `score` gave `s` for a list with these denominators.
pub open spec fn fused_score<R: Fn(&Vec<u128>) -> FloatBits>(
    score: R,
    denominators: Seq<u128>,
    s: FloatBits,
) -> bool {
    exists|terms: &Vec<u128>| terms@ == denominators && #[trigger] score.ensures((terms,), s)
}

/// Whether `hits` holds one hit for each record of the union, with a score that
/// `score` gave for its denominators.
pub open spec fn fused_hits<R: Fn(&Vec<u128>) -> FloatBits>(
    dense: Seq<Hit>,
    lexical: Seq<Hit>,
    k: nat,
    score: R,
    hits: Seq<Hit>,
) -> bool {
    let ids = union_ids(dense + lexical);
    &&& hits.len() == ids.len()
    &&& forall|i: int|
        0 <= i < hits.len() ==> (#[trigger] hits[i]).idx == ids[i] && fused_score(
            score,
            contributions(dense, lexical, k, ids[i]),
            hits[i].score,
        )
}

/// Whether `r` is the fusion of the two lists, cut to `cap`.
pub open spec fn fusion<R: Fn(&Vec<u128>) -> FloatBits>(
    dense: Seq<Hit>,
    lexical: Seq<Hit>,
    k: nat,
    cap: nat,
    score: R,
    r: Seq<Hit>,
) -> bool {
    exists|hits: Seq<Hit>| #[trigger]
        store::is_ranking(hits, cap, r) && fused_hits(dense, lexical, k, score, hits)
}

fn position_of(ids: &Vec<usize>, idx: usize) -> (r: Option<usize>)
    ensures
        match r {
            Some(i) => i < ids.len() && ids@[i as int] == idx,
            None => !ids@.contains(idx),
        },
{
    let mut i: usize = 0;
    while i < ids.len()
        invariant
            i <= ids.len(),
            forall|j: int| 0 <= j < i ==> ids@[j] != idx,
        decreases ids.len() - i,
    {
        if ids[i] == idx {
            return Some(i);
        }
        i += 1;
    }
    None
}

/// A record that no hit names has no denominators.
proof fn lemma_no_denominators(list: Seq<Hit>, k: nat, idx: usize)
    requires
        !union_ids(list).contains(idx),
    ensures
        denominators(list, k, idx) == Seq::<u128>::empty(),
    decreases list.len(),
{
    if list.len() > 0 {
        let rest = union_ids(list.drop_last());
        let all = union_ids(list);
        if rest.contains(idx) {
            let i = choose|i: int| 0 <= i < rest.len() && rest[i] == idx;
            assert(all[i] == idx);
        }
        if list.last().idx == idx && !rest.contains(idx) {
            assert(all[rest.len() as int] == idx);
        }
        lemma_no_denominators(list.drop_last(), k, idx);
    }
}

proof fn lemma_union_prefix(a: Seq<Hit>, b: Seq<Hit>, idx: usize)
    ensures
        union_ids(a).contains(idx) ==> union_ids(a + b).contains(idx),
    decreases b.len(),
{
    if b.len() == 0 {
        assert(a + b =~= a);
    } else {
        assert((a + b).drop_last() =~= a + b.drop_last());
        lemma_union_prefix(a, b.drop_last(), idx);
        let rest = union_ids(a + b.drop_last());
        let all = union_ids(a + b);
        if rest.contains(idx) {
            let i = choose|i: int| 0 <= i < rest.len() && rest[i] == idx;
            assert(all[i] == idx);
        }
    }
}

/// The union names no record twice, and exactly those that some hit names.
pub proof fn lemma_union_ids(list: Seq<Hit>)
    ensures
        union_ids(list).no_duplicates(),
        union_ids(list).len() <= list.len(),
        forall|i: int| 0 <= i < list.len() ==> union_ids(list).contains((#[trigger] list[i]).idx),
        forall|i: int|
            0 <= i < union_ids(list).len() ==> exists|j: int|
                0 <= j < list.len() && (#[trigger] list[j]).idx == #[trigger] union_ids(list)[i],
    decreases list.len(),
{
    if list.len() > 0 {
        let init = list.drop_last();
        lemma_union_ids(init);
        let rest = union_ids(init);
        let all = union_ids(list);
        assert forall|i: int| 0 <= i < list.len() implies all.contains((#[trigger] list[i]).idx) by {
            if i < init.len() {
                assert(init[i] == list[i]);
                let k = choose|k: int| 0 <= k < rest.len() && rest[k] == list[i].idx;
                assert(all[k] == list[i].idx);
            } else if !rest.contains(list[i].idx) {
                assert(all[rest.len() as int] == list[i].idx);
            }
        }
        assert forall|i: int| 0 <= i < all.len() implies exists|j: int|
            0 <= j < list.len() && (#[trigger] list[j]).idx == #[trigger] all[i] by {
            if i < rest.len() {
                assert(all[i] == rest[i]);
                let j = choose|j: int| 0 <= j < init.len() && (#[trigger] init[j]).idx == rest[i];
                assert(list[j].idx == all[i]);
            } else {
                assert(list[list.len() - 1].idx == all[i]);
            }
        }
    }
}

/// Notes one list in the fusion.
fn note_list(
    ids: &mut Vec<usize>,
    terms: &mut Vec<Vec<u128>>,
    list: &Vec<Hit>,
    k: usize,
    Ghost(before): Ghost<Seq<Hit>>,
    Ghost(base): Ghost<spec_fn(usize) -> Seq<u128>>,
)
    requires
        old(ids)@ == union_ids(before),
        old(terms).len() == old(ids).len(),
        forall|i: int|
            0 <= i < old(ids)@.len() ==> (#[trigger] old(terms)@[i])@ == base(old(ids)@[i]),
        forall|idx: usize| !union_ids(before).contains(idx) ==> #[trigger] base(idx) == Seq::<u128>::empty(),
    ensures
        final(ids)@ == union_ids(before + list@),
        final(terms).len() == final(ids).len(),
        forall|i: int|
            0 <= i < final(ids)@.len() ==> (#[trigger] final(terms)@[i])@ == base(final(ids)@[i])
                + denominators(list@, k as nat, final(ids)@[i]),
{
    let mut rank: usize = 0;
    assert(list@.take(0) =~= seq![]);
    assert(before + list@.take(0) =~= before);
    assert forall|i: int| 0 <= i < ids@.len() implies (#[trigger] terms@[i])@ == base(ids@[i])
        + denominators(list@.take(0), k as nat, ids@[i]) by {
        assert(base(ids@[i]) + denominators(list@.take(0), k as nat, ids@[i]) =~= base(ids@[i]));
    }
    while rank < list.len()
        invariant
            rank <= list.len(),
            ids@ == union_ids(before + list@.take(rank as int)),
            terms.len() == ids.len(),
            forall|i: int|
                0 <= i < ids@.len() ==> (#[trigger] terms@[i])@ == base(ids@[i]) + denominators(
                    list@.take(rank as int),
                    k as nat,
                    ids@[i],
                ),
            forall|idx: usize| !union_ids(before).contains(idx) ==> #[trigger] base(idx) == Seq::<u128>::empty(),
        decreases list.len() - rank,
    {
        let idx = list[rank].idx;
        let ghost done = list@.take(rank as int);
        let ghost next = list@.take(rank + 1);
        let ghost old_ids = ids@;
        let ghost old_terms = terms@;
        proof {
            assert(next.drop_last() =~= done);
            assert((before + next).drop_last() =~= before + done);
            assert((before + next).last() == list@[rank as int]);
        }
        let denominator: u128 = k as u128 + rank as u128 + 1;
        match position_of(ids, idx) {
            Some(at) => {
                let slot = &mut terms[at];
                slot.push(denominator);
                proof {
                    lemma_union_ids(before + done);
                    assert forall|i: int| 0 <= i < ids@.len() implies (#[trigger] terms@[i])@
                        == base(ids@[i]) + denominators(next, k as nat, ids@[i]) by {
                        if i == at {
                            assert(terms@[i]@ =~= base(idx) + denominators(next, k as nat, idx));
                        } else {
                            assert(ids@[i] != ids@[at as int]);
                            assert(terms@[i] == old_terms[i]);
                        }
                    }
                }
            },
            None => {
                let mut fresh: Vec<u128> = Vec::new();
                fresh.push(denominator);
                ids.push(idx);
                terms.push(fresh);
                proof {
                    lemma_union_prefix(before, done, idx);
                    assert(base(idx) == Seq::<u128>::empty());
                    lemma_done_absent(before, done, k as nat, idx);
                    assert forall|i: int| 0 <= i < ids@.len() implies (#[trigger] terms@[i])@
                        == base(ids@[i]) + denominators(next, k as nat, ids@[i]) by {
                        if i < old_ids.len() {
                            assert(ids@[i] == old_ids[i]);
                            assert(terms@[i] == old_terms[i]);
                            assert(old_ids.contains(old_ids[i]));
                            assert(ids@[i] != idx);
                        } else {
                            assert(terms@[i]@ =~= base(idx) + denominators(next, k as nat, idx));
                        }
                    }
                }
            },
        }
        rank += 1;
    }
    assert(list@.take(list@.len() as int) =~= list@);
}

proof fn lemma_done_absent(before: Seq<Hit>, done: Seq<Hit>, k: nat, idx: usize)
    requires
        !union_ids(before + done).contains(idx),
    ensures
        denominators(done, k, idx) == Seq::<u128>::empty(),
{
    lemma_union_ids(before + done);
    if union_ids(done).contains(idx) {
        lemma_union_ids(done);
        let i = choose|i: int| 0 <= i < union_ids(done).len() && union_ids(done)[i] == idx;
        let j = choose|j: int| 0 <= j < done.len() && (#[trigger] done[j]).idx == union_ids(done)[i];
        assert((before + done)[before.len() + j].idx == idx);
    }
    lemma_no_denominators(done, k, idx);
}

/// Reciprocal rank fusion of two ranked lists. A record's fused score is the sum of
/// `1 / (k + rank)` over the places where the lists name it; `score` forms that
/// sum from the denominators. The union is ranked best first and cut to `cap`.
pub fn rrf_fuse<R: Fn(&Vec<u128>) -> FloatBits>(
    dense: &Vec<Hit>,
    lexical: &Vec<Hit>,
    k: usize,
    cap: usize,
    score: R,
) -> (r: Vec<Hit>)
    requires
        forall|terms: &Vec<u128>, idx: usize|
            union_ids(dense@ + lexical@).contains(idx) && terms@ == #[trigger] contributions(
                dense@,
                lexical@,
                k as nat,
                idx,
            ) ==> #[trigger] score.requires((terms,)),
    ensures
        fusion(dense@, lexical@, k as nat, cap as nat, score, r@),
{
    let mut ids: Vec<usize> = Vec::new();
    let mut terms: Vec<Vec<u128>> = Vec::new();
    let ghost none = |idx: usize| Seq::<u128>::empty();
    let ghost first = |idx: usize| denominators(dense@, k as nat, idx);
    note_list(&mut ids, &mut terms, dense, k, Ghost(Seq::<Hit>::empty()), Ghost(none));
    proof {
        assert(Seq::<Hit>::empty() + dense@ =~= dense@);
        assert forall|i: int| 0 <= i < ids@.len() implies (#[trigger] terms@[i])@ == first(
            ids@[i],
        ) by {
            assert(none(ids@[i]) + first(ids@[i]) =~= first(ids@[i]));
        }
        assert forall|idx: usize| !union_ids(dense@).contains(idx) implies #[trigger] first(idx)
            == Seq::<u128>::empty() by {
            lemma_no_denominators(dense@, k as nat, idx);
        }
    }
    note_list(&mut ids, &mut terms, lexical, k, Ghost(dense@), Ghost(first));
    let mut hits: Vec<Hit> = Vec::new();
    let mut i: usize = 0;
    while i < ids.len()
        invariant
            forall|terms: &Vec<u128>, idx: usize|
                union_ids(dense@ + lexical@).contains(idx) && terms@ == #[trigger] contributions(
                    dense@,
                    lexical@,
                    k as nat,
                    idx,
                ) ==> #[trigger] score.requires((terms,)),
            ids@ == union_ids(dense@ + lexical@),
            terms.len() == ids.len(),
            first == (|idx: usize| denominators(dense@, k as nat, idx)),
            forall|i: int|
                0 <= i < ids@.len() ==> (#[trigger] terms@[i])@ == first(ids@[i]) + denominators(
                    lexical@,
                    k as nat,
                    ids@[i],
                ),
            i <= ids.len(),
            hits.len() == i,
            forall|j: int|
                0 <= j < i ==> (#[trigger] hits@[j]).idx == ids@[j] && fused_score(
                    score,
                    contributions(dense@, lexical@, k as nat, ids@[j]),
                    hits@[j].score,
                ),
        decreases ids.len() - i,
    {
        let list = &terms[i];
        assert(union_ids(dense@ + lexical@).contains(ids@[i as int]));
        assert(list@ == contributions(dense@, lexical@, k as nat, ids@[i as int]));
        let s = score(list);
        assert(list@ == contributions(dense@, lexical@, k as nat, ids@[i as int])
            && score.ensures((list,), s));
        assert(fused_score(score, contributions(dense@, lexical@, k as nat, ids@[i as int]), s));
        hits.push(Hit { idx: ids[i], score: s });
        i += 1;
    }
    let r = store::rank_hits(&hits, cap);
    assert(store::is_ranking(hits@, cap as nat, r@) && fused_hits(
        dense@,
        lexical@,
        k as nat,
        score,
        hits@,
    ));
    r
}

// ---------------------------------------------------------------------------
// Retrieval
// ---------------------------------------------------------------------------

/// The numeric work of a search. `dot` scores the records at the given positions
/// against the query vector, `bm25` scores a keyword match, and `fuse` sums the
/// reciprocals of the given denominators.
pub struct Scoring<D, S, R> {
    pub dot: D,
    pub bm25: S,
    pub fuse: R,
}

/// The positions of the records that meet the filters.
pub open spec fn filtered(records: Seq<Record>, p: SearchParams) -> Seq<usize> {
    order::positions(records.len(), |i: int| passes(records[i], p))
}

/// Whether `r` is the outcome of scoring the filtered records against a query
/// vector.
pub open spec fn dense_scan<D: FnOnce(&Vec<usize>, &Vec<FloatBits>) -> Vec<FloatBits>>(
    index: Index,
    p: SearchParams,
    query: &Vec<FloatBits>,
    dot: D,
    r: Result<Vec<Hit>, SearchError>,
) -> bool {
    if query@.len() != index.dim {
        r == Err::<Vec<Hit>, SearchError>(
            SearchError::Scan(
                ScanError::QueryDimension { query: query@.len() as usize, index: index.dim },
            ),
        )
    } else {
        exists|found: &Vec<usize>, scores: Vec<FloatBits>| #[trigger]
            dot.ensures((found, query), scores) && found@ == filtered(index.records@, p) && (
            if scores@.len() != found@.len() {
                r == Err::<Vec<Hit>, SearchError>(
                    SearchError::Scan(
                        ScanError::ScoreCount {
                            scores: scores@.len() as usize,
                            records: found@.len() as usize,
                        },
                    ),
                )
            } else {
                r is Ok && store::is_ranking(
                    store::scored(found@, scores@),
                    p.retrieve_n as nat,
                    r->Ok_0@,
                )
            })
    }
}

/// Whether `r` is the outcome of the dense channel: the query is embedded, and
/// the filtered records are scored against its vector.
pub open spec fn dense_retrieval<
    E: FnOnce(&String) -> Result<Vec<FloatBits>, String>,
    D: FnOnce(&Vec<usize>, &Vec<FloatBits>) -> Vec<FloatBits>,
>(index: Index, p: SearchParams, embed: E, dot: D, r: Result<Vec<Hit>, SearchError>) -> bool {
    exists|out: Result<Vec<FloatBits>, String>| #[trigger]
        embed.ensures((&p.query,), out) && (match out {
            Err(e) => r == Err::<Vec<Hit>, SearchError>(SearchError::Embed(e)),
            Ok(query) => dense_scan(index, p, &query, dot, r),
        })
}

/// For each match, whether its record meets the filters.
pub open spec fn filter_answers(
    records: Seq<Record>,
    p: SearchParams,
    list: Seq<DocMatch>,
) -> Seq<bool> {
    list.map_values(|m: DocMatch| passes(records[m.doc as int], p))
}

/// Whether `r` is the outcome of the lexical channel: the matches of the query
/// whose record meets the filters, ranked by score.
pub open spec fn lexical_retrieval<S: Fn(&DocMatch) -> FloatBits>(
    records: Seq<Record>,
    p: SearchParams,
    docs: Seq<Seq<Seq<char>>>,
    bm25: S,
    r: Seq<Hit>,
) -> bool {
    exists|list: Seq<DocMatch>, hits: Seq<Hit>|
        #![trigger lexical::all_matches(docs, p.query@, list), store::is_ranking(hits, p.retrieve_n as nat, r)]
        lexical::all_matches(docs, p.query@, list) && lexical::scored_matches(
            bm25,
            list,
            filter_answers(records, p, list),
            hits,
        ) && store::is_ranking(hits, p.retrieve_n as nat, r)
}

/// Whether `r` is the outcome of retrieval in the mode that is asked for. A channel
/// that the mode needs and that is not there is an error, never a silent change
/// of mode.
pub open spec fn retrieval<
    E: FnOnce(&String) -> Result<Vec<FloatBits>, String>,
    D: FnOnce(&Vec<usize>, &Vec<FloatBits>) -> Vec<FloatBits>,
    S: Fn(&DocMatch) -> FloatBits,
    R: Fn(&Vec<u128>) -> FloatBits,
>(
    index: Index,
    p: SearchParams,
    embed: Option<E>,
    lexical: Option<&LexicalIndex>,
    scoring: Scoring<D, S, R>,
    r: Result<Vec<Hit>, SearchError>,
) -> bool {
    match p.retrieval {
        RetrievalMode::Dense => match embed {
            None => r == Err::<Vec<Hit>, SearchError>(SearchError::NoEmbedder),
            Some(e) => dense_retrieval(index, p, e, scoring.dot, r),
        },
        RetrievalMode::Bm25 => match lexical {
            None => r == Err::<Vec<Hit>, SearchError>(SearchError::NoLexicalChannel),
            Some(lex) => r is Ok && lexical_retrieval(
                index.records@,
                p,
                lex.documents(),
                scoring.bm25,
                r->Ok_0@,
            ),
        },
        RetrievalMode::Hybrid => match (lexical, embed) {
            (None, _) => r == Err::<Vec<Hit>, SearchError>(SearchError::NoLexicalChannel),
            (Some(_), None) => r == Err::<Vec<Hit>, SearchError>(SearchError::NoEmbedder),
            (Some(lex), Some(e)) => exists|dense: Result<Vec<Hit>, SearchError>| #[trigger]
                dense_retrieval(index, p, e, scoring.dot, dense) && (match dense {
                    Err(error) => r == Err::<Vec<Hit>, SearchError>(error),
                    Ok(list) => r is Ok && exists|words: Seq<Hit>| #[trigger]
                        lexical_retrieval(index.records@, p, lex.documents(), scoring.bm25, words)
                            && fusion(
                            list@,
                            words,
                            p.rrf_k as nat,
                            p.retrieve_n as nat,
                            scoring.fuse,
                            r->Ok_0@,
                        ),
                }),
        },
    }
}

/// Candidates that a search may go on with: no more than were asked for, each a
/// record of the index that meets the filters, none twice.
pub open spec fn proper_candidates(records: Seq<Record>, p: SearchParams, list: Seq<Hit>) -> bool {
    &&& list.len() <= p.retrieve_n
    &&& forall|i: int|
        0 <= i < list.len() ==> (#[trigger] list[i]).idx < records.len() && passes(
            records[list[i].idx as int],
            p,
        )
    &&& forall|i: int, j: int|
        0 <= i < j < list.len() ==> (#[trigger] list[i]).idx != (#[trigger] list[j]).idx
}

/// Ranking proper hits gives proper candidates.
proof fn lemma_ranked_proper(records: Seq<Record>, p: SearchParams, hits: Seq<Hit>, out: Seq<Hit>)
    requires
        store::is_ranking(hits, p.retrieve_n as nat, out),
        forall|i: int|
            0 <= i < hits.len() ==> (#[trigger] hits[i]).idx < records.len() && passes(
                records[hits[i].idx as int],
                p,
            ),
        forall|i: int, j: int|
            0 <= i < j < hits.len() ==> (#[trigger] hits[i]).idx != (#[trigger] hits[j]).idx,
    ensures
        proper_candidates(records, p, out),
{
    let n = p.retrieve_n as nat;
    let q = choose|q: Seq<usize>| #[trigger] store::picks_best(hits, n, q, out);
    order::lemma_sorts_distinct(store::hit_keys(hits), q);
    assert forall|i: int| 0 <= i < out.len() implies (#[trigger] out[i]).idx < records.len()
        && passes(records[out[i].idx as int], p) by {
        assert(out[i] == hits[q[i] as int]);
    }
    assert forall|i: int, j: int| 0 <= i < j < out.len() implies (#[trigger] out[i]).idx != (
    #[trigger] out[j]).idx by {
        assert(out[i] == hits[q[i] as int]);
        assert(out[j] == hits[q[j] as int]);
        assert(q[i] != q[j]);
        if q[i] < q[j] {
            assert(hits[q[i] as int].idx != hits[q[j] as int].idx);
        } else {
            assert(hits[q[j] as int].idx != hits[q[i] as int].idx);
        }
    }
}

proof fn lemma_scan_proper(
    records: Seq<Record>,
    p: SearchParams,
    scores: Seq<FloatBits>,
    out: Seq<Hit>,
)
    requires
        records.len() <= usize::MAX,
        scores.len() == filtered(records, p).len(),
        store::is_ranking(
            store::scored(filtered(records, p), scores),
            p.retrieve_n as nat,
            out,
        ),
    ensures
        proper_candidates(records, p, out),
{
    let keep = |i: int| passes(records[i], p);
    let found = filtered(records, p);
    order::lemma_positions(records.len(), keep);
    let hits = store::scored(found, scores);
    assert forall|i: int| 0 <= i < hits.len() implies (#[trigger] hits[i]).idx < records.len()
        && passes(records[hits[i].idx as int], p) by {
        assert(hits[i].idx == found[i]);
        assert(keep(found[i] as int));
    }
    assert forall|i: int, j: int| 0 <= i < j < hits.len() implies (#[trigger] hits[i]).idx != (
    #[trigger] hits[j]).idx by {
        assert(found[i] < found[j]);
    }
    lemma_ranked_proper(records, p, hits, out);
}

proof fn lemma_lexical_proper<S: Fn(&DocMatch) -> FloatBits>(
    records: Seq<Record>,
    p: SearchParams,
    docs: Seq<Seq<Seq<char>>>,
    bm25: S,
    out: Seq<Hit>,
)
    requires
        docs.len() <= records.len(),
        docs.len() <= usize::MAX,
        lexical_retrieval(records, p, docs, bm25, out),
    ensures
        proper_candidates(records, p, out),
{
    let (list, hits) = choose|list: Seq<DocMatch>, hits: Seq<Hit>|
        #![trigger lexical::all_matches(docs, p.query@, list), store::is_ranking(hits, p.retrieve_n as nat, out)]
        lexical::all_matches(docs, p.query@, list) && lexical::scored_matches(
            bm25,
            list,
            filter_answers(records, p, list),
            hits,
        ) && store::is_ranking(hits, p.retrieve_n as nat, out);
    let answers = filter_answers(records, p, list);
    let yes = |i: int| answers[i];
    let kept = order::positions(answers.len(), yes);
    let docs_of = list.map_values(|m: DocMatch| m.doc);
    order::lemma_positions(docs.len(), lexical::matched(docs, p.query@));
    assert(list.len() == docs_of.len());
    order::lemma_positions(answers.len(), yes);
    assert forall|i: int| 0 <= i < hits.len() implies (#[trigger] hits[i]).idx < records.len()
        && passes(records[hits[i].idx as int], p) by {
        let m = list[kept[i] as int];
        assert(yes(kept[i] as int));
        assert(lexical::describes(docs, p.query@, m));
        assert(hits[i].idx == m.doc);
    }
    assert forall|i: int, j: int| 0 <= i < j < hits.len() implies (#[trigger] hits[i]).idx != (
    #[trigger] hits[j]).idx by {
        assert(kept[i] < kept[j]);
        assert(docs_of[kept[i] as int] < docs_of[kept[j] as int]);
        assert(hits[i].idx == docs_of[kept[i] as int]);
        assert(hits[j].idx == docs_of[kept[j] as int]);
    }
    lemma_ranked_proper(records, p, hits, out);
}

proof fn lemma_fusion_proper<R: Fn(&Vec<u128>) -> FloatBits>(
    records: Seq<Record>,
    p: SearchParams,
    dense: Seq<Hit>,
    words: Seq<Hit>,
    fuse: R,
    out: Seq<Hit>,
)
    requires
        proper_candidates(records, p, dense),
        proper_candidates(records, p, words),
        fusion(dense, words, p.rrf_k as nat, p.retrieve_n as nat, fuse, out),
    ensures
        proper_candidates(records, p, out),
{
    let hits = choose|hits: Seq<Hit>| #[trigger]
        store::is_ranking(hits, p.retrieve_n as nat, out) && fused_hits(
            dense,
            words,
            p.rrf_k as nat,
            fuse,
            hits,
        );
    let both = dense + words;
    let ids = union_ids(both);
    lemma_union_ids(both);
    assert forall|i: int| 0 <= i < hits.len() implies (#[trigger] hits[i]).idx < records.len()
        && passes(records[hits[i].idx as int], p) by {
        assert(hits[i].idx == ids[i]);
        let j = choose|j: int| 0 <= j < both.len() && (#[trigger] both[j]).idx == ids[i];
        if j < dense.len() {
            assert(both[j] == dense[j]);
        } else {
            assert(both[j] == words[j - dense.len()]);
        }
    }
    assert forall|i: int, j: int| 0 <= i < j < hits.len() implies (#[trigger] hits[i]).idx != (
    #[trigger] hits[j]).idx by {
        assert(hits[i].idx == ids[i] && hits[j].idx == ids[j]);
    }
    lemma_ranked_proper(records, p, hits, out);
}

/// Whether the mode asks the dense channel, where it has all that it needs.
pub open spec fn asks_dense(p: SearchParams, has_embedder: bool, has_lexical: bool) -> bool {
    has_embedder && (p.retrieval is Dense || (p.retrieval is Hybrid && has_lexical))
}

/// Whether the mode asks the lexical channel, where it has all that it needs.
pub open spec fn asks_lexical(p: SearchParams, has_embedder: bool, has_lexical: bool) -> bool {
    has_lexical && (p.retrieval is Bm25 || (p.retrieval is Hybrid && has_embedder))
}

/// Whether the query can be embedded, and the filtered records scored against what comes
/// of it.
pub open spec fn dense_ready<
    E: FnOnce(&String) -> Result<Vec<FloatBits>, String>,
    D: FnOnce(&Vec<usize>, &Vec<FloatBits>) -> Vec<FloatBits>,
>(index: Index, p: SearchParams, embed: E, dot: D) -> bool {
    &&& embed.requires((&p.query,))
    &&& forall|query: Vec<FloatBits>, found: &Vec<usize>| #[trigger]
        embed.ensures((&p.query,), Ok(query)) && query@.len() == index.dim && found@ == filtered(
            index.records@,
            p,
        ) ==> #[trigger] dot.requires((found, &query))
}

/// Whether the matches whose record meets the filters can be scored.
pub open spec fn lexical_ready<S: Fn(&DocMatch) -> FloatBits>(
    records: Seq<Record>,
    p: SearchParams,
    docs: Seq<Seq<Seq<char>>>,
    bm25: S,
) -> bool {
    &&& docs.len() <= records.len()
    &&& forall|m: &DocMatch|
        lexical::describes(docs, p.query@, *m) && passes(records[m.doc as int], p)
            ==> #[trigger] bm25.requires((m,))
}

/// Whether the denominators of each record of the union can be summed.
pub open spec fn fusion_ready<R: Fn(&Vec<u128>) -> FloatBits>(
    dense: Seq<Hit>,
    words: Seq<Hit>,
    k: nat,
    fuse: R,
) -> bool {
    forall|terms: &Vec<u128>, idx: usize|
        union_ids(dense + words).contains(idx) && terms@ == #[trigger] contributions(
            dense,
            words,
            k,
            idx,
        ) ==> #[trigger] fuse.requires((terms,))
}

/// Whether retrieval can call what it has to: each function only in a mode that needs
/// it, and only with what that mode hands it.
pub open spec fn retrieval_ready<
    E: FnOnce(&String) -> Result<Vec<FloatBits>, String>,
    D: FnOnce(&Vec<usize>, &Vec<FloatBits>) -> Vec<FloatBits>,
    S: Fn(&DocMatch) -> FloatBits,
    R: Fn(&Vec<u128>) -> FloatBits,
>(
    index: Index,
    p: SearchParams,
    embed: Option<E>,
    lexical: Option<&LexicalIndex>,
    scoring: Scoring<D, S, R>,
) -> bool {
    &&& asks_dense(p, embed is Some, lexical is Some) ==> dense_ready(
        index,
        p,
        embed->0,
        scoring.dot,
    )
    &&& asks_lexical(p, embed is Some, lexical is Some) ==> lexical_ready(
        index.records@,
        p,
        lexical->0.documents(),
        scoring.bm25,
    )
    &&& p.retrieval is Hybrid && embed is Some && lexical is Some ==> forall|
        dense: Vec<Hit>,
        words: Seq<Hit>,
    |
        #![trigger dense_retrieval(index, p, embed->0, scoring.dot, Ok(dense)), fusion_ready(dense@, words, p.rrf_k as nat, scoring.fuse)]
        dense_retrieval(index, p, embed->0, scoring.dot, Ok(dense)) && lexical_retrieval(
            index.records@,
            p,
            lexical->0.documents(),
            scoring.bm25,
            words,
        ) ==> fusion_ready(dense@, words, p.rrf_k as nat, scoring.fuse)
}

/// Candidates on the dense channel.
fn retrieve_dense<
    E: FnOnce(&String) -> Result<Vec<FloatBits>, String>,
    D: FnOnce(&Vec<usize>, &Vec<FloatBits>) -> Vec<FloatBits>,
>(index: &Index, embed: E, params: &SearchParams, dot: D) -> (r: Result<Vec<Hit>, SearchError>)
    requires
        dense_ready(*index, *params, embed, dot),
    ensures
        dense_retrieval(*index, *params, embed, dot, r),
        r is Ok ==> proper_candidates(index.records@, *params, r->Ok_0@),
{
    let out = embed(&params.query);
    let ghost given = out;
    let r = match out {
        Err(e) => Err(SearchError::Embed(e)),
        Ok(query) => score_dense(index, &query, params, dot),
    };
    assert(embed.ensures((&params.query,), given));
    r
}

/// Candidates for a query vector.
pub fn score_dense<D: FnOnce(&Vec<usize>, &Vec<FloatBits>) -> Vec<FloatBits>>(
    index: &Index,
    query: &Vec<FloatBits>,
    params: &SearchParams,
    dot: D,
) -> (r: Result<Vec<Hit>, SearchError>)
    requires
        forall|found: &Vec<usize>|
            query@.len() == index.dim && found@ == filtered(index.records@, *params)
                ==> #[trigger] dot.requires((found, query)),
    ensures
        dense_scan(*index, *params, query, dot, r),
        r is Ok ==> proper_candidates(index.records@, *params, r->Ok_0@),
{
    let ghost records = index.records@;
    let ghost n = records.len();
    let ghost keep = |i: int| passes(records[i], *params);
    let predicate = |record: &Record| -> (b: bool)
        ensures
            b == passes(*record, *params),
    {
        passes_filters(record, params)
    };
    proof {
        assert forall|found: Seq<usize>| #[trigger]
            store::accepted_by(predicate, records, n as int, found) implies found == filtered(
            records,
            *params,
        ) by {
            let answers = choose|answers: Seq<bool>| #[trigger]
                store::answered_by(predicate, records, answers) && answers.len() == n && found
                    == order::positions(n, |i: int| answers[i]);
            let yes = |i: int| answers[i];
            assert forall|i: int| 0 <= i < n implies #[trigger] yes(i) == keep(i) by {
                assert(predicate.ensures((&records[i],), answers[i]));
            }
            store::lemma_positions_agree(n, yes, keep);
        }
    }
    let scan = index.search_filtered(query, params.retrieve_n, predicate, dot);
    proof {
        if scan is Ok {
            let (found, scores) = choose|found: &Vec<usize>, scores: Vec<FloatBits>| #[trigger]
                dot.ensures((found, query), scores) && store::accepted_by(
                    predicate,
                    records,
                    n as int,
                    found@,
                ) && store::ranked_scan(found@, scores@, params.retrieve_n as nat, scan);
            assert(index.records.len() <= usize::MAX);
            lemma_scan_proper(records, *params, scores@, scan->Ok_0@);
        }
    }
    match scan {
        Ok(hits) => Ok(hits),
        Err(e) => Err(SearchError::Scan(e)),
    }
}

/// Candidates on the lexical channel.
fn retrieve_lexical<S: Fn(&DocMatch) -> FloatBits>(
    index: &Index,
    lexical: &LexicalIndex,
    params: &SearchParams,
    bm25: S,
) -> (r: Vec<Hit>)
    requires
        lexical_ready(index.records@, *params, lexical.documents(), bm25),
    ensures
        lexical_retrieval(index.records@, *params, lexical.documents(), bm25, r@),
        proper_candidates(index.records@, *params, r@),
{
    let ghost records = index.records@;
    let ghost docs = lexical.documents();
    let allowed = |idx: usize| -> (b: bool)
        requires
            idx < index.records@.len(),
        ensures
            b == passes(index.records@[idx as int], *params),
    {
        passes_filters(&index.records[idx], params)
    };
    let r = lexical.search(params.query.as_str(), params.retrieve_n, allowed, bm25);
    proof {
        let n = params.retrieve_n as nat;
        let q = params.query@;
        let (list, answers, hits) = choose|list: Seq<DocMatch>, answers: Seq<bool>, hits: Seq<Hit>|
            #![trigger lexical::all_matches(docs, q, list), lexical::asked(allowed, list, answers), store::is_ranking(hits, n, r@)]
            lexical::all_matches(docs, q, list) && lexical::asked(allowed, list, answers)
                && answers.len() == list.len() && lexical::scored_matches(
                bm25,
                list,
                answers,
                hits,
            ) && store::is_ranking(hits, n, r@);
        assert forall|i: int| 0 <= i < list.len() implies answers[i] == filter_answers(
            records,
            *params,
            list,
        )[i] by {
            assert(allowed.ensures((list[i].doc,), answers[i]));
            assert(lexical::describes(docs, q, list[i]));
        }
        assert(answers =~= filter_answers(records, *params, list));
        assert(index.records.len() <= usize::MAX);
        lemma_lexical_proper(records, *params, docs, bm25, r@);
    }
    r
}

/// Up to `retrieve_n` filtered candidates on the channel or channels of the mode.
/// For both channels the union is cut back to `retrieve_n` before any reranking.
pub fn retrieve<
    E: FnOnce(&String) -> Result<Vec<FloatBits>, String>,
    D: FnOnce(&Vec<usize>, &Vec<FloatBits>) -> Vec<FloatBits>,
    S: Fn(&DocMatch) -> FloatBits,
    R: Fn(&Vec<u128>) -> FloatBits,
>(
    index: &Index,
    embed: Option<E>,
    lexical: Option<&LexicalIndex>,
    params: &SearchParams,
    scoring: Scoring<D, S, R>,
) -> (r: Result<Vec<Hit>, SearchError>)
    requires
        retrieval_ready(*index, *params, embed, lexical, scoring),
    ensures
        retrieval(*index, *params, embed, lexical, scoring, r),
        r is Ok ==> proper_candidates(index.records@, *params, r->Ok_0@),
{
    match params.retrieval {
        RetrievalMode::Dense => match embed {
            None => Err(SearchError::NoEmbedder),
            Some(e) => retrieve_dense(index, e, params, scoring.dot),
        },
        RetrievalMode::Bm25 => match lexical {
            None => Err(SearchError::NoLexicalChannel),
            Some(lex) => Ok(retrieve_lexical(index, lex, params, scoring.bm25)),
        },
        RetrievalMode::Hybrid => {
            let lex = match lexical {
                None => {
                    return Err(SearchError::NoLexicalChannel);
                },
                Some(lex) => lex,
            };
            let e = match embed {
                None => {
                    return Err(SearchError::NoEmbedder);
                },
                Some(e) => e,
            };
            let dense = match retrieve_dense(index, e, params, scoring.dot) {
                Err(error) => {
                    return Err(error);
                },
                Ok(list) => list,
            };
            let words = retrieve_lexical(index, lex, params, scoring.bm25);
            proof {
                lemma_distinct_hits(dense@, index.records@.len());
                lemma_distinct_hits(words@, index.records@.len());
            }
            proof {
                assert(dense_retrieval(
                    *index,
                    *params,
                    e,
                    scoring.dot,
                    Ok::<Vec<Hit>, SearchError>(dense),
                ));
                assert(fusion_ready(dense@, words@, params.rrf_k as nat, scoring.fuse));
            }
            let r = rrf_fuse(&dense, &words, params.rrf_k, params.retrieve_n, scoring.fuse);
            proof {
                lemma_fusion_proper(
                    index.records@,
                    *params,
                    dense@,
                    words@,
                    scoring.fuse,
                    r@,
                );
                assert(dense_retrieval(
                    *index,
                    *params,
                    e,
                    scoring.dot,
                    Ok::<Vec<Hit>, SearchError>(dense),
                ));
                assert(lexical_retrieval(
                    index.records@,
                    *params,
                    lex.documents(),
                    scoring.bm25,
                    words@,
                ));
            }
            Ok(r)
        },
    }
}

/// Hits on distinct records below `n` are at most `n`.
proof fn lemma_distinct_hits(list: Seq<Hit>, n: nat)
    requires
        forall|i: int| 0 <= i < list.len() ==> (#[trigger] list[i]).idx < n,
        forall|i: int, j: int|
            0 <= i < j < list.len() ==> (#[trigger] list[i]).idx != (#[trigger] list[j]).idx,
    ensures
        list.len() <= n,
{
    let ids = list.map_values(|h: Hit| h.idx as int);
    assert forall|i: int, j: int| 0 <= i < ids.len() && 0 <= j < ids.len() && i != j implies ids[i]
        != ids[j] by {
        if i < j {
            assert(list[i].idx != list[j].idx);
        } else {
            assert(list[j].idx != list[i].idx);
        }
    }
    ids.unique_seq_to_set();
    let range = vstd::set_lib::set_int_range(0, n as int);
    vstd::set_lib::lemma_int_range(0, n as int);
    assert(ids.to_set().subset_of(range)) by {
        assert forall|x: int| ids.to_set().contains(x) implies range.contains(x) by {
            let i = choose|i: int| 0 <= i < ids.len() && ids[i] == x;
            assert(list[i].idx < n);
        }
    }
    vstd::set_lib::lemma_len_subset(ids.to_set(), range);
}

// ---------------------------------------------------------------------------
// Reranking and the final cut
// ---------------------------------------------------------------------------

/// The candidates in the order of a reranker, with its scores. `ranking` names
/// candidates by position.
pub open spec fn reordered(candidates: Seq<Hit>, ranking: Seq<Hit>) -> Seq<Hit> {
    ranking.map_values(|h: Hit| Hit { idx: candidates[h.idx as int].idx, score: h.score })
}

/// Puts the candidates in the order of a reranker. Fails on the first position that
/// names no candidate.
pub fn apply_ranking(candidates: &Vec<Hit>, ranking: &Vec<Hit>) -> (r: Result<
    Vec<Hit>,
    SearchError,
>)
    ensures
        reranked(candidates@, ranking@, r),
{
    let mut out: Vec<Hit> = Vec::new();
    let mut i: usize = 0;
    while i < ranking.len()
        invariant
            i <= ranking.len(),
            out.len() == i,
            forall|j: int| 0 <= j < i ==> (#[trigger] ranking@[j]).idx < candidates.len(),
            forall|j: int|
                0 <= j < i ==> #[trigger] out@[j] == reordered(candidates@, ranking@)[j],
        decreases ranking.len() - i,
    {
        let h = ranking[i];
        if h.idx >= candidates.len() {
            assert(first_unknown(candidates@, ranking@, i as int));
            return Err(
                SearchError::UnknownCandidate { position: h.idx, candidates: candidates.len() },
            );
        }
        out.push(Hit { idx: candidates[h.idx].idx, score: h.score });
        i += 1;
    }
    assert(out@ =~= reordered(candidates@, ranking@));
    Ok(out)
}

/// Whether `i` is the first place of a ranking that names no candidate.
pub open spec fn first_unknown(candidates: Seq<Hit>, ranking: Seq<Hit>, i: int) -> bool {
    &&& 0 <= i < ranking.len()
    &&& ranking[i].idx >= candidates.len()
    &&& forall|j: int| 0 <= j < i ==> (#[trigger] ranking[j]).idx < candidates.len()
}

/// Whether `r` is what a ranking makes of the candidates.
pub open spec fn reranked(
    candidates: Seq<Hit>,
    ranking: Seq<Hit>,
    r: Result<Vec<Hit>, SearchError>,
) -> bool {
    match r {
        Ok(list) => (forall|j: int|
            0 <= j < ranking.len() ==> (#[trigger] ranking[j]).idx < candidates.len()) && list@
            == reordered(candidates, ranking),
        Err(e) => exists|i: int| #[trigger]
            first_unknown(candidates, ranking, i) && e == (SearchError::UnknownCandidate {
                position: ranking[i].idx,
                candidates: candidates.len() as usize,
            }),
    }
}

/// Number of hits on chunks of `file`.
pub open spec fn file_hits(records: Seq<Record>, hits: Seq<Hit>, file: Seq<char>) -> nat
    decreases hits.len(),
{
    if hits.len() == 0 {
        0
    } else {
        file_hits(records, hits.drop_last(), file) + if path::same_path(
            records[hits.last().idx as int].file@,
            file,
        ) {
            1nat
        } else {
            0nat
        }
    }
}

/// The hits that are good enough and within the cap of their file, in ranked order.
pub open spec fn kept_hits(records: Seq<Record>, ranked: Seq<Hit>, p: SearchParams) -> Seq<Hit>
    decreases ranked.len(),
{
    if ranked.len() == 0 {
        seq![]
    } else {
        let rest = kept_hits(records, ranked.drop_last(), p);
        let h = ranked.last();
        if good_enough(h.score, p.min_score) && (p.max_per_file == 0 || file_hits(
            records,
            rest,
            records[h.idx as int].file@,
        ) < p.max_per_file) {
            rest.push(h)
        } else {
            rest
        }
    }
}

/// The hits that are returned: the first `top_k` of those kept.
pub open spec fn final_hits(records: Seq<Record>, ranked: Seq<Hit>, p: SearchParams) -> Seq<Hit> {
    let kept = kept_hits(records, ranked, p);
    if p.top_k < kept.len() {
        kept.take(p.top_k as int)
    } else {
        kept
    }
}

/// Whether a result shows a record with a score.
pub open spec fn shows(r: SearchResult, record: Record, score: FloatBits) -> bool {
    &&& r.chunk_id == record.chunk_id
    &&& r.file == record.file
    &&& r.lang == record.lang
    &&& r.symbol == record.symbol
    &&& r.kind == record.kind
    &&& r.headings@ == record.headings@
    &&& r.source == record.source
    &&& r.corpus_source == record.corpus_source
    &&& r.fetched == record.fetched
    &&& r.lines@ == seq![record.start_line, record.end_line]
    &&& r.score == score
    &&& r.snippet == record.text
}

/// Whether `results` shows the records of `hits`, in order.
pub open spec fn shows_all(
    records: Seq<Record>,
    hits: Seq<Hit>,
    results: Seq<SearchResult>,
) -> bool {
    &&& results.len() == hits.len()
    &&& forall|i: int|
        0 <= i < results.len() ==> shows(
            #[trigger] results[i],
            records[hits[i].idx as int],
            hits[i].score,
        )
}

fn show(record: &Record, score: FloatBits) -> (r: SearchResult)
    ensures
        shows(r, *record, score),
{
    SearchResult {
        chunk_id: record.chunk_id.clone(),
        file: record.file.clone(),
        lang: record.lang.clone(),
        symbol: text::copy_opt(&record.symbol),
        kind: text::copy_opt(&record.kind),
        headings: text::copy_list(&record.headings),
        source: text::copy_opt(&record.source),
        corpus_source: text::copy_opt(&record.corpus_source),
        fetched: text::copy_opt(&record.fetched),
        lines: [record.start_line, record.end_line],
        score,
        snippet: record.text.clone(),
    }
}

/// Whether the counts say how many hits of each file were kept.
spec fn counts_kept(records: Seq<Record>, kept: Seq<Hit>, counts: Map<Seq<char>, usize>) -> bool {
    forall|file: Seq<char>| #[trigger] count_of(counts, file) == file_hits(records, kept, file)
}

proof fn lemma_file_hits_bound(records: Seq<Record>, hits: Seq<Hit>, file: Seq<char>)
    ensures
        file_hits(records, hits, file) <= hits.len(),
    decreases hits.len(),
{
    if hits.len() > 0 {
        lemma_file_hits_bound(records, hits.drop_last(), file);
    }
}

proof fn lemma_kept_bound(records: Seq<Record>, ranked: Seq<Hit>, p: SearchParams)
    ensures
        kept_hits(records, ranked, p).len() <= ranked.len(),
    decreases ranked.len(),
{
    if ranked.len() > 0 {
        lemma_kept_bound(records, ranked.drop_last(), p);
    }
}

/// Applies the score threshold, then the cap per file, and keeps the first `top_k`.
pub fn select_results(index: &Index, ranked: &Vec<Hit>, params: &SearchParams) -> (r: Vec<
    SearchResult,
>)
    requires
        forall|i: int| 0 <= i < ranked@.len() ==> (#[trigger] ranked@[i]).idx < index.records@.len(),
    ensures
        shows_all(index.records@, final_hits(index.records@, ranked@, *params), r@),
{
    let ghost records = index.records@;
    let cap = params.max_per_file;
    let mut per_file = FileCounts::new();
    let mut out: Vec<SearchResult> = Vec::new();
    let ghost mut kept: Seq<Hit> = seq![];
    let mut i: usize = 0;
    assert(kept_hits(records, ranked@.take(0), *params) =~= kept);
    while i < ranked.len()
        invariant
            records == index.records@,
            cap == params.max_per_file,
            forall|i: int|
                0 <= i < ranked@.len() ==> (#[trigger] ranked@[i]).idx < index.records@.len(),
            i <= ranked.len(),
            kept == kept_hits(records, ranked@.take(i as int), *params),
            cap > 0 ==> counts_kept(records, kept, per_file@),
            out.len() == if params.top_k < kept.len() {
                params.top_k as nat
            } else {
                kept.len()
            },
            forall|j: int|
                0 <= j < out.len() ==> shows(
                    #[trigger] out@[j],
                    records[kept[j].idx as int],
                    kept[j].score,
                ),
        decreases ranked.len() - i,
    {
        let h = ranked[i];
        let ghost next = ranked@.take(i + 1);
        let ghost rest = kept;
        proof {
            assert(next.drop_last() =~= ranked@.take(i as int));
            assert(next.last() == h);
            lemma_kept_bound(records, ranked@.take(i as int), *params);
        }
        if passes_min_score(h.score, params.min_score) {
            let record = &index.records[h.idx];
            let ghost counted = per_file@;
            assert(cap > 0 ==> count_of(counted, record.file@) == file_hits(
                records,
                rest,
                record.file@,
            ));
            if within_file_cap(&mut per_file, record.file.as_str(), cap) {
                proof {
                    kept = kept.push(h);
                    if cap > 0 {
                        assert forall|file: Seq<char>| #[trigger]
                            count_of(per_file@, file) == file_hits(records, kept, file) by {
                            assert(kept.drop_last() =~= rest);
                            assert(count_of(counted, file) == file_hits(records, rest, file));
                            assert(count_of(counted, record.file@) == file_hits(
                                records,
                                rest,
                                record.file@,
                            ));
                            lemma_file_hits_bound(records, rest, record.file@);
                        }
                    }
                }
                if out.len() < params.top_k {
                    let shown = show(record, h.score);
                    out.push(shown);
                }
            }
        }
        i += 1;
    }
    assert(ranked@.take(ranked@.len() as int) =~= ranked@);
    out
}

/// The texts of the candidates, as the reranker gets them.
pub open spec fn candidate_texts(records: Seq<Record>, list: Seq<Hit>) -> Seq<Seq<char>> {
    list.map_values(|h: Hit| records[h.idx as int].text@)
}

fn texts_of(index: &Index, list: &Vec<Hit>) -> (r: Vec<String>)
    requires
        forall|i: int| 0 <= i < list@.len() ==> (#[trigger] list@[i]).idx < index.records@.len(),
    ensures
        text::texts(r@) == candidate_texts(index.records@, list@),
{
    let mut out: Vec<String> = Vec::new();
    let mut i: usize = 0;
    while i < list.len()
        invariant
            forall|i: int|
                0 <= i < list@.len() ==> (#[trigger] list@[i]).idx < index.records@.len(),
            i <= list.len(),
            out.len() == i,
            forall|j: int|
                0 <= j < i ==> (#[trigger] out@[j])@ == candidate_texts(index.records@, list@)[j],
        decreases list.len() - i,
    {
        out.push(index.records[list[i].idx].text.clone());
        i += 1;
    }
    assert(text::texts(out@) =~= candidate_texts(index.records@, list@));
    out
}

/// Whether `r` is what a search makes of its candidates: they are reranked if the
/// search asks for it and there is a reranker, and then cut to the final results.
pub open spec fn ranked_results<K: FnOnce(&String, &Vec<String>) -> Result<Vec<Hit>, String>>(
    records: Seq<Record>,
    candidates: Seq<Hit>,
    p: SearchParams,
    rerank: Option<K>,
    r: Result<Vec<SearchResult>, SearchError>,
) -> bool {
    if rerank is Some && p.rerank {
        exists|docs: &Vec<String>, out: Result<Vec<Hit>, String>| #[trigger]
            rerank->0.ensures((&p.query, docs), out) && text::texts(docs@) == candidate_texts(
                records,
                candidates,
            ) && (match out {
                Err(e) => r == Err::<Vec<SearchResult>, SearchError>(SearchError::Rerank(e)),
                Ok(ranking) => exists|ranked: Result<Vec<Hit>, SearchError>| #[trigger]
                    reranked(candidates, ranking@, ranked) && (match ranked {
                        Err(e) => r == Err::<Vec<SearchResult>, SearchError>(e),
                        Ok(list) => r is Ok && shows_all(
                            records,
                            final_hits(records, list@, p),
                            r->Ok_0@,
                        ),
                    }),
            })
    } else {
        r is Ok && shows_all(records, final_hits(records, candidates, p), r->Ok_0@)
    }
}

/// The whole pipeline: retrieve candidates on the channel or channels of the mode,
/// rerank them if asked to, and keep the best results. `embed` turns the query
/// into a vector; `rerank` scores the candidates' texts against the query and
/// names them by position.
pub fn run<
    E: FnOnce(&String) -> Result<Vec<FloatBits>, String>,
    K: FnOnce(&String, &Vec<String>) -> Result<Vec<Hit>, String>,
    D: FnOnce(&Vec<usize>, &Vec<FloatBits>) -> Vec<FloatBits>,
    S: Fn(&DocMatch) -> FloatBits,
    R: Fn(&Vec<u128>) -> FloatBits,
>(
    index: &Index,
    embed: Option<E>,
    rerank: Option<K>,
    lexical: Option<&LexicalIndex>,
    params: &SearchParams,
    scoring: Scoring<D, S, R>,
) -> (r: Result<Vec<SearchResult>, SearchError>)
    requires
        retrieval_ready(*index, *params, embed, lexical, scoring),
        rerank is Some && params.rerank ==> forall|list: Vec<Hit>, docs: &Vec<String>| #[trigger]
            retrieval(*index, *params, embed, lexical, scoring, Ok(list)) && text::texts(docs@)
                == candidate_texts(index.records@, list@) ==> #[trigger] rerank->0.requires(
                (&params.query, docs),
            ),
    ensures
        exists|candidates: Result<Vec<Hit>, SearchError>| #[trigger]
            retrieval(*index, *params, embed, lexical, scoring, candidates) && (match candidates {
                Err(e) => r == Err::<Vec<SearchResult>, SearchError>(e),
                Ok(list) => proper_candidates(index.records@, *params, list@) && ranked_results(
                    index.records@,
                    list@,
                    *params,
                    rerank,
                    r,
                ),
            }),
{
    let ghost records = index.records@;
    let found = retrieve(index, embed, lexical, params, scoring);
    let ghost given = found;
    let candidates = match found {
        Err(e) => {
            assert(retrieval(*index, *params, embed, lexical, scoring, given));
            return Err(e);
        },
        Ok(list) => list,
    };
    assert(retrieval(*index, *params, embed, lexical, scoring, given));
    let model = match rerank {
        Some(k) => k,
        None => {
            return Ok(select_results(index, &candidates, params));
        },
    };
    if !params.rerank {
        return Ok(select_results(index, &candidates, params));
    }
    let docs = texts_of(index, &candidates);
    let out = model(&params.query, &docs);
    assert(model.ensures((&params.query, &docs), out));
    match out {
        Err(e) => Err(SearchError::Rerank(e)),
        Ok(ranking) => {
            let ranked = apply_ranking(&candidates, &ranking);
            assert(reranked(candidates@, ranking@, ranked));
            match ranked {
                Err(e) => Err(e),
                Ok(list) => {
                    assert forall|i: int| 0 <= i < list@.len() implies (#[trigger] list@[i]).idx
                        < index.records@.len() by {
                        assert(ranking@[i].idx < candidates@.len());
                        assert(candidates@[ranking@[i].idx as int].idx < index.records@.len());
                    }
                    Ok(select_results(index, &list, params))
                },
            }
        },
    }
}

// ---------------------------------------------------------------------------
// Laws
// ---------------------------------------------------------------------------

proof fn lemma_kept(records: Seq<Record>, ranked: Seq<Hit>, p: SearchParams, file: Seq<char>)
    ensures
        forall|i: int|
            0 <= i < kept_hits(records, ranked, p).len() ==> good_enough(
                (#[trigger] kept_hits(records, ranked, p)[i]).score,
                p.min_score,
            ) && ranked.contains(kept_hits(records, ranked, p)[i]),
        p.max_per_file > 0 ==> file_hits(records, kept_hits(records, ranked, p), file)
            <= p.max_per_file,
    decreases ranked.len(),
{
    if ranked.len() > 0 {
        let init = ranked.drop_last();
        lemma_kept(records, init, p, file);
        let rest = kept_hits(records, init, p);
        let all = kept_hits(records, ranked, p);
        assert forall|i: int| 0 <= i < all.len() implies good_enough(
            (#[trigger] all[i]).score,
            p.min_score,
        ) && ranked.contains(all[i]) by {
            if i < rest.len() {
                assert(all[i] == rest[i]);
                let k = choose|k: int| 0 <= k < init.len() && init[k] == rest[i];
                assert(ranked[k] == all[i]);
            } else {
                assert(ranked[ranked.len() - 1] == all[i]);
            }
        }
        if all.len() > rest.len() {
            assert(all.drop_last() =~= rest);
            let last = records[ranked.last().idx as int].file@;
            if path::same_path(last, file) {
                lemma_file_hits_same(records, rest, last, file);
            }
        }
    }
}

proof fn lemma_file_hits_same(records: Seq<Record>, hits: Seq<Hit>, a: Seq<char>, b: Seq<char>)
    requires
        path::same_path(a, b),
    ensures
        file_hits(records, hits, a) == file_hits(records, hits, b),
    decreases hits.len(),
{
    if hits.len() > 0 {
        lemma_file_hits_same(records, hits.drop_last(), a, b);
    }
}

proof fn lemma_file_hits_take(records: Seq<Record>, hits: Seq<Hit>, n: int, file: Seq<char>)
    requires
        0 <= n <= hits.len(),
    ensures
        file_hits(records, hits.take(n), file) <= file_hits(records, hits, file),
    decreases hits.len(),
{
    if n == hits.len() {
        assert(hits.take(n) =~= hits);
    } else {
        assert(hits.take(n) =~= hits.drop_last().take(n));
        lemma_file_hits_take(records, hits.drop_last(), n, file);
    }
}

/// What a search returns keeps to what was asked for: no more than `top_k` results,
/// all ranked candidates, all good enough, and no more than `max_per_file` from
/// any one file.
pub proof fn results_keep_the_limits(
    records: Seq<Record>,
    ranked: Seq<Hit>,
    p: SearchParams,
    file: Seq<char>,
)
    ensures
        final_hits(records, ranked, p).len() <= p.top_k,
        forall|i: int|
            0 <= i < final_hits(records, ranked, p).len() ==> good_enough(
                (#[trigger] final_hits(records, ranked, p)[i]).score,
                p.min_score,
            ) && ranked.contains(final_hits(records, ranked, p)[i]),
        p.max_per_file > 0 ==> file_hits(records, final_hits(records, ranked, p), file)
            <= p.max_per_file,
{
    lemma_kept(records, ranked, p, file);
    let kept = kept_hits(records, ranked, p);
    let all = final_hits(records, ranked, p);
    if p.top_k < kept.len() {
        lemma_file_hits_take(records, kept, p.top_k as int, file);
    }
    assert forall|i: int| 0 <= i < all.len() implies good_enough(
        (#[trigger] all[i]).score,
        p.min_score,
    ) && ranked.contains(all[i]) by {
        assert(all[i] == kept[i]);
    }
}

/// With no threshold and no cap, the results are the best `top_k` candidates as
/// they were ranked.
pub proof fn no_limits_keep_every_candidate(records: Seq<Record>, ranked: Seq<Hit>, p: SearchParams)
    requires
        p.min_score.zero(),
        p.max_per_file == 0,
    ensures
        kept_hits(records, ranked, p) == ranked,
    decreases ranked.len(),
{
    if ranked.len() > 0 {
        no_limits_keep_every_candidate(records, ranked.drop_last(), p);
        assert(kept_hits(records, ranked, p) =~= ranked);
    } else {
        assert(kept_hits(records, ranked, p) =~= ranked);
    }
}

/// A mode whose channel is missing fails with that error, whatever else there is.
pub proof fn missing_channel_is_an_error<
    E: FnOnce(&String) -> Result<Vec<FloatBits>, String>,
    D: FnOnce(&Vec<usize>, &Vec<FloatBits>) -> Vec<FloatBits>,
    S: Fn(&DocMatch) -> FloatBits,
    R: Fn(&Vec<u128>) -> FloatBits,
>(
    index: Index,
    p: SearchParams,
    embed: Option<E>,
    lexical: Option<&LexicalIndex>,
    scoring: Scoring<D, S, R>,
    r: Result<Vec<Hit>, SearchError>,
)
    requires
        retrieval(index, p, embed, lexical, scoring, r),
    ensures
        p.retrieval != RetrievalMode::Dense && lexical is None ==> r == Err::<
            Vec<Hit>,
            SearchError,
        >(SearchError::NoLexicalChannel),
        p.retrieval == RetrievalMode::Dense && embed is None ==> r == Err::<Vec<Hit>, SearchError>(
            SearchError::NoEmbedder,
        ),
        p.retrieval == RetrievalMode::Hybrid && lexical is Some && embed is None ==> r == Err::<
            Vec<Hit>,
            SearchError,
        >(SearchError::NoEmbedder),
        p.retrieval == RetrievalMode::Bm25 && lexical is Some ==> r is Ok,
{
}

/// Keyword search needs no model: what it returns does not depend on the embedder, or on
/// whether there is one.
pub proof fn keyword_search_needs_no_model<
    E: FnOnce(&String) -> Result<Vec<FloatBits>, String>,
    D: FnOnce(&Vec<usize>, &Vec<FloatBits>) -> Vec<FloatBits>,
    S: Fn(&DocMatch) -> FloatBits,
    R: Fn(&Vec<u128>) -> FloatBits,
>(
    index: Index,
    p: SearchParams,
    one: Option<E>,
    other: Option<E>,
    lexical: Option<&LexicalIndex>,
    scoring: Scoring<D, S, R>,
    r: Result<Vec<Hit>, SearchError>,
)
    requires
        p.retrieval == RetrievalMode::Bm25,
    ensures
        retrieval(index, p, one, lexical, scoring, r) == retrieval(
            index,
            p,
            other,
            lexical,
            scoring,
            r,
        ),
{
}

/// The id of a result leads back to its chunk: in a valid index, looking it up gives the
/// record that the result shows, with the full text.
pub proof fn result_id_leads_to_its_record(
    index: Index,
    i: int,
    score: FloatBits,
    result: SearchResult,
    found: Record,
)
    requires
        index.valid(),
        0 <= i < index.records@.len(),
        shows(result, index.records@[i], score),
        store::carries_id(index.records@, result.chunk_id@, found),
    ensures
        found == index.records@[i],
        found.text == result.snippet,
{
    let j = choose|j: int|
        0 <= j < index.records@.len() && found == #[trigger] index.records@[j]
            && found.chunk_id@ == result.chunk_id@ && forall|k: int|
            0 <= k < j ==> (#[trigger] index.records@[k]).chunk_id@ != result.chunk_id@;
    store::ids_are_unique(index, i, j);
}

/// Whether a list names each record at most once.
pub open spec fn names_once(list: Seq<Hit>) -> bool {
    forall|i: int, j: int|
        0 <= i < j < list.len() ==> (#[trigger] list[i]).idx != (#[trigger] list[j]).idx
}

proof fn lemma_one_denominator(list: Seq<Hit>, k: nat, i: int)
    requires
        names_once(list),
        0 <= i < list.len(),
    ensures
        denominators(list, k, list[i].idx) == seq![(k + i + 1) as u128],
    decreases list.len(),
{
    let idx = list[i].idx;
    let init = list.drop_last();
    let last = list[list.len() - 1];
    if i == list.len() - 1 {
        assert forall|j: int| 0 <= j < init.len() implies (#[trigger] init[j]).idx != idx by {
            assert(list[j].idx != list[i].idx);
        }
        lemma_union_ids(init);
        lemma_no_denominators(init, k, idx);
        assert(denominators(list, k, idx) =~= seq![(k + i + 1) as u128]);
    } else {
        assert(list[i].idx != last.idx);
        assert forall|a: int, b: int| 0 <= a < b < init.len() implies (#[trigger] init[a]).idx != (
        #[trigger] init[b]).idx by {
            assert(list[a].idx != list[b].idx);
        }
        assert(init[i] == list[i]);
        lemma_one_denominator(init, k, i);
    }
}

/// Fusion rewards agreement: a record that both lists rank has a term from each of them,
/// and one that a single list ranks has a term from that list alone.
pub proof fn each_list_adds_a_term(dense: Seq<Hit>, lexical: Seq<Hit>, k: nat, i: int)
    requires
        names_once(dense),
        names_once(lexical),
        0 <= i < dense.len(),
    ensures
        forall|j: int|
            0 <= j < lexical.len() && (#[trigger] lexical[j]).idx == dense[i].idx ==> contributions(
                dense,
                lexical,
                k,
                dense[i].idx,
            ) == seq![(k + i + 1) as u128, (k + j + 1) as u128],
        (forall|j: int| 0 <= j < lexical.len() ==> (#[trigger] lexical[j]).idx != dense[i].idx)
            ==> contributions(dense, lexical, k, dense[i].idx) == seq![(k + i + 1) as u128],
{
    let idx = dense[i].idx;
    lemma_one_denominator(dense, k, i);
    assert forall|j: int|
        0 <= j < lexical.len() && (#[trigger] lexical[j]).idx == idx implies contributions(
        dense,
        lexical,
        k,
        idx,
    ) == seq![(k + i + 1) as u128, (k + j + 1) as u128] by {
        lemma_one_denominator(lexical, k, j);
        assert(contributions(dense, lexical, k, idx) =~= seq![
            (k + i + 1) as u128,
            (k + j + 1) as u128,
        ]);
    }
    if forall|j: int| 0 <= j < lexical.len() ==> (#[trigger] lexical[j]).idx != idx {
        lemma_union_ids(lexical);
        lemma_no_denominators(lexical, k, idx);
        assert(contributions(dense, lexical, k, idx) =~= seq![(k + i + 1) as u128]);
    }
}

/// Fusion names each record of either list at most once and no other record, and gives as
/// many as it was asked for or all there are, best score first and equal ones by position.
pub proof fn fusion_merges_without_repeats<R: Fn(&Vec<u128>) -> FloatBits>(
    dense: Seq<Hit>,
    words: Seq<Hit>,
    k: nat,
    cap: nat,
    score: R,
    r: Seq<Hit>,
)
    requires
        fusion(dense, words, k, cap, score, r),
    ensures
        r.len() == if cap < union_ids(dense + words).len() {
            cap
        } else {
            union_ids(dense + words).len()
        },
        forall|i: int, j: int|
            0 <= i < j < r.len() ==> (#[trigger] r[i]).idx != (#[trigger] r[j]).idx,
        forall|i: int, j: int|
            0 <= i < j < r.len() ==> {
                ||| (#[trigger] r[i]).score.total_rank() > (#[trigger] r[j]).score.total_rank()
                ||| (r[i].score == r[j].score && r[i].idx < r[j].idx)
            },
        forall|i: int|
            0 <= i < r.len() ==> exists|j: int|
                0 <= j < (dense + words).len() && (#[trigger] (dense + words)[j]).idx == (
                #[trigger] r[i]).idx,
{
    let hits = choose|hits: Seq<Hit>| #[trigger]
        store::is_ranking(hits, cap, r) && fused_hits(dense, words, k, score, hits);
    let q = choose|q: Seq<usize>| #[trigger] store::picks_best(hits, cap, q, r);
    order::lemma_sorts_distinct(store::hit_keys(hits), q);
    store::ranking_keeps_the_best(hits, cap, r);
    let both = dense + words;
    let ids = union_ids(both);
    lemma_union_ids(both);
    assert forall|i: int, j: int| 0 <= i < j < r.len() implies (#[trigger] r[i]).idx != (
    #[trigger] r[j]).idx by {
        assert(r[i] == hits[q[i] as int] && r[j] == hits[q[j] as int]);
        assert(q[i] != q[j]);
        assert(hits[q[i] as int].idx == ids[q[i] as int]);
        assert(hits[q[j] as int].idx == ids[q[j] as int]);
    }
    assert forall|i: int| 0 <= i < r.len() implies exists|j: int|
        0 <= j < both.len() && (#[trigger] both[j]).idx == (#[trigger] r[i]).idx by {
        assert(r[i] == hits[q[i] as int]);
        assert(hits[q[i] as int].idx == ids[q[i] as int]);
    }
}

/// Whether `score` gives one number for each list of denominators, and the same for the
/// two parts of a list in either order.
pub open spec fn sums_in_any_order<R: Fn(&Vec<u128>) -> FloatBits>(score: R) -> bool {
    &&& forall|a: Seq<u128>, b: Seq<u128>, s: FloatBits|
        fused_score(score, a + b, s) ==> #[trigger] fused_score(score, b + a, s)
    &&& forall|a: Seq<u128>, s: FloatBits, t: FloatBits|
        #[trigger] fused_score(score, a, s) && #[trigger] fused_score(score, a, t) ==> s == t
}

/// Each fused hit of one order of the lists is one of the other order.
proof fn lemma_swapped_hits<R: Fn(&Vec<u128>) -> FloatBits>(
    dense: Seq<Hit>,
    words: Seq<Hit>,
    k: nat,
    score: R,
    a: Seq<Hit>,
    b: Seq<Hit>,
)
    requires
        sums_in_any_order(score),
        fused_hits(dense, words, k, score, a),
        fused_hits(words, dense, k, score, b),
    ensures
        store::distinct_ids(a),
        forall|h: Hit| #[trigger] a.contains(h) ==> b.contains(h),
{
    let one = dense + words;
    let other = words + dense;
    lemma_union_ids(one);
    lemma_union_ids(other);
    let ids = union_ids(one);
    let swapped = union_ids(other);
    assert forall|i: int, j: int| 0 <= i < j < a.len() implies (#[trigger] a[i]).idx != (
    #[trigger] a[j]).idx by {
        assert(a[i].idx == ids[i] && a[j].idx == ids[j]);
    }
    assert forall|h: Hit| #[trigger] a.contains(h) implies b.contains(h) by {
        let i = choose|i: int| 0 <= i < a.len() && a[i] == h;
        assert(a[i].idx == ids[i]);
        let m = choose|m: int| 0 <= m < one.len() && (#[trigger] one[m]).idx == ids[i];
        let n = if m < dense.len() {
            words.len() + m
        } else {
            m - dense.len()
        };
        assert(other[n] == one[m]);
        assert(swapped.contains(other[n].idx));
        let j = choose|j: int| 0 <= j < swapped.len() && swapped[j] == h.idx;
        let x = denominators(dense, k, h.idx);
        let y = denominators(words, k, h.idx);
        assert(b[j].idx == swapped[j]);
        assert(fused_score(score, x + y, h.score));
        assert(fused_score(score, y + x, b[j].score));
        assert(fused_score(score, y + x, h.score));
        assert(b[j] == h);
    }
}

/// Which list comes first makes no difference to a sum that does not depend on order.
pub proof fn fusion_is_symmetric<R: Fn(&Vec<u128>) -> FloatBits>(
    dense: Seq<Hit>,
    words: Seq<Hit>,
    k: nat,
    cap: nat,
    score: R,
    r: Seq<Hit>,
    swapped: Seq<Hit>,
)
    requires
        sums_in_any_order(score),
        fusion(dense, words, k, cap, score, r),
        fusion(words, dense, k, cap, score, swapped),
    ensures
        r == swapped,
{
    let a = choose|hits: Seq<Hit>| #[trigger]
        store::is_ranking(hits, cap, r) && fused_hits(dense, words, k, score, hits);
    let b = choose|hits: Seq<Hit>| #[trigger]
        store::is_ranking(hits, cap, swapped) && fused_hits(words, dense, k, score, hits);
    lemma_swapped_hits(dense, words, k, score, a, b);
    lemma_swapped_hits(words, dense, k, score, b, a);
    store::shorter_ranking_is_a_start(a, cap, r, b, cap, swapped);
    store::shorter_ranking_is_a_start(b, cap, swapped, a, cap, r);
    assert(swapped.take(swapped.len() as int) =~= swapped);
}

/// Whether two lists name the same records in the same order.
pub open spec fn same_order(a: Seq<Hit>, b: Seq<Hit>) -> bool {
    a.len() == b.len() && forall|i: int| 0 <= i < a.len() ==> (#[trigger] a[i]).idx == b[i].idx
}

proof fn lemma_same_order(a: Seq<Hit>, b: Seq<Hit>, k: nat, idx: usize)
    requires
        same_order(a, b),
    ensures
        union_ids(a) == union_ids(b),
        denominators(a, k, idx) == denominators(b, k, idx),
    decreases a.len(),
{
    if a.len() > 0 {
        let (x, y) = (a.drop_last(), b.drop_last());
        assert forall|i: int| 0 <= i < x.len() implies (#[trigger] x[i]).idx == y[i].idx by {
            assert(a[i].idx == b[i].idx);
        }
        assert(a[a.len() - 1].idx == b[a.len() - 1].idx);
        lemma_same_order(x, y, k, idx);
    }
}

/// Only the ranks in the two lists count for their fusion, and not the scores that led to
/// them.
pub proof fn fusion_ignores_raw_scores<R: Fn(&Vec<u128>) -> FloatBits>(
    dense: Seq<Hit>,
    words: Seq<Hit>,
    rescored: Seq<Hit>,
    reworded: Seq<Hit>,
    k: nat,
    cap: nat,
    score: R,
    r: Seq<Hit>,
)
    requires
        same_order(dense, rescored),
        same_order(words, reworded),
        fusion(dense, words, k, cap, score, r),
    ensures
        fusion(rescored, reworded, k, cap, score, r),
{
    let hits = choose|hits: Seq<Hit>| #[trigger]
        store::is_ranking(hits, cap, r) && fused_hits(dense, words, k, score, hits);
    let (one, other) = (dense + words, rescored + reworded);
    assert forall|i: int| 0 <= i < one.len() implies (#[trigger] one[i]).idx == other[i].idx by {
        if i < dense.len() {
            assert(dense[i].idx == rescored[i].idx);
        } else {
            assert(words[i - dense.len()].idx == reworded[i - dense.len()].idx);
        }
    }
    lemma_same_order(one, other, k, 0);
    let ids = union_ids(one);
    assert forall|i: int| 0 <= i < hits.len() implies (#[trigger] hits[i]).idx == ids[i]
        && fused_score(score, contributions(rescored, reworded, k, ids[i]), hits[i].score) by {
        lemma_same_order(dense, rescored, k, ids[i]);
        lemma_same_order(words, reworded, k, ids[i]);
    }
    assert(fused_hits(rescored, reworded, k, score, hits));
}

/// How many of the given places of a ranking stand before `i` and hold a chunk of the
/// same file as the one there.
pub open spec fn earlier_of_file(
    records: Seq<Record>,
    ranked: Seq<Hit>,
    at: Seq<int>,
    i: int,
) -> nat {
    at.filter(
        |a: int|
            a < i && path::same_path(
                records[ranked[a].idx as int].file@,
                records[ranked[i].idx as int].file@,
            ),
    ).len()
}

/// Whether the places `at` of a ranking are taken for a reason, and the others left out
/// for one: a place is taken if its score meets the threshold and its file is below the
/// cap, as long as there is room.
pub open spec fn taken_for_a_reason(
    records: Seq<Record>,
    ranked: Seq<Hit>,
    p: SearchParams,
    at: Seq<int>,
) -> bool {
    &&& at.len() <= p.top_k
    &&& forall|j: int| 0 <= j < at.len() ==> 0 <= #[trigger] at[j] < ranked.len()
    &&& forall|j: int, k: int| 0 <= j < k < at.len() ==> #[trigger] at[j] < #[trigger] at[k]
    &&& forall|i: int|
        0 <= i < ranked.len() ==> (#[trigger] at.contains(i) <==> {
            &&& p.min_score.zero() || ranked[i].score.at_least(p.min_score)
            &&& p.max_per_file == 0 || earlier_of_file(records, ranked, at, i) < p.max_per_file
            &&& at.filter(|a: int| a < i).len() < p.top_k
        })
}

/// The places that are kept before the final cut.
spec fn kept_at(records: Seq<Record>, ranked: Seq<Hit>, p: SearchParams) -> Seq<int>
    decreases ranked.len(),
{
    if ranked.len() == 0 {
        seq![]
    } else {
        let init = ranked.drop_last();
        let rest = kept_at(records, init, p);
        if kept_hits(records, ranked, p).len() > kept_hits(records, init, p).len() {
            rest.push(ranked.len() - 1)
        } else {
            rest
        }
    }
}

proof fn lemma_filter_none<T>(s: Seq<T>, p: spec_fn(T) -> bool)
    requires
        forall|i: int| 0 <= i < s.len() ==> !p(#[trigger] s[i]),
    ensures
        s.filter(p) == Seq::<T>::empty(),
    decreases s.len(),
{
    reveal(Seq::filter);
    if s.len() > 0 {
        assert forall|i: int| 0 <= i < s.drop_last().len() implies !p(
            #[trigger] s.drop_last()[i],
        ) by {
            assert(s.drop_last()[i] == s[i]);
        }
        lemma_filter_none(s.drop_last(), p);
    }
    assert(s.filter(p) =~= Seq::<T>::empty());
}

proof fn lemma_filter_every<T>(s: Seq<T>, p: spec_fn(T) -> bool)
    requires
        forall|i: int| 0 <= i < s.len() ==> p(#[trigger] s[i]),
    ensures
        s.filter(p) == s,
    decreases s.len(),
{
    reveal(Seq::filter);
    if s.len() > 0 {
        assert forall|i: int| 0 <= i < s.drop_last().len() implies p(
            #[trigger] s.drop_last()[i],
        ) by {
            assert(s.drop_last()[i] == s[i]);
        }
        lemma_filter_every(s.drop_last(), p);
    }
    assert(s.filter(p) =~= s);
}

proof fn lemma_filter_same<T>(s: Seq<T>, p: spec_fn(T) -> bool, q: spec_fn(T) -> bool)
    requires
        forall|i: int| 0 <= i < s.len() ==> p(#[trigger] s[i]) == q(s[i]),
    ensures
        s.filter(p) == s.filter(q),
    decreases s.len(),
{
    reveal(Seq::filter);
    if s.len() > 0 {
        assert forall|i: int| 0 <= i < s.drop_last().len() implies p(#[trigger] s.drop_last()[i])
            == q(s.drop_last()[i]) by {
            assert(s.drop_last()[i] == s[i]);
        }
        assert(p(s[s.len() - 1]) == q(s[s.len() - 1]));
        lemma_filter_same(s.drop_last(), p, q);
    }
}

/// The kept hits of a file are those at the kept places with it.
proof fn lemma_kept_counts(records: Seq<Record>, ranked: Seq<Hit>, at: Seq<int>, file: Seq<char>)
    requires
        forall|j: int| 0 <= j < at.len() ==> 0 <= #[trigger] at[j] < ranked.len(),
    ensures
        file_hits(records, at.map_values(|a: int| ranked[a]), file) == at.filter(
            |a: int| path::same_path(records[ranked[a].idx as int].file@, file),
        ).len(),
    decreases at.len(),
{
    reveal(Seq::filter);
    let hits = at.map_values(|a: int| ranked[a]);
    if at.len() > 0 {
        assert forall|j: int| 0 <= j < at.drop_last().len() implies 0 <= #[trigger] at.drop_last()[j]
            < ranked.len() by {
            assert(at.drop_last()[j] == at[j]);
        }
        lemma_kept_counts(records, ranked, at.drop_last(), file);
        assert(hits.drop_last() =~= at.drop_last().map_values(|a: int| ranked[a]));
        assert(hits.last() == ranked[at.last()]);
    }
}

/// Every place is kept or left out for a reason, the final cut aside.
proof fn lemma_kept_at(records: Seq<Record>, ranked: Seq<Hit>, p: SearchParams)
    ensures
        kept_hits(records, ranked, p) == kept_at(records, ranked, p).map_values(
            |a: int| ranked[a],
        ),
        forall|j: int|
            0 <= j < kept_at(records, ranked, p).len() ==> 0 <= #[trigger] kept_at(
                records,
                ranked,
                p,
            )[j] < ranked.len(),
        forall|j: int, k: int|
            0 <= j < k < kept_at(records, ranked, p).len() ==> #[trigger] kept_at(
                records,
                ranked,
                p,
            )[j] < #[trigger] kept_at(records, ranked, p)[k],
        forall|i: int|
            0 <= i < ranked.len() ==> (#[trigger] kept_at(records, ranked, p).contains(i) <==> {
                &&& p.min_score.zero() || ranked[i].score.at_least(p.min_score)
                &&& p.max_per_file == 0 || earlier_of_file(
                    records,
                    ranked,
                    kept_at(records, ranked, p),
                    i,
                ) < p.max_per_file
            }),
    decreases ranked.len(),
{
    let at = kept_at(records, ranked, p);
    if ranked.len() > 0 {
        let init = ranked.drop_last();
        let n = ranked.len() - 1;
        let rest = kept_at(records, init, p);
        let h = ranked.last();
        let file = records[h.idx as int].file@;
        lemma_kept_at(records, init, p);
        assert(kept_hits(records, init, p) =~= rest.map_values(|a: int| ranked[a])) by {
            assert forall|j: int| 0 <= j < rest.len() implies init[#[trigger] rest[j]]
                == ranked[rest[j]] by {}
        }
        lemma_kept_counts(records, ranked, rest, file);
        let same = |a: int| path::same_path(records[ranked[a].idx as int].file@, file);
        let before = |a: int|
            a < n && path::same_path(
                records[ranked[a].idx as int].file@,
                records[ranked[n].idx as int].file@,
            );
        lemma_filter_same(rest, same, before);
        reveal(Seq::filter);
        assert(at == rest || at == rest.push(n));
        if at == rest.push(n) {
            assert(at.drop_last() =~= rest);
            assert(!before(n));
        }
        assert(earlier_of_file(records, ranked, at, n) == rest.filter(before).len());
        assert(kept_hits(records, ranked, p) =~= at.map_values(|a: int| ranked[a]));
        assert forall|i: int| 0 <= i < ranked.len() implies (#[trigger] at.contains(i) <==> {
            &&& p.min_score.zero() || ranked[i].score.at_least(p.min_score)
            &&& p.max_per_file == 0 || earlier_of_file(records, ranked, at, i) < p.max_per_file
        }) by {
            if i == n {
                if at == rest.push(n) {
                    assert(at[rest.len() as int] == n);
                    assert(at.contains(n));
                } else if at.contains(n) {
                    let j = choose|j: int| 0 <= j < rest.len() && rest[j] == n;
                    assert(rest[j] < init.len());
                }
            } else {
                let early = |a: int|
                    a < i && path::same_path(
                        records[ranked[a].idx as int].file@,
                        records[ranked[i].idx as int].file@,
                    );
                let early_init = |a: int|
                    a < i && path::same_path(
                        records[init[a].idx as int].file@,
                        records[init[i].idx as int].file@,
                    );
                assert forall|j: int| 0 <= j < rest.len() implies early(#[trigger] rest[j])
                    == early_init(rest[j]) by {
                    assert(init[rest[j]] == ranked[rest[j]]);
                }
                lemma_filter_same(rest, early, early_init);
                assert(at.filter(early) == rest.filter(early));
                assert(rest.contains(i) == at.contains(i)) by {
                    if rest.contains(i) {
                        let j = choose|j: int| 0 <= j < rest.len() && rest[j] == i;
                        assert(at[j] == i);
                    }
                    if at.contains(i) {
                        let j = choose|j: int| 0 <= j < at.len() && at[j] == i;
                        assert(rest[j] == i);
                    }
                }
                assert(init[i] == ranked[i]);
            }
        }
    }
}

/// A candidate is left out only for a reason: its score is below the threshold, as many
/// results of its file as may be rank before it, or as many results as were asked for do.
/// All others are results, in the order of the ranking.
pub proof fn candidates_are_left_out_for_a_reason(
    records: Seq<Record>,
    ranked: Seq<Hit>,
    p: SearchParams,
) -> (at: Seq<int>)
    ensures
        taken_for_a_reason(records, ranked, p, at),
        final_hits(records, ranked, p) == at.map_values(|a: int| ranked[a]),
{
    let all = kept_at(records, ranked, p);
    let n = if p.top_k < all.len() {
        p.top_k as int
    } else {
        all.len() as int
    };
    let at = all.take(n);
    let rest = all.skip(n);
    lemma_kept_at(records, ranked, p);
    assert(all =~= at + rest);
    assert(final_hits(records, ranked, p) =~= at.map_values(|a: int| ranked[a]));
    assert forall|i: int| 0 <= i < ranked.len() implies (#[trigger] at.contains(i) <==> {
        &&& p.min_score.zero() || ranked[i].score.at_least(p.min_score)
        &&& p.max_per_file == 0 || earlier_of_file(records, ranked, at, i) < p.max_per_file
        &&& at.filter(|a: int| a < i).len() < p.top_k
    }) by {
        let early = |a: int|
            a < i && path::same_path(
                records[ranked[a].idx as int].file@,
                records[ranked[i].idx as int].file@,
            );
        let less = |a: int| a < i;
        Seq::filter_distributes_over_add(at, rest, early);
        at.lemma_filter_len(less);
        if at.contains(i) {
            let j = choose|j: int| 0 <= j < at.len() && at[j] == i;
            assert(all[j] == i);
            assert(all.contains(i));
            assert forall|k: int| 0 <= k < rest.len() implies !early(#[trigger] rest[k]) by {
                assert(rest[k] == all[n + k]);
                assert(all[j] < all[n + k]);
            }
            lemma_filter_none(rest, early);
            let (x, y) = (at.take(j), at.skip(j));
            assert(at =~= x + y);
            Seq::filter_distributes_over_add(x, y, less);
            assert forall|k: int| 0 <= k < y.len() implies !less(#[trigger] y[k]) by {
                assert(y[k] == all[j + k]);
                if k > 0 {
                    assert(all[j] < all[j + k]);
                }
            }
            lemma_filter_none(y, less);
            x.lemma_filter_len(less);
        } else if at.filter(less).len() < p.top_k {
            if all.contains(i) {
                let j = choose|j: int| 0 <= j < all.len() && all[j] == i;
                assert(j >= n) by {
                    if j < n {
                        assert(at[j] == i);
                    }
                }
                assert forall|k: int| 0 <= k < at.len() implies less(#[trigger] at[k]) by {
                    assert(all[k] < all[j]);
                }
                lemma_filter_every(at, less);
            } else {
                assert forall|k: int| 0 <= k < rest.len() implies !early(#[trigger] rest[k]) by {
                    if rest[k] < i {
                        assert(rest[k] == all[n + k]);
                        assert forall|m: int| 0 <= m < at.len() implies less(#[trigger] at[m]) by {
                            assert(all[m] < all[n + k]);
                        }
                        lemma_filter_every(at, less);
                    }
                }
                lemma_filter_none(rest, early);
            }
        }
    }
    at
}

/// Asking for fewer results gives the start of what asking for more gives.
pub proof fn fewer_results_are_a_start(
    records: Seq<Record>,
    ranked: Seq<Hit>,
    few: SearchParams,
    many: SearchParams,
)
    requires
        few.top_k <= many.top_k,
        few.min_score == many.min_score,
        few.max_per_file == many.max_per_file,
    ensures
        final_hits(records, ranked, few) == final_hits(records, ranked, many).take(
            if few.top_k < final_hits(records, ranked, many).len() {
                few.top_k as int
            } else {
                final_hits(records, ranked, many).len() as int
            },
        ),
{
    lemma_kept_params(records, ranked, few, many);
}

proof fn lemma_kept_params(records: Seq<Record>, ranked: Seq<Hit>, p: SearchParams, q: SearchParams)
    requires
        p.min_score == q.min_score,
        p.max_per_file == q.max_per_file,
    ensures
        kept_hits(records, ranked, p) == kept_hits(records, ranked, q),
    decreases ranked.len(),
{
    if ranked.len() > 0 {
        lemma_kept_params(records, ranked.drop_last(), p, q);
    }
}

// ---------------------------------------------------------------------------
// What a search reads and shows
// ---------------------------------------------------------------------------

/// Whether a text that may be absent holds a part.
pub open spec fn told_with(o: Option<String>, part: Seq<char>) -> bool {
    o is Some && text::holds((o->0)@, part)
}

/// Whether a record is what a search asks for: in one of the languages, with the text in
/// its path, and with the other text in its source or in the origin of that, as far as
/// these are given.
pub open spec fn asked_for(r: Record, p: SearchParams) -> bool {
    &&& p.langs is None || exists|i: int|
        0 <= i < (p.langs->0)@.len() && (#[trigger] (p.langs->0)@[i])@ == r.lang@
    &&& p.path_prefix is None || text::holds(r.file@, (p.path_prefix->0)@)
    &&& p.source is None || told_with(r.source, (p.source->0)@) || told_with(
        r.corpus_source,
        (p.source->0)@,
    )
}

/// The filters admit exactly the records that are asked for.
pub proof fn filters_admit_what_is_asked_for(r: Record, p: SearchParams)
    ensures
        passes(r, p) == asked_for(r, p),
{
    if p.langs is Some {
        let list = (p.langs->0)@;
        let texts = text::texts(list);
        if texts.contains(r.lang@) {
            let i = choose|i: int| 0 <= i < texts.len() && texts[i] == r.lang@;
            assert(list[i]@ == r.lang@);
        }
        if exists|i: int| 0 <= i < list.len() && (#[trigger] list[i])@ == r.lang@ {
            let i = choose|i: int| 0 <= i < list.len() && (#[trigger] list[i])@ == r.lang@;
            assert(texts[i] == r.lang@);
        }
    }
    if p.path_prefix is Some {
        text::containing_is_standing_between(r.file@, (p.path_prefix->0)@);
    }
    if p.source is Some {
        if r.source is Some {
            text::containing_is_standing_between((r.source->0)@, (p.source->0)@);
        }
        if r.corpus_source is Some {
            text::containing_is_standing_between((r.corpus_source->0)@, (p.source->0)@);
        }
    }
}

/// Without filters every record passes, and a filter that is taken away lets no record
/// out that it let in.
pub proof fn filters_only_narrow(r: Record, p: SearchParams, q: SearchParams)
    requires
        q.langs is None || q.langs == p.langs,
        q.path_prefix is None || q.path_prefix == p.path_prefix,
        q.source is None || q.source == p.source,
        passes(r, p),
    ensures
        passes(r, q),
{
}

proof fn lemma_positions_count(records: Seq<Record>, keep: spec_fn(int) -> bool, p: SearchParams)
    requires
        forall|i: int|
            0 <= i < records.len() ==> keep(i) == asked_for(#[trigger] records[i], p),
    ensures
        order::positions(records.len(), keep).len() == records.filter(
            |r: Record| asked_for(r, p),
        ).len(),
    decreases records.len(),
{
    reveal(Seq::filter);
    if records.len() > 0 {
        let init = records.drop_last();
        assert forall|i: int| 0 <= i < init.len() implies keep(i) == asked_for(
            #[trigger] init[i],
            p,
        ) by {
            assert(init[i] == records[i]);
        }
        lemma_positions_count(init, keep, p);
        assert(keep(records.len() - 1) == asked_for(records[records.len() - 1], p));
    }
}

/// The filters come before the cut: a dense search gives as many hits as it was asked
/// for, or as many as there are records that are asked for, each such a record, each
/// once, with the best scores.
pub proof fn filters_come_before_the_cut<
    D: FnOnce(&Vec<usize>, &Vec<FloatBits>) -> Vec<FloatBits>,
>(
    index: Index,
    p: SearchParams,
    query: &Vec<FloatBits>,
    dot: D,
    r: Result<Vec<Hit>, SearchError>,
)
    requires
        dense_scan(index, p, query, dot, r),
        r is Ok,
        index.records@.len() <= usize::MAX,
    ensures
        query@.len() == index.dim,
        r->Ok_0@.len() == p.retrieve_n || (r->Ok_0@.len() < p.retrieve_n && r->Ok_0@.len()
            == index.records@.filter(|x: Record| asked_for(x, p)).len()),
        forall|i: int|
            0 <= i < r->Ok_0@.len() ==> (#[trigger] r->Ok_0@[i]).idx < index.records@.len()
                && asked_for(index.records@[r->Ok_0@[i].idx as int], p),
        forall|i: int, j: int|
            0 <= i < j < r->Ok_0@.len() ==> (#[trigger] r->Ok_0@[i]).idx != (
            #[trigger] r->Ok_0@[j]).idx,
        forall|i: int, j: int|
            0 <= i < j < r->Ok_0@.len() ==> (#[trigger] r->Ok_0@[i]).score.total_rank() >= (
            #[trigger] r->Ok_0@[j]).score.total_rank(),
{
    let records = index.records@;
    let list = r->Ok_0@;
    let keep = |i: int| passes(records[i], p);
    let (found, scores) = choose|found: &Vec<usize>, scores: Vec<FloatBits>| #[trigger]
        dot.ensures((found, query), scores) && found@ == filtered(records, p) && (if scores@.len()
            != found@.len() {
            r == Err::<Vec<Hit>, SearchError>(
                SearchError::Scan(
                    ScanError::ScoreCount {
                        scores: scores@.len() as usize,
                        records: found@.len() as usize,
                    },
                ),
            )
        } else {
            r is Ok && store::is_ranking(
                store::scored(found@, scores@),
                p.retrieve_n as nat,
                r->Ok_0@,
            )
        });
    let hits = store::scored(found@, scores@);
    let n = p.retrieve_n as nat;
    order::lemma_positions(records.len(), keep);
    assert forall|i: int| 0 <= i < records.len() implies keep(i) == asked_for(
        #[trigger] records[i],
        p,
    ) by {
        filters_admit_what_is_asked_for(records[i], p);
    }
    lemma_positions_count(records, keep, p);
    store::ranking_keeps_the_best(hits, n, list);
    let q = choose|q: Seq<usize>| #[trigger] store::picks_best(hits, n, q, list);
    order::lemma_sorts_distinct(store::hit_keys(hits), q);
    assert forall|i: int| 0 <= i < list.len() implies (#[trigger] list[i]).idx < records.len()
        && asked_for(records[list[i].idx as int], p) by {
        assert(list[i] == hits[q[i] as int]);
        let k = found@[q[i] as int];
        assert(keep(k as int));
        assert(records[k as int] == records[list[i].idx as int]);
    }
    assert forall|i: int, j: int| 0 <= i < j < list.len() implies (#[trigger] list[i]).idx != (
    #[trigger] list[j]).idx by {
        assert(q[i] != q[j]);
        assert(list[i] == hits[q[i] as int] && list[j] == hits[q[j] as int]);
        if q[i] < q[j] {
            assert(found@[q[i] as int] < found@[q[j] as int]);
        } else {
            assert(found@[q[j] as int] < found@[q[i] as int]);
        }
    }
}

/// A keyword search likewise gives only records that are asked for and share a term with
/// the query, each once, with the best scores, and leaves none of them out while there is
/// room.
pub proof fn keyword_hits_are_asked_for<S: Fn(&DocMatch) -> FloatBits>(
    records: Seq<Record>,
    p: SearchParams,
    docs: Seq<Seq<Seq<char>>>,
    bm25: S,
    r: Seq<Hit>,
)
    requires
        records.len() <= usize::MAX,
        docs.len() <= records.len(),
        lexical_retrieval(records, p, docs, bm25, r),
    ensures
        r.len() <= p.retrieve_n,
        forall|i: int|
            0 <= i < r.len() ==> (#[trigger] r[i]).idx < docs.len() && asked_for(
                records[r[i].idx as int],
                p,
            ) && lexical::shares_term(docs, p.query@, r[i].idx as int),
        forall|i: int, j: int|
            0 <= i < j < r.len() ==> (#[trigger] r[i]).idx != (#[trigger] r[j]).idx,
        forall|i: int, j: int|
            0 <= i < j < r.len() ==> (#[trigger] r[i]).score.total_rank() >= (
            #[trigger] r[j]).score.total_rank(),
        r.len() < p.retrieve_n ==> forall|d: int|
            0 <= d < docs.len() && asked_for(records[d], p) && #[trigger] lexical::shares_term(
                docs,
                p.query@,
                d,
            ) ==> exists|i: int| 0 <= i < r.len() && (#[trigger] r[i]).idx == d,
{
    let n = p.retrieve_n as nat;
    let (list, hits) = choose|list: Seq<DocMatch>, hits: Seq<Hit>|
        #![trigger lexical::all_matches(docs, p.query@, list), store::is_ranking(hits, p.retrieve_n as nat, r)]
        lexical::all_matches(docs, p.query@, list) && lexical::scored_matches(
            bm25,
            list,
            filter_answers(records, p, list),
            hits,
        ) && store::is_ranking(hits, p.retrieve_n as nat, r);
    let answers = filter_answers(records, p, list);
    lexical::lemma_hits_of_matches(docs, p.query@, bm25, list, answers, hits);
    store::ranking_keeps_the_best(hits, n, r);
    let q = choose|q: Seq<usize>| #[trigger] store::picks_best(hits, n, q, r);
    order::lemma_sorts_distinct(store::hit_keys(hits), q);
    let hit = lexical::matched(docs, p.query@);
    let ids = list.map_values(|m: DocMatch| m.doc);
    order::lemma_positions(docs.len(), hit);
    let keep = |i: int| answers[i];
    order::lemma_positions(answers.len(), keep);
    let kept = order::positions(answers.len(), keep);
    assert(kept == order::positions(answers.len(), |i: int| answers[i]));
    assert forall|i: int| 0 <= i < r.len() implies (#[trigger] r[i]).idx < docs.len() && asked_for(
        records[r[i].idx as int],
        p,
    ) && lexical::shares_term(docs, p.query@, r[i].idx as int) by {
        let h = q[i] as int;
        assert(r[i] == hits[h]);
        let m = kept[h] as int;
        assert(keep(m));
        assert(answers[m] == passes(records[list[m].doc as int], p));
        assert(ids[m] == list[m].doc);
        assert(hit(ids[m] as int));
        lexical::lemma_matched(docs, p.query@, list[m].doc as int);
        filters_admit_what_is_asked_for(records[list[m].doc as int], p);
    }
    assert forall|i: int, j: int| 0 <= i < j < r.len() implies (#[trigger] r[i]).idx != (
    #[trigger] r[j]).idx by {
        assert(q[i] != q[j]);
        assert(r[i] == hits[q[i] as int] && r[j] == hits[q[j] as int]);
        if q[i] < q[j] {
            assert(hits[q[i] as int].idx != hits[q[j] as int].idx);
        } else {
            assert(hits[q[j] as int].idx != hits[q[i] as int].idx);
        }
    }
    if r.len() < p.retrieve_n {
        assert forall|d: int|
            0 <= d < docs.len() && asked_for(records[d], p) && #[trigger] lexical::shares_term(
                docs,
                p.query@,
                d,
            ) implies exists|i: int| 0 <= i < r.len() && (#[trigger] r[i]).idx == d by {
            lexical::lemma_matched(docs, p.query@, d);
            assert(hit(d));
            let m = choose|m: int| 0 <= m < ids.len() && ids[m] == d as usize;
            assert(list[m].doc == d);
            filters_admit_what_is_asked_for(records[d], p);
            assert(answers[m]);
            assert(keep(m));
            let h = choose|h: int| 0 <= h < kept.len() && kept[h] == m as usize;
            assert(hits[h].idx == d);
            order::lemma_sorts_all(store::hit_keys(hits), q, h);
            let i = choose|i: int| 0 <= i < q.len() && #[trigger] q[i] == h;
            assert(r[i] == hits[h]);
        }
    }
}

/// What a hybrid search fuses: the hits of the two searches, with the offset that was
/// asked for, and no fewer of them than was asked for.
pub proof fn hybrid_fuses_the_two_searches<
    E: FnOnce(&String) -> Result<Vec<FloatBits>, String>,
    D: FnOnce(&Vec<usize>, &Vec<FloatBits>) -> Vec<FloatBits>,
    S: Fn(&DocMatch) -> FloatBits,
    R: Fn(&Vec<u128>) -> FloatBits,
>(
    index: Index,
    p: SearchParams,
    embed: E,
    lexical: &LexicalIndex,
    scoring: Scoring<D, S, R>,
    r: Result<Vec<Hit>, SearchError>,
) -> (lists: (Seq<Hit>, Seq<Hit>))
    requires
        p.retrieval == RetrievalMode::Hybrid,
        retrieval(index, p, Some(embed), Some(lexical), scoring, r),
        r is Ok,
    ensures
        exists|dense: Vec<Hit>| #[trigger]
            dense_retrieval(index, p, embed, scoring.dot, Ok(dense)) && dense@ == lists.0,
        lexical_retrieval(index.records@, p, lexical.documents(), scoring.bm25, lists.1),
        fusion(
            lists.0,
            lists.1,
            p.rrf_k as nat,
            p.retrieve_n as nat,
            scoring.fuse,
            r->Ok_0@,
        ),
        r->Ok_0@.len() <= p.retrieve_n,
        r->Ok_0@.len() == p.retrieve_n || r->Ok_0@.len() == union_ids(lists.0 + lists.1).len(),
{
    let dense = choose|dense: Result<Vec<Hit>, SearchError>| #[trigger]
        dense_retrieval(index, p, embed, scoring.dot, dense) && (match dense {
            Err(error) => r == Err::<Vec<Hit>, SearchError>(error),
            Ok(list) => r is Ok && exists|words: Seq<Hit>| #[trigger]
                lexical_retrieval(index.records@, p, lexical.documents(), scoring.bm25, words)
                    && fusion(
                    list@,
                    words,
                    p.rrf_k as nat,
                    p.retrieve_n as nat,
                    scoring.fuse,
                    r->Ok_0@,
                ),
        });
    let list = dense->Ok_0;
    assert(dense == Ok::<Vec<Hit>, SearchError>(list));
    let words = choose|words: Seq<Hit>| #[trigger]
        lexical_retrieval(index.records@, p, lexical.documents(), scoring.bm25, words) && fusion(
            list@,
            words,
            p.rrf_k as nat,
            p.retrieve_n as nat,
            scoring.fuse,
            r->Ok_0@,
        );
    fusion_merges_without_repeats(
        list@,
        words,
        p.rrf_k as nat,
        p.retrieve_n as nat,
        scoring.fuse,
        r->Ok_0@,
    );
    (list@, words)
}

/// The records of a merged list are those of the lists, each once.
pub proof fn merging_keeps_every_record(list: Seq<Hit>, idx: usize)
    ensures
        union_ids(list).no_duplicates(),
        union_ids(list).contains(idx) <==> exists|i: int|
            0 <= i < list.len() && (#[trigger] list[i]).idx == idx,
    decreases list.len(),
{
    if list.len() > 0 {
        let init = list.drop_last();
        let (rest, all) = (union_ids(init), union_ids(list));
        merging_keeps_every_record(init, idx);
        if rest.contains(idx) {
            let i = choose|i: int| 0 <= i < init.len() && (#[trigger] init[i]).idx == idx;
            assert(list[i].idx == idx);
            let k = choose|k: int| 0 <= k < rest.len() && rest[k] == idx;
            assert(all[k] == idx);
        }
        if list.last().idx == idx && !rest.contains(idx) {
            assert(all[rest.len() as int] == idx);
            assert(list[list.len() - 1].idx == idx);
        }
        if exists|i: int| 0 <= i < list.len() && (#[trigger] list[i]).idx == idx {
            let i = choose|i: int| 0 <= i < list.len() && (#[trigger] list[i]).idx == idx;
            if i < init.len() {
                assert(init[i].idx == idx);
            }
        }
        if all.contains(idx) {
            let k = choose|k: int| 0 <= k < all.len() && all[k] == idx;
            if k < rest.len() {
                assert(rest[k] == idx);
            } else {
                assert(list[list.len() - 1].idx == idx);
            }
        }
    }
}

/// A reranking stands for the candidates at the positions that it names, with its own
/// scores, in its own order; a position that there is no candidate for fails it, and the
/// error names the first such.
pub proof fn rerankings_name_positions(
    candidates: Seq<Hit>,
    ranking: Seq<Hit>,
    r: Result<Vec<Hit>, SearchError>,
)
    requires
        reranked(candidates, ranking, r),
    ensures
        r is Ok <==> forall|i: int|
            0 <= i < ranking.len() ==> (#[trigger] ranking[i]).idx < candidates.len(),
        r is Ok ==> r->Ok_0@.len() == ranking.len(),
        r is Ok ==> forall|i: int|
            0 <= i < ranking.len() ==> {
                let h = #[trigger] r->Ok_0@[i];
                h.idx == candidates[ranking[i].idx as int].idx && h.score == ranking[i].score
            },
        r is Err ==> exists|i: int|
            0 <= i < ranking.len() && r->Err_0 == (SearchError::UnknownCandidate {
                position: (#[trigger] ranking[i]).idx,
                candidates: candidates.len() as usize,
            }) && ranking[i].idx >= candidates.len() && forall|j: int|
                0 <= j < i ==> (#[trigger] ranking[j]).idx < candidates.len(),
{
    if r is Err {
        let i = choose|i: int| #[trigger]
            first_unknown(candidates, ranking, i) && r->Err_0 == (SearchError::UnknownCandidate {
                position: ranking[i].idx,
                candidates: candidates.len() as usize,
            });
        assert(ranking[i].idx >= candidates.len());
    }
}

/// A reranker reads the query and the texts of the candidates, in their order.
pub proof fn rerankers_read_the_candidates<
    K: FnOnce(&String, &Vec<String>) -> Result<Vec<Hit>, String>,
>(
    records: Seq<Record>,
    candidates: Seq<Hit>,
    p: SearchParams,
    rerank: K,
    r: Result<Vec<SearchResult>, SearchError>,
) -> (docs: Vec<String>)
    requires
        p.rerank,
        ranked_results(records, candidates, p, Some(rerank), r),
    ensures
        exists|out: Result<Vec<Hit>, String>| #[trigger] rerank.ensures((&p.query, &docs), out),
        docs@.len() == candidates.len(),
        forall|i: int|
            0 <= i < candidates.len() ==> (#[trigger] docs@[i])@
                == records[candidates[i].idx as int].text@,
{
    let (docs, out) = choose|docs: &Vec<String>, out: Result<Vec<Hit>, String>| #[trigger]
        rerank.ensures((&p.query, docs), out) && text::texts(docs@) == candidate_texts(
            records,
            candidates,
        ) && (match out {
            Err(e) => r == Err::<Vec<SearchResult>, SearchError>(SearchError::Rerank(e)),
            Ok(ranking) => exists|ranked: Result<Vec<Hit>, SearchError>| #[trigger]
                reranked(candidates, ranking@, ranked) && (match ranked {
                    Err(e) => r == Err::<Vec<SearchResult>, SearchError>(e),
                    Ok(list) => r is Ok && shows_all(
                        records,
                        final_hits(records, list@, p),
                        r->Ok_0@,
                    ),
                }),
        });
    let (got, owed) = (text::texts(docs@), candidate_texts(records, candidates));
    assert(got.len() == docs@.len() && owed.len() == candidates.len());
    assert forall|i: int| 0 <= i < candidates.len() implies (#[trigger] docs@[i])@
        == records[candidates[i].idx as int].text@ by {
        assert(got[i] == owed[i]);
    }
    *docs
}

/// A result tells of its hit what the record says, with the hit's score: where it stands,
/// what it is called, where it comes from, and its whole text.
pub proof fn results_tell_what_records_say(
    records: Seq<Record>,
    hits: Seq<Hit>,
    results: Seq<SearchResult>,
    i: int,
)
    requires
        shows_all(records, hits, results),
        0 <= i < results.len(),
    ensures
        results.len() == hits.len(),
        results[i].score == hits[i].score,
        ({
            let (r, x) = (records[hits[i].idx as int], results[i]);
            &&& x.file@ == r.file@ && x.lang@ == r.lang@ && x.chunk_id@ == r.chunk_id@
            &&& x.lines@.len() == 2 && x.lines@[0] == r.start_line && x.lines@[1] == r.end_line
            &&& x.symbol == r.symbol && x.kind == r.kind && x.headings@ == r.headings@
            &&& x.source == r.source && x.corpus_source == r.corpus_source && x.fetched == r.fetched
            &&& x.snippet@ == r.text@
        }),
{
}

/// The results of a ranking: the first of the candidates whose score is good enough and
/// whose file has not yet given its share, in their order, and no others. The share is
/// counted before any are left off at the end.
pub proof fn selections_leave_out_for_a_reason(
    index: &Index,
    ranked: &Vec<Hit>,
    p: &SearchParams,
    r: Vec<SearchResult>,
) -> (at: Seq<int>)
    requires
        call_ensures(select_results, (index, ranked, p), r),
        forall|i: int|
            0 <= i < ranked@.len() ==> (#[trigger] ranked@[i]).idx < index.records@.len(),
    ensures
        taken_for_a_reason(index.records@, ranked@, *p, at),
        r@.len() == at.len(),
        forall|j: int|
            0 <= j < at.len() ==> {
                let (x, h) = (#[trigger] r@[j], ranked@[at[j]]);
                let record = index.records@[h.idx as int];
                &&& x.score == h.score
                &&& x.chunk_id@ == record.chunk_id@ && x.file@ == record.file@
                &&& x.lines@[0] == record.start_line && x.lines@[1] == record.end_line
                &&& x.snippet@ == record.text@
            },
{
    let hits = final_hits(index.records@, ranked@, *p);
    let at = candidates_are_left_out_for_a_reason(index.records@, ranked@, *p);
    assert(hits.len() == at.len());
    assert forall|j: int| 0 <= j < at.len() implies {
        let (x, h) = (#[trigger] r@[j], ranked@[at[j]]);
        let record = index.records@[h.idx as int];
        &&& x.score == h.score
        &&& x.chunk_id@ == record.chunk_id@ && x.file@ == record.file@
        &&& x.lines@[0] == record.start_line && x.lines@[1] == record.end_line
        &&& x.snippet@ == record.text@
    } by {
        assert(hits[j] == ranked@[at[j]]);
        results_tell_what_records_say(index.records@, hits, r@, j);
    }
    at
}

/// A filter tells exactly what is asked for, a threshold of zero lets all scores pass and
/// any other those that are no less, and a ranking stands for the candidates at its
/// positions.
pub proof fn filters_and_thresholds(
    record: &Record,
    p: &SearchParams,
    admitted: bool,
    score: FloatBits,
    least: FloatBits,
    enough: bool,
    candidates: &Vec<Hit>,
    ranking: &Vec<Hit>,
    r: Result<Vec<Hit>, SearchError>,
)
    requires
        call_ensures(passes_filters, (record, p), admitted),
        call_ensures(passes_min_score, (score, least), enough),
        call_ensures(apply_ranking, (candidates, ranking), r),
    ensures
        admitted == asked_for(*record, *p),
        enough <==> least.bits % 0x8000_0000 == 0 || score.at_least(least),
        r is Ok <==> forall|i: int|
            0 <= i < ranking@.len() ==> (#[trigger] ranking@[i]).idx < candidates@.len(),
        r is Ok ==> r->Ok_0@.len() == ranking@.len() && forall|i: int|
            0 <= i < ranking@.len() ==> {
                let h = #[trigger] r->Ok_0@[i];
                h.idx == candidates@[ranking@[i].idx as int].idx && h.score == ranking@[i].score
            },
{
    filters_admit_what_is_asked_for(*record, *p);
    rerankings_name_positions(candidates@, ranking@, r);
}

/// Candidates are reranked only where that is asked for and there is a reranker: else the
/// results are chosen from the candidates as they are, whatever a reranker would say.
pub proof fn reranking_is_asked_for<K: FnOnce(&String, &Vec<String>) -> Result<Vec<Hit>, String>>(
    records: Seq<Record>,
    candidates: Seq<Hit>,
    p: SearchParams,
    rerank: Option<K>,
    other: Option<K>,
    r: Result<Vec<SearchResult>, SearchError>,
)
    ensures
        !p.rerank ==> ranked_results(records, candidates, p, rerank, r) == ranked_results(
            records,
            candidates,
            p,
            other,
            r,
        ),
        (!p.rerank || rerank is None) && ranked_results(records, candidates, p, rerank, r) ==> r is Ok
            && shows_all(records, final_hits(records, candidates, p), r->Ok_0@),
        p.rerank && rerank is Some && ranked_results(records, candidates, p, rerank, r) && (forall|
            docs: &Vec<String>,
            out: Result<Vec<Hit>, String>,
        | #[trigger] rerank->0.ensures((&p.query, docs), out) ==> out is Err) ==> r is Err,
{
}

/// A query of another dimension than the index is an error that names both.
pub proof fn dimensions_have_to_agree<D: FnOnce(&Vec<usize>, &Vec<FloatBits>) -> Vec<FloatBits>>(
    index: Index,
    p: SearchParams,
    query: &Vec<FloatBits>,
    dot: D,
    r: Result<Vec<Hit>, SearchError>,
)
    requires
        dense_scan(index, p, query, dot, r),
        query@.len() != index.dim,
        query@.len() <= usize::MAX,
    ensures
        r is Err,
        r->Err_0 matches SearchError::Scan(ScanError::QueryDimension { query: got, index: dim })
            && got == query@.len() && dim == index.dim,
{
}

} // verus!
