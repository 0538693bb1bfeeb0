//! The index: stored chunks with their vectors, the checks that guard it, the
//! frame of its file, and the look-ups that need no model.

use crate::float::FloatBits;
use crate::hashes::FileHashes;
use crate::order;
use crate::path;
use crate::text;
use vstd::hash_map::StringHashMap;
use vstd::hash_set::StringHashSet;
use vstd::prelude::*;

verus! {

/// Version of the stored layout. It stands in the file header, so that another
/// layout is refused before any record is decoded.
pub const INDEX_SCHEMA_VERSION: u32 = 4;

/// Length of the file header: magic, schema version and scratch bound.
pub const INDEX_HEADER_LEN: u64 = 20;

/// One stored chunk: where it comes from, its structure, its text, and its
/// normalized embedding.
#[derive(Debug, Clone)]
pub struct Record {
    pub file: String,
    pub lang: String,
    pub start_line: usize,
    pub end_line: usize,
    /// Public identifier, for `get` and for telling chunks apart.
    pub chunk_id: String,
    pub symbol: Option<String>,
    pub kind: Option<String>,
    pub parent: Option<String>,
    pub signature: Option<String>,
    /// Markdown heading breadcrumb, for prose.
    pub headings: Vec<String>,
    /// Origin URL, corpus URL and fetch time of a web document.
    pub source: Option<String>,
    pub corpus_source: Option<String>,
    pub fetched: Option<String>,
    /// Key of the vector in the embedding cache.
    pub embedding_key: u64,
    pub text: String,
    pub vector: Vec<FloatBits>,
}

/// The whole index: metadata, content hashes by file, and the records.
pub struct Index {
    pub schema_version: u32,
    pub ingest_fingerprint: u64,
    pub model: String,
    pub dim: usize,
    pub file_hashes: FileHashes,
    pub records: Vec<Record>,
}

/// One web document set of the index.
#[derive(Debug, Clone)]
pub struct CatalogEntry {
    pub source: String,
    pub corpus_source: Option<String>,
    pub fetched: Option<String>,
    pub files: usize,
    pub chunks: usize,
}

/// A record's position with its score.
#[derive(Debug, Clone, Copy, PartialEq, Eq, Structural)]
pub struct Hit {
    pub idx: usize,
    pub score: FloatBits,
}

/// What is wrong with an index. Records are given by position.
#[derive(Debug, Clone, Copy, PartialEq, Eq, Structural)]
pub enum IndexFault {
    Schema { found: u32 },
    ZeroDimension,
    VectorLength { record: usize },
    NonFinite { record: usize },
    NoFileHash { record: usize },
    DuplicateId { record: usize },
}

/// What is wrong with a file header.
#[derive(Debug, Clone, Copy, PartialEq, Eq, Structural)]
pub enum HeaderFault {
    Truncated,
    NotAnIndex,
    Schema { found: u32 },
    ScratchTooWide,
    InvalidScratch,
}

/// Why an index could not be loaded.
#[derive(Debug)]
pub enum LoadError {
    Header(HeaderFault),
    Decode(String),
    TrailingData,
    /// The index is not valid; the message names what is wrong with it.
    Invalid { fault: IndexFault, message: String },
}

/// Why an index could not be saved.
#[derive(Debug)]
pub enum SaveError {
    /// The index is not valid; the message names what is wrong with it.
    Invalid { fault: IndexFault, message: String },
    Write(String),
}

/// Why a vector search could not run.
#[derive(Debug, Clone, Copy, PartialEq, Eq, Structural)]
pub enum ScanError {
    QueryDimension { query: usize, index: usize },
    ScoreCount { scores: usize, records: usize },
}

// ---------------------------------------------------------------------------
// Ranking
// ---------------------------------------------------------------------------

/// Sort key of a hit: the larger score first, then the smaller position.
pub open spec fn hit_key(h: Hit) -> Seq<u64> {
    seq![(0xffff_ffff - h.score.total_rank()) as u64, h.idx as u64]
}

pub open spec fn hit_keys(hits: Seq<Hit>) -> Seq<Seq<u64>> {
    hits.map_values(|h: Hit| hit_key(h))
}

/// Whether `out` holds the best `n` of `hits`, best first.
pub open spec fn is_ranking(hits: Seq<Hit>, n: nat, out: Seq<Hit>) -> bool {
    exists|p: Seq<usize>| #[trigger] picks_best(hits, n, p, out)
}

/// Whether `out` lists the first `n` hits in the order `p`.
pub open spec fn picks_best(hits: Seq<Hit>, n: nat, p: Seq<usize>, out: Seq<Hit>) -> bool {
    &&& order::sorts(hit_keys(hits), p)
    &&& out.len() == if n < hits.len() {
        n
    } else {
        hits.len()
    }
    &&& forall|i: int| 0 <= i < out.len() ==> #[trigger] out[i] == hits[p[i] as int]
}

/// The best `n` hits, best first: by descending score in the total order of
/// numbers, equal scores by position.
pub fn rank_hits(hits: &Vec<Hit>, n: usize) -> (r: Vec<Hit>)
    ensures
        is_ranking(hits@, n as nat, r@),
{
    let mut keys: Vec<Vec<u64>> = Vec::new();
    let mut i: usize = 0;
    while i < hits.len()
        invariant
            i <= hits.len(),
            keys.len() == i,
            forall|j: int| 0 <= j < i ==> (#[trigger] keys@[j])@ == hit_key(hits@[j]),
        decreases hits.len() - i,
    {
        let h = hits[i];
        let mut key: Vec<u64> = Vec::new();
        let rank = h.score.total_order();
        key.push(0xffff_ffff - (rank as u64));
        key.push(h.idx as u64);
        assert(key@ =~= hit_key(h));
        keys.push(key);
        i += 1;
    }
    let p = order::sort_order(&keys);
    assert(order::key_views(keys@) =~= hit_keys(hits@));
    let mut out: Vec<Hit> = Vec::new();
    let mut k: usize = 0;
    while k < hits.len() && k < n
        invariant
            order::sorts(hit_keys(hits@), p@),
            k <= hits.len(),
            k <= n,
            out.len() == k,
            forall|j: int| 0 <= j < k ==> #[trigger] out@[j] == hits@[p@[j] as int],
        decreases hits.len() - k,
    {
        out.push(hits[p[k]]);
        k += 1;
    }
    assert(picks_best(hits@, n as nat, p@, out@));
    out
}

pub proof fn lemma_hit_key_order(a: Hit, b: Hit)
    ensures
        order::lex_less(hit_key(a), hit_key(b)) <==> (a.score.total_rank() > b.score.total_rank()
            || (a.score.total_rank() == b.score.total_rank() && a.idx < b.idx)),
        hit_key(a) == hit_key(b) <==> (a.score.total_rank() == b.score.total_rank() && a.idx
            == b.idx),
{
    reveal_with_fuel(order::lex_less, 3);
    let x = hit_key(a);
    let y = hit_key(b);
    assert(x.drop_first()[0] == a.idx);
    assert(y.drop_first()[0] == b.idx);
    assert(x.drop_first().drop_first().len() == 0);
    assert(y.drop_first().drop_first().len() == 0);
    if a.score.total_rank() == b.score.total_rank() && a.idx == b.idx {
        assert(x =~= y);
    }
    if x == y {
        assert(x[0] == y[0] && x[1] == y[1]);
    }
}

/// A ranking keeps the best: it holds as many hits as asked for or all there are,
/// only given hits, in descending order of score with ties by position, and no
/// hit that was left out scores higher than one that was kept.
pub proof fn ranking_keeps_the_best(hits: Seq<Hit>, n: nat, out: Seq<Hit>)
    requires
        is_ranking(hits, n, out),
    ensures
        out.len() == if n < hits.len() {
            n
        } else {
            hits.len()
        },
        forall|i: int| 0 <= i < out.len() ==> hits.contains(#[trigger] out[i]),
        forall|i: int, j: int|
            0 <= i < j < out.len() ==> {
                ||| (#[trigger] out[i]).score.total_rank() > (#[trigger] out[j]).score.total_rank()
                ||| (out[i].score == out[j].score && out[i].idx <= out[j].idx)
            },
        forall|k: int, i: int|
            0 <= k < hits.len() && 0 <= i < out.len() && !out.contains(#[trigger] hits[k])
                ==> hits[k].score.total_rank() <= (#[trigger] out[i]).score.total_rank(),
{
    let p = choose|p: Seq<usize>| #[trigger] picks_best(hits, n, p, out);
    let keys = hit_keys(hits);
    assert forall|i: int, j: int| 0 <= i < j < out.len() implies {
        ||| (#[trigger] out[i]).score.total_rank() > (#[trigger] out[j]).score.total_rank()
        ||| (out[i].score == out[j].score && out[i].idx <= out[j].idx)
    } by {
        assert(order::before(keys, p[i] as int, p[j] as int));
        lemma_hit_key_order(out[i], out[j]);
        crate::float::total_order_extends_value_order(out[i].score, out[j].score);
        assert(keys[p[i] as int] == hit_key(out[i]));
        assert(keys[p[j] as int] == hit_key(out[j]));
    }
    assert forall|i: int| 0 <= i < out.len() implies hits.contains(#[trigger] out[i]) by {
        assert(hits[p[i] as int] == out[i]);
    }
    assert forall|k: int, i: int|
        0 <= k < hits.len() && 0 <= i < out.len() && !out.contains(
            #[trigger] hits[k],
        ) implies hits[k].score.total_rank() <= (#[trigger] out[i]).score.total_rank() by {
        order::lemma_sorts_all(keys, p, k);
        let m = choose|m: int| 0 <= m < p.len() && #[trigger] p[m] == k;
        if m < out.len() {
            assert(out[m] == hits[k]);
            assert(out.contains(hits[k]));
        }
        assert(order::before(keys, p[i] as int, p[m] as int));
        lemma_hit_key_order(out[i], hits[k]);
        assert(keys[p[i] as int] == hit_key(out[i]));
        assert(keys[k] == hit_key(hits[k]));
    }
}

/// Whether hits name different records.
pub open spec fn distinct_ids(hits: Seq<Hit>) -> bool {
    forall|i: int, j: int|
        0 <= i < j < hits.len() ==> (#[trigger] hits[i]).idx != (#[trigger] hits[j]).idx
}

/// Whether each hit is better than those after it.
spec fn ascending(list: Seq<Hit>) -> bool {
    forall|i: int, j: int|
        0 <= i < j < list.len() ==> order::lex_less(
            hit_key(#[trigger] list[i]),
            hit_key(#[trigger] list[j]),
        )
}

/// A ranking is the start of the ranking of all hits.
proof fn lemma_full_ranking(hits: Seq<Hit>, n: nat, out: Seq<Hit>) -> (full: Seq<Hit>)
    requires
        is_ranking(hits, n, out),
        distinct_ids(hits),
    ensures
        ascending(full),
        full.len() == hits.len(),
        out.len() <= full.len(),
        out == full.take(out.len() as int),
        forall|h: Hit| #[trigger] full.contains(h) <==> hits.contains(h),
{
    let p = choose|p: Seq<usize>| #[trigger] picks_best(hits, n, p, out);
    let keys = hit_keys(hits);
    let full = Seq::new(hits.len(), |i: int| hits[p[i] as int]);
    order::lemma_sorts_distinct(keys, p);
    assert forall|i: int, j: int| 0 <= i < j < full.len() implies order::lex_less(
        hit_key(#[trigger] full[i]),
        hit_key(#[trigger] full[j]),
    ) by {
        assert(order::before(keys, p[i] as int, p[j] as int));
        assert(p[i] != p[j]);
        assert(hits[p[i] as int].idx != hits[p[j] as int].idx);
        lemma_hit_key_order(full[i], full[j]);
        assert(keys[p[i] as int] == hit_key(full[i]));
        assert(keys[p[j] as int] == hit_key(full[j]));
    }
    assert forall|h: Hit| #[trigger] full.contains(h) <==> hits.contains(h) by {
        if full.contains(h) {
            let i = choose|i: int| 0 <= i < full.len() && full[i] == h;
            assert(hits[p[i] as int] == h);
        }
        if hits.contains(h) {
            let k = choose|k: int| 0 <= k < hits.len() && hits[k] == h;
            order::lemma_sorts_all(keys, p, k);
            let i = choose|i: int| 0 <= i < p.len() && #[trigger] p[i] == k;
            assert(full[i] == h);
        }
    }
    assert(out =~= full.take(out.len() as int));
    full
}

/// What is listed in ascending order is determined by what is listed.
proof fn lemma_ascending_same(x: Seq<Hit>, y: Seq<Hit>)
    requires
        ascending(x),
        ascending(y),
        forall|h: Hit| #[trigger] x.contains(h) <==> y.contains(h),
    ensures
        x == y,
    decreases x.len(),
{
    if x.len() == 0 {
        if y.len() > 0 {
            assert(y.contains(y[0]));
            assert(x.contains(y[0]));
        }
        assert(x =~= y);
    } else {
        assert(x.contains(x[0]));
        assert(y.contains(x[0]));
        let a = x.last();
        let b = y.last();
        assert(x.contains(x[x.len() - 1]));
        assert(y.contains(y[y.len() - 1]));
        assert(y.contains(a));
        assert(x.contains(b));
        let j = choose|j: int| 0 <= j < y.len() && y[j] == a;
        let i = choose|i: int| 0 <= i < x.len() && x[i] == b;
        if j < y.len() - 1 && i < x.len() - 1 {
            assert(order::lex_less(hit_key(y[j]), hit_key(y[y.len() - 1])));
            assert(order::lex_less(hit_key(x[i]), hit_key(x[x.len() - 1])));
            order::lemma_lex_asymmetric(hit_key(a), hit_key(b));
        }
        assert(a == b);
        let s = x.drop_last();
        let t = y.drop_last();
        assert forall|h: Hit| #[trigger] s.contains(h) <==> t.contains(h) by {
            order::lemma_lex_irreflexive(hit_key(h));
            if s.contains(h) {
                let k = choose|k: int| 0 <= k < s.len() && s[k] == h;
                assert(x[k] == h);
                assert(x.contains(h));
                assert(order::lex_less(hit_key(x[k]), hit_key(x[x.len() - 1])));
                let m = choose|m: int| 0 <= m < y.len() && y[m] == h;
                assert(t[m] == h);
            }
            if t.contains(h) {
                let k = choose|k: int| 0 <= k < t.len() && t[k] == h;
                assert(y[k] == h);
                assert(y.contains(h));
                assert(order::lex_less(hit_key(y[k]), hit_key(y[y.len() - 1])));
                assert(x.contains(h));
                let m = choose|m: int| 0 <= m < x.len() && x[m] == h;
                assert(s[m] == h);
            }
        }
        lemma_ascending_same(s, t);
        assert(x =~= s.push(a));
        assert(y =~= t.push(b));
    }
}

proof fn lemma_filter_ascending(x: Seq<Hit>, keep: spec_fn(Hit) -> bool)
    requires
        ascending(x),
    ensures
        ascending(x.filter(keep)),
        forall|h: Hit| #[trigger] x.filter(keep).contains(h) <==> x.contains(h) && keep(h),
    decreases x.len(),
{
    reveal(Seq::filter);
    if x.len() > 0 {
        let s = x.drop_last();
        let rest = s.filter(keep);
        let all = x.filter(keep);
        lemma_filter_ascending(s, keep);
        assert forall|h: Hit| #[trigger] all.contains(h) <==> x.contains(h) && keep(h) by {
            if all.contains(h) {
                let k = choose|k: int| 0 <= k < all.len() && all[k] == h;
                if k < rest.len() {
                    assert(rest[k] == h);
                    assert(rest.contains(h));
                    let m = choose|m: int| 0 <= m < s.len() && s[m] == h;
                    assert(x[m] == h);
                } else {
                    assert(x[x.len() - 1] == h);
                }
            }
            if x.contains(h) && keep(h) {
                let k = choose|k: int| 0 <= k < x.len() && x[k] == h;
                if k < s.len() {
                    assert(s[k] == h);
                    assert(rest.contains(h));
                    let m = choose|m: int| 0 <= m < rest.len() && rest[m] == h;
                    assert(all[m] == h);
                } else {
                    assert(all[all.len() - 1] == h);
                }
            }
        }
        assert forall|i: int, j: int| 0 <= i < j < all.len() implies order::lex_less(
            hit_key(#[trigger] all[i]),
            hit_key(#[trigger] all[j]),
        ) by {
            assert(all[i] == rest[i]);
            if j < rest.len() {
                assert(all[j] == rest[j]);
            } else {
                assert(rest.contains(rest[i]));
                let k = choose|k: int| 0 <= k < s.len() && s[k] == rest[i];
                assert(x[k] == rest[i]);
                assert(all[j] == x[x.len() - 1]);
            }
        }
    } else {
        assert(x.filter(keep) =~= x);
    }
}

/// Rankings of the same hits agree, whatever order the hits came in: the shorter one is
/// the start of the longer.
pub proof fn shorter_ranking_is_a_start(a: Seq<Hit>, n: nat, x: Seq<Hit>, b: Seq<Hit>, m: nat, y: Seq<Hit>)
    requires
        is_ranking(a, n, x),
        is_ranking(b, m, y),
        distinct_ids(a),
        distinct_ids(b),
        forall|h: Hit| #[trigger] a.contains(h) <==> b.contains(h),
        n <= m,
    ensures
        x.len() == if n < y.len() {
            n
        } else {
            y.len()
        },
        x == y.take(x.len() as int),
{
    let full = lemma_full_ranking(a, n, x);
    let same = lemma_full_ranking(b, m, y);
    assert forall|h: Hit| #[trigger] full.contains(h) <==> same.contains(h) by {
        assert(a.contains(h) <==> b.contains(h));
    }
    lemma_ascending_same(full, same);
    ranking_keeps_the_best(a, n, x);
    ranking_keeps_the_best(b, m, y);
    assert(x =~= y.take(x.len() as int));
}

/// Ranking the hits that `keep` accepts is dropping the others from the ranking of all.
pub proof fn ranking_a_part_drops_the_rest(
    a: Seq<Hit>,
    n: nat,
    x: Seq<Hit>,
    b: Seq<Hit>,
    m: nat,
    y: Seq<Hit>,
    keep: spec_fn(Hit) -> bool,
)
    requires
        is_ranking(a, n, x),
        is_ranking(b, m, y),
        distinct_ids(a),
        distinct_ids(b),
        forall|h: Hit| #[trigger] a.contains(h) <==> b.contains(h) && keep(h),
        b.len() <= m,
    ensures
        x.len() == if n < y.filter(keep).len() {
            n
        } else {
            y.filter(keep).len()
        },
        x == y.filter(keep).take(x.len() as int),
{
    let full = lemma_full_ranking(a, n, x);
    let whole = lemma_full_ranking(b, m, y);
    ranking_keeps_the_best(a, n, x);
    ranking_keeps_the_best(b, m, y);
    assert(y =~= whole);
    lemma_filter_ascending(whole, keep);
    assert forall|h: Hit| #[trigger] full.contains(h) <==> whole.filter(keep).contains(h) by {
        assert(a.contains(h) <==> b.contains(h) && keep(h));
        assert(whole.contains(h) <==> b.contains(h));
    }
    lemma_ascending_same(full, whole.filter(keep));
}

// ---------------------------------------------------------------------------
// File header
// ---------------------------------------------------------------------------

/// The first bytes of every index file.
pub open spec fn index_magic() -> Seq<u8> {
    seq![82u8, 65, 71, 66, 79, 78, 69, 0]
}

/// The `n` low bytes of a number, least significant first.
pub open spec fn le_bytes(v: nat, n: nat) -> Seq<u8>
    decreases n,
{
    if n == 0 {
        seq![]
    } else {
        seq![(v % 256) as u8] + le_bytes(v / 256, (n - 1) as nat)
    }
}

/// The number whose bytes these are, least significant first.
pub open spec fn from_le(b: Seq<u8>) -> nat
    decreases b.len(),
{
    if b.len() == 0 {
        0
    } else {
        b[0] as nat + 256 * from_le(b.drop_first())
    }
}

/// The header of an index file.
pub open spec fn header_bytes(schema: u32, scratch: u64) -> Seq<u8> {
    index_magic() + le_bytes(schema as nat, 4) + le_bytes(scratch as nat, 8)
}

/// What the start of a file of `file_len` bytes says: the scratch bound, or the
/// first thing that is wrong with it.
pub open spec fn header_outcome(start: Seq<u8>, file_len: u64) -> Result<usize, HeaderFault> {
    let schema = from_le(start.subrange(8, 12));
    let scratch = from_le(start.subrange(12, 20));
    let body = if file_len < INDEX_HEADER_LEN {
        0
    } else {
        file_len - INDEX_HEADER_LEN
    };
    if start.len() < 8 {
        Err(HeaderFault::Truncated)
    } else if start.take(8) != index_magic() {
        Err(HeaderFault::NotAnIndex)
    } else if start.len() < 12 {
        Err(HeaderFault::Truncated)
    } else if schema != INDEX_SCHEMA_VERSION {
        Err(HeaderFault::Schema { found: schema as u32 })
    } else if start.len() < 20 {
        Err(HeaderFault::Truncated)
    } else if scratch > usize::MAX {
        Err(HeaderFault::ScratchTooWide)
    } else if scratch == 0 || scratch > body {
        Err(HeaderFault::InvalidScratch)
    } else {
        Ok(scratch as usize)
    }
}

pub(crate) fn push_le(out: &mut Vec<u8>, v: u64, n: usize)
    ensures
        final(out)@ == old(out)@ + le_bytes(v as nat, n as nat),
    decreases n,
{
    if n > 0 {
        out.push((v % 256) as u8);
        push_le(out, v / 256, n - 1);
    }
    assert(out@ =~= old(out)@ + le_bytes(v as nat, n as nat));
}

/// The header that an index with this scratch bound is stored under.
pub fn encode_header(scratch: usize) -> (r: Vec<u8>)
    ensures
        r@ == header_bytes(INDEX_SCHEMA_VERSION, scratch as u64),
{
    let mut out: Vec<u8> = vec![82, 65, 71, 66, 79, 78, 69, 0];
    assert(out@ =~= index_magic());
    push_le(&mut out, INDEX_SCHEMA_VERSION as u64, 4);
    push_le(&mut out, scratch as u64, 8);
    out
}

/// `256` to the power of `n`.
spec fn byte_pow(n: nat) -> nat
    decreases n,
{
    if n == 0 {
        1
    } else {
        256 * byte_pow((n - 1) as nat)
    }
}

proof fn lemma_from_le_bound(b: Seq<u8>)
    ensures
        from_le(b) < byte_pow(b.len()),
    decreases b.len(),
{
    if b.len() > 0 {
        lemma_from_le_bound(b.drop_first());
    }
}

fn read_le(b: &Vec<u8>, lo: usize, hi: usize) -> (r: u64)
    requires
        lo <= hi <= b.len(),
        hi - lo <= 8,
    ensures
        r == from_le(b@.subrange(lo as int, hi as int)),
    decreases hi - lo,
{
    let ghost part = b@.subrange(lo as int, hi as int);
    proof {
        lemma_from_le_bound(part);
        reveal_with_fuel(byte_pow, 9);
    }
    if lo == hi {
        0
    } else {
        let rest = read_le(b, lo + 1, hi);
        assert(part.drop_first() =~= b@.subrange(lo + 1, hi as int));
        assert(part[0] == b@[lo as int]);
        (b[lo] as u64) + 256 * rest
    }
}

/// Reads the start of an index file of `file_len` bytes.
pub fn decode_header(start: &Vec<u8>, file_len: u64) -> (r: Result<usize, HeaderFault>)
    ensures
        r == header_outcome(start@, file_len),
{
    if start.len() < 8 {
        return Err(HeaderFault::Truncated);
    }
    let magic: Vec<u8> = vec![82, 65, 71, 66, 79, 78, 69, 0];
    assert(magic@ =~= index_magic());
    let mut i: usize = 0;
    while i < 8
        invariant
            i <= 8,
            start.len() >= 8,
            magic@ == index_magic(),
            forall|j: int| 0 <= j < i ==> start@[j] == magic@[j],
        decreases 8 - i,
    {
        if start[i] != magic[i] {
            assert(start@.take(8)[i as int] != index_magic()[i as int]);
            return Err(HeaderFault::NotAnIndex);
        }
        i += 1;
    }
    assert(start@.take(8) =~= index_magic());
    if start.len() < 12 {
        return Err(HeaderFault::Truncated);
    }
    let schema = read_le(start, 8, 12);
    proof {
        lemma_from_le_bound(start@.subrange(8, 12));
        reveal_with_fuel(byte_pow, 9);
    }
    if schema != INDEX_SCHEMA_VERSION as u64 {
        return Err(HeaderFault::Schema { found: schema as u32 });
    }
    if start.len() < 20 {
        return Err(HeaderFault::Truncated);
    }
    let scratch = read_le(start, 12, 20);
    if scratch > usize::MAX as u64 {
        return Err(HeaderFault::ScratchTooWide);
    }
    let body = if file_len < INDEX_HEADER_LEN {
        0
    } else {
        file_len - INDEX_HEADER_LEN
    };
    if scratch == 0 || scratch > body {
        return Err(HeaderFault::InvalidScratch);
    }
    Ok(scratch as usize)
}

proof fn lemma_le_roundtrip(v: nat, n: nat)
    requires
        v < byte_pow(n),
    ensures
        le_bytes(v, n).len() == n,
        from_le(le_bytes(v, n)) == v,
    decreases n,
{
    if n > 0 {
        assert(v / 256 < byte_pow((n - 1) as nat));
        lemma_le_roundtrip(v / 256, (n - 1) as nat);
        assert(le_bytes(v, n).drop_first() =~= le_bytes(v / 256, (n - 1) as nat));
    }
}

/// A header reads back: a file that starts with the header of a scratch bound,
/// and whose body is at least that long, gives the bound.
pub proof fn header_reads_back(scratch: usize, start: Seq<u8>, file_len: u64)
    requires
        scratch > 0,
        start.len() >= 20,
        start.take(20) == header_bytes(INDEX_SCHEMA_VERSION, scratch as u64),
        file_len >= INDEX_HEADER_LEN + scratch,
    ensures
        header_outcome(start, file_len) == Ok::<usize, HeaderFault>(scratch),
{
    reveal_with_fuel(byte_pow, 9);
    lemma_le_roundtrip(INDEX_SCHEMA_VERSION as nat, 4);
    lemma_le_roundtrip(scratch as nat, 8);
    let h = header_bytes(INDEX_SCHEMA_VERSION, scratch as u64);
    assert(start.take(8) =~= h.take(8));
    assert(h.take(8) =~= index_magic());
    assert(start.subrange(8, 12) =~= h.subrange(8, 12));
    assert(h.subrange(8, 12) =~= le_bytes(INDEX_SCHEMA_VERSION as nat, 4));
    assert(start.subrange(12, 20) =~= h.subrange(12, 20));
    assert(h.subrange(12, 20) =~= le_bytes(scratch as nat, 8));
}

/// Another layout version is always refused with that version, before the rest
/// of the header or the body is looked at.
pub proof fn other_schema_is_refused(schema: u32, scratch: u64, tail: Seq<u8>, file_len: u64)
    requires
        schema != INDEX_SCHEMA_VERSION,
    ensures
        header_outcome(header_bytes(schema, scratch) + tail, file_len) == Err::<usize, HeaderFault>(
            HeaderFault::Schema { found: schema },
        ),
{
    reveal_with_fuel(byte_pow, 9);
    lemma_le_roundtrip(schema as nat, 4);
    lemma_le_roundtrip(scratch as nat, 8);
    let start = header_bytes(schema, scratch) + tail;
    assert(start.take(8) =~= index_magic());
    assert(start.subrange(8, 12) =~= le_bytes(schema as nat, 4));
}

// ---------------------------------------------------------------------------
// Validity
// ---------------------------------------------------------------------------

/// Whether every component of a vector is a finite number.
pub open spec fn all_finite(v: Seq<FloatBits>) -> bool {
    forall|i: int| 0 <= i < v.len() ==> (#[trigger] v[i]).finite()
}

/// Whether an earlier record carries the id of the record at `i`.
pub open spec fn id_taken(records: Seq<Record>, i: int) -> bool {
    exists|j: int| 0 <= j < i && (#[trigger] records[j]).chunk_id@ == records[i].chunk_id@
}

impl Index {
    /// The first thing that is wrong with the record at `i`.
    pub open spec fn record_fault(self, i: int) -> Option<IndexFault> {
        let r = self.records@[i];
        if r.vector@.len() != self.dim {
            Some(IndexFault::VectorLength { record: i as usize })
        } else if !all_finite(r.vector@) {
            Some(IndexFault::NonFinite { record: i as usize })
        } else if !self.file_hashes@.contains_key(path::canonical(r.file@)) {
            Some(IndexFault::NoFileHash { record: i as usize })
        } else if id_taken(self.records@, i) {
            Some(IndexFault::DuplicateId { record: i as usize })
        } else {
            None
        }
    }

    /// Whether the first `n` records are in order.
    pub open spec fn sound_upto(self, n: int) -> bool {
        &&& self.schema_version == INDEX_SCHEMA_VERSION
        &&& self.dim > 0
        &&& forall|i: int| 0 <= i < n ==> #[trigger] self.record_fault(i) is None
    }

    /// An index that may be stored: the current layout, a positive dimension,
    /// vectors of that dimension with finite numbers, a hash for every file, and
    /// no id twice.
    pub open spec fn valid(self) -> bool {
        self.sound_upto(self.records@.len() as int)
    }

    /// Whether `fault` is the first thing wrong with the index.
    pub open spec fn first_fault(self, fault: IndexFault) -> bool {
        if self.schema_version != INDEX_SCHEMA_VERSION {
            fault == (IndexFault::Schema { found: self.schema_version })
        } else if self.dim == 0 {
            fault == IndexFault::ZeroDimension
        } else {
            exists|i: int|
                0 <= i < self.records@.len() && self.sound_upto(i) && #[trigger] self.record_fault(
                    i,
                ) == Some(fault)
        }
    }

    /// An empty index in the current layout.
    pub fn new(model: String, dim: usize, ingest_fingerprint: u64) -> (r: Self)
        ensures
            r.schema_version == INDEX_SCHEMA_VERSION,
            r.ingest_fingerprint == ingest_fingerprint,
            r.model == model,
            r.dim == dim,
            r.file_hashes@ == Map::<Seq<char>, u64>::empty(),
            r.file_hashes.path_texts() == Seq::<String>::empty(),
            r.records@ == Seq::<Record>::empty(),
    {
        Index {
            schema_version: INDEX_SCHEMA_VERSION,
            ingest_fingerprint,
            model,
            dim,
            file_hashes: FileHashes::new(),
            records: Vec::new(),
        }
    }

    pub fn len(&self) -> (r: usize)
        ensures
            r == self.records@.len(),
    {
        self.records.len()
    }

    pub fn is_empty(&self) -> (r: bool)
        ensures
            r == (self.records@.len() == 0),
    {
        self.records.len() == 0
    }

    /// Number of distinct indexed files.
    pub fn file_count(&self) -> (r: usize)
        ensures
            r == self.file_hashes@.len(),
    {
        self.file_hashes.len()
    }

    /// Checks everything that a stored index has to meet, and names the first fault.
    pub fn validate(&self) -> (r: Result<(), IndexFault>)
        ensures
            match r {
                Ok(_) => self.valid(),
                Err(fault) => self.first_fault(fault),
            },
    {
        if self.schema_version != INDEX_SCHEMA_VERSION {
            return Err(IndexFault::Schema { found: self.schema_version });
        }
        if self.dim == 0 {
            return Err(IndexFault::ZeroDimension);
        }
        let mut seen = StringHashSet::new();
        let mut i: usize = 0;
        while i < self.records.len()
            invariant
                i <= self.records.len(),
                self.sound_upto(i as int),
                forall|id: Seq<char>| #[trigger]
                    seen@.contains(id) <==> exists|j: int|
                        0 <= j < i && (#[trigger] self.records@[j]).chunk_id@ == id,
            decreases self.records.len() - i,
        {
            let record = &self.records[i];
            if record.vector.len() != self.dim {
                let fault = IndexFault::VectorLength { record: i };
                assert(self.record_fault(i as int) == Some(fault));
                return Err(fault);
            }
            if !finite_vector(&record.vector) {
                let fault = IndexFault::NonFinite { record: i };
                assert(self.record_fault(i as int) == Some(fault));
                return Err(fault);
            }
            if !self.file_hashes.contains(record.file.as_str()) {
                let fault = IndexFault::NoFileHash { record: i };
                assert(self.record_fault(i as int) == Some(fault));
                return Err(fault);
            }
            let ghost before = seen@;
            let ghost id = record.chunk_id@;
            if !seen.insert(record.chunk_id.clone()) {
                let fault = IndexFault::DuplicateId { record: i };
                assert(before.contains(id));
                assert(id_taken(self.records@, i as int));
                assert(self.record_fault(i as int) == Some(fault));
                return Err(fault);
            }
            proof {
                assert(!before.contains(id));
                assert(!id_taken(self.records@, i as int));
                assert(self.record_fault(i as int) is None);
                assert forall|x: Seq<char>| #[trigger] seen@.contains(x) <==> exists|j: int|
                    0 <= j < i + 1 && (#[trigger] self.records@[j]).chunk_id@ == x by {
                    if seen@.contains(x) {
                        if x == id {
                            assert(self.records@[i as int].chunk_id@ == x);
                        } else {
                            assert(before.contains(x));
                        }
                    }
                    if exists|j: int|
                        0 <= j < i + 1 && (#[trigger] self.records@[j]).chunk_id@ == x {
                        let j = choose|j: int|
                            0 <= j < i + 1 && (#[trigger] self.records@[j]).chunk_id@ == x;
                        if j < i {
                            assert(before.contains(x));
                        }
                    }
                }
            }
            i += 1;
        }
        Ok(())
    }
}

fn finite_vector(v: &Vec<FloatBits>) -> (r: bool)
    ensures
        r == all_finite(v@),
{
    let mut i: usize = 0;
    while i < v.len()
        invariant
            i <= v.len(),
            forall|j: int| 0 <= j < i ==> (#[trigger] v@[j]).finite(),
        decreases v.len() - i,
    {
        if !v[i].is_finite() {
            assert(!v@[i as int].finite());
            return false;
        }
        i += 1;
    }
    true
}

/// A valid index has no fault, and an index with a fault is not valid.
pub proof fn valid_means_no_fault(index: Index, fault: IndexFault)
    requires
        index.first_fault(fault),
    ensures
        !index.valid(),
{
    if index.schema_version == INDEX_SCHEMA_VERSION && index.dim != 0 {
        let i = choose|i: int|
            0 <= i < index.records@.len() && index.sound_upto(i) && #[trigger] index.record_fault(
                i,
            ) == Some(fault);
        assert(index.record_fault(i) is Some);
    }
}

// ---------------------------------------------------------------------------
// Loading and saving
// ---------------------------------------------------------------------------

/// Number of bytes that a text takes in UTF-8.
pub open spec fn utf8_len(s: Seq<char>) -> nat {
    vstd::utf8::encode_utf8(s).len()
}

/// Whether an optional text takes `n` bytes.
pub open spec fn opt_has_len(o: Option<String>, n: nat) -> bool {
    match o {
        Some(s) => utf8_len(s@) == n,
        None => false,
    }
}

/// Whether one of the record's texts takes `n` bytes.
pub open spec fn record_text_len(r: Record, n: nat) -> bool {
    ||| utf8_len(r.file@) == n
    ||| utf8_len(r.lang@) == n
    ||| utf8_len(r.text@) == n
    ||| utf8_len(r.chunk_id@) == n
    ||| opt_has_len(r.symbol, n)
    ||| opt_has_len(r.kind, n)
    ||| opt_has_len(r.parent, n)
    ||| opt_has_len(r.signature, n)
    ||| exists|i: int| 0 <= i < r.headings@.len() && utf8_len(#[trigger] r.headings@[i]@) == n
    ||| opt_has_len(r.source, n)
    ||| opt_has_len(r.corpus_source, n)
    ||| opt_has_len(r.fetched, n)
}

impl Index {
    /// Whether `n` is a length that the scratch bound has to cover.
    pub open spec fn scratch_covers(self, n: nat) -> bool {
        ||| n == 8
        ||| utf8_len(self.model@) == n
        ||| exists|i: int|
            0 <= i < self.file_hashes.path_texts().len() && utf8_len(
                #[trigger] self.file_hashes.path_texts()[i]@,
            ) == n
        ||| exists|i: int|
            0 <= i < self.records@.len() && record_text_len(#[trigger] self.records@[i], n)
    }

    /// Whether `n` is the largest length that has to be covered.
    pub open spec fn is_scratch_len(self, n: nat) -> bool {
        self.scratch_covers(n) && forall|m: nat| #[trigger] self.scratch_covers(m) ==> m <= n
    }
}

fn opt_len(o: &Option<String>) -> (r: usize)
    ensures
        r == 0 || opt_has_len(*o, r as nat),
        forall|n: nat| #[trigger] opt_has_len(*o, n) ==> n <= r,
{
    match o {
        Some(s) => text::byte_len(s.as_str()),
        None => 0,
    }
}

fn longest_of(list: &Vec<String>) -> (r: usize)
    ensures
        r == 0 || exists|i: int| 0 <= i < list@.len() && utf8_len(#[trigger] list@[i]@) == r,
        forall|i: int| 0 <= i < list@.len() ==> utf8_len(#[trigger] list@[i]@) <= r,
{
    let mut best: usize = 0;
    let mut i: usize = 0;
    while i < list.len()
        invariant
            i <= list.len(),
            best == 0 || exists|j: int| 0 <= j < i && utf8_len(#[trigger] list@[j]@) == best,
            forall|j: int| 0 <= j < i ==> utf8_len(#[trigger] list@[j]@) <= best,
        decreases list.len() - i,
    {
        let n = text::byte_len(list[i].as_str());
        if n > best {
            best = n;
        }
        assert(utf8_len(list@[i as int]@) == n);
        i += 1;
    }
    best
}

fn larger(a: usize, b: usize) -> (r: usize)
    ensures
        r == if a < b {
            b
        } else {
            a
        },
{
    if a < b {
        b
    } else {
        a
    }
}

fn record_longest(r: &Record) -> (n: usize)
    ensures
        n == 0 || record_text_len(*r, n as nat),
        forall|m: nat| #[trigger] record_text_len(*r, m) ==> m <= n,
{
    let mut n = text::byte_len(r.file.as_str());
    n = larger(n, text::byte_len(r.lang.as_str()));
    n = larger(n, text::byte_len(r.text.as_str()));
    n = larger(n, text::byte_len(r.chunk_id.as_str()));
    n = larger(n, opt_len(&r.symbol));
    n = larger(n, opt_len(&r.kind));
    n = larger(n, opt_len(&r.parent));
    n = larger(n, opt_len(&r.signature));
    n = larger(n, longest_of(&r.headings));
    n = larger(n, opt_len(&r.source));
    n = larger(n, opt_len(&r.corpus_source));
    larger(n, opt_len(&r.fetched))
}

impl Index {
    /// Bytes of temporary storage that decoding needs: the length of the longest
    /// single text, and never less than a number takes.
    pub fn scratch_len(&self) -> (r: usize)
        ensures
            self.is_scratch_len(r as nat),
    {
        let mut best: usize = larger(8, text::byte_len(self.model.as_str()));
        let names = self.file_hashes.paths();
        best = larger(best, longest_of(names));
        let mut i: usize = 0;
        while i < self.records.len()
            invariant
                i <= self.records.len(),
                names@ == self.file_hashes.path_texts(),
                best >= 8,
                best >= utf8_len(self.model@),
                forall|j: int| 0 <= j < names@.len() ==> utf8_len(#[trigger] names@[j]@) <= best,
                forall|j: int, m: nat|
                    0 <= j < i && #[trigger] record_text_len(self.records@[j], m) ==> m <= best,
                self.scratch_covers(best as nat),
            decreases self.records.len() - i,
        {
            let n = record_longest(&self.records[i]);
            if n > best {
                assert(record_text_len(self.records@[i as int], n as nat));
                best = n;
            }
            i += 1;
        }
        best
    }

    /// Loads an index file of `file_len` bytes that begins with `start`. `decode`
    /// reads the body with the given scratch size, and tells whether it ended
    /// with the file. Nothing that `validate` would refuse is returned.
    pub fn load<D: FnOnce(usize) -> Result<(Index, bool), String>>(
        start: &Vec<u8>,
        file_len: u64,
        decode: D,
    ) -> (r: Result<Index, LoadError>)
        requires
            forall|n: usize|
                header_outcome(start@, file_len) == Ok::<usize, HeaderFault>(n)
                    ==> #[trigger] decode.requires((n,)),
        ensures
            match header_outcome(start@, file_len) {
                Err(fault) => r == Err::<Index, LoadError>(LoadError::Header(fault)),
                Ok(scratch) => exists|out: Result<(Index, bool), String>| #[trigger]
                    decode.ensures((scratch,), out) && loaded(out, r),
            },
    {
        let scratch = match decode_header(start, file_len) {
            Ok(n) => n,
            Err(fault) => {
                return Err(LoadError::Header(fault));
            },
        };
        let out = decode(scratch);
        let ghost given = out;
        let r = accept_decoded(out);
        assert(decode.ensures((scratch,), given) && loaded(given, r));
        r
    }

    /// Saves the index through `write`, which gets the header and the index. An
    /// index that is not valid is refused before anything is written.
    pub fn save<W: FnOnce(&Vec<u8>, &Index) -> Result<(), String>>(&self, write: W) -> (r: Result<
        (),
        SaveError,
    >)
        requires
            forall|h: &Vec<u8>|
                self.valid() && self.has_header(h@) ==> #[trigger] write.requires((h, self)),
        ensures
            match r {
                Err(SaveError::Invalid { fault, message }) => self.first_fault(fault) && message@
                    == fault.text(*self),
                Err(SaveError::Write(e)) => self.valid() && self.written_by(write, Err(e)),
                Ok(_) => self.valid() && self.written_by(write, Ok(())),
            },
    {
        match self.validate() {
            Ok(_) => {},
            Err(fault) => {
                let message = fault.message(self);
                return Err(SaveError::Invalid { fault, message });
            },
        }
        let scratch = self.scratch_len();
        let header = encode_header(scratch);
        assert(self.has_header(header@));
        let out = write(&header, self);
        assert(self.is_scratch_len(scratch as nat) && write.ensures((&header, self), out));
        match out {
            Ok(unit) => {
                assert(unit == ());
                Ok(())
            },
            Err(e) => Err(SaveError::Write(e)),
        }
    }

    /// Whether these bytes are the header of a file with this index.
    pub open spec fn has_header(&self, h: Seq<u8>) -> bool {
        exists|n: usize| #[trigger]
            self.is_scratch_len(n as nat) && h == header_bytes(INDEX_SCHEMA_VERSION, n as u64)
    }

    /// Whether `out` came from handing the header of this index and the index
    /// itself to `write`.
    pub open spec fn written_by<W: FnOnce(&Vec<u8>, &Index) -> Result<(), String>>(
        &self,
        write: W,
        out: Result<(), String>,
    ) -> bool {
        exists|h: &Vec<u8>, n: usize| #[trigger]
            self.is_scratch_len(n as nat) && h@ == header_bytes(INDEX_SCHEMA_VERSION, n as u64)
                && #[trigger] write.ensures((h, self), out)
    }
}

/// The name of the temporary file through which a file is replaced: it tells processes
/// apart, and the files of one process.
pub open spec fn temporary_name(p: Seq<char>, process: nat, sequence: nat) -> Seq<char> {
    let name = match path::file_name(p) {
        Some(name) => name,
        None => "index"@,
    };
    "."@ + name + ".tmp-"@ + text::decimal(process) + "-"@ + text::decimal(sequence)
}

/// No two writes of a process share a temporary file.
pub proof fn temporary_names_differ(p: Seq<char>, process: nat, a: nat, b: nat)
    requires
        a != b,
    ensures
        temporary_name(p, process, a) != temporary_name(p, process, b),
{
    let x = temporary_name(p, process, a);
    let y = temporary_name(p, process, b);
    let da = text::decimal(a);
    let db = text::decimal(b);
    if x == y {
        assert(x.len() - da.len() == y.len() - db.len());
        let n = x.len() - da.len();
        assert(x.skip(n) =~= da);
        assert(y.skip(n) =~= db);
        text::lemma_decimal_injective(a, b);
    }
}

/// The temporary file through which a file is replaced, in the same directory.
pub fn temporary_path(p: &str, process: u32, sequence: u64) -> (r: String)
    ensures
        r@ == path::joined(
            path::parent_or_dot(p@),
            temporary_name(p@, process as nat, sequence as nat),
        ),
{
    let base = match path::file_name_of(p) {
        Some(name) => name,
        None => "index".to_string(),
    };
    let mut name = ".".to_string();
    name.push_str(base.as_str());
    name.push_str(".tmp-");
    text::push_decimal(&mut name, process as u64);
    name.push_str("-");
    text::push_decimal(&mut name, sequence);
    let dir = path::parent_dir(p);
    path::join_path(dir.as_str(), name.as_str())
}

/// What loading makes of the decoder's outcome.
pub open spec fn loaded(out: Result<(Index, bool), String>, r: Result<Index, LoadError>) -> bool {
    match out {
        Err(e) => r == Err::<Index, LoadError>(LoadError::Decode(e)),
        Ok((index, at_end)) => if !at_end {
            r == Err::<Index, LoadError>(LoadError::TrailingData)
        } else {
            match r {
                Ok(got) => got == index && index.valid(),
                Err(LoadError::Invalid { fault, message }) => index.first_fault(fault) && message@
                    == fault.text(index),
                Err(_) => false,
            }
        },
    }
}

/// Accepts a decoded index that used up its file and is valid.
pub fn accept_decoded(out: Result<(Index, bool), String>) -> (r: Result<Index, LoadError>)
    ensures
        loaded(out, r),
{
    match out {
        Err(e) => Err(LoadError::Decode(e)),
        Ok((index, at_end)) => {
            if !at_end {
                return Err(LoadError::TrailingData);
            }
            match index.validate() {
                Ok(_) => Ok(index),
                Err(fault) => {
                    let message = fault.message(&index);
                    Err(LoadError::Invalid { fault, message })
                },
            }
        },
    }
}

/// What was saved loads again: for a valid index, a file that starts with its
/// header and whose body decodes to it, with nothing behind, gives it back.
pub proof fn saved_index_loads(
    index: Index,
    scratch: usize,
    start: Seq<u8>,
    file_len: u64,
    r: Result<Index, LoadError>,
)
    requires
        index.valid(),
        index.is_scratch_len(scratch as nat),
        start.len() >= 20,
        start.take(20) == header_bytes(INDEX_SCHEMA_VERSION, scratch as u64),
        file_len >= INDEX_HEADER_LEN + scratch,
        loaded(Ok((index, true)), r),
    ensures
        header_outcome(start, file_len) == Ok::<usize, HeaderFault>(scratch),
        r == Ok::<Index, LoadError>(index),
{
    assert(index.scratch_covers(8));
    header_reads_back(scratch, start, file_len);
    match r {
        Ok(_) => {},
        Err(LoadError::Invalid { fault, .. }) => {
            valid_means_no_fault(index, fault);
        },
        Err(_) => {},
    }
}

// ---------------------------------------------------------------------------
// Look-ups
// ---------------------------------------------------------------------------

/// Sort key of a record in source order: its path, then its first line.
pub open spec fn place_key(r: Record) -> Seq<u64> {
    path::path_key(r.file@) + seq![0u64, r.start_line as u64]
}

/// Whether the path of a record contains the query.
pub open spec fn path_has(r: Record, query: Seq<char>) -> bool {
    text::contains(r.file@, query)
}

/// How well a record's symbol answers to a name, both without regard to case: 0
/// for the name itself, 1 for a symbol that contains it.
pub open spec fn symbol_rank(r: Record, name: Seq<char>) -> Option<u64> {
    let needle = text::lowercase(name);
    match r.symbol {
        None => None,
        Some(s) => if text::lowercase(s@) == needle {
            Some(0)
        } else if text::contains(text::lowercase(s@), needle) {
            Some(1)
        } else {
            None
        },
    }
}

/// The positions of the outline of the files whose path contains `query`.
pub open spec fn is_outline(records: Seq<Record>, query: Seq<char>, picked: Seq<usize>) -> bool {
    let found = order::positions(records.len(), |i: int| path_has(records[i], query));
    order::arranged(found, found.map_values(|i: usize| place_key(records[i as int])), picked)
}

/// Sort key of a record found by symbol: the rank of the match, then the place.
pub open spec fn find_key(r: Record, name: Seq<char>) -> Seq<u64> {
    seq![symbol_rank(r, name).unwrap()] + place_key(r)
}

/// The positions of the records found for a symbol name.
pub open spec fn is_symbol_search(records: Seq<Record>, name: Seq<char>, picked: Seq<usize>) -> bool {
    let found = order::positions(records.len(), |i: int| symbol_rank(records[i], name) is Some);
    order::arranged(found, found.map_values(|i: usize| find_key(records[i as int], name)), picked)
}

/// Whether `list` refers to the records at the positions `picked`.
pub open spec fn refers_to(list: Seq<&Record>, records: Seq<Record>, picked: Seq<usize>) -> bool {
    &&& list.len() == picked.len()
    &&& forall|i: int|
        0 <= i < list.len() ==> picked[i] < records.len() && *#[trigger] list[i]
            == records[picked[i] as int]
}

/// Whether `r` is the first record with an id.
pub open spec fn carries_id(records: Seq<Record>, id: Seq<char>, r: Record) -> bool {
    exists|i: int|
        0 <= i < records.len() && r == #[trigger] records[i] && r.chunk_id@ == id && forall|j: int|
            0 <= j < i ==> (#[trigger] records[j]).chunk_id@ != id
}

fn place_key_of(r: &Record) -> (k: Vec<u64>)
    ensures
        k@ == place_key(*r),
{
    let mut key = path::key_of_path(r.file.as_str());
    key.push(0);
    key.push(r.start_line as u64);
    assert(key@ =~= place_key(*r));
    key
}

/// The records at the given positions.
pub(crate) fn records_at<'a>(records: &'a Vec<Record>, picked: &Vec<usize>) -> (r: Vec<&'a Record>)
    requires
        forall|i: int| 0 <= i < picked@.len() ==> #[trigger] picked@[i] < records.len(),
    ensures
        refers_to(r@, records@, picked@),
{
    let mut out: Vec<&'a Record> = Vec::new();
    let mut i: usize = 0;
    while i < picked.len()
        invariant
            forall|i: int| 0 <= i < picked@.len() ==> #[trigger] picked@[i] < records.len(),
            i <= picked.len(),
            out.len() == i,
            forall|j: int| 0 <= j < i ==> *#[trigger] out@[j] == records@[picked@[j] as int],
        decreases picked.len() - i,
    {
        out.push(&records[picked[i]]);
        i += 1;
    }
    out
}

proof fn lemma_arranged_in_range(
    n: nat,
    keep: spec_fn(int) -> bool,
    keys: Seq<Seq<u64>>,
    picked: Seq<usize>,
)
    requires
        n <= usize::MAX,
        keys.len() == order::positions(n, keep).len(),
        order::arranged(order::positions(n, keep), keys, picked),
    ensures
        forall|i: int| 0 <= i < picked.len() ==> #[trigger] picked[i] < n,
{
    let found = order::positions(n, keep);
    order::lemma_positions(n, keep);
    order::arranged_is_sorted(found, keys, picked);
    assert forall|i: int| 0 <= i < picked.len() implies #[trigger] picked[i] < n by {
        assert(found.contains(picked[i]));
    }
}

impl Index {
    /// The first record with this id; a valid index has at most one.
    pub fn get_by_chunk_id(&self, chunk_id: &str) -> (r: Option<&Record>)
        ensures
            match r {
                Some(found) => carries_id(self.records@, chunk_id@, *found),
                None => forall|j: int|
                    0 <= j < self.records@.len() ==> (#[trigger] self.records@[j]).chunk_id@
                        != chunk_id@,
            },
    {
        let mut i: usize = 0;
        while i < self.records.len()
            invariant
                i <= self.records.len(),
                forall|j: int|
                    0 <= j < i ==> (#[trigger] self.records@[j]).chunk_id@ != chunk_id@,
            decreases self.records.len() - i,
        {
            if text::same_text(self.records[i].chunk_id.as_str(), chunk_id) {
                assert(carries_id(self.records@, chunk_id@, self.records@[i as int]));
                return Some(&self.records[i]);
            }
            i += 1;
        }
        None
    }

    /// The chunks of the files whose path contains `file_query`, in source order.
    pub fn outline(&self, file_query: &str) -> (r: Vec<&Record>)
        ensures
            exists|picked: Seq<usize>| #[trigger]
                is_outline(self.records@, file_query@, picked) && refers_to(
                    r@,
                    self.records@,
                    picked,
                ),
    {
        let ghost records = self.records@;
        let ghost keep = |i: int| path_has(records[i], file_query@);
        let ghost key = |i: usize| place_key(records[i as int]);
        let mut found: Vec<usize> = Vec::new();
        let mut keys: Vec<Vec<u64>> = Vec::new();
        let mut i: usize = 0;
        while i < self.records.len()
            invariant
                i <= self.records.len(),
                records == self.records@,
                keep == (|i: int| path_has(records[i], file_query@)),
                key == (|i: usize| place_key(records[i as int])),
                found@ == order::positions(i as nat, keep),
                order::key_views(keys@) == found@.map_values(key),
            decreases self.records.len() - i,
        {
            if text::has_part(self.records[i].file.as_str(), file_query) {
                let k = place_key_of(&self.records[i]);
                proof {
                    order::lemma_key_push(keys@, k);
                    assert(found@.push(i).map_values(key) =~= found@.map_values(key).push(
                        key(i),
                    ));
                }
                keys.push(k);
                found.push(i);
            }
            i += 1;
        }
        assert(keys@.len() == order::key_views(keys@).len());
        let picked = order::arrange(&found, &keys);
        proof {
            lemma_arranged_in_range(
                records.len(),
                keep,
                order::key_views(keys@),
                picked@,
            );
            assert(is_outline(self.records@, file_query@, picked@));
        }
        records_at(&self.records, &picked)
    }

    /// The records whose symbol is `name`, then those whose symbol contains it,
    /// each in source order; upper and lower case count as the same.
    pub fn find_symbol(&self, name: &str) -> (r: Vec<&Record>)
        ensures
            exists|picked: Seq<usize>| #[trigger]
                is_symbol_search(self.records@, name@, picked) && refers_to(
                    r@,
                    self.records@,
                    picked,
                ),
    {
        let needle = text::to_lowercase(name);
        let ghost records = self.records@;
        let ghost keep = |i: int| symbol_rank(records[i], name@) is Some;
        let ghost key = |i: usize| find_key(records[i as int], name@);
        let mut found: Vec<usize> = Vec::new();
        let mut keys: Vec<Vec<u64>> = Vec::new();
        let mut i: usize = 0;
        while i < self.records.len()
            invariant
                i <= self.records.len(),
                records == self.records@,
                needle@ == text::lowercase(name@),
                keep == (|i: int| symbol_rank(records[i], name@) is Some),
                key == (|i: usize| find_key(records[i as int], name@)),
                found@ == order::positions(i as nat, keep),
                order::key_views(keys@) == found@.map_values(key),
            decreases self.records.len() - i,
        {
            let rank: Option<u64> = match &self.records[i].symbol {
                None => None,
                Some(s) => {
                    let symbol = text::to_lowercase(s.as_str());
                    if text::same_text(symbol.as_str(), needle.as_str()) {
                        Some(0)
                    } else if text::has_part(symbol.as_str(), needle.as_str()) {
                        Some(1)
                    } else {
                        None
                    }
                },
            };
            assert(rank == symbol_rank(records[i as int], name@));
            if let Some(n) = rank {
                let mut k: Vec<u64> = Vec::new();
                k.push(n);
                let mut place = place_key_of(&self.records[i]);
                k.append(&mut place);
                assert(k@ =~= find_key(records[i as int], name@));
                proof {
                    order::lemma_key_push(keys@, k);
                    assert(found@.push(i).map_values(key) =~= found@.map_values(key).push(
                        key(i),
                    ));
                }
                keys.push(k);
                found.push(i);
            }
            i += 1;
        }
        assert(keys@.len() == order::key_views(keys@).len());
        let picked = order::arrange(&found, &keys);
        proof {
            lemma_arranged_in_range(
                records.len(),
                keep,
                order::key_views(keys@),
                picked@,
            );
            assert(is_symbol_search(self.records@, name@, picked@));
        }
        records_at(&self.records, &picked)
    }
}

/// The predicate that keeps the records of other files.
pub open spec fn not_of_file(file: Seq<char>) -> spec_fn(Record) -> bool {
    |r: Record| !path::same_path(r.file@, file)
}

impl Index {
    /// Drops every record of `file`, and its hash.
    pub fn remove_file(&mut self, file: &str)
        ensures
            final(self).records@ == old(self).records@.filter(not_of_file(file@)),
            final(self).file_hashes@ == old(self).file_hashes@.remove(path::canonical(file@)),
            final(self).file_hashes.path_texts() == old(self).file_hashes.path_texts().filter(
                |p: String| !path::same_path(p@, file@),
            ),
            final(self).schema_version == old(self).schema_version,
            final(self).ingest_fingerprint == old(self).ingest_fingerprint,
            final(self).model == old(self).model,
            final(self).dim == old(self).dim,
    {
        let mut all: Vec<Record> = Vec::new();
        std::mem::swap(&mut self.records, &mut all);
        let ghost given = all@;
        let ghost keep = not_of_file(file@);
        let mut kept: Vec<Record> = Vec::new();
        proof {
            reveal(Seq::filter);
        }
        assert(given.take(0).filter(keep) =~= seq![]);
        for record in it: all
            invariant
                it.seq() == given,
                keep == not_of_file(file@),
                kept@ == given.take(it.index() as int).filter(keep),
        {
            proof {
                reveal(Seq::filter);
                assert(given.take(it.index() + 1).drop_last() =~= given.take(it.index() as int));
            }
            if !path::is_same_path(record.file.as_str(), file) {
                kept.push(record);
            }
        }
        assert(given.take(given.len() as int) =~= given);
        self.records = kept;
        self.file_hashes.remove(file);
    }
}

// ---------------------------------------------------------------------------
// Vector search
// ---------------------------------------------------------------------------

/// Whether `found` lists exactly the positions below `n` whose record the
/// predicate accepted, in increasing order.
pub open spec fn accepted_by<F: Fn(&Record) -> bool>(
    predicate: F,
    records: Seq<Record>,
    n: int,
    found: Seq<usize>,
) -> bool {
    exists|answers: Seq<bool>| #[trigger]
        answered_by(predicate, records, answers) && answers.len() == n && found
            == order::positions(n as nat, |i: int| answers[i])
}

/// Whether each answer is one that the predicate gave for the record at its place.
pub open spec fn answered_by<F: Fn(&Record) -> bool>(
    predicate: F,
    records: Seq<Record>,
    answers: Seq<bool>,
) -> bool {
    &&& answers.len() <= records.len()
    &&& forall|i: int|
        0 <= i < answers.len() ==> #[trigger] predicate.ensures((&records[i],), answers[i])
}

/// The positions paired with their scores.
pub open spec fn scored(found: Seq<usize>, scores: Seq<FloatBits>) -> Seq<Hit> {
    Seq::new(found.len(), |i: int| Hit { idx: found[i], score: scores[i] })
}

/// Pairs positions with scores and keeps the best `n`.
pub fn rank_scored(found: &Vec<usize>, scores: &Vec<FloatBits>, n: usize) -> (r: Vec<Hit>)
    requires
        found.len() == scores.len(),
    ensures
        is_ranking(scored(found@, scores@), n as nat, r@),
{
    let mut hits: Vec<Hit> = Vec::new();
    let mut i: usize = 0;
    while i < found.len()
        invariant
            found.len() == scores.len(),
            i <= found.len(),
            hits.len() == i,
            forall|j: int| 0 <= j < i ==> #[trigger] hits@[j] == scored(found@, scores@)[j],
        decreases found.len() - i,
    {
        hits.push(Hit { idx: found[i], score: scores[i] });
        i += 1;
    }
    assert(hits@ =~= scored(found@, scores@));
    rank_hits(&hits, n)
}

impl Index {
    /// The positions of the records that the predicate accepts.
    fn accepted<F: Fn(&Record) -> bool>(&self, predicate: F) -> (r: Vec<usize>)
        requires
            forall|i: int|
                0 <= i < self.records@.len() ==> predicate.requires((&#[trigger] self.records@[i],)),
        ensures
            accepted_by(predicate, self.records@, self.records@.len() as int, r@),
    {
        let mut found: Vec<usize> = Vec::new();
        let ghost mut answers: Seq<bool> = seq![];
        let mut i: usize = 0;
        while i < self.records.len()
            invariant
                i <= self.records.len(),
                forall|i: int|
                    0 <= i < self.records@.len() ==> predicate.requires(
                        (&#[trigger] self.records@[i],),
                    ),
                answers.len() == i,
                answered_by(predicate, self.records@, answers),
                found@ == order::positions(i as nat, |j: int| answers[j]),
            decreases self.records.len() - i,
        {
            let ok = predicate(&self.records[i]);
            let ghost prior = answers;
            proof {
                answers = answers.push(ok);
                lemma_positions_agree(i as nat, |j: int| prior[j], |j: int| answers[j]);
            }
            if ok {
                found.push(i);
            }
            i += 1;
        }
        assert(answered_by(predicate, self.records@, answers));
        found
    }

    /// The best `n` of the records that the predicate accepts. The query has to
    /// have the dimension of the index. `score` is handed the accepted positions
    /// and the query, and gives one score for each.
    pub fn search_filtered<
        F: Fn(&Record) -> bool,
        S: FnOnce(&Vec<usize>, &Vec<FloatBits>) -> Vec<FloatBits>,
    >(&self, query: &Vec<FloatBits>, n: usize, predicate: F, score: S) -> (r: Result<
        Vec<Hit>,
        ScanError,
    >)
        requires
            query@.len() == self.dim ==> forall|i: int|
                0 <= i < self.records@.len() ==> predicate.requires((&#[trigger] self.records@[i],)),
            query@.len() == self.dim ==> forall|found: &Vec<usize>|
                accepted_by(predicate, self.records@, self.records@.len() as int, found@)
                    ==> #[trigger] score.requires((found, query)),
        ensures
            if query@.len() != self.dim {
                r == Err::<Vec<Hit>, ScanError>(
                    ScanError::QueryDimension { query: query@.len() as usize, index: self.dim },
                )
            } else {
                exists|found: &Vec<usize>, scores: Vec<FloatBits>| #[trigger]
                    score.ensures((found, query), scores) && accepted_by(
                        predicate,
                        self.records@,
                        self.records@.len() as int,
                        found@,
                    ) && ranked_scan(found@, scores@, n as nat, r)
            },
    {
        if query.len() != self.dim {
            return Err(ScanError::QueryDimension { query: query.len(), index: self.dim });
        }
        let found = self.accepted(predicate);
        let scores = score(&found, query);
        let r = if scores.len() != found.len() {
            Err(ScanError::ScoreCount { scores: scores.len(), records: found.len() })
        } else {
            Ok(rank_scored(&found, &scores, n))
        };
        assert(score.ensures((&found, query), scores) && ranked_scan(
            found@,
            scores@,
            n as nat,
            r,
        ));
        r
    }
}

/// What a scan makes of the scores: the best `n` hits, if there is one score for
/// each position.
pub open spec fn ranked_scan(
    found: Seq<usize>,
    scores: Seq<FloatBits>,
    n: nat,
    r: Result<Vec<Hit>, ScanError>,
) -> bool {
    if scores.len() != found.len() {
        r == Err::<Vec<Hit>, ScanError>(
            ScanError::ScoreCount { scores: scores.len() as usize, records: found.len() as usize },
        )
    } else {
        r is Ok && is_ranking(scored(found, scores), n, r->Ok_0@)
    }
}

pub proof fn lemma_positions_agree(
    n: nat,
    f: spec_fn(int) -> bool,
    g: spec_fn(int) -> bool,
)
    requires
        forall|i: int| 0 <= i < n ==> #[trigger] f(i) == g(i),
    ensures
        order::positions(n, f) == order::positions(n, g),
    decreases n,
{
    if n > 0 {
        assert(f(n - 1) == g(n - 1));
        lemma_positions_agree((n - 1) as nat, f, g);
    }
}

// ---------------------------------------------------------------------------
// Catalog
// ---------------------------------------------------------------------------

/// Whether a record comes from the web document set `source`.
pub open spec fn has_source(r: Record, source: Seq<char>) -> bool {
    r.source is Some && r.source->0@ == source
}

/// Number of chunks that a document set contributed.
pub open spec fn source_chunks(records: Seq<Record>, source: Seq<char>) -> nat
    decreases records.len(),
{
    if records.len() == 0 {
        0
    } else {
        source_chunks(records.drop_last(), source) + if has_source(records.last(), source) {
            1nat
        } else {
            0nat
        }
    }
}

/// The files of a document set, by normal form.
pub open spec fn source_files(records: Seq<Record>, source: Seq<char>) -> Set<Seq<char>>
    decreases records.len(),
{
    if records.len() == 0 {
        Set::empty()
    } else {
        let rest = source_files(records.drop_last(), source);
        if has_source(records.last(), source) {
            rest.insert(path::canonical(records.last().file@))
        } else {
            rest
        }
    }
}

/// The first corpus URL that a chunk of a document set carries.
pub open spec fn first_corpus(records: Seq<Record>, source: Seq<char>) -> Option<String>
    decreases records.len(),
{
    if records.len() == 0 {
        None
    } else {
        match first_corpus(records.drop_last(), source) {
            Some(c) => Some(c),
            None => if has_source(records.last(), source) {
                records.last().corpus_source
            } else {
                None
            },
        }
    }
}

/// The first fetch time that a chunk of a document set carries.
pub open spec fn first_fetched(records: Seq<Record>, source: Seq<char>) -> Option<String>
    decreases records.len(),
{
    if records.len() == 0 {
        None
    } else {
        match first_fetched(records.drop_last(), source) {
            Some(c) => Some(c),
            None => if has_source(records.last(), source) {
                records.last().fetched
            } else {
                None
            },
        }
    }
}

/// Whether an entry sums up its document set.
pub open spec fn sums_up(records: Seq<Record>, e: CatalogEntry) -> bool {
    &&& e.corpus_source == first_corpus(records, e.source@)
    &&& e.fetched == first_fetched(records, e.source@)
    &&& e.files == source_files(records, e.source@).len()
    &&& e.chunks == source_chunks(records, e.source@)
    &&& e.chunks > 0
}

/// Whether `list` holds one entry for each document set, sorted by source.
pub open spec fn is_catalog(records: Seq<Record>, list: Seq<CatalogEntry>) -> bool {
    &&& forall|i: int| 0 <= i < list.len() ==> sums_up(records, #[trigger] list[i])
    &&& forall|i: int, j: int|
        0 <= i < j < list.len() ==> order::lex_less(
            path::text_key((#[trigger] list[i]).source@),
            path::text_key((#[trigger] list[j]).source@),
        )
    &&& forall|k: int|
        0 <= k < records.len() && (#[trigger] records[k]).source is Some ==> exists|i: int|
            0 <= i < list.len() && (#[trigger] list[i]).source@ == records[k].source->0@
}

/// A document set while it is summed up.
struct SourceGroup {
    source: String,
    corpus: Option<String>,
    fetched: Option<String>,
    files: StringHashSet,
    chunks: usize,
}

spec fn group_sums_up(records: Seq<Record>, g: SourceGroup) -> bool {
    &&& g.corpus == first_corpus(records, g.source@)
    &&& g.fetched == first_fetched(records, g.source@)
    &&& g.files@ == source_files(records, g.source@)
    &&& g.chunks == source_chunks(records, g.source@)
    &&& 0 < g.chunks <= records.len()
}

/// Whether `groups` and `slots` sum up all document sets of `records`.
spec fn groups_cover(
    records: Seq<Record>,
    groups: Seq<SourceGroup>,
    slots: Map<Seq<char>, usize>,
) -> bool {
    &&& forall|g: int| 0 <= g < groups.len() ==> group_sums_up(records, #[trigger] groups[g])
    &&& forall|g: int|
        0 <= g < groups.len() ==> slots.contains_key((#[trigger] groups[g]).source@)
            && slots[groups[g].source@] == g
    &&& forall|s: Seq<char>| #[trigger]
        slots.contains_key(s) ==> slots[s] < groups.len() && groups[slots[s] as int].source@ == s
    &&& forall|k: int|
        0 <= k < records.len() && (#[trigger] records[k]).source is Some ==> slots.contains_key(
            records[k].source->0@,
        )
}

proof fn lemma_no_source(records: Seq<Record>, s: Seq<char>)
    requires
        forall|k: int| 0 <= k < records.len() ==> !has_source(#[trigger] records[k], s),
    ensures
        source_chunks(records, s) == 0,
        source_files(records, s) == Set::<Seq<char>>::empty(),
        first_corpus(records, s) is None,
        first_fetched(records, s) is None,
    decreases records.len(),
{
    if records.len() > 0 {
        assert(!has_source(records[records.len() - 1], s));
        assert forall|k: int| 0 <= k < records.drop_last().len() implies !has_source(
            #[trigger] records.drop_last()[k],
            s,
        ) by {
            assert(!has_source(records[k], s));
        }
        lemma_no_source(records.drop_last(), s);
    }
}

/// One more record that is not of the group's document set changes nothing.
proof fn lemma_other_source(records: Seq<Record>, g: SourceGroup)
    requires
        records.len() > 0,
        group_sums_up(records.drop_last(), g),
        !has_source(records.last(), g.source@),
    ensures
        group_sums_up(records, g),
{
}

fn add_to_group(group: &mut SourceGroup, record: &Record, Ghost(records): Ghost<Seq<Record>>)
    requires
        records.len() > 0,
        records.len() <= usize::MAX,
        *record == records.last(),
        has_source(*record, old(group).source@),
        old(group).corpus == first_corpus(records.drop_last(), old(group).source@),
        old(group).fetched == first_fetched(records.drop_last(), old(group).source@),
        old(group).files@ == source_files(records.drop_last(), old(group).source@),
        old(group).chunks == source_chunks(records.drop_last(), old(group).source@),
        old(group).chunks < records.len(),
    ensures
        final(group).source == old(group).source,
        group_sums_up(records, *final(group)),
{
    if group.corpus.is_none() {
        group.corpus = text::copy_opt(&record.corpus_source);
    }
    if group.fetched.is_none() {
        group.fetched = text::copy_opt(&record.fetched);
    }
    let key = path::canonical_text(record.file.as_str());
    group.files.insert(key);
    group.chunks = group.chunks + 1;
}

impl Index {
    /// The document sets of the records, in order of first occurrence.
    fn source_groups(&self) -> (r: Vec<SourceGroup>)
        ensures
            exists|slots: Map<Seq<char>, usize>| #[trigger]
                groups_cover(self.records@, r@, slots),
    {
        let ghost records = self.records@;
        let mut groups: Vec<SourceGroup> = Vec::new();
        let mut slots: StringHashMap<usize> = StringHashMap::new();
        let mut i: usize = 0;
        while i < self.records.len()
            invariant
                i <= self.records.len(),
                records == self.records@,
                groups_cover(records.take(i as int), groups@, slots@),
            decreases self.records.len() - i,
        {
            let ghost done = records.take(i as int);
            let ghost next = records.take(i + 1);
            let ghost prior = groups@;
            let ghost old_slots = slots@;
            let record = &self.records[i];
            assert(next.drop_last() =~= done);
            assert(next.last() == *record);
            match &record.source {
                None => {
                    proof {
                        assert forall|g: int| 0 <= g < groups@.len() implies group_sums_up(
                            next,
                            #[trigger] groups@[g],
                        ) by {
                            lemma_other_source(next, groups@[g]);
                        }
                        assert forall|k: int|
                            0 <= k < next.len() && (
                            #[trigger] next[k]).source is Some implies slots@.contains_key(
                            next[k].source->0@,
                        ) by {
                            assert(next[k] == done[k]);
                        }
                    }
                },
                Some(source) => {
                    let found: Option<usize> = match slots.get(source.as_str()) {
                        Some(g) => Some(*g),
                        None => None,
                    };
                    let at: usize = match found {
                        Some(g) => g,
                        None => {
                            let fresh = SourceGroup {
                                source: source.clone(),
                                corpus: None,
                                fetched: None,
                                files: StringHashSet::new(),
                                chunks: 0,
                            };
                            proof {
                                assert forall|k: int| 0 <= k < done.len() implies !has_source(
                                    #[trigger] done[k],
                                    source@,
                                ) by {
                                    if has_source(done[k], source@) {
                                        assert(old_slots.contains_key(done[k].source->0@));
                                    }
                                }
                                lemma_no_source(done, source@);
                            }
                            slots.insert(source.clone(), groups.len());
                            groups.push(fresh);
                            groups.len() - 1
                        },
                    };
                    assert(groups@[at as int].source@ == source@);
                    let group = &mut groups[at];
                    add_to_group(group, record, Ghost(next));
                    proof {
                        assert forall|g: int| 0 <= g < groups@.len() implies group_sums_up(
                            next,
                            #[trigger] groups@[g],
                        ) by {
                            if g != at {
                                assert(groups@[g] == prior[g]);
                                assert(old_slots[prior[g].source@] == g);
                                assert(prior[g].source@ != source@);
                                lemma_other_source(next, groups@[g]);
                            }
                        }
                        assert forall|g: int| 0 <= g < groups@.len() implies slots@.contains_key(
                            (#[trigger] groups@[g]).source@,
                        ) && slots@[groups@[g].source@] == g by {
                            if g != at {
                                assert(groups@[g] == prior[g]);
                                assert(old_slots[prior[g].source@] == g);
                            }
                        }
                        assert forall|x: Seq<char>| #[trigger] slots@.contains_key(
                            x,
                        ) implies slots@[x] < groups@.len() && groups@[slots@[x] as int].source@
                            == x by {
                            if x != source@ {
                                assert(old_slots.contains_key(x));
                            }
                        }
                        assert forall|k: int|
                            0 <= k < next.len() && (
                            #[trigger] next[k]).source is Some implies slots@.contains_key(
                            next[k].source->0@,
                        ) by {
                            if k < i {
                                assert(next[k] == done[k]);
                            }
                        }
                    }
                },
            }
            i += 1;
        }
        assert(records.take(records.len() as int) =~= records);
        assert(groups_cover(self.records@, groups@, slots@));
        groups
    }

    /// One entry for each web document set, sorted by source; chunks of local
    /// files are left out.
    pub fn catalog(&self) -> (r: Vec<CatalogEntry>)
        ensures
            is_catalog(self.records@, r@),
    {
        let groups = self.source_groups();
        let ghost slots = choose|slots: Map<Seq<char>, usize>| #[trigger]
            groups_cover(self.records@, groups@, slots);
        let mut keys: Vec<Vec<u64>> = Vec::new();
        let mut i: usize = 0;
        while i < groups.len()
            invariant
                i <= groups.len(),
                keys.len() == i,
                forall|j: int|
                    0 <= j < i ==> (#[trigger] keys@[j])@ == path::text_key(groups@[j].source@),
            decreases groups.len() - i,
        {
            let mut key: Vec<u64> = Vec::new();
            path::push_text_key(&mut key, groups[i].source.as_str());
            assert(key@ =~= path::text_key(groups@[i as int].source@));
            keys.push(key);
            i += 1;
        }
        let p = order::sort_order(&keys);
        let ghost views = order::key_views(keys@);
        let mut out: Vec<CatalogEntry> = Vec::new();
        let mut k: usize = 0;
        while k < p.len()
            invariant
                groups_cover(self.records@, groups@, slots),
                keys.len() == groups.len(),
                order::sorts(order::key_views(keys@), p@),
                k <= p.len(),
                out.len() == k,
                forall|j: int|
                    0 <= j < k ==> sums_up(self.records@, #[trigger] out@[j]) && out@[j].source@
                        == groups@[p@[j] as int].source@,
            decreases p.len() - k,
        {
            let g = &groups[p[k]];
            assert(group_sums_up(self.records@, *g));
            let entry = CatalogEntry {
                source: g.source.clone(),
                corpus_source: text::copy_opt(&g.corpus),
                fetched: text::copy_opt(&g.fetched),
                files: g.files.len(),
                chunks: g.chunks,
            };
            out.push(entry);
            k += 1;
        }
        proof {
            assert forall|a: int, b: int| 0 <= a < b < out@.len() implies order::lex_less(
                path::text_key((#[trigger] out@[a]).source@),
                path::text_key((#[trigger] out@[b]).source@),
            ) by {
                assert(order::before(views, p@[a] as int, p@[b] as int));
                let x = groups@[p@[a] as int].source@;
                let y = groups@[p@[b] as int].source@;
                assert(views[p@[a] as int] == path::text_key(x));
                assert(views[p@[b] as int] == path::text_key(y));
                if path::text_key(x) == path::text_key(y) {
                    path::lemma_text_key_injective(x, y);
                    assert(slots[x] == p@[a] && slots[y] == p@[b]);
                }
            }
            assert forall|n: int|
                0 <= n < self.records@.len() && (
                #[trigger] self.records@[n]).source is Some implies exists|i: int|
                0 <= i < out@.len() && (#[trigger] out@[i]).source@
                    == self.records@[n].source->0@ by {
                let src = self.records@[n].source->0@;
                let g = slots[src] as int;
                order::lemma_sorts_all(views, p@, g);
                let m = choose|m: int| 0 <= m < p@.len() && #[trigger] p@[m] == g;
                assert(out@[m].source@ == src);
            }
        }
        out
    }
}

// ---------------------------------------------------------------------------
// Laws
// ---------------------------------------------------------------------------

/// In a valid index an id belongs to one record only.
pub proof fn ids_are_unique(index: Index, i: int, j: int)
    requires
        index.valid(),
        0 <= i < index.records@.len(),
        0 <= j < index.records@.len(),
        index.records@[i].chunk_id@ == index.records@[j].chunk_id@,
    ensures
        i == j,
{
    assert(index.record_fault(i) is None);
    assert(index.record_fault(j) is None);
    if i < j {
        assert(id_taken(index.records@, j));
    }
    if j < i {
        assert(id_taken(index.records@, i));
    }
}

/// Removing a file leaves none of its records and all others.
pub proof fn removal_is_exact(records: Seq<Record>, file: Seq<char>, r: Record)
    ensures
        records.filter(not_of_file(file)).contains(r) <==> records.contains(r)
            && !path::same_path(r.file@, file),
{
    let keep = not_of_file(file);
    let left = records.filter(keep);
    if left.contains(r) {
        records.lemma_filter_contains_rev(keep, r);
        let i = choose|i: int| 0 <= i < left.len() && left[i] == r;
        records.lemma_filter_pred(keep, i);
    }
    if records.contains(r) && !path::same_path(r.file@, file) {
        let i = choose|i: int| 0 <= i < records.len() && records[i] == r;
        assert(keep(records[i]));
        records.lemma_filter_contains(keep, i);
    }
}

/// Removing a file twice is the same as removing it once.
pub proof fn removal_is_idempotent(records: Seq<Record>, file: Seq<char>)
    ensures
        records.filter(not_of_file(file)).filter(not_of_file(file)) == records.filter(
            not_of_file(file),
        ),
    decreases records.len(),
{
    reveal(Seq::filter);
    let keep = not_of_file(file);
    if records.len() > 0 {
        let init = records.drop_last();
        removal_is_idempotent(init, file);
        if keep(records.last()) {
            let left = records.filter(keep);
            assert(left.drop_last() =~= init.filter(keep));
            assert(left.last() == records.last());
        }
    }
}

/// A valid index stays valid when a file is removed.
pub proof fn removal_keeps_validity(before: Index, after: Index, file: Seq<char>)
    requires
        before.valid(),
        after.records@ == before.records@.filter(not_of_file(file)),
        after.file_hashes@ == before.file_hashes@.remove(path::canonical(file)),
        after.schema_version == before.schema_version,
        after.dim == before.dim,
    ensures
        after.valid(),
{
    let keep = not_of_file(file);
    let all = before.records@;
    let left = after.records@;
    lemma_filter_order(all, keep);
    assert forall|i: int| 0 <= i < left.len() implies #[trigger] after.record_fault(i) is None by {
        let src = choose|src: Seq<int>| #[trigger] filter_source(all, left, src);
        all.lemma_filter_pred(keep, i);
        assert(left[i] == all[src[i]]);
        assert(before.record_fault(src[i]) is None);
        if id_taken(left, i) {
            let j = choose|j: int| 0 <= j < i && (#[trigger] left[j]).chunk_id@ == left[i].chunk_id@;
            assert(left[j] == all[src[j]]);
            assert(src[j] < src[i]);
            assert(id_taken(all, src[i]));
        }
    }
}

/// Whether `src` says where the elements of `left` stand in `all`, in order.
spec fn filter_source(all: Seq<Record>, left: Seq<Record>, src: Seq<int>) -> bool {
    &&& src.len() == left.len()
    &&& forall|i: int| 0 <= i < src.len() ==> 0 <= #[trigger] src[i] < all.len()
    &&& forall|i: int| 0 <= i < left.len() ==> #[trigger] left[i] == all[src[i]]
    &&& forall|i: int, j: int| 0 <= i < j < src.len() ==> #[trigger] src[i] < #[trigger] src[j]
}

proof fn lemma_filter_order(all: Seq<Record>, keep: spec_fn(Record) -> bool)
    ensures
        exists|src: Seq<int>| #[trigger] filter_source(all, all.filter(keep), src),
    decreases all.len(),
{
    reveal(Seq::filter);
    if all.len() == 0 {
        assert(filter_source(all, all.filter(keep), seq![]));
    } else {
        let init = all.drop_last();
        lemma_filter_order(init, keep);
        let src = choose|src: Seq<int>| #[trigger] filter_source(init, init.filter(keep), src);
        if keep(all.last()) {
            let next = src.push(all.len() - 1);
            let left = all.filter(keep);
            assert forall|i: int| 0 <= i < left.len() implies #[trigger] left[i] == all[next[i]] by {
                if i < src.len() {
                    assert(init.filter(keep)[i] == init[src[i]]);
                }
            }
            assert(filter_source(all, left, next));
        } else {
            assert forall|i: int| 0 <= i < src.len() implies #[trigger] init.filter(keep)[i]
                == all[src[i]] by {
                assert(init.filter(keep)[i] == init[src[i]]);
            }
            assert(filter_source(all, all.filter(keep), src));
        }
    }
}

/// A catalog entry never counts more files than chunks.
pub proof fn catalog_files_within_chunks(records: Seq<Record>, source: Seq<char>)
    ensures
        source_files(records, source).finite(),
        source_files(records, source).len() <= source_chunks(records, source),
    decreases records.len(),
{
    if records.len() > 0 {
        catalog_files_within_chunks(records.drop_last(), source);
    }
}

/// Number of records that come from the web.
pub open spec fn web_chunks(records: Seq<Record>) -> nat
    decreases records.len(),
{
    if records.len() == 0 {
        0
    } else {
        web_chunks(records.drop_last()) + if records.last().source is Some {
            1nat
        } else {
            0nat
        }
    }
}

/// Number of chunks that the entries of a catalog count together.
pub open spec fn counted_chunks(list: Seq<CatalogEntry>) -> nat
    decreases list.len(),
{
    if list.len() == 0 {
        0
    } else {
        counted_chunks(list.drop_last()) + list.last().chunks as nat
    }
}

/// Number of chunks of the document sets that entries name.
spec fn named_chunks(list: Seq<CatalogEntry>, records: Seq<Record>) -> nat
    decreases list.len(),
{
    if list.len() == 0 {
        0
    } else {
        named_chunks(list.drop_last(), records) + source_chunks(records, list.last().source@)
    }
}

/// Number of entries that name the document set of a record.
spec fn naming_entries(list: Seq<CatalogEntry>, r: Record) -> nat
    decreases list.len(),
{
    if list.len() == 0 {
        0
    } else {
        naming_entries(list.drop_last(), r) + if has_source(r, list.last().source@) {
            1nat
        } else {
            0nat
        }
    }
}

proof fn lemma_named_chunks_next(list: Seq<CatalogEntry>, records: Seq<Record>)
    requires
        records.len() > 0,
    ensures
        named_chunks(list, records) == named_chunks(list, records.drop_last()) + naming_entries(
            list,
            records.last(),
        ),
    decreases list.len(),
{
    if list.len() > 0 {
        lemma_named_chunks_next(list.drop_last(), records);
    }
}

proof fn lemma_none_names(list: Seq<CatalogEntry>, r: Record)
    requires
        forall|i: int| 0 <= i < list.len() ==> !has_source(r, (#[trigger] list[i]).source@),
    ensures
        naming_entries(list, r) == 0,
    decreases list.len(),
{
    if list.len() > 0 {
        assert(!has_source(r, list[list.len() - 1].source@));
        assert forall|i: int| 0 <= i < list.drop_last().len() implies !has_source(
            r,
            (#[trigger] list.drop_last()[i]).source@,
        ) by {
            assert(!has_source(r, list[i].source@));
        }
        lemma_none_names(list.drop_last(), r);
    }
}

proof fn lemma_one_names(list: Seq<CatalogEntry>, r: Record, at: int)
    requires
        0 <= at < list.len(),
        has_source(r, list[at].source@),
        forall|i: int, j: int|
            0 <= i < j < list.len() ==> (#[trigger] list[i]).source@ != (#[trigger] list[j]).source@,
    ensures
        naming_entries(list, r) == 1,
    decreases list.len(),
{
    let init = list.drop_last();
    assert forall|i: int, j: int| 0 <= i < j < init.len() implies (#[trigger] init[i]).source@ != (
    #[trigger] init[j]).source@ by {
        assert(list[i].source@ != list[j].source@);
    }
    if at == list.len() - 1 {
        assert forall|i: int| 0 <= i < init.len() implies !has_source(
            r,
            (#[trigger] init[i]).source@,
        ) by {
            assert(list[i].source@ != list[at].source@);
        }
        lemma_none_names(init, r);
    } else {
        assert(list[at].source@ != list[list.len() - 1].source@);
        assert(init[at] == list[at]);
        lemma_one_names(init, r, at);
    }
}

proof fn lemma_counts_named(list: Seq<CatalogEntry>, records: Seq<Record>)
    requires
        forall|i: int| 0 <= i < list.len() ==> sums_up(records, #[trigger] list[i]),
    ensures
        counted_chunks(list) == named_chunks(list, records),
    decreases list.len(),
{
    if list.len() > 0 {
        assert(sums_up(records, list[list.len() - 1]));
        assert forall|i: int| 0 <= i < list.drop_last().len() implies sums_up(
            records,
            #[trigger] list.drop_last()[i],
        ) by {
            assert(sums_up(records, list[i]));
        }
        lemma_counts_named(list.drop_last(), records);
    }
}

proof fn lemma_named_is_web(list: Seq<CatalogEntry>, records: Seq<Record>)
    requires
        forall|i: int, j: int|
            0 <= i < j < list.len() ==> (#[trigger] list[i]).source@ != (#[trigger] list[j]).source@,
        forall|k: int|
            0 <= k < records.len() && (#[trigger] records[k]).source is Some ==> exists|i: int|
                0 <= i < list.len() && (#[trigger] list[i]).source@ == records[k].source->0@,
    ensures
        named_chunks(list, records) == web_chunks(records),
    decreases records.len(),
{
    if records.len() == 0 {
        lemma_no_chunks(list, records);
    } else {
        let init = records.drop_last();
        let last = records.last();
        assert forall|k: int|
            0 <= k < init.len() && (#[trigger] init[k]).source is Some implies exists|i: int|
            0 <= i < list.len() && (#[trigger] list[i]).source@ == init[k].source->0@ by {
            assert(records[k] == init[k]);
        }
        lemma_named_is_web(list, init);
        lemma_named_chunks_next(list, records);
        if last.source is Some {
            assert(records[records.len() - 1].source is Some);
            let at = choose|i: int|
                0 <= i < list.len() && (#[trigger] list[i]).source@ == last.source->0@;
            lemma_one_names(list, last, at);
        } else {
            lemma_none_names(list, last);
        }
    }
}

proof fn lemma_no_chunks(list: Seq<CatalogEntry>, records: Seq<Record>)
    requires
        records.len() == 0,
    ensures
        named_chunks(list, records) == 0,
    decreases list.len(),
{
    if list.len() > 0 {
        lemma_no_chunks(list.drop_last(), records);
    }
}

/// The catalog counts every chunk that comes from the web exactly once, and no other.
pub proof fn catalog_counts_every_web_chunk(records: Seq<Record>, list: Seq<CatalogEntry>)
    requires
        is_catalog(records, list),
    ensures
        counted_chunks(list) == web_chunks(records),
{
    assert forall|i: int, j: int| 0 <= i < j < list.len() implies (#[trigger] list[i]).source@ != (
    #[trigger] list[j]).source@ by {
        order::lemma_lex_irreflexive(path::text_key(list[i].source@));
    }
    lemma_counts_named(list, records);
    lemma_named_is_web(list, records);
}

/// An exact symbol match comes before any symbol that merely contains the name.
pub proof fn exact_symbols_come_first(a: Record, b: Record, name: Seq<char>)
    requires
        symbol_rank(a, name) == Some(0u64),
        symbol_rank(b, name) == Some(1u64),
    ensures
        order::lex_less(find_key(a, name), find_key(b, name)),
{
    assert(find_key(a, name)[0] == 0);
    assert(find_key(b, name)[0] == 1);
}

/// Source order is by path, and within a file by first line.
pub proof fn place_orders_by_path_then_line(a: Record, b: Record)
    ensures
        order::lex_less(place_key(a), place_key(b)) <==> {
            ||| order::lex_less(path::path_key(a.file@), path::path_key(b.file@))
            ||| path::same_path(a.file@, b.file@) && a.start_line < b.start_line
        },
{
    let x = seq![a.start_line as u64];
    let y = seq![b.start_line as u64];
    reveal_with_fuel(order::lex_less, 2);
    assert(place_key(a) =~= path::path_key(a.file@) + (seq![0u64] + x));
    assert(place_key(b) =~= path::path_key(b.file@) + (seq![0u64] + y));
    assert(x.drop_first().len() == 0 && y.drop_first().len() == 0);
    assert(order::lex_less(x, y) == (a.start_line < b.start_line));
    path::lemma_path_key_extended(a.file@, b.file@, x, y);
    path::same_path_means_same_key(a.file@, b.file@);
}

/// An outline lists exactly the chunks of the matching files, each once, in source
/// order.
pub proof fn outline_is_complete_and_sorted(
    records: Seq<Record>,
    query: Seq<char>,
    picked: Seq<usize>,
)
    requires
        records.len() <= usize::MAX,
        is_outline(records, query, picked),
    ensures
        forall|k: int|
            0 <= k < records.len() ==> (picked.contains(k as usize) <==> path_has(
                #[trigger] records[k],
                query,
            )),
        forall|i: int, j: int|
            0 <= i < j < picked.len() ==> !order::lex_less(
                place_key(records[#[trigger] picked[j] as int]),
                place_key(records[#[trigger] picked[i] as int]),
            ),
{
    let keep = |i: int| path_has(records[i], query);
    let key = |i: usize| place_key(records[i as int]);
    order::arranged_selection(records.len(), keep, key, picked);
    assert forall|k: int| 0 <= k < records.len() implies (picked.contains(k as usize) <==> path_has(
        #[trigger] records[k],
        query,
    )) by {
        assert(keep(k) == path_has(records[k], query));
    }
    assert forall|i: int, j: int| 0 <= i < j < picked.len() implies !order::lex_less(
        place_key(records[#[trigger] picked[j] as int]),
        place_key(records[#[trigger] picked[i] as int]),
    ) by {
        assert(!order::lex_less(key(picked[j]), key(picked[i])));
    }
}

/// A symbol search finds exactly the records whose symbol answers to the name, the
/// exact matches first, and each group in source order.
pub proof fn symbol_search_is_complete_and_sorted(
    records: Seq<Record>,
    name: Seq<char>,
    picked: Seq<usize>,
)
    requires
        records.len() <= usize::MAX,
        is_symbol_search(records, name, picked),
    ensures
        forall|k: int|
            0 <= k < records.len() ==> (picked.contains(k as usize) <==> symbol_rank(
                #[trigger] records[k],
                name,
            ) is Some),
        forall|i: int, j: int|
            0 <= i < j < picked.len() ==> !order::lex_less(
                find_key(records[#[trigger] picked[j] as int], name),
                find_key(records[#[trigger] picked[i] as int], name),
            ),
{
    let keep = |i: int| symbol_rank(records[i], name) is Some;
    let key = |i: usize| find_key(records[i as int], name);
    order::arranged_selection(records.len(), keep, key, picked);
    assert forall|k: int| 0 <= k < records.len() implies (picked.contains(k as usize)
        <==> symbol_rank(#[trigger] records[k], name) is Some) by {
        assert(keep(k) == (symbol_rank(records[k], name) is Some));
    }
    assert forall|i: int, j: int| 0 <= i < j < picked.len() implies !order::lex_less(
        find_key(records[#[trigger] picked[j] as int], name),
        find_key(records[#[trigger] picked[i] as int], name),
    ) by {
        assert(!order::lex_less(key(picked[j]), key(picked[i])));
    }
}

// ---------------------------------------------------------------------------
// What lookups find
// ---------------------------------------------------------------------------

/// Whether a record stands before another in the sources: by path, and in a file by line.
pub open spec fn stands_before(a: Record, b: Record) -> bool {
    order::lex_less(path::path_key(a.file@), path::path_key(b.file@)) || (path::same_path(
        a.file@,
        b.file@,
    ) && a.start_line < b.start_line)
}

/// Whether the symbol of a record is the name, but for case.
pub open spec fn named_exactly(r: Record, name: Seq<char>) -> bool {
    r.symbol is Some && text::lowercase((r.symbol->0)@) == text::lowercase(name)
}

/// Whether the symbol of a record, in small letters, is something, the name in small
/// letters, and something.
pub open spec fn named_somewhere(r: Record, name: Seq<char>) -> bool {
    r.symbol is Some && text::holds(text::lowercase((r.symbol->0)@), text::lowercase(name))
}

pub proof fn lemma_symbol_rank(r: Record, name: Seq<char>)
    ensures
        symbol_rank(r, name) is Some <==> named_somewhere(r, name),
        symbol_rank(r, name) is Some ==> symbol_rank(r, name)->0 == if named_exactly(r, name) {
            0u64
        } else {
            1u64
        },
{
    if r.symbol is Some {
        let s = text::lowercase((r.symbol->0)@);
        let n = text::lowercase(name);
        text::containing_is_standing_between(s, n);
        if s == n {
            let none = Seq::<char>::empty();
            assert(s =~= none + n + none);
            text::a_part_is_contained(none, n, none);
        }
    }
}

/// A symbol search lists the records whose symbol holds the name anywhere in it, case
/// aside: each once, those that are the name before those that hold it, and among either
/// none before one that stands before it in the sources.
pub proof fn symbols_are_found_wherever_the_name_stands(
    records: Seq<Record>,
    name: Seq<char>,
    picked: Seq<usize>,
)
    requires
        records.len() <= usize::MAX,
        is_symbol_search(records, name, picked),
    ensures
        picked.no_duplicates(),
        forall|i: int| 0 <= i < picked.len() ==> #[trigger] picked[i] < records.len(),
        forall|k: int|
            0 <= k < records.len() ==> (picked.contains(k as usize) <==> named_somewhere(
                #[trigger] records[k],
                name,
            )),
        forall|i: int, j: int|
            0 <= i < j < picked.len() ==> {
                let a = records[#[trigger] picked[i] as int];
                let b = records[#[trigger] picked[j] as int];
                &&& named_exactly(b, name) ==> named_exactly(a, name)
                &&& named_exactly(a, name) == named_exactly(b, name) ==> !stands_before(b, a)
            },
{
    symbol_search_is_complete_and_sorted(records, name, picked);
    let keep = |i: int| symbol_rank(records[i], name) is Some;
    let key = |i: usize| find_key(records[i as int], name);
    let found = order::positions(records.len(), keep);
    assert(found.map_values(|i: usize| find_key(records[i as int], name)) =~= found.map_values(key));
    order::a_selection_repeats_nothing(records.len(), keep, key, picked);
    assert forall|k: int| 0 <= k < records.len() implies (picked.contains(k as usize)
        <==> named_somewhere(#[trigger] records[k], name)) by {
        lemma_symbol_rank(records[k], name);
    }
    assert forall|i: int, j: int| 0 <= i < j < picked.len() implies {
        let a = records[#[trigger] picked[i] as int];
        let b = records[#[trigger] picked[j] as int];
        &&& named_exactly(b, name) ==> named_exactly(a, name)
        &&& named_exactly(a, name) == named_exactly(b, name) ==> !stands_before(b, a)
    } by {
        let (a, b) = (records[picked[i] as int], records[picked[j] as int]);
        assert(picked.contains(picked[i]) && picked.contains(picked[j]));
        lemma_symbol_rank(a, name);
        lemma_symbol_rank(b, name);
        assert(!order::lex_less(find_key(b, name), find_key(a, name)));
        if named_exactly(b, name) && !named_exactly(a, name) {
            exact_symbols_come_first(b, a, name);
        }
        if named_exactly(a, name) == named_exactly(b, name) {
            let head = seq![symbol_rank(a, name).unwrap()];
            order::lemma_lex_prefix(head, place_key(b), place_key(a));
            place_orders_by_path_then_line(b, a);
        }
    }
}

proof fn lemma_ascii_sum(a: Seq<char>, b: Seq<char>)
    requires
        text::ascii_text(a),
        text::ascii_text(b),
    ensures
        text::ascii_text(a + b),
        text::lowercase(a + b) == text::lowercase(a) + text::lowercase(b),
{
    assert forall|i: int| 0 <= i < (a + b).len() implies text::ascii(#[trigger] (a + b)[i]) by {
        if i < a.len() {
            assert((a + b)[i] == a[i]);
        } else {
            assert((a + b)[i] == b[i - a.len()]);
        }
    }
    assert(text::ascii_lower(a + b) =~= text::ascii_lower(a) + text::ascii_lower(b));
}

/// A name finds every symbol that it is a part of, whatever stands before it and behind
/// it, in whatever case the two are written.
pub proof fn a_name_finds_what_it_is_part_of(
    records: Seq<Record>,
    name: Seq<char>,
    picked: Seq<usize>,
    k: int,
    a: Seq<char>,
    written: Seq<char>,
    b: Seq<char>,
)
    requires
        records.len() <= usize::MAX,
        is_symbol_search(records, name, picked),
        0 <= k < records.len(),
        records[k].symbol is Some,
        (records[k].symbol->0)@ == a + written + b,
        text::ascii_text(a) && text::ascii_text(written) && text::ascii_text(b),
        text::lowercase(written) == text::lowercase(name),
    ensures
        picked.contains(k as usize),
{
    symbols_are_found_wherever_the_name_stands(records, name, picked);
    lemma_ascii_sum(a, written);
    lemma_ascii_sum(a + written, b);
    let low = text::lowercase(name);
    assert(text::lowercase((records[k].symbol->0)@) == text::lowercase(a) + low + text::lowercase(
        b,
    ));
    assert(text::holds(text::lowercase((records[k].symbol->0)@), low));
    assert(named_somewhere(records[k], name));
}

/// An outline lists the records of every file whose path holds the query anywhere in it:
/// each once, and none before one that stands before it in the sources.
pub proof fn outlines_list_the_files_that_hold_the_query(
    records: Seq<Record>,
    query: Seq<char>,
    picked: Seq<usize>,
)
    requires
        records.len() <= usize::MAX,
        is_outline(records, query, picked),
    ensures
        picked.no_duplicates(),
        forall|i: int| 0 <= i < picked.len() ==> #[trigger] picked[i] < records.len(),
        forall|k: int|
            0 <= k < records.len() ==> (picked.contains(k as usize) <==> text::holds(
                (#[trigger] records[k]).file@,
                query,
            )),
        forall|i: int, j: int|
            0 <= i < j < picked.len() ==> !stands_before(
                records[#[trigger] picked[j] as int],
                records[#[trigger] picked[i] as int],
            ),
{
    outline_is_complete_and_sorted(records, query, picked);
    let keep = |i: int| path_has(records[i], query);
    let key = |i: usize| place_key(records[i as int]);
    let found = order::positions(records.len(), keep);
    assert(found.map_values(|i: usize| place_key(records[i as int])) =~= found.map_values(key));
    order::a_selection_repeats_nothing(records.len(), keep, key, picked);
    assert forall|k: int| 0 <= k < records.len() implies (picked.contains(k as usize)
        <==> text::holds((#[trigger] records[k]).file@, query)) by {
        text::containing_is_standing_between(records[k].file@, query);
    }
    assert forall|i: int, j: int| 0 <= i < j < picked.len() implies !stands_before(
        records[#[trigger] picked[j] as int],
        records[#[trigger] picked[i] as int],
    ) by {
        let (a, b) = (records[picked[i] as int], records[picked[j] as int]);
        assert(!order::lex_less(place_key(b), place_key(a)));
        place_orders_by_path_then_line(b, a);
    }
}

/// An id finds the first record that carries it, and a record finds itself by its id in an
/// index where no id comes twice.
pub proof fn ids_find_their_records(records: Seq<Record>, id: Seq<char>, r: Record, k: int)
    requires
        carries_id(records, id, r),
        0 <= k < records.len(),
        records[k].chunk_id@ == id,
    ensures
        r.chunk_id@ == id,
        records.contains(r),
        (forall|i: int, j: int|
            0 <= i < j < records.len() ==> (#[trigger] records[i]).chunk_id@ != (
            #[trigger] records[j]).chunk_id@) ==> r == records[k],
{
    let i = choose|i: int|
        0 <= i < records.len() && r == #[trigger] records[i] && r.chunk_id@ == id && forall|j: int|
            0 <= j < i ==> (#[trigger] records[j]).chunk_id@ != id;
    assert(records[i] == r);
    if i < k {
        assert(records[i].chunk_id@ == records[k].chunk_id@);
    }
}

/// Removing a file takes out the records whose path has its components, however the two
/// are written, and leaves the others as they stand.
pub proof fn removal_goes_by_components(records: Seq<Record>, file: Seq<char>, r: Record)
    ensures
        records.filter(not_of_file(file)).contains(r) <==> records.contains(r) && !(path::rooted(
            r.file@,
        ) == path::rooted(file) && path::dotted(r.file@) == path::dotted(file) && path::names(
            r.file@,
        ) == path::names(file)),
{
    path::same_path_means_same_components(r.file@, file);
    let left = records.filter(not_of_file(file));
    if left.contains(r) {
        let i = choose|i: int| 0 <= i < left.len() && left[i] == r;
        records.lemma_filter_pred(not_of_file(file), i);
        records.lemma_filter_contains_rev(not_of_file(file), r);
    }
    if records.contains(r) && not_of_file(file)(r) {
        let i = choose|i: int| 0 <= i < records.len() && records[i] == r;
        records.lemma_filter_contains(not_of_file(file), i);
    }
}

// ---------------------------------------------------------------------------
// What a catalog says
// ---------------------------------------------------------------------------

/// The records of a source.
pub open spec fn comes_from(source: Seq<char>) -> spec_fn(Record) -> bool {
    |r: Record| r.source is Some && (r.source->0)@ == source
}

/// Whether an optional text is the one that the first record of a source with one has.
pub open spec fn first_told(
    records: Seq<Record>,
    source: Seq<char>,
    told: spec_fn(Record) -> Option<String>,
    o: Option<String>,
) -> bool {
    if o is Some {
        exists|k: int|
            0 <= k < records.len() && comes_from(source)(#[trigger] records[k]) && told(records[k])
                == o && forall|j: int|
                0 <= j < k && comes_from(source)(#[trigger] records[j]) ==> told(records[j]) is None
    } else {
        forall|k: int|
            0 <= k < records.len() && comes_from(source)(#[trigger] records[k]) ==> told(
                records[k],
            ) is None
    }
}

proof fn lemma_source_chunks(records: Seq<Record>, source: Seq<char>)
    ensures
        source_chunks(records, source) == records.filter(comes_from(source)).len(),
    decreases records.len(),
{
    reveal(Seq::filter);
    if records.len() > 0 {
        lemma_source_chunks(records.drop_last(), source);
    }
}

proof fn lemma_first_told(records: Seq<Record>, source: Seq<char>)
    ensures
        first_told(
            records,
            source,
            |r: Record| r.corpus_source,
            first_corpus(records, source),
        ),
        first_told(records, source, |r: Record| r.fetched, first_fetched(records, source)),
    decreases records.len(),
{
    let corpus = |r: Record| r.corpus_source;
    let fetched = |r: Record| r.fetched;
    if records.len() > 0 {
        let init = records.drop_last();
        lemma_first_told(init, source);
        lemma_told_step(records, source, corpus, first_corpus(init, source));
        lemma_told_step(records, source, fetched, first_fetched(init, source));
    }
}

proof fn lemma_told_step(
    records: Seq<Record>,
    source: Seq<char>,
    told: spec_fn(Record) -> Option<String>,
    before: Option<String>,
)
    requires
        records.len() > 0,
        first_told(records.drop_last(), source, told, before),
    ensures
        first_told(
            records,
            source,
            told,
            if before is Some {
                before
            } else if comes_from(source)(records.last()) {
                told(records.last())
            } else {
                None
            },
        ),
{
    let init = records.drop_last();
    let n = init.len() as int;
    if before is Some {
        let k = choose|k: int|
            0 <= k < init.len() && comes_from(source)(#[trigger] init[k]) && told(init[k]) == before
                && forall|j: int|
                0 <= j < k && comes_from(source)(#[trigger] init[j]) ==> told(init[j]) is None;
        assert(records[k] == init[k]);
        assert forall|j: int| 0 <= j < k && comes_from(source)(#[trigger] records[j]) implies told(
            records[j],
        ) is None by {
            assert(init[j] == records[j]);
        }
    } else {
        assert forall|j: int| 0 <= j < n && comes_from(source)(#[trigger] records[j]) implies told(
            records[j],
        ) is None by {
            assert(init[j] == records[j]);
        }
        if comes_from(source)(records.last()) && told(records.last()) is Some {
            assert(comes_from(source)(records[n]));
        }
    }
}

proof fn lemma_source_files(records: Seq<Record>, source: Seq<char>, f: Seq<char>)
    ensures
        source_files(records, source).contains(f) <==> exists|k: int|
            0 <= k < records.len() && comes_from(source)(#[trigger] records[k]) && path::canonical(
                records[k].file@,
            ) == f,
    decreases records.len(),
{
    if records.len() > 0 {
        let init = records.drop_last();
        let n = init.len() as int;
        lemma_source_files(init, source, f);
        if source_files(init, source).contains(f) {
            let k = choose|k: int|
                0 <= k < init.len() && comes_from(source)(#[trigger] init[k]) && path::canonical(
                    init[k].file@,
                ) == f;
            assert(records[k] == init[k]);
        }
        if has_source(records.last(), source) && path::canonical(records.last().file@) == f {
            assert(comes_from(source)(records[n]));
        }
        if exists|k: int|
            0 <= k < records.len() && comes_from(source)(#[trigger] records[k]) && path::canonical(
                records[k].file@,
            ) == f {
            let k = choose|k: int|
                0 <= k < records.len() && comes_from(source)(#[trigger] records[k])
                    && path::canonical(records[k].file@) == f;
            if k < n {
                assert(init[k] == records[k]);
            }
        }
    }
}

/// An entry of a catalog counts the records of its source and the files that they are of,
/// and says what the first of them with an origin, and with a date, has.
pub proof fn entries_sum_up_their_source(records: Seq<Record>, e: CatalogEntry)
    requires
        sums_up(records, e),
    ensures
        e.chunks == records.filter(comes_from(e.source@)).len(),
        e.chunks > 0,
        first_told(records, e.source@, |r: Record| r.corpus_source, e.corpus_source),
        first_told(records, e.source@, |r: Record| r.fetched, e.fetched),
        exists|files: Set<Seq<char>>| #[trigger]
            e.files == files.len() && forall|f: Seq<char>| #[trigger]
                files.contains(f) <==> exists|k: int|
                    0 <= k < records.len() && comes_from(e.source@)(#[trigger] records[k])
                        && path::canonical(records[k].file@) == f,
{
    lemma_source_chunks(records, e.source@);
    lemma_first_told(records, e.source@);
    let files = source_files(records, e.source@);
    assert forall|f: Seq<char>| #[trigger] files.contains(f) <==> exists|k: int|
        0 <= k < records.len() && comes_from(e.source@)(#[trigger] records[k]) && path::canonical(
            records[k].file@,
        ) == f by {
        lemma_source_files(records, e.source@, f);
    }
    assert(e.files == files.len());
}

/// The entries of a catalog stand in the order of their sources, one for each.
pub proof fn catalogs_order_by_source(records: Seq<Record>, list: Seq<CatalogEntry>, i: int, j: int)
    requires
        is_catalog(records, list),
        0 <= i < j < list.len(),
    ensures
        path::text_before(list[i].source@, list[j].source@),
        list[i].source@ != list[j].source@,
{
    path::text_keys_order_by_characters(list[i].source@, list[j].source@);
    order::lemma_lex_irreflexive(path::text_key(list[i].source@));
}

// ---------------------------------------------------------------------------
// What an index file says
// ---------------------------------------------------------------------------

/// A header is the eight bytes of the mark, then the layout in four and the scratch bound
/// in eight, each with its lowest byte first.
pub proof fn headers_hold_their_numbers(schema: u32, scratch: u64)
    ensures
        header_bytes(schema, scratch).len() == 20,
        header_bytes(schema, scratch).take(8) == seq![82u8, 65, 71, 66, 79, 78, 69, 0],
        schema == header_bytes(schema, scratch)[8] + 256 * header_bytes(schema, scratch)[9] + 65536
            * header_bytes(schema, scratch)[10] + 16777216 * header_bytes(schema, scratch)[11],
        scratch == header_bytes(schema, scratch)[12] + 256 * (header_bytes(schema, scratch)[13]
            + 256 * (header_bytes(schema, scratch)[14] + 256 * (header_bytes(schema, scratch)[15]
            + 256 * (header_bytes(schema, scratch)[16] + 256 * (header_bytes(schema, scratch)[17]
            + 256 * (header_bytes(schema, scratch)[18] + 256 * header_bytes(
            schema,
            scratch,
        )[19])))))),
{
    reveal_with_fuel(byte_pow, 9);
    reveal_with_fuel(from_le, 9);
    lemma_le_roundtrip(schema as nat, 4);
    lemma_le_roundtrip(scratch as nat, 8);
    let h = header_bytes(schema, scratch);
    let (a, b) = (le_bytes(schema as nat, 4), le_bytes(scratch as nat, 8));
    assert(h.take(8) =~= index_magic());
    assert(h[8] == a[0] && h[9] == a[1] && h[10] == a[2] && h[11] == a[3]);
    assert(a.drop_first()[0] == a[1]);
    assert(a.drop_first().drop_first()[0] == a[2]);
    assert(a.drop_first().drop_first().drop_first()[0] == a[3]);
    assert(h[12] == b[0] && h[13] == b[1] && h[14] == b[2] && h[15] == b[3]);
    assert(h[16] == b[4] && h[17] == b[5] && h[18] == b[6] && h[19] == b[7]);
    let c = b.drop_first().drop_first().drop_first();
    assert(b.drop_first()[0] == b[1]);
    assert(b.drop_first().drop_first()[0] == b[2]);
    assert(c[0] == b[3]);
    assert(c.drop_first()[0] == b[4]);
    assert(c.drop_first().drop_first()[0] == b[5]);
    assert(c.drop_first().drop_first().drop_first()[0] == b[6]);
    assert(c.drop_first().drop_first().drop_first().drop_first()[0] == b[7]);
}

/// A header is taken exactly if it is one of the current layout, and its scratch bound is
/// neither zero nor more than the rest of the file holds.
pub proof fn taken_headers_are_well_formed(start: Seq<u8>, file_len: u64, n: usize)
    ensures
        header_outcome(start, file_len) == Ok::<usize, HeaderFault>(n) <==> {
            &&& start.len() >= 20
            &&& start.take(20) == header_bytes(INDEX_SCHEMA_VERSION, n as u64)
            &&& 0 < n
            &&& n + 20 <= file_len
        },
{
    reveal_with_fuel(byte_pow, 9);
    let h = header_bytes(INDEX_SCHEMA_VERSION, n as u64);
    lemma_le_roundtrip(INDEX_SCHEMA_VERSION as nat, 4);
    lemma_le_roundtrip(n as nat, 8);
    if start.len() >= 20 && start.take(20) == h {
        assert(start.take(8) =~= h.take(8));
        assert(h.take(8) =~= index_magic());
        assert(start.subrange(8, 12) =~= h.subrange(8, 12));
        assert(h.subrange(8, 12) =~= le_bytes(INDEX_SCHEMA_VERSION as nat, 4));
        assert(start.subrange(12, 20) =~= h.subrange(12, 20));
        assert(h.subrange(12, 20) =~= le_bytes(n as nat, 8));
    }
    if header_outcome(start, file_len) == Ok::<usize, HeaderFault>(n) {
        lemma_from_le_back(start.subrange(8, 12));
        lemma_from_le_back(start.subrange(12, 20));
        assert(start.take(20) =~= start.take(8) + start.subrange(8, 12) + start.subrange(12, 20));
    }
}

proof fn lemma_from_le_back(b: Seq<u8>)
    ensures
        le_bytes(from_le(b), b.len()) == b,
    decreases b.len(),
{
    if b.len() > 0 {
        lemma_from_le_back(b.drop_first());
        let rest = from_le(b.drop_first());
        let v = from_le(b);
        assert(v == b[0] as nat + 256 * rest);
        assert(v % 256 == b[0] as nat && v / 256 == rest);
        assert(b =~= seq![b[0]] + b.drop_first());
    } else {
        assert(b =~= Seq::<u8>::empty());
    }
}

/// Whether a record of an index is sound by itself: a vector of the dimension, with finite
/// numbers, and a hash for its file.
pub open spec fn sound_record(index: Index, r: Record) -> bool {
    &&& r.vector@.len() == index.dim
    &&& forall|c: int| 0 <= c < r.vector@.len() ==> (#[trigger] r.vector@[c]).finite()
    &&& index.file_hashes@.contains_key(path::canonical(r.file@))
}

/// Whether no two of the records have one id.
pub open spec fn ids_differ(records: Seq<Record>) -> bool {
    forall|i: int, j: int|
        0 <= i < j < records.len() ==> (#[trigger] records[i]).chunk_id@ != (
        #[trigger] records[j]).chunk_id@
}

/// An index is valid exactly if it has the current layout and a dimension, each vector
/// has that dimension and finite numbers, each file a hash, and no two records one id.
pub proof fn valid_indexes_are_whole(index: Index)
    ensures
        index.valid() <==> index.schema_version == INDEX_SCHEMA_VERSION && index.dim > 0 && (forall|
            i: int,
        |
            0 <= i < index.records@.len() ==> sound_record(index, #[trigger] index.records@[i]))
            && ids_differ(index.records@),
{
    let records = index.records@;
    if index.valid() {
        assert forall|i: int| 0 <= i < records.len() implies sound_record(
            index,
            #[trigger] records[i],
        ) by {
            assert(index.record_fault(i) is None);
        }
        assert forall|i: int, j: int| 0 <= i < j < records.len() implies (
        #[trigger] records[i]).chunk_id@ != (#[trigger] records[j]).chunk_id@ by {
            assert(index.record_fault(j) is None);
            assert(!id_taken(records, j));
        }
    }
    if index.schema_version == INDEX_SCHEMA_VERSION && index.dim > 0 && (forall|i: int|
        0 <= i < records.len() ==> sound_record(index, #[trigger] records[i])) && ids_differ(
        records,
    ) {
        assert forall|i: int| 0 <= i < records.len() implies #[trigger] index.record_fault(
            i,
        ) is None by {
            assert(sound_record(index, records[i]));
            assert(all_finite(records[i].vector@));
            if id_taken(records, i) {
                let j = choose|j: int|
                    0 <= j < i && (#[trigger] records[j]).chunk_id@ == records[i].chunk_id@;
                assert(records[j].chunk_id@ != records[i].chunk_id@);
            }
        }
    }
}

/// The scratch bound covers each text that is stored, and a number, and is no more than
/// the longest of them takes.
pub proof fn the_scratch_bound_covers_every_text(index: Index, n: nat, k: int)
    requires
        index.is_scratch_len(n),
        0 <= k < index.records@.len(),
    ensures
        n >= 8,
        vstd::utf8::encode_utf8(index.model@).len() <= n,
        vstd::utf8::encode_utf8(index.records@[k].file@).len() <= n,
        vstd::utf8::encode_utf8(index.records@[k].lang@).len() <= n,
        vstd::utf8::encode_utf8(index.records@[k].text@).len() <= n,
        vstd::utf8::encode_utf8(index.records@[k].chunk_id@).len() <= n,
        fits(index.records@[k].symbol, n),
        fits(index.records@[k].kind, n),
        fits(index.records@[k].parent, n),
        fits(index.records@[k].signature, n),
        fits(index.records@[k].source, n),
        fits(index.records@[k].corpus_source, n),
        fits(index.records@[k].fetched, n),
        forall|h: int|
            0 <= h < index.records@[k].headings@.len() ==> vstd::utf8::encode_utf8(
                (#[trigger] index.records@[k].headings@[h])@,
            ).len() <= n,
        forall|p: int|
            0 <= p < index.file_hashes.path_texts().len() ==> vstd::utf8::encode_utf8(
                (#[trigger] index.file_hashes.path_texts()[p])@,
            ).len() <= n,
{
    let r = index.records@[k];
    assert(index.scratch_covers(8));
    assert(index.scratch_covers(utf8_len(index.model@)));
    lemma_covered(index, k, utf8_len(r.file@));
    lemma_covered(index, k, utf8_len(r.lang@));
    lemma_covered(index, k, utf8_len(r.text@));
    lemma_covered(index, k, utf8_len(r.chunk_id@));
    lemma_opt_covered(index, k, n, r.symbol);
    lemma_opt_covered(index, k, n, r.kind);
    lemma_opt_covered(index, k, n, r.parent);
    lemma_opt_covered(index, k, n, r.signature);
    lemma_opt_covered(index, k, n, r.source);
    lemma_opt_covered(index, k, n, r.corpus_source);
    lemma_opt_covered(index, k, n, r.fetched);
    assert forall|h: int| 0 <= h < r.headings@.len() implies vstd::utf8::encode_utf8(
        (#[trigger] r.headings@[h])@,
    ).len() <= n by {
        assert(utf8_len(r.headings@[h]@) == utf8_len(r.headings@[h]@));
        lemma_covered(index, k, utf8_len(r.headings@[h]@));
    }
    assert forall|p: int| 0 <= p < index.file_hashes.path_texts().len() implies vstd::utf8::encode_utf8(
        (#[trigger] index.file_hashes.path_texts()[p])@,
    ).len() <= n by {
        assert(index.scratch_covers(utf8_len(index.file_hashes.path_texts()[p]@)));
    }
}

/// Whether a text that may be absent takes at most so many bytes.
pub open spec fn fits(o: Option<String>, n: nat) -> bool {
    o is Some ==> vstd::utf8::encode_utf8((o->0)@).len() <= n
}

proof fn lemma_covered(index: Index, k: int, m: nat)
    requires
        0 <= k < index.records@.len(),
        record_text_len(index.records@[k], m),
    ensures
        index.scratch_covers(m),
{
}

proof fn lemma_opt_covered(index: Index, k: int, n: nat, o: Option<String>)
    requires
        index.is_scratch_len(n),
        0 <= k < index.records@.len(),
        forall|m: nat| #[trigger] opt_has_len(o, m) ==> record_text_len(index.records@[k], m),
    ensures
        fits(o, n),
{
    if o is Some {
        let m = utf8_len((o->0)@);
        assert(opt_has_len(o, m));
        lemma_covered(index, k, m);
    }
}

/// Two temporary files of one index are the same only if the same process made them as
/// the same one of its files.
pub proof fn temporary_names_tell_processes_apart(
    p: Seq<char>,
    process: nat,
    sequence: nat,
    other: nat,
    number: nat,
)
    requires
        temporary_name(p, process, sequence) == temporary_name(p, other, number),
    ensures
        process == other,
        sequence == number,
{
    reveal_strlit("-");
    let name = match path::file_name(p) {
        Some(name) => name,
        None => "index"@,
    };
    let head = "."@ + name + ".tmp-"@;
    let (x, y) = (text::decimal(process), text::decimal(other));
    let (u, v) = (text::decimal(sequence), text::decimal(number));
    let dash = seq!['-'];
    assert("-"@ =~= dash);
    let (left, right) = (temporary_name(p, process, sequence), temporary_name(p, other, number));
    assert(left.skip(head.len() as int) =~= x + dash + u);
    assert(right.skip(head.len() as int) =~= y + dash + v);
    text::lemma_decimal_digits(process);
    text::lemma_decimal_digits(other);
    assert(!x.contains('-') && !y.contains('-'));
    path::lemma_terminated(x, y, '-', u, v);
    text::lemma_decimal_injective(process, other);
    text::lemma_decimal_injective(sequence, number);
}

/// A number of eight bytes is read back from them.
pub proof fn lemma_eight_bytes(v: u64)
    ensures
        le_bytes(v as nat, 8).len() == 8,
        from_le(le_bytes(v as nat, 8)) == v,
{
    reveal_with_fuel(byte_pow, 9);
    lemma_le_roundtrip(v as nat, 8);
}

// ---------------------------------------------------------------------------
// What the operations of an index give
// ---------------------------------------------------------------------------

/// Looking for a symbol gives every record whose symbol is something, the name, and
/// something, case aside, and no other; those whose symbol is the name come first, and
/// each group stands as in the sources.
pub proof fn find_symbol_gives_what_holds_the_name(
    index: &Index,
    name: &str,
    r: Vec<&Record>,
    k: int,
)
    requires
        call_ensures(Index::find_symbol, (index, name), r),
        index.records@.len() <= usize::MAX,
        0 <= k < index.records@.len(),
    ensures
        forall|i: int|
            0 <= i < r@.len() ==> index.records@.contains(*#[trigger] r@[i]) && named_somewhere(
                *r@[i],
                name@,
            ),
        named_somewhere(index.records@[k], name@) ==> exists|i: int|
            0 <= i < r@.len() && *#[trigger] r@[i] == index.records@[k],
        forall|i: int, j: int|
            0 <= i < j < r@.len() ==> {
                let (a, b) = (*#[trigger] r@[i], *#[trigger] r@[j]);
                &&& named_exactly(b, name@) ==> named_exactly(a, name@)
                &&& named_exactly(a, name@) == named_exactly(b, name@) ==> !stands_before(b, a)
            },
{
    let records = index.records@;
    let picked = choose|picked: Seq<usize>| #[trigger]
        is_symbol_search(records, name@, picked) && refers_to(r@, records, picked);
    symbols_are_found_wherever_the_name_stands(records, name@, picked);
    assert forall|i: int| 0 <= i < r@.len() implies records.contains(*#[trigger] r@[i])
        && named_somewhere(*r@[i], name@) by {
        let at = picked[i] as int;
        assert(*r@[i] == records[at]);
        assert(picked.contains(picked[i]));
        assert(named_somewhere(records[at], name@));
    }
    if named_somewhere(records[k], name@) {
        assert(picked.contains(k as usize));
        let i = choose|i: int| 0 <= i < picked.len() && picked[i] == k as usize;
        assert(*r@[i] == records[picked[i] as int]);
    }
    assert forall|i: int, j: int| 0 <= i < j < r@.len() implies {
        let (a, b) = (*#[trigger] r@[i], *#[trigger] r@[j]);
        &&& named_exactly(b, name@) ==> named_exactly(a, name@)
        &&& named_exactly(a, name@) == named_exactly(b, name@) ==> !stands_before(b, a)
    } by {
        assert(*r@[i] == records[picked[i] as int] && *r@[j] == records[picked[j] as int]);
    }
}

/// An outline gives every record of a file whose path is something, the query, and
/// something, and no other, as they stand in the sources.
pub proof fn outline_gives_what_holds_the_query(
    index: &Index,
    query: &str,
    r: Vec<&Record>,
    k: int,
)
    requires
        call_ensures(Index::outline, (index, query), r),
        index.records@.len() <= usize::MAX,
        0 <= k < index.records@.len(),
    ensures
        forall|i: int|
            0 <= i < r@.len() ==> index.records@.contains(*#[trigger] r@[i]) && text::holds(
                r@[i].file@,
                query@,
            ),
        text::holds(index.records@[k].file@, query@) ==> exists|i: int|
            0 <= i < r@.len() && *#[trigger] r@[i] == index.records@[k],
        forall|i: int, j: int|
            0 <= i < j < r@.len() ==> !stands_before(*#[trigger] r@[j], *#[trigger] r@[i]),
{
    let records = index.records@;
    let picked = choose|picked: Seq<usize>| #[trigger]
        is_outline(records, query@, picked) && refers_to(r@, records, picked);
    outlines_list_the_files_that_hold_the_query(records, query@, picked);
    assert forall|i: int| 0 <= i < r@.len() implies records.contains(*#[trigger] r@[i])
        && text::holds(r@[i].file@, query@) by {
        let at = picked[i] as int;
        assert(*r@[i] == records[at]);
        assert(picked.contains(picked[i]));
        assert(text::holds(records[at].file@, query@));
    }
    if text::holds(records[k].file@, query@) {
        assert(picked.contains(k as usize));
        let i = choose|i: int| 0 <= i < picked.len() && picked[i] == k as usize;
        assert(*r@[i] == records[picked[i] as int]);
    }
    assert forall|i: int, j: int| 0 <= i < j < r@.len() implies !stands_before(
        *#[trigger] r@[j],
        *#[trigger] r@[i],
    ) by {
        assert(*r@[i] == records[picked[i] as int] && *r@[j] == records[picked[j] as int]);
    }
}

/// What is found by an id is the first record that carries it.
pub proof fn ids_give_the_first_record(index: &Index, id: &str, r: Option<&Record>)
    requires
        call_ensures(Index::get_by_chunk_id, (index, id), r),
    ensures
        r is Some ==> r->0.chunk_id@ == id@ && exists|k: int|
            0 <= k < index.records@.len() && #[trigger] index.records@[k] == *(r->0) && forall|
                j: int,
            |
                0 <= j < k ==> (#[trigger] index.records@[j]).chunk_id@ != id@,
{
    if r is Some {
        let found = *(r->0);
        let i = choose|i: int|
            0 <= i < index.records@.len() && found == #[trigger] index.records@[i]
                && found.chunk_id@ == id@ && forall|j: int|
                0 <= j < i ==> (#[trigger] index.records@[j]).chunk_id@ != id@;
        assert(index.records@[i].chunk_id@ == id@);
    }
}

/// An index is accepted exactly if it is whole, and a header is read back exactly if it
/// was written for the current layout.
pub proof fn whole_indexes_are_accepted(index: &Index, r: Result<(), IndexFault>)
    requires
        call_ensures(Index::validate, (index,), r),
    ensures
        r is Ok <==> index.schema_version == 4 && index.dim > 0 && (forall|i: int|
            0 <= i < index.records@.len() ==> sound_record(*index, #[trigger] index.records@[i]))
            && ids_differ(index.records@),
{
    valid_indexes_are_whole(*index);
    if r is Err {
        valid_means_no_fault(*index, r->Err_0);
    }
}

/// A header is twenty bytes: the mark, the layout, and the scratch bound.
pub proof fn headers_are_twenty_bytes(
    scratch: usize,
    h: Vec<u8>,
    start: &Vec<u8>,
    file_len: u64,
    r: Result<usize, HeaderFault>,
)
    requires
        call_ensures(encode_header, (scratch,), h),
        call_ensures(decode_header, (start, file_len), r),
    ensures
        h@.len() == 20,
        h@.take(8) == seq![82u8, 65, 71, 66, 79, 78, 69, 0],
        h@[8] == 4 && h@[9] == 0 && h@[10] == 0 && h@[11] == 0,
        start@.len() >= 20 && start@.take(20) == h@ && 0 < scratch && scratch + 20 <= file_len
            ==> r == Ok::<usize, HeaderFault>(scratch),
        r == Ok::<usize, HeaderFault>(scratch) ==> start@.len() >= 20 && start@.take(20) == h@ && 0
            < scratch && scratch + 20 <= file_len,
        start@.len() < 8 ==> r == Err::<usize, HeaderFault>(HeaderFault::Truncated),
        start@.len() >= 8 && start@.take(8) != seq![82u8, 65, 71, 66, 79, 78, 69, 0] ==> r == Err::<
            usize,
            HeaderFault,
        >(HeaderFault::NotAnIndex),
{
    headers_hold_their_numbers(INDEX_SCHEMA_VERSION, scratch as u64);
    taken_headers_are_well_formed(start@, file_len, scratch);
}

/// A temporary file stands beside the index, under a name of its own that starts with a
/// dot.
pub proof fn temporary_files_stand_beside(p: &str, process: u32, sequence: u64, r: String)
    requires
        call_ensures(temporary_path, (p, process, sequence), r),
    ensures
        r@ == path::joined(
            path::parent_or_dot(p@),
            temporary_name(p@, process as nat, sequence as nat),
        ),
        temporary_name(p@, process as nat, sequence as nat)[0] == '.',
        path::file_name(p@) is Some ==> text::holds(
            temporary_name(p@, process as nat, sequence as nat),
            path::file_name(p@)->0,
        ),
{
    reveal_strlit(".");
    let name = match path::file_name(p@) {
        Some(name) => name,
        None => "index"@,
    };
    let tail = ".tmp-"@ + text::decimal(process as nat) + "-"@ + text::decimal(sequence as nat);
    let whole = temporary_name(p@, process as nat, sequence as nat);
    assert(whole =~= "."@ + name + tail);
    assert(text::holds(whole, name));
}

/// What was decoded is an index if nothing stands behind it and it is whole.
pub proof fn decoded_indexes_are_whole(out: Result<(Index, bool), String>, r: Result<Index, LoadError>)
    requires
        call_ensures(accept_decoded, (out,), r),
    ensures
        r is Ok ==> out is Ok && r->Ok_0 == (out->Ok_0).0 && (out->Ok_0).1 && r->Ok_0.valid(),
        out is Ok && (out->Ok_0).1 && (out->Ok_0).0.valid() ==> r is Ok,
        out is Ok && !(out->Ok_0).1 ==> r == Err::<Index, LoadError>(LoadError::TrailingData),
        out is Err ==> r == Err::<Index, LoadError>(LoadError::Decode(out->Err_0)),
{
    if out is Ok && (out->Ok_0).1 && (out->Ok_0).0.valid() {
        match r {
            Err(LoadError::Invalid { fault, message }) => {
                valid_means_no_fault((out->Ok_0).0, fault);
            },
            _ => {},
        }
    }
}

/// Whether a fault is what is wrong with a record, where the tests before it hold.
pub open spec fn wrong_with(index: Index, fault: IndexFault, i: int) -> bool {
    let r = index.records@[i];
    let fits = r.vector@.len() == index.dim;
    let finite = forall|c: int|
        0 <= c < r.vector@.len() ==> (#[trigger] r.vector@[c]).finite();
    let known = index.file_hashes@.contains_key(path::canonical(r.file@));
    match fault {
        IndexFault::VectorLength { record } => record == i && !fits,
        IndexFault::NonFinite { record } => record == i && fits && !finite,
        IndexFault::NoFileHash { record } => record == i && fits && finite && !known,
        IndexFault::DuplicateId { record } => record == i && fits && finite && known && exists|
            j: int,
        |
            0 <= j < i && (#[trigger] index.records@[j]).chunk_id@ == r.chunk_id@,
        _ => false,
    }
}

/// An index that is refused is refused for the first thing that is wrong with it: its
/// layout, its dimension, or the first record that is not in order.
pub proof fn faults_name_what_is_wrong(index: &Index, fault: IndexFault)
    requires
        call_ensures(Index::validate, (index,), Err(fault)),
        index.records@.len() <= usize::MAX,
    ensures
        index.schema_version != 4 ==> fault == (IndexFault::Schema { found: index.schema_version }),
        index.schema_version == 4 && index.dim == 0 ==> fault == IndexFault::ZeroDimension,
        index.schema_version == 4 && index.dim > 0 ==> exists|i: int|
            0 <= i < index.records@.len() && #[trigger] wrong_with(*index, fault, i) && forall|j: int|
                0 <= j < i ==> sound_record(*index, #[trigger] index.records@[j]),
{
    if index.schema_version == 4 && index.dim > 0 {
        let i = choose|i: int|
            0 <= i < index.records@.len() && index.sound_upto(i) && #[trigger] index.record_fault(
                i,
            ) == Some(fault);
        assert(all_finite(index.records@[i].vector@) == forall|c: int|
            0 <= c < index.records@[i].vector@.len() ==> (
            #[trigger] index.records@[i].vector@[c]).finite());
        assert(wrong_with(*index, fault, i));
        assert forall|j: int| 0 <= j < i implies sound_record(
            *index,
            #[trigger] index.records@[j],
        ) by {
            assert(index.record_fault(j) is None);
        }
    }
}

/// A header with the mark and the current layout whose scratch bound is zero, or more
/// than the rest of the file holds, is refused for that.
pub proof fn scratch_bounds_are_checked(scratch: usize, tail: Seq<u8>, file_len: u64)
    ensures
        scratch == 0 || scratch + 20 > file_len ==> header_outcome(
            header_bytes(INDEX_SCHEMA_VERSION, scratch as u64) + tail,
            file_len,
        ) == Err::<usize, HeaderFault>(HeaderFault::InvalidScratch),
{
    reveal_with_fuel(byte_pow, 9);
    lemma_le_roundtrip(INDEX_SCHEMA_VERSION as nat, 4);
    lemma_le_roundtrip(scratch as nat, 8);
    let start = header_bytes(INDEX_SCHEMA_VERSION, scratch as u64) + tail;
    assert(start.take(8) =~= index_magic());
    assert(start.subrange(8, 12) =~= le_bytes(INDEX_SCHEMA_VERSION as nat, 4));
    assert(start.subrange(12, 20) =~= le_bytes(scratch as nat, 8));
}

/// A header that is cut off is truncated, wherever it is cut.
pub proof fn cut_headers_are_truncated(scratch: u64, n: int, file_len: u64)
    requires
        0 <= n < 20,
    ensures
        header_outcome(header_bytes(INDEX_SCHEMA_VERSION, scratch).take(n), file_len) == Err::<
            usize,
            HeaderFault,
        >(HeaderFault::Truncated),
{
    reveal_with_fuel(byte_pow, 9);
    lemma_le_roundtrip(INDEX_SCHEMA_VERSION as nat, 4);
    lemma_le_roundtrip(scratch as nat, 8);
    let start = header_bytes(INDEX_SCHEMA_VERSION, scratch).take(n);
    if n >= 8 {
        assert(start.take(8) =~= index_magic());
        if n >= 12 {
            assert(start.subrange(8, 12) =~= le_bytes(INDEX_SCHEMA_VERSION as nat, 4));
        }
    }
}

} // verus!
