//! Building and updating the index: what is kept of a stored one, which files are
//! dropped, skipped or read again, and the records that a file gives.

use crate::chunk;
use crate::chunk::Chunk;
use crate::chunk::ChunkError;
use crate::chunk::Lang;
use crate::config::ChunkConfig;
use crate::config::Config;
use crate::config::ConfigFault;
use crate::embcache;
use crate::embcache::EmbeddingCache;
use crate::embcache::ResolveError;
use crate::embcache::Resolved;
use crate::float::FloatBits;
use crate::hash;
use crate::metadata;
use crate::metadata::ChunkMeta;
use crate::metadata::FileAnalysis;
use crate::path;
use crate::store;
use crate::store::Index;
use crate::store::LoadError;
use crate::store::Record;
use crate::store::SaveError;
use crate::text;
use std::collections::HashMap;
use vstd::hash_set::StringHashSet;
use vstd::prelude::*;

verus! {

/// Summary of a run.
#[derive(Debug, Clone, Copy, PartialEq, Eq, Structural)]
pub struct Stats {
    pub files_indexed: usize,
    pub files_skipped: usize,
    pub files_pruned: usize,
    pub files_failed: usize,
    pub chunks: usize,
    pub cache_hits: usize,
    pub cache_misses: usize,
}

impl Stats {
    /// Whether nothing was counted yet.
    pub open spec fn is_zero(self) -> bool {
        self == (Stats {
            files_indexed: 0,
            files_skipped: 0,
            files_pruned: 0,
            files_failed: 0,
            chunks: 0,
            cache_hits: 0,
            cache_misses: 0,
        })
    }

    /// Whether the counts fit together after `n` files: every chunk was either served
    /// from the cache or embedded, and no file was counted twice.
    pub open spec fn adds_up(self, n: int) -> bool {
        &&& self.cache_hits + self.cache_misses == self.chunks
        &&& self.files_indexed + self.files_skipped + self.files_failed <= n
    }
}

impl Default for Stats {
    fn default() -> (r: Self)
        ensures
            r.is_zero(),
    {
        Stats {
            files_indexed: 0,
            files_skipped: 0,
            files_pruned: 0,
            files_failed: 0,
            chunks: 0,
            cache_hits: 0,
            cache_misses: 0,
        }
    }
}

// ---------------------------------------------------------------------------
// The index to start from
// ---------------------------------------------------------------------------

/// Whether an index is empty and made for a model, a dimension and a fingerprint.
pub open spec fn is_fresh(index: Index, model: Seq<char>, dim: usize, fingerprint: u64) -> bool {
    &&& index.schema_version == store::INDEX_SCHEMA_VERSION
    &&& index.ingest_fingerprint == fingerprint
    &&& index.model@ == model
    &&& index.dim == dim
    &&& index.file_hashes@ == Map::<Seq<char>, u64>::empty()
    &&& index.file_hashes.path_texts() == Seq::<String>::empty()
    &&& index.records@ == Seq::<Record>::empty()
}

/// Whether a stored index was made with the same model, dimension and fingerprint.
pub open spec fn reusable(index: Index, model: Seq<char>, dim: usize, fingerprint: u64) -> bool {
    index.model@ == model && index.dim == dim && index.ingest_fingerprint == fingerprint
}

/// A stored index where its settings still hold, and else an empty one.
pub fn reuse_or_new(existing: Index, model: &str, dim: usize, ingest_fingerprint: u64) -> (r: Index)
    ensures
        if reusable(existing, model@, dim, ingest_fingerprint) {
            r == existing
        } else {
            is_fresh(r, model@, dim, ingest_fingerprint)
        },
{
    if text::same_text(existing.model.as_str(), model) && existing.dim == dim
        && existing.ingest_fingerprint == ingest_fingerprint {
        existing
    } else {
        Index::new(model.to_string(), dim, ingest_fingerprint)
    }
}

/// Whether `r` is the index that a run starts from, where `load` reads the stored one.
pub open spec fn starts_with<L: FnOnce() -> Result<Index, LoadError>>(
    stored: bool,
    load: L,
    model: Seq<char>,
    dim: usize,
    fingerprint: u64,
    reindex: bool,
    r: Result<Index, LoadError>,
) -> bool {
    if reindex || !stored {
        r is Ok && is_fresh(r->Ok_0, model, dim, fingerprint)
    } else {
        exists|out: Result<Index, LoadError>| #[trigger]
            load.ensures((), out) && (match out {
                Err(e) => r == Err::<Index, LoadError>(e),
                Ok(existing) => r is Ok && if reusable(existing, model, dim, fingerprint) {
                    r->Ok_0 == existing
                } else {
                    is_fresh(r->Ok_0, model, dim, fingerprint)
                },
            })
    }
}

/// The index that a run starts from: the stored one, if there is one that may be
/// reused and no full rebuild is asked for, and else an empty one. A stored index that
/// cannot be read is an error.
pub fn load_or_new<L: FnOnce() -> Result<Index, LoadError>>(
    stored: bool,
    load: L,
    model: &str,
    dim: usize,
    ingest_fingerprint: u64,
    reindex: bool,
) -> (r: Result<Index, LoadError>)
    requires
        stored && !reindex ==> load.requires(()),
    ensures
        starts_with(stored, load, model@, dim, ingest_fingerprint, reindex, r),
{
    if reindex || !stored {
        return Ok(Index::new(model.to_string(), dim, ingest_fingerprint));
    }
    let out = load();
    let ghost given = out;
    assert(load.ensures((), given));
    match out {
        Ok(existing) => Ok(reuse_or_new(existing, model, dim, ingest_fingerprint)),
        Err(e) => Err(e),
    }
}

// ---------------------------------------------------------------------------
// Pruning
// ---------------------------------------------------------------------------

/// Whether one of the texts is a path to the same file.
pub open spec fn lists_path(list: Seq<Seq<char>>, p: Seq<char>) -> bool {
    exists|i: int| 0 <= i < list.len() && path::same_path(#[trigger] list[i], p)
}

/// The predicate of indexed files that are no longer among the discovered ones.
pub open spec fn vanished(root: Seq<char>, files: Seq<Seq<char>>) -> spec_fn(String) -> bool {
    |p: String| !lists_path(files, path::joined(root, p@))
}

/// The predicate that keeps the records of files that are not listed.
pub open spec fn not_of_files(gone: Seq<Seq<char>>) -> spec_fn(Record) -> bool {
    |r: Record| !lists_path(gone, r.file@)
}

/// The predicate that keeps the texts that are not listed paths.
pub open spec fn not_listed(gone: Seq<Seq<char>>) -> spec_fn(String) -> bool {
    |p: String| !lists_path(gone, p@)
}

/// Content hashes without those of the listed files.
pub open spec fn without_paths(hashes: Map<Seq<char>, u64>, gone: Seq<Seq<char>>) -> Map<
    Seq<char>,
    u64,
> {
    hashes.restrict(Set::new(|k: Seq<char>| !listed_key(gone, k)))
}

/// Whether `k` is the normal form of a listed path.
pub open spec fn listed_key(list: Seq<Seq<char>>, k: Seq<char>) -> bool {
    exists|i: int| 0 <= i < list.len() && path::canonical(#[trigger] list[i]) == k
}

/// Whether two indexes were made with the same settings.
pub open spec fn same_settings(a: Index, b: Index) -> bool {
    &&& a.schema_version == b.schema_version
    &&& a.ingest_fingerprint == b.ingest_fingerprint
    &&& a.model == b.model
    &&& a.dim == b.dim
}

/// Whether `after` is `before` without the listed files.
pub open spec fn without_files(before: Index, gone: Seq<Seq<char>>, after: Index) -> bool {
    &&& after.records@ == before.records@.filter(not_of_files(gone))
    &&& after.file_hashes@ == without_paths(before.file_hashes@, gone)
    &&& after.file_hashes.path_texts() == before.file_hashes.path_texts().filter(not_listed(gone))
    &&& same_settings(before, after)
}

/// Keeping what meets one predicate and then what meets another keeps what meets both.
proof fn lemma_filter_twice<T>(s: Seq<T>, p: spec_fn(T) -> bool, q: spec_fn(T) -> bool)
    ensures
        s.filter(p).filter(q) == s.filter(|x: T| p(x) && q(x)),
    decreases s.len(),
{
    reveal(Seq::filter);
    if s.len() > 0 {
        let init = s.drop_last();
        lemma_filter_twice(init, p, q);
        if p(s.last()) {
            let left = s.filter(p);
            assert(left.drop_last() =~= init.filter(p));
            assert(left.last() == s.last());
        }
    }
}

/// Listing one more path.
proof fn lemma_one_more(gone: Seq<Seq<char>>, i: int, p: Seq<char>)
    requires
        0 <= i < gone.len(),
    ensures
        lists_path(gone.take(i + 1), p) <==> lists_path(gone.take(i), p) || path::same_path(
            gone[i],
            p,
        ),
{
    let few = gone.take(i);
    let more = gone.take(i + 1);
    if lists_path(few, p) {
        let j = choose|j: int| 0 <= j < few.len() && path::same_path(#[trigger] few[j], p);
        assert(path::same_path(more[j], p));
    }
    if path::same_path(gone[i], p) {
        assert(path::same_path(more[i], p));
    }
    if lists_path(more, p) {
        let j = choose|j: int| 0 <= j < more.len() && path::same_path(#[trigger] more[j], p);
        if j < i {
            assert(path::same_path(few[j], p));
        }
    }
}

/// Dropping one more file.
proof fn lemma_without_one_more(
    before: Index,
    gone: Seq<Seq<char>>,
    i: int,
    mid: Index,
    after: Index,
)
    requires
        0 <= i < gone.len(),
        without_files(before, gone.take(i), mid),
        after.records@ == mid.records@.filter(store::not_of_file(gone[i])),
        after.file_hashes@ == mid.file_hashes@.remove(path::canonical(gone[i])),
        after.file_hashes.path_texts() == mid.file_hashes.path_texts().filter(
            |p: String| !path::same_path(p@, gone[i]),
        ),
        same_settings(mid, after),
    ensures
        without_files(before, gone.take(i + 1), after),
{
    let few = gone.take(i);
    let more = gone.take(i + 1);
    let own = store::not_of_file(gone[i]);
    lemma_filter_twice(before.records@, not_of_files(few), own);
    assert forall|p: Seq<char>| #[trigger] lists_path(more, p) <==> lists_path(few, p)
        || path::same_path(gone[i], p) by {
        lemma_one_more(gone, i, p);
    }
    assert((|r: Record| not_of_files(few)(r) && own(r)) =~= not_of_files(more));
    let own_text = |p: String| !path::same_path(p@, gone[i]);
    lemma_filter_twice(before.file_hashes.path_texts(), not_listed(few), own_text);
    assert((|p: String| not_listed(few)(p) && own_text(p)) =~= not_listed(more));
    assert forall|k: Seq<char>| #[trigger] listed_key(more, k) <==> listed_key(few, k)
        || path::canonical(gone[i]) == k by {
        if listed_key(few, k) {
            let j = choose|j: int| 0 <= j < few.len() && path::canonical(#[trigger] few[j]) == k;
            assert(path::canonical(more[j]) == k);
        }
        if path::canonical(gone[i]) == k {
            assert(path::canonical(more[i]) == k);
        }
        if listed_key(more, k) {
            let j = choose|j: int| 0 <= j < more.len() && path::canonical(#[trigger] more[j]) == k;
            if j < i {
                assert(path::canonical(few[j]) == k);
            }
        }
    }
    assert(after.file_hashes@ =~= without_paths(before.file_hashes@, more));
}

/// The texts of the indexed files that are no longer among the discovered ones.
fn stale_paths(index: &Index, root: &str, files: &Vec<String>) -> (r: Vec<String>)
    ensures
        r@ == index.file_hashes.path_texts().filter(vanished(root@, text::texts(files@))),
{
    let ghost list = text::texts(files@);
    let mut known = StringHashSet::new();
    let mut i: usize = 0;
    while i < files.len()
        invariant
            list == text::texts(files@),
            i <= files.len(),
            forall|k: Seq<char>| #[trigger] known@.contains(k) <==> listed_key(
                list.take(i as int),
                k,
            ),
        decreases files.len() - i,
    {
        let key = path::canonical_text(files[i].as_str());
        proof {
            let few = list.take(i as int);
            let more = list.take(i + 1);
            assert forall|k: Seq<char>| #[trigger] listed_key(more, k) <==> listed_key(few, k) || k
                == key@ by {
                if listed_key(few, k) {
                    let j = choose|j: int|
                        0 <= j < few.len() && path::canonical(#[trigger] few[j]) == k;
                    assert(path::canonical(more[j]) == k);
                }
                if k == key@ {
                    assert(path::canonical(more[i as int]) == k);
                }
                if listed_key(more, k) {
                    let j = choose|j: int|
                        0 <= j < more.len() && path::canonical(#[trigger] more[j]) == k;
                    if j < i {
                        assert(path::canonical(few[j]) == k);
                    }
                }
            }
        }
        known.insert(key);
        i += 1;
    }
    assert(list.take(list.len() as int) =~= list);
    let paths = index.file_hashes.paths();
    let ghost gone = vanished(root@, list);
    let mut out: Vec<String> = Vec::new();
    let mut n: usize = 0;
    proof {
        reveal(Seq::filter);
    }
    assert(paths@.take(0).filter(gone) =~= seq![]);
    while n < paths.len()
        invariant
            n <= paths.len(),
            gone == vanished(root@, list),
            forall|k: Seq<char>| #[trigger] known@.contains(k) <==> listed_key(list, k),
            out@ == paths@.take(n as int).filter(gone),
        decreases paths.len() - n,
    {
        proof {
            reveal(Seq::filter);
            assert(paths@.take(n + 1).drop_last() =~= paths@.take(n as int));
        }
        let whole = path::join_path(root, paths[n].as_str());
        let key = path::canonical_text(whole.as_str());
        let there = known.contains(key.as_str());
        proof {
            assert(listed_key(list, key@) <==> lists_path(list, whole@)) by {
                if listed_key(list, key@) {
                    let j = choose|j: int|
                        0 <= j < list.len() && path::canonical(#[trigger] list[j]) == key@;
                    assert(path::same_path(list[j], whole@));
                }
                if lists_path(list, whole@) {
                    let j = choose|j: int|
                        0 <= j < list.len() && path::same_path(#[trigger] list[j], whole@);
                    assert(path::canonical(list[j]) == key@);
                }
            }
        }
        if !there {
            out.push(paths[n].clone());
        }
        n += 1;
    }
    assert(paths@.take(paths@.len() as int) =~= paths@);
    out
}

/// The paths of the files that pruning drops.
pub open spec fn pruned_paths(index: Index, root: Seq<char>, files: Seq<Seq<char>>) -> Seq<
    Seq<char>,
> {
    text::texts(index.file_hashes.path_texts().filter(vanished(root, files)))
}

/// Drops the files that are no longer among the discovered ones, and says how many
/// those are.
pub fn prune(index: &mut Index, root: &str, files: &Vec<String>) -> (r: usize)
    ensures
        without_files(
            *old(index),
            pruned_paths(*old(index), root@, text::texts(files@)),
            *final(index),
        ),
        r == pruned_paths(*old(index), root@, text::texts(files@)).len(),
{
    let ghost before = *index;
    let stale = stale_paths(index, root, files);
    let ghost gone = text::texts(stale@);
    proof {
        lemma_none_gone(before);
        assert(gone.take(0) =~= Seq::<Seq<char>>::empty());
    }
    let mut i: usize = 0;
    while i < stale.len()
        invariant
            gone == text::texts(stale@),
            i <= stale.len(),
            without_files(before, gone.take(i as int), *index),
        decreases stale.len() - i,
    {
        let ghost mid = *index;
        index.remove_file(stale[i].as_str());
        proof {
            assert(gone[i as int] == stale@[i as int]@);
            lemma_without_one_more(before, gone, i as int, mid, *index);
        }
        i += 1;
    }
    assert(gone.take(gone.len() as int) =~= gone);
    stale.len()
}

/// Dropping no file changes nothing.
proof fn lemma_none_gone(index: Index)
    ensures
        without_files(index, seq![], index),
{
    let none = Seq::<Seq<char>>::empty();
    assert forall|p: Seq<char>| !#[trigger] lists_path(none, p) by {}
    lemma_filter_all(index.records@, not_of_files(none));
    lemma_filter_all(index.file_hashes.path_texts(), not_listed(none));
    assert(without_paths(index.file_hashes@, none) =~= index.file_hashes@);
}

proof fn lemma_filter_all<T>(s: Seq<T>, p: spec_fn(T) -> bool)
    requires
        forall|i: int| 0 <= i < s.len() ==> p(#[trigger] s[i]),
    ensures
        s.filter(p) == s,
    decreases s.len(),
{
    reveal(Seq::filter);
    if s.len() > 0 {
        assert forall|i: int| 0 <= i < s.drop_last().len() implies p(
            #[trigger] s.drop_last()[i],
        ) by {
            assert(s.drop_last()[i] == s[i]);
        }
        lemma_filter_all(s.drop_last(), p);
        assert(s.drop_last().push(s.last()) =~= s);
    }
}

// ---------------------------------------------------------------------------
// The records of a file
// ---------------------------------------------------------------------------

/// A file that is to be indexed: its path within the project, its language, its content,
/// and the fingerprint of the settings.
pub struct Source {
    pub rel: Seq<char>,
    pub lang: Lang,
    pub content: Seq<char>,
    pub fingerprint: u64,
}

/// The structural facts that a record holds.
pub open spec fn meta_of(r: Record) -> ChunkMeta {
    ChunkMeta {
        symbol: r.symbol,
        kind: r.kind,
        parent: r.parent,
        signature: r.signature,
        headings: r.headings,
    }
}

/// The text of a record that is embedded.
pub open spec fn embedded_text(src: Source, r: Record) -> Seq<char> {
    metadata::ranking(src.rel, src.lang, meta_of(r), r.text@)
}

/// Whether `r` is the record of the part of a file under a span, vector aside.
pub open spec fn record_under(src: Source, span: chunk::Span, r: Record) -> bool {
    let prov = metadata::provenance_of(src.content);
    let end = span.start + span.len;
    &&& chunk::cut_by(
        src.content,
        span,
        Chunk {
            text: r.text,
            start_line: r.start_line,
            end_line: r.end_line,
            start_byte: span.start,
            end_byte: end as usize,
        },
    )
    &&& r.file@ == src.rel
    &&& r.lang@ == chunk::lang_name(src.lang)
    &&& r.chunk_id@ == metadata::chunk_id_text(
        src.rel,
        src.lang,
        span.start as nat,
        end as nat,
        r.text@,
    )
    &&& metadata::describes_chunk(
        src.lang,
        src.content,
        metadata::file_nodes(src.lang, src.content),
        span.start as int,
        end,
        meta_of(r),
    )
    &&& text::opt_text(r.source) == prov.source
    &&& text::opt_text(r.corpus_source) == prov.corpus_source
    &&& text::opt_text(r.fetched) == prov.fetched
    &&& r.embedding_key == metadata::cache_key(src.fingerprint, embedded_text(src, r))
}

/// Whether `list` holds the records of a file under its spans, in order, vectors aside.
pub open spec fn records_under(src: Source, spans: Seq<chunk::Span>, list: Seq<Record>) -> bool {
    &&& list.len() == spans.len()
    &&& forall|i: int| 0 <= i < list.len() ==> record_under(src, spans[i], #[trigger] list[i])
}

/// The keys of the vectors of some records.
pub open spec fn keys_of(list: Seq<Record>) -> Seq<u64> {
    list.map_values(|r: Record| r.embedding_key)
}

/// The embedded texts of some records.
pub open spec fn embedded_texts(src: Source, list: Seq<Record>) -> Seq<Seq<char>> {
    list.map_values(|r: Record| embedded_text(src, r))
}

/// Whether the records carry these vectors, in order.
pub open spec fn carry(list: Seq<Record>, vectors: Seq<Vec<FloatBits>>) -> bool {
    &&& list.len() == vectors.len()
    &&& forall|i: int| 0 <= i < list.len() ==> (#[trigger] list[i]).vector@ == vectors[i]@
}

/// Records that wait for their vectors, with what these are found by.
struct Drafts {
    records: Vec<Record>,
    texts: Vec<String>,
    keys: Vec<u64>,
}

/// The records of a file's chunks, with empty vectors.
fn draft_records(
    rel: &str,
    lang: Lang,
    content: &str,
    fingerprint: u64,
    chunks: Vec<Chunk>,
    Ghost(spans): Ghost<Seq<chunk::Span>>,
) -> (r: Drafts)
    requires
        chunk::cut_into(content@, spans, chunks@),
        chunk::spans_fit(content@, spans),
        chunk::fits_offsets(lang, content@),
    ensures
        records_under(
            (Source { rel: rel@, lang, content: content@, fingerprint }),
            spans,
            r.records@,
        ),
        text::texts(r.texts@) == embedded_texts(
            (Source { rel: rel@, lang, content: content@, fingerprint }),
            r.records@,
        ),
        r.keys@ == keys_of(r.records@),
{
    let ghost src = Source { rel: rel@, lang, content: content@, fingerprint };
    let provenance = metadata::frontmatter_provenance(content);
    let analysis = FileAnalysis::new(content, lang);
    let ghost given = chunks@;
    let mut out: Vec<Record> = Vec::new();
    let mut texts: Vec<String> = Vec::new();
    let mut keys: Vec<u64> = Vec::new();
    assert(text::texts(texts@) =~= embedded_texts(src, out@));
    assert(keys@ =~= keys_of(out@));
    for c in it: chunks
        invariant
            it.seq() == given,
            chunk::cut_into(content@, spans, given),
            chunk::spans_fit(content@, spans),
            chunk::fits_offsets(lang, content@),
            src == (Source { rel: rel@, lang, content: content@, fingerprint }),
            provenance@ == metadata::provenance_of(content@),
            analysis.lang_of() == lang,
            analysis.content_of() == content@,
            analysis.nodes_of() == metadata::file_nodes(lang, content@),
            out.len() == it.index(),
            forall|j: int|
                0 <= j < out.len() ==> record_under(src, spans[j], #[trigger] out@[j]),
            text::texts(texts@) == embedded_texts(src, out@),
            keys@ == keys_of(out@),
    {
        let ghost n = it.index() as int;
        proof {
            assert(chunk::cut_by(content@, spans[n], given[n]));
            assert(chunk::span_fits(content@, spans[n]));
        }
        let meta = analysis.meta_for(c.start_byte, c.end_byte);
        let embedded = metadata::ranking_text(rel, lang, &meta, c.text.as_str());
        let key = metadata::embedding_key(fingerprint, embedded.as_str());
        let id = metadata::chunk_id(rel, lang, c.start_byte, c.end_byte, c.text.as_str());
        let record = Record {
            file: rel.to_string(),
            lang: lang.name().to_string(),
            start_line: c.start_line,
            end_line: c.end_line,
            chunk_id: id,
            symbol: meta.symbol,
            kind: meta.kind,
            parent: meta.parent,
            signature: meta.signature,
            headings: meta.headings,
            source: text::copy_opt(&provenance.source),
            corpus_source: text::copy_opt(&provenance.corpus_source),
            fetched: text::copy_opt(&provenance.fetched),
            embedding_key: key,
            text: c.text,
            vector: Vec::new(),
        };
        assert(meta_of(record) == meta);
        proof {
            assert(record_under(src, spans[n], record));
            text::lemma_texts_push(texts@, embedded);
            assert(embedded_texts(src, out@.push(record)) =~= embedded_texts(src, out@).push(
                embedded@,
            ));
            assert(keys_of(out@.push(record)) =~= keys_of(out@).push(key));
        }
        out.push(record);
        texts.push(embedded);
        keys.push(key);
    }
    Drafts { records: out, texts, keys }
}

/// Puts vectors into records.
fn fill_vectors(drafts: Vec<Record>, mut vectors: Vec<Vec<FloatBits>>, Ghost(src): Ghost<Source>, Ghost(
    spans,
): Ghost<Seq<chunk::Span>>) -> (r: Vec<Record>)
    requires
        drafts.len() == vectors.len(),
        records_under(src, spans, drafts@),
    ensures
        records_under(src, spans, r@),
        carry(r@, vectors@),
        keys_of(r@) == keys_of(drafts@),
        embedded_texts(src, r@) == embedded_texts(src, drafts@),
{
    let ghost given = drafts@;
    let ghost all = vectors@;
    let mut out: Vec<Record> = Vec::new();
    for d in it: drafts
        invariant
            it.seq() == given,
            given.len() == all.len(),
            vectors.len() == all.len(),
            records_under(src, spans, given),
            out.len() == it.index(),
            forall|j: int| it.index() <= j < all.len() ==> #[trigger] vectors@[j] == all[j],
            forall|j: int|
                0 <= j < out.len() ==> record_under(src, spans[j], #[trigger] out@[j])
                    && out@[j].vector == all[j] && meta_of(out@[j]) == meta_of(given[j])
                    && out@[j].text == given[j].text && out@[j].embedding_key
                    == given[j].embedding_key,
    {
        let ghost n = it.index() as int;
        assert(record_under(src, spans[n], given[n]));
        let mut v: Vec<FloatBits> = Vec::new();
        std::mem::swap(&mut vectors[out.len()], &mut v);
        let record = Record { vector: v, ..d };
        assert(meta_of(record) == meta_of(given[n]));
        out.push(record);
    }
    assert(keys_of(out@) =~= keys_of(given));
    assert(embedded_texts(src, out@) =~= embedded_texts(src, given));
    out
}

// ---------------------------------------------------------------------------
// One file
// ---------------------------------------------------------------------------

/// What a run has made so far.
pub struct Run {
    pub index: Index,
    pub stats: Stats,
    pub cache: EmbeddingCache,
}

/// Why a file could not be indexed.
#[derive(Debug)]
pub enum IngestError {
    Chunk { file: String, fault: ChunkError },
    Resolve(ResolveError),
    /// The number of chunks cannot be counted any more.
    TooManyChunks,
}

/// Whether `after` is `before` without a file.
pub open spec fn dropped(before: Index, rel: Seq<char>, after: Index) -> bool {
    &&& after.records@ == before.records@.filter(store::not_of_file(rel))
    &&& after.file_hashes@ == before.file_hashes@.remove(path::canonical(rel))
    &&& after.file_hashes.path_texts() == before.file_hashes.path_texts().filter(
        |p: String| !path::same_path(p@, rel),
    )
    &&& same_settings(before, after)
}

/// Whether `after` is `before` with these records of a file in place of the ones it had,
/// and its hash.
pub open spec fn entered(
    before: Index,
    rel: Seq<char>,
    hash: u64,
    list: Seq<Record>,
    after: Index,
) -> bool {
    &&& after.records@ == before.records@.filter(store::not_of_file(rel)) + list
    &&& after.file_hashes@ == before.file_hashes@.insert(path::canonical(rel), hash)
    &&& text::texts(after.file_hashes.path_texts()) == text::texts(
        before.file_hashes.path_texts().filter(|p: String| !path::same_path(p@, rel)),
    ).push(rel)
    &&& same_settings(before, after)
}

/// Whether a file was indexed with this content hash.
pub open spec fn unchanged(index: Index, rel: Seq<char>, hash: u64) -> bool {
    index.file_hashes@.contains_key(path::canonical(rel))
        && index.file_hashes@[path::canonical(rel)] == hash
}

/// Whether `list` holds the records of a file, and `res` the outcome of resolving their
/// vectors, which leaves the cache `after`.
pub open spec fn drafted<E: Fn(&Vec<String>) -> Result<Vec<Vec<FloatBits>>, String>>(
    src: Source,
    spans: Seq<chunk::Span>,
    embed: E,
    before: EmbeddingCache,
    list: Seq<Record>,
    res: Result<Resolved, ResolveError>,
    after: EmbeddingCache,
) -> bool {
    &&& records_under(src, spans, list)
    &&& res is Ok ==> carry(list, res->Ok_0.vectors@)
    &&& exists|texts: Seq<String>| #[trigger]
        text::texts(texts) == embedded_texts(src, list) && embcache::resolved(
            before,
            keys_of(list),
            texts,
            embed,
            after,
            res,
        )
}

/// Whether indexing the content of a file that has changed takes the run from `a` to `b`
/// with outcome `r`: its old records go, and the records of its chunks, if it has any,
/// come in with vectors from the cache or the embedder.
pub open spec fn content_step<E: Fn(&Vec<String>) -> Result<Vec<Vec<FloatBits>>, String>>(
    p: Seq<char>,
    src: Source,
    cfg: ChunkConfig,
    embed: E,
    a: Run,
    b: Run,
    r: Result<(), IngestError>,
) -> bool {
    let hash = hash::xxh3_64(vstd::utf8::encode_utf8(src.content));
    match chunk::spans_of(src.content, src.lang, cfg) {
        Err(e) => {
            &&& r matches Err(IngestError::Chunk { file, fault })
            &&& file@ == p
            &&& fault == e
            &&& dropped(a.index, src.rel, b.index)
            &&& b.cache == a.cache
            &&& b.stats == a.stats
        },
        Ok(spans) => if spans.len() == 0 {
            &&& r is Ok
            &&& entered(a.index, src.rel, hash, Seq::<Record>::empty(), b.index)
            &&& b.cache == a.cache
            &&& b.stats == a.stats
        } else {
            exists|list: Seq<Record>, res: Result<Resolved, ResolveError>| #[trigger]
                drafted(src, spans, embed, a.cache, list, res, b.cache) && resolved_step(
                    src,
                    hash,
                    list,
                    res,
                    a,
                    b,
                    r,
                )
        },
    }
}

/// Whether resolving the vectors of a file's records with outcome `res` takes the run
/// from `a` to `b` with outcome `r`, the cache aside.
pub open spec fn resolved_step(
    src: Source,
    hash: u64,
    list: Seq<Record>,
    res: Result<Resolved, ResolveError>,
    a: Run,
    b: Run,
    r: Result<(), IngestError>,
) -> bool {
    match res {
        Err(e) => {
            &&& r == Err::<(), IngestError>(IngestError::Resolve(e))
            &&& dropped(a.index, src.rel, b.index)
            &&& b.stats == a.stats
        },
        Ok(v) => if a.stats.chunks + list.len() > usize::MAX {
            &&& r == Err::<(), IngestError>(IngestError::TooManyChunks)
            &&& dropped(a.index, src.rel, b.index)
            &&& b.stats == a.stats
        } else {
            &&& r is Ok
            &&& entered(a.index, src.rel, hash, list, b.index)
            &&& b.stats == (Stats {
                files_indexed: (a.stats.files_indexed + 1) as usize,
                chunks: (a.stats.chunks + list.len()) as usize,
                cache_hits: (a.stats.cache_hits + v.hits) as usize,
                cache_misses: (a.stats.cache_misses + v.misses) as usize,
                ..a.stats
            })
        },
    }
}

/// What a run is asked to do: the root of the project, its settings, whether everything
/// is indexed anew, how a file is read, and how texts are embedded.
pub struct Job<R, E> {
    pub root: String,
    pub config: Config,
    pub reindex: bool,
    pub read: R,
    pub embed: E,
}

/// Whether the offsets into the content of a file fit: those of code have 32 bits.
pub open spec fn readable(p: Seq<char>, content: Seq<char>) -> bool {
    chunk::lang_of_path(p) matches Some(lang) ==> chunk::fits_offsets(lang, content)
}

/// Whether the files of a known language can be read, and the offsets into whatever is
/// read fit.
pub open spec fn can_read<R: Fn(&String) -> Option<String>>(read: R, files: Seq<String>) -> bool {
    &&& forall|i: int|
        0 <= i < files.len() && chunk::lang_of_path(files[i]@) is Some ==> read.requires(
            (&#[trigger] files[i],),
        )
    &&& forall|i: int, c: String|
        0 <= i < files.len() && chunk::lang_of_path(files[i]@) is Some && #[trigger] read.ensures(
            (&files[i],),
            Some(c),
        ) ==> readable(files[i]@, c@)
}

/// Whether `list` holds the texts of the chunks whose vectors the cache lacks, and there
/// are any.
pub open spec fn content_lacks(
    src: Source,
    cfg: ChunkConfig,
    cache: EmbeddingCache,
    list: Seq<Seq<char>>,
) -> bool {
    chunk::spans_of(src.content, src.lang, cfg) matches Ok(spans) && exists|drafts: Seq<Record>|
        #[trigger]
        records_under(src, spans, drafts) && embcache::missing(
            cache.vectors(),
            keys_of(drafts),
        ).len() > 0 && list == embcache::missing(cache.vectors(), keys_of(drafts)).map_values(
            |i: usize| embedded_texts(src, drafts)[i as int],
        )
}

/// Whether taking in a file has these texts embedded: it has changed, or a full rebuild
/// is asked for, and the cache lacks their vectors.
pub open spec fn file_lacks<
    R: Fn(&String) -> Option<String>,
    E: Fn(&Vec<String>) -> Result<Vec<Vec<FloatBits>>, String>,
>(job: Job<R, E>, p: Seq<char>, content: Option<String>, a: Run, list: Seq<Seq<char>>) -> bool {
    let rel = path::relative_to(p, job.root@);
    match (chunk::lang_of_path(p), content) {
        (Some(lang), Some(c)) => (job.reindex || !unchanged(
            a.index,
            rel,
            hash::xxh3_64(vstd::utf8::encode_utf8(c@)),
        )) && content_lacks(
            Source { rel, lang, content: c@, fingerprint: a.index.ingest_fingerprint },
            job.config.chunk,
            a.cache,
            list,
        ),
        _ => false,
    }
}

/// Whether reading a file and taking it in has these texts embedded.
pub open spec fn read_lacks<
    R: Fn(&String) -> Option<String>,
    E: Fn(&Vec<String>) -> Result<Vec<Vec<FloatBits>>, String>,
>(job: Job<R, E>, file: String, a: Run, list: Seq<Seq<char>>) -> bool {
    exists|content: Option<String>| #[trigger]
        job.read.ensures((&file,), content) && file_lacks(job, file@, content, a, list)
}

/// Whether one file takes the run from `a` to `b` with outcome `r`, where `content` is
/// what could be read of it. A file of no known language is passed over, one that
/// cannot be read is dropped, and one with the same hash as before is skipped, unless a
/// full rebuild is asked for.
pub open spec fn file_step<
    R: Fn(&String) -> Option<String>,
    E: Fn(&Vec<String>) -> Result<Vec<Vec<FloatBits>>, String>,
>(
    job: Job<R, E>,
    p: Seq<char>,
    content: Option<String>,
    a: Run,
    b: Run,
    r: Result<(), IngestError>,
) -> bool {
    let rel = path::relative_to(p, job.root@);
    match chunk::lang_of_path(p) {
        None => b == a && r is Ok,
        Some(lang) => match content {
            None => {
                &&& r is Ok
                &&& dropped(a.index, rel, b.index)
                &&& b.cache == a.cache
                &&& b.stats == (Stats {
                    files_failed: (a.stats.files_failed + 1) as usize,
                    ..a.stats
                })
            },
            Some(c) => if !job.reindex && unchanged(
                a.index,
                rel,
                hash::xxh3_64(vstd::utf8::encode_utf8(c@)),
            ) {
                &&& r is Ok
                &&& b.index == a.index
                &&& b.cache == a.cache
                &&& b.stats == (Stats {
                    files_skipped: (a.stats.files_skipped + 1) as usize,
                    ..a.stats
                })
            } else {
                content_step(
                    p,
                    Source { rel, lang, content: c@, fingerprint: a.index.ingest_fingerprint },
                    job.config.chunk,
                    job.embed,
                    a,
                    b,
                    r,
                )
            },
        },
    }
}

/// Resolving through a call of `embed` is resolving by `embed`.
proof fn lemma_resolved_by<
    E: Fn(&Vec<String>) -> Result<Vec<Vec<FloatBits>>, String>,
    F: FnOnce(&Vec<String>) -> Result<Vec<Vec<FloatBits>>, String>,
>(
    before: EmbeddingCache,
    keys: Seq<u64>,
    texts: Seq<String>,
    embed: E,
    through: F,
    after: EmbeddingCache,
    r: Result<Resolved, ResolveError>,
)
    requires
        embcache::resolved(before, keys, texts, through, after, r),
        forall|list: &Vec<String>, out: Result<Vec<Vec<FloatBits>>, String>| #[trigger]
            through.ensures((list,), out) ==> embed.ensures((list,), out),
    ensures
        embcache::resolved(before, keys, texts, embed, after, r),
{
}

/// Replaces the records of a file in the index by those of its content.
fn index_content<E: Fn(&Vec<String>) -> Result<Vec<Vec<FloatBits>>, String>>(
    run: &mut Run,
    rel: String,
    file: &str,
    lang: Lang,
    content: &str,
    cfg: &ChunkConfig,
    embed: &E,
) -> (r: Result<(), IngestError>)
    requires
        cfg.max_chars > 0,
        chunk::fits_offsets(lang, content@),
        old(run).stats.cache_hits + old(run).stats.cache_misses == old(run).stats.chunks,
        old(run).stats.files_indexed < usize::MAX,
        forall|list: &Vec<String>|
            content_lacks(
                (Source {
                    rel: rel@,
                    lang,
                    content: content@,
                    fingerprint: old(run).index.ingest_fingerprint,
                }),
                *cfg,
                old(run).cache,
                text::texts(list@),
            ) ==> #[trigger] embed.requires((list,)),
    ensures
        content_step(
            file@,
            (Source {
                rel: rel@,
                lang,
                content: content@,
                fingerprint: old(run).index.ingest_fingerprint,
            }),
            *cfg,
            *embed,
            *old(run),
            *final(run),
            r,
        ),
{
    let ghost a = *run;
    let fingerprint = run.index.ingest_fingerprint;
    let ghost src = Source { rel: rel@, lang, content: content@, fingerprint };
    let hash = hash::content_hash(content);
    run.index.remove_file(rel.as_str());
    assert(dropped(a.index, rel@, run.index));
    let ghost left = run.index;
    let chunks = match chunk::chunk_file(content, lang, cfg) {
        Ok(list) => list,
        Err(fault) => {
            return Err(IngestError::Chunk { file: file.to_string(), fault });
        },
    };
    let ghost spans = chunk::spans_of(content@, lang, *cfg)->Ok_0;
    if chunks.len() == 0 {
        run.index.file_hashes.insert(rel, hash);
        assert(entered(a.index, src.rel, hash, Seq::<Record>::empty(), run.index)) by {
            lemma_entered(a.index, src.rel, hash, rel, left, run.index);
        }
        return Ok(());
    }
    let drafts = draft_records(rel.as_str(), lang, content, fingerprint, chunks, Ghost(spans));
    let through = |list: &Vec<String>| -> (out: Result<Vec<Vec<FloatBits>>, String>)
        requires
            embed.requires((list,)),
        ensures
            embed.ensures((list,), out),
        {
            embed(list)
        };
    assert(text::texts(drafts.texts@).len() == drafts.texts@.len());
    proof {
        let keys = drafts.keys@;
        let at = embcache::missing(a.cache.vectors(), keys);
        let gone = |i: int| !a.cache.vectors().contains_key(keys[i]);
        assert(drafts.keys.len() <= usize::MAX);
        crate::order::lemma_positions(keys.len(), gone);
        let texts = embedded_texts(src, drafts.records@);
        assert(embcache::texts_at(drafts.texts@, at) =~= at.map_values(
            |i: usize| texts[i as int],
        )) by {
            assert forall|k: int| 0 <= k < at.len() implies #[trigger] embcache::texts_at(
                drafts.texts@,
                at,
            )[k] == texts[at[k] as int] by {
                assert(text::texts(drafts.texts@)[at[k] as int] == drafts.texts@[at[k] as int]@);
            }
        }
        assert(chunk::spans_of(src.content, src.lang, *cfg) == Ok::<
            Seq<chunk::Span>,
            ChunkError,
        >(spans));
        assert(records_under(src, spans, drafts.records@));
    }
    let ghost caller = through;
    let answer = embcache::resolve_with_cache(
        &mut run.cache,
        &drafts.keys,
        &drafts.texts,
        through,
    );
    proof {
        lemma_resolved_by(
            a.cache,
            drafts.keys@,
            drafts.texts@,
            *embed,
            caller,
            run.cache,
            answer,
        );
    }
    match answer {
        Err(e) => {
            assert(drafted(
                src,
                spans,
                *embed,
                a.cache,
                drafts.records@,
                Err::<Resolved, ResolveError>(e),
                run.cache,
            ));
            let r = Err(IngestError::Resolve(e));
            assert(resolved_step(
                src,
                hash,
                drafts.records@,
                Err::<Resolved, ResolveError>(e),
                a,
                *run,
                r,
            ));
            assert(content_step(file@, src, *cfg, *embed, a, *run, r));
            r
        },
        Ok(resolved) => {
            let ghost res = Ok::<Resolved, ResolveError>(resolved);
            let Resolved { vectors, hits, misses } = resolved;
            let records = fill_vectors(drafts.records, vectors, Ghost(src), Ghost(spans));
            let ghost list = records@;
            assert(text::texts(drafts.texts@) == embedded_texts(src, list));
            assert(drafted(src, spans, *embed, a.cache, list, res, run.cache));
            if run.stats.chunks > usize::MAX - records.len() {
                return Err(IngestError::TooManyChunks);
            }
            run.stats.cache_hits = run.stats.cache_hits + hits;
            run.stats.cache_misses = run.stats.cache_misses + misses;
            run.stats.chunks = run.stats.chunks + records.len();
            let mut records = records;
            run.index.records.append(&mut records);
            run.index.file_hashes.insert(rel, hash);
            run.stats.files_indexed = run.stats.files_indexed + 1;
            assert(entered(a.index, src.rel, hash, list, run.index)) by {
                lemma_entered(a.index, src.rel, hash, rel, left, run.index);
            }
            let r = Ok(());
            assert(resolved_step(src, hash, list, res, a, *run, r));
            assert(spans.len() > 0);
            assert(drafted(src, spans, *embed, a.cache, list, res, run.cache));
            assert(content_step(file@, src, *cfg, *embed, a, *run, r));
            r
        },
    }
}

/// Entering a file after it was dropped.
proof fn lemma_entered(
    before: Index,
    rel: Seq<char>,
    hash: u64,
    name: String,
    left: Index,
    after: Index,
)
    requires
        name@ == rel,
        dropped(before, rel, left),
        same_settings(left, after),
        after.file_hashes@ == left.file_hashes@.insert(path::canonical(rel), hash),
        after.file_hashes.path_texts() == left.file_hashes.path_texts().push(name),
    ensures
        after.file_hashes@ == before.file_hashes@.insert(path::canonical(rel), hash),
        text::texts(after.file_hashes.path_texts()) == text::texts(
            before.file_hashes.path_texts().filter(|p: String| !path::same_path(p@, rel)),
        ).push(rel),
        same_settings(before, after),
{
    text::lemma_texts_push(left.file_hashes.path_texts(), name);
    assert(after.file_hashes@ =~= before.file_hashes@.insert(path::canonical(rel), hash));
}

/// Takes one file into the run, where `content` is what could be read of it.
pub fn index_file<
    R: Fn(&String) -> Option<String>,
    E: Fn(&Vec<String>) -> Result<Vec<Vec<FloatBits>>, String>,
>(job: &Job<R, E>, file: &str, content: Option<String>, run: &mut Run) -> (r: Result<
    (),
    IngestError,
>)
    requires
        forall|list: &Vec<String>|
            file_lacks(*job, file@, content, *old(run), text::texts(list@))
                ==> #[trigger] job.embed.requires((list,)),
        job.config.chunk.max_chars > 0,
        content is Some ==> readable(file@, content->0@),
        old(run).stats.cache_hits + old(run).stats.cache_misses == old(run).stats.chunks,
        old(run).stats.files_indexed < usize::MAX,
        old(run).stats.files_skipped < usize::MAX,
        old(run).stats.files_failed < usize::MAX,
    ensures
        file_step(*job, file@, content, *old(run), *final(run), r),
{
    let lang = match Lang::from_path(file) {
        Some(lang) => lang,
        None => {
            return Ok(());
        },
    };
    let rel = path::strip_base(file, job.root.as_str());
    let body = match content {
        Some(c) => c,
        None => {
            run.index.remove_file(rel.as_str());
            run.stats.files_failed = run.stats.files_failed + 1;
            return Ok(());
        },
    };
    if !job.reindex {
        let hash = hash::content_hash(body.as_str());
        if let Some(h) = run.index.file_hashes.get(rel.as_str()) {
            if h == hash {
                run.stats.files_skipped = run.stats.files_skipped + 1;
                return Ok(());
            }
        }
    }
    index_content(run, rel, file, lang, body.as_str(), &job.config.chunk, &job.embed)
}

// ---------------------------------------------------------------------------
// All files
// ---------------------------------------------------------------------------

/// Whether reading a file and taking it in takes the run from `a` to `b` with outcome
/// `r`. A file of no known language is not read.
pub open spec fn read_step<
    R: Fn(&String) -> Option<String>,
    E: Fn(&Vec<String>) -> Result<Vec<Vec<FloatBits>>, String>,
>(job: Job<R, E>, file: String, a: Run, b: Run, r: Result<(), IngestError>) -> bool {
    if chunk::lang_of_path(file@) is None {
        b == a && r is Ok
    } else {
        exists|content: Option<String>| #[trigger]
            job.read.ensures((&file,), content) && file_step(job, file@, content, a, b, r)
    }
}

/// Whether `runs` are the states of a run, from before the first file to after the last
/// one that was taken in.
pub open spec fn is_progress<
    R: Fn(&String) -> Option<String>,
    E: Fn(&Vec<String>) -> Result<Vec<Vec<FloatBits>>, String>,
>(job: Job<R, E>, files: Seq<String>, runs: Seq<Run>) -> bool {
    &&& 0 < runs.len() <= files.len() + 1
    &&& forall|i: int|
        0 <= i < runs.len() - 1 ==> #[trigger] read_step(job, files[i], runs[i], runs[i + 1], Ok(()))
}

/// Whether taking in the files in order leads from `start` to `r`: through all of them,
/// or up to the first one that cannot be indexed.
pub open spec fn ingests<
    R: Fn(&String) -> Option<String>,
    E: Fn(&Vec<String>) -> Result<Vec<Vec<FloatBits>>, String>,
>(job: Job<R, E>, files: Seq<String>, start: Run, r: Result<Run, IngestError>) -> bool {
    exists|runs: Seq<Run>| #[trigger]
        is_progress(job, files, runs) && runs[0] == start && (match r {
            Ok(run) => runs.len() == files.len() + 1 && runs.last() == run,
            Err(e) => runs.len() <= files.len() && stops(
                job,
                files[runs.len() - 1],
                runs.last(),
                e,
            ),
        })
}

/// Whether a run over the files, as far as it comes, has these texts embedded for one of
/// them.
pub open spec fn run_lacks<
    R: Fn(&String) -> Option<String>,
    E: Fn(&Vec<String>) -> Result<Vec<Vec<FloatBits>>, String>,
>(job: Job<R, E>, files: Seq<String>, start: Run, list: Seq<Seq<char>>) -> bool {
    exists|runs: Seq<Run>| #[trigger]
        is_progress(job, files, runs) && runs[0] == start && runs.len() <= files.len()
            && read_lacks(job, files[runs.len() - 1], runs.last(), list)
}

/// Whether a file cannot be indexed.
pub open spec fn stops<
    R: Fn(&String) -> Option<String>,
    E: Fn(&Vec<String>) -> Result<Vec<Vec<FloatBits>>, String>,
>(job: Job<R, E>, file: String, a: Run, e: IngestError) -> bool {
    exists|b: Run| #[trigger] read_step(job, file, a, b, Err(e))
}

/// A step keeps the counts in order.
proof fn lemma_step_adds_up<
    R: Fn(&String) -> Option<String>,
    E: Fn(&Vec<String>) -> Result<Vec<Vec<FloatBits>>, String>,
>(job: Job<R, E>, p: Seq<char>, content: Option<String>, a: Run, b: Run, n: int)
    requires
        file_step(job, p, content, a, b, Ok(())),
        a.stats.adds_up(n),
        n < usize::MAX,
    ensures
        b.stats.adds_up(n + 1),
{
}

/// Takes in the files in order.
fn ingest<
    R: Fn(&String) -> Option<String>,
    E: Fn(&Vec<String>) -> Result<Vec<Vec<FloatBits>>, String>,
>(job: &Job<R, E>, files: &Vec<String>, start: Run) -> (r: Result<Run, IngestError>)
    requires
        can_read(job.read, files@),
        forall|list: &Vec<String>|
            run_lacks(*job, files@, start, text::texts(list@)) ==> #[trigger] job.embed.requires(
                (list,),
            ),
        job.config.chunk.max_chars > 0,
        start.stats.adds_up(0),
    ensures
        ingests(*job, files@, start, r),
        r is Ok ==> r->Ok_0.stats.adds_up(files@.len() as int),
{
    let mut run = start;
    let ghost runs = seq![run];
    let mut i: usize = 0;
    while i < files.len()
        invariant
            can_read(job.read, files@),
            forall|list: &Vec<String>|
                run_lacks(*job, files@, start, text::texts(list@))
                    ==> #[trigger] job.embed.requires((list,)),
            job.config.chunk.max_chars > 0,
            i <= files.len(),
            run.stats.adds_up(i as int),
            runs.len() == i + 1,
            runs[0] == start,
            runs.last() == run,
            is_progress(*job, files@, runs),
        decreases files.len() - i,
    {
        let ghost a = run;
        if Lang::from_path(files[i].as_str()).is_some() {
            let read = &job.read;
            let content = read(&files[i]);
            let ghost given = content;
            assert forall|list: &Vec<String>|
                file_lacks(*job, files@[i as int]@, content, run, text::texts(list@)) implies
                #[trigger] job.embed.requires((list,)) by {
                assert(job.read.ensures((&files@[i as int],), given));
                assert(read_lacks(*job, files@[i as int], run, text::texts(list@)));
                assert(is_progress(*job, files@, runs));
                assert(run_lacks(*job, files@, start, text::texts(list@)));
            }
            let out = index_file(job, files[i].as_str(), content, &mut run);
            assert(job.read.ensures((&files@[i as int],), given));
            assert(read_step(*job, files@[i as int], a, run, out));
            match out {
                Ok(unit) => {
                    assert(unit == ());
                    proof {
                        lemma_step_adds_up(*job, files@[i as int]@, given, a, run, i as int);
                    }
                },
                Err(e) => {
                    let ghost fault = e;
                    assert(stops(*job, files@[i as int], a, fault));
                    return Err(e);
                },
            }
        }
        proof {
            let next = runs.push(run);
            assert(read_step(*job, files@[i as int], a, run, Ok(())));
            assert forall|j: int| 0 <= j < next.len() - 1 implies #[trigger] read_step(
                *job,
                files@[j],
                next[j],
                next[j + 1],
                Ok(()),
            ) by {
                if j < i {
                    assert(read_step(*job, files@[j], runs[j], runs[j + 1], Ok(())));
                }
            }
            runs = next;
        }
        i += 1;
    }
    Ok(run)
}

// ---------------------------------------------------------------------------
// The whole run
// ---------------------------------------------------------------------------

/// Why an index could not be built.
#[derive(Debug)]
pub enum BuildError {
    Config(ConfigFault),
    Load(LoadError),
    Ingest(IngestError),
    Save(SaveError),
}

/// Whether `start` is the state before the first file: the files that are gone are
/// dropped from the index and counted.
pub open spec fn is_start(
    index: Index,
    root: Seq<char>,
    files: Seq<Seq<char>>,
    cache: EmbeddingCache,
    start: Run,
) -> bool {
    let gone = pruned_paths(index, root, files);
    &&& without_files(index, gone, start.index)
    &&& start.cache == cache
    &&& gone.len() <= usize::MAX
    &&& start.stats == (Stats {
        files_indexed: 0,
        files_skipped: 0,
        files_pruned: gone.len() as usize,
        files_failed: 0,
        chunks: 0,
        cache_hits: 0,
        cache_misses: 0,
    })
}

/// Whether updating an index leads to `r`.
pub open spec fn updates<
    R: Fn(&String) -> Option<String>,
    E: Fn(&Vec<String>) -> Result<Vec<Vec<FloatBits>>, String>,
>(
    job: Job<R, E>,
    files: Seq<String>,
    index: Index,
    cache: EmbeddingCache,
    r: Result<Run, IngestError>,
) -> bool {
    exists|start: Run| #[trigger]
        is_start(index, job.root@, text::texts(files), cache, start) && ingests(
            job,
            files,
            start,
            r,
        )
}

/// Whether updating an index has these texts embedded.
pub open spec fn update_lacks<
    R: Fn(&String) -> Option<String>,
    E: Fn(&Vec<String>) -> Result<Vec<Vec<FloatBits>>, String>,
>(
    job: Job<R, E>,
    files: Seq<String>,
    index: Index,
    cache: EmbeddingCache,
    list: Seq<Seq<char>>,
) -> bool {
    exists|start: Run| #[trigger]
        is_start(index, job.root@, text::texts(files), cache, start) && run_lacks(
            job,
            files,
            start,
            list,
        )
}

/// Brings an index up to date with the discovered files: drops those that are gone, and
/// takes in the others in order.
pub fn update<
    R: Fn(&String) -> Option<String>,
    E: Fn(&Vec<String>) -> Result<Vec<Vec<FloatBits>>, String>,
>(job: &Job<R, E>, files: &Vec<String>, index: Index, cache: EmbeddingCache) -> (r: Result<
    Run,
    IngestError,
>)
    requires
        can_read(job.read, files@),
        forall|list: &Vec<String>|
            update_lacks(*job, files@, index, cache, text::texts(list@))
                ==> #[trigger] job.embed.requires((list,)),
        job.config.chunk.max_chars > 0,
    ensures
        updates(*job, files@, index, cache, r),
        r is Ok ==> r->Ok_0.stats.adds_up(files@.len() as int),
{
    let mut current = index;
    let pruned = prune(&mut current, job.root.as_str(), files);
    let stats = Stats { files_pruned: pruned, ..Stats::default() };
    let start = Run { index: current, stats, cache };
    let ghost begun = start;
    assert(is_start(index, job.root@, text::texts(files@), cache, begun));
    assert forall|list: &Vec<String>|
        run_lacks(*job, files@, start, text::texts(list@)) implies #[trigger] job.embed.requires(
        (list,),
    ) by {
        assert(update_lacks(*job, files@, index, cache, text::texts(list@)));
    }
    let r = ingest(job, files, start);
    assert(is_start(index, job.root@, text::texts(files@), cache, begun));
    assert(ingests(*job, files@, begun, r));
    r
}

/// Whether the cache of a run was handed to `save_cache`, if it has to be saved.
pub open spec fn cache_saved<
    C: FnOnce(&String, usize, &HashMap<u64, Vec<FloatBits>>) -> Result<(), String>,
>(cache: EmbeddingCache, save_cache: C) -> bool {
    cache.file() is Some && cache.changed() ==> exists|out: Result<(), String>| #[trigger]
        cache.written_by(save_cache, out)
}

/// Whether a cache can be handed to `save_cache`, if it has to be saved.
pub open spec fn can_save<
    C: FnOnce(&String, usize, &HashMap<u64, Vec<FloatBits>>) -> Result<(), String>,
>(cache: EmbeddingCache, save_cache: C) -> bool {
    forall|p: &String, m: &HashMap<u64, Vec<FloatBits>>|
        cache.changed() && cache.file() == Some(*p) && embcache::vectors_of(m@) == cache.vectors()
            ==> #[trigger] save_cache.requires((p, cache.dimension(), m))
}

/// Whether saving the index of a run has this outcome.
pub open spec fn index_saved<W: FnOnce(&Vec<u8>, &Index) -> Result<(), String>>(
    index: Index,
    write: W,
    r: Result<(), SaveError>,
) -> bool {
    match r {
        Err(SaveError::Invalid { fault, message }) => index.first_fault(fault) && message@
            == fault.text(index),
        Err(SaveError::Write(e)) => index.valid() && index.written_by(write, Err(e)),
        Ok(_) => index.valid() && index.written_by(write, Ok(())),
    }
}

/// Saves what a run has made: the embedding cache where it has changed, whether that
/// works or not, and then the index.
pub fn save_run<
    C: FnOnce(&String, usize, &HashMap<u64, Vec<FloatBits>>) -> Result<(), String>,
    W: FnOnce(&Vec<u8>, &Index) -> Result<(), String>,
>(run: &Run, save_cache: C, write: W) -> (r: Result<(), SaveError>)
    requires
        can_save(run.cache, save_cache),
        forall|h: &Vec<u8>|
            run.index.valid() && run.index.has_header(h@) ==> #[trigger] write.requires(
                (h, &run.index),
            ),
    ensures
        cache_saved(run.cache, save_cache),
        index_saved(run.index, write, r),
{
    let _ = run.cache.save(save_cache);
    run.index.save(write)
}

/// Whether a build with a valid configuration gets as far as `ran`.
pub open spec fn runs_to<
    L: FnOnce() -> Result<Index, LoadError>,
    R: Fn(&String) -> Option<String>,
    E: Fn(&Vec<String>) -> Result<Vec<Vec<FloatBits>>, String>,
>(
    job: Job<R, E>,
    dim: usize,
    fingerprint: u64,
    stored: bool,
    load: L,
    cache: EmbeddingCache,
    files: Seq<String>,
    ran: Result<Run, IngestError>,
) -> bool {
    exists|index: Index| #[trigger]
        updates(job, files, index, cache, ran) && starts_with(
            stored,
            load,
            job.config.model@,
            dim,
            fingerprint,
            job.reindex,
            Ok(index),
        )
}

/// Whether a build whose files were all taken in ends with this outcome of saving.
pub open spec fn ends_with<
    L: FnOnce() -> Result<Index, LoadError>,
    R: Fn(&String) -> Option<String>,
    E: Fn(&Vec<String>) -> Result<Vec<Vec<FloatBits>>, String>,
    C: FnOnce(&String, usize, &HashMap<u64, Vec<FloatBits>>) -> Result<(), String>,
    W: FnOnce(&Vec<u8>, &Index) -> Result<(), String>,
>(
    job: Job<R, E>,
    dim: usize,
    fingerprint: u64,
    stored: bool,
    load: L,
    cache: EmbeddingCache,
    files: Seq<String>,
    save_cache: C,
    write: W,
    run: Run,
    saved: Result<(), SaveError>,
) -> bool {
    &&& runs_to(job, dim, fingerprint, stored, load, cache, files, Ok(run))
    &&& cache_saved(run.cache, save_cache)
    &&& index_saved(run.index, write, saved)
}

/// Builds or updates the index of a project. The settings are checked first; then the
/// stored index is reused or replaced, brought up to date with the discovered files, and
/// saved.
pub fn build<
    L: FnOnce() -> Result<Index, LoadError>,
    R: Fn(&String) -> Option<String>,
    E: Fn(&Vec<String>) -> Result<Vec<Vec<FloatBits>>, String>,
    C: FnOnce(&String, usize, &HashMap<u64, Vec<FloatBits>>) -> Result<(), String>,
    W: FnOnce(&Vec<u8>, &Index) -> Result<(), String>,
>(
    job: &Job<R, E>,
    dim: usize,
    ingest_fingerprint: u64,
    stored: bool,
    load: L,
    cache: EmbeddingCache,
    files: &Vec<String>,
    save_cache: C,
    write: W,
) -> (r: Result<(Index, Stats), BuildError>)
    requires
        job.config.valid() && stored && !job.reindex ==> load.requires(()),
        job.config.valid() ==> can_read(job.read, files@),
        forall|index: Index, list: &Vec<String>|
            job.config.valid() && #[trigger] starts_with(
                stored,
                load,
                job.config.model@,
                dim,
                ingest_fingerprint,
                job.reindex,
                Ok(index),
            ) && update_lacks(*job, files@, index, cache, text::texts(list@))
                ==> #[trigger] job.embed.requires((list,)),
        forall|run: Run|
            job.config.valid() && #[trigger] runs_to(
                *job,
                dim,
                ingest_fingerprint,
                stored,
                load,
                cache,
                files@,
                Ok(run),
            ) ==> can_save(run.cache, save_cache),
        forall|run: Run, h: &Vec<u8>|
            job.config.valid() && #[trigger] runs_to(
                *job,
                dim,
                ingest_fingerprint,
                stored,
                load,
                cache,
                files@,
                Ok(run),
            ) && run.index.valid() && run.index.has_header(h@) ==> #[trigger] write.requires(
                (h, &run.index),
            ),
    ensures
        match r {
            Err(BuildError::Config(fault)) => job.config.fault() == Some(fault),
            Err(BuildError::Load(e)) => job.config.valid() && starts_with(
                stored,
                load,
                job.config.model@,
                dim,
                ingest_fingerprint,
                job.reindex,
                Err(e),
            ),
            Err(BuildError::Ingest(e)) => job.config.valid() && runs_to(
                *job,
                dim,
                ingest_fingerprint,
                stored,
                load,
                cache,
                files@,
                Err(e),
            ),
            Err(BuildError::Save(e)) => job.config.valid() && exists|run: Run| #[trigger]
                ends_with(
                    *job,
                    dim,
                    ingest_fingerprint,
                    stored,
                    load,
                    cache,
                    files@,
                    save_cache,
                    write,
                    run,
                    Err(e),
                ),
            Ok((index, stats)) => job.config.valid() && stats.adds_up(files@.len() as int)
                && exists|run: Run| #[trigger]
                ends_with(
                    *job,
                    dim,
                    ingest_fingerprint,
                    stored,
                    load,
                    cache,
                    files@,
                    save_cache,
                    write,
                    run,
                    Ok(()),
                ) && run.index == index && run.stats == stats,
        },
{
    match job.config.validate() {
        Ok(_) => {},
        Err(fault) => {
            return Err(BuildError::Config(fault));
        },
    }
    let model = job.config.model.as_str();
    let index = match load_or_new(stored, load, model, dim, ingest_fingerprint, job.reindex) {
        Ok(index) => index,
        Err(e) => {
            return Err(BuildError::Load(e));
        },
    };
    let ghost from = index;
    let run = match update(job, files, index, cache) {
        Ok(run) => run,
        Err(e) => {
            assert(updates(*job, files@, from, cache, Err(e)));
            return Err(BuildError::Ingest(e));
        },
    };
    assert(updates(*job, files@, from, cache, Ok(run)));
    assert(runs_to(*job, dim, ingest_fingerprint, stored, load, cache, files@, Ok(run)));
    match save_run(&run, save_cache, write) {
        Ok(unit) => {
            assert(unit == ());
            assert(ends_with(
                *job,
                dim,
                ingest_fingerprint,
                stored,
                load,
                cache,
                files@,
                save_cache,
                write,
                run,
                Ok(()),
            ));
            Ok((run.index, run.stats))
        },
        Err(e) => {
            assert(ends_with(
                *job,
                dim,
                ingest_fingerprint,
                stored,
                load,
                cache,
                files@,
                save_cache,
                write,
                run,
                Err(e),
            ));
            Err(BuildError::Save(e))
        },
    }
}

/// The folders to ingest, as seen from where the project's root is.
pub fn source_dirs(root: &str, sources: &Vec<String>) -> (r: Vec<String>)
    ensures
        text::texts(r@) == text::texts(sources@).map_values(
            |s: Seq<char>| path::joined(root@, s),
        ),
{
    let mut out: Vec<String> = Vec::new();
    let mut i: usize = 0;
    while i < sources.len()
        invariant
            i <= sources.len(),
            out.len() == i,
            forall|j: int|
                0 <= j < i ==> (#[trigger] out@[j])@ == path::joined(root@, sources@[j]@),
        decreases sources.len() - i,
    {
        out.push(path::join_path(root, sources[i].as_str()));
        i += 1;
    }
    assert(text::texts(out@) =~= text::texts(sources@).map_values(
        |s: Seq<char>| path::joined(root@, s),
    ));
    out
}

// ---------------------------------------------------------------------------
// Laws
// ---------------------------------------------------------------------------

/// Changing the model, the dimension or the ingest settings forces a full rebuild: the
/// run starts from an empty index.
pub proof fn changed_settings_force_a_rebuild<L: FnOnce() -> Result<Index, LoadError>>(
    stored: bool,
    load: L,
    model: Seq<char>,
    dim: usize,
    fingerprint: u64,
    reindex: bool,
    index: Index,
)
    requires
        starts_with(stored, load, model, dim, fingerprint, reindex, Ok(index)),
        forall|out: Index| #[trigger]
            load.ensures((), Ok(out)) ==> !reusable(out, model, dim, fingerprint),
    ensures
        index.records@.len() == 0,
        index.file_hashes@ == Map::<Seq<char>, u64>::empty(),
        reusable(index, model, dim, fingerprint),
{
}

/// After pruning, every indexed file is among the discovered ones.
pub proof fn pruned_index_has_discovered_files_only(
    before: Index,
    root: Seq<char>,
    files: Seq<Seq<char>>,
    after: Index,
    p: String,
)
    requires
        without_files(before, pruned_paths(before, root, files), after),
        after.file_hashes.path_texts().contains(p),
    ensures
        lists_path(files, path::joined(root, p@)),
{
    let all = before.file_hashes.path_texts();
    let gone = pruned_paths(before, root, files);
    let keep = not_listed(gone);
    let left = after.file_hashes.path_texts();
    let i = choose|i: int| 0 <= i < left.len() && left[i] == p;
    all.lemma_filter_pred(keep, i);
    all.lemma_filter_contains_rev(keep, p);
    if vanished(root, files)(p) {
        let n = choose|n: int| 0 <= n < all.len() && all[n] == p;
        all.lemma_filter_contains(vanished(root, files), n);
        let stale = all.filter(vanished(root, files));
        let j = choose|j: int| 0 <= j < stale.len() && stale[j] == p;
        assert(path::same_path(gone[j], p@));
    }
}

/// A file that is still discovered is not pruned: what it is called in the index leads
/// back to it. It has to lie under the root, or to be given by an absolute path.
pub proof fn discovered_files_are_not_pruned(
    index: Index,
    root: Seq<char>,
    files: Seq<Seq<char>>,
    p: Seq<char>,
)
    requires
        files.contains(p),
        path::lies_under(p, root) || path::rooted(p) || root.len() == 0,
    ensures
        !lists_path(pruned_paths(index, root, files), path::relative_to(p, root)),
{
    let rel = path::relative_to(p, root);
    let all = index.file_hashes.path_texts();
    let gone = vanished(root, files);
    let stale = all.filter(gone);
    if lists_path(text::texts(stale), rel) {
        let i = choose|i: int|
            0 <= i < text::texts(stale).len() && path::same_path(#[trigger] text::texts(stale)[i], rel);
        all.lemma_filter_pred(gone, i);
        path::joined_paths_agree(root, stale[i]@, rel);
        path::relative_path_leads_back(p, root);
        let k = choose|k: int| 0 <= k < files.len() && files[k] == p;
        assert(path::same_path(files[k], path::joined(root, stale[i]@)));
        assert(lists_path(files, path::joined(root, stale[i]@)));
    }
}

/// A file that was taken in is skipped the next time, as long as its content stays the
/// same: the index and the cache do not change.
pub proof fn unchanged_file_is_skipped<
    R: Fn(&String) -> Option<String>,
    E: Fn(&Vec<String>) -> Result<Vec<Vec<FloatBits>>, String>,
>(job: Job<R, E>, p: Seq<char>, content: String, a: Run, b: Run, c: Run, r: Result<(), IngestError>)
    requires
        !job.reindex,
        chunk::lang_of_path(p) is Some,
        file_step(job, p, Some(content), a, b, Ok(())),
        file_step(job, p, Some(content), b, c, r),
    ensures
        r is Ok,
        c.index == b.index,
        c.cache == b.cache,
        c.stats.files_indexed == b.stats.files_indexed,
        c.stats.chunks == b.stats.chunks,
{
}

/// Taking in a file touches no other file: the records of the others stay, in order, and
/// so do their hashes.
pub proof fn other_files_are_untouched<
    R: Fn(&String) -> Option<String>,
    E: Fn(&Vec<String>) -> Result<Vec<Vec<FloatBits>>, String>,
>(job: Job<R, E>, p: Seq<char>, content: Option<String>, a: Run, b: Run, r: Result<(), IngestError>)
    requires
        file_step(job, p, content, a, b, r),
    ensures
        b.index.records@.filter(store::not_of_file(path::relative_to(p, job.root@)))
            == a.index.records@.filter(store::not_of_file(path::relative_to(p, job.root@))),
        b.index.file_hashes@.remove(path::canonical(path::relative_to(p, job.root@)))
            == a.index.file_hashes@.remove(path::canonical(path::relative_to(p, job.root@))),
{
    let rel = path::relative_to(p, job.root@);
    let keep = store::not_of_file(rel);
    let old = a.index.records@;
    store::removal_is_idempotent(old, rel);
    assert(a.index.file_hashes@.remove(path::canonical(rel)).remove(path::canonical(rel))
        =~= a.index.file_hashes@.remove(path::canonical(rel)));
    assert forall|h: u64| #[trigger]
        a.index.file_hashes@.insert(path::canonical(rel), h).remove(path::canonical(rel))
        == a.index.file_hashes@.remove(path::canonical(rel)) by {
        assert(a.index.file_hashes@.insert(path::canonical(rel), h).remove(path::canonical(rel))
            =~= a.index.file_hashes@.remove(path::canonical(rel)));
    }
    assert forall|list: Seq<Record>|
        (forall|i: int| 0 <= i < list.len() ==> (#[trigger] list[i]).file@ == rel) implies (
    #[trigger] (old.filter(keep) + list)).filter(keep) == old.filter(keep) by {
        lemma_filter_tail(old.filter(keep), list, keep);
    }
}

/// What fails a predicate leaves nothing behind.
proof fn lemma_filter_tail<T>(s: Seq<T>, tail: Seq<T>, p: spec_fn(T) -> bool)
    requires
        forall|i: int| 0 <= i < tail.len() ==> !p(#[trigger] tail[i]),
    ensures
        (s + tail).filter(p) == s.filter(p),
    decreases tail.len(),
{
    reveal(Seq::filter);
    if tail.len() > 0 {
        let all = s + tail;
        assert(all.drop_last() =~= s + tail.drop_last());
        assert(all.last() == tail[tail.len() - 1]);
        assert forall|i: int| 0 <= i < tail.drop_last().len() implies !p(
            #[trigger] tail.drop_last()[i],
        ) by {
            assert(tail.drop_last()[i] == tail[i]);
        }
        lemma_filter_tail(s, tail.drop_last(), p);
    } else {
        assert(s + tail =~= s);
    }
}

/// The chunks of a file are told apart by what their ids are made from.
pub proof fn chunks_of_a_file_are_told_apart(
    src: Source,
    spans: Seq<chunk::Span>,
    list: Seq<Record>,
    i: int,
    j: int,
)
    requires
        chunk::spans_advance(spans),
        records_under(src, spans, list),
        0 <= i < j < list.len(),
    ensures
        metadata::chunk_descriptor(
            src.rel,
            src.lang,
            spans[i].start as nat,
            (spans[i].start + spans[i].len) as nat,
            list[i].text@,
        ) != metadata::chunk_descriptor(
            src.rel,
            src.lang,
            spans[j].start as nat,
            (spans[j].start + spans[j].len) as nat,
            list[j].text@,
        ),
{
    let (s, t) = (spans[i], spans[j]);
    let a = (s.start + s.len) as nat;
    let b = (t.start + t.len) as nat;
    let (x, y) = (list[i].text@, list[j].text@);
    let one = metadata::chunk_descriptor(src.rel, src.lang, s.start as nat, a, x);
    let two = metadata::chunk_descriptor(src.rel, src.lang, t.start as nat, b, y);
    if one == two {
        let none = Seq::<char>::empty();
        let n = src.rel.len() as int;
        let short = metadata::chunk_descriptor(none, src.lang, s.start as nat, a, x);
        let other = metadata::chunk_descriptor(none, src.lang, t.start as nat, b, y);
        assert(short =~= one.skip(n));
        assert(other =~= two.skip(n));
        metadata::chunk_descriptor_is_unambiguous(
            none,
            src.lang,
            s.start as nat,
            a,
            x,
            none,
            src.lang,
            t.start as nat,
            b,
            y,
        );
    }
}

/// A chunk that only moves within its file keeps the key of its vector: where it stands
/// has no part in it.
pub proof fn moved_chunk_keeps_its_key(
    before: Source,
    after: Source,
    old_span: chunk::Span,
    new_span: chunk::Span,
    old: Record,
    new: Record,
)
    requires
        record_under(before, old_span, old),
        record_under(after, new_span, new),
        before.rel == after.rel,
        before.lang == after.lang,
        before.fingerprint == after.fingerprint,
        old.text@ == new.text@,
        text::opt_text(old.symbol) == text::opt_text(new.symbol),
        text::opt_text(old.kind) == text::opt_text(new.kind),
        text::opt_text(old.parent) == text::opt_text(new.parent),
        text::opt_text(old.signature) == text::opt_text(new.signature),
        text::texts(old.headings@) == text::texts(new.headings@),
    ensures
        old.embedding_key == new.embedding_key,
{
}

/// Whether every record belongs to a file with a hash.
pub open spec fn hashed(index: Index) -> bool {
    forall|i: int|
        0 <= i < index.records@.len() ==> index.file_hashes@.contains_key(
            path::canonical((#[trigger] index.records@[i]).file@),
        )
}

/// Taking in a file keeps every record with the hash of its file.
pub proof fn records_keep_their_hashes<
    R: Fn(&String) -> Option<String>,
    E: Fn(&Vec<String>) -> Result<Vec<Vec<FloatBits>>, String>,
>(job: Job<R, E>, p: Seq<char>, content: Option<String>, a: Run, b: Run, r: Result<(), IngestError>)
    requires
        file_step(job, p, content, a, b, r),
        hashed(a.index),
    ensures
        hashed(b.index),
{
    let rel = path::relative_to(p, job.root@);
    let keep = store::not_of_file(rel);
    let old = a.index.records@;
    let left = old.filter(keep);
    assert forall|i: int| 0 <= i < left.len() implies a.index.file_hashes@.contains_key(
        path::canonical((#[trigger] left[i]).file@),
    ) && !path::same_path(left[i].file@, rel) by {
        old.lemma_filter_pred(keep, i);
        old.lemma_filter_contains_rev(keep, left[i]);
        let n = choose|n: int| 0 <= n < old.len() && old[n] == left[i];
        assert(a.index.file_hashes@.contains_key(path::canonical(old[n].file@)));
    }
    assert forall|i: int| 0 <= i < b.index.records@.len() implies b.index.file_hashes@.contains_key(
        path::canonical((#[trigger] b.index.records@[i]).file@),
    ) by {
        if i < left.len() {
            assert(a.index.file_hashes@.contains_key(path::canonical(left[i].file@)));
        }
    }
}

/// A run keeps every record with the hash of its file.
pub proof fn finished_run_keeps_hashes<
    R: Fn(&String) -> Option<String>,
    E: Fn(&Vec<String>) -> Result<Vec<Vec<FloatBits>>, String>,
>(job: Job<R, E>, files: Seq<String>, runs: Seq<Run>)
    requires
        is_progress(job, files, runs),
        hashed(runs[0].index),
    ensures
        hashed(runs.last().index),
    decreases runs.len(),
{
    if runs.len() > 1 {
        let n = runs.len() - 2;
        let before = runs.drop_last();
        assert forall|j: int| 0 <= j < before.len() - 1 implies #[trigger] read_step(
            job,
            files[j],
            before[j],
            before[j + 1],
            Ok(()),
        ) by {
            assert(read_step(job, files[j], runs[j], runs[j + 1], Ok(())));
        }
        finished_run_keeps_hashes(job, files, before);
        assert(read_step(job, files[n], runs[n], runs[n + 1], Ok(())));
        if chunk::lang_of_path(files[n]@) is Some {
            let content = choose|content: Option<String>| #[trigger]
                job.read.ensures((&files[n],), content) && file_step(
                    job,
                    files[n]@,
                    content,
                    runs[n],
                    runs[n + 1],
                    Ok(()),
                );
            records_keep_their_hashes(job, files[n]@, content, runs[n], runs[n + 1], Ok(()));
        }
    }
}

/// Number of files of a known language.
pub open spec fn known_files(files: Seq<String>) -> nat
    decreases files.len(),
{
    if files.len() == 0 {
        0
    } else {
        known_files(files.drop_last()) + if chunk::lang_of_path(files.last()@) is Some {
            1nat
        } else {
            0nat
        }
    }
}

proof fn lemma_known_files(files: Seq<String>, n: int)
    requires
        0 <= n < files.len(),
    ensures
        known_files(files.take(n + 1)) == known_files(files.take(n)) + if chunk::lang_of_path(
            files[n]@,
        ) is Some {
            1nat
        } else {
            0nat
        },
        known_files(files.take(n)) <= n,
    decreases n,
{
    assert(files.take(n + 1).drop_last() =~= files.take(n));
    if n > 0 {
        lemma_known_files(files, n - 1);
    }
}

/// A run over files that have not changed since they were indexed changes nothing in the
/// index and the cache, and embeds nothing: every file of a known language is skipped,
/// and nothing else is counted.
pub proof fn unchanged_project_stays_as_it_is<
    R: Fn(&String) -> Option<String>,
    E: Fn(&Vec<String>) -> Result<Vec<Vec<FloatBits>>, String>,
>(job: Job<R, E>, files: Seq<String>, runs: Seq<Run>)
    requires
        is_progress(job, files, runs),
        !job.reindex,
        forall|i: int, content: Option<String>|
            0 <= i < files.len() && #[trigger] job.read.ensures((&files[i],), content)
                ==> content is Some && unchanged(
                runs[0].index,
                path::relative_to(files[i]@, job.root@),
                hash::xxh3_64(vstd::utf8::encode_utf8(content->0@)),
            ),
        runs[0].stats.files_skipped + files.len() <= usize::MAX,
    ensures
        runs.last().index == runs[0].index,
        runs.last().cache == runs[0].cache,
        runs.last().stats == (Stats {
            files_skipped: (runs[0].stats.files_skipped + known_files(
                files.take(runs.len() - 1),
            )) as usize,
            ..runs[0].stats
        }),
    decreases runs.len(),
{
    if runs.len() > 1 {
        lemma_known_files(files, runs.len() - 2);
        let before = runs.drop_last();
        let n = runs.len() - 2;
        assert forall|i: int| 0 <= i < before.len() - 1 implies #[trigger] read_step(
            job,
            files[i],
            before[i],
            before[i + 1],
            Ok(()),
        ) by {
            assert(read_step(job, files[i], runs[i], runs[i + 1], Ok(())));
        }
        unchanged_project_stays_as_it_is(job, files, before);
        assert(read_step(job, files[n], runs[n], runs[n + 1], Ok(())));
    }
}

/// Whether a file is called by the root or by an absolute path, so that what it is called
/// in the index leads back to it.
pub open spec fn is_reachable(p: Seq<char>, root: Seq<char>) -> bool {
    path::lies_under(p, root) || path::rooted(p) || root.len() == 0
}

/// Whether the index holds what reading a file gave: its hash, or nothing if it cannot be
/// read.
pub open spec fn reflects(index: Index, rel: Seq<char>, content: Option<String>) -> bool {
    match content {
        None => !index.file_hashes@.contains_key(path::canonical(rel)),
        Some(c) => unchanged(index, rel, hash::xxh3_64(vstd::utf8::encode_utf8(c@))),
    }
}

/// Whether the index holds what reading the file has given.
pub open spec fn up_to_date<
    R: Fn(&String) -> Option<String>,
    E: Fn(&Vec<String>) -> Result<Vec<Vec<FloatBits>>, String>,
>(job: Job<R, E>, file: String, index: Index) -> bool {
    exists|content: Option<String>| #[trigger]
        job.read.ensures((&file,), content) && reflects(
            index,
            path::relative_to(file@, job.root@),
            content,
        )
}

proof fn lemma_stays_up_to_date<
    R: Fn(&String) -> Option<String>,
    E: Fn(&Vec<String>) -> Result<Vec<Vec<FloatBits>>, String>,
>(job: Job<R, E>, file: String, other: String, a: Run, b: Run)
    requires
        up_to_date(job, file, a.index),
        read_step(job, other, a, b, Ok(())),
        is_reachable(file@, job.root@),
        is_reachable(other@, job.root@),
        !path::same_path(file@, other@),
    ensures
        up_to_date(job, file, b.index),
{
    let content = choose|content: Option<String>| #[trigger]
        job.read.ensures((&file,), content) && reflects(
            a.index,
            path::relative_to(file@, job.root@),
            content,
        );
    if chunk::lang_of_path(other@) is Some {
        let read = choose|read: Option<String>| #[trigger]
            job.read.ensures((&other,), read) && file_step(job, other@, read, a, b, Ok(()));
        other_files_are_untouched(job, other@, read, a, b, Ok(()));
        let rel = path::relative_to(file@, job.root@);
        let key = path::canonical(rel);
        let gone = path::canonical(path::relative_to(other@, job.root@));
        if key == gone {
            path::relative_paths_tell_files_apart(file@, other@, job.root@);
        }
        assert(b.index.file_hashes@.remove(gone).contains_key(key)
            == a.index.file_hashes@.remove(gone).contains_key(key));
        assert(b.index.file_hashes@.contains_key(key) == a.index.file_hashes@.contains_key(key));
        if a.index.file_hashes@.contains_key(key) {
            assert(b.index.file_hashes@.remove(gone)[key] == a.index.file_hashes@.remove(gone)[key]);
        }
    }
    assert(job.read.ensures((&file,), content) && reflects(
        b.index,
        path::relative_to(file@, job.root@),
        content,
    ));
}

/// After a run the index is up to date with every discovered file: it holds the hash of
/// what was read, and nothing of a file that could not be read.
pub proof fn finished_run_is_up_to_date<
    R: Fn(&String) -> Option<String>,
    E: Fn(&Vec<String>) -> Result<Vec<Vec<FloatBits>>, String>,
>(job: Job<R, E>, files: Seq<String>, runs: Seq<Run>, i: int)
    requires
        is_progress(job, files, runs),
        0 <= i < runs.len() - 1,
        chunk::lang_of_path(files[i]@) is Some,
        forall|j: int| 0 <= j < files.len() ==> is_reachable(#[trigger] files[j]@, job.root@),
        forall|j: int, k: int|
            0 <= j < k < files.len() ==> !path::same_path(
                #[trigger] files[j]@,
                #[trigger] files[k]@,
            ),
    ensures
        up_to_date(job, files[i], runs.last().index),
    decreases runs.len(),
{
    let n = runs.len() - 2;
    assert(read_step(job, files[n], runs[n], runs[n + 1], Ok(())));
    if i == n {
        let content = choose|content: Option<String>| #[trigger]
            job.read.ensures((&files[n],), content) && file_step(
                job,
                files[n]@,
                content,
                runs[n],
                runs[n + 1],
                Ok(()),
            );
        assert(reflects(
            runs[n + 1].index,
            path::relative_to(files[n]@, job.root@),
            content,
        ));
    } else {
        let before = runs.drop_last();
        assert forall|j: int| 0 <= j < before.len() - 1 implies #[trigger] read_step(
            job,
            files[j],
            before[j],
            before[j + 1],
            Ok(()),
        ) by {
            assert(read_step(job, files[j], runs[j], runs[j + 1], Ok(())));
        }
        finished_run_is_up_to_date(job, files, before, i);
        assert(!path::same_path(files[i]@, files[n]@));
        lemma_stays_up_to_date(job, files[i], files[n], runs[n], runs[n + 1]);
    }
}

/// After a run the index holds no file but the discovered ones.
pub proof fn finished_run_has_discovered_files_only<
    R: Fn(&String) -> Option<String>,
    E: Fn(&Vec<String>) -> Result<Vec<Vec<FloatBits>>, String>,
>(
    job: Job<R, E>,
    files: Seq<String>,
    index: Index,
    cache: EmbeddingCache,
    runs: Seq<Run>,
    p: String,
)
    requires
        is_progress(job, files, runs),
        is_start(index, job.root@, text::texts(files), cache, runs[0]),
        forall|j: int| 0 <= j < files.len() ==> is_reachable(#[trigger] files[j]@, job.root@),
        text::texts(runs.last().index.file_hashes.path_texts()).contains(p@),
    ensures
        lists_path(text::texts(files), path::joined(job.root@, p@)),
    decreases runs.len(),
{
    let list = text::texts(files);
    if runs.len() == 1 {
        let left = runs[0].index.file_hashes.path_texts();
        let i = choose|i: int| 0 <= i < text::texts(left).len() && text::texts(left)[i] == p@;
        assert(left.contains(left[i]));
        pruned_index_has_discovered_files_only(index, job.root@, list, runs[0].index, left[i]);
    } else {
        let n = runs.len() - 2;
        let before = runs.drop_last();
        assert(read_step(job, files[n], runs[n], runs[n + 1], Ok(())));
        assert forall|j: int| 0 <= j < before.len() - 1 implies #[trigger] read_step(
            job,
            files[j],
            before[j],
            before[j + 1],
            Ok(()),
        ) by {
            assert(read_step(job, files[j], runs[j], runs[j + 1], Ok(())));
        }
        let old = runs[n].index.file_hashes.path_texts();
        let rel = path::relative_to(files[n]@, job.root@);
        if text::texts(old).contains(p@) {
            finished_run_has_discovered_files_only(job, files, index, cache, before, p);
        } else {
            lemma_new_path(job, files[n], runs[n], runs[n + 1], p@);
            path::relative_path_leads_back(files[n]@, job.root@);
            assert(list[n] == files[n]@);
            assert(path::same_path(list[n], path::joined(job.root@, p@)));
        }
    }
}

/// The only path that a step can add is that of its file.
proof fn lemma_new_path<
    R: Fn(&String) -> Option<String>,
    E: Fn(&Vec<String>) -> Result<Vec<Vec<FloatBits>>, String>,
>(job: Job<R, E>, file: String, a: Run, b: Run, p: Seq<char>)
    requires
        read_step(job, file, a, b, Ok(())),
        text::texts(b.index.file_hashes.path_texts()).contains(p),
        !text::texts(a.index.file_hashes.path_texts()).contains(p),
    ensures
        p == path::relative_to(file@, job.root@),
{
    let rel = path::relative_to(file@, job.root@);
    let old = a.index.file_hashes.path_texts();
    let keep = |t: String| !path::same_path(t@, rel);
    let left = old.filter(keep);
    if text::texts(left).contains(p) {
        let i = choose|i: int| 0 <= i < text::texts(left).len() && text::texts(left)[i] == p;
        old.lemma_filter_contains_rev(keep, left[i]);
        let j = choose|j: int| 0 <= j < old.len() && old[j] == left[i];
        assert(text::texts(old)[j] == p);
    }
    let now = text::texts(b.index.file_hashes.path_texts());
    let i = choose|i: int| 0 <= i < now.len() && now[i] == p;
    if now == text::texts(left).push(rel) && i < text::texts(left).len() {
        assert(text::texts(left)[i] == p);
    }
}

// ---------------------------------------------------------------------------
// Building again
// ---------------------------------------------------------------------------

/// Whether two indexes hold the same records and hashes, and were made with the same
/// settings.
pub open spec fn same_contents(a: Index, b: Index) -> bool {
    &&& a.records@ == b.records@
    &&& a.file_hashes@ == b.file_hashes@
    &&& same_settings(a, b)
}

/// Whether reading a file gives the same every time.
pub open spec fn reads_steadily<R: Fn(&String) -> Option<String>>(read: R, files: Seq<String>) -> bool {
    forall|i: int, a: Option<String>, b: Option<String>|
        0 <= i < files.len() && #[trigger] read.ensures((&files[i],), a) && #[trigger] read.ensures(
            (&files[i],),
            b,
        ) ==> text::opt_text(a) == text::opt_text(b)
}

/// Whether every file of a known language can be read.
pub open spec fn all_readable<R: Fn(&String) -> Option<String>>(read: R, files: Seq<String>) -> bool {
    forall|i: int, content: Option<String>|
        0 <= i < files.len() && chunk::lang_of_path(files[i]@) is Some && #[trigger] read.ensures(
            (&files[i],),
            content,
        ) ==> content is Some
}

/// Whether the index holds what reading a file of a known language can give.
spec fn current<
    R: Fn(&String) -> Option<String>,
    E: Fn(&Vec<String>) -> Result<Vec<Vec<FloatBits>>, String>,
>(job: Job<R, E>, file: String, index: Index) -> bool {
    forall|content: Option<String>|
        chunk::lang_of_path(file@) is Some && #[trigger] job.read.ensures((&file,), content)
            ==> reflects(index, path::relative_to(file@, job.root@), content)
}

/// A file that the index is up to date with is skipped, or, where it cannot be read,
/// counted as failed.
proof fn lemma_quiet_step<
    R: Fn(&String) -> Option<String>,
    E: Fn(&Vec<String>) -> Result<Vec<Vec<FloatBits>>, String>,
>(job: Job<R, E>, file: String, a: Run, b: Run, r: Result<(), IngestError>)
    requires
        !job.reindex,
        read_step(job, file, a, b, r),
        hashed(a.index),
        current(job, file, a.index),
        a.stats.files_skipped < usize::MAX,
        a.stats.files_failed < usize::MAX,
    ensures
        r is Ok,
        same_contents(a.index, b.index),
        b.cache == a.cache,
        b.stats == (Stats {
            files_skipped: b.stats.files_skipped,
            files_failed: b.stats.files_failed,
            ..a.stats
        }),
        b.stats.files_skipped + b.stats.files_failed == a.stats.files_skipped
            + a.stats.files_failed + if chunk::lang_of_path(file@) is Some {
            1int
        } else {
            0int
        },
        chunk::lang_of_path(file@) is Some && (forall|content: Option<String>| #[trigger]
            job.read.ensures((&file,), content) ==> content is Some) ==> b.stats.files_failed
            == a.stats.files_failed,
        chunk::lang_of_path(file@) is None ==> b.stats.files_failed == a.stats.files_failed,
{
    if chunk::lang_of_path(file@) is Some {
        let content = choose|content: Option<String>| #[trigger]
            job.read.ensures((&file,), content) && file_step(job, file@, content, a, b, r);
        let rel = path::relative_to(file@, job.root@);
        assert(reflects(a.index, rel, content));
        if content is None {
            let key = path::canonical(rel);
            let keep = store::not_of_file(rel);
            let list = a.index.records@;
            assert forall|i: int| 0 <= i < list.len() implies keep(#[trigger] list[i]) by {
                assert(a.index.file_hashes@.contains_key(path::canonical(list[i].file@)));
            }
            lemma_filter_all(list, keep);
            assert(a.index.file_hashes@.remove(key) =~= a.index.file_hashes@);
        }
    }
}

proof fn lemma_quiet_run<
    R: Fn(&String) -> Option<String>,
    E: Fn(&Vec<String>) -> Result<Vec<Vec<FloatBits>>, String>,
>(job: Job<R, E>, files: Seq<String>, runs: Seq<Run>)
    requires
        !job.reindex,
        is_progress(job, files, runs),
        hashed(runs[0].index),
        forall|i: int| 0 <= i < files.len() ==> current(job, #[trigger] files[i], runs[0].index),
        runs[0].stats.files_skipped + runs[0].stats.files_failed == 0,
        files.len() <= usize::MAX,
    ensures
        same_contents(runs[0].index, runs.last().index),
        hashed(runs.last().index),
        forall|i: int|
            0 <= i < files.len() ==> current(job, #[trigger] files[i], runs.last().index),
        runs.last().cache == runs[0].cache,
        runs.last().stats == (Stats {
            files_skipped: runs.last().stats.files_skipped,
            files_failed: runs.last().stats.files_failed,
            ..runs[0].stats
        }),
        runs.last().stats.files_skipped + runs.last().stats.files_failed == known_files(
            files.take(runs.len() - 1),
        ),
        all_readable(job.read, files) ==> runs.last().stats.files_failed == 0,
    decreases runs.len(),
{
    if runs.len() > 1 {
        let n = runs.len() - 2;
        let before = runs.drop_last();
        assert forall|j: int| 0 <= j < before.len() - 1 implies #[trigger] read_step(
            job,
            files[j],
            before[j],
            before[j + 1],
            Ok(()),
        ) by {
            assert(read_step(job, files[j], runs[j], runs[j + 1], Ok(())));
        }
        lemma_quiet_run(job, files, before);
        lemma_known_files(files, n);
        assert(read_step(job, files[n], runs[n], runs[n + 1], Ok(())));
        assert(current(job, files[n], runs[n].index));
        lemma_quiet_step(job, files[n], runs[n], runs[n + 1], Ok(()));
        assert forall|i: int| 0 <= i < files.len() implies current(
            job,
            #[trigger] files[i],
            runs.last().index,
        ) by {
            assert(current(job, files[i], runs[n].index));
        }
    } else {
        assert(files.take(0) =~= seq![]);
    }
}

/// A run keeps the settings of the index that it started from.
proof fn lemma_settings_kept<
    R: Fn(&String) -> Option<String>,
    E: Fn(&Vec<String>) -> Result<Vec<Vec<FloatBits>>, String>,
>(job: Job<R, E>, files: Seq<String>, runs: Seq<Run>)
    requires
        is_progress(job, files, runs),
    ensures
        same_settings(runs[0].index, runs.last().index),
    decreases runs.len(),
{
    if runs.len() > 1 {
        let n = runs.len() - 2;
        let before = runs.drop_last();
        assert forall|j: int| 0 <= j < before.len() - 1 implies #[trigger] read_step(
            job,
            files[j],
            before[j],
            before[j + 1],
            Ok(()),
        ) by {
            assert(read_step(job, files[j], runs[j], runs[j + 1], Ok(())));
        }
        lemma_settings_kept(job, files, before);
        assert(read_step(job, files[n], runs[n], runs[n + 1], Ok(())));
    }
}

/// Where every indexed file is still discovered, nothing is pruned.
proof fn lemma_nothing_pruned(index: Index, root: Seq<char>, files: Seq<Seq<char>>)
    requires
        forall|p: String| #[trigger]
            index.file_hashes.path_texts().contains(p) ==> lists_path(
                files,
                path::joined(root, p@),
            ),
    ensures
        pruned_paths(index, root, files) == Seq::<Seq<char>>::empty(),
{
    let all = index.file_hashes.path_texts();
    let gone = vanished(root, files);
    let stale = all.filter(gone);
    if stale.len() > 0 {
        all.lemma_filter_pred(gone, 0);
        all.lemma_filter_contains_rev(gone, stale[0]);
        assert(all.contains(stale[0]));
    }
    assert(text::texts(stale) =~= seq![]);
}

/// A file that the index is up to date with has nothing embedded.
proof fn lemma_current_lacks_nothing<
    R: Fn(&String) -> Option<String>,
    E: Fn(&Vec<String>) -> Result<Vec<Vec<FloatBits>>, String>,
>(job: Job<R, E>, file: String, a: Run, list: Seq<Seq<char>>)
    requires
        !job.reindex,
        current(job, file, a.index),
    ensures
        !read_lacks(job, file, a, list),
{
    if read_lacks(job, file, a, list) {
        let content = choose|content: Option<String>| #[trigger]
            job.read.ensures((&file,), content) && file_lacks(job, file@, content, a, list);
        assert(reflects(a.index, path::relative_to(file@, job.root@), content));
    }
}

/// Where an update starts from the index of a finished one, it prunes nothing and is
/// already up to date with every file.
proof fn lemma_second_start<
    R: Fn(&String) -> Option<String>,
    E: Fn(&Vec<String>) -> Result<Vec<Vec<FloatBits>>, String>,
>(
    job: Job<R, E>,
    again: Job<R, E>,
    files: Seq<String>,
    index: Index,
    cache: EmbeddingCache,
    first: Run,
    begun: Run,
)
    requires
        updates(job, files, index, cache, Ok(first)),
        is_start(first.index, again.root@, text::texts(files), first.cache, begun),
        hashed(first.index),
        again.root@ == job.root@,
        again.read == job.read,
        reads_steadily(job.read, files),
        forall|j: int| 0 <= j < files.len() ==> is_reachable(#[trigger] files[j]@, job.root@),
        forall|j: int, k: int|
            0 <= j < k < files.len() ==> !path::same_path(
                #[trigger] files[j]@,
                #[trigger] files[k]@,
            ),
    ensures
        same_contents(first.index, begun.index),
        hashed(begun.index),
        begun.cache == first.cache,
        begun.stats.is_zero(),
        forall|i: int| 0 <= i < files.len() ==> current(again, #[trigger] files[i], begun.index),
{
    let list = text::texts(files);
    let start = choose|start: Run| #[trigger]
        is_start(index, job.root@, list, cache, start) && ingests(job, files, start, Ok(first));
    let runs = choose|runs: Seq<Run>| #[trigger]
        is_progress(job, files, runs) && runs[0] == start && runs.len() == files.len() + 1
            && runs.last() == first;
    assert forall|p: String| #[trigger]
        first.index.file_hashes.path_texts().contains(p) implies lists_path(
        list,
        path::joined(job.root@, p@),
    ) by {
        let held = first.index.file_hashes.path_texts();
        let i = choose|i: int| 0 <= i < held.len() && held[i] == p;
        assert(text::texts(held)[i] == p@);
        finished_run_has_discovered_files_only(job, files, index, cache, runs, p);
    }
    lemma_nothing_pruned(first.index, job.root@, list);
    lemma_none_gone(first.index);
    assert(same_contents(first.index, begun.index));
    assert forall|i: int| 0 <= i < files.len() implies current(
        again,
        #[trigger] files[i],
        begun.index,
    ) by {
        assert forall|content: Option<String>|
            chunk::lang_of_path(files[i]@) is Some && #[trigger] again.read.ensures(
                (&files[i],),
                content,
            ) implies reflects(
            begun.index,
            path::relative_to(files[i]@, again.root@),
            content,
        ) by {
            finished_run_is_up_to_date(job, files, runs, i);
            let known = choose|known: Option<String>| #[trigger]
                job.read.ensures((&files[i],), known) && reflects(
                    first.index,
                    path::relative_to(files[i]@, job.root@),
                    known,
                );
            assert(text::opt_text(known) == text::opt_text(content));
        }
    }
}

/// Bringing an index up to date a second time, with the files as they were, changes
/// nothing: it succeeds, keeps the records, the hashes and the cache, prunes nothing, and
/// there is nothing that it could have embedded. Every file of a known language is
/// skipped or, where it cannot be read, fails as before.
pub proof fn a_second_update_changes_nothing<
    R: Fn(&String) -> Option<String>,
    E: Fn(&Vec<String>) -> Result<Vec<Vec<FloatBits>>, String>,
>(
    job: Job<R, E>,
    again: Job<R, E>,
    files: Seq<String>,
    index: Index,
    cache: EmbeddingCache,
    first: Run,
    second: Result<Run, IngestError>,
)
    requires
        updates(job, files, index, cache, Ok(first)),
        updates(again, files, first.index, first.cache, second),
        hashed(first.index),
        !again.reindex,
        again.root@ == job.root@,
        again.read == job.read,
        reads_steadily(job.read, files),
        files.len() <= usize::MAX,
        forall|j: int| 0 <= j < files.len() ==> is_reachable(#[trigger] files[j]@, job.root@),
        forall|j: int, k: int|
            0 <= j < k < files.len() ==> !path::same_path(
                #[trigger] files[j]@,
                #[trigger] files[k]@,
            ),
    ensures
        second is Ok,
        changes_nothing(again, files, first, second->Ok_0),
        forall|list: Seq<Seq<char>>|
            !#[trigger] update_lacks(again, files, first.index, first.cache, list),
{
    let begun = choose|start: Run| #[trigger]
        is_start(first.index, again.root@, text::texts(files), first.cache, start) && ingests(
            again,
            files,
            start,
            second,
        );
    lemma_second_start(job, again, files, index, cache, first, begun);
    let states = choose|runs: Seq<Run>| #[trigger]
        is_progress(again, files, runs) && runs[0] == begun && (match second {
            Ok(run) => runs.len() == files.len() + 1 && runs.last() == run,
            Err(e) => runs.len() <= files.len() && stops(
                again,
                files[runs.len() - 1],
                runs.last(),
                e,
            ),
        });
    lemma_quiet_run(again, files, states);
    if let Err(e) = second {
        let n = states.len() - 1;
        let b = choose|b: Run| #[trigger] read_step(again, files[n], states.last(), b, Err(e));
        lemma_known_files(files, n);
        assert(current(again, files[n], states.last().index));
        lemma_quiet_step(again, files[n], states.last(), b, Err(e));
    } else {
        assert(files.take(files.len() as int) =~= files);
    }
    assert forall|list: Seq<Seq<char>>|
        !#[trigger] update_lacks(again, files, first.index, first.cache, list) by {
        if update_lacks(again, files, first.index, first.cache, list) {
            let start = choose|start: Run| #[trigger]
                is_start(first.index, again.root@, text::texts(files), first.cache, start)
                    && run_lacks(again, files, start, list);
            let runs = choose|runs: Seq<Run>| #[trigger]
                is_progress(again, files, runs) && runs[0] == start && runs.len() <= files.len()
                    && read_lacks(again, files[runs.len() - 1], runs.last(), list);
            lemma_second_start(job, again, files, index, cache, first, start);
            lemma_quiet_run(again, files, runs);
            assert(current(again, files[runs.len() - 1], runs.last().index));
            lemma_current_lacks_nothing(again, files[runs.len() - 1], runs.last(), list);
        }
    }
}

/// Whether a run ends as an earlier one did: with the same records, hashes, settings and
/// vectors, and without having indexed, pruned or embedded anything. Every file of a
/// known language was skipped or could not be read.
pub open spec fn changes_nothing<
    R: Fn(&String) -> Option<String>,
    E: Fn(&Vec<String>) -> Result<Vec<Vec<FloatBits>>, String>,
>(job: Job<R, E>, files: Seq<String>, first: Run, second: Run) -> bool {
    &&& same_contents(first.index, second.index)
    &&& second.cache == first.cache
    &&& second.stats == (Stats {
        files_indexed: 0,
        files_skipped: second.stats.files_skipped,
        files_pruned: 0,
        files_failed: second.stats.files_failed,
        chunks: 0,
        cache_hits: 0,
        cache_misses: 0,
    })
    &&& second.stats.files_skipped + second.stats.files_failed == known_files(files)
    &&& all_readable(job.read, files) ==> second.stats.files_failed == 0
        && second.stats.files_skipped == known_files(files)
}

/// Building a second time, from the index that was saved and with the files as they
/// were, changes nothing, and there is nothing that it could have embedded.
pub proof fn a_second_build_changes_nothing<
    L: FnOnce() -> Result<Index, LoadError>,
    M: FnOnce() -> Result<Index, LoadError>,
    R: Fn(&String) -> Option<String>,
    E: Fn(&Vec<String>) -> Result<Vec<Vec<FloatBits>>, String>,
    C: FnOnce(&String, usize, &HashMap<u64, Vec<FloatBits>>) -> Result<(), String>,
    W: FnOnce(&Vec<u8>, &Index) -> Result<(), String>,
>(
    job: Job<R, E>,
    again: Job<R, E>,
    dim: usize,
    fingerprint: u64,
    stored: bool,
    load: L,
    reload: M,
    cache: EmbeddingCache,
    files: Seq<String>,
    save_cache: C,
    write: W,
    first: Run,
    second: Result<Run, IngestError>,
)
    requires
        ends_with(
            job,
            dim,
            fingerprint,
            stored,
            load,
            cache,
            files,
            save_cache,
            write,
            first,
            Ok(()),
        ),
        runs_to(again, dim, fingerprint, true, reload, first.cache, files, second),
        forall|out: Result<Index, LoadError>| #[trigger]
            reload.ensures((), out) ==> out == Ok::<Index, LoadError>(first.index),
        !again.reindex,
        again.root@ == job.root@,
        again.config.model@ == job.config.model@,
        again.read == job.read,
        reads_steadily(job.read, files),
        files.len() <= usize::MAX,
        forall|j: int| 0 <= j < files.len() ==> is_reachable(#[trigger] files[j]@, job.root@),
        forall|j: int, k: int|
            0 <= j < k < files.len() ==> !path::same_path(
                #[trigger] files[j]@,
                #[trigger] files[k]@,
            ),
    ensures
        second is Ok,
        changes_nothing(again, files, first, second->Ok_0),
        forall|index: Index, list: Seq<Seq<char>>| #[trigger]
            starts_with(
                true,
                reload,
                again.config.model@,
                dim,
                fingerprint,
                again.reindex,
                Ok(index),
            ) ==> !#[trigger] update_lacks(again, files, index, first.cache, list),
{
    let list = text::texts(files);
    let index = choose|index: Index| #[trigger]
        updates(job, files, index, cache, Ok::<Run, IngestError>(first)) && starts_with(
            stored,
            load,
            job.config.model@,
            dim,
            fingerprint,
            job.reindex,
            Ok(index),
        );
    assert(reusable(index, job.config.model@, dim, fingerprint));
    let start = choose|start: Run| #[trigger]
        is_start(index, job.root@, list, cache, start) && ingests(job, files, start, Ok(first));
    let runs = choose|runs: Seq<Run>| #[trigger]
        is_progress(job, files, runs) && runs[0] == start && runs.len() == files.len() + 1
            && runs.last() == first;
    lemma_settings_kept(job, files, runs);
    assert(reusable(first.index, again.config.model@, dim, fingerprint));
    assert(first.index.valid());
    assert forall|i: int|
        0 <= i < first.index.records@.len() implies first.index.file_hashes@.contains_key(
        path::canonical((#[trigger] first.index.records@[i]).file@),
    ) by {
        assert(first.index.record_fault(i) is None);
    }
    let from = choose|index: Index| #[trigger]
        updates(again, files, index, first.cache, second) && starts_with(
            true,
            reload,
            again.config.model@,
            dim,
            fingerprint,
            again.reindex,
            Ok(index),
        );
    assert(from == first.index);
    a_second_update_changes_nothing(job, again, files, index, cache, first, second);
}

// ---------------------------------------------------------------------------
// What a run does to a file
// ---------------------------------------------------------------------------

/// A stored index is used again exactly if its model, its dimension and its fingerprint
/// are those of the run; else the run starts from nothing.
pub proof fn indexes_are_reused_as_they_were_made(
    existing: Index,
    model: &str,
    dim: usize,
    fingerprint: u64,
    r: Index,
)
    requires
        call_ensures(reuse_or_new, (existing, model, dim, fingerprint), r),
    ensures
        r.model@ == model@ && r.dim == dim && r.ingest_fingerprint == fingerprint,
        existing.model@ == model@ && existing.dim == dim && existing.ingest_fingerprint
            == fingerprint ==> r == existing,
        existing.model@ != model@ || existing.dim != dim || existing.ingest_fingerprint
            != fingerprint ==> r.records@.len() == 0 && r.file_hashes@ == Map::<
            Seq<char>,
            u64,
        >::empty(),
{
}

/// A run that rebuilds, or that finds no stored index, starts from nothing, whatever a
/// stored index would hold.
pub proof fn rebuilds_start_from_nothing<L: FnOnce() -> Result<Index, LoadError>>(
    stored: bool,
    load: L,
    model: Seq<char>,
    dim: usize,
    fingerprint: u64,
    reindex: bool,
    r: Result<Index, LoadError>,
)
    requires
        starts_with(stored, load, model, dim, fingerprint, reindex, r),
        reindex || !stored,
    ensures
        r is Ok,
        r->Ok_0.records@.len() == 0,
        r->Ok_0.file_hashes@ == Map::<Seq<char>, u64>::empty(),
        r->Ok_0.model@ == model && r->Ok_0.dim == dim && r->Ok_0.ingest_fingerprint == fingerprint,
{
}

/// A stored index that cannot be read is an error, not a reason to start from nothing.
pub proof fn unreadable_indexes_are_errors<L: FnOnce() -> Result<Index, LoadError>>(
    load: L,
    model: Seq<char>,
    dim: usize,
    fingerprint: u64,
    r: Result<Index, LoadError>,
)
    requires
        starts_with(true, load, model, dim, fingerprint, false, r),
        forall|out: Result<Index, LoadError>| #[trigger] load.ensures((), out) ==> out is Err,
    ensures
        r is Err && load.ensures((), r),
{
}

/// A record tells of its chunk: its text is the part of the file that its span covers,
/// its lines are counted from there, and the rest comes from the file's path, its
/// language, its provenance and its settings.
pub proof fn records_tell_of_their_chunk(
    src: Source,
    before: Seq<char>,
    part: Seq<char>,
    behind: Seq<char>,
    span: chunk::Span,
    r: Record,
) -> (hashed: Seq<u8>)
    requires
        src.content == before + part + behind,
        span.start == vstd::utf8::encode_utf8(before).len(),
        span.len == vstd::utf8::encode_utf8(part).len(),
        span.start + span.len <= usize::MAX,
        record_under(src, span, r),
    ensures
        r.text@ == part,
        r.start_line == 1 + chunk::line_feeds(before),
        r.end_line == r.start_line + chunk::line_feeds(part),
        r.file@ == src.rel,
        r.lang@ == chunk::lang_name(src.lang),
        r.chunk_id@ == metadata::chunk_id_text(
            src.rel,
            src.lang,
            span.start as nat,
            (span.start + span.len) as nat,
            part,
        ),
        text::opt_text(r.source) == metadata::provenance_of(src.content).source,
        text::opt_text(r.corpus_source) == metadata::provenance_of(src.content).corpus_source,
        text::opt_text(r.fetched) == metadata::provenance_of(src.content).fetched,
        src.lang == Lang::Markdown ==> r.symbol is None && r.kind is None && r.parent is None
            && r.signature is None,
        r.embedding_key == hash::xxh3_64(hashed),
        store::from_le(hashed.take(8)) == src.fingerprint,
        hashed.skip(8) == vstd::utf8::encode_utf8(
            metadata::ranking(
                src.rel,
                src.lang,
                ChunkMeta {
                    symbol: r.symbol,
                    kind: r.kind,
                    parent: r.parent,
                    signature: r.signature,
                    headings: r.headings,
                },
                part,
            ),
        ),
{
    let c = Chunk {
        text: r.text,
        start_line: r.start_line,
        end_line: r.end_line,
        start_byte: span.start,
        end_byte: (span.start + span.len) as usize,
    };
    chunk::chunks_are_parts_of_the_file(before, part, behind, span, c);
    metadata::embedding_keys_hash_fingerprint_and_text(src.fingerprint, embedded_text(src, r))
}

/// Whether a record is of a file, by the components of the two paths.
pub open spec fn is_of(rel: Seq<char>) -> spec_fn(Record) -> bool {
    |r: Record|
        path::rooted(r.file@) == path::rooted(rel) && path::dotted(r.file@) == path::dotted(rel)
            && path::names(r.file@) == path::names(rel)
}

proof fn lemma_kept_split(records: Seq<Record>, rel: Seq<char>, list: Seq<Record>)
    requires
        forall|i: int| 0 <= i < list.len() ==> (#[trigger] list[i]).file@ == rel,
    ensures
        (records.filter(store::not_of_file(rel)) + list).filter(is_of(rel)) == list,
        records.filter(store::not_of_file(rel)).filter(is_of(rel)) == Seq::<Record>::empty(),
{
    let kept = records.filter(store::not_of_file(rel));
    Seq::filter_distributes_over_add(kept, list, is_of(rel));
    assert forall|i: int| 0 <= i < kept.len() implies !is_of(rel)(#[trigger] kept[i]) by {
        records.lemma_filter_pred(store::not_of_file(rel), i);
        path::same_path_means_same_components(kept[i].file@, rel);
    }
    lemma_filter_empty(kept, is_of(rel));
    assert forall|i: int| 0 <= i < list.len() implies is_of(rel)(#[trigger] list[i]) by {}
    lemma_filter_whole(list, is_of(rel));
    assert(Seq::<Record>::empty() + list =~= list);
}

proof fn lemma_filter_empty(list: Seq<Record>, keep: spec_fn(Record) -> bool)
    requires
        forall|i: int| 0 <= i < list.len() ==> !keep(#[trigger] list[i]),
    ensures
        list.filter(keep) == Seq::<Record>::empty(),
    decreases list.len(),
{
    reveal(Seq::filter);
    if list.len() > 0 {
        lemma_filter_empty(list.drop_last(), keep);
        assert(!keep(list[list.len() - 1]));
    }
    assert(list.filter(keep) =~= Seq::<Record>::empty());
}

proof fn lemma_filter_whole(list: Seq<Record>, keep: spec_fn(Record) -> bool)
    requires
        forall|i: int| 0 <= i < list.len() ==> keep(#[trigger] list[i]),
    ensures
        list.filter(keep) == list,
    decreases list.len(),
{
    reveal(Seq::filter);
    if list.len() > 0 {
        lemma_filter_whole(list.drop_last(), keep);
        assert(keep(list[list.len() - 1]));
    }
    assert(list.filter(keep) =~= list);
}

/// A file that no language is known for changes nothing.
pub proof fn unknown_files_change_nothing<
    R: Fn(&String) -> Option<String>,
    E: Fn(&Vec<String>) -> Result<Vec<Vec<FloatBits>>, String>,
>(job: Job<R, E>, p: Seq<char>, content: Option<String>, a: Run, b: Run, r: Result<(), IngestError>)
    requires
        file_step(job, p, content, a, b, r),
        chunk::lang_of_path(p) is None,
    ensures
        r is Ok,
        b == a,
{
}

/// A file that cannot be read loses its records and its hash, and counts as failed, so
/// that it is looked at again.
pub proof fn unreadable_files_are_dropped<
    R: Fn(&String) -> Option<String>,
    E: Fn(&Vec<String>) -> Result<Vec<Vec<FloatBits>>, String>,
>(job: Job<R, E>, p: Seq<char>, a: Run, b: Run, r: Result<(), IngestError>)
    requires
        file_step(job, p, None, a, b, r),
        chunk::lang_of_path(p) is Some,
        a.stats.files_failed < usize::MAX,
    ensures
        r is Ok,
        b.index.records@.filter(is_of(path::relative_to(p, job.root@))) == Seq::<Record>::empty(),
        !b.index.file_hashes@.contains_key(path::canonical(path::relative_to(p, job.root@))),
        b.stats.files_failed == a.stats.files_failed + 1,
        b.stats.files_indexed == a.stats.files_indexed && b.stats.files_skipped
            == a.stats.files_skipped && b.stats.chunks == a.stats.chunks,
{
    lemma_kept_split(a.index.records@, path::relative_to(p, job.root@), Seq::<Record>::empty());
}

/// A file whose hash is the stored one is skipped unless all is to be indexed again, and
/// only then: any other file that is read leaves its own hash.
pub proof fn files_are_skipped_by_their_hash<
    R: Fn(&String) -> Option<String>,
    E: Fn(&Vec<String>) -> Result<Vec<Vec<FloatBits>>, String>,
>(job: Job<R, E>, p: Seq<char>, content: String, a: Run, b: Run, r: Result<(), IngestError>)
    requires
        file_step(job, p, Some(content), a, b, r),
        chunk::lang_of_path(p) is Some,
        a.stats.files_skipped < usize::MAX,
        a.stats.files_indexed < usize::MAX,
    ensures
        ({
            let key = path::canonical(path::relative_to(p, job.root@));
            let hash = hash::xxh3_64(vstd::utf8::encode_utf8(content@));
            let known = a.index.file_hashes@.contains_key(key) && a.index.file_hashes@[key] == hash;
            &&& known && !job.reindex ==> r is Ok && b.index == a.index && b.cache == a.cache
                && b.stats.files_skipped == a.stats.files_skipped + 1 && b.stats.files_indexed
                == a.stats.files_indexed && b.stats.chunks == a.stats.chunks
            &&& !known || job.reindex ==> b.stats.files_skipped == a.stats.files_skipped
            &&& r is Ok ==> b.index.file_hashes@.contains_key(key) && b.index.file_hashes@[key]
                == hash
            &&& r is Err ==> !b.index.file_hashes@.contains_key(key)
        }),
{
}

/// A file that was taken in stands in the index with one record for each of its chunks,
/// in their order, in the place of those that it had, and each chunk counts once as new
/// and once for the cache. One whose chunks cannot be made or embedded leaves none.
pub proof fn files_stand_in_the_index_as_they_are<
    R: Fn(&String) -> Option<String>,
    E: Fn(&Vec<String>) -> Result<Vec<Vec<FloatBits>>, String>,
>(job: Job<R, E>, p: Seq<char>, content: String, a: Run, b: Run, r: Result<(), IngestError>)
    requires
        file_step(job, p, Some(content), a, b, r),
        chunk::lang_of_path(p) is Some,
        job.reindex || !unchanged(
            a.index,
            path::relative_to(p, job.root@),
            hash::xxh3_64(vstd::utf8::encode_utf8(content@)),
        ),
        a.stats.files_indexed < usize::MAX,
        a.stats.cache_hits + a.stats.cache_misses == a.stats.chunks,
    ensures
        ({
            let rel = path::relative_to(p, job.root@);
            let lang = chunk::lang_of_path(p)->0;
            let own = b.index.records@.filter(is_of(rel));
            &&& r is Ok ==> chunk::spans_of(content@, lang, job.config.chunk) is Ok && records_under(
                Source {
                    rel,
                    lang,
                    content: content@,
                    fingerprint: a.index.ingest_fingerprint,
                },
                chunk::spans_of(content@, lang, job.config.chunk)->Ok_0,
                own,
            )
            &&& r is Ok ==> b.stats.chunks == a.stats.chunks + own.len()
            &&& r is Ok ==> b.stats.files_indexed == a.stats.files_indexed + if own.len() > 0 {
                1int
            } else {
                0int
            }
            &&& r is Ok ==> b.stats.cache_hits + b.stats.cache_misses == b.stats.chunks
            &&& r is Err ==> own.len() == 0 && b.stats == a.stats
        }),
{
    let rel = path::relative_to(p, job.root@);
    let lang = chunk::lang_of_path(p)->0;
    let src = Source { rel, lang, content: content@, fingerprint: a.index.ingest_fingerprint };
    let hash = hash::xxh3_64(vstd::utf8::encode_utf8(src.content));
    let old = a.index.records@;
    let none = Seq::<Record>::empty();
    lemma_kept_split(old, rel, none);
    assert(content_step(p, src, job.config.chunk, job.embed, a, b, r));
    match chunk::spans_of(src.content, src.lang, job.config.chunk) {
        Err(e) => {},
        Ok(spans) => {
            if spans.len() > 0 {
                let (list, res) = choose|list: Seq<Record>, res: Result<Resolved, ResolveError>|
                 #[trigger]
                    drafted(src, spans, job.embed, a.cache, list, res, b.cache) && resolved_step(
                        src,
                        hash,
                        list,
                        res,
                        a,
                        b,
                        r,
                    );
                assert forall|i: int| 0 <= i < list.len() implies (#[trigger] list[i]).file@
                    == rel by {
                    assert(record_under(src, spans[i], list[i]));
                }
                lemma_kept_split(old, rel, list);
                if r is Ok {
                    let texts = choose|texts: Seq<String>| #[trigger]
                        text::texts(texts) == embedded_texts(src, list) && embcache::resolved(
                            a.cache,
                            keys_of(list),
                            texts,
                            job.embed,
                            b.cache,
                            res,
                        );
                    lemma_counted(a.cache, keys_of(list), texts, job.embed, b.cache, res);
                    assert(keys_of(list).len() == list.len());
                }
            } else {
                assert(old.filter(store::not_of_file(rel)) + none =~= old.filter(
                    store::not_of_file(rel),
                ));
                assert(b.index.records@.filter(is_of(rel)) == none);
            }
        },
    }
}

proof fn lemma_counted<E: Fn(&Vec<String>) -> Result<Vec<Vec<FloatBits>>, String>>(
    before: EmbeddingCache,
    keys: Seq<u64>,
    texts: Seq<String>,
    embed: E,
    after: EmbeddingCache,
    res: Result<Resolved, ResolveError>,
)
    requires
        embcache::resolved(before, keys, texts, embed, after, res),
        res is Ok,
    ensures
        res->Ok_0.hits + res->Ok_0.misses == keys.len(),
{
}

/// Each chunk's vector is the one that was resolved for it.
pub proof fn records_carry_their_vectors(list: Seq<Record>, vectors: Seq<Vec<FloatBits>>, i: int)
    requires
        carry(list, vectors),
        0 <= i < list.len(),
    ensures
        list.len() == vectors.len(),
        list[i].vector@ == vectors[i]@,
{
}

/// A run starts without the files that were not found: of each stored path that leads to
/// none of the files found, the records and the hash are gone, and they are counted.
pub proof fn files_that_are_gone_are_pruned(
    index: Index,
    root: Seq<char>,
    files: Seq<Seq<char>>,
    cache: EmbeddingCache,
    start: Run,
    r: Record,
)
    requires
        is_start(index, root, files, cache, start),
    ensures
        start.stats.files_pruned == index.file_hashes.path_texts().filter(
            |s: String|
                !exists|i: int|
                    0 <= i < files.len() && path::same_path(
                        #[trigger] files[i],
                        path::joined(root, s@),
                    ),
        ).len(),
        start.stats.files_indexed == 0 && start.stats.files_skipped == 0
            && start.stats.files_failed == 0 && start.stats.chunks == 0,
        start.index.records@.contains(r) <==> index.records@.contains(r) && !exists|i: int|
            0 <= i < pruned_paths(index, root, files).len() && path::same_path(
                #[trigger] pruned_paths(index, root, files)[i],
                r.file@,
            ),
{
    let all = index.file_hashes.path_texts();
    let gone = |s: String|
        !exists|i: int|
            0 <= i < files.len() && path::same_path(#[trigger] files[i], path::joined(root, s@));
    assert forall|s: String| #[trigger] vanished(root, files)(s) == gone(s) by {}
    assert(vanished(root, files) =~= gone);
    assert(pruned_paths(index, root, files).len() == all.filter(vanished(root, files)).len());
    let keep = not_of_files(pruned_paths(index, root, files));
    let (old, left) = (index.records@, start.index.records@);
    if left.contains(r) {
        let i = choose|i: int| 0 <= i < left.len() && left[i] == r;
        old.lemma_filter_pred(keep, i);
        old.lemma_filter_contains_rev(keep, r);
    }
    if old.contains(r) && keep(r) {
        let i = choose|i: int| 0 <= i < old.len() && old[i] == r;
        old.lemma_filter_contains(keep, i);
    }
}

/// The folders of a project are seen from its root.
pub proof fn folders_are_seen_from_the_root(root: &str, sources: &Vec<String>, r: Vec<String>, i: int)
    requires
        call_ensures(source_dirs, (root, sources), r),
        0 <= i < sources@.len(),
    ensures
        r@.len() == sources@.len(),
        r@[i]@ == path::joined(root@, sources@[i]@),
{
    let all = text::texts(sources@).map_values(|s: Seq<char>| path::joined(root@, s));
    assert(text::texts(r@).len() == r@.len());
    assert(text::texts(r@)[i] == r@[i]@);
    assert(text::texts(sources@)[i] == sources@[i]@);
    assert(all[i] == path::joined(root@, text::texts(sources@)[i]));
}

/// A cache that changed and has a file is written to it, with all that it holds.
pub proof fn changed_caches_are_written<
    C: FnOnce(&String, usize, &HashMap<u64, Vec<FloatBits>>) -> Result<(), String>,
>(cache: EmbeddingCache, save_cache: C)
    requires
        cache_saved(cache, save_cache),
        cache.changed(),
        cache.file() is Some,
    ensures
        exists|m: &HashMap<u64, Vec<FloatBits>>, out: Result<(), String>| #[trigger]
            save_cache.ensures((&(cache.file()->0), cache.dimension(), m), out)
                && embcache::vectors_of(m@) == cache.vectors(),
{
    let out = choose|out: Result<(), String>| #[trigger] cache.written_by(save_cache, out);
    let (p, m) = choose|p: &String, m: &HashMap<u64, Vec<FloatBits>>| #[trigger]
        save_cache.ensures((p, cache.dimension(), m), out) && cache.file() == Some(*p)
            && embcache::vectors_of(m@) == cache.vectors();
    assert(*p == cache.file()->0);
    assert(save_cache.ensures((&(cache.file()->0), cache.dimension(), m), out));
}

/// An index is written only if it is whole, behind a header of twenty bytes, and one that
/// is not is refused.
pub proof fn only_whole_indexes_are_written<W: FnOnce(&Vec<u8>, &Index) -> Result<(), String>>(
    index: Index,
    write: W,
    r: Result<(), SaveError>,
)
    requires
        index_saved(index, write, r),
    ensures
        r is Ok ==> index.valid() && exists|h: &Vec<u8>| #[trigger]
            write.ensures((h, &index), Ok(())) && h@.len() == 20,
        !index.valid() ==> r matches Err(SaveError::Invalid { .. }),
{
    if r is Ok {
        let (h, n) = choose|h: &Vec<u8>, n: usize| #[trigger]
            index.is_scratch_len(n as nat) && h@ == store::header_bytes(
                store::INDEX_SCHEMA_VERSION,
                n as u64,
            ) && #[trigger] write.ensures((h, &index), Ok(()));
        store::headers_hold_their_numbers(store::INDEX_SCHEMA_VERSION, n as u64);
        assert(write.ensures((h, &index), Ok(())));
    }
}

} // verus!
