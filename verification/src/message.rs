//! What failures are called when they are shown to the user.

use crate::chunk::ChunkError;
use crate::config::ConfigFault;
use crate::embcache::ResolveError;
use crate::lexical::EmptyChannel;
use crate::search::SearchError;
use crate::store::HeaderFault;
use crate::store::Index;
use crate::store::IndexFault;
use crate::store::INDEX_SCHEMA_VERSION;
use crate::store::LoadError;
use crate::store::ScanError;
use crate::text;
use vstd::prelude::*;

verus! {

/// What to do about an index that cannot be read.
pub open spec fn rebuild_hint() -> Seq<char> {
    seq![' ', '\u{2014}', ' '] + "rebuild with `rag-bone index --reindex`"@
}

fn push_rebuild_hint(out: &mut String)
    ensures
        final(out)@ == old(out)@ + rebuild_hint(),
{
    out.push(' ');
    out.push('\u{2014}');
    out.push(' ');
    out.push_str("rebuild with `rag-bone index --reindex`");
    assert(out@ =~= old(out)@ + rebuild_hint());
}

impl ConfigFault {
    pub open spec fn text(self) -> Seq<char> {
        match self {
            ConfigFault::EmptyModel => "model must not be empty"@,
            ConfigFault::EmptyReranker => "reranker must not be empty when rerank is enabled"@,
            ConfigFault::ZeroTopK => "top_k must be greater than zero"@,
            ConfigFault::ZeroRetrieveN => "retrieve_n must be greater than zero"@,
            ConfigFault::ZeroRrfK => "rrf_k must be greater than zero"@,
            ConfigFault::MinScoreNotFinite => "min_score must be finite"@,
            ConfigFault::ZeroMaxChars => "chunk.max_chars must be greater than zero"@,
            ConfigFault::OverlapTooLarge => "chunk.overlap must be smaller than chunk.max_chars"@,
        }
    }

    pub fn message(&self) -> (r: String)
        ensures
            r@ == self.text(),
    {
        let s = match self {
            ConfigFault::EmptyModel => "model must not be empty",
            ConfigFault::EmptyReranker => "reranker must not be empty when rerank is enabled",
            ConfigFault::ZeroTopK => "top_k must be greater than zero",
            ConfigFault::ZeroRetrieveN => "retrieve_n must be greater than zero",
            ConfigFault::ZeroRrfK => "rrf_k must be greater than zero",
            ConfigFault::MinScoreNotFinite => "min_score must be finite",
            ConfigFault::ZeroMaxChars => "chunk.max_chars must be greater than zero",
            ConfigFault::OverlapTooLarge => "chunk.overlap must be smaller than chunk.max_chars",
        };
        s.to_string()
    }
}

impl ChunkError {
    pub open spec fn text(self) -> Seq<char> {
        match self {
            ChunkError::OverlapTooLarge => "chunk overlap must be smaller than max_chars"@,
            ChunkError::NoCodeSplitter => "building code splitter"@,
        }
    }

    pub fn message(&self) -> (r: String)
        ensures
            r@ == self.text(),
    {
        let s = match self {
            ChunkError::OverlapTooLarge => "chunk overlap must be smaller than max_chars",
            ChunkError::NoCodeSplitter => "building code splitter",
        };
        s.to_string()
    }
}

impl EmptyChannel {
    pub open spec fn text(self) -> Seq<char> {
        "lexical channel is empty (no indexable terms)"@ + seq![' ', '\u{2014}', ' ']
            + "rebuild the index with `rag-bone index --reindex`"@
    }

    pub fn message(&self) -> (r: String)
        ensures
            r@ == self.text(),
    {
        let mut out = "lexical channel is empty (no indexable terms)".to_string();
        let ghost head = out@;
        out.push(' ');
        out.push('\u{2014}');
        out.push(' ');
        assert(out@ =~= head + seq![' ', '\u{2014}', ' ']);
        out.push_str("rebuild the index with `rag-bone index --reindex`");
        out
    }
}

impl ResolveError {
    pub open spec fn text(self) -> Seq<char> {
        match self {
            ResolveError::Embed(e) => e@,
            ResolveError::Count { vectors, texts } => "embedder returned "@ + text::decimal(
                vectors as nat,
            ) + " vectors for "@ + text::decimal(texts as nat) + " texts"@,
        }
    }

    pub fn message(&self) -> (r: String)
        ensures
            r@ == self.text(),
    {
        match self {
            ResolveError::Embed(e) => e.clone(),
            ResolveError::Count { vectors, texts } => {
                let mut out = "embedder returned ".to_string();
                text::push_decimal(&mut out, *vectors as u64);
                out.push_str(" vectors for ");
                text::push_decimal(&mut out, *texts as u64);
                out.push_str(" texts");
                out
            },
        }
    }
}

impl ScanError {
    pub open spec fn text(self) -> Seq<char> {
        match self {
            ScanError::QueryDimension { query, index } => "query dimension "@ + text::decimal(
                query as nat,
            ) + " does not match index dimension "@ + text::decimal(index as nat),
            ScanError::ScoreCount { scores, records } => "scoring gave "@ + text::decimal(
                scores as nat,
            ) + " scores for "@ + text::decimal(records as nat) + " records"@,
        }
    }

    pub fn message(&self) -> (r: String)
        ensures
            r@ == self.text(),
    {
        match self {
            ScanError::QueryDimension { query, index } => {
                let mut out = "query dimension ".to_string();
                text::push_decimal(&mut out, *query as u64);
                out.push_str(" does not match index dimension ");
                text::push_decimal(&mut out, *index as u64);
                out
            },
            ScanError::ScoreCount { scores, records } => {
                let mut out = "scoring gave ".to_string();
                text::push_decimal(&mut out, *scores as u64);
                out.push_str(" scores for ");
                text::push_decimal(&mut out, *records as u64);
                out.push_str(" records");
                out
            },
        }
    }
}

impl SearchError {
    pub open spec fn text(self) -> Seq<char> {
        match self {
            SearchError::NoLexicalChannel =>
                "retrieval mode requires the lexical channel, which was not built"@ + seq![
                ' ',
                '\u{2014}',
                ' ',
            ] + "rebuild the index with `rag-bone index --reindex`"@,
            SearchError::NoEmbedder =>
                "retrieval mode requires the embedding model, but it was not loaded"@,
            SearchError::Embed(e) => e@,
            SearchError::Scan(e) => e.text(),
            SearchError::Rerank(e) => e@,
            SearchError::UnknownCandidate { position, candidates } =>
                "reranker returned candidate index "@ + text::decimal(position as nat)
                + ", but only "@ + text::decimal(candidates as nat) + " candidates exist"@,
        }
    }

    pub fn message(&self) -> (r: String)
        ensures
            r@ == self.text(),
    {
        match self {
            SearchError::NoLexicalChannel => {
                let mut out =
                    "retrieval mode requires the lexical channel, which was not built".to_string();
                let ghost head = out@;
                out.push(' ');
                out.push('\u{2014}');
                out.push(' ');
                assert(out@ =~= head + seq![' ', '\u{2014}', ' ']);
                out.push_str("rebuild the index with `rag-bone index --reindex`");
                out
            },
            SearchError::NoEmbedder =>
                "retrieval mode requires the embedding model, but it was not loaded".to_string(),
            SearchError::Embed(e) => e.clone(),
            SearchError::Scan(e) => e.message(),
            SearchError::Rerank(e) => e.clone(),
            SearchError::UnknownCandidate { position, candidates } => {
                let mut out = "reranker returned candidate index ".to_string();
                text::push_decimal(&mut out, *position as u64);
                out.push_str(", but only ");
                text::push_decimal(&mut out, *candidates as u64);
                out.push_str(" candidates exist");
                out
            },
        }
    }
}

/// The record that a fault is about.
pub open spec fn faulty_record(fault: IndexFault) -> Option<usize> {
    match fault {
        IndexFault::Schema { .. } => None,
        IndexFault::ZeroDimension => None,
        IndexFault::VectorLength { record } => Some(record),
        IndexFault::NonFinite { record } => Some(record),
        IndexFault::NoFileHash { record } => Some(record),
        IndexFault::DuplicateId { record } => Some(record),
    }
}

impl IndexFault {
    pub open spec fn text(self, index: Index) -> Seq<char> {
        let records = index.records@;
        match self {
            IndexFault::Schema { found } => "unsupported index schema "@ + text::decimal(
                found as nat,
            ) + "; expected "@ + text::decimal(INDEX_SCHEMA_VERSION as nat) + rebuild_hint(),
            IndexFault::ZeroDimension => "index dimension must be greater than zero"@,
            IndexFault::VectorLength { record } => "vector dimension "@ + text::decimal(
                records[record as int].vector@.len(),
            ) + " for "@ + records[record as int].file@ + " does not match index dimension "@
                + text::decimal(index.dim as nat),
            IndexFault::NonFinite { record } => "non-finite vector value in "@
                + records[record as int].file@,
            IndexFault::NoFileHash { record } => "record "@ + records[record as int].file@
                + " has no file hash"@,
            IndexFault::DuplicateId { record } => "duplicate chunk id "@
                + records[record as int].chunk_id@ + " (collision on "@
                + records[record as int].file@ + ")"@,
        }
    }

    pub fn message(&self, index: &Index) -> (r: String)
        requires
            faulty_record(*self) matches Some(i) ==> i < index.records@.len(),
        ensures
            r@ == self.text(*index),
    {
        match self {
            IndexFault::Schema { found } => {
                let mut out = "unsupported index schema ".to_string();
                text::push_decimal(&mut out, *found as u64);
                out.push_str("; expected ");
                text::push_decimal(&mut out, INDEX_SCHEMA_VERSION as u64);
                push_rebuild_hint(&mut out);
                out
            },
            IndexFault::ZeroDimension => "index dimension must be greater than zero".to_string(),
            IndexFault::VectorLength { record } => {
                let r = &index.records[*record];
                let mut out = "vector dimension ".to_string();
                text::push_decimal(&mut out, r.vector.len() as u64);
                out.push_str(" for ");
                out.push_str(r.file.as_str());
                out.push_str(" does not match index dimension ");
                text::push_decimal(&mut out, index.dim as u64);
                out
            },
            IndexFault::NonFinite { record } => {
                let mut out = "non-finite vector value in ".to_string();
                out.push_str(index.records[*record].file.as_str());
                out
            },
            IndexFault::NoFileHash { record } => {
                let mut out = "record ".to_string();
                out.push_str(index.records[*record].file.as_str());
                out.push_str(" has no file hash");
                out
            },
            IndexFault::DuplicateId { record } => {
                let r = &index.records[*record];
                let mut out = "duplicate chunk id ".to_string();
                out.push_str(r.chunk_id.as_str());
                out.push_str(" (collision on ");
                out.push_str(r.file.as_str());
                out.push_str(")");
                out
            },
        }
    }
}

impl HeaderFault {
    pub open spec fn text(self, path: Seq<char>) -> Seq<char> {
        match self {
            HeaderFault::Truncated => "reading header from "@ + path,
            HeaderFault::NotAnIndex => path + " is not a rag-bone index"@,
            HeaderFault::Schema { found } => "unsupported index schema "@ + text::decimal(
                found as nat,
            ) + " in "@ + path + "; expected "@ + text::decimal(INDEX_SCHEMA_VERSION as nat)
                + rebuild_hint(),
            HeaderFault::ScratchTooWide => "index scratch size does not fit this platform"@,
            HeaderFault::InvalidScratch => "invalid scratch size in "@ + path,
        }
    }

    pub fn message(&self, path: &str) -> (r: String)
        ensures
            r@ == self.text(path@),
    {
        match self {
            HeaderFault::Truncated => {
                let mut out = "reading header from ".to_string();
                out.push_str(path);
                out
            },
            HeaderFault::NotAnIndex => {
                let mut out = path.to_string();
                out.push_str(" is not a rag-bone index");
                out
            },
            HeaderFault::Schema { found } => {
                let mut out = "unsupported index schema ".to_string();
                text::push_decimal(&mut out, *found as u64);
                out.push_str(" in ");
                out.push_str(path);
                out.push_str("; expected ");
                text::push_decimal(&mut out, INDEX_SCHEMA_VERSION as u64);
                push_rebuild_hint(&mut out);
                out
            },
            HeaderFault::ScratchTooWide =>
                "index scratch size does not fit this platform".to_string(),
            HeaderFault::InvalidScratch => {
                let mut out = "invalid scratch size in ".to_string();
                out.push_str(path);
                out
            },
        }
    }
}

impl LoadError {
    pub open spec fn text(self, path: Seq<char>) -> Seq<char> {
        match self {
            LoadError::Header(fault) => fault.text(path),
            LoadError::Decode(e) => "decoding "@ + path + ": "@ + e@,
            LoadError::TrailingData => path + " has trailing data"@,
            LoadError::Invalid { message, .. } => "validating "@ + path + ": "@ + message@,
        }
    }

    pub fn message(&self, path: &str) -> (r: String)
        ensures
            r@ == self.text(path@),
    {
        match self {
            LoadError::Header(fault) => fault.message(path),
            LoadError::Decode(e) => {
                let mut out = "decoding ".to_string();
                out.push_str(path);
                out.push_str(": ");
                out.push_str(e.as_str());
                out
            },
            LoadError::TrailingData => {
                let mut out = path.to_string();
                out.push_str(" has trailing data");
                out
            },
            LoadError::Invalid { message, .. } => {
                let mut out = "validating ".to_string();
                out.push_str(path);
                out.push_str(": ");
                out.push_str(message.as_str());
                out
            },
        }
    }
}

// ---------------------------------------------------------------------------
// Laws
// ---------------------------------------------------------------------------

/// A fault of the settings is told by the name of the setting.
pub proof fn settings_are_named(fault: &ConfigFault, r: String)
    requires
        call_ensures(ConfigFault::message, (fault,), r),
    ensures
        r@ == match *fault {
            ConfigFault::EmptyModel => "model must not be empty"@,
            ConfigFault::EmptyReranker => "reranker must not be empty when rerank is enabled"@,
            ConfigFault::ZeroTopK => "top_k must be greater than zero"@,
            ConfigFault::ZeroRetrieveN => "retrieve_n must be greater than zero"@,
            ConfigFault::ZeroRrfK => "rrf_k must be greater than zero"@,
            ConfigFault::MinScoreNotFinite => "min_score must be finite"@,
            ConfigFault::ZeroMaxChars => "chunk.max_chars must be greater than zero"@,
            ConfigFault::OverlapTooLarge => "chunk.overlap must be smaller than chunk.max_chars"@,
        },
{
}

/// Two numbers that do not fit are told in their order: what there is, then what it was
/// held against.
pub proof fn numbers_are_told_in_order(
    scan: &ScanError,
    a: String,
    resolve: &ResolveError,
    b: String,
    search: &SearchError,
    c: String,
)
    requires
        call_ensures(ScanError::message, (scan,), a),
        call_ensures(ResolveError::message, (resolve,), b),
        call_ensures(SearchError::message, (search,), c),
    ensures
        *scan matches ScanError::QueryDimension { query, index } ==> a@ == "query dimension "@
            + text::decimal(query as nat) + (" does not match index dimension "@ + text::decimal(
            index as nat,
        )),
        *scan matches ScanError::ScoreCount { scores, records } ==> a@ == "scoring gave "@
            + text::decimal(scores as nat) + (" scores for "@ + text::decimal(records as nat)
            + " records"@),
        *resolve matches ResolveError::Count { vectors, texts } ==> b@ == "embedder returned "@
            + text::decimal(vectors as nat) + (" vectors for "@ + text::decimal(texts as nat)
            + " texts"@),
        *resolve matches ResolveError::Embed(e) ==> b@ == e@,
        *search matches SearchError::UnknownCandidate { position, candidates } ==> c@
            == "reranker returned candidate index "@ + text::decimal(position as nat)
            + (", but only "@ + text::decimal(candidates as nat) + " candidates exist"@),
        *search matches SearchError::Embed(e) ==> c@ == e@,
        *search matches SearchError::Rerank(e) ==> c@ == e@,
{
    match *scan {
        ScanError::QueryDimension { query, index } => {
            assert(a@ =~= "query dimension "@ + text::decimal(query as nat) + (
            " does not match index dimension "@ + text::decimal(index as nat)));
        },
        ScanError::ScoreCount { scores, records } => {
            assert(a@ =~= "scoring gave "@ + text::decimal(scores as nat) + (" scores for "@
                + text::decimal(records as nat) + " records"@));
        },
    }
    match *resolve {
        ResolveError::Count { vectors, texts } => {
            assert(b@ =~= "embedder returned "@ + text::decimal(vectors as nat) + (" vectors for "@
                + text::decimal(texts as nat) + " texts"@));
        },
        ResolveError::Embed(_) => {},
    }
    match *search {
        SearchError::UnknownCandidate { position, candidates } => {
            assert(c@ =~= "reranker returned candidate index "@ + text::decimal(position as nat) + (
            ", but only "@ + text::decimal(candidates as nat) + " candidates exist"@));
        },
        _ => {},
    }
}

/// A file that cannot be loaded is named, with what the decoder says or what is wrong.
pub proof fn files_are_named(
    fault: &HeaderFault,
    path: &str,
    a: String,
    error: &LoadError,
    b: String,
)
    requires
        call_ensures(HeaderFault::message, (fault, path), a),
        call_ensures(LoadError::message, (error, path), b),
    ensures
        *fault == HeaderFault::ScratchTooWide || text::holds(a@, path@),
        *fault matches HeaderFault::Schema { found } ==> text::holds(a@, text::decimal(found as nat)),
        *error is Header || text::holds(b@, path@),
        *error matches LoadError::Decode(e) ==> text::holds(b@, e@),
        *error matches LoadError::Invalid { message, .. } ==> text::holds(b@, message@),
{
    let none = Seq::<char>::empty();
    match *fault {
        HeaderFault::Truncated => {
            assert(a@ =~= "reading header from "@ + path@ + none);
        },
        HeaderFault::NotAnIndex => {
            assert(a@ =~= none + path@ + " is not a rag-bone index"@);
        },
        HeaderFault::Schema { found } => {
            let tail = "; expected "@ + text::decimal(INDEX_SCHEMA_VERSION as nat) + rebuild_hint();
            let head = "unsupported index schema "@;
            assert(a@ =~= (head + text::decimal(found as nat) + " in "@) + path@ + tail);
            assert(text::holds(a@, path@));
            assert(a@ =~= head + text::decimal(found as nat) + (" in "@ + path@ + tail));
            assert(text::holds(a@, text::decimal(found as nat)));
        },
        HeaderFault::ScratchTooWide => {},
        HeaderFault::InvalidScratch => {
            assert(a@ =~= "invalid scratch size in "@ + path@ + none);
        },
    }
    match *error {
        LoadError::Header(_) => {},
        LoadError::Decode(e) => {
            assert(b@ =~= "decoding "@ + path@ + (": "@ + e@));
            assert(text::holds(b@, path@));
            assert(b@ =~= ("decoding "@ + path@ + ": "@) + e@ + none);
            assert(text::holds(b@, e@));
        },
        LoadError::TrailingData => {
            assert(b@ =~= none + path@ + " has trailing data"@);
        },
        LoadError::Invalid { message, .. } => {
            assert(b@ =~= "validating "@ + path@ + (": "@ + message@));
            assert(text::holds(b@, path@));
            assert(b@ =~= ("validating "@ + path@ + ": "@) + message@ + none);
            assert(text::holds(b@, message@));
        },
    }
}

} // verus!
