//! Embedding models: the ones that can be chosen, the prefixes they expect, and the
//! fingerprint of the settings that a stored vector depends on.

use crate::config::ChunkConfig;
use crate::hash;
use crate::path;
use crate::text;
use vstd::prelude::*;

verus! {

/// Token limit of a chunk. It bounds the padding, and so the memory.
pub const MAX_TOKENS: usize = 512;

/// Documents embedded in one pass.
pub const EMBED_BATCH: usize = 16;

/// Version of the ingest pipeline: to be raised whenever stored embeddings can change
/// though neither model nor chunk settings do.
pub const INGEST_PIPELINE_VERSION: usize = 2;

/// The models that can be chosen. Those that end in `Q` are quantized.
#[derive(Debug, Clone, Copy, PartialEq, Eq, Structural)]
pub enum ModelKind {
    NomicEmbedTextV15,
    JinaEmbeddingsV2BaseCode,
    EmbeddingGemma300M,
    GteBaseEnV15,
    BgeBaseEnV15,
    BgeSmallEnV15,
    NomicEmbedTextV15Q,
    EmbeddingGemma300MQ,
    EmbeddingGemma300MQ4,
    GteBaseEnV15Q,
    BgeBaseEnV15Q,
    BgeSmallEnV15Q,
}

/// An embedding model, with the prefixes that it was trained with for queries and for
/// documents.
#[derive(Debug, Clone, Copy)]
pub struct ModelSpec {
    pub id: &'static str,
    pub model: ModelKind,
    pub query_prefix: &'static str,
    pub doc_prefix: &'static str,
}

/// The content of a model entry.
pub struct ModelFacts {
    pub id: Seq<char>,
    pub model: ModelKind,
    pub query_prefix: Seq<char>,
    pub doc_prefix: Seq<char>,
}

impl View for ModelSpec {
    type V = ModelFacts;

    open spec fn view(&self) -> ModelFacts {
        facts(self.id@, self.model, self.query_prefix@, self.doc_prefix@)
    }
}

pub open spec fn facts(
    id: Seq<char>,
    model: ModelKind,
    query_prefix: Seq<char>,
    doc_prefix: Seq<char>,
) -> ModelFacts {
    ModelFacts { id, model, query_prefix, doc_prefix }
}

/// The models that can be chosen.
pub open spec fn model_table() -> Seq<ModelFacts> {
    seq![
        facts("nomic-embed-text-v1.5"@, ModelKind::NomicEmbedTextV15, "search_query: "@, "search_document: "@),
        facts("jina-embeddings-v2-base-code"@, ModelKind::JinaEmbeddingsV2BaseCode, ""@, ""@),
        facts("embeddinggemma-300m"@, ModelKind::EmbeddingGemma300M, "task: search result | query: "@, "title: none | text: "@),
        facts("gte-base-en-v1.5"@, ModelKind::GteBaseEnV15, ""@, ""@),
        facts("bge-base-en-v1.5"@, ModelKind::BgeBaseEnV15, "Represent this sentence for searching relevant passages: "@, ""@),
        facts("bge-small-en-v1.5"@, ModelKind::BgeSmallEnV15, "Represent this sentence for searching relevant passages: "@, ""@),
        facts("nomic-embed-text-v1.5-q"@, ModelKind::NomicEmbedTextV15Q, "search_query: "@, "search_document: "@),
        facts("embeddinggemma-300m-q"@, ModelKind::EmbeddingGemma300MQ, "task: search result | query: "@, "title: none | text: "@),
        facts("embeddinggemma-300m-q4"@, ModelKind::EmbeddingGemma300MQ4, "task: search result | query: "@, "title: none | text: "@),
        facts("gte-base-en-v1.5-q"@, ModelKind::GteBaseEnV15Q, ""@, ""@),
        facts("bge-base-en-v1.5-q"@, ModelKind::BgeBaseEnV15Q, "Represent this sentence for searching relevant passages: "@, ""@),
        facts("bge-small-en-v1.5-q"@, ModelKind::BgeSmallEnV15Q, "Represent this sentence for searching relevant passages: "@, ""@),
    ]
}

pub open spec fn spec_views(list: Seq<ModelSpec>) -> Seq<ModelFacts> {
    list.map_values(|m: ModelSpec| m@)
}

/// The models that can be chosen.
pub fn registry() -> (r: Vec<ModelSpec>)
    ensures
        spec_views(r@) == model_table(),
{
    let mut out: Vec<ModelSpec> = Vec::new();
    out.push(
        ModelSpec {
            id: "nomic-embed-text-v1.5",
            model: ModelKind::NomicEmbedTextV15,
            query_prefix: "search_query: ",
            doc_prefix: "search_document: ",
        },
    );
    out.push(
        ModelSpec {
            id: "jina-embeddings-v2-base-code",
            model: ModelKind::JinaEmbeddingsV2BaseCode,
            query_prefix: "",
            doc_prefix: "",
        },
    );
    out.push(
        ModelSpec {
            id: "embeddinggemma-300m",
            model: ModelKind::EmbeddingGemma300M,
            query_prefix: "task: search result | query: ",
            doc_prefix: "title: none | text: ",
        },
    );
    out.push(
        ModelSpec {
            id: "gte-base-en-v1.5",
            model: ModelKind::GteBaseEnV15,
            query_prefix: "",
            doc_prefix: "",
        },
    );
    out.push(
        ModelSpec {
            id: "bge-base-en-v1.5",
            model: ModelKind::BgeBaseEnV15,
            query_prefix: "Represent this sentence for searching relevant passages: ",
            doc_prefix: "",
        },
    );
    out.push(
        ModelSpec {
            id: "bge-small-en-v1.5",
            model: ModelKind::BgeSmallEnV15,
            query_prefix: "Represent this sentence for searching relevant passages: ",
            doc_prefix: "",
        },
    );
    out.push(
        ModelSpec {
            id: "nomic-embed-text-v1.5-q",
            model: ModelKind::NomicEmbedTextV15Q,
            query_prefix: "search_query: ",
            doc_prefix: "search_document: ",
        },
    );
    out.push(
        ModelSpec {
            id: "embeddinggemma-300m-q",
            model: ModelKind::EmbeddingGemma300MQ,
            query_prefix: "task: search result | query: ",
            doc_prefix: "title: none | text: ",
        },
    );
    out.push(
        ModelSpec {
            id: "embeddinggemma-300m-q4",
            model: ModelKind::EmbeddingGemma300MQ4,
            query_prefix: "task: search result | query: ",
            doc_prefix: "title: none | text: ",
        },
    );
    out.push(
        ModelSpec {
            id: "gte-base-en-v1.5-q",
            model: ModelKind::GteBaseEnV15Q,
            query_prefix: "",
            doc_prefix: "",
        },
    );
    out.push(
        ModelSpec {
            id: "bge-base-en-v1.5-q",
            model: ModelKind::BgeBaseEnV15Q,
            query_prefix: "Represent this sentence for searching relevant passages: ",
            doc_prefix: "",
        },
    );
    out.push(
        ModelSpec {
            id: "bge-small-en-v1.5-q",
            model: ModelKind::BgeSmallEnV15Q,
            query_prefix: "Represent this sentence for searching relevant passages: ",
            doc_prefix: "",
        },
    );
    assert(spec_views(out@) =~= model_table());
    out
}

/// A model id that is not in the registry.
#[derive(Debug, Clone)]
pub struct UnknownModel {
    pub id: String,
}

/// Whether `m` is the first entry with this id.
pub open spec fn first_with_id(table: Seq<ModelFacts>, id: Seq<char>, m: ModelFacts) -> bool {
    exists|i: int|
        0 <= i < table.len() && #[trigger] table[i] == m && m.id == id && forall|j: int|
            0 <= j < i ==> (#[trigger] table[j]).id != id
}

/// The model with this id.
pub fn spec(id: &str) -> (r: Result<ModelSpec, UnknownModel>)
    ensures
        match r {
            Ok(m) => first_with_id(model_table(), id@, m@),
            Err(e) => e.id@ == id@ && forall|j: int|
                0 <= j < model_table().len() ==> (#[trigger] model_table()[j]).id != id@,
        },
{
    let list = registry();
    let mut i: usize = 0;
    while i < list.len()
        invariant
            spec_views(list@) == model_table(),
            i <= list.len(),
            forall|j: int| 0 <= j < i ==> (#[trigger] model_table()[j]).id != id@,
        decreases list.len() - i,
    {
        assert(spec_views(list@)[i as int] == list@[i as int]@);
        if text::same_text(list[i].id, id) {
            assert(model_table()[i as int] == list@[i as int]@);
            return Ok(list[i]);
        }
        i += 1;
    }
    assert(model_table().len() == list@.len());
    Err(UnknownModel { id: id.to_string() })
}

impl UnknownModel {
    /// The ids that can be chosen, as one line.
    pub open spec fn available() -> Seq<char> {
        text::join(model_table().map_values(|m: ModelFacts| m.id), ", "@)
    }

    /// What to tell the user.
    pub fn message(&self) -> (r: String)
        ensures
            r@ == "unknown model '"@ + self.id@ + "'; available: "@ + Self::available(),
    {
        let list = registry();
        let mut ids: Vec<String> = Vec::new();
        let ghost all = model_table().map_values(|m: ModelFacts| m.id);
        let mut i: usize = 0;
        assert(model_table().len() == list@.len());
        while i < list.len()
            invariant
                spec_views(list@) == model_table(),
                all == model_table().map_values(|m: ModelFacts| m.id),
                i <= list.len(),
                ids.len() == i,
                forall|j: int| 0 <= j < i ==> (#[trigger] ids@[j])@ == all[j],
            decreases list.len() - i,
        {
            assert(spec_views(list@)[i as int] == list@[i as int]@);
            ids.push(list[i].id.to_string());
            i += 1;
        }
        assert(text::texts(ids@) =~= all);
        let mut out = "unknown model '".to_string();
        out.push_str(self.id.as_str());
        out.push_str("'; available: ");
        let line = text::joined(&ids, ", ");
        out.push_str(line.as_str());
        out
    }
}

/// The text that a document is embedded as.
pub fn document_text(spec: &ModelSpec, t: &str) -> (r: String)
    ensures
        r@ == spec.doc_prefix@ + t@,
{
    let mut out = spec.doc_prefix.to_string();
    out.push_str(t);
    out
}

/// The texts that documents are embedded as.
pub fn document_texts(spec: &ModelSpec, list: &Vec<String>) -> (r: Vec<String>)
    ensures
        text::texts(r@) == text::texts(list@).map_values(|t: Seq<char>| spec.doc_prefix@ + t),
{
    let ghost all = text::texts(list@).map_values(|t: Seq<char>| spec.doc_prefix@ + t);
    let mut out: Vec<String> = Vec::new();
    let mut i: usize = 0;
    while i < list.len()
        invariant
            all == text::texts(list@).map_values(|t: Seq<char>| spec.doc_prefix@ + t),
            i <= list.len(),
            out.len() == i,
            forall|j: int| 0 <= j < i ==> (#[trigger] out@[j])@ == all[j],
        decreases list.len() - i,
    {
        out.push(document_text(spec, list[i].as_str()));
        i += 1;
    }
    assert(text::texts(out@) =~= all);
    out
}

/// The text that a query is embedded as.
pub fn query_text(spec: &ModelSpec, query: &str) -> (r: String)
    ensures
        r@ == spec.query_prefix@ + query@,
{
    let mut out = spec.query_prefix.to_string();
    out.push_str(query);
    out
}

/// One setting and those after it: a key, its value, and a NUL.
pub open spec fn setting(key: Seq<char>, value: Seq<char>, rest: Seq<char>) -> Seq<char> {
    key + text::nul_field(value, rest)
}

/// All settings that a stored chunk or vector depends on, as one text.
pub open spec fn ingest_descriptor(
    id: Seq<char>,
    doc_prefix: Seq<char>,
    dim: nat,
    max_chars: nat,
    overlap: nat,
) -> Seq<char> {
    let size = setting("max_chars="@, text::decimal(max_chars), "overlap="@ + text::decimal(overlap));
    let tokens = setting("max_tokens="@, text::decimal(MAX_TOKENS as nat), size);
    let shape = setting("dim="@, text::decimal(dim), tokens);
    let model = setting("model="@, id, setting("doc_prefix="@, doc_prefix, shape));
    setting("v="@, text::decimal(INGEST_PIPELINE_VERSION as nat), model)
}

fn push_setting(out: &mut String, key: &str, value: &str, Ghost(rest): Ghost<Seq<char>>)
    ensures
        final(out)@ + rest == old(out)@ + setting(key@, value@, rest),
{
    out.push_str(key);
    text::push_nul_field(out, value, Ghost(rest));
    assert(out@ + rest =~= old(out)@ + setting(key@, value@, rest));
}

/// Fingerprint of every setting that a stored chunk or vector depends on.
pub fn ingest_fingerprint(spec: &ModelSpec, dim: usize, chunk: &ChunkConfig) -> (r: u64)
    ensures
        r == hash::xxh3_64(
            vstd::utf8::encode_utf8(
                ingest_descriptor(
                    spec.id@,
                    spec.doc_prefix@,
                    dim as nat,
                    chunk.max_chars as nat,
                    chunk.overlap as nat,
                ),
            ),
        ),
{
    let version = text::decimal_text(INGEST_PIPELINE_VERSION);
    let dim_text = text::decimal_text(dim);
    let tokens_text = text::decimal_text(MAX_TOKENS);
    let max_text = text::decimal_text(chunk.max_chars);
    let overlap_text = text::decimal_text(chunk.overlap);
    let ghost tail = "overlap="@ + overlap_text@;
    let ghost size = setting("max_chars="@, max_text@, tail);
    let ghost tokens = setting("max_tokens="@, tokens_text@, size);
    let ghost shape = setting("dim="@, dim_text@, tokens);
    let ghost prefix = setting("doc_prefix="@, spec.doc_prefix@, shape);
    let ghost model = setting("model="@, spec.id@, prefix);
    let ghost whole = setting("v="@, version@, model);
    let mut d = String::new();
    assert(d@ + whole =~= whole);
    push_setting(&mut d, "v=", version.as_str(), Ghost(model));
    push_setting(&mut d, "model=", spec.id, Ghost(prefix));
    push_setting(&mut d, "doc_prefix=", spec.doc_prefix, Ghost(shape));
    push_setting(&mut d, "dim=", dim_text.as_str(), Ghost(tokens));
    push_setting(&mut d, "max_tokens=", tokens_text.as_str(), Ghost(size));
    push_setting(&mut d, "max_chars=", max_text.as_str(), Ghost(tail));
    let ghost so_far = d@;
    d.push_str("overlap=");
    d.push_str(overlap_text.as_str());
    assert(d@ =~= so_far + tail);
    assert(d@ == whole);
    hash::hash_64(d.as_str().as_bytes())
}

proof fn lemma_setting(
    key: Seq<char>,
    value_a: Seq<char>,
    rest_a: Seq<char>,
    value_b: Seq<char>,
    rest_b: Seq<char>,
)
    requires
        !value_a.contains('\0'),
        !value_b.contains('\0'),
        setting(key, value_a, rest_a) == setting(key, value_b, rest_b),
    ensures
        value_a == value_b,
        rest_a == rest_b,
{
    let a = text::nul_field(value_a, rest_a);
    let b = text::nul_field(value_b, rest_b);
    assert(a =~= setting(key, value_a, rest_a).skip(key.len() as int));
    assert(b =~= setting(key, value_b, rest_b).skip(key.len() as int));
    path::lemma_terminated(value_a, value_b, '\0', rest_a, rest_b);
}

proof fn lemma_decimal_plain(n: nat)
    ensures
        !text::decimal(n).contains('\0'),
{
    text::lemma_decimal_digits(n);
}

/// The descriptor tells all settings: whenever one of them changes, what is hashed
/// for the fingerprint changes. Model ids and prefixes hold no NUL.
pub proof fn ingest_descriptor_is_unambiguous(
    id_a: Seq<char>,
    prefix_a: Seq<char>,
    dim_a: nat,
    max_a: nat,
    overlap_a: nat,
    id_b: Seq<char>,
    prefix_b: Seq<char>,
    dim_b: nat,
    max_b: nat,
    overlap_b: nat,
)
    requires
        !id_a.contains('\0') && !prefix_a.contains('\0'),
        !id_b.contains('\0') && !prefix_b.contains('\0'),
        ingest_descriptor(id_a, prefix_a, dim_a, max_a, overlap_a) == ingest_descriptor(
            id_b,
            prefix_b,
            dim_b,
            max_b,
            overlap_b,
        ),
    ensures
        id_a == id_b,
        prefix_a == prefix_b,
        dim_a == dim_b,
        max_a == max_b,
        overlap_a == overlap_b,
{
    let end_a = "overlap="@ + text::decimal(overlap_a);
    let end_b = "overlap="@ + text::decimal(overlap_b);
    let size_a = setting("max_chars="@, text::decimal(max_a), end_a);
    let size_b = setting("max_chars="@, text::decimal(max_b), end_b);
    let limit = text::decimal(MAX_TOKENS as nat);
    let tokens_a = setting("max_tokens="@, limit, size_a);
    let tokens_b = setting("max_tokens="@, limit, size_b);
    let shape_a = setting("dim="@, text::decimal(dim_a), tokens_a);
    let shape_b = setting("dim="@, text::decimal(dim_b), tokens_b);
    let doc_a = setting("doc_prefix="@, prefix_a, shape_a);
    let doc_b = setting("doc_prefix="@, prefix_b, shape_b);
    let version = text::decimal(INGEST_PIPELINE_VERSION as nat);
    lemma_decimal_plain(INGEST_PIPELINE_VERSION as nat);
    lemma_decimal_plain(MAX_TOKENS as nat);
    lemma_decimal_plain(dim_a);
    lemma_decimal_plain(dim_b);
    lemma_decimal_plain(max_a);
    lemma_decimal_plain(max_b);
    lemma_setting(
        "v="@,
        version,
        setting("model="@, id_a, doc_a),
        version,
        setting("model="@, id_b, doc_b),
    );
    lemma_setting("model="@, id_a, doc_a, id_b, doc_b);
    lemma_setting("doc_prefix="@, prefix_a, shape_a, prefix_b, shape_b);
    lemma_setting("dim="@, text::decimal(dim_a), tokens_a, text::decimal(dim_b), tokens_b);
    lemma_setting("max_tokens="@, limit, size_a, limit, size_b);
    lemma_setting("max_chars="@, text::decimal(max_a), end_a, text::decimal(max_b), end_b);
    assert(text::decimal(overlap_a) =~= end_a.skip("overlap="@.len() as int));
    assert(text::decimal(overlap_b) =~= end_b.skip("overlap="@.len() as int));
    text::lemma_decimal_injective(dim_a, dim_b);
    text::lemma_decimal_injective(max_a, max_b);
    text::lemma_decimal_injective(overlap_a, overlap_b);
}

/// The models of each family share their prefixes.
pub open spec fn prefixes_of(id: Seq<char>) -> Option<(Seq<char>, Seq<char>)> {
    if id == "embeddinggemma-300m"@ || id == "embeddinggemma-300m-q"@ || id == "embeddinggemma-300m-q4"@ {
        Some(("task: search result | query: "@, "title: none | text: "@))
    } else if id == "nomic-embed-text-v1.5"@ || id == "nomic-embed-text-v1.5-q"@ {
        Some(("search_query: "@, "search_document: "@))
    } else if id == "bge-base-en-v1.5"@ || id == "bge-small-en-v1.5"@ || id == "bge-base-en-v1.5-q"@ || id == "bge-small-en-v1.5-q"@ {
        Some(("Represent this sentence for searching relevant passages: "@, ""@))
    } else if id == "jina-embeddings-v2-base-code"@ || id == "gte-base-en-v1.5"@ || id == "gte-base-en-v1.5-q"@ {
        Some((""@, ""@))
    } else {
        None
    }
}

/// A model is chosen by its id, and reads queries and documents with the prefixes of its
/// family. Any other id is an error that names it.
pub proof fn models_go_by_their_ids(id: &str, r: Result<ModelSpec, UnknownModel>)
    requires
        call_ensures(spec, (id,), r),
    ensures
        r is Ok <==> prefixes_of(id@) is Some,
        r is Ok ==> r->Ok_0.id@ == id@,
        r is Ok ==> (r->Ok_0.query_prefix@, r->Ok_0.doc_prefix@) == prefixes_of(id@)->0,
        r is Err ==> r->Err_0.id@ == id@,
        id@ == "nomic-embed-text-v1.5"@ ==> r is Ok && r->Ok_0.model == ModelKind::NomicEmbedTextV15,
        id@ == "jina-embeddings-v2-base-code"@ ==> r is Ok && r->Ok_0.model == ModelKind::JinaEmbeddingsV2BaseCode,
        id@ == "embeddinggemma-300m"@ ==> r is Ok && r->Ok_0.model == ModelKind::EmbeddingGemma300M,
        id@ == "gte-base-en-v1.5"@ ==> r is Ok && r->Ok_0.model == ModelKind::GteBaseEnV15,
        id@ == "bge-base-en-v1.5"@ ==> r is Ok && r->Ok_0.model == ModelKind::BgeBaseEnV15,
        id@ == "bge-small-en-v1.5"@ ==> r is Ok && r->Ok_0.model == ModelKind::BgeSmallEnV15,
        id@ == "nomic-embed-text-v1.5-q"@ ==> r is Ok && r->Ok_0.model == ModelKind::NomicEmbedTextV15Q,
        id@ == "embeddinggemma-300m-q"@ ==> r is Ok && r->Ok_0.model == ModelKind::EmbeddingGemma300MQ,
        id@ == "embeddinggemma-300m-q4"@ ==> r is Ok && r->Ok_0.model == ModelKind::EmbeddingGemma300MQ4,
        id@ == "gte-base-en-v1.5-q"@ ==> r is Ok && r->Ok_0.model == ModelKind::GteBaseEnV15Q,
        id@ == "bge-base-en-v1.5-q"@ ==> r is Ok && r->Ok_0.model == ModelKind::BgeBaseEnV15Q,
        id@ == "bge-small-en-v1.5-q"@ ==> r is Ok && r->Ok_0.model == ModelKind::BgeSmallEnV15Q,
{
    reveal_strlit("nomic-embed-text-v1.5");
    reveal_strlit("jina-embeddings-v2-base-code");
    reveal_strlit("embeddinggemma-300m");
    reveal_strlit("gte-base-en-v1.5");
    reveal_strlit("bge-base-en-v1.5");
    reveal_strlit("bge-small-en-v1.5");
    reveal_strlit("nomic-embed-text-v1.5-q");
    reveal_strlit("embeddinggemma-300m-q");
    reveal_strlit("embeddinggemma-300m-q4");
    reveal_strlit("gte-base-en-v1.5-q");
    reveal_strlit("bge-base-en-v1.5-q");
    reveal_strlit("bge-small-en-v1.5-q");
    assert("nomic-embed-text-v1.5"@.len() == 21);
    assert("jina-embeddings-v2-base-code"@.len() == 28);
    assert("embeddinggemma-300m"@.len() == 19);
    assert("gte-base-en-v1.5"@.len() == 16);
    assert("bge-base-en-v1.5"@.len() == 16);
    assert("bge-small-en-v1.5"@.len() == 17);
    assert("nomic-embed-text-v1.5-q"@.len() == 23);
    assert("embeddinggemma-300m-q"@.len() == 21);
    assert("embeddinggemma-300m-q4"@.len() == 22);
    assert("gte-base-en-v1.5-q"@.len() == 18);
    assert("bge-base-en-v1.5-q"@.len() == 18);
    assert("bge-small-en-v1.5-q"@.len() == 19);
    assert("nomic-embed-text-v1.5"@[0] == 'n');
    assert("embeddinggemma-300m-q"@[0] == 'e');
    assert("embeddinggemma-300m"@[0] == 'e');
    assert("bge-small-en-v1.5-q"@[0] == 'b');
    assert("gte-base-en-v1.5"@[0] == 'g');
    assert("bge-base-en-v1.5"@[0] == 'b');
    assert("gte-base-en-v1.5-q"@[0] == 'g');
    assert("bge-base-en-v1.5-q"@[0] == 'b');
    let table = model_table();
    assert(table[0].id == "nomic-embed-text-v1.5"@);
    assert(table[1].id == "jina-embeddings-v2-base-code"@);
    assert(table[2].id == "embeddinggemma-300m"@);
    assert(table[3].id == "gte-base-en-v1.5"@);
    assert(table[4].id == "bge-base-en-v1.5"@);
    assert(table[5].id == "bge-small-en-v1.5"@);
    assert(table[6].id == "nomic-embed-text-v1.5-q"@);
    assert(table[7].id == "embeddinggemma-300m-q"@);
    assert(table[8].id == "embeddinggemma-300m-q4"@);
    assert(table[9].id == "gte-base-en-v1.5-q"@);
    assert(table[10].id == "bge-base-en-v1.5-q"@);
    assert(table[11].id == "bge-small-en-v1.5-q"@);
    match r {
        Ok(m) => {
            let i = choose|i: int|
                0 <= i < table.len() && #[trigger] table[i] == m@ && m@.id == id@ && forall|j: int|
                    0 <= j < i ==> (#[trigger] table[j]).id != id@;
            assert(table[i] == m@);
        },
        Err(e) => {},
    }
}

/// A query is embedded with the prefix for queries before it, and a document with the one
/// for documents.
pub proof fn prefixes_come_first(
    m: &ModelSpec,
    t: &str,
    query: String,
    doc: String,
    list: &Vec<String>,
    docs: Vec<String>,
    i: int,
)
    requires
        call_ensures(query_text, (m, t), query),
        call_ensures(document_text, (m, t), doc),
        call_ensures(document_texts, (m, list), docs),
        0 <= i < list@.len(),
    ensures
        query@ == m.query_prefix@ + t@,
        doc@ == m.doc_prefix@ + t@,
        docs@.len() == list@.len(),
        docs@[i]@ == m.doc_prefix@ + list@[i]@,
{
    let all = text::texts(list@).map_values(|t: Seq<char>| m.doc_prefix@ + t);
    assert(text::texts(docs@).len() == docs@.len());
    assert(text::texts(docs@)[i] == docs@[i]@);
    assert(text::texts(list@)[i] == list@[i]@);
    assert(all[i] == m.doc_prefix@ + text::texts(list@)[i]);
}

/// What is hashed for a fingerprint starts with the version of the pipeline and holds the
/// limit on tokens, so that a change of either forces a rebuild too.
pub proof fn fingerprints_cover_the_pipeline(
    m: &ModelSpec,
    dim: usize,
    chunk: &ChunkConfig,
    r: u64,
) -> (hashed: Seq<char>)
    requires
        call_ensures(ingest_fingerprint, (m, dim, chunk), r),
    ensures
        r == hash::xxh3_64(vstd::utf8::encode_utf8(hashed)),
        ("v="@ + text::decimal(2) + seq!['\0']).is_prefix_of(hashed),
        text::holds(hashed, "max_tokens="@ + text::decimal(512) + seq!['\0']),
        text::holds(hashed, "model="@ + m.id@ + seq!['\0']),
        text::holds(hashed, "doc_prefix="@ + m.doc_prefix@ + seq!['\0']),
        text::holds(hashed, "dim="@ + text::decimal(dim as nat) + seq!['\0']),
        text::holds(hashed, "max_chars="@ + text::decimal(chunk.max_chars as nat) + seq!['\0']),
        ("overlap="@ + text::decimal(chunk.overlap as nat)).len() <= hashed.len(),
        hashed.skip(
            hashed.len() - ("overlap="@ + text::decimal(chunk.overlap as nat)).len(),
        ) == "overlap="@ + text::decimal(chunk.overlap as nat),
{
    let nul = seq!['\0'];
    let end = "overlap="@ + text::decimal(chunk.overlap as nat);
    let a = "max_chars="@ + text::decimal(chunk.max_chars as nat) + nul;
    let b = "max_tokens="@ + text::decimal(512) + nul;
    let c = "dim="@ + text::decimal(dim as nat) + nul;
    let d = "doc_prefix="@ + m.doc_prefix@ + nul;
    let e = "model="@ + m.id@ + nul;
    let f = "v="@ + text::decimal(2) + nul;
    let none = Seq::<char>::empty();
    let hashed = ingest_descriptor(
        m.id@,
        m.doc_prefix@,
        dim as nat,
        chunk.max_chars as nat,
        chunk.overlap as nat,
    );
    assert(hashed =~= f + e + d + c + b + a + end);
    assert(f.is_prefix_of(hashed));
    assert(hashed =~= f + e + (d + c + b + a + end));
    assert(text::holds(hashed, e));
    assert(hashed =~= (f + e) + d + (c + b + a + end));
    assert(text::holds(hashed, d));
    assert(hashed =~= (f + e + d) + c + (b + a + end));
    assert(text::holds(hashed, c));
    assert(hashed =~= (f + e + d + c) + b + (a + end));
    assert(text::holds(hashed, b));
    assert(hashed =~= (f + e + d + c + b) + a + end);
    assert(text::holds(hashed, a));
    assert(hashed.skip(hashed.len() - end.len()) =~= end);
    hashed
}

} // verus!
