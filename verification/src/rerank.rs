//! Rerankers: which model an id stands for, and which of its files to use.

use crate::accel;
use crate::accel::Provider;
use crate::path;
use crate::text;
use vstd::prelude::*;

verus! {

/// Token limit of a query and a document together.
pub const MAX_TOKENS: usize = 512;

/// Documents scored in one pass.
pub const RERANK_BATCH: usize = 16;

/// The rerankers that the model runtime knows by itself.
#[derive(Debug, Clone, Copy, PartialEq, Eq, Structural)]
pub enum BuiltinReranker {
    BgeRerankerBase,
    JinaRerankerV1TurboEn,
    BgeRerankerV2M3,
    JinaRerankerV2BaseMultilingual,
}

/// The built-in reranker with this id.
pub open spec fn builtin_of(id: Seq<char>) -> Option<BuiltinReranker> {
    if id == "bge-reranker-base"@ {
        Some(BuiltinReranker::BgeRerankerBase)
    } else if id == "jina-reranker-v1-turbo-en"@ {
        Some(BuiltinReranker::JinaRerankerV1TurboEn)
    } else if id == "bge-reranker-v2-m3"@ {
        Some(BuiltinReranker::BgeRerankerV2M3)
    } else if id == "jina-reranker-v2-base-multilingual"@ {
        Some(BuiltinReranker::JinaRerankerV2BaseMultilingual)
    } else {
        None
    }
}

/// The built-in reranker with this id.
pub fn find_builtin(id: &str) -> (r: Option<BuiltinReranker>)
    ensures
        r == builtin_of(id@),
{
    if text::same_text(id, "bge-reranker-base") {
        Some(BuiltinReranker::BgeRerankerBase)
    } else if text::same_text(id, "jina-reranker-v1-turbo-en") {
        Some(BuiltinReranker::JinaRerankerV1TurboEn)
    } else if text::same_text(id, "bge-reranker-v2-m3") {
        Some(BuiltinReranker::BgeRerankerV2M3)
    } else if text::same_text(id, "jina-reranker-v2-base-multilingual") {
        Some(BuiltinReranker::JinaRerankerV2BaseMultilingual)
    } else {
        None
    }
}

/// The rerankers that are fetched from a model hub.
#[derive(Debug, Clone, Copy, PartialEq, Eq, Structural)]
pub enum HubReranker {
    MsMarcoMiniLmL6,
    MsMarcoMiniLmL12,
    GteModernBert,
    GteMultilingual,
}

/// The hub reranker with this name.
pub open spec fn hub_of(name: Seq<char>) -> Option<HubReranker> {
    if name == "ms-marco-MiniLM-L6-v2"@ {
        Some(HubReranker::MsMarcoMiniLmL6)
    } else if name == "ms-marco-MiniLM-L12-v2"@ {
        Some(HubReranker::MsMarcoMiniLmL12)
    } else if name == "gte-reranker-modernbert-base"@ {
        Some(HubReranker::GteModernBert)
    } else if name == "gte-multilingual-reranker-base"@ {
        Some(HubReranker::GteMultilingual)
    } else {
        None
    }
}

/// The hub reranker with this name.
pub fn find_hub(name: &str) -> (r: Option<HubReranker>)
    ensures
        r == hub_of(name@),
{
    if text::same_text(name, "ms-marco-MiniLM-L6-v2") {
        Some(HubReranker::MsMarcoMiniLmL6)
    } else if text::same_text(name, "ms-marco-MiniLM-L12-v2") {
        Some(HubReranker::MsMarcoMiniLmL12)
    } else if text::same_text(name, "gte-reranker-modernbert-base") {
        Some(HubReranker::GteModernBert)
    } else if text::same_text(name, "gte-multilingual-reranker-base") {
        Some(HubReranker::GteMultilingual)
    } else {
        None
    }
}

/// What the host's processor offers to quantized models.
#[derive(Debug, Clone, Copy, PartialEq, Eq, Structural)]
pub struct CpuFeatures {
    pub avx512_vnni: bool,
    pub avx512f: bool,
    pub avx2: bool,
    pub arm64: bool,
}

/// The export of the ms-marco models for a provider: FP32 for an accelerator, else the
/// quantized one for the widest vector unit. A processor without any of the units gets
/// the quantized export that asks for the least.
pub open spec fn ms_marco_file(provider: Provider, cpu: CpuFeatures) -> Seq<char> {
    if provider != Provider::Cpu {
        "onnx/model.onnx"@
    } else if cpu.avx512_vnni {
        "onnx/model_qint8_avx512_vnni.onnx"@
    } else if cpu.avx512f {
        "onnx/model_qint8_avx512.onnx"@
    } else if cpu.arm64 && !cpu.avx2 {
        "onnx/model_qint8_arm64.onnx"@
    } else {
        "onnx/model_quint8_avx2.onnx"@
    }
}

pub fn ms_marco_onnx_for_provider(provider: Provider, cpu: CpuFeatures) -> (r: &'static str)
    ensures
        r@ == ms_marco_file(provider, cpu),
{
    if accel::prefers_fp32_onnx(provider) {
        "onnx/model.onnx"
    } else if cpu.avx512_vnni {
        "onnx/model_qint8_avx512_vnni.onnx"
    } else if cpu.avx512f {
        "onnx/model_qint8_avx512.onnx"
    } else if cpu.arm64 && !cpu.avx2 {
        "onnx/model_qint8_arm64.onnx"
    } else {
        "onnx/model_quint8_avx2.onnx"
    }
}

/// The export of the gte models for a provider.
pub open spec fn gte_file(provider: Provider) -> Seq<char> {
    if provider != Provider::Cpu {
        "onnx/model.onnx"@
    } else {
        "onnx/model_int8.onnx"@
    }
}

pub fn gte_onnx_for_provider(provider: Provider) -> (r: &'static str)
    ensures
        r@ == gte_file(provider),
{
    if accel::prefers_fp32_onnx(provider) {
        "onnx/model.onnx"
    } else {
        "onnx/model_int8.onnx"
    }
}

/// Every model gets a quantized export on the CPU, whatever the processor offers, and
/// the FP32 one on an accelerator.
pub proof fn the_provider_decides_the_precision(
    model: HubReranker,
    provider: Provider,
    cpu: CpuFeatures,
)
    ensures
        provider == Provider::Cpu ==> "onnx/model_"@.is_prefix_of(model.export(provider, cpu)),
        provider != Provider::Cpu ==> model.export(provider, cpu) == "onnx/model.onnx"@,
{
    reveal_strlit("onnx/model_");
    reveal_strlit("onnx/model_qint8_avx512_vnni.onnx");
    reveal_strlit("onnx/model_qint8_avx512.onnx");
    reveal_strlit("onnx/model_quint8_avx2.onnx");
    reveal_strlit("onnx/model_qint8_arm64.onnx");
    reveal_strlit("onnx/model_int8.onnx");
}

impl HubReranker {
    /// The repository of the model.
    pub open spec fn repo_name(self) -> Seq<char> {
        match self {
            HubReranker::MsMarcoMiniLmL6 => "cross-encoder/ms-marco-MiniLM-L6-v2"@,
            HubReranker::MsMarcoMiniLmL12 => "cross-encoder/ms-marco-MiniLM-L12-v2"@,
            HubReranker::GteModernBert => "Alibaba-NLP/gte-reranker-modernbert-base"@,
            HubReranker::GteMultilingual => "onnx-community/gte-multilingual-reranker-base"@,
        }
    }

    /// The export to fetch.
    pub open spec fn export(self, provider: Provider, cpu: CpuFeatures) -> Seq<char> {
        match self {
            HubReranker::MsMarcoMiniLmL6 => ms_marco_file(provider, cpu),
            HubReranker::MsMarcoMiniLmL12 => ms_marco_file(provider, cpu),
            HubReranker::GteModernBert => gte_file(provider),
            HubReranker::GteMultilingual => gte_file(provider),
        }
    }

    pub fn repo(self) -> (r: &'static str)
        ensures
            r@ == self.repo_name(),
    {
        match self {
            HubReranker::MsMarcoMiniLmL6 => "cross-encoder/ms-marco-MiniLM-L6-v2",
            HubReranker::MsMarcoMiniLmL12 => "cross-encoder/ms-marco-MiniLM-L12-v2",
            HubReranker::GteModernBert => "Alibaba-NLP/gte-reranker-modernbert-base",
            HubReranker::GteMultilingual => "onnx-community/gte-multilingual-reranker-base",
        }
    }

    pub fn onnx_file(self, provider: Provider, cpu: CpuFeatures) -> (r: &'static str)
        ensures
            r@ == self.export(provider, cpu),
    {
        match self {
            HubReranker::MsMarcoMiniLmL6 => ms_marco_onnx_for_provider(provider, cpu),
            HubReranker::MsMarcoMiniLmL12 => ms_marco_onnx_for_provider(provider, cpu),
            HubReranker::GteModernBert => gte_onnx_for_provider(provider),
            HubReranker::GteMultilingual => gte_onnx_for_provider(provider),
        }
    }
}

/// What a reranker id stands for.
#[derive(Debug, Clone)]
pub enum RerankerChoice {
    /// A local ONNX file.
    Local(String),
    /// A model that the runtime fetches.
    Builtin(BuiltinReranker),
    /// A model of the hub.
    Hub(HubReranker),
    /// Nothing that is known.
    Unknown,
}

/// The directory of prefetched rerankers.
pub open spec fn models_dir_of(root: Seq<char>) -> Seq<char> {
    path::joined(path::joined(root, "models"@), "rerank"@)
}

/// A file of a prefetched reranker.
pub open spec fn prefetched(root: Seq<char>, id: Seq<char>, file: Seq<char>) -> Seq<char> {
    path::joined(path::joined(models_dir_of(root), id), file)
}

/// The prefetched file that suits the provider.
pub open spec fn prefetch_file(provider: Provider) -> Seq<char> {
    if provider != Provider::Cpu {
        "model-accelerated.onnx"@
    } else {
        "model.onnx"@
    }
}

/// Whether `is_file` answered `b` for this path.
pub open spec fn answered<F: Fn(&String) -> bool>(is_file: F, p: Seq<char>, b: bool) -> bool {
    exists|s: &String| s@ == p && #[trigger] is_file.ensures((s,), b)
}

/// Whether `r` is what an id stands for: first a path to an ONNX file, then a built-in
/// model, then a hub model with the prefetch that suits the provider, and last any
/// other prefetch.
pub open spec fn choice<F: Fn(&String) -> bool>(
    id: Seq<char>,
    root: Seq<char>,
    provider: Provider,
    is_file: F,
    r: RerankerChoice,
) -> bool {
    let configured = path::joined(root, id);
    if text::ends_with(id, ".onnx"@) {
        r matches RerankerChoice::Local(p) && p@ == configured
    } else {
        ||| answered(is_file, configured, true) && (r matches RerankerChoice::Local(p) && p@
            == configured)
        ||| answered(is_file, configured, false) && (match builtin_of(id) {
            Some(b) => r == RerankerChoice::Builtin(b),
            None => match hub_of(id) {
                Some(h) => {
                    let file = prefetched(root, id, prefetch_file(provider));
                    ||| answered(is_file, file, true) && (r matches RerankerChoice::Local(p) && p@
                        == file)
                    ||| answered(is_file, file, false) && r == RerankerChoice::Hub(h)
                },
                None => {
                    let file = prefetched(root, id, "model.onnx"@);
                    ||| answered(is_file, file, true) && (r matches RerankerChoice::Local(p) && p@
                        == file)
                    ||| answered(is_file, file, false) && r == RerankerChoice::Unknown
                },
            },
        })
    }
}

/// Whether it has to be known if there is a file at `p`: at the id itself, unless that is
/// a path to an ONNX file, and at the prefetch of a model that is not built in.
pub open spec fn looks_at<F: Fn(&String) -> bool>(
    id: Seq<char>,
    root: Seq<char>,
    provider: Provider,
    is_file: F,
    p: Seq<char>,
) -> bool {
    let configured = path::joined(root, id);
    let file = if hub_of(id) is Some {
        prefetch_file(provider)
    } else {
        "model.onnx"@
    };
    &&& !text::ends_with(id, ".onnx"@)
    &&& p == configured || (answered(is_file, configured, false) && builtin_of(id) is None && p
        == prefetched(root, id, file))
}

fn prefetch_path(root: &str, id: &str, file: &str) -> (r: String)
    ensures
        r@ == prefetched(root@, id@, file@),
{
    let models = path::join_path(root, "models");
    let dir = path::join_path(models.as_str(), "rerank");
    let model = path::join_path(dir.as_str(), id);
    path::join_path(model.as_str(), file)
}

/// What a reranker id stands for. `is_file` tells whether there is a file at a path.
pub fn resolve_reranker<F: Fn(&String) -> bool>(
    id: &str,
    root: &str,
    provider: Provider,
    is_file: F,
) -> (r: RerankerChoice)
    requires
        forall|s: &String|
            looks_at(id@, root@, provider, is_file, s@) ==> #[trigger] is_file.requires((s,)),
    ensures
        choice(id@, root@, provider, is_file, r),
{
    let configured = path::join_path(root, id);
    if text::finishes_with(id, ".onnx") {
        return RerankerChoice::Local(configured);
    }
    let here = is_file(&configured);
    assert(answered(is_file, configured@, here));
    if here {
        return RerankerChoice::Local(configured);
    }
    if let Some(b) = find_builtin(id) {
        return RerankerChoice::Builtin(b);
    }
    if let Some(h) = find_hub(id) {
        let file = if accel::prefers_fp32_onnx(provider) {
            prefetch_path(root, id, "model-accelerated.onnx")
        } else {
            prefetch_path(root, id, "model.onnx")
        };
        let there = is_file(&file);
        assert(answered(is_file, file@, there));
        if there {
            return RerankerChoice::Local(file);
        }
        return RerankerChoice::Hub(h);
    }
    let file = prefetch_path(root, id, "model.onnx");
    let there = is_file(&file);
    assert(answered(is_file, file@, there));
    if there {
        RerankerChoice::Local(file)
    } else {
        RerankerChoice::Unknown
    }
}

/// What to tell the user about an unknown reranker.
pub fn unknown_reranker_message(id: &str, root: &str) -> (r: String)
    ensures
        r@ == "unknown reranker '"@ + id@ + "'; built-in: "@
            + "bge-reranker-base, jina-reranker-v1-turbo-en, bge-reranker-v2-m3, jina-reranker-v2-base-multilingual"@
            + "; auto-download: "@
            + "ms-marco-MiniLM-L6-v2, ms-marco-MiniLM-L12-v2, gte-reranker-modernbert-base, gte-multilingual-reranker-base"@
            + "; or a path to a .onnx / a prefetch under "@ + models_dir_of(root@),
{
    let models = path::join_path(root, "models");
    let dir = path::join_path(models.as_str(), "rerank");
    let mut out = "unknown reranker '".to_string();
    out.push_str(id);
    out.push_str("'; built-in: ");
    out.push_str(
        "bge-reranker-base, jina-reranker-v1-turbo-en, bge-reranker-v2-m3, jina-reranker-v2-base-multilingual",
    );
    out.push_str("; auto-download: ");
    out.push_str(
        "ms-marco-MiniLM-L6-v2, ms-marco-MiniLM-L12-v2, gte-reranker-modernbert-base, gte-multilingual-reranker-base",
    );
    out.push_str("; or a path to a .onnx / a prefetch under ");
    out.push_str(dir.as_str());
    out
}

// ---------------------------------------------------------------------------
// Laws
// ---------------------------------------------------------------------------

/// The models that are built in and those of the hub go by their names, and no name
/// stands for both.
pub proof fn rerankers_go_by_their_names(id: Seq<char>)
    ensures
        builtin_of("bge-reranker-base"@) == Some(BuiltinReranker::BgeRerankerBase),
        builtin_of("jina-reranker-v1-turbo-en"@) == Some(BuiltinReranker::JinaRerankerV1TurboEn),
        builtin_of("bge-reranker-v2-m3"@) == Some(BuiltinReranker::BgeRerankerV2M3),
        builtin_of("jina-reranker-v2-base-multilingual"@) == Some(BuiltinReranker::JinaRerankerV2BaseMultilingual),
        hub_of("ms-marco-MiniLM-L6-v2"@) == Some(HubReranker::MsMarcoMiniLmL6),
        hub_of("ms-marco-MiniLM-L12-v2"@) == Some(HubReranker::MsMarcoMiniLmL12),
        hub_of("gte-reranker-modernbert-base"@) == Some(HubReranker::GteModernBert),
        hub_of("gte-multilingual-reranker-base"@) == Some(HubReranker::GteMultilingual),
        builtin_of(id) is None || hub_of(id) is None,
        id != "bge-reranker-base"@ && id != "jina-reranker-v1-turbo-en"@ && id != "bge-reranker-v2-m3"@ && id != "jina-reranker-v2-base-multilingual"@ ==> builtin_of(id) is None,
        id != "ms-marco-MiniLM-L6-v2"@ && id != "ms-marco-MiniLM-L12-v2"@ && id != "gte-reranker-modernbert-base"@ && id != "gte-multilingual-reranker-base"@ ==> hub_of(id) is None,
{
    reveal_strlit("bge-reranker-base");
    reveal_strlit("jina-reranker-v1-turbo-en");
    reveal_strlit("bge-reranker-v2-m3");
    reveal_strlit("jina-reranker-v2-base-multilingual");
    reveal_strlit("ms-marco-MiniLM-L6-v2");
    reveal_strlit("ms-marco-MiniLM-L12-v2");
    reveal_strlit("gte-reranker-modernbert-base");
    reveal_strlit("gte-multilingual-reranker-base");
    assert("bge-reranker-base"@.len() == 17);
    assert("jina-reranker-v1-turbo-en"@.len() == 25);
    assert("bge-reranker-v2-m3"@.len() == 18);
    assert("jina-reranker-v2-base-multilingual"@.len() == 34);
    assert("ms-marco-MiniLM-L6-v2"@.len() == 21);
    assert("ms-marco-MiniLM-L12-v2"@.len() == 22);
    assert("gte-reranker-modernbert-base"@.len() == 28);
    assert("gte-multilingual-reranker-base"@.len() == 30);
}

/// A hub model stands in the repository of its owner under its own name.
pub proof fn repositories_end_with_the_name(name: Seq<char>)
    requires
        hub_of(name) is Some,
    ensures
        (hub_of(name)->0).repo_name() == (match hub_of(name)->0 {
            HubReranker::MsMarcoMiniLmL6 => "cross-encoder/"@,
            HubReranker::MsMarcoMiniLmL12 => "cross-encoder/"@,
            HubReranker::GteModernBert => "Alibaba-NLP/"@,
            HubReranker::GteMultilingual => "onnx-community/"@,
        }) + name,
{
    rerankers_go_by_their_names(name);
    reveal_strlit("ms-marco-MiniLM-L6-v2");
    reveal_strlit("cross-encoder/ms-marco-MiniLM-L6-v2");
    reveal_strlit("ms-marco-MiniLM-L12-v2");
    reveal_strlit("cross-encoder/ms-marco-MiniLM-L12-v2");
    reveal_strlit("gte-reranker-modernbert-base");
    reveal_strlit("Alibaba-NLP/gte-reranker-modernbert-base");
    reveal_strlit("gte-multilingual-reranker-base");
    reveal_strlit("onnx-community/gte-multilingual-reranker-base");
    reveal_strlit("cross-encoder/");
    reveal_strlit("Alibaba-NLP/");
    reveal_strlit("onnx-community/");
    assert("cross-encoder/ms-marco-MiniLM-L6-v2"@ =~= "cross-encoder/"@ + "ms-marco-MiniLM-L6-v2"@);
    assert("cross-encoder/ms-marco-MiniLM-L12-v2"@ =~= "cross-encoder/"@ + "ms-marco-MiniLM-L12-v2"@);
    assert("Alibaba-NLP/gte-reranker-modernbert-base"@ =~= "Alibaba-NLP/"@ + "gte-reranker-modernbert-base"@);
    assert("onnx-community/gte-multilingual-reranker-base"@ =~= "onnx-community/"@ + "gte-multilingual-reranker-base"@);
}

/// A processor gets the export for the best instructions that it has.
pub proof fn processors_get_their_best_export(cpu: CpuFeatures)
    ensures
        cpu.avx512_vnni ==> ms_marco_file(Provider::Cpu, cpu)
            == "onnx/model_qint8_avx512_vnni.onnx"@,
        !cpu.avx512_vnni && cpu.avx512f ==> ms_marco_file(Provider::Cpu, cpu)
            == "onnx/model_qint8_avx512.onnx"@,
        !cpu.avx512_vnni && !cpu.avx512f && cpu.avx2 ==> ms_marco_file(Provider::Cpu, cpu)
            == "onnx/model_quint8_avx2.onnx"@,
        !cpu.avx512_vnni && !cpu.avx512f && !cpu.avx2 && cpu.arm64 ==> ms_marco_file(
            Provider::Cpu,
            cpu,
        ) == "onnx/model_qint8_arm64.onnx"@,
        !cpu.avx512_vnni && !cpu.avx512f && !cpu.avx2 && !cpu.arm64 ==> ms_marco_file(
            Provider::Cpu,
            cpu,
        ) == "onnx/model_quint8_avx2.onnx"@,
{
}

/// Whether a test for files answers as the files are.
pub open spec fn answers_truly<F: Fn(&String) -> bool>(
    is_file: F,
    files: spec_fn(Seq<char>) -> bool,
) -> bool {
    forall|s: &String, b: bool| #[trigger] is_file.ensures((s,), b) ==> b == files(s@)
}

/// A configured model is the file of that name if there is one or the name says so, then
/// the built-in or the hub model of that name, a hub model from the files fetched before
/// if it is there, and any other name only from those.
pub proof fn files_come_before_names<F: Fn(&String) -> bool>(
    id: Seq<char>,
    root: Seq<char>,
    provider: Provider,
    is_file: F,
    files: spec_fn(Seq<char>) -> bool,
    r: RerankerChoice,
)
    requires
        choice(id, root, provider, is_file, r),
        answers_truly(is_file, files),
    ensures
        ({
            let configured = path::joined(root, id);
            let dir = path::joined(path::joined(path::joined(root, "models"@), "rerank"@), id);
            let usual = path::joined(dir, "model.onnx"@);
            let fetched = if hub_of(id) is Some && provider != Provider::Cpu {
                path::joined(dir, "model-accelerated.onnx"@)
            } else {
                usual
            };
            if text::ends_with(id, ".onnx"@) || files(configured) {
                r matches RerankerChoice::Local(p) && p@ == configured
            } else if builtin_of(id) is Some {
                r == RerankerChoice::Builtin(builtin_of(id)->0)
            } else if files(fetched) {
                r matches RerankerChoice::Local(p) && p@ == fetched
            } else if hub_of(id) is Some {
                r == RerankerChoice::Hub(hub_of(id)->0)
            } else {
                r == RerankerChoice::Unknown
            }
        }),
{
    let configured = path::joined(root, id);
    lemma_answer(is_file, files, configured);
    lemma_answer(is_file, files, prefetched(root, id, prefetch_file(provider)));
    lemma_answer(is_file, files, prefetched(root, id, "model.onnx"@));
}

proof fn lemma_answer<F: Fn(&String) -> bool>(
    is_file: F,
    files: spec_fn(Seq<char>) -> bool,
    p: Seq<char>,
)
    requires
        answers_truly(is_file, files),
    ensures
        forall|b: bool| #[trigger] answered(is_file, p, b) ==> b == files(p),
{
}

} // verus!
