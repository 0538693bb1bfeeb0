//! Settings: their defaults, their checks, and where files are kept.

use crate::float::FloatBits;
use crate::path;
use crate::text;
use vstd::prelude::*;

verus! {

/// Name of the config file at the root of a project.
pub const CONFIG_FILE: &'static str = ".rag-bone.toml";

/// Directory of the stored index, relative to the project root.
pub const INDEX_DIR: &'static str = ".rag-bone";

/// Embedding model used unless another is asked for.
pub const DEFAULT_MODEL: &'static str = "embeddinggemma-300m-q4";

/// Reranker used unless another is asked for.
pub const DEFAULT_RERANKER: &'static str = "ms-marco-MiniLM-L6-v2";

/// Retrieval channel: vectors, keywords, or both fused.
#[derive(Debug, Clone, Copy, PartialEq, Eq, Structural)]
pub enum RetrievalMode {
    Dense,
    Bm25,
    Hybrid,
}

impl Default for RetrievalMode {
    fn default() -> (r: Self)
        ensures
            r == RetrievalMode::Dense,
    {
        RetrievalMode::Dense
    }
}

/// Chunk size budget and overlap of neighbouring chunks, in characters.
#[derive(Debug, Clone, Copy, PartialEq, Eq, Structural)]
pub struct ChunkConfig {
    pub max_chars: usize,
    pub overlap: usize,
}

impl Default for ChunkConfig {
    fn default() -> (r: Self)
        ensures
            r.max_chars == 1500,
            r.overlap == 0,
    {
        ChunkConfig { max_chars: 1500, overlap: 0 }
    }
}

/// The settings of a project.
#[derive(Debug, Clone)]
pub struct Config {
    /// Folders to ingest, relative to the config file.
    pub sources: Vec<String>,
    /// Embedding model id.
    pub model: String,
    /// Whether to rerank.
    pub rerank: bool,
    /// Reranker: a registry id, a model name, or a path to an ONNX file.
    pub reranker: String,
    /// Results returned.
    pub top_k: usize,
    /// Candidates retrieved before ranking.
    pub retrieve_n: usize,
    /// Results below this score are dropped; zero keeps all.
    pub min_score: FloatBits,
    pub retrieval: RetrievalMode,
    /// Constant of the rank fusion.
    pub rrf_k: usize,
    /// Most chunks returned per file; zero for no limit.
    pub max_per_file: usize,
    pub chunk: ChunkConfig,
}

impl Config {
    /// Whether these are the default settings.
    pub open spec fn is_default(self) -> bool {
        &&& text::texts(self.sources@) == seq!["./docs"@, "./src"@]
        &&& self.model@ == DEFAULT_MODEL@
        &&& !self.rerank
        &&& self.reranker@ == DEFAULT_RERANKER@
        &&& self.top_k == 3
        &&& self.retrieve_n == 30
        &&& self.min_score.bits == 0
        &&& self.retrieval == RetrievalMode::Hybrid
        &&& self.rrf_k == 60
        &&& self.max_per_file == 0
        &&& self.chunk == (ChunkConfig { max_chars: 1500, overlap: 0 })
    }
}

impl Default for Config {
    fn default() -> (r: Self)
        ensures
            r.is_default(),
    {
        let mut sources: Vec<String> = Vec::new();
        sources.push("./docs".to_string());
        sources.push("./src".to_string());
        assert(text::texts(sources@) =~= seq!["./docs"@, "./src"@]);
        Config {
            sources,
            model: DEFAULT_MODEL.to_string(),
            rerank: false,
            reranker: DEFAULT_RERANKER.to_string(),
            top_k: 3,
            retrieve_n: 30,
            min_score: FloatBits { bits: 0 },
            retrieval: RetrievalMode::Hybrid,
            rrf_k: 60,
            max_per_file: 0,
            chunk: ChunkConfig::default(),
        }
    }
}

/// What is wrong with a configuration.
#[derive(Debug, Clone, Copy, PartialEq, Eq, Structural)]
pub enum ConfigFault {
    EmptyModel,
    EmptyReranker,
    ZeroTopK,
    ZeroRetrieveN,
    ZeroRrfK,
    MinScoreNotFinite,
    ZeroMaxChars,
    OverlapTooLarge,
}

/// Whether a text holds nothing but white space.
pub open spec fn blank(s: Seq<char>) -> bool {
    text::trim(s).len() == 0
}

impl Config {
    /// The first thing that is wrong with the configuration.
    pub open spec fn fault(self) -> Option<ConfigFault> {
        if blank(self.model@) {
            Some(ConfigFault::EmptyModel)
        } else if self.rerank && blank(self.reranker@) {
            Some(ConfigFault::EmptyReranker)
        } else if self.top_k == 0 {
            Some(ConfigFault::ZeroTopK)
        } else if self.retrieve_n == 0 {
            Some(ConfigFault::ZeroRetrieveN)
        } else if self.rrf_k == 0 {
            Some(ConfigFault::ZeroRrfK)
        } else if !self.min_score.finite() {
            Some(ConfigFault::MinScoreNotFinite)
        } else if self.chunk.max_chars == 0 {
            Some(ConfigFault::ZeroMaxChars)
        } else if self.chunk.overlap >= self.chunk.max_chars {
            Some(ConfigFault::OverlapTooLarge)
        } else {
            None
        }
    }

    pub open spec fn valid(self) -> bool {
        self.fault() is None
    }

    /// Checks the settings, and names the first fault.
    pub fn validate(&self) -> (r: Result<(), ConfigFault>)
        ensures
            match r {
                Ok(_) => self.valid(),
                Err(fault) => self.fault() == Some(fault),
            },
    {
        if is_blank(self.model.as_str()) {
            return Err(ConfigFault::EmptyModel);
        }
        if self.rerank && is_blank(self.reranker.as_str()) {
            return Err(ConfigFault::EmptyReranker);
        }
        if self.top_k == 0 {
            return Err(ConfigFault::ZeroTopK);
        }
        if self.retrieve_n == 0 {
            return Err(ConfigFault::ZeroRetrieveN);
        }
        if self.rrf_k == 0 {
            return Err(ConfigFault::ZeroRrfK);
        }
        if !self.min_score.is_finite() {
            return Err(ConfigFault::MinScoreNotFinite);
        }
        if self.chunk.max_chars == 0 {
            return Err(ConfigFault::ZeroMaxChars);
        }
        if self.chunk.overlap >= self.chunk.max_chars {
            return Err(ConfigFault::OverlapTooLarge);
        }
        Ok(())
    }
}

/// Whether a text holds nothing but white space.
pub fn is_blank(s: &str) -> (r: bool)
    ensures
        r == blank(s@),
{
    let t = text::trimmed(s);
    let cs = text::chars_of(t.as_str());
    cs.len() == 0
}

/// The default settings pass their own checks.
pub proof fn default_settings_are_valid(config: Config)
    requires
        config.is_default(),
    ensures
        config.valid(),
{
    reveal_strlit("embeddinggemma-300m-q4");
    text::lemma_trim_nonempty(config.model@, 0);
}

/// Why a configuration could not be loaded.
#[derive(Debug)]
pub enum ConfigError {
    Read(String),
    Invalid(ConfigFault),
}

/// Why a configuration could not be written.
#[derive(Debug)]
pub enum InitError {
    AlreadyExists,
    Write(String),
}

impl Config {
    /// The settings of a project: the defaults when there is no config file, else
    /// what `read` makes of it, if that is valid.
    pub fn load<R: FnOnce() -> Result<Config, String>>(exists: bool, read: R) -> (r: Result<
        Config,
        ConfigError,
    >)
        requires
            exists ==> read.requires(()),
        ensures
            !exists ==> r is Ok && r->Ok_0.is_default(),
            r is Ok ==> r->Ok_0.valid(),
            exists ==> exists|out: Result<Config, String>| #[trigger]
                read.ensures((), out) && (match out {
                    Err(e) => r == Err::<Config, ConfigError>(ConfigError::Read(e)),
                    Ok(config) => match config.fault() {
                        Some(fault) => r == Err::<Config, ConfigError>(ConfigError::Invalid(fault)),
                        None => r == Ok::<Config, ConfigError>(config),
                    },
                }),
    {
        if !exists {
            let config = Config::default();
            proof {
                default_settings_are_valid(config);
            }
            return Ok(config);
        }
        let out = read();
        match out {
            Err(e) => Err(ConfigError::Read(e)),
            Ok(config) => match config.validate() {
                Ok(_) => Ok(config),
                Err(fault) => Err(ConfigError::Invalid(fault)),
            },
        }
    }

    /// Writes the defaults through `write`, unless there is a config file already.
    pub fn init<W: FnOnce(&Config) -> Result<(), String>>(exists: bool, write: W) -> (r: Result<
        (),
        InitError,
    >)
        requires
            forall|c: &Config| !exists && c.is_default() ==> #[trigger] write.requires((c,)),
        ensures
            exists <==> r == Err::<(), InitError>(InitError::AlreadyExists),
            !exists ==> exists|c: &Config, out: Result<(), String>| #[trigger]
                write.ensures((c,), out) && c.is_default() && (match out {
                    Ok(_) => r is Ok,
                    Err(e) => r == Err::<(), InitError>(InitError::Write(e)),
                }),
    {
        if exists {
            return Err(InitError::AlreadyExists);
        }
        let config = Config::default();
        let out = write(&config);
        assert(write.ensures((&config,), out));
        match out {
            Ok(_) => Ok(()),
            Err(e) => Err(InitError::Write(e)),
        }
    }
}

/// The base of the caches: `$XDG_CACHE_HOME`, else `$HOME/.cache`.
pub open spec fn cache_base(xdg: Option<String>, home: Option<String>) -> Option<Seq<char>> {
    match xdg {
        Some(dir) => Some(dir@),
        None => match home {
            Some(dir) => Some(path::joined(dir@, ".cache"@)),
            None => None,
        },
    }
}

/// Root of the cross-project cache, from the values of `XDG_CACHE_HOME` and `HOME`.
pub fn cache_root(xdg: Option<String>, home: Option<String>) -> (r: Option<String>)
    ensures
        text::opt_text(r) == match cache_base(xdg, home) {
            Some(base) => Some(path::joined(base, "rag-bone"@)),
            None => None,
        },
{
    let base = match xdg {
        Some(dir) => dir,
        None => match home {
            Some(dir) => path::join_path(dir.as_str(), ".cache"),
            None => {
                return None;
            },
        },
    };
    Some(path::join_path(base.as_str(), "rag-bone"))
}

/// Where model weights are kept: the override if there is one, else `models` under
/// the cache root.
pub fn model_cache_dir(
    override_dir: Option<String>,
    xdg: Option<String>,
    home: Option<String>,
) -> (r: Option<String>)
    ensures
        text::opt_text(r) == match override_dir {
            Some(dir) => Some(dir@),
            None => match cache_base(xdg, home) {
                Some(base) => Some(path::joined(path::joined(base, "rag-bone"@), "models"@)),
                None => None,
            },
        },
{
    if let Some(dir) = override_dir {
        return Some(dir);
    }
    match cache_root(xdg, home) {
        Some(root) => Some(path::join_path(root.as_str(), "models")),
        None => None,
    }
}

/// Directory of the config file: the root for relative sources and the index.
pub fn root_of(config_path: &str) -> (r: String)
    ensures
        r@ == path::parent_or_dot(config_path@),
{
    path::parent_dir(config_path)
}

/// Path of the index file of a project.
pub fn index_path(root: &str) -> (r: String)
    ensures
        r@ == path::joined(path::joined(root@, INDEX_DIR@), "index.bin"@),
{
    let dir = path::join_path(root, INDEX_DIR);
    path::join_path(dir.as_str(), "index.bin")
}

// ---------------------------------------------------------------------------
// Laws
// ---------------------------------------------------------------------------

pub proof fn lemma_blank(s: Seq<char>)
    ensures
        blank(s) <==> forall|i: int| 0 <= i < s.len() ==> text::white_space(#[trigger] s[i]),
{
    let ends = text::trimming_takes_white_space_off(s);
    if blank(s) {
        assert forall|i: int| 0 <= i < s.len() implies text::white_space(#[trigger] s[i]) by {
            if i < ends.0.len() {
                assert(s[i] == ends.0[i]);
            } else {
                assert(s[i] == ends.1[i - ends.0.len()]);
            }
        }
    }
    if forall|i: int| 0 <= i < s.len() ==> text::white_space(#[trigger] s[i]) {
        let t = text::trim(s);
        if t.len() > 0 {
            assert(t[0] == s[ends.0.len() as int]);
        }
    }
}

/// Whether a text holds something other than white space.
pub open spec fn told(s: Seq<char>) -> bool {
    exists|i: int| 0 <= i < s.len() && !text::white_space(#[trigger] s[i])
}

/// Settings are taken exactly if a model is named, and a reranker where reranking is on,
/// the numbers are above zero, the least score is a number, and an overlap is smaller
/// than a chunk. Else the first of these that does not hold is the fault.
pub proof fn settings_are_checked_in_order(config: &Config, r: Result<(), ConfigFault>)
    requires
        call_ensures(Config::validate, (config,), r),
    ensures
        r is Ok <==> {
            &&& told(config.model@)
            &&& config.rerank ==> told(config.reranker@)
            &&& config.top_k > 0 && config.retrieve_n > 0 && config.rrf_k > 0
            &&& config.min_score.bits % 0x8000_0000 < 0x7f80_0000
            &&& config.chunk.overlap < config.chunk.max_chars
        },
        r is Err ==> match r->Err_0 {
            ConfigFault::EmptyModel => !told(config.model@),
            ConfigFault::EmptyReranker => told(config.model@) && config.rerank && !told(
                config.reranker@,
            ),
            ConfigFault::ZeroTopK => told(config.model@) && config.top_k == 0,
            ConfigFault::ZeroRetrieveN => config.top_k > 0 && config.retrieve_n == 0,
            ConfigFault::ZeroRrfK => config.top_k > 0 && config.retrieve_n > 0 && config.rrf_k == 0,
            ConfigFault::MinScoreNotFinite => config.rrf_k > 0 && config.min_score.bits % 0x8000_0000
                >= 0x7f80_0000,
            ConfigFault::ZeroMaxChars => config.min_score.bits % 0x8000_0000 < 0x7f80_0000
                && config.chunk.max_chars == 0,
            ConfigFault::OverlapTooLarge => config.min_score.bits % 0x8000_0000 < 0x7f80_0000 && 0
                < config.chunk.max_chars <= config.chunk.overlap,
        },
{
    lemma_blank(config.model@);
    lemma_blank(config.reranker@);
    assert(told(config.model@) == !blank(config.model@));
    assert(told(config.reranker@) == !blank(config.reranker@));
}

/// Without a config file the settings are those that the program has by itself.
pub proof fn defaults_are_these(config: Config)
    requires
        config.is_default(),
    ensures
        config.sources@.len() == 2,
        config.sources@[0]@ == "./docs"@ && config.sources@[1]@ == "./src"@,
        config.model@ == "embeddinggemma-300m-q4"@,
        config.reranker@ == "ms-marco-MiniLM-L6-v2"@,
        !config.rerank && config.retrieval == RetrievalMode::Hybrid,
        config.top_k == 3 && config.retrieve_n == 30 && config.rrf_k == 60 && config.max_per_file
            == 0,
        config.min_score.bits == 0,
        config.chunk.max_chars == 1500 && config.chunk.overlap == 0,
{
    let list = text::texts(config.sources@);
    assert(list.len() == 2);
    assert(list[0] == config.sources@[0]@ && list[1] == config.sources@[1]@);
}

/// The caches stand in a directory of the program under the one that the environment
/// names for caches, or else under that of the home directory; models under that, unless
/// another place is named for them.
pub proof fn caches_stand_where_the_environment_says(
    xdg: Option<String>,
    home: Option<String>,
    other: Option<String>,
    root: Option<String>,
    models: Option<String>,
)
    requires
        call_ensures(cache_root, (xdg, home), root),
        call_ensures(model_cache_dir, (other, xdg, home), models),
    ensures
        root is Some <==> xdg is Some || home is Some,
        xdg is Some ==> (root->0)@ == path::joined((xdg->0)@, "rag-bone"@),
        xdg is None && home is Some ==> (root->0)@ == path::joined(
            path::joined((home->0)@, ".cache"@),
            "rag-bone"@,
        ),
        other is Some ==> models is Some && (models->0)@ == (other->0)@,
        other is None && root is Some ==> models is Some && (models->0)@ == path::joined(
            (root->0)@,
            "models"@,
        ),
        other is None && root is None ==> models is None,
{
}

/// The index of a project stands in its own directory under the root.
pub proof fn indexes_stand_under_the_root(root: &str, r: String)
    requires
        call_ensures(index_path, (root,), r),
    ensures
        r@ == path::joined(path::joined(root@, ".rag-bone"@), "index.bin"@),
        path::names(r@) == path::names(root@) + seq![".rag-bone"@, "index.bin"@],
{
    reveal_strlit(".rag-bone");
    reveal_strlit("index.bin");
    let (dir, file) = (".rag-bone"@, "index.bin"@);
    assert(!dir.contains('/') && !file.contains('/'));
    path::joining_appends_the_names(root@, dir);
    path::joining_appends_the_names(path::joined(root@, dir), file);
    path::slashes_part_the_names(dir, file);
    path::slashes_part_the_names(file, dir);
    assert(path::names(root@) + seq![dir] + seq![file] =~= path::names(root@) + seq![dir, file]);
}

} // verus!
