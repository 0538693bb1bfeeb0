//! The commands, and what they decide before and after the models and files come in.

use crate::config;
use crate::config::Config;
use crate::config::RetrievalMode;
use crate::eval::EvalOpts;
use crate::lexical;
use crate::lexical::EmptyChannel;
use crate::lexical::LexicalIndex;
use crate::search::SearchParams;
use crate::store::Index;
use crate::store::Record;
use crate::text;
use vstd::prelude::*;

verus! {

/// A call of the program.
#[derive(Debug, Clone)]
pub struct Cli {
    /// Path of the config file, if another than the default is asked for.
    pub config: Option<String>,
    pub command: Command,
}

/// What the program is asked to do.
#[derive(Debug, Clone)]
pub enum Command {
    /// Ingest the configured folders into the index.
    Index { path: Vec<String>, model: Option<String>, reindex: bool },
    /// Search, and print the most relevant chunks.
    Search {
        query: String,
        limit: Option<usize>,
        json: bool,
        compact: bool,
        no_rerank: bool,
        reranker: Option<String>,
        retrieval: Option<RetrievalMode>,
        lang: Option<Vec<String>>,
        path_prefix: Option<String>,
        source: Option<String>,
    },
    /// Search one query per line of input, and print one line for each.
    SearchBatch {
        limit: Option<usize>,
        compact: bool,
        no_rerank: bool,
        reranker: Option<String>,
        retrieval: Option<RetrievalMode>,
        lang: Option<Vec<String>>,
        path_prefix: Option<String>,
        source: Option<String>,
    },
    /// Watch the configured folders, and index on change.
    Watch { path: Vec<String> },
    /// Evaluate a golden set.
    Eval {
        queries: String,
        k: usize,
        no_rerank: bool,
        reranker: Option<String>,
        retrieval: Option<RetrievalMode>,
        dump: Option<String>,
    },
    /// Fetch one chunk by its id.
    Get { chunk_id: String, context_lines: Option<usize>, json: bool },
    /// Outline a file.
    Outline { file: String, json: bool },
    /// Find where a symbol is defined.
    Find { symbol: String, limit: Option<usize>, json: bool },
    /// List the web document sets in the index.
    Catalog { json: bool },
    /// Show index statistics.
    Status,
    /// Create or print the config file.
    Config { init: bool },
}

/// The options that the two searches share.
#[derive(Debug, Clone)]
pub struct SearchOptions {
    pub limit: Option<usize>,
    pub no_rerank: bool,
    pub reranker: Option<String>,
    pub retrieval: Option<RetrievalMode>,
    pub lang: Option<Vec<String>>,
    pub path_prefix: Option<String>,
    pub source: Option<String>,
}

impl Cli {
    /// The config file of the call.
    pub fn config_path(&self) -> (r: String)
        ensures
            r@ == match self.config {
                Some(p) => p@,
                None => config::CONFIG_FILE@,
            },
    {
        match &self.config {
            Some(p) => p.clone(),
            None => config::CONFIG_FILE.to_string(),
        }
    }
}

impl Command {
    /// The options of a search; `None` for the other commands.
    pub fn search_options(self) -> (r: Option<SearchOptions>)
        ensures
            r == match self {
                Command::Search {
                    limit,
                    no_rerank,
                    reranker,
                    retrieval,
                    lang,
                    path_prefix,
                    source,
                    ..
                } => Some(
                    SearchOptions {
                        limit,
                        no_rerank,
                        reranker,
                        retrieval,
                        lang,
                        path_prefix,
                        source,
                    },
                ),
                Command::SearchBatch {
                    limit,
                    no_rerank,
                    reranker,
                    retrieval,
                    lang,
                    path_prefix,
                    source,
                    ..
                } => Some(
                    SearchOptions {
                        limit,
                        no_rerank,
                        reranker,
                        retrieval,
                        lang,
                        path_prefix,
                        source,
                    },
                ),
                _ => None,
            },
    {
        match self {
            Command::Search {
                limit,
                no_rerank,
                reranker,
                retrieval,
                lang,
                path_prefix,
                source,
                ..
            } => Some(
                SearchOptions {
                    limit,
                    no_rerank,
                    reranker,
                    retrieval,
                    lang,
                    path_prefix,
                    source,
                },
            ),
            Command::SearchBatch {
                limit,
                no_rerank,
                reranker,
                retrieval,
                lang,
                path_prefix,
                source,
                ..
            } => Some(
                SearchOptions {
                    limit,
                    no_rerank,
                    reranker,
                    retrieval,
                    lang,
                    path_prefix,
                    source,
                },
            ),
            _ => None,
        }
    }
}

// ---------------------------------------------------------------------------
// Settings of a command
// ---------------------------------------------------------------------------

/// The settings of an ingest: the folders and the model of the call, where it names any,
/// take the place of the configured ones.
pub fn with_overrides(cfg: Config, path: Vec<String>, model: Option<String>) -> (r: Config)
    ensures
        r == (Config {
            sources: if path@.len() > 0 {
                path
            } else {
                cfg.sources
            },
            model: match model {
                Some(m) => m,
                None => cfg.model,
            },
            ..cfg
        }),
{
    let mut r = cfg;
    if path.len() > 0 {
        r.sources = path;
    }
    if let Some(m) = model {
        r.model = m;
    }
    r
}

/// The retrieval mode of a call, or else the configured one.
pub open spec fn mode_in_force(cfg: Config, asked: Option<RetrievalMode>) -> RetrievalMode {
    match asked {
        Some(m) => m,
        None => cfg.retrieval,
    }
}

pub fn mode_of(cfg: &Config, asked: Option<RetrievalMode>) -> (r: RetrievalMode)
    ensures
        r == mode_in_force(*cfg, asked),
{
    match asked {
        Some(m) => m,
        None => cfg.retrieval,
    }
}

/// Whether a search in this mode needs the embedding model.
pub fn needs_embedder(mode: RetrievalMode) -> (r: bool)
    ensures
        r == (mode != RetrievalMode::Bm25),
{
    mode != RetrievalMode::Bm25
}

/// The reranker to load: none if reranking is off in the settings or by the call, and
/// else the one that the call names, or the configured one.
pub fn reranker_of(cfg: &Config, no_rerank: bool, asked: &Option<String>) -> (r: Option<String>)
    ensures
        text::opt_text(r) == if cfg.rerank && !no_rerank {
            match *asked {
                Some(id) => Some(id@),
                None => Some(cfg.reranker@),
            }
        } else {
            None
        },
{
    if cfg.rerank && !no_rerank {
        match asked {
            Some(id) => Some(id.clone()),
            None => Some(cfg.reranker.clone()),
        }
    } else {
        None
    }
}

/// No result at all was asked for.
#[derive(Debug, Clone, Copy, PartialEq, Eq, Structural)]
pub struct ZeroLimit;

/// The number of results that a call asks for, or else the configured one.
pub open spec fn limit_in_force(cfg: Config, asked: Option<usize>) -> usize {
    match asked {
        Some(n) => n,
        None => cfg.top_k,
    }
}

pub fn limit_of(cfg: &Config, asked: Option<usize>) -> (r: Result<usize, ZeroLimit>)
    ensures
        match r {
            Ok(n) => n == limit_in_force(*cfg, asked) && n > 0,
            Err(_) => limit_in_force(*cfg, asked) == 0,
        },
{
    let n = match asked {
        Some(n) => n,
        None => cfg.top_k,
    };
    if n == 0 {
        Err(ZeroLimit)
    } else {
        Ok(n)
    }
}

/// The texts of an optional list.
pub open spec fn opt_texts(o: Option<Vec<String>>) -> Option<Seq<Seq<char>>> {
    match o {
        Some(v) => Some(text::texts(v@)),
        None => None,
    }
}

/// Whether `p` are the parameters of a search with these settings and options.
pub open spec fn asks_for(cfg: Config, options: SearchOptions, query: Seq<char>, p: SearchParams) -> bool {
    let top_k = limit_in_force(cfg, options.limit);
    &&& p.query@ == query
    &&& p.top_k == top_k
    &&& p.retrieve_n == if cfg.retrieve_n < top_k {
        top_k
    } else {
        cfg.retrieve_n
    }
    &&& p.rerank == (cfg.rerank && !options.no_rerank)
    &&& p.min_score == cfg.min_score
    &&& opt_texts(p.langs) == opt_texts(options.lang)
    &&& text::opt_text(p.path_prefix) == text::opt_text(options.path_prefix)
    &&& text::opt_text(p.source) == text::opt_text(options.source)
    &&& p.retrieval == mode_in_force(cfg, options.retrieval)
    &&& p.rrf_k == cfg.rrf_k
    &&& p.max_per_file == cfg.max_per_file
}

/// The parameters of a search. At least as many candidates are drawn as results are
/// asked for.
pub fn search_params(cfg: &Config, options: &SearchOptions, query: &str) -> (r: Result<
    SearchParams,
    ZeroLimit,
>)
    ensures
        match r {
            Ok(p) => limit_in_force(*cfg, options.limit) > 0 && asks_for(
                *cfg,
                *options,
                query@,
                p,
            ),
            Err(_) => limit_in_force(*cfg, options.limit) == 0,
        },
{
    let top_k = match limit_of(cfg, options.limit) {
        Ok(n) => n,
        Err(_) => {
            return Err(ZeroLimit);
        },
    };
    let retrieve_n = if cfg.retrieve_n < top_k {
        top_k
    } else {
        cfg.retrieve_n
    };
    let langs = match &options.lang {
        Some(list) => Some(text::copy_list(list)),
        None => None,
    };
    Ok(
        SearchParams {
            query: query.to_string(),
            top_k,
            retrieve_n,
            rerank: cfg.rerank && !options.no_rerank,
            min_score: cfg.min_score,
            langs,
            path_prefix: text::copy_opt(&options.path_prefix),
            source: text::copy_opt(&options.source),
            retrieval: mode_of(cfg, options.retrieval),
            rrf_k: cfg.rrf_k,
            max_per_file: cfg.max_per_file,
        },
    )
}

/// The settings of an evaluation with cutoff `k`.
pub fn eval_opts(cfg: &Config, k: usize, no_rerank: bool, retrieval: Option<RetrievalMode>) -> (r:
    Result<EvalOpts, ZeroLimit>)
    ensures
        match r {
            Ok(o) => k > 0 && o == (EvalOpts {
                k,
                retrieve_n: cfg.retrieve_n,
                rerank: cfg.rerank && !no_rerank,
                min_score: cfg.min_score,
                retrieval: mode_in_force(*cfg, retrieval),
                rrf_k: cfg.rrf_k,
            }),
            Err(_) => k == 0,
        },
{
    if k == 0 {
        return Err(ZeroLimit);
    }
    Ok(
        EvalOpts {
            k,
            retrieve_n: cfg.retrieve_n,
            rerank: cfg.rerank && !no_rerank,
            min_score: cfg.min_score,
            retrieval: mode_of(cfg, retrieval),
            rrf_k: cfg.rrf_k,
        },
    )
}

/// The lexical channel, where the mode needs it.
pub fn build_lexical(index: &Index, mode: RetrievalMode, include_structural: bool) -> (r: Result<
    Option<LexicalIndex>,
    EmptyChannel,
>)
    ensures
        match r {
            Ok(None) => mode == RetrievalMode::Dense,
            Ok(Some(lex)) => mode != RetrievalMode::Dense && lex.documents() == lexical::documents(
                index.records@,
                include_structural,
            ),
            Err(_) => mode != RetrievalMode::Dense && lexical::no_terms(
                lexical::documents(index.records@, include_structural),
            ),
        },
        mode != RetrievalMode::Dense && lexical::no_terms(
            lexical::documents(index.records@, include_structural),
        ) ==> r is Err,
{
    if mode == RetrievalMode::Dense {
        return Ok(None);
    }
    match LexicalIndex::build(&index.records, include_structural) {
        Ok(lex) => Ok(Some(lex)),
        Err(e) => Err(e),
    }
}

/// The query on a line of a batch, or `None` on a blank line.
pub fn batch_query(line: &str) -> (r: Option<String>)
    ensures
        text::opt_text(r) == if config::blank(line@) {
            None
        } else {
            Some(text::trim(line@))
        },
{
    let query = text::trimmed(line);
    if query.as_str().is_empty() {
        None
    } else {
        Some(query)
    }
}

// ---------------------------------------------------------------------------
// A chunk in its context
// ---------------------------------------------------------------------------

/// First line of a chunk with `n` lines of context: never before the first of the file.
pub open spec fn context_start(start: int, n: int) -> int {
    if start - n < 1 {
        1
    } else {
        start - n
    }
}

/// Last line of a chunk with `n` lines of context: never after the last of the file.
pub open spec fn context_end(end: int, n: int, count: int) -> int {
    if end + n < count {
        end + n
    } else {
        count
    }
}

/// Whether a file of `count` lines still reaches the chunk with its context.
pub open spec fn reaches_context(r: Record, n: int, count: int) -> bool {
    context_start(r.start_line as int, n) <= context_end(r.end_line as int, n, count)
}

/// The lines of a chunk with `n` lines of context in a file of `count` lines, or `None`
/// if the file ends before them.
pub fn context_range(r: &Record, n: usize, count: usize) -> (out: Option<[usize; 2]>)
    ensures
        match out {
            Some(lines) => reaches_context(*r, n as int, count as int) && lines@ == seq![
                context_start(r.start_line as int, n as int) as usize,
                context_end(r.end_line as int, n as int, count as int) as usize,
            ],
            None => !reaches_context(*r, n as int, count as int),
        },
{
    let start: usize = if r.start_line <= n {
        1
    } else {
        r.start_line - n
    };
    let end: usize = if r.end_line < count && n < count - r.end_line {
        r.end_line + n
    } else {
        count
    };
    if start <= end {
        Some([start, end])
    } else {
        None
    }
}

/// The lines of a chunk with its context, and their text.
pub open spec fn with_context(r: Record, content: Seq<char>, n: int) -> (Seq<usize>, Seq<char>) {
    let all = text::lines(content);
    let start = context_start(r.start_line as int, n);
    let end = context_end(r.end_line as int, n, all.len() as int);
    if reaches_context(r, n, all.len() as int) {
        (
            seq![start as usize, end as usize],
            text::join(all.subrange(start - 1, end), "\n"@),
        )
    } else {
        (seq![r.start_line, r.end_line], r.text@)
    }
}

/// A chunk with `n` lines of context above and below, cut from the file that it comes
/// from. Where the file has become too short for that, the stored lines and text.
pub fn read_with_context(r: &Record, content: &str, n: usize) -> (out: ([usize; 2], String))
    ensures
        (out.0@, out.1@) == with_context(*r, content@, n as int),
{
    let list = text::split_lines(content);
    let ghost all = text::lines(content@);
    let count = list.len();
    assert(text::texts(list@).len() == list@.len());
    let lines = match context_range(r, n, count) {
        Some(lines) => lines,
        None => {
            let stored = [r.start_line, r.end_line];
            assert(stored@ =~= seq![r.start_line, r.end_line]);
            return (stored, r.text.clone());
        },
    };
    let start = lines[0];
    let end = lines[1];
    let mut part: Vec<String> = Vec::new();
    let mut i: usize = start - 1;
    while i < end
        invariant
            all == text::texts(list@),
            1 <= start,
            start - 1 <= i <= end <= list.len(),
            part.len() == i - (start - 1),
            forall|j: int| 0 <= j < part.len() ==> (#[trigger] part@[j])@ == all[start - 1 + j],
        decreases end - i,
    {
        assert(all[i as int] == list@[i as int]@);
        part.push(list[i].clone());
        i += 1;
    }
    assert(text::texts(part@) =~= all.subrange(start - 1, end as int));
    (lines, text::joined(&part, "\n"))
}

/// The context of a chunk holds the chunk, as far as the file still does.
pub proof fn context_holds_the_chunk(r: Record, n: int, count: int)
    requires
        0 <= n,
        1 <= r.start_line,
    ensures
        1 <= context_start(r.start_line as int, n) <= r.start_line,
        r.end_line <= count ==> r.end_line <= context_end(r.end_line as int, n, count) <= count,
        r.end_line > count ==> context_end(r.end_line as int, n, count) == count,
{
}

/// Keyword search alone needs no embedding model.
pub proof fn keyword_search_alone_needs_no_embedder(mode: RetrievalMode, r: bool)
    requires
        call_ensures(needs_embedder, (mode,), r),
    ensures
        r <==> mode == RetrievalMode::Dense || mode == RetrievalMode::Hybrid,
{
}

/// What a call names takes the place of what is configured, and nothing else changes.
pub proof fn overrides_change_nothing_else(
    cfg: Config,
    path: Vec<String>,
    model: Option<String>,
    r: Config,
)
    requires
        call_ensures(with_overrides, (cfg, path, model), r),
    ensures
        path@.len() > 0 ==> r.sources == path,
        path@.len() == 0 ==> r.sources == cfg.sources,
        model is Some ==> r.model == model->0,
        model is None ==> r.model == cfg.model,
        r.rerank == cfg.rerank && r.reranker == cfg.reranker && r.top_k == cfg.top_k && r.retrieve_n
            == cfg.retrieve_n && r.min_score == cfg.min_score && r.retrieval == cfg.retrieval
            && r.rrf_k == cfg.rrf_k && r.max_per_file == cfg.max_per_file && r.chunk == cfg.chunk,
{
}

/// A reranker is loaded if and only if reranking is on in the settings and not turned off
/// by the call, and a call's choice goes before the configured one.
pub proof fn rerankers_are_loaded_when_wanted(
    cfg: &Config,
    no_rerank: bool,
    asked: &Option<String>,
    r: Option<String>,
)
    requires
        call_ensures(reranker_of, (cfg, no_rerank, asked), r),
    ensures
        r is Some <==> cfg.rerank && !no_rerank,
        r is Some && *asked is Some ==> (r->0)@ == ((*asked)->0)@,
        r is Some && *asked is None ==> (r->0)@ == cfg.reranker@,
{
}

/// What a call asks for goes before what is configured. No results at all is an error.
pub proof fn calls_go_before_settings(
    cfg: &Config,
    mode: Option<RetrievalMode>,
    m: RetrievalMode,
    limit: Option<usize>,
    n: Result<usize, ZeroLimit>,
)
    requires
        call_ensures(mode_of, (cfg, mode), m),
        call_ensures(limit_of, (cfg, limit), n),
    ensures
        mode is Some ==> m == mode->0,
        mode is None ==> m == cfg.retrieval,
        limit is Some && limit->0 > 0 ==> n == Ok::<usize, ZeroLimit>(limit->0),
        limit is None && cfg.top_k > 0 ==> n == Ok::<usize, ZeroLimit>(cfg.top_k),
        limit == Some(0usize) || (limit is None && cfg.top_k == 0) ==> n is Err,
{
}

/// A search asks for what the call says, and for the rest what is configured. It reads at
/// least as many candidates as it shows results.
pub proof fn searches_follow_the_call(
    cfg: &Config,
    options: &SearchOptions,
    query: &str,
    r: Result<SearchParams, ZeroLimit>,
)
    requires
        call_ensures(search_params, (cfg, options, query), r),
    ensures
        r is Err <==> options.limit == Some(0usize) || (options.limit is None && cfg.top_k == 0),
        r is Ok ==> {
            let p = r->Ok_0;
            &&& p.query@ == query@
            &&& options.limit is Some ==> p.top_k == options.limit->0
            &&& options.limit is None ==> p.top_k == cfg.top_k
            &&& p.retrieve_n >= p.top_k && p.retrieve_n >= cfg.retrieve_n
            &&& p.retrieve_n == p.top_k || p.retrieve_n == cfg.retrieve_n
            &&& p.rerank <==> cfg.rerank && !options.no_rerank
            &&& options.retrieval is Some ==> p.retrieval == options.retrieval->0
            &&& options.retrieval is None ==> p.retrieval == cfg.retrieval
            &&& p.min_score == cfg.min_score && p.rrf_k == cfg.rrf_k && p.max_per_file
                == cfg.max_per_file
            &&& p.langs is Some <==> options.lang is Some
            &&& p.path_prefix is Some <==> options.path_prefix is Some
            &&& p.source is Some <==> options.source is Some
            &&& p.langs is Some ==> text::texts((p.langs->0)@) == text::texts((options.lang->0)@)
            &&& p.path_prefix is Some ==> (p.path_prefix->0)@ == (options.path_prefix->0)@
            &&& p.source is Some ==> (p.source->0)@ == (options.source->0)@
        },
{
}

/// An evaluation takes its settings as a search does, and a cutoff above zero.
pub proof fn evaluations_follow_the_settings(
    cfg: &Config,
    k: usize,
    no_rerank: bool,
    retrieval: Option<RetrievalMode>,
    r: Result<EvalOpts, ZeroLimit>,
)
    requires
        call_ensures(eval_opts, (cfg, k, no_rerank, retrieval), r),
    ensures
        r is Err <==> k == 0,
        r is Ok ==> {
            let o = r->Ok_0;
            &&& o.k == k && o.retrieve_n == cfg.retrieve_n && o.min_score == cfg.min_score && o.rrf_k
                == cfg.rrf_k
            &&& o.rerank <==> cfg.rerank && !no_rerank
            &&& retrieval is Some ==> o.retrieval == retrieval->0
            &&& retrieval is None ==> o.retrieval == cfg.retrieval
        },
{
}

/// The lexical channel is there for every mode but the dense one.
pub proof fn lexical_modes_have_the_channel(
    index: &Index,
    mode: RetrievalMode,
    include_structural: bool,
    r: Result<Option<LexicalIndex>, EmptyChannel>,
)
    requires
        call_ensures(build_lexical, (index, mode, include_structural), r),
    ensures
        mode == RetrievalMode::Dense ==> r is Ok && r->Ok_0 is None,
        mode != RetrievalMode::Dense && r is Ok ==> r->Ok_0 is Some,
        mode != RetrievalMode::Dense ==> (r is Err <==> forall|k: int|
            0 <= k < index.records@.len() ==> lexical::record_tokens(
                #[trigger] index.records@[k],
                include_structural,
            ).len() == 0),
{
    let docs = lexical::documents(index.records@, include_structural);
    assert forall|k: int| 0 <= k < index.records@.len() implies docs[k] == lexical::record_tokens(
        #[trigger] index.records@[k],
        include_structural,
    ) by {}
    if mode != RetrievalMode::Dense {
        if lexical::no_terms(docs) {
            assert forall|k: int| 0 <= k < index.records@.len() implies lexical::record_tokens(
                #[trigger] index.records@[k],
                include_structural,
            ).len() == 0 by {
                assert(docs[k].len() == 0);
            }
        } else {
            let d = choose|d: int| 0 <= d < docs.len() && (#[trigger] docs[d]).len() != 0;
            assert(lexical::record_tokens(index.records@[d], include_structural).len() != 0);
        }
    }
}

/// A line of a batch is a query but for the white space around it, unless that is all.
pub proof fn batch_lines_are_queries(
    before: Seq<char>,
    query: Seq<char>,
    behind: Seq<char>,
    line: &str,
    r: Option<String>,
)
    requires
        call_ensures(batch_query, (line,), r),
        line@ == before + query + behind,
        text::all_white(before) && text::all_white(behind),
        query.len() > 0 ==> !text::white_space(query[0]) && !text::white_space(query.last()),
    ensures
        query.len() == 0 ==> r is None,
        query.len() > 0 ==> r is Some && (r->0)@ == query,
{
    if query.len() == 0 {
        config::lemma_blank(line@);
        assert forall|i: int| 0 <= i < line@.len() implies text::white_space(
            #[trigger] line@[i],
        ) by {
            if i < before.len() {
                assert(line@[i] == before[i]);
            } else {
                assert(line@[i] == behind[i - before.len()]);
            }
        }
    } else {
        text::lemma_trims_to(before, query, behind);
    }
}

/// A chunk in its context starts as many lines before it as were asked for, or with the
/// file, and ends as many behind it, or with the file. Nothing is shown of a file that
/// ends before that.
pub proof fn contexts_reach_so_many_lines(
    r: &Record,
    n: usize,
    count: usize,
    out: Option<[usize; 2]>,
)
    requires
        call_ensures(context_range, (r, n, count), out),
    ensures
        out is Some ==> {
            let (a, b) = ((out->0)@[0], (out->0)@[1]);
            &&& 1 <= a <= b <= count
            &&& a == 1 || a == r.start_line - n
            &&& a + n >= r.start_line
            &&& b == count || b == r.end_line + n
            &&& b <= r.end_line + n
            &&& r.start_line > n ==> a == r.start_line - n
            &&& r.end_line + n <= count ==> b == r.end_line + n
        },
        out is None <==> (if r.start_line > n {
            r.start_line - n
        } else {
            1int
        }) > (if r.end_line + n < count {
            r.end_line + n
        } else {
            count as int
        }),
{
}

/// What is shown of a chunk in its context are the lines of the file from the first to
/// the last, each as it is, with line feeds between. A chunk that its file no longer
/// reaches is shown as it was stored.
pub proof fn contexts_show_the_lines(
    r: &Record,
    content: &str,
    n: usize,
    out: ([usize; 2], String),
) -> (shown: Seq<Seq<char>>)
    requires
        call_ensures(read_with_context, (r, content, n), out),
        text::lines(content@).len() <= usize::MAX,
    ensures
        reaches_context(*r, n as int, text::lines(content@).len() as int) ==> {
            &&& 1 <= out.0@[0] <= out.0@[1] <= text::lines(content@).len()
            &&& shown.len() == out.0@[1] - out.0@[0] + 1
            &&& forall|i: int|
                0 <= i < shown.len() ==> #[trigger] shown[i] == text::lines(content@)[out.0@[0] - 1
                    + i]
            &&& out.1@ == text::join(shown, seq!['\n'])
        },
        !reaches_context(*r, n as int, text::lines(content@).len() as int) ==> out.0@ == seq![
            r.start_line,
            r.end_line,
        ] && out.1@ == r.text@,
{
    reveal_strlit("\n");
    assert("\n"@ =~= seq!['\n']);
    let all = text::lines(content@);
    let got = with_context(*r, content@, n as int);
    assert(out.0@ == got.0 && out.1@ == got.1);
    let start = context_start(r.start_line as int, n as int);
    let end = context_end(r.end_line as int, n as int, all.len() as int);
    all.subrange(start - 1, end)
}

/// The config file is the one that the call names, or else the usual one.
pub proof fn calls_name_their_config(c: &Cli, r: String)
    requires
        call_ensures(Cli::config_path, (c,), r),
    ensures
        c.config is Some ==> r@ == (c.config->0)@,
        c.config is None ==> r@ == ".rag-bone.toml"@,
{
}

/// The options of a search are those of the command, and no other command has them.
pub proof fn searches_keep_their_options(c: Command, r: Option<SearchOptions>)
    requires
        call_ensures(Command::search_options, (c,), r),
    ensures
        r is Some <==> c is Search || c is SearchBatch,
        c is Search ==> {
            let o = r->0;
            &&& o.limit == c->Search_limit && o.no_rerank == c->Search_no_rerank
            &&& o.reranker == c->Search_reranker && o.retrieval == c->Search_retrieval
            &&& o.lang == c->Search_lang && o.path_prefix == c->Search_path_prefix
            &&& o.source == c->Search_source
        },
        c is SearchBatch ==> {
            let o = r->0;
            &&& o.limit == c->SearchBatch_limit && o.no_rerank == c->SearchBatch_no_rerank
            &&& o.reranker == c->SearchBatch_reranker && o.retrieval == c->SearchBatch_retrieval
            &&& o.lang == c->SearchBatch_lang && o.path_prefix == c->SearchBatch_path_prefix
            &&& o.source == c->SearchBatch_source
        },
{
}

} // verus!
