//! Languages, and the splitting of a source file into chunks.

use crate::config::ChunkConfig;
use crate::path;
use crate::text;
use vstd::prelude::*;

verus! {

/// A retrievable part of a source file, with its lines from one and its bytes from
/// zero.
#[derive(Debug, Clone)]
pub struct Chunk {
    pub text: String,
    pub start_line: usize,
    pub end_line: usize,
    pub start_byte: usize,
    pub end_byte: usize,
}

/// Source language, by file extension.
#[derive(Debug, Clone, Copy, PartialEq, Eq, Structural)]
pub enum Lang {
    Markdown,
    Rust,
    Python,
    JavaScript,
    TypeScript,
    Go,
    Java,
    Cpp,
    C,
    Text,
}

/// A grammar that code is parsed with.
#[derive(Debug, Clone, Copy, PartialEq, Eq, Structural)]
pub enum Grammar {
    Rust,
    Python,
    JavaScript,
    TypeScript,
    Go,
    Java,
    Cpp,
    C,
}

/// The language of an extension in small letters.
pub open spec fn lang_of_extension(ext: Seq<char>) -> Option<Lang> {
    if ext == "md"@ || ext == "markdown"@ || ext == "mdx"@ {
        Some(Lang::Markdown)
    } else if ext == "rs"@ {
        Some(Lang::Rust)
    } else if ext == "py"@ || ext == "pyi"@ {
        Some(Lang::Python)
    } else if ext == "js"@ || ext == "mjs"@ || ext == "cjs"@ || ext == "jsx"@ {
        Some(Lang::JavaScript)
    } else if ext == "ts"@ || ext == "tsx"@ || ext == "mts"@ || ext == "cts"@ {
        Some(Lang::TypeScript)
    } else if ext == "go"@ {
        Some(Lang::Go)
    } else if ext == "java"@ {
        Some(Lang::Java)
    } else if ext == "cpp"@ || ext == "cc"@ || ext == "cxx"@ || ext == "hpp"@ || ext == "hh"@
        || ext == "hxx"@ {
        Some(Lang::Cpp)
    } else if ext == "c"@ || ext == "h"@ {
        Some(Lang::C)
    } else if ext == "txt"@ || ext == "text"@ || ext == "rst"@ || ext == "adoc"@ {
        Some(Lang::Text)
    } else {
        None
    }
}

/// The language of a path, if it is supported; capitals in the extension do not
/// matter.
pub open spec fn lang_of_path(p: Seq<char>) -> Option<Lang> {
    match path::extension(p) {
        None => None,
        Some(ext) => lang_of_extension(text::ascii_lower(ext)),
    }
}

/// The name of a language.
pub open spec fn lang_name(lang: Lang) -> Seq<char> {
    match lang {
        Lang::Markdown => "md"@,
        Lang::Rust => "rust"@,
        Lang::Python => "python"@,
        Lang::JavaScript => "javascript"@,
        Lang::TypeScript => "typescript"@,
        Lang::Go => "go"@,
        Lang::Java => "java"@,
        Lang::Cpp => "cpp"@,
        Lang::C => "c"@,
        Lang::Text => "text"@,
    }
}

/// The grammar of a code language; prose has none.
pub open spec fn lang_grammar(lang: Lang) -> Option<Grammar> {
    match lang {
        Lang::Rust => Some(Grammar::Rust),
        Lang::Python => Some(Grammar::Python),
        Lang::JavaScript => Some(Grammar::JavaScript),
        Lang::TypeScript => Some(Grammar::TypeScript),
        Lang::Go => Some(Grammar::Go),
        Lang::Java => Some(Grammar::Java),
        Lang::Cpp => Some(Grammar::Cpp),
        Lang::C => Some(Grammar::C),
        Lang::Markdown => None,
        Lang::Text => None,
    }
}

impl Lang {
    /// The language of a path, or `None` if it is not supported.
    pub fn from_path(p: &str) -> (r: Option<Lang>)
        ensures
            r == lang_of_path(p@),
    {
        let ext = match path::extension_of(p) {
            Some(e) => text::ascii_lowered(e.as_str()),
            None => {
                return None;
            },
        };
        let e = ext.as_str();
        if text::same_text(e, "md") || text::same_text(e, "markdown") || text::same_text(e, "mdx") {
            Some(Lang::Markdown)
        } else if text::same_text(e, "rs") {
            Some(Lang::Rust)
        } else if text::same_text(e, "py") || text::same_text(e, "pyi") {
            Some(Lang::Python)
        } else if text::same_text(e, "js") || text::same_text(e, "mjs") || text::same_text(e, "cjs")
            || text::same_text(e, "jsx") {
            Some(Lang::JavaScript)
        } else if text::same_text(e, "ts") || text::same_text(e, "tsx") || text::same_text(e, "mts")
            || text::same_text(e, "cts") {
            Some(Lang::TypeScript)
        } else if text::same_text(e, "go") {
            Some(Lang::Go)
        } else if text::same_text(e, "java") {
            Some(Lang::Java)
        } else if text::same_text(e, "cpp") || text::same_text(e, "cc") || text::same_text(e, "cxx")
            || text::same_text(e, "hpp") || text::same_text(e, "hh") || text::same_text(e, "hxx") {
            Some(Lang::Cpp)
        } else if text::same_text(e, "c") || text::same_text(e, "h") {
            Some(Lang::C)
        } else if text::same_text(e, "txt") || text::same_text(e, "text") || text::same_text(
            e,
            "rst",
        ) || text::same_text(e, "adoc") {
            Some(Lang::Text)
        } else {
            None
        }
    }

    /// Stable short name, as used in output and filters.
    pub fn name(self) -> (r: &'static str)
        ensures
            r@ == lang_name(self),
    {
        match self {
            Lang::Markdown => "md",
            Lang::Rust => "rust",
            Lang::Python => "python",
            Lang::JavaScript => "javascript",
            Lang::TypeScript => "typescript",
            Lang::Go => "go",
            Lang::Java => "java",
            Lang::Cpp => "cpp",
            Lang::C => "c",
            Lang::Text => "text",
        }
    }

    /// The grammar that the language is parsed with.
    pub fn grammar(self) -> (r: Option<Grammar>)
        ensures
            r == lang_grammar(self),
    {
        match self {
            Lang::Rust => Some(Grammar::Rust),
            Lang::Python => Some(Grammar::Python),
            Lang::JavaScript => Some(Grammar::JavaScript),
            Lang::TypeScript => Some(Grammar::TypeScript),
            Lang::Go => Some(Grammar::Go),
            Lang::Java => Some(Grammar::Java),
            Lang::Cpp => Some(Grammar::Cpp),
            Lang::C => Some(Grammar::C),
            Lang::Markdown => None,
            Lang::Text => None,
        }
    }
}

// ---------------------------------------------------------------------------
// Splitting
// ---------------------------------------------------------------------------

/// A range of bytes in a text.
#[derive(Debug, Clone, Copy, PartialEq, Eq, Structural)]
pub struct Span {
    pub start: usize,
    pub len: usize,
}

/// Whether a span cuts a text between characters.
pub open spec fn span_fits(content: Seq<char>, s: Span) -> bool {
    &&& s.start + s.len <= vstd::utf8::encode_utf8(content).len()
    &&& text::boundary(content, s.start as int)
    &&& text::boundary(content, s.start + s.len)
}

/// Whether all spans cut a text between characters.
pub open spec fn spans_fit(content: Seq<char>, spans: Seq<Span>) -> bool {
    forall|i: int| 0 <= i < spans.len() ==> span_fits(content, #[trigger] spans[i])
}

/// Whether no span is empty, and each ends behind the one before.
pub open spec fn spans_advance(spans: Seq<Span>) -> bool {
    &&& forall|i: int| 0 <= i < spans.len() ==> (#[trigger] spans[i]).len > 0
    &&& forall|i: int, j: int|
        0 <= i < j < spans.len() ==> (#[trigger] spans[i]).start + spans[i].len < (
        #[trigger] spans[j]).start + spans[j].len
}

/// Whether no span has more characters than the budget.
pub open spec fn spans_within(content: Seq<char>, spans: Seq<Span>, max_chars: usize) -> bool {
    forall|i: int|
        0 <= i < spans.len() ==> #[trigger] span_text(content, spans[i]).len() <= max_chars
}

/// The text under a span.
pub open spec fn span_text(content: Seq<char>, s: Span) -> Seq<char> {
    text::byte_slice(content, s.start as int, s.start + s.len)
}

/// Whether no span starts before the one before it.
pub open spec fn starts_rise(spans: Seq<Span>) -> bool {
    forall|i: int, j: int|
        0 <= i < j < spans.len() ==> (#[trigger] spans[i]).start <= (#[trigger] spans[j]).start
}

/// Whether each span starts at or behind the end of the one before.
pub open spec fn spans_apart(spans: Seq<Span>) -> bool {
    forall|i: int, j: int|
        0 <= i < j < spans.len() ==> (#[trigger] spans[i]).start + spans[i].len <= (
        #[trigger] spans[j]).start
}

/// The spans that the code splitter cuts a text into, or `None` when it cannot be
/// built for the grammar.
pub uninterp spec fn code_spans(
    grammar: Grammar,
    content: Seq<char>,
    max_chars: usize,
    overlap: usize,
) -> Option<Seq<Span>>;

/// The spans that the Markdown splitter cuts a text into.
pub uninterp spec fn markdown_spans(
    content: Seq<char>,
    max_chars: usize,
    overlap: usize,
) -> Seq<Span>;

/// The spans that the text splitter cuts a text into.
pub uninterp spec fn text_spans(content: Seq<char>, max_chars: usize, overlap: usize) -> Seq<Span>;

/// `text_splitter::CodeSplitter::chunk_indices`, on a splitter for the grammar with
/// a character budget and an overlap. Which spans it gives depends on these and the text
/// alone; each is a slice of the text that keeps within the budget, none is empty, and
/// each ends behind the one before, or starts there where there is no overlap. With an
/// overlap a span can start before the one before it. There is no splitter when the grammar is not
/// compatible with the parser, whose byte offsets have 32 bits.
#[verifier::external_body]
fn split_code(grammar: Grammar, content: &str, max_chars: usize, overlap: usize) -> (r: Option<
    Vec<Span>,
>)
    requires
        overlap < max_chars,
        vstd::utf8::encode_utf8(content@).len() <= u32::MAX,
    ensures
        match r {
            Some(v) => code_spans(grammar, content@, max_chars, overlap) == Some(v@) && spans_fit(
                content@,
                v@,
            ) && spans_advance(v@) && spans_within(content@, v@, max_chars) && (overlap == 0
                ==> spans_apart(v@)),
            None => code_spans(grammar, content@, max_chars, overlap) is None,
        },
{
    let language = match grammar {
        Grammar::Rust => tree_sitter_rust::LANGUAGE,
        Grammar::Python => tree_sitter_python::LANGUAGE,
        Grammar::JavaScript => tree_sitter_javascript::LANGUAGE,
        Grammar::TypeScript => tree_sitter_typescript::LANGUAGE_TYPESCRIPT,
        Grammar::Go => tree_sitter_go::LANGUAGE,
        Grammar::Java => tree_sitter_java::LANGUAGE,
        Grammar::Cpp => tree_sitter_cpp::LANGUAGE,
        Grammar::C => tree_sitter_c::LANGUAGE,
    };
    let config = text_splitter::ChunkConfig::new(max_chars).with_overlap(overlap).ok()?;
    let splitter = text_splitter::CodeSplitter::new(language, config).ok()?;
    Some(splitter.chunk_indices(content).map(|(start, s)| Span { start, len: s.len() }).collect())
}

/// `text_splitter::MarkdownSplitter::chunk_indices`, with a character budget and an
/// overlap. Which spans it gives depends on these and the text alone; each is a
/// slice of the text that keeps within the budget, none is empty, and each ends behind
/// the one before, or starts there where there is no overlap. With an overlap a span can
/// start before the one before it.
#[verifier::external_body]
fn split_markdown(content: &str, max_chars: usize, overlap: usize) -> (r: Vec<Span>)
    requires
        overlap < max_chars,
    ensures
        r@ == markdown_spans(content@, max_chars, overlap),
        spans_fit(content@, r@),
        spans_advance(r@),
        spans_within(content@, r@, max_chars),
        overlap == 0 ==> spans_apart(r@),
{
    let config = text_splitter::ChunkConfig::new(max_chars).with_overlap(overlap).unwrap();
    let splitter = text_splitter::MarkdownSplitter::new(config);
    splitter.chunk_indices(content).map(|(start, s)| Span { start, len: s.len() }).collect()
}

/// `text_splitter::TextSplitter::chunk_indices`, with a character budget and an
/// overlap. Which spans it gives depends on these and the text alone; each is a
/// slice of the text that keeps within the budget, none is empty, and each ends behind
/// the one before, or starts there where there is no overlap. As all white space around a span is cut off, none starts before the
/// one before it either.
#[verifier::external_body]
fn split_text(content: &str, max_chars: usize, overlap: usize) -> (r: Vec<Span>)
    requires
        overlap < max_chars,
    ensures
        r@ == text_spans(content@, max_chars, overlap),
        spans_fit(content@, r@),
        spans_advance(r@),
        spans_within(content@, r@, max_chars),
        starts_rise(r@),
        overlap == 0 ==> spans_apart(r@),
{
    let config = text_splitter::ChunkConfig::new(max_chars).with_overlap(overlap).unwrap();
    let splitter = text_splitter::TextSplitter::new(config);
    splitter.chunk_indices(content).map(|(start, s)| Span { start, len: s.len() }).collect()
}

/// Whether a text of a language can be split and described: its offsets have to fit, and
/// those of code have 32 bits.
pub open spec fn fits_offsets(lang: Lang, content: Seq<char>) -> bool {
    let size = vstd::utf8::encode_utf8(content).len();
    &&& size < usize::MAX
    &&& lang_grammar(lang) is Some ==> size <= u32::MAX
}

/// Why a file could not be split.
#[derive(Debug, Clone, Copy, PartialEq, Eq, Structural)]
pub enum ChunkError {
    /// The overlap is not smaller than the budget.
    OverlapTooLarge,
    /// The grammar is not compatible with the parser.
    NoCodeSplitter,
}

/// The spans of a file: by its grammar for code, else as Markdown or plain text.
pub open spec fn spans_of(content: Seq<char>, lang: Lang, cfg: ChunkConfig) -> Result<
    Seq<Span>,
    ChunkError,
> {
    if cfg.overlap >= cfg.max_chars {
        Err(ChunkError::OverlapTooLarge)
    } else {
        match lang_grammar(lang) {
            Some(g) => match code_spans(g, content, cfg.max_chars, cfg.overlap) {
                Some(spans) => Ok(spans),
                None => Err(ChunkError::NoCodeSplitter),
            },
            None => if lang == Lang::Markdown {
                Ok(markdown_spans(content, cfg.max_chars, cfg.overlap))
            } else {
                Ok(text_spans(content, cfg.max_chars, cfg.overlap))
            },
        }
    }
}

/// Number of line feeds among bytes.
pub open spec fn newlines(bytes: Seq<u8>) -> nat
    decreases bytes.len(),
{
    if bytes.len() == 0 {
        0
    } else {
        newlines(bytes.drop_last()) + if bytes.last() == 10 {
            1nat
        } else {
            0nat
        }
    }
}

/// Whether a chunk is the part of a text under a span, with its lines counted.
pub open spec fn cut_by(content: Seq<char>, s: Span, c: Chunk) -> bool {
    let bytes = vstd::utf8::encode_utf8(content);
    let part = bytes.subrange(s.start as int, s.start + s.len);
    &&& c.start_byte == s.start
    &&& c.end_byte == s.start + s.len
    &&& vstd::utf8::encode_utf8(c.text@) == part
    &&& c.start_line == 1 + newlines(bytes.take(s.start as int))
    &&& c.end_line == c.start_line + newlines(part)
}

/// Whether `list` holds the chunks under the spans, in order.
pub open spec fn cut_into(content: Seq<char>, spans: Seq<Span>, list: Seq<Chunk>) -> bool {
    &&& list.len() == spans.len()
    &&& forall|i: int| 0 <= i < list.len() ==> cut_by(content, spans[i], #[trigger] list[i])
}

fn count_newlines(bytes: &[u8], lo: usize, hi: usize) -> (r: usize)
    requires
        lo <= hi <= bytes@.len(),
    ensures
        r == newlines(bytes@.subrange(lo as int, hi as int)),
        r <= hi - lo,
{
    let mut n: usize = 0;
    let mut i = lo;
    assert(newlines(bytes@.subrange(lo as int, lo as int)) == 0);
    while i < hi
        invariant
            lo <= i <= hi <= bytes@.len(),
            n == newlines(bytes@.subrange(lo as int, i as int)),
            n <= i - lo,
        decreases hi - i,
    {
        let ghost next = bytes@.subrange(lo as int, i + 1);
        assert(next.drop_last() =~= bytes@.subrange(lo as int, i as int));
        assert(next.last() == bytes@[i as int]);
        if bytes[i] == 10 {
            n += 1;
        }
        i += 1;
    }
    n
}

/// The chunks of a text under given spans.
pub fn cut_spans(content: &str, spans: &Vec<Span>) -> (r: Vec<Chunk>)
    requires
        spans_fit(content@, spans@),
        vstd::utf8::encode_utf8(content@).len() < usize::MAX,
    ensures
        cut_into(content@, spans@, r@),
{
    let bytes = content.as_bytes();
    let mut out: Vec<Chunk> = Vec::new();
    let mut i: usize = 0;
    while i < spans.len()
        invariant
            spans_fit(content@, spans@),
            bytes@ == vstd::utf8::encode_utf8(content@),
            bytes@.len() < usize::MAX,
            i <= spans.len(),
            out.len() == i,
            forall|j: int| 0 <= j < i ==> cut_by(content@, spans@[j], #[trigger] out@[j]),
        decreases spans.len() - i,
    {
        let s = spans[i];
        assert(span_fits(content@, spans@[i as int]));
        let end = s.start + s.len;
        let part = text::slice_bytes(content, s.start, end);
        let before = count_newlines(bytes, 0, s.start);
        let inside = count_newlines(bytes, s.start, end);
        assert(bytes@.subrange(0, s.start as int) =~= bytes@.take(s.start as int));
        let start_line = 1 + before;
        let c = Chunk {
            text: part,
            start_line,
            end_line: start_line + inside,
            start_byte: s.start,
            end_byte: end,
        };
        out.push(c);
        i += 1;
    }
    out
}

/// Splits a file into chunks on the boundaries of its language.
pub fn chunk_file(content: &str, lang: Lang, cfg: &ChunkConfig) -> (r: Result<
    Vec<Chunk>,
    ChunkError,
>)
    requires
        cfg.max_chars > 0,
        fits_offsets(lang, content@),
    ensures
        match spans_of(content@, lang, *cfg) {
            Ok(spans) => {
                &&& r is Ok
                &&& cut_into(content@, spans, r->Ok_0@)
                &&& spans_fit(content@, spans)
                &&& spans_advance(spans)
                &&& spans_within(content@, spans, cfg.max_chars)
                &&& lang == Lang::Text ==> starts_rise(spans)
                &&& cfg.overlap == 0 ==> spans_apart(spans)
            },
            Err(e) => r == Err::<Vec<Chunk>, ChunkError>(e),
        },
{
    if cfg.overlap >= cfg.max_chars {
        return Err(ChunkError::OverlapTooLarge);
    }
    let spans = match lang.grammar() {
        Some(g) => match split_code(g, content, cfg.max_chars, cfg.overlap) {
            Some(spans) => spans,
            None => {
                return Err(ChunkError::NoCodeSplitter);
            },
        },
        None => if lang == Lang::Markdown {
            split_markdown(content, cfg.max_chars, cfg.overlap)
        } else {
            split_text(content, cfg.max_chars, cfg.overlap)
        },
    };
    Ok(cut_spans(content, &spans))
}

/// A chunk never ends before it starts, neither in lines nor in bytes, and its
/// lines count from one.
pub proof fn chunk_lines_are_ordered(content: Seq<char>, s: Span, c: Chunk)
    requires
        cut_by(content, s, c),
    ensures
        1 <= c.start_line <= c.end_line,
        c.start_byte <= c.end_byte,
{
}

/// The bytes that a chunk covers are its own: no two chunks of a file cover the same.
pub proof fn chunk_ranges_are_unique(
    content: Seq<char>,
    spans: Seq<Span>,
    list: Seq<Chunk>,
    i: int,
    j: int,
)
    requires
        spans_advance(spans),
        cut_into(content, spans, list),
        0 <= i < j < list.len(),
    ensures
        list[i].end_byte < list[j].end_byte,
        list[i].start_byte < list[i].end_byte,
{
    assert(cut_by(content, spans[i], list[i]));
    assert(cut_by(content, spans[j], list[j]));
}

/// Where no overlap is asked for, no two chunks of a file share a byte, and they come in
/// the order in which they stand in it.
pub proof fn chunks_stay_apart_without_overlap(
    content: Seq<char>,
    spans: Seq<Span>,
    list: Seq<Chunk>,
    i: int,
    j: int,
)
    requires
        spans_apart(spans),
        cut_into(content, spans, list),
        0 <= i < j < list.len(),
    ensures
        list[i].end_byte <= list[j].start_byte,
        list[i].start_byte <= list[j].start_byte,
{
    assert(cut_by(content, spans[i], list[i]));
    assert(cut_by(content, spans[j], list[j]));
}

/// A chunk never has more characters than the budget.
pub proof fn chunks_keep_within_the_budget(
    content: Seq<char>,
    spans: Seq<Span>,
    list: Seq<Chunk>,
    max_chars: usize,
    i: int,
)
    requires
        spans_within(content, spans, max_chars),
        cut_into(content, spans, list),
        0 <= i < list.len(),
    ensures
        list[i].text@.len() <= max_chars,
{
    assert(cut_by(content, spans[i], list[i]));
    assert(span_text(content, spans[i]).len() <= max_chars);
    vstd::utf8::encode_utf8_decode_utf8(list[i].text@);
}

/// Each extension stands for its language.
pub proof fn extensions_tell_languages()
    ensures
        lang_of_extension("md"@) == Some(Lang::Markdown),
        lang_of_extension("markdown"@) == Some(Lang::Markdown),
        lang_of_extension("mdx"@) == Some(Lang::Markdown),
        lang_of_extension("rs"@) == Some(Lang::Rust),
        lang_of_extension("py"@) == Some(Lang::Python),
        lang_of_extension("pyi"@) == Some(Lang::Python),
        lang_of_extension("js"@) == Some(Lang::JavaScript),
        lang_of_extension("mjs"@) == Some(Lang::JavaScript),
        lang_of_extension("cjs"@) == Some(Lang::JavaScript),
        lang_of_extension("jsx"@) == Some(Lang::JavaScript),
        lang_of_extension("ts"@) == Some(Lang::TypeScript),
        lang_of_extension("tsx"@) == Some(Lang::TypeScript),
        lang_of_extension("mts"@) == Some(Lang::TypeScript),
        lang_of_extension("cts"@) == Some(Lang::TypeScript),
        lang_of_extension("go"@) == Some(Lang::Go),
        lang_of_extension("java"@) == Some(Lang::Java),
        lang_of_extension("cpp"@) == Some(Lang::Cpp),
        lang_of_extension("cc"@) == Some(Lang::Cpp),
        lang_of_extension("cxx"@) == Some(Lang::Cpp),
        lang_of_extension("hpp"@) == Some(Lang::Cpp),
        lang_of_extension("hh"@) == Some(Lang::Cpp),
        lang_of_extension("hxx"@) == Some(Lang::Cpp),
        lang_of_extension("c"@) == Some(Lang::C),
        lang_of_extension("h"@) == Some(Lang::C),
        lang_of_extension("txt"@) == Some(Lang::Text),
        lang_of_extension("text"@) == Some(Lang::Text),
        lang_of_extension("rst"@) == Some(Lang::Text),
        lang_of_extension("adoc"@) == Some(Lang::Text),
{
    reveal_strlit("md");
    reveal_strlit("markdown");
    reveal_strlit("mdx");
    reveal_strlit("rs");
    reveal_strlit("py");
    reveal_strlit("pyi");
    reveal_strlit("js");
    reveal_strlit("mjs");
    reveal_strlit("cjs");
    reveal_strlit("jsx");
    reveal_strlit("ts");
    reveal_strlit("tsx");
    reveal_strlit("mts");
    reveal_strlit("cts");
    reveal_strlit("go");
    reveal_strlit("java");
    reveal_strlit("cpp");
    reveal_strlit("cc");
    reveal_strlit("cxx");
    reveal_strlit("hpp");
    reveal_strlit("hh");
    reveal_strlit("hxx");
    reveal_strlit("c");
    reveal_strlit("h");
    reveal_strlit("txt");
    reveal_strlit("text");
    reveal_strlit("rst");
    reveal_strlit("adoc");
    assert("md"@.len() == 2);
    assert("markdown"@.len() == 8);
    assert("mdx"@.len() == 3);
    assert("rs"@.len() == 2);
    assert("py"@.len() == 2);
    assert("pyi"@.len() == 3);
    assert("js"@.len() == 2);
    assert("mjs"@.len() == 3);
    assert("cjs"@.len() == 3);
    assert("jsx"@.len() == 3);
    assert("ts"@.len() == 2);
    assert("tsx"@.len() == 3);
    assert("mts"@.len() == 3);
    assert("cts"@.len() == 3);
    assert("go"@.len() == 2);
    assert("java"@.len() == 4);
    assert("cpp"@.len() == 3);
    assert("cc"@.len() == 2);
    assert("cxx"@.len() == 3);
    assert("hpp"@.len() == 3);
    assert("hh"@.len() == 2);
    assert("hxx"@.len() == 3);
    assert("c"@.len() == 1);
    assert("h"@.len() == 1);
    assert("txt"@.len() == 3);
    assert("text"@.len() == 4);
    assert("rst"@.len() == 3);
    assert("adoc"@.len() == 4);
    assert("md"@[0] == 'm');
    assert("rs"@[0] == 'r');
    assert("py"@[0] == 'p');
    assert("js"@[0] == 'j');
    assert("ts"@[0] == 't');
    assert("go"@[0] == 'g');
    assert("cc"@[0] == 'c');
    assert("hh"@[0] == 'h');
    assert("mdx"@[0] == 'm');
    assert("pyi"@[0] == 'p');
    assert("mdx"@[1] == 'd');
    assert("mjs"@[1] == 'j');
    assert("cjs"@[0] == 'c');
    assert("jsx"@[0] == 'j');
    assert("tsx"@[0] == 't');
    assert("mts"@[1] == 't');
    assert("cts"@[0] == 'c');
    assert("cpp"@[0] == 'c');
    assert("cxx"@[0] == 'c');
    assert("hpp"@[0] == 'h');
    assert("hxx"@[0] == 'h');
    assert("txt"@[0] == 't');
    assert("rst"@[0] == 'r');
    assert("mjs"@[0] == 'm');
    assert("mts"@[0] == 'm');
    assert("cjs"@[1] == 'j');
    assert("cts"@[1] == 't');
    assert("cpp"@[1] == 'p');
    assert("cxx"@[1] == 'x');
    assert("tsx"@[1] == 's');
    assert("txt"@[1] == 'x');
    assert("java"@[0] == 'j');
    assert("text"@[0] == 't');
    assert("adoc"@[0] == 'a');
    assert("hpp"@[1] == 'p');
    assert("hxx"@[1] == 'x');
    assert("c"@[0] == 'c');
    assert("h"@[0] == 'h');
}

/// Any other extension stands for none.
pub proof fn other_extensions_tell_nothing(ext: Seq<char>)
    requires
        ext != "md"@,
        ext != "markdown"@,
        ext != "mdx"@,
        ext != "rs"@,
        ext != "py"@,
        ext != "pyi"@,
        ext != "js"@,
        ext != "mjs"@,
        ext != "cjs"@,
        ext != "jsx"@,
        ext != "ts"@,
        ext != "tsx"@,
        ext != "mts"@,
        ext != "cts"@,
        ext != "go"@,
        ext != "java"@,
        ext != "cpp"@,
        ext != "cc"@,
        ext != "cxx"@,
        ext != "hpp"@,
        ext != "hh"@,
        ext != "hxx"@,
        ext != "c"@,
        ext != "h"@,
        ext != "txt"@,
        ext != "text"@,
        ext != "rst"@,
        ext != "adoc"@,
    ensures
        lang_of_extension(ext) is None,
{
}

/// The language of a file is that of what stands behind the last dot of its name, in
/// whatever case it is written. A name without a dot, or with one at its start alone, has
/// none.
pub proof fn extensions_count_in_any_case(dir: Seq<char>, stem: Seq<char>, ext: Seq<char>)
    requires
        !stem.contains('/') && !ext.contains('/'),
        !ext.contains('.'),
        ext.len() > 0,
    ensures
        stem.len() > 0 ==> lang_of_path(dir + seq!['/'] + (stem + seq!['.'] + ext))
            == lang_of_extension(text::ascii_lower(ext)),
        stem.len() == 0 ==> lang_of_path(dir + seq!['/'] + (stem + seq!['.'] + ext)) is None,
        lang_of_path(dir + seq!['/'] + ext) is None,
{
    let name = stem + seq!['.'] + ext;
    if name == seq!['.', '.'] {
        assert(name.last() == ext.last());
        assert(ext.contains(ext[ext.len() - 1]));
    }
    path::the_last_dot_starts_the_extension(dir, stem, ext);
}

/// Prose has no grammar, each other language one of its own.
pub proof fn grammars_belong_to_one_language(a: Lang, b: Lang)
    ensures
        lang_grammar(a) is None <==> a == Lang::Markdown || a == Lang::Text,
        lang_grammar(a) is Some && lang_grammar(a) == lang_grammar(b) ==> a == b,
        lang_grammar(Lang::Rust) == Some(Grammar::Rust),
        lang_grammar(Lang::Python) == Some(Grammar::Python),
        lang_grammar(Lang::JavaScript) == Some(Grammar::JavaScript),
        lang_grammar(Lang::TypeScript) == Some(Grammar::TypeScript),
        lang_grammar(Lang::Go) == Some(Grammar::Go),
        lang_grammar(Lang::Java) == Some(Grammar::Java),
        lang_grammar(Lang::Cpp) == Some(Grammar::Cpp),
        lang_grammar(Lang::C) == Some(Grammar::C),
{
}

/// Chunks that would overlap wholly are refused, and nothing else is but by a splitter.
pub proof fn overlaps_are_smaller_than_chunks(content: Seq<char>, lang: Lang, cfg: ChunkConfig)
    ensures
        spans_of(content, lang, cfg) == Err::<Seq<Span>, ChunkError>(ChunkError::OverlapTooLarge)
            <==> cfg.max_chars <= cfg.overlap,
        cfg.overlap < cfg.max_chars && (lang == Lang::Markdown || lang == Lang::Text) ==> spans_of(
            content,
            lang,
            cfg,
        ) is Ok,
{
}

/// How many line feeds a text holds.
pub open spec fn line_feeds(s: Seq<char>) -> nat {
    s.filter(|c: char| c == '\n').len()
}

proof fn lemma_newlines_concat(a: Seq<u8>, b: Seq<u8>)
    ensures
        newlines(a + b) == newlines(a) + newlines(b),
    decreases b.len(),
{
    if b.len() == 0 {
        assert(a + b =~= a);
    } else {
        lemma_newlines_concat(a, b.drop_last());
        assert((a + b).drop_last() =~= a + b.drop_last());
        assert((a + b).last() == b.last());
    }
}

proof fn lemma_none_counted(b: Seq<u8>)
    requires
        forall|i: int| 0 <= i < b.len() ==> #[trigger] b[i] != 10,
    ensures
        newlines(b) == 0,
    decreases b.len(),
{
    if b.len() > 0 {
        assert(b[b.len() - 1] != 10);
        lemma_none_counted(b.drop_last());
    }
}

proof fn lemma_char_newlines(c: char)
    ensures
        newlines(vstd::utf8::encode_utf8(seq![c])) == if c == '\n' {
            1nat
        } else {
            0nat
        },
{
    let one = seq![c];
    vstd::utf8::encode_utf8_first_scalar(one);
    vstd::utf8::encode_utf8_valid_utf8(one);
    assert(one.drop_first() =~= Seq::<char>::empty());
    assert(vstd::utf8::encode_utf8(one.drop_first()) =~= Seq::<u8>::empty());
    let bytes = vstd::utf8::encode_utf8(one);
    assert(bytes =~= vstd::utf8::encode_scalar(c as u32));
    lemma_scalar_newlines(c);
}

proof fn lemma_scalar_newlines(c: char)
    ensures
        newlines(vstd::utf8::encode_scalar(c as u32)) == if c == '\n' {
            1nat
        } else {
            0nat
        },
{
    let s = c as u32;
    let bytes = vstd::utf8::encode_scalar(s);
    vstd::utf8::char_is_scalar(c);
    assert(forall|x: u8| #[trigger] (0xC0u8 | x) >= 0x80) by (bit_vector);
    assert(forall|x: u8| #[trigger] (0xE0u8 | x) >= 0x80) by (bit_vector);
    assert(forall|x: u8| #[trigger] (0xF0u8 | x) >= 0x80) by (bit_vector);
    assert(forall|x: u8| #[trigger] (0x80u8 | x) >= 0x80) by (bit_vector);
    if s <= 0x7f {
        assert((s & 0x7F) as u8 == s) by (bit_vector)
            requires
                s <= 0x7f,
        ;
        assert(bytes =~= seq![s as u8]);
        assert(bytes.drop_last() =~= Seq::<u8>::empty());
        assert(newlines(bytes.drop_last()) == 0);
        vstd::utf8::char_u32_cast(c, s);
        vstd::utf8::char_u32_cast('\n', 10);
    } else {
        assert forall|i: int| 0 <= i < bytes.len() implies #[trigger] bytes[i] != 10 by {
            assert(bytes[i] >= 0x80);
        }
        lemma_none_counted(bytes);
    }
}

proof fn lemma_newlines_are_line_feeds(s: Seq<char>)
    ensures
        newlines(vstd::utf8::encode_utf8(s)) == line_feeds(s),
    decreases s.len(),
{
    reveal(Seq::filter);
    if s.len() > 0 {
        let init = s.drop_last();
        let one = seq![s.last()];
        lemma_newlines_are_line_feeds(init);
        assert(s =~= init + one);
        text::lemma_encode_concat(init, one);
        lemma_newlines_concat(vstd::utf8::encode_utf8(init), vstd::utf8::encode_utf8(one));
        lemma_char_newlines(s.last());
    }
}

/// A chunk is the part of the file that its span covers: its text is that part, its first
/// line is one more than the line feeds before it, and its last line comes as many lines
/// later as there are line feeds in it.
pub proof fn chunks_are_parts_of_the_file(
    before: Seq<char>,
    part: Seq<char>,
    behind: Seq<char>,
    s: Span,
    c: Chunk,
)
    requires
        s.start == vstd::utf8::encode_utf8(before).len(),
        s.len == vstd::utf8::encode_utf8(part).len(),
        cut_by(before + part + behind, s, c),
    ensures
        c.text@ == part,
        c.start_byte == vstd::utf8::encode_utf8(before).len(),
        c.end_byte == vstd::utf8::encode_utf8(before + part).len(),
        c.start_line == 1 + line_feeds(before),
        c.end_line == c.start_line + line_feeds(part),
{
    let content = before + part + behind;
    let bytes = vstd::utf8::encode_utf8(content);
    text::lemma_encode_concat(before, part);
    text::lemma_encode_concat(before + part, behind);
    assert(bytes.take(s.start as int) =~= vstd::utf8::encode_utf8(before));
    assert(bytes.subrange(s.start as int, s.start + s.len) =~= vstd::utf8::encode_utf8(part));
    vstd::utf8::encode_utf8_decode_utf8(c.text@);
    vstd::utf8::encode_utf8_decode_utf8(part);
    lemma_newlines_are_line_feeds(before);
    lemma_newlines_are_line_feeds(part);
}

/// The language of a path is that of its extension, and each language has its name.
pub proof fn languages_have_their_names(p: &str, r: Option<Lang>, lang: Lang, name: &'static str)
    requires
        call_ensures(Lang::from_path, (p,), r),
        call_ensures(Lang::name, (lang,), name),
    ensures
        r is Some ==> path::extension(p@) is Some,
        path::extension(p@) is Some ==> r == lang_of_extension(
            text::ascii_lower(path::extension(p@)->0),
        ),
        name@ == match lang {
            Lang::Markdown => "md"@,
            Lang::Rust => "rust"@,
            Lang::Python => "python"@,
            Lang::JavaScript => "javascript"@,
            Lang::TypeScript => "typescript"@,
            Lang::Go => "go"@,
            Lang::Java => "java"@,
            Lang::Cpp => "cpp"@,
            Lang::C => "c"@,
            Lang::Text => "text"@,
        },
{
}

} // verus!
