//! What results, records and catalog entries look like to the reader.
//!
//! Scores come as text: their number of digits is a matter of floating-point
//! formatting, and left to the caller.

use crate::float::FloatBits;
use crate::index::Stats;
use crate::search::SearchResult;
use crate::store::CatalogEntry;
use crate::store::Record;
use crate::text;
use vstd::prelude::*;

verus! {

/// Characters of the first line of a snippet that a preview keeps.
pub const PREVIEW_CHARS: usize = 100;

/// The first trimmed line that is not empty, or nothing.
pub open spec fn first_line(lines: Seq<Seq<char>>) -> Seq<char>
    decreases lines.len(),
{
    if lines.len() == 0 {
        seq![]
    } else if text::trim(lines[0]).len() > 0 {
        text::trim(lines[0])
    } else {
        first_line(lines.drop_first())
    }
}

/// A line cut to the preview length, with an ellipsis where it was cut.
pub open spec fn cut_line(line: Seq<char>) -> Seq<char> {
    if line.len() > PREVIEW_CHARS {
        line.take(PREVIEW_CHARS as int).push('\u{2026}')
    } else {
        line
    }
}

/// The preview of a snippet.
pub open spec fn preview_text(snippet: Seq<char>) -> Seq<char> {
    cut_line(first_line(text::lines(snippet)))
}

/// First line of a snippet that is not empty, trimmed and cut.
pub fn preview(snippet: &str) -> (r: String)
    ensures
        r@ == preview_text(snippet@),
{
    let list = text::split_lines(snippet);
    let ghost all = text::texts(list@);
    let mut line = String::new();
    let mut i: usize = 0;
    assert(all.skip(0) =~= all);
    while i < list.len()
        invariant_except_break
            line@.len() == 0,
            i <= list.len(),
            first_line(all.skip(i as int)) == first_line(all),
        invariant
            all == text::texts(list@),
        ensures
            line@ == first_line(all),
        decreases list.len() - i,
    {
        let t = text::trimmed(list[i].as_str());
        proof {
            assert(all.skip(i as int)[0] == list@[i as int]@);
            assert(all.skip(i as int).drop_first() =~= all.skip(i + 1));
        }
        if !t.as_str().is_empty() {
            line = t;
            break;
        }
        i += 1;
        if i == list.len() {
            assert(first_line(all.skip(i as int)) =~= seq![]);
            assert(line@ =~= seq![]);
        }
    }
    let cs = text::chars_of(line.as_str());
    if cs.len() > PREVIEW_CHARS {
        let mut out = text::string_of(&cs, 0, PREVIEW_CHARS);
        assert(out@ =~= line@.take(PREVIEW_CHARS as int));
        out.push('\u{2026}');
        out
    } else {
        line
    }
}

/// A preview is never longer than its limit and the ellipsis.
pub proof fn preview_is_short(snippet: Seq<char>)
    ensures
        preview_text(snippet).len() <= PREVIEW_CHARS + 1,
{
}

/// A result without its text: what it is, and a one-line preview.
#[derive(Debug, Clone)]
pub struct CompactResult {
    pub chunk_id: String,
    pub file: String,
    pub lang: String,
    pub symbol: Option<String>,
    pub headings: Vec<String>,
    pub source: Option<String>,
    pub corpus_source: Option<String>,
    pub fetched: Option<String>,
    pub lines: [usize; 2],
    pub score: FloatBits,
    pub preview: String,
}

impl CompactResult {
    pub fn from(r: &SearchResult) -> (c: Self)
        ensures
            c.chunk_id == r.chunk_id,
            c.file == r.file,
            c.lang == r.lang,
            c.symbol == r.symbol,
            c.headings@ == r.headings@,
            c.source == r.source,
            c.corpus_source == r.corpus_source,
            c.fetched == r.fetched,
            c.lines == r.lines,
            c.score == r.score,
            c.preview@ == preview_text(r.snippet@),
    {
        CompactResult {
            chunk_id: r.chunk_id.clone(),
            file: r.file.clone(),
            lang: r.lang.clone(),
            symbol: text::copy_opt(&r.symbol),
            headings: text::copy_list(&r.headings),
            source: text::copy_opt(&r.source),
            corpus_source: text::copy_opt(&r.corpus_source),
            fetched: text::copy_opt(&r.fetched),
            lines: r.lines,
            score: r.score,
            preview: preview(r.snippet.as_str()),
        }
    }
}

/// A record without its text and vector.
#[derive(Debug, Clone)]
pub struct RecordMeta {
    pub chunk_id: String,
    pub file: String,
    pub lang: String,
    pub symbol: Option<String>,
    pub kind: Option<String>,
    pub parent: Option<String>,
    pub signature: Option<String>,
    pub headings: Vec<String>,
    pub source: Option<String>,
    pub corpus_source: Option<String>,
    pub fetched: Option<String>,
    pub lines: [usize; 2],
}

impl RecordMeta {
    pub fn from(r: &Record) -> (m: Self)
        ensures
            m.chunk_id == r.chunk_id,
            m.file == r.file,
            m.lang == r.lang,
            m.symbol == r.symbol,
            m.kind == r.kind,
            m.parent == r.parent,
            m.signature == r.signature,
            m.headings@ == r.headings@,
            m.source == r.source,
            m.corpus_source == r.corpus_source,
            m.fetched == r.fetched,
            m.lines@ == seq![r.start_line, r.end_line],
    {
        RecordMeta {
            chunk_id: r.chunk_id.clone(),
            file: r.file.clone(),
            lang: r.lang.clone(),
            symbol: text::copy_opt(&r.symbol),
            kind: text::copy_opt(&r.kind),
            parent: text::copy_opt(&r.parent),
            signature: text::copy_opt(&r.signature),
            headings: text::copy_list(&r.headings),
            source: text::copy_opt(&r.source),
            corpus_source: text::copy_opt(&r.corpus_source),
            fetched: text::copy_opt(&r.fetched),
            lines: [r.start_line, r.end_line],
        }
    }
}

// ---------------------------------------------------------------------------
// Lines for people
// ---------------------------------------------------------------------------

/// A place in a file: path, first line and last line.
pub open spec fn place_text(file: Seq<char>, first: nat, last: nat) -> Seq<char> {
    file + ":"@ + text::decimal(first) + "-"@ + text::decimal(last)
}

/// An optional text between two others, or nothing.
pub open spec fn opt_part(before: Seq<char>, o: Option<String>, after: Seq<char>) -> Seq<char> {
    match o {
        Some(s) => before + s@ + after,
        None => seq![],
    }
}

fn push_place(out: &mut String, file: &str, first: usize, last: usize)
    ensures
        final(out)@ == old(out)@ + place_text(file@, first as nat, last as nat),
{
    out.push_str(file);
    out.push_str(":");
    text::push_decimal(out, first as u64);
    out.push_str("-");
    text::push_decimal(out, last as u64);
    assert(out@ =~= old(out)@ + place_text(file@, first as nat, last as nat));
}

fn push_opt_part(out: &mut String, before: &str, o: &Option<String>, after: &str)
    ensures
        final(out)@ == old(out)@ + opt_part(before@, *o, after@),
{
    if let Some(s) = o {
        out.push_str(before);
        out.push_str(s.as_str());
        out.push_str(after);
    }
    assert(out@ =~= old(out)@ + opt_part(before@, *o, after@));
}

/// One line for a result: id, place, score, symbol and preview.
pub fn compact_line(r: &SearchResult, score: &str) -> (line: String)
    ensures
        line@ == r.chunk_id@ + "  "@ + place_text(r.file@, r.lines@[0] as nat, r.lines@[1] as nat)
            + "  (score "@ + score@ + ")"@ + opt_part("  "@, r.symbol, ""@) + "  "@ + preview_text(
            r.snippet@,
        ),
{
    let mut out = r.chunk_id.clone();
    out.push_str("  ");
    push_place(&mut out, r.file.as_str(), r.lines[0], r.lines[1]);
    out.push_str("  (score ");
    out.push_str(score);
    out.push_str(")");
    push_opt_part(&mut out, "  ", &r.symbol, "");
    out.push_str("  ");
    let p = preview(r.snippet.as_str());
    out.push_str(p.as_str());
    out
}

/// The heading of a result that is shown in full.
pub fn full_heading(r: &SearchResult, score: &str) -> (line: String)
    ensures
        line@ == place_text(r.file@, r.lines@[0] as nat, r.lines@[1] as nat) + "  (score "@ + score@
            + ", "@ + r.lang@ + ")"@,
{
    let mut out = String::new();
    push_place(&mut out, r.file.as_str(), r.lines[0], r.lines[1]);
    out.push_str("  (score ");
    out.push_str(score);
    out.push_str(", ");
    out.push_str(r.lang.as_str());
    out.push_str(")");
    assert(out@ =~= place_text(r.file@, r.lines@[0] as nat, r.lines@[1] as nat) + "  (score "@
        + score@ + ", "@ + r.lang@ + ")"@);
    out
}

/// The lines of a snippet, indented.
pub fn indented_lines(snippet: &str) -> (r: Vec<String>)
    ensures
        text::texts(r@) == text::lines(snippet@).map_values(|l: Seq<char>| "    "@ + l),
{
    let list = text::split_lines(snippet);
    let ghost all = text::lines(snippet@).map_values(|l: Seq<char>| "    "@ + l);
    let mut out: Vec<String> = Vec::new();
    let mut i: usize = 0;
    assert(text::texts(list@).len() == list@.len());
    while i < list.len()
        invariant
            text::texts(list@) == text::lines(snippet@),
            all == text::lines(snippet@).map_values(|l: Seq<char>| "    "@ + l),
            all.len() == list@.len(),
            i <= list.len(),
            out.len() == i,
            forall|j: int| 0 <= j < i ==> (#[trigger] out@[j])@ == all[j],
        decreases list.len() - i,
    {
        assert(text::texts(list@)[i as int] == list@[i as int]@);
        let mut line = "    ".to_string();
        line.push_str(list[i].as_str());
        out.push(line);
        i += 1;
    }
    assert(text::texts(out@) =~= all);
    out
}

/// What a record is called: its symbol, or else its heading breadcrumb.
pub open spec fn record_label(r: Record) -> Seq<char> {
    match r.symbol {
        Some(s) => s@,
        None => text::join(text::texts(r.headings@), " > "@),
    }
}

/// One line for a record: id, place, kind, label and signature.
pub fn record_line(r: &Record) -> (line: String)
    ensures
        line@ == r.chunk_id@ + "  "@ + place_text(r.file@, r.start_line as nat, r.end_line as nat)
            + "  "@ + opt_part(""@, r.kind, "  "@) + record_label(*r) + opt_part(
            "  "@,
            r.signature,
            ""@,
        ),
{
    let mut out = r.chunk_id.clone();
    out.push_str("  ");
    push_place(&mut out, r.file.as_str(), r.start_line, r.end_line);
    out.push_str("  ");
    push_opt_part(&mut out, "", &r.kind, "  ");
    match &r.symbol {
        Some(s) => out.push_str(s.as_str()),
        None => {
            let section = text::joined(&r.headings, " > ");
            out.push_str(section.as_str());
        },
    }
    push_opt_part(&mut out, "  ", &r.signature, "");
    out
}

/// How a catalog entry names its corpus, if that is not its source.
pub open spec fn corpus_part(e: CatalogEntry) -> Seq<char> {
    match e.corpus_source {
        Some(c) => if c@ != e.source@ {
            ", corpus "@ + c@
        } else {
            seq![]
        },
        None => seq![],
    }
}

/// When the documents of an entry were fetched, or a dash.
pub open spec fn fetched_part(e: CatalogEntry) -> Seq<char> {
    match e.fetched {
        Some(f) => f@,
        None => seq!['\u{2014}'],
    }
}

/// One line for a catalog entry.
pub fn catalog_line(e: &CatalogEntry) -> (line: String)
    ensures
        line@ == e.source@ + "  ("@ + text::decimal(e.files as nat) + " files, "@ + text::decimal(
            e.chunks as nat,
        ) + " chunks, fetched "@ + fetched_part(*e) + corpus_part(*e) + ")"@,
{
    let mut out = e.source.clone();
    out.push_str("  (");
    text::push_decimal(&mut out, e.files as u64);
    out.push_str(" files, ");
    text::push_decimal(&mut out, e.chunks as u64);
    out.push_str(" chunks, fetched ");
    let ghost head = out@;
    match &e.fetched {
        Some(f) => out.push_str(f.as_str()),
        None => out.push('\u{2014}'),
    }
    assert(out@ =~= head + fetched_part(*e));
    let ghost body = out@;
    if let Some(c) = &e.corpus_source {
        if !text::same_text(c.as_str(), e.source.as_str()) {
            out.push_str(", corpus ");
            out.push_str(c.as_str());
        }
    }
    assert(out@ =~= body + corpus_part(*e));
    out.push_str(")");
    out
}

/// What an ingest did, in one line.
pub fn ingest_line(stats: &Stats, index_path: &str) -> (line: String)
    ensures
        line@ == "indexed "@ + text::decimal(stats.files_indexed as nat) + " files ("@
            + text::decimal(stats.chunks as nat) + " chunks), skipped "@ + text::decimal(
            stats.files_skipped as nat,
        ) + ", failed "@ + text::decimal(stats.files_failed as nat) + ", pruned "@ + text::decimal(
            stats.files_pruned as nat,
        ) + seq![' ', '\u{2192}', ' '] + index_path@,
{
    let mut out = "indexed ".to_string();
    text::push_decimal(&mut out, stats.files_indexed as u64);
    out.push_str(" files (");
    text::push_decimal(&mut out, stats.chunks as u64);
    out.push_str(" chunks), skipped ");
    text::push_decimal(&mut out, stats.files_skipped as u64);
    out.push_str(", failed ");
    text::push_decimal(&mut out, stats.files_failed as u64);
    out.push_str(", pruned ");
    text::push_decimal(&mut out, stats.files_pruned as u64);
    let ghost head = out@;
    out.push(' ');
    out.push('\u{2192}');
    out.push(' ');
    assert(out@ =~= head + seq![' ', '\u{2192}', ' ']);
    out.push_str(index_path);
    out
}

/// How the embedding cache did, in one line; `None` if it was not asked.
pub fn cache_line(stats: &Stats) -> (line: Option<String>)
    ensures
        text::opt_text(line) == if stats.cache_hits == 0 && stats.cache_misses == 0 {
            None
        } else {
            Some(
                "embedding cache: "@ + text::decimal(stats.cache_hits as nat) + " hits, "@
                    + text::decimal(stats.cache_misses as nat) + " misses"@,
            )
        },
{
    if stats.cache_hits == 0 && stats.cache_misses == 0 {
        return None;
    }
    let mut out = "embedding cache: ".to_string();
    text::push_decimal(&mut out, stats.cache_hits as u64);
    out.push_str(" hits, ");
    text::push_decimal(&mut out, stats.cache_misses as u64);
    out.push_str(" misses");
    Some(out)
}

// ---------------------------------------------------------------------------
// Laws
// ---------------------------------------------------------------------------

proof fn lemma_first_line(lines: Seq<Seq<char>>, k: int)
    requires
        0 <= k < lines.len(),
        text::trim(lines[k]).len() > 0,
        forall|j: int| 0 <= j < k ==> text::trim(#[trigger] lines[j]).len() == 0,
    ensures
        first_line(lines) == text::trim(lines[k]),
    decreases k,
{
    if k > 0 {
        let rest = lines.drop_first();
        assert forall|j: int| 0 <= j < k - 1 implies text::trim(#[trigger] rest[j]).len() == 0 by {
            assert(rest[j] == lines[j + 1]);
        }
        assert(text::trim(lines[0]).len() == 0);
        assert(rest[k - 1] == lines[k]);
        lemma_first_line(rest, k - 1);
    }
}

proof fn lemma_no_line(lines: Seq<Seq<char>>)
    requires
        forall|j: int| 0 <= j < lines.len() ==> text::trim(#[trigger] lines[j]).len() == 0,
    ensures
        first_line(lines) == Seq::<char>::empty(),
    decreases lines.len(),
{
    if lines.len() > 0 {
        let rest = lines.drop_first();
        assert forall|j: int| 0 <= j < rest.len() implies text::trim(#[trigger] rest[j]).len()
            == 0 by {
            assert(rest[j] == lines[j + 1]);
        }
        assert(text::trim(lines[0]).len() == 0);
        lemma_no_line(rest);
    }
}

/// A preview is the first line of the text that is not blank, without the white space
/// around it, and of a longer line the first hundred characters with an ellipsis.
pub proof fn previews_show_the_first_line(snippet: &str, r: String)
    requires
        call_ensures(preview, (snippet,), r),
    ensures
        forall|k: int|
            0 <= k < text::lines(snippet@).len() && text::trim(
                #[trigger] text::lines(snippet@)[k],
            ).len() > 0 && (forall|j: int|
                0 <= j < k ==> text::trim(#[trigger] text::lines(snippet@)[j]).len() == 0) ==> {
                let line = text::trim(text::lines(snippet@)[k]);
                &&& line.len() <= 100 ==> r@ == line
                &&& line.len() > 100 ==> r@ == line.take(100) + seq!['\u{2026}']
            },
        (forall|j: int|
            0 <= j < text::lines(snippet@).len() ==> text::trim(
                #[trigger] text::lines(snippet@)[j],
            ).len() == 0) ==> r@ == Seq::<char>::empty(),
{
    let lines = text::lines(snippet@);
    assert forall|k: int|
        0 <= k < lines.len() && text::trim(#[trigger] lines[k]).len() > 0 && (forall|j: int|
            0 <= j < k ==> text::trim(#[trigger] lines[j]).len() == 0) implies {
        let line = text::trim(lines[k]);
        &&& line.len() <= 100 ==> r@ == line
        &&& line.len() > 100 ==> r@ == line.take(100) + seq!['\u{2026}']
    } by {
        lemma_first_line(lines, k);
        let line = text::trim(lines[k]);
        assert(line.len() > 100 ==> r@ =~= line.take(100) + seq!['\u{2026}']);
    }
    if forall|j: int| 0 <= j < lines.len() ==> text::trim(#[trigger] lines[j]).len() == 0 {
        lemma_no_line(lines);
    }
}

/// A place is the path, a colon, the first line, a hyphen and the last line.
pub open spec fn place(file: Seq<char>, first: nat, last: nat) -> Seq<char> {
    file + seq![':'] + text::decimal(first) + seq!['-'] + text::decimal(last)
}

proof fn lemma_place(file: Seq<char>, first: nat, last: nat)
    ensures
        place_text(file, first, last) == place(file, first, last),
{
    reveal_strlit(":");
    reveal_strlit("-");
    assert(":"@ =~= seq![':']);
    assert("-"@ =~= seq!['-']);
}

/// The line of a result starts with its id and its place, and the heading of one that is
/// shown in full with its place.
pub proof fn result_lines_name_the_place(
    r: &SearchResult,
    score: &str,
    line: String,
    heading: String,
)
    requires
        call_ensures(compact_line, (r, score), line),
        call_ensures(full_heading, (r, score), heading),
    ensures
        (r.chunk_id@ + seq![' ', ' '] + place(
            r.file@,
            r.lines@[0] as nat,
            r.lines@[1] as nat,
        )).is_prefix_of(line@),
        place(r.file@, r.lines@[0] as nat, r.lines@[1] as nat).is_prefix_of(heading@),
        text::holds(line@, score@) && text::holds(heading@, score@),
        r.symbol is Some ==> text::holds(line@, (r.symbol->0)@),
        text::holds(heading@, r.lang@),
{
    reveal_strlit("  ");
    assert("  "@ =~= seq![' ', ' ']);
    lemma_place(r.file@, r.lines@[0] as nat, r.lines@[1] as nat);
    let at = place(r.file@, r.lines@[0] as nat, r.lines@[1] as nat);
    let start = r.chunk_id@ + "  "@ + at;
    let tail = "  "@ + preview_text(r.snippet@);
    let sym = opt_part("  "@, r.symbol, ""@);
    assert(line@ =~= start + "  (score "@ + score@ + (")"@ + sym + tail));
    assert(start.is_prefix_of(line@));
    assert(text::holds(line@, score@)) by {
        assert(line@ == (start + "  (score "@) + score@ + (")"@ + sym + tail));
    }
    if r.symbol is Some {
        let s = (r.symbol->0)@;
        assert(line@ =~= (start + "  (score "@ + score@ + ")"@ + "  "@) + s + (""@ + tail));
        assert(text::holds(line@, s));
    }
    assert(heading@ =~= (at + "  (score "@) + score@ + (", "@ + r.lang@ + ")"@));
    assert(text::holds(heading@, score@));
    assert(heading@ =~= (at + "  (score "@ + score@ + ", "@) + r.lang@ + ")"@);
    assert(text::holds(heading@, r.lang@));
    assert(at.is_prefix_of(heading@));
}

/// The line of a record starts with its id and its place, and tells its symbol if it has
/// one.
pub proof fn record_lines_name_the_place(r: &Record, line: String)
    requires
        call_ensures(record_line, (r,), line),
    ensures
        (r.chunk_id@ + seq![' ', ' '] + place(
            r.file@,
            r.start_line as nat,
            r.end_line as nat,
        )).is_prefix_of(line@),
        r.symbol is Some ==> text::holds(line@, (r.symbol->0)@),
        r.kind is Some ==> text::holds(line@, (r.kind->0)@),
        r.signature is Some ==> text::holds(line@, (r.signature->0)@),
        r.symbol is None && r.headings@.len() > 0 ==> text::holds(line@, r.headings@.last()@),
{
    reveal_strlit("  ");
    reveal_strlit("");
    assert("  "@ =~= seq![' ', ' ']);
    lemma_place(r.file@, r.start_line as nat, r.end_line as nat);
    let at = place(r.file@, r.start_line as nat, r.end_line as nat);
    let start = r.chunk_id@ + "  "@ + at;
    let kind = opt_part(""@, r.kind, "  "@);
    let sign = opt_part("  "@, r.signature, ""@);
    let label = record_label(*r);
    assert(line@ =~= (start + "  "@ + kind) + label + sign);
    assert(start.is_prefix_of(line@));
    assert(text::holds(line@, label));
    if r.kind is Some {
        let k = (r.kind->0)@;
        assert(line@ =~= (start + "  "@ + ""@) + k + ("  "@ + label + sign));
        assert(text::holds(line@, k));
    }
    if r.signature is Some {
        let s = (r.signature->0)@;
        assert(line@ =~= (start + "  "@ + kind + label + "  "@) + s + ""@);
        assert(text::holds(line@, s));
    }
    if r.symbol is None && r.headings@.len() > 0 {
        let heads = text::texts(r.headings@);
        let last = r.headings@.last()@;
        assert(heads.last() == last);
        let front = if heads.len() == 1 {
            Seq::<char>::empty()
        } else {
            text::join(heads.drop_last(), " > "@) + " > "@
        };
        assert(label =~= front + last);
        assert(line@ =~= (start + "  "@ + kind + front) + last + sign);
        assert(text::holds(line@, last));
    }
}

/// A compact result tells all of a result but its text, and of that the preview.
pub proof fn compact_results_leave_out_the_text(r: &SearchResult, c: CompactResult)
    requires
        call_ensures(CompactResult::from, (r,), c),
    ensures
        c.chunk_id@ == r.chunk_id@ && c.file@ == r.file@ && c.lang@ == r.lang@,
        c.lines@ == r.lines@ && c.score == r.score && c.headings@ == r.headings@,
        c.symbol == r.symbol && c.source == r.source && c.corpus_source == r.corpus_source
            && c.fetched == r.fetched,
        c.preview@ == preview_text(r.snippet@),
{
}

/// What is listed of a record is all but its text and its vector.
pub proof fn listed_records_leave_out_the_text(r: &Record, m: RecordMeta)
    requires
        call_ensures(RecordMeta::from, (r,), m),
    ensures
        m.chunk_id@ == r.chunk_id@ && m.file@ == r.file@ && m.lang@ == r.lang@,
        m.lines@[0] == r.start_line && m.lines@[1] == r.end_line && m.headings@ == r.headings@,
        m.symbol == r.symbol && m.kind == r.kind && m.parent == r.parent && m.signature
            == r.signature,
        m.source == r.source && m.corpus_source == r.corpus_source && m.fetched == r.fetched,
{
}

/// Each line of a text is indented by four blanks.
pub proof fn lines_are_indented(snippet: &str, r: Vec<String>, i: int)
    requires
        call_ensures(indented_lines, (snippet,), r),
        0 <= i < r@.len(),
    ensures
        r@.len() == text::lines(snippet@).len(),
        r@[i]@ == seq![' ', ' ', ' ', ' '] + text::lines(snippet@)[i],
{
    reveal_strlit("    ");
    assert("    "@ =~= seq![' ', ' ', ' ', ' ']);
    let all = text::lines(snippet@).map_values(|l: Seq<char>| "    "@ + l);
    assert(text::texts(r@) == all);
    assert(text::texts(r@).len() == r@.len());
    assert(text::texts(r@)[i] == r@[i]@);
    assert(all[i] == "    "@ + text::lines(snippet@)[i]);
}

/// The line of a catalog entry says how many files and chunks the source has, and names
/// the origin where that is another.
pub proof fn catalog_lines_tell_the_counts(e: &CatalogEntry, line: String)
    requires
        call_ensures(catalog_line, (e,), line),
    ensures
        (e.source@ + "  ("@ + text::decimal(e.files as nat) + " files, "@ + text::decimal(
            e.chunks as nat,
        ) + " chunks, fetched "@).is_prefix_of(line@),
        e.fetched is Some ==> text::holds(line@, (e.fetched->0)@),
        e.corpus_source is Some && (e.corpus_source->0)@ != e.source@ ==> text::holds(
            line@,
            (e.corpus_source->0)@,
        ),
        e.corpus_source is Some && (e.corpus_source->0)@ == e.source@ ==> line@.len()
            == e.source@.len() + 3 + text::decimal(e.files as nat).len() + 8 + text::decimal(
            e.chunks as nat,
        ).len() + 17 + fetched_part(*e).len() + 1,
{
    reveal_strlit("  (");
    reveal_strlit(" files, ");
    reveal_strlit(" chunks, fetched ");
    reveal_strlit(")");
    let head = e.source@ + "  ("@ + text::decimal(e.files as nat) + " files, "@ + text::decimal(
        e.chunks as nat,
    ) + " chunks, fetched "@;
    let (f, c) = (fetched_part(*e), corpus_part(*e));
    assert(line@ =~= head + f + (c + ")"@));
    assert(head.is_prefix_of(line@));
    assert(text::holds(line@, f));
    if e.corpus_source is Some && (e.corpus_source->0)@ != e.source@ {
        let s = (e.corpus_source->0)@;
        assert(line@ =~= (head + f + ", corpus "@) + s + ")"@);
        assert(text::holds(line@, s));
    }
}

/// The line of an ingest gives the five counts in their order, then where the index is.
pub proof fn ingest_lines_tell_the_counts(stats: &Stats, index_path: &str, line: String)
    requires
        call_ensures(ingest_line, (stats, index_path), line),
    ensures
        line@ == "indexed "@ + text::decimal(stats.files_indexed as nat) + (" files ("@
            + text::decimal(stats.chunks as nat)) + (" chunks), skipped "@ + text::decimal(
            stats.files_skipped as nat,
        )) + (", failed "@ + text::decimal(stats.files_failed as nat)) + (", pruned "@
            + text::decimal(stats.files_pruned as nat)) + (seq![' ', '\u{2192}', ' ']
            + index_path@),
{
    let a = "indexed "@ + text::decimal(stats.files_indexed as nat);
    assert(line@ =~= a + (" files ("@ + text::decimal(stats.chunks as nat)) + (" chunks), skipped "@
        + text::decimal(stats.files_skipped as nat)) + (", failed "@ + text::decimal(
        stats.files_failed as nat,
    )) + (", pruned "@ + text::decimal(stats.files_pruned as nat)) + (seq![' ', '\u{2192}', ' ']
        + index_path@));
}

/// The line of the cache gives the hits and then the misses, and there is none where the
/// cache was not asked.
pub proof fn cache_lines_tell_the_counts(stats: &Stats, line: Option<String>)
    requires
        call_ensures(cache_line, (stats,), line),
    ensures
        line is None <==> stats.cache_hits + stats.cache_misses == 0,
        line is Some ==> (line->0)@ == ("embedding cache: "@ + text::decimal(
            stats.cache_hits as nat,
        )) + (" hits, "@ + text::decimal(stats.cache_misses as nat)) + " misses"@,
{
    if line is Some {
        assert((line->0)@ =~= ("embedding cache: "@ + text::decimal(stats.cache_hits as nat)) + (
        " hits, "@ + text::decimal(stats.cache_misses as nat)) + " misses"@);
    }
}

} // verus!
