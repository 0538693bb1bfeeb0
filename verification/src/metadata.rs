//! Structural metadata of chunks: the enclosing definition for code, the heading
//! breadcrumb for Markdown, the text that is embedded, identifiers, and the
//! provenance of a fetched document.
//!
//! Metadata is optional: what cannot be told is absent, and never wrong on that
//! account.

use crate::chunk;
use crate::chunk::Lang;
use crate::hash;
use crate::path;
use crate::store;
use crate::syntax;
use crate::syntax::NodeFacts;
use crate::syntax::SyntaxNode;
use crate::text;
use vstd::prelude::*;

verus! {

/// Structural facts about one chunk. The code fields are absent for prose, and the
/// headings are empty for code.
#[derive(Debug, Clone, PartialEq, Eq)]
pub struct ChunkMeta {
    /// Name of the smallest definition around the chunk.
    pub symbol: Option<String>,
    /// What that definition is.
    pub kind: Option<String>,
    /// The container around that definition.
    pub parent: Option<String>,
    /// First line of that definition.
    pub signature: Option<String>,
    /// Headings above the chunk, outermost first.
    pub headings: Vec<String>,
}

impl ChunkMeta {
    /// Whether nothing is known.
    pub open spec fn is_empty(self) -> bool {
        &&& self.symbol is None
        &&& self.kind is None
        &&& self.parent is None
        &&& self.signature is None
        &&& self.headings@.len() == 0
    }
}

impl Default for ChunkMeta {
    fn default() -> (r: Self)
        ensures
            r.is_empty(),
    {
        ChunkMeta { symbol: None, kind: None, parent: None, signature: None, headings: Vec::new() }
    }
}

/// Longest stored signature, in bytes.
pub const MAX_SIGNATURE_LEN: usize = 200;

// ---------------------------------------------------------------------------
// Definitions in code
// ---------------------------------------------------------------------------

/// What a node kind defines, or `None` if it is no definition.
pub open spec fn definition_kind(kind: Seq<char>) -> Option<Seq<char>> {
    if kind == "function_item"@ || kind == "function_definition"@ || kind
        == "function_declaration"@ {
        Some("function"@)
    } else if kind == "method_definition"@ || kind == "method_declaration"@ {
        Some("method"@)
    } else if kind == "constructor_declaration"@ {
        Some("constructor"@)
    } else if kind == "struct_item"@ || kind == "struct_specifier"@ {
        Some("struct"@)
    } else if kind == "enum_item"@ || kind == "enum_declaration"@ || kind == "enum_specifier"@ {
        Some("enum"@)
    } else if kind == "union_item"@ || kind == "union_specifier"@ {
        Some("union"@)
    } else if kind == "trait_item"@ {
        Some("trait"@)
    } else if kind == "impl_item"@ {
        Some("impl"@)
    } else if kind == "class_declaration"@ || kind == "class_definition"@ || kind
        == "class_specifier"@ {
        Some("class"@)
    } else if kind == "interface_declaration"@ {
        Some("interface"@)
    } else if kind == "mod_item"@ {
        Some("module"@)
    } else if kind == "type_item"@ || kind == "type_alias_declaration"@ || kind
        == "type_declaration"@ {
        Some("type"@)
    } else {
        None
    }
}

/// Whether a definition of this sort can hold others.
pub open spec fn container_kind(kind: Seq<char>) -> bool {
    kind == "impl"@ || kind == "class"@ || kind == "struct"@ || kind == "trait"@ || kind
        == "interface"@ || kind == "enum"@ || kind == "module"@ || kind == "union"@
}

/// The nearest definition at or above a node.
pub open spec fn nearest_definition_of(nodes: Seq<NodeFacts>, i: int) -> Option<int>
    decreases i,
{
    if definition_kind(nodes[i].kind) is Some {
        Some(i)
    } else {
        match syntax::parent_of(nodes, i) {
            Some(p) => if 0 <= p < i {
                nearest_definition_of(nodes, p)
            } else {
                None
            },
            None => None,
        }
    }
}

/// Maps a node kind to a definition label.
pub fn def_kind(raw: &str) -> (r: Option<&'static str>)
    ensures
        match r {
            Some(k) => definition_kind(raw@) == Some(k@),
            None => definition_kind(raw@) is None,
        },
{
    if text::same_text(raw, "function_item") || text::same_text(raw, "function_definition")
        || text::same_text(raw, "function_declaration") {
        Some("function")
    } else if text::same_text(raw, "method_definition") || text::same_text(
        raw,
        "method_declaration",
    ) {
        Some("method")
    } else if text::same_text(raw, "constructor_declaration") {
        Some("constructor")
    } else if text::same_text(raw, "struct_item") || text::same_text(raw, "struct_specifier") {
        Some("struct")
    } else if text::same_text(raw, "enum_item") || text::same_text(raw, "enum_declaration")
        || text::same_text(raw, "enum_specifier") {
        Some("enum")
    } else if text::same_text(raw, "union_item") || text::same_text(raw, "union_specifier") {
        Some("union")
    } else if text::same_text(raw, "trait_item") {
        Some("trait")
    } else if text::same_text(raw, "impl_item") {
        Some("impl")
    } else if text::same_text(raw, "class_declaration") || text::same_text(raw, "class_definition")
        || text::same_text(raw, "class_specifier") {
        Some("class")
    } else if text::same_text(raw, "interface_declaration") {
        Some("interface")
    } else if text::same_text(raw, "mod_item") {
        Some("module")
    } else if text::same_text(raw, "type_item") || text::same_text(raw, "type_alias_declaration")
        || text::same_text(raw, "type_declaration") {
        Some("type")
    } else {
        None
    }
}

/// Whether a definition label names a container.
pub fn is_container(kind: &str) -> (r: bool)
    ensures
        r == container_kind(kind@),
{
    text::same_text(kind, "impl") || text::same_text(kind, "class") || text::same_text(
        kind,
        "struct",
    ) || text::same_text(kind, "trait") || text::same_text(kind, "interface") || text::same_text(
        kind,
        "enum",
    ) || text::same_text(kind, "module") || text::same_text(kind, "union")
}

/// The nearest definition at or above a node.
pub fn nearest_definition(nodes: &Vec<SyntaxNode>, i: usize) -> (r: Option<usize>)
    requires
        i < nodes.len(),
    ensures
        match r {
            Some(d) => d <= i && nearest_definition_of(syntax::node_views(nodes@), i as int) == Some(
                d as int,
            ),
            None => nearest_definition_of(syntax::node_views(nodes@), i as int) is None,
        },
{
    let ghost views = syntax::node_views(nodes@);
    let mut at = i;
    loop
        invariant
            views == syntax::node_views(nodes@),
            at <= i < nodes.len(),
            nearest_definition_of(views, i as int) == nearest_definition_of(views, at as int),
        decreases at,
    {
        assert(views[at as int] == nodes@[at as int]@);
        if def_kind(nodes[at].kind.as_str()).is_some() {
            return Some(at);
        }
        match syntax::parent(nodes, at) {
            Some(p) => {
                at = p;
            },
            None => {
                return None;
            },
        }
    }
}

/// How a container is shown: its label, and its name if it has one.
pub open spec fn container_label(nodes: Seq<NodeFacts>, content: Seq<char>, i: int) -> Seq<char> {
    let kind = match definition_kind(nodes[i].kind) {
        Some(k) => k,
        None => nodes[i].kind,
    };
    match syntax::name_of_node(nodes, content, i) {
        Some(name) => kind + seq![' '] + name,
        None => kind,
    }
}

/// Label and name of a container.
pub fn describe_parent(nodes: &Vec<SyntaxNode>, content: &str, i: usize) -> (r: String)
    requires
        i < nodes.len(),
    ensures
        r@ == container_label(syntax::node_views(nodes@), content@, i as int),
{
    assert(syntax::node_views(nodes@)[i as int] == nodes@[i as int]@);
    let mut out = match def_kind(nodes[i].kind.as_str()) {
        Some(k) => k.to_string(),
        None => nodes[i].kind.clone(),
    };
    if let Some(name) = syntax::name_of(nodes, content, i) {
        out.push(' ');
        out.push_str(name.as_str());
    }
    assert(out@ =~= container_label(syntax::node_views(nodes@), content@, i as int));
    out
}

/// The test for characters that are no white space, as a predicate.
pub open spec fn not_white() -> spec_fn(char) -> bool {
    |c: char| !text::white_space(c)
}

/// A text with every run of white space turned into one blank, and none at the ends.
pub open spec fn collapsed(s: Seq<char>) -> Seq<char> {
    text::join(text::runs(s, not_white()), seq![' '])
}

/// The first `max` characters.
pub open spec fn clipped(s: Seq<char>, max: nat) -> Seq<char> {
    if s.len() > max {
        s.take(max as int)
    } else {
        s
    }
}

/// The longest start of a text that takes at most `max` bytes.
pub open spec fn within_bytes(s: Seq<char>, max: nat) -> Seq<char>
    decreases s.len(),
{
    if s.len() == 0 || store::utf8_len(s) <= max {
        s
    } else {
        within_bytes(s.drop_last(), max)
    }
}

/// The head of a definition: up to its first brace, or else up to the end of its
/// first line.
pub open spec fn definition_head(s: Seq<char>) -> Seq<char> {
    let brace = text::find_char(s, '{');
    if brace < s.len() {
        s.take(brace as int)
    } else {
        s.take(text::find_char(s, '\n') as int)
    }
}

/// One-line signature of a definition with this text.
pub open spec fn signature_text(s: Seq<char>) -> Option<Seq<char>> {
    let line = collapsed(definition_head(s));
    if line.len() == 0 {
        None
    } else {
        Some(within_bytes(line, MAX_SIGNATURE_LEN as nat))
    }
}

fn no_white(c: char) -> (b: bool)
    ensures
        b == not_white()(c),
{
    !c.is_whitespace()
}

/// A text with white space collapsed.
pub(crate) fn collapse(s: &str) -> (r: String)
    ensures
        r@ == collapsed(s@),
{
    let words = text::runs_of(s, no_white, Ghost(not_white()));
    proof {
        reveal_strlit(" ");
    }
    assert(" "@ =~= seq![' ']);
    text::joined(&words, " ")
}

/// Cuts a text to at most `max` characters.
pub fn truncate_chars(s: &str, max: usize) -> (r: String)
    ensures
        r@ == clipped(s@, max as nat),
{
    let cs = text::chars_of(s);
    if cs.len() > max {
        let r = text::string_of(&cs, 0, max);
        assert(r@ =~= s@.take(max as int));
        r
    } else {
        s.to_string()
    }
}

/// The number of characters at the start of a text that fit into `max` bytes.
fn fitting_chars(s: &str, max: usize) -> (n: usize)
    ensures
        n <= s@.len(),
        s@.take(n as int) == within_bytes(s@, max as nat),
{
    let cs = text::chars_of(s);
    let mut n: usize = if cs.len() < max {
        cs.len()
    } else {
        max
    };
    proof {
        lemma_within_start(s@, max as nat, n as int);
    }
    while n > 0
        invariant
            cs@ == s@,
            n <= cs.len(),
            within_bytes(s@.take(n as int), max as nat) == within_bytes(s@, max as nat),
        decreases n,
    {
        let start = text::string_of(&cs, 0, n);
        assert(start@ =~= s@.take(n as int));
        if text::byte_len(start.as_str()) <= max {
            return n;
        }
        assert(s@.take(n as int).drop_last() =~= s@.take(n - 1));
        n -= 1;
    }
    n
}

/// No character takes less than a byte.
proof fn lemma_bytes_cover_chars(s: Seq<char>)
    ensures
        store::utf8_len(s) >= s.len(),
    decreases s.len(),
{
    if s.len() > 0 {
        lemma_bytes_cover_chars(s.drop_first());
        assert(vstd::utf8::encode_scalar(s[0] as u32).len() > 0);
    }
}

proof fn lemma_within_start(s: Seq<char>, max: nat, n: int)
    requires
        0 <= n <= s.len(),
        n == max || n == s.len(),
    ensures
        within_bytes(s.take(n), max) == within_bytes(s, max),
    decreases s.len(),
{
    if n == s.len() {
        assert(s.take(n) =~= s);
    } else {
        lemma_bytes_cover_chars(s);
        lemma_within_start(s.drop_last(), max, n);
        assert(s.drop_last().take(n) =~= s.take(n));
    }
}

proof fn lemma_within_bytes(s: Seq<char>, max: nat)
    ensures
        store::utf8_len(within_bytes(s, max)) <= max,
        within_bytes(s, max).is_prefix_of(s),
    decreases s.len(),
{
    if s.len() > 0 && store::utf8_len(s) > max {
        lemma_within_bytes(s.drop_last(), max);
    }
}

/// Words with one blank between neighbours.
proof fn lemma_joined_words(list: Seq<Seq<char>>)
    requires
        forall|i: int| 0 <= i < list.len() ==> (#[trigger] list[i]).len() > 0,
        forall|i: int, j: int|
            0 <= i < list.len() && 0 <= j < list[i].len() ==> !text::white_space(
                #[trigger] list[i][j],
            ),
    ensures
        forall|k: int|
            0 <= k < text::join(list, seq![' ']).len() ==> {
                let c = #[trigger] text::join(list, seq![' '])[k];
                (c == ' ' && 0 < k && !text::white_space(text::join(list, seq![' '])[k - 1]))
                    || (!text::white_space(c) && among(list, c))
            },
        list.len() > 0 ==> text::join(list, seq![' ']).len() > 0 && !text::white_space(
            text::join(list, seq![' ']).last(),
        ),
    decreases list.len(),
{
    if list.len() == 1 {
        let all = text::join(list, seq![' ']);
        assert(all == list[0]);
        assert forall|k: int| 0 <= k < all.len() implies !text::white_space(#[trigger] all[k])
            && among(list, all[k]) by {
            assert(list[0][k] == all[k]);
            assert(list[0].contains(all[k]));
        }
    } else if list.len() > 1 {
        let init = list.drop_last();
        let rest = text::join(init, seq![' ']);
        let last = list.last();
        let all = text::join(list, seq![' ']);
        assert forall|i: int| 0 <= i < init.len() implies (#[trigger] init[i]).len() > 0 by {
            assert(init[i] == list[i]);
        }
        assert forall|i: int, j: int|
            0 <= i < init.len() && 0 <= j < init[i].len() implies !text::white_space(
            #[trigger] init[i][j],
        ) by {
            assert(init[i][j] == list[i][j]);
        }
        lemma_joined_words(init);
        let n = list.len() - 1;
        assert(last == list[n]);
        assert(all =~= rest + seq![' '] + last);
        assert forall|k: int| 0 <= k < all.len() implies {
            let c = #[trigger] all[k];
            (c == ' ' && 0 < k && !text::white_space(all[k - 1])) || (!text::white_space(c)
                && among(list, c))
        } by {
            if k < rest.len() {
                assert(all[k] == rest[k]);
                if among(init, rest[k]) {
                    let i = choose|i: int| 0 <= i < init.len() && (#[trigger] init[i]).contains(rest[k]);
                    assert(list[i].contains(rest[k]));
                }
            } else if k == rest.len() {
                assert(all[k - 1] == rest.last());
            } else {
                let j = k - rest.len() - 1;
                assert(all[k] == list[n][j]);
                assert(list[n].contains(all[k]));
            }
        }
        assert(all.last() == list[n][last.len() - 1]);
    }
}

/// Whether one of the words holds a character.
spec fn among(list: Seq<Seq<char>>, c: char) -> bool {
    exists|i: int| 0 <= i < list.len() && (#[trigger] list[i]).contains(c)
}

/// A signature stands on one line: it holds no white space but blanks, none after
/// another or at its start, and no brace.
pub proof fn signatures_stand_on_one_line(s: Seq<char>, i: int)
    requires
        signature_text(s) is Some,
        0 <= i < signature_text(s)->0.len(),
    ensures
        signature_text(s)->0[i] != '{',
        text::white_space(signature_text(s)->0[i]) ==> signature_text(s)->0[i] == ' ' && 0 < i
            && signature_text(s)->0[i - 1] != ' ',
{
    let head = definition_head(s);
    let line = collapsed(head);
    let words = text::runs(head, not_white());
    let sig = signature_text(s)->0;
    lemma_within_bytes(line, MAX_SIGNATURE_LEN as nat);
    assert forall|w: int| 0 <= w < words.len() implies (#[trigger] words[w]).len() > 0 by {
        text::lemma_run_chars(head, not_white(), w);
    }
    assert forall|w: int, j: int|
        0 <= w < words.len() && 0 <= j < words[w].len() implies !text::white_space(
        #[trigger] words[w][j],
    ) by {
        text::lemma_run_chars(head, not_white(), w);
        assert(not_white()(words[w][j]));
    }
    lemma_joined_words(words);
    assert(sig[i] == line[i]);
    if i > 0 {
        assert(sig[i - 1] == line[i - 1]);
    }
    if sig[i] == '{' {
        assert(!text::white_space('{'));
        let w = choose|w: int| 0 <= w < words.len() && (#[trigger] words[w]).contains('{');
        let j = choose|j: int| 0 <= j < words[w].len() && words[w][j] == '{';
        text::lemma_run_chars(head, not_white(), w);
        assert(head.contains(words[w][j]));
        let k = choose|k: int| 0 <= k < head.len() && head[k] == '{';
        text::lemma_prefix_len(s, text::other_than('{'));
        text::lemma_prefix_len(s, text::other_than('\n'));
        assert(s[k] == '{');
        assert(text::other_than('{')(s[k]));
    }
}

/// A signature is the start of the definition's head on one line, and never takes more
/// than the bytes that are kept for it.
pub proof fn signatures_are_bounded(s: Seq<char>)
    requires
        signature_text(s) is Some,
    ensures
        store::utf8_len(signature_text(s)->0) <= MAX_SIGNATURE_LEN,
        signature_text(s)->0.is_prefix_of(collapsed(definition_head(s))),
{
    lemma_within_bytes(collapsed(definition_head(s)), MAX_SIGNATURE_LEN as nat);
}

/// One-line signature of a definition with this text.
pub fn signature_line(s: &str) -> (r: Option<String>)
    ensures
        text::opt_text(r) == signature_text(s@),
        r is Some ==> store::utf8_len(r->0@) <= MAX_SIGNATURE_LEN,
{
    let cs = text::chars_of(s);
    assert(cs@.skip(0) =~= cs@);
    let brace = text::next_char(&cs, 0, '{');
    let end = if brace < cs.len() {
        brace
    } else {
        text::next_char(&cs, 0, '\n')
    };
    let head = text::string_of(&cs, 0, end);
    assert(head@ =~= definition_head(s@));
    let line = collapse(head.as_str());
    if line.as_str().is_empty() {
        None
    } else {
        let fit = fitting_chars(line.as_str(), MAX_SIGNATURE_LEN);
        proof {
            lemma_within_bytes(line@, MAX_SIGNATURE_LEN as nat);
            if fit == line@.len() {
                assert(line@.take(fit as int) =~= line@);
            }
        }
        Some(truncate_chars(line.as_str(), fit))
    }
}

/// The signature of the definition at `i`.
pub open spec fn node_signature(nodes: Seq<NodeFacts>, content: Seq<char>, i: int) -> Option<
    Seq<char>,
> {
    match syntax::node_text(content, nodes[i]) {
        Some(s) => signature_text(s),
        None => None,
    }
}

/// The container of the definition at `def`: the nearest definition above it, if that
/// can hold others.
pub open spec fn container_of(nodes: Seq<NodeFacts>, def: int) -> Option<int> {
    match syntax::parent_of(nodes, def) {
        None => None,
        Some(p) => match nearest_definition_of(nodes, p) {
            None => None,
            Some(c) => if definition_kind(nodes[c].kind) is Some && container_kind(
                definition_kind(nodes[c].kind)->0,
            ) {
                Some(c)
            } else {
                None
            },
        },
    }
}

/// Whether `m` describes the chunk whose smallest node is `at`: by the nearest
/// definition at or above that node, or as empty if there is none.
pub open spec fn describes_node(
    nodes: Seq<NodeFacts>,
    content: Seq<char>,
    at: int,
    m: ChunkMeta,
) -> bool {
    match nearest_definition_of(nodes, at) {
        None => m.is_empty(),
        Some(def) => {
            &&& text::opt_text(m.symbol) == syntax::name_of_node(nodes, content, def)
            &&& text::opt_text(m.kind) == definition_kind(nodes[def].kind)
            &&& text::opt_text(m.parent) == match container_of(nodes, def) {
                Some(c) => Some(container_label(nodes, content, c)),
                None => None,
            }
            &&& text::opt_text(m.signature) == node_signature(nodes, content, def)
            &&& m.headings@.len() == 0
        },
    }
}

/// Metadata of a chunk whose smallest node is `at`.
pub fn meta_at_node(nodes: &Vec<SyntaxNode>, content: &str, at: usize) -> (r: ChunkMeta)
    requires
        at < nodes.len(),
    ensures
        describes_node(syntax::node_views(nodes@), content@, at as int, r),
{
    let ghost views = syntax::node_views(nodes@);
    let def = match nearest_definition(nodes, at) {
        Some(d) => d,
        None => {
            return ChunkMeta::default();
        },
    };
    assert(views[def as int] == nodes@[def as int]@);
    let mut parent: Option<String> = None;
    if let Some(p) = syntax::parent(nodes, def) {
        if let Some(c) = nearest_definition(nodes, p) {
            assert(views[c as int] == nodes@[c as int]@);
            if let Some(k) = def_kind(nodes[c].kind.as_str()) {
                if is_container(k) {
                    parent = Some(describe_parent(nodes, content, c));
                }
            }
        }
    }
    let kind = match def_kind(nodes[def].kind.as_str()) {
        Some(k) => Some(k.to_string()),
        None => None,
    };
    let signature = match syntax::text_of_node(content, &nodes[def]) {
        Some(s) => signature_line(s.as_str()),
        None => None,
    };
    ChunkMeta {
        symbol: syntax::name_of(nodes, content, def),
        kind,
        parent,
        signature,
        headings: Vec::new(),
    }
}

// ---------------------------------------------------------------------------
// Headings in Markdown
// ---------------------------------------------------------------------------

/// A heading: its level, and its title.
pub struct Heading {
    pub level: usize,
    pub title: String,
}

/// Level and title of a line, if it is an ATX heading.
pub open spec fn atx_heading(line: Seq<char>) -> Option<(nat, Seq<char>)> {
    let body = text::drop_prefix(line, text::is_white());
    let level = text::prefix_len(body, text::same_as('#'));
    let rest = body.skip(level as int);
    let title = text::trim(text::drop_suffix(text::trim(rest), text::same_as('#')));
    if level == 0 || level > 6 {
        None
    } else if rest.len() == 0 || !(rest[0] == ' ' || rest[0] == '\t') {
        None
    } else if title.len() == 0 {
        None
    } else {
        Some((level, title))
    }
}

/// The predicate that keeps the headings of an outer level.
pub open spec fn outside_of(level: nat) -> spec_fn((nat, Seq<char>)) -> bool {
    |h: (nat, Seq<char>)| h.0 < level
}

/// The open headings after one more line: a heading closes those of its level and
/// below.
pub open spec fn after_line(open: Seq<(nat, Seq<char>)>, line: Seq<char>) -> Seq<(nat, Seq<char>)> {
    match atx_heading(line) {
        None => open,
        Some((level, title)) => open.filter(outside_of(level)).push((level, title)),
    }
}

/// Length of the first line of a text, with its ending.
pub open spec fn line_len(s: Seq<char>) -> int {
    let i = text::find_char(s, '\n') as int;
    if i < s.len() {
        i + 1
    } else {
        s.len() as int
    }
}

/// Bytes of white space that a line starts with.
pub open spec fn indent_bytes(line: Seq<char>) -> nat {
    store::utf8_len(line.take(text::prefix_len(line, text::is_white()) as int))
}

/// The headings that are open after the lines of `s`, as far as what stands behind
/// their indent starts in the first `left` bytes.
pub open spec fn open_headings(
    open: Seq<(nat, Seq<char>)>,
    s: Seq<char>,
    left: int,
) -> Seq<(nat, Seq<char>)>
    decreases s.len(),
{
    let n = line_len(s);
    if s.len() == 0 || left <= 0 || n <= 0 || n > s.len() {
        open
    } else {
        let line = s.take(n);
        let next = if indent_bytes(line) < left {
            after_line(open, line)
        } else {
            open
        };
        open_headings(next, s.skip(n), left - store::utf8_len(line))
    }
}

/// The titles of headings.
pub open spec fn titles(open: Seq<(nat, Seq<char>)>) -> Seq<Seq<char>> {
    open.map_values(|h: (nat, Seq<char>)| h.1)
}

/// The heading breadcrumb of a chunk that starts at byte `start`.
pub open spec fn breadcrumb(content: Seq<char>, start: int) -> Seq<Seq<char>> {
    titles(open_headings(seq![], content, start))
}

/// Parses an ATX heading.
pub fn parse_atx_heading(line: &str) -> (r: Option<Heading>)
    ensures
        match r {
            Some(h) => atx_heading(line@) == Some((h.level as nat, h.title@)),
            None => atx_heading(line@) is None,
        },
{
    let body = text::trimmed_start(line);
    let cs = text::chars_of(body.as_str());
    let mut level: usize = 0;
    while level < cs.len() && cs[level] == '#'
        invariant
            level <= cs.len(),
            forall|j: int| 0 <= j < level ==> text::same_as('#')(#[trigger] cs@[j]),
        decreases cs.len() - level,
    {
        level += 1;
    }
    proof {
        text::lemma_prefix_len_is(cs@, text::same_as('#'), level as int);
    }
    if level == 0 || level > 6 {
        return None;
    }
    if level >= cs.len() || !(cs[level] == ' ' || cs[level] == '\t') {
        return None;
    }
    let rest = text::string_of(&cs, level, cs.len());
    assert(rest@ =~= cs@.skip(level as int));
    let inner = text::trimmed(rest.as_str());
    let bare = text::without_trailing(inner.as_str(), '#');
    let title = text::trimmed(bare.as_str());
    if title.as_str().is_empty() {
        None
    } else {
        Some(Heading { level, title })
    }
}

/// The levels and titles of a list of headings.
pub open spec fn heading_views(list: Seq<Heading>) -> Seq<(nat, Seq<char>)> {
    list.map_values(|h: Heading| (h.level as nat, h.title@))
}

/// Closes the headings at `level` and below, and opens one.
fn open_heading(stack: Vec<Heading>, h: Heading) -> (r: Vec<Heading>)
    ensures
        heading_views(r@) == heading_views(stack@).filter(outside_of(h.level as nat)).push(
            (h.level as nat, h.title@),
        ),
{
    let ghost all = heading_views(stack@);
    let ghost keep = outside_of(h.level as nat);
    let ghost given = stack@;
    let mut kept: Vec<Heading> = Vec::new();
    proof {
        reveal(Seq::filter);
    }
    assert(all.take(0).filter(keep) =~= seq![]);
    assert(heading_views(kept@) =~= seq![]);
    for x in it: stack
        invariant
            it.seq() == given,
            all == heading_views(given),
            keep == outside_of(h.level as nat),
            heading_views(kept@) == all.take(it.index() as int).filter(keep),
    {
        proof {
            reveal(Seq::filter);
            assert(all.take(it.index() + 1).drop_last() =~= all.take(it.index() as int));
            assert(all.take(it.index() + 1).last() == (x.level as nat, x.title@));
        }
        let ghost before = kept@;
        if x.level < h.level {
            kept.push(x);
            assert(heading_views(kept@) =~= heading_views(before).push((x.level as nat, x.title@)));
        }
    }
    assert(all.take(all.len() as int) =~= all);
    let ghost before = kept@;
    kept.push(h);
    assert(heading_views(kept@) =~= heading_views(before).push((h.level as nat, h.title@)));
    kept
}

/// Ancestor headings of a chunk that starts at a byte: those whose mark stands before
/// it. A heading that the chunk itself starts with is part of its text, and not listed.
pub fn markdown_headings(content: &str, chunk_start_byte: usize) -> (r: Vec<String>)
    ensures
        text::texts(r@) == breadcrumb(content@, chunk_start_byte as int),
{
    let cs = text::chars_of(content);
    let ghost target = open_headings(seq![], content@, chunk_start_byte as int);
    let mut stack: Vec<Heading> = Vec::new();
    let mut at: usize = 0;
    let mut left: usize = chunk_start_byte;
    assert(cs@.skip(0) =~= content@);
    assert(heading_views(stack@) =~= seq![]);
    while at < cs.len() && left > 0
        invariant
            cs@ == content@,
            at <= cs.len(),
            open_headings(heading_views(stack@), cs@.skip(at as int), left as int) == target,
        decreases cs.len() - at,
    {
        let ghost rest = cs@.skip(at as int);
        let ghost from = at as int;
        let stop = text::next_char(&cs, at, '\n');
        let end = if stop < cs.len() {
            stop + 1
        } else {
            stop
        };
        let line = text::string_of(&cs, at, end);
        proof {
            assert(line_len(rest) == end - at);
            assert(line@ =~= rest.take(end - at));
            assert(rest.skip(end - at) =~= cs@.skip(end as int));
        }
        let size = text::byte_len(line.as_str());
        let body = text::trimmed_start(line.as_str());
        let past_indent = text::byte_len(body.as_str());
        proof {
            lemma_indent(line@);
        }
        if size - past_indent < left {
            if let Some(h) = parse_atx_heading(line.as_str()) {
                stack = open_heading(stack, h);
            }
        }
        at = end;
        let ghost used = left as int;
        if size >= left {
            proof {
                lemma_no_bytes_left(heading_views(stack@), cs@.skip(at as int), used - size);
                lemma_no_bytes_left(heading_views(stack@), cs@.skip(at as int), 0);
            }
            left = 0;
        } else {
            left = left - size;
        }
    }
    proof {
        if left == 0 {
            lemma_no_bytes_left(heading_views(stack@), cs@.skip(at as int), 0);
        }
        assert(target == heading_views(stack@));
    }
    let mut out: Vec<String> = Vec::new();
    let ghost all = stack@;
    for h in it: stack
        invariant
            it.seq() == all,
            text::texts(out@) == titles(heading_views(all)).take(it.index() as int),
    {
        let title = h.title;
        proof {
            text::lemma_texts_push(out@, title);
            assert(titles(heading_views(all))[it.index() as int] == title@);
        }
        out.push(title);
        assert(text::texts(out@) =~= titles(heading_views(all)).take(it.index() + 1));
    }
    assert(titles(heading_views(all)).take(all.len() as int) =~= titles(heading_views(all)));
    out
}

proof fn lemma_indent(line: Seq<char>)
    ensures
        store::utf8_len(line) == indent_bytes(line) + store::utf8_len(
            text::drop_prefix(line, text::is_white()),
        ),
{
    let n = text::prefix_len(line, text::is_white()) as int;
    text::lemma_prefix_len(line, text::is_white());
    text::lemma_encode_concat(line.take(n), line.skip(n));
    assert(line =~= line.take(n) + line.skip(n));
}

proof fn lemma_no_bytes_left(open: Seq<(nat, Seq<char>)>, s: Seq<char>, left: int)
    requires
        left <= 0,
    ensures
        open_headings(open, s, left) == open,
{
}

/// Whether levels strictly increase from outside in.
pub open spec fn nested(open: Seq<(nat, Seq<char>)>) -> bool {
    forall|i: int, j: int| 0 <= i < j < open.len() ==> (#[trigger] open[i]).0 < (#[trigger] open[j]).0
}

proof fn lemma_filter_nested(open: Seq<(nat, Seq<char>)>, level: nat)
    requires
        nested(open),
    ensures
        nested(open.filter(outside_of(level))),
        forall|i: int|
            0 <= i < open.filter(outside_of(level)).len() ==> (#[trigger] open.filter(
                outside_of(level),
            )[i]).0 < level && open.contains(open.filter(outside_of(level))[i]),
    decreases open.len(),
{
    reveal(Seq::filter);
    let keep = outside_of(level);
    if open.len() > 0 {
        let init = open.drop_last();
        lemma_filter_nested(init, level);
        let rest = init.filter(keep);
        let all = open.filter(keep);
        assert forall|i: int| 0 <= i < all.len() implies (#[trigger] all[i]).0 < level
            && open.contains(all[i]) by {
            if i < rest.len() {
                assert(init.contains(rest[i]));
                let k = choose|k: int| 0 <= k < init.len() && init[k] == rest[i];
                assert(open[k] == all[i]);
            } else {
                assert(open[open.len() - 1] == all[i]);
            }
        }
        assert forall|i: int, j: int| 0 <= i < j < all.len() implies (#[trigger] all[i]).0 < (
        #[trigger] all[j]).0 by {
            assert(all[i] == rest[i]);
            if j < rest.len() {
                assert(all[j] == rest[j]);
            } else {
                assert(init.contains(rest[i]));
                let k = choose|k: int| 0 <= k < init.len() && init[k] == rest[i];
                assert(open[k].0 < open[open.len() - 1].0);
            }
        }
    }
}

/// The headings of a breadcrumb are properly nested: each is of a deeper level than
/// the one before it.
pub proof fn breadcrumb_is_nested(open: Seq<(nat, Seq<char>)>, s: Seq<char>, left: int)
    requires
        nested(open),
    ensures
        nested(open_headings(open, s, left)),
    decreases s.len(),
{
    let n = line_len(s);
    if !(s.len() == 0 || left <= 0 || n <= 0 || n > s.len()) {
        let line = s.take(n);
        match atx_heading(line) {
            None => {},
            Some((level, title)) => {
                lemma_filter_nested(open, level);
            },
        }
        let next = if indent_bytes(line) < left {
            after_line(open, line)
        } else {
            open
        };
        breadcrumb_is_nested(next, s.skip(n), left - store::utf8_len(line));
    }
}

// ---------------------------------------------------------------------------
// Metadata of a file's chunks
// ---------------------------------------------------------------------------

/// A file that was parsed once, ready to describe each of its chunks.
pub struct FileAnalysis<'a> {
    lang: Lang,
    content: &'a str,
    tree: Option<tree_sitter::Tree>,
    nodes: Vec<SyntaxNode>,
}

/// End of the range that a chunk is looked up by: at least one byte, within the file.
pub open spec fn lookup_end(start: int, end: int, size: int) -> int {
    let least = if end < start + 1 {
        start + 1
    } else {
        end
    };
    if least < size {
        least
    } else {
        size
    }
}

/// Start of the range that a chunk is looked up by.
pub open spec fn lookup_start(start: int, end: int, size: int) -> int {
    let stop = lookup_end(start, end, size);
    if start < stop {
        start
    } else {
        stop - 1
    }
}

/// The nodes of a file, if its language has a grammar and it parses.
pub open spec fn file_nodes(lang: Lang, content: Seq<char>) -> Option<Seq<NodeFacts>> {
    match chunk::lang_grammar(lang) {
        Some(g) => syntax::parsed_nodes(g, content),
        None => None,
    }
}

/// Whether `m` is the metadata of the chunk `start..end` of a file with these nodes:
/// the breadcrumb for Markdown, else what the smallest node around the chunk says.
pub open spec fn describes_chunk(
    lang: Lang,
    content: Seq<char>,
    nodes: Option<Seq<NodeFacts>>,
    start: int,
    end: int,
    m: ChunkMeta,
) -> bool {
    let size = store::utf8_len(content) as int;
    if lang == Lang::Markdown {
        &&& m.symbol is None && m.kind is None && m.parent is None && m.signature is None
        &&& text::texts(m.headings@) == breadcrumb(content, start)
    } else if nodes is None || nodes->0.len() == 0 || size == 0 {
        m.is_empty()
    } else {
        exists|at: int| #[trigger]
            syntax::is_smallest(
                nodes->0,
                lookup_start(start, end, size) as nat,
                lookup_end(start, end, size) as nat,
                at,
            ) && describes_node(nodes->0, content, at, m)
    }
}

impl<'a> FileAnalysis<'a> {
    #[verifier::type_invariant]
    spec fn inv(self) -> bool {
        &&& self.tree is Some ==> syntax::node_views(self.nodes@) == syntax::tree_nodes(
            self.tree->0,
        )
        &&& self.tree is Some ==> store::utf8_len(self.content@) <= u32::MAX
    }

    pub closed spec fn lang_of(self) -> Lang {
        self.lang
    }

    pub closed spec fn content_of(self) -> Seq<char> {
        self.content@
    }

    /// The nodes of the file, if it was parsed.
    pub closed spec fn nodes_of(self) -> Option<Seq<NodeFacts>> {
        match self.tree {
            Some(_) => Some(syntax::node_views(self.nodes@)),
            None => None,
        }
    }

    /// Parses a file of a code language once; prose is not parsed.
    pub fn new(content: &'a str, lang: Lang) -> (r: Self)
        requires
            chunk::lang_grammar(lang) is Some ==> store::utf8_len(content@) <= u32::MAX,
        ensures
            r.lang_of() == lang,
            r.content_of() == content@,
            r.nodes_of() == file_nodes(lang, content@),
    {
        let tree = match lang.grammar() {
            Some(g) => syntax::parse(g, content),
            None => None,
        };
        let nodes = match &tree {
            Some(t) => syntax::nodes_of(t),
            None => Vec::new(),
        };
        FileAnalysis { lang, content, tree, nodes }
    }

    /// Metadata of the chunk that covers the bytes `start_byte..end_byte`.
    pub fn meta_for(&self, start_byte: usize, end_byte: usize) -> (r: ChunkMeta)
        requires
            start_byte < usize::MAX,
        ensures
            describes_chunk(
                self.lang_of(),
                self.content_of(),
                self.nodes_of(),
                start_byte as int,
                end_byte as int,
                r,
            ),
    {
        proof {
            use_type_invariant(self);
        }
        if self.lang == Lang::Markdown {
            return ChunkMeta {
                symbol: None,
                kind: None,
                parent: None,
                signature: None,
                headings: markdown_headings(self.content, start_byte),
            };
        }
        let tree = match &self.tree {
            Some(t) => t,
            None => {
                return ChunkMeta::default();
            },
        };
        let size = text::byte_len(self.content);
        if size == 0 || self.nodes.len() == 0 {
            return ChunkMeta::default();
        }
        let least = if end_byte < start_byte + 1 {
            start_byte + 1
        } else {
            end_byte
        };
        let end = if least < size {
            least
        } else {
            size
        };
        let start = if start_byte < end {
            start_byte
        } else {
            end - 1
        };
        let ghost nodes = syntax::tree_nodes(*tree);
        assert(nodes.len() == self.nodes@.len());
        assert(start == lookup_start(start_byte as int, end_byte as int, size as int));
        assert(end == lookup_end(start_byte as int, end_byte as int, size as int));
        match syntax::smallest_around(tree, start, end) {
            Some(at) => {
                let m = meta_at_node(&self.nodes, self.content, at);
                assert(syntax::is_smallest(
                    self.nodes_of()->0,
                    lookup_start(start_byte as int, end_byte as int, size as int) as nat,
                    lookup_end(start_byte as int, end_byte as int, size as int) as nat,
                    at as int,
                ));
                assert(describes_node(self.nodes_of()->0, self.content_of(), at as int, m));
                m
            },
            None => ChunkMeta::default(),
        }
    }
}

/// Whether every node lies within its parent.
pub open spec fn well_nested(nodes: Seq<NodeFacts>) -> bool {
    forall|i: int|
        0 <= i < nodes.len() ==> (#[trigger] syntax::parent_of(nodes, i) matches Some(p)
            ==> nodes[p].start <= nodes[i].start && nodes[i].end <= nodes[p].end)
}

/// The definition that a chunk is described by contains the chunk: it covers all that
/// the chunk's smallest node covers. So a chunk that straddles two definitions is
/// never given the name of one of them.
pub proof fn definition_contains_the_chunk(
    nodes: Seq<NodeFacts>,
    at: int,
    start: nat,
    end: nat,
)
    requires
        0 <= at < nodes.len(),
        well_nested(nodes),
        syntax::covers(nodes[at], start, end),
    ensures
        nearest_definition_of(nodes, at) matches Some(d) ==> 0 <= d <= at && syntax::covers(
            nodes[d],
            start,
            end,
        ) && definition_kind(nodes[d].kind) is Some,
    decreases at,
{
    if definition_kind(nodes[at].kind) is None {
        syntax::lemma_enclosing(nodes, nodes[at].depth, at - 1);
        match syntax::parent_of(nodes, at) {
            Some(p) => {
                if 0 <= p < at {
                    definition_contains_the_chunk(nodes, p, start, end);
                }
            },
            None => {},
        }
    }
}

// ---------------------------------------------------------------------------
// Texts and keys
// ---------------------------------------------------------------------------

/// One header line, or nothing for an empty value.
pub open spec fn header_line(key: Seq<char>, value: Seq<char>) -> Seq<char> {
    if value.len() == 0 {
        seq![]
    } else {
        key + ": "@ + value + seq!['\n']
    }
}

/// One header line, or nothing for an absent value.
pub open spec fn opt_line(key: Seq<char>, value: Option<String>) -> Seq<char> {
    match value {
        Some(v) => header_line(key, v@),
        None => seq![],
    }
}

/// The header and text of a chunk that are embedded. Fields that are absent or empty
/// leave no line.
pub open spec fn ranking(path: Seq<char>, lang: Lang, meta: ChunkMeta, raw: Seq<char>) -> Seq<char> {
    header_line("path"@, path) + header_line("language"@, chunk::lang_name(lang)) + header_line(
        "section"@,
        text::join(text::texts(meta.headings@), " > "@),
    ) + opt_line("symbol"@, meta.symbol) + opt_line("kind"@, meta.kind) + opt_line(
        "parent"@,
        meta.parent,
    ) + opt_line("signature"@, meta.signature) + "---\n"@ + raw
}

fn push_line(out: &mut String, key: &str, value: &str)
    ensures
        final(out)@ == old(out)@ + header_line(key@, value@),
{
    if !value.is_empty() {
        out.push_str(key);
        out.push_str(": ");
        out.push_str(value);
        out.push('\n');
    }
    assert(out@ =~= old(out)@ + header_line(key@, value@));
}

fn push_opt_line(out: &mut String, key: &str, value: &Option<String>)
    ensures
        final(out)@ == old(out)@ + opt_line(key@, *value),
{
    match value {
        Some(v) => push_line(out, key, v.as_str()),
        None => {
            assert(out@ =~= old(out)@ + opt_line(key@, *value));
        },
    }
}

/// The text of a chunk that is embedded: a header with its path, language and
/// metadata, and then the raw text.
pub fn ranking_text(path: &str, lang: Lang, meta: &ChunkMeta, raw: &str) -> (r: String)
    ensures
        r@ == ranking(path@, lang, *meta, raw@),
{
    let mut out = String::new();
    push_line(&mut out, "path", path);
    push_line(&mut out, "language", lang.name());
    let section = text::joined(&meta.headings, " > ");
    push_line(&mut out, "section", section.as_str());
    push_opt_line(&mut out, "symbol", &meta.symbol);
    push_opt_line(&mut out, "kind", &meta.kind);
    push_opt_line(&mut out, "parent", &meta.parent);
    push_opt_line(&mut out, "signature", &meta.signature);
    out.push_str("---\n");
    out.push_str(raw);
    assert(out@ =~= ranking(path@, lang, *meta, raw@));
    out
}

/// What identifies a chunk, as one text: path, language, first and last byte, and the
/// raw text, separated by NUL.
pub open spec fn chunk_descriptor(
    path: Seq<char>,
    lang: Lang,
    start: nat,
    end: nat,
    raw: Seq<char>,
) -> Seq<char> {
    let range = text::nul_field(text::decimal(start), text::nul_field(text::decimal(end), raw));
    text::nul_field(path, text::nul_field(chunk::lang_name(lang), range))
}

/// The identifier of a chunk: the format version, and the hash of its descriptor.
pub open spec fn chunk_id_text(
    path: Seq<char>,
    lang: Lang,
    start: nat,
    end: nat,
    raw: Seq<char>,
) -> Seq<char> {
    "1-"@ + text::hex(
        hash::xxh3_128(
            vstd::utf8::encode_utf8(chunk_descriptor(path, lang, start, end, raw)),
        ) as nat,
        32,
    )
}

/// Public, versioned, deterministic identifier of a chunk.
pub fn chunk_id(path: &str, lang: Lang, start_byte: usize, end_byte: usize, raw: &str) -> (r: String)
    ensures
        r@ == chunk_id_text(path@, lang, start_byte as nat, end_byte as nat, raw@),
{
    let start = text::decimal_text(start_byte);
    let end = text::decimal_text(end_byte);
    let ghost tail = text::nul_field(end@, raw@);
    let ghost range = text::nul_field(start@, tail);
    let ghost named = text::nul_field(chunk::lang_name(lang), range);
    let ghost whole = text::nul_field(path@, named);
    let mut d = String::new();
    assert(d@ + whole =~= whole);
    text::push_nul_field(&mut d, path, Ghost(named));
    text::push_nul_field(&mut d, lang.name(), Ghost(range));
    text::push_nul_field(&mut d, start.as_str(), Ghost(tail));
    text::push_nul_field(&mut d, end.as_str(), Ghost(raw@));
    d.push_str(raw);
    assert(d@ == whole);
    let h = hash::hash_128(d.as_str().as_bytes());
    let mut out = "1-".to_string();
    text::push_hex(&mut out, h, 32);
    out
}

/// The key of a vector in the embedding cache: a hash of the ingest fingerprint and
/// the embedded text. The place of the chunk has no part in it.
pub open spec fn cache_key(ingest_fingerprint: u64, ranking_text: Seq<char>) -> u64 {
    hash::xxh3_64(
        store::le_bytes(ingest_fingerprint as nat, 8) + vstd::utf8::encode_utf8(ranking_text),
    )
}

/// The key of a vector in the embedding cache.
pub fn embedding_key(ingest_fingerprint: u64, ranking_text: &str) -> (r: u64)
    ensures
        r == cache_key(ingest_fingerprint, ranking_text@),
{
    let mut bytes: Vec<u8> = Vec::new();
    store::push_le(&mut bytes, ingest_fingerprint, 8);
    bytes.extend_from_slice(ranking_text.as_bytes());
    assert(bytes@ =~= store::le_bytes(ingest_fingerprint as nat, 8) + vstd::utf8::encode_utf8(
        ranking_text@,
    ));
    hash::hash_64(bytes.as_slice())
}

// ---------------------------------------------------------------------------
// Provenance
// ---------------------------------------------------------------------------

/// Where a fetched document comes from, and when it was fetched.
#[derive(Debug, Clone, PartialEq, Eq)]
pub struct Provenance {
    pub source: Option<String>,
    pub corpus_source: Option<String>,
    pub fetched: Option<String>,
}

impl Default for Provenance {
    fn default() -> (r: Self)
        ensures
            r.source is None && r.corpus_source is None && r.fetched is None,
    {
        Provenance { source: None, corpus_source: None, fetched: None }
    }
}

/// The values of a frontmatter block.
pub struct ProvenanceFacts {
    pub source: Option<Seq<char>>,
    pub corpus_source: Option<Seq<char>>,
    pub fetched: Option<Seq<char>>,
}

impl View for Provenance {
    type V = ProvenanceFacts;

    open spec fn view(&self) -> ProvenanceFacts {
        ProvenanceFacts {
            source: text::opt_text(self.source),
            corpus_source: text::opt_text(self.corpus_source),
            fetched: text::opt_text(self.fetched),
        }
    }
}

/// What stands between `q` at both ends of a text, if it does.
pub open spec fn between(s: Seq<char>, q: char) -> Option<Seq<char>> {
    if s.len() >= 2 && s[0] == q && s.last() == q {
        Some(s.subrange(1, s.len() - 1))
    } else {
        None
    }
}

/// A value without surrounding white space and one layer of matching quotes.
pub open spec fn unquoted(value: Seq<char>) -> Seq<char> {
    let v = text::trim(value);
    match between(v, '"') {
        Some(inner) => inner,
        None => match between(v, '\'') {
            Some(inner) => inner,
            None => v,
        },
    }
}

/// The values after one line of a block: a line sets the value whose key it starts
/// with.
pub open spec fn after_key_line(p: ProvenanceFacts, line: Seq<char>) -> ProvenanceFacts {
    if text::starts_with(line, "source:"@) {
        ProvenanceFacts {
            source: Some(unquoted(line.skip("source:"@.len() as int))),
            corpus_source: p.corpus_source,
            fetched: p.fetched,
        }
    } else if text::starts_with(line, "corpus_source:"@) {
        ProvenanceFacts {
            source: p.source,
            corpus_source: Some(unquoted(line.skip("corpus_source:"@.len() as int))),
            fetched: p.fetched,
        }
    } else if text::starts_with(line, "fetched:"@) {
        ProvenanceFacts {
            source: p.source,
            corpus_source: p.corpus_source,
            fetched: Some(unquoted(line.skip("fetched:"@.len() as int))),
        }
    } else {
        p
    }
}

/// The values after the lines of a block, up to the line that closes it.
pub open spec fn after_block(p: ProvenanceFacts, lines: Seq<Seq<char>>) -> ProvenanceFacts
    decreases lines.len(),
{
    if lines.len() == 0 {
        p
    } else {
        let line = text::drop_suffix(lines[0], text::is_white());
        if line == "---"@ {
            p
        } else {
            after_block(after_key_line(p, line), lines.drop_first())
        }
    }
}

/// No provenance.
pub open spec fn no_provenance() -> ProvenanceFacts {
    ProvenanceFacts { source: None, corpus_source: None, fetched: None }
}

/// The provenance that a file states in a leading frontmatter block.
pub open spec fn provenance_of(content: Seq<char>) -> ProvenanceFacts {
    if text::starts_with(content, "---\n"@) {
        after_block(no_provenance(), text::lines(content.skip("---\n"@.len() as int)))
    } else if text::starts_with(content, "---\r\n"@) {
        after_block(no_provenance(), text::lines(content.skip("---\r\n"@.len() as int)))
    } else {
        no_provenance()
    }
}

/// A value without surrounding white space and one layer of matching quotes.
pub fn unquote(value: &str) -> (r: String)
    ensures
        r@ == unquoted(value@),
{
    let v = text::trimmed(value);
    let cs = text::chars_of(v.as_str());
    let n: usize = cs.len();
    if n >= 2 && ((cs[0] == '"' && cs[n - 1] == '"') || (cs[0] == '\'' && cs[n - 1] == '\'')) {
        text::string_of(&cs, 1, n - 1)
    } else {
        v
    }
}

/// Reads source URL, corpus URL and fetch time from a leading frontmatter block. Other
/// keys are ignored; a file without such a block has no provenance.
pub fn frontmatter_provenance(content: &str) -> (r: Provenance)
    ensures
        r@ == provenance_of(content@),
{
    let mut prov = Provenance::default();
    assert(prov@ == no_provenance());
    let body = match text::after_prefix(content, "---\n") {
        Some(rest) => rest,
        None => match text::after_prefix(content, "---\r\n") {
            Some(rest) => rest,
            None => {
                return prov;
            },
        },
    };
    let list = text::split_lines(body.as_str());
    let ghost all = text::texts(list@);
    let mut i: usize = 0;
    assert(all.skip(0) =~= all);
    while i < list.len()
        invariant
            all == text::texts(list@),
            i <= list.len(),
            after_block(prov@, all.skip(i as int)) == provenance_of(content@),
        decreases list.len() - i,
    {
        let line = text::trimmed_end(list[i].as_str());
        proof {
            assert(all.skip(i as int)[0] == list@[i as int]@);
            assert(all.skip(i as int).drop_first() =~= all.skip(i + 1));
        }
        if text::same_text(line.as_str(), "---") {
            return prov;
        }
        if let Some(value) = text::after_prefix(line.as_str(), "source:") {
            prov.source = Some(unquote(value.as_str()));
        } else if let Some(value) = text::after_prefix(line.as_str(), "corpus_source:") {
            prov.corpus_source = Some(unquote(value.as_str()));
        } else if let Some(value) = text::after_prefix(line.as_str(), "fetched:") {
            prov.fetched = Some(unquote(value.as_str()));
        }
        i += 1;
    }
    prov
}

// ---------------------------------------------------------------------------
// Laws
// ---------------------------------------------------------------------------

proof fn lemma_lang_name_plain(lang: Lang)
    ensures
        !chunk::lang_name(lang).contains('\0'),
{
    reveal_strlit("md");
    reveal_strlit("rust");
    reveal_strlit("python");
    reveal_strlit("javascript");
    reveal_strlit("typescript");
    reveal_strlit("go");
    reveal_strlit("java");
    reveal_strlit("cpp");
    reveal_strlit("c");
    reveal_strlit("text");
    let name = chunk::lang_name(lang);
    assert forall|i: int| 0 <= i < name.len() implies name[i] != '\0' by {}
}

/// Two languages never share a name.
pub proof fn lang_names_are_distinct(a: Lang, b: Lang)
    ensures
        chunk::lang_name(a) == chunk::lang_name(b) ==> a == b,
{
    reveal_strlit("md");
    reveal_strlit("rust");
    reveal_strlit("python");
    reveal_strlit("javascript");
    reveal_strlit("typescript");
    reveal_strlit("go");
    reveal_strlit("java");
    reveal_strlit("cpp");
    reveal_strlit("c");
    reveal_strlit("text");
    let x = chunk::lang_name(a);
    let y = chunk::lang_name(b);
    if x == y {
        assert(x.len() == y.len());
        assert(x[0] == y[0]);
    }
}

proof fn lemma_decimal_plain(n: nat)
    ensures
        !text::decimal(n).contains('\0'),
{
    text::lemma_decimal_digits(n);
}

/// A descriptor tells all that it was made of: whenever any identifying field of a
/// chunk changes, what is hashed for its identifier changes. Paths hold no NUL.
pub proof fn chunk_descriptor_is_unambiguous(
    path_a: Seq<char>,
    lang_a: Lang,
    start_a: nat,
    end_a: nat,
    raw_a: Seq<char>,
    path_b: Seq<char>,
    lang_b: Lang,
    start_b: nat,
    end_b: nat,
    raw_b: Seq<char>,
)
    requires
        !path_a.contains('\0'),
        !path_b.contains('\0'),
        chunk_descriptor(path_a, lang_a, start_a, end_a, raw_a) == chunk_descriptor(
            path_b,
            lang_b,
            start_b,
            end_b,
            raw_b,
        ),
    ensures
        path_a == path_b,
        lang_a == lang_b,
        start_a == start_b,
        end_a == end_b,
        raw_a == raw_b,
{
    let a3 = text::nul_field(text::decimal(end_a), raw_a);
    let b3 = text::nul_field(text::decimal(end_b), raw_b);
    let a2 = text::nul_field(text::decimal(start_a), a3);
    let b2 = text::nul_field(text::decimal(start_b), b3);
    let a1 = text::nul_field(chunk::lang_name(lang_a), a2);
    let b1 = text::nul_field(chunk::lang_name(lang_b), b2);
    path::lemma_terminated(path_a, path_b, '\0', a1, b1);
    lemma_lang_name_plain(lang_a);
    lemma_lang_name_plain(lang_b);
    path::lemma_terminated(chunk::lang_name(lang_a), chunk::lang_name(lang_b), '\0', a2, b2);
    lang_names_are_distinct(lang_a, lang_b);
    lemma_decimal_plain(start_a);
    lemma_decimal_plain(start_b);
    path::lemma_terminated(text::decimal(start_a), text::decimal(start_b), '\0', a3, b3);
    text::lemma_decimal_injective(start_a, start_b);
    lemma_decimal_plain(end_a);
    lemma_decimal_plain(end_b);
    path::lemma_terminated(text::decimal(end_a), text::decimal(end_b), '\0', raw_a, raw_b);
    text::lemma_decimal_injective(end_a, end_b);
}

/// An identifier carries its format version and has a fixed length.
pub proof fn chunk_id_is_versioned(
    path: Seq<char>,
    lang: Lang,
    start: nat,
    end: nat,
    raw: Seq<char>,
)
    ensures
        text::starts_with(chunk_id_text(path, lang, start, end, raw), "1-"@),
        chunk_id_text(path, lang, start, end, raw).len() == 34,
{
    reveal_strlit("1-");
    let id = chunk_id_text(path, lang, start, end, raw);
    let digits = text::hex(
        hash::xxh3_128(
            vstd::utf8::encode_utf8(chunk_descriptor(path, lang, start, end, raw)),
        ) as nat,
        32,
    );
    text::lemma_hex_len(
        hash::xxh3_128(
            vstd::utf8::encode_utf8(chunk_descriptor(path, lang, start, end, raw)),
        ) as nat,
        32,
    );
    assert(id == "1-"@ + digits);
    assert(id.subrange(0, 2) =~= "1-"@);
}

/// A line that closes a frontmatter block.
pub open spec fn closes_block(line: Seq<char>) -> bool {
    text::drop_suffix(line, text::is_white()) == "---"@
}

/// The value on the last of the lines that start with a key.
pub open spec fn last_value(lines: Seq<Seq<char>>, key: Seq<char>) -> Option<Seq<char>>
    decreases lines.len(),
{
    if lines.len() == 0 {
        None
    } else {
        let line = text::drop_suffix(lines.last(), text::is_white());
        if text::starts_with(line, key) {
            Some(unquoted(line.skip(key.len() as int)))
        } else {
            last_value(lines.drop_last(), key)
        }
    }
}

proof fn lemma_after_block_concat(p: ProvenanceFacts, a: Seq<Seq<char>>, b: Seq<Seq<char>>)
    requires
        forall|i: int| 0 <= i < a.len() ==> !closes_block(#[trigger] a[i]),
    ensures
        after_block(p, a + b) == after_block(after_block(p, a), b),
    decreases a.len(),
{
    if a.len() == 0 {
        assert(a + b =~= b);
    } else {
        let line = text::drop_suffix(a[0], text::is_white());
        assert(!closes_block(a[0]));
        assert((a + b)[0] == a[0]);
        assert((a + b).drop_first() =~= a.drop_first() + b);
        assert forall|i: int| 0 <= i < a.drop_first().len() implies !closes_block(
            #[trigger] a.drop_first()[i],
        ) by {
            assert(a.drop_first()[i] == a[i + 1]);
        }
        lemma_after_block_concat(after_key_line(p, line), a.drop_first(), b);
    }
}

/// In a block that is not closed the last line of each key counts.
proof fn lemma_last_values(lines: Seq<Seq<char>>)
    requires
        forall|i: int| 0 <= i < lines.len() ==> !closes_block(#[trigger] lines[i]),
    ensures
        after_block(no_provenance(), lines) == (ProvenanceFacts {
            source: last_value(lines, "source:"@),
            corpus_source: last_value(lines, "corpus_source:"@),
            fetched: last_value(lines, "fetched:"@),
        }),
    decreases lines.len(),
{
    if lines.len() > 0 {
        let init = lines.drop_last();
        let one = seq![lines.last()];
        assert forall|i: int| 0 <= i < init.len() implies !closes_block(#[trigger] init[i]) by {
            assert(init[i] == lines[i]);
        }
        assert(lines =~= init + one);
        lemma_after_block_concat(no_provenance(), init, one);
        lemma_last_values(init);
        let line = text::drop_suffix(lines.last(), text::is_white());
        assert(!closes_block(lines[lines.len() - 1]));
        assert(one.drop_first() =~= seq![]);
        let p = after_block(no_provenance(), init);
        assert(after_block(after_key_line(p, line), one.drop_first()) == after_key_line(p, line));
        reveal_strlit("source:");
        reveal_strlit("corpus_source:");
        reveal_strlit("fetched:");
        if text::starts_with(line, "source:"@) {
            assert(line.subrange(0, 7)[0] == 's');
        }
        if text::starts_with(line, "corpus_source:"@) {
            assert(line.subrange(0, 14)[0] == 'c');
        }
        if text::starts_with(line, "fetched:"@) {
            assert(line.subrange(0, 8)[0] == 'f');
        }
    }
}

/// Provenance stands in the block that a file starts with, and nowhere else: of each key
/// the last line of the block counts, and nothing behind the line that closes it.
pub proof fn provenance_stands_in_the_block(
    opening: Seq<char>,
    block: Seq<char>,
    rest: Seq<char>,
)
    requires
        opening == "---\n"@ || opening == "---\r\n"@,
        block.len() > 0 ==> block.last() == '\n',
        forall|i: int|
            0 <= i < text::lines(block).len() ==> !closes_block(#[trigger] text::lines(block)[i]),
    ensures
        provenance_of(opening + block + "---\n"@ + rest) == (ProvenanceFacts {
            source: last_value(text::lines(block), "source:"@),
            corpus_source: last_value(text::lines(block), "corpus_source:"@),
            fetched: last_value(text::lines(block), "fetched:"@),
        }),
{
    reveal_strlit("---\n");
    reveal_strlit("---\r\n");
    reveal_strlit("---");
    let content = opening + block + "---\n"@ + rest;
    let body = block + ("---\n"@ + rest);
    let n = opening.len() as int;
    assert(content.skip(n) =~= body);
    assert(content.subrange(0, n) =~= opening);
    if opening == "---\r\n"@ {
        assert(content[3] == '\r');
        if text::starts_with(content, "---\n"@) {
            assert(content.subrange(0, 4)[3] == '\n');
        }
    }
    assert("---\n"@.len() == 4 && "---\r\n"@.len() == 5);
    assert(text::starts_with(content, opening));
    text::lemma_lines_concat(block, "---\n"@ + rest);
    text::lemma_lines_concat("---\n"@, rest);
    let close = text::lines("---\n"@);
    text::lemma_prefix_len_is("---\n"@, text::other_than('\n'), 3);
    assert("---\n"@.take(3) =~= "---"@);
    assert(close[0] == "---"@);
    text::lemma_suffix_len_is("---"@, text::is_white(), 0);
    let tail = close + text::lines(rest);
    assert(tail[0] == "---"@);
    assert("---"@.take(3) =~= "---"@);
    lemma_after_block_concat(no_provenance(), text::lines(block), tail);
    lemma_last_values(text::lines(block));
}

/// A file that does not start with a block has no provenance.
pub proof fn no_block_gives_no_provenance(content: Seq<char>)
    requires
        !text::starts_with(content, "---\n"@),
        !text::starts_with(content, "---\r\n"@),
    ensures
        provenance_of(content) == no_provenance(),
{
}

/// What stands behind the line that closes the block makes no difference.
pub proof fn nothing_behind_the_block_counts(
    opening: Seq<char>,
    block: Seq<char>,
    rest: Seq<char>,
    other: Seq<char>,
)
    requires
        opening == "---\n"@ || opening == "---\r\n"@,
        block.len() > 0 ==> block.last() == '\n',
        forall|i: int|
            0 <= i < text::lines(block).len() ==> !closes_block(#[trigger] text::lines(block)[i]),
    ensures
        provenance_of(opening + block + "---\n"@ + rest) == provenance_of(
            opening + block + "---\n"@ + other,
        ),
{
    provenance_stands_in_the_block(opening, block, rest);
    provenance_stands_in_the_block(opening, block, other);
}

// ---------------------------------------------------------------------------
// What metadata says
// ---------------------------------------------------------------------------

/// Each kind of node that defines something is shown by its short name, and no other
/// kind is.
pub proof fn definitions_have_short_names(kind: Seq<char>)
    ensures
        definition_kind("function_item"@) == Some("function"@),
        definition_kind("function_definition"@) == Some("function"@),
        definition_kind("function_declaration"@) == Some("function"@),
        definition_kind("method_definition"@) == Some("method"@),
        definition_kind("method_declaration"@) == Some("method"@),
        definition_kind("constructor_declaration"@) == Some("constructor"@),
        definition_kind("struct_item"@) == Some("struct"@),
        definition_kind("struct_specifier"@) == Some("struct"@),
        definition_kind("enum_item"@) == Some("enum"@),
        definition_kind("enum_declaration"@) == Some("enum"@),
        definition_kind("enum_specifier"@) == Some("enum"@),
        definition_kind("union_item"@) == Some("union"@),
        definition_kind("union_specifier"@) == Some("union"@),
        definition_kind("trait_item"@) == Some("trait"@),
        definition_kind("impl_item"@) == Some("impl"@),
        definition_kind("class_declaration"@) == Some("class"@),
        definition_kind("class_definition"@) == Some("class"@),
        definition_kind("class_specifier"@) == Some("class"@),
        definition_kind("interface_declaration"@) == Some("interface"@),
        definition_kind("mod_item"@) == Some("module"@),
        definition_kind("type_item"@) == Some("type"@),
        definition_kind("type_alias_declaration"@) == Some("type"@),
        definition_kind("type_declaration"@) == Some("type"@),
        kind != "function_item"@ && kind != "function_definition"@ && kind != "function_declaration"@ && kind != "method_definition"@ && kind != "method_declaration"@ && kind != "constructor_declaration"@ && kind != "struct_item"@ && kind != "struct_specifier"@ && kind != "enum_item"@ && kind != "enum_declaration"@ && kind != "enum_specifier"@ && kind != "union_item"@ && kind != "union_specifier"@ && kind != "trait_item"@ && kind != "impl_item"@ && kind != "class_declaration"@ && kind != "class_definition"@ && kind != "class_specifier"@ && kind != "interface_declaration"@ && kind != "mod_item"@ && kind != "type_item"@ && kind != "type_alias_declaration"@ && kind != "type_declaration"@ ==> definition_kind(
            kind,
        ) is None,
{
    reveal_strlit("function_item");
    reveal_strlit("function_definition");
    reveal_strlit("function_declaration");
    reveal_strlit("method_definition");
    reveal_strlit("method_declaration");
    reveal_strlit("constructor_declaration");
    reveal_strlit("struct_item");
    reveal_strlit("struct_specifier");
    reveal_strlit("enum_item");
    reveal_strlit("enum_declaration");
    reveal_strlit("enum_specifier");
    reveal_strlit("union_item");
    reveal_strlit("union_specifier");
    reveal_strlit("trait_item");
    reveal_strlit("impl_item");
    reveal_strlit("class_declaration");
    reveal_strlit("class_definition");
    reveal_strlit("class_specifier");
    reveal_strlit("interface_declaration");
    reveal_strlit("mod_item");
    reveal_strlit("type_item");
    reveal_strlit("type_alias_declaration");
    reveal_strlit("type_declaration");
    assert("function_item"@.len() == 13);
    assert("function_definition"@.len() == 19);
    assert("function_declaration"@.len() == 20);
    assert("method_definition"@.len() == 17);
    assert("method_declaration"@.len() == 18);
    assert("constructor_declaration"@.len() == 23);
    assert("struct_item"@.len() == 11);
    assert("struct_specifier"@.len() == 16);
    assert("enum_item"@.len() == 9);
    assert("enum_declaration"@.len() == 16);
    assert("enum_specifier"@.len() == 14);
    assert("union_item"@.len() == 10);
    assert("union_specifier"@.len() == 15);
    assert("trait_item"@.len() == 10);
    assert("impl_item"@.len() == 9);
    assert("class_declaration"@.len() == 17);
    assert("class_definition"@.len() == 16);
    assert("class_specifier"@.len() == 15);
    assert("interface_declaration"@.len() == 21);
    assert("mod_item"@.len() == 8);
    assert("type_item"@.len() == 9);
    assert("type_alias_declaration"@.len() == 22);
    assert("type_declaration"@.len() == 16);
    assert("method_definition"@[0] == 'm' && "class_declaration"@[0] == 'c');
    assert("struct_specifier"@[0] == 's' && "enum_declaration"@[0] == 'e');
    assert("struct_specifier"@[0] == 's' && "class_definition"@[0] == 'c');
    assert("struct_specifier"@[0] == 's' && "type_declaration"@[0] == 't');
    assert("enum_declaration"@[0] == 'e' && "class_definition"@[0] == 'c');
    assert("enum_declaration"@[0] == 'e' && "type_declaration"@[0] == 't');
    assert("class_definition"@[0] == 'c' && "type_declaration"@[0] == 't');
    assert("enum_item"@[0] == 'e' && "impl_item"@[0] == 'i');
    assert("enum_item"@[0] == 'e' && "type_item"@[0] == 't');
    assert("impl_item"@[0] == 'i' && "type_item"@[0] == 't');
    assert("union_item"@[0] == 'u' && "trait_item"@[0] == 't');
    assert("union_specifier"@[0] == 'u' && "class_specifier"@[0] == 'c');
}

/// What can hold other definitions: everything that is defined but functions, methods,
/// constructors and types.
pub proof fn containers_hold_definitions(kind: Seq<char>)
    requires
        definition_kind(kind) is Some,
    ensures
        container_kind(definition_kind(kind)->0) <==> {
            let shown = definition_kind(kind)->0;
            shown != "function"@ && shown != "method"@ && shown != "constructor"@ && shown
                != "type"@
        },
{
    reveal_strlit("function");
    reveal_strlit("method");
    reveal_strlit("constructor");
    reveal_strlit("struct");
    reveal_strlit("enum");
    reveal_strlit("union");
    reveal_strlit("trait");
    reveal_strlit("impl");
    reveal_strlit("class");
    reveal_strlit("interface");
    reveal_strlit("module");
    reveal_strlit("type");
    assert("method"@[0] == 'm' && "module"@[2] == 'd' && "method"@[2] == 't');
    assert("struct"@[0] == 's');
    assert("impl"@[0] == 'i' && "enum"@[0] == 'e' && "type"@[0] == 't');
    assert("function"@[0] == 'f');
    assert("interface"@.len() == 9 && "constructor"@.len() == 11 && "class"@.len() == 5);
    assert("trait"@.len() == 5 && "union"@.len() == 5);
}

/// Whether node `a` is node `i` or stands above it: nothing between the two is at its
/// level or higher.
pub open spec fn at_or_above(nodes: Seq<NodeFacts>, a: int, i: int) -> bool {
    &&& 0 <= a <= i < nodes.len()
    &&& forall|k: int| a < k <= i ==> (#[trigger] nodes[k]).depth > nodes[a].depth
}

/// The definition that a node is described by is the nearest at or above it, and there is
/// none exactly if neither the node nor anything above it defines something.
pub proof fn the_nearest_definition_describes(nodes: Seq<NodeFacts>, i: int)
    requires
        syntax::in_preorder(nodes),
        0 <= i < nodes.len(),
    ensures
        nearest_definition_of(nodes, i) is Some ==> at_or_above(
            nodes,
            nearest_definition_of(nodes, i)->0,
            i,
        ) && definition_kind(nodes[nearest_definition_of(nodes, i)->0].kind) is Some,
        forall|a: int| #[trigger]
            at_or_above(nodes, a, i) && definition_kind(nodes[a].kind) is Some
                ==> nearest_definition_of(nodes, i) is Some && a <= nearest_definition_of(
                nodes,
                i,
            )->0,
    decreases i,
{
    if definition_kind(nodes[i].kind) is None {
        let found = syntax::parent_of(nodes, i);
        syntax::lemma_enclosing(nodes, nodes[i].depth, i - 1);
        match found {
            None => {
                syntax::parents_have_children(nodes, 0, i);
                assert forall|a: int| #[trigger] at_or_above(nodes, a, i) && definition_kind(
                    nodes[a].kind,
                ) is Some implies false by {
                    if a < i {
                        assert(nodes[i].depth > nodes[a].depth);
                    }
                }
            },
            Some(p) => {
                syntax::parents_have_children(nodes, p, i);
                the_nearest_definition_describes(nodes, p);
                assert forall|a: int| #[trigger] at_or_above(nodes, a, i) && a
                    != i implies at_or_above(nodes, a, p) by {
                    if a > p {
                        assert(nodes[a].depth > nodes[p].depth);
                        assert(nodes[i].depth > nodes[a].depth);
                    }
                }
                let d = nearest_definition_of(nodes, i);
                if d is Some {
                    let q = d->0;
                    assert forall|k: int| q < k <= i implies (#[trigger] nodes[k]).depth
                        > nodes[q].depth by {
                        if k > p {
                            if q < p {
                                assert(nodes[p].depth > nodes[q].depth);
                            }
                            if k < i {
                                assert(nodes[k].depth > nodes[p].depth);
                            }
                        }
                    }
                }
            },
        }
    }
}

/// The first line of a definition stands before its brace, and where it has none it is
/// its first line.
pub proof fn definitions_start_before_their_brace(head: Seq<char>, rest: Seq<char>)
    requires
        !head.contains('{'),
    ensures
        definition_head(head + seq!['{'] + rest) == head,
        !head.contains('\n') && !rest.contains('{') ==> definition_head(head + seq!['\n'] + rest)
            == head,
        !head.contains('\n') ==> definition_head(head) == head,
{
    let (brace, feed) = (text::other_than('{'), text::other_than('\n'));
    let s = head + seq!['{'] + rest;
    assert forall|j: int| 0 <= j < head.len() implies brace(#[trigger] head[j]) by {
        assert(head.contains(head[j]));
    }
    assert forall|j: int| 0 <= j < head.len() implies brace(#[trigger] s[j]) by {
        assert(s[j] == head[j]);
        assert(brace(head[j]));
    }
    text::lemma_prefix_len_is(s, brace, head.len() as int);
    assert(s.take(head.len() as int) =~= head);
    text::lemma_prefix_len_is(head, brace, head.len() as int);
    assert(head.take(head.len() as int) =~= head);
    if !head.contains('\n') {
        let t = head + seq!['\n'] + rest;
        assert forall|j: int| 0 <= j < head.len() implies feed(#[trigger] head[j]) by {
            assert(head.contains(head[j]));
        }
        text::lemma_prefix_len_is(head, feed, head.len() as int);
        if !rest.contains('{') {
            assert forall|j: int| 0 <= j < t.len() implies brace(#[trigger] t[j]) by {
                if j < head.len() {
                    assert(brace(head[j]));
                } else if j > head.len() {
                    assert(rest.contains(rest[j - head.len() - 1]));
                }
            }
            text::lemma_prefix_len_is(t, brace, t.len() as int);
            assert forall|j: int| 0 <= j < head.len() implies feed(#[trigger] t[j]) by {
                assert(t[j] == head[j]);
                assert(feed(head[j]));
            }
            text::lemma_prefix_len_is(t, feed, head.len() as int);
            assert(t.take(head.len() as int) =~= head);
        }
    }
}

/// White space of whatever kind between two words is one blank.
pub proof fn white_space_becomes_one_blank(a: Seq<char>, c: char, b: Seq<char>)
    requires
        text::white_space(c),
    ensures
        collapsed(a + seq![c] + b) == if collapsed(a).len() == 0 {
            collapsed(b)
        } else if collapsed(b).len() == 0 {
            collapsed(a)
        } else {
            collapsed(a) + seq![' '] + collapsed(b)
        },
{
    let (x, y) = (text::runs(a, not_white()), text::runs(b, not_white()));
    text::lemma_runs_part(a, c, b, not_white());
    assert forall|i: int| 0 <= i < x.len() implies (#[trigger] x[i]).len() > 0 by {
        text::lemma_run_chars(a, not_white(), i);
    }
    assert forall|i: int| 0 <= i < y.len() implies (#[trigger] y[i]).len() > 0 by {
        text::lemma_run_chars(b, not_white(), i);
    }
    lemma_join_sum(x, y);
    lemma_join_nonempty(x);
    lemma_join_nonempty(y);
}

/// A word without white space stays as it is.
pub proof fn a_word_stays(w: Seq<char>)
    requires
        w.len() > 0,
        forall|i: int| 0 <= i < w.len() ==> !text::white_space(#[trigger] w[i]),
    ensures
        collapsed(w) == w,
{
    assert forall|i: int| 0 <= i < w.len() implies not_white()(#[trigger] w[i]) by {}
    text::a_whole_run(w, not_white());
}

proof fn lemma_join_nonempty(x: Seq<Seq<char>>)
    requires
        forall|i: int| 0 <= i < x.len() ==> (#[trigger] x[i]).len() > 0,
    ensures
        text::join(x, seq![' ']).len() == 0 <==> x.len() == 0,
{
    if x.len() > 0 {
        assert(x[x.len() - 1].len() > 0);
    }
}

proof fn lemma_join_sum(x: Seq<Seq<char>>, y: Seq<Seq<char>>)
    ensures
        text::join(x + y, seq![' ']) == if x.len() == 0 {
            text::join(y, seq![' '])
        } else if y.len() == 0 {
            text::join(x, seq![' '])
        } else {
            text::join(x, seq![' ']) + seq![' '] + text::join(y, seq![' '])
        },
    decreases y.len(),
{
    if x.len() == 0 {
        assert(x + y =~= y);
    } else if y.len() == 0 {
        assert(x + y =~= x);
    } else {
        let init = y.drop_last();
        lemma_join_sum(x, init);
        assert((x + y).drop_last() =~= x + init);
        assert((x + y).last() == y.last());
        if init.len() == 0 {
            assert(text::join(y, seq![' ']) == y[0]);
        } else {
            assert(text::join(x + y, seq![' ']) =~= text::join(x, seq![' ']) + seq![' '] + text::join(
                y,
                seq![' '],
            ));
        }
    }
}

/// A signature is the longest start of the line that takes two hundred bytes or less, so
/// a line that does is kept whole.
pub proof fn signatures_keep_what_fits(s: Seq<char>)
    requires
        signature_text(s) is Some,
    ensures
        ({
            let line = collapsed(definition_head(s));
            let sig = signature_text(s)->0;
            &&& sig.is_prefix_of(line)
            &&& vstd::utf8::encode_utf8(sig).len() <= 200
            &&& vstd::utf8::encode_utf8(line).len() <= 200 ==> sig == line
            &&& sig.len() < line.len() ==> vstd::utf8::encode_utf8(
                line.take((sig.len() + 1) as int),
            ).len() > 200
        }),
{
    let line = collapsed(definition_head(s));
    lemma_within_bytes(line, 200);
    lemma_within_most(line, 200);
}

proof fn lemma_within_most(s: Seq<char>, max: nat)
    ensures
        within_bytes(s, max).len() < s.len() ==> store::utf8_len(
            s.take((within_bytes(s, max).len() + 1) as int),
        ) > max,
        within_bytes(s, max).len() <= s.len(),
    decreases s.len(),
{
    if s.len() > 0 && store::utf8_len(s) > max {
        let init = s.drop_last();
        lemma_within_most(init, max);
        let n = within_bytes(init, max).len() as int;
        if n < init.len() {
            assert(s.take(n + 1) =~= init.take(n + 1));
        } else {
            assert(s.take(n + 1) =~= s);
        }
    }
}

/// A run of one character.
pub open spec fn run_of(c: char, n: nat) -> Seq<char> {
    Seq::new(n, |i: int| c)
}

/// A heading is one to six hashes, a blank or a tab, and a title. What stands before the
/// hashes and behind the title does not count, nor do closing hashes.
pub proof fn a_heading_is_hashes_and_a_title(
    before: Seq<char>,
    level: nat,
    blank: char,
    pad: Seq<char>,
    title: Seq<char>,
    gap: Seq<char>,
    closing: nat,
    behind: Seq<char>,
)
    requires
        text::all_white(before) && text::all_white(pad) && text::all_white(gap) && text::all_white(behind),
        blank == ' ' || blank == '\t',
        title.len() > 0,
        !text::white_space(title[0]) && !text::white_space(title.last()),
        title.last() != '#',
        level >= 1,
    ensures
        atx_heading(
            before + run_of('#', level) + seq![blank] + (pad + title + gap + run_of('#', closing)
                + behind),
        ) == if level <= 6 {
            Some((level, title))
        } else {
            None
        },
{
    let hashes = run_of('#', level);
    let ends = run_of('#', closing);
    let inner = pad + title + gap + ends + behind;
    let line = before + hashes + seq![blank] + inner;
    let hash = text::same_as('#');
    let rest = seq![blank] + inner;
    lemma_atx_body(before, level, rest);
    assert(line =~= before + hashes + rest);
    let core = title + gap + ends;
    let lead = seq![blank] + pad;
    assert forall|i: int| 0 <= i < lead.len() implies text::white_space(#[trigger] lead[i]) by {
        if i > 0 {
            assert(lead[i] == pad[i - 1]);
        }
    }
    assert(rest =~= lead + core + behind);
    if closing == 0 {
        let after = gap + behind;
        assert forall|i: int| 0 <= i < after.len() implies text::white_space(
            #[trigger] after[i],
        ) by {
            if i < gap.len() {
                assert(after[i] == gap[i]);
            } else {
                assert(after[i] == behind[i - gap.len()]);
            }
        }
        assert(rest =~= lead + title + after);
        text::lemma_trims_to(lead, title, after);
        text::lemma_suffix_len_is(title, hash, 0);
        assert(title.take(title.len() as int) =~= title);
        text::lemma_trim_nothing(title);
    } else {
        assert(core[0] == title[0]);
        assert(core.last() == '#');
        text::lemma_trims_to(lead, core, behind);
        assert forall|j: int| core.len() - closing <= j < core.len() implies hash(
            #[trigger] core[j],
        ) by {}
        let last = core[core.len() - closing - 1];
        assert(last == (title + gap).last());
        if gap.len() > 0 {
            assert(last == gap.last());
            assert(text::white_space(gap[gap.len() - 1]));
        } else {
            assert(last == title.last());
        }
        text::lemma_suffix_len_is(core, hash, closing as int);
        assert(core.take(core.len() - closing) =~= title + gap);
        text::lemma_trims_to(Seq::<char>::empty(), title, gap);
        assert(Seq::<char>::empty() + title + gap =~= title + gap);
    }
}

/// The hashes that a line starts with, white space aside.
proof fn lemma_atx_body(before: Seq<char>, level: nat, rest: Seq<char>)
    requires
        text::all_white(before),
        level > 0,
        rest.len() > 0 ==> rest[0] != '#',
    ensures
        ({
            let body = text::drop_prefix(
                before + run_of('#', level) + rest,
                text::is_white(),
            );
            &&& text::prefix_len(body, text::same_as('#')) == level
            &&& body.skip(level as int) == rest
        }),
{
    let line = before + run_of('#', level) + rest;
    let (white, hash) = (text::is_white(), text::same_as('#'));
    assert forall|j: int| 0 <= j < before.len() implies white(#[trigger] line[j]) by {
        assert(line[j] == before[j]);
    }
    assert(line[before.len() as int] == '#');
    assert(!text::white_space('#'));
    text::lemma_prefix_len_is(line, white, before.len() as int);
    let body = line.skip(before.len() as int);
    assert(body =~= run_of('#', level) + rest);
    assert forall|j: int| 0 <= j < level implies hash(#[trigger] body[j]) by {}
    text::lemma_prefix_len_is(body, hash, level as int);
    assert(body.skip(level as int) =~= rest);
}

/// A line that starts with anything else is no heading, nor is one whose hashes are
/// followed by neither a blank nor a tab.
pub proof fn other_lines_are_no_headings(
    before: Seq<char>,
    c: char,
    rest: Seq<char>,
    level: nat,
)
    requires
        text::all_white(before),
        c != '#',
    ensures
        !text::white_space(c) ==> atx_heading(before + seq![c] + rest) is None,
        level > 0 && c != ' ' && c != '\t' ==> atx_heading(
            before + run_of('#', level) + (seq![c] + rest),
        ) is None,
        level > 0 ==> atx_heading(before + run_of('#', level)) is None,
{
    let (white, hash) = (text::is_white(), text::same_as('#'));
    if !text::white_space(c) {
        let line = before + seq![c] + rest;
        assert forall|j: int| 0 <= j < before.len() implies white(#[trigger] line[j]) by {
            assert(line[j] == before[j]);
        }
        assert(line[before.len() as int] == c);
        text::lemma_prefix_len_is(line, white, before.len() as int);
        let body = line.skip(before.len() as int);
        assert(body[0] == c);
        text::lemma_prefix_len_is(body, hash, 0);
    }
    if level > 0 {
        let none = Seq::<char>::empty();
        lemma_atx_body(before, level, none);
        assert(before + run_of('#', level) + none =~= before + run_of('#', level));
        let more = seq![c] + rest;
        lemma_atx_body(before, level, more);
        assert(more[0] == c);
    }
}

/// A heading closes those of its own level and deeper, and leaves the others open.
pub proof fn a_heading_closes_what_is_not_above_it(
    open: Seq<(nat, Seq<char>)>,
    line: Seq<char>,
    h: (nat, Seq<char>),
)
    requires
        atx_heading(line) is Some,
    ensures
        after_line(open, line).last() == atx_heading(line)->0,
        after_line(open, line).drop_last().contains(h) <==> open.contains(h) && h.0 < (atx_heading(
            line,
        )->0).0,
{
    let level = (atx_heading(line)->0).0;
    let left = open.filter(outside_of(level));
    assert(after_line(open, line).drop_last() =~= left);
    if left.contains(h) {
        let i = choose|i: int| 0 <= i < left.len() && left[i] == h;
        open.lemma_filter_pred(outside_of(level), i);
        open.lemma_filter_contains_rev(outside_of(level), h);
    }
    if open.contains(h) && h.0 < level {
        let i = choose|i: int| 0 <= i < open.len() && open[i] == h;
        assert(outside_of(level)(open[i]));
        open.lemma_filter_contains(outside_of(level), i);
    }
}

/// A line counts for a chunk if its text starts before the chunk does. What stands behind
/// it is read on from there.
pub proof fn headings_open_line_by_line(
    open: Seq<(nat, Seq<char>)>,
    line: Seq<char>,
    rest: Seq<char>,
    left: int,
)
    requires
        !line.contains('\n'),
        left > 0,
    ensures
        open_headings(open, line + seq!['\n'] + rest, left) == open_headings(
            if vstd::utf8::encode_utf8(
                (line + seq!['\n']).take(
                    text::prefix_len(line + seq!['\n'], text::is_white()) as int,
                ),
            ).len() < left {
                after_line(open, line + seq!['\n'])
            } else {
                open
            },
            rest,
            left - vstd::utf8::encode_utf8(line + seq!['\n']).len(),
        ),
{
    let s = line + seq!['\n'] + rest;
    let feed = text::other_than('\n');
    assert forall|j: int| 0 <= j < line.len() implies feed(#[trigger] s[j]) by {
        assert(s[j] == line[j]);
        assert(line.contains(line[j]));
    }
    assert(s[line.len() as int] == '\n');
    text::lemma_prefix_len_is(s, feed, line.len() as int);
    let n = line_len(s);
    assert(n == line.len() + 1);
    assert(s.take(n) =~= line + seq!['\n']);
    assert(s.skip(n) =~= rest);
}

/// What stands at or behind the start of a chunk opens no heading for it.
pub proof fn headings_behind_the_start_do_not_count(
    open: Seq<(nat, Seq<char>)>,
    s: Seq<char>,
    left: int,
)
    requires
        left <= 0,
    ensures
        open_headings(open, s, left) == open,
{
}

/// The range that a chunk is looked up by is the chunk, and where that is empty or lies
/// behind the end, one byte within the file.
pub proof fn lookups_stay_in_the_file(start: int, end: int, size: int)
    requires
        0 <= start,
        0 < size,
    ensures
        0 <= lookup_start(start, end, size) < lookup_end(start, end, size) <= size,
        start < end <= size ==> lookup_start(start, end, size) == start && lookup_end(
            start,
            end,
            size,
        ) == end,
        start < size ==> lookup_start(start, end, size) == start,
        start < size && end <= start ==> lookup_end(start, end, size) == start + 1,
        start >= size ==> lookup_start(start, end, size) == size - 1,
        start < size < end ==> lookup_end(start, end, size) == size,
{
}

/// A value that is not empty has a line of its own: the key, a colon, a blank, the value.
pub open spec fn line_for(key: Seq<char>, value: Option<String>) -> Seq<char> {
    if value is Some && (value->0)@.len() > 0 {
        key + seq![':', ' '] + (value->0)@ + seq!['\n']
    } else {
        Seq::empty()
    }
}

/// The text that is ranked is a header of what is known of the chunk, a line of three
/// hyphens, and the text of the chunk itself.
pub proof fn ranked_texts_end_with_the_chunk(
    path: Seq<char>,
    lang: Lang,
    meta: ChunkMeta,
    raw: Seq<char>,
) -> (section: Seq<char>)
    ensures
        path.len() > 0 ==> ranking(path, lang, meta, raw) == "path"@ + seq![':', ' '] + path
            + seq!['\n'] + ("language"@ + seq![':', ' '] + chunk::lang_name(lang) + seq!['\n'])
            + section + line_for("symbol"@, meta.symbol) + line_for("kind"@, meta.kind) + line_for(
            "parent"@,
            meta.parent,
        ) + line_for("signature"@, meta.signature) + seq!['-', '-', '-', '\n'] + raw,
        meta.headings@.len() == 0 ==> section == Seq::<char>::empty(),
        forall|h: String|
            meta.headings@ == seq![h] && h@.len() > 0 ==> section == "section"@ + seq![':', ' ']
                + #[trigger] h@ + seq!['\n'],
        forall|g: String, h: String|
            #![trigger g@, h@]
            meta.headings@ == seq![g, h] ==> section == "section"@ + seq![':', ' '] + (g@ + seq![
                ' ',
                '>',
                ' ',
            ] + h@) + seq!['\n'],
{
    reveal_strlit(": ");
    reveal_strlit("---\n");
    reveal_strlit(" > ");
    assert(": "@ =~= seq![':', ' ']);
    assert("---\n"@ =~= seq!['-', '-', '-', '\n']);
    assert(" > "@ =~= seq![' ', '>', ' ']);
    lemma_lang_name_plain(lang);
    let heads = text::texts(meta.headings@);
    let section = header_line("section"@, text::join(heads, " > "@));
    lemma_lang_nonempty(lang);
    assert forall|h: String| meta.headings@ == seq![h] && h@.len() > 0 implies section
        == "section"@ + seq![':', ' '] + #[trigger] h@ + seq!['\n'] by {
        assert(heads =~= seq![h@]);
    }
    assert forall|g: String, h: String| #![trigger g@, h@] meta.headings@ == seq![g, h] implies section
        == "section"@ + seq![':', ' '] + (g@ + seq![' ', '>', ' '] + h@) + seq!['\n'] by {
        assert(heads =~= seq![g@, h@]);
        assert(heads.drop_last() =~= seq![g@]);
        reveal_with_fuel(text::join, 2);
        assert(heads.last() == h@);
        assert(text::join(heads.drop_last(), " > "@) == g@);
        assert(text::join(heads, " > "@) =~= g@ + seq![' ', '>', ' '] + h@);
        assert(text::join(heads, " > "@).len() > 0);
    }
    section
}

proof fn lemma_lang_nonempty(lang: Lang)
    ensures
        chunk::lang_name(lang).len() > 0,
{
    reveal_strlit("md");
    reveal_strlit("rust");
    reveal_strlit("python");
    reveal_strlit("javascript");
    reveal_strlit("typescript");
    reveal_strlit("go");
    reveal_strlit("java");
    reveal_strlit("cpp");
    reveal_strlit("c");
    reveal_strlit("text");
}

/// The key of an embedding is the hash of eight bytes that give the fingerprint, the
/// lowest first, and of the text: neither changes without what is hashed.
pub proof fn embedding_keys_hash_fingerprint_and_text(
    fingerprint: u64,
    s: Seq<char>,
) -> (bytes: Seq<u8>)
    ensures
        cache_key(fingerprint, s) == hash::xxh3_64(bytes),
        bytes.len() == 8 + vstd::utf8::encode_utf8(s).len(),
        store::from_le(bytes.take(8)) == fingerprint,
        bytes.skip(8) == vstd::utf8::encode_utf8(s),
{
    let low = store::le_bytes(fingerprint as nat, 8);
    let bytes = low + vstd::utf8::encode_utf8(s);
    store::lemma_eight_bytes(fingerprint);
    assert(bytes.take(8) =~= low);
    assert(bytes.skip(8) =~= vstd::utf8::encode_utf8(s));
    bytes
}

/// A value in quotes of one kind is what stands between them; any other is the value
/// without the white space around it.
pub proof fn quotes_come_off(before: Seq<char>, q: char, inner: Seq<char>, behind: Seq<char>)
    requires
        text::all_white(before),
        text::all_white(behind),
        q == '"' || q == '\'',
    ensures
        unquoted(before + (seq![q] + inner + seq![q]) + behind) == inner,
{
    let v = seq![q] + inner + seq![q];
    assert(v[0] == q && v.last() == q);
    text::lemma_trims_to(before, v, behind);
    assert(v.subrange(1, v.len() - 1) =~= inner);
}

/// A value that is not in quotes keeps all but the white space around it.
pub proof fn plain_values_stay(before: Seq<char>, value: Seq<char>, behind: Seq<char>)
    requires
        text::all_white(before),
        text::all_white(behind),
        value.len() > 0,
        !text::white_space(value[0]) && !text::white_space(value.last()),
        value.len() == 1 || value[0] != value.last() || (value[0] != '"' && value[0] != '\''),
    ensures
        unquoted(before + value + behind) == value,
{
    text::lemma_trims_to(before, value, behind);
}

/// A text is cut to so many characters, and is itself when it has no more.
pub proof fn clipping_keeps_the_start(s: Seq<char>, max: nat)
    ensures
        clipped(s, max).is_prefix_of(s),
        s.len() <= max ==> clipped(s, max) == s,
        s.len() > max ==> clipped(s, max).len() == max,
{
    assert(s.take(s.len() as int) =~= s);
}

/// Metadata of a node speaks of its nearest definition: its name, its short kind, and the
/// definition right above that, if this can hold others.
pub proof fn nodes_are_described_by_their_definition(
    nodes: Seq<NodeFacts>,
    content: Seq<char>,
    at: int,
    m: ChunkMeta,
    d: int,
)
    requires
        describes_node(nodes, content, at, m),
        nearest_definition_of(nodes, at) == Some(d),
    ensures
        text::opt_text(m.symbol) == syntax::name_of_node(nodes, content, d),
        text::opt_text(m.kind) == definition_kind(nodes[d].kind),
        m.parent is Some ==> exists|p: int, c: int|
            syntax::parent_of(nodes, d) == Some(p) && #[trigger] above(nodes, p, c)
                && container_kind(definition_kind(nodes[c].kind)->0) && (m.parent->0)@ == (
            definition_kind(nodes[c].kind)->0) + match syntax::name_of_node(nodes, content, c) {
                Some(name) => seq![' '] + name,
                None => Seq::empty(),
            },
        m.parent is None ==> forall|p: int, c: int|
            syntax::parent_of(nodes, d) == Some(p) && #[trigger] above(nodes, p, c)
                ==> !container_kind(definition_kind(nodes[c].kind)->0),
        m.headings@.len() == 0,
{
    if m.parent is Some {
        let c = container_of(nodes, d)->0;
        let p = syntax::parent_of(nodes, d)->0;
        assert(above(nodes, p, c));
        let kind = definition_kind(nodes[c].kind)->0;
        match syntax::name_of_node(nodes, content, c) {
            Some(name) => {
                assert(kind + seq![' '] + name =~= kind + (seq![' '] + name));
            },
            None => {
                assert(kind + Seq::<char>::empty() =~= kind);
            },
        }
    }
}

/// Whether `c` is the nearest definition at or above `p`.
pub open spec fn above(nodes: Seq<NodeFacts>, p: int, c: int) -> bool {
    nearest_definition_of(nodes, p) == Some(c) && definition_kind(nodes[c].kind) is Some
}

// ---------------------------------------------------------------------------
// What the steps of an analysis give
// ---------------------------------------------------------------------------

/// A heading is read from its hashes and its title, closed or not.
pub proof fn headings_are_read(
    level: nat,
    title: Seq<char>,
    gap: Seq<char>,
    closing: nat,
    line: &str,
    r: Option<Heading>,
)
    requires
        call_ensures(parse_atx_heading, (line,), r),
        line@ == run_of('#', level) + seq![' '] + (title + gap + run_of('#', closing)),
        level >= 1,
        title.len() > 0,
        !text::white_space(title[0]) && !text::white_space(title.last()),
        title.last() != '#',
        text::all_white(gap),
    ensures
        r is Some <==> level <= 6,
        r is Some ==> r->0.level == level && r->0.title@ == title,
{
    let none = Seq::<char>::empty();
    a_heading_is_hashes_and_a_title(none, level, ' ', none, title, gap, closing, none);
    assert(line@ =~= none + run_of('#', level) + seq![' '] + (none + title + gap + run_of(
        '#',
        closing,
    ) + none));
}

/// A kind of node is shown by its short name or not at all, and whether it can hold other
/// definitions goes by that.
pub proof fn kinds_are_shown_by_their_short_names(
    raw: &str,
    shown: Option<&'static str>,
    holds: bool,
)
    requires
        call_ensures(def_kind, (raw,), shown),
        shown is Some ==> call_ensures(is_container, (shown->0,), holds),
    ensures
        raw@ == "function_item"@ ==> shown is Some && (shown->0)@ == "function"@,
        raw@ == "method_definition"@ ==> shown is Some && (shown->0)@ == "method"@,
        raw@ == "impl_item"@ ==> shown is Some && (shown->0)@ == "impl"@,
        raw@ == "class_definition"@ ==> shown is Some && (shown->0)@ == "class"@,
        raw@ == "mod_item"@ ==> shown is Some && (shown->0)@ == "module"@,
        shown is Some ==> (holds <==> (shown->0)@ != "function"@ && (shown->0)@ != "method"@ && (
        shown->0)@ != "constructor"@ && (shown->0)@ != "type"@),
{
    definitions_have_short_names(raw@);
    if shown is Some {
        containers_hold_definitions(raw@);
    }
}

/// An id is the version and thirty-two digits, made from all that identifies a chunk, and
/// a value is read without its quotes.
pub proof fn ids_and_values_are_read(
    path: &str,
    lang: Lang,
    start: usize,
    end: usize,
    raw: &str,
    id: String,
    q: char,
    inner: Seq<char>,
    value: &str,
    read: String,
)
    requires
        call_ensures(chunk_id, (path, lang, start, end, raw), id),
        call_ensures(unquote, (value,), read),
        q == '"' || q == '\'',
        value@ == seq![q] + inner + seq![q],
    ensures
        id@.len() == 34,
        id@[0] == '1' && id@[1] == '-',
        id@.skip(2) == text::hex(
            hash::xxh3_128(
                vstd::utf8::encode_utf8(
                    chunk_descriptor(path@, lang, start as nat, end as nat, raw@),
                ),
            ) as nat,
            32,
        ),
        read@ == inner,
{
    reveal_strlit("1-");
    let none = Seq::<char>::empty();
    chunk_id_is_versioned(path@, lang, start as nat, end as nat, raw@);
    let digits = text::hex(
        hash::xxh3_128(
            vstd::utf8::encode_utf8(chunk_descriptor(path@, lang, start as nat, end as nat, raw@)),
        ) as nat,
        32,
    );
    assert(id@ == "1-"@ + digits);
    assert(id@.skip(2) =~= digits);
    quotes_come_off(none, q, inner, none);
    assert(value@ =~= none + (seq![q] + inner + seq![q]) + none);
}

} // verus!
