//! Syntax trees as plain data: the nodes of a parsed file in preorder, and the
//! steps from node to node that metadata needs.

use crate::chunk::Grammar;
use crate::text;
use vstd::prelude::*;

verus! {

/// What is known of a node of a syntax tree.
pub struct NodeFacts {
    /// The kind that the grammar gives it.
    pub kind: Seq<char>,
    /// Whether it stands for a named rule of the grammar.
    pub named: bool,
    /// The bytes of the source that it covers.
    pub start: nat,
    pub end: nat,
    /// Number of nodes above it.
    pub depth: nat,
    /// Whether it is the child that its parent has in the field `name`, in the field
    /// `type`, and in the field `declarator`.
    pub in_name: bool,
    pub in_type: bool,
    pub in_declarator: bool,
}

/// A node of a syntax tree.
#[derive(Debug, Clone)]
pub struct SyntaxNode {
    pub kind: String,
    pub named: bool,
    pub start: usize,
    pub end: usize,
    pub depth: usize,
    pub in_name: bool,
    pub in_type: bool,
    pub in_declarator: bool,
}

impl View for SyntaxNode {
    type V = NodeFacts;

    open spec fn view(&self) -> NodeFacts {
        NodeFacts {
            kind: self.kind@,
            named: self.named,
            start: self.start as nat,
            end: self.end as nat,
            depth: self.depth as nat,
            in_name: self.in_name,
            in_type: self.in_type,
            in_declarator: self.in_declarator,
        }
    }
}

/// The facts of a list of nodes.
pub open spec fn node_views(nodes: Seq<SyntaxNode>) -> Seq<NodeFacts> {
    nodes.map_values(|n: SyntaxNode| n@)
}

/// The syntax tree that the parser builds.
#[verifier::external_type_specification]
#[verifier::external_body]
pub struct ExTree(tree_sitter::Tree);

/// The nodes of a tree in preorder: the root first, each node before the nodes
/// below it, siblings in order.
pub uninterp spec fn tree_nodes(tree: tree_sitter::Tree) -> Seq<NodeFacts>;

/// The nodes of the tree that a text parses to, or `None` if it cannot be parsed.
pub uninterp spec fn parsed_nodes(grammar: Grammar, content: Seq<char>) -> Option<Seq<NodeFacts>>;

/// `tree_sitter::Parser::parse`, with the language of the grammar set on a new
/// parser. What nodes the tree holds depends on the grammar and the text alone.
/// There is no tree when the language is not compatible with the parser. Byte
/// offsets in a tree have 32 bits.
#[verifier::external_body]
pub(crate) fn parse(grammar: Grammar, content: &str) -> (r: Option<tree_sitter::Tree>)
    requires
        vstd::utf8::encode_utf8(content@).len() <= u32::MAX,
    ensures
        parsed_nodes(grammar, content@) == match r {
            Some(tree) => Some(tree_nodes(tree)),
            None => None,
        },
{
    let language = match grammar {
        Grammar::Rust => tree_sitter_rust::LANGUAGE,
        Grammar::Python => tree_sitter_python::LANGUAGE,
        Grammar::JavaScript => tree_sitter_javascript::LANGUAGE,
        Grammar::TypeScript => tree_sitter_typescript::LANGUAGE_TYPESCRIPT,
        Grammar::Go => tree_sitter_go::LANGUAGE,
        Grammar::Java => tree_sitter_java::LANGUAGE,
        Grammar::Cpp => tree_sitter_cpp::LANGUAGE,
        Grammar::C => tree_sitter_c::LANGUAGE,
    };
    let mut parser = tree_sitter::Parser::new();
    parser.set_language(&language.into()).ok()?;
    parser.parse(content, None)
}

/// `tree_sitter::TreeCursor::goto_descendant` over all descendants of the root: the
/// nodes of a tree in preorder, each with its kind, its bytes and its depth, and
/// whether `Node::child_by_field_name` of its parent gives it for a field.
#[verifier::external_body]
pub(crate) fn nodes_of(tree: &tree_sitter::Tree) -> (r: Vec<SyntaxNode>)
    ensures
        node_views(r@) == tree_nodes(*tree),
{
    let mut cursor = tree.walk();
    (0..tree.root_node().descendant_count()).map(|i| {
        cursor.goto_descendant(i);
        let (n, depth) = (cursor.node(), cursor.depth() as usize);
        let up = n.parent();
        let (kind, named, start, end) = (n.kind().into(), n.is_named(), n.start_byte(), n.end_byte());
        let held = |f: &str| up.and_then(|p| p.child_by_field_name(f)) == Some(n);
        let (in_name, in_type, in_declarator) = (held("name"), held("type"), held("declarator"));
        SyntaxNode { kind, named, start, end, depth, in_name, in_type, in_declarator }
    }).collect()
}

/// Whether a node covers all of the bytes `start..end`.
pub open spec fn covers(n: NodeFacts, start: nat, end: nat) -> bool {
    n.start <= start && end <= n.end
}

/// Whether `i` is the smallest node around `start..end`: the root or a node that
/// covers the range, such that no node behind it in preorder covers it.
pub open spec fn is_smallest(nodes: Seq<NodeFacts>, start: nat, end: nat, i: int) -> bool {
    &&& 0 <= i < nodes.len()
    &&& i == 0 || covers(nodes[i], start, end)
    &&& forall|j: int| i < j < nodes.len() ==> !covers(#[trigger] nodes[j], start, end)
}

/// `tree_sitter::Node::descendant_for_byte_range` on the root: the smallest node that
/// spans a byte range, by its place in preorder. There is one for every range with
/// a byte in it; the root stands in where no node spans the range.
#[verifier::external_body]
pub(crate) fn smallest_around(tree: &tree_sitter::Tree, start: usize, end: usize) -> (r: Option<
    usize,
>)
    requires
        start < end <= u32::MAX,
    ensures
        r is Some ==> is_smallest(tree_nodes(*tree), start as nat, end as nat, r->0 as int),
        tree_nodes(*tree).len() > 0 ==> r is Some,
{
    let root = tree.root_node();
    let target = root.descendant_for_byte_range(start, end)?;
    let mut cursor = root.walk();
    (0..root.descendant_count()).find(|i| {
        cursor.goto_descendant(*i);
        cursor.node() == target
    })
}

// ---------------------------------------------------------------------------
// Steps in a tree
// ---------------------------------------------------------------------------

/// The nearest node at or before `j` that stands higher than `depth`.
pub open spec fn enclosing(nodes: Seq<NodeFacts>, depth: nat, j: int) -> Option<int>
    decreases j + 1,
{
    if j < 0 {
        None
    } else if nodes[j].depth < depth {
        Some(j)
    } else {
        enclosing(nodes, depth, j - 1)
    }
}

/// The parent of a node.
pub open spec fn parent_of(nodes: Seq<NodeFacts>, i: int) -> Option<int> {
    enclosing(nodes, nodes[i].depth, i - 1)
}

pub proof fn lemma_enclosing(nodes: Seq<NodeFacts>, depth: nat, j: int)
    ensures
        enclosing(nodes, depth, j) matches Some(p) ==> 0 <= p <= j && nodes[p].depth < depth,
    decreases j + 1,
{
    if j >= 0 && nodes[j].depth >= depth {
        lemma_enclosing(nodes, depth, j - 1);
    }
}

/// The text of a node: none when its bytes do not lie in the source, or cut through
/// a character.
pub open spec fn node_text(content: Seq<char>, n: NodeFacts) -> Option<Seq<char>> {
    let size = vstd::utf8::encode_utf8(content).len();
    if n.start > n.end || n.end > size {
        None
    } else if n.start == n.end {
        Some(seq![])
    } else if text::boundary(content, n.start as int) && text::boundary(content, n.end as int) {
        Some(text::byte_slice(content, n.start as int, n.end as int))
    } else {
        None
    }
}

/// Node kinds that carry a definition's name.
pub open spec fn is_identifier_kind(kind: Seq<char>) -> bool {
    kind == "identifier"@ || kind == "type_identifier"@ || kind == "field_identifier"@ || kind
        == "property_identifier"@
}

/// Whether `j` is a child of `i`, given that it lies below it.
pub open spec fn child_depth(nodes: Seq<NodeFacts>, i: int, j: int) -> bool {
    nodes[j].depth == nodes[i].depth + 1
}

/// The text of a node if it is an identifier, else of the first identifier below it,
/// looking at named nodes only.
pub open spec fn identifier_text(nodes: Seq<NodeFacts>, content: Seq<char>, i: int) -> Option<
    Seq<char>,
>
    decreases nodes.len() - i, nodes.len() + 1,
{
    if i < 0 || i >= nodes.len() {
        None
    } else if is_identifier_kind(nodes[i].kind) {
        node_text(content, nodes[i])
    } else {
        child_identifier(nodes, content, i, i + 1)
    }
}

/// The first identifier in the named children of `i` from position `j` on.
pub open spec fn child_identifier(
    nodes: Seq<NodeFacts>,
    content: Seq<char>,
    i: int,
    j: int,
) -> Option<Seq<char>>
    decreases nodes.len() - i, nodes.len() - j,
{
    if j <= i || j >= nodes.len() || nodes[j].depth <= nodes[i].depth {
        None
    } else {
        let here = if child_depth(nodes, i, j) && nodes[j].named {
            identifier_text(nodes, content, j)
        } else {
            None
        };
        match here {
            Some(s) => Some(s),
            None => child_identifier(nodes, content, i, j + 1),
        }
    }
}

/// The field of its parent that a child is looked up by.
#[derive(Debug, Clone, Copy, PartialEq, Eq, Structural)]
pub enum Field {
    Name,
    Type,
    Declarator,
}

/// Whether a node is what its parent has in a field.
pub open spec fn in_field(n: NodeFacts, f: Field) -> bool {
    match f {
        Field::Name => n.in_name,
        Field::Type => n.in_type,
        Field::Declarator => n.in_declarator,
    }
}

/// The child of `i` in a field, from position `j` on.
pub open spec fn field_child(nodes: Seq<NodeFacts>, i: int, f: Field, j: int) -> Option<int>
    decreases nodes.len() - j,
{
    if j >= nodes.len() || nodes[j].depth <= nodes[i].depth {
        None
    } else if child_depth(nodes, i, j) && in_field(nodes[j], f) {
        Some(j)
    } else {
        field_child(nodes, i, f, j + 1)
    }
}

/// The identifier in the child of `i` in a field.
pub open spec fn field_identifier(
    nodes: Seq<NodeFacts>,
    content: Seq<char>,
    i: int,
    f: Field,
) -> Option<Seq<char>> {
    match field_child(nodes, i, f, i + 1) {
        Some(j) => identifier_text(nodes, content, j),
        None => None,
    }
}

/// The name of a definition: the identifier in its field `name`, else in `type`, else
/// in `declarator`, else the first identifier in its named children.
pub open spec fn name_of_node(nodes: Seq<NodeFacts>, content: Seq<char>, i: int) -> Option<Seq<char>> {
    match field_identifier(nodes, content, i, Field::Name) {
        Some(s) => Some(s),
        None => match field_identifier(nodes, content, i, Field::Type) {
            Some(s) => Some(s),
            None => match field_identifier(nodes, content, i, Field::Declarator) {
                Some(s) => Some(s),
                None => child_identifier(nodes, content, i, i + 1),
            },
        },
    }
}

/// The parent of a node.
pub fn parent(nodes: &Vec<SyntaxNode>, i: usize) -> (r: Option<usize>)
    requires
        i < nodes.len(),
    ensures
        match r {
            Some(p) => parent_of(node_views(nodes@), i as int) == Some(p as int) && p < i,
            None => parent_of(node_views(nodes@), i as int) is None,
        },
{
    let ghost views = node_views(nodes@);
    let depth = nodes[i].depth;
    let mut j = i;
    while j > 0
        invariant
            views == node_views(nodes@),
            j <= i < nodes.len(),
            depth == views[i as int].depth,
            enclosing(views, depth as nat, j - 1) == parent_of(views, i as int),
        decreases j,
    {
        j -= 1;
        assert(views[j as int].depth == nodes@[j as int].depth);
        if nodes[j].depth < depth {
            return Some(j);
        }
    }
    None
}

/// The text of a node.
pub fn text_of_node(content: &str, node: &SyntaxNode) -> (r: Option<String>)
    ensures
        text::opt_text(r) == node_text(content@, node@),
{
    let size = text::byte_len(content);
    if node.start > node.end || node.end > size {
        return None;
    }
    if node.start == node.end {
        return Some(String::new());
    }
    if content.is_char_boundary(node.start) && content.is_char_boundary(node.end) {
        Some(text::slice_bytes(content, node.start, node.end))
    } else {
        None
    }
}

fn has_identifier_kind(kind: &str) -> (r: bool)
    ensures
        r == is_identifier_kind(kind@),
{
    text::same_text(kind, "identifier") || text::same_text(kind, "type_identifier")
        || text::same_text(kind, "field_identifier") || text::same_text(kind, "property_identifier")
}

/// The text of a node if it is an identifier, else of the first identifier below it.
pub fn identifier_in(nodes: &Vec<SyntaxNode>, content: &str, i: usize) -> (r: Option<String>)
    requires
        i < nodes.len(),
    ensures
        text::opt_text(r) == identifier_text(node_views(nodes@), content@, i as int),
    decreases nodes.len() - i, nodes.len() + 1,
{
    assert(node_views(nodes@)[i as int] == nodes@[i as int]@);
    if has_identifier_kind(nodes[i].kind.as_str()) {
        return text_of_node(content, &nodes[i]);
    }
    identifier_in_children(nodes, content, i)
}

/// The first identifier in the named children of a node.
pub fn identifier_in_children(nodes: &Vec<SyntaxNode>, content: &str, i: usize) -> (r: Option<
    String,
>)
    requires
        i < nodes.len(),
    ensures
        text::opt_text(r) == child_identifier(node_views(nodes@), content@, i as int, i + 1),
    decreases nodes.len() - i, nodes.len() - i,
{
    let ghost views = node_views(nodes@);
    let mut j: usize = i + 1;
    assert(views[i as int] == nodes@[i as int]@);
    while j < nodes.len() && nodes[j].depth > nodes[i].depth
        invariant
            views == node_views(nodes@),
            i < j <= nodes.len(),
            views[i as int] == nodes@[i as int]@,
            child_identifier(views, content@, i as int, i + 1) == child_identifier(
                views,
                content@,
                i as int,
                j as int,
            ),
        decreases nodes.len() - j,
    {
        assert(views[j as int] == nodes@[j as int]@);
        if nodes[j].depth - 1 == nodes[i].depth && nodes[j].named {
            let found = identifier_in(nodes, content, j);
            if found.is_some() {
                return found;
            }
        }
        j += 1;
    }
    assert(j < nodes.len() ==> views[j as int] == nodes@[j as int]@);
    None
}

fn holds_field(n: &SyntaxNode, f: Field) -> (r: bool)
    ensures
        r == in_field(n@, f),
{
    match f {
        Field::Name => n.in_name,
        Field::Type => n.in_type,
        Field::Declarator => n.in_declarator,
    }
}

/// The identifier in the child of a node in a field.
pub fn identifier_in_field(nodes: &Vec<SyntaxNode>, content: &str, i: usize, f: Field) -> (r:
    Option<String>)
    requires
        i < nodes.len(),
    ensures
        text::opt_text(r) == field_identifier(node_views(nodes@), content@, i as int, f),
{
    let ghost views = node_views(nodes@);
    let mut j: usize = i + 1;
    assert(views[i as int] == nodes@[i as int]@);
    while j < nodes.len() && nodes[j].depth > nodes[i].depth
        invariant
            views == node_views(nodes@),
            i < j <= nodes.len(),
            views[i as int] == nodes@[i as int]@,
            field_child(views, i as int, f, i + 1) == field_child(views, i as int, f, j as int),
        decreases nodes.len() - j,
    {
        assert(views[j as int] == nodes@[j as int]@);
        if nodes[j].depth - 1 == nodes[i].depth && holds_field(&nodes[j], f) {
            return identifier_in(nodes, content, j);
        }
        j += 1;
    }
    assert(j < nodes.len() ==> views[j as int] == nodes@[j as int]@);
    None
}

/// The name of a definition.
pub fn name_of(nodes: &Vec<SyntaxNode>, content: &str, i: usize) -> (r: Option<String>)
    requires
        i < nodes.len(),
    ensures
        text::opt_text(r) == name_of_node(node_views(nodes@), content@, i as int),
{
    let by_name = identifier_in_field(nodes, content, i, Field::Name);
    if by_name.is_some() {
        return by_name;
    }
    let by_type = identifier_in_field(nodes, content, i, Field::Type);
    if by_type.is_some() {
        return by_type;
    }
    let by_declarator = identifier_in_field(nodes, content, i, Field::Declarator);
    if by_declarator.is_some() {
        return by_declarator;
    }
    identifier_in_children(nodes, content, i)
}

// ---------------------------------------------------------------------------
// Laws
// ---------------------------------------------------------------------------

/// Whether the depths are those of a tree in preorder: no node stands more than one
/// level below the one before it.
pub open spec fn in_preorder(nodes: Seq<NodeFacts>) -> bool {
    forall|j: int|
        #![trigger nodes[j]]
        0 < j < nodes.len() ==> nodes[j].depth <= nodes[j - 1].depth + 1
}

/// Whether node `c` is a child of node `i`: one level below it, with nothing at the
/// level of `i` or above between them.
pub open spec fn is_child(nodes: Seq<NodeFacts>, i: int, c: int) -> bool {
    &&& 0 <= i < c < nodes.len()
    &&& nodes[c].depth == nodes[i].depth + 1
    &&& forall|k: int| i < k < c ==> (#[trigger] nodes[k]).depth > nodes[i].depth
}

/// Whether node `c` is the first child of node `i` that is as described.
pub open spec fn first_such_child(
    nodes: Seq<NodeFacts>,
    i: int,
    c: int,
    such: spec_fn(int) -> bool,
) -> bool {
    &&& is_child(nodes, i, c)
    &&& such(c)
    &&& forall|k: int| i < k < c && #[trigger] is_child(nodes, i, k) ==> !such(k)
}

/// The children that stand in a field.
pub open spec fn stands_in(nodes: Seq<NodeFacts>, f: Field) -> spec_fn(int) -> bool {
    |c: int|
        (f == Field::Name && nodes[c].in_name) || (f == Field::Type && nodes[c].in_type) || (f
            == Field::Declarator && nodes[c].in_declarator)
}

/// The named children that hold an identifier.
pub open spec fn names(nodes: Seq<NodeFacts>, content: Seq<char>) -> spec_fn(int) -> bool {
    |c: int| nodes[c].named && identifier_text(nodes, content, c) is Some
}

/// Whether the node's child in a field is node `c`, and holds an identifier.
pub open spec fn named_in(
    nodes: Seq<NodeFacts>,
    content: Seq<char>,
    i: int,
    f: Field,
    c: int,
) -> bool {
    first_such_child(nodes, i, c, stands_in(nodes, f)) && identifier_text(nodes, content, c) is Some
}

/// The parent of a node is the node that it is a child of.
pub proof fn parents_have_children(nodes: Seq<NodeFacts>, p: int, c: int)
    requires
        in_preorder(nodes),
        0 <= p < nodes.len(),
        0 <= c < nodes.len(),
    ensures
        parent_of(nodes, c) == Some(p) <==> is_child(nodes, p, c),
        parent_of(nodes, c) is None <==> forall|k: int|
            0 <= k < c ==> (#[trigger] nodes[k]).depth >= nodes[c].depth,
{
    lemma_enclosing_is_nearest(nodes, nodes[c].depth, c - 1);
    if is_child(nodes, p, c) {
        let found = parent_of(nodes, c);
        assert(found is Some);
        let q = found->0;
        if q < p {
            assert(nodes[p].depth < nodes[c].depth);
        } else if q > p {
            assert(nodes[q].depth > nodes[p].depth);
        }
    }
    if parent_of(nodes, c) == Some(p) {
        assert(nodes[p + 1].depth >= nodes[c].depth);
        assert(nodes[p + 1].depth <= nodes[p].depth + 1);
    }
}

proof fn lemma_enclosing_is_nearest(nodes: Seq<NodeFacts>, depth: nat, j: int)
    requires
        j < nodes.len(),
    ensures
        enclosing(nodes, depth, j) matches Some(p) ==> 0 <= p <= j && nodes[p].depth < depth
            && forall|k: int| p < k <= j ==> (#[trigger] nodes[k]).depth >= depth,
        enclosing(nodes, depth, j) is None ==> forall|k: int|
            0 <= k <= j ==> (#[trigger] nodes[k]).depth >= depth,
    decreases j + 1,
{
    if j >= 0 && nodes[j].depth >= depth {
        lemma_enclosing_is_nearest(nodes, depth, j - 1);
    }
}

/// The text of a node is the part of the source that its bytes cover.
pub proof fn nodes_read_their_bytes(a: Seq<char>, part: Seq<char>, b: Seq<char>, n: NodeFacts)
    requires
        n.start == vstd::utf8::encode_utf8(a).len(),
        n.end == n.start + vstd::utf8::encode_utf8(part).len(),
    ensures
        node_text(a + part + b, n) == Some(part),
{
    text::a_part_is_cut_out(a, part, b);
    text::lemma_encode_concat(a, part);
    text::lemma_encode_concat(a + part, b);
    if n.start == n.end && part.len() > 0 {
        vstd::utf8::encode_utf8_decode_utf8(part);
        vstd::utf8::encode_utf8_first_scalar(part);
    }
    assert(n.start == n.end ==> part =~= seq![]);
}

/// An identifier, of one of the four kinds that grammars have, names itself.
pub proof fn identifiers_name_themselves(nodes: Seq<NodeFacts>, content: Seq<char>, i: int)
    requires
        0 <= i < nodes.len(),
        nodes[i].kind == "identifier"@ || nodes[i].kind == "type_identifier"@ || nodes[i].kind
            == "field_identifier"@ || nodes[i].kind == "property_identifier"@,
    ensures
        identifier_text(nodes, content, i) == node_text(content, nodes[i]),
{
}

/// Any other node is named by the first of its named children that holds an identifier,
/// however deep that stands in it.
pub proof fn others_are_named_by_what_they_hold(
    nodes: Seq<NodeFacts>,
    content: Seq<char>,
    i: int,
)
    requires
        0 <= i < nodes.len(),
        nodes[i].kind != "identifier"@ && nodes[i].kind != "type_identifier"@ && nodes[i].kind
            != "field_identifier"@ && nodes[i].kind != "property_identifier"@,
    ensures
        forall|c: int| #[trigger]
            first_such_child(nodes, i, c, names(nodes, content)) ==> identifier_text(
                nodes,
                content,
                i,
            ) == identifier_text(nodes, content, c),
        (forall|c: int| #[trigger] is_child(nodes, i, c) ==> !names(nodes, content)(c)) ==> identifier_text(
            nodes,
            content,
            i,
        ) is None,
{
    lemma_first_identifier(nodes, content, i);
}

proof fn lemma_first_identifier(nodes: Seq<NodeFacts>, content: Seq<char>, i: int)
    requires
        0 <= i < nodes.len(),
    ensures
        forall|c: int| #[trigger]
            first_such_child(nodes, i, c, names(nodes, content)) ==> child_identifier(
                nodes,
                content,
                i,
                i + 1,
            ) == identifier_text(nodes, content, c),
        (forall|c: int| #[trigger] is_child(nodes, i, c) ==> !names(nodes, content)(c)) ==> child_identifier(
            nodes,
            content,
            i,
            i + 1,
        ) is None,
{
    assert forall|c: int| #[trigger] first_such_child(
        nodes,
        i,
        c,
        names(nodes, content),
    ) implies child_identifier(nodes, content, i, i + 1) == identifier_text(nodes, content, c) by {
        lemma_child_identifier_at(nodes, content, i, i + 1, c);
    }
    if forall|c: int| #[trigger] is_child(nodes, i, c) ==> !names(nodes, content)(c) {
        lemma_no_child_identifier(nodes, content, i, i + 1);
    }
}

proof fn lemma_child_identifier_at(
    nodes: Seq<NodeFacts>,
    content: Seq<char>,
    i: int,
    j: int,
    c: int,
)
    requires
        first_such_child(nodes, i, c, names(nodes, content)),
        i < j <= c,
    ensures
        child_identifier(nodes, content, i, j) == identifier_text(nodes, content, c),
    decreases c - j,
{
    if j < c {
        lemma_child_identifier_at(nodes, content, i, j + 1, c);
        if child_depth(nodes, i, j) {
            assert(is_child(nodes, i, j));
            assert(!names(nodes, content)(j));
        }
    }
}

proof fn lemma_no_child_identifier(nodes: Seq<NodeFacts>, content: Seq<char>, i: int, j: int)
    requires
        0 <= i < j <= nodes.len(),
        forall|k: int| i < k < j ==> (#[trigger] nodes[k]).depth > nodes[i].depth,
        forall|c: int| #[trigger] is_child(nodes, i, c) ==> !names(nodes, content)(c),
    ensures
        child_identifier(nodes, content, i, j) is None,
    decreases nodes.len() - j,
{
    if j < nodes.len() && nodes[j].depth > nodes[i].depth {
        lemma_no_child_identifier(nodes, content, i, j + 1);
        if child_depth(nodes, i, j) {
            assert(is_child(nodes, i, j));
            assert(!names(nodes, content)(j));
        }
    }
}

proof fn lemma_field_child(nodes: Seq<NodeFacts>, i: int, f: Field, j: int)
    requires
        0 <= i < j <= nodes.len(),
        forall|k: int| i < k < j ==> (#[trigger] nodes[k]).depth > nodes[i].depth,
        forall|k: int| i < k < j && #[trigger] is_child(nodes, i, k) ==> !stands_in(nodes, f)(k),
    ensures
        match field_child(nodes, i, f, j) {
            Some(c) => first_such_child(nodes, i, c, stands_in(nodes, f)),
            None => forall|c: int| #[trigger] is_child(nodes, i, c) ==> !stands_in(nodes, f)(c),
        },
    decreases nodes.len() - j,
{
    if j < nodes.len() && nodes[j].depth > nodes[i].depth {
        if child_depth(nodes, i, j) && in_field(nodes[j], f) {
            assert(is_child(nodes, i, j));
        } else {
            lemma_field_child(nodes, i, f, j + 1);
        }
    } else {
        assert forall|c: int| #[trigger] is_child(nodes, i, c) implies !stands_in(nodes, f)(c) by {
            if c >= j {
                assert(j < nodes.len());
                if c > j {
                    assert(nodes[j].depth > nodes[i].depth);
                }
            }
        }
    }
}

proof fn lemma_field_identifier(nodes: Seq<NodeFacts>, content: Seq<char>, i: int, f: Field)
    requires
        0 <= i < nodes.len(),
    ensures
        forall|c: int| #[trigger]
            named_in(nodes, content, i, f, c) ==> field_identifier(nodes, content, i, f)
                == identifier_text(nodes, content, c),
        (forall|c: int| !#[trigger] named_in(nodes, content, i, f, c)) ==> field_identifier(
            nodes,
            content,
            i,
            f,
        ) is None,
{
    lemma_field_child(nodes, i, f, i + 1);
    let found = field_child(nodes, i, f, i + 1);
    assert forall|c: int| #[trigger] named_in(nodes, content, i, f, c) implies field_identifier(
        nodes,
        content,
        i,
        f,
    ) == identifier_text(nodes, content, c) by {
        assert(is_child(nodes, i, c) && stands_in(nodes, f)(c));
        let d = found->0;
        assert(is_child(nodes, i, d) && stands_in(nodes, f)(d));
    }
    if forall|c: int| !#[trigger] named_in(nodes, content, i, f, c) {
        if found is Some {
            assert(!named_in(nodes, content, i, f, found->0));
        }
    }
}

/// A node has the name of its child in the field `name`. Where that holds no identifier,
/// as in an `impl`, it has the name of its child in the field `type`, and after that of
/// the one in the field `declarator`, whatever its other children hold. Without any of
/// the three it has the name of the first of its named children that holds an identifier,
/// and where none does it has no name.
pub proof fn names_stand_in_their_fields(nodes: Seq<NodeFacts>, content: Seq<char>, i: int)
    requires
        0 <= i < nodes.len(),
    ensures
        forall|c: int| #[trigger]
            named_in(nodes, content, i, Field::Name, c) ==> name_of_node(nodes, content, i)
                == identifier_text(nodes, content, c),
        (forall|c: int| !#[trigger] named_in(nodes, content, i, Field::Name, c)) ==> forall|c: int|
         #[trigger]
            named_in(nodes, content, i, Field::Type, c) ==> name_of_node(nodes, content, i)
                == identifier_text(nodes, content, c),
        (forall|c: int| !#[trigger] named_in(nodes, content, i, Field::Name, c)) && (forall|c: int|
            !#[trigger] named_in(nodes, content, i, Field::Type, c)) ==> forall|c: int| #[trigger]
            named_in(nodes, content, i, Field::Declarator, c) ==> name_of_node(nodes, content, i)
                == identifier_text(nodes, content, c),
        (forall|f: Field, c: int| !#[trigger] named_in(nodes, content, i, f, c)) ==> forall|c: int|
         #[trigger]
            first_such_child(nodes, i, c, names(nodes, content)) ==> name_of_node(nodes, content, i)
                == identifier_text(nodes, content, c),
        (forall|f: Field, c: int| !#[trigger] named_in(nodes, content, i, f, c)) && (forall|c: int|
         #[trigger]
            is_child(nodes, i, c) ==> !names(nodes, content)(c)) ==> name_of_node(
            nodes,
            content,
            i,
        ) is None,
{
    lemma_field_identifier(nodes, content, i, Field::Name);
    lemma_field_identifier(nodes, content, i, Field::Type);
    lemma_field_identifier(nodes, content, i, Field::Declarator);
    lemma_first_identifier(nodes, content, i);
    if forall|f: Field, c: int| !#[trigger] named_in(nodes, content, i, f, c) {
        assert(field_identifier(nodes, content, i, Field::Name) is None);
        assert(field_identifier(nodes, content, i, Field::Type) is None);
        assert(field_identifier(nodes, content, i, Field::Declarator) is None);
    }
}

/// Two nodes whose children in the fields `name` and `type` hold the same identifiers
/// have the same name, whatever else the two have below them.
pub proof fn other_children_do_not_change_a_name(
    nodes: Seq<NodeFacts>,
    content: Seq<char>,
    i: int,
    others: Seq<NodeFacts>,
    other_content: Seq<char>,
    k: int,
    c: int,
    d: int,
)
    requires
        0 <= i < nodes.len(),
        0 <= k < others.len(),
        forall|e: int| !#[trigger] named_in(nodes, content, i, Field::Name, e),
        forall|e: int| !#[trigger] named_in(others, other_content, k, Field::Name, e),
        named_in(nodes, content, i, Field::Type, c),
        named_in(others, other_content, k, Field::Type, d),
        identifier_text(nodes, content, c) == identifier_text(others, other_content, d),
    ensures
        name_of_node(nodes, content, i) == name_of_node(others, other_content, k),
{
    names_stand_in_their_fields(nodes, content, i);
    names_stand_in_their_fields(others, other_content, k);
}

/// The name of a node stands in its field `name`; where that holds no identifier, in its
/// field `type`; after that in its field `declarator`; and after that in the first of its
/// named children that holds one.
pub proof fn nodes_are_named_by_their_fields(
    nodes: &Vec<SyntaxNode>,
    content: &str,
    i: usize,
    r: Option<String>,
    c: int,
)
    requires
        call_ensures(name_of, (nodes, content, i), r),
        i < nodes@.len(),
    ensures
        ({
            let all = node_views(nodes@);
            let name = text::opt_text(r);
            let owed = identifier_text(all, content@, c);
            let unnamed = forall|e: int| !#[trigger] named_in(all, content@, i as int, Field::Name, e);
            let untyped = forall|e: int| !#[trigger] named_in(all, content@, i as int, Field::Type, e);
            let undeclared = forall|e: int|
                !#[trigger] named_in(all, content@, i as int, Field::Declarator, e);
            &&& named_in(all, content@, i as int, Field::Name, c) ==> name == owed
            &&& unnamed && named_in(all, content@, i as int, Field::Type, c) ==> name == owed
            &&& unnamed && untyped && named_in(all, content@, i as int, Field::Declarator, c)
                ==> name == owed
            &&& unnamed && untyped && undeclared && first_such_child(
                all,
                i as int,
                c,
                names(all, content@),
            ) ==> name == owed
        }),
{
    let all = node_views(nodes@);
    names_stand_in_their_fields(all, content@, i as int);
    let unnamed = forall|e: int| !#[trigger] named_in(all, content@, i as int, Field::Name, e);
    let untyped = forall|e: int| !#[trigger] named_in(all, content@, i as int, Field::Type, e);
    let undeclared = forall|e: int|
        !#[trigger] named_in(all, content@, i as int, Field::Declarator, e);
    if unnamed && untyped && undeclared {
        assert forall|f: Field, e: int| !#[trigger] named_in(all, content@, i as int, f, e) by {
            match f {
                Field::Name => {},
                Field::Type => {},
                Field::Declarator => {},
            }
        }
    }
}

/// The parent of a node is the node that it is a child of.
pub proof fn parents_are_found(nodes: &Vec<SyntaxNode>, i: usize, r: Option<usize>, p: int)
    requires
        call_ensures(parent, (nodes, i), r),
        i < nodes@.len(),
        in_preorder(node_views(nodes@)),
    ensures
        is_child(node_views(nodes@), p, i as int) ==> r is Some && r->0 == p,
        r is Some ==> is_child(node_views(nodes@), r->0 as int, i as int),
{
    let all = node_views(nodes@);
    if is_child(all, p, i as int) {
        parents_have_children(all, p, i as int);
    }
    if r is Some {
        parents_have_children(all, r->0 as int, i as int);
    }
}

} // verus!
