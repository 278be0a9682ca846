use vstd::prelude::*;

use crate::languages::Language;

verus! {

#[verifier::external_type_specification]
#[verifier::external_body]
pub struct ExTree(tree_sitter::Tree);

/// One node of a parsed file, as plain values.
///
/// Nodes are kept in pre-order. `parent` is the index of the enclosing node, and the
/// node's subtree occupies the indices from its own up to, not including, `end`.
pub struct SyntaxNode {
    pub kind: String,
    pub field: Option<String>,
    pub parent: Option<usize>,
    pub end: usize,
    pub line: usize,
    pub column: usize,
    pub text: Option<String>,
}

/// Parents come before their children, and each subtree lies within the sequence.
pub open spec fn well_formed(nodes: Seq<SyntaxNode>) -> bool {
    forall|i: int|
        0 <= i < nodes.len() ==> {
            &&& #[trigger] nodes[i].parent matches Some(p) ==> p < i
            &&& i < nodes[i].end <= nodes.len()
        }
}

/// The plain values of an optional string.
pub open spec fn opt_view(s: Option<String>) -> Option<Seq<char>> {
    match s {
        Some(t) => Some(t@),
        None => None,
    }
}

/// What the parser tells of one node: kind, field under its parent, depth, size of its
/// subtree, zero-based start row and column, and source text.
pub type RawView = (Seq<char>, Option<Seq<char>>, nat, nat, nat, nat, Option<Seq<char>>);

/// One node as the parser reports it.
pub struct RawNode {
    pub kind: String,
    pub field: Option<String>,
    pub depth: usize,
    pub extent: usize,
    pub row: usize,
    pub column: usize,
    pub text: Option<String>,
}

pub open spec fn raw_view(r: RawNode) -> RawView {
    (r.kind@, opt_view(r.field), r.depth as nat, r.extent as nat, r.row as nat, r.column as nat, opt_view(r.text))
}

/// Whether the language's grammar loads and the parser gives a tree for the text; parsing
/// depends on the grammar and the text alone.
pub uninterp spec fn parses(language: Language, source: Seq<char>) -> bool;

/// The nodes of the tree that the language's grammar gives for the text, in pre-order, as
/// the parser reports them; they depend on the grammar and the text alone.
pub uninterp spec fn syntax_of(language: Language, source: Seq<char>) -> Seq<RawView>;

/// A parsed text. Only `parse_tree` makes one, so `tree` is always the tree of `source` in
/// `language`'s grammar.
pub struct ParsedTree {
    language: Language,
    source: String,
    tree: tree_sitter::Tree,
}

/// Relies on the grammar crates' `LANGUAGE` constants, `tree_sitter::Parser::set_language` and
/// `tree_sitter::Parser::parse`: the tree of the source in the language's grammar, or `None`
/// when the grammar cannot be loaded or parsing fails.
#[verifier::external_body]
fn parse_tree(language: Language, source: &str) -> (r: Option<ParsedTree>)
    ensures
        r is Some <==> parses(language, source@),
        r matches Some(t) ==> t.language == language && t.source@ == source@,
{
    let grammar = match language {
        Language::C => tree_sitter_c::LANGUAGE, Language::Cpp => tree_sitter_cpp::LANGUAGE,
        Language::CSharp => tree_sitter_c_sharp::LANGUAGE, Language::Go => tree_sitter_go::LANGUAGE,
        Language::Java => tree_sitter_java::LANGUAGE, Language::Kotlin => tree_sitter_kotlin_ng::LANGUAGE,
        Language::Php => tree_sitter_php::LANGUAGE_PHP, Language::Python => tree_sitter_python::LANGUAGE,
        Language::JavaScript => tree_sitter_javascript::LANGUAGE, Language::Rust => tree_sitter_rust::LANGUAGE,
        Language::TypeScript => tree_sitter_typescript::LANGUAGE_TYPESCRIPT,
        Language::TypeScriptReact => tree_sitter_typescript::LANGUAGE_TSX,
    };
    let mut parser = tree_sitter::Parser::new();
    parser.set_language(&grammar.into()).ok()?;
    let tree = parser.parse(source, None)?;
    Some(ParsedTree { language, source: source.to_string(), tree })
}

/// Relies on `tree_sitter::Node::descendant_count` of the root: the number of nodes, the
/// root included.
#[verifier::external_body]
fn node_total(t: &ParsedTree) -> (r: usize)
    ensures
        r == syntax_of(t.language, t.source@).len(),
        r >= 1,
{
    t.tree.root_node().descendant_count()
}

/// Relies on `tree_sitter::TreeCursor::goto_descendant`, `depth` and `field_name`, and on
/// `tree_sitter::Node::kind`, `descendant_count`, `start_position` and `byte_range`: the node
/// with pre-order index `i`. Its text is the source's bytes in its range, when they are
/// valid UTF-8; positions are 32-bit in the tree.
#[verifier::external_body]
fn node_record(t: &ParsedTree, i: usize) -> (r: RawNode)
    requires
        i < syntax_of(t.language, t.source@).len(),
    ensures
        raw_view(r) == syntax_of(t.language, t.source@)[i as int],
        r.row <= u32::MAX,
        r.column <= u32::MAX,
{
    let mut c = t.tree.walk();
    c.goto_descendant(i);
    let n = c.node();
    let text = t.source.as_bytes().get(n.byte_range()).and_then(|b| std::str::from_utf8(b).ok());
    RawNode {
        kind: n.kind().into(), field: c.field_name().map(String::from), depth: c.depth() as usize,
        extent: n.descendant_count(), row: n.start_position().row, column: n.start_position().column,
        text: text.map(String::from),
    }
}

/// `s` cut to its first `d` entries.
pub open spec fn truncate(s: Seq<usize>, d: nat) -> Seq<usize> {
    if s.len() > d {
        s.subrange(0, d as int)
    } else {
        s
    }
}

/// The nodes still open before node `i`: each node is opened after cutting the open list to
/// its depth.
pub open spec fn open_before(raw: Seq<RawView>, i: int) -> Seq<usize>
    decreases i,
{
    if i <= 0 {
        seq![]
    } else {
        truncate(open_before(raw, i - 1), raw[i - 1].2).push((i - 1) as usize)
    }
}

/// The parent of node `i`: the last node open at a smaller depth.
pub open spec fn parent_in(raw: Seq<RawView>, i: int) -> Option<usize> {
    let s = truncate(open_before(raw, i), raw[i].2);
    if s.len() > 0 {
        Some(s.last())
    } else {
        None
    }
}

/// Where the subtree of node `i` ends; a size that does not fit is read as a leaf.
pub open spec fn end_in(raw: Seq<RawView>, i: int) -> usize {
    let e = raw[i].3;
    if 0 < e && e <= raw.len() - i {
        (i + e) as usize
    } else {
        (i + 1) as usize
    }
}

/// A zero-based row or column, counted from 1.
pub open spec fn one_based(n: nat) -> usize {
    if n < usize::MAX {
        (n + 1) as usize
    } else {
        n as usize
    }
}

/// A node's plain values.
pub open spec fn node_view(n: SyntaxNode) -> (Seq<char>, Option<Seq<char>>, Option<usize>, usize, usize, usize, Option<Seq<char>>) {
    (n.kind@, opt_view(n.field), n.parent, n.end, n.line, n.column, opt_view(n.text))
}

/// The plain values that node `i` of the parse gets.
pub open spec fn flat_view(raw: Seq<RawView>, i: int) -> (Seq<char>, Option<Seq<char>>, Option<usize>, usize, usize, usize, Option<Seq<char>>) {
    (raw[i].0, raw[i].1, parent_in(raw, i), end_in(raw, i), one_based(raw[i].4), one_based(raw[i].5), raw[i].6)
}

/// `nodes` are the nodes of the parse of `source` in `language`.
pub open spec fn nodes_of(nodes: Seq<SyntaxNode>, language: Language, source: Seq<char>) -> bool {
    let raw = syntax_of(language, source);
    &&& nodes.len() == raw.len()
    &&& forall|i: int| 0 <= i < nodes.len() ==> #[trigger] node_view(nodes[i]) == flat_view(raw, i)
}

/// Parses the source with the language's grammar and lists its nodes in pre-order.
/// Returns `None` when the parser gives no tree.
pub fn syntax_nodes(language: Language, source: &str) -> (r: Option<Vec<SyntaxNode>>)
    ensures
        r is Some <==> parses(language, source@),
        r matches Some(nodes) ==> well_formed(nodes@) && nodes_of(nodes@, language, source@),
{
    let t = match parse_tree(language, source) {
        Some(t) => t,
        None => return None,
    };
    let ghost raw = syntax_of(language, source@);
    let n = node_total(&t);
    let mut nodes: Vec<SyntaxNode> = Vec::new();
    let mut open: Vec<usize> = Vec::new();
    let mut i: usize = 0;
    while i < n
        invariant
            i <= n,
            n == raw.len(),
            raw == syntax_of(t.language, t.source@),
            raw == syntax_of(language, source@),
            nodes@.len() == i,
            open@ == open_before(raw, i as int),
            forall|k: int| 0 <= k < open@.len() ==> open@[k] < i,
            forall|k: int|
                0 <= k < i ==> {
                    &&& #[trigger] nodes@[k].parent matches Some(p) ==> p < k
                    &&& k < nodes@[k].end <= n
                    &&& node_view(nodes@[k]) == flat_view(raw, k)
                },
        decreases n - i,
    {
        let rec = node_record(&t, i);
        let ghost s0 = open@;
        let depth = rec.depth;
        while open.len() > depth
            invariant
                open@ == s0.subrange(0, open@.len() as int),
                open@.len() <= s0.len(),
                s0.len() > depth ==> open@.len() >= depth,
                s0.len() <= depth ==> open@.len() == s0.len(),
            decreases open@.len(),
        {
            open.pop();
        }
        proof {
            assert(open@ =~= truncate(s0, depth as nat));
        }
        let parent = if open.len() > 0 {
            Some(open[open.len() - 1])
        } else {
            None
        };
        let extent = rec.extent;
        let end = if 0 < extent && extent <= n - i {
            i + extent
        } else {
            i + 1
        };
        let row = rec.row;
        let col = rec.column;
        let node = SyntaxNode {
            kind: rec.kind,
            field: rec.field,
            parent,
            end,
            line: if row < usize::MAX { row + 1 } else { row },
            column: if col < usize::MAX { col + 1 } else { col },
            text: rec.text,
        };
        let ghost old_nodes = nodes@;
        nodes.push(node);
        open.push(i);
        proof {
            assert(open@ == open_before(raw, i + 1));
            assert forall|k: int|
                0 <= k < i + 1 implies {
                    &&& #[trigger] nodes@[k].parent matches Some(p) ==> p < k
                    &&& k < nodes@[k].end <= n
                    &&& node_view(nodes@[k]) == flat_view(raw, k)
                } by {
                if k < i {
                    assert(nodes@[k] == old_nodes[k]);
                }
            }
        }
        i = i + 1;
    }
    Some(nodes)
}

} // verus!
