//! The syntax tree of a Python source text, held as plain values.
//!
//! A tree is the pre-order sequence of its nodes, each with its depth below
//! the root. Parents, children and siblings are read off that sequence.
use vstd::prelude::*;
use vstd::string::StringSliceAdditionalSpecFns;

verus! {

broadcast use vstd::utf8::encode_utf8_decode_utf8;

/// The node kinds that the formatting passes tell apart.
#[derive(Clone, Copy, PartialEq, Eq, Structural, Debug)]
pub enum NodeKind {
    OpenParen,
    CloseParen,
    OpenBracket,
    CloseBracket,
    OpenBrace,
    CloseBrace,
    Comma,
    Interpolation,
    ArgumentList,
    Parameters,
    Dictionary,
    List,
    SetLiteral,
    Tuple,
    StringLiteral,
    Other,
}

/// The kind that a grammar node name stands for.
pub open spec fn kind_of_name(name: Seq<char>) -> NodeKind {
    if name == "("@ {
        NodeKind::OpenParen
    } else if name == ")"@ {
        NodeKind::CloseParen
    } else if name == "["@ {
        NodeKind::OpenBracket
    } else if name == "]"@ {
        NodeKind::CloseBracket
    } else if name == "{"@ {
        NodeKind::OpenBrace
    } else if name == "}"@ {
        NodeKind::CloseBrace
    } else if name == ","@ {
        NodeKind::Comma
    } else if name == "interpolation"@ {
        NodeKind::Interpolation
    } else if name == "argument_list"@ {
        NodeKind::ArgumentList
    } else if name == "parameters"@ {
        NodeKind::Parameters
    } else if name == "dictionary"@ {
        NodeKind::Dictionary
    } else if name == "list"@ {
        NodeKind::List
    } else if name == "set"@ {
        NodeKind::SetLiteral
    } else if name == "tuple"@ {
        NodeKind::Tuple
    } else if name == "string"@ {
        NodeKind::StringLiteral
    } else {
        NodeKind::Other
    }
}

/// Whether two strings hold the same characters.
pub fn same_text(a: &str, b: &str) -> (same: bool)
    ensures
        same == (a@ == b@),
{
    let x = a.as_bytes();
    let y = b.as_bytes();
    proof {
        assert(decode_utf8_of(a@) == a@);
        assert(decode_utf8_of(b@) == b@);
    }
    if x.len() != y.len() {
        return false;
    }
    let mut i: usize = 0;
    while i < x.len()
        invariant
            x@ == a.spec_bytes(),
            y@ == b.spec_bytes(),
            x@.len() == y@.len(),
            i <= x@.len(),
            forall|j: int| 0 <= j < i ==> x@[j] == y@[j],
        decreases x@.len() - i,
    {
        if x[i] != y[i] {
            return false;
        }
        i = i + 1;
    }
    assert(x@ =~= y@);
    true
}

spec fn decode_utf8_of(s: Seq<char>) -> Seq<char> {
    vstd::utf8::decode_utf8(vstd::utf8::encode_utf8(s))
}

/// The kind that a grammar node name stands for.
pub fn kind_from_name(name: &str) -> (kind: NodeKind)
    ensures
        kind == kind_of_name(name@),
{
    if same_text(name, "(") {
        NodeKind::OpenParen
    } else if same_text(name, ")") {
        NodeKind::CloseParen
    } else if same_text(name, "[") {
        NodeKind::OpenBracket
    } else if same_text(name, "]") {
        NodeKind::CloseBracket
    } else if same_text(name, "{") {
        NodeKind::OpenBrace
    } else if same_text(name, "}") {
        NodeKind::CloseBrace
    } else if same_text(name, ",") {
        NodeKind::Comma
    } else if same_text(name, "interpolation") {
        NodeKind::Interpolation
    } else if same_text(name, "argument_list") {
        NodeKind::ArgumentList
    } else if same_text(name, "parameters") {
        NodeKind::Parameters
    } else if same_text(name, "dictionary") {
        NodeKind::Dictionary
    } else if same_text(name, "list") {
        NodeKind::List
    } else if same_text(name, "set") {
        NodeKind::SetLiteral
    } else if same_text(name, "tuple") {
        NodeKind::Tuple
    } else if same_text(name, "string") {
        NodeKind::StringLiteral
    } else {
        NodeKind::Other
    }
}


/// A node as the parser reports it: its grammar name, its flags, where it
/// stands in the source, and its depth below the root. A parse is the list of
/// these in pre-order.
pub struct ParsedNode {
    pub kind: String,
    pub is_named: bool,
    pub is_extra: bool,
    pub start_byte: usize,
    pub end_byte: usize,
    pub start_row: usize,
    pub start_column: usize,
    pub end_row: usize,
    pub end_column: usize,
    pub depth: usize,
}

/// A node of a syntax tree. Byte offsets and columns count bytes of UTF-8;
/// rows and columns start at zero.
#[derive(Clone, Copy, Debug)]
pub struct SyntaxNode {
    pub kind: NodeKind,
    pub is_named: bool,
    pub is_extra: bool,
    pub start_byte: usize,
    pub end_byte: usize,
    pub start_row: usize,
    pub start_column: usize,
    pub end_row: usize,
    pub end_column: usize,
    pub depth: usize,
}

/// A parsed node as values: its grammar name as characters.
pub struct ParsedNodeView {
    pub kind: Seq<char>,
    pub is_named: bool,
    pub is_extra: bool,
    pub start_byte: usize,
    pub end_byte: usize,
    pub start_row: usize,
    pub start_column: usize,
    pub end_row: usize,
    pub end_column: usize,
    pub depth: usize,
}

impl View for ParsedNode {
    type V = ParsedNodeView;

    open spec fn view(&self) -> ParsedNodeView {
        ParsedNodeView {
            kind: self.kind@,
            is_named: self.is_named,
            is_extra: self.is_extra,
            start_byte: self.start_byte,
            end_byte: self.end_byte,
            start_row: self.start_row,
            start_column: self.start_column,
            end_row: self.end_row,
            end_column: self.end_column,
            depth: self.depth,
        }
    }
}

/// The tree node that a parsed node becomes.
pub open spec fn node_of(p: ParsedNodeView) -> SyntaxNode {
    SyntaxNode {
        kind: kind_of_name(p.kind),
        is_named: p.is_named,
        is_extra: p.is_extra,
        start_byte: p.start_byte,
        end_byte: p.end_byte,
        start_row: p.start_row,
        start_column: p.start_column,
        end_row: p.end_row,
        end_column: p.end_column,
        depth: p.depth,
    }
}

/// The tree nodes that a list of parsed nodes becomes.
pub open spec fn nodes_of(parsed: Seq<ParsedNodeView>) -> Seq<SyntaxNode> {
    parsed.map_values(|p: ParsedNodeView| node_of(p))
}

/// A syntax tree: its nodes in pre-order, the root first.
pub struct SyntaxTree {
    pub nodes: Vec<SyntaxNode>,
}

impl View for SyntaxTree {
    type V = Seq<SyntaxNode>;

    open spec fn view(&self) -> Seq<SyntaxNode> {
        self.nodes@
    }
}

/// Node `i` may follow node `i - 1` in pre-order: it is a child of it, or it
/// comes after it at the same depth or above, but never at the root's depth.
pub open spec fn depth_follows(t: Seq<SyntaxNode>, i: int) -> bool {
    1 <= t[i].depth <= t[i - 1].depth + 1
}

/// The depths of `t` describe a tree whose root is the first node.
pub open spec fn depths_valid(t: Seq<SyntaxNode>) -> bool {
    &&& t.len() >= 1
    &&& t[0].depth == 0
    &&& forall|i: int| 1 <= i < t.len() ==> #[trigger] depth_follows(t, i)
}

/// The span of node `i` lies in `bytes` and starts and ends between characters.
pub open spec fn span_fits(t: Seq<SyntaxNode>, bytes: Seq<u8>, i: int) -> bool {
    &&& t[i].start_byte <= t[i].end_byte <= bytes.len()
    &&& vstd::utf8::is_char_boundary(bytes, t[i].start_byte as int)
    &&& vstd::utf8::is_char_boundary(bytes, t[i].end_byte as int)
}

/// `t` is a syntax tree of the text whose UTF-8 encoding is `bytes`.
pub open spec fn tree_of_text(t: Seq<SyntaxNode>, bytes: Seq<u8>) -> bool {
    &&& depths_valid(t)
    &&& forall|i: int| 0 <= i < t.len() ==> #[trigger] span_fits(t, bytes, i)
    &&& t.len() < usize::MAX
}

/// The siblings of depth `d` that follow position `j`, until the scan leaves
/// the parent: the first node at or after `j` whose depth is at most `d`, if
/// its depth is `d`.
pub open spec fn next_at_depth(t: Seq<SyntaxNode>, d: usize, j: int) -> Option<usize>
    decreases t.len() - j,
{
    if j < 0 || j >= t.len() {
        None
    } else if t[j].depth < d {
        None
    } else if t[j].depth == d {
        Some(j as usize)
    } else {
        next_at_depth(t, d, j + 1)
    }
}

/// Scanning backwards from `j`: the first node whose depth is at most `d`, if
/// its depth is `d`.
pub open spec fn prev_at_depth(t: Seq<SyntaxNode>, d: usize, j: int) -> Option<usize>
    decreases j + 1,
{
    if j < 0 || j >= t.len() {
        None
    } else if t[j].depth < d {
        None
    } else if t[j].depth == d {
        Some(j as usize)
    } else {
        prev_at_depth(t, d, j - 1)
    }
}

/// Scanning backwards from `j`: the first node shallower than `d`.
pub open spec fn above_depth(t: Seq<SyntaxNode>, d: usize, j: int) -> Option<usize>
    decreases j + 1,
{
    if j < 0 || j >= t.len() {
        None
    } else if t[j].depth < d {
        Some(j as usize)
    } else {
        above_depth(t, d, j - 1)
    }
}

/// The parent of node `i`; the root has none.
pub open spec fn parent_of(t: Seq<SyntaxNode>, i: int) -> Option<usize> {
    above_depth(t, t[i].depth, i - 1)
}

/// The next sibling of node `i`.
pub open spec fn next_sibling_of(t: Seq<SyntaxNode>, i: int) -> Option<usize> {
    next_at_depth(t, t[i].depth, i + 1)
}

/// The previous sibling of node `i`.
pub open spec fn prev_sibling_of(t: Seq<SyntaxNode>, i: int) -> Option<usize> {
    prev_at_depth(t, t[i].depth, i - 1)
}

/// Nodes of depth `d + 1` from position `j` on, until a node of depth at
/// most `d` ends the scan; `named` keeps only named ones, `rows` only named
/// nodes that are not extras.
pub open spec fn children_from(t: Seq<SyntaxNode>, d: usize, j: int, keep: ChildFilter) -> Seq<usize>
    decreases t.len() - j,
{
    if j < 0 || j >= t.len() {
        Seq::empty()
    } else if t[j].depth <= d {
        Seq::empty()
    } else if t[j].depth == d + 1 && keeps(keep, t[j]) {
        seq![j as usize] + children_from(t, d, j + 1, keep)
    } else {
        children_from(t, d, j + 1, keep)
    }
}

/// Which children a scan keeps.
#[derive(Clone, Copy, PartialEq, Eq, Structural, Debug)]
pub enum ChildFilter {
    All,
    Named,
    NamedNotExtra,
}

pub open spec fn keeps(keep: ChildFilter, n: SyntaxNode) -> bool {
    match keep {
        ChildFilter::All => true,
        ChildFilter::Named => n.is_named,
        ChildFilter::NamedNotExtra => n.is_named && !n.is_extra,
    }
}

/// The children of node `i`, in order.
pub open spec fn children_of(t: Seq<SyntaxNode>, i: int) -> Seq<usize> {
    children_from(t, t[i].depth, i + 1, ChildFilter::All)
}

/// The named children of node `i`, in order.
pub open spec fn named_children_of(t: Seq<SyntaxNode>, i: int) -> Seq<usize> {
    children_from(t, t[i].depth, i + 1, ChildFilter::Named)
}

/// The bytes of the source that node `n` spans.
pub open spec fn span_bytes(bytes: Seq<u8>, n: SyntaxNode) -> Seq<u8> {
    bytes.subrange(n.start_byte as int, n.end_byte as int)
}

pub proof fn lemma_next_at_depth_bounds(t: Seq<SyntaxNode>, d: usize, j: int)
    requires
        t.len() <= usize::MAX,
    ensures
        next_at_depth(t, d, j) matches Some(s) ==> j <= s < t.len() && t[s as int].depth == d,
    decreases t.len() - j,
{
    if 0 <= j < t.len() && t[j].depth > d {
        lemma_next_at_depth_bounds(t, d, j + 1);
    }
}

pub proof fn lemma_prev_at_depth_bounds(t: Seq<SyntaxNode>, d: usize, j: int)
    requires
        t.len() <= usize::MAX,
    ensures
        prev_at_depth(t, d, j) matches Some(s) ==> 0 <= s <= j && t[s as int].depth == d,
    decreases j + 1,
{
    if 0 <= j < t.len() && t[j].depth > d {
        lemma_prev_at_depth_bounds(t, d, j - 1);
    }
}

pub proof fn lemma_above_depth_bounds(t: Seq<SyntaxNode>, d: usize, j: int)
    requires
        t.len() <= usize::MAX,
    ensures
        above_depth(t, d, j) matches Some(s) ==> 0 <= s <= j && t[s as int].depth < d,
    decreases j + 1,
{
    if 0 <= j < t.len() && t[j].depth >= d {
        lemma_above_depth_bounds(t, d, j - 1);
    }
}

pub proof fn lemma_children_from_bounds(t: Seq<SyntaxNode>, d: usize, j: int, keep: ChildFilter)
    requires
        t.len() <= usize::MAX,
    ensures
        forall|k: int|
            0 <= k < children_from(t, d, j, keep).len() ==> {
                let c = #[trigger] children_from(t, d, j, keep)[k];
                &&& j <= c < t.len()
                &&& t[c as int].depth == d + 1
                &&& keeps(keep, t[c as int])
            },
    decreases t.len() - j,
{
    if 0 <= j < t.len() && t[j].depth > d {
        lemma_children_from_bounds(t, d, j + 1, keep);
        if t[j].depth == d + 1 && keeps(keep, t[j]) {
            let rest = children_from(t, d, j + 1, keep);
            assert forall|k: int| 1 <= k < children_from(t, d, j, keep).len() implies children_from(
                t,
                d,
                j,
                keep,
            )[k] == rest[k - 1] by {}
        }
    }
}

/// A node with named children has children.
pub proof fn lemma_named_children_nonempty(t: Seq<SyntaxNode>, d: usize, j: int, keep: ChildFilter)
    ensures
        children_from(t, d, j, keep).len() > 0 ==> children_from(t, d, j, ChildFilter::All).len() > 0,
    decreases t.len() - j,
{
    if 0 <= j < t.len() && t[j].depth > d && t[j].depth != d + 1 {
        lemma_named_children_nonempty(t, d, j + 1, keep);
    }
}

impl SyntaxTree {
    /// The tree that a pre-order list of parsed nodes describes, if the depths
    /// describe a tree and every span lies in `source` between characters.
    pub fn from_parsed(source: &str, parsed: &Vec<ParsedNode>) -> (tree: Option<SyntaxTree>)
        ensures
            tree is Some <==> tree_of_text(nodes_of(parsed@.map_values(|p: ParsedNode| p@)), source.spec_bytes()),
            tree matches Some(t) ==> t@ == nodes_of(parsed@.map_values(|p: ParsedNode| p@)),
    {
        let ghost model = nodes_of(parsed@.map_values(|p: ParsedNode| p@));
        let ghost bytes = source.spec_bytes();
        let n = parsed.len();
        if n == 0 || n == usize::MAX {
            return None;
        }
        let len = source.as_bytes().len();
        let mut nodes: Vec<SyntaxNode> = Vec::new();
        let mut i: usize = 0;
        while i < n
            invariant
                n == parsed@.len(),
                model == nodes_of(parsed@.map_values(|p: ParsedNode| p@)),
                bytes == source.spec_bytes(),
                len == bytes.len(),
                0 < n < usize::MAX,
                i <= n,
                nodes@ == model.take(i as int),
                i > 0 ==> nodes@[0].depth == 0,
                forall|k: int| 1 <= k < i ==> #[trigger] depth_follows(model, k),
                forall|k: int| 0 <= k < i ==> #[trigger] span_fits(model, bytes, k),
            decreases n - i,
        {
            let p = &parsed[i];
            let node = SyntaxNode {
                kind: kind_from_name(p.kind.as_str()),
                is_named: p.is_named,
                is_extra: p.is_extra,
                start_byte: p.start_byte,
                end_byte: p.end_byte,
                start_row: p.start_row,
                start_column: p.start_column,
                end_row: p.end_row,
                end_column: p.end_column,
                depth: p.depth,
            };
            assert(node == model[i as int]);
            if i == 0 {
                if node.depth != 0 {
                    return None;
                }
            } else {
                let prev_depth = nodes[i - 1].depth;
                assert(prev_depth == model[i - 1].depth);
                if node.depth < 1 || node.depth - 1 > prev_depth {
                    assert(!depth_follows(model, i as int));
                    return None;
                }
                assert(depth_follows(model, i as int));
            }
            if !(node.start_byte <= node.end_byte && node.end_byte <= len
                && source.is_char_boundary(node.start_byte) && source.is_char_boundary(node.end_byte)) {
                assert(!span_fits(model, bytes, i as int));
                return None;
            }
            assert(span_fits(model, bytes, i as int));
            nodes.push(node);
            assert(nodes@ =~= model.take(i + 1));
            i = i + 1;
        }
        assert(nodes@ =~= model);
        Some(SyntaxTree { nodes })
    }

    /// Whether the tree is a syntax tree of `source`.
    pub open spec fn fits(&self, source: &str) -> bool {
        tree_of_text(self@, source.spec_bytes())
    }

    pub fn len(&self) -> (n: usize)
        ensures
            n == self@.len(),
    {
        self.nodes.len()
    }

    /// The parent of node `i`.
    pub fn parent(&self, i: usize) -> (p: Option<usize>)
        requires
            i < self@.len(),
        ensures
            p == parent_of(self@, i as int),
    {
        let d = self.nodes[i].depth;
        let mut j: usize = i;
        while j > 0
            invariant
                j <= i < self@.len(),
                d == self@[i as int].depth,
                parent_of(self@, i as int) == above_depth(self@, d, j - 1),
            decreases j,
        {
            if self.nodes[j - 1].depth < d {
                return Some(j - 1);
            }
            j = j - 1;
        }
        None
    }

    /// The next sibling of node `i`.
    pub fn next_sibling(&self, i: usize) -> (s: Option<usize>)
        requires
            i < self@.len(),
        ensures
            s == next_sibling_of(self@, i as int),
    {
        let d = self.nodes[i].depth;
        let n = self.nodes.len();
        let mut j: usize = i + 1;
        while j < n
            invariant
                i < j <= n == self@.len(),
                d == self@[i as int].depth,
                next_sibling_of(self@, i as int) == next_at_depth(self@, d, j as int),
            decreases n - j,
        {
            let dj = self.nodes[j].depth;
            if dj < d {
                return None;
            }
            if dj == d {
                return Some(j);
            }
            j = j + 1;
        }
        None
    }

    /// The previous sibling of node `i`.
    pub fn prev_sibling(&self, i: usize) -> (s: Option<usize>)
        requires
            i < self@.len(),
        ensures
            s == prev_sibling_of(self@, i as int),
    {
        let d = self.nodes[i].depth;
        let mut j: usize = i;
        while j > 0
            invariant
                j <= i < self@.len(),
                d == self@[i as int].depth,
                prev_sibling_of(self@, i as int) == prev_at_depth(self@, d, j - 1),
            decreases j,
        {
            let dj = self.nodes[j - 1].depth;
            if dj < d {
                return None;
            }
            if dj == d {
                return Some(j - 1);
            }
            j = j - 1;
        }
        None
    }

    /// The children of node `i` that `keep` keeps, in order.
    pub fn children_where(&self, i: usize, keep: ChildFilter) -> (c: Vec<usize>)
        requires
            i < self@.len(),
        ensures
            c@ == children_from(self@, self@[i as int].depth, i + 1, keep),
    {
        let d = self.nodes[i].depth;
        let n = self.nodes.len();
        let mut out: Vec<usize> = Vec::new();
        let mut j: usize = i + 1;
        while j < n && self.nodes[j].depth > d
            invariant
                i < j <= n == self@.len(),
                d == self@[i as int].depth,
                children_from(self@, d, i + 1, keep) == out@ + children_from(self@, d, j as int, keep),
            decreases n - j,
        {
            let node = self.nodes[j];
            let kept = match keep {
                ChildFilter::All => true,
                ChildFilter::Named => node.is_named,
                ChildFilter::NamedNotExtra => node.is_named && !node.is_extra,
            };
            if node.depth - 1 == d && kept {
                let ghost before = out@;
                out.push(j);
                assert(children_from(self@, d, j as int, keep) == seq![j] + children_from(self@, d, j + 1, keep));
                assert(before + children_from(self@, d, j as int, keep) =~= out@ + children_from(self@, d, j + 1, keep));
            }
            j = j + 1;
        }
        assert(children_from(self@, d, j as int, keep) =~= Seq::<usize>::empty());
        assert(out@ + Seq::<usize>::empty() =~= out@);
        out
    }

    /// The text that node `i` spans.
    pub fn node_text<'a>(&self, source: &'a str, i: usize) -> (text: &'a str)
        requires
            self.fits(source),
            i < self@.len(),
        ensures
            text.spec_bytes() == span_bytes(source.spec_bytes(), self@[i as int]),
    {
        let node = self.nodes[i];
        assert(span_fits(self@, source.spec_bytes(), i as int));
        text_between(source, node.start_byte, node.end_byte)
    }
}

/// The part of `source` between two byte offsets that fall between characters.
pub fn text_between<'a>(source: &'a str, from: usize, to: usize) -> (text: &'a str)
    requires
        from <= to <= source.spec_bytes().len(),
        vstd::utf8::is_char_boundary(source.spec_bytes(), from as int),
        vstd::utf8::is_char_boundary(source.spec_bytes(), to as int),
    ensures
        text.spec_bytes() == source.spec_bytes().subrange(from as int, to as int),
{
    let ghost bytes = source.spec_bytes();
    proof {
        vstd::utf8::encode_utf8_valid_utf8(source@);
    }
    let (head, _) = source.split_at(to);
    let ghost hb = bytes.subrange(0, to as int);
    assert(head.spec_bytes() == hb);
    proof {
        vstd::utf8::valid_utf8_split(bytes, to as int);
        if from < to {
            vstd::utf8::is_char_boundary_iff_not_is_continuation_byte(bytes, from as int);
            vstd::utf8::is_char_boundary_iff_not_is_continuation_byte(hb, from as int);
            assert(hb[from as int] == bytes[from as int]);
        } else {
            vstd::utf8::is_char_boundary_start_end_of_seq(hb);
        }
    }
    let (_, text) = head.split_at(from);
    assert(text.spec_bytes() =~= bytes.subrange(from as int, to as int));
    text
}

} // verus!
