//! The tree builder: the insertion-mode state machine that consumes the
//! token stream and grows the document tree.
//!
//! Each insertion mode maps a token to a new builder state, some tree
//! edits, and possibly a request to reprocess the same token under the new
//! mode; at most one token is ever pending.  As with the tokenizer, the
//! whole mode table is written once as the specification-level `tb_step`,
//! the complete run as `tb_run`, and the executable `build` is proved to
//! follow them exactly.  The tree invariants — every stored index exists,
//! every node has exactly one parent, children postdate their parents, and
//! no two adjacent siblings are both text — are proved to hold throughout.

use vstd::prelude::*;

use crate::tokenizer::{AttrM, Attribute, Tag, Token, TokenM, Tokenizer, TokenizerError, tk_next,
    stream_fuel, lemma_stream_terminates, clone_attrs, push_char, str_eq};
use crate::tree::{Tree, TreeNode, dfs};
use vstd::string::StringExecFns;

verus! {

/// The document node's payload: nothing but its identity as the root.
#[derive(Debug, Clone, PartialEq)]
pub struct Document {}

/// An element node's payload: its (lowercased) tag name and its
/// attributes, taken from the tag token it was created for.
#[derive(Debug, Clone, PartialEq)]
pub struct Element {
    pub tag_name: String,
    pub attributes: Vec<Attribute>,
}

/// A text node's payload: the accumulated character data.
#[derive(Debug, Clone, PartialEq)]
pub struct Text {
    pub data: String,
}

/// A node of the document tree.
#[derive(Debug, Clone, PartialEq)]
pub enum Node {
    Document(Document),
    Element(Element),
    Text(Text),
}

impl Document {
    pub fn new() -> (d: Self)
        ensures
            d == (Document {  }),
    {
        Document {  }
    }
}

impl Element {
    /// A bare element with no attributes; the builder attaches a token's
    /// attributes when it creates an element for that token.
    pub fn new(tag_name: String) -> (e: Self)
        ensures
            e.tag_name == tag_name,
            e.attributes@ == Seq::<Attribute>::empty(),
    {
        Element { tag_name, attributes: Vec::new() }
    }
}

impl Text {
    pub fn new(data: String) -> (t: Self)
        ensures
            t.data == data,
    {
        Text { data }
    }
}

/// Model of a node.
#[verifier::ext_equal]
pub enum NodeM {
    Document,
    Element { name: Seq<char>, attrs: Seq<AttrM> },
    Text { data: Seq<char> },
}

impl View for Node {
    type V = NodeM;

    open spec fn view(&self) -> NodeM {
        match self {
            Node::Document(_) => NodeM::Document,
            Node::Element(e) => NodeM::Element {
                name: e.tag_name@,
                attrs: e.attributes@.map_values(|a: Attribute| a@),
            },
            Node::Text(t) => NodeM::Text { data: t.data@ },
        }
    }
}

/// Model of one arena record: the children (as indices) and the payload.
#[verifier::ext_equal]
pub struct NodeRecM {
    pub children: Seq<int>,
    pub data: NodeM,
}

/// Model of the whole arena tree.
#[verifier::ext_equal]
pub struct TreeM {
    pub nodes: Seq<NodeRecM>,
    pub root: Option<int>,
}

/// The `j`-th child of node `i`.
pub open spec fn child_of(t: TreeM, i: int, j: int) -> int {
    t.nodes[i].children[j]
}

/// The payload of node `n`.
pub open spec fn data_at(t: TreeM, n: int) -> NodeM {
    t.nodes[n].data
}

impl TreeM {
    /// Every stored child index refers to an existing node created after
    /// its parent.
    pub open spec fn edges_ok(self) -> bool {
        forall|i: int, j: int|
            0 <= i < self.nodes.len() && 0 <= j < self.nodes[i].children.len() ==> i < (
            #[trigger] child_of(self, i, j)) < self.nodes.len()
    }

    /// No index occurs twice among all child lists: every node has at most
    /// one parent, and appears at most once in that parent's list.
    pub open spec fn children_unique(self) -> bool {
        forall|i1: int, j1: int, i2: int, j2: int|
            0 <= i1 < self.nodes.len() && 0 <= j1 < self.nodes[i1].children.len() && 0 <= i2
                < self.nodes.len() && 0 <= j2 < self.nodes[i2].children.len() && !(i1 == i2 && j1
                == j2) ==> #[trigger] child_of(self, i1, j1) != #[trigger] child_of(self, i2, j2)
    }

    /// No two adjacent siblings are both text nodes: character insertion
    /// always coalesces into the preceding text node.
    pub open spec fn no_adjacent_text(self) -> bool {
        forall|i: int, j: int|
            0 <= i < self.nodes.len() && 0 <= j && j + 1 < self.nodes[i].children.len() ==> !(
            data_at(self, #[trigger] child_of(self, i, j)) is Text && data_at(
                self,
                child_of(self, i, j + 1),
            ) is Text)
    }
}

/// The insertion modes, as named by the HTML standard.  Only the modes
/// with a handler in `tb_step` are implemented; reaching any other mode
/// halts with an explicit error.
#[derive(Debug, Clone, Copy, PartialEq, Eq)]
pub enum InsertionMode {
    Initial,
    BeforeHtml,
    BeforeHead,
    InHead,
    InHeadNoscript,
    AfterHead,
    InBody,
    Text,
    InTable,
    InTableText,
    InCaption,
    InColumnGroup,
    InTableBody,
    InRow,
    InCell,
    InSelect,
    InSelectInTable,
    InTemplate,
    AfterBody,
    InFrameset,
    AfterFrameset,
    AfterAfterBody,
    AfterAfterFrameset,
}

/// How tree construction halts: the tokenizer hit an unsupported
/// construct, or a token arrived that the mode's implemented subset does
/// not cover.
#[derive(Debug, PartialEq)]
pub enum BuildError {
    Tokenizer(TokenizerError),
    UnsupportedMode { mode: InsertionMode, token: Token },
}

/// Model of a build error.
#[verifier::ext_equal]
pub enum BuildErrM {
    Tokenizer(TokenizerError),
    UnsupportedMode { mode: InsertionMode, token: TokenM },
}

impl View for BuildError {
    type V = BuildErrM;

    open spec fn view(&self) -> BuildErrM {
        match self {
            BuildError::Tokenizer(e) => BuildErrM::Tokenizer(*e),
            BuildError::UnsupportedMode { mode, token } => BuildErrM::UnsupportedMode {
                mode: *mode,
                token: token@,
            },
        }
    }
}

/// The tree builder: the arena under construction, the current insertion
/// mode, the stack of open elements (top = last), the head element
/// pointer, and the index of the document node.
pub struct TreeBuilder {
    pub tree: Tree<Node>,
    pub current_insertion_mode: InsertionMode,
    pub stack_of_open_elements: Vec<usize>,
    pub head_element_pointer: Option<usize>,
    pub document: usize,
}

/// Model of the builder.
#[verifier::ext_equal]
pub struct TbModel {
    pub tree: TreeM,
    pub mode: InsertionMode,
    pub stack: Seq<int>,
    pub head: Option<int>,
    pub document: int,
}

/// The model of an arena tree of nodes.
pub open spec fn tree_m(t: Tree<Node>) -> TreeM {
    TreeM {
        nodes: t.data@.map_values(
            |n: TreeNode<Node>|
                NodeRecM {
                    children: n.children@.map_values(|c: usize| c as int),
                    data: n.data@,
                },
        ),
        root: match t.root {
            Some(r) => Some(r as int),
            None => None,
        },
    }
}

impl View for TreeBuilder {
    type V = TbModel;

    open spec fn view(&self) -> TbModel {
        TbModel {
            tree: tree_m(self.tree),
            mode: self.current_insertion_mode,
            stack: self.stack_of_open_elements@.map_values(|u: usize| u as int),
            head: match self.head_element_pointer {
                Some(h) => Some(h as int),
                None => None,
            },
            document: self.document as int,
        }
    }
}

impl TbModel {
    /// The builder's structural invariant: the document node is the
    /// arena's first node and the root, the tree edges are sound and
    /// duplicate-free, text never stands next to text, and the stack holds
    /// only existing nodes.
    pub open spec fn wf(self) -> bool {
        &&& self.document == 0
        &&& 0 <= self.document < self.tree.nodes.len()
        &&& self.tree.root == Some(self.document)
        &&& data_at(self.tree, self.document) is Document
        &&& self.tree.edges_ok()
        &&& self.tree.children_unique()
        &&& self.tree.no_adjacent_text()
        &&& forall|k: int|
            0 <= k < self.stack.len() ==> 0 <= #[trigger] self.stack[k] < self.tree.nodes.len()
    }
}

// ---------------------------------------------------------------------
// The specification-level tree edits.
// ---------------------------------------------------------------------

/// A fresh node appended at the end of the arena; its index is the old
/// node count.
pub open spec fn m_create_node(t: TreeM, d: NodeM) -> TreeM {
    TreeM { nodes: t.nodes.push(NodeRecM { children: Seq::<int>::empty(), data: d }), ..t }
}

/// One more child appended to node `p`'s list.
pub open spec fn m_add_child(t: TreeM, p: int, c: int) -> TreeM {
    TreeM {
        nodes: t.nodes.update(
            p,
            NodeRecM { children: t.nodes[p].children.push(c), data: t.nodes[p].data },
        ),
        ..t
    }
}

/// The current node: the top of the stack of open elements.
pub open spec fn current_node_m(tb: TbModel) -> Option<int> {
    if tb.stack.len() == 0 {
        None
    } else {
        Some(tb.stack.last())
    }
}

/// The stack with its top popped (unchanged when empty).
pub open spec fn m_pop(tb: TbModel) -> TbModel {
    TbModel {
        stack: if tb.stack.len() > 0 {
            tb.stack.drop_last()
        } else {
            tb.stack
        },
        ..tb
    }
}

/// Insert an HTML element: create it with the token's name and
/// attributes, append it under the current node if there is one and under
/// the document otherwise, and push it onto the stack of open elements.
pub open spec fn m_insert_element(tb: TbModel, name: Seq<char>, attrs: Seq<AttrM>) -> (
    TbModel,
    int,
) {
    let e = tb.tree.nodes.len() as int;
    let parent = match current_node_m(tb) {
        Some(cur) => cur,
        None => tb.document,
    };
    let t2 = m_append_node(tb.tree, parent, NodeM::Element { name, attrs });
    (TbModel { tree: t2, stack: tb.stack.push(e), ..tb }, e)
}

/// Insert the root `html` element: create it, append it under the
/// document, and push it onto the stack of open elements.  This is
/// `m_insert_element` as it behaves on an empty stack; the before-html
/// mode appends under the document by name.
pub open spec fn m_insert_html_root(tb: TbModel, name: Seq<char>, attrs: Seq<AttrM>) -> TbModel {
    let e = tb.tree.nodes.len() as int;
    let t2 = m_append_node(tb.tree, tb.document, NodeM::Element { name, attrs });
    TbModel { tree: t2, stack: tb.stack.push(e), ..tb }
}

/// A text payload with one more character (anything else unchanged).
pub open spec fn text_push(d: NodeM, c: char) -> NodeM {
    match d {
        NodeM::Text { data } => NodeM::Text { data: data.push(c) },
        _ => d,
    }
}

/// Insert a character: appended to the current node's last child when that
/// child is a text node, else as a fresh text node appended at the end of
/// the current node's children.  Without a current node nothing happens.
pub open spec fn m_insert_char(tb: TbModel, c: char) -> TbModel {
    match current_node_m(tb) {
        None => tb,
        Some(cur) => {
            let children = tb.tree.nodes[cur].children;
            if children.len() > 0 && data_at(tb.tree, children.last()) is Text {
                let ln = children.last();
                let t2 = TreeM {
                    nodes: tb.tree.nodes.update(
                        ln,
                        NodeRecM {
                            children: tb.tree.nodes[ln].children,
                            data: text_push(tb.tree.nodes[ln].data, c),
                        },
                    ),
                    ..tb.tree
                };
                TbModel { tree: t2, ..tb }
            } else {
                let e = tb.tree.nodes.len() as int;
                let t1 = m_create_node(tb.tree, NodeM::Text { data: seq![c] });
                let t2 = m_add_child(t1, cur, e);
                TbModel { tree: t2, ..tb }
            }
        },
    }
}

// ---------------------------------------------------------------------
// The insertion-mode table, written once at the specification level.
// ---------------------------------------------------------------------

/// The outward effect of handling one token: take the next token, handle
/// the same token again under the new mode, stop parsing, or halt with an
/// error.
#[verifier::ext_equal]
pub enum TbOut {
    Continue,
    Reprocess,
    Done,
    Fail(BuildErrM),
}

/// One row of the mode table: the builder after the step, and its effect.
#[verifier::ext_equal]
pub struct TbStep {
    pub m: TbModel,
    pub out: TbOut,
}

/// The tree builder's whitespace class: tab, line feed, form feed,
/// carriage return, space.
pub open spec fn builder_ws(c: char) -> bool {
    c == '\u{0009}' || c == '\u{000A}' || c == '\u{000C}' || c == '\u{000D}' || c == '\u{0020}'
}

/// The builder unchanged but for its insertion mode.
pub open spec fn to_mode(tb: TbModel, mode: InsertionMode) -> TbModel {
    TbModel { mode, ..tb }
}

pub open spec fn tb_stay(tb: TbModel) -> TbStep {
    TbStep { m: tb, out: TbOut::Continue }
}

pub open spec fn tb_fail(tb: TbModel, t: TokenM) -> TbStep {
    TbStep { m: tb, out: TbOut::Fail(BuildErrM::UnsupportedMode { mode: tb.mode, token: t }) }
}

/// An end tag whose name is in {head, body, html, br}: the four names the
/// "before" modes do not silently ignore.
pub open spec fn is_structural_end_tag(name: Seq<char>) -> bool {
    name == "head"@ || name == "body"@ || name == "html"@ || name == "br"@
}

pub open spec fn spec_initial_mode(tb: TbModel, t: TokenM) -> TbStep {
    match t {
        TokenM::Doctype { name } => TbStep { m: to_mode(tb, InsertionMode::BeforeHtml), out: TbOut::Continue },
        TokenM::Character(c) => if builder_ws(c) {
            tb_stay(tb)
        } else {
            TbStep { m: to_mode(tb, InsertionMode::BeforeHtml), out: TbOut::Reprocess }
        },
        _ => TbStep { m: to_mode(tb, InsertionMode::BeforeHtml), out: TbOut::Reprocess },
    }
}

/// The "anything else" rule of the before-html mode: synthesize the `html`
/// element and hand the token on.
pub open spec fn before_html_other(tb: TbModel) -> TbModel {
    to_mode(m_insert_html_root(tb, "html"@, Seq::<AttrM>::empty()), InsertionMode::BeforeHead)
}

pub open spec fn spec_before_html_mode(tb: TbModel, t: TokenM) -> TbStep {
    match t {
        TokenM::Character(c) => if builder_ws(c) {
            tb_stay(tb)
        } else {
            TbStep { m: before_html_other(tb), out: TbOut::Reprocess }
        },
        TokenM::StartTag(tag) => if tag.name == "html"@ {
            TbStep {
                m: to_mode(m_insert_html_root(tb, tag.name, tag.attrs), InsertionMode::BeforeHead),
                out: TbOut::Continue,
            }
        } else {
            TbStep { m: before_html_other(tb), out: TbOut::Reprocess }
        },
        TokenM::EndTag(tag) => if !is_structural_end_tag(tag.name) {
            tb_stay(tb)
        } else {
            TbStep { m: before_html_other(tb), out: TbOut::Reprocess }
        },
        _ => TbStep { m: before_html_other(tb), out: TbOut::Reprocess },
    }
}

/// The "anything else" rule of the before-head mode: synthesize the `head`
/// element, record it in the head pointer, and hand the token on.
pub open spec fn before_head_insert(tb: TbModel, name: Seq<char>, attrs: Seq<AttrM>) -> TbModel {
    let (tb2, e) = m_insert_element(tb, name, attrs);
    TbModel { head: Some(e), mode: InsertionMode::InHead, ..tb2 }
}

pub open spec fn spec_before_head_mode(tb: TbModel, t: TokenM) -> TbStep {
    match t {
        TokenM::Character(c) => if builder_ws(c) {
            tb_stay(tb)
        } else {
            TbStep { m: before_head_insert(tb, "head"@, Seq::<AttrM>::empty()), out: TbOut::Reprocess }
        },
        TokenM::Comment(_) => tb_stay(tb),
        TokenM::StartTag(tag) => if tag.name == "head"@ {
            TbStep { m: before_head_insert(tb, tag.name, tag.attrs), out: TbOut::Continue }
        } else {
            TbStep { m: before_head_insert(tb, "head"@, Seq::<AttrM>::empty()), out: TbOut::Reprocess }
        },
        TokenM::EndTag(tag) => if !is_structural_end_tag(tag.name) {
            tb_stay(tb)
        } else {
            TbStep { m: before_head_insert(tb, "head"@, Seq::<AttrM>::empty()), out: TbOut::Reprocess }
        },
        _ => TbStep { m: before_head_insert(tb, "head"@, Seq::<AttrM>::empty()), out: TbOut::Reprocess },
    }
}

/// The "anything else" rule of the in-head mode: pop the head element and
/// hand the token on to the after-head mode.
pub open spec fn in_head_other(tb: TbModel) -> TbModel {
    to_mode(m_pop(tb), InsertionMode::AfterHead)
}

pub open spec fn spec_in_head_mode(tb: TbModel, t: TokenM) -> TbStep {
    match t {
        TokenM::Character(c) => if builder_ws(c) {
            TbStep { m: m_insert_char(tb, c), out: TbOut::Continue }
        } else {
            TbStep { m: in_head_other(tb), out: TbOut::Reprocess }
        },
        TokenM::Comment(_) => tb_stay(tb),
        TokenM::StartTag(tag) => if tag.name == "meta"@ {
            TbStep { m: m_pop(m_insert_element(tb, tag.name, tag.attrs).0), out: TbOut::Continue }
        } else {
            TbStep { m: in_head_other(tb), out: TbOut::Reprocess }
        },
        TokenM::EndTag(tag) => if tag.name == "head"@ {
            TbStep { m: to_mode(m_pop(tb), InsertionMode::AfterHead), out: TbOut::Continue }
        } else {
            TbStep { m: in_head_other(tb), out: TbOut::Reprocess }
        },
        _ => TbStep { m: in_head_other(tb), out: TbOut::Reprocess },
    }
}

/// The "anything else" rule of the after-head mode: synthesize the `body`
/// element and hand the token on.
pub open spec fn after_head_other(tb: TbModel) -> TbModel {
    to_mode(m_insert_element(tb, "body"@, Seq::<AttrM>::empty()).0, InsertionMode::InBody)
}

pub open spec fn spec_after_head_mode(tb: TbModel, t: TokenM) -> TbStep {
    match t {
        TokenM::Character(c) => if builder_ws(c) {
            TbStep { m: m_insert_char(tb, c), out: TbOut::Continue }
        } else {
            TbStep { m: after_head_other(tb), out: TbOut::Reprocess }
        },
        TokenM::StartTag(tag) => if tag.name == "body"@ {
            TbStep {
                m: to_mode(m_insert_element(tb, tag.name, tag.attrs).0, InsertionMode::InBody),
                out: TbOut::Continue,
            }
        } else {
            TbStep { m: after_head_other(tb), out: TbOut::Reprocess }
        },
        _ => TbStep { m: after_head_other(tb), out: TbOut::Reprocess },
    }
}

pub open spec fn spec_in_body_mode(tb: TbModel, t: TokenM) -> TbStep {
    match t {
        TokenM::Character(c) => TbStep { m: m_insert_char(tb, c), out: TbOut::Continue },
        TokenM::Comment(_) => tb_stay(tb),
        TokenM::EndTag(tag) => if tag.name == "body"@ {
            TbStep { m: to_mode(tb, InsertionMode::AfterBody), out: TbOut::Continue }
        } else {
            tb_fail(tb, t)
        },
        TokenM::EndOfFile => TbStep { m: tb, out: TbOut::Done },
        _ => tb_fail(tb, t),
    }
}

pub open spec fn spec_after_body_mode(tb: TbModel, t: TokenM) -> TbStep {
    match t {
        TokenM::Character(c) => if builder_ws(c) {
            TbStep { m: m_insert_char(tb, c), out: TbOut::Continue }
        } else {
            tb_fail(tb, t)
        },
        TokenM::EndTag(tag) => if tag.name == "html"@ {
            TbStep { m: to_mode(tb, InsertionMode::AfterAfterBody), out: TbOut::Continue }
        } else {
            tb_fail(tb, t)
        },
        _ => tb_fail(tb, t),
    }
}

pub open spec fn spec_after_after_body_mode(tb: TbModel, t: TokenM) -> TbStep {
    match t {
        TokenM::Character(c) => if builder_ws(c) {
            TbStep { m: m_insert_char(tb, c), out: TbOut::Continue }
        } else {
            tb_fail(tb, t)
        },
        TokenM::EndOfFile => TbStep { m: tb, out: TbOut::Done },
        _ => tb_fail(tb, t),
    }
}

/// One step of the builder: dispatch the token on the insertion mode.
/// Modes outside the implemented subset halt at once.
pub open spec fn tb_step(tb: TbModel, t: TokenM) -> TbStep {
    match tb.mode {
        InsertionMode::Initial => spec_initial_mode(tb, t),
        InsertionMode::BeforeHtml => spec_before_html_mode(tb, t),
        InsertionMode::BeforeHead => spec_before_head_mode(tb, t),
        InsertionMode::InHead => spec_in_head_mode(tb, t),
        InsertionMode::AfterHead => spec_after_head_mode(tb, t),
        InsertionMode::InBody => spec_in_body_mode(tb, t),
        InsertionMode::AfterBody => spec_after_body_mode(tb, t),
        InsertionMode::AfterAfterBody => spec_after_after_body_mode(tb, t),
        _ => tb_fail(tb, t),
    }
}

/// The in-scope modes in document order; reprocessing always moves the
/// mode strictly forward, which bounds the pending work.
pub open spec fn mode_rank(m: InsertionMode) -> int {
    match m {
        InsertionMode::Initial => 0,
        InsertionMode::BeforeHtml => 1,
        InsertionMode::BeforeHead => 2,
        InsertionMode::InHead => 3,
        InsertionMode::AfterHead => 4,
        InsertionMode::InBody => 5,
        InsertionMode::AfterBody => 6,
        InsertionMode::AfterAfterBody => 7,
        _ => 8,
    }
}

/// The termination measure of a build: the stream bound outweighs the
/// bounded chain of reprocessing steps.
pub open spec fn build_fuel(tk: crate::tokenizer::TkModel, pending: Option<TokenM>, tb: TbModel) -> int {
    16 * stream_fuel(tk) + (match pending {
        None => 0,
        Some(_) => 9 - mode_rank(tb.mode),
    })
}

/// Reprocessing strictly increases the mode rank, and a step never touches
/// anything but the builder.
pub proof fn lemma_tb_step(tb: TbModel, t: TokenM)
    ensures
        tb_step(tb, t).out is Reprocess ==> mode_rank(tb_step(tb, t).m.mode) > mode_rank(tb.mode),
{
}

/// The whole build, run at the specification level: pull a token when none
/// is pending, then step the mode table, reprocessing at most once per
/// mode.  Returns the final builder and whether the build succeeded.
pub open spec fn tb_run(tb: TbModel, tk: crate::tokenizer::TkModel, pending: Option<TokenM>) -> (
    TbModel,
    Result<(), BuildErrM>,
)
    decreases build_fuel(tk, pending, tb),
    when tk.wf()
    via tb_run_decreases
{
    match pending {
        Some(t) => {
            let s = tb_step(tb, t);
            match s.out {
                TbOut::Done => (s.m, Ok(())),
                TbOut::Fail(e) => (s.m, Err(e)),
                TbOut::Continue => tb_run(s.m, tk, None),
                TbOut::Reprocess => tb_run(s.m, tk, Some(t)),
            }
        },
        None => {
            let (tk2, res) = tk_next(tk);
            match res {
                Ok(None) => (tb, Ok(())),
                Ok(Some(t)) => tb_run(tb, tk2, Some(t)),
                Err(e) => (tb, Err(BuildErrM::Tokenizer(e))),
            }
        },
    }
}

#[via_fn]
proof fn tb_run_decreases(tb: TbModel, tk: crate::tokenizer::TkModel, pending: Option<TokenM>) {
    match pending {
        Some(t) => {
            lemma_tb_step(tb, t);
        },
        None => {
            lemma_stream_terminates(tk);
        },
    }
}

// ---------------------------------------------------------------------
// Preservation of the tree invariants by the specification-level edits.
// ---------------------------------------------------------------------

/// A fresh node holding `d`, created and appended as the last child of the
/// existing node `p`.
pub open spec fn m_append_node(t: TreeM, p: int, d: NodeM) -> TreeM {
    m_add_child(m_create_node(t, d), p, t.nodes.len() as int)
}

/// Appending a fresh node under an existing parent preserves every tree
/// invariant: the new index postdates its parent and occurs exactly once;
/// a fresh text node is only appended where the previous last child is not
/// text.
pub proof fn lemma_m_append_node(t: TreeM, p: int, d: NodeM)
    requires
        t.edges_ok(),
        t.children_unique(),
        t.no_adjacent_text(),
        0 <= p < t.nodes.len(),
        d is Text ==> t.nodes[p].children.len() == 0 || !(data_at(
            t,
            t.nodes[p].children.last(),
        ) is Text),
    ensures
        m_append_node(t, p, d).edges_ok(),
        m_append_node(t, p, d).children_unique(),
        m_append_node(t, p, d).no_adjacent_text(),
        m_append_node(t, p, d).nodes.len() == t.nodes.len() + 1,
        m_append_node(t, p, d).root == t.root,
        forall|n: int| 0 <= n < t.nodes.len() ==> data_at(m_append_node(t, p, d), n) == data_at(t, n),
{
    let e = t.nodes.len() as int;
    let t2 = m_append_node(t, p, d);
    assert forall|i: int, j: int|
        0 <= i < t2.nodes.len() && 0 <= j < t2.nodes[i].children.len() implies i < (#[trigger] child_of(
        t2,
        i,
        j,
    )) < t2.nodes.len() by {
        if i == p && j == t.nodes[p].children.len() {
            assert(child_of(t2, i, j) == e);
        } else if i < e {
            assert(child_of(t2, i, j) == child_of(t, i, j));
        }
    }
    assert forall|i1: int, j1: int, i2: int, j2: int|
        0 <= i1 < t2.nodes.len() && 0 <= j1 < t2.nodes[i1].children.len() && 0 <= i2
            < t2.nodes.len() && 0 <= j2 < t2.nodes[i2].children.len() && !(i1 == i2 && j1
            == j2) implies #[trigger] child_of(t2, i1, j1) != #[trigger] child_of(t2, i2, j2) by {
        if i1 == p && j1 == t.nodes[p].children.len() {
            assert(child_of(t2, i1, j1) == e);
            assert(child_of(t2, i2, j2) == child_of(t, i2, j2));
            assert(child_of(t, i2, j2) < e);
        } else if i2 == p && j2 == t.nodes[p].children.len() {
            assert(child_of(t2, i2, j2) == e);
            assert(child_of(t2, i1, j1) == child_of(t, i1, j1));
            assert(child_of(t, i1, j1) < e);
        } else {
            assert(child_of(t2, i1, j1) == child_of(t, i1, j1));
            assert(child_of(t2, i2, j2) == child_of(t, i2, j2));
        }
    }
    assert forall|i: int, j: int|
        0 <= i < t2.nodes.len() && 0 <= j && j + 1 < t2.nodes[i].children.len() implies !(data_at(
        t2,
        #[trigger] child_of(t2, i, j),
    ) is Text && data_at(t2, child_of(t2, i, j + 1)) is Text) by {
        if i == p && j + 1 == t.nodes[p].children.len() {
            assert(child_of(t2, i, j) == child_of(t, i, j));
            assert(child_of(t, i, j) == t.nodes[p].children.last());
        } else if i == p && j + 1 == t.nodes[p].children.len() + 1 {
            assert(child_of(t2, i, j + 1) == e);
            assert(data_at(t2, e) == d);
            if d is Text {
                assert(child_of(t2, i, j) == t.nodes[p].children.last());
                assert(data_at(t2, child_of(t2, i, j)) == data_at(t, t.nodes[p].children.last()));
            }
        } else {
            assert(child_of(t2, i, j) == child_of(t, i, j));
            assert(child_of(t2, i, j + 1) == child_of(t, i, j + 1));
        }
    }
}

/// Inserting an element preserves the builder invariant: whether it goes
/// under the current node or, with an empty stack, under the document,
/// the parent exists and the new node is no text node.
pub proof fn lemma_m_insert_element(tb: TbModel, name: Seq<char>, attrs: Seq<AttrM>)
    requires
        tb.wf(),
    ensures
        m_insert_element(tb, name, attrs).0.wf(),
        m_insert_element(tb, name, attrs).1 == tb.tree.nodes.len(),
{
    let parent = match current_node_m(tb) {
        Some(cur) => cur,
        None => tb.document,
    };
    assert(0 <= parent < tb.tree.nodes.len());
    lemma_m_append_node(tb.tree, parent, NodeM::Element { name, attrs });
}

/// Inserting the root `html` element preserves the builder invariant.
pub proof fn lemma_m_insert_html_root(tb: TbModel, name: Seq<char>, attrs: Seq<AttrM>)
    requires
        tb.wf(),
    ensures
        m_insert_html_root(tb, name, attrs).wf(),
{
    lemma_m_append_node(tb.tree, tb.document, NodeM::Element { name, attrs });
}

/// Inserting a character preserves the builder invariant; in particular
/// the coalescing rule keeps text away from adjacent text.
pub proof fn lemma_m_insert_char(tb: TbModel, c: char)
    requires
        tb.wf(),
    ensures
        m_insert_char(tb, c).wf(),
{
    match current_node_m(tb) {
        None => {},
        Some(cur) => {
            assert(0 <= cur < tb.tree.nodes.len());
            let children = tb.tree.nodes[cur].children;
            if children.len() > 0 && data_at(tb.tree, children.last()) is Text {
                let ln = children.last();
                assert(ln == child_of(tb.tree, cur, children.len() - 1));
                assert(0 <= ln < tb.tree.nodes.len());
                let t2 = m_insert_char(tb, c).tree;
                assert forall|i: int, j: int|
                    0 <= i < t2.nodes.len() && 0 <= j < t2.nodes[i].children.len() implies i < (
                #[trigger] child_of(t2, i, j)) < t2.nodes.len() by {
                    assert(child_of(t2, i, j) == child_of(tb.tree, i, j));
                }
                assert forall|i1: int, j1: int, i2: int, j2: int|
                    0 <= i1 < t2.nodes.len() && 0 <= j1 < t2.nodes[i1].children.len() && 0 <= i2
                        < t2.nodes.len() && 0 <= j2 < t2.nodes[i2].children.len() && !(i1 == i2
                        && j1 == j2) implies #[trigger] child_of(t2, i1, j1) != #[trigger] child_of(
                    t2,
                    i2,
                    j2,
                ) by {
                    assert(child_of(t2, i1, j1) == child_of(tb.tree, i1, j1));
                    assert(child_of(t2, i2, j2) == child_of(tb.tree, i2, j2));
                }
                assert forall|i: int, j: int|
                    0 <= i < t2.nodes.len() && 0 <= j && j + 1 < t2.nodes[i].children.len() implies !(
                data_at(t2, #[trigger] child_of(t2, i, j)) is Text && data_at(
                    t2,
                    child_of(t2, i, j + 1),
                ) is Text) by {
                    assert(child_of(t2, i, j) == child_of(tb.tree, i, j));
                    assert(child_of(t2, i, j + 1) == child_of(tb.tree, i, j + 1));
                    if child_of(tb.tree, i, j) != ln && child_of(tb.tree, i, j + 1) != ln {
                        assert(data_at(t2, child_of(t2, i, j)) == data_at(
                            tb.tree,
                            child_of(tb.tree, i, j),
                        ));
                        assert(data_at(t2, child_of(t2, i, j + 1)) == data_at(
                            tb.tree,
                            child_of(tb.tree, i, j + 1),
                        ));
                    }
                }
            } else {
                lemma_m_append_node(tb.tree, cur, NodeM::Text { data: seq![c] });
                assert(m_insert_char(tb, c).tree =~= m_append_node(
                    tb.tree,
                    cur,
                    NodeM::Text { data: seq![c] },
                ));
            }
        },
    }
}

/// Every step of the mode table preserves the builder invariant.
pub proof fn lemma_tb_step_wf(tb: TbModel, t: TokenM)
    requires
        tb.wf(),
    ensures
        tb_step(tb, t).m.wf(),
{
    lemma_m_insert_element(tb, "head"@, Seq::<AttrM>::empty());
    lemma_m_insert_element(tb, "body"@, Seq::<AttrM>::empty());
    lemma_m_insert_html_root(tb, "html"@, Seq::<AttrM>::empty());
    match t {
        TokenM::StartTag(tag) => {
            lemma_m_insert_element(tb, tag.name, tag.attrs);
            lemma_m_insert_html_root(tb, tag.name, tag.attrs);
        },
        TokenM::Character(c) => {
            lemma_m_insert_char(tb, c);
        },
        _ => {},
    }
}

// ---------------------------------------------------------------------
// The executable builder.
// ---------------------------------------------------------------------

/// The tree builder's whitespace class, executably.
pub fn is_builder_whitespace(c: char) -> (r: bool)
    ensures
        r == builder_ws(c),
{
    c == '\u{0009}' || c == '\u{000A}' || c == '\u{000C}' || c == '\u{000D}' || c == '\u{0020}'
}

/// The outward effect of handling one token, as the executable machine
/// reports it; `Reprocess` hands the token back for the next mode.
pub enum StepOutcome {
    Continue,
    Reprocess(Token),
    Done,
    Fail(BuildError),
}

/// How an executable outcome realizes a specification-level one.
pub open spec fn step_matches(s: TbOut, out: StepOutcome, t: TokenM) -> bool {
    match s {
        TbOut::Continue => out is Continue,
        TbOut::Reprocess => out matches StepOutcome::Reprocess(t2) && t2@ == t,
        TbOut::Done => out is Done,
        TbOut::Fail(e) => out matches StepOutcome::Fail(e2) && e2@ == e,
    }
}

/// The token still pending for reprocessing, if any.
pub open spec fn pending_m(p: Option<Token>) -> Option<TokenM> {
    match p {
        Some(t) => Some(t@),
        None => None,
    }
}

/// The builder's starting state: an arena holding one document node,
/// which is the root, an empty stack, and the initial insertion mode.
pub open spec fn init_tb_model() -> TbModel {
    TbModel {
        tree: TreeM {
            nodes: seq![NodeRecM { children: Seq::<int>::empty(), data: NodeM::Document }],
            root: Some(0),
        },
        mode: InsertionMode::Initial,
        stack: Seq::<int>::empty(),
        head: None,
        document: 0,
    }
}

impl TreeBuilder {
    /// A builder pre-seeded with a document node as the root of an
    /// otherwise empty arena.
    pub fn new() -> (tb: TreeBuilder)
        ensures
            tb@ == init_tb_model(),
            tb@.wf(),
    {
        let mut tree: Tree<Node> = Tree::new();
        let document = tree.create_node(Node::Document(Document::new()));
        tree.set_root(document);
        let tb = TreeBuilder {
            tree,
            current_insertion_mode: InsertionMode::Initial,
            stack_of_open_elements: Vec::new(),
            head_element_pointer: None,
            document,
        };
        proof {
            assert(tb@ =~~= init_tb_model());
        }
        tb
    }

    /// The document tree built so far.
    pub fn get_tree(&self) -> (t: &Tree<Node>)
        ensures
            t == &self.tree,
    {
        &self.tree
    }

    /// The index of the current node: the top of the stack of open
    /// elements.
    fn get_current_node(&self) -> (r: Option<usize>)
        ensures
            match r {
                Some(u) => current_node_m(self@) == Some(u as int),
                None => current_node_m(self@) is None,
            },
    {
        let len = self.stack_of_open_elements.len();
        if len == 0 {
            None
        } else {
            Some(self.stack_of_open_elements[len - 1])
        }
    }

    /// The index of the current node, read by explicit length check.
    fn get_current_node2(&self) -> (r: Option<usize>)
        ensures
            match r {
                Some(u) => current_node_m(self@) == Some(u as int),
                None => current_node_m(self@) is None,
            },
    {
        let len = self.stack_of_open_elements.len();
        if len == 0 {
            return None;
        } else {
            return Some(self.stack_of_open_elements[len - 1]);
        }
    }

    /// An element node for a tag token: its local name is the token's
    /// name and it carries the token's attributes.  The in-scope subset
    /// keeps no namespace on the element.
    fn create_element_for_token(&self, tag: &Tag) -> (n: Node)
        ensures
            n@ == (NodeM::Element { name: tag@.name, attrs: tag@.attrs }),
    {
        let attributes = clone_attrs(&tag.attributes);
        let n = match self.create_an_element(tag.name.clone()) {
            Node::Element(e) => Node::Element(Element { tag_name: e.tag_name, attributes }),
            other => other,
        };
        proof {
            assert(n@ =~~= (NodeM::Element { name: tag@.name, attrs: tag@.attrs }));
        }
        n
    }

    /// A bare element node with the given local name.
    fn create_an_element(&self, local_name: String) -> (n: Node)
        ensures
            n@ == (NodeM::Element { name: local_name@, attrs: Seq::<AttrM>::empty() }),
    {
        let n = Node::Element(Element::new(local_name));
        proof {
            assert(n@ =~~= (NodeM::Element { name: local_name@, attrs: Seq::<AttrM>::empty() }));
        }
        n
    }

    /// Pops the current node off the stack of open elements.
    fn pop_open_element(&mut self)
        requires
            old(self)@.wf(),
        ensures
            final(self)@ == m_pop(old(self)@),
            final(self)@.wf(),
    {
        let _popped = self.stack_of_open_elements.pop();
        proof {
            assert(self@ =~~= m_pop(old(self)@));
        }
    }

    /// Inserts an HTML element for the tag: creates it with the token's
    /// name and attributes, appends it under the current node if there is
    /// one and under the document otherwise, and pushes it onto the stack.
    #[verifier::rlimit(50)]
    fn insert_an_html_element(&mut self, tag: &Tag) -> (el: usize)
        requires
            old(self)@.wf(),
        ensures
            final(self)@ == m_insert_element(old(self)@, tag@.name, tag@.attrs).0,
            el as int == m_insert_element(old(self)@, tag@.name, tag@.attrs).1,
            final(self)@.wf(),
    {
        proof {
            lemma_m_insert_element(old(self)@, tag@.name, tag@.attrs);
        }
        let element = self.create_element_for_token(tag);
        let el = self.tree.create_node(element);
        proof {
            assert(tree_m(self.tree) =~~= m_create_node(old(self)@.tree, NodeM::Element {
                name: tag@.name,
                attrs: tag@.attrs,
            }));
        }
        let parent = match self.get_current_node() {
            Some(current) => current,
            None => self.document,
        };
        let ghost mid = tree_m(self.tree);
        self.tree.add_child(parent, el);
        proof {
            assert(tree_m(self.tree) =~~= m_add_child(mid, parent as int, el as int));
        }
        self.stack_of_open_elements.push(el);
        proof {
            assert(self@ =~~= m_insert_element(old(self)@, tag@.name, tag@.attrs).0);
        }
        el
    }

    /// Inserts the root element under the document node and pushes it.
    #[verifier::rlimit(50)]
    fn insert_root_element(&mut self, tag: &Tag)
        requires
            old(self)@.wf(),
        ensures
            final(self)@ == m_insert_html_root(old(self)@, tag@.name, tag@.attrs),
            final(self)@.wf(),
    {
        proof {
            lemma_m_insert_html_root(old(self)@, tag@.name, tag@.attrs);
        }
        let element = self.create_element_for_token(tag);
        let el = self.tree.create_node(element);
        proof {
            assert(tree_m(self.tree) =~~= m_create_node(old(self)@.tree, NodeM::Element {
                name: tag@.name,
                attrs: tag@.attrs,
            }));
        }
        let ghost mid = tree_m(self.tree);
        let document = self.document;
        self.tree.add_child(document, el);
        proof {
            assert(tree_m(self.tree) =~~= m_add_child(mid, old(self)@.document, el as int));
        }
        self.stack_of_open_elements.push(el);
        proof {
            assert(self@ =~~= m_insert_html_root(old(self)@, tag@.name, tag@.attrs));
        }
    }

    /// Inserts one character of text: appends it to the current node's
    /// last child when that child is a text node, else starts a fresh text
    /// node there.  This is what coalesces runs of characters.
    #[verifier::rlimit(50)]
    fn insert_a_character(&mut self, c: char)
        requires
            old(self)@.wf(),
        ensures
            final(self)@ == m_insert_char(old(self)@, c),
            final(self)@.wf(),
    {
        proof {
            lemma_m_insert_char(old(self)@, c);
        }
        let cur_opt = self.get_current_node2();
        if let Some(cur_index) = cur_opt {
            let mut last_text: Option<usize> = None;
            let node = self.tree.get_node(cur_index);
            let nchild = node.children.len();
            if nchild > 0 {
                let lc = node.children[nchild - 1];
                proof {
                    assert(lc as int == child_of(self@.tree, cur_index as int, nchild - 1));
                }
                let child_node = self.tree.get_node(lc);
                if matches!(&child_node.data, Node::Text(_)) {
                    last_text = Some(lc);
                }
            }
            match last_text {
                Some(lc) => {
                    let node_ref = self.tree.get_node(lc);
                    let mut txt = match &node_ref.data {
                        Node::Text(t) => t.data.clone(),
                        _ => String::new(),
                    };
                    push_char(&mut txt, c);
                    self.tree.replace_data_at_index(lc, Node::Text(Text::new(txt)));
                    proof {
                        assert(self@ =~~= m_insert_char(old(self)@, c));
                    }
                },
                None => {
                    let mut s = String::new();
                    push_char(&mut s, c);
                    let node = Node::Text(Text::new(s));
                    let text_node = self.tree.create_node(node);
                    proof {
                        assert(tree_m(self.tree) =~~= m_create_node(old(self)@.tree, NodeM::Text {
                            data: seq![c],
                        }));
                    }
                    let ghost mid = tree_m(self.tree);
                    self.tree.add_child(cur_index, text_node);
                    proof {
                        assert(tree_m(self.tree) =~~= m_add_child(
                            mid,
                            cur_index as int,
                            text_node as int,
                        ));
                        assert(self@ =~~= m_insert_char(old(self)@, c));
                    }
                },
            }
        }
    }
}

impl TreeBuilder {
    fn initial_mode(&mut self, token: Token) -> (out: StepOutcome)
        requires
            old(self)@.wf(),
            old(self)@.mode == InsertionMode::Initial,
        ensures
            final(self)@ == tb_step(old(self)@, token@).m,
            step_matches(tb_step(old(self)@, token@).out, out, token@),
            final(self)@.wf(),
    {
        proof {
            lemma_tb_step_wf(old(self)@, token@);
        }
        match &token {
            Token::Doctype(_) => {
                self.current_insertion_mode = InsertionMode::BeforeHtml;
                proof {
                    assert(self@ =~~= tb_step(old(self)@, token@).m);
                }
                StepOutcome::Continue
            },
            Token::Character(c) => {
                if is_builder_whitespace(*c) {
                    StepOutcome::Continue
                } else {
                    self.current_insertion_mode = InsertionMode::BeforeHtml;
                    proof {
                        assert(self@ =~~= tb_step(old(self)@, token@).m);
                    }
                    StepOutcome::Reprocess(token)
                }
            },
            _ => {
                self.current_insertion_mode = InsertionMode::BeforeHtml;
                proof {
                    assert(self@ =~~= tb_step(old(self)@, token@).m);
                }
                StepOutcome::Reprocess(token)
            },
        }
    }

    /// The before-html "anything else" rule: synthesize the `html` root.
    fn synthesize_html_root(&mut self)
        requires
            old(self)@.wf(),
        ensures
            final(self)@ == before_html_other(old(self)@),
            final(self)@.wf(),
    {
        let mut tag = Tag::new();
        tag.name = "html".to_owned();
        self.insert_root_element(&tag);
        self.current_insertion_mode = InsertionMode::BeforeHead;
        proof {
            assert(self@ =~~= before_html_other(old(self)@));
        }
    }

    fn before_html_mode(&mut self, token: Token) -> (out: StepOutcome)
        requires
            old(self)@.wf(),
            old(self)@.mode == InsertionMode::BeforeHtml,
        ensures
            final(self)@ == tb_step(old(self)@, token@).m,
            step_matches(tb_step(old(self)@, token@).out, out, token@),
            final(self)@.wf(),
    {
        proof {
            lemma_tb_step_wf(old(self)@, token@);
        }
        match &token {
            Token::Character(c) => {
                if is_builder_whitespace(*c) {
                    StepOutcome::Continue
                } else {
                    self.synthesize_html_root();
                    StepOutcome::Reprocess(token)
                }
            },
            Token::StartTag(tag) => {
                if str_eq(tag.name.as_str(), "html") {
                    self.insert_root_element(tag);
                    self.current_insertion_mode = InsertionMode::BeforeHead;
                    proof {
                        assert(self@ =~~= tb_step(old(self)@, token@).m);
                    }
                    StepOutcome::Continue
                } else {
                    self.synthesize_html_root();
                    StepOutcome::Reprocess(token)
                }
            },
            Token::EndTag(tag) => {
                if !(str_eq(tag.name.as_str(), "head") || str_eq(tag.name.as_str(), "body")
                    || str_eq(tag.name.as_str(), "html") || str_eq(tag.name.as_str(), "br")) {
                    StepOutcome::Continue
                } else {
                    self.synthesize_html_root();
                    StepOutcome::Reprocess(token)
                }
            },
            _ => {
                self.synthesize_html_root();
                StepOutcome::Reprocess(token)
            },
        }
    }

    /// The before-head insertion rule: insert a `head` element for the
    /// tag, record it in the head pointer, and move to the in-head mode.
    fn insert_head_element(&mut self, tag: &Tag)
        requires
            old(self)@.wf(),
        ensures
            final(self)@ == before_head_insert(old(self)@, tag@.name, tag@.attrs),
            final(self)@.wf(),
    {
        let element = self.insert_an_html_element(tag);
        self.head_element_pointer = Some(element);
        self.current_insertion_mode = InsertionMode::InHead;
        proof {
            assert(self@ =~~= before_head_insert(old(self)@, tag@.name, tag@.attrs));
        }
    }

    fn before_head_mode(&mut self, token: Token) -> (out: StepOutcome)
        requires
            old(self)@.wf(),
            old(self)@.mode == InsertionMode::BeforeHead,
        ensures
            final(self)@ == tb_step(old(self)@, token@).m,
            step_matches(tb_step(old(self)@, token@).out, out, token@),
            final(self)@.wf(),
    {
        proof {
            lemma_tb_step_wf(old(self)@, token@);
        }
        match &token {
            Token::Character(c) => {
                if is_builder_whitespace(*c) {
                    StepOutcome::Continue
                } else {
                    let mut tag = Tag::new();
                    tag.name = "head".to_owned();
                    self.insert_head_element(&tag);
                    StepOutcome::Reprocess(token)
                }
            },
            Token::Comment(_) => StepOutcome::Continue,
            Token::StartTag(tag) => {
                if str_eq(tag.name.as_str(), "head") {
                    self.insert_head_element(tag);
                    StepOutcome::Continue
                } else {
                    let mut synthesized = Tag::new();
                    synthesized.name = "head".to_owned();
                    self.insert_head_element(&synthesized);
                    StepOutcome::Reprocess(token)
                }
            },
            Token::EndTag(tag) => {
                if !(str_eq(tag.name.as_str(), "head") || str_eq(tag.name.as_str(), "body")
                    || str_eq(tag.name.as_str(), "html") || str_eq(tag.name.as_str(), "br")) {
                    StepOutcome::Continue
                } else {
                    let mut synthesized = Tag::new();
                    synthesized.name = "head".to_owned();
                    self.insert_head_element(&synthesized);
                    StepOutcome::Reprocess(token)
                }
            },
            _ => {
                let mut synthesized = Tag::new();
                synthesized.name = "head".to_owned();
                self.insert_head_element(&synthesized);
                StepOutcome::Reprocess(token)
            },
        }
    }

    /// The in-head "anything else" rule: pop the head element and move on
    /// to the after-head mode.
    fn leave_head(&mut self)
        requires
            old(self)@.wf(),
        ensures
            final(self)@ == in_head_other(old(self)@),
            final(self)@.wf(),
    {
        self.pop_open_element();
        self.current_insertion_mode = InsertionMode::AfterHead;
        proof {
            assert(self@ =~~= in_head_other(old(self)@));
        }
    }

    fn in_head_mode(&mut self, token: Token) -> (out: StepOutcome)
        requires
            old(self)@.wf(),
            old(self)@.mode == InsertionMode::InHead,
        ensures
            final(self)@ == tb_step(old(self)@, token@).m,
            step_matches(tb_step(old(self)@, token@).out, out, token@),
            final(self)@.wf(),
    {
        proof {
            lemma_tb_step_wf(old(self)@, token@);
        }
        match &token {
            Token::Character(c) => {
                if is_builder_whitespace(*c) {
                    self.insert_a_character(*c);
                    StepOutcome::Continue
                } else {
                    self.leave_head();
                    StepOutcome::Reprocess(token)
                }
            },
            Token::Comment(_) => StepOutcome::Continue,
            Token::StartTag(tag) => {
                if str_eq(tag.name.as_str(), "meta") {
                    self.insert_an_html_element(tag);
                    self.pop_open_element();
                    StepOutcome::Continue
                } else {
                    self.leave_head();
                    StepOutcome::Reprocess(token)
                }
            },
            Token::EndTag(tag) => {
                if str_eq(tag.name.as_str(), "head") {
                    self.pop_open_element();
                    self.current_insertion_mode = InsertionMode::AfterHead;
                    proof {
                        assert(self@ =~~= tb_step(old(self)@, token@).m);
                    }
                    StepOutcome::Continue
                } else {
                    self.leave_head();
                    StepOutcome::Reprocess(token)
                }
            },
            _ => {
                self.leave_head();
                StepOutcome::Reprocess(token)
            },
        }
    }

    /// The after-head "anything else" rule: synthesize a bare `body`
    /// element and move to the in-body mode.
    fn synthesize_body(&mut self)
        requires
            old(self)@.wf(),
        ensures
            final(self)@ == after_head_other(old(self)@),
            final(self)@.wf(),
    {
        let mut tag = Tag::new();
        tag.name = "body".to_owned();
        self.insert_an_html_element(&tag);
        self.current_insertion_mode = InsertionMode::InBody;
        proof {
            assert(self@ =~~= after_head_other(old(self)@));
        }
    }

    fn after_head_mode(&mut self, token: Token) -> (out: StepOutcome)
        requires
            old(self)@.wf(),
            old(self)@.mode == InsertionMode::AfterHead,
        ensures
            final(self)@ == tb_step(old(self)@, token@).m,
            step_matches(tb_step(old(self)@, token@).out, out, token@),
            final(self)@.wf(),
    {
        proof {
            lemma_tb_step_wf(old(self)@, token@);
        }
        match &token {
            Token::Character(c) => {
                if is_builder_whitespace(*c) {
                    self.insert_a_character(*c);
                    StepOutcome::Continue
                } else {
                    self.synthesize_body();
                    StepOutcome::Reprocess(token)
                }
            },
            Token::StartTag(tag) => {
                if str_eq(tag.name.as_str(), "body") {
                    self.insert_an_html_element(tag);
                    self.current_insertion_mode = InsertionMode::InBody;
                    proof {
                        assert(self@ =~~= tb_step(old(self)@, token@).m);
                    }
                    StepOutcome::Continue
                } else {
                    self.synthesize_body();
                    StepOutcome::Reprocess(token)
                }
            },
            _ => {
                self.synthesize_body();
                StepOutcome::Reprocess(token)
            },
        }
    }

    fn in_body_mode(&mut self, token: Token) -> (out: StepOutcome)
        requires
            old(self)@.wf(),
            old(self)@.mode == InsertionMode::InBody,
        ensures
            final(self)@ == tb_step(old(self)@, token@).m,
            step_matches(tb_step(old(self)@, token@).out, out, token@),
            final(self)@.wf(),
    {
        proof {
            lemma_tb_step_wf(old(self)@, token@);
        }
        match &token {
            Token::Character(c) => {
                self.insert_a_character(*c);
                StepOutcome::Continue
            },
            Token::Comment(_) => StepOutcome::Continue,
            Token::EndTag(tag) => {
                if str_eq(tag.name.as_str(), "body") {
                    self.current_insertion_mode = InsertionMode::AfterBody;
                    proof {
                        assert(self@ =~~= tb_step(old(self)@, token@).m);
                    }
                    StepOutcome::Continue
                } else {
                    let mode = self.current_insertion_mode;
                    StepOutcome::Fail(BuildError::UnsupportedMode { mode, token })
                }
            },
            Token::EndOfFile => StepOutcome::Done,
            _ => {
                let mode = self.current_insertion_mode;
                StepOutcome::Fail(BuildError::UnsupportedMode { mode, token })
            },
        }
    }

    fn after_body_mode(&mut self, token: Token) -> (out: StepOutcome)
        requires
            old(self)@.wf(),
            old(self)@.mode == InsertionMode::AfterBody,
        ensures
            final(self)@ == tb_step(old(self)@, token@).m,
            step_matches(tb_step(old(self)@, token@).out, out, token@),
            final(self)@.wf(),
    {
        proof {
            lemma_tb_step_wf(old(self)@, token@);
        }
        match &token {
            Token::Character(c) => {
                if is_builder_whitespace(*c) {
                    self.insert_a_character(*c);
                    StepOutcome::Continue
                } else {
                    let mode = self.current_insertion_mode;
                    StepOutcome::Fail(BuildError::UnsupportedMode { mode, token })
                }
            },
            Token::EndTag(tag) => {
                if str_eq(tag.name.as_str(), "html") {
                    self.current_insertion_mode = InsertionMode::AfterAfterBody;
                    proof {
                        assert(self@ =~~= tb_step(old(self)@, token@).m);
                    }
                    StepOutcome::Continue
                } else {
                    let mode = self.current_insertion_mode;
                    StepOutcome::Fail(BuildError::UnsupportedMode { mode, token })
                }
            },
            _ => {
                let mode = self.current_insertion_mode;
                StepOutcome::Fail(BuildError::UnsupportedMode { mode, token })
            },
        }
    }

    fn after_after_body_mode(&mut self, token: Token) -> (out: StepOutcome)
        requires
            old(self)@.wf(),
            old(self)@.mode == InsertionMode::AfterAfterBody,
        ensures
            final(self)@ == tb_step(old(self)@, token@).m,
            step_matches(tb_step(old(self)@, token@).out, out, token@),
            final(self)@.wf(),
    {
        proof {
            lemma_tb_step_wf(old(self)@, token@);
        }
        match &token {
            Token::Character(c) => {
                if is_builder_whitespace(*c) {
                    self.insert_a_character(*c);
                    StepOutcome::Continue
                } else {
                    let mode = self.current_insertion_mode;
                    StepOutcome::Fail(BuildError::UnsupportedMode { mode, token })
                }
            },
            Token::EndOfFile => StepOutcome::Done,
            _ => {
                let mode = self.current_insertion_mode;
                StepOutcome::Fail(BuildError::UnsupportedMode { mode, token })
            },
        }
    }

    /// One step of the insertion-mode machine: dispatch the token on the
    /// current mode; modes outside the implemented subset halt at once.
    fn step_insertion_mode(&mut self, token: Token) -> (out: StepOutcome)
        requires
            old(self)@.wf(),
        ensures
            final(self)@ == tb_step(old(self)@, token@).m,
            step_matches(tb_step(old(self)@, token@).out, out, token@),
            final(self)@.wf(),
    {
        match self.current_insertion_mode {
            InsertionMode::Initial => self.initial_mode(token),
            InsertionMode::BeforeHtml => self.before_html_mode(token),
            InsertionMode::BeforeHead => self.before_head_mode(token),
            InsertionMode::InHead => self.in_head_mode(token),
            InsertionMode::AfterHead => self.after_head_mode(token),
            InsertionMode::InBody => self.in_body_mode(token),
            InsertionMode::AfterBody => self.after_body_mode(token),
            InsertionMode::AfterAfterBody => self.after_after_body_mode(token),
            _ => {
                let mode = self.current_insertion_mode;
                StepOutcome::Fail(BuildError::UnsupportedMode { mode, token })
            },
        }
    }

    /// Consumes the token stream to completion, mutating the tree under
    /// the insertion-mode rules; the machine starts over in the initial
    /// mode.  The run follows exactly the specification `tb_run`, and the
    /// tree invariants hold when it returns, with or without an error.
    pub fn build(&mut self, tokenizer: Tokenizer) -> (r: Result<(), BuildError>)
        requires
            old(self)@.wf(),
            tokenizer@.wf(),
        ensures
            final(self)@ == tb_run(
                TbModel { mode: InsertionMode::Initial, ..old(self)@ },
                tokenizer@,
                None,
            ).0,
            final(self)@.wf(),
            match tb_run(
                TbModel { mode: InsertionMode::Initial, ..old(self)@ },
                tokenizer@,
                None,
            ).1 {
                Ok(u) => r is Ok,
                Err(e) => r matches Err(e2) && e2@ == e,
            },
    {
        self.current_insertion_mode = InsertionMode::Initial;
        let mut tokenizer = tokenizer;
        let ghost tk0 = tokenizer@;
        let ghost start = self@;
        proof {
            assert(start =~~= (TbModel { mode: InsertionMode::Initial, ..old(self)@ }));
            lemma_tb_run_wf(start, tk0, None);
        }
        let mut reprocess_token: Option<Token> = None;
        #[verifier::loop_isolation(false)]
        loop
            invariant
                self@.wf(),
                tokenizer@.wf(),
                tb_run(self@, tokenizer@, pending_m(reprocess_token)) == tb_run(start, tk0, None),
            decreases build_fuel(tokenizer@, pending_m(reprocess_token), self@),
        {
            let ghost head_tb = self@;
            let ghost head_tk = tokenizer@;
            let ghost head_p = pending_m(reprocess_token);
            let pending = reprocess_token;
            reprocess_token = None;
            let token: Token = match pending {
                Some(t) => t,
                None => {
                    proof {
                        lemma_stream_terminates(head_tk);
                    }
                    match tokenizer.next() {
                        Ok(Some(t)) => t,
                        Ok(None) => {
                            return Ok(());
                        },
                        Err(e) => {
                            return Err(BuildError::Tokenizer(e));
                        },
                    }
                },
            };
            let ghost step_tb = self@;
            let ghost step_tk = tokenizer@;
            proof {
                assert(tb_run(step_tb, step_tk, Some(token@)) == tb_run(start, tk0, None));
                lemma_tb_step(step_tb, token@);
            }
            let out = self.step_insertion_mode(token);
            match out {
                StepOutcome::Continue => {},
                StepOutcome::Reprocess(t2) => {
                    reprocess_token = Some(t2);
                },
                StepOutcome::Done => {
                    return Ok(());
                },
                StepOutcome::Fail(e) => {
                    return Err(e);
                },
            }
        }
    }
}

// ---------------------------------------------------------------------
// Arena integrity: reachability and the uniqueness of paths.
// ---------------------------------------------------------------------

/// Node `c` is a child of node `p`.
pub open spec fn parent_child(t: TreeM, p: int, c: int) -> bool {
    exists|j: int| 0 <= j < t.nodes[p].children.len() && child_of(t, p, j) == c
}

/// `p` is a path: it starts at the root, follows parent-to-child links,
/// and every index on it exists in the arena.
pub open spec fn is_path(t: TreeM, p: Seq<int>) -> bool {
    &&& p.len() > 0
    &&& t.root == Some(p[0])
    &&& forall|k: int| 0 <= k < p.len() ==> 0 <= #[trigger] p[k] < t.nodes.len()
    &&& forall|k: int| 0 <= k < p.len() - 1 ==> #[trigger] parent_child(t, p[k], p[k + 1])
}

/// Arena integrity.  In a well-formed tree rooted at node 0, every index
/// on a path from the root exists (by the definition of `is_path` together
/// with `edges_ok`), and no node is reachable from the root by two
/// distinct paths: any two paths that end at the same node are equal.
pub proof fn lemma_unique_path(t: TreeM, p1: Seq<int>, p2: Seq<int>)
    requires
        t.edges_ok(),
        t.children_unique(),
        t.root == Some(0int),
        is_path(t, p1),
        is_path(t, p2),
        p1.last() == p2.last(),
    ensures
        p1 == p2,
    decreases p1.len(),
{
    let n = p1.last();
    if p1.len() == 1 {
        // p1 is just the root; a longer p2 would make the root a child,
        // but every child index strictly exceeds its parent's, so no
        // child is 0.
        if p2.len() > 1 {
            let k2 = p2.len() - 2;
            assert(parent_child(t, p2[k2], p2[k2 + 1]));
            assert(p2[k2 + 1] == n);
            assert(parent_child(t, p2[p2.len() - 2], p2[p2.len() - 1]));
            let j = choose|j: int|
                0 <= j < t.nodes[p2[p2.len() - 2]].children.len() && #[trigger] child_of(
                    t,
                    p2[p2.len() - 2],
                    j,
                ) == n;
            assert(p2[p2.len() - 2] < child_of(t, p2[p2.len() - 2], j));
            assert(false);
        }
        assert(p1 =~= p2);
    } else if p2.len() == 1 {
        let k1 = p1.len() - 2;
        assert(parent_child(t, p1[k1], p1[k1 + 1]));
        assert(p1[k1 + 1] == n);
        assert(parent_child(t, p1[p1.len() - 2], p1[p1.len() - 1]));
        let j = choose|j: int|
            0 <= j < t.nodes[p1[p1.len() - 2]].children.len() && #[trigger] child_of(
                t,
                p1[p1.len() - 2],
                j,
            ) == n;
        assert(p1[p1.len() - 2] < child_of(t, p1[p1.len() - 2], j));
        assert(false);
    } else {
        let i1 = p1[p1.len() - 2];
        let i2 = p2[p2.len() - 2];
        let k1 = p1.len() - 2;
        let k2 = p2.len() - 2;
        assert(parent_child(t, p1[k1], p1[k1 + 1]));
        assert(parent_child(t, p2[k2], p2[k2 + 1]));
        assert(p1[k1 + 1] == n && p2[k2 + 1] == n);
        assert(parent_child(t, i1, p1[p1.len() - 1]));
        assert(parent_child(t, i2, p2[p2.len() - 1]));
        let j1 = choose|j: int|
            0 <= j < t.nodes[i1].children.len() && #[trigger] child_of(t, i1, j) == n;
        let j2 = choose|j: int|
            0 <= j < t.nodes[i2].children.len() && #[trigger] child_of(t, i2, j) == n;
        // The same node cannot stand at two distinct child positions.
        assert(i1 == i2 && j1 == j2) by {
            if !(i1 == i2 && j1 == j2) {
                assert(child_of(t, i1, j1) != child_of(t, i2, j2));
            }
        }
        let q1 = p1.drop_last();
        let q2 = p2.drop_last();
        assert(is_path(t, q1)) by {
            assert(forall|k: int| 0 <= k < q1.len() ==> q1[k] == p1[k]);
            assert(forall|k: int|
                0 <= k < q1.len() - 1 ==> #[trigger] parent_child(t, q1[k], q1[k + 1])
                    == parent_child(t, p1[k], p1[k + 1]));
        }
        assert(is_path(t, q2)) by {
            assert(forall|k: int| 0 <= k < q2.len() ==> q2[k] == p2[k]);
            assert(forall|k: int|
                0 <= k < q2.len() - 1 ==> #[trigger] parent_child(t, q2[k], q2[k + 1])
                    == parent_child(t, p2[k], p2[k + 1]));
        }
        assert(q1.last() == q2.last());
        lemma_unique_path(t, q1, q2);
        assert(forall|k: int| 0 <= k < q1.len() ==> q1[k] == p1[k]);
        assert(forall|k: int| 0 <= k < q2.len() ==> q2[k] == p2[k]);
        assert(p1.len() == p2.len());
        assert(p1 =~= p2);
    }
}

/// The parse of an input: a fresh tokenizer over the input, fed to a
/// fresh builder.  Everything the parser produces — the final builder,
/// success or the halting error, and hence the rendered tree — is this
/// pure function of the input's code points.
pub open spec fn parse_result(input: Seq<char>) -> (TbModel, Result<(), BuildErrM>) {
    tb_run(init_tb_model(), crate::tokenizer::init_model(input), None)
}

/// Whatever the input, the parsed tree keeps the arena invariants: every
/// stored index exists, no index has two parents (so, with
/// `lemma_unique_path`, no node is reachable from the root by two distinct
/// paths), and no two adjacent siblings are both text nodes.
pub proof fn lemma_parse_tree_wf(input: Seq<char>)
    ensures
        parse_result(input).0.wf(),
{
    lemma_tb_run_wf(init_tb_model(), crate::tokenizer::init_model(input), None);
}

/// Parses a whole document: builds the tree for `content` from scratch.
/// The result is exactly `parse_result(content@)` — the rendered tree of
/// an input is a pure function of that input.
pub fn parse_document(content: &str) -> (r: (TreeBuilder, Result<(), BuildError>))
    ensures
        r.0@ == parse_result(content@).0,
        r.0@.wf(),
        match parse_result(content@).1 {
            Ok(u) => r.1 is Ok,
            Err(e) => r.1 matches Err(e2) && e2@ == e,
        },
{
    let tokenizer = Tokenizer::new(content);
    let mut builder = TreeBuilder::new();
    let outcome = builder.build(tokenizer);
    proof {
        assert((TbModel { mode: InsertionMode::Initial, ..init_tb_model() }) =~~= init_tb_model());
    }
    (builder, outcome)
}

// ---------------------------------------------------------------------
// Rendering.
// ---------------------------------------------------------------------

/// The textual shape of a node in the rendered tree: `#document` for the
/// document, `<name>` for an element, `"data"` for text.
pub open spec fn render_node_m(n: NodeM) -> Seq<char> {
    match n {
        NodeM::Document => "#document"@,
        NodeM::Element { name, .. } => "<"@ + name + ">"@,
        NodeM::Text { data } => "\""@ + data + "\""@,
    }
}

/// The indentation of a node at depth `d`: nothing at depth 0, else a `|`
/// followed by `2d - 1` spaces.
pub open spec fn indent_m(d: nat) -> Seq<char> {
    if d == 0 {
        Seq::<char>::empty()
    } else {
        "|"@ + Seq::new((2 * d - 1) as nat, |i: int| ' ')
    }
}

/// One rendered line: the indentation, then the node's shape.
pub open spec fn render_line_m(d: nat, n: NodeM) -> Seq<char> {
    indent_m(d) + render_node_m(n)
}

/// The rendered tree: one line per node of the depth-first pre-order
/// traversal.
pub open spec fn render_lines_m(t: Tree<Node>) -> Seq<Seq<char>> {
    dfs(t).map_values(|e: (nat, Node)| render_line_m(e.0, e.1@))
}

/// The views of a vector of strings.
pub open spec fn strs_m(v: Seq<String>) -> Seq<Seq<char>> {
    v.map_values(|s: String| s@)
}

impl Node {
    /// The node's textual shape in the rendered tree.
    pub fn render(&self) -> (s: String)
        ensures
            s@ == render_node_m(self@),
    {
        match self {
            Node::Document(_) => "#document".to_owned(),
            Node::Element(e) => {
                let mut s = "<".to_owned();
                s.append(e.tag_name.as_str());
                s.append(">");
                s
            },
            Node::Text(t) => {
                let mut s = "\"".to_owned();
                s.append(t.data.as_str());
                s.append("\"");
                s
            },
        }
    }
}

/// The indentation of a node at depth `depth`, as a string.
pub fn indentation(depth: usize) -> (s: String)
    requires
        depth <= usize::MAX / 2,
    ensures
        s@ == indent_m(depth as nat),
{
    if depth == 0 {
        String::new()
    } else {
        let mut s = "|".to_owned();
        let total = 2 * depth - 1;
        let mut k: usize = 0;
        proof {
            reveal_strlit("|");
            reveal_strlit(" ");
        }
        while k < total
            invariant
                k <= total,
                total == 2 * depth - 1,
                s@ =~= "|"@ + Seq::new(k as nat, |i: int| ' '),
            decreases total - k,
        {
            s.append(" ");
            proof {
                reveal_strlit(" ");
                assert(s@ =~= "|"@ + Seq::new((k + 1) as nat, |i: int| ' '));
            }
            k = k + 1;
        }
        s
    }
}

/// `edges_ok` carries over between the arena and its model.
pub proof fn lemma_edges_ok_lift(t: Tree<Node>)
    requires
        tree_m(t).edges_ok(),
        t.root matches Some(r) ==> (r as int) < t.data@.len(),
    ensures
        t.edges_ok(),
{
    assert forall|i: int, j: int|
        0 <= i < t.data@.len() && 0 <= j < t.data@[i].children@.len() implies i < (
    #[trigger] t.data@[i].children@[j] as int) < t.data@.len() by {
        assert(child_of(tree_m(t), i, j) == t.data@[i].children@[j] as int);
    }
}

/// The rendered tree, line by line, in traversal order.
pub fn render_tree_lines(tree: &Tree<Node>) -> (lines: Vec<String>)
    requires
        tree.edges_ok(),
        tree.data@.len() <= usize::MAX / 2,
    ensures
        strs_m(lines@) == render_lines_m(*tree),
{
    let mut it = tree.into_iter();
    let mut lines: Vec<String> = Vec::new();
    let ghost all = dfs(*tree);
    loop
        invariant
            it.wf(),
            it.tree == tree,
            tree.edges_ok(),
            tree.data@.len() <= usize::MAX / 2,
            all == dfs(*tree),
            lines@.len() <= all.len(),
            it.remaining() =~= all.skip(lines@.len() as int),
            forall|k: int|
                0 <= k < lines@.len() ==> (#[trigger] lines@[k])@ == render_line_m(
                    all[k].0,
                    all[k].1@,
                ),
        decreases it.remaining().len(),
    {
        let ghost i = lines@.len() as int;
        match it.next() {
            Some(node) => {
                proof {
                    assert(it.remaining() =~= all.skip(i + 1));
                    assert(*node == all[i].1);
                }
                let d = it.get_current_depth();
                let mut line = indentation(d);
                let shape = node.render();
                line.append(shape.as_str());
                lines.push(line);
            },
            None => {
                proof {
                    assert(all.skip(i).len() == 0);
                    assert(all.len() == lines@.len());
                    assert(strs_m(lines@) =~= render_lines_m(*tree));
                }
                return lines;
            },
        }
    }
}

impl TreeBuilder {
    /// The rendered lines of the tree built so far; callers print them.
    pub fn debug_print(&self) -> (lines: Vec<String>)
        requires
            self@.wf(),
            self.tree.data@.len() <= usize::MAX / 2,
        ensures
            strs_m(lines@) == render_lines_m(self.tree),
    {
        proof {
            lemma_edges_ok_lift(self.tree);
        }
        render_tree_lines(&self.tree)
    }
}

/// The whole run preserves the builder invariant.
pub proof fn lemma_tb_run_wf(tb: TbModel, tk: crate::tokenizer::TkModel, pending: Option<TokenM>)
    requires
        tb.wf(),
        tk.wf(),
    ensures
        tb_run(tb, tk, pending).0.wf(),
    decreases build_fuel(tk, pending, tb),
{
    match pending {
        Some(t) => {
            lemma_tb_step(tb, t);
            lemma_tb_step_wf(tb, t);
            let s = tb_step(tb, t);
            match s.out {
                TbOut::Continue => {
                    lemma_tb_run_wf(s.m, tk, None);
                },
                TbOut::Reprocess => {
                    lemma_tb_run_wf(s.m, tk, Some(t));
                },
                _ => {},
            }
        },
        None => {
            lemma_stream_terminates(tk);
            let (tk2, res) = tk_next(tk);
            match res {
                Ok(Some(t)) => {
                    lemma_tb_run_wf(tb, tk2, Some(t));
                },
                _ => {},
            }
        },
    }
}

} // verus!
