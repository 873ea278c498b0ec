use vstd::prelude::*;
use crate::annotate::{
    alternating, alternation_wf, batch_wf, batches_view, closed_source_len, output_wf,
    pending_len, spec_add_encoded, spec_add_markup, spec_add_text, spec_result, spec_separate,
    state_item, total_source_len, CheckBatch, Output, OutputModel, StateModel,
};

verus! {

/// Node kinds of the parsed markup tree that the converter distinguishes.
/// Every other kind the parser produces maps to `Other`.
#[derive(Clone, Copy, PartialEq, Eq, Structural, Debug)]
pub enum NodeKind {
    Text,
    Space,
    SmartQuote,
    Shorthand,
    Parbreak,
    Equation,
    FuncCall,
    Code,
    ModuleImport,
    ModuleInclude,
    LetBinding,
    ShowRule,
    SetRule,
    Heading,
    Ref,
    LeftBracket,
    RightBracket,
    Markup,
    Strong,
    Emph,
    Raw,
    Link,
    Other,
}

/// One node of the parsed syntax tree, as the parser collaborator hands it
/// over: a kind tag, the node's own text (non-empty only on leaves), the
/// node's span in the source as character offsets, and its children.
#[derive(Debug, PartialEq)]
pub struct SyntaxNode {
    pub kind: NodeKind,
    pub text: String,
    pub start: usize,
    pub end: usize,
    pub children: Vec<SyntaxNode>,
}

/// Ghost mirror of a `SyntaxNode`.
#[verifier::ext_equal]
pub struct NodeModel {
    pub kind: NodeKind,
    pub text: Seq<char>,
    pub start: usize,
    pub end: usize,
    pub children: Seq<NodeModel>,
}

pub open spec fn node_view(n: SyntaxNode) -> NodeModel
    decreases n,
{
    NodeModel {
        kind: n.kind,
        text: n.text@,
        start: n.start,
        end: n.end,
        children: nodes_view(n.children@),
    }
}

pub open spec fn nodes_view(s: Seq<SyntaxNode>) -> Seq<NodeModel>
    decreases s,
{
    if s.len() == 0 {
        Seq::empty()
    } else {
        nodes_view(s.drop_last()).push(node_view(s.last()))
    }
}

impl View for SyntaxNode {
    type V = NodeModel;

    open spec fn view(&self) -> NodeModel {
        node_view(*self)
    }
}

pub proof fn lemma_nodes_view_len(s: Seq<SyntaxNode>)
    ensures
        nodes_view(s).len() == s.len(),
    decreases s,
{
    if s.len() > 0 {
        lemma_nodes_view_len(s.drop_last());
    }
}

pub proof fn lemma_nodes_view_index(s: Seq<SyntaxNode>, i: int)
    requires
        0 <= i < s.len(),
    ensures
        nodes_view(s).len() == s.len(),
        nodes_view(s)[i] == node_view(s[i]),
    decreases s,
{
    lemma_nodes_view_len(s);
    if s.len() > 0 {
        if i == s.len() - 1 {
        } else {
            lemma_nodes_view_index(s.drop_last(), i);
        }
    }
}

/// Kinds whose nodes are leaves in every tree the parser produces.
pub open spec fn leaf_kind(k: NodeKind) -> bool {
    ||| k == NodeKind::Text
    ||| k == NodeKind::Space
    ||| k == NodeKind::SmartQuote
    ||| k == NodeKind::Shorthand
    ||| k == NodeKind::Parbreak
    ||| k == NodeKind::LeftBracket
    ||| k == NodeKind::RightBracket
}

/// Kinds that are containers in every tree the parser produces: their text
/// lives in their descendants, never on the node itself.
pub open spec fn container_kind(k: NodeKind) -> bool {
    ||| k == NodeKind::Equation
    ||| k == NodeKind::FuncCall
    ||| k == NodeKind::Code
    ||| k == NodeKind::ModuleImport
    ||| k == NodeKind::ModuleInclude
    ||| k == NodeKind::LetBinding
    ||| k == NodeKind::ShowRule
    ||| k == NodeKind::SetRule
    ||| k == NodeKind::Heading
    ||| k == NodeKind::Ref
    ||| k == NodeKind::Markup
}

/// Shape of the trees the parser collaborator produces: text lives on the
/// leaves only, nodes of leaf kinds have no children, and container nodes
/// carry no text of their own.
pub open spec fn tree_wf(n: NodeModel) -> bool
    decreases n,
{
    &&& (n.children.len() > 0 ==> n.text.len() == 0)
    &&& (leaf_kind(n.kind) ==> n.children.len() == 0)
    &&& (container_kind(n.kind) ==> n.text.len() == 0)
    &&& forall|i: int| 0 <= i < n.children.len() ==> tree_wf(#[trigger] n.children[i])
}

pub open spec fn trees_wf(s: Seq<NodeModel>) -> bool {
    forall|i: int| 0 <= i < s.len() ==> tree_wf(#[trigger] s[i])
}

/// Total source text length of a subtree: its own text plus its children's.
pub open spec fn subtree_src_len(n: NodeModel) -> int
    decreases n,
{
    n.text.len() + subtree_seq_src_len(n.children)
}

pub open spec fn subtree_seq_src_len(s: Seq<NodeModel>) -> int
    decreases s,
{
    if s.len() == 0 {
        0
    } else {
        subtree_src_len(s[0]) + subtree_seq_src_len(s.drop_first())
    }
}

pub proof fn lemma_subtree_src_len_nonneg(n: NodeModel)
    ensures
        subtree_src_len(n) >= 0,
    decreases n, 1int,
{
    lemma_subtree_seq_src_len_nonneg(n.children);
}

pub proof fn lemma_subtree_seq_src_len_nonneg(s: Seq<NodeModel>)
    ensures
        subtree_seq_src_len(s) >= 0,
    decreases s, 0int,
{
    if s.len() > 0 {
        lemma_subtree_src_len_nonneg(s[0]);
        lemma_subtree_seq_src_len_nonneg(s.drop_first());
    }
}

/// Splitting off the first child splits the total length.
pub proof fn lemma_subtree_seq_src_len_drop_first(s: Seq<NodeModel>)
    requires
        s.len() > 0,
    ensures
        subtree_seq_src_len(s) == subtree_src_len(s[0]) + subtree_seq_src_len(s.drop_first()),
{
}

/// A configured rule: when a function of this name is called in the markup,
/// the given synthetic text is placed before and after its arguments.
#[derive(Debug, PartialEq)]
pub struct Function {
    pub name: String,
    pub before: String,
    pub after: String,
}

/// Ghost mirror of a `Function`.
pub struct FunctionModel {
    pub name: Seq<char>,
    pub before: Seq<char>,
    pub after: Seq<char>,
}

impl View for Function {
    type V = FunctionModel;

    open spec fn view(&self) -> FunctionModel {
        FunctionModel { name: self.name@, before: self.before@, after: self.after@ }
    }
}

/// The configured function rules, looked up by function name.
#[derive(Debug, PartialEq)]
pub struct Rules {
    pub functions: Vec<Function>,
}

impl View for Rules {
    type V = Seq<FunctionModel>;

    open spec fn view(&self) -> Seq<FunctionModel> {
        self.functions@.map_values(|f: Function| f@)
    }
}

/// First configured rule whose name matches.
pub open spec fn rule_for(rs: Seq<FunctionModel>, name: Seq<char>) -> Option<FunctionModel>
    decreases rs,
{
    if rs.len() == 0 {
        None
    } else if rs[0].name == name {
        Some(rs[0])
    } else {
        rule_for(rs.drop_first(), name)
    }
}

proof fn lemma_rule_for_skip(rs: Seq<FunctionModel>, name: Seq<char>, i: int)
    requires
        0 <= i <= rs.len(),
        forall|j: int| 0 <= j < i ==> (#[trigger] rs[j]).name != name,
    ensures
        rule_for(rs, name) == rule_for(rs.skip(i), name),
    decreases i,
{
    if i > 0 {
        lemma_rule_for_skip(rs, name, i - 1);
        assert(rs.skip(i - 1).len() > 0);
        assert(rs.skip(i - 1)[0] == rs[i - 1]);
        assert(rs[i - 1].name != name);
        assert(rs.skip(i - 1).drop_first() =~= rs.skip(i));
        assert(rule_for(rs.skip(i - 1), name) == rule_for(rs.skip(i), name));
    } else {
        assert(rs.skip(0) =~= rs);
    }
}

impl Rules {
    pub fn new() -> (r: Self)
        ensures
            r@ =~= Seq::<FunctionModel>::empty(),
    {
        Rules { functions: Vec::new() }
    }

    /// First configured rule whose name matches, if any.
    pub fn find(&self, name: &String) -> (r: Option<&Function>)
        ensures
            match r {
                Some(f) => rule_for(self@, name@) == Some(f@),
                None => rule_for(self@, name@) is None,
            },
    {
        let mut i: usize = 0;
        while i < self.functions.len()
            invariant
                i <= self.functions.len(),
                forall|j: int| 0 <= j < i ==> (#[trigger] self@[j]).name != name@,
            decreases self.functions.len() - i,
        {
            if self.functions[i].name == *name {
                proof {
                    lemma_rule_for_skip(self@, name@, i as int);
                    assert(self@.skip(i as int)[0] == self@[i as int]);
                }
                return Some(&self.functions[i]);
            }
            i = i + 1;
        }
        proof {
            lemma_rule_for_skip(self@, name@, self@.len() as int);
            assert(self@.skip(self@.len() as int).len() == 0);
        }
        None
    }
}

/// The two traversal modes: prose markup that is checked, and code that is
/// passed through as markup.
#[derive(Clone, Copy, PartialEq, Eq, Structural)]
pub enum Mode {
    Markdown,
    Code,
}

/// Traversal state carried by value through the recursive descent.
#[derive(Clone, Copy)]
pub struct State {
    pub mode: Mode,
}

// ---- the abstract conversion, mirrored by the executable walk ----

/// What the skip walk emits: the whole subtree as opaque markup.
pub open spec fn spec_skip(n: NodeModel, o: OutputModel) -> OutputModel
    decreases n, 1int,
{
    spec_skip_seq(n.children, spec_add_markup(o, n.text))
}

pub open spec fn spec_skip_seq(s: Seq<NodeModel>, o: OutputModel) -> OutputModel
    decreases s, 0int,
{
    if s.len() == 0 {
        o
    } else {
        spec_skip_seq(s.drop_first(), spec_skip(s[0], o))
    }
}

/// One step of the mode-sensitive walk.
pub open spec fn spec_convert(mode: Mode, n: NodeModel, o: OutputModel, rs: Seq<FunctionModel>) -> OutputModel
    decreases n, 1int,
{
    if n.kind == NodeKind::Text && mode == Mode::Markdown {
        spec_add_text(o, n.text)
    } else if n.kind == NodeKind::Equation {
        spec_skip(n, spec_add_encoded(o, n.text, "0"@))
    } else if n.kind == NodeKind::FuncCall {
        let rule = if n.children.len() > 0 {
            rule_for(rs, n.children[0].text)
        } else {
            None
        };
        let o1 = match rule {
            Some(f) => spec_add_encoded(o, Seq::empty(), f.before),
            None => o,
        };
        let o2 = spec_convert_seq(Mode::Code, n.children, o1, rs);
        match rule {
            Some(f) => spec_add_encoded(o2, Seq::empty(), f.after),
            None => o2,
        }
    } else if n.kind == NodeKind::Code || n.kind == NodeKind::ModuleImport || n.kind
        == NodeKind::ModuleInclude || n.kind == NodeKind::LetBinding || n.kind
        == NodeKind::ShowRule || n.kind == NodeKind::SetRule {
        spec_convert_seq(Mode::Code, n.children, o, rs)
    } else if n.kind == NodeKind::Heading {
        spec_add_encoded(
            spec_convert_seq(mode, n.children, spec_add_encoded(o, Seq::empty(), "\n\n"@), rs),
            Seq::empty(),
            "\n\n"@,
        )
    } else if n.kind == NodeKind::Ref {
        spec_skip(n, spec_add_encoded(o, Seq::empty(), "X"@))
    } else if n.kind == NodeKind::LeftBracket || n.kind == NodeKind::RightBracket {
        spec_add_encoded(o, n.text, "\n\n"@)
    } else if n.kind == NodeKind::Markup {
        spec_convert_seq(Mode::Markdown, n.children, o, rs)
    } else if n.kind == NodeKind::Shorthand && n.text == "~"@ {
        spec_add_encoded(o, n.text, " "@)
    } else if n.kind == NodeKind::Space && mode == Mode::Markdown {
        spec_add_text(o, n.text)
    } else if n.kind == NodeKind::Parbreak {
        spec_add_encoded(o, n.text, "\n\n"@)
    } else if n.kind == NodeKind::SmartQuote && mode == Mode::Markdown {
        spec_add_text(o, n.text)
    } else {
        spec_convert_seq(mode, n.children, spec_add_markup(o, n.text), rs)
    }
}

pub open spec fn spec_convert_seq(
    mode: Mode,
    s: Seq<NodeModel>,
    o: OutputModel,
    rs: Seq<FunctionModel>,
) -> OutputModel
    decreases s, 0int,
{
    if s.len() == 0 {
        o
    } else {
        spec_convert_seq(mode, s.drop_first(), spec_convert(mode, s[0], o, rs), rs)
    }
}

/// The walk over the document root's children: prose mode, with a batch
/// split considered after every paragraph break.
pub open spec fn spec_convert_doc_seq(
    s: Seq<NodeModel>,
    o: OutputModel,
    rs: Seq<FunctionModel>,
    max: int,
) -> OutputModel
    decreases s,
{
    if s.len() == 0 {
        o
    } else {
        let o1 = spec_convert(Mode::Markdown, s[0], o, rs);
        let o2 = if s[0].kind == NodeKind::Parbreak {
            spec_separate(o1, max)
        } else {
            o1
        };
        spec_convert_doc_seq(s.drop_first(), o2, rs, max)
    }
}

// ---- accounting: the walk emits exactly the subtree's source text ----

pub proof fn lemma_trees_wf_children(n: NodeModel)
    requires
        tree_wf(n),
    ensures
        trees_wf(n.children),
{
}

pub proof fn lemma_trees_wf_drop_first(s: Seq<NodeModel>)
    requires
        trees_wf(s),
        s.len() > 0,
    ensures
        trees_wf(s.drop_first()),
{
    assert forall|i: int| 0 <= i < s.drop_first().len() implies tree_wf(
        #[trigger] s.drop_first()[i],
    ) by {
        assert(s.drop_first()[i] == s[i + 1]);
    }
}

pub proof fn lemma_skip_accounting(n: NodeModel, o: OutputModel)
    requires
        output_wf(o),
        tree_wf(n),
    ensures
        output_wf(spec_skip(n, o)),
        total_source_len(spec_skip(n, o)) == total_source_len(o) + subtree_src_len(n),
        pending_len(spec_skip(n, o)) <= pending_len(o) + subtree_src_len(n),
        spec_skip(n, o).batches.len() == o.batches.len(),
        forall|i: int|
            0 <= i < o.batches.len() - 1 ==> spec_skip(n, o).batches[i] == #[trigger] o.batches[i],
    decreases n, 1int,
{
    crate::annotate::lemma_spec_add_markup(o, n.text);
    lemma_trees_wf_children(n);
    lemma_skip_seq_accounting(n.children, spec_add_markup(o, n.text));
}

pub proof fn lemma_skip_seq_accounting(s: Seq<NodeModel>, o: OutputModel)
    requires
        output_wf(o),
        trees_wf(s),
    ensures
        output_wf(spec_skip_seq(s, o)),
        total_source_len(spec_skip_seq(s, o)) == total_source_len(o) + subtree_seq_src_len(s),
        pending_len(spec_skip_seq(s, o)) <= pending_len(o) + subtree_seq_src_len(s),
        spec_skip_seq(s, o).batches.len() == o.batches.len(),
        forall|i: int|
            0 <= i < o.batches.len() - 1 ==> spec_skip_seq(s, o).batches[i] == #[trigger] o.batches[i],
    decreases s, 0int,
{
    if s.len() > 0 {
        lemma_skip_accounting(s[0], o);
        lemma_trees_wf_drop_first(s);
        lemma_skip_seq_accounting(s.drop_first(), spec_skip(s[0], o));
    }
}

pub proof fn lemma_convert_accounting(mode: Mode, n: NodeModel, o: OutputModel, rs: Seq<FunctionModel>)
    requires
        output_wf(o),
        tree_wf(n),
    ensures
        output_wf(spec_convert(mode, n, o, rs)),
        total_source_len(spec_convert(mode, n, o, rs)) == total_source_len(o) + subtree_src_len(n),
        pending_len(spec_convert(mode, n, o, rs)) <= pending_len(o) + subtree_src_len(n),
        spec_convert(mode, n, o, rs).batches.len() == o.batches.len(),
        forall|i: int|
            0 <= i < o.batches.len() - 1 ==> spec_convert(mode, n, o, rs).batches[i]
                == #[trigger] o.batches[i],
    decreases n, 1int,
{
    lemma_trees_wf_children(n);
    if n.kind == NodeKind::Text && mode == Mode::Markdown {
        crate::annotate::lemma_spec_add_text(o, n.text);
    } else if n.kind == NodeKind::Equation {
        crate::annotate::lemma_spec_add_encoded(o, n.text, "0"@);
        lemma_skip_accounting(n, spec_add_encoded(o, n.text, "0"@));
    } else if n.kind == NodeKind::FuncCall {
        let rule = if n.children.len() > 0 {
            rule_for(rs, n.children[0].text)
        } else {
            None
        };
        let o1 = match rule {
            Some(f) => spec_add_encoded(o, Seq::empty(), f.before),
            None => o,
        };
        match rule {
            Some(f) => {
                crate::annotate::lemma_spec_add_encoded(o, Seq::empty(), f.before);
            },
            None => {
            },
        }
        lemma_convert_seq_accounting(Mode::Code, n.children, o1, rs);
        let o2 = spec_convert_seq(Mode::Code, n.children, o1, rs);
        match rule {
            Some(f) => {
                crate::annotate::lemma_spec_add_encoded(o2, Seq::empty(), f.after);
            },
            None => {
            },
        }
    } else if n.kind == NodeKind::Code || n.kind == NodeKind::ModuleImport || n.kind
        == NodeKind::ModuleInclude || n.kind == NodeKind::LetBinding || n.kind
        == NodeKind::ShowRule || n.kind == NodeKind::SetRule {
        lemma_convert_seq_accounting(Mode::Code, n.children, o, rs);
    } else if n.kind == NodeKind::Heading {
        crate::annotate::lemma_spec_add_encoded(o, Seq::empty(), "\n\n"@);
        let o1 = spec_add_encoded(o, Seq::empty(), "\n\n"@);
        lemma_convert_seq_accounting(mode, n.children, o1, rs);
        crate::annotate::lemma_spec_add_encoded(spec_convert_seq(mode, n.children, o1, rs), Seq::empty(), "\n\n"@);
    } else if n.kind == NodeKind::Ref {
        crate::annotate::lemma_spec_add_encoded(o, Seq::empty(), "X"@);
        lemma_skip_accounting(n, spec_add_encoded(o, Seq::empty(), "X"@));
    } else if n.kind == NodeKind::LeftBracket || n.kind == NodeKind::RightBracket {
        crate::annotate::lemma_spec_add_encoded(o, n.text, "\n\n"@);
    } else if n.kind == NodeKind::Markup {
        lemma_convert_seq_accounting(Mode::Markdown, n.children, o, rs);
    } else if n.kind == NodeKind::Shorthand && n.text == "~"@ {
        crate::annotate::lemma_spec_add_encoded(o, n.text, " "@);
    } else if n.kind == NodeKind::Space && mode == Mode::Markdown {
        crate::annotate::lemma_spec_add_text(o, n.text);
    } else if n.kind == NodeKind::Parbreak {
        crate::annotate::lemma_spec_add_encoded(o, n.text, "\n\n"@);
    } else if n.kind == NodeKind::SmartQuote && mode == Mode::Markdown {
        crate::annotate::lemma_spec_add_text(o, n.text);
    } else {
        crate::annotate::lemma_spec_add_markup(o, n.text);
        lemma_convert_seq_accounting(mode, n.children, spec_add_markup(o, n.text), rs);
    }
}

pub proof fn lemma_convert_seq_accounting(
    mode: Mode,
    s: Seq<NodeModel>,
    o: OutputModel,
    rs: Seq<FunctionModel>,
)
    requires
        output_wf(o),
        trees_wf(s),
    ensures
        output_wf(spec_convert_seq(mode, s, o, rs)),
        total_source_len(spec_convert_seq(mode, s, o, rs)) == total_source_len(o)
            + subtree_seq_src_len(s),
        pending_len(spec_convert_seq(mode, s, o, rs)) <= pending_len(o) + subtree_seq_src_len(s),
        spec_convert_seq(mode, s, o, rs).batches.len() == o.batches.len(),
        forall|i: int|
            0 <= i < o.batches.len() - 1 ==> spec_convert_seq(mode, s, o, rs).batches[i]
                == #[trigger] o.batches[i],
    decreases s, 0int,
{
    if s.len() > 0 {
        lemma_convert_accounting(mode, s[0], o, rs);
        lemma_trees_wf_drop_first(s);
        lemma_convert_seq_accounting(mode, s.drop_first(), spec_convert(mode, s[0], o, rs), rs);
    }
}

// ---- the executable walk ----

/// The string a formula is replaced with for checking purposes.
fn zero_substitute() -> (r: String)
    ensures
        r@ == "0"@,
{
    String::from_str("0")
}

/// The paragraph-break substitute.
fn paragraph_substitute() -> (r: String)
    ensures
        r@ == "\n\n"@,
{
    String::from_str("\n\n")
}

/// The cross-reference substitute.
fn reference_substitute() -> (r: String)
    ensures
        r@ == "X"@,
{
    String::from_str("X")
}

impl State {
    /// Append the whole subtree as opaque markup, never recursing into the
    /// prose rules.
    fn skip(node: &SyntaxNode, output: &mut Output)
        requires
            output_wf(old(output)@),
            alternation_wf(old(output)@),
            tree_wf(node@),
            pending_len(old(output)@) + subtree_src_len(node@) <= usize::MAX,
        ensures
            final(output)@ == spec_skip(node@, old(output)@),
            output_wf(final(output)@),
            alternation_wf(final(output)@),
        decreases node, 1int,
    {
        proof {
            lemma_subtree_seq_src_len_nonneg(node@.children);
            crate::annotate::lemma_spec_add_markup(old(output)@, node@.text);
            lemma_trees_wf_children(node@);
            assert(nodes_view(node.children@).skip(0) =~= node@.children);
        }
        output.add_markup(node.text.clone());
        Self::skip_children(&node.children, 0, output);
    }

    fn skip_children(children: &Vec<SyntaxNode>, from: usize, output: &mut Output)
        requires
            output_wf(old(output)@),
            alternation_wf(old(output)@),
            from <= children.len(),
            trees_wf(nodes_view(children@)),
            pending_len(old(output)@) + subtree_seq_src_len(
                nodes_view(children@).skip(from as int),
            ) <= usize::MAX,
        ensures
            final(output)@ == spec_skip_seq(
                nodes_view(children@).skip(from as int),
                old(output)@,
            ),
            output_wf(final(output)@),
            alternation_wf(final(output)@),
        decreases children, children@.len() - from,
    {
        proof {
            lemma_nodes_view_len(children@);
        }
        if from < children.len() {
            proof {
                let s = nodes_view(children@);
                lemma_nodes_view_index(children@, from as int);
                assert(s.skip(from as int)[0] == s[from as int]);
                assert(s.skip(from as int).drop_first() =~= s.skip(from as int + 1));
                assert(tree_wf(s[from as int]));
                lemma_subtree_src_len_nonneg(s[from as int]);
                lemma_subtree_seq_src_len_nonneg(s.skip(from as int + 1));
                lemma_subtree_seq_src_len_drop_first(s.skip(from as int));
                lemma_skip_accounting(s[from as int], old(output)@);
            }
            Self::skip(&children[from], output);
            Self::skip_children(children, from + 1, output);
        } else {
            proof {
                assert(nodes_view(children@).skip(from as int).len() == 0);
            }
        }
    }

    /// Depth-first, mode-sensitive walk of one node, feeding spans into the
    /// builder exactly as `spec_convert` describes.
    pub fn convert(self, node: &SyntaxNode, output: &mut Output, rules: &Rules)
        requires
            output_wf(old(output)@),
            alternation_wf(old(output)@),
            tree_wf(node@),
            pending_len(old(output)@) + subtree_src_len(node@) <= usize::MAX,
        ensures
            final(output)@ == spec_convert(self.mode, node@, old(output)@, rules@),
            output_wf(final(output)@),
            alternation_wf(final(output)@),
        decreases node, 1int,
    {
        proof {
            lemma_subtree_seq_src_len_nonneg(node@.children);
            lemma_trees_wf_children(node@);
            lemma_nodes_view_len(node.children@);
            assert(nodes_view(node.children@).skip(0) =~= node@.children);
        }
        let kind = node.kind;
        if kind == NodeKind::Text && self.mode == Mode::Markdown {
            proof {
                crate::annotate::lemma_spec_add_text(old(output)@, node@.text);
            }
            output.add_text(node.text.clone());
        } else if kind == NodeKind::Equation {
            proof {
                crate::annotate::lemma_spec_add_encoded(old(output)@, node@.text, "0"@);
                lemma_skip_accounting(node@, spec_add_encoded(old(output)@, node@.text, "0"@));
            }
            output.add_encoded(node.text.clone(), zero_substitute());
            Self::skip(node, output);
        } else if kind == NodeKind::FuncCall {
            let st = State { mode: Mode::Code };
            let rule: Option<&Function> = if node.children.len() > 0 {
                proof {
                    lemma_nodes_view_index(node.children@, 0);
                }
                rules.find(&node.children[0].text)
            } else {
                None
            };
            if let Some(f) = rule {
                proof {
                    crate::annotate::lemma_spec_add_encoded(output@, Seq::empty(), f@.before);
                }
                output.add_encoded(String::new(), f.before.clone());
            }
            proof {
                lemma_convert_seq_accounting(Mode::Code, node@.children, output@, rules@);
            }
            Self::convert_children(st, &node.children, 0, output, rules);
            if let Some(f) = rule {
                proof {
                    crate::annotate::lemma_spec_add_encoded(output@, Seq::empty(), f@.after);
                }
                output.add_encoded(String::new(), f.after.clone());
            }
        } else if kind == NodeKind::Code || kind == NodeKind::ModuleImport || kind
            == NodeKind::ModuleInclude || kind == NodeKind::LetBinding || kind
            == NodeKind::ShowRule || kind == NodeKind::SetRule {
            let st = State { mode: Mode::Code };
            Self::convert_children(st, &node.children, 0, output, rules);
        } else if kind == NodeKind::Heading {
            proof {
                crate::annotate::lemma_spec_add_encoded(old(output)@, Seq::empty(), "\n\n"@);
                lemma_convert_seq_accounting(
                    self.mode,
                    node@.children,
                    spec_add_encoded(old(output)@, Seq::empty(), "\n\n"@),
                    rules@,
                );
            }
            output.add_encoded(String::new(), paragraph_substitute());
            Self::convert_children(self, &node.children, 0, output, rules);
            output.add_encoded(String::new(), paragraph_substitute());
        } else if kind == NodeKind::Ref {
            proof {
                crate::annotate::lemma_spec_add_encoded(old(output)@, Seq::empty(), "X"@);
                lemma_skip_accounting(node@, spec_add_encoded(old(output)@, Seq::empty(), "X"@));
            }
            output.add_encoded(String::new(), reference_substitute());
            Self::skip(node, output);
        } else if kind == NodeKind::LeftBracket || kind == NodeKind::RightBracket {
            proof {
                crate::annotate::lemma_spec_add_encoded(old(output)@, node@.text, "\n\n"@);
            }
            output.add_encoded(node.text.clone(), paragraph_substitute());
        } else if kind == NodeKind::Markup {
            let st = State { mode: Mode::Markdown };
            Self::convert_children(st, &node.children, 0, output, rules);
        } else if kind == NodeKind::Shorthand && node.text == tilde_text() {
            proof {
                crate::annotate::lemma_spec_add_encoded(old(output)@, node@.text, " "@);
            }
            output.add_encoded(node.text.clone(), space_substitute());
        } else if kind == NodeKind::Space && self.mode == Mode::Markdown {
            proof {
                crate::annotate::lemma_spec_add_text(old(output)@, node@.text);
            }
            output.add_text(node.text.clone());
        } else if kind == NodeKind::Parbreak {
            proof {
                crate::annotate::lemma_spec_add_encoded(old(output)@, node@.text, "\n\n"@);
            }
            output.add_encoded(node.text.clone(), paragraph_substitute());
        } else if kind == NodeKind::SmartQuote && self.mode == Mode::Markdown {
            proof {
                crate::annotate::lemma_spec_add_text(old(output)@, node@.text);
            }
            output.add_text(node.text.clone());
        } else {
            proof {
                crate::annotate::lemma_spec_add_markup(old(output)@, node@.text);
                lemma_convert_seq_accounting(
                    self.mode,
                    node@.children,
                    spec_add_markup(old(output)@, node@.text),
                    rules@,
                );
            }
            output.add_markup(node.text.clone());
            Self::convert_children(self, &node.children, 0, output, rules);
        }
    }

    fn convert_children(
        st: State,
        children: &Vec<SyntaxNode>,
        from: usize,
        output: &mut Output,
        rules: &Rules,
    )
        requires
            output_wf(old(output)@),
            alternation_wf(old(output)@),
            from <= children.len(),
            trees_wf(nodes_view(children@)),
            pending_len(old(output)@) + subtree_seq_src_len(
                nodes_view(children@).skip(from as int),
            ) <= usize::MAX,
        ensures
            final(output)@ == spec_convert_seq(
                st.mode,
                nodes_view(children@).skip(from as int),
                old(output)@,
                rules@,
            ),
            output_wf(final(output)@),
            alternation_wf(final(output)@),
        decreases children, children@.len() - from,
    {
        proof {
            lemma_nodes_view_len(children@);
        }
        if from < children.len() {
            proof {
                let s = nodes_view(children@);
                lemma_nodes_view_index(children@, from as int);
                assert(s.skip(from as int)[0] == s[from as int]);
                assert(s.skip(from as int).drop_first() =~= s.skip(from as int + 1));
                assert(tree_wf(s[from as int]));
                lemma_subtree_src_len_nonneg(s[from as int]);
                lemma_subtree_seq_src_len_nonneg(s.skip(from as int + 1));
                lemma_subtree_seq_src_len_drop_first(s.skip(from as int));
                lemma_convert_accounting(st.mode, s[from as int], old(output)@, rules@);
            }
            st.convert(&children[from], output, rules);
            Self::convert_children(st, children, from + 1, output, rules);
        } else {
            proof {
                assert(nodes_view(children@).skip(from as int).len() == 0);
            }
        }
    }
}

/// The text form of the non-breaking-space shorthand.
fn tilde_text() -> (r: String)
    ensures
        r@ == "~"@,
{
    String::from_str("~")
}

/// The non-breaking-space substitute.
fn space_substitute() -> (r: String)
    ensures
        r@ == " "@,
{
    String::from_str(" ")
}


// ---- the whole document ----

/// The builder's starting point: one empty batch, an empty text span.
pub open spec fn init_output() -> OutputModel {
    OutputModel {
        batches: seq![crate::annotate::empty_batch()],
        state: StateModel::Text(Seq::empty()),
    }
}

/// The batches the converter produces for a document tree.
pub open spec fn spec_convert_doc(n: NodeModel, rs: Seq<FunctionModel>, max: int) -> Seq<
    crate::annotate::BatchModel,
> {
    spec_result(spec_convert_doc_seq(n.children, init_output(), rs, max))
}

pub proof fn lemma_convert_doc_seq_accounting(
    s: Seq<NodeModel>,
    o: OutputModel,
    rs: Seq<FunctionModel>,
    max: int,
)
    requires
        output_wf(o),
        trees_wf(s),
        max >= 0,
    ensures
        output_wf(spec_convert_doc_seq(s, o, rs, max)),
        total_source_len(spec_convert_doc_seq(s, o, rs, max)) == total_source_len(o)
            + subtree_seq_src_len(s),
        pending_len(spec_convert_doc_seq(s, o, rs, max)) <= pending_len(o)
            + subtree_seq_src_len(s),
        spec_convert_doc_seq(s, o, rs, max).batches.len() >= o.batches.len(),
        forall|i: int|
            0 <= i < o.batches.len() - 1 ==> spec_convert_doc_seq(s, o, rs, max).batches[i]
                == #[trigger] o.batches[i],
        forall|i: int|
            o.batches.len() - 1 <= i < spec_convert_doc_seq(s, o, rs, max).batches.len() - 1
                ==> (#[trigger] spec_convert_doc_seq(s, o, rs, max).batches[i]).original_length
                > max,
    decreases s,
{
    if s.len() > 0 {
        lemma_convert_accounting(Mode::Markdown, s[0], o, rs);
        lemma_trees_wf_drop_first(s);
        lemma_subtree_src_len_nonneg(s[0]);
        lemma_subtree_seq_src_len_nonneg(s.drop_first());
        let o1 = spec_convert(Mode::Markdown, s[0], o, rs);
        let o2 = if s[0].kind == NodeKind::Parbreak {
            spec_separate(o1, max)
        } else {
            o1
        };
        if s[0].kind == NodeKind::Parbreak {
            crate::annotate::lemma_spec_separate(o1, max);
        }
        lemma_convert_doc_seq_accounting(s.drop_first(), o2, rs, max);
        let d = spec_convert_doc_seq(s, o, rs, max);
        assert(d == spec_convert_doc_seq(s.drop_first(), o2, rs, max));
        assert forall|i: int|
            o.batches.len() - 1 <= i < d.batches.len() - 1 implies (#[trigger] d.batches[i]).original_length
            > max by {
            if i < o2.batches.len() - 1 {
                assert(d.batches[i] == o2.batches[i]);
                assert(o2.batches[i].original_length > max);
            }
        }
    }
}

/// Walk the document root's children in prose mode, considering a batch
/// split after every paragraph break.
pub fn convert(node: &SyntaxNode, rules: &Rules, max_length: usize) -> (r: Vec<CheckBatch>)
    requires
        tree_wf(node@),
        subtree_seq_src_len(node@.children) <= usize::MAX,
    ensures
        batches_view(r@) == spec_convert_doc(node@, rules@, max_length as int),
        r@.len() >= 1,
        forall|i: int| 0 <= i < r@.len() ==> batch_wf(#[trigger] batches_view(r@)[i]),
        forall|i: int|
            0 <= i < r@.len() ==> alternating((#[trigger] batches_view(r@)[i]).items),
{
    let mut output = Output::new();
    proof {
        assert(output@ =~~= init_output());
        assert(nodes_view(node.children@).skip(0) =~= node@.children);
        lemma_trees_wf_children(node@);
        lemma_convert_doc_seq_accounting(
            node@.children,
            init_output(),
            rules@,
            max_length as int,
        );
    }
    convert_doc_children(&node.children, 0, &mut output, rules, max_length);
    output.result()
}

fn convert_doc_children(
    children: &Vec<SyntaxNode>,
    from: usize,
    output: &mut Output,
    rules: &Rules,
    max_length: usize,
)
    requires
        output_wf(old(output)@),
        alternation_wf(old(output)@),
        from <= children.len(),
        trees_wf(nodes_view(children@)),
        pending_len(old(output)@) + subtree_seq_src_len(
            nodes_view(children@).skip(from as int),
        ) <= usize::MAX,
    ensures
        final(output)@ == spec_convert_doc_seq(
            nodes_view(children@).skip(from as int),
            old(output)@,
            rules@,
            max_length as int,
        ),
        output_wf(final(output)@),
        alternation_wf(final(output)@),
    decreases children@.len() - from,
{
    proof {
        lemma_nodes_view_len(children@);
    }
    if from < children.len() {
        proof {
            let s = nodes_view(children@);
            lemma_nodes_view_index(children@, from as int);
            assert(s.skip(from as int)[0] == s[from as int]);
            assert(s.skip(from as int).drop_first() =~= s.skip(from as int + 1));
            assert(tree_wf(s[from as int]));
            lemma_subtree_src_len_nonneg(s[from as int]);
            lemma_subtree_seq_src_len_nonneg(s.skip(from as int + 1));
            lemma_subtree_seq_src_len_drop_first(s.skip(from as int));
            lemma_convert_accounting(Mode::Markdown, s[from as int], old(output)@, rules@);
            if s[from as int].kind == NodeKind::Parbreak {
                crate::annotate::lemma_spec_separate(
                    spec_convert(Mode::Markdown, s[from as int], old(output)@, rules@),
                    max_length as int,
                );
            }
        }
        let st = State { mode: Mode::Markdown };
        st.convert(&children[from], output, rules);
        if children[from].kind == NodeKind::Parbreak {
            output.maybe_separate(max_length);
        }
        convert_doc_children(children, from + 1, output, rules, max_length);
    } else {
        proof {
            assert(nodes_view(children@).skip(from as int).len() == 0);
        }
    }
}


// ---- testing a parsed tree against the contracts ----

fn is_leaf_kind(k: NodeKind) -> (r: bool)
    ensures
        r == leaf_kind(k),
{
    match k {
        NodeKind::Text => true,
        NodeKind::Space => true,
        NodeKind::SmartQuote => true,
        NodeKind::Shorthand => true,
        NodeKind::Parbreak => true,
        NodeKind::LeftBracket => true,
        NodeKind::RightBracket => true,
        _ => false,
    }
}

fn is_container_kind(k: NodeKind) -> (r: bool)
    ensures
        r == container_kind(k),
{
    match k {
        NodeKind::Equation => true,
        NodeKind::FuncCall => true,
        NodeKind::Code => true,
        NodeKind::ModuleImport => true,
        NodeKind::ModuleInclude => true,
        NodeKind::LetBinding => true,
        NodeKind::ShowRule => true,
        NodeKind::SetRule => true,
        NodeKind::Heading => true,
        NodeKind::Ref => true,
        NodeKind::Markup => true,
        _ => false,
    }
}

/// Test whether a parsed tree is one the converter's and the document's
/// contracts cover: well shaped (`tree_wf`), every span within a text of
/// `len` characters, and a total source length that fits `usize`. A caller
/// that cannot trust its parser tests this before converting; on success
/// the total source length is returned.
pub fn check_parsed_tree(node: &SyntaxNode, len: usize) -> (r: Option<usize>)
    ensures
        match r {
            Some(total) => tree_wf(node@) && crate::chunks::node_spans_within(node@, len as int)
                && total == subtree_src_len(node@),
            None => !(tree_wf(node@) && crate::chunks::node_spans_within(node@, len as int)
                && subtree_src_len(node@) <= usize::MAX),
        },
    decreases node, 1int,
{
    proof {
        lemma_subtree_seq_src_len_nonneg(node@.children);
        lemma_nodes_view_len(node.children@);
        assert(nodes_view(node.children@).skip(0) =~= node@.children);
    }
    let text_len = node.text.as_str().unicode_len();
    if node.children.len() > 0 && text_len > 0 {
        return None;
    }
    if is_leaf_kind(node.kind) && node.children.len() > 0 {
        return None;
    }
    if is_container_kind(node.kind) && text_len > 0 {
        return None;
    }
    if !(node.start <= node.end && node.end <= len) {
        return None;
    }
    let children_total = match check_child_trees(&node.children, 0, len) {
        Some(t) => t,
        None => {
            proof {
                assert(!(tree_wf(node@) && crate::chunks::node_spans_within(node@, len as int)
                    && subtree_src_len(node@) <= usize::MAX)) by {
                    if tree_wf(node@) && crate::chunks::node_spans_within(node@, len as int)
                        && subtree_src_len(node@) <= usize::MAX {
                        assert(trees_wf(node@.children));
                        assert(forall|i: int|
                            0 <= i < node@.children.len()
                                ==> crate::chunks::node_spans_within(
                                #[trigger] node@.children[i],
                                len as int,
                            ));
                        assert(subtree_seq_src_len(node@.children) <= usize::MAX);
                        assert(false);
                    }
                }
            }
            return None;
        },
    };
    if children_total > usize::MAX - text_len {
        return None;
    }
    Some(text_len + children_total)
}

fn check_child_trees(children: &Vec<SyntaxNode>, from: usize, len: usize) -> (r: Option<usize>)
    requires
        from <= children.len(),
    ensures
        match r {
            Some(total) => {
                &&& trees_wf(nodes_view(children@).skip(from as int))
                &&& forall|i: int|
                    0 <= i < nodes_view(children@).skip(from as int).len()
                        ==> crate::chunks::node_spans_within(
                        #[trigger] nodes_view(children@).skip(from as int)[i],
                        len as int,
                    )
                &&& total == subtree_seq_src_len(nodes_view(children@).skip(from as int))
            },
            None => !(trees_wf(nodes_view(children@).skip(from as int)) && (forall|i: int|
                0 <= i < nodes_view(children@).skip(from as int).len()
                    ==> crate::chunks::node_spans_within(
                    #[trigger] nodes_view(children@).skip(from as int)[i],
                    len as int,
                )) && subtree_seq_src_len(nodes_view(children@).skip(from as int)) <= usize::MAX),
        },
    decreases children, children@.len() - from,
{
    proof {
        lemma_nodes_view_len(children@);
    }
    let ghost s = nodes_view(children@);
    if from >= children.len() {
        proof {
            assert(s.skip(from as int).len() == 0);
        }
        return Some(0);
    }
    proof {
        lemma_nodes_view_index(children@, from as int);
        assert(s.skip(from as int)[0] == s[from as int]);
        assert(s.skip(from as int).drop_first() =~= s.skip(from as int + 1));
        lemma_subtree_src_len_nonneg(s[from as int]);
        lemma_subtree_seq_src_len_nonneg(s.skip(from as int + 1));
        lemma_subtree_seq_src_len_drop_first(s.skip(from as int));
    }
    let own = match check_parsed_tree(&children[from], len) {
        Some(t) => t,
        None => {
            proof {
                assert(!(trees_wf(s.skip(from as int)) && (forall|i: int|
                    0 <= i < s.skip(from as int).len() ==> crate::chunks::node_spans_within(
                        #[trigger] s.skip(from as int)[i],
                        len as int,
                    )) && subtree_seq_src_len(s.skip(from as int)) <= usize::MAX)) by {
                    if trees_wf(s.skip(from as int)) && (forall|i: int|
                        0 <= i < s.skip(from as int).len() ==> crate::chunks::node_spans_within(
                            #[trigger] s.skip(from as int)[i],
                            len as int,
                        )) && subtree_seq_src_len(s.skip(from as int)) <= usize::MAX {
                        assert(tree_wf(s.skip(from as int)[0]));
                        assert(crate::chunks::node_spans_within(
                            s.skip(from as int)[0],
                            len as int,
                        ));
                        assert(subtree_src_len(s[from as int]) <= usize::MAX);
                        assert(false);
                    }
                }
            }
            return None;
        },
    };
    let rest = match check_child_trees(children, from + 1, len) {
        Some(t) => t,
        None => {
            proof {
                assert(!(trees_wf(s.skip(from as int)) && (forall|i: int|
                    0 <= i < s.skip(from as int).len() ==> crate::chunks::node_spans_within(
                        #[trigger] s.skip(from as int)[i],
                        len as int,
                    )) && subtree_seq_src_len(s.skip(from as int)) <= usize::MAX)) by {
                    if trees_wf(s.skip(from as int)) && (forall|i: int|
                        0 <= i < s.skip(from as int).len() ==> crate::chunks::node_spans_within(
                            #[trigger] s.skip(from as int)[i],
                            len as int,
                        )) && subtree_seq_src_len(s.skip(from as int)) <= usize::MAX {
                        assert forall|i: int|
                            0 <= i < s.skip(from as int + 1).len() implies tree_wf(
                            #[trigger] s.skip(from as int + 1)[i],
                        ) && crate::chunks::node_spans_within(
                            s.skip(from as int + 1)[i],
                            len as int,
                        ) by {
                            assert(s.skip(from as int + 1)[i] == s.skip(from as int)[i + 1]);
                        }
                        assert(subtree_seq_src_len(s.skip(from as int + 1)) <= usize::MAX);
                        assert(false);
                    }
                }
            }
            return None;
        },
    };
    if own > usize::MAX - rest {
        return None;
    }
    proof {
        assert forall|i: int| 0 <= i < s.skip(from as int).len() implies tree_wf(
            #[trigger] s.skip(from as int)[i],
        ) && crate::chunks::node_spans_within(s.skip(from as int)[i], len as int) by {
            if i > 0 {
                assert(s.skip(from as int)[i] == s.skip(from as int + 1)[i - 1]);
            }
        }
    }
    Some(own + rest)
}

// ---- stated laws of the conversion ----

/// Converting the same unedited tree twice yields byte-identical batches:
/// the result is a function of the tree, the rules and the maximum alone.
pub proof fn lemma_convert_idempotent(
    n: NodeModel,
    rs: Seq<FunctionModel>,
    max: int,
    r1: Seq<crate::annotate::BatchModel>,
    r2: Seq<crate::annotate::BatchModel>,
)
    requires
        r1 == spec_convert_doc(n, rs, max),
        r2 == spec_convert_doc(n, rs, max),
    ensures
        r1 == r2,
{
}

/// Round trip: the batches' declared original lengths sum to exactly the
/// source length of the tree, so replaying every batch's length consumes
/// the source text with nothing remaining or missing.
pub proof fn lemma_round_trip(n: NodeModel, rs: Seq<FunctionModel>, max: int)
    requires
        tree_wf(n),
        max >= 0,
    ensures
        closed_source_len(spec_convert_doc(n, rs, max)) == subtree_seq_src_len(n.children),
        forall|i: int|
            0 <= i < spec_convert_doc(n, rs, max).len() ==> batch_wf(
                #[trigger] spec_convert_doc(n, rs, max)[i],
            ),
{
    lemma_trees_wf_children(n);
    let init = init_output();
    assert(init.batches.drop_last() =~= Seq::<crate::annotate::BatchModel>::empty());
    assert(closed_source_len(Seq::<crate::annotate::BatchModel>::empty()) == 0);
    assert(init.batches.last() == crate::annotate::empty_batch());
    assert(closed_source_len(init.batches) == 0);
    assert(output_wf(init));
    lemma_convert_doc_seq_accounting(n.children, init, rs, max);
    let o = spec_convert_doc_seq(n.children, init, rs, max);
    crate::annotate::lemma_add_item_accounting(o, state_item(o.state));
    crate::annotate::lemma_spec_add_item_wf(o, state_item(o.state));
}

/// Chunk-length: batches are split only at paragraph boundaries, and a batch
/// is closed only when a paragraph break has left it over the configured
/// maximum — so every batch except the last exceeds `max`, and after every
/// check the still-open batch holds at most `max` counted characters
/// (see `lemma_spec_separate`).
pub proof fn lemma_nonfinal_batches_exceed_max(n: NodeModel, rs: Seq<FunctionModel>, max: int)
    requires
        tree_wf(n),
        max >= 0,
    ensures
        forall|i: int|
            0 <= i < spec_convert_doc(n, rs, max).len() - 1 ==> (#[trigger] spec_convert_doc(
                n,
                rs,
                max,
            )[i]).original_length > max,
{
    lemma_trees_wf_children(n);
    let init = init_output();
    assert(init.batches.drop_last() =~= Seq::<crate::annotate::BatchModel>::empty());
    assert(init.batches.last() == crate::annotate::empty_batch());
    assert(output_wf(init));
    lemma_convert_doc_seq_accounting(n.children, init, rs, max);
    let o = spec_convert_doc_seq(n.children, init, rs, max);
    crate::annotate::lemma_spec_add_item_wf(o, state_item(o.state));
    let d = spec_convert_doc(n, rs, max);
    assert forall|i: int| 0 <= i < d.len() - 1 implies (#[trigger] d[i]).original_length
        > max by {
        assert(d[i] == o.batches[i]);
        assert(o.batches[i].original_length > max);
    }
}

} // verus!
