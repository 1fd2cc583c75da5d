//! The template notation and its parser.
//!
//! A template describes one element tree:
//!
//! ```text
//! node      := tag directive* block?
//! directive := '.' name '(' arg ')'
//! block     := '{' child* '}'
//! child     := node | string-literal | '(' expr ')'
//! ```
//!
//! `tag` and `name` are identifiers. A directive argument is either a string
//! literal, or raw expression text with balanced parentheses that the host
//! evaluates when the compiled procedure runs; a parenthesized child embeds
//! the element such an expression yields. A string literal runs to the next
//! double quote, with no escape sequences.

use vstd::prelude::*;

verus! {

/// A directive argument: a string literal, or raw host-expression text.
#[derive(Clone, PartialEq, Eq, Debug)]
pub enum MethodArg {
    Lit(Vec<u8>),
    Expr(Vec<u8>),
}

/// Ghost form of [`MethodArg`].
pub enum ArgView {
    Lit(Seq<u8>),
    Expr(Seq<u8>),
}

impl DeepView for MethodArg {
    type V = ArgView;

    open spec fn deep_view(&self) -> ArgView {
        match self {
            MethodArg::Lit(t) => ArgView::Lit(t@),
            MethodArg::Expr(t) => ArgView::Expr(t@),
        }
    }
}

/// A directive written `.name(arg)`.
#[derive(Clone, PartialEq, Eq, Debug)]
pub struct NodeMethod {
    pub name: Vec<u8>,
    pub arg: MethodArg,
}

/// Ghost form of [`NodeMethod`].
pub struct MethodView {
    pub name: Seq<u8>,
    pub arg: ArgView,
}

impl DeepView for NodeMethod {
    type V = MethodView;

    open spec fn deep_view(&self) -> MethodView {
        MethodView { name: self.name@, arg: self.arg.deep_view() }
    }
}

/// One child of a template node: a nested node, a string literal, or an
/// embedded host expression.
#[derive(PartialEq, Eq, Debug)]
pub enum TpChild {
    Node(TpNode),
    Text(Vec<u8>),
    Embed(Vec<u8>),
}

/// A template node: a tag, its directives in source order, and its children
/// in source order.
#[derive(PartialEq, Eq, Debug)]
pub struct TpNode {
    pub tag: Vec<u8>,
    pub methods: Vec<NodeMethod>,
    pub children: Vec<TpChild>,
}

/// Ghost form of [`TpChild`].
pub enum ChildView {
    Node(NodeView),
    Text(Seq<u8>),
    Embed(Seq<u8>),
}

/// Ghost form of [`TpNode`].
pub struct NodeView {
    pub tag: Seq<u8>,
    pub methods: Seq<MethodView>,
    pub children: Seq<ChildView>,
}

/// The ghost forms of a run of children, in order.
pub open spec fn children_view(cs: Seq<TpChild>) -> Seq<ChildView>
    decreases cs,
{
    if cs.len() == 0 {
        Seq::empty()
    } else {
        seq![cs[0].deep_view()] + children_view(cs.drop_first())
    }
}

impl DeepView for TpChild {
    type V = ChildView;

    open spec fn deep_view(&self) -> ChildView
        decreases self,
    {
        match self {
            TpChild::Node(n) => ChildView::Node(n.deep_view()),
            TpChild::Text(t) => ChildView::Text(t@),
            TpChild::Embed(t) => ChildView::Embed(t@),
        }
    }
}

impl DeepView for TpNode {
    type V = NodeView;

    open spec fn deep_view(&self) -> NodeView
        decreases self,
    {
        NodeView {
            tag: self.tag@,
            methods: Seq::new(self.methods@.len(), |i: int| self.methods@[i].deep_view()),
            children: children_view(self.children@),
        }
    }
}

/// `children_view` is the elementwise ghost form.
pub proof fn lemma_children_view(cs: Seq<TpChild>)
    ensures
        children_view(cs).len() == cs.len(),
        forall|i: int| 0 <= i < cs.len() ==> children_view(cs)[i] == (#[trigger] cs[i]).deep_view(),
    decreases cs.len(),
{
    if cs.len() > 0 {
        lemma_children_view(cs.drop_first());
        assert forall|i: int| 0 <= i < cs.len() implies children_view(cs)[i] == (
        #[trigger] cs[i]).deep_view() by {
            if i > 0 {
                assert(children_view(cs) == seq![cs[0].deep_view()] + children_view(
                    cs.drop_first(),
                ));
                assert(seq![cs[0].deep_view()].len() == 1);
                assert(children_view(cs)[i] == children_view(cs.drop_first())[i - 1]);
                assert(cs.drop_first()[i - 1] == cs[i]);
            }
        }
    }
}

/// Why a template was rejected, with the byte position of the fault.
#[derive(Clone, Copy, PartialEq, Eq, Structural, Debug)]
pub enum CompileError {
    /// An identifier was expected: a tag, a directive name, or a child.
    ExpectedIdent { at: usize },
    /// `(` was expected to open a directive argument, or `)` to close a
    /// string-literal argument.
    ExpectedParen { at: usize },
    /// A parenthesized expression has no matching `)`.
    UnterminatedArg { at: usize },
    /// A string literal has no closing `"`.
    UnterminatedText { at: usize },
    /// A block has no closing `}`.
    UnterminatedBlock { at: usize },
    /// Input continues after the root node.
    TrailingInput { at: usize },
}

pub open spec fn is_ws(b: u8) -> bool {
    b == 32 || b == 9 || b == 10 || b == 13
}

pub open spec fn is_ident_start(b: u8) -> bool {
    (97 <= b && b <= 122) || (65 <= b && b <= 90) || b == 95
}

pub open spec fn is_ident_char(b: u8) -> bool {
    is_ident_start(b) || (48 <= b && b <= 57)
}

/// The first position at or after `p` that does not hold whitespace.
pub open spec fn spec_skip_ws(s: Seq<u8>, p: nat) -> nat
    decreases s.len() - p,
{
    if p < s.len() && is_ws(s[p as int]) {
        spec_skip_ws(s, p + 1)
    } else {
        p
    }
}

/// The end of the identifier that starts at `p`.
pub open spec fn spec_scan_ident(s: Seq<u8>, p: nat) -> nat
    decreases s.len() - p,
{
    if p < s.len() && is_ident_char(s[p as int]) {
        spec_scan_ident(s, p + 1)
    } else {
        p
    }
}

/// The position of the `)` that closes the parenthesis opened just before
/// `p`, skipping `depth` still-open inner ones; `None` when the input ends
/// first.
pub open spec fn spec_scan_balanced(s: Seq<u8>, p: nat, depth: nat) -> Option<nat>
    decreases s.len() - p,
{
    if p >= s.len() {
        None
    } else if s[p as int] == 41 {
        if depth == 0 {
            Some(p)
        } else {
            spec_scan_balanced(s, p + 1, (depth - 1) as nat)
        }
    } else if s[p as int] == 40 {
        spec_scan_balanced(s, p + 1, depth + 1)
    } else {
        spec_scan_balanced(s, p + 1, depth)
    }
}

/// The position of the next `"` at or after `p`, or `None`.
pub open spec fn spec_find_quote(s: Seq<u8>, p: nat) -> Option<nat>
    decreases s.len() - p,
{
    if p >= s.len() {
        None
    } else if s[p as int] == 34 {
        Some(p)
    } else {
        spec_find_quote(s, p + 1)
    }
}

/// `p`, pushed up to at least `lo`. The parser definitions recurse through
/// it so that their termination measure visibly shrinks; the progress
/// lemmas show the push never fires.
pub open spec fn at_least(p: nat, lo: nat) -> nat {
    if p >= lo {
        p
    } else {
        lo
    }
}

/// The measure the parser recursion shrinks: input left after `p`.
pub open spec fn rest_len(s: Seq<u8>, p: nat) -> nat {
    if p <= s.len() {
        (s.len() - p) as nat
    } else {
        0
    }
}

/// Parses one directive argument list entry starting at the `(` at `pp`:
/// either a string literal closed by `")"`, or raw balanced expression
/// text. Returns the argument and the position after the closing `)`.
pub open spec fn spec_parse_arg(s: Seq<u8>, pp: nat) -> Result<(ArgView, nat), CompileError> {
    let pa = spec_skip_ws(s, pp + 1);
    if pa < s.len() && s[pa as int] == 34 {
        match spec_find_quote(s, pa + 1) {
            Some(pq) => {
                let pr = spec_skip_ws(s, pq + 1);
                if pr < s.len() && s[pr as int] == 41 {
                    Ok((ArgView::Lit(s.subrange(pa as int + 1, pq as int)), pr + 1))
                } else {
                    Err(CompileError::ExpectedParen { at: pr as usize })
                }
            },
            None => Err(CompileError::UnterminatedText { at: pa as usize }),
        }
    } else {
        match spec_scan_balanced(s, pa, 0) {
            Some(pc) => Ok((ArgView::Expr(s.subrange(pa as int, pc as int)), pc + 1)),
            None => Err(CompileError::UnterminatedArg { at: pp as usize }),
        }
    }
}

/// Parses the directives that start at `p`: a possibly empty run of
/// `.name(arg)` forms. Stops, consuming nothing further, at the first
/// position where no `.` follows.
pub open spec fn spec_parse_methods(s: Seq<u8>, p: nat) -> Result<
    (Seq<MethodView>, nat),
    CompileError,
>
    decreases rest_len(s, p), 0nat,
{
    let p0 = at_least(spec_skip_ws(s, p), p);
    if p0 < s.len() && s[p0 as int] == 46 {
        let pn = spec_skip_ws(s, p0 + 1);
        if pn < s.len() && is_ident_start(s[pn as int]) {
            let pe = spec_scan_ident(s, pn);
            let name = s.subrange(pn as int, pe as int);
            let pp = spec_skip_ws(s, pe);
            if pp < s.len() && s[pp as int] == 40 {
                match spec_parse_arg(s, pp) {
                    Ok((arg, pnext)) => {
                        match spec_parse_methods(s, at_least(pnext, p0 + 1)) {
                            Ok((rest, pend)) => Ok(
                                (seq![MethodView { name, arg }] + rest, pend),
                            ),
                            Err(e) => Err(e),
                        }
                    },
                    Err(e) => Err(e),
                }
            } else {
                Err(CompileError::ExpectedParen { at: pp as usize })
            }
        } else {
            Err(CompileError::ExpectedIdent { at: pn as usize })
        }
    } else {
        Ok((Seq::empty(), p))
    }
}

/// Parses one node starting at or after `p`: a tag identifier, its
/// directives, and an optional braced block of children.
pub open spec fn spec_parse_node(s: Seq<u8>, p: nat) -> Result<(NodeView, nat), CompileError>
    decreases rest_len(s, p), 1nat,
{
    let p0 = at_least(spec_skip_ws(s, p), p);
    if p0 < s.len() && is_ident_start(s[p0 as int]) {
        let pe = spec_scan_ident(s, p0);
        let tag = s.subrange(p0 as int, pe as int);
        match spec_parse_methods(s, at_least(pe, p0 + 1)) {
            Ok((methods, p1)) => {
                let pb = spec_skip_ws(s, p1);
                if pb < s.len() && s[pb as int] == 123 {
                    match spec_parse_children(s, at_least(pb + 1, p0 + 1)) {
                        Ok((children, p2)) => Ok((NodeView { tag, methods, children }, p2)),
                        Err(e) => Err(e),
                    }
                } else {
                    Ok((NodeView { tag, methods, children: Seq::empty() }, p1))
                }
            },
            Err(e) => Err(e),
        }
    } else {
        Err(CompileError::ExpectedIdent { at: p0 as usize })
    }
}

/// Parses the children of a block from `p` up to and over the closing `}`.
pub open spec fn spec_parse_children(s: Seq<u8>, p: nat) -> Result<
    (Seq<ChildView>, nat),
    CompileError,
>
    decreases rest_len(s, p), 2nat,
{
    let p0 = at_least(spec_skip_ws(s, p), p);
    if p0 >= s.len() {
        Err(CompileError::UnterminatedBlock { at: p0 as usize })
    } else if s[p0 as int] == 125 {
        Ok((Seq::empty(), p0 + 1))
    } else if s[p0 as int] == 40 {
        match spec_scan_balanced(s, p0 + 1, 0) {
            Some(pc) => {
                match spec_parse_children(s, at_least(pc + 1, p0 + 1)) {
                    Ok((rest, pend)) => Ok(
                        (seq![ChildView::Embed(s.subrange(p0 as int + 1, pc as int))] + rest, pend),
                    ),
                    Err(e) => Err(e),
                }
            },
            None => Err(CompileError::UnterminatedArg { at: p0 as usize }),
        }
    } else if s[p0 as int] == 34 {
        match spec_find_quote(s, p0 + 1) {
            Some(pq) => {
                match spec_parse_children(s, at_least(pq + 1, p0 + 1)) {
                    Ok((rest, pend)) => Ok(
                        (seq![ChildView::Text(s.subrange(p0 as int + 1, pq as int))] + rest, pend),
                    ),
                    Err(e) => Err(e),
                }
            },
            None => Err(CompileError::UnterminatedText { at: p0 as usize }),
        }
    } else {
        match spec_parse_node(s, p0) {
            Ok((node, p1)) => {
                match spec_parse_children(s, at_least(p1, p0 + 1)) {
                    Ok((rest, pend)) => Ok((seq![ChildView::Node(node)] + rest, pend)),
                    Err(e) => Err(e),
                }
            },
            Err(e) => Err(e),
        }
    }
}

/// Parses a whole template: one root node with nothing but whitespace after
/// it.
pub open spec fn spec_parse_template(s: Seq<u8>) -> Result<NodeView, CompileError> {
    match spec_parse_node(s, 0) {
        Ok((node, p)) => {
            let pend = spec_skip_ws(s, p);
            if pend < s.len() {
                Err(CompileError::TrailingInput { at: pend as usize })
            } else {
                Ok(node)
            }
        },
        Err(e) => Err(e),
    }
}


fn ws_byte(b: u8) -> (r: bool)
    ensures
        r == is_ws(b),
{
    b == 32 || b == 9 || b == 10 || b == 13
}

fn ident_start_byte(b: u8) -> (r: bool)
    ensures
        r == is_ident_start(b),
{
    (97 <= b && b <= 122) || (65 <= b && b <= 90) || b == 95
}

fn ident_char_byte(b: u8) -> (r: bool)
    ensures
        r == is_ident_char(b),
{
    ident_start_byte(b) || (48 <= b && b <= 57)
}

/// Exec mirror of `spec_skip_ws`.
fn skip_ws(s: &[u8], p: usize) -> (r: usize)
    requires
        p <= s@.len(),
    ensures
        r as nat == spec_skip_ws(s@, p as nat),
        p <= r <= s@.len(),
    decreases s@.len() - p,
{
    if p < s.len() && ws_byte(s[p]) {
        skip_ws(s, p + 1)
    } else {
        p
    }
}

/// Exec mirror of `spec_scan_ident`.
fn scan_ident(s: &[u8], p: usize) -> (r: usize)
    requires
        p <= s@.len(),
    ensures
        r as nat == spec_scan_ident(s@, p as nat),
        p <= r <= s@.len(),
    decreases s@.len() - p,
{
    if p < s.len() && ident_char_byte(s[p]) {
        scan_ident(s, p + 1)
    } else {
        p
    }
}

/// Exec mirror of `spec_scan_balanced`.
fn scan_balanced(s: &[u8], p: usize, depth: usize) -> (r: Option<usize>)
    requires
        depth <= p,
        p <= s@.len(),
    ensures
        ({
            let sr = spec_scan_balanced(s@, p as nat, depth as nat);
            match r {
                Some(pc) => sr == Some(pc as nat) && p <= pc && (pc as nat) < s@.len(),
                None => sr is None,
            }
        }),
    decreases s@.len() - p,
{
    if p >= s.len() {
        None
    } else if s[p] == 41 {
        if depth == 0 {
            Some(p)
        } else {
            scan_balanced(s, p + 1, depth - 1)
        }
    } else if s[p] == 40 {
        scan_balanced(s, p + 1, depth + 1)
    } else {
        scan_balanced(s, p + 1, depth)
    }
}

/// Exec mirror of `spec_find_quote`.
fn find_quote(s: &[u8], p: usize) -> (r: Option<usize>)
    requires
        p <= s@.len(),
    ensures
        ({
            let sr = spec_find_quote(s@, p as nat);
            match r {
                Some(pq) => sr == Some(pq as nat) && p <= pq && (pq as nat) < s@.len(),
                None => sr is None,
            }
        }),
    decreases s@.len() - p,
{
    if p >= s.len() {
        None
    } else if s[p] == 34 {
        Some(p)
    } else {
        find_quote(s, p + 1)
    }
}

/// Exec mirror of `spec_parse_arg`.
fn parse_arg(s: &[u8], pp: usize) -> (r: Result<(MethodArg, usize), CompileError>)
    requires
        pp < s@.len(),
    ensures
        ({
            let sr = spec_parse_arg(s@, pp as nat);
            match r {
                Ok((arg, pnext)) => {
                    &&& sr is Ok
                    &&& arg.deep_view() == sr->Ok_0.0
                    &&& pnext as nat == sr->Ok_0.1
                    &&& pp < pnext <= s@.len()
                },
                Err(e) => sr == Err::<(ArgView, nat), CompileError>(e),
            }
        }),
{
    let end = s.len();
    let pa = skip_ws(s, pp + 1);
    if pa < end && s[pa] == 34 {
        match find_quote(s, pa + 1) {
            Some(pq) => {
                let pr = skip_ws(s, pq + 1);
                if pr < end && s[pr] == 41 {
                    Ok((MethodArg::Lit(crate::bytes::copy_range(s, pa + 1, pq)), pr + 1))
                } else {
                    Err(CompileError::ExpectedParen { at: pr })
                }
            },
            None => Err(CompileError::UnterminatedText { at: pa }),
        }
    } else {
        match scan_balanced(s, pa, 0) {
            Some(pc) => Ok((MethodArg::Expr(crate::bytes::copy_range(s, pa, pc)), pc + 1)),
            None => Err(CompileError::UnterminatedArg { at: pp }),
        }
    }
}

/// Exec mirror of `spec_parse_methods`.
fn parse_methods(s: &[u8], p: usize) -> (r: Result<(Vec<NodeMethod>, usize), CompileError>)
    requires
        p <= s@.len(),
    ensures
        ({
            let sr = spec_parse_methods(s@, p as nat);
            match r {
                Ok((ms, p1)) => {
                    &&& sr is Ok
                    &&& ms.deep_view() == sr->Ok_0.0
                    &&& p1 as nat == sr->Ok_0.1
                    &&& p <= p1 <= s@.len()
                },
                Err(e) => sr == Err::<(Seq<MethodView>, nat), CompileError>(e),
            }
        }),
    decreases s@.len() - p, 0int,
{
    let p0 = skip_ws(s, p);
    if p0 < s.len() && s[p0] == 46 {
        let pn = skip_ws(s, p0 + 1);
        if pn < s.len() && ident_start_byte(s[pn]) {
            let pe = scan_ident(s, pn);
            let name = crate::bytes::copy_range(s, pn, pe);
            let pp = skip_ws(s, pe);
            if pp < s.len() && s[pp] == 40 {
                match parse_arg(s, pp) {
                    Ok((arg, pnext)) => {
                        proof {
                            assert(at_least(pnext as nat, p0 as nat + 1) == pnext as nat);
                        }
                        let ghost m = MethodView { name: name@, arg: arg.deep_view() };
                        match parse_methods(s, pnext) {
                            Ok((rest, p1)) => {
                                let ghost rest0 = rest.deep_view();
                                let mut ms = rest;
                                ms.insert(0, NodeMethod { name, arg });
                                proof {
                                    assert forall|i: int| 0 <= i < ms.deep_view().len() implies ms.deep_view()[i]
                                        == (seq![m] + rest0)[i] by {
                                        if i > 0 {
                                            assert(ms@[i] == ms@.subrange(1, ms@.len() as int)[i - 1]);
                                        }
                                    }
                                    assert(ms.deep_view() =~= seq![m] + rest0);
                                }
                                Ok((ms, p1))
                            },
                            Err(e) => Err(e),
                        }
                    },
                    Err(e) => Err(e),
                }
            } else {
                Err(CompileError::ExpectedParen { at: pp })
            }
        } else {
            Err(CompileError::ExpectedIdent { at: pn })
        }
    } else {
        Ok((Vec::new(), p))
    }
}

/// Exec mirror of `spec_parse_node`. Parses one node: tag identifier,
/// directives, optional block.
pub fn parse_node(s: &[u8], p: usize) -> (r: Result<(TpNode, usize), CompileError>)
    requires
        p <= s@.len(),
    ensures
        ({
            let sr = spec_parse_node(s@, p as nat);
            match r {
                Ok((node, p1)) => {
                    &&& sr is Ok
                    &&& node.deep_view() == sr->Ok_0.0
                    &&& p1 as nat == sr->Ok_0.1
                    &&& p <= p1 <= s@.len()
                },
                Err(e) => sr == Err::<(NodeView, nat), CompileError>(e),
            }
        }),
    decreases s@.len() - p, 1int,
{
    let end = s.len();
    let p0 = skip_ws(s, p);
    if p0 < end && ident_start_byte(s[p0]) {
        let pe = scan_ident(s, p0 + 1);
        proof {
            assert(pe as nat == spec_scan_ident(s@, p0 as nat));
            assert(at_least(pe as nat, p0 as nat + 1) == pe as nat);
        }
        let tag = crate::bytes::copy_range(s, p0, pe);
        match parse_methods(s, pe) {
            Ok((methods, p1)) => {
                let pb = skip_ws(s, p1);
                if pb < end && s[pb] == 123 {
                    proof {
                        assert(at_least(pb as nat + 1, p0 as nat + 1) == pb as nat + 1);
                    }
                    match parse_children(s, pb + 1) {
                        Ok((children, p2)) => {
                            let node = TpNode { tag, methods, children };
                            proof {
                                assert(node.deep_view().methods =~= node.methods.deep_view());
                            }
                            Ok((node, p2))
                        },
                        Err(e) => Err(e),
                    }
                } else {
                    let node = TpNode { tag, methods, children: Vec::new() };
                    proof {
                        assert(node.deep_view().methods =~= node.methods.deep_view());
                        assert(node.deep_view().children =~= Seq::<ChildView>::empty());
                    }
                    Ok((node, p1))
                }
            },
            Err(e) => Err(e),
        }
    } else {
        Err(CompileError::ExpectedIdent { at: p0 })
    }
}

/// Exec mirror of `spec_parse_children`. Parses block children up to and
/// over the closing brace.
fn parse_children(s: &[u8], p: usize) -> (r: Result<(Vec<TpChild>, usize), CompileError>)
    requires
        p <= s@.len(),
    ensures
        ({
            let sr = spec_parse_children(s@, p as nat);
            match r {
                Ok((cs, p1)) => {
                    &&& sr is Ok
                    &&& children_view(cs@) == sr->Ok_0.0
                    &&& p1 as nat == sr->Ok_0.1
                    &&& p <= p1 <= s@.len()
                },
                Err(e) => sr == Err::<(Seq<ChildView>, nat), CompileError>(e),
            }
        }),
    decreases s@.len() - p, 2int,
{
    let end = s.len();
    let p0 = skip_ws(s, p);
    if p0 >= end {
        Err(CompileError::UnterminatedBlock { at: p0 })
    } else if s[p0] == 125 {
        Ok((Vec::new(), p0 + 1))
    } else if s[p0] == 40 {
        match scan_balanced(s, p0 + 1, 0) {
            Some(pc) => {
                let text = crate::bytes::copy_range(s, p0 + 1, pc);
                proof {
                    assert(at_least(pc as nat + 1, p0 as nat + 1) == pc as nat + 1);
                }
                match parse_children(s, pc + 1) {
                    Ok((rest, p1)) => {
                        let child = TpChild::Embed(text);
                        let ghost c = child.deep_view();
                        let ghost restv = rest@;
                        let ghost rest0 = children_view(rest@);
                        let mut cs = rest;
                        cs.insert(0, child);
                        proof {
                            assert(cs@.drop_first() =~= restv);
                            lemma_push_front(cs@, c, rest0);
                        }
                        Ok((cs, p1))
                    },
                    Err(e) => Err(e),
                }
            },
            None => Err(CompileError::UnterminatedArg { at: p0 }),
        }
    } else if s[p0] == 34 {
        match find_quote(s, p0 + 1) {
            Some(pq) => {
                let text = crate::bytes::copy_range(s, p0 + 1, pq);
                proof {
                    assert(at_least(pq as nat + 1, p0 as nat + 1) == pq as nat + 1);
                }
                match parse_children(s, pq + 1) {
                    Ok((rest, p1)) => {
                        let child = TpChild::Text(text);
                        let ghost c = child.deep_view();
                        let ghost restv = rest@;
                        let ghost rest0 = children_view(rest@);
                        let mut cs = rest;
                        cs.insert(0, child);
                        proof {
                            assert(cs@.drop_first() =~= restv);
                            lemma_push_front(cs@, c, rest0);
                        }
                        Ok((cs, p1))
                    },
                    Err(e) => Err(e),
                }
            },
            None => Err(CompileError::UnterminatedText { at: p0 }),
        }
    } else {
        match parse_node(s, p0) {
            Ok((node, p1)) => {
                let pnext = if p1 > p0 {
                    p1
                } else {
                    p0 + 1
                };
                proof {
                    assert(at_least(p1 as nat, p0 as nat + 1) == pnext as nat);
                }
                match parse_children(s, pnext) {
                    Ok((rest, p2)) => {
                        let child = TpChild::Node(node);
                        let ghost c = child.deep_view();
                        let ghost restv = rest@;
                        let ghost rest0 = children_view(rest@);
                        let mut cs = rest;
                        cs.insert(0, child);
                        proof {
                            assert(cs@.drop_first() =~= restv);
                            lemma_push_front(cs@, c, rest0);
                        }
                        Ok((cs, p2))
                    },
                    Err(e) => Err(e),
                }
            },
            Err(e) => Err(e),
        }
    }
}

/// A run of children starting with `c` views as `c` in front of the rest.
proof fn lemma_push_front(cs: Seq<TpChild>, c: ChildView, rest0: Seq<ChildView>)
    requires
        cs.len() >= 1,
        cs[0].deep_view() == c,
        children_view(cs.drop_first()) == rest0,
    ensures
        children_view(cs) == seq![c] + rest0,
{
    assert(children_view(cs) =~= seq![c] + rest0);
}

/// Parses a whole template: one root node, with nothing but whitespace
/// after it.
pub fn parse_template(s: &[u8]) -> (r: Result<TpNode, CompileError>)
    ensures
        ({
            let sr = spec_parse_template(s@);
            match r {
                Ok(node) => sr is Ok && node.deep_view() == sr->Ok_0,
                Err(e) => sr == Err::<NodeView, CompileError>(e),
            }
        }),
{
    match parse_node(s, 0) {
        Ok((node, p)) => {
            let pend = skip_ws(s, p);
            if pend < s.len() {
                Err(CompileError::TrailingInput { at: pend })
            } else {
                Ok(node)
            }
        },
        Err(e) => Err(e),
    }
}

} // verus!
