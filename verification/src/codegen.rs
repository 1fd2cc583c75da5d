//! The code generator: from a parsed template to the sequence of
//! tree-construction operations its compiled procedure performs.
//!
//! Compiling a node emits, in order: one creation operation for its tag;
//! one operation per directive, in source order; then, for each child in
//! declared order, the child's own operations followed by the operation
//! that appends it to its parent. Nodes are numbered in that same order,
//! the root taking the number the caller supplies.

use vstd::prelude::*;

use crate::template::{ArgView, ChildView, CompileError, MethodArg, MethodView, NodeMethod, NodeView, TpChild,
    TpNode, at_least, children_view, lemma_children_view, rest_len, spec_find_quote,
    spec_parse_arg, spec_parse_children, spec_parse_methods, spec_parse_node, spec_scan_balanced,
    spec_scan_ident, spec_skip_ws};

verus! {

/// The event families a listener can be attached for.
#[derive(Clone, Copy, PartialEq, Eq, Structural, Debug)]
pub enum EventKind {
    Click,
    Input,
    Keydown,
}

/// One tree-construction operation of a compiled procedure. Nodes are named
/// by the numbers their creation operations carry.
#[derive(PartialEq, Eq, Debug)]
pub enum Op {
    Create { id: usize, tag: Vec<u8> },
    SetText { id: usize, value: MethodArg },
    SetClass { id: usize, value: MethodArg },
    SetStyle { id: usize, value: MethodArg },
    SetAttr { id: usize, name: Vec<u8>, value: MethodArg },
    Listen { id: usize, event: EventKind, handler: MethodArg },
    AppendChild { parent: usize, child: usize },
    AppendText { parent: usize, text: Vec<u8> },
    AppendEmbed { parent: usize, expr: Vec<u8> },
}

/// Ghost form of [`Op`].
pub enum OpView {
    Create { id: nat, tag: Seq<u8> },
    SetText { id: nat, value: ArgView },
    SetClass { id: nat, value: ArgView },
    SetStyle { id: nat, value: ArgView },
    SetAttr { id: nat, name: Seq<u8>, value: ArgView },
    Listen { id: nat, event: EventKind, handler: ArgView },
    AppendChild { parent: nat, child: nat },
    AppendText { parent: nat, text: Seq<u8> },
    AppendEmbed { parent: nat, expr: Seq<u8> },
}

impl DeepView for Op {
    type V = OpView;

    open spec fn deep_view(&self) -> OpView {
        match self {
            Op::Create { id, tag } => OpView::Create { id: *id as nat, tag: tag@ },
            Op::SetText { id, value } => OpView::SetText {
                id: *id as nat,
                value: value.deep_view(),
            },
            Op::SetClass { id, value } => OpView::SetClass {
                id: *id as nat,
                value: value.deep_view(),
            },
            Op::SetStyle { id, value } => OpView::SetStyle {
                id: *id as nat,
                value: value.deep_view(),
            },
            Op::SetAttr { id, name, value } => OpView::SetAttr {
                id: *id as nat,
                name: name@,
                value: value.deep_view(),
            },
            Op::Listen { id, event, handler } => OpView::Listen {
                id: *id as nat,
                event: *event,
                handler: handler.deep_view(),
            },
            Op::AppendChild { parent, child } => OpView::AppendChild {
                parent: *parent as nat,
                child: *child as nat,
            },
            Op::AppendText { parent, text } => OpView::AppendText {
                parent: *parent as nat,
                text: text@,
            },
            Op::AppendEmbed { parent, expr } => OpView::AppendEmbed {
                parent: *parent as nat,
                expr: expr@,
            },
        }
    }
}

/// The ghost forms of a run of operations, in order.
pub open spec fn ops_view(s: Seq<Op>) -> Seq<OpView> {
    Seq::new(s.len(), |i: int| s[i].deep_view())
}

pub open spec fn lit_text() -> Seq<u8> {
    seq![116u8, 101u8, 120u8, 116u8]
}

pub open spec fn lit_class() -> Seq<u8> {
    seq![99u8, 108u8, 97u8, 115u8, 115u8]
}

pub open spec fn lit_style() -> Seq<u8> {
    seq![115u8, 116u8, 121u8, 108u8, 101u8]
}

pub open spec fn lit_onclick() -> Seq<u8> {
    seq![111u8, 110u8, 99u8, 108u8, 105u8, 99u8, 107u8]
}

pub open spec fn lit_oninput() -> Seq<u8> {
    seq![111u8, 110u8, 105u8, 110u8, 112u8, 117u8, 116u8]
}

pub open spec fn lit_onkeydown() -> Seq<u8> {
    seq![111u8, 110u8, 107u8, 101u8, 121u8, 100u8, 111u8, 119u8, 110u8]
}

/// Resolves one directive against node `id`: the fixed, case-sensitive
/// table maps `text`, `class` and `style` to their dedicated operations and
/// `onclick`, `oninput` and `onkeydown` to listener attachment; every other
/// name, `id`, `placeholder` and `value` among them, becomes a generic
/// attribute assignment carrying the directive name verbatim.
pub open spec fn spec_resolve(id: nat, m: MethodView) -> OpView {
    if m.name == lit_text() {
        OpView::SetText { id, value: m.arg }
    } else if m.name == lit_class() {
        OpView::SetClass { id, value: m.arg }
    } else if m.name == lit_style() {
        OpView::SetStyle { id, value: m.arg }
    } else if m.name == lit_onclick() {
        OpView::Listen { id, event: EventKind::Click, handler: m.arg }
    } else if m.name == lit_oninput() {
        OpView::Listen { id, event: EventKind::Input, handler: m.arg }
    } else if m.name == lit_onkeydown() {
        OpView::Listen { id, event: EventKind::Keydown, handler: m.arg }
    } else {
        OpView::SetAttr { id, name: m.name, value: m.arg }
    }
}

/// A directive whose name is not in the resolution table always becomes a
/// generic attribute assignment of that very name and its argument;
/// resolution never fails.
pub proof fn lemma_unknown_directive_is_attribute(id: nat, m: MethodView)
    requires
        m.name != lit_text(),
        m.name != lit_class(),
        m.name != lit_style(),
        m.name != lit_onclick(),
        m.name != lit_oninput(),
        m.name != lit_onkeydown(),
    ensures
        spec_resolve(id, m) == (OpView::SetAttr { id, name: m.name, value: m.arg }),
{
}

/// How many nodes a template node describes: itself and all descendants.
pub open spec fn node_count(n: NodeView) -> nat
    decreases n,
{
    1 + children_count(n.children)
}

/// How many nodes a run of children describes.
pub open spec fn children_count(cs: Seq<ChildView>) -> nat
    decreases cs,
{
    if cs.len() == 0 {
        0
    } else {
        child_count(cs[0]) + children_count(cs.drop_first())
    }
}

/// How many nodes one child describes; text and embedded children describe
/// none.
pub open spec fn child_count(c: ChildView) -> nat
    decreases c,
{
    match c {
        ChildView::Node(n) => node_count(n),
        ChildView::Text(_) => 0,
        ChildView::Embed(_) => 0,
    }
}

/// How many directives a template node carries, descendants included.
pub open spec fn method_count(n: NodeView) -> nat
    decreases n,
{
    n.methods.len() + children_method_count(n.children)
}

pub open spec fn children_method_count(cs: Seq<ChildView>) -> nat
    decreases cs,
{
    if cs.len() == 0 {
        0
    } else {
        child_method_count(cs[0]) + children_method_count(cs.drop_first())
    }
}

pub open spec fn child_method_count(c: ChildView) -> nat
    decreases c,
{
    match c {
        ChildView::Node(n) => method_count(n),
        ChildView::Text(_) => 0,
        ChildView::Embed(_) => 0,
    }
}

/// The operations that resolve a node's directives, in source order.
pub open spec fn methods_ops(ms: Seq<MethodView>, id: nat) -> Seq<OpView> {
    Seq::new(ms.len(), |i: int| spec_resolve(id, ms[i]))
}

/// The operations a compiled node performs: create, directives in order,
/// then each child in declared order, appended before the next child is
/// processed. `id` is the node's number; descendants take the numbers after
/// it, in this same order.
pub open spec fn spec_ops(n: NodeView, id: nat) -> Seq<OpView>
    decreases n,
{
    seq![OpView::Create { id, tag: n.tag }] + methods_ops(n.methods, id) + children_ops(
        n.children,
        id,
        id + 1,
    )
}

/// The operations of a run of children of the node numbered `parent`, with
/// `next` the first free node number.
pub open spec fn children_ops(cs: Seq<ChildView>, parent: nat, next: nat) -> Seq<OpView>
    decreases cs,
{
    if cs.len() == 0 {
        Seq::empty()
    } else {
        child_ops(cs[0], parent, next) + children_ops(
            cs.drop_first(),
            parent,
            next + child_count(cs[0]),
        )
    }
}

/// The operations of one child: a nested node compiles in full and is then
/// appended; a string literal appends a text node; an embedded expression
/// is appended as the element it yields.
pub open spec fn child_ops(c: ChildView, parent: nat, next: nat) -> Seq<OpView>
    decreases c,
{
    match c {
        ChildView::Node(n) => spec_ops(n, next) + seq![
            OpView::AppendChild { parent, child: next },
        ],
        ChildView::Text(t) => seq![OpView::AppendText { parent, text: t }],
        ChildView::Embed(e) => seq![OpView::AppendEmbed { parent, expr: e }],
    }
}

/// How many creation operations a run holds.
pub open spec fn count_creates(ops: Seq<OpView>) -> nat
    decreases ops.len(),
{
    if ops.len() == 0 {
        0
    } else {
        (if ops[0] is Create {
            1nat
        } else {
            0nat
        }) + count_creates(ops.drop_first())
    }
}

/// Whether an operation resolves a directive: text, class, style, a
/// listener, or a generic attribute assignment.
pub open spec fn is_directive_op(op: OpView) -> bool {
    match op {
        OpView::SetText { .. } => true,
        OpView::SetClass { .. } => true,
        OpView::SetStyle { .. } => true,
        OpView::SetAttr { .. } => true,
        OpView::Listen { .. } => true,
        _ => false,
    }
}

/// How many directive-resolved operations a run holds.
pub open spec fn count_directives(ops: Seq<OpView>) -> nat
    decreases ops.len(),
{
    if ops.len() == 0 {
        0
    } else {
        (if is_directive_op(ops[0]) {
            1nat
        } else {
            0nat
        }) + count_directives(ops.drop_first())
    }
}

/// Both counts distribute over concatenation.
pub proof fn lemma_counts_add(a: Seq<OpView>, b: Seq<OpView>)
    ensures
        count_creates(a + b) == count_creates(a) + count_creates(b),
        count_directives(a + b) == count_directives(a) + count_directives(b),
    decreases a.len(),
{
    if a.len() == 0 {
        assert(a + b =~= b);
    } else {
        assert((a + b).drop_first() =~= a.drop_first() + b);
        lemma_counts_add(a.drop_first(), b);
    }
}

/// The counts of a single operation.
proof fn lemma_counts_singleton(op: OpView)
    ensures
        count_creates(seq![op]) == (if op is Create {
            1nat
        } else {
            0nat
        }),
        count_directives(seq![op]) == (if is_directive_op(op) {
            1nat
        } else {
            0nat
        }),
{
    assert(seq![op].drop_first() =~= Seq::<OpView>::empty());
    assert(count_creates(Seq::<OpView>::empty()) == 0);
    assert(count_directives(Seq::<OpView>::empty()) == 0);
}

/// Resolving a run of directives yields one directive operation each and
/// no creation.
proof fn lemma_methods_ops_counts(ms: Seq<MethodView>, id: nat)
    ensures
        count_creates(methods_ops(ms, id)) == 0,
        count_directives(methods_ops(ms, id)) == ms.len(),
    decreases ms.len(),
{
    if ms.len() > 0 {
        lemma_methods_ops_counts(ms.drop_first(), id);
        assert(methods_ops(ms, id).drop_first() =~= methods_ops(ms.drop_first(), id));
    }
}

/// Compiling a template with `k` directives and `n` nodes in all emits
/// exactly `n` creation operations and exactly `k` directive-resolved
/// operations; their order is fixed by `spec_ops` itself: source order,
/// each child completed and appended before its parent's remaining
/// children.
pub proof fn lemma_compile_counts(n: NodeView, id: nat)
    ensures
        count_creates(spec_ops(n, id)) == node_count(n),
        count_directives(spec_ops(n, id)) == method_count(n),
    decreases n,
{
    let create = seq![OpView::Create { id, tag: n.tag }];
    lemma_counts_add(create, methods_ops(n.methods, id));
    lemma_counts_add(
        create + methods_ops(n.methods, id),
        children_ops(n.children, id, id + 1),
    );
    lemma_methods_ops_counts(n.methods, id);
    lemma_children_ops_counts(n.children, id, id + 1);
    lemma_counts_singleton(OpView::Create { id, tag: n.tag });
}

proof fn lemma_children_ops_counts(cs: Seq<ChildView>, parent: nat, next: nat)
    ensures
        count_creates(children_ops(cs, parent, next)) == children_count(cs),
        count_directives(children_ops(cs, parent, next)) == children_method_count(cs),
    decreases cs,
{
    if cs.len() > 0 {
        lemma_child_ops_counts(cs[0], parent, next);
        lemma_children_ops_counts(cs.drop_first(), parent, next + child_count(cs[0]));
        lemma_counts_add(
            child_ops(cs[0], parent, next),
            children_ops(cs.drop_first(), parent, next + child_count(cs[0])),
        );
    }
}

proof fn lemma_child_ops_counts(c: ChildView, parent: nat, next: nat)
    ensures
        count_creates(child_ops(c, parent, next)) == child_count(c),
        count_directives(child_ops(c, parent, next)) == child_method_count(c),
    decreases c,
{
    match c {
        ChildView::Node(n) => {
            lemma_compile_counts(n, next);
            lemma_counts_add(spec_ops(n, next), seq![OpView::AppendChild { parent, child: next }]);
            lemma_counts_singleton(OpView::AppendChild { parent, child: next });
        },
        ChildView::Text(t) => {
            lemma_counts_singleton(OpView::AppendText { parent, text: t });
        },
        ChildView::Embed(e) => {
            lemma_counts_singleton(OpView::AppendEmbed { parent, expr: e });
        },
    }
}

fn text_pattern() -> (v: Vec<u8>)
    ensures
        v@ == lit_text(),
{
    let mut v: Vec<u8> = Vec::new();
    v.push(116);
    v.push(101);
    v.push(120);
    v.push(116);
    proof {
        assert(v@ =~= lit_text());
    }
    v
}

fn class_pattern() -> (v: Vec<u8>)
    ensures
        v@ == lit_class(),
{
    let mut v: Vec<u8> = Vec::new();
    v.push(99);
    v.push(108);
    v.push(97);
    v.push(115);
    v.push(115);
    proof {
        assert(v@ =~= lit_class());
    }
    v
}

fn style_pattern() -> (v: Vec<u8>)
    ensures
        v@ == lit_style(),
{
    let mut v: Vec<u8> = Vec::new();
    v.push(115);
    v.push(116);
    v.push(121);
    v.push(108);
    v.push(101);
    proof {
        assert(v@ =~= lit_style());
    }
    v
}

fn onclick_pattern() -> (v: Vec<u8>)
    ensures
        v@ == lit_onclick(),
{
    let mut v: Vec<u8> = Vec::new();
    v.push(111);
    v.push(110);
    v.push(99);
    v.push(108);
    v.push(105);
    v.push(99);
    v.push(107);
    proof {
        assert(v@ =~= lit_onclick());
    }
    v
}

fn oninput_pattern() -> (v: Vec<u8>)
    ensures
        v@ == lit_oninput(),
{
    let mut v: Vec<u8> = Vec::new();
    v.push(111);
    v.push(110);
    v.push(105);
    v.push(110);
    v.push(112);
    v.push(117);
    v.push(116);
    proof {
        assert(v@ =~= lit_oninput());
    }
    v
}

fn onkeydown_pattern() -> (v: Vec<u8>)
    ensures
        v@ == lit_onkeydown(),
{
    let mut v: Vec<u8> = Vec::new();
    v.push(111);
    v.push(110);
    v.push(107);
    v.push(101);
    v.push(121);
    v.push(100);
    v.push(111);
    v.push(119);
    v.push(110);
    proof {
        assert(v@ =~= lit_onkeydown());
    }
    v
}

/// Resolves one directive into the operation it performs on node `id`;
/// exactly the table `spec_resolve` states, unknown names falling back to
/// a generic attribute assignment.
pub fn resolve_method(id: usize, m: NodeMethod) -> (op: Op)
    ensures
        op.deep_view() == spec_resolve(id as nat, m.deep_view()),
{
    let name_slice = m.name.as_slice();
    if crate::bytes::bytes_eq(name_slice, text_pattern().as_slice()) {
        Op::SetText { id, value: m.arg }
    } else if crate::bytes::bytes_eq(name_slice, class_pattern().as_slice()) {
        Op::SetClass { id, value: m.arg }
    } else if crate::bytes::bytes_eq(name_slice, style_pattern().as_slice()) {
        Op::SetStyle { id, value: m.arg }
    } else if crate::bytes::bytes_eq(name_slice, onclick_pattern().as_slice()) {
        Op::Listen { id, event: EventKind::Click, handler: m.arg }
    } else if crate::bytes::bytes_eq(name_slice, oninput_pattern().as_slice()) {
        Op::Listen { id, event: EventKind::Input, handler: m.arg }
    } else if crate::bytes::bytes_eq(name_slice, onkeydown_pattern().as_slice()) {
        Op::Listen { id, event: EventKind::Keydown, handler: m.arg }
    } else {
        Op::SetAttr { id, name: m.name, value: m.arg }
    }
}

/// Appending one operation appends its ghost form.
proof fn lemma_ops_view_push(pre: Seq<Op>, op: Op)
    ensures
        ops_view(pre.push(op)) == ops_view(pre) + seq![op.deep_view()],
{
    assert(ops_view(pre.push(op)) =~= ops_view(pre) + seq![op.deep_view()]);
}

/// The node count of a run of children splits at any point.
proof fn lemma_children_count_split(cs: Seq<ChildView>, j: int)
    requires
        0 <= j <= cs.len(),
    ensures
        children_count(cs) == children_count(cs.take(j)) + children_count(cs.skip(j)),
    decreases j,
{
    if j == 0 {
        assert(cs.take(0) =~= Seq::<ChildView>::empty());
        assert(cs.skip(0) =~= cs);
    } else {
        lemma_children_count_split(cs.drop_first(), j - 1);
        assert(cs.take(j)[0] == cs[0]);
        assert(cs.take(j).drop_first() =~= cs.drop_first().take(j - 1));
        assert(cs.skip(j) =~= cs.drop_first().skip(j - 1));
    }
}

/// Extending the compiled prefix of a run of children by one child appends
/// exactly that child's operations, numbered from the first free number.
proof fn lemma_children_take_snoc(cs: Seq<ChildView>, j: int, parent: nat, next: nat)
    requires
        0 <= j < cs.len(),
    ensures
        children_count(cs.take(j + 1)) == children_count(cs.take(j)) + child_count(cs[j]),
        children_ops(cs.take(j + 1), parent, next) == children_ops(cs.take(j), parent, next)
            + child_ops(cs[j], parent, next + children_count(cs.take(j))),
    decreases j,
{
    if j == 0 {
        assert(cs.take(1)[0] == cs[0]);
        assert(cs.take(1).drop_first() =~= Seq::<ChildView>::empty());
        assert(cs.take(0) =~= Seq::<ChildView>::empty());
        assert(children_ops(cs.take(1).drop_first(), parent, next + child_count(cs[0]))
            == Seq::<OpView>::empty());
        assert(child_ops(cs[0], parent, next) + Seq::<OpView>::empty() =~= child_ops(
            cs[0],
            parent,
            next,
        ));
        assert(children_ops(cs.take(1), parent, next) =~= child_ops(cs[0], parent, next));
        assert(children_ops(cs.take(1), parent, next) == children_ops(cs.take(0), parent, next)
            + child_ops(cs[0], parent, next + children_count(cs.take(0)))) by {
            assert(children_ops(cs.take(0), parent, next) + child_ops(cs[0], parent, next) =~= child_ops(cs[0], parent, next));
        }
    } else {
        let d = cs.drop_first();
        lemma_children_take_snoc(d, j - 1, parent, next + child_count(cs[0]));
        assert(cs.take(j + 1)[0] == cs[0]);
        assert(cs.take(j)[0] == cs[0]);
        assert(cs.take(j + 1).drop_first() =~= d.take(j));
        assert(cs.take(j).drop_first() =~= d.take(j - 1));
        assert(d[j - 1] == cs[j]);
        assert(children_ops(cs.take(j + 1), parent, next) == child_ops(cs[0], parent, next)
            + children_ops(d.take(j), parent, next + child_count(cs[0])));
        assert(children_ops(cs.take(j), parent, next) == child_ops(cs[0], parent, next)
            + children_ops(d.take(j - 1), parent, next + child_count(cs[0])));
        assert(children_ops(cs.take(j + 1), parent, next) =~= (children_ops(cs.take(j), parent, next)
            + child_ops(cs[j], parent, next + children_count(cs.take(j)))));
    }
}

/// A fresh copy of a directive.
fn clone_method(m: &NodeMethod) -> (r: NodeMethod)
    ensures
        r.deep_view() == m.deep_view(),
{
    let name = crate::bytes::clone_bytes(&m.name);
    let arg = match &m.arg {
        MethodArg::Lit(t) => MethodArg::Lit(crate::bytes::clone_bytes(t)),
        MethodArg::Expr(t) => MethodArg::Expr(crate::bytes::clone_bytes(t)),
    };
    NodeMethod { name, arg }
}

/// Compiles one node onto the end of `ops`: exactly the operations
/// `spec_ops` states, with the node numbered `id` and its descendants
/// numbered after it in emission order. Returns the next free number.
pub fn generate_node(node: &TpNode, id: usize, ops: &mut Vec<Op>) -> (next: usize)
    requires
        id as nat + node_count(node.deep_view()) <= usize::MAX,
    ensures
        ops_view(final(ops)@) == ops_view(old(ops)@) + spec_ops(node.deep_view(), id as nat),
        next as nat == id as nat + node_count(node.deep_view()),
    decreases *node,
{
    let ghost base = ops_view(ops@);
    let ghost ndv = node.deep_view();
    let ghost create = OpView::Create { id: id as nat, tag: ndv.tag };
    let tag = crate::bytes::clone_bytes(&node.tag);
    proof {
        lemma_ops_view_push(ops@, Op::Create { id, tag: tag });
    }
    let op0 = Op::Create { id, tag };
    proof {
        assert(op0.deep_view() == create);
    }
    ops.push(op0);
    let mut i: usize = 0;
    while i < node.methods.len()
        invariant
            i <= node.methods@.len(),
            ndv == node.deep_view(),
            ops_view(ops@) == base + seq![create] + methods_ops(
                ndv.methods.take(i as int),
                id as nat,
            ),
        decreases node.methods@.len() - i,
    {
        let m = clone_method(&node.methods[i]);
        let op = resolve_method(id, m);
        let ghost pre = ops@;
        ops.push(op);
        proof {
            lemma_ops_view_push(pre, op);
            assert(ndv.methods[i as int] == node.methods@[i as int].deep_view());
            assert(methods_ops(ndv.methods.take(i as int + 1), id as nat) =~= methods_ops(
                ndv.methods.take(i as int),
                id as nat,
            ) + seq![spec_resolve(id as nat, ndv.methods[i as int])]);
            assert(ops_view(ops@) =~= base + seq![create] + methods_ops(
                ndv.methods.take(i as int + 1),
                id as nat,
            ));
        }
        i += 1;
    }
    proof {
        assert(ndv.methods.take(node.methods@.len() as int) =~= ndv.methods);
    }
    let mut next_id: usize = id + 1;
    let mut j: usize = 0;
    while j < node.children.len()
        invariant
            j <= node.children@.len(),
            ndv == node.deep_view(),
            id as nat + node_count(ndv) <= usize::MAX,
            ops_view(ops@) == base + seq![create] + methods_ops(ndv.methods, id as nat)
                + children_ops(ndv.children.take(j as int), id as nat, id as nat + 1),
            next_id as nat == id as nat + 1 + children_count(ndv.children.take(j as int)),
        decreases node.children@.len() - j,
    {
        proof {
            lemma_children_view(node.children@);
            lemma_children_take_snoc(ndv.children, j as int, id as nat, id as nat + 1);
            lemma_children_count_split(ndv.children, j as int + 1);
            assert(children_count(ndv.children.take(j as int + 1)) <= children_count(ndv.children));
        }
        let ghost cdvj = ndv.children[j as int];
        match &node.children[j] {
            TpChild::Node(child) => {
                proof {
                    assert(cdvj == ChildView::Node(child.deep_view()));
                    assert(child_count(cdvj) == node_count(child.deep_view()));
                    assert(decreases_to!(*node => *child)) by {
                        assert(decreases_to!(*node => node.children));
                        assert(decreases_to!(node.children => node.children@));
                        assert(decreases_to!(node.children@ => node.children@[j as int]));
                        assert(decreases_to!(node.children@[j as int] => *child));
                    }
                }
                let n2 = generate_node(child, next_id, ops);
                let op = Op::AppendChild { parent: id, child: next_id };
                let ghost pre = ops@;
                ops.push(op);
                proof {
                    lemma_ops_view_push(pre, op);
                    assert(child_ops(cdvj, id as nat, next_id as nat) == spec_ops(
                        child.deep_view(),
                        next_id as nat,
                    ) + seq![OpView::AppendChild { parent: id as nat, child: next_id as nat }]);
                    assert(ops_view(ops@) =~= base + seq![create] + methods_ops(ndv.methods, id as nat)
                        + children_ops(ndv.children.take(j as int + 1), id as nat, id as nat + 1));
                }
                next_id = n2;
            },
            TpChild::Text(t) => {
                let op = Op::AppendText { parent: id, text: crate::bytes::clone_bytes(t) };
                let ghost pre = ops@;
                ops.push(op);
                proof {
                    lemma_ops_view_push(pre, op);
                    assert(cdvj == ChildView::Text(t@));
                    assert(child_ops(cdvj, id as nat, next_id as nat) =~= seq![op.deep_view()]);
                    assert(ops_view(ops@) =~= base + seq![create] + methods_ops(ndv.methods, id as nat)
                        + children_ops(ndv.children.take(j as int + 1), id as nat, id as nat + 1));
                }
            },
            TpChild::Embed(e) => {
                let op = Op::AppendEmbed { parent: id, expr: crate::bytes::clone_bytes(e) };
                let ghost pre = ops@;
                ops.push(op);
                proof {
                    lemma_ops_view_push(pre, op);
                    assert(cdvj == ChildView::Embed(e@));
                    assert(child_ops(cdvj, id as nat, next_id as nat) =~= seq![op.deep_view()]);
                    assert(ops_view(ops@) =~= base + seq![create] + methods_ops(ndv.methods, id as nat)
                        + children_ops(ndv.children.take(j as int + 1), id as nat, id as nat + 1));
                }
            },
        }
        j += 1;
    }
    proof {
        lemma_children_view(node.children@);
        assert(ndv.children.take(node.children@.len() as int) =~= ndv.children);
        assert(ops_view(ops@) =~= ops_view(old(ops)@) + spec_ops(ndv, id as nat));
    }
    next_id
}

/// Whitespace skipping never moves backward, nor past the end.
proof fn lemma_skip_ws_bounds(s: Seq<u8>, p: nat)
    requires
        p <= s.len(),
    ensures
        p <= spec_skip_ws(s, p) <= s.len(),
    decreases s.len() - p,
{
    if p < s.len() && crate::template::is_ws(s[p as int]) {
        lemma_skip_ws_bounds(s, p + 1);
    }
}

/// Identifier scanning never moves backward, nor past the end.
proof fn lemma_scan_ident_bounds(s: Seq<u8>, p: nat)
    requires
        p <= s.len(),
    ensures
        p <= spec_scan_ident(s, p) <= s.len(),
    decreases s.len() - p,
{
    if p < s.len() && crate::template::is_ident_char(s[p as int]) {
        lemma_scan_ident_bounds(s, p + 1);
    }
}

/// A found closing parenthesis lies at or after the start, inside the
/// input.
proof fn lemma_scan_balanced_bounds(s: Seq<u8>, p: nat, depth: nat)
    requires
        p <= s.len(),
    ensures
        (spec_scan_balanced(s, p, depth) matches Some(pc) ==> p <= pc && pc < s.len()),
    decreases s.len() - p,
{
    if p < s.len() {
        if s[p as int] == 41 && depth == 0 {
        } else if s[p as int] == 41 {
            lemma_scan_balanced_bounds(s, p + 1, (depth - 1) as nat);
        } else if s[p as int] == 40 {
            lemma_scan_balanced_bounds(s, p + 1, depth + 1);
        } else {
            lemma_scan_balanced_bounds(s, p + 1, depth);
        }
    }
}

/// A found quote lies at or after the start, inside the input.
proof fn lemma_find_quote_bounds(s: Seq<u8>, p: nat)
    requires
        p <= s.len(),
    ensures
        (spec_find_quote(s, p) matches Some(pq) ==> p <= pq && pq < s.len()),
    decreases s.len() - p,
{
    if p < s.len() && s[p as int] != 34 {
        lemma_find_quote_bounds(s, p + 1);
    }
}

/// A parsed argument ends after the parenthesis that opened it, inside the
/// input.
proof fn lemma_parse_arg_bounds(s: Seq<u8>, pp: nat)
    requires
        pp < s.len(),
    ensures
        (spec_parse_arg(s, pp) matches Ok(r) ==> pp < r.1 && r.1 <= s.len()),
{
    lemma_skip_ws_bounds(s, pp + 1);
    let pa = spec_skip_ws(s, pp + 1);
    if pa < s.len() && s[pa as int] == 34 {
        lemma_find_quote_bounds(s, pa + 1);
        match spec_find_quote(s, pa + 1) {
            Some(pq) => {
                lemma_skip_ws_bounds(s, pq + 1);
            },
            None => {},
        }
    } else {
        lemma_scan_balanced_bounds(s, pa, 0);
    }
}

/// A parsed run of directives ends at or after where it began, inside the
/// input.
proof fn lemma_parse_methods_bounds(s: Seq<u8>, p: nat)
    requires
        p <= s.len(),
    ensures
        (spec_parse_methods(s, p) matches Ok(r) ==> p <= r.1 && r.1 <= s.len()),
    decreases rest_len(s, p), 0nat,
{
    lemma_skip_ws_bounds(s, p);
    let p0 = at_least(spec_skip_ws(s, p), p);
    if p0 < s.len() && s[p0 as int] == 46 {
        lemma_skip_ws_bounds(s, p0 + 1);
        let pn = spec_skip_ws(s, p0 + 1);
        if pn < s.len() && crate::template::is_ident_start(s[pn as int]) {
            lemma_scan_ident_bounds(s, pn);
            let pe = spec_scan_ident(s, pn);
            lemma_skip_ws_bounds(s, pe);
            let pp = spec_skip_ws(s, pe);
            if pp < s.len() && s[pp as int] == 40 {
                lemma_parse_arg_bounds(s, pp);
                match spec_parse_arg(s, pp) {
                    Ok((arg, pnext)) => {
                        lemma_parse_methods_bounds(s, at_least(pnext, p0 + 1));
                    },
                    Err(_) => {},
                }
            }
        }
    }
}

/// Prepending one child adds its own node count.
proof fn lemma_children_count_cons(c: ChildView, rest: Seq<ChildView>)
    ensures
        children_count(seq![c] + rest) == child_count(c) + children_count(rest),
{
    assert((seq![c] + rest)[0] == c);
    assert((seq![c] + rest).drop_first() =~= rest);
    assert(children_count(seq![c] + rest) == child_count((seq![c] + rest)[0]) + children_count(
        (seq![c] + rest).drop_first(),
    ));
}

/// A parsed node spans at least one byte, and describes no more nodes than
/// the bytes it spans: each node consumes at least its tag.
pub proof fn lemma_parse_node_size(s: Seq<u8>, p: nat)
    requires
        p <= s.len(),
    ensures
        (spec_parse_node(s, p) matches Ok(r) ==> p < r.1 && r.1 <= s.len() && node_count(r.0)
            <= r.1 - p),
    decreases rest_len(s, p), 1nat,
{
    lemma_skip_ws_bounds(s, p);
    let p0 = at_least(spec_skip_ws(s, p), p);
    if p0 < s.len() && crate::template::is_ident_start(s[p0 as int]) {
        lemma_scan_ident_bounds(s, p0 + 1);
        let pe = spec_scan_ident(s, p0);
        assert(pe == spec_scan_ident(s, p0 + 1));
        lemma_parse_methods_bounds(s, at_least(pe, p0 + 1));
        match spec_parse_methods(s, at_least(pe, p0 + 1)) {
            Ok((methods, p1)) => {
                lemma_skip_ws_bounds(s, p1);
                let pb = spec_skip_ws(s, p1);
                if pb < s.len() && s[pb as int] == 123 {
                    lemma_parse_children_size(s, at_least(pb + 1, p0 + 1));
                    match spec_parse_children(s, at_least(pb + 1, p0 + 1)) {
                        Ok((children, p2)) => {
                            assert(node_count(NodeView { tag: s.subrange(p0 as int, pe as int), methods, children })
                                == 1 + children_count(children));
                        },
                        Err(_) => {},
                    }
                } else {
                    let children = Seq::<ChildView>::empty();
                    assert(children_count(children) == 0);
                    assert(node_count(NodeView { tag: s.subrange(p0 as int, pe as int), methods, children }) == 1);
                }
            },
            Err(_) => {},
        }
    }
}

/// A parsed run of children ends past its closing brace; the children
/// describe fewer nodes than the bytes before that brace.
proof fn lemma_parse_children_size(s: Seq<u8>, p: nat)
    requires
        p <= s.len(),
    ensures
        (spec_parse_children(s, p) matches Ok(r) ==> p < r.1 && r.1 <= s.len() && children_count(
            r.0,
        ) + 1 <= r.1 - p),
    decreases rest_len(s, p), 2nat,
{
    lemma_skip_ws_bounds(s, p);
    let p0 = at_least(spec_skip_ws(s, p), p);
    if p0 >= s.len() {
    } else if s[p0 as int] == 125 {
        assert(children_count(Seq::<ChildView>::empty()) == 0);
    } else if s[p0 as int] == 40 {
        lemma_scan_balanced_bounds(s, p0 + 1, 0);
        match spec_scan_balanced(s, p0 + 1, 0) {
            Some(pc) => {
                lemma_parse_children_size(s, at_least(pc + 1, p0 + 1));
                match spec_parse_children(s, at_least(pc + 1, p0 + 1)) {
                    Ok((rest, pend)) => {
                        let c = ChildView::Embed(s.subrange(p0 as int + 1, pc as int));
                        lemma_children_count_cons(c, rest);
                    },
                    Err(_) => {},
                }
            },
            None => {},
        }
    } else if s[p0 as int] == 34 {
        lemma_find_quote_bounds(s, p0 + 1);
        match spec_find_quote(s, p0 + 1) {
            Some(pq) => {
                lemma_parse_children_size(s, at_least(pq + 1, p0 + 1));
                match spec_parse_children(s, at_least(pq + 1, p0 + 1)) {
                    Ok((rest, pend)) => {
                        let c = ChildView::Text(s.subrange(p0 as int + 1, pq as int));
                        lemma_children_count_cons(c, rest);
                    },
                    Err(_) => {},
                }
            },
            None => {},
        }
    } else {
        lemma_parse_node_size(s, p0);
        match spec_parse_node(s, p0) {
            Ok((node, p1)) => {
                lemma_parse_children_size(s, at_least(p1, p0 + 1));
                match spec_parse_children(s, at_least(p1, p0 + 1)) {
                    Ok((rest, pend)) => {
                        let c = ChildView::Node(node);
                        lemma_children_count_cons(c, rest);
                    },
                    Err(_) => {},
                }
            },
            Err(_) => {},
        }
    }
}

/// Compiles a whole template: parses the source and, when the grammar
/// accepts it, emits the operations of its compiled procedure, the root
/// numbered 0. Fails exactly on the grammar violations `CompileError`
/// names, never on a template the grammar accepts.
pub fn tp(src: &[u8]) -> (r: Result<(TpNode, Vec<Op>), CompileError>)
    ensures
        ({
            let sr = crate::template::spec_parse_template(src@);
            match r {
                Ok((node, ops)) => {
                    &&& sr is Ok
                    &&& node.deep_view() == sr->Ok_0
                    &&& ops_view(ops@) == spec_ops(node.deep_view(), 0)
                },
                Err(e) => sr == Err::<NodeView, CompileError>(e),
            }
        }),
{
    let total = src.len();
    match crate::template::parse_template(src) {
        Ok(node) => {
            proof {
                lemma_parse_node_size(src@, 0);
                assert(node_count(node.deep_view()) <= total as nat);
            }
            let mut ops: Vec<Op> = Vec::new();
            let ghost empty_ops = ops_view(ops@);
            generate_node(&node, 0, &mut ops);
            proof {
                assert(empty_ops =~= Seq::<OpView>::empty());
                assert(empty_ops + spec_ops(node.deep_view(), 0) =~= spec_ops(
                    node.deep_view(),
                    0,
                ));
            }
            Ok((node, ops))
        },
        Err(e) => Err(e),
    }
}

} // verus!
