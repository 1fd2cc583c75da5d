//! The tree model a compiled procedure builds: the effect of every
//! construction operation, stated exactly.
//!
//! The model holds the constructed nodes in creation order, each knowing
//! its tag, its text, class and style, its attributes, its listeners, and
//! its children in append order. It stands for the host's tree: the host
//! performs the same operations through its own construction primitives.

use vstd::prelude::*;

use crate::codegen::{child_count, child_ops, children_count, children_ops, methods_ops, node_count, spec_ops, spec_resolve, EventKind, Op, OpView};
use crate::template::{ArgView, ChildView, MethodArg, MethodView, NodeView};

verus! {

/// One attribute of a built node.
#[derive(PartialEq, Eq, Debug)]
pub struct Attr {
    pub name: Vec<u8>,
    pub value: MethodArg,
}

/// Ghost form of [`Attr`].
#[verifier::ext_equal]
pub struct AttrView {
    pub name: Seq<u8>,
    pub value: ArgView,
}

impl DeepView for Attr {
    type V = AttrView;

    open spec fn deep_view(&self) -> AttrView {
        AttrView { name: self.name@, value: self.value.deep_view() }
    }
}

/// One listener attached to a built node.
#[derive(PartialEq, Eq, Debug)]
pub struct Listener {
    pub event: EventKind,
    pub handler: MethodArg,
}

/// Ghost form of [`Listener`].
#[verifier::ext_equal]
pub struct ListenerView {
    pub event: EventKind,
    pub handler: ArgView,
}

impl DeepView for Listener {
    type V = ListenerView;

    open spec fn deep_view(&self) -> ListenerView {
        ListenerView { event: self.event, handler: self.handler.deep_view() }
    }
}

/// One appended child of a built node: another built node by its number,
/// an appended text node, or an embedded element.
#[derive(PartialEq, Eq, Debug)]
pub enum ChildInst {
    Elem(usize),
    Text(Vec<u8>),
    Embed(Vec<u8>),
}

/// Ghost form of [`ChildInst`].
#[verifier::ext_equal]
pub enum ChildInstView {
    Elem(nat),
    Text(Seq<u8>),
    Embed(Seq<u8>),
}

impl DeepView for ChildInst {
    type V = ChildInstView;

    open spec fn deep_view(&self) -> ChildInstView {
        match self {
            ChildInst::Elem(i) => ChildInstView::Elem(*i as nat),
            ChildInst::Text(t) => ChildInstView::Text(t@),
            ChildInst::Embed(e) => ChildInstView::Embed(e@),
        }
    }
}

/// One constructed node.
#[derive(PartialEq, Eq, Debug)]
pub struct BuiltNode {
    pub tag: Vec<u8>,
    pub text: Option<MethodArg>,
    pub class: Option<MethodArg>,
    pub style: Option<MethodArg>,
    pub attrs: Vec<Attr>,
    pub listeners: Vec<Listener>,
    pub children: Vec<ChildInst>,
}

/// Ghost form of [`BuiltNode`].
#[verifier::ext_equal]
pub struct BuiltView {
    pub tag: Seq<u8>,
    pub text: Option<ArgView>,
    pub class: Option<ArgView>,
    pub style: Option<ArgView>,
    pub attrs: Seq<AttrView>,
    pub listeners: Seq<ListenerView>,
    pub children: Seq<ChildInstView>,
}

impl DeepView for BuiltNode {
    type V = BuiltView;

    open spec fn deep_view(&self) -> BuiltView {
        BuiltView {
            tag: self.tag@,
            text: match self.text {
                Some(v) => Some(v.deep_view()),
                None => None,
            },
            class: match self.class {
                Some(v) => Some(v.deep_view()),
                None => None,
            },
            style: match self.style {
                Some(v) => Some(v.deep_view()),
                None => None,
            },
            attrs: Seq::new(self.attrs@.len(), |i: int| self.attrs@[i].deep_view()),
            listeners: Seq::new(self.listeners@.len(), |i: int| self.listeners@[i].deep_view()),
            children: Seq::new(self.children@.len(), |i: int| self.children@[i].deep_view()),
        }
    }
}

/// The ghost forms of the constructed nodes, in creation order.
pub open spec fn dom_view(nodes: Seq<BuiltNode>) -> Seq<BuiltView> {
    Seq::new(nodes.len(), |i: int| nodes[i].deep_view())
}

/// A construction operation the model refuses: the operation at `at` named
/// a node that does not exist, or created one out of order.
#[derive(Clone, Copy, PartialEq, Eq, Structural, Debug)]
pub struct ConstructionError {
    pub at: usize,
}

/// The position of the first attribute named `name` at or after `i`.
pub open spec fn spec_find_attr(attrs: Seq<AttrView>, name: Seq<u8>, i: nat) -> Option<nat>
    decreases attrs.len() - i,
{
    if i >= attrs.len() {
        None
    } else if attrs[i as int].name == name {
        Some(i)
    } else {
        spec_find_attr(attrs, name, i + 1)
    }
}

/// Assigning an attribute replaces the first one of that name, or appends
/// a new one.
pub open spec fn spec_set_attr(attrs: Seq<AttrView>, name: Seq<u8>, value: ArgView) -> Seq<
    AttrView,
> {
    match spec_find_attr(attrs, name, 0) {
        Some(j) => attrs.update(j as int, AttrView { name, value }),
        None => attrs.push(AttrView { name, value }),
    }
}

/// A fresh node of tag `tag`: no text, class, style, attributes, listeners
/// or children.
pub open spec fn blank_node(tag: Seq<u8>) -> BuiltView {
    BuiltView {
        tag,
        text: None,
        class: None,
        style: None,
        attrs: Seq::empty(),
        listeners: Seq::empty(),
        children: Seq::empty(),
    }
}

/// The effect of one operation on the constructed nodes, or `None` where
/// the model refuses it: a creation must carry the next free number, and
/// every other operation must name existing nodes.
pub open spec fn spec_apply(nodes: Seq<BuiltView>, op: OpView) -> Option<Seq<BuiltView>> {
    match op {
        OpView::Create { id, tag } => if id == nodes.len() {
            Some(nodes.push(blank_node(tag)))
        } else {
            None
        },
        OpView::SetText { id, value } => if id < nodes.len() {
            Some(nodes.update(id as int, BuiltView { text: Some(value), ..nodes[id as int] }))
        } else {
            None
        },
        OpView::SetClass { id, value } => if id < nodes.len() {
            Some(nodes.update(id as int, BuiltView { class: Some(value), ..nodes[id as int] }))
        } else {
            None
        },
        OpView::SetStyle { id, value } => if id < nodes.len() {
            Some(nodes.update(id as int, BuiltView { style: Some(value), ..nodes[id as int] }))
        } else {
            None
        },
        OpView::SetAttr { id, name, value } => if id < nodes.len() {
            Some(
                nodes.update(
                    id as int,
                    BuiltView {
                        attrs: spec_set_attr(nodes[id as int].attrs, name, value),
                        ..nodes[id as int]
                    },
                ),
            )
        } else {
            None
        },
        OpView::Listen { id, event, handler } => if id < nodes.len() {
            Some(
                nodes.update(
                    id as int,
                    BuiltView {
                        listeners: nodes[id as int].listeners.push(
                            ListenerView { event, handler },
                        ),
                        ..nodes[id as int]
                    },
                ),
            )
        } else {
            None
        },
        OpView::AppendChild { parent, child } => if parent < nodes.len() && child < nodes.len() {
            Some(
                nodes.update(
                    parent as int,
                    BuiltView {
                        children: nodes[parent as int].children.push(ChildInstView::Elem(child)),
                        ..nodes[parent as int]
                    },
                ),
            )
        } else {
            None
        },
        OpView::AppendText { parent, text } => if parent < nodes.len() {
            Some(
                nodes.update(
                    parent as int,
                    BuiltView {
                        children: nodes[parent as int].children.push(ChildInstView::Text(text)),
                        ..nodes[parent as int]
                    },
                ),
            )
        } else {
            None
        },
        OpView::AppendEmbed { parent, expr } => if parent < nodes.len() {
            Some(
                nodes.update(
                    parent as int,
                    BuiltView {
                        children: nodes[parent as int].children.push(ChildInstView::Embed(expr)),
                        ..nodes[parent as int]
                    },
                ),
            )
        } else {
            None
        },
    }
}

/// The effect of a run of operations applied first to last; `None` as soon
/// as one is refused.
pub open spec fn spec_run(nodes: Seq<BuiltView>, ops: Seq<OpView>) -> Option<Seq<BuiltView>>
    decreases ops.len(),
{
    if ops.len() == 0 {
        Some(nodes)
    } else {
        match spec_apply(nodes, ops[0]) {
            Some(next) => spec_run(next, ops.drop_first()),
            None => None,
        }
    }
}

/// The constructed tree: every node made so far, in creation order.
pub struct Dom {
    pub nodes: Vec<BuiltNode>,
}

impl View for Dom {
    type V = Seq<BuiltView>;

    open spec fn view(&self) -> Seq<BuiltView> {
        dom_view(self.nodes@)
    }
}

/// Replacing one node replaces its ghost form.
proof fn lemma_dom_update(pre: Seq<BuiltNode>, post: Seq<BuiltNode>, i: int, n: BuiltNode)
    requires
        0 <= i < pre.len(),
        post == pre.update(i, n),
    ensures
        dom_view(post) == dom_view(pre).update(i, n.deep_view()),
{
    assert(dom_view(post) =~= dom_view(pre).update(i, n.deep_view()));
}

impl Dom {
    /// An empty tree: no nodes yet.
    pub fn new() -> (d: Dom)
        ensures
            d@ == Seq::<BuiltView>::empty(),
    {
        let d = Dom { nodes: Vec::new() };
        proof {
            assert(d@ =~= Seq::<BuiltView>::empty());
        }
        d
    }

    /// Performs one operation: exactly the transition `spec_apply` states,
    /// refusing the operation, with the tree unchanged, where the model
    /// does.
    pub fn apply_op(&mut self, op: Op) -> (ok: bool)
        ensures
            ({
                match spec_apply(old(self)@, op.deep_view()) {
                    Some(next) => ok && final(self)@ == next,
                    None => !ok && final(self)@ == old(self)@,
                }
            }),
    {
        let ghost pre = self.nodes@;
        match op {
            Op::Create { id, tag } => {
                if id == self.nodes.len() {
                    let ghost tagv = tag@;
                    let node = BuiltNode {
                        tag,
                        text: None,
                        class: None,
                        style: None,
                        attrs: Vec::new(),
                        listeners: Vec::new(),
                        children: Vec::new(),
                    };
                    proof {
                        assert(node.deep_view() =~= blank_node(tagv));
                    }
                    self.nodes.push(node);
                    proof {
                        assert(dom_view(self.nodes@) =~= dom_view(pre).push(blank_node(tagv)));
                    }
                    true
                } else {
                    false
                }
            },
            Op::SetText { id, value } => {
                if id < self.nodes.len() {
                    let mut n = self.nodes.remove(id);
                    let ghost n0 = n;
                    n.text = Some(value);
                    self.nodes.insert(id, n);
                    proof {
                        assert(self.nodes@ =~= pre.update(id as int, n));
                        lemma_dom_update(pre, self.nodes@, id as int, n);
                        assert(n.deep_view() =~= (BuiltView {
                            text: Some(value.deep_view()),
                            ..dom_view(pre)[id as int]
                        }));
                    }
                    true
                } else {
                    false
                }
            },
            Op::SetClass { id, value } => {
                if id < self.nodes.len() {
                    let mut n = self.nodes.remove(id);
                    n.class = Some(value);
                    self.nodes.insert(id, n);
                    proof {
                        assert(self.nodes@ =~= pre.update(id as int, n));
                        lemma_dom_update(pre, self.nodes@, id as int, n);
                        assert(n.deep_view() =~= (BuiltView {
                            class: Some(value.deep_view()),
                            ..dom_view(pre)[id as int]
                        }));
                    }
                    true
                } else {
                    false
                }
            },
            Op::SetStyle { id, value } => {
                if id < self.nodes.len() {
                    let mut n = self.nodes.remove(id);
                    n.style = Some(value);
                    self.nodes.insert(id, n);
                    proof {
                        assert(self.nodes@ =~= pre.update(id as int, n));
                        lemma_dom_update(pre, self.nodes@, id as int, n);
                        assert(n.deep_view() =~= (BuiltView {
                            style: Some(value.deep_view()),
                            ..dom_view(pre)[id as int]
                        }));
                    }
                    true
                } else {
                    false
                }
            },
            Op::SetAttr { id, name, value } => {
                if id < self.nodes.len() {
                    let mut n = self.nodes.remove(id);
                    let ghost a0 = n.deep_view().attrs;
                    proof {
                        assert(a0 =~= attrs_view(n.attrs@));
                    }
                    set_attr(&mut n.attrs, name, value);
                    proof {
                        assert(n.deep_view().attrs =~= attrs_view(n.attrs@));
                    }
                    self.nodes.insert(id, n);
                    proof {
                        assert(self.nodes@ =~= pre.update(id as int, n));
                        lemma_dom_update(pre, self.nodes@, id as int, n);
                        assert(dom_view(pre)[id as int].attrs == a0);
                        assert(n.deep_view() =~= (BuiltView {
                            attrs: spec_set_attr(a0, name@, value.deep_view()),
                            ..dom_view(pre)[id as int]
                        }));
                    }
                    true
                } else {
                    false
                }
            },
            Op::Listen { id, event, handler } => {
                if id < self.nodes.len() {
                    let mut n = self.nodes.remove(id);
                    let ghost l0 = n.deep_view().listeners;
                    n.listeners.push(Listener { event, handler });
                    self.nodes.insert(id, n);
                    proof {
                        assert(self.nodes@ =~= pre.update(id as int, n));
                        lemma_dom_update(pre, self.nodes@, id as int, n);
                        assert(n.deep_view().listeners =~= l0.push(
                            ListenerView { event, handler: handler.deep_view() },
                        ));
                        assert(n.deep_view() =~= (BuiltView {
                            listeners: l0.push(
                                ListenerView { event, handler: handler.deep_view() },
                            ),
                            ..dom_view(pre)[id as int]
                        }));
                    }
                    true
                } else {
                    false
                }
            },
            Op::AppendChild { parent, child } => {
                if parent < self.nodes.len() && child < self.nodes.len() {
                    let mut n = self.nodes.remove(parent);
                    let ghost c0 = n.deep_view().children;
                    n.children.push(ChildInst::Elem(child));
                    self.nodes.insert(parent, n);
                    proof {
                        assert(self.nodes@ =~= pre.update(parent as int, n));
                        lemma_dom_update(pre, self.nodes@, parent as int, n);
                        assert(n.deep_view().children =~= c0.push(
                            ChildInstView::Elem(child as nat),
                        ));
                        assert(n.deep_view() =~= (BuiltView {
                            children: c0.push(ChildInstView::Elem(child as nat)),
                            ..dom_view(pre)[parent as int]
                        }));
                    }
                    true
                } else {
                    false
                }
            },
            Op::AppendText { parent, text } => {
                if parent < self.nodes.len() {
                    let ghost textv = text@;
                    let mut n = self.nodes.remove(parent);
                    let ghost c0 = n.deep_view().children;
                    n.children.push(ChildInst::Text(text));
                    self.nodes.insert(parent, n);
                    proof {
                        assert(self.nodes@ =~= pre.update(parent as int, n));
                        lemma_dom_update(pre, self.nodes@, parent as int, n);
                        assert(n.deep_view().children =~= c0.push(ChildInstView::Text(textv)));
                        assert(n.deep_view() =~= (BuiltView {
                            children: c0.push(ChildInstView::Text(textv)),
                            ..dom_view(pre)[parent as int]
                        }));
                    }
                    true
                } else {
                    false
                }
            },
            Op::AppendEmbed { parent, expr } => {
                if parent < self.nodes.len() {
                    let ghost exprv = expr@;
                    let mut n = self.nodes.remove(parent);
                    let ghost c0 = n.deep_view().children;
                    n.children.push(ChildInst::Embed(expr));
                    self.nodes.insert(parent, n);
                    proof {
                        assert(self.nodes@ =~= pre.update(parent as int, n));
                        lemma_dom_update(pre, self.nodes@, parent as int, n);
                        assert(n.deep_view().children =~= c0.push(ChildInstView::Embed(exprv)));
                        assert(n.deep_view() =~= (BuiltView {
                            children: c0.push(ChildInstView::Embed(exprv)),
                            ..dom_view(pre)[parent as int]
                        }));
                    }
                    true
                } else {
                    false
                }
            },
        }
    }
}

/// The ghost forms of a run of attributes.
pub open spec fn attrs_view(s: Seq<Attr>) -> Seq<AttrView> {
    Seq::new(s.len(), |i: int| s[i].deep_view())
}

/// Exec mirror of `spec_set_attr`: replaces the first attribute of that
/// name, or appends one.
fn set_attr(attrs: &mut Vec<Attr>, name: Vec<u8>, value: MethodArg)
    ensures
        attrs_view(final(attrs)@) == spec_set_attr(attrs_view(old(attrs)@), name@, value.deep_view()),
{
    let ghost a0 = attrs_view(attrs@);
    let ghost namev = name@;
    let ghost valuev = value.deep_view();
    let mut i: usize = 0;
    while i < attrs.len()
        invariant
            i <= attrs@.len(),
            attrs@ == old(attrs)@,
            a0 == attrs_view(attrs@),
            namev == name@,
            valuev == value.deep_view(),
            spec_find_attr(a0, namev, 0) == spec_find_attr(a0, namev, i as nat),
        decreases attrs@.len() - i,
    {
        let entry = &attrs[i];
        let ns: &[u8] = entry.name.as_slice();
        let ps: &[u8] = name.as_slice();
        let hit = crate::bytes::bytes_eq(ns, ps);
        proof {
            assert(ns@ == entry.name@);
            assert(ps@ == namev);
            assert(hit == (ns@ == ps@));
        }
        if hit {
            proof {
                assert(entry == attrs@[i as int]);
                assert(entry.name@ == namev);
                assert(a0[i as int] == attrs@[i as int].deep_view());
                assert(a0[i as int].name == namev);
                assert(spec_find_attr(a0, namev, i as nat) == Some(i as nat));
            }
            attrs[i] = Attr { name, value };
            proof {
                assert(attrs_view(attrs@) =~= a0.update(
                    i as int,
                    AttrView { name: namev, value: valuev },
                ));
            }
            return ;
        }
        proof {
            assert(entry == attrs@[i as int]);
            assert(entry.name@ != namev);
            assert(a0[i as int] == attrs@[i as int].deep_view());
            assert(a0[i as int].name != namev);
        }
        i += 1;
    }
    proof {
        assert(spec_find_attr(a0, namev, attrs@.len() as nat) is None);
    }
    attrs.push(Attr { name, value });
    proof {
        assert(attrs_view(attrs@) =~= a0.push(AttrView { name: namev, value: valuev }));
    }
}

/// Running a run of operations is running a prefix, then the rest.
proof fn lemma_run_split(nodes: Seq<BuiltView>, ops: Seq<OpView>, j: int)
    requires
        0 <= j <= ops.len(),
    ensures
        spec_run(nodes, ops) == (match spec_run(nodes, ops.take(j)) {
            Some(mid) => spec_run(mid, ops.skip(j)),
            None => None,
        }),
    decreases j,
{
    if j == 0 {
        assert(ops.take(0) =~= Seq::<OpView>::empty());
        assert(ops.skip(0) =~= ops);
    } else {
        assert(ops.take(j)[0] == ops[0]);
        match spec_apply(nodes, ops[0]) {
            Some(next) => {
                lemma_run_split(next, ops.drop_first(), j - 1);
                assert(ops.take(j).drop_first() =~= ops.drop_first().take(j - 1));
                assert(ops.skip(j) =~= ops.drop_first().skip(j - 1));
            },
            None => {},
        }
    }
}

impl Dom {
    /// Performs a whole run of operations, first to last. On success the
    /// tree is exactly what `spec_run` states; otherwise it stands as the
    /// first refused operation left it, and the error names that
    /// operation's position.
    pub fn run_ops(&mut self, ops: &Vec<Op>) -> (r: Result<(), ConstructionError>)
        ensures
            ({
                let t = crate::codegen::ops_view(ops@);
                match r {
                    Ok(()) => spec_run(old(self)@, t) == Some(final(self)@),
                    Err(e) => {
                        &&& spec_run(old(self)@, t) is None
                        &&& e.at < t.len()
                        &&& spec_run(old(self)@, t.take(e.at as int)) == Some(final(self)@)
                        &&& spec_apply(final(self)@, t[e.at as int]) is None
                    },
                }
            }),
    {
        let ghost t = crate::codegen::ops_view(ops@);
        let ghost start = self@;
        let mut i: usize = 0;
        while i < ops.len()
            invariant
                i <= ops@.len(),
                t == crate::codegen::ops_view(ops@),
                start == old(self)@,
                spec_run(start, t.take(i as int)) == Some(self@),
            decreases ops@.len() - i,
        {
            let ghost mid = self@;
            let op = clone_op(&ops[i]);
            let ok = self.apply_op(op);
            proof {
                lemma_run_split(start, t.take(i as int + 1), i as int);
                assert(t.take(i as int + 1).take(i as int) =~= t.take(i as int));
                assert(t.take(i as int + 1).skip(i as int) =~= seq![t[i as int]]);
                assert(seq![t[i as int]].drop_first() =~= Seq::<OpView>::empty());
                assert(seq![t[i as int]][0] == t[i as int]);
                assert(op.deep_view() == t[i as int]);
            }
            if !ok {
                proof {
                    assert(spec_run(mid, seq![t[i as int]]) is None);
                    assert(spec_run(start, t.take(i as int + 1)) is None);
                    lemma_run_split(start, t, i as int);
                    assert(t.skip(i as int)[0] == t[i as int]);
                    assert(spec_run(mid, t.skip(i as int)) is None);
                }
                return Err(ConstructionError { at: i });
            }
            proof {
                assert(spec_run(self@, Seq::<OpView>::empty()) == Some(self@));
                assert(spec_run(mid, seq![t[i as int]]) == Some(self@));
                assert(spec_run(start, t.take(i as int + 1)) == Some(self@));
            }
            i += 1;
        }
        proof {
            assert(t.take(ops@.len() as int) =~= t);
        }
        Ok(())
    }
}

/// A fresh copy of one operation.
fn clone_op(op: &Op) -> (r: Op)
    ensures
        r.deep_view() == op.deep_view(),
{
    match op {
        Op::Create { id, tag } => Op::Create { id: *id, tag: crate::bytes::clone_bytes(tag) },
        Op::SetText { id, value } => Op::SetText { id: *id, value: clone_arg(value) },
        Op::SetClass { id, value } => Op::SetClass { id: *id, value: clone_arg(value) },
        Op::SetStyle { id, value } => Op::SetStyle { id: *id, value: clone_arg(value) },
        Op::SetAttr { id, name, value } => Op::SetAttr {
            id: *id,
            name: crate::bytes::clone_bytes(name),
            value: clone_arg(value),
        },
        Op::Listen { id, event, handler } => Op::Listen {
            id: *id,
            event: *event,
            handler: clone_arg(handler),
        },
        Op::AppendChild { parent, child } => Op::AppendChild { parent: *parent, child: *child },
        Op::AppendText { parent, text } => Op::AppendText {
            parent: *parent,
            text: crate::bytes::clone_bytes(text),
        },
        Op::AppendEmbed { parent, expr } => Op::AppendEmbed {
            parent: *parent,
            expr: crate::bytes::clone_bytes(expr),
        },
    }
}

/// A fresh copy of one directive argument.
fn clone_arg(a: &MethodArg) -> (r: MethodArg)
    ensures
        r.deep_view() == a.deep_view(),
{
    match a {
        MethodArg::Lit(t) => MethodArg::Lit(crate::bytes::clone_bytes(t)),
        MethodArg::Expr(t) => MethodArg::Expr(crate::bytes::clone_bytes(t)),
    }
}

/// Running a concatenation is running the first part, then the second.
proof fn lemma_run_add(nodes: Seq<BuiltView>, a: Seq<OpView>, b: Seq<OpView>)
    ensures
        spec_run(nodes, a + b) == (match spec_run(nodes, a) {
            Some(mid) => spec_run(mid, b),
            None => None,
        }),
{
    lemma_run_split(nodes, a + b, a.len() as int);
    assert((a + b).take(a.len() as int) =~= a);
    assert((a + b).skip(a.len() as int) =~= b);
}

/// Running one operation is applying it.
proof fn lemma_run_one(nodes: Seq<BuiltView>, op: OpView)
    ensures
        spec_run(nodes, seq![op]) == spec_apply(nodes, op),
{
    assert(seq![op][0] == op);
    assert(seq![op].drop_first() =~= Seq::<OpView>::empty());
    match spec_apply(nodes, op) {
        Some(next) => {
            assert(spec_run(next, Seq::<OpView>::empty()) == Some(next));
        },
        None => {},
    }
}

/// Resolving directives against an existing node always succeeds and
/// never changes how many nodes exist.
proof fn lemma_methods_run(ms: Seq<MethodView>, nodes: Seq<BuiltView>, id: nat)
    requires
        id < nodes.len(),
    ensures
        ({
            let r = spec_run(nodes, methods_ops(ms, id));
            &&& r is Some
            &&& r->Some_0.len() == nodes.len()
        }),
    decreases ms.len(),
{
    if ms.len() == 0 {
        assert(methods_ops(ms, id) =~= Seq::<OpView>::empty());
    } else {
        let t = methods_ops(ms, id);
        assert(t[0] == spec_resolve(id, ms[0]));
        match spec_apply(nodes, t[0]) {
            Some(next) => {
                assert(next.len() == nodes.len());
                lemma_methods_run(ms.drop_first(), next, id);
                assert(t.drop_first() =~= methods_ops(ms.drop_first(), id));
            },
            None => {
                assert(false);
            },
        }
    }
}

/// Compiling a node onto a tree whose next free number it carries builds
/// it in full: every operation is accepted, and exactly the node and its
/// descendants are added.
pub proof fn lemma_ops_run(n: NodeView, nodes: Seq<BuiltView>, id: nat)
    requires
        nodes.len() == id,
    ensures
        ({
            let r = spec_run(nodes, spec_ops(n, id));
            &&& r is Some
            &&& r->Some_0.len() == id + node_count(n)
        }),
    decreases n,
{
    let create = seq![OpView::Create { id, tag: n.tag }];
    let mops = methods_ops(n.methods, id);
    let cops = children_ops(n.children, id, id + 1);
    lemma_run_add(nodes, create + mops, cops);
    lemma_run_add(nodes, create, mops);
    lemma_run_one(nodes, create[0]);
    assert(create =~= seq![create[0]]);
    let n1 = nodes.push(blank_node(n.tag));
    assert(spec_run(nodes, create) == Some(n1));
    lemma_methods_run(n.methods, n1, id);
    let n2 = spec_run(n1, mops)->Some_0;
    lemma_children_run(n.children, n2, id, id + 1);
}

/// The children of an existing node compile onto the tree in full.
proof fn lemma_children_run(cs: Seq<ChildView>, nodes: Seq<BuiltView>, parent: nat, next: nat)
    requires
        nodes.len() == next,
        parent < next,
    ensures
        ({
            let r = spec_run(nodes, children_ops(cs, parent, next));
            &&& r is Some
            &&& r->Some_0.len() == next + children_count(cs)
        }),
    decreases cs,
{
    if cs.len() == 0 {
        assert(children_ops(cs, parent, next) =~= Seq::<OpView>::empty());
    } else {
        let first = child_ops(cs[0], parent, next);
        let rest = children_ops(cs.drop_first(), parent, next + child_count(cs[0]));
        lemma_run_add(nodes, first, rest);
        lemma_child_run(cs[0], nodes, parent, next);
        let mid = spec_run(nodes, first)->Some_0;
        lemma_children_run(cs.drop_first(), mid, parent, next + child_count(cs[0]));
    }
}

/// One child of an existing node compiles onto the tree in full.
proof fn lemma_child_run(c: ChildView, nodes: Seq<BuiltView>, parent: nat, next: nat)
    requires
        nodes.len() == next,
        parent < next,
    ensures
        ({
            let r = spec_run(nodes, child_ops(c, parent, next));
            &&& r is Some
            &&& r->Some_0.len() == next + child_count(c)
        }),
    decreases c,
{
    match c {
        ChildView::Node(n) => {
            let append = seq![OpView::AppendChild { parent, child: next }];
            lemma_run_add(nodes, spec_ops(n, next), append);
            lemma_ops_run(n, nodes, next);
            let mid = spec_run(nodes, spec_ops(n, next))->Some_0;
            lemma_run_one(mid, append[0]);
            assert(append =~= seq![append[0]]);
        },
        ChildView::Text(t) => {
            lemma_run_one(nodes, OpView::AppendText { parent, text: t });
            assert(child_ops(c, parent, next) =~= seq![
                OpView::AppendText { parent, text: t },
            ]);
        },
        ChildView::Embed(e) => {
            lemma_run_one(nodes, OpView::AppendEmbed { parent, expr: e });
            assert(child_ops(c, parent, next) =~= seq![
                OpView::AppendEmbed { parent, expr: e },
            ]);
        },
    }
}

/// A template the grammar accepts never fails to build: starting from an
/// empty tree, every operation of its compiled procedure is accepted by
/// the tree model, and exactly its nodes are constructed, the root first.
pub proof fn lemma_compiled_template_runs(n: NodeView)
    ensures
        ({
            let r = spec_run(Seq::empty(), spec_ops(n, 0));
            &&& r is Some
            &&& r->Some_0.len() == node_count(n)
        }),
{
    lemma_ops_run(n, Seq::empty(), 0);
}

} // verus!
