use typhoon::{
    tp, BuiltNode, ChildInst, CompileError, Dom, EventKind, MethodArg, Op, TpChild,
};

fn compile(src: &[u8]) -> (typhoon::TpNode, Vec<Op>) {
    tp(src).expect("template should compile")
}

fn run(ops: &Vec<Op>) -> Dom {
    let mut dom = Dom::new();
    dom.run_ops(ops).expect("compiled operations should run");
    dom
}

#[test]
fn single_node_compiles_to_one_create() {
    let (_, ops) = compile(b"div");
    assert_eq!(ops, vec![Op::Create { id: 0, tag: b"div".to_vec() }]);
}

#[test]
fn creation_and_directive_counts_match_template() {
    // Three nodes, four directives in all.
    let (_, ops) = compile(
        b"div.class(\"a\").id(\"top\") { span.text(\"x\") p.style(\"color:red\") }",
    );
    let creates = ops
        .iter()
        .filter(|op| matches!(op, Op::Create { .. }))
        .count();
    let directives = ops
        .iter()
        .filter(|op| {
            matches!(
                op,
                Op::SetText { .. }
                    | Op::SetClass { .. }
                    | Op::SetStyle { .. }
                    | Op::SetAttr { .. }
                    | Op::Listen { .. }
            )
        })
        .count();
    assert_eq!(creates, 3);
    assert_eq!(directives, 4);
    // Each node's directives come right after its creation, before its
    // children are processed.
    assert!(matches!(ops[0], Op::Create { id: 0, .. }));
    assert!(matches!(ops[1], Op::SetClass { id: 0, .. }));
    assert!(matches!(ops[2], Op::SetAttr { id: 0, .. }));
    assert!(matches!(ops[3], Op::Create { id: 1, .. }));
    assert!(matches!(ops[4], Op::SetText { id: 1, .. }));
    assert!(matches!(ops[5], Op::AppendChild { parent: 0, child: 1 }));
    assert!(matches!(ops[6], Op::Create { id: 2, .. }));
    assert!(matches!(ops[7], Op::SetStyle { id: 2, .. }));
    assert!(matches!(ops[8], Op::AppendChild { parent: 0, child: 2 }));
    assert_eq!(ops.len(), 9);
}

#[test]
fn unknown_directive_becomes_generic_attribute() {
    let (_, ops) = compile(b"div.foo(\"bar\")");
    assert_eq!(
        ops[1],
        Op::SetAttr {
            id: 0,
            name: b"foo".to_vec(),
            value: MethodArg::Lit(b"bar".to_vec()),
        }
    );
}

#[test]
fn id_placeholder_value_are_generic_attributes() {
    let (_, ops) = compile(b"input.id(\"n\").placeholder(\"name\").value(\"x\")");
    assert_eq!(
        ops[1],
        Op::SetAttr { id: 0, name: b"id".to_vec(), value: MethodArg::Lit(b"n".to_vec()) }
    );
    assert_eq!(
        ops[2],
        Op::SetAttr {
            id: 0,
            name: b"placeholder".to_vec(),
            value: MethodArg::Lit(b"name".to_vec()),
        }
    );
    assert_eq!(
        ops[3],
        Op::SetAttr { id: 0, name: b"value".to_vec(), value: MethodArg::Lit(b"x".to_vec()) }
    );
}

#[test]
fn event_directives_attach_listeners() {
    let (_, ops) = compile(b"button.onclick(go).oninput(edit).onkeydown(keys)");
    assert_eq!(
        ops[1],
        Op::Listen { id: 0, event: EventKind::Click, handler: MethodArg::Expr(b"go".to_vec()) }
    );
    assert_eq!(
        ops[2],
        Op::Listen {
            id: 0,
            event: EventKind::Input,
            handler: MethodArg::Expr(b"edit".to_vec()),
        }
    );
    assert_eq!(
        ops[3],
        Op::Listen {
            id: 0,
            event: EventKind::Keydown,
            handler: MethodArg::Expr(b"keys".to_vec()),
        }
    );
}

#[test]
fn end_to_end_div_with_heading() {
    let (_, ops) = compile(b"div.class(\"app\"){ h1.text(\"Hi\") }");
    assert_eq!(
        ops,
        vec![
            Op::Create { id: 0, tag: b"div".to_vec() },
            Op::SetClass { id: 0, value: MethodArg::Lit(b"app".to_vec()) },
            Op::Create { id: 1, tag: b"h1".to_vec() },
            Op::SetText { id: 1, value: MethodArg::Lit(b"Hi".to_vec()) },
            Op::AppendChild { parent: 0, child: 1 },
        ]
    );
    let dom = run(&ops);
    assert_eq!(dom.nodes.len(), 2);
    let root: &BuiltNode = &dom.nodes[0];
    assert_eq!(root.tag, b"div".to_vec());
    assert_eq!(root.class, Some(MethodArg::Lit(b"app".to_vec())));
    assert_eq!(root.text, None);
    assert_eq!(root.children, vec![ChildInst::Elem(1)]);
    let h1 = &dom.nodes[1];
    assert_eq!(h1.tag, b"h1".to_vec());
    assert_eq!(h1.text, Some(MethodArg::Lit(b"Hi".to_vec())));
    assert_eq!(h1.children, Vec::<ChildInst>::new());
}

#[test]
fn text_and_embedded_children_append_in_order() {
    let (node, ops) = compile(b"p { \"hello \" b.text(\"world\") (footer()) }");
    assert_eq!(node.children.len(), 3);
    assert!(matches!(node.children[0], TpChild::Text(_)));
    assert!(matches!(node.children[1], TpChild::Node(_)));
    assert!(matches!(node.children[2], TpChild::Embed(_)));
    let dom = run(&ops);
    assert_eq!(
        dom.nodes[0].children,
        vec![
            ChildInst::Text(b"hello ".to_vec()),
            ChildInst::Elem(1),
            ChildInst::Embed(b"footer()".to_vec()),
        ]
    );
}

#[test]
fn attribute_assignment_replaces_existing_name() {
    let (_, ops) = compile(b"div.foo(\"one\").foo(\"two\").bar(\"b\")");
    let dom = run(&ops);
    let attrs = &dom.nodes[0].attrs;
    assert_eq!(attrs.len(), 2);
    assert_eq!(attrs[0].name, b"foo".to_vec());
    assert_eq!(attrs[0].value, MethodArg::Lit(b"two".to_vec()));
    assert_eq!(attrs[1].name, b"bar".to_vec());
}

#[test]
fn expression_arguments_keep_their_text() {
    let (_, ops) = compile(b"span.text(count.get())");
    assert_eq!(
        ops[1],
        Op::SetText { id: 0, value: MethodArg::Expr(b"count.get()".to_vec()) }
    );
}

#[test]
fn empty_input_is_rejected() {
    assert_eq!(tp(b"").unwrap_err(), CompileError::ExpectedIdent { at: 0 });
}

#[test]
fn directive_without_parenthesis_is_rejected() {
    assert_eq!(tp(b"div.text").unwrap_err(), CompileError::ExpectedParen { at: 8 });
}

#[test]
fn unbalanced_argument_is_rejected() {
    assert_eq!(tp(b"div.text((a)").unwrap_err(), CompileError::UnterminatedArg { at: 8 });
}

#[test]
fn unterminated_string_literal_is_rejected() {
    assert_eq!(tp(b"div{\"abc").unwrap_err(), CompileError::UnterminatedText { at: 4 });
}

#[test]
fn unterminated_string_argument_is_rejected() {
    assert_eq!(tp(b"div.text(\"a").unwrap_err(), CompileError::UnterminatedText { at: 9 });
}

#[test]
fn unterminated_block_is_rejected() {
    assert_eq!(tp(b"div{").unwrap_err(), CompileError::UnterminatedBlock { at: 4 });
}

#[test]
fn trailing_input_is_rejected() {
    assert_eq!(tp(b"div x").unwrap_err(), CompileError::TrailingInput { at: 4 });
}

#[test]
fn whitespace_around_tokens_is_ignored() {
    let (_, ops) = compile(b"  div . class ( \"a\" ) {  h1  }  ");
    assert_eq!(ops.len(), 4);
    assert!(matches!(ops[0], Op::Create { id: 0, .. }));
    assert!(matches!(ops[1], Op::SetClass { id: 0, .. }));
    assert!(matches!(ops[2], Op::Create { id: 1, .. }));
    assert!(matches!(ops[3], Op::AppendChild { parent: 0, child: 1 }));
}

#[test]
fn operations_naming_missing_nodes_are_refused() {
    let mut dom = Dom::new();
    let bad = vec![Op::SetText { id: 0, value: MethodArg::Lit(b"x".to_vec()) }];
    let err = dom.run_ops(&bad).unwrap_err();
    assert_eq!(err.at, 0);
    assert_eq!(dom.nodes.len(), 0);
}

#[test]
fn deep_nesting_numbers_nodes_in_source_order() {
    let (_, ops) = compile(b"a{b{c{d}}}");
    assert_eq!(
        ops,
        vec![
            Op::Create { id: 0, tag: b"a".to_vec() },
            Op::Create { id: 1, tag: b"b".to_vec() },
            Op::Create { id: 2, tag: b"c".to_vec() },
            Op::Create { id: 3, tag: b"d".to_vec() },
            Op::AppendChild { parent: 2, child: 3 },
            Op::AppendChild { parent: 1, child: 2 },
            Op::AppendChild { parent: 0, child: 1 },
        ]
    );
}

#[test]
fn siblings_take_consecutive_numbers() {
    let (_, ops) = compile(b"ul{ li li li }");
    let dom = run(&ops);
    assert_eq!(dom.nodes.len(), 4);
    assert_eq!(
        dom.nodes[0].children,
        vec![ChildInst::Elem(1), ChildInst::Elem(2), ChildInst::Elem(3)]
    );
}
