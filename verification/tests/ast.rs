use crulz::ast::{CmdEvalArgs, GroupType, Lift, Node};
use crulz::mangle::{Mangle, MangleASTExt};

fn constant(non_space: bool, data: &[u8]) -> Node {
    Node::Constant { non_space, data: data.to_vec() }
}

#[test]
fn ast_test_args2unspaced() {
    assert_eq!(
        CmdEvalArgs::from_wsdelim(vec![
            constant(true, b"a"),
            constant(false, b"a"),
            constant(true, b"a"),
            constant(true, b"a"),
            constant(false, b"a"),
        ]),
        CmdEvalArgs(vec![constant(true, b"a"), constant(true, b"aa")])
    );
}

#[test]
fn tests_test_args2unspaced() {
    assert_eq!(
        CmdEvalArgs::from_wsdelim(vec![
            constant(true, b"a"),
            constant(false, b"a"),
            constant(true, b"a"),
            constant(true, b"a"),
            constant(false, b"a"),
        ]),
        CmdEvalArgs(vec![constant(true, b"a"), constant(true, b"aa")])
    );
}

#[test]
fn tests_test_simplify() {
    let ast = vec![
        constant(true, b"a"),
        constant(true, b"b").lift_ast().lift_ast().lift_ast().lift_ast(),
        constant(true, b"c"),
    ]
    .lift_ast()
    .lift_ast()
    .lift_ast();
    assert_eq!(ast.simplify(), constant(true, b"abc"));
}

#[test]
fn mangle_ast_test_simplify() {
    let ast = vec![
        constant(true, b"a"),
        constant(true, b"b").lift_ast().lift_ast().lift_ast().lift_ast(),
        constant(true, b"c"),
    ]
    .lift_ast()
    .lift_ast()
    .lift_ast();
    assert_eq!(ast.simplify(), constant(true, b"abc"));
}

#[test]
fn tests_test_compact_tl() {
    let ast = vec![constant(true, b"a"), constant(false, b"b"), constant(true, b"c")]
        .compact_toplevel();
    assert_eq!(ast, vec![constant(true, b"abc")]);
}

#[test]
fn mangle_ast_test_compact_tl() {
    let ast = vec![constant(true, b"a"), constant(false, b"b"), constant(true, b"c")]
        .compact_toplevel();
    assert_eq!(ast, vec![constant(true, b"abc")]);
}

#[test]
fn default_is_null() {
    assert_eq!(Node::default(), Node::NullNode);
}

#[test]
fn is_space_of_each_kind() {
    assert!(Node::NullNode.is_space());
    assert!(constant(false, b" ").is_space());
    assert!(!constant(true, b"a").is_space());
    assert!(!Node::Argument { indirection: 0, index: None }.is_space());
    assert!(!Node::Grouped { typ: GroupType::Loose, elems: vec![] }.is_space());
}

#[test]
fn as_constant_of_each_kind() {
    assert_eq!(constant(true, b"abc").as_constant(), Some(&b"abc"[..]));
    assert_eq!(constant(false, b"").as_constant(), Some(&b""[..]));
    assert_eq!(Node::NullNode.as_constant(), None);
    assert_eq!(
        Node::Grouped { typ: GroupType::Loose, elems: vec![constant(true, b"a")] }
            .as_constant(),
        None
    );
}

#[test]
fn conv_to_constant_joins_groups() {
    assert_eq!(constant(true, b"abc").conv_to_constant(), Some(b"abc".to_vec()));
    assert_eq!(
        Node::Grouped {
            typ: GroupType::Loose,
            elems: vec![
                constant(true, b"a"),
                Node::Grouped {
                    typ: GroupType::Dissolving,
                    elems: vec![constant(false, b" "), constant(true, b"b")]
                },
            ]
        }
        .conv_to_constant(),
        Some(b"a b".to_vec())
    );
    assert_eq!(
        Node::Grouped { typ: GroupType::Loose, elems: vec![] }.conv_to_constant(),
        Some(vec![])
    );
    assert_eq!(
        Node::Grouped { typ: GroupType::Strict, elems: vec![constant(true, b"a")] }
            .conv_to_constant(),
        None
    );
    assert_eq!(
        Node::Grouped { typ: GroupType::Loose, elems: vec![constant(true, b"a"), Node::NullNode] }
            .conv_to_constant(),
        None
    );
    assert_eq!(Node::NullNode.conv_to_constant(), None);
}

#[test]
fn arguments_len() {
    assert_eq!(CmdEvalArgs(vec![]).len(), 0);
    assert!(CmdEvalArgs(vec![]).is_empty());
    assert_eq!(CmdEvalArgs(vec![Node::NullNode, Node::NullNode]).len(), 2);
    assert!(!CmdEvalArgs(vec![Node::NullNode]).is_empty());
}

#[test]
fn arguments_iter() {
    let args = CmdEvalArgs(vec![constant(true, b"a"), Node::NullNode]);
    let seen: Vec<&Node> = args.iter().collect();
    assert_eq!(seen, vec![&constant(true, b"a"), &Node::NullNode]);
}
