use crulz::ast::{CmdEvalArgs, GroupType, Node};
use crulz::mangle::Mangle;
use crulz::parser::{parse_toplevel, ParserOptions};

fn word(data: &[u8]) -> Node {
    Node::Constant { non_space: true, data: data.to_vec() }
}

fn space(data: &[u8]) -> Node {
    Node::Constant { non_space: false, data: data.to_vec() }
}

fn param(indirection: usize, index: Option<usize>) -> Node {
    Node::Argument { indirection, index }
}

fn call(name: &[u8], args: &[&[u8]]) -> Node {
    Node::CmdEval {
        cmd: vec![word(name)],
        args: CmdEvalArgs(args.iter().map(|a| word(a)).collect()),
    }
}

fn holds_parameter(n: &Node, level: usize) -> bool {
    match n {
        Node::Argument { indirection, .. } => *indirection == level,
        Node::Grouped { elems, .. } => elems.iter().any(|e| holds_parameter(e, level)),
        Node::CmdEval { cmd, args } => {
            cmd.iter().any(|e| holds_parameter(e, level))
                || args.0.iter().any(|e| holds_parameter(e, level))
        }
        Node::Lambda { body, .. } => holds_parameter(body, level),
        _ => false,
    }
}

#[test]
fn text_and_calls_are_parsed_back() {
    let opts = ParserOptions::new(b'\\', true);
    let cases: Vec<Vec<Node>> = vec![
        vec![],
        vec![word(b"plain (text) $0 {x}")],
        vec![space(b" \n\t")],
        vec![call(b"bogus", &[b"x"])],
        vec![call(b"f", &[])],
        vec![
            word(b"a "),
            call(b"f", &[b"x", b"y,z", b"1"]),
            call(b"g", &[]),
            space(b"\n"),
            call(b"h-i", &[b"[q]"]),
            word(b")"),
        ],
    ];
    for s in cases {
        let bytes = s.clone().to_vec(b'\\');
        assert_eq!(parse_toplevel(&bytes, opts), Ok(s.clone()));
        assert_eq!(s.clone().simplify(), s);
    }
}

#[test]
fn calls_of_groups_and_parameters_are_parsed_back() {
    let opts = ParserOptions::new(b'\\', true);
    let strict = |elems: Vec<Node>| Node::Grouped { typ: GroupType::Strict, elems };
    let loose = |elems: Vec<Node>| Node::Grouped { typ: GroupType::Loose, elems };
    let node = |cmd: Vec<Node>, args: Vec<Node>| Node::CmdEval { cmd, args: CmdEvalArgs(args) };
    let cases: Vec<(Vec<Node>, &[u8])> = vec![
        (
            vec![node(
                vec![word(b"f")],
                vec![
                    param(0, Some(0)),
                    strict(vec![
                        word(b"a"),
                        space(b" \t"),
                        param(0, Some(1)),
                        space(b" "),
                        node(vec![word(b"g")], vec![word(b"x")]),
                        strict(vec![]),
                    ]),
                    loose(vec![word(b"b"), param(1, Some(2)), param(0, None)]),
                    param(3, None),
                ],
            )],
            b"\\(f $0 (a \t$1 \\(g x)()) b$$2$ $$$$)",
        ),
        (
            vec![
                word(b"x"),
                node(vec![word(b"a"), param(0, Some(10)), word(b"b")], vec![word(b"y")]),
                node(vec![node(vec![word(b"h")], vec![])], vec![]),
            ],
            b"x\\(a$10b y)\\(\\(h))",
        ),
    ];
    for (s, written) in cases {
        let bytes = s.clone().to_vec(b'\\');
        assert_eq!(bytes, written.to_vec());
        assert_eq!(parse_toplevel(&bytes, opts), Ok(s));
    }
}

#[test]
fn a_parameter_before_a_digit_is_not_parsed_back() {
    let opts = ParserOptions::new(b'\\', true);
    let s = vec![Node::CmdEval {
        cmd: vec![word(b"f")],
        args: CmdEvalArgs(vec![Node::Grouped {
            typ: GroupType::Loose,
            elems: vec![param(0, Some(1)), word(b"2")],
        }]),
    }];
    assert_eq!(
        parse_toplevel(&s.to_vec(b'\\'), opts),
        Ok(vec![Node::CmdEval {
            cmd: vec![word(b"f")],
            args: CmdEvalArgs(vec![param(0, Some(12))]),
        }])
    );
}

#[test]
fn a_strict_group_at_the_top_is_not_parsed_back() {
    let opts = ParserOptions::new(b'\\', true);
    let s = vec![Node::Grouped { typ: GroupType::Strict, elems: vec![] }];
    assert_eq!(parse_toplevel(&s.to_vec(b'\\'), opts), Ok(vec![word(b"()")]));
}

#[test]
fn a_missing_index_has_no_argument() {
    let args = CmdEvalArgs(vec![word(b"x"), word(b"y")]);
    for i in 0..6 {
        let mut n = Node::Grouped {
            typ: GroupType::Strict,
            elems: vec![param(0, Some(1)), param(0, Some(i)), param(0, Some(9))],
        };
        match n.apply_arguments_inplace(&args) {
            Ok(()) => assert!(i < 2),
            Err(missing) => {
                assert!(missing >= args.len());
                assert_eq!(missing, if i < 2 { 9 } else { i });
            }
        }
    }
}

#[test]
fn applied_arguments_leave_no_parameter() {
    let args = CmdEvalArgs(vec![word(b"x"), param(2, Some(0))]);
    let mut body = Node::CmdEval {
        cmd: vec![param(0, Some(0))],
        args: CmdEvalArgs(vec![
            param(0, None),
            param(3, Some(7)),
            Node::Lambda { argc: 1, body: Box::new(param(0, Some(1))) },
        ]),
    };
    assert!(holds_parameter(&body, 0));
    assert_eq!(body.apply_arguments_inplace(&args), Ok(()));
    assert!(!holds_parameter(&body, 0));
    // a parameter with one level of indirection is one without afterwards
    let mut indirect = param(1, Some(0));
    assert_eq!(indirect.apply_arguments_inplace(&args), Ok(()));
    assert_eq!(indirect, param(0, Some(0)));
}

#[test]
fn curry_of_a_lambda_without_parameters_keeps_the_body() {
    let mut f = Node::Lambda { argc: 0, body: Box::new(param(0, None)) };
    f.curry_inplace(&CmdEvalArgs(vec![]));
    assert_eq!(f, Node::Lambda { argc: 0, body: Box::new(param(0, None)) });
    let mut g = Node::Lambda { argc: 1, body: Box::new(param(0, None)) };
    g.curry_inplace(&CmdEvalArgs(vec![]));
    assert_eq!(g, Node::Lambda { argc: 1, body: Box::new(word(b"$")) });
}
