use crulz::ast::{CmdEvalArgs, GroupType, Lift, Node};
use crulz::mangle::{while_cplx_changes, Mangle};
use crulz::simplify::compact_toplevel;

fn word(data: &[u8]) -> Node {
    Node::Constant { non_space: true, data: data.to_vec() }
}

fn space(data: &[u8]) -> Node {
    Node::Constant { non_space: false, data: data.to_vec() }
}

fn param(indirection: usize, index: Option<usize>) -> Node {
    Node::Argument { indirection, index }
}

fn group(typ: GroupType, elems: Vec<Node>) -> Node {
    Node::Grouped { typ, elems }
}

fn call(cmd: Vec<Node>, args: Vec<Node>) -> Node {
    Node::CmdEval { cmd, args: CmdEvalArgs(args) }
}

fn lambda(argc: usize, body: Node) -> Node {
    Node::Lambda { argc, body: Box::new(body) }
}

#[test]
fn bytes_of_null_and_constant() {
    assert_eq!(Node::NullNode.to_vec(b'\\'), b"".to_vec());
    assert_eq!(word(b"abc").to_vec(b'\\'), b"abc".to_vec());
    assert_eq!(space(b" \t").to_vec(b'\\'), b" \t".to_vec());
}

#[test]
fn bytes_of_groups() {
    let inner = vec![word(b"a"), space(b" "), word(b"b")];
    assert_eq!(group(GroupType::Strict, inner.clone()).to_vec(b'\\'), b"(a b)".to_vec());
    assert_eq!(group(GroupType::Loose, inner.clone()).to_vec(b'\\'), b"a b".to_vec());
    assert_eq!(group(GroupType::Dissolving, inner).to_vec(b'\\'), b"a b".to_vec());
    assert_eq!(group(GroupType::Strict, vec![]).to_vec(b'\\'), b"()".to_vec());
}

#[test]
fn bytes_of_parameters() {
    assert_eq!(param(0, Some(0)).to_vec(b'\\'), b"$0".to_vec());
    assert_eq!(param(1, Some(12)).to_vec(b'\\'), b"$$12".to_vec());
    assert_eq!(param(2, None).to_vec(b'\\'), b"$$$".to_vec());
    assert_eq!(param(0, Some(1234567890)).to_vec(b'\\'), b"$1234567890".to_vec());
}

#[test]
fn bytes_of_call_and_lambda() {
    let c = call(vec![word(b"add")], vec![word(b"2"), word(b"3")]);
    assert_eq!(c.clone().to_vec(b'\\'), b"\\(add 2 3)".to_vec());
    assert_eq!(c.to_vec(b'#'), b"#(add 2 3)".to_vec());
    assert_eq!(call(vec![word(b"x")], vec![]).to_vec(b'\\'), b"\\(x)".to_vec());
    assert_eq!(lambda(2, word(b"body")).to_vec(b'\\'), b"\\(lambda 2 body)".to_vec());
    assert_eq!(lambda(0, Node::NullNode).to_vec(b'@'), b"@(lambda 0 )".to_vec());
}

#[test]
fn bytes_of_sequence_and_arguments() {
    let v = vec![word(b"a"), word(b"b")];
    assert_eq!(v.clone().to_vec(b'\\'), b"ab".to_vec());
    assert_eq!(CmdEvalArgs(v).to_vec(b'\\'), b" a b".to_vec());
    assert_eq!(CmdEvalArgs(vec![]).to_vec(b'\\'), b"".to_vec());
}

#[test]
fn complexity_of_each_kind() {
    assert_eq!(Node::NullNode.get_complexity(), 0);
    assert_eq!(word(b"").get_complexity(), 1);
    assert_eq!(word(b"abc").get_complexity(), 4);
    assert_eq!(param(0, Some(7)).get_complexity(), 3);
    assert_eq!(param(4, None).get_complexity(), 7);
    assert_eq!(group(GroupType::Dissolving, vec![word(b"a")]).get_complexity(), 2);
    assert_eq!(group(GroupType::Loose, vec![word(b"a")]).get_complexity(), 3);
    assert_eq!(group(GroupType::Strict, vec![word(b"a")]).get_complexity(), 4);
    assert_eq!(call(vec![word(b"f")], vec![word(b"ab"), param(0, None)]).get_complexity(), 9);
    assert_eq!(lambda(9, word(b"ab")).get_complexity(), 5);
    assert_eq!(vec![word(b"a"), word(b"bc")].get_complexity(), 5);
    assert_eq!(CmdEvalArgs(vec![word(b"a"), word(b"bc")]).get_complexity(), 5);
}

#[test]
fn complexity_saturates() {
    assert_eq!(param(usize::MAX, None).get_complexity(), usize::MAX);
    assert_eq!(param(usize::MAX - 3, None).get_complexity(), usize::MAX);
    assert_eq!(param(usize::MAX - 4, None).get_complexity(), usize::MAX - 1);
}

#[test]
fn simplify_empty_groups() {
    assert_eq!(group(GroupType::Loose, vec![]).simplify(), Node::NullNode);
    assert_eq!(group(GroupType::Dissolving, vec![]).simplify(), Node::NullNode);
    assert_eq!(group(GroupType::Strict, vec![]).simplify(), group(GroupType::Strict, vec![]));
}

#[test]
fn simplify_single_child() {
    assert_eq!(group(GroupType::Loose, vec![word(b"a")]).simplify(), word(b"a"));
    assert_eq!(
        group(GroupType::Strict, vec![word(b"a")]).simplify(),
        group(GroupType::Strict, vec![word(b"a")])
    );
    assert_eq!(
        group(GroupType::Strict, vec![group(GroupType::Dissolving, vec![word(b"a"), space(b" ")])])
            .simplify(),
        group(GroupType::Strict, vec![word(b"a"), space(b" ")])
    );
}

#[test]
fn simplify_drops_and_merges() {
    let g = group(
        GroupType::Strict,
        vec![
            word(b"a"),
            Node::NullNode,
            word(b""),
            word(b"b"),
            space(b" "),
            group(GroupType::Loose, vec![]),
            space(b"\t"),
            word(b"c"),
        ],
    );
    assert_eq!(
        g.simplify(),
        group(GroupType::Strict, vec![word(b"ab"), space(b" \t"), word(b"c")])
    );
}

#[test]
fn simplify_reaches_the_normal_form_at_once() {
    // what is left of a loose group is its only child
    assert_eq!(group(GroupType::Loose, vec![word(b"a"), Node::NullNode]).simplify(), word(b"a"));
    // nothing is left in a strict group
    assert_eq!(
        group(GroupType::Strict, vec![group(GroupType::Loose, vec![])]).simplify(),
        group(GroupType::Strict, vec![])
    );
    // constants meet across the border of a dissolving group
    assert_eq!(
        group(
            GroupType::Strict,
            vec![word(b"a"), group(GroupType::Dissolving, vec![word(b"b"), param(0, Some(0))])]
        )
        .simplify(),
        group(GroupType::Strict, vec![word(b"ab"), param(0, Some(0))])
    );
}

#[test]
fn simplify_call_and_lambda() {
    let c = call(
        vec![word(b"a"), word(b"b")],
        vec![
            group(GroupType::Dissolving, vec![word(b"x"), space(b" "), word(b"y")]),
            Node::NullNode,
            group(GroupType::Loose, vec![word(b"z")]),
        ],
    );
    assert_eq!(
        c.simplify(),
        call(
            vec![word(b"ab")],
            vec![word(b"x"), space(b" "), word(b"y"), Node::NullNode, word(b"z")]
        )
    );
    assert_eq!(
        lambda(1, group(GroupType::Loose, vec![word(b"q")])).simplify(),
        lambda(1, word(b"q"))
    );
}

#[test]
fn simplify_twice_is_simplify_once() {
    let tree = group(
        GroupType::Strict,
        vec![
            word(b"a"),
            group(GroupType::Dissolving, vec![word(b"b"), param(0, Some(0)), word(b"")]),
            group(GroupType::Loose, vec![group(GroupType::Loose, vec![word(b"c"), space(b" ")])]),
            call(vec![group(GroupType::Loose, vec![word(b"f")])], vec![Node::NullNode]),
        ],
    );
    let once = tree.simplify();
    let twice = once.clone().simplify();
    assert_eq!(once, twice);
    assert_eq!(
        once,
        group(
            GroupType::Strict,
            vec![
                word(b"ab"),
                param(0, Some(0)),
                group(GroupType::Loose, vec![word(b"c"), space(b" ")]),
                call(vec![word(b"f")], vec![Node::NullNode]),
            ]
        )
    );
}

#[test]
fn simplify_never_raises_complexity() {
    let tree = group(
        GroupType::Loose,
        vec![word(b"a"), word(b"b"), group(GroupType::Loose, vec![param(1, None)])],
    );
    let before = tree.get_complexity();
    let after = tree.simplify().get_complexity();
    assert_eq!(before, 1 + 2 + 2 + 1 + 4);
    assert_eq!(after, 1 + 3 + 4);
    assert!(after <= before);
}

#[test]
fn simplify_inplace_and_take() {
    let mut n = group(GroupType::Loose, vec![word(b"a"), word(b"b")]);
    n.simplify_inplace();
    assert_eq!(n, word(b"ab"));
    let taken = n.take();
    assert_eq!(taken, word(b"ab"));
    assert_eq!(n, Node::NullNode);
    let mut v = vec![word(b"a"), word(b"b")];
    v.simplify_inplace();
    assert_eq!(v, vec![word(b"ab")]);
    assert_eq!(v.take(), vec![word(b"ab")]);
    assert!(v.is_empty());
}

#[test]
fn apply_arguments_replaces_parameters() {
    let args = CmdEvalArgs(vec![word(b"x"), word(b"y")]);
    let mut n = group(
        GroupType::Loose,
        vec![param(0, Some(1)), param(0, Some(0)), param(0, None), param(2, Some(5))],
    );
    assert_eq!(n.apply_arguments_inplace(&args), Ok(()));
    assert_eq!(
        n,
        group(GroupType::Loose, vec![word(b"y"), word(b"x"), word(b"$"), param(1, Some(5))])
    );
}

#[test]
fn apply_arguments_goes_into_calls_and_lambdas() {
    let args = CmdEvalArgs(vec![word(b"x")]);
    let mut n = call(vec![param(0, Some(0))], vec![lambda(1, param(0, Some(0)))]);
    assert_eq!(n.apply_arguments_inplace(&args), Ok(()));
    assert_eq!(n, call(vec![word(b"x")], vec![lambda(1, word(b"x"))]));
}

#[test]
fn apply_arguments_reports_the_first_missing_index() {
    let args = CmdEvalArgs(vec![word(b"x")]);
    let before = vec![param(0, Some(0)), param(0, Some(3)), param(0, Some(2))];
    let mut v = before.clone();
    assert_eq!(v.apply_arguments_inplace(&args), Err(3));
    assert_eq!(v, before);
    let mut n = param(0, Some(1));
    assert_eq!(n.apply_arguments_inplace(&args), Err(1));
    let mut none = param(0, Some(0));
    assert_eq!(none.apply_arguments_inplace(&CmdEvalArgs(vec![])), Err(0));
}

#[test]
fn curry2_moves_the_other_parameters_down() {
    let args = CmdEvalArgs(vec![word(b"x"), word(b"y")]);
    let mut n = group(
        GroupType::Strict,
        vec![
            param(0, Some(0)),
            param(0, Some(2)),
            param(0, Some(5)),
            param(1, Some(0)),
            param(0, None),
            lambda(1, param(0, Some(0))),
        ],
    );
    n.curry2_inplace(&args);
    assert_eq!(
        n,
        group(
            GroupType::Strict,
            vec![
                word(b"x"),
                param(0, Some(0)),
                param(0, Some(3)),
                param(1, Some(0)),
                word(b"$"),
                lambda(1, param(0, Some(0))),
            ]
        )
    );
}

#[test]
fn curry_lambda() {
    let args = CmdEvalArgs(vec![word(b"x")]);
    let mut f = lambda(3, group(GroupType::Loose, vec![param(0, Some(0)), param(0, Some(2))]));
    f.curry_inplace(&args);
    assert_eq!(f, lambda(2, group(GroupType::Loose, vec![word(b"x"), param(0, Some(1))])));
    let mut few = lambda(1, param(0, Some(0)));
    few.curry_inplace(&CmdEvalArgs(vec![word(b"a"), word(b"b")]));
    assert_eq!(few, lambda(0, word(b"a")));
    let mut none = lambda(0, param(0, Some(0)));
    none.curry_inplace(&args);
    assert_eq!(none, lambda(0, param(0, Some(0))));
    let mut plain = param(0, Some(1));
    plain.curry_inplace(&args);
    assert_eq!(plain, param(0, Some(0)));
}

#[test]
fn compact_toplevel_flattens_and_merges() {
    let v = vec![
        word(b"a"),
        Node::NullNode,
        group(GroupType::Loose, vec![space(b" "), group(GroupType::Dissolving, vec![word(b"b")])]),
        group(GroupType::Strict, vec![word(b"c"), space(b" ")]),
        space(b" "),
        space(b"\n"),
        call(vec![word(b"f")], vec![]),
        space(b" "),
    ];
    assert_eq!(
        compact_toplevel(v),
        vec![
            word(b"a b"),
            group(GroupType::Strict, vec![word(b"c"), space(b" ")]),
            space(b" \n"),
            call(vec![word(b"f")], vec![]),
            space(b" "),
        ]
    );
}

#[test]
fn from_wsdelim_parts_arguments() {
    assert_eq!(CmdEvalArgs::from_wsdelim(vec![]), CmdEvalArgs(vec![]));
    assert_eq!(CmdEvalArgs::from_wsdelim(vec![space(b" "), Node::NullNode]), CmdEvalArgs(vec![]));
    assert_eq!(
        CmdEvalArgs::from_wsdelim(vec![
            space(b" "),
            word(b"a"),
            param(0, Some(0)),
            space(b" "),
            space(b" "),
            group(GroupType::Strict, vec![word(b"b")]),
        ]),
        CmdEvalArgs(vec![
            group(GroupType::Loose, vec![word(b"a"), param(0, Some(0))]),
            group(GroupType::Strict, vec![word(b"b")]),
        ])
    );
}

#[test]
fn lift_both_ways() {
    assert_eq!(word(b"a").lift_ast(), vec![word(b"a")]);
    assert_eq!(
        vec![word(b"a"), word(b"b")].lift_ast(),
        group(GroupType::Dissolving, vec![word(b"a"), word(b"b")])
    );
}

#[test]
fn while_cplx_changes_stops() {
    let four = vec![word(b"a"), word(b"b"), word(b"c"), word(b"d")];
    // the loop goes on while it is asked to and the complexity falls
    let pop = |mut v: Vec<Node>| {
        v.pop();
        let go = v.len() > 1;
        (v, go)
    };
    assert_eq!(while_cplx_changes(four.clone(), &pop), vec![word(b"a")]);
    // it stops when it is not asked to go on
    let once = |mut v: Vec<Node>| {
        v.pop();
        (v, false)
    };
    assert_eq!(while_cplx_changes(four.clone(), &once), vec![word(b"a"), word(b"b"), word(b"c")]);
    // and when the complexity has not fallen
    let turn = |mut v: Vec<Node>| {
        v.reverse();
        (v, true)
    };
    assert_eq!(
        while_cplx_changes(four, &turn),
        vec![word(b"d"), word(b"c"), word(b"b"), word(b"a")]
    );
}
