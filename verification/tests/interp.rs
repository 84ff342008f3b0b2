use crulz::ast::{CmdEvalArgs, GroupType, Node};
use crulz::context::{
    builtins, find_def, Definition, EvalContext, DEFAULT_MAX_DEPTH, DEFAULT_MAX_ROUNDS,
};
use crulz::interp::{
    blti_add, blti_lambda, blti_pass, blti_suppress, blti_une, blti_unee, eval, eval_node,
    node_count, node_summand,
};
use crulz::mangle::Mangle;
use crulz::parser::{parse_toplevel, ParserErrorDetail, ParserOptions};
use crulz::semantics::{AutoFn, BuiltInFn, EvalStatus, ManualFn};

fn opts() -> ParserOptions {
    ParserOptions::new(b'\\', false)
}

fn run_in(ctx: &mut EvalContext, input: &[u8]) -> (EvalStatus, String) {
    let mut data = parse_toplevel(input, opts()).expect("the input parses");
    let status = eval(&mut data, ctx);
    (status, String::from_utf8(data.to_vec(b'\\')).expect("the output is text"))
}

fn run(input: &[u8]) -> String {
    let mut ctx = EvalContext::new(opts());
    let (status, out) = run_in(&mut ctx, input);
    assert_eq!(status, EvalStatus::Finished);
    out
}

fn word(data: &[u8]) -> Node {
    Node::Constant { non_space: true, data: data.to_vec() }
}

#[test]
fn new_context() {
    let ctx = EvalContext::new(ParserOptions::new(b'#', true));
    assert!(ctx.defs.is_empty());
    assert!(ctx.sources.is_empty());
    assert!(ctx.wanted.is_empty());
    assert_eq!(ctx.opts, ParserOptions::new(b'#', true));
    assert_eq!(ctx.max_depth, DEFAULT_MAX_DEPTH);
    assert_eq!(ctx.max_rounds, DEFAULT_MAX_ROUNDS);
    assert_eq!(ctx.procdefs, builtins());
}

#[test]
fn builtin_table() {
    let t = builtins();
    let entry = |name: &[u8]| {
        t.iter().find(|p| p.name == name).map(|p| (p.argc, p.func)).expect("the name is known")
    };
    assert_eq!(t.len(), 15);
    assert_eq!(entry(b"add"), (Some(2), BuiltInFn::Automatic(AutoFn::Add)));
    assert_eq!(entry(b"curry"), (None, BuiltInFn::Manual(ManualFn::Curry)));
    assert_eq!(entry(b"def"), (None, BuiltInFn::Manual(ManualFn::Def)));
    assert_eq!(entry(b"def-lazy"), (None, BuiltInFn::Manual(ManualFn::DefLazy)));
    assert_eq!(entry(b"foreach"), (Some(2), BuiltInFn::Manual(ManualFn::Foreach)));
    assert_eq!(entry(b"fseq"), (None, BuiltInFn::Manual(ManualFn::Fseq)));
    assert_eq!(entry(b"include"), (Some(1), BuiltInFn::Manual(ManualFn::Include)));
    assert_eq!(entry(b"lambda"), (None, BuiltInFn::Automatic(AutoFn::Lambda)));
    assert_eq!(entry(b"lambda-lazy"), (None, BuiltInFn::Manual(ManualFn::LambdaLazy)));
    assert_eq!(entry(b"lambda-strict"), (None, BuiltInFn::Manual(ManualFn::LambdaStrict)));
    assert_eq!(entry(b"pass"), (None, BuiltInFn::Automatic(AutoFn::Pass)));
    assert_eq!(entry(b"suppress"), (None, BuiltInFn::Automatic(AutoFn::Suppress)));
    assert_eq!(entry(b"undef"), (Some(1), BuiltInFn::Manual(ManualFn::Undef)));
    assert_eq!(entry(b"une"), (None, BuiltInFn::Automatic(AutoFn::Une)));
    assert_eq!(entry(b"unee"), (None, BuiltInFn::Automatic(AutoFn::Unee)));
}

#[test]
fn counts_are_read_by_atoi() {
    assert_eq!(node_count(&word(b"12")), Some(12));
    assert_eq!(node_count(&word(b"0042")), Some(42));
    assert_eq!(node_count(&word(b"12abc")), Some(12));
    assert_eq!(node_count(&word(b"+7")), Some(7));
    assert_eq!(node_count(&word(b"-0")), Some(0));
    assert_eq!(node_count(&word(b"+")), Some(0));
    assert_eq!(node_count(&word(b"-")), Some(0));
    assert_eq!(node_count(&word(b"-1")), None);
    assert_eq!(node_count(&word(b"")), None);
    assert_eq!(node_count(&word(b"abc")), None);
    assert_eq!(node_count(&word(b" 1")), None);
    assert_eq!(node_count(&word(b"99999999999999999999999999")), None);
    assert_eq!(node_count(&Node::NullNode), None);
    assert_eq!(
        node_count(&Node::Grouped { typ: GroupType::Loose, elems: vec![word(b"1"), word(b"2")] }),
        Some(12)
    );
}

#[test]
fn summands_are_read_by_atoi() {
    assert_eq!(node_summand(&word(b"12")), Some(12));
    assert_eq!(node_summand(&word(b"-12")), Some(-12));
    assert_eq!(node_summand(&word(b"+12x")), Some(12));
    assert_eq!(node_summand(&word(b"9223372036854775807")), Some(i64::MAX));
    assert_eq!(node_summand(&word(b"-9223372036854775808")), Some(i64::MIN));
    assert_eq!(node_summand(&word(b"9223372036854775808")), None);
    assert_eq!(node_summand(&word(b"-9223372036854775809")), None);
    assert_eq!(node_summand(&word(b"x")), None);
    assert_eq!(
        node_summand(&Node::Grouped { typ: GroupType::Loose, elems: vec![word(b"1")] }),
        None
    );
}

#[test]
fn add() {
    assert_eq!(blti_add(&vec![word(b"2"), word(b"3")]), Some(word(b"5")));
    assert_eq!(blti_add(&vec![word(b"-5"), word(b"3")]), Some(word(b"-2")));
    assert_eq!(blti_add(&vec![word(b"-5"), word(b"5")]), Some(word(b"0")));
    assert_eq!(
        blti_add(&vec![word(b"9223372036854775807"), word(b"-9223372036854775808")]),
        Some(word(b"-1"))
    );
    assert_eq!(blti_add(&vec![word(b"9223372036854775807"), word(b"1")]), None);
    assert_eq!(blti_add(&vec![word(b"x"), word(b"1")]), None);
    assert_eq!(blti_add(&vec![word(b"1"), Node::NullNode]), None);
    assert_eq!(blti_add(&vec![word(b"1")]), None);
    assert_eq!(blti_add(&vec![word(b"1"), word(b"2"), word(b"3")]), None);
    assert_eq!(run(b"\\(add 1)"), "\\(add 1)");
    assert_eq!(run(b"\\(add x 1)"), "\\(add x 1)");
    assert_eq!(run(b"\\(add 40 2)"), "42");
}

#[test]
fn lambda_pass_suppress_une_unee() {
    assert_eq!(
        blti_lambda(&vec![word(b"2"), word(b"a"), word(b"b")]),
        Some(Node::Lambda { argc: 2, body: Box::new(word(b"ab")) })
    );
    assert_eq!(blti_lambda(&vec![word(b"2")]), None);
    assert_eq!(blti_lambda(&vec![word(b"x"), word(b"a")]), None);
    assert_eq!(
        blti_pass(&vec![word(b"a"), word(b"b")]),
        Some(Node::Grouped { typ: GroupType::Dissolving, elems: vec![word(b"a"), word(b"b")] })
    );
    assert_eq!(blti_suppress(&vec![word(b"a")]), Some(Node::NullNode));
    let strict = Node::Grouped {
        typ: GroupType::Strict,
        elems: vec![
            word(b"a"),
            Node::Constant { non_space: false, data: b" ".to_vec() },
            word(b"b"),
        ],
    };
    let dissolved = Node::Grouped {
        typ: GroupType::Dissolving,
        elems: vec![
            word(b"a"),
            Node::Constant { non_space: false, data: b" ".to_vec() },
            word(b"b"),
        ],
    };
    assert_eq!(
        blti_une(&vec![strict.clone(), word(b"c")]),
        Some(Node::Grouped { typ: GroupType::Dissolving, elems: vec![dissolved, word(b"c")] })
    );
    assert_eq!(
        blti_unee(&vec![strict, word(b"c")]),
        Some(Node::Grouped { typ: GroupType::Dissolving, elems: vec![word(b"a"), word(b"bc")] })
    );
    assert_eq!(run(b"\\(pass a b)"), "ab");
    assert_eq!(run(b"<\\(suppress a b)>"), "<>");
    assert_eq!(run(b"\\(une (a b))"), "a b");
}

#[test]
fn def_with_lambda_with_body_and_with_count() {
    assert_eq!(run(b"\\(def f \\(lambda 1 <$0>))\\(f x)"), "<x>");
    assert_eq!(run(b"\\(def g body)\\(g)"), "body");
    assert_eq!(run(b"\\(def h 2 $1$0)\\(h a b)"), "ba");
    assert_eq!(run(b"\\(def h 2 $1 $0)\\(h a b)"), "ba");
    assert_eq!(run(b"\\(def)"), "\\(def)");
    assert_eq!(run(b"\\(def x)"), "\\(def x)");
    assert_eq!(run(b"\\(def x y z)"), "\\(def x y z)");
}

#[test]
fn def_installs_in_the_context() {
    let mut ctx = EvalContext::new(opts());
    assert_eq!(run_in(&mut ctx, b"\\(def a 1 <$0>)\\(def b 0 x)\\(def a 2 $0$1)").1, "");
    assert_eq!(ctx.defs.len(), 2);
    let a = find_def(&ctx.defs, b"a").expect("a is defined");
    assert_eq!(ctx.defs[a].argc, 2);
    assert_eq!(
        ctx.defs[a].body,
        Node::Grouped {
            typ: GroupType::Loose,
            elems: vec![
                Node::Argument { indirection: 0, index: Some(0) },
                Node::Argument { indirection: 0, index: Some(1) },
            ]
        }
    );
    assert_eq!(find_def(&ctx.defs, b"c"), None);
}

#[test]
fn wrong_count_of_arguments() {
    assert_eq!(run(b"\\(def h 2 $1$0)\\(h a)"), "\\(h a)");
    assert_eq!(run(b"\\(def h 1 $1)\\(h a)"), "\\(h a)");
}

#[test]
fn def_lazy_keeps_the_body() {
    assert_eq!(run(b"\\(def-lazy x 0 \\(add 1 2))\\(x)"), "3");
    assert_eq!(run(b"\\(def-lazy x y)\\(x)"), "y");
    assert_eq!(run(b"\\(def-lazy x (y))\\(x)"), "\\(def-lazy x (y))\\(x)");
}

#[test]
fn undef_removes() {
    assert_eq!(run(b"\\(def x 0 a)\\(undef x)\\(x)"), "\\(x)");
    assert_eq!(run(b"\\(def x 0 a)\\(x)\\(undef x)"), "a");
}

#[test]
fn fseq_goes_in_order() {
    assert_eq!(run(b"\\(fseq \\(def x 0 a) \\(x))"), "a");
    assert_eq!(run(b"\\(fseq \\(y) \\(def y 0 a))"), "\\(fseq \\(y) \\(def y 0 a))");
}

#[test]
fn lambda_is_called() {
    assert_eq!(run(b"\\(\\(lambda 1 [$0]) x)"), "[x]");
    assert_eq!(run(b"\\(\\(lambda-lazy 1 \\(add $0 1)) 2)"), "3");
    assert_eq!(run(b"\\(\\(lambda-strict 1 \\(pass <$0>)) 2)"), "<2>");
    assert_eq!(run(b"\\(lambda 1 a)"), "\\(lambda 1 a)");
}

#[test]
fn curry_binds_arguments() {
    assert_eq!(run(b"\\(def f 2 $0-$1)\\(\\(curry f a) b)"), "a-b");
    assert_eq!(run(b"\\(\\(curry add 1) 2)"), "3");
    assert_eq!(run(b"<\\(curry)>"), "<>");
    assert_eq!(run(b"\\(curry x)"), "x");
    assert_eq!(run(b"\\(curry nothing x)"), "\\(curry nothing x)");
    assert_eq!(run(b"\\(curry pass x)"), "\\(curry pass x)");
}

#[test]
fn foreach_with_body_and_with_name() {
    assert_eq!(run(b"\\(foreach (a b c) <$0>)"), "<a><b><c>");
    assert_eq!(run(b"\\(def f 1 [$0])\\(foreach (a b) f)"), "[a][b]");
    assert_eq!(run(b"\\(foreach ((a b) (c d)) $1$0)"), "badc");
    assert_eq!(run(b"\\(foreach (a b) g)"), "\\(g a)\\(g b)");
    assert_eq!(run(b"\\(foreach (1 2) \\(add $0 1))"), "23");
    assert_eq!(run(b"\\(foreach (a b) $1)"), "\\(foreach (a b) $1)");
    assert_eq!(run(b"\\(foreach a <$0>)"), "\\(foreach a <$0>)");
    assert_eq!(run(b"\\(def greeting 0 hi)\\(foreach (a b) \\(greeting))"), "hihi");
}

#[test]
fn include_takes_what_was_handed_in() {
    let mut ctx = EvalContext::new(opts());
    assert_eq!(ctx.provide_source(b"inc".to_vec(), b"<\\(def y 0 Y)>"), Ok(()));
    assert_eq!(
        run_in(&mut ctx, b"\\(include inc)\\(y)"),
        (EvalStatus::Finished, "<>Y".to_string())
    );
}

#[test]
fn include_asks_for_what_is_missing() {
    let mut ctx = EvalContext::new(opts());
    let mut data = parse_toplevel(b"\\(include inc)\\(y)", opts()).expect("the input parses");
    assert_eq!(eval(&mut data, &mut ctx), EvalStatus::NeedSources);
    assert_eq!(ctx.wanted, vec![b"inc".to_vec()]);
    assert_eq!(data.clone().to_vec(b'\\'), b"\\(include inc)\\(y)".to_vec());
    assert_eq!(ctx.provide_source(b"inc".to_vec(), b"\\(def y 0 Y)"), Ok(()));
    assert!(ctx.wanted.is_empty());
    assert_eq!(eval(&mut data, &mut ctx), EvalStatus::Finished);
    assert_eq!(data.to_vec(b'\\'), b"Y".to_vec());
}

#[test]
fn include_of_an_image_installs_its_macros() {
    let mut ctx = EvalContext::new(opts());
    ctx.provide_image(
        b"img".to_vec(),
        vec![word(b"content")],
        vec![Definition { name: b"m".to_vec(), argc: 1, body: word(b"M") }],
    );
    assert_eq!(run_in(&mut ctx, b"\\(m 1)\\(include img)\\(m 1)").1, "McontentM");
}

#[test]
fn provide_source_reports_parse_errors() {
    let mut ctx = EvalContext::new(opts());
    let e = ctx.provide_source(b"bad".to_vec(), b"ab\\()").expect_err("the text does not parse");
    assert_eq!(e.detail, ParserErrorDetail::InvalidEval);
    assert_eq!((e.origin, e.offending, e.offending_len), (2, 2, 3));
    assert!(ctx.sources.is_empty());
}

#[test]
fn round_limit() {
    let mut ctx = EvalContext::new(opts());
    ctx.max_rounds = 1;
    assert_eq!(run_in(&mut ctx, b"\\(def x 0 a)\\(x)"), (EvalStatus::RoundLimit, "a".to_string()));
    ctx.max_rounds = 0;
    assert_eq!(
        run_in(&mut ctx, b"\\(add 1 2)"),
        (EvalStatus::RoundLimit, "\\(add 1 2)".to_string())
    );
}

#[test]
fn depth_limit() {
    let mut ctx = EvalContext::new(opts());
    ctx.max_depth = 0;
    assert_eq!(run_in(&mut ctx, b"\\(add 1 2)"), (EvalStatus::Finished, "\\(add 1 2)".to_string()));
    ctx.max_depth = 1;
    assert_eq!(run_in(&mut ctx, b"\\(add 1 2)"), (EvalStatus::Finished, "3".to_string()));
    assert_eq!(
        run_in(&mut ctx, b"\\(add \\(add 1 2) 3)"),
        (EvalStatus::Finished, "\\(add \\(add 1 2) 3)".to_string())
    );
    ctx.max_depth = 2;
    assert_eq!(run_in(&mut ctx, b"\\(add \\(add 1 2) 3)"), (EvalStatus::Finished, "6".to_string()));
}

#[test]
fn evaluation_of_one_node() {
    let mut ctx = EvalContext::new(opts());
    let call = Node::CmdEval {
        cmd: vec![word(b"add")],
        args: CmdEvalArgs(vec![word(b"1"), word(b"2")]),
    };
    assert_eq!(eval_node(&call, &mut ctx, 8), (word(b"3"), true));
    let unknown = Node::CmdEval { cmd: vec![word(b"who")], args: CmdEvalArgs(vec![call.clone()]) };
    assert_eq!(eval_node(&unknown, &mut ctx, 8), (unknown.clone(), false));
    let group = Node::Grouped { typ: GroupType::Strict, elems: vec![call, unknown.clone()] };
    assert_eq!(
        eval_node(&group, &mut ctx, 8),
        (Node::Grouped { typ: GroupType::Strict, elems: vec![word(b"3"), unknown] }, false)
    );
    assert_eq!(eval_node(&word(b"a"), &mut ctx, 0), (word(b"a"), true));
}

#[test]
fn same_input_same_output() {
    let input = b"\\(def twice 1 $0$0)\\(foreach (a b) \\(lambda 1 \\(twice $0)))";
    assert_eq!(run(input), run(input));
    assert_eq!(run(input), "aabb");
}
