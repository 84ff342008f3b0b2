use crulz::ast::{clone_nodes, copy_bytes, extend_bytes, CmdEvalArgs, GroupType, Node};
use crulz::context::{
    add_proc, bytes_eq, clone_def, find_def, find_proc, find_source, insert_def, install_defs,
    remove_def, Definition, EvalContext, ProcDef, Source,
};
use crulz::parser::ParserOptions;
use crulz::semantics::{AutoFn, BuiltInFn, ManualFn};

fn word(data: &[u8]) -> Node {
    Node::Constant { non_space: true, data: data.to_vec() }
}

fn def(name: &[u8], argc: usize, body: &[u8]) -> Definition {
    Definition { name: name.to_vec(), argc, body: word(body) }
}

#[test]
fn bytes_are_compared() {
    assert!(bytes_eq(b"", b""));
    assert!(bytes_eq(b"abc", b"abc"));
    assert!(!bytes_eq(b"abc", b"abd"));
    assert!(!bytes_eq(b"abc", b"ab"));
    assert!(!bytes_eq(b"", b"a"));
}

#[test]
fn macros_by_name() {
    let mut defs: Vec<Definition> = Vec::new();
    assert_eq!(find_def(&defs, b"a"), None);
    insert_def(&mut defs, def(b"a", 1, b"A"));
    insert_def(&mut defs, def(b"b", 2, b"B"));
    insert_def(&mut defs, def(b"a", 3, b"C"));
    assert_eq!(defs, vec![def(b"b", 2, b"B"), def(b"a", 3, b"C")]);
    assert_eq!(find_def(&defs, b"a"), Some(1));
    assert_eq!(find_def(&defs, b"b"), Some(0));
    remove_def(&mut defs, b"b");
    assert_eq!(defs, vec![def(b"a", 3, b"C")]);
    remove_def(&mut defs, b"none");
    assert_eq!(defs, vec![def(b"a", 3, b"C")]);
}

#[test]
fn of_two_macros_of_one_name_the_later_counts() {
    let mut defs = vec![def(b"a", 1, b"first"), def(b"b", 0, b"B"), def(b"a", 2, b"second")];
    assert_eq!(find_def(&defs, b"a"), Some(2));
    remove_def(&mut defs, b"a");
    assert_eq!(defs, vec![def(b"b", 0, b"B")]);
}

#[test]
fn macros_are_installed_in_order() {
    let mut defs = vec![def(b"a", 1, b"old")];
    install_defs(&mut defs, &vec![def(b"b", 0, b"B"), def(b"a", 2, b"new"), def(b"b", 1, b"C")]);
    assert_eq!(defs, vec![def(b"a", 2, b"new"), def(b"b", 1, b"C")]);
    assert_eq!(clone_def(&def(b"x", 7, b"y")), def(b"x", 7, b"y"));
}

#[test]
fn procedures_and_sources_by_name() {
    let mut procs: Vec<ProcDef> = Vec::new();
    add_proc(&mut procs, b"p".to_vec(), Some(1), BuiltInFn::Automatic(AutoFn::Pass));
    add_proc(&mut procs, b"q".to_vec(), None, BuiltInFn::Manual(ManualFn::Fseq));
    add_proc(&mut procs, b"p".to_vec(), None, BuiltInFn::Automatic(AutoFn::Une));
    assert_eq!(find_proc(&procs, b"p"), Some(2));
    assert_eq!(find_proc(&procs, b"q"), Some(1));
    assert_eq!(find_proc(&procs, b"r"), None);
    let sources = vec![
        Source { name: b"s".to_vec(), content: vec![word(b"1")], defs: vec![] },
        Source { name: b"s".to_vec(), content: vec![word(b"2")], defs: vec![] },
    ];
    assert_eq!(find_source(&sources, b"s"), Some(1));
    assert_eq!(find_source(&sources, b"t"), None);
}

#[test]
fn wanted_names_are_struck() {
    let mut ctx = EvalContext::new(ParserOptions::new(b'\\', false));
    ctx.wanted = vec![b"a".to_vec(), b"b".to_vec(), b"a".to_vec(), b"c".to_vec()];
    ctx.unwant(b"a");
    assert_eq!(ctx.wanted, vec![b"b".to_vec(), b"c".to_vec()]);
    ctx.unwant(b"x");
    assert_eq!(ctx.wanted, vec![b"b".to_vec(), b"c".to_vec()]);
    ctx.provide_image(b"c".to_vec(), vec![], vec![]);
    assert_eq!(ctx.wanted, vec![b"b".to_vec()]);
    assert_eq!(ctx.sources.len(), 1);
}

#[test]
fn copies() {
    let tree = Node::CmdEval {
        cmd: vec![word(b"f"), Node::Argument { indirection: 2, index: Some(3) }],
        args: CmdEvalArgs(vec![
            Node::Grouped { typ: GroupType::Loose, elems: vec![Node::NullNode, word(b"x")] },
            Node::Lambda { argc: 4, body: Box::new(word(b"b")) },
        ]),
    };
    assert_eq!(tree.clone(), tree);
    assert_eq!(clone_nodes(&vec![tree.clone(), word(b"y")]), vec![tree.clone(), word(b"y")]);
    let args = CmdEvalArgs(vec![tree.clone()]);
    assert_eq!(args.clone(), args);
    assert_eq!(copy_bytes(b"abc"), b"abc".to_vec());
    let mut out = b"ab".to_vec();
    extend_bytes(&mut out, b"cd");
    assert_eq!(out, b"abcd".to_vec());
}
