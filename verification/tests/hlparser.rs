use crulz::ast::{CmdEvalArgs, GroupType, Node};
use crulz::hlparser::{sections_to_ast, tokens_to_bytes, tokens_to_runs, ToAST};
use crulz::lexer::{lex, LowerLexerToken};
use crulz::llparser::parse_lexed;

fn tokens(input: &[u8]) -> Vec<LowerLexerToken> {
    lex(input, b'\\').into_iter().map(|t| t.llt).collect()
}

fn word(data: &[u8]) -> Node {
    Node::Constant { non_space: true, data: data.to_vec() }
}

fn space(data: &[u8]) -> Node {
    Node::Constant { non_space: false, data: data.to_vec() }
}

fn ast(input: &[u8]) -> Option<Vec<Node>> {
    parse_lexed(&tokens(input), false).and_then(|secs| secs.to_ast(b'\\', false))
}

#[test]
fn plain_sections_are_runs() {
    assert_eq!(ast(b""), Some(vec![]));
    assert_eq!(ast(b"ab  c "), Some(vec![word(b"ab"), space(b"  "), word(b"c"), space(b" ")]));
    assert_eq!(tokens_to_runs(&tokens(b" a)")), vec![space(b" "), word(b"a)")]);
    assert_eq!(tokens_to_bytes(&tokens(b"a (b)"), 1, 4), b" (b".to_vec());
}

#[test]
fn groups_and_calls() {
    assert_eq!(
        ast(b"x(a (b))\\(f g \\(h))y"),
        Some(vec![
            word(b"x"),
            Node::Grouped {
                typ: GroupType::Strict,
                elems: vec![
                    word(b"a"),
                    space(b" "),
                    Node::Grouped { typ: GroupType::Strict, elems: vec![word(b"b")] },
                ]
            },
            Node::CmdEval {
                cmd: vec![word(b"f")],
                args: CmdEvalArgs(vec![
                    word(b"g"),
                    space(b" "),
                    Node::CmdEval { cmd: vec![word(b"h")], args: CmdEvalArgs(vec![]) },
                ])
            },
            word(b"y"),
        ])
    );
}

#[test]
fn content_that_ends_behind_the_escape_byte() {
    assert_eq!(ast(b"\\(foo \\)"), None);
    assert_eq!(ast(b"(a"), None);
    let secs = parse_lexed(&tokens(b"(a\\)"), false).expect("the group is closed");
    assert_eq!(sections_to_ast(&secs, false), None);
}
