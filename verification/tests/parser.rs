use crulz::ast::{CmdEvalArgs, GroupType, Node};
use crulz::parser::{
    do_expect, is_scope_end, parse_escaped_const, parse_node, parse_seq, parse_toplevel,
    str_split_at_ctrl, str_split_at_while, ByteClass, ParserError, ParserErrorDetail,
    ParserOptions,
};

fn opts() -> ParserOptions {
    ParserOptions::new(b'\\', false)
}

fn word(data: &[u8]) -> Node {
    Node::Constant { non_space: true, data: data.to_vec() }
}

fn space(data: &[u8]) -> Node {
    Node::Constant { non_space: false, data: data.to_vec() }
}

fn param(indirection: usize, index: Option<usize>) -> Node {
    Node::Argument { indirection, index }
}

fn call(cmd: Vec<Node>, args: Vec<Node>) -> Node {
    Node::CmdEval { cmd, args: CmdEvalArgs(args) }
}

fn error(origin: usize, offending: usize, len: usize, detail: ParserErrorDetail) -> ParserError {
    ParserError { origin, offending, offending_len: len, detail }
}

#[test]
fn options_keep_what_they_are_given() {
    let o = ParserOptions::new(b'#', true);
    assert_eq!(o.escc, b'#');
    assert!(o.pass_escc);
}

#[test]
fn toplevel_text_is_one_constant() {
    assert_eq!(parse_toplevel(b"", opts()), Ok(vec![]));
    assert_eq!(parse_toplevel(b"abc", opts()), Ok(vec![word(b"abc")]));
    assert_eq!(parse_toplevel(b" \n", opts()), Ok(vec![space(b" \n")]));
    assert_eq!(parse_toplevel(b"a (b) $0 }", opts()), Ok(vec![word(b"a (b) $0 }")]));
}

#[test]
fn toplevel_call_between_text() {
    assert_eq!(
        parse_toplevel(b"x \\(f a  b)y", opts()),
        Ok(vec![word(b"x "), call(vec![word(b"f")], vec![word(b"a"), word(b"b")]), word(b"y")])
    );
}

#[test]
fn call_without_space_is_split_behind_its_first_node() {
    assert_eq!(
        parse_toplevel(b"\\(f(a)$0)", opts()),
        Ok(vec![call(
            vec![word(b"f")],
            vec![Node::Grouped {
                typ: GroupType::Loose,
                elems: vec![
                    Node::Grouped { typ: GroupType::Strict, elems: vec![word(b"a")] },
                    param(0, Some(0)),
                ]
            }]
        )])
    );
    assert_eq!(parse_toplevel(b"\\( f)", opts()), Ok(vec![call(vec![], vec![word(b"f")])]));
}

#[test]
fn groups_inside_a_call() {
    assert_eq!(
        parse_toplevel(b"\\(f (a b) {c} {})", opts()),
        Ok(vec![call(
            vec![word(b"f")],
            vec![
                Node::Grouped {
                    typ: GroupType::Strict,
                    elems: vec![word(b"a"), space(b" "), word(b"b")]
                },
                word(b"c"),
                Node::NullNode,
            ]
        )])
    );
}

#[test]
fn parameters() {
    assert_eq!(
        parse_toplevel(b"\\(f $0 $$12 $ $$$ $007)", opts()),
        Ok(vec![call(
            vec![word(b"f")],
            vec![
                param(0, Some(0)),
                param(1, Some(12)),
                param(0, None),
                param(2, None),
                param(0, Some(7)),
            ]
        )])
    );
    assert_eq!(
        parse_node(b"$99999999999999999999999999", 0, opts()),
        Ok((27, param(0, None)))
    );
}

#[test]
fn escaped_bytes() {
    assert_eq!(
        parse_toplevel(b"\\{\\}\\$\\\\", opts()),
        Ok(vec![word(b"{"), word(b"}"), word(b"$"), word(b"\\")])
    );
    assert_eq!(
        parse_toplevel(b"\\{\\\\", ParserOptions::new(b'\\', true)),
        Ok(vec![word(b"\\{"), word(b"\\\\")])
    );
    assert_eq!(parse_toplevel(b"a\\\nb", opts()), Ok(vec![word(b"a"), Node::NullNode, word(b"b")]));
    assert_eq!(parse_escaped_const(b'{', opts()), Some(word(b"{")));
    assert_eq!(parse_escaped_const(b'\n', opts()), Some(Node::NullNode));
    assert_eq!(parse_escaped_const(b'x', opts()), None);
    assert_eq!(parse_escaped_const(b' ', ParserOptions::new(b' ', false)), Some(space(b" ")));
}

#[test]
fn short_calls() {
    assert_eq!(parse_toplevel(b"\\foo", opts()), Ok(vec![call(vec![word(b"foo")], vec![])]));
    assert_eq!(
        parse_toplevel(b"\\foo(a b) c", opts()),
        Ok(vec![call(vec![word(b"foo")], vec![word(b"a"), word(b"b")]), word(b" c")])
    );
    assert_eq!(
        parse_toplevel(b"\\foo bar", opts()),
        Ok(vec![call(vec![word(b"foo")], vec![]), word(b" bar")])
    );
}

#[test]
fn another_escape_byte() {
    assert_eq!(
        parse_toplevel(b"a\\b#(f x)", ParserOptions::new(b'#', false)),
        Ok(vec![word(b"a\\b"), call(vec![word(b"f")], vec![word(b"x")])])
    );
}

#[test]
fn runs_inside_a_scope_change_with_the_class() {
    assert_eq!(
        parse_seq(b"ab \t cd)", 0, opts()),
        Ok((7, vec![word(b"ab"), space(b" \t "), word(b"cd")]))
    );
    assert_eq!(parse_seq(b")", 0, opts()), Ok((0, vec![])));
    assert_eq!(parse_seq(b"", 0, opts()), Ok((0, vec![])));
}

#[test]
fn error_unexpected_eof() {
    assert_eq!(
        parse_toplevel(b"ab\\", opts()),
        Err(error(2, 2, 1, ParserErrorDetail::UnexpectedEof))
    );
    assert_eq!(parse_node(b"", 0, opts()), Err(error(0, 0, 0, ParserErrorDetail::UnexpectedEof)));
}

#[test]
fn error_invalid_eval() {
    assert_eq!(
        parse_toplevel(b"\\()", opts()),
        Err(error(0, 0, 3, ParserErrorDetail::InvalidEval))
    );
    assert_eq!(
        parse_toplevel(b"x\\(", opts()),
        Err(error(1, 1, 2, ParserErrorDetail::InvalidEval))
    );
    assert_eq!(
        parse_toplevel(b"\\ x", opts()),
        Err(error(0, 0, 2, ParserErrorDetail::InvalidEval))
    );
}

#[test]
fn error_expected_instead() {
    assert_eq!(
        parse_toplevel(b"\\(a", opts()),
        Err(error(0, 3, 0, ParserErrorDetail::ExpectedInstead(b')')))
    );
    assert_eq!(
        parse_toplevel(b"ab\\(f (x", opts()),
        Err(error(6, 8, 0, ParserErrorDetail::ExpectedInstead(b')')))
    );
    assert_eq!(
        parse_toplevel(b"\\(f {x)y", opts()),
        Err(error(4, 6, 2, ParserErrorDetail::ExpectedInstead(b'}')))
    );
    assert_eq!(do_expect(b"ab)", 0, 2, b')'), Ok(3));
    assert_eq!(
        do_expect(b"ab)", 1, 1, b')'),
        Err(error(1, 1, 2, ParserErrorDetail::ExpectedInstead(b')')))
    );
}

#[test]
fn error_dangerous_eos() {
    assert_eq!(
        parse_toplevel(b"a\\)", opts()),
        Err(error(1, 1, 2, ParserErrorDetail::DangerousEos(b')')))
    );
}

#[test]
fn error_unbalanced_eos() {
    assert_eq!(
        parse_node(b"a)", 1, opts()),
        Err(error(1, 1, 1, ParserErrorDetail::UnbalancedEos(b')')))
    );
    assert_eq!(
        parse_node(b"}", 0, opts()),
        Err(error(0, 0, 1, ParserErrorDetail::UnbalancedEos(b'}')))
    );
}

#[test]
fn scanning() {
    assert!(is_scope_end(b')'));
    assert!(is_scope_end(b'}'));
    assert!(!is_scope_end(b'('));
    assert_eq!(str_split_at_while(b"$$$1", 0, ByteClass::Dollar), 3);
    assert_eq!(str_split_at_while(b"$$$12a", 3, ByteClass::Digit), 5);
    assert_eq!(str_split_at_while(b"ab\\c", 0, ByteClass::Except(b'\\')), 2);
    assert_eq!(str_split_at_while(b" \t\r\n\x0cx", 0, ByteClass::Space), 5);
    assert_eq!(str_split_at_while(b"\x0b", 0, ByteClass::Space), 0);
    assert_eq!(str_split_at_ctrl(b"abc def", 0, opts(), false), 3);
    assert_eq!(str_split_at_ctrl(b"abc  def", 3, opts(), true), 5);
    assert_eq!(str_split_at_ctrl(b"ab$c", 0, opts(), false), 2);
    assert_eq!(str_split_at_ctrl(b"ab\\c", 0, opts(), false), 2);
    assert_eq!(str_split_at_ctrl(b"abc", 3, opts(), false), 3);
}
