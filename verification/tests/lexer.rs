use crulz::lexer::{lex, lex_byte, LexerToken, LowerLexerToken, Position};
use crulz::llparser::{parse_lexed, run_parser, LLParser, LLParserMode, SectionType};
use crulz::sharpen::TwoVec;

fn tokens(input: &[u8]) -> Vec<LowerLexerToken> {
    lex(input, b'\\').into_iter().map(|t| t.llt).collect()
}

#[test]
fn token_classes() {
    assert_eq!(lex_byte(b'a', b'\\'), LowerLexerToken::Constant(true, b'a'));
    assert_eq!(lex_byte(b' ', b'\\'), LowerLexerToken::Constant(false, b' '));
    assert_eq!(lex_byte(0x0b, b'\\'), LowerLexerToken::Constant(false, 0x0b));
    assert_eq!(lex_byte(b'(', b'\\'), LowerLexerToken::Paren(true));
    assert_eq!(lex_byte(b')', b'\\'), LowerLexerToken::Paren(false));
    assert_eq!(lex_byte(b'\\', b'\\'), LowerLexerToken::Escape(b'\\'));
    assert_eq!(lex_byte(b'(', b'('), LowerLexerToken::Escape(b'('));
    assert!(LowerLexerToken::Constant(false, b' ').is_space());
    assert!(!LowerLexerToken::Constant(true, b'a').is_space());
    assert!(!LowerLexerToken::Paren(true).is_space());
    assert!(LowerLexerToken::Escape(b'\\').is_escape());
    assert_eq!(LowerLexerToken::Paren(true).to_byte(), b'(');
    assert_eq!(LowerLexerToken::Paren(false).to_byte(), b')');
    assert_eq!(LowerLexerToken::Constant(true, b'x').to_byte(), b'x');
    assert_eq!(LowerLexerToken::Escape(b'#').to_byte(), b'#');
}

#[test]
fn positions() {
    let at = |llt, line, col| LexerToken { llt, pos: Position { line, col } };
    assert_eq!(
        lex(b"a \n(b)\\\n\nc", b'\\'),
        vec![
            at(LowerLexerToken::Constant(true, b'a'), 0, 0),
            at(LowerLexerToken::Constant(false, b' '), 0, 1),
            at(LowerLexerToken::Constant(false, b'\n'), 0, 2),
            at(LowerLexerToken::Paren(true), 1, 0),
            at(LowerLexerToken::Constant(true, b'b'), 1, 1),
            at(LowerLexerToken::Paren(false), 1, 2),
            at(LowerLexerToken::Escape(b'\\'), 1, 3),
            at(LowerLexerToken::Constant(false, b'\n'), 1, 4),
            at(LowerLexerToken::Constant(false, b'\n'), 2, 0),
            at(LowerLexerToken::Constant(true, b'c'), 3, 0),
        ]
    );
    assert_eq!(lex(b"", b'\\'), vec![]);
    assert!(lex(b" ", b'\\')[0].is_space());
    assert!(!lex(b"a", b'\\')[0].is_space());
}

#[test]
fn sections() {
    assert_eq!(
        parse_lexed(&tokens(b"ab(c d)e\\(f g)h"), false),
        Some(vec![
            (SectionType::Normal, tokens(b"ab")),
            (SectionType::Grouped, tokens(b"c d")),
            (SectionType::Normal, tokens(b"e")),
            (SectionType::CmdEval, tokens(b"f g")),
            (SectionType::Normal, tokens(b"h")),
        ])
    );
    assert_eq!(parse_lexed(&tokens(b""), false), Some(vec![]));
    assert_eq!(
        parse_lexed(&tokens(b"(a(b)c)"), false),
        Some(vec![(SectionType::Grouped, tokens(b"a(b)c"))])
    );
    assert_eq!(
        parse_lexed(&tokens(b"\\()"), false),
        Some(vec![(SectionType::CmdEval, vec![])])
    );
    assert_eq!(parse_lexed(&tokens(b"()"), false), Some(vec![(SectionType::Grouped, vec![])]));
}

#[test]
fn sections_keep_or_drop_the_escape_byte() {
    assert_eq!(
        parse_lexed(&tokens(b"a\\bc"), false),
        Some(vec![(SectionType::Normal, tokens(b"abc"))])
    );
    assert_eq!(
        parse_lexed(&tokens(b"a\\bc"), true),
        Some(vec![(SectionType::Normal, tokens(b"a\\bc"))])
    );
    assert_eq!(run_parser(true, &tokens(b"a\\bc")), parse_lexed(&tokens(b"a\\bc"), true));
}

#[test]
fn sections_of_an_open_group() {
    assert_eq!(parse_lexed(&tokens(b"(a"), false), None);
    assert_eq!(parse_lexed(&tokens(b"a\\(b"), false), None);
    assert_eq!(parse_lexed(&tokens(b"a\\"), false), None);
    assert_eq!(
        parse_lexed(&tokens(b"a)b"), false),
        Some(vec![(SectionType::Normal, tokens(b"a)b"))])
    );
}

#[test]
fn section_parser_in_steps() {
    let mut p = LLParser::new(false);
    assert_eq!(p.pm, LLParserMode::Normal);
    assert_eq!(p.feed(&tokens(b"ab(c")), vec![tokens(b"ab")]);
    assert_eq!(p.pm, LLParserMode::GroupN(1));
    assert_eq!(p.finish(), None);
    assert_eq!(p.feed(&tokens(b"(d))e")), vec![tokens(b"(c(d))")]);
    assert_eq!(p.pm, LLParserMode::Normal);
    assert_eq!(p.finish(), Some(vec![tokens(b"e")]));
    assert_eq!(p.finish(), Some(vec![]));
}

#[test]
fn mode_depth() {
    let mut m = LLParserMode::GroupN(1);
    m.incr();
    assert_eq!(m, LLParserMode::GroupN(2));
    m.decr();
    m.decr();
    assert_eq!(m, LLParserMode::GroupN(0));
    m.decr();
    assert_eq!(m, LLParserMode::GroupN(0));
    let mut top = LLParserMode::GroupN(u32::MAX);
    top.incr();
    assert_eq!(top, LLParserMode::GroupN(u32::MAX));
    let mut n = LLParserMode::Normal;
    n.incr();
    n.decr();
    assert_eq!(n, LLParserMode::Normal);
}

#[test]
fn two_vec() {
    let mut t: TwoVec<u8> = TwoVec::new();
    assert!(t.parts.is_empty());
    assert!(t.last.is_empty());
    t.up_push();
    assert!(t.parts.is_empty());
    t.push(1);
    t.push(2);
    assert_eq!(t.last, vec![1, 2]);
    t.up_push();
    assert_eq!(t.parts, vec![vec![1, 2]]);
    assert!(t.last.is_empty());
    t.push(3);
    assert_eq!(t.finish(), vec![vec![1, 2], vec![3]]);
    assert!(t.parts.is_empty());
    assert!(t.last.is_empty());
    assert_eq!(t.finish(), Vec::<Vec<u8>>::new());
}
