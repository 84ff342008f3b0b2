use crulz::context::EvalContext;
use crulz::interp::eval;
use crulz::mangle::Mangle;
use crulz::parser::{parse_toplevel, ParserOptions};
use crulz::semantics::EvalStatus;

fn run(input: &[u8]) -> Vec<u8> {
    let opts = ParserOptions::new(b'\\', false);
    let mut data = parse_toplevel(input, opts).expect("the input parses");
    let mut ctx = EvalContext::new(opts);
    assert_eq!(eval(&mut data, &mut ctx), EvalStatus::Finished);
    data.to_vec(b'\\')
}

fn text(bytes: Vec<u8>) -> String {
    String::from_utf8(bytes).expect("the output is text")
}

#[test]
fn add_two_numbers() {
    assert_eq!(text(run(b"\\(add 2 3)")), "5");
}

#[test]
fn define_and_call_without_parameters() {
    assert_eq!(text(run(b"\\(def x 0 hello)\\(x)")), "hello");
}

#[test]
fn define_and_call_with_parameter() {
    assert_eq!(text(run(b"\\(def twice 1 $0$0)\\(twice ab)")), "abab");
}

#[test]
fn macros_that_call_macros() {
    assert_eq!(
        text(run(b"\\(def twice 1 $0$0)\\(def quad 1 \\(twice \\(twice $0)))\\(quad a)")),
        "aaaa"
    );
}

#[test]
fn foreach_with_lambda() {
    assert_eq!(text(run(b"\\(foreach (a b c) \\(lambda 1 [$0]))")), "[a][b][c]");
}

#[test]
fn suppress_hides_its_arguments() {
    assert_eq!(
        text(run(b"plain text \\(suppress \\(def z 0 ignored)) done")),
        "plain text  done"
    );
}

#[test]
fn nested_add() {
    assert_eq!(text(run(b"\\(add \\(add 1 2) 3)")), "6");
}

#[test]
fn undefined_macro_stays() {
    assert_eq!(text(run(b"\\(bogus x)")), "\\(bogus x)");
}
