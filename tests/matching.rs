use regexer::do_matching;
use regexer::engine::codegen::gen_code;
use regexer::engine::evaluator::{eval, EvalError};
use regexer::engine::parser::{parse, Ast, ParseError};
use regexer::engine::{describe, EngineError, Instruction};
use regexer::helper::{safe_add, SafeAdd};

#[test]
fn test_safe_add() {
    let n: usize = 10;
    assert_eq!(Some(30), n.safe_add(&20));

    let n: usize = !0;
    assert_eq!(None, n.safe_add(&1));

    let mut n: usize = 10;
    assert!(safe_add(&mut n, &20, || ()).is_ok());

    let mut n: usize = !0;
    assert!(safe_add(&mut n, &20, || ()).is_err());
}

#[test]
fn test_matching() {
    // malformed patterns
    assert!(do_matching("+b", "bbb", true).is_err());
    assert!(do_matching("*b", "bbb", true).is_err());
    assert!(do_matching("|b", "bbb", true).is_err());
    assert!(do_matching("?b", "bbb", true).is_err());

    // parsed, matched
    assert!(do_matching("abc|def", "def", true).unwrap());
    assert!(do_matching("(abc)*", "abcabc", true).unwrap());
    assert!(do_matching("(ab|cd)+", "abcdcd", true).unwrap());
    assert!(do_matching("abc?", "ab", true).unwrap());

    // parsed, not matched
    assert!(!do_matching("abc|def", "efa", true).unwrap());
    assert!(!do_matching("(ab|cd)+", "", true).unwrap());
    assert!(!do_matching("abc?", "acb", true).unwrap());
}

#[test]
fn test_dot_pattern() {
    assert!(do_matching(".", "a", true).unwrap());
    assert!(do_matching(".", "b", true).unwrap());
    assert!(!do_matching(".", "", true).unwrap());
}

#[test]
fn test_dot_star_pattern() {
    assert!(do_matching(".*", "a", true).unwrap());
    assert!(do_matching(".*", "b", true).unwrap());
    assert!(do_matching(".*", "ab", true).unwrap());
    assert!(do_matching(".*", "bcde", true).unwrap());
}

#[test]
fn test_match_begin() {
    assert!(do_matching("^foo", "foo", true).unwrap());
    assert!(!do_matching("^foo", "barfoo", true).unwrap());
}

#[test]
fn test_match_end() {
    assert!(do_matching("foo$", "foo", true).unwrap());
    assert!(!do_matching("foo$", "foobar", true).unwrap());
    assert!(do_matching("foo$", "foo\n", true).unwrap());
}

#[test]
fn test_match_begin_end() {
    assert!(do_matching("^foo$", "foo", true).unwrap());
    assert!(!do_matching("^foo$", "foobar", true).unwrap());
    assert!(!do_matching("^foo$", "barfoo", true).unwrap());
    assert!(!do_matching("^foo$", "barfoobar", true).unwrap());
}

#[test]
fn literal_pattern_matches_itself() {
    for p in ["a", "abc", "hello world", "x.y", "tab\there", "日本語"] {
        assert_eq!(do_matching(p, p, true), Ok(true));
    }
}

#[test]
fn matching_twice_gives_the_same_result() {
    for (p, l) in [("(ab|cd)+", "abcdcd"), ("abc?", "acb"), ("+b", "b"), ("a$", "ab")] {
        assert_eq!(do_matching(p, l, true), do_matching(p, l, true));
    }
}

#[test]
fn alternation_order_does_not_change_outcome() {
    assert_eq!(do_matching("a|b", "b", true), Ok(true));
    assert_eq!(do_matching("b|a", "b", true), Ok(true));
    assert_eq!(do_matching("a|b", "a", true), Ok(true));
    assert_eq!(do_matching("b|a", "a", true), Ok(true));
}

#[test]
fn empty_input_boundary() {
    assert_eq!(do_matching("a", "", true), Ok(false));
    assert_eq!(do_matching("a+", "", true), Ok(false));
    assert_eq!(do_matching("a*", "", true), Ok(true));
    assert_eq!(do_matching("a?", "", true), Ok(true));
}

#[test]
fn malformed_patterns_fail_in_the_parser() {
    assert_eq!(do_matching("+b", "bbb", true), Err(EngineError::Parse(ParseError::NoPrev(0))));
    assert_eq!(do_matching("*b", "bbb", true), Err(EngineError::Parse(ParseError::NoPrev(0))));
    assert_eq!(do_matching("|b", "bbb", true), Err(EngineError::Parse(ParseError::NoPrev(0))));
    assert_eq!(do_matching("?b", "bbb", true), Err(EngineError::Parse(ParseError::NoPrev(0))));
}

#[test]
fn concrete_scenarios() {
    assert_eq!(do_matching("abc|def", "def", true), Ok(true));
    assert_eq!(do_matching("(abc)*", "abcabc", true), Ok(true));
    assert_eq!(do_matching("(ab|cd)+", "abcdcd", true), Ok(true));
    assert_eq!(do_matching("abc?", "ab", true), Ok(true));
    assert_eq!(do_matching("abc|def", "efa", true), Ok(false));
    assert_eq!(do_matching(".", "", true), Ok(false));
    assert_eq!(do_matching(".*", "bcde", true), Ok(true));
}

#[test]
fn breadth_first_reports_no_match() {
    assert_eq!(do_matching("a", "a", false), Ok(false));
    assert_eq!(do_matching(".*", "bcde", false), Ok(false));
    assert_eq!(do_matching("^foo$", "foo", false), Ok(false));
    assert_eq!(do_matching("+a", "a", false), Err(EngineError::Parse(ParseError::NoPrev(0))));
}

#[test]
fn parse_errors_carry_positions() {
    assert!(matches!(parse("a\\b"), Err(ParseError::InvalidEscape(2, 'b'))));
    assert!(matches!(parse("ab)"), Err(ParseError::InvalidRightParen(2))));
    assert!(matches!(parse("a||b"), Err(ParseError::NoPrev(2))));
    assert!(matches!(parse("(ab"), Err(ParseError::NoRightParen)));
    assert!(matches!(parse(""), Err(ParseError::Empty)));
    assert!(matches!(parse("()"), Err(ParseError::Empty)));
}

#[test]
fn escaped_metacharacters_are_literals() {
    assert_eq!(do_matching("a\\+", "a+", true), Ok(true));
    assert_eq!(do_matching("a\\+", "aa", true), Ok(false));
    assert_eq!(do_matching("\\(\\)", "()", true), Ok(true));
    assert_eq!(do_matching("\\\\", "\\", true), Ok(true));
}

#[test]
fn alternatives_fold_first_outermost() {
    let ast = parse("a|b|c").unwrap();
    match ast {
        Ast::Or(l, r) => {
            assert!(matches!(*l, Ast::Concat(ref v) if v.len() == 1));
            assert!(matches!(*r, Ast::Or(_, _)));
        }
        _ => panic!("expected an alternation"),
    }
}

#[test]
fn code_layout_of_each_operator() {
    let code = gen_code(&parse("a|b").unwrap()).unwrap();
    assert_eq!(code, vec![Instruction::Split(1, 3), Instruction::Char('a'), Instruction::Jump(4), Instruction::Char('b'), Instruction::Match]);
    let code = gen_code(&parse("a+").unwrap()).unwrap();
    assert_eq!(code, vec![Instruction::Char('a'), Instruction::Split(0, 2), Instruction::Match]);
    let code = gen_code(&parse("a*").unwrap()).unwrap();
    assert_eq!(code, vec![Instruction::Split(1, 3), Instruction::Char('a'), Instruction::Jump(0), Instruction::Match]);
    let code = gen_code(&parse("a?").unwrap()).unwrap();
    assert_eq!(code, vec![Instruction::Split(1, 2), Instruction::Char('a'), Instruction::Match]);
    let code = gen_code(&parse("^a$").unwrap()).unwrap();
    assert_eq!(code, vec![Instruction::MatchBegin, Instruction::Char('a'), Instruction::MatchEnd, Instruction::Match]);
    let code = gen_code(&parse("^a*").unwrap()).unwrap();
    assert_eq!(code, vec![Instruction::MatchBegin, Instruction::Split(2, 4), Instruction::Char('a'), Instruction::Jump(1), Instruction::Match]);
}

#[test]
fn evaluator_errors() {
    assert_eq!(eval(&[Instruction::Jump(5)], &['a'], true), Err(EvalError::InvalidPC));
    assert_eq!(eval(&[Instruction::Jump(0)], &['a'], true), Err(EvalError::StepLimit));
    assert_eq!(eval(&[], &[], true), Err(EvalError::InvalidPC));
    assert_eq!(eval(&[Instruction::Char('a'), Instruction::Match], &['a'], true), Ok(true));
}

#[test]
fn nested_empty_loop_stops_at_step_limit() {
    assert_eq!(do_matching("(a*)*", "b", true), Err(EngineError::Eval(EvalError::StepLimit)));
}

#[test]
fn anchors_after_a_loop() {
    assert_eq!(do_matching("a*$", "aa", true), Ok(true));
    assert_eq!(do_matching("a*$", "ab", true), Ok(false));
}

#[test]
fn describe_shows_the_pattern() {
    assert_eq!(describe("a|b"), "expr: a|b");
}

fn has_empty_concat(ast: &Ast) -> bool {
    match ast {
        Ast::Concat(v) => v.is_empty() || v.iter().any(has_empty_concat),
        Ast::Plus(e) | Ast::Star(e) | Ast::Question(e) => has_empty_concat(e),
        Ast::Or(a, b) => has_empty_concat(a) || has_empty_concat(b),
        _ => false,
    }
}

#[test]
fn parsed_trees_have_no_empty_sequence() {
    for p in ["a()b", "(a|)", "((a))", "a|b|c", "(ab|cd)+", "x(()y)*"] {
        let ast = parse(p).unwrap();
        assert!(!has_empty_concat(&ast), "{p}");
    }
}

#[test]
fn written_patterns_parse() {
    for p in ["(a|b)+", "((ab)|\\*)?", "(^(a)$)", "(\\(\\|\\))*", "((.)|(x))"] {
        assert!(parse(p).is_ok(), "{p}");
    }
}

#[test]
fn wildcard_matches_any_single_character() {
    assert_eq!(do_matching("a.c", "abc", true), Ok(true));
    assert_eq!(do_matching("a.c", "a\nc", true), Ok(true));
    assert_eq!(do_matching("a.c", "ac", true), Ok(false));
}

#[test]
fn match_is_anchored_at_start_of_input() {
    assert_eq!(do_matching("b", "ab", true), Ok(false));
    assert_eq!(do_matching("a", "ab", true), Ok(true));
}
