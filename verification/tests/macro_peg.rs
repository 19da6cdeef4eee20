use klassic_macro_peg::{
    eval_grammar, parse_macro_peg, CharClassElement, EvaluationResult, EvaluationStrategy,
    Evaluator, Expr, ParseError, Position,
};

#[test]
fn parses_simple_macro_peg_grammar() {
    let grammar = parse_macro_peg(r#"S = "<" F([a-zA-Z_]+); F(N) = N ">" "</" N ">";"#)
        .expect("grammar should parse");
    assert_eq!(grammar.rules.len(), 2);
    assert_eq!(grammar.rules[0].name, "S");
    assert_eq!(grammar.rules[1].name, "F");
}

#[test]
fn evaluates_call_by_name_palindrome_example() {
    let results = eval_grammar(
        r#"
              S = P("") !.;
              P(r) = "a" P("a" r) / "b" P("b" r) / r;
            "#,
        &["abba", "abba", "abbbba", "a"],
        EvaluationStrategy::CallByName,
    )
    .expect("grammar should evaluate");
    assert_eq!(
        results,
        vec![
            EvaluationResult::Success(String::new()),
            EvaluationResult::Success(String::new()),
            EvaluationResult::Success(String::new()),
            EvaluationResult::Failure,
        ]
    );
}

#[test]
fn evaluates_call_by_value_seq_examples() {
    let simple = eval_grammar(
        r#"
              S = F("a", "b", "c"); F(A, B, C) = "abc";
            "#,
        &["abcabc"],
        EvaluationStrategy::CallByValueSeq,
    )
    .expect("simple grammar should evaluate");
    assert_eq!(simple, vec![EvaluationResult::Success(String::new())]);

    let xml = eval_grammar(
        r#"
              S = F("<", [a-zA-Z_]+, ">");
              F(LT, N, GT) = F("<", [a-zA-Z_]+, ">")* LT "/" N GT;
            "#,
        &["<a></a>"],
        EvaluationStrategy::CallByValueSeq,
    )
    .expect("xml grammar should evaluate");
    assert_eq!(xml, vec![EvaluationResult::Success(String::new())]);
}

#[test]
fn evaluates_call_by_value_par_examples() {
    let simple = eval_grammar(
        r#"
              S = F("a"); F(A) = A A A;
            "#,
        &["aaa"],
        EvaluationStrategy::CallByValuePar,
    )
    .expect("simple grammar should evaluate");
    assert_eq!(simple, vec![EvaluationResult::Success(String::new())]);

    let xml = eval_grammar(
        r#"
              S = "<" F([a-zA-Z_]+);
              F(N) = N ">" ("<" F([a-zA-Z_]+))* "</" N ">";
            "#,
        &["<a><b></b></a>"],
        EvaluationStrategy::CallByValuePar,
    )
    .expect("xml grammar should evaluate");
    assert_eq!(xml, vec![EvaluationResult::Success(String::new())]);
}

fn run(source: &str, input: &str, strategy: EvaluationStrategy) -> EvaluationResult {
    let mut results = eval_grammar(source, &[input], strategy).expect("grammar should parse");
    assert_eq!(results.len(), 1);
    results.remove(0)
}

fn success(rest: &str) -> EvaluationResult {
    EvaluationResult::Success(rest.to_string())
}

#[test]
fn success_leaves_the_unconsumed_rest() {
    assert_eq!(run(r#"S = "ab";"#, "abc", EvaluationStrategy::CallByName), success("c"));
    assert_eq!(run(r#"S = "ab";"#, "ac", EvaluationStrategy::CallByName), EvaluationResult::Failure);
}

#[test]
fn empty_literal_matches_nothing_and_underscore_is_a_name() {
    assert_eq!(run(r#"S = "";"#, "xy", EvaluationStrategy::CallByName), success("xy"));
    assert_eq!(run(r#"S = _ "x";"#, "xy", EvaluationStrategy::CallByName), EvaluationResult::Failure);
    assert_eq!(run(r#"S = _ "x"; _ = "";"#, "xy", EvaluationStrategy::CallByName), success("y"));
}

#[test]
fn character_classes_and_ranges() {
    assert_eq!(run("S = [a-c]+;", "abcd", EvaluationStrategy::CallByName), success("d"));
    assert_eq!(run("S = [^a];", "b", EvaluationStrategy::CallByName), success(""));
    assert_eq!(run("S = [^a];", "a", EvaluationStrategy::CallByName), EvaluationResult::Failure);
    assert_eq!(run("S = [^a];", "", EvaluationStrategy::CallByName), EvaluationResult::Failure);
    assert_eq!(run("S = [a-];", "-", EvaluationStrategy::CallByName), success(""));
    assert_eq!(run("S = [c-a];", "b", EvaluationStrategy::CallByName), EvaluationResult::Failure);
    assert_eq!(run("S = [xa-cx]*;", "xcbay", EvaluationStrategy::CallByName), success("y"));
}

#[test]
fn class_ranges_skip_surrogate_code_points() {
    let source = r#"S = [\uD7FF-\uE000];"#;
    assert_eq!(run(source, "\u{E000}", EvaluationStrategy::CallByName), success(""));
    assert_eq!(run(source, "\u{D7FF}!", EvaluationStrategy::CallByName), success("!"));
    assert_eq!(run(source, "a", EvaluationStrategy::CallByName), EvaluationResult::Failure);
}

#[test]
fn escapes_in_literals_and_classes() {
    assert_eq!(run(r#"S = "\n\t";"#, "\n\tz", EvaluationStrategy::CallByName), success("z"));
    assert_eq!(run(r#"S = [\u0041-\u0043]+;"#, "ABCD", EvaluationStrategy::CallByName), success("D"));
    assert_eq!(run(r#"S = "\101";"#, "AB", EvaluationStrategy::CallByName), success("B"));
    assert_eq!(run(r#"S = "\"";"#, "\"x", EvaluationStrategy::CallByName), success("x"));
}

#[test]
fn predicates_consume_nothing() {
    assert_eq!(run(r#"S = &"a" .;"#, "ab", EvaluationStrategy::CallByName), success("b"));
    assert_eq!(run(r#"S = !"a" .;"#, "ab", EvaluationStrategy::CallByName), EvaluationResult::Failure);
    assert_eq!(run(r#"S = !"a" .;"#, "b", EvaluationStrategy::CallByName), success(""));
    assert_eq!(run(r#"S = &"a";"#, "abc", EvaluationStrategy::CallByName), success("abc"));
}

#[test]
fn repetition_and_option_never_fail() {
    assert_eq!(run(r#"S = "x"*;"#, "abc", EvaluationStrategy::CallByName), success("abc"));
    assert_eq!(run(r#"S = "x"?;"#, "abc", EvaluationStrategy::CallByName), success("abc"));
    assert_eq!(run(r#"S = "x"? "a";"#, "a", EvaluationStrategy::CallByName), success(""));
    assert_eq!(run(r#"S = "x"+;"#, "abc", EvaluationStrategy::CallByName), EvaluationResult::Failure);
    assert_eq!(run(r#"S = "x"+;"#, "xxa", EvaluationStrategy::CallByName), success("a"));
    assert_eq!(run(r#"S = ""*;"#, "abc", EvaluationStrategy::CallByName), success("abc"));
}

#[test]
fn alternatives_are_ordered() {
    assert_eq!(run(r#"S = "a" | "b";"#, "b", EvaluationStrategy::CallByName), success(""));
    assert_eq!(run(r#"S = "a" / "ab";"#, "ab", EvaluationStrategy::CallByName), success("b"));
}

#[test]
fn wildcard_needs_a_character() {
    assert_eq!(run("S = .;", "", EvaluationStrategy::CallByName), EvaluationResult::Failure);
    assert_eq!(run("S = .;", "\u{3042}x", EvaluationStrategy::CallByName), success("x"));
}

#[test]
fn debug_succeeds_without_consuming() {
    assert_eq!(run(r#"S = Debug("zzz") "a";"#, "ab", EvaluationStrategy::CallByName), success("b"));
}

#[test]
fn calls_that_cannot_be_made_fail() {
    assert_eq!(
        run(r#"S = F("a"); F(A, B) = A;"#, "a", EvaluationStrategy::CallByName),
        EvaluationResult::Failure
    );
    assert_eq!(run(r#"S = G("a");"#, "a", EvaluationStrategy::CallByValueSeq), EvaluationResult::Failure);
    assert_eq!(run("S = X;", "a", EvaluationStrategy::CallByName), EvaluationResult::Failure);
    assert_eq!(
        run(r#"S = T("a"); T = "a";"#, "a", EvaluationStrategy::CallByName),
        EvaluationResult::Failure
    );
}

#[test]
fn failed_argument_fails_the_call_by_value() {
    let source = r#"S = F("b"); F(A) = "a";"#;
    assert_eq!(run(source, "a", EvaluationStrategy::CallByValueSeq), EvaluationResult::Failure);
    assert_eq!(run(source, "a", EvaluationStrategy::CallByValuePar), EvaluationResult::Failure);
    assert_eq!(run(source, "a", EvaluationStrategy::CallByName), success(""));
}

#[test]
fn strategies_differ_on_where_the_body_starts() {
    let source = r#"S = F("a"); F(A) = A;"#;
    assert_eq!(run(source, "aa", EvaluationStrategy::CallByValueSeq), success(""));
    assert_eq!(run(source, "aa", EvaluationStrategy::CallByValuePar), success("a"));
    assert_eq!(run(source, "aa", EvaluationStrategy::CallByName), success("a"));
}

#[test]
fn call_by_name_passes_functions() {
    let source = r#"S = F((x -> x "b"), "a"); F(G, A) = G(A);"#;
    assert_eq!(run(source, "abc", EvaluationStrategy::CallByName), success("c"));
}

#[test]
fn later_rule_of_the_same_name_wins() {
    let source = r#"S = "a"; S = "b";"#;
    assert_eq!(run(source, "b", EvaluationStrategy::CallByName), success(""));
    assert_eq!(run(source, "a", EvaluationStrategy::CallByName), EvaluationResult::Failure);
}

#[test]
fn evaluator_uses_the_named_start_rule() {
    let grammar = parse_macro_peg(r#"A = "a"; B = "b";"#).expect("grammar should parse");
    let evaluator = Evaluator::new(grammar, EvaluationStrategy::CallByName);
    let copy = evaluator.clone();
    assert_eq!(evaluator.evaluate("bc", "B"), success("c"));
    assert_eq!(copy.evaluate("ab", "A"), success("b"));
    assert_eq!(evaluator.evaluate("a", "C"), EvaluationResult::Failure);
    assert!(evaluator.evaluate("a", "A").is_success());
    assert!(!evaluator.evaluate("a", "B").is_success());
}

#[test]
fn typed_parameters_and_comments_are_accepted() {
    let source = "// a grammar\nS = F(\"a\"); // call\nF(A: ?, G: (?, ?) -> ?) = A;\n";
    let grammar = parse_macro_peg(source).expect("grammar should parse");
    assert_eq!(grammar.rules.len(), 2);
    assert_eq!(grammar.rules[1].args, vec!["A".to_string(), "G".to_string()]);
    assert_eq!(grammar.rules[1].pos, Position { line: 2, column: 0 });
}

#[test]
fn parsed_positions_and_shapes() {
    let grammar = parse_macro_peg(r#"S = "a" "b";"#).expect("grammar should parse");
    let body = &grammar.rules[0].body;
    assert_eq!(body.pos(), Position { line: 0, column: 8 });
    match body {
        Expr::Sequence(_, lhs, rhs) => {
            assert_eq!(**lhs, Expr::StringLiteral(Position { line: 0, column: 4 }, "a".to_string()));
            assert_eq!(**rhs, Expr::StringLiteral(Position { line: 0, column: 8 }, "b".to_string()));
        }
        other => panic!("unexpected body {:?}", other),
    }
    let grammar = parse_macro_peg("S = [^a-c];").expect("grammar should parse");
    assert_eq!(
        grammar.rules[0].body,
        Expr::CharClass(
            Position { line: 0, column: 4 },
            false,
            vec![CharClassElement::CharRange('a', 'c')]
        )
    );
}

#[test]
fn parse_errors_carry_position_and_message() {
    let err = parse_macro_peg("S = ;").unwrap_err();
    assert_eq!(err, ParseError { pos: Position { line: 0, column: 4 }, message: "expected primary expression".to_string() });
    let err = parse_macro_peg(r#"S = "abc"#).unwrap_err();
    assert_eq!(err.pos, Position { line: 0, column: 8 });
    assert_eq!(err.message, "unterminated string literal");
    let err = parse_macro_peg(r#"S = "a""#).unwrap_err();
    assert_eq!(err.pos, Position { line: 0, column: 7 });
    assert_eq!(err.message, "expected ';'");
    let err = parse_macro_peg("S = \"a\";\nT = ;").unwrap_err();
    assert_eq!(err.pos, Position { line: 1, column: 4 });
    let err = parse_macro_peg("S = [ab").unwrap_err();
    assert_eq!(err.message, "unterminated character class");
    let err = parse_macro_peg(r#"S = "\uZZZZ";"#).unwrap_err();
    assert_eq!(err.message, "expected unicode escape");
    let err = parse_macro_peg(r#"S = "\uD800";"#).unwrap_err();
    assert_eq!(err.message, "invalid unicode escape");
    let err = parse_macro_peg("1 = .;").unwrap_err();
    assert_eq!(err, ParseError { pos: Position { line: 0, column: 1 }, message: "expected identifier".to_string() });
    let err = parse_macro_peg("S(A: x) = .;").unwrap_err();
    assert_eq!(err.message, "expected type");
}

#[test]
fn eval_grammar_reports_parse_errors() {
    let err = eval_grammar("S = ;", &["a"], EvaluationStrategy::CallByName).unwrap_err();
    assert_eq!(err.pos, Position { line: 0, column: 4 });
    let results = eval_grammar(r#"S = "a";"#, &[], EvaluationStrategy::CallByName).expect("grammar should parse");
    assert!(results.is_empty());
}

#[test]
fn parse_error_text() {
    let err = ParseError { pos: Position { line: 0, column: 7 }, message: "expected ';'".to_string() };
    assert_eq!(err.to_string(), "0, 7: expected ';'");
    let err = ParseError { pos: Position { line: 12, column: 305 }, message: "boom".to_string() };
    assert_eq!(err.to_string(), "12, 305: boom");
}

#[test]
fn dummy_position_is_maximal() {
    assert_eq!(Position::dummy(), Position { line: usize::MAX, column: usize::MAX });
}

#[test]
fn copies_are_equal() {
    let grammar = parse_macro_peg(r#"S = F("a"); F(A: ?) = A [b-c];"#).expect("grammar should parse");
    let copy = grammar.clone();
    assert_eq!(copy, grammar);
    assert_eq!(copy.rules[1].clone(), grammar.rules[1]);
    let err = parse_macro_peg("S").unwrap_err();
    assert_eq!(err.clone(), err);
    assert_eq!(success("x").clone(), success("x"));
}

#[test]
fn one_or_more_is_one_then_zero_or_more() {
    for input in ["", "a", "aab", "b"] {
        assert_eq!(
            run(r#"S = "a"+;"#, input, EvaluationStrategy::CallByName),
            run(r#"S = "a" "a"*;"#, input, EvaluationStrategy::CallByName)
        );
    }
}

#[test]
fn parameters_hide_rules_of_the_same_name() {
    let source = r#"S = F("b"); F(S) = S;"#;
    assert_eq!(run(source, "bc", EvaluationStrategy::CallByName), success("c"));
    assert_eq!(run(source, "bc", EvaluationStrategy::CallByValuePar), success("c"));
}

#[test]
fn character_sets_compare_as_sets() {
    let p = Position { line: 0, column: 0 };
    assert_eq!(Expr::CharSet(p, true, vec!['a', 'b']), Expr::CharSet(p, true, vec!['b', 'a']));
    assert_eq!(Expr::CharSet(p, true, vec!['a', 'a']), Expr::CharSet(p, true, vec!['a']));
    assert_ne!(Expr::CharSet(p, true, vec!['a']), Expr::CharSet(p, false, vec!['a']));
    assert_ne!(Expr::CharSet(p, true, vec!['a']), Expr::CharSet(p, true, vec!['a', 'c']));
    assert_ne!(Expr::Wildcard(p), Expr::Wildcard(Position { line: 0, column: 1 }));
    let call = |v: Vec<char>| Expr::Call(p, "F".to_string(), vec![Expr::CharSet(p, true, v)]);
    assert_eq!(call(vec!['x', 'y']), call(vec!['y', 'x']));
}

#[test]
fn strategies_agree_without_calls() {
    let source = r#"S = A "b"* !.; A = [a-c]+ / "x";"#;
    for input in ["abcb", "xbb", "xa", ""] {
        let by_name = run(source, input, EvaluationStrategy::CallByName);
        assert_eq!(run(source, input, EvaluationStrategy::CallByValueSeq), by_name);
        assert_eq!(run(source, input, EvaluationStrategy::CallByValuePar), by_name);
    }
}

#[test]
fn optional_is_alternation_with_empty() {
    for input in ["", "a", "ab", "b"] {
        assert_eq!(
            run(r#"S = "a"?;"#, input, EvaluationStrategy::CallByName),
            run(r#"S = "a" / "";"#, input, EvaluationStrategy::CallByName)
        );
    }
}

#[test]
fn sequential_arguments_split_the_input() {
    let source = r#"S = F("a", "b"); F(A, B) = B A;"#;
    assert_eq!(run(source, "abba", EvaluationStrategy::CallByValueSeq), success(""));
    assert_eq!(run(source, "abab", EvaluationStrategy::CallByValueSeq), EvaluationResult::Failure);
    assert_eq!(run(source, "aXba", EvaluationStrategy::CallByValueSeq), EvaluationResult::Failure);
}

#[test]
fn parallel_arguments_all_start_at_the_call() {
    let source = r#"S = F("a", [a-z]); F(A, B) = B A;"#;
    assert_eq!(run(source, "aab", EvaluationStrategy::CallByValuePar), success("b"));
    assert_eq!(
        run(r#"S = F("a", "x"); F(A, B) = A;"#, "a", EvaluationStrategy::CallByValuePar),
        EvaluationResult::Failure
    );
}

#[test]
fn spacing_and_comments_anywhere_between_tokens() {
    let source = "  // lead\n\tS\r\n=  \"a\" // mid\r\n ; // tail";
    let grammar = parse_macro_peg(source).expect("grammar should parse");
    assert_eq!(grammar.rules.len(), 1);
    assert_eq!(grammar.rules[0].pos, Position { line: 1, column: 1 });
    assert_eq!(run(source, "ab", EvaluationStrategy::CallByName), success("b"));
}
