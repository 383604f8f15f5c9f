use petektools::formula::assignment::{split_assignment, Assignment};
use petektools::formula::ast::Tok;
use petektools::formula::block::FormulaBlock;
use petektools::formula::calls::{
    expect_arity, fill_len, observe_len, pair_len, resolve_call, triple_len, Builtin,
};
use petektools::formula::lexer::{is_ident, is_ident_continue, is_ident_start, read_ident, read_number, tokenize};
use petektools::formula::order::evaluation_order;
use petektools::AlgoError;
use std::collections::BTreeSet;

fn parse_message(e: AlgoError) -> String {
    match e {
        AlgoError::Parse(m) => m,
        other => panic!("expected a parse error, got {other:?}"),
    }
}

fn argument_message(e: AlgoError) -> String {
    match e {
        AlgoError::InvalidArgument(m) => m,
        other => panic!("expected an invalid-argument error, got {other:?}"),
    }
}

#[test]
fn parses_dependencies() {
    let block = FormulaBlock::parse(&[
        "RQI = $lambda * sqrt(PermXY_BC / PorE_BC)",
        "Swirr = pow(RQI, $d)",
    ])
    .unwrap();
    assert_eq!(block.outputs(), vec!["RQI", "Swirr"]);
    assert_eq!(
        block.params().into_iter().collect::<BTreeSet<_>>(),
        BTreeSet::from(["d".to_string(), "lambda".to_string()])
    );
    assert_eq!(
        block.property_dependencies().into_iter().collect::<BTreeSet<_>>(),
        BTreeSet::from(["PermXY_BC".to_string(), "PorE_BC".to_string()])
    );
    assert_eq!(block.evaluation_order(), vec!["RQI", "Swirr"]);
}

#[test]
fn block_sets_come_out_sorted_without_repeats() {
    let block = FormulaBlock::parse(&["a = $z * x + $b * x", "c = $z + y + a"]).unwrap();
    assert_eq!(block.params(), vec!["b", "z"]);
    assert_eq!(block.property_dependencies(), vec!["x", "y"]);
}

#[test]
fn evaluation_order_puts_producers_first() {
    let block = FormulaBlock::parse(&["c = b * 2", "b = a + 1", "a = x"]).unwrap();
    assert_eq!(block.outputs(), vec!["c", "b", "a"]);
    assert_eq!(block.evaluation_order(), vec!["a", "b", "c"]);
}

#[test]
fn evaluation_order_of_independent_assignments_keeps_source_order() {
    let parsed: Vec<Assignment> = ["p = x", "q = y", "r = p + q"]
        .iter()
        .map(|t| Assignment::parse(t).unwrap())
        .collect();
    assert_eq!(evaluation_order(&parsed).unwrap(), vec![0, 1, 2]);
}

#[test]
fn evaluation_order_releases_in_queue_order() {
    // `c` and `a` are ready at once; `b` is released by `a`, and `d` only once `b` is done.
    let parsed: Vec<Assignment> = ["d = b + c", "b = a", "c = 1", "a = 1"]
        .iter()
        .map(|t| Assignment::parse(t).unwrap())
        .collect();
    assert_eq!(evaluation_order(&parsed).unwrap(), vec![2, 3, 1, 0]);
}

#[test]
fn duplicate_outputs_are_refused() {
    let err = FormulaBlock::parse(&["a = 1", "b = 2", "a = 3"]).err().unwrap();
    assert_eq!(argument_message(err), "duplicate assignment lhs `a`");
}

#[test]
fn cycles_are_refused() {
    let err = FormulaBlock::parse(&["a = b + 1", "b = a * 2", "c = 3"]).err().unwrap();
    assert_eq!(argument_message(err), "cyclic formula dependencies involving a, b");
}

#[test]
fn self_reference_is_a_cycle() {
    let err = FormulaBlock::parse(&["a = a + 1"]).err().unwrap();
    assert!(matches!(err, AlgoError::InvalidArgument(_)));
}

#[test]
fn assignment_reports_its_parts() {
    let a = Assignment::parse("  Sw = if(HA_FWL == 0, 1, Swirr + $a) ").unwrap();
    assert_eq!(a.lhs(), "Sw");
    assert_eq!(a.params(), vec!["a"]);
    assert_eq!(a.variables(), vec!["HA_FWL", "Swirr"]);
}

#[test]
fn split_assignment_finds_the_assignment_equals() {
    let (l, r) = split_assignment(" flag = a <= b ").unwrap();
    assert_eq!((l.as_str(), r.as_str()), ("flag", "a <= b"));
    let (l, r) = split_assignment("x = a == b").unwrap();
    assert_eq!((l.as_str(), r.as_str()), ("x", "a == b"));
}

#[test]
fn split_assignment_errors() {
    let e = split_assignment("a <= b").err().unwrap();
    assert_eq!(parse_message(e), "formula assignment missing `=`: a <= b");
    let e = split_assignment(" = b").err().unwrap();
    assert_eq!(parse_message(e), "formula assignment requires non-empty lhs and rhs");
    let e = split_assignment("a =   ").err().unwrap();
    assert_eq!(parse_message(e), "formula assignment requires non-empty lhs and rhs");
}

#[test]
fn lhs_must_be_a_bare_identifier() {
    let e = Assignment::parse("2x = 1").err().unwrap();
    assert_eq!(parse_message(e), "invalid assignment lhs `2x`: expected a bare identifier");
    let e = Assignment::parse("$p = 1").err().unwrap();
    assert_eq!(parse_message(e), "invalid assignment lhs `$p`: expected a bare identifier");
}

#[test]
fn grammar_errors_name_the_offending_token() {
    let cases = [
        ("a = (1 + 2", "expected RParen, got End"),
        ("a = 1 +", "expected formula expression, got End"),
        ("a = f(1,", "expected formula expression, got End"),
        ("a = x y", "unexpected trailing formula token Ident(\"y\")"),
        ("a = f(x $p)", "expected `,` or `)` in formula call, got Param(\"p\")"),
        ("a = )", "expected formula expression, got RParen"),
        ("a = 2 * * 3", "expected formula expression, got Star"),
        ("a = 1 2", "unexpected trailing formula token Number(2)"),
    ];
    for (text, msg) in cases {
        let e = Assignment::parse(text).err().unwrap();
        assert_eq!(parse_message(e), msg, "{text}");
    }
}

#[test]
fn cycle_error_names_everything_waiting_on_the_cycle() {
    let err = FormulaBlock::parse(&["a = b + 1", "d = 3", "c = a + 1", "b = a * 2"]).err().unwrap();
    assert_eq!(argument_message(err), "cyclic formula dependencies involving a, c, b");
}

#[test]
fn tokenize_covers_every_token() {
    let toks = tokenize("a1 + $p - 2.5e-3 * (x / y) ** 2, < <= > >= == !=").unwrap();
    let shapes: Vec<&str> = toks
        .iter()
        .map(|t| match t {
            Tok::Number(_) => "num",
            Tok::Ident(_) => "ident",
            Tok::Param(_) => "param",
            Tok::Plus => "+",
            Tok::Minus => "-",
            Tok::Star => "*",
            Tok::Slash => "/",
            Tok::Pow => "**",
            Tok::LParen => "(",
            Tok::RParen => ")",
            Tok::Comma => ",",
            Tok::Lt => "<",
            Tok::Le => "<=",
            Tok::Gt => ">",
            Tok::Ge => ">=",
            Tok::EqEq => "==",
            Tok::Ne => "!=",
            Tok::End => "end",
        })
        .collect();
    assert_eq!(
        shapes,
        vec![
            "ident", "+", "param", "-", "num", "*", "(", "ident", "/", "ident", ")", "**", "num", ",", "<",
            "<=", ">", ">=", "==", "!="
        ]
    );
    match &toks[4] {
        Tok::Number(s) => assert_eq!(s, "2.5e-3"),
        other => panic!("{other:?}"),
    }
    match &toks[2] {
        Tok::Param(s) => assert_eq!(s, "p"),
        other => panic!("{other:?}"),
    }
}

#[test]
fn tokenize_errors() {
    let cases = [
        ("a = b", "unexpected `=` inside formula expression; use `==` for equality"),
        ("a ! b", "unexpected `!` inside formula expression; use `!=` for inequality"),
        ("$ + 1", "expected identifier in formula expression"),
        ("1e+", "invalid exponent in formula number literal"),
        (".", "expected digit in formula number literal"),
        ("a # b", "unexpected character `#` in formula expression"),
        ("a ^ b", "unexpected character `^` in formula expression"),
    ];
    for (text, msg) in cases {
        let e = tokenize(text).err().unwrap();
        assert_eq!(parse_message(e), msg, "{text}");
    }
}

#[test]
fn number_and_identifier_readers() {
    let chars: Vec<char> = "12.5e3xyz_9+".chars().collect();
    let (lit, end) = read_number(&chars, 0).unwrap();
    assert_eq!((lit.as_str(), end), ("12.5e3", 6));
    let (name, end) = read_ident(&chars, 6).unwrap();
    assert_eq!((name.as_str(), end), ("xyz_9", 11));
    let chars: Vec<char> = ".5".chars().collect();
    assert_eq!(read_number(&chars, 0).unwrap(), (".5".to_string(), 2));
    let chars: Vec<char> = "7.".chars().collect();
    assert_eq!(read_number(&chars, 0).unwrap(), ("7.".to_string(), 2));
    let chars: Vec<char> = "9x".chars().collect();
    assert!(read_ident(&chars, 0).is_err());
}

#[test]
fn identifier_classes() {
    assert!(is_ident("_a9"));
    assert!(is_ident("Swirr"));
    assert!(!is_ident(""));
    assert!(!is_ident("9a"));
    assert!(!is_ident("a-b"));
    assert!(is_ident_start('_') && is_ident_start('Q') && !is_ident_start('3'));
    assert!(is_ident_continue('3') && is_ident_continue('_') && !is_ident_continue('.'));
}

#[test]
fn builtins_resolve_by_name_and_arity() {
    assert_eq!(resolve_call("sqrt", 1).unwrap(), Builtin::Sqrt);
    assert_eq!(resolve_call("log10", 1).unwrap(), Builtin::Log10);
    assert_eq!(resolve_call("pow", 2).unwrap(), Builtin::Pow);
    assert_eq!(resolve_call("max", 2).unwrap(), Builtin::Max);
    assert_eq!(resolve_call("clip", 3).unwrap(), Builtin::Clip);
    assert_eq!(resolve_call("if", 3).unwrap(), Builtin::If);
    let e = resolve_call("pow", 3).err().unwrap();
    assert_eq!(argument_message(e), "formula function `pow` expects 2 argument(s), got 3");
    let e = resolve_call("tan", 1).err().unwrap();
    assert_eq!(argument_message(e), "unsupported formula function `tan`");
    assert!(expect_arity("abs", 1, 1).is_ok());
    let e = expect_arity("abs", 0, 1).err().unwrap();
    assert_eq!(argument_message(e), "formula function `abs` expects 1 argument(s), got 0");
}

#[test]
fn lengths_combine_by_broadcasting() {
    assert_eq!(observe_len(None, 4).unwrap(), Some(4));
    assert_eq!(observe_len(Some(4), 4).unwrap(), Some(4));
    let e = observe_len(Some(4), 3).err().unwrap();
    assert_eq!(argument_message(e), "formula shape mismatch: expected length 4, got 3");

    assert_eq!(pair_len(None, None).unwrap(), None);
    assert_eq!(pair_len(Some(5), None).unwrap(), Some(5));
    assert_eq!(pair_len(None, Some(12)).unwrap(), Some(12));
    let e = pair_len(Some(2), Some(10)).err().unwrap();
    assert_eq!(argument_message(e), "formula shape mismatch: left length 2, right length 10");

    assert_eq!(triple_len(None, Some(3), None).unwrap(), Some(3));
    assert_eq!(triple_len(None, None, None).unwrap(), None);
    let e = triple_len(Some(3), None, Some(1)).err().unwrap();
    assert_eq!(argument_message(e), "formula shape mismatch: expected length 3, got 1");

    assert!(fill_len(None, 7).is_ok());
    assert!(fill_len(Some(7), 7).is_ok());
    let e = fill_len(Some(6), 7).err().unwrap();
    assert_eq!(argument_message(e), "formula shape mismatch: expected length 7, got 6");
}

#[test]
fn error_messages_carry_their_kind() {
    assert_eq!(AlgoError::Parse("x".to_string()).message(), "parse error: x");
    assert_eq!(AlgoError::NotFound("section 'a'".to_string()).message(), "not found: section 'a'");
    assert_eq!(AlgoError::InvalidArgument("k".to_string()).message(), "invalid argument: k");
    assert_eq!(AlgoError::EmptyInput("no samples").message(), "empty input: no samples");
    assert_eq!(AlgoError::InvalidGeometry("zero spacing").message(), "invalid geometry: zero spacing");
    let io = AlgoError::Io(std::io::Error::from(std::io::ErrorKind::UnexpectedEof));
    assert!(io.message().starts_with("I/O error: "));
}
