use lpp::expr::ExprValue;
use lpp::func::{ArgItem, FuncValue, StmtValue};
use lpp::parse::{Lpp, LppStatus, QuoteStatus, transfer};
use lpp::text::{clearnull, covered_with, split_by};

#[test]
fn scan_balanced_text_ends_at_rest() {
    let mut st = LppStatus::new();
    for c in "foo({a,[b]},'x)(')".chars() {
        transfer(c, &mut st);
    }
    assert_eq!(st.brace, 0);
    assert!(st.quote == QuoteStatus::NoQuote);
    assert!(!st.splash);
}

#[test]
fn scan_tracks_quotes_and_depth() {
    let mut st = LppStatus::new();
    for c in "('a".chars() {
        transfer(c, &mut st);
    }
    assert_eq!(st.brace, 1);
    assert!(st.quote == QuoteStatus::Single);
}

#[test]
fn scan_escape_suppresses_quote() {
    let mut st = LppStatus::new();
    for c in "\\'".chars() {
        transfer(c, &mut st);
    }
    assert!(st.quote == QuoteStatus::NoQuote);
}

#[test]
fn statement_split_on_space() {
    let r = Lpp::parse("if a<b");
    assert_eq!(r.name.as_str(), "if");
    assert_eq!(r.args.as_str(), "a<b");
}

#[test]
fn statement_split_quote_aware() {
    let r = Lpp::parse("foo(\"a,b\")");
    assert_eq!(r.name.as_str(), "foo");
    assert_eq!(r.args.as_str(), "(\"a,b\")");
}

#[test]
fn statement_split_backward_brace() {
    let r = Lpp::parse("loop{x;}");
    assert_eq!(r.name.as_str(), "loop");
    assert_eq!(r.args.as_str(), "{x;}");
}

#[test]
fn statement_split_skips_brace_after_paren() {
    let r = Lpp::parse("while(x){y;}");
    assert_eq!(r.name.as_str(), "while");
    assert_eq!(r.args.as_str(), "(x){y;}");
}

#[test]
fn statement_split_whole_text_is_name() {
    let r = Lpp::parse("break");
    assert_eq!(r.name.as_str(), "break");
    assert_eq!(r.args.as_str(), "");
}

#[test]
fn statement_serialization_round_trips() {
    for t in ["foo(\"a,b\")", "if a<b", "break", "while(x){y;}"] {
        let r = Lpp::parse(t);
        assert_eq!(r.to_string().as_str(), t);
    }
}

#[test]
fn statement_serialization_unicode() {
    let r = Lpp::parse("say 日本語");
    assert_eq!(r.name.as_str(), "say");
    assert_eq!(r.args.as_str(), "日本語");
    assert_eq!(r.to_string().as_str(), "say 日本語");
}

#[test]
fn covered_with_respects_quotes() {
    assert!(covered_with("(a,b)", '(', ')'));
    assert!(covered_with("('x)')", '(', ')'));
    assert!(!covered_with("(a)(b)", '(', ')'));
    assert!(!covered_with("(a", '(', ')'));
    assert!(!covered_with("x", '(', ')'));
}

#[test]
fn split_by_top_level_only() {
    let parts = split_by("a,(b,c),'d,e',f", ',');
    let texts: Vec<&str> = parts.iter().map(|s| s.as_str()).collect();
    assert_eq!(texts, vec!["a", "(b,c)", "'d,e'", "f"]);
}

#[test]
fn split_by_keeps_middle_empties_drops_trailing() {
    let parts = split_by("a,,b,", ',');
    let texts: Vec<&str> = parts.iter().map(|s| s.as_str()).collect();
    assert_eq!(texts, vec!["a", "", "b"]);
}

#[test]
fn clearnull_drops_top_level_whitespace() {
    assert_eq!(clearnull("a\tb\nc\rd").as_str(), "abcd");
    // inside quotes a tab stays, inside brackets a line feed stays
    assert_eq!(clearnull("'a\tb'").as_str(), "'a\tb'");
    assert_eq!(clearnull("[a\nb]").as_str(), "[a\nb]");
}

#[test]
fn clearnull_applied_twice_equals_once() {
    for t in ["a\tb\nc\rd", "'a\tb'", "[x,\ny]", "plain"] {
        let once = clearnull(t);
        let twice = clearnull(once.as_str());
        assert_eq!(once.as_str(), twice.as_str());
    }
}

#[test]
fn getprio_table() {
    assert_eq!(ExprValue::getprio(",", false), 0);
    assert_eq!(ExprValue::getprio("=", false), 1);
    assert_eq!(ExprValue::getprio("-=", false), 1);
    assert_eq!(ExprValue::getprio(">>=", false), 1);
    assert_eq!(ExprValue::getprio("?", false), 2);
    assert_eq!(ExprValue::getprio("||", false), 3);
    assert_eq!(ExprValue::getprio("&&", false), 4);
    assert_eq!(ExprValue::getprio("==", false), 8);
    assert_eq!(ExprValue::getprio("!==", false), 8);
    assert_eq!(ExprValue::getprio("<=", false), 9);
    assert_eq!(ExprValue::getprio(">>>", false), 10);
    assert_eq!(ExprValue::getprio("+", false), 11);
    assert_eq!(ExprValue::getprio("+", true), 13);
    assert_eq!(ExprValue::getprio("*", false), 12);
    assert_eq!(ExprValue::getprio("!", false), 13);
    assert_eq!(ExprValue::getprio("++", true), 13);
    assert_eq!(ExprValue::getprio("++", false), 14);
    assert_eq!(ExprValue::getprio("abc", false), -1);
    assert_eq!(ExprValue::getprio("", false), -1);
}

#[test]
fn expression_precedence_splits_at_weakest() {
    match ExprValue::parse("1+2*3").unwrap() {
        ExprValue::Expr(t) => {
            assert_eq!(t.0.as_str(), "+");
            assert_eq!(t.1.as_str(), "1");
            assert_eq!(t.2.as_str(), "2*3");
        },
        _ => panic!("expected a split"),
    }
}

#[test]
fn expression_leftmost_tie_break() {
    match ExprValue::parse("1+2+3").unwrap() {
        ExprValue::Expr(t) => {
            assert_eq!(t.0.as_str(), "+");
            assert_eq!(t.1.as_str(), "1");
            assert_eq!(t.2.as_str(), "2+3");
        },
        _ => panic!("expected a split"),
    }
}

#[test]
fn expression_ignores_nested_and_quoted_operators() {
    match ExprValue::parse("f(a+b)*'x+y'").unwrap() {
        ExprValue::Expr(t) => {
            assert_eq!(t.0.as_str(), "*");
            assert_eq!(t.1.as_str(), "f(a+b)");
            assert_eq!(t.2.as_str(), "'x+y'");
        },
        _ => panic!("expected a split"),
    }
}

#[test]
fn expression_prefix_operator() {
    match ExprValue::parse("-5").unwrap() {
        ExprValue::Expr(t) => {
            assert_eq!(t.0.as_str(), "-");
            assert_eq!(t.1.as_str(), "");
            assert_eq!(t.2.as_str(), "5");
        },
        _ => panic!("expected a split"),
    }
}

#[test]
fn expression_leaf_and_errors() {
    match ExprValue::parse("abc").unwrap() {
        ExprValue::Val(t) => assert_eq!(t.as_str(), "abc"),
        _ => panic!("expected a leaf"),
    }
    let e = ExprValue::parse("(a").unwrap_err();
    assert_eq!(e.err.as_str(), "Invalid expression");
    assert!(ExprValue::parse("'a").is_err());
}

#[test]
fn isexp_detects_parenthesized_and_operators() {
    assert!(ExprValue::isexp("(a)"));
    assert!(ExprValue::isexp("1+2"));
    assert!(!ExprValue::isexp("abc"));
    assert!(!ExprValue::isexp("(a"));
}

#[test]
fn argitem_parse_splits_at_equals() {
    let a = ArgItem::parse("awa=1");
    assert_eq!(a.name.as_str(), "awa");
    assert_eq!(a.value.as_str(), "1");
    assert_eq!(a.to_string().as_str(), "awa=1");
    let b = ArgItem::parse("plain");
    assert_eq!(b.name.as_str(), "plain");
    assert_eq!(b.value.as_str(), "");
    assert_eq!(b.to_string().as_str(), "plain");
}

#[test]
fn stmtvalue_strips_braces() {
    let s = StmtValue::parse("{awa}");
    assert_eq!(s.value.as_str(), "awa");
    assert_eq!(s.to_string().as_str(), "{awa}");
}

#[test]
fn funcvalue_parse_and_errors() {
    let f = FuncValue::parse("func(a,b=2){c;}").unwrap();
    assert_eq!(f.args.len(), 2);
    assert_eq!(f.to_string().as_str(), "func(a,b=2){c;}");
    assert_eq!(FuncValue::parse("func").unwrap_err().err.as_str(), "Syntax error");
    assert_eq!(FuncValue::parse("func(a) {x}").unwrap_err().err.as_str(), "Syntax error");
    assert_eq!(FuncValue::parse("func(a=1,b){x}").unwrap_err().err.as_str(), "Syntax Error");
}

#[test]
fn funcvalue_nested_commas_stay_inside() {
    let f = FuncValue::parse("func(a=[1,2],b='x,y'){z}").unwrap();
    assert_eq!(f.args.len(), 2);
    assert_eq!(f.args[0].value.as_str(), "[1,2]");
    assert_eq!(f.args[1].value.as_str(), "'x,y'");
}

#[test]
fn transfer_rev_swaps_polarity() {
    let mut st = LppStatus::new();
    lpp::parse::transfer_rev(')', '\0', &mut st);
    assert_eq!(st.brace, 1);
    lpp::parse::transfer_rev('(', ')', &mut st);
    assert_eq!(st.brace, 0);
}
