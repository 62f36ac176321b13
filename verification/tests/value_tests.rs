use lpp::num::NAN_BITS;
use lpp::var::{Var, ValueType};

fn num(x: f64) -> Var {
    Var::Number(x.to_bits())
}

fn bits_of(v: &Var) -> u64 {
    match v {
        Var::Number(b) => *b,
        _ => panic!("expected a number"),
    }
}

#[test]
fn parse_empty_is_null() {
    let v = Var::parse("").unwrap();
    assert!(matches!(v, Var::Null));
    assert_eq!(v.to_string(), "null");
}

#[test]
fn parse_word_literals() {
    assert!(matches!(Var::parse("null").unwrap(), Var::Null));
    assert!(matches!(Var::parse("true").unwrap(), Var::Boolean(true)));
    assert!(matches!(Var::parse("false").unwrap(), Var::Boolean(false)));
}

#[test]
fn numeric_parse_float_round_trip() {
    let v = Var::parse("3.14").unwrap();
    assert_eq!(v.to_string(), "3.14");
}

#[test]
fn numeric_parse_hex() {
    let v = Var::parse("0xff").unwrap();
    assert_eq!(bits_of(&v), 255.0f64.to_bits());
    assert_eq!(v.to_string(), "255");
}

#[test]
fn numeric_parse_binary_octal_underscore() {
    assert_eq!(bits_of(&Var::parse("0b110").unwrap()), 6.0f64.to_bits());
    assert_eq!(bits_of(&Var::parse("0o17").unwrap()), 15.0f64.to_bits());
    assert_eq!(bits_of(&Var::parse("1e3").unwrap()), 1000.0f64.to_bits());
}

#[test]
fn numeric_parse_hex_with_float_letters() {
    // a radix prefix wins over the float markers the digits happen to hold
    assert_eq!(bits_of(&Var::parse("0xe").unwrap()), 14.0f64.to_bits());
    assert_eq!(bits_of(&Var::parse("0x1e").unwrap()), 30.0f64.to_bits());
    assert_eq!(bits_of(&Var::parse("0xbead").unwrap()), 48813.0f64.to_bits());
}

#[test]
fn number_text_matches_shortest_decimal() {
    let samples: [f64; 12] = [
        0.0, -0.0, 1.0, -2.5, 0.1, 255.0, 3.14, 0.00001, 12345678.9, 1e21, 5e-324, 1.0 / 3.0,
    ];
    for x in samples {
        assert_eq!(num(x).to_string(), format!("{}", x));
    }
}

#[test]
fn number_text_specials() {
    assert_eq!(num(f64::NAN).to_string(), "NaN");
    assert_eq!(num(f64::INFINITY).to_string(), "inf");
    assert_eq!(num(f64::NEG_INFINITY).to_string(), "-inf");
}

#[test]
fn string_escape_decodes_newline() {
    let v = Var::parse("\"a\\nb\"").unwrap();
    match &v {
        Var::String(s) => assert_eq!(s.as_str(), "a\nb"),
        _ => panic!("expected a string"),
    }
    assert_eq!(v.to_string(), "\"a\\nb\"");
}

#[test]
fn string_escape_unicode() {
    let v = Var::parse("'\\u0041'").unwrap();
    match &v {
        Var::String(s) => assert_eq!(s.as_str(), "A"),
        _ => panic!("expected a string"),
    }
}

#[test]
fn string_escape_invalid_unicode_is_error() {
    assert!(Var::parse("'\\u12'").is_err());
    assert!(Var::parse("'\\uzzzz'").is_err());
}

#[test]
fn string_unterminated_escape_is_error() {
    assert!(Var::parse("'ab\\'").is_err());
}

#[test]
fn array_parse_and_serialize() {
    let v = Var::parse("[1,true,\"x\"]").unwrap();
    assert_eq!(v.to_string(), "[1,true,\"x\"]");
    let e = Var::parse("[]").unwrap();
    assert_eq!(e.to_string(), "[]");
}

#[test]
fn array_bad_element_is_error() {
    assert!(Var::parse("['\\u12']").is_err());
}

#[test]
fn object_parse_sorts_keys_and_replaces_duplicates() {
    let v = Var::parse("{\"b\":2,\"a\":1}").unwrap();
    assert_eq!(v.to_string(), "{\"a\":1,\"b\":2}");
    let w = Var::parse("{\"a\":1,\"a\":2}").unwrap();
    assert_eq!(w.to_string(), "{\"a\":2}");
}

#[test]
fn object_vs_block_fallback() {
    let v = Var::parse("{\"a\":1,\"b\":2}").unwrap();
    assert!(matches!(v, Var::Object(_)));
    let w = Var::parse("{doSomething();}").unwrap();
    match &w {
        Var::Statement(st) => assert_eq!(st.value.as_str(), "doSomething();"),
        _ => panic!("expected a statement block"),
    }
    // a bareword key does not read as a string literal, so the braces fall
    // back to a raw block as well
    let u = Var::parse("{a:1,b:2}").unwrap();
    assert!(matches!(u, Var::Statement(_)));
}

#[test]
fn function_parse_round_trip() {
    let v = Var::parse("func(a,b=1){ret(a+b);}").unwrap();
    match &v {
        Var::Function(f) => {
            assert_eq!(f.args.len(), 2);
            assert_eq!(f.args[0].name.as_str(), "a");
            assert_eq!(f.args[0].value.as_str(), "");
            assert_eq!(f.args[1].name.as_str(), "b");
            assert_eq!(f.args[1].value.as_str(), "1");
            assert_eq!(f.value.value.as_str(), "ret(a+b);");
        },
        _ => panic!("expected a function"),
    }
    assert_eq!(v.to_string(), "func(a,b=1){ret(a+b);}");
}

#[test]
fn function_default_order_is_enforced() {
    assert!(Var::parse("func(a=1,b){x}").is_err());
}

#[test]
fn expression_fallback() {
    let v = Var::parse("x+1").unwrap();
    match &v {
        Var::Expression(lpp::expr::ExprValue::Expr(t)) => {
            assert_eq!(t.0.as_str(), "+");
            assert_eq!(t.1.as_str(), "x");
            assert_eq!(t.2.as_str(), "1");
        },
        _ => panic!("expected an expression"),
    }
}

#[test]
fn parse_strips_wrapping_parens() {
    let v = Var::parse("((x))").unwrap();
    match &v {
        Var::Expression(lpp::expr::ExprValue::Val(t)) => assert_eq!(t.as_str(), "x"),
        _ => panic!("expected a leaf expression"),
    }
}

#[test]
fn unbalanced_text_is_error() {
    assert!(Var::parse("(a").is_err());
    assert!(Var::parse("'a").is_err());
}

#[test]
fn round_trip_reparses_equal() {
    for t in ["null", "true", "false", "3.14", "255", "\"a\\nb\"", "[1,[2,3]]",
        "{\"k\":[true,null]}", "func(a,b=1){x;}"] {
        let v = Var::parse(t).unwrap();
        let s = v.to_string();
        let w = Var::parse(s.as_str()).unwrap();
        let r = v.opcall("===", &w).unwrap();
        match (t, r) {
            (_, Var::Boolean(b)) => assert!(b, "round trip failed for {}", t),
            _ => panic!("expected a boolean"),
        }
        assert_eq!(w.to_string(), s);
    }
}

#[test]
fn equality_coerces_and_identity_does_not() {
    let r = num(1.0).opcall("==", &Var::Boolean(true)).unwrap();
    assert!(matches!(r, Var::Boolean(true)));
    let r2 = num(1.0).opcall("===", &Var::Boolean(true)).unwrap();
    assert!(matches!(r2, Var::Boolean(false)));
    let r3 = num(0.0).opcall("==", &Var::Boolean(true)).unwrap();
    assert!(matches!(r3, Var::Boolean(false)));
}

#[test]
fn comparison_on_unconvertible_is_false() {
    let arr = Var::parse("[1]").unwrap();
    let r = arr.opcall("==", &Var::Null).unwrap();
    assert!(matches!(r, Var::Boolean(false)));
    let arr2 = Var::parse("[1]").unwrap();
    let r2 = arr2.opcall("!=", &Var::Null).unwrap();
    assert!(matches!(r2, Var::Boolean(false)));
}

#[test]
fn division_by_zero_is_nan() {
    let r = num(4.0).opcall("/", &num(0.0)).unwrap();
    let b = bits_of(&r);
    assert!(f64::from_bits(b).is_nan());
    let m = num(4.0).opcall("%", &num(0.0)).unwrap();
    assert!(f64::from_bits(bits_of(&m)).is_nan());
    assert_eq!(f64::from_bits(NAN_BITS).is_nan(), true);
}

#[test]
fn arithmetic_matches_doubles() {
    let r = num(1.5).opcall("+", &num(2.25)).unwrap();
    assert_eq!(bits_of(&r), (1.5f64 + 2.25f64).to_bits());
    let r = num(1.5).opcall("-", &num(2.25)).unwrap();
    assert_eq!(bits_of(&r), (1.5f64 - 2.25f64).to_bits());
    let r = num(1.5).opcall("*", &num(2.25)).unwrap();
    assert_eq!(bits_of(&r), (1.5f64 * 2.25f64).to_bits());
    let r = num(1.5).opcall("/", &num(2.25)).unwrap();
    assert_eq!(bits_of(&r), (1.5f64 / 2.25f64).to_bits());
    let r = num(7.5).opcall("%", &num(2.0)).unwrap();
    assert_eq!(bits_of(&r), (7.5f64 % 2.0f64).to_bits());
}

#[test]
fn bitwise_and_shifts_truncate_to_i32() {
    let r = num(6.9).opcall("&", &num(3.0)).unwrap();
    assert_eq!(bits_of(&r), ((6i32 & 3i32) as f64).to_bits());
    let r = num(1.0).opcall("<<", &num(4.0)).unwrap();
    assert_eq!(bits_of(&r), (16.0f64).to_bits());
    let r = num(-8.0).opcall(">>", &num(1.0)).unwrap();
    assert_eq!(bits_of(&r), (-4.0f64).to_bits());
    let r = num(-8.0).opcall(">>>", &num(1.0)).unwrap();
    assert_eq!(bits_of(&r), ((((-8.0f64) as u32) >> 1) as f64).to_bits());
    let r = num(3000000000.0).opcall(">>>", &num(1.0)).unwrap();
    assert_eq!(bits_of(&r), (((3000000000.0f64 as u32) >> 1) as f64).to_bits());
}

#[test]
fn plus_concatenates_strings_and_arrays() {
    let a = Var::parse("\"ab\"").unwrap();
    let b = Var::parse("\"cd\"").unwrap();
    let r = a.opcall("+", &b).unwrap();
    assert_eq!(r.to_string(), "\"abcd\"");
    let xs = Var::parse("[1,2]").unwrap();
    let ys = Var::parse("[3]").unwrap();
    let r = xs.opcall("+", &ys).unwrap();
    assert_eq!(r.to_string(), "[1,2,3]");
}

#[test]
fn string_ordering_is_lexicographic() {
    let a = Var::parse("\"abc\"").unwrap();
    let b = Var::parse("\"abd\"").unwrap();
    let r = a.opcall("<", &b).unwrap();
    assert!(matches!(r, Var::Boolean(true)));
    // a number coerces to its text before comparing with a string
    let n = num(10.0);
    let s = Var::parse("\"9\"").unwrap();
    let r = n.opcall("<", &s).unwrap();
    assert!(matches!(r, Var::Boolean(true)));
}

#[test]
fn opcall_error_kinds() {
    let e = Var::Null.opcall("-", &Var::Null).unwrap_err();
    assert_eq!(e.err.as_str(), "Calculation failed");
    let e = Var::Null.opcall("-", &num(1.0)).unwrap_err();
    assert_eq!(e.err.as_str(), "Conversion failed");
    let e = num(1.0).opcall("@@", &num(1.0)).unwrap_err();
    assert_eq!(e.err.as_str(), "Unknown operand");
}

#[test]
fn unary_operators() {
    let r = num(2.0).opcall_single('-').unwrap();
    assert_eq!(bits_of(&r), (-2.0f64).to_bits());
    let r = num(2.9).opcall_single('~').unwrap();
    assert_eq!(bits_of(&r), ((!2i32) as f64).to_bits());
    let r = num(0.0).opcall_single('!').unwrap();
    assert!(matches!(r, Var::Boolean(true)));
    let r = Var::Boolean(true).opcall_single('+').unwrap();
    assert_eq!(bits_of(&r), 1.0f64.to_bits());
    let e = Var::Null.opcall_single('-').unwrap_err();
    assert_eq!(e.err.as_str(), "Conversion failed");
    let e = num(1.0).opcall_single('?').unwrap_err();
    assert_eq!(e.err.as_str(), "Unknown operand");
}

#[test]
fn convert_rules() {
    assert!(Var::Null.convert(ValueType::Null).is_ok());
    assert!(Var::Null.convert(ValueType::Boolean).is_err());
    let b = num(2.0).convert(ValueType::Boolean).unwrap();
    assert!(matches!(b, Var::Boolean(true)));
    let n = Var::Boolean(false).convert(ValueType::Number).unwrap();
    assert_eq!(bits_of(&n), 0.0f64.to_bits());
    let s = num(1.5).convert(ValueType::String).unwrap();
    match &s {
        Var::String(t) => assert_eq!(t.as_str(), "1.5"),
        _ => panic!("expected a string"),
    }
    assert!(num(1.0).convert(ValueType::Function).is_err());
    assert!(Var::Null.convert(ValueType::Array).is_err());
}

#[test]
fn tp_maps_function_to_object() {
    let f = Var::parse("func(){}").unwrap();
    assert_eq!(f.tp(), ValueType::Object);
    assert_eq!(Var::Null.tp(), ValueType::Null);
    assert_eq!(num(1.0).tp(), ValueType::Number);
}

#[test]
fn statement_and_expression_serialize_as_error_type() {
    let w = Var::parse("{doSomething();}").unwrap();
    assert_eq!(w.to_string(), "<error-type>");
    let e = Var::parse("x+1").unwrap();
    assert_eq!(e.to_string(), "<error-type>");
}

#[test]
fn string_round_trip_with_specials() {
    for raw in ["a\nb", "tab\there", "q'\"\\mix", "nul\0end", "日本語"] {
        let v = Var::String(String::from(raw));
        let s = v.to_string();
        let w = Var::parse(s.as_str()).unwrap();
        match &w {
            Var::String(t) => assert_eq!(t.as_str(), raw),
            _ => panic!("expected a string"),
        }
    }
}

#[test]
fn round_trip_boundary_overflowing_literal() {
    // an overflowing literal becomes an infinity, whose text no longer
    // reads as a number: the round trip stops at such values
    let v = Var::parse("1e999").unwrap();
    assert_eq!(bits_of(&v), f64::INFINITY.to_bits());
    assert_eq!(v.to_string(), "inf");
    let w = Var::parse("inf").unwrap();
    assert!(matches!(w, Var::Expression(_)));
}
