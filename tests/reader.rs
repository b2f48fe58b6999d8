use metal_scheme::{
    array_to_list, float_token, identifier, sign, token, token_f, token_from_str, Decimal,
    ParseError, Token,
};

fn read(text: &str) -> Vec<Token> {
    match token(text.as_bytes()) {
        Ok(forms) => forms,
        Err(e) => panic!("Failed to parse! {} at {}", text, e.offset),
    }
}

fn read_one(text: &str) -> Token {
    let mut forms = read(text);
    assert_eq!(forms.len(), 1, "{}", text);
    forms.pop().unwrap()
}

fn decimal_is(d: &Decimal, negative: bool, int_digits: &str, frac_digits: &str) -> bool {
    d.negative == negative
        && d.int_digits == int_digits.as_bytes()
        && d.frac_digits == frac_digits.as_bytes()
}

fn symbol_is(t: &Token, name: &str) -> bool {
    matches!(t, Token::Symbol(s) if s == name)
}

/// The elements of a proper list.
fn elements(t: &Token) -> Vec<&Token> {
    let mut out = Vec::new();
    let mut cur = t;
    loop {
        match cur {
            Token::Nil => return out,
            Token::Cons { first, rest } => {
                out.push(&**first);
                cur = rest;
            }
            _ => panic!("not a proper list"),
        }
    }
}

#[test]
fn reads_atoms() {
    assert!(matches!(read_one("nil"), Token::Nil));
    assert!(matches!(read_one("()"), Token::Nil));
    assert!(matches!(read_one("(  )"), Token::Nil));
    assert!(matches!(read_one("42"), Token::Int(42)));
    assert!(matches!(read_one("-17"), Token::Int(-17)));
    assert!(matches!(read_one("+5"), Token::Int(5)));
    assert!(matches!(read_one("#t"), Token::Bool(true)));
    assert!(matches!(read_one("#f"), Token::Bool(false)));
    assert!(matches!(read_one("#\\a"), Token::Char('a')));
    assert!(matches!(read_one("#\\space"), Token::Char(' ')));
    assert!(matches!(read_one("#\\newline"), Token::Char('\n')));
    assert!(matches!(read_one("#\\λ"), Token::Char('λ')));
    assert!(symbol_is(&read_one("foo-bar?"), "foo-bar?"));
    assert!(symbol_is(&read_one("+"), "+"));
    assert!(symbol_is(&read_one("-"), "-"));
    assert!(symbol_is(&read_one("<="), "<="));
    assert!(symbol_is(&read_one("λx"), "λx"));
}

#[test]
fn reads_numerals_as_written() {
    match read_one("1.45") {
        Token::Float(d) => assert!(decimal_is(&d, false, "1", "45")),
        _ => panic!(),
    }
    match read_one("-0.5") {
        Token::Float(d) => assert!(decimal_is(&d, true, "0", "5")),
        _ => panic!(),
    }
    match read_one("3.") {
        Token::Float(d) => assert!(decimal_is(&d, false, "3", "")),
        _ => panic!(),
    }
    match read_one("1.45+4i") {
        Token::Complex(re, im) => {
            assert!(decimal_is(&re, false, "1", "45"));
            assert!(decimal_is(&im, false, "4", ""));
        }
        _ => panic!(),
    }
    match read_one("2 - 3.5i") {
        Token::Complex(re, im) => {
            assert!(decimal_is(&re, false, "2", ""));
            assert!(decimal_is(&im, true, "3", "5"));
        }
        _ => panic!(),
    }
    match read_one("+i") {
        Token::Complex(re, im) => {
            assert!(decimal_is(&re, false, "0", ""));
            assert!(decimal_is(&im, false, "1", ""));
        }
        _ => panic!(),
    }
    match read_one("-i") {
        Token::Complex(_, im) => assert!(decimal_is(&im, true, "1", "")),
        _ => panic!(),
    }
    assert!(symbol_is(&read_one("-inf"), "-inf"));
}

#[test]
fn integer_literals_must_fit() {
    assert!(matches!(read_one("2147483647"), Token::Int(i32::MAX)));
    assert!(matches!(read_one("-2147483648"), Token::Int(i32::MIN)));
    let e = token(b"(+ 1 2147483648)").err().unwrap();
    assert_eq!(e.offset, 5);
    assert_eq!(e.remainder, b"2147483648)".to_vec());
    assert_eq!(token(b"99999999999999999999").err().unwrap().offset, 0);
}

#[test]
fn reads_nested_lists() {
    let t = read_one("(+ 1 (* 2 3) ; a comment\n 4)");
    let items = elements(&t);
    assert_eq!(items.len(), 4);
    assert!(symbol_is(items[0], "+"));
    assert!(matches!(items[1], Token::Int(1)));
    let inner = elements(items[2]);
    assert_eq!(inner.len(), 3);
    assert!(symbol_is(inner[0], "*"));
    assert!(matches!(inner[2], Token::Int(3)));
    assert!(matches!(items[3], Token::Int(4)));
}

#[test]
fn reads_a_sequence_of_forms() {
    let forms = read("; leading comment\n(a) 12abc\n#t ; trailing");
    assert_eq!(forms.len(), 4);
    assert_eq!(elements(&forms[0]).len(), 1);
    assert!(matches!(forms[1], Token::Int(12)));
    assert!(symbol_is(&forms[2], "abc"));
    assert!(matches!(forms[3], Token::Bool(true)));
    assert!(read("").is_empty());
    assert!(read("  \n ; only a comment").is_empty());
}

#[test]
fn parse_errors_carry_the_offset() {
    assert_eq!(
        token(b"(+ 1 2))").err(),
        Some(ParseError { offset: 7, remainder: b")".to_vec() })
    );
    let unclosed = token(b"(+ 1 (2 3)").err().unwrap();
    assert_eq!(unclosed.offset, 10);
    assert!(unclosed.remainder.is_empty());
    assert_eq!(token(b"#\\").err().unwrap().offset, 0);
    assert_eq!(token(b"ok \xff\xfe").err().unwrap().offset, 3);
}

#[test]
fn scanners() {
    assert_eq!(identifier(b"abc def", 0), Some(3));
    assert_eq!(identifier(b"abc def", 3), None);
    assert_eq!(identifier(b"(x", 1), Some(2));
    assert_eq!(sign(b"-4", 0), (1, true));
    assert_eq!(sign(b"+4", 0), (1, false));
    assert_eq!(sign(b"4", 0), (0, false));
    assert!(matches!(token_from_str(b"-12"), Some(Token::Int(-12))));
    assert!(matches!(token_from_str(b"+7"), Some(Token::Int(7))));
    assert!(token_from_str(b"1-2").is_none());
    assert!(token_from_str(b"").is_none());
    assert!(token_from_str(b"-").is_none());
    assert!(token_from_str(b"3000000000").is_none());
}

#[test]
fn builds_lists() {
    assert!(matches!(array_to_list(vec![]), Token::Nil));
    let l = token_f(vec![Token::Int(1), Token::Bool(false), Token::Char('c')]);
    let items = elements(&l);
    assert_eq!(items.len(), 3);
    assert!(matches!(items[0], Token::Int(1)));
    assert!(matches!(items[1], Token::Bool(false)));
    assert!(matches!(items[2], Token::Char('c')));
    match float_token(true, b"12", Some(b"5")) {
        Token::Float(d) => assert!(decimal_is(&d, true, "12", "5")),
        _ => panic!(),
    }
    match float_token(false, b"7", None) {
        Token::Float(d) => assert!(decimal_is(&d, false, "7", "")),
        _ => panic!(),
    }
}
