use lib::lexer::{Keyword, Lexer, LexerErr, Token};

fn lex(code: &str) -> Lexer {
    match Lexer::from_code(&String::from(code)) {
        Ok(l) => l,
        Err(_) => panic!("lexing failed"),
    }
}

fn all_tokens(code: &str) -> Vec<String> {
    let mut l = lex(code);
    let mut out = Vec::new();
    loop {
        let t = match l.next() {
            Some(t) => t.clone(),
            None => break,
        };
        out.push(t.describe());
    }
    out
}

#[test]
fn lexes_a_function() {
    let toks = all_tokens("fn main() { a := 1; }");
    assert_eq!(
        toks,
        vec![
            "kw Fn at l1c1",
            "ident \"main\" at l1c4",
            "symbol \"(\" at l1c8",
            "symbol \")\" at l1c9",
            "symbol \"{\" at l1c11",
            "ident \"a\" at l1c13",
            "symbol \":=\" at l1c15",
            "number \"1\" at l1c18",
            "symbol \";\" at l1c19",
            "symbol \"}\" at l1c21",
            "eof",
        ]
    );
}

#[test]
fn empty_source_is_only_eof() {
    assert_eq!(all_tokens(""), vec!["eof"]);
}

#[test]
fn keywords_and_otherwise() {
    let toks = all_tokens("if else otherwise return struct fnx");
    assert_eq!(
        toks,
        vec![
            "kw If at l1c1",
            "kw Else at l1c4",
            "kw Else at l1c9",
            "kw Return at l1c19",
            "kw Struct at l1c26",
            "ident \"fnx\" at l1c33",
            "eof",
        ]
    );
}

#[test]
fn two_character_symbols() {
    let toks = all_tokens("== += -= *= /= != <= >= := = <");
    assert_eq!(
        toks,
        vec![
            "symbol \"==\" at l1c1",
            "symbol \"+=\" at l1c4",
            "symbol \"-=\" at l1c7",
            "symbol \"*=\" at l1c10",
            "symbol \"/=\" at l1c13",
            "symbol \"!=\" at l1c16",
            "symbol \"<=\" at l1c19",
            "symbol \">=\" at l1c22",
            "symbol \":=\" at l1c25",
            "symbol \"=\" at l1c28",
            "symbol \"<\" at l1c30",
            "eof",
        ]
    );
}

#[test]
fn newlines_and_tabs_move_the_position() {
    let toks = all_tokens("a\n\tb\n  12x");
    assert_eq!(
        toks,
        vec![
            "ident \"a\" at l1c1",
            "ident \"b\" at l2c2",
            "number \"12\" at l3c3",
            "ident \"x\" at l3c5",
            "eof",
        ]
    );
}

#[test]
fn unicode_whitespace_is_skipped() {
    let toks = all_tokens("a\u{00A0}b\u{2003}c");
    assert_eq!(toks, vec!["ident \"a\" at l1c1", "ident \"b\" at l1c3", "ident \"c\" at l1c5", "eof"]);
}

#[test]
fn invalid_character_is_an_error() {
    match Lexer::from_code(&String::from("a $ b")) {
        Err(LexerErr::Invalid(m)) => assert_eq!(m, "Invalid char $"),
        Ok(_) => panic!("expected an error"),
    }
    match Lexer::from_code(&String::from("1.5")) {
        Err(LexerErr::Invalid(m)) => assert_eq!(m, "Invalid char ."),
        Ok(_) => panic!("expected an error"),
    }
}

#[test]
fn peek_current_next_prev() {
    let mut l = lex("a b");
    assert!(l.prev().is_none());
    assert_eq!(l.current().map(|t| t.describe()), Some(String::from("ident \"a\" at l1c1")));
    assert_eq!(l.peek().map(|t| t.describe()), Some(String::from("ident \"b\" at l1c3")));
    assert_eq!(l.next().map(|t| t.describe()), Some(String::from("ident \"a\" at l1c1")));
    assert_eq!(l.prev().map(|t| t.describe()), Some(String::from("ident \"a\" at l1c1")));
    assert_eq!(l.next().map(|t| t.describe()), Some(String::from("ident \"b\" at l1c3")));
    assert_eq!(l.current().map(|t| t.describe()), Some(String::from("eof")));
    assert!(l.peek().is_none());
    assert_eq!(l.next().map(|t| t.describe()), Some(String::from("eof")));
    assert!(l.current().is_none());
    assert!(l.next().is_none());
}

#[test]
fn token_predicates() {
    let mut l = lex("fn x := = : :: += ;");
    let fn_kw = l.next().unwrap().clone();
    assert!(fn_kw.is_kw(Keyword::Fn));
    assert!(!fn_kw.is_kw(Keyword::If));
    assert!(!fn_kw.is_ident());
    let x = l.next().unwrap().clone();
    assert!(x.is_ident());
    assert!(!x.is_symbol("x"));
    let walrus = l.next().unwrap().clone();
    assert!(walrus.is_vardec_symbol());
    assert!(!walrus.is_assingment_symbol());
    assert!(walrus.is_symbol(":="));
    let eq = l.next().unwrap().clone();
    assert!(eq.is_assingment_symbol());
    assert!(!eq.is_vardec_symbol());
    let colon = l.next().unwrap().clone();
    assert!(colon.is_vardec_symbol());
    // "::" is two ":" tokens: the lexer makes no "::" symbol
    let c1 = l.next().unwrap().clone();
    assert!(c1.is_symbol(":"));
    let c2 = l.next().unwrap().clone();
    assert!(c2.is_symbol(":"));
    let plus_eq = l.next().unwrap().clone();
    assert!(plus_eq.is_assingment_symbol());
    let semi = l.next().unwrap().clone();
    assert!(!semi.is_assingment_symbol());
    assert!(!semi.is_vardec_symbol());
    assert!(Token::EOF.describe() == "eof");
    assert!(!Token::EOF.is_ident());
}

#[test]
fn each_token_spans_its_own_text() {
    let code = "fn add(): i32 {\n  total := 10 + 2;\n}";
    let chars: Vec<char> = code.chars().collect();
    let mut l = lex(code);
    let expected = ["fn", "add", "(", ")", ":", "i32", "{", "total", ":=", "10", "+", "2", ";", "}"];
    for e in expected.iter() {
        let t = l.next().unwrap().clone();
        let (text, sp) = match t {
            Token::Ident(s, sp) => (s, sp),
            Token::Num(s, sp) => (s, sp),
            Token::Symbol(s, sp) => (s, sp),
            Token::Keyword(k, sp) => (k.name().to_lowercase(), sp),
            Token::EOF => panic!("early end"),
        };
        let slice: String = chars[sp.start..sp.end].iter().collect();
        assert_eq!(&slice, e);
        assert_eq!(&text, e);
    }
}

#[test]
fn keyword_names() {
    assert_eq!(Keyword::Fn.name(), "Fn");
    assert_eq!(Keyword::Return.name(), "Return");
    assert_eq!(Keyword::Struct.name(), "Struct");
}

#[test]
fn unicode_spaces_separate_tokens() {
    let toks = all_tokens("a\u{a0}b\u{3000}c\u{2009}d");
    assert_eq!(
        toks,
        vec!["ident \"a\" at l1c1", "ident \"b\" at l1c3", "ident \"c\" at l1c5", "ident \"d\" at l1c7", "eof"]
    );
    assert!(Lexer::from_code(&String::from("a\u{200b}b")).is_err());
}
