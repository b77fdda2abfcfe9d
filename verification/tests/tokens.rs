use eoautomata::eoa::{EoaError, Token, TokenFormatKind};

fn node_parts(t: Token) -> (String, bool, Vec<String>) {
    match t {
        Token::Node(n) => (n.name, n.acceptor, n.stay),
        Token::Arrow(_) => panic!("expected a node token"),
    }
}

#[test]
fn tokenize() {}

#[test]
fn start_arrow_lexeme() {
    let t = Token::from_str("->").unwrap();
    assert!(matches!(t, Token::Arrow(None)));
}

#[test]
fn labeled_arrow_lexeme() {
    let t = Token::from_str("-a,b>").unwrap();
    match t {
        Token::Arrow(Some(symbols)) => {
            assert_eq!(symbols, vec!["a".to_string(), "b".to_string()]);
        }
        _ => panic!("expected a labeled arrow"),
    }
}

#[test]
fn labeled_arrow_empty_pieces() {
    let t = Token::from_str("-,>").unwrap();
    match t {
        Token::Arrow(Some(symbols)) => {
            assert_eq!(symbols, vec![String::new(), String::new()]);
        }
        _ => panic!("expected a labeled arrow"),
    }
}

#[test]
fn labeled_arrow_trailing_dash_stripped() {
    let t = Token::from_str("-y,z->").unwrap();
    match t {
        Token::Arrow(Some(symbols)) => {
            assert_eq!(symbols, vec!["y".to_string(), "z".to_string()]);
        }
        _ => panic!("expected a labeled arrow"),
    }
}

#[test]
fn labeled_arrow_single_symbol_both_forms() {
    for lexeme in ["-x->", "-x>"] {
        let t = Token::from_str(lexeme).unwrap();
        match t {
            Token::Arrow(Some(symbols)) => {
                assert_eq!(symbols, vec!["x".to_string()]);
            }
            _ => panic!("expected a labeled arrow"),
        }
    }
}

#[test]
fn labeled_arrow_empty_interior() {
    let t = Token::from_str("-->").unwrap();
    match t {
        Token::Arrow(Some(symbols)) => {
            assert_eq!(symbols, vec![String::new()]);
        }
        _ => panic!("expected a labeled arrow"),
    }
}

#[test]
fn acceptor_node_plain() {
    let (name, acceptor, stay) = node_parts(Token::from_str("(S)").unwrap());
    assert_eq!(name, "S");
    assert!(acceptor);
    assert!(stay.is_empty());
}

#[test]
fn acceptor_node_with_selfloop() {
    let (name, acceptor, stay) = node_parts(Token::from_str("(S)^a,b").unwrap());
    assert_eq!(name, "S");
    assert!(acceptor);
    assert_eq!(stay, vec!["a".to_string(), "b".to_string()]);
}

#[test]
fn acceptor_node_empty_name() {
    let (name, acceptor, stay) = node_parts(Token::from_str("()").unwrap());
    assert_eq!(name, "");
    assert!(acceptor);
    assert!(stay.is_empty());
}

#[test]
fn plain_node_lexeme() {
    let (name, acceptor, stay) = node_parts(Token::from_str("state1").unwrap());
    assert_eq!(name, "state1");
    assert!(!acceptor);
    assert!(stay.is_empty());
}

#[test]
fn plain_node_with_selfloop() {
    let (name, acceptor, stay) = node_parts(Token::from_str("q^r").unwrap());
    assert_eq!(name, "q");
    assert!(!acceptor);
    assert_eq!(stay, vec!["r".to_string()]);
}

#[test]
fn plain_node_unicode_name() {
    let (name, acceptor, stay) = node_parts(Token::from_str("héllo").unwrap());
    assert_eq!(name, "héllo");
    assert!(!acceptor);
    assert!(stay.is_empty());
}

#[test]
fn missing_closing_delimiter() {
    let e = Token::from_str("(S").unwrap_err();
    assert_eq!(e, EoaError::TokenFormat(TokenFormatKind::MissingClosingDelimiter));
}

#[test]
fn trailing_after_delimiter() {
    let e = Token::from_str("(S)x").unwrap_err();
    assert_eq!(e, EoaError::TokenFormat(TokenFormatKind::TrailingAfterDelimiter));
}

#[test]
fn unrecognized_lexeme() {
    let e = Token::from_str("^x").unwrap_err();
    assert_eq!(e, EoaError::TokenFormat(TokenFormatKind::UnrecognizedToken));
}

#[test]
fn acceptor_caret_without_symbols() {
    let (name, acceptor, stay) = node_parts(Token::from_str("(S)^").unwrap());
    assert_eq!(name, "S");
    assert!(acceptor);
    assert_eq!(stay, vec![String::new()]);
}
