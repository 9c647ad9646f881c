use autodbconv::tokenizer::Tokenizer;
use autodbconv::Error;

#[test]
fn plain_tokens_in_order() {
    let mut t = Tokenizer::new("Nodes { Master : ECU1 }");
    assert_eq!(t.next().unwrap(), "Nodes");
    assert_eq!(t.next().unwrap(), "{");
    assert_eq!(t.next().unwrap(), "Master");
    assert_eq!(t.next().unwrap(), ":");
    assert_eq!(t.next().unwrap(), "ECU1");
    assert_eq!(t.next().unwrap(), "}");
    assert!(matches!(t.next(), Err(Error::ExpectedToken)));
}

#[test]
fn peek_does_not_advance() {
    let mut t = Tokenizer::new("alpha beta");
    assert_eq!(t.peek().unwrap(), "alpha");
    assert_eq!(t.peek().unwrap(), "alpha");
    assert_eq!(t.next().unwrap(), "alpha");
    assert_eq!(t.next().unwrap(), "beta");
}

#[test]
fn comments_are_skipped() {
    let mut t = Tokenizer::new("a /* block */ b // line\n c");
    assert_eq!(t.next().unwrap(), "a");
    assert_eq!(t.next().unwrap(), "b");
    assert_eq!(t.next().unwrap(), "c");
    assert!(t.next().is_err());
}

#[test]
fn quoted_strings_are_atomic() {
    let mut t = Tokenizer::new("v = \"2.2 ; with } spaces\" ;");
    assert_eq!(t.next().unwrap(), "v");
    assert_eq!(t.next().unwrap(), "=");
    assert_eq!(t.next().unwrap(), "\"2.2 ; with } spaces\"");
    assert_eq!(t.next().unwrap(), ";");
}

#[test]
fn delimiters_split_identifiers() {
    let mut t = Tokenizer::new("Sig1:8,0;");
    assert_eq!(t.next().unwrap(), "Sig1");
    assert_eq!(t.next().unwrap(), ":");
    assert_eq!(t.next().unwrap(), "8");
    assert_eq!(t.next().unwrap(), ",");
    assert_eq!(t.next().unwrap(), "0");
    assert_eq!(t.next().unwrap(), ";");
}

#[test]
fn bad_comment_opener_is_fatal() {
    let mut t = Tokenizer::new("a /x b");
    assert_eq!(t.next().unwrap(), "a");
    assert!(matches!(t.next(), Err(Error::ExpectedComment)));
}

#[test]
fn whitespace_only_has_no_token() {
    let mut t = Tokenizer::new("   \t\n  ");
    assert!(matches!(t.next(), Err(Error::ExpectedToken)));
}

#[test]
fn unterminated_block_comment_has_no_token() {
    let mut t = Tokenizer::new("a /* never closed");
    assert_eq!(t.next().unwrap(), "a");
    assert!(matches!(t.next(), Err(Error::ExpectedToken)));
}

#[test]
fn check_equal_matches_literals() {
    let mut t = Tokenizer::new("LIN_description_file ;");
    assert!(t.check_equal(&["LIN_description_file", ";"]).is_ok());
}

#[test]
fn check_equal_rejects_mismatch() {
    let mut t = Tokenizer::new("LIN_description_file ,");
    assert!(matches!(
        t.check_equal(&["LIN_description_file", ";"]),
        Err(Error::IncorrectToken)
    ));
}

#[test]
fn a_quote_ends_an_identifier() {
    let mut t = Tokenizer::new("abc\"def\"");
    assert_eq!(t.next().unwrap(), "abc");
    assert_eq!(t.next().unwrap(), "\"def\"");
    assert!(t.next().is_err());
}
