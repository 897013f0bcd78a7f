use rosrust::xml::{get_etag_token, get_pi_token, get_stag_token, get_text_token, get_token, parse, Token, XmlError};

#[test]
fn test_get_pi_token() {
    // Should match
    match get_pi_token("<? foo ?> asdf") {
        None => return assert!(false, "Failed to match"),
        Some((Token::ProcessingInstruction, rem)) => assert_eq!(rem, " asdf"),
        _ => assert!(false, "Bad match"),
    };

    // Standard XMLDecl
    match get_pi_token("<?xml version=\"1.0\"?><sdf>") {
        None => return assert!(false, "Failed to match"),
        Some((Token::ProcessingInstruction, rem)) => assert_eq!(rem, "<sdf>"),
        _ => assert!(false, "Bad match"),
    };

    // Shouldn't match a normal tag
    match get_pi_token("<foo>") {
        Some(_) => return assert!(false, "Incorrect match"),
        _ => (),
    };
}

#[test]
fn test_get_stag_token() {
    // Should match
    match get_stag_token("<foo> asdf") {
        None => return assert!(false, "Failed to match"),
        Some((Token::StartTag { name }, rem)) => assert_eq!((name.as_str(), rem), ("foo", " asdf")),
        _ => assert!(false, "Bad match"),
    };

    // Should match even with a space after the name
    match get_stag_token("<foo > asdf") {
        None => return assert!(false, "Failed to match"),
        Some((Token::StartTag { name }, rem)) => assert_eq!((name.as_str(), rem), ("foo", " asdf")),
        _ => assert!(false, "Bad match"),
    };

    // Shouldn't match an end tag
    match get_stag_token("<foo/>") {
        Some(_) => return assert!(false, "Incorrect match"),
        _ => (),
    };
}

#[test]
fn test_get_etag_token() {
    // Should match
    match get_etag_token("</foo> asdf") {
        None => return assert!(false, "Failed to match"),
        Some((Token::EndTag { name }, rem)) => assert_eq!((name.as_str(), rem), ("foo", " asdf")),
        _ => assert!(false, "Bad match"),
    };

    // Should match even with a space after the name
    match get_etag_token("</foo > asdf") {
        None => return assert!(false, "Failed to match"),
        Some((Token::EndTag { name }, rem)) => assert_eq!((name.as_str(), rem), ("foo", " asdf")),
        _ => assert!(false, "Bad match"),
    };

    // Shouldn't match a start tag
    match get_etag_token("<foo>") {
        Some(_) => return assert!(false, "Incorrect match"),
        _ => (),
    };
}

#[test]
fn test_get_text_token() {
    // Should match
    match get_text_token(" asdf asdf <") {
        None => return assert!(false, "Failed to match"),
        Some((Token::Text { content }, rem)) => {
            assert_eq!((content.as_str(), rem), (" asdf asdf ", "<"))
        },
        _ => assert!(false, "Bad match"),
    };

    // Shouldn't match a start tag
    match get_text_token("<foo>") {
        Some(_) => return assert!(false, "Incorrect match"),
        _ => (),
    };
}

#[test]
fn tokenize_simple_element() {
    let (tok, rem) = get_token("<n1>some text</n1>").expect("start tag");
    assert_eq!(tok, Token::StartTag { name: "n1".to_owned() });
    let (tok, rem) = get_token(rem).expect("text");
    assert_eq!(tok, Token::Text { content: "some text".to_owned() });
    let (tok, rem) = get_token(rem).expect("end tag");
    assert_eq!(tok, Token::EndTag { name: "n1".to_owned() });
    assert_eq!(rem, "");
    assert!(get_token(rem).is_none());
}

#[test]
fn tokenize_processing_instruction_only() {
    let (tok, rem) = get_token("<?xml version=\"1.0\"?>").expect("pi");
    assert_eq!(tok, Token::ProcessingInstruction);
    assert_eq!(rem, "");
    assert!(get_token(rem).is_none());
}

#[test]
fn parse_accepts_nested_elements() {
    let root = parse("<a><b></b></a>").expect("well-formed document");
    assert_eq!(root.name().as_str(), "root");
    assert_eq!(root.child_count(), 1);
    let a = root.child(0);
    assert_eq!(a.name().as_str(), "a");
    assert_eq!(a.child_count(), 1);
    let b = a.child(0);
    assert_eq!(b.name().as_str(), "b");
    assert_eq!(b.child_count(), 0);
}

#[test]
fn parse_rejects_crossed_tags() {
    assert!(matches!(parse("<a><b></a></b>"), Err(XmlError::MismatchedCloseTag)));
}

#[test]
fn parse_rejects_unterminated_document() {
    assert!(matches!(parse("<a>"), Err(XmlError::UnclosedElements(2))));
}

#[test]
fn parse_rejects_explicitly_closed_root() {
    assert!(matches!(parse("</root>"), Err(XmlError::RootClosedExplicitly)));
}

#[test]
fn parse_accumulates_text() {
    let root = parse("<a>one<b></b>two</a>").expect("well-formed document");
    let a = root.child(0);
    assert_eq!(a.text().as_str(), "onetwo");
}
