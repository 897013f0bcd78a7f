use rosrust::xml::XmlError;
use rosrust::xmlrpc::{
    create_http_post, deserialize_response, escape, parse_fault_code, serialize_request,
    unescape, Error, Request, Response, Value,
};

#[test]
fn test_deserialize_response_good() {
    let response_str =
        "<?xml version=\"1.0\"?>\n<methodResponse>\n<params>\n<param>\n<value><string>param1</string></value>\n</param>\n</params>\n</methodResponse>\n";

    let response = match deserialize_response(response_str) {
        Ok(response) => response,
        Err(_) => return assert!(false),
    };
    let correct_response = Response::Success { param: Value::String("param1".to_owned()) };
    assert_eq!(response, correct_response);
}

#[test]
fn test_deserialize_response_too_many_params() {
    let response_str =
        "<?xml version=\"1.0\"?>\n<methodResponse>\n<params>\n<param>\n<value><string>param1</string></value>\n<value><string>param2</string></value>\n</param>\n</params>\n</methodResponse>\n";

    match deserialize_response(response_str) {
        Ok(_) => return assert!(false),
        Err(_) => return (),
    };
}

#[test]
fn deserialize_bare_params_document() {
    let r = deserialize_response(
        "<params><param><value><string>param1</string></value></param></params>",
    );
    assert_eq!(
        r,
        Ok(Response::Success { param: Value::String("param1".to_owned()) })
    );
}

#[test]
fn deserialize_two_values_is_a_protocol_error() {
    let r = deserialize_response(
        "<params><param><value><string>a</string></value><value><string>b</string></value></param></params>",
    );
    assert_eq!(r, Err(Error::TooManyParameters(2)));
}

#[test]
fn deserialize_empty_params_yields_empty_value() {
    let r = deserialize_response("<params></params>");
    assert_eq!(r, Ok(Response::Success { param: Value::Empty }));
}

#[test]
fn deserialize_fault_document() {
    let response_str = "<?xml version=\"1.0\"?>\n<methodResponse><fault><value><struct><member><name>faultCode</name><value><int>4</int></value></member><member><name>faultString</name><value><string>bad method</string></value></member></struct></value></fault></methodResponse>";
    let r = deserialize_response(response_str);
    assert_eq!(
        r,
        Ok(Response::Fault { fault_code: 4, fault_string: "bad method".to_owned() })
    );
}

#[test]
fn deserialize_fault_without_members_is_a_protocol_error() {
    let r = deserialize_response("<methodResponse><fault></fault></methodResponse>");
    assert_eq!(r, Err(Error::MissingFaultFields));
}

#[test]
fn deserialize_fault_with_bad_code_is_a_protocol_error() {
    let response_str = "<methodResponse><fault><value><struct><member><name>faultCode</name><value><int>abc</int></value></member><member><name>faultString</name><value><string>x</string></value></member></struct></value></fault></methodResponse>";
    assert_eq!(deserialize_response(response_str), Err(Error::BadFaultCode));
}

#[test]
fn deserialize_malformed_document_is_a_parse_error() {
    let r = deserialize_response("<a><b></a></b>");
    assert!(matches!(r, Err(Error::Parse(_))));
}

#[test]
fn deserialize_unescapes_value_text() {
    let r = deserialize_response(
        "<params><param><value><string>a&amp;b&lt;c&gt;d</string></value></param></params>",
    );
    assert_eq!(
        r,
        Ok(Response::Success { param: Value::String("a&b<c>d".to_owned()) })
    );
}

#[test]
fn serialize_string_request() {
    let request = Request {
        method_name: "getValue".to_owned(),
        params: vec![Value::String("param1".to_owned())],
    };
    let doc = serialize_request(&request).expect("strings are encodable");
    assert_eq!(
        doc,
        "<?xml version=\"1.0\"?>\n<methodCall>\n<methodName>getValue</methodName>\n<params>\n<param><value><string>param1</string></value></param>\n</params>\n</methodCall>\n"
    );
}

#[test]
fn serialize_escapes_parameter_text() {
    let request = Request {
        method_name: "setValue".to_owned(),
        params: vec![Value::String("a&b<c>d".to_owned())],
    };
    let doc = serialize_request(&request).expect("strings are encodable");
    assert!(doc.contains("<string>a&amp;b&lt;c&gt;d</string>"));
}

#[test]
fn serialize_rejects_boolean_parameter() {
    let request = Request { method_name: "m".to_owned(), params: vec![Value::Boolean(true)] };
    assert_eq!(serialize_request(&request), Err(Error::UnsupportedValueType));
}

#[test]
fn serialize_rejects_int_parameter() {
    let request = Request { method_name: "m".to_owned(), params: vec![Value::Int(3)] };
    assert_eq!(serialize_request(&request), Err(Error::UnsupportedValueType));
}

#[test]
fn serialize_rejects_double_parameter() {
    let request = Request { method_name: "m".to_owned(), params: vec![Value::Double(0)] };
    assert_eq!(serialize_request(&request), Err(Error::UnsupportedValueType));
}

#[test]
fn escape_then_unescape_is_identity() {
    let original = "a&b<c>d && <<>> plain";
    let escaped = escape(original);
    assert_eq!(escaped, "a&amp;b&lt;c&gt;d &amp;&amp; &lt;&lt;&gt;&gt; plain");
    assert_eq!(unescape(escaped.as_str()), original);
}

#[test]
fn unescape_reads_entities_back() {
    assert_eq!(unescape("&amp;"), "&");
    assert_eq!(unescape("&lt;tag&gt;"), "<tag>");
    assert_eq!(unescape("plain & stray"), "plain & stray");
}

#[test]
fn parse_fault_code_reads_decimals() {
    assert_eq!(parse_fault_code("4"), Some(4));
    assert_eq!(parse_fault_code("-12"), Some(-12));
    assert_eq!(parse_fault_code("000042"), Some(42));
    assert_eq!(parse_fault_code(""), None);
    assert_eq!(parse_fault_code("-"), None);
    assert_eq!(parse_fault_code("12a"), None);
    assert_eq!(parse_fault_code("9999999999999999999"), None);
}

#[test]
fn error_messages_describe_each_failure() {
    assert_eq!(
        Error::TooManyParameters(2).message(),
        "Too many parameters in response (2)"
    );
    assert_eq!(Error::UnsupportedValueType.message(), "unsupported value type");
    assert_eq!(Error::MissingFaultFields.message(), "missing fault fields");
    assert_eq!(Error::BadFaultCode.message(), "fault code is not an integer");
    assert_eq!(
        Error::Parse(XmlError::MismatchedCloseTag).message(),
        "close tag does not match open tag"
    );
    assert_eq!(
        Error::Parse(XmlError::UnclosedElements(13)).message(),
        "13 unclosed elements"
    );
    assert_eq!(
        Error::Parse(XmlError::RootClosedExplicitly).message(),
        "Root element closed explicitly"
    );
    assert_eq!(Error::Transport("connection refused".to_owned()).message(), "connection refused");
}

#[test]
fn http_post_wraps_body() {
    let message = create_http_post("hello");
    assert_eq!(
        message,
        "POST /RPC2 HTTP/1.0\nUser-Agent: RosRust/0.0\nHost: localhost\nContent-Type: text/xml\nContent-length: 5\n\nhello"
    );
}
