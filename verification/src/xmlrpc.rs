//! XML-RPC values, requests and responses, with the decoder that extracts a
//! typed return value or a fault from a parsed document and the encoder that
//! serializes a request into a canonical document.

use crate::xml;
use crate::xml::{ElemModel, XmlError};
use vstd::prelude::*;
use vstd::string::StringSliceAdditionalSpecFns;

verus! {

broadcast use vstd::seq::axiom_seq_index_decreases, vstd::seq::axiom_seq_subrange_decreases;

/// A typed XML-RPC value. Arrays, structs, dateTime and base64 values are
/// not covered. A double is carried as the bit pattern of an IEEE 754
/// 64-bit float, so that the variant set stays closed over plain values.
#[derive(Debug, Clone, PartialEq)]
pub enum Value {
    Empty,
    Int(i64),
    Boolean(bool),
    String(String),
    Double(u64),
}

/// The mathematical shape of a value.
pub ghost enum ValueModel {
    Empty,
    Int(int),
    Boolean(bool),
    String(Seq<char>),
    Double(u64),
}

impl View for Value {
    type V = ValueModel;

    open spec fn view(&self) -> ValueModel {
        match self {
            Value::Empty => ValueModel::Empty,
            Value::Int(i) => ValueModel::Int(*i as int),
            Value::Boolean(b) => ValueModel::Boolean(*b),
            Value::String(s) => ValueModel::String(s@),
            Value::Double(bits) => ValueModel::Double(*bits),
        }
    }
}

/// A method call: the method's name and its parameters, in order.
#[derive(Debug, Clone, PartialEq)]
pub struct Request {
    pub method_name: String,
    pub params: Vec<Value>,
}

/// What a call came back with: the zero-or-one return parameter, or the
/// fault the peer raised.
#[derive(Debug, Clone, PartialEq)]
pub enum Response {
    Success { param: Value },
    Fault { fault_code: i64, fault_string: String },
}

/// The mathematical shape of a response.
pub ghost enum ResponseModel {
    Success(ValueModel),
    Fault(int, Seq<char>),
}

impl View for Response {
    type V = ResponseModel;

    open spec fn view(&self) -> ResponseModel {
        match self {
            Response::Success { param } => ResponseModel::Success(param@),
            Response::Fault { fault_code, fault_string } => ResponseModel::Fault(
                *fault_code as int,
                fault_string@,
            ),
        }
    }
}

/// Everything that can go wrong between a request and a decoded response.
#[derive(Debug, Clone, PartialEq)]
pub enum Error {
    /// The response document is not well formed.
    Parse(XmlError),
    /// The response carries more than the zero-or-one values XML-RPC allows.
    TooManyParameters(usize),
    /// A fault document lacks its `faultCode` or `faultString` member.
    MissingFaultFields,
    /// A fault document's `faultCode` is not a decimal integer.
    BadFaultCode,
    /// Encoding was asked for a value variant it does not support.
    UnsupportedValueType,
    /// The transport collaborator failed; its message is passed on unchanged.
    Transport(String),
}

/// The mathematical shape of an error.
pub ghost enum ErrorModel {
    Parse(XmlError),
    TooManyParameters(int),
    MissingFaultFields,
    BadFaultCode,
    UnsupportedValueType,
    Transport(Seq<char>),
}

impl View for Error {
    type V = ErrorModel;

    open spec fn view(&self) -> ErrorModel {
        match self {
            Error::Parse(e) => ErrorModel::Parse(*e),
            Error::TooManyParameters(n) => ErrorModel::TooManyParameters(*n as int),
            Error::MissingFaultFields => ErrorModel::MissingFaultFields,
            Error::BadFaultCode => ErrorModel::BadFaultCode,
            Error::UnsupportedValueType => ErrorModel::UnsupportedValueType,
            Error::Transport(s) => ErrorModel::Transport(s@),
        }
    }
}

/// How one character is written inside text content: `&`, `<` and `>` are
/// replaced by their entities, everything else stands for itself.
pub open spec fn escape_char(c: char) -> Seq<char> {
    if c == '&' {
        "&amp;"@
    } else if c == '<' {
        "&lt;"@
    } else if c == '>' {
        "&gt;"@
    } else {
        seq![c]
    }
}

/// Text content escaped for inclusion in a document.
pub open spec fn escaped(s: Seq<char>) -> Seq<char>
    decreases s.len(),
{
    if s.len() == 0 {
        Seq::empty()
    } else {
        escape_char(s[0]) + escaped(s.subrange(1, s.len() as int))
    }
}

/// Text content with the `&amp;`, `&lt;` and `&gt;` entities read back;
/// anything else, a stray `&` included, stands for itself.
pub open spec fn unescaped(s: Seq<char>) -> Seq<char>
    decreases s.len(),
{
    if s.len() == 0 {
        Seq::empty()
    } else if s.len() >= 5 && s.subrange(0, 5) == "&amp;"@ {
        seq!['&'] + unescaped(s.subrange(5, s.len() as int))
    } else if s.len() >= 4 && s.subrange(0, 4) == "&lt;"@ {
        seq!['<'] + unescaped(s.subrange(4, s.len() as int))
    } else if s.len() >= 4 && s.subrange(0, 4) == "&gt;"@ {
        seq!['>'] + unescaped(s.subrange(4, s.len() as int))
    } else {
        seq![s[0]] + unescaped(s.subrange(1, s.len() as int))
    }
}

/// Escaping and unescaping are a symmetric pair: whatever text is escaped
/// on encode is read back unchanged on decode.
pub proof fn lemma_unescape_escape(s: Seq<char>)
    ensures
        unescaped(escaped(s)) == s,
    decreases s.len(),
{
    reveal_strlit("&amp;");
    reveal_strlit("&lt;");
    reveal_strlit("&gt;");
    if s.len() == 0 {
        assert(unescaped(escaped(s)) =~= s);
    } else {
        let rest = s.subrange(1, s.len() as int);
        lemma_unescape_escape(rest);
        let e = escaped(s);
        let c = s[0];
        if c == '&' {
            assert(e.subrange(0, 5) =~= "&amp;"@);
            assert(e.subrange(5, e.len() as int) =~= escaped(rest));
            assert(unescaped(e) =~= s);
        } else if c == '<' {
            assert(e.len() >= 5 ==> e.subrange(0, 5) != "&amp;"@) by {
                if e.len() >= 5 && e.subrange(0, 5) == "&amp;"@ {
                    assert(e.subrange(0, 5)[1] == 'a');
                    assert(e[1] == 'l');
                }
            }
            assert(e.subrange(0, 4) =~= "&lt;"@);
            assert(e.subrange(4, e.len() as int) =~= escaped(rest));
            assert(unescaped(e) =~= s);
        } else if c == '>' {
            assert(e.len() >= 5 ==> e.subrange(0, 5) != "&amp;"@) by {
                if e.len() >= 5 && e.subrange(0, 5) == "&amp;"@ {
                    assert(e.subrange(0, 5)[1] == 'a');
                    assert(e[1] == 'g');
                }
            }
            assert(e.subrange(0, 4) != "&lt;"@) by {
                assert(e[1] == 'g');
                if e.subrange(0, 4) == "&lt;"@ {
                    assert(e.subrange(0, 4)[1] == 'l');
                }
            }
            assert(e.subrange(0, 4) =~= "&gt;"@);
            assert(e.subrange(4, e.len() as int) =~= escaped(rest));
            assert(unescaped(e) =~= s);
        } else {
            assert(e[0] == c);
            assert(e.len() >= 5 ==> e.subrange(0, 5) != "&amp;"@) by {
                if e.len() >= 5 && e.subrange(0, 5) == "&amp;"@ {
                    assert(e.subrange(0, 5)[0] == '&');
                }
            }
            assert(e.len() >= 4 ==> e.subrange(0, 4) != "&lt;"@) by {
                if e.len() >= 4 && e.subrange(0, 4) == "&lt;"@ {
                    assert(e.subrange(0, 4)[0] == '&');
                }
            }
            assert(e.len() >= 4 ==> e.subrange(0, 4) != "&gt;"@) by {
                if e.len() >= 4 && e.subrange(0, 4) == "&gt;"@ {
                    assert(e.subrange(0, 4)[0] == '&');
                }
            }
            assert(e.subrange(1, e.len() as int) =~= escaped(rest));
            assert(unescaped(e) =~= s);
        }
    }
}

/// Whether the characters of `pat` occur in `s` starting at position `i`.
fn match_at(s: &str, i: usize, pat: &str) -> (r: bool)
    requires
        i <= s@.len(),
    ensures
        r == (s@.len() - i >= pat@.len() && s@.subrange(
            i as int,
            i + pat@.len(),
        ) == pat@),
{
    let len = s.unicode_len();
    let plen = pat.unicode_len();
    if len - i < plen {
        return false;
    }
    let mut j: usize = 0;
    while j < plen
        invariant
            0 <= j <= plen,
            i + plen <= len,
            len == s@.len() && plen == pat@.len(),
            forall|k: int| 0 <= k < j ==> s@[i + k] == pat@[k],
        decreases plen - j,
    {
        if s.get_char(i + j) != pat.get_char(j) {
            proof {
                assert(s@.subrange(i as int, i + plen)[j as int] != pat@[j as int]);
            }
            return false;
        }
        j += 1;
    }
    proof {
        assert(s@.subrange(i as int, i + plen) =~= pat@);
    }
    true
}

/// Escape text content for inclusion in a document.
pub fn escape(s: &str) -> (r: String)
    ensures
        r@ == escaped(s@),
{
    let len = s.unicode_len();
    let mut out = String::new();
    proof {
        assert(s@.subrange(0, len as int) =~= s@);
        assert(out@ + escaped(s@) =~= escaped(s@));
    }
    let mut i: usize = 0;
    while i < len
        invariant
            0 <= i <= len,
            len == s@.len(),
            escaped(s@) == out@ + escaped(s@.subrange(i as int, len as int)),
        decreases len - i,
    {
        let ghost pre = out@;
        let ghost suffix = s@.subrange(i as int, len as int);
        let c = s.get_char(i);
        proof {
            assert(suffix[0] == s@[i as int]);
            assert(suffix.subrange(1, suffix.len() as int) =~= s@.subrange(
                i + 1,
                len as int,
            ));
        }
        if c == '&' {
            out.append("&amp;");
        } else if c == '<' {
            out.append("&lt;");
        } else if c == '>' {
            out.append("&gt;");
        } else {
            let piece = s.substring_char(i, i + 1);
            proof {
                assert(piece@ =~= seq![s@[i as int]]);
            }
            out.append(piece);
        }
        proof {
            assert(out@ =~= pre + escape_char(s@[i as int]));
            assert(pre + escape_char(suffix[0]) + escaped(
                s@.subrange(i + 1, len as int),
            ) =~= pre + escaped(suffix));
        }
        i += 1;
    }
    proof {
        assert(s@.subrange(len as int, len as int) =~= Seq::<char>::empty());
        assert(out@ + escaped(s@.subrange(len as int, len as int)) =~= out@);
    }
    out
}

/// Read escaped text content back, replacing each entity by its character.
pub fn unescape(s: &str) -> (r: String)
    ensures
        r@ == unescaped(s@),
{
    let len = s.unicode_len();
    let mut out = String::new();
    proof {
        assert(s@.subrange(0, len as int) =~= s@);
        assert(out@ + unescaped(s@) =~= unescaped(s@));
    }
    let mut i: usize = 0;
    while i < len
        invariant
            0 <= i <= len,
            len == s@.len(),
            unescaped(s@) == out@ + unescaped(s@.subrange(i as int, len as int)),
        decreases len - i,
    {
        let ghost pre = out@;
        let ghost suffix = s@.subrange(i as int, len as int);
        proof {
            reveal_strlit("&amp;");
            reveal_strlit("&lt;");
            reveal_strlit("&gt;");
            reveal_strlit("&");
            reveal_strlit("<");
            reveal_strlit(">");
            if suffix.len() >= 5 {
                assert(suffix.subrange(0, 5) =~= s@.subrange(i as int, i + 5));
            }
            if suffix.len() >= 4 {
                assert(suffix.subrange(0, 4) =~= s@.subrange(i as int, i + 4));
            }
        }
        if match_at(s, i, "&amp;") {
            out.append("&");
            proof {
                assert(suffix.subrange(5, suffix.len() as int) =~= s@.subrange(
                    i + 5,
                    len as int,
                ));
                assert(out@ =~= pre + seq!['&']);
                assert(pre + seq!['&'] + unescaped(s@.subrange(i + 5, len as int)) =~= pre
                    + unescaped(suffix));
            }
            i += 5;
        } else if match_at(s, i, "&lt;") {
            out.append("<");
            proof {
                assert(suffix.subrange(4, suffix.len() as int) =~= s@.subrange(
                    i + 4,
                    len as int,
                ));
                assert(out@ =~= pre + seq!['<']);
                assert(pre + seq!['<'] + unescaped(s@.subrange(i + 4, len as int)) =~= pre
                    + unescaped(suffix));
            }
            i += 4;
        } else if match_at(s, i, "&gt;") {
            out.append(">");
            proof {
                assert(suffix.subrange(4, suffix.len() as int) =~= s@.subrange(
                    i + 4,
                    len as int,
                ));
                assert(out@ =~= pre + seq!['>']);
                assert(pre + seq!['>'] + unescaped(s@.subrange(i + 4, len as int)) =~= pre
                    + unescaped(suffix));
            }
            i += 4;
        } else {
            let piece = s.substring_char(i, i + 1);
            proof {
                assert(piece@ =~= seq![s@[i as int]]);
                assert(suffix[0] == s@[i as int]);
                assert(suffix.subrange(1, suffix.len() as int) =~= s@.subrange(
                    i + 1,
                    len as int,
                ));
            }
            out.append(piece);
            proof {
                assert(out@ =~= pre + seq![suffix[0]]);
                assert(pre + seq![suffix[0]] + unescaped(s@.subrange(i + 1, len as int))
                    =~= pre + unescaped(suffix));
            }
            i += 1;
        }
    }
    proof {
        assert(s@.subrange(len as int, len as int) =~= Seq::<char>::empty());
        assert(out@ + unescaped(s@.subrange(len as int, len as int)) =~= out@);
    }
    out
}

/// The views of a row of values.
pub open spec fn value_views(vs: Seq<Value>) -> Seq<ValueModel> {
    vs.map_values(|v: Value| v@)
}

/// Whether every parameter is a String value, the only variant the
/// encoder supports.
pub open spec fn all_strings(ps: Seq<ValueModel>) -> bool {
    forall|i: int| 0 <= i < ps.len() ==> ps[i] is String
}

/// How one String parameter is written inside the request document.
pub open spec fn param_entry(t: Seq<char>) -> Seq<char> {
    "<param><value><string>"@ + escaped(t) + "</string></value></param>"@
}

/// The concatenation of all parameter entries, in order.
pub open spec fn param_block(ps: Seq<ValueModel>) -> Seq<char>
    decreases ps.len(),
{
    if ps.len() == 0 {
        Seq::empty()
    } else {
        param_block(ps.drop_last()) + match ps.last() {
            ValueModel::String(t) => param_entry(t),
            _ => Seq::empty(),
        }
    }
}

/// The canonical request document for a method name and its parameters.
pub open spec fn request_doc(m: Seq<char>, ps: Seq<ValueModel>) -> Seq<char> {
    "<?xml version=\"1.0\"?>\n<methodCall>\n<methodName>"@ + m
        + "</methodName>\n<params>\n"@ + param_block(ps) + "\n</params>\n</methodCall>\n"@
}

/// Serialize a request into its canonical XML-RPC document.
///
/// Only String parameters can be encoded; any other variant is refused
/// rather than mis-serialized. Parameter text is escaped on the way out.
pub fn serialize_request(request: &Request) -> (r: Result<String, Error>)
    ensures
        r is Ok <==> all_strings(value_views(request.params@)),
        r matches Ok(doc) ==> doc@ == request_doc(
            request.method_name@,
            value_views(request.params@),
        ),
        r matches Err(e) ==> e == Error::UnsupportedValueType,
{
    let ghost views = value_views(request.params@);
    let mut out: String = "<?xml version=\"1.0\"?>\n<methodCall>\n<methodName>".to_owned();
    out.append(request.method_name.as_str());
    out.append("</methodName>\n<params>\n");
    let ghost head = out@;
    let mut i: usize = 0;
    while i < request.params.len()
        invariant
            0 <= i <= request.params.len(),
            views == value_views(request.params@),
            views.len() == request.params.len(),
            all_strings(views.take(i as int)),
            out@ == head + param_block(views.take(i as int)),
        decreases request.params.len() - i,
    {
        let ghost pre = out@;
        match &request.params[i] {
            Value::String(val) => {
                out.append("<param><value><string>");
                let esc = escape(val.as_str());
                out.append(esc.as_str());
                out.append("</string></value></param>");
                proof {
                    assert(views.take(i + 1).drop_last() =~= views.take(i as int));
                    assert(views.take(i + 1).last() == views[i as int]);
                    assert(out@ =~= head + param_block(views.take(i + 1)));
                }
            },
            _ => {
                return Err(Error::UnsupportedValueType);
            },
        }
        i += 1;
    }
    out.append("\n</params>\n</methodCall>\n");
    proof {
        assert(views.take(views.len() as int) =~= views);
        assert(out@ =~= request_doc(request.method_name@, views));
    }
    Ok(out)
}

/// The decimal digits of `n`, most significant first.
pub open spec fn dec_str(n: int) -> Seq<char>
    decreases n,
    when n >= 0
{
    let last = n % 10;
    let digit = if last == 0 {
        '0'
    } else if last == 1 {
        '1'
    } else if last == 2 {
        '2'
    } else if last == 3 {
        '3'
    } else if last == 4 {
        '4'
    } else if last == 5 {
        '5'
    } else if last == 6 {
        '6'
    } else if last == 7 {
        '7'
    } else if last == 8 {
        '8'
    } else {
        '9'
    };
    if n < 10 {
        seq![digit]
    } else {
        dec_str(n / 10) + seq![digit]
    }
}

/// Write `n` in decimal.
pub fn usize_dec(n: usize) -> (r: String)
    ensures
        r@ == dec_str(n as int),
    decreases n,
{
    let mut out: String = if n >= 10 {
        usize_dec(n / 10)
    } else {
        String::new()
    };
    let d = n % 10;
    let piece: &str = if d == 0 {
        "0"
    } else if d == 1 {
        "1"
    } else if d == 2 {
        "2"
    } else if d == 3 {
        "3"
    } else if d == 4 {
        "4"
    } else if d == 5 {
        "5"
    } else if d == 6 {
        "6"
    } else if d == 7 {
        "7"
    } else if d == 8 {
        "8"
    } else {
        "9"
    };
    proof {
        reveal_strlit("0");
        reveal_strlit("1");
        reveal_strlit("2");
        reveal_strlit("3");
        reveal_strlit("4");
        reveal_strlit("5");
        reveal_strlit("6");
        reveal_strlit("7");
        reveal_strlit("8");
        reveal_strlit("9");
    }
    out.append(piece);
    proof {
        assert(out@ =~= dec_str(n as int));
    }
    out
}

/// The HTTP message that carries a request body to the fixed RPC path.
pub open spec fn http_post_text(body: Seq<char>, content_length: int) -> Seq<char> {
    "POST /RPC2 HTTP/1.0\nUser-Agent: RosRust/0.0\nHost: localhost\nContent-Type: text/xml\nContent-length: "@
        + dec_str(content_length) + "\n\n"@ + body
}

/// Wrap a request document in the HTTP POST message that carries it. The
/// content length counts the bytes of the body.
pub fn create_http_post(body: &str) -> (r: String)
    ensures
        r@ == http_post_text(body@, body.len() as int),
{
    let mut out: String =
        "POST /RPC2 HTTP/1.0\nUser-Agent: RosRust/0.0\nHost: localhost\nContent-Type: text/xml\nContent-length: ".to_owned();
    let n = body.len();
    let num = usize_dec(n);
    out.append(num.as_str());
    out.append("\n\n");
    out.append(body);
    proof {
        assert(out@ =~= http_post_text(body@, n as int));
    }
    out
}

/// What a client needs to reach its peer: the server's URI. The transport
/// exchange itself is a collaborator outside this core.
pub struct Client {
    pub server_uri: String,
}

/// The text an XML structural error carries.
pub open spec fn xml_error_text(e: XmlError) -> Seq<char> {
    match e {
        XmlError::RootClosedExplicitly => "Root element closed explicitly"@,
        XmlError::MismatchedCloseTag => "close tag does not match open tag"@,
        XmlError::UnclosedElements(n) => dec_str(n as int) + " unclosed elements"@,
    }
}

/// The text an error carries.
pub open spec fn error_text(e: Error) -> Seq<char> {
    match e {
        Error::Parse(x) => xml_error_text(x),
        Error::TooManyParameters(n) => "Too many parameters in response ("@ + dec_str(
            n as int,
        ) + ")"@,
        Error::MissingFaultFields => "missing fault fields"@,
        Error::BadFaultCode => "fault code is not an integer"@,
        Error::UnsupportedValueType => "unsupported value type"@,
        Error::Transport(s) => s@,
    }
}

impl Error {
    /// Describe this error in words.
    pub fn message(&self) -> (r: String)
        ensures
            r@ == error_text(*self),
    {
        match self {
            Error::Parse(x) => {
                match x {
                    XmlError::RootClosedExplicitly => "Root element closed explicitly".to_owned(),
                    XmlError::MismatchedCloseTag => "close tag does not match open tag".to_owned(),
                    XmlError::UnclosedElements(n) => {
                        let mut out = usize_dec(*n);
                        out.append(" unclosed elements");
                        out
                    },
                }
            },
            Error::TooManyParameters(n) => {
                let mut out: String = "Too many parameters in response (".to_owned();
                let num = usize_dec(*n);
                out.append(num.as_str());
                out.append(")");
                out
            },
            Error::MissingFaultFields => "missing fault fields".to_owned(),
            Error::BadFaultCode => "fault code is not an integer".to_owned(),
            Error::UnsupportedValueType => "unsupported value type".to_owned(),
            Error::Transport(s) => s.clone(),
        }
    }
}

/// The XML type tags a `<value>` wrapper may directly contain.
pub open spec fn is_type_tag(n: Seq<char>) -> bool {
    n == "string"@ || n == "int"@ || n == "i4"@ || n == "boolean"@ || n == "double"@
}

/// The (type tag, raw text) pairs of every `<value>` wrapper in the tree
/// that directly contains exactly one typed child, in document order.
pub open spec fn values_in(e: ElemModel) -> Seq<(Seq<char>, Seq<char>)>
    decreases e,
{
    let own = if e.name == "value"@ && e.children.len() == 1 && is_type_tag(
        e.children[0].name,
    ) {
        seq![(e.children[0].name, e.children[0].text)]
    } else {
        Seq::empty()
    };
    own + values_in_children(e.children)
}

/// The value pairs found under a row of siblings, in document order.
pub open spec fn values_in_children(cs: Seq<ElemModel>) -> Seq<(Seq<char>, Seq<char>)>
    decreases cs,
{
    if cs.len() == 0 {
        Seq::empty()
    } else {
        values_in(cs[0]) + values_in_children(cs.subrange(1, cs.len() as int))
    }
}

/// Whether the tree holds an element named `fault`.
pub open spec fn has_fault(e: ElemModel) -> bool
    decreases e,
{
    e.name == "fault"@ || has_fault_children(e.children)
}

/// Whether a row of siblings holds an element named `fault`.
pub open spec fn has_fault_children(cs: Seq<ElemModel>) -> bool
    decreases cs,
{
    cs.len() > 0 && (has_fault(cs[0]) || has_fault_children(
        cs.subrange(1, cs.len() as int),
    ))
}

/// The first of a row of siblings that carries the given name.
pub open spec fn first_named(cs: Seq<ElemModel>, name: Seq<char>) -> Option<ElemModel>
    decreases cs.len(),
{
    if cs.len() == 0 {
        None
    } else if cs[0].name == name {
        Some(cs[0])
    } else {
        first_named(cs.subrange(1, cs.len() as int), name)
    }
}

/// What one `<member>` element carries: the text of its first `<name>`
/// child paired with the raw text under its first `<value>` child, when
/// that value wrapper holds exactly one typed child.
pub open spec fn member_value(e: ElemModel) -> Option<(Seq<char>, Seq<char>)> {
    match first_named(e.children, "name"@) {
        None => None,
        Some(k) => match first_named(e.children, "value"@) {
            None => None,
            Some(v) => if v.children.len() == 1 {
                Some((k.text, v.children[0].text))
            } else {
                None
            },
        },
    }
}

/// The raw text of the first `<member>` in the tree, in document order,
/// whose name matches `key`.
pub open spec fn find_member(e: ElemModel, key: Seq<char>) -> Option<Seq<char>>
    decreases e,
{
    let own = if e.name == "member"@ {
        match member_value(e) {
            Some(p) => if p.0 == key {
                Some(p.1)
            } else {
                None
            },
            None => None,
        }
    } else {
        None
    };
    if own is Some {
        own
    } else {
        find_member_children(e.children, key)
    }
}

/// The first matching `<member>` under a row of siblings.
pub open spec fn find_member_children(cs: Seq<ElemModel>, key: Seq<char>) -> Option<
    Seq<char>,
>
    decreases cs,
{
    if cs.len() == 0 {
        None
    } else {
        match find_member(cs[0], key) {
            Some(t) => Some(t),
            None => find_member_children(cs.subrange(1, cs.len() as int), key),
        }
    }
}

/// The views of a row of (tag, text) pairs.
spec fn pair_views(ps: Seq<(String, String)>) -> Seq<(Seq<char>, Seq<char>)> {
    ps.map_values(|p: (String, String)| (p.0@, p.1@))
}

/// Whether this tag name is one of the supported type tags.
fn is_type_tag_exec(s: &String) -> (r: bool)
    ensures
        r == is_type_tag(s@),
{
    xml::str_eq(s.as_str(), "string") || xml::str_eq(s.as_str(), "int") || xml::str_eq(
        s.as_str(),
        "i4",
    ) || xml::str_eq(s.as_str(), "boolean") || xml::str_eq(s.as_str(), "double")
}

/// Collect the value pairs of this element's tree onto `out`.
fn collect_values(e: &xml::Element, out: &mut Vec<(String, String)>)
    ensures
        pair_views(final(out)@) == pair_views(old(out)@) + values_in(e.model()),
    decreases *e,
{
    proof {
        xml::lemma_model_fields(e);
        if e.children@.len() == 1 {
            xml::lemma_model_fields(&e.children@[0]);
            assert(e.model().children[0] == e.children@[0].model());
        }
    }
    let ghost pre = pair_views(out@);
    if xml::str_eq(e.name.as_str(), "value") && e.children.len() == 1 {
        if is_type_tag_exec(&e.children[0].name) {
            let pair = (e.children[0].name.clone(), e.children[0].text.clone());
            out.push(pair);
            proof {
                xml::lemma_model_fields(&e.children[0]);
                assert(e.model().children[0] == e.children[0].model());
                assert(pair_views(out@) =~= pre + seq![
                    (e.model().children[0].name, e.model().children[0].text),
                ]);
            }
        }
    }
    let ghost own = pair_views(out@);
    collect_values_from(&e.children, 0, out);
    proof {
        assert(xml::models_of(e.children).subrange(0, e.children@.len() as int)
            =~= e.model().children);
        assert(pair_views(out@) =~= pre + values_in(e.model()));
    }
}

/// Collect the value pairs found from sibling `i` onward onto `out`.
fn collect_values_from(v: &Vec<xml::Element>, i: usize, out: &mut Vec<(String, String)>)
    requires
        i <= v.len(),
    ensures
        pair_views(final(out)@) == pair_views(old(out)@) + values_in_children(
            xml::models_of(*v).subrange(i as int, v@.len() as int),
        ),
    decreases *v, v.len() - i,
{
    let ghost models = xml::models_of(*v);
    if i == v.len() {
        proof {
            assert(models.subrange(i as int, v@.len() as int) =~= Seq::<ElemModel>::empty());
            assert(pair_views(out@) =~= pair_views(out@) + values_in_children(
                models.subrange(i as int, v@.len() as int),
            ));
        }
        return ;
    }
    let ghost pre = pair_views(out@);
    collect_values(&v[i], out);
    collect_values_from(v, i + 1, out);
    proof {
        let sub = models.subrange(i as int, v@.len() as int);
        assert(sub[0] == v@[i as int].model());
        assert(sub.subrange(1, sub.len() as int) =~= models.subrange(
            i + 1,
            v@.len() as int,
        ));
        assert(pair_views(out@) =~= pre + values_in_children(sub));
    }
}

/// Whether this element's tree holds an element named `fault`.
fn elem_has_fault(e: &xml::Element) -> (r: bool)
    ensures
        r == has_fault(e.model()),
    decreases *e,
{
    proof {
        xml::lemma_model_fields(e);
    }
    if xml::str_eq(e.name.as_str(), "fault") {
        return true;
    }
    let r = has_fault_from(&e.children, 0);
    proof {
        assert(xml::models_of(e.children).subrange(0, e.children@.len() as int)
            =~= e.model().children);
    }
    r
}

/// Whether a `fault` element occurs from sibling `i` onward.
fn has_fault_from(v: &Vec<xml::Element>, i: usize) -> (r: bool)
    requires
        i <= v.len(),
    ensures
        r == has_fault_children(xml::models_of(*v).subrange(i as int, v@.len() as int)),
    decreases *v, v.len() - i,
{
    let ghost models = xml::models_of(*v);
    if i == v.len() {
        proof {
            assert(models.subrange(i as int, v@.len() as int) =~= Seq::<ElemModel>::empty());
        }
        return false;
    }
    proof {
        let sub = models.subrange(i as int, v@.len() as int);
        assert(sub[0] == v@[i as int].model());
        assert(sub.subrange(1, sub.len() as int) =~= models.subrange(
            i + 1,
            v@.len() as int,
        ));
    }
    if elem_has_fault(&v[i]) {
        true
    } else {
        has_fault_from(v, i + 1)
    }
}

/// The first child of `e` that carries the given name.
fn first_named_child<'a>(e: &'a xml::Element, name: &str) -> (r: Option<&'a xml::Element>)
    ensures
        (r is Some) == (first_named(e.model().children, name@) is Some),
        r is Some ==> r->Some_0.model() == first_named(e.model().children, name@)->Some_0,
{
    proof {
        xml::lemma_model_fields(e);
    }
    let ghost models = e.model().children;
    proof {
        assert(models.subrange(0, models.len() as int) =~= models);
    }
    let mut i: usize = 0;
    while i < e.children.len()
        invariant
            0 <= i <= e.children.len(),
            models == xml::models_of(e.children),
            models == e.model().children,
            models.len() == e.children@.len(),
            first_named(models, name@) == first_named(
                models.subrange(i as int, models.len() as int),
                name@,
            ),
        decreases e.children.len() - i,
    {
        proof {
            let sub = models.subrange(i as int, models.len() as int);
            assert(sub[0] == e.children@[i as int].model());
            assert(sub.subrange(1, sub.len() as int) =~= models.subrange(
                i + 1,
                models.len() as int,
            ));
        }
        if xml::str_eq(e.children[i].name.as_str(), name) {
            proof {
                xml::lemma_model_fields(&e.children@[i as int]);
                let sub = models.subrange(i as int, models.len() as int);
                assert(first_named(sub, name@) == Some(sub[0]));
            }
            return Some(&e.children[i]);
        }
        proof {
            xml::lemma_model_fields(&e.children@[i as int]);
        }
        i += 1;
    }
    proof {
        assert(models.subrange(i as int, models.len() as int) =~= Seq::<ElemModel>::empty());
    }
    None
}

/// What this `<member>` element carries, as (name text, raw value text).
fn member_value_exec(e: &xml::Element) -> (r: Option<(String, String)>)
    ensures
        match member_value(e.model()) {
            None => r is None,
            Some(p) => r matches Some(q) && q.0@ == p.0 && q.1@ == p.1,
        },
{
    let k = match first_named_child(e, "name") {
        None => {
            return None;
        },
        Some(k) => k,
    };
    let v = match first_named_child(e, "value") {
        None => {
            return None;
        },
        Some(v) => v,
    };
    proof {
        xml::lemma_model_fields(k);
        xml::lemma_model_fields(v);
    }
    if v.children.len() == 1 {
        proof {
            xml::lemma_model_fields(&v.children@[0]);
            assert(v.model().children[0] == v.children@[0].model());
        }
        Some((k.text.clone(), v.children[0].text.clone()))
    } else {
        None
    }
}

/// The raw text of the first member named `key` in this element's tree.
fn find_member_exec(e: &xml::Element, key: &str) -> (r: Option<String>)
    ensures
        match find_member(e.model(), key@) {
            None => r is None,
            Some(t) => r matches Some(s) && s@ == t,
        },
    decreases *e,
{
    proof {
        xml::lemma_model_fields(e);
    }
    if xml::str_eq(e.name.as_str(), "member") {
        match member_value_exec(e) {
            Some((k, raw)) => {
                if xml::str_eq(k.as_str(), key) {
                    return Some(raw);
                }
            },
            None => {},
        }
    }
    let r = find_member_from(&e.children, key, 0);
    proof {
        assert(xml::models_of(e.children).subrange(0, e.children@.len() as int)
            =~= e.model().children);
    }
    r
}

/// The first matching member found from sibling `i` onward.
fn find_member_from(v: &Vec<xml::Element>, key: &str, i: usize) -> (r: Option<String>)
    requires
        i <= v.len(),
    ensures
        match find_member_children(
            xml::models_of(*v).subrange(i as int, v@.len() as int),
            key@,
        ) {
            None => r is None,
            Some(t) => r matches Some(s) && s@ == t,
        },
    decreases *v, v.len() - i,
{
    let ghost models = xml::models_of(*v);
    if i == v.len() {
        proof {
            assert(models.subrange(i as int, v@.len() as int) =~= Seq::<ElemModel>::empty());
        }
        return None;
    }
    proof {
        let sub = models.subrange(i as int, v@.len() as int);
        assert(sub[0] == v@[i as int].model());
        assert(sub.subrange(1, sub.len() as int) =~= models.subrange(
            i + 1,
            v@.len() as int,
        ));
    }
    match find_member_exec(&v[i], key) {
        Some(t) => Some(t),
        None => find_member_from(v, key, i + 1),
    }
}

/// A decimal digit.
pub open spec fn is_digit(c: char) -> bool {
    '0' <= c && c <= '9'
}

/// The numeric value of one decimal digit.
pub open spec fn digit_val(c: char) -> int {
    (c as u32) as int - ('0' as u32) as int
}

/// The value of a run of decimal digits, most significant first.
pub open spec fn digits_val(s: Seq<char>) -> int
    decreases s.len(),
{
    if s.len() == 0 {
        0
    } else {
        digits_val(s.drop_last()) * 10 + digit_val(s.last())
    }
}

/// Whether every character is a decimal digit.
pub open spec fn all_digits(s: Seq<char>) -> bool {
    forall|i: int| 0 <= i < s.len() ==> is_digit(s[i])
}

/// Ten to the `n`-th power.
pub open spec fn pow10(n: nat) -> int
    decreases n,
{
    if n == 0 {
        1
    } else {
        10 * pow10((n - 1) as nat)
    }
}

/// The integer a fault code's text denotes: an optional minus sign and
/// one to eighteen decimal digits. Longer runs are not accepted, which
/// keeps every accepted code inside the machine's integer range.
pub open spec fn fault_int(s: Seq<char>) -> Option<int> {
    if s.len() >= 2 && s[0] == '-' {
        let d = s.subrange(1, s.len() as int);
        if d.len() <= 18 && all_digits(d) {
            Some(-digits_val(d))
        } else {
            None
        }
    } else if 1 <= s.len() <= 18 && all_digits(s) {
        Some(digits_val(s))
    } else {
        None
    }
}

/// Powers of ten grow with the exponent.
proof fn lemma_pow10_mono(a: nat, b: nat)
    requires
        a <= b,
    ensures
        1 <= pow10(a) <= pow10(b),
    decreases b,
{
    if a == b {
        if a > 0 {
            lemma_pow10_mono((a - 1) as nat, (b - 1) as nat);
        }
    } else {
        lemma_pow10_mono(a, (b - 1) as nat);
    }
}

/// A run of at most eighteen digits stays well inside the 64-bit range.
proof fn lemma_digits_val_bound(s: Seq<char>)
    requires
        all_digits(s),
    ensures
        0 <= digits_val(s) < pow10(s.len()),
    decreases s.len(),
{
    if s.len() > 0 {
        assert(all_digits(s.drop_last()));
        lemma_digits_val_bound(s.drop_last());
        assert(is_digit(s.last()));
        assert(0 <= digit_val(s.last()) <= 9);
    }
}

/// `pow10(18)` written out.
proof fn lemma_pow10_18()
    ensures
        pow10(18) == 1000000000000000000,
{
    assert(pow10(0) == 1);
    assert(pow10(1) == 10);
    assert(pow10(2) == 100);
    assert(pow10(3) == 1000);
    assert(pow10(4) == 10000);
    assert(pow10(5) == 100000);
    assert(pow10(6) == 1000000);
    assert(pow10(7) == 10000000);
    assert(pow10(8) == 100000000);
    assert(pow10(9) == 1000000000);
    assert(pow10(10) == 10000000000);
    assert(pow10(11) == 100000000000);
    assert(pow10(12) == 1000000000000);
    assert(pow10(13) == 10000000000000);
    assert(pow10(14) == 100000000000000);
    assert(pow10(15) == 1000000000000000);
    assert(pow10(16) == 10000000000000000);
    assert(pow10(17) == 100000000000000000);
    assert(pow10(18) == 1000000000000000000);
}

/// Read a fault code. The result is exactly what `fault_int` accepts.
pub fn parse_fault_code(s: &str) -> (r: Option<i64>)
    ensures
        match fault_int(s@) {
            None => r is None,
            Some(v) => r matches Some(x) && x as int == v,
        },
{
    let len = s.unicode_len();
    let neg = len >= 2 && s.get_char(0) == '-';
    let start: usize = if neg {
        1
    } else {
        0
    };
    let ghost d = s@.subrange(start as int, len as int);
    if len - start < 1 || len - start > 18 {
        return None;
    }
    let mut acc: i64 = 0;
    let mut i: usize = start;
    proof {
        assert(s@.subrange(start as int, start as int) =~= Seq::<char>::empty());
    }
    while i < len
        invariant
            start <= i <= len,
            start <= 1,
            len == s@.len(),
            1 <= len - start <= 18,
            d == s@.subrange(start as int, len as int),
            neg == (s@.len() >= 2 && s@[0] == '-'),
            start == if neg { 1int } else { 0int },
            all_digits(s@.subrange(start as int, i as int)),
            acc == digits_val(s@.subrange(start as int, i as int)),
            0 <= acc < pow10((i - start) as nat),
        decreases len - i,
    {
        let c = s.get_char(i);
        if !('0' <= c && c <= '9') {
            proof {
                assert(d[i - start] == s@[i as int]);
                assert(!all_digits(d));
                if !neg {
                    assert(d =~= s@);
                }
            }
            return None;
        }
        let dv = (c as u32 - '0' as u32) as i64;
        proof {
            lemma_pow10_mono((i - start) as nat, 17);
            lemma_pow10_18();
            let grown = s@.subrange(start as int, i + 1);
            assert(grown.drop_last() =~= s@.subrange(start as int, i as int));
            assert(grown.last() == s@[i as int]);
        }
        acc = acc * 10 + dv;
        i += 1;
    }
    proof {
        assert(s@.subrange(start as int, i as int) =~= d);
        lemma_digits_val_bound(d);
        lemma_pow10_mono(d.len(), 18);
        lemma_pow10_18();
        if !neg {
            assert(d =~= s@);
        }
    }
    if neg {
        Some(-acc)
    } else {
        Some(acc)
    }
}

/// What decoding a response document yields, over the whole pipeline:
/// tokenize, build the element tree, then read a fault or the zero-or-one
/// return value out of it. Value text is unescaped on the way in.
pub open spec fn decode_spec(s: Seq<char>) -> Result<ResponseModel, ErrorModel> {
    match xml::parse_doc(s) {
        Err(e) => Err(ErrorModel::Parse(e)),
        Ok(root) => if has_fault(root) {
            match find_member(root, "faultCode"@) {
                None => Err(ErrorModel::MissingFaultFields),
                Some(code_raw) => match find_member(root, "faultString"@) {
                    None => Err(ErrorModel::MissingFaultFields),
                    Some(msg_raw) => match fault_int(unescaped(code_raw)) {
                        Some(v) => Ok(ResponseModel::Fault(v, unescaped(msg_raw))),
                        None => Err(ErrorModel::BadFaultCode),
                    },
                },
            }
        } else {
            let vs = values_in(root);
            if vs.len() == 0 {
                Ok(ResponseModel::Success(ValueModel::Empty))
            } else if vs.len() == 1 {
                Ok(ResponseModel::Success(ValueModel::String(unescaped(vs[0].1))))
            } else {
                Err(ErrorModel::TooManyParameters(vs.len() as int))
            }
        },
    }
}

/// Decode a response document into the value it returns or the fault it
/// raises.
///
/// A document whose outer element is a `fault` yields the fault's code and
/// message; any other well-formed document yields its zero-or-one return
/// value, an empty value standing in when none is present. More than one
/// value is refused rather than guessed at.
pub fn deserialize_response(response_str: &str) -> (r: Result<Response, Error>)
    ensures
        match decode_spec(response_str@) {
            Ok(m) => r matches Ok(resp) && resp@ == m,
            Err(em) => r matches Err(e) && e@ == em,
        },
{
    let root = match xml::parse(response_str) {
        Err(e) => {
            return Err(Error::Parse(e));
        },
        Ok(root) => root,
    };
    if elem_has_fault(&root) {
        let code_raw = match find_member_exec(&root, "faultCode") {
            None => {
                return Err(Error::MissingFaultFields);
            },
            Some(c) => c,
        };
        let msg_raw = match find_member_exec(&root, "faultString") {
            None => {
                return Err(Error::MissingFaultFields);
            },
            Some(m) => m,
        };
        let code_text = unescape(code_raw.as_str());
        match parse_fault_code(code_text.as_str()) {
            Some(code) => Ok(
                Response::Fault {
                    fault_code: code,
                    fault_string: unescape(msg_raw.as_str()),
                },
            ),
            None => Err(Error::BadFaultCode),
        }
    } else {
        let mut vals: Vec<(String, String)> = Vec::new();
        collect_values(&root, &mut vals);
        proof {
            assert(pair_views(vals@) =~= values_in(root.model()));
        }
        if vals.len() == 0 {
            Ok(Response::Success { param: Value::Empty })
        } else if vals.len() == 1 {
            let raw = &vals[0].1;
            proof {
                assert(pair_views(vals@)[0].1 == vals@[0].1@);
            }
            Ok(Response::Success { param: Value::String(unescape(raw.as_str())) })
        } else {
            Err(Error::TooManyParameters(vals.len()))
        }
    }
}

} // verus!
