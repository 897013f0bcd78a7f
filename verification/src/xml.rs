//! Parsing for the XML subset that XML-RPC peers emit.
//!
//! Only the constructs needed for XML-RPC requests and responses are
//! recognized: start tags and end tags without attributes, processing
//! instructions, and runs of text. A tokenizer turns the input into a token
//! sequence, and an element builder assembles the tokens into a tree of
//! nested elements rooted at an implicit root element.

use vstd::prelude::*;

verus! {

broadcast use vstd::std_specs::vec::axiom_vec_index_decreases;

/// A lexical token of the XML subset, in document order.
#[derive(Debug, Clone, PartialEq)]
pub enum Token {
    /// A processing instruction such as an XML declaration; recognized and
    /// dropped, never structurally meaningful.
    ProcessingInstruction,
    /// `<name>`, with optional whitespace before the closing `>`.
    StartTag { name: String },
    /// `</name>`, with optional whitespace before the closing `>`.
    EndTag { name: String },
    /// A run of one or more characters up to the next `<`.
    Text { content: String },
}

/// The mathematical shape of one token.
pub ghost enum TokenModel {
    ProcessingInstruction,
    StartTag(Seq<char>),
    EndTag(Seq<char>),
    Text(Seq<char>),
}

impl View for Token {
    type V = TokenModel;

    open spec fn view(&self) -> TokenModel {
        match self {
            Token::ProcessingInstruction => TokenModel::ProcessingInstruction,
            Token::StartTag { name } => TokenModel::StartTag(name@),
            Token::EndTag { name } => TokenModel::EndTag(name@),
            Token::Text { content } => TokenModel::Text(content@),
        }
    }
}

/// A tag name character: one ASCII letter or digit.
pub open spec fn is_name_char(c: char) -> bool {
    ('a' <= c && c <= 'z') || ('A' <= c && c <= 'Z') || ('0' <= c && c <= '9')
}

/// Whitespace tolerated between a tag name and the closing `>`.
pub open spec fn is_space_char(c: char) -> bool {
    c == ' ' || c == '\t' || c == '\n' || c == '\r'
}

/// The index of the first `>` at or after `i`, if any.
pub open spec fn gt_pos(s: Seq<char>, i: int) -> Option<int>
    decreases s.len() - i,
    when 0 <= i
{
    if i >= s.len() {
        None
    } else if s[i] == '>' {
        Some(i)
    } else {
        gt_pos(s, i + 1)
    }
}

/// The end of the run of characters satisfying `p` that starts at `i`.
pub open spec fn run_end(s: Seq<char>, i: int, p: spec_fn(char) -> bool) -> int
    decreases s.len() - i,
    when 0 <= i <= s.len()
{
    if i >= s.len() {
        i
    } else if p(s[i]) {
        run_end(s, i + 1, p)
    } else {
        i
    }
}

/// How many characters a leading processing instruction `<?...?>` spans,
/// if the input starts with one. The instruction runs to the first `>`,
/// which must be preceded by `?`.
pub open spec fn pi_token_len(s: Seq<char>) -> Option<int> {
    if s.len() >= 2 && s[0] == '<' && s[1] == '?' {
        match gt_pos(s, 2) {
            None => None,
            Some(k) => if k >= 3 && s[k - 1] == '?' {
                Some(k + 1)
            } else {
                None
            },
        }
    } else {
        None
    }
}

/// The name and span of a leading start tag `<name>` or `<name  >`,
/// if the input starts with one.
pub open spec fn start_tag_token(s: Seq<char>) -> Option<(Seq<char>, int)> {
    if s.len() >= 1 && s[0] == '<' {
        let p = run_end(s, 1, |c: char| is_name_char(c));
        if p > 1 {
            let q = run_end(s, p, |c: char| is_space_char(c));
            if q < s.len() && s[q] == '>' {
                Some((s.subrange(1, p), q + 1))
            } else {
                None
            }
        } else {
            None
        }
    } else {
        None
    }
}

/// The name and span of a leading end tag `</name>` or `</name  >`,
/// if the input starts with one.
pub open spec fn end_tag_token(s: Seq<char>) -> Option<(Seq<char>, int)> {
    if s.len() >= 2 && s[0] == '<' && s[1] == '/' {
        let p = run_end(s, 2, |c: char| is_name_char(c));
        if p > 2 {
            let q = run_end(s, p, |c: char| is_space_char(c));
            if q < s.len() && s[q] == '>' {
                Some((s.subrange(2, p), q + 1))
            } else {
                None
            }
        } else {
            None
        }
    } else {
        None
    }
}

/// The content and span of a leading text run: one or more characters up
/// to the next `<`.
pub open spec fn text_token(s: Seq<char>) -> Option<(Seq<char>, int)> {
    if s.len() >= 1 && s[0] != '<' {
        let p = run_end(s, 0, |c: char| c != '<');
        Some((s.subrange(0, p), p))
    } else {
        None
    }
}

/// The first token of `s` and the number of characters it spans: the
/// processing-instruction, start-tag, end-tag and text patterns are tried
/// in that fixed order, and the first match wins.
pub open spec fn token_at(s: Seq<char>) -> Option<(TokenModel, int)> {
    if pi_token_len(s) is Some {
        Some((TokenModel::ProcessingInstruction, pi_token_len(s)->Some_0))
    } else if start_tag_token(s) is Some {
        let (name, n) = start_tag_token(s)->Some_0;
        Some((TokenModel::StartTag(name), n))
    } else if end_tag_token(s) is Some {
        let (name, n) = end_tag_token(s)->Some_0;
        Some((TokenModel::EndTag(name), n))
    } else if text_token(s) is Some {
        let (content, n) = text_token(s)->Some_0;
        Some((TokenModel::Text(content), n))
    } else {
        None
    }
}

/// If every character in `[i, k)` is not `>` and `s[k]` is `>`, the scan
/// from `i` finds `k`.
proof fn lemma_gt_pos_found(s: Seq<char>, i: int, k: int)
    requires
        0 <= i <= k < s.len(),
        s[k] == '>',
        forall|j: int| i <= j < k ==> s[j] != '>',
    ensures
        gt_pos(s, i) == Some(k),
    decreases k - i,
{
    if i < k {
        lemma_gt_pos_found(s, i + 1, k);
    }
}

/// If no character at or after `i` is `>`, the scan from `i` finds nothing.
proof fn lemma_gt_pos_none(s: Seq<char>, i: int)
    requires
        0 <= i,
        forall|j: int| i <= j < s.len() ==> s[j] != '>',
    ensures
        gt_pos(s, i) is None,
    decreases s.len() - i,
{
    if i < s.len() {
        lemma_gt_pos_none(s, i + 1);
    }
}

/// A run that satisfies `p` on `[i, j)` and stops at `j` ends at `j`.
proof fn lemma_run_end(s: Seq<char>, i: int, j: int, p: spec_fn(char) -> bool)
    requires
        0 <= i <= j <= s.len(),
        forall|k: int| i <= k < j ==> p(s[k]),
        j < s.len() ==> !p(s[j]),
    ensures
        run_end(s, i, p) == j,
    decreases j - i,
{
    if i < j {
        lemma_run_end(s, i + 1, j, p);
    }
}

/// The run end never leaves the bounds of the string.
proof fn lemma_run_end_bounds(s: Seq<char>, i: int, p: spec_fn(char) -> bool)
    requires
        0 <= i <= s.len(),
    ensures
        i <= run_end(s, i, p) <= s.len(),
    decreases s.len() - i,
{
    if i < s.len() && p(s[i]) {
        lemma_run_end_bounds(s, i + 1, p);
    }
}

/// A found `>` lies at or after the start of the scan and inside the string.
proof fn lemma_gt_pos_bounds(s: Seq<char>, i: int)
    requires
        0 <= i,
        gt_pos(s, i) is Some,
    ensures
        i <= gt_pos(s, i)->Some_0 < s.len(),
    decreases s.len() - i,
{
    if i < s.len() && s[i] != '>' {
        lemma_gt_pos_bounds(s, i + 1);
    }
}

/// The tokenizer always makes forward progress: a matched token spans at
/// least one character and never more than the whole input.
pub proof fn lemma_token_progress(s: Seq<char>)
    ensures
        token_at(s) matches Some((t, n)) ==> 1 <= n <= s.len(),
{
    if pi_token_len(s) is Some {
        lemma_gt_pos_bounds(s, 2);
    } else if s.len() >= 1 && s[0] == '<' {
        lemma_run_end_bounds(s, 1, |c: char| is_name_char(c));
        lemma_run_end_bounds(s, run_end(s, 1, |c: char| is_name_char(c)), |c: char| is_space_char(c));
        if s.len() >= 2 && s[1] == '/' {
            lemma_run_end_bounds(s, 2, |c: char| is_name_char(c));
            lemma_run_end_bounds(s, run_end(s, 2, |c: char| is_name_char(c)), |c: char| is_space_char(c));
        }
    } else if s.len() >= 1 {
        assert(run_end(s, 0, |c: char| c != '<') == run_end(s, 1, |c: char| c != '<'));
        lemma_run_end_bounds(s, 1, |c: char| c != '<');
    }
}

/// The sequence of tokens matched from the front of `s`, up to the first
/// point where no pattern matches or the input is exhausted.
pub open spec fn tokenize(s: Seq<char>) -> Seq<TokenModel>
    decreases s.len(),
    via tokenize_decreases
{
    match token_at(s) {
        None => seq![],
        Some((t, n)) => seq![t] + tokenize(s.skip(n)),
    }
}

#[via_fn]
proof fn tokenize_decreases(s: Seq<char>) {
    lemma_token_progress(s);
}

/// What is left of `s` after matching tokens from the front as long as a
/// pattern matches.
pub open spec fn tokenize_rest(s: Seq<char>) -> Seq<char>
    decreases s.len(),
    via tokenize_rest_decreases
{
    match token_at(s) {
        None => s,
        Some((t, n)) => tokenize_rest(s.skip(n)),
    }
}

#[via_fn]
proof fn tokenize_rest_decreases(s: Seq<char>) {
    lemma_token_progress(s);
}

/// Whether `c` is an ASCII letter or digit.
fn name_char(c: char) -> (b: bool)
    ensures
        b == is_name_char(c),
{
    ('a' <= c && c <= 'z') || ('A' <= c && c <= 'Z') || ('0' <= c && c <= '9')
}

/// Whether `c` is whitespace tolerated inside a tag.
fn space_char(c: char) -> (b: bool)
    ensures
        b == is_space_char(c),
{
    c == ' ' || c == '\t' || c == '\n' || c == '\r'
}

/// Match a leading processing instruction and return the token with the
/// remaining input.
pub fn get_pi_token<'a>(input: &'a str) -> (r: Option<(Token, &'a str)>)
    ensures
        match pi_token_len(input@) {
            None => r is None,
            Some(n) => {
                &&& r matches Some((t, rem))
                &&& t@ == TokenModel::ProcessingInstruction
                &&& rem@ == input@.skip(n)
            },
        },
{
    let len = input.unicode_len();
    if len >= 2 && input.get_char(0) == '<' && input.get_char(1) == '?' {
        let mut k: usize = 2;
        while k < len && input.get_char(k) != '>'
            invariant
                2 <= k <= len,
                len == input@.len(),
                forall|j: int| 2 <= j < k ==> input@[j] != '>',
            decreases len - k,
        {
            k += 1;
        }
        if k == len {
            proof {
                lemma_gt_pos_none(input@, 2);
            }
            None
        } else {
            proof {
                lemma_gt_pos_found(input@, 2, k as int);
            }
            if k >= 3 && input.get_char(k - 1) == '?' {
                let rem = input.substring_char(k + 1, len);
                Some((Token::ProcessingInstruction, rem))
            } else {
                None
            }
        }
    } else {
        None
    }
}

/// Scan the run of name characters that starts at `from`, returning its end.
fn scan_name_run(input: &str, from: usize) -> (p: usize)
    requires
        from <= input@.len(),
    ensures
        p == run_end(input@, from as int, |c: char| is_name_char(c)),
        from <= p <= input@.len(),
{
    let len = input.unicode_len();
    let mut p: usize = from;
    while p < len && name_char(input.get_char(p))
        invariant
            from <= p <= len,
            len == input@.len(),
            forall|k: int| from <= k < p ==> is_name_char(input@[k]),
        decreases len - p,
    {
        p += 1;
    }
    proof {
        lemma_run_end(input@, from as int, p as int, |c: char| is_name_char(c));
    }
    p
}

/// Scan the run of whitespace that starts at `from`, returning its end.
fn scan_space_run(input: &str, from: usize) -> (p: usize)
    requires
        from <= input@.len(),
    ensures
        p == run_end(input@, from as int, |c: char| is_space_char(c)),
        from <= p <= input@.len(),
{
    let len = input.unicode_len();
    let mut p: usize = from;
    while p < len && space_char(input.get_char(p))
        invariant
            from <= p <= len,
            len == input@.len(),
            forall|k: int| from <= k < p ==> is_space_char(input@[k]),
        decreases len - p,
    {
        p += 1;
    }
    proof {
        lemma_run_end(input@, from as int, p as int, |c: char| is_space_char(c));
    }
    p
}

/// Match a leading start tag and return the token with the remaining input.
pub fn get_stag_token<'a>(input: &'a str) -> (r: Option<(Token, &'a str)>)
    ensures
        match start_tag_token(input@) {
            None => r is None,
            Some((name, n)) => {
                &&& r matches Some((t, rem))
                &&& t@ == TokenModel::StartTag(name)
                &&& rem@ == input@.skip(n)
            },
        },
{
    let len = input.unicode_len();
    if len >= 1 && input.get_char(0) == '<' {
        let p = scan_name_run(input, 1);
        if p > 1 {
            let q = scan_space_run(input, p);
            if q < len && input.get_char(q) == '>' {
                let name = input.substring_char(1, p).to_owned();
                let rem = input.substring_char(q + 1, len);
                Some((Token::StartTag { name }, rem))
            } else {
                None
            }
        } else {
            None
        }
    } else {
        None
    }
}

/// Match a leading end tag and return the token with the remaining input.
pub fn get_etag_token<'a>(input: &'a str) -> (r: Option<(Token, &'a str)>)
    ensures
        match end_tag_token(input@) {
            None => r is None,
            Some((name, n)) => {
                &&& r matches Some((t, rem))
                &&& t@ == TokenModel::EndTag(name)
                &&& rem@ == input@.skip(n)
            },
        },
{
    let len = input.unicode_len();
    if len >= 2 && input.get_char(0) == '<' && input.get_char(1) == '/' {
        let p = scan_name_run(input, 2);
        if p > 2 {
            let q = scan_space_run(input, p);
            if q < len && input.get_char(q) == '>' {
                let name = input.substring_char(2, p).to_owned();
                let rem = input.substring_char(q + 1, len);
                Some((Token::EndTag { name }, rem))
            } else {
                None
            }
        } else {
            None
        }
    } else {
        None
    }
}

/// Match a leading text run and return the token with the remaining input.
pub fn get_text_token<'a>(input: &'a str) -> (r: Option<(Token, &'a str)>)
    ensures
        match text_token(input@) {
            None => r is None,
            Some((content, n)) => {
                &&& r matches Some((t, rem))
                &&& t@ == TokenModel::Text(content)
                &&& rem@ == input@.skip(n)
            },
        },
{
    let len = input.unicode_len();
    if len >= 1 && input.get_char(0) != '<' {
        let mut p: usize = 0;
        while p < len && input.get_char(p) != '<'
            invariant
                0 <= p <= len,
                len == input@.len(),
                forall|k: int| 0 <= k < p ==> input@[k] != '<',
            decreases len - p,
        {
            p += 1;
        }
        proof {
            lemma_run_end(input@, 0, p as int, |c: char| c != '<');
        }
        let content = input.substring_char(0, p).to_owned();
        let rem = input.substring_char(p, len);
        Some((Token::Text { content }, rem))
    } else {
        None
    }
}

/// Match the next token of the input, trying the processing-instruction,
/// start-tag, end-tag and text patterns in that fixed precedence order.
///
/// Returns the token and the remaining unparsed part of the input, or
/// nothing when the input is exhausted or no pattern matches.
pub fn get_token<'a>(input: &'a str) -> (r: Option<(Token, &'a str)>)
    ensures
        match token_at(input@) {
            None => r is None,
            Some((tok, n)) => {
                &&& r matches Some((t, rem))
                &&& t@ == tok
                &&& rem@ == input@.skip(n)
            },
        },
{
    match get_pi_token(input) {
        None => (),
        x => {
            return x;
        },
    };
    match get_stag_token(input) {
        None => (),
        x => {
            return x;
        },
    };
    match get_etag_token(input) {
        None => (),
        x => {
            return x;
        },
    };
    get_text_token(input)
}

/// A single element around plain text tokenizes to exactly its start tag,
/// its text, and its end tag, with nothing left over: for every non-empty
/// alphanumeric tag name `n` and non-empty text `t` free of `<`, the
/// document `<n>t</n>` yields those three tokens. (Empty text is left out:
/// no empty text token exists, so `<n></n>` yields the two tags alone.)
pub proof fn lemma_tokenize_simple_element(n: Seq<char>, t: Seq<char>)
    requires
        n.len() > 0,
        forall|i: int| 0 <= i < n.len() ==> is_name_char(n[i]),
        t.len() > 0,
        forall|i: int| 0 <= i < t.len() ==> t[i] != '<',
    ensures
        tokenize(seq!['<'] + n + seq!['>'] + t + seq!['<', '/'] + n + seq!['>'])
            =~= seq![
            TokenModel::StartTag(n),
            TokenModel::Text(t),
            TokenModel::EndTag(n),
        ],
        tokenize_rest(seq!['<'] + n + seq!['>'] + t + seq!['<', '/'] + n + seq!['>'])
            == Seq::<char>::empty(),
{
    let doc = seq!['<'] + n + seq!['>'] + t + seq!['<', '/'] + n + seq!['>'];
    let nl = n.len() as int;
    let tl = t.len() as int;
    assert(doc.len() == nl + tl + nl + 5);
    assert(forall|k: int| 0 <= k < n.len() ==> doc[1 + k] == n[k]);
    assert(doc[0] == '<');
    assert(doc[1 + nl] == '>');
    // The document opens with a start tag, not a processing instruction.
    assert(!is_name_char('?')) by {
        assert(('?' as u32) == 63);
    }
    assert(pi_token_len(doc) is None);
    lemma_run_end(doc, 1, 1 + nl, |c: char| is_name_char(c));
    lemma_run_end(doc, 1 + nl, 1 + nl, |c: char| is_space_char(c));
    assert(start_tag_token(doc) == Some((doc.subrange(1, 1 + nl), nl + 2)));
    assert(doc.subrange(1, 1 + nl) =~= n);
    assert(token_at(doc) == Some((TokenModel::StartTag(n), nl + 2)));
    // Then comes the text run, up to the `<` of the end tag.
    let s2 = doc.skip(nl + 2);
    assert(s2 =~= t + seq!['<', '/'] + n + seq!['>']);
    assert(s2[0] == t[0]);
    assert(forall|k: int| 0 <= k < t.len() ==> s2[k] == t[k]);
    assert(s2[tl] == '<');
    assert(pi_token_len(s2) is None);
    assert(start_tag_token(s2) is None);
    assert(end_tag_token(s2) is None);
    lemma_run_end(s2, 0, tl, |c: char| c != '<');
    assert(text_token(s2) == Some((s2.subrange(0, tl), tl)));
    assert(s2.subrange(0, tl) =~= t);
    assert(token_at(s2) == Some((TokenModel::Text(t), tl)));
    // Then the matching end tag closes the document.
    let s3 = s2.skip(tl);
    assert(s3 =~= seq!['<', '/'] + n + seq!['>']);
    assert(s3[0] == '<' && s3[1] == '/');
    assert(forall|k: int| 0 <= k < n.len() ==> s3[2 + k] == n[k]);
    assert(s3[2 + nl] == '>');
    assert(!is_name_char('/')) by {
        assert(('/' as u32) == 47);
    }
    assert(pi_token_len(s3) is None);
    lemma_run_end(s3, 1, 1, |c: char| is_name_char(c));
    assert(start_tag_token(s3) is None);
    lemma_run_end(s3, 2, 2 + nl, |c: char| is_name_char(c));
    lemma_run_end(s3, 2 + nl, 2 + nl, |c: char| is_space_char(c));
    assert(end_tag_token(s3) == Some((s3.subrange(2, 2 + nl), nl + 3)));
    assert(s3.subrange(2, 2 + nl) =~= n);
    assert(token_at(s3) == Some((TokenModel::EndTag(n), nl + 3)));
    // Nothing is left.
    let s4 = s3.skip(nl + 3);
    assert(s4 =~= Seq::<char>::empty());
    assert(token_at(s4) is None);
    assert(tokenize(s4) =~= Seq::<TokenModel>::empty());
    assert(s3.skip(nl + 3) == s4);
    assert(s2.skip(tl) == s3);
    assert(doc.skip(nl + 2) == s2);
    assert(tokenize(s3) =~= seq![TokenModel::EndTag(n)]);
    assert(tokenize(s2) =~= seq![TokenModel::Text(t), TokenModel::EndTag(n)]);
    assert(tokenize_rest(s4) == s4);
    assert(tokenize_rest(s3) == tokenize_rest(s4));
    assert(tokenize_rest(s2) == tokenize_rest(s3));
    assert(tokenize_rest(doc) == tokenize_rest(s2));
    assert(tokenize(doc) =~= seq![
        TokenModel::StartTag(n),
        TokenModel::Text(t),
        TokenModel::EndTag(n),
    ]);
    assert(tokenize_rest(doc) =~= Seq::<char>::empty());
}

/// A document holding one whole processing instruction tokenizes to that
/// single token with nothing left over: for every body `m` free of `>`,
/// the document `<?m?>` yields one processing-instruction token.
pub proof fn lemma_tokenize_processing_instruction(m: Seq<char>)
    requires
        forall|i: int| 0 <= i < m.len() ==> m[i] != '>',
    ensures
        tokenize(seq!['<', '?'] + m + seq!['?', '>']) =~= seq![
            TokenModel::ProcessingInstruction,
        ],
        tokenize_rest(seq!['<', '?'] + m + seq!['?', '>']) == Seq::<char>::empty(),
{
    let doc = seq!['<', '?'] + m + seq!['?', '>'];
    let ml = m.len() as int;
    assert(doc.len() == ml + 4);
    assert(doc[0] == '<' && doc[1] == '?');
    assert(forall|k: int| 0 <= k < m.len() ==> doc[2 + k] == m[k]);
    assert(doc[ml + 2] == '?');
    assert(doc[ml + 3] == '>');
    lemma_gt_pos_found(doc, 2, ml + 3);
    assert(pi_token_len(doc) == Some(ml + 4));
    assert(token_at(doc) == Some((TokenModel::ProcessingInstruction, ml + 4)));
    let s2 = doc.skip(ml + 4);
    assert(s2 =~= Seq::<char>::empty());
    assert(token_at(s2) is None);
    assert(doc.skip(ml + 4) == s2);
    assert(tokenize(s2) =~= Seq::<TokenModel>::empty());
    assert(tokenize_rest(s2) == s2);
    assert(tokenize(doc) =~= seq![TokenModel::ProcessingInstruction]);
    assert(tokenize_rest(doc) == tokenize_rest(s2));
    assert(tokenize_rest(doc) =~= Seq::<char>::empty());
}

/// A structural error raised while assembling a document's element tree.
#[derive(Debug, Clone, Copy, PartialEq, Eq, Structural)]
pub enum XmlError {
    /// The implicit root element was closed by an explicit end tag.
    RootClosedExplicitly,
    /// An end tag did not match the innermost open start tag.
    MismatchedCloseTag,
    /// The document ended with this many elements still open.
    UnclosedElements(usize),
}

/// An XML element: its tag name, its child elements in document order, and
/// the text accumulated directly under it. An implicit root element holds
/// every top-level element of a document.
pub struct Element {
    pub(crate) name: String,
    pub(crate) children: Vec<Element>,
    pub(crate) text: String,
}

/// The mathematical shape of an element tree.
#[verifier::ext_equal]
pub ghost struct ElemModel {
    pub name: Seq<char>,
    pub children: Seq<ElemModel>,
    pub text: Seq<char>,
}

impl Element {
    /// The tree this element represents.
    pub closed spec fn model(&self) -> ElemModel
        decreases self,
    {
        ElemModel {
            name: self.name@,
            children: models_of(self.children),
            text: self.text@,
        }
    }

    /// The element's tag name.
    pub fn name(&self) -> (r: &String)
        ensures
            r@ == self.model().name,
    {
        &self.name
    }

    /// The text accumulated directly under this element.
    pub fn text(&self) -> (r: &String)
        ensures
            r@ == self.model().text,
    {
        &self.text
    }

    /// How many child elements this element has.
    pub fn child_count(&self) -> (r: usize)
        ensures
            r == self.model().children.len(),
    {
        self.children.len()
    }

    /// The `i`-th child element, in document order.
    pub fn child(&self, i: usize) -> (r: &Element)
        requires
            i < self.model().children.len(),
        ensures
            r.model() == self.model().children[i as int],
    {
        &self.children[i]
    }
}

/// The models of a row of sibling elements, in document order.
pub(crate) open spec fn models_of(v: Vec<Element>) -> Seq<ElemModel>
    decreases v,
{
    Seq::new(
        v.len() as nat,
        |i: int|
            if 0 <= i < v.len() {
                v[i].model()
            } else {
                root_model()
            },
    )
}

/// How an element's tree is assembled from its parts.
pub(crate) proof fn lemma_model_fields(e: &Element)
    ensures
        e.model() == (ElemModel { name: e.name@, children: models_of(e.children), text: e.text@ }),
{
}

/// Whether two string slices hold the same characters.
pub fn str_eq(a: &str, b: &str) -> (r: bool)
    ensures
        r == (a@ == b@),
{
    let alen = a.unicode_len();
    let blen = b.unicode_len();
    if alen != blen {
        proof {
            assert(a@ != b@) by {
                assert(a@.len() != b@.len());
            }
        }
        return false;
    }
    let mut i: usize = 0;
    while i < alen
        invariant
            0 <= i <= alen,
            alen == a@.len() && alen == b@.len(),
            forall|j: int| 0 <= j < i ==> a@[j] == b@[j],
        decreases alen - i,
    {
        if a.get_char(i) != b.get_char(i) {
            return false;
        }
        i += 1;
    }
    proof {
        assert(a@ =~= b@);
    }
    true
}

/// The implicit root element, open before any token is consumed.
pub open spec fn root_model() -> ElemModel {
    ElemModel { name: "root"@, children: Seq::empty(), text: Seq::empty() }
}

/// One step of the element builder: how a token transforms the stack of
/// open elements. The bottom of the stack is the implicit root.
pub open spec fn apply_token(stack: Seq<ElemModel>, t: TokenModel) -> Result<
    Seq<ElemModel>,
    XmlError,
> {
    if stack.len() == 0 {
        Err(XmlError::RootClosedExplicitly)
    } else {
        match t {
            TokenModel::ProcessingInstruction => Ok(stack),
            TokenModel::StartTag(name) => Ok(
                stack.push(ElemModel { name, children: Seq::empty(), text: Seq::empty() }),
            ),
            TokenModel::EndTag(name) => {
                if stack.last().name == name {
                    if stack.len() == 1 {
                        Ok(Seq::empty())
                    } else {
                        let parent = stack[stack.len() - 2];
                        let filled = ElemModel {
                            name: parent.name,
                            children: parent.children.push(stack.last()),
                            text: parent.text,
                        };
                        Ok(stack.subrange(0, stack.len() - 2).push(filled))
                    }
                } else {
                    Err(XmlError::MismatchedCloseTag)
                }
            },
            TokenModel::Text(content) => {
                let top = stack.last();
                let grown = ElemModel {
                    name: top.name,
                    children: top.children,
                    text: top.text + content,
                };
                Ok(stack.subrange(0, stack.len() - 1).push(grown))
            },
        }
    }
}

/// The element builder folded over a whole token sequence.
pub open spec fn build_tokens(stack: Seq<ElemModel>, toks: Seq<TokenModel>) -> Result<
    Seq<ElemModel>,
    XmlError,
>
    decreases toks.len(),
{
    if toks.len() == 0 {
        Ok(stack)
    } else {
        match apply_token(stack, toks[0]) {
            Err(e) => Err(e),
            Ok(st) => build_tokens(st, toks.drop_first()),
        }
    }
}

/// What parsing a whole document yields: the root element left alone on the
/// stack, or the structural error the token sequence runs into. Trailing
/// input that matches no token pattern is discarded.
pub open spec fn parse_doc(s: Seq<char>) -> Result<ElemModel, XmlError> {
    match build_tokens(seq![root_model()], tokenize(s)) {
        Err(e) => Err(e),
        Ok(stack) => if stack.len() == 0 {
            Err(XmlError::RootClosedExplicitly)
        } else if stack.len() == 1 {
            Ok(stack[0])
        } else {
            Err(XmlError::UnclosedElements(stack.len() as usize))
        },
    }
}

/// The models of a stack of open elements, bottom first.
spec fn stack_model(v: Seq<Element>) -> Seq<ElemModel> {
    Seq::new(v.len(), |i: int| v[i].model())
}

/// Parse an XML-subset document and return the implicit root element, or
/// the structural error that the document runs into.
pub fn parse(input: &str) -> (r: Result<Element, XmlError>)
    ensures
        (r is Ok <==> parse_doc(input@) is Ok),
        r matches Ok(e) ==> parse_doc(input@) matches Ok(m) && e.model() == m,
        r matches Err(e) ==> parse_doc(input@) matches Err(m) && e == m,
{
    let mut stack: Vec<Element> = Vec::new();
    stack.push(
        Element { name: "root".to_owned(), children: Vec::new(), text: String::new() },
    );
    proof {
        let e = stack@[0];
        assert(e.model().name == "root"@);
        assert(e.model().children =~= Seq::<ElemModel>::empty());
        assert(e.model().text == Seq::<char>::empty());
        assert(e.model() =~~= root_model());
        assert(stack_model(stack@) =~~= seq![root_model()]);
    }
    let mut rem: &str = input;
    loop
        invariant
            build_tokens(seq![root_model()], tokenize(input@)) == build_tokens(
                stack_model(stack@),
                tokenize(rem@),
            ),
        ensures
            build_tokens(seq![root_model()], tokenize(input@)) == Ok::<_, XmlError>(
                stack_model(stack@),
            ),
        decreases rem@.len(),
    {
        let ghost pre_stack = stack_model(stack@);
        let ghost toks = tokenize(rem@);
        match get_token(rem) {
            None => {
                break ;
            },
            Some((tok, rest)) => {
                proof {
                    lemma_token_progress(rem@);
                    assert(toks == seq![tok@] + tokenize(rest@));
                    assert(toks[0] == tok@);
                    assert(toks.drop_first() =~= tokenize(rest@));
                }
                if stack.len() == 0 {
                    return Err(XmlError::RootClosedExplicitly);
                }
                match tok {
                    Token::ProcessingInstruction => {},
                    Token::StartTag { name } => {
                        stack.push(
                            Element { name, children: Vec::new(), text: String::new() },
                        );
                        proof {
                            assert(stack_model(stack@) =~= pre_stack.push(
                                ElemModel {
                                    name: stack@.last().name@,
                                    children: Seq::empty(),
                                    text: Seq::empty(),
                                },
                            )) by {
                                assert(stack@.last().model().children =~= Seq::<
                                    ElemModel,
                                >::empty());
                            }
                        }
                    },
                    Token::EndTag { name } => {
                        let top = stack.pop().unwrap();
                        if !top.name.eq(&name) {
                            return Err(XmlError::MismatchedCloseTag);
                        }
                        if stack.len() > 0 {
                            let mut parent = stack.pop().unwrap();
                            parent.children.push(top);
                            proof {
                                assert(parent.model().children =~= pre_stack[
                                    pre_stack.len() - 2].children.push(
                                    pre_stack.last(),
                                ));
                            }
                            stack.push(parent);
                            proof {
                                assert(stack_model(stack@) =~= pre_stack.subrange(
                                    0,
                                    pre_stack.len() - 2,
                                ).push(stack@.last().model()));
                                assert(stack@.last().model() =~= apply_token(
                                    pre_stack,
                                    tok@,
                                )->Ok_0.last());
                                assert(stack_model(stack@) =~= apply_token(
                                    pre_stack,
                                    tok@,
                                )->Ok_0);
                            }
                        } else {
                            proof {
                                assert(stack_model(stack@) =~= Seq::<ElemModel>::empty());
                            }
                        }
                    },
                    Token::Text { content } => {
                        let mut top = stack.pop().unwrap();
                        top.text.append(content.as_str());
                        proof {
                            assert(top.model().children =~= pre_stack.last().children);
                        }
                        stack.push(top);
                        proof {
                            assert(stack_model(stack@) =~= pre_stack.subrange(
                                0,
                                pre_stack.len() - 1,
                            ).push(stack@.last().model()));
                            assert(stack@.last().model() =~= apply_token(
                                pre_stack,
                                tok@,
                            )->Ok_0.last());
                            assert(stack_model(stack@) =~= apply_token(pre_stack, tok@)->Ok_0);
                        }
                    },
                }
                rem = rest;
            },
        }
    }
    if stack.len() == 0 {
        Err(XmlError::RootClosedExplicitly)
    } else if stack.len() == 1 {
        let ghost final_model = stack_model(stack@);
        let root = stack.pop().unwrap();
        proof {
            assert(root.model() == final_model[0]);
        }
        Ok(root)
    } else {
        Err(XmlError::UnclosedElements(stack.len()))
    }
}

} // verus!
