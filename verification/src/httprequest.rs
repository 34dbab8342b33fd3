//! The typed request model and the parser that builds it from the bytes
//! of one HTTP/1.1 request.
//!
//! The parser tells lines apart by what they hold, not by where they
//! stand: a line that holds `HTTP` is a request line, another line that
//! holds a colon is a header line, and any other line is the body. Request
//! line and header lines may therefore come in any order, and a later line
//! of a kind replaces what an earlier one set. The price is that a header
//! whose value holds `HTTP` is read as a request line, and a body line that
//! holds a colon as a header line.
use crate::headers::HeaderMap;
use crate::text::{
    contains_char, find, first_occurrence, lemma_first_occurrence, lines_of, next_token,
    split_lines, str_eq, to_chars, tokens, views,
};
use vstd::prelude::*;
use vstd::std_specs::convert::FromSpecImpl;
use vstd::utf8::{decode_utf8, encode_utf8, encode_utf8_decode_utf8, valid_utf8};

verus! {

/// The request methods that the parser tells apart.
#[derive(Debug, Clone, Copy, PartialEq, Eq, Structural)]
pub enum Method {
    Get,
    Post,
    Uninitialized,
}

/// The method that a token of the request line names: `GET` and `POST`,
/// spelled exactly so; any other token names none.
pub open spec fn method_of(token: Seq<char>) -> Method {
    if token == "GET"@ {
        Method::Get
    } else if token == "POST"@ {
        Method::Post
    } else {
        Method::Uninitialized
    }
}

impl FromSpecImpl<&str> for Method {
    open spec fn obeys_from_spec() -> bool {
        true
    }

    open spec fn from_spec(s: &str) -> Method {
        method_of(s@)
    }
}

impl From<&str> for Method {
    /// The method that `s` names.
    fn from(s: &str) -> (m: Method) {
        if str_eq(s, "GET") {
            Method::Get
        } else if str_eq(s, "POST") {
            Method::Post
        } else {
            Method::Uninitialized
        }
    }
}

/// The protocol versions that the parser tells apart.
#[derive(Debug, Clone, Copy, PartialEq, Eq, Structural)]
pub enum Version {
    Http10,
    Http11,
    Uninitialized,
}

/// The version that a token of the request line names: only `HTTP/1.1`,
/// spelled exactly so, is recognized.
pub open spec fn version_of(token: Seq<char>) -> Version {
    if token == "HTTP/1.1"@ {
        Version::Http11
    } else {
        Version::Uninitialized
    }
}

impl FromSpecImpl<&str> for Version {
    open spec fn obeys_from_spec() -> bool {
        true
    }

    open spec fn from_spec(s: &str) -> Version {
        version_of(s@)
    }
}

impl From<&str> for Version {
    /// The version that `s` names.
    fn from(s: &str) -> (v: Version) {
        if str_eq(s, "HTTP/1.1") {
            Version::Http11
        } else {
            Version::Uninitialized
        }
    }
}

/// The target of a request.
#[derive(Debug)]
pub enum Resource {
    /// The path as it stands in the request line, leading slash included.
    Path(String),
}

impl View for Resource {
    type V = Seq<char>;

    open spec fn view(&self) -> Seq<char> {
        match self {
            Resource::Path(path) => path@,
        }
    }
}

impl vstd::std_specs::cmp::PartialEqSpecImpl for Resource {
    open spec fn obeys_eq_spec() -> bool {
        true
    }

    open spec fn eq_spec(&self, other: &Resource) -> bool {
        self@ == other@
    }
}

impl PartialEq for Resource {
    /// Two resources are equal when their paths are.
    fn eq(&self, other: &Resource) -> (r: bool) {
        match (self, other) {
            (Resource::Path(a), Resource::Path(b)) => str_eq(a.as_str(), b.as_str()),
        }
    }
}

/// Why a buffer is no request.
#[derive(Debug, Clone, Copy, PartialEq, Eq, Structural)]
pub enum ParseError {
    /// A line that holds `HTTP` has fewer than three tokens.
    MalformedRequestLine,
    /// A line that holds a colon lacks the separator of name and value, a
    /// colon followed by a space.
    MalformedHeaderLine,
    /// The buffer is not well-formed UTF-8.
    InvalidEncoding,
}

/// What a request holds, as mathematical values.
pub struct RequestView {
    pub method: Method,
    pub path: Seq<char>,
    pub version: Version,
    pub headers: Map<Seq<char>, Seq<char>>,
    pub body: Seq<char>,
}

/// One parsed request.
#[derive(Debug)]
pub struct HttpRequest {
    pub method: Method,
    pub resource: Resource,
    pub version: Version,
    pub headers: HeaderMap,
    pub body: String,
}

impl View for HttpRequest {
    type V = RequestView;

    open spec fn view(&self) -> RequestView {
        RequestView {
            method: self.method,
            path: self.resource@,
            version: self.version,
            headers: self.headers@,
            body: self.body@,
        }
    }
}

impl vstd::std_specs::cmp::PartialEqSpecImpl for HttpRequest {
    open spec fn obeys_eq_spec() -> bool {
        true
    }

    open spec fn eq_spec(&self, other: &HttpRequest) -> bool {
        self@ == other@
    }
}

impl PartialEq for HttpRequest {
    /// Two requests are equal when they hold the same method, path,
    /// version, headers and body.
    fn eq(&self, other: &HttpRequest) -> (r: bool) {
        self.method == other.method && self.resource == other.resource && self.version
            == other.version && self.headers == other.headers && str_eq(
            self.body.as_str(),
            other.body.as_str(),
        )
    }
}

/// What a request line means: its first three tokens name the method, the
/// path and the version. A line with fewer tokens is malformed; tokens
/// after the third are not looked at.
pub open spec fn request_line_of(line: Seq<char>) -> Result<
    (Method, Seq<char>, Version),
    ParseError,
> {
    let words = tokens(line);
    if words.len() < 3 {
        Err(ParseError::MalformedRequestLine)
    } else {
        Ok((method_of(words[0]), words[1], version_of(words[2])))
    }
}

/// What a header line means: the name stands before the first colon that a
/// space follows, the value after that space. A line without such a
/// separator is malformed.
pub open spec fn header_of(line: Seq<char>) -> Result<(Seq<char>, Seq<char>), ParseError> {
    match first_occurrence(line, ": "@) {
        Some(i) => Ok((line.take(i), line.skip(i + 2))),
        None => Err(ParseError::MalformedHeaderLine),
    }
}

/// The request before any line was read.
pub open spec fn initial_request() -> RequestView {
    RequestView {
        method: Method::Uninitialized,
        path: Seq::empty(),
        version: Version::Http11,
        headers: Map::empty(),
        body: Seq::empty(),
    }
}

/// The line holds the text `HTTP` and is therefore read as a request line.
pub open spec fn is_request_line(line: Seq<char>) -> bool {
    first_occurrence(line, "HTTP"@) is Some
}

/// The line is no request line but holds a colon, and is therefore read as
/// a header line.
pub open spec fn is_header_line(line: Seq<char>) -> bool {
    !is_request_line(line) && line.contains(':')
}

/// The line is neither a request line nor a header line, and is therefore
/// taken as the body.
pub open spec fn is_body_line(line: Seq<char>) -> bool {
    !is_request_line(line) && !line.contains(':')
}

/// The request after one more line. A request line sets method, path and
/// version; a header line sets one header, replacing what stood under its
/// name; any other line, the empty one too, becomes the body.
pub open spec fn after_line(request: RequestView, line: Seq<char>) -> Result<
    RequestView,
    ParseError,
> {
    if is_request_line(line) {
        match request_line_of(line) {
            Ok((method, path, version)) => Ok(RequestView { method, path, version, ..request }),
            Err(e) => Err(e),
        }
    } else if is_header_line(line) {
        match header_of(line) {
            Ok((name, value)) => Ok(
                RequestView { headers: request.headers.insert(name, value), ..request },
            ),
            Err(e) => Err(e),
        }
    } else {
        Ok(RequestView { body: line, ..request })
    }
}

/// The request after all of `lines`, read in order; the error of the first
/// malformed line where there is one.
pub open spec fn after_lines(lines: Seq<Seq<char>>) -> Result<RequestView, ParseError>
    decreases lines.len(),
{
    if lines.len() == 0 {
        Ok(initial_request())
    } else {
        match after_lines(lines.drop_last()) {
            Ok(request) => after_line(request, lines.last()),
            Err(e) => Err(e),
        }
    }
}

/// The request that a text stands for.
pub open spec fn parsed_text(text: Seq<char>) -> Result<RequestView, ParseError> {
    after_lines(lines_of(text))
}

/// The request that a buffer stands for.
pub open spec fn parsed(raw: Seq<u8>) -> Result<RequestView, ParseError> {
    if valid_utf8(raw) {
        parsed_text(decode_utf8(raw))
    } else {
        Err(ParseError::InvalidEncoding)
    }
}

/// What a result of parsing holds, as mathematical values.
pub open spec fn result_view(r: Result<HttpRequest, ParseError>) -> Result<
    RequestView,
    ParseError,
> {
    match r {
        Ok(request) => Ok(request@),
        Err(e) => Err(e),
    }
}

/// Once a line is malformed, lines after it change nothing.
pub proof fn lemma_error_stays(lines: Seq<Seq<char>>, n: int, e: ParseError)
    requires
        0 <= n <= lines.len(),
        after_lines(lines.take(n)) == Err::<RequestView, ParseError>(e),
    ensures
        after_lines(lines) == Err::<RequestView, ParseError>(e),
    decreases lines.len() - n,
{
    if n < lines.len() {
        assert(lines.take(n + 1).drop_last() =~= lines.take(n));
        lemma_error_stays(lines, n + 1, e);
    } else {
        assert(lines.take(n) =~= lines);
    }
}

/// Reads a request line whose characters are `cs`.
fn request_line_in(line: &str, cs: &[char]) -> (r: Result<(Method, Resource, Version), ParseError>)
    requires
        cs@ == line@,
    ensures
        match r {
            Ok((method, resource, version)) => request_line_of(line@) == Ok::<
                (Method, Seq<char>, Version),
                ParseError,
            >((method, resource@, version)),
            Err(e) => request_line_of(line@) == Err::<(Method, Seq<char>, Version), ParseError>(e),
        },
{
    let (a1, b1) = match next_token(cs, 0) {
        Some(range) => range,
        None => {
            return Err(ParseError::MalformedRequestLine);
        },
    };
    let (a2, b2) = match next_token(cs, b1) {
        Some(range) => range,
        None => {
            return Err(ParseError::MalformedRequestLine);
        },
    };
    let (a3, b3) = match next_token(cs, b2) {
        Some(range) => range,
        None => {
            return Err(ParseError::MalformedRequestLine);
        },
    };
    let method = Method::from(line.substring_char(a1, b1));
    let resource = Resource::Path(line.substring_char(a2, b2).to_owned());
    let version = Version::from(line.substring_char(a3, b3));
    Ok((method, resource, version))
}

/// Reads the method, the path and the version off a request line.
pub fn parse_request_line(line: &str) -> (r: Result<(Method, Resource, Version), ParseError>)
    ensures
        match r {
            Ok((method, resource, version)) => request_line_of(line@) == Ok::<
                (Method, Seq<char>, Version),
                ParseError,
            >((method, resource@, version)),
            Err(e) => request_line_of(line@) == Err::<(Method, Seq<char>, Version), ParseError>(e),
        },
{
    let cs = to_chars(line);
    request_line_in(line, cs.as_slice())
}

/// Reads a header line whose characters are `cs`; `separator` holds a
/// colon and a space.
fn header_in(line: &str, cs: &[char], separator: &[char]) -> (r: Result<
    (String, String),
    ParseError,
>)
    requires
        cs@ == line@,
        separator@ == ": "@,
    ensures
        match r {
            Ok((name, value)) => header_of(line@) == Ok::<(Seq<char>, Seq<char>), ParseError>(
                (name@, value@),
            ),
            Err(e) => header_of(line@) == Err::<(Seq<char>, Seq<char>), ParseError>(e),
        },
{
    proof {
        reveal_strlit(": ");
        lemma_first_occurrence(line@, ": "@);
    }
    let n = cs.len();
    match find(cs, separator) {
        Some(i) => {
            let name = line.substring_char(0, i).to_owned();
            let value = line.substring_char(i + 2, n).to_owned();
            Ok((name, value))
        },
        None => Err(ParseError::MalformedHeaderLine),
    }
}

/// Reads the name and the value off a header line.
pub fn parse_header_line(line: &str) -> (r: Result<(String, String), ParseError>)
    ensures
        match r {
            Ok((name, value)) => header_of(line@) == Ok::<(Seq<char>, Seq<char>), ParseError>(
                (name@, value@),
            ),
            Err(e) => header_of(line@) == Err::<(Seq<char>, Seq<char>), ParseError>(e),
        },
{
    let cs = to_chars(line);
    let separator = to_chars(": ");
    header_in(line, cs.as_slice(), separator.as_slice())
}

/// `core::str::from_utf8`: the text that `bytes` encode. The call succeeds
/// exactly on well-formed UTF-8, and the text it returns has `bytes` as
/// its encoding.
#[verifier::external_body]
fn decode(bytes: &[u8]) -> (r: Option<&str>)
    ensures
        r is Some <==> valid_utf8(bytes@),
        r matches Some(text) ==> encode_utf8(text@) == bytes@,
{
    match core::str::from_utf8(bytes) {
        Ok(text) => Some(text),
        Err(_) => None,
    }
}

impl HttpRequest {
    /// Parses the text of one request, line by line.
    pub fn parse_text(text: &str) -> (r: Result<HttpRequest, ParseError>)
        ensures
            result_view(r) == parsed_text(text@),
    {
        let lines = split_lines(text);
        let http = to_chars("HTTP");
        let separator = to_chars(": ");
        let mut method = Method::Uninitialized;
        let mut resource = Resource::Path(String::new());
        let mut version = Version::Http11;
        let mut headers = HeaderMap::new();
        let mut body: &str = "";
        proof {
            reveal_strlit("");
            assert(body@ =~= Seq::<char>::empty());
            assert(views(lines@).take(0) =~= Seq::<Seq<char>>::empty());
        }
        let n = lines.len();
        let mut i: usize = 0;
        while i < n
            invariant
                i <= n,
                n == lines@.len(),
                views(lines@) == lines_of(text@),
                http@ == "HTTP"@,
                separator@ == ": "@,
                after_lines(views(lines@).take(i as int)) == Ok::<RequestView, ParseError>(
                    RequestView {
                        method,
                        path: resource@,
                        version,
                        headers: headers@,
                        body: body@,
                    },
                ),
            decreases n - i,
        {
            let line: &str = lines[i];
            let cs = to_chars(line);
            proof {
                assert(views(lines@).take(i + 1).drop_last() =~= views(lines@).take(i as int));
                assert(views(lines@).take(i + 1).last() == line@);
            }
            if find(cs.as_slice(), http.as_slice()).is_some() {
                match request_line_in(line, cs.as_slice()) {
                    Ok((m, r, v)) => {
                        method = m;
                        resource = r;
                        version = v;
                    },
                    Err(e) => {
                        proof {
                            lemma_error_stays(views(lines@), i + 1, e);
                        }
                        return Err(e);
                    },
                }
            } else if contains_char(cs.as_slice(), ':') {
                match header_in(line, cs.as_slice(), separator.as_slice()) {
                    Ok((name, value)) => {
                        headers.insert(name, value);
                    },
                    Err(e) => {
                        proof {
                            lemma_error_stays(views(lines@), i + 1, e);
                        }
                        return Err(e);
                    },
                }
            } else {
                body = line;
            }
            i += 1;
        }
        proof {
            assert(views(lines@).take(n as int) =~= views(lines@));
        }
        Ok(HttpRequest { method, resource, version, headers, body: body.to_owned() })
    }

    /// Parses the bytes of one request: the bytes are decoded as UTF-8 and
    /// the text is parsed line by line. Every byte counts: a caller that
    /// reads into a larger buffer hands over only the bytes it has read.
    pub fn parse(raw: &[u8]) -> (r: Result<HttpRequest, ParseError>)
        ensures
            result_view(r) == parsed(raw@),
    {
        match decode(raw) {
            Some(text) => {
                proof {
                    encode_utf8_decode_utf8(text@);
                }
                HttpRequest::parse_text(text)
            },
            None => Err(ParseError::InvalidEncoding),
        }
    }
}

} // verus!
