//! The response model and its wire format: a status line, the header
//! lines, a blank line and the body.
use vstd::prelude::*;
use vstd::string::StringExecFns;
use vstd::utf8::encode_utf8;

verus! {

/// The character that stands for the decimal digit `d`.
pub open spec fn digit_of(d: int) -> char {
    if d == 0 {
        '0'
    } else if d == 1 {
        '1'
    } else if d == 2 {
        '2'
    } else if d == 3 {
        '3'
    } else if d == 4 {
        '4'
    } else if d == 5 {
        '5'
    } else if d == 6 {
        '6'
    } else if d == 7 {
        '7'
    } else if d == 8 {
        '8'
    } else {
        '9'
    }
}

/// The decimal numeral of `n`, without leading zeros.
pub open spec fn decimal_of(n: nat) -> Seq<char>
    decreases n,
{
    if n < 10 {
        seq![digit_of(n as int)]
    } else {
        decimal_of(n / 10).push(digit_of((n % 10) as int))
    }
}

/// The numeral of one decimal digit.
fn digit(d: u16) -> (s: &'static str)
    requires
        d < 10,
    ensures
        s@ == seq![digit_of(d as int)],
{
    proof {
        reveal_strlit("0");
        reveal_strlit("1");
        reveal_strlit("2");
        reveal_strlit("3");
        reveal_strlit("4");
        reveal_strlit("5");
        reveal_strlit("6");
        reveal_strlit("7");
        reveal_strlit("8");
        reveal_strlit("9");
    }
    let s = if d == 0 {
        "0"
    } else if d == 1 {
        "1"
    } else if d == 2 {
        "2"
    } else if d == 3 {
        "3"
    } else if d == 4 {
        "4"
    } else if d == 5 {
        "5"
    } else if d == 6 {
        "6"
    } else if d == 7 {
        "7"
    } else if d == 8 {
        "8"
    } else {
        "9"
    };
    assert(s@ =~= seq![digit_of(d as int)]);
    s
}

/// Writes `n` as a decimal numeral.
pub fn decimal(n: u16) -> (s: String)
    ensures
        s@ == decimal_of(n as nat),
    decreases n,
{
    if n < 10 {
        String::from_str(digit(n))
    } else {
        let mut s = decimal(n / 10);
        s.append(digit(n % 10));
        assert(s@ =~= decimal_of(n as nat));
        s
    }
}

/// The outcomes that a response reports.
#[derive(Debug, Clone, Copy, PartialEq, Eq, Structural)]
pub enum Status {
    Success,
    BadRequest,
    NotFound,
}

impl Status {
    /// The status code.
    pub open spec fn code_of(self) -> u16 {
        match self {
            Status::Success => 200,
            Status::BadRequest => 400,
            Status::NotFound => 404,
        }
    }

    /// The reason phrase that goes with the code.
    pub open spec fn reason_of(self) -> Seq<char> {
        match self {
            Status::Success => "OK"@,
            Status::BadRequest => "Bad Request"@,
            Status::NotFound => "Not Found"@,
        }
    }

    /// The status code.
    pub fn code(&self) -> (code: u16)
        ensures
            code == self.code_of(),
    {
        match self {
            Status::Success => 200,
            Status::BadRequest => 400,
            Status::NotFound => 404,
        }
    }

    /// The reason phrase that goes with the code.
    pub fn reason(&self) -> (reason: &'static str)
        ensures
            reason@ == self.reason_of(),
    {
        match self {
            Status::Success => "OK",
            Status::BadRequest => "Bad Request",
            Status::NotFound => "Not Found",
        }
    }

    /// Tells whether the status blames the client: a code from 400 to 499.
    pub fn is_client_error(&self) -> (b: bool)
        ensures
            b == (400 <= self.code_of() <= 499),
    {
        let code = self.code();
        400 <= code && code <= 499
    }
}

/// What a response holds, as mathematical values.
pub struct ResponseView {
    pub status: Status,
    pub headers: Seq<(Seq<char>, Seq<char>)>,
    pub body: Seq<u8>,
}

/// The status line: protocol version, status code and reason phrase.
pub open spec fn status_line(status: Status) -> Seq<char> {
    "HTTP/1.1 "@ + decimal_of(status.code_of() as nat) + " "@ + status.reason_of() + "\r\n"@
}

/// The header lines, one for each header in order: the name, a colon and
/// a space, the value, and the line terminator.
pub open spec fn header_lines(headers: Seq<(Seq<char>, Seq<char>)>) -> Seq<char>
    decreases headers.len(),
{
    if headers.len() == 0 {
        Seq::empty()
    } else {
        header_lines(headers.drop_last()) + headers.last().0 + ": "@ + headers.last().1 + "\r\n"@
    }
}

/// The head of a response: status line, header lines and the blank line
/// that ends them.
pub open spec fn head_of(response: ResponseView) -> Seq<char> {
    status_line(response.status) + header_lines(response.headers) + "\r\n"@
}

/// The bytes of a response: its head in UTF-8, then the body.
pub open spec fn bytes_of(response: ResponseView) -> Seq<u8> {
    encode_utf8(head_of(response)) + response.body
}

/// The views of a list of headers.
pub open spec fn header_views(headers: Seq<(String, String)>) -> Seq<(Seq<char>, Seq<char>)> {
    Seq::new(headers.len(), |i: int| (headers[i].0@, headers[i].1@))
}

/// One response.
#[derive(Debug)]
pub struct HttpResponse {
    pub status: Status,
    pub headers: Vec<(String, String)>,
    pub body: Vec<u8>,
}

impl View for HttpResponse {
    type V = ResponseView;

    open spec fn view(&self) -> ResponseView {
        ResponseView {
            status: self.status,
            headers: header_views(self.headers@),
            body: self.body@,
        }
    }
}

impl HttpResponse {
    /// A response without headers and with an empty body.
    pub fn new(status: Status) -> (response: Self)
        ensures
            response@ == (ResponseView { status, headers: Seq::empty(), body: Seq::empty() }),
    {
        let response = HttpResponse { status, headers: Vec::new(), body: Vec::new() };
        assert(response@.headers =~= Seq::empty());
        response
    }

    /// The head of the response as text.
    pub fn head(&self) -> (text: String)
        ensures
            text@ == head_of(self@),
    {
        let mut text = String::from_str("HTTP/1.1 ");
        text.append(decimal(self.status.code()).as_str());
        text.append(" ");
        text.append(self.status.reason());
        text.append("\r\n");
        let n = self.headers.len();
        let ghost line = status_line(self.status);
        let mut i: usize = 0;
        proof {
            assert(header_views(self.headers@).take(0) =~= Seq::empty());
            assert(text@ =~= line + header_lines(header_views(self.headers@).take(0)));
        }
        while i < n
            invariant
                i <= n,
                n == self.headers@.len(),
                text@ == line + header_lines(header_views(self.headers@).take(i as int)),
            decreases n - i,
        {
            let ghost before = header_views(self.headers@).take(i as int);
            let ghost after = header_views(self.headers@).take(i + 1);
            text.append(self.headers[i].0.as_str());
            text.append(": ");
            text.append(self.headers[i].1.as_str());
            text.append("\r\n");
            proof {
                assert(after.drop_last() =~= before);
                assert(after.last() == (self.headers@[i as int].0@, self.headers@[i as int].1@));
                assert(text@ =~= line + header_lines(after));
            }
            i += 1;
        }
        proof {
            assert(header_views(self.headers@).take(n as int) =~= header_views(self.headers@));
        }
        text.append("\r\n");
        assert(text@ =~= head_of(self@));
        text
    }

    /// The bytes that go over the wire.
    pub fn to_bytes(&self) -> (bytes: Vec<u8>)
        ensures
            bytes@ == bytes_of(self@),
    {
        let head = self.head();
        let mut bytes = head.as_str().as_bytes_vec();
        let n = self.body.len();
        let ghost prefix = bytes@;
        let mut i: usize = 0;
        while i < n
            invariant
                i <= n,
                n == self.body@.len(),
                bytes@ == prefix + self.body@.take(i as int),
            decreases n - i,
        {
            bytes.push(self.body[i]);
            proof {
                assert(self.body@.take(i + 1) =~= self.body@.take(i as int).push(
                    self.body@[i as int],
                ));
            }
            i += 1;
        }
        proof {
            assert(self.body@.take(n as int) =~= self.body@);
        }
        bytes
    }
}

} // verus!
