//! What holds of the parser on every input, proved from its model.
use crate::httprequest::{
    after_line, after_lines, header_of, initial_request, is_body_line, is_header_line,
    is_request_line, method_of, parsed, parsed_text, request_line_of, result_view, version_of,
    HttpRequest, Method, ParseError, RequestView, Version,
};
use crate::text::{first_occurrence, lemma_lines_of_unterminated_tail, lines_of, tokens};
use vstd::prelude::*;

verus! {

/// `GET` and `POST` name their methods, and no other token names one.
pub proof fn lemma_method_tokens(token: Seq<char>)
    ensures
        method_of(token) == Method::Get <==> token == "GET"@,
        method_of(token) == Method::Post <==> token == "POST"@,
        method_of(token) == Method::Uninitialized <==> token != "GET"@ && token != "POST"@,
{
    reveal_strlit("GET");
    reveal_strlit("POST");
    assert("GET"@.len() != "POST"@.len());
}

/// Only `HTTP/1.1`, spelled exactly so, names a version; every other
/// token, `HTTP/1.0` too, names none.
pub proof fn lemma_version_tokens(token: Seq<char>)
    ensures
        version_of(token) == Version::Http11 <==> token == "HTTP/1.1"@,
        version_of(token) == Version::Uninitialized <==> token != "HTTP/1.1"@,
        version_of("HTTP/1.0"@) == Version::Uninitialized,
{
    reveal_strlit("HTTP/1.1");
    reveal_strlit("HTTP/1.0");
    assert("HTTP/1.0"@[7] != "HTTP/1.1"@[7]);
}

/// Parsing is a function of the buffer: whatever two runs on one buffer
/// return, both fail with the same error or both succeed with requests
/// that are equal.
pub proof fn lemma_parse_is_deterministic(
    raw: Seq<u8>,
    first: Result<HttpRequest, ParseError>,
    second: Result<HttpRequest, ParseError>,
)
    requires
        result_view(first) == parsed(raw),
        result_view(second) == parsed(raw),
    ensures
        result_view(first) == result_view(second),
        first is Ok <==> second is Ok,
        first is Ok ==> first->Ok_0@ == second->Ok_0@,
        first is Err ==> first->Err_0 == second->Err_0,
{
}

/// The error that a line raises when it is read, if it raises one.
pub open spec fn line_error(line: Seq<char>) -> Option<ParseError> {
    if is_request_line(line) && tokens(line).len() < 3 {
        Some(ParseError::MalformedRequestLine)
    } else if is_header_line(line) && first_occurrence(line, ": "@) is None {
        Some(ParseError::MalformedHeaderLine)
    } else {
        None
    }
}

/// Reading a line fails exactly when the line raises an error, and with
/// that error.
pub proof fn lemma_after_line_fails(request: RequestView, line: Seq<char>)
    ensures
        match line_error(line) {
            Some(e) => after_line(request, line) == Err::<RequestView, ParseError>(e),
            None => after_line(request, line) is Ok,
        },
{
}

/// Lines that raise no error make a request.
pub proof fn lemma_well_formed_lines_parse(lines: Seq<Seq<char>>)
    requires
        forall|i: int| 0 <= i < lines.len() ==> line_error(#[trigger] lines[i]) is None,
    ensures
        after_lines(lines) is Ok,
    decreases lines.len(),
{
    if lines.len() > 0 {
        let front = lines.drop_last();
        assert forall|i: int| 0 <= i < front.len() implies line_error(#[trigger] front[i])
            is None by {
            assert(front[i] == lines[i]);
        }
        lemma_well_formed_lines_parse(front);
        lemma_after_line_fails(after_lines(front)->Ok_0, lines.last());
    }
}

/// The first line that raises an error decides how parsing fails.
pub proof fn lemma_first_malformed_line_decides(lines: Seq<Seq<char>>, i: int, e: ParseError)
    requires
        0 <= i < lines.len(),
        line_error(lines[i]) == Some(e),
        forall|j: int| 0 <= j < i ==> line_error(#[trigger] lines[j]) is None,
    ensures
        after_lines(lines) == Err::<RequestView, ParseError>(e),
    decreases lines.len(),
{
    let front = lines.drop_last();
    if i == lines.len() - 1 {
        assert forall|j: int| 0 <= j < front.len() implies line_error(#[trigger] front[j])
            is None by {
            assert(front[j] == lines[j]);
        }
        lemma_well_formed_lines_parse(front);
        lemma_after_line_fails(after_lines(front)->Ok_0, lines.last());
    } else {
        assert(front[i] == lines[i]);
        assert forall|j: int| 0 <= j < i implies line_error(#[trigger] front[j]) is None by {
            assert(front[j] == lines[j]);
        }
        lemma_first_malformed_line_decides(front, i, e);
    }
}

/// A line that raises an error makes parsing fail, wherever it stands.
pub proof fn lemma_malformed_line_fails(lines: Seq<Seq<char>>, i: int)
    requires
        0 <= i < lines.len(),
        line_error(lines[i]) is Some,
    ensures
        after_lines(lines) is Err,
    decreases lines.len(),
{
    let front = lines.drop_last();
    if i == lines.len() - 1 {
        if after_lines(front) is Ok {
            lemma_after_line_fails(after_lines(front)->Ok_0, lines.last());
        }
    } else {
        assert(front[i] == lines[i]);
        lemma_malformed_line_fails(front, i);
    }
}

/// The last request line decides method, path and version.
pub proof fn lemma_last_request_line_wins(lines: Seq<Seq<char>>, i: int)
    requires
        0 <= i < lines.len(),
        is_request_line(lines[i]),
        forall|j: int| i < j < lines.len() ==> !is_request_line(#[trigger] lines[j]),
    ensures
        after_lines(lines) matches Ok(request) ==> request_line_of(lines[i]) == Ok::<
            (Method, Seq<char>, Version),
            ParseError,
        >((request.method, request.path, request.version)),
    decreases lines.len(),
{
    let front = lines.drop_last();
    if i < lines.len() - 1 {
        assert(front[i] == lines[i]);
        assert forall|j: int| i < j < front.len() implies !is_request_line(
            #[trigger] front[j],
        ) by {
            assert(front[j] == lines[j]);
        }
        lemma_last_request_line_wins(front, i);
        assert(!is_request_line(lines[lines.len() - 1]));
    }
}

/// Without a request line, method, path and version keep their initial
/// values.
pub proof fn lemma_no_request_line(lines: Seq<Seq<char>>)
    requires
        forall|j: int| 0 <= j < lines.len() ==> !is_request_line(#[trigger] lines[j]),
    ensures
        after_lines(lines) matches Ok(request) ==> {
            &&& request.method == initial_request().method
            &&& request.path == initial_request().path
            &&& request.version == initial_request().version
        },
    decreases lines.len(),
{
    if lines.len() > 0 {
        let front = lines.drop_last();
        assert forall|j: int| 0 <= j < front.len() implies !is_request_line(
            #[trigger] front[j],
        ) by {
            assert(front[j] == lines[j]);
        }
        lemma_no_request_line(front);
        assert(!is_request_line(lines[lines.len() - 1]));
    }
}

/// The last line that is neither a request line nor a header line is the
/// body.
pub proof fn lemma_last_body_line_wins(lines: Seq<Seq<char>>, i: int)
    requires
        0 <= i < lines.len(),
        is_body_line(lines[i]),
        forall|j: int| i < j < lines.len() ==> !is_body_line(#[trigger] lines[j]),
    ensures
        after_lines(lines) matches Ok(request) ==> request.body == lines[i],
    decreases lines.len(),
{
    let front = lines.drop_last();
    if i < lines.len() - 1 {
        assert(front[i] == lines[i]);
        assert forall|j: int| i < j < front.len() implies !is_body_line(#[trigger] front[j]) by {
            assert(front[j] == lines[j]);
        }
        lemma_last_body_line_wins(front, i);
        assert(!is_body_line(lines[lines.len() - 1]));
    }
}

/// Where every line is a request line or a header line, the body is empty.
pub proof fn lemma_no_body_line(lines: Seq<Seq<char>>)
    requires
        forall|j: int| 0 <= j < lines.len() ==> !is_body_line(#[trigger] lines[j]),
    ensures
        after_lines(lines) matches Ok(request) ==> request.body == Seq::<char>::empty(),
    decreases lines.len(),
{
    if lines.len() > 0 {
        let front = lines.drop_last();
        assert forall|j: int| 0 <= j < front.len() implies !is_body_line(#[trigger] front[j]) by {
            assert(front[j] == lines[j]);
        }
        lemma_no_body_line(front);
        assert(!is_body_line(lines[lines.len() - 1]));
    }
}

/// A name that no header line carries is not among the headers.
pub proof fn lemma_header_absent(lines: Seq<Seq<char>>, name: Seq<char>)
    requires
        forall|j: int|
            0 <= j < lines.len() && is_header_line(#[trigger] lines[j]) && header_of(lines[j])
                is Ok ==> header_of(lines[j])->Ok_0.0 != name,
    ensures
        after_lines(lines) matches Ok(request) ==> !request.headers.contains_key(name),
    decreases lines.len(),
{
    if lines.len() > 0 {
        let front = lines.drop_last();
        assert forall|j: int|
            0 <= j < front.len() && is_header_line(#[trigger] front[j]) && header_of(front[j])
                is Ok implies header_of(front[j])->Ok_0.0 != name by {
            assert(front[j] == lines[j]);
        }
        lemma_header_absent(front, name);
        let last = lines[lines.len() - 1];
        assert(is_header_line(last) && header_of(last) is Ok ==> header_of(last)->Ok_0.0 != name);
    }
}

/// Of the header lines that carry one name, the last decides the value
/// that the request holds under it.
pub proof fn lemma_last_header_wins(lines: Seq<Seq<char>>, i: int)
    requires
        0 <= i < lines.len(),
        is_header_line(lines[i]),
        header_of(lines[i]) is Ok,
        forall|j: int|
            i < j < lines.len() && is_header_line(#[trigger] lines[j]) && header_of(lines[j])
                is Ok ==> header_of(lines[j])->Ok_0.0 != header_of(lines[i])->Ok_0.0,
    ensures
        after_lines(lines) matches Ok(request) ==> {
            &&& request.headers.contains_key(header_of(lines[i])->Ok_0.0)
            &&& request.headers[header_of(lines[i])->Ok_0.0] == header_of(lines[i])->Ok_0.1
        },
    decreases lines.len(),
{
    let front = lines.drop_last();
    if i < lines.len() - 1 {
        assert(front[i] == lines[i]);
        assert forall|j: int|
            i < j < front.len() && is_header_line(#[trigger] front[j]) && header_of(front[j])
                is Ok implies header_of(front[j])->Ok_0.0 != header_of(front[i])->Ok_0.0 by {
            assert(front[j] == lines[j]);
        }
        lemma_last_header_wins(front, i);
        let last = lines.last();
        assert(last == lines[lines.len() - 1]);
    }
}

/// A text that ends, after its last line feed if it has one, in a string
/// that is neither a request line nor a header line has that string, as it
/// stands, for its body.
pub proof fn lemma_trailing_line_is_body(head: Seq<char>, tail: Seq<char>)
    requires
        head.len() == 0 || head.last() == '\n',
        tail.len() > 0,
        !tail.contains('\n'),
        is_body_line(tail),
    ensures
        parsed_text(head + tail) is Ok <==> parsed_text(head) is Ok,
        parsed_text(head + tail) matches Ok(request) ==> request.body == tail,
{
    lemma_lines_of_unterminated_tail(head, tail);
    let lines = lines_of(head) + seq![tail];
    assert(lines.drop_last() =~= lines_of(head));
    assert(lines.last() == tail);
}

} // verus!
