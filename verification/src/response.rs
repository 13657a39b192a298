//! Responses: content types, status lines, and the bytes sent for a response.
use vstd::prelude::*;
use vstd::utf8::encode_utf8;
use vstd::slice::slice_to_vec;
use crate::chars::from_chars;
use crate::numbers::{decimal, decimal_digits, spec_parse_usize};
use crate::parse::same_text;
use crate::string_map::{insert_pair, keys_distinct, pairs_to_map, StringMap};
use crate::types::{ContentType, Response, ResponseCode};

verus! {

/// The content type a file extension stands for.
pub open spec fn content_type_of_ext(ext: Seq<char>) -> Option<ContentType> {
    if ext == "html"@ {
        Some(ContentType::Html)
    } else if ext == "css"@ {
        Some(ContentType::Css)
    } else if ext == "jpeg"@ || ext == "jpg"@ {
        Some(ContentType::Jpeg)
    } else if ext == "png"@ {
        Some(ContentType::Png)
    } else {
        None
    }
}

/// The content type of a file extension, or `"Unknown file type"`.
pub fn ext_to_content_type_enum(file_ext: &str) -> (ct: Result<&'static ContentType, &'static str>)
    ensures
        match ct {
            Ok(c) => content_type_of_ext(file_ext@) == Some(*c),
            Err(msg) => content_type_of_ext(file_ext@) is None && msg@ == "Unknown file type"@,
        },
{
    if same_text(file_ext, "html") {
        Ok(&ContentType::Html)
    } else if same_text(file_ext, "css") {
        Ok(&ContentType::Css)
    } else if same_text(file_ext, "jpeg") || same_text(file_ext, "jpg") {
        Ok(&ContentType::Jpeg)
    } else if same_text(file_ext, "png") {
        Ok(&ContentType::Png)
    } else {
        Err("Unknown file type")
    }
}

/// The MIME type of a content type.
pub open spec fn mime_type(ct: ContentType) -> Seq<char> {
    match ct {
        ContentType::Html => "text/html"@,
        ContentType::Css => "text/css"@,
        ContentType::Jpeg => "image/jpeg"@,
        ContentType::Png => "image/png"@,
    }
}

/// The MIME type of a content type, as a `Content-Type` header gives it.
pub fn content_type_enum_to_str(content_type: &ContentType) -> (mime: &'static str)
    ensures
        mime@ == mime_type(*content_type),
{
    match content_type {
        ContentType::Html => "text/html",
        ContentType::Css => "text/css",
        ContentType::Jpeg => "image/jpeg",
        ContentType::Png => "image/png",
    }
}

/// The status-line text of a response code.
pub open spec fn status_text(code: ResponseCode) -> Seq<char> {
    match code {
        ResponseCode::OK => "200 OK"@,
        ResponseCode::SeeOther => "303 See Other"@,
        ResponseCode::NotFound => "404 Not Found"@,
    }
}

/// The code and reason of a response code, as the status line shows them.
pub fn response_code_enum_to_str(response_code: &ResponseCode) -> (text: &'static str)
    ensures
        text@ == status_text(*response_code),
{
    match response_code {
        ResponseCode::OK => "200 OK",
        ResponseCode::SeeOther => "303 See Other",
        ResponseCode::NotFound => "404 Not Found",
    }
}

/// One header line: `name: value` and a line break.
pub open spec fn header_line(name: Seq<char>, value: Seq<char>) -> Seq<char> {
    name + ": "@ + value + "\r\n"@
}

/// The header lines of a list of headers, in its order.
pub open spec fn header_lines(pairs: Seq<(Seq<char>, Seq<char>)>) -> Seq<char>
    decreases pairs.len(),
{
    if pairs.len() == 0 {
        Seq::empty()
    } else {
        header_lines(pairs.drop_last()) + header_line(pairs.last().0, pairs.last().1)
    }
}

/// The head of a response: the status line, the header lines and a blank line.
pub open spec fn head_text(code: ResponseCode, pairs: Seq<(Seq<char>, Seq<char>)>) -> Seq<char> {
    "HTTP/1.1 "@ + status_text(code) + "\r\n"@ + header_lines(pairs) + "\r\n"@
}

fn render_header(name: &String, value: &String) -> (line: String)
    ensures
        line@ == header_line(name@, value@),
{
    let mut line = name.clone();
    line.append(": ");
    line.append(value.as_str());
    line.append("\r\n");
    line
}

/// The head of a response, its headers in the order the map keeps them.
pub fn render_head(response: &Response) -> (head: String)
    ensures
        head@ == head_text(response.response_code, response.headers.pairs()),
{
    let mut head = String::from_str("HTTP/1.1 ");
    head.append(response_code_enum_to_str(&response.response_code));
    head.append("\r\n");
    let ghost pairs = response.headers.pairs();
    let ghost start = head@;
    let mut i: usize = 0;
    while i < response.headers.len()
        invariant
            i <= pairs.len(),
            pairs == response.headers.pairs(),
            head@ == start + header_lines(pairs.take(i as int)),
        decreases pairs.len() - i,
    {
        let (k, v) = response.headers.entry(i);
        assert(pairs.take(i + 1).drop_last() =~= pairs.take(i as int));
        let line = render_header(k, v);
        head.append(line.as_str());
        i = i + 1;
        assert(head@ =~= start + header_lines(pairs.take(i as int)));
    }
    assert(pairs.take(pairs.len() as int) =~= pairs);
    head.append("\r\n");
    head
}

/// The header table a response is sent with: a `Content-Length` header set
/// to the body's length where there is a body.
pub open spec fn sent_headers(headers: Map<Seq<char>, Seq<char>>, body: Option<Seq<u8>>) -> Map<Seq<char>, Seq<char>> {
    match body {
        Some(b) => headers.insert("Content-Length"@, decimal(b.len())),
        None => headers,
    }
}

/// Law: the `Content-Length` a response with a body is sent with reads
/// back, as the server reads that header, as the body's length.
pub proof fn content_length_reads_back(headers: Map<Seq<char>, Seq<char>>, body: Seq<u8>)
    requires
        body.len() <= usize::MAX,
    ensures
        sent_headers(headers, Some(body)).contains_key("Content-Length"@),
        spec_parse_usize(sent_headers(headers, Some(body))["Content-Length"@]) == Some(body.len()),
{
    crate::numbers::decimal_round_trip(body.len() as usize);
}

/// The bytes of a response: its head as UTF-8, then its body.
pub open spec fn response_bytes(code: ResponseCode, pairs: Seq<(Seq<char>, Seq<char>)>, body: Option<Seq<u8>>) -> Seq<u8> {
    encode_utf8(head_text(code, pairs)) + match body {
        Some(b) => b,
        None => Seq::empty(),
    }
}

/// The header list a response is sent with: `Content-Length` set to the
/// body's length where there is a body.
pub open spec fn sent_pairs(pairs: Seq<(Seq<char>, Seq<char>)>, body: Option<Seq<u8>>) -> Seq<(Seq<char>, Seq<char>)> {
    match body {
        Some(b) => insert_pair(pairs, "Content-Length"@, decimal(b.len())),
        None => pairs,
    }
}

/// What `send_response` writes to the connection for a response: the
/// status line, each header (with `Content-Length` set where there is a
/// body) in the order the header map keeps them, a blank line and the body.
pub fn encode_response(response: Response) -> (bytes: Vec<u8>)
    ensures
        bytes@ == response_bytes(
            response.response_code,
            sent_pairs(response.headers.pairs(), crate::types::bytes_view(response.body)),
            crate::types::bytes_view(response.body),
        ),
        exists|pairs: Seq<(Seq<char>, Seq<char>)>|
            #![trigger pairs_to_map(pairs)]
            keys_distinct(pairs) && pairs_to_map(pairs) == sent_headers(
                response.headers@,
                crate::types::bytes_view(response.body),
            ) && bytes@ == response_bytes(
                response.response_code,
                pairs,
                crate::types::bytes_view(response.body),
            ),
{
    let mut response = response;
    match &response.body {
        Some(bytes) => {
            let digits = decimal_digits(bytes.len() as u128);
            response.headers.insert(String::from_str("Content-Length"), from_chars(digits.as_slice()));
        },
        None => {},
    }
    let head = render_head(&response);
    let mut out = slice_to_vec(head.as_str().as_bytes());
    match &response.body {
        Some(bytes) => {
            let mut i: usize = 0;
            let ghost start = out@;
            while i < bytes.len()
                invariant
                    i <= bytes@.len(),
                    out@ == start + bytes@.take(i as int),
                decreases bytes.len() - i,
            {
                out.push(bytes[i]);
                i = i + 1;
                assert(out@ =~= start + bytes@.take(i as int));
            }
            assert(bytes@.take(bytes@.len() as int) =~= bytes@);
        },
        None => {
            assert(out@ =~= out@ + Seq::<u8>::empty());
        },
    }
    response.headers.entries_are_map();
    out
}

/// A response carrying a file's contents: `response` if given, else an OK
/// response with the contents as body; either way with the file's
/// `Content-Type`.
pub fn file_response(contents: Vec<u8>, content_type: &ContentType, response: Option<Response>) -> (resp: Response)
    ensures
        match response {
            Some(r) => resp.response_code == r.response_code && resp.body == r.body
                && resp.headers@ == r.headers@.insert("Content-Type"@, mime_type(*content_type)),
            None => resp.response_code == ResponseCode::OK && resp.body == Some(contents)
                && resp.headers@ == Map::<Seq<char>, Seq<char>>::empty().insert("Content-Type"@, mime_type(*content_type)),
        },
{
    let mut resp = match response {
        Some(r) => r,
        None => Response { response_code: ResponseCode::OK, headers: StringMap::new(), body: Some(contents) },
    };
    resp.headers.insert(String::from_str("Content-Type"), String::from_str(content_type_enum_to_str(content_type)));
    resp
}

} // verus!
