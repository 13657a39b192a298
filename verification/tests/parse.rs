use gall_rs::chars::to_chars;
use gall_rs::parse::{
    body_bytes_missing, get_method, get_path, internal_parse, parse_first_line, parse_headers,
    parse_semicolon_list, split_bytes, split_vec_u8_once,
};
use gall_rs::string_map::StringMap;
use gall_rs::types::{HttpParseError, HttpVersion, Method, Request};

#[test]
fn it_gets_method() {
    assert_eq!(get_method(None), Err(HttpParseError::InvalidMethod));
    assert_eq!(get_method(Some(" ")), Err(HttpParseError::InvalidMethod));
    assert_eq!(get_method(Some("")), Err(HttpParseError::InvalidMethod));
    assert_eq!(get_method(Some("get")), Err(HttpParseError::InvalidMethod));
    assert_eq!(get_method(Some("pUt")), Err(HttpParseError::InvalidMethod));
    assert_eq!(get_method(Some("rand")), Err(HttpParseError::InvalidMethod));

    assert_eq!(get_method(Some("GET")), Ok(Method::Get));
    assert_eq!(get_method(Some("POST")), Ok(Method::Post));
    assert_eq!(get_method(Some("PATCH")), Ok(Method::Patch));
    assert_eq!(get_method(Some("DELETE")), Ok(Method::Delete));
    assert_eq!(get_method(Some("PUT")), Ok(Method::Put));
    assert_eq!(get_method(Some("OPTIONS")), Ok(Method::Options));
    assert_eq!(get_method(Some("HEAD")), Ok(Method::Head));
}

#[test]
fn it_gets_path() {
    assert_eq!(get_path(None), Err(HttpParseError::InvalidPath));
    assert_eq!(get_path(Some("")), Err(HttpParseError::InvalidPath));

    assert_eq!(get_path(Some("/a/path")), Ok("/a/path".to_owned()));
}

#[test]
fn it_constructs_request() {
    assert_eq!(
        internal_parse(&"".as_bytes().to_vec()),
        Err(HttpParseError::InvalidMethod)
    );
    assert_eq!(
        internal_parse(&"g".as_bytes().to_vec()),
        Err(HttpParseError::InvalidMethod)
    );

    assert_eq!(
        internal_parse(&"GET".as_bytes().to_vec()),
        Err(HttpParseError::InvalidPath)
    );
    assert_eq!(
        internal_parse(&"GET   ".as_bytes().to_vec()),
        Err(HttpParseError::InvalidPath)
    );
    assert_eq!(
        internal_parse(&"GET /path".as_bytes().to_vec()),
        Err(HttpParseError::InvalidHttpVersion)
    );
    assert_eq!(
        internal_parse(&"GET /path HTTP/1.0".as_bytes().to_vec()),
        Err(HttpParseError::InvalidHttpVersion)
    );

    assert_eq!(
        internal_parse(&"GET /path HTTP/1.1".as_bytes().to_vec()),
        Ok(Request {
            method: Method::Get,
            path: "/path".to_owned(),
            http_version: HttpVersion::Http1_1,
            headers: StringMap::new(),
            body: None,
        })
    )
}

fn bytes(s: &str) -> Vec<u8> {
    s.as_bytes().to_vec()
}

#[test]
fn parses_headers_and_body() {
    let req = internal_parse(&bytes(
        "POST /form HTTP/1.1\r\nHost: localhost:3000\r\nContent-Length: 7\r\nnot a header\r\n\r\nab=cd&e",
    ))
    .unwrap();
    assert_eq!(req.method, Method::Post);
    assert_eq!(req.path, "/form");
    assert_eq!(req.http_version, HttpVersion::Http1_1);
    assert_eq!(req.headers.get("Host"), Some(&"localhost".to_string()));
    assert_eq!(req.headers.get("Content-Length"), Some(&"7".to_string()));
    assert_eq!(req.headers.len(), 2);
    assert_eq!(req.body, Some(bytes("ab=cd&e")));
    let form = req.parse_form().unwrap();
    assert_eq!(form.get("ab"), Some(&"cd".to_string()));
    assert_eq!(form.get("e"), None);
    assert_eq!(form.len(), 1);
}

#[test]
fn later_header_overrides_earlier() {
    let req = internal_parse(&bytes("GET / HTTP/2.0\r\nX:  one \r\nX:two\r\n\r\n")).unwrap();
    assert_eq!(req.http_version, HttpVersion::Http2_0);
    assert_eq!(req.headers.get("X"), Some(&"two".to_string()));
    assert_eq!(req.body, None);
}

#[test]
fn request_line_reads_back() {
    let req = internal_parse(&bytes("DELETE /x/y HTTP/2.0\r\n\r\nbody")).unwrap();
    let mut expected_headers = StringMap::new();
    expected_headers.remove("none");
    assert_eq!(
        req,
        Request {
            method: Method::Delete,
            path: "/x/y".to_owned(),
            http_version: HttpVersion::Http2_0,
            headers: expected_headers,
            body: Some(bytes("body")),
        }
    );
}

#[test]
fn invalid_utf8_in_head_is_replaced() {
    let mut raw = bytes("GET /a");
    raw.push(0xff);
    raw.extend_from_slice(b" HTTP/1.1\r\n\r\n");
    let req = internal_parse(&raw).unwrap();
    assert_eq!(req.path, "/a\u{fffd}");
}

#[test]
fn splits_bytes_once() {
    let (a, b) = split_vec_u8_once(b"head\r\n\r\nbody\r\n\r\nmore", b"\r\n\r\n").unwrap();
    assert_eq!(a, b"head");
    assert_eq!(b, b"body\r\n\r\nmore");
    assert_eq!(split_vec_u8_once(b"no blank line", b"\r\n\r\n"), None);
    let (a, b) = split_vec_u8_once(b"abc", b"").unwrap();
    assert_eq!(a, b"");
    assert_eq!(b, b"abc");
}

#[test]
fn splits_bytes_everywhere() {
    assert_eq!(
        split_bytes(b"lionXXtigerXleopard", b"X"),
        vec![b"lion".to_vec(), b"".to_vec(), b"tiger".to_vec(), b"leopard".to_vec()]
    );
    assert_eq!(split_bytes(b"", b"X"), vec![b"".to_vec()]);
    assert_eq!(split_bytes(b"a--", b"--"), vec![b"a".to_vec(), b"".to_vec()]);
}

#[test]
fn reads_semicolon_lists() {
    let list = parse_semicolon_list("multipart/form-data; boundary=\"abc\"; charset ; a = b");
    assert_eq!(list.get("multipart/form-data"), Some(&None));
    assert_eq!(list.get("boundary"), Some(&Some("abc".to_string())));
    assert_eq!(list.get("charset"), Some(&None));
    assert_eq!(list.get("a "), Some(&Some(" b".to_string())));
    assert_eq!(list.len(), 4);
    let list = parse_semicolon_list("x=\"\"; y=\"");
    assert_eq!(list.get("x"), Some(&Some("".to_string())));
    assert_eq!(list.get("y"), Some(&Some("\"".to_string())));
}

#[test]
fn quoted_parameter_is_read_back() {
    let list = parse_semicolon_list("name=\"profile pic\"");
    assert_eq!(list.len(), 1);
    assert_eq!(list.get("name"), Some(&Some("profile pic".to_string())));
}

fn multipart_request(content_type: &str, body: &str) -> Request {
    let mut headers = StringMap::new();
    headers.insert("Content-Type".to_string(), content_type.to_string());
    Request {
        method: Method::Post,
        path: "/profile".to_string(),
        http_version: HttpVersion::Http1_1,
        headers,
        body: Some(bytes(body)),
    }
}

#[test]
fn reads_multipart_forms() {
    let req = multipart_request(
        "multipart/form-data; boundary=XyZ",
        "--XyZ\r\nContent-Disposition: form-data; name=\"title\"\r\n\r\nhello\r\n--XyZ\r\nContent-Disposition: form-data; name=pic; filename=\"a.png\"\r\nContent-Type: image/png\r\n\r\n\x01\x02\r\n--XyZ--\r\n",
    );
    let form = req.parse_multipart_form().unwrap();
    assert_eq!(form.len(), 2);
    let title = form.get("title").unwrap();
    assert_eq!(title.field_value, bytes("hello\r\n"));
    assert_eq!(
        title.headers.get("Content-Disposition"),
        Some(&"form-data; name=\"title\"".to_string())
    );
    let pic = form.get("pic").unwrap();
    assert_eq!(pic.field_value, vec![1u8, 2, 13, 10]);
    assert_eq!(pic.headers.get("Content-Type"), Some(&"image/png".to_string()));
    assert!(req.checked_parse_multipart_form().unwrap().is_some());
}

#[test]
fn one_field_form_is_read_back() {
    let req = multipart_request(
        "multipart/form-data; boundary=B0und",
        "--B0und\r\nContent-Disposition: form-data; name=\"pic\"\r\n\r\n\x00\u{ff}data--B0und--",
    );
    let form = req.checked_parse_multipart_form().unwrap().unwrap();
    assert_eq!(form.len(), 1);
    let pic = form.get("pic").unwrap();
    assert_eq!(pic.field_value, vec![0u8, 0xc3, 0xbf, b'd', b'a', b't', b'a']);
    assert_eq!(pic.headers.len(), 1);
    assert_eq!(
        pic.headers.get("Content-Disposition"),
        Some(&"form-data; name=\"pic\"".to_string())
    );
}

#[test]
fn one_field_form_with_accented_name() {
    let req = multipart_request(
        "multipart/form-data; boundary=zz",
        "--zz\r\nContent-Disposition: form-data; name=\"f\u{f3}to\"\r\n\r\nabc--zz--",
    );
    let form = req.checked_parse_multipart_form().unwrap().unwrap();
    assert_eq!(form.len(), 1);
    assert_eq!(form.get("f\u{f3}to").unwrap().field_value, bytes("abc"));
}

#[test]
fn written_request_with_accented_text_is_read_back() {
    let req = internal_parse(&bytes(
        "PUT /caf\u{e9} HTTP/2.0\r\nX-Name: J\u{f6}rg\r\nAccept: */*\r\n\r\n\u{e9}t\u{e9}",
    ))
    .unwrap();
    assert_eq!(req.method, Method::Put);
    assert_eq!(req.path, "/caf\u{e9}");
    assert_eq!(req.http_version, HttpVersion::Http2_0);
    assert_eq!(req.headers.len(), 2);
    assert_eq!(req.headers.get("X-Name"), Some(&"J\u{f6}rg".to_string()));
    assert_eq!(req.headers.get("Accept"), Some(&"*/*".to_string()));
    assert_eq!(req.body, Some(bytes("\u{e9}t\u{e9}")));
}

#[test]
fn multipart_needs_boundary_and_body() {
    let req = multipart_request("multipart/form-data", "--x\r\n");
    assert!(req.parse_multipart_form().is_none());
    let mut req = multipart_request("multipart/form-data; boundary=x", "");
    req.body = None;
    assert!(req.parse_multipart_form().is_none());
    let mut req = multipart_request("multipart/form-data; boundary=x", "");
    req.headers = StringMap::new();
    assert!(req.parse_multipart_form().is_none());
}

#[test]
fn multipart_refuses_what_would_panic() {
    let req = multipart_request("multipart/form-data; boundary=\u{e9}x", "");
    assert!(req.checked_parse_multipart_form().is_none());
    let req = multipart_request(
        "multipart/form-data; boundary=b",
        "--b\r\nContent-Disposition: form-data; name=\"\u{e9}\"\r\n\r\nv\r\n",
    );
    assert!(req.checked_parse_multipart_form().is_some());
    let req = multipart_request(
        "multipart/form-data; boundary=b",
        "--b\r\nContent-Disposition: form-data; name=\"x\u{e9}\r\n\r\nv\r\n",
    );
    assert!(req.checked_parse_multipart_form().is_none());
}

#[test]
fn plans_the_rest_of_the_body() {
    assert_eq!(body_bytes_missing(&bytes("POST / HTTP/1.1\r\nContent-Length: 10\r\n\r\nabc")), Ok(7));
    assert_eq!(body_bytes_missing(&bytes("POST / HTTP/1.1\r\nContent-Length: +3\r\n\r\nabc")), Ok(0));
    assert_eq!(body_bytes_missing(&bytes("POST / HTTP/1.1\r\nContent-Length: 2\r\n\r\nabc")), Ok(0));
    assert_eq!(body_bytes_missing(&bytes("GET / HTTP/1.1\r\n\r\n")), Ok(0));
    assert_eq!(body_bytes_missing(&bytes("POST / HTTP/1.1\r\nContent-Length: x\r\n\r\n")), Ok(0));
    assert_eq!(
        body_bytes_missing(&bytes("POST / HTTP/1.1\r\nContent-Length: 67108865\r\n\r\n")),
        Err(HttpParseError::RequestTooBig)
    );
    assert_eq!(
        body_bytes_missing(&bytes("POST / HTTP/1.1\r\nContent-Length: 67108864\r\n\r\n")),
        Ok(67108864)
    );
}

#[test]
fn parse_errors_carry_their_kind() {
    assert_eq!(internal_parse(&bytes("GET  HTTP/1.1")), Err(HttpParseError::InvalidPath));
    assert_eq!(internal_parse(&bytes("get / HTTP/1.1")), Err(HttpParseError::InvalidMethod));
    assert_eq!(internal_parse(&bytes("GET / HTTP/3")), Err(HttpParseError::InvalidHttpVersion));
}

#[test]
fn reads_a_single_form_field() {
    let req = Request {
        method: Method::Post,
        path: "/register".to_string(),
        http_version: HttpVersion::Http1_1,
        headers: StringMap::new(),
        body: Some(bytes("user=bob=x")),
    };
    let form = req.parse_form().unwrap();
    assert_eq!(form.get("user"), Some(&"bob=x".to_string()));
    assert_eq!(form.len(), 1);
    let mut empty = req;
    empty.body = None;
    assert!(empty.parse_form().is_none());
}

#[test]
fn written_form_is_read_back() {
    let req = Request {
        method: Method::Post,
        path: "/register".to_string(),
        http_version: HttpVersion::Http1_1,
        headers: StringMap::new(),
        body: Some(bytes("username=bob&password=s=cr\u{e9}t&=anon&username=al")),
    };
    let form = req.parse_form().unwrap();
    assert_eq!(form.len(), 3);
    assert_eq!(form.get("username"), Some(&"al".to_string()));
    assert_eq!(form.get("password"), Some(&"s=cr\u{e9}t".to_string()));
    assert_eq!(form.get(""), Some(&"anon".to_string()));
    let mut empty = req;
    empty.body = Some(Vec::new());
    assert_eq!(empty.parse_form().unwrap().len(), 0);
}

#[test]
fn reads_request_lines_and_header_blocks() {
    assert_eq!(
        parse_first_line(&to_chars("PUT /a HTTP/1.1 extra")),
        Ok((Method::Put, "/a".to_string(), HttpVersion::Http1_1))
    );
    assert_eq!(parse_first_line(&to_chars("PUT /a")), Err(HttpParseError::InvalidHttpVersion));
    let headers = parse_headers(&to_chars("A: 1\r\nB:2:3\r\n\r\nbad\r\n C : x "));
    assert_eq!(headers.get("A"), Some(&"1".to_string()));
    assert_eq!(headers.get("B"), Some(&"2".to_string()));
    assert_eq!(headers.get("C"), Some(&"x".to_string()));
    assert_eq!(headers.len(), 3);
}

#[test]
fn request_with_headers_reads_back() {
    let req = internal_parse(&bytes("GET /p HTTP/1.1\r\nAccept: text/html\r\nX-A: 1\r\nX-A: 2\r\n\r\n")).unwrap();
    let mut expected = StringMap::new();
    expected.insert("X-A".to_string(), "2".to_string());
    expected.insert("Accept".to_string(), "text/html".to_string());
    assert_eq!(req.headers, expected);
    assert_eq!(req.body, None);
}
