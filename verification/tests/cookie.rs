use gall_rs::string_map::StringMap;
use gall_rs::types::{HttpVersion, Method, Request, Response, ResponseCode};

fn request_with_cookie(value: Option<&str>) -> Request {
    let mut headers = StringMap::new();
    if let Some(v) = value {
        headers.insert("Cookie".to_string(), v.to_string());
    }
    Request {
        method: Method::Get,
        path: "/".to_string(),
        http_version: HttpVersion::Http1_1,
        headers,
        body: None,
    }
}

#[test]
fn reads_the_named_cookie() {
    let req = request_with_cookie(Some("auth_token=abc=def"));
    assert_eq!(req.read_cookie("auth_token"), Some("abc=def"));
    assert_eq!(req.read_cookie("other"), None);
    assert_eq!(request_with_cookie(None).read_cookie("auth_token"), None);
    let bare = request_with_cookie(Some("nothing"));
    assert_eq!(bare.read_cookie(""), Some(""));
    assert_eq!(bare.read_cookie("nothing"), None);
}

#[test]
fn writes_a_cookie() {
    let mut resp = Response { response_code: ResponseCode::OK, headers: StringMap::new(), body: None };
    resp.write_cookie("auth_token", "tok", 2592000);
    assert_eq!(resp.headers.get("Set-Cookie"), Some(&"auth_token=tok; Max-Age=2592000".to_string()));
    resp.write_cookie("a", "b", -5);
    assert_eq!(resp.headers.get("Set-Cookie"), Some(&"a=b; Max-Age=-5".to_string()));
    resp.write_cookie("a", "b", i32::MIN);
    assert_eq!(resp.headers.get("Set-Cookie"), Some(&"a=b; Max-Age=-2147483648".to_string()));
    assert_eq!(resp.headers.len(), 1);
}

#[test]
fn cookie_written_then_sent_back_is_read() {
    let mut resp = Response { response_code: ResponseCode::OK, headers: StringMap::new(), body: None };
    resp.write_cookie("session", "xyz", 60);
    let set = resp.headers.get("Set-Cookie").unwrap().clone();
    let pair = set.split("; ").next().unwrap();
    let req = request_with_cookie(Some(pair));
    assert_eq!(req.read_cookie("session"), Some("xyz"));
}
