use gall_rs::response::{
    content_type_enum_to_str, encode_response, ext_to_content_type_enum, file_response, render_head,
    response_code_enum_to_str,
};
use gall_rs::string_map::StringMap;
use gall_rs::types::{ContentType, Response, ResponseCode};

#[test]
fn maps_extensions_to_content_types() {
    assert_eq!(ext_to_content_type_enum("html"), Ok(&ContentType::Html));
    assert_eq!(ext_to_content_type_enum("css"), Ok(&ContentType::Css));
    assert_eq!(ext_to_content_type_enum("jpeg"), Ok(&ContentType::Jpeg));
    assert_eq!(ext_to_content_type_enum("jpg"), Ok(&ContentType::Jpeg));
    assert_eq!(ext_to_content_type_enum("png"), Ok(&ContentType::Png));
    assert_eq!(ext_to_content_type_enum("PNG"), Err("Unknown file type"));
    assert_eq!(ext_to_content_type_enum(""), Err("Unknown file type"));
}

#[test]
fn names_content_types_and_codes() {
    assert_eq!(content_type_enum_to_str(&ContentType::Html), "text/html");
    assert_eq!(content_type_enum_to_str(&ContentType::Css), "text/css");
    assert_eq!(content_type_enum_to_str(&ContentType::Jpeg), "image/jpeg");
    assert_eq!(content_type_enum_to_str(&ContentType::Png), "image/png");
    assert_eq!(response_code_enum_to_str(&ResponseCode::OK), "200 OK");
    assert_eq!(response_code_enum_to_str(&ResponseCode::SeeOther), "303 See Other");
    assert_eq!(response_code_enum_to_str(&ResponseCode::NotFound), "404 Not Found");
}

#[test]
fn encodes_a_response_with_its_length() {
    let mut headers = StringMap::new();
    headers.insert("Content-Type".to_string(), "text/html".to_string());
    let resp = Response { response_code: ResponseCode::OK, headers, body: Some(b"hi".to_vec()) };
    assert_eq!(
        encode_response(resp),
        b"HTTP/1.1 200 OK\r\nContent-Type: text/html\r\nContent-Length: 2\r\n\r\nhi".to_vec()
    );
}

#[test]
fn encodes_a_response_without_body() {
    let mut headers = StringMap::new();
    headers.insert("Location".to_string(), "/".to_string());
    let resp = Response { response_code: ResponseCode::SeeOther, headers, body: None };
    assert_eq!(render_head(&resp), "HTTP/1.1 303 See Other\r\nLocation: /\r\n\r\n");
    assert_eq!(encode_response(resp), b"HTTP/1.1 303 See Other\r\nLocation: /\r\n\r\n".to_vec());
}

#[test]
fn encodes_a_long_body_length() {
    let resp = Response { response_code: ResponseCode::NotFound, headers: StringMap::new(), body: Some(vec![7u8; 1234]) };
    let bytes = encode_response(resp);
    let head = b"HTTP/1.1 404 Not Found\r\nContent-Length: 1234\r\n\r\n";
    assert_eq!(&bytes[..head.len()], &head[..]);
    assert_eq!(bytes.len(), head.len() + 1234);
}

#[test]
fn builds_file_responses() {
    let resp = file_response(b"<p>".to_vec(), &ContentType::Html, None);
    assert_eq!(resp.response_code, ResponseCode::OK);
    assert_eq!(resp.body, Some(b"<p>".to_vec()));
    assert_eq!(resp.headers.get("Content-Type"), Some(&"text/html".to_string()));
    let given = Response { response_code: ResponseCode::NotFound, headers: StringMap::new(), body: None };
    let resp = file_response(b"ignored".to_vec(), &ContentType::Png, Some(given));
    assert_eq!(resp.response_code, ResponseCode::NotFound);
    assert_eq!(resp.body, None);
    assert_eq!(resp.headers.get("Content-Type"), Some(&"image/png".to_string()));
}
