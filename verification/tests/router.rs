use gall_rs::router::{clean_path, handle_not_found, login_response, redirect_resp, select_route, string_resp, Route};
use gall_rs::string_map::StringMap;
use gall_rs::types::{ContentType, DatabaseError, HttpVersion, Method, Request, ResponseCode};

fn request(method: Method, path: &str) -> Request {
    Request {
        method,
        path: path.to_string(),
        http_version: HttpVersion::Http1_1,
        headers: StringMap::new(),
        body: None,
    }
}

#[test]
fn cleans_paths() {
    assert_eq!(clean_path("//a//b/"), "/a/b");
    assert_eq!(clean_path(""), "/");
    assert_eq!(clean_path("/"), "/");
    assert_eq!(clean_path("a"), "/a");
    assert_eq!(clean_path("/static/css/x.css"), "/static/css/x.css");
    assert_eq!(clean_path(&clean_path("///x//y//")), clean_path("///x//y//"));
}

#[test]
fn routes_requests() {
    match select_route(&request(Method::Get, "/a//b")) {
        Route::Redirect(p) => assert_eq!(p, "/a/b"),
        _ => panic!("expected a redirect"),
    }
    assert!(matches!(select_route(&request(Method::Get, "/")), Route::Index));
    assert!(matches!(select_route(&request(Method::Get, "/register")), Route::RegisterPage));
    assert!(matches!(select_route(&request(Method::Post, "/register")), Route::RegisterForm));
    assert!(matches!(select_route(&request(Method::Get, "/success")), Route::Success));
    assert!(matches!(select_route(&request(Method::Post, "/profile")), Route::ProfileUpload));
    assert!(matches!(select_route(&request(Method::Put, "/profile")), Route::ProfilePage));
    assert!(matches!(select_route(&request(Method::Get, "/nowhere")), Route::NotFound));
    match select_route(&request(Method::Get, "/static/css/site.min.css")) {
        Route::Static(p, ct) => {
            assert_eq!(p, "./static/css/site.min.css");
            assert_eq!(ct, ContentType::Css);
        }
        _ => panic!("expected a static file"),
    }
    assert!(matches!(select_route(&request(Method::Get, "/static/file.exe")), Route::NotFound));
    assert!(matches!(select_route(&request(Method::Get, "/static/noext")), Route::NotFound));
}

#[test]
fn redirect_target_is_not_redirected_again() {
    let target = match select_route(&request(Method::Get, "//x///y/")) {
        Route::Redirect(p) => p,
        _ => panic!("expected a redirect"),
    };
    assert!(!matches!(select_route(&request(Method::Get, &target)), Route::Redirect(_)));
}

#[test]
fn builds_plain_responses() {
    let nf = handle_not_found();
    assert_eq!(nf.response_code, ResponseCode::NotFound);
    assert_eq!(nf.body, Some(b"Not found".to_vec()));
    assert_eq!(nf.headers.len(), 0);
    let r = redirect_resp("/login");
    assert_eq!(r.response_code, ResponseCode::SeeOther);
    assert_eq!(r.headers.get("Location"), Some(&"/login".to_string()));
    assert_eq!(r.body, None);
    let s = string_resp("<h1>hi</h1>");
    assert_eq!(s.response_code, ResponseCode::OK);
    assert_eq!(s.headers.get("Content-Type"), Some(&"text/html".to_string()));
    assert_eq!(s.body, Some(b"<h1>hi</h1>".to_vec()));
}

#[test]
fn answers_logins() {
    let failed = login_response("/register", Err(DatabaseError::NoUserError));
    assert_eq!(failed.headers.get("Location"), Some(&"/register".to_string()));
    assert_eq!(failed.headers.get("Set-Cookie"), None);
    let ok = login_response("/register", Ok("beef".to_string()));
    assert_eq!(ok.response_code, ResponseCode::SeeOther);
    assert_eq!(ok.headers.get("Location"), Some(&"/".to_string()));
    assert_eq!(ok.headers.get("Set-Cookie"), Some(&"auth_token=beef; Max-Age=2592000".to_string()));
}
