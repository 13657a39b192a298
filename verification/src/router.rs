//! Routing: which page or action answers a request, and the responses that
//! need no file, template or storage.
use vstd::prelude::*;
use vstd::utf8::encode_utf8;
use vstd::slice::{slice_subrange, slice_to_vec};
use crate::chars::{from_chars, split_chars, to_chars};
use crate::cookie::set_cookie_value;
use crate::response::{content_type_of_ext, ext_to_content_type_enum};
use crate::seqs::{free_of, join, lemma_join_front, split};
use crate::string_map::StringMap;
use crate::types::{ContentType, DatabaseError, Method, Request, Response, ResponseCode};

verus! {

broadcast use vstd::slice::group_slice_axioms;

/// The pieces that are not empty, in order.
pub open spec fn nonempty_pieces(parts: Seq<Seq<char>>) -> Seq<Seq<char>>
    decreases parts.len(),
{
    if parts.len() == 0 {
        Seq::empty()
    } else {
        let earlier = nonempty_pieces(parts.drop_last());
        if parts.last().len() > 0 {
            earlier.push(parts.last())
        } else {
            earlier
        }
    }
}

/// A path with its empty segments removed: `/` and the non-empty segments
/// joined by `/`.
pub open spec fn spec_clean_path(path: Seq<char>) -> Seq<char> {
    seq!['/'] + join(nonempty_pieces(split(path, seq!['/'])), seq!['/'])
}

/// The path without empty segments (doubled, leading or trailing slashes).
pub fn clean_path(path: &str) -> (clean: String)
    ensures
        clean@ == spec_clean_path(path@),
{
    let chars = to_chars(path);
    let slash = ['/'];
    assert(slash@ =~= seq!['/']);
    let parts = split_chars(chars.as_slice(), &slash);
    let ghost all = parts.deep_view();
    let mut out: Vec<char> = Vec::new();
    out.push('/');
    let mut any = false;
    let mut i: usize = 0;
    while i < parts.len()
        invariant
            i <= parts@.len(),
            all == parts.deep_view(),
            out@ == seq!['/'] + join(nonempty_pieces(all.take(i as int)), seq!['/']),
            any == (nonempty_pieces(all.take(i as int)).len() > 0),
        decreases parts.len() - i,
    {
        assert(all.take(i + 1).drop_last() =~= all.take(i as int));
        assert(parts[i as int]@ == all[i as int]);
        let ghost before = nonempty_pieces(all.take(i as int));
        if parts[i].len() > 0 {
            let ghost out0 = out@;
            if any {
                out.push('/');
            }
            let mut k: usize = 0;
            let ghost mid = out@;
            while k < parts[i].len()
                invariant
                    i < parts@.len(),
                    k <= parts[i as int]@.len(),
                    out@ == mid + parts[i as int]@.take(k as int),
                decreases parts[i as int]@.len() - k,
            {
                out.push(parts[i][k]);
                k = k + 1;
                assert(out@ =~= mid + parts[i as int]@.take(k as int));
            }
            assert(parts[i as int]@.take(parts[i as int]@.len() as int) =~= parts[i as int]@);
            assert(nonempty_pieces(all.take(i + 1)) == before.push(all[i as int]));
            assert(before.push(all[i as int]).drop_last() =~= before);
            assert(out@ =~= seq!['/'] + join(nonempty_pieces(all.take(i + 1)), seq!['/']));
            any = true;
        } else {
            assert(nonempty_pieces(all.take(i + 1)) == before);
        }
        i = i + 1;
    }
    assert(all.take(parts@.len() as int) =~= all);
    from_chars(out.as_slice())
}

/// The non-empty pieces are pieces, and not empty.
pub proof fn lemma_nonempty_pieces(parts: Seq<Seq<char>>, c: char)
    requires
        forall|i: int| 0 <= i < parts.len() ==> free_of(#[trigger] parts[i], c),
    ensures
        forall|i: int| 0 <= i < nonempty_pieces(parts).len() ==> free_of(#[trigger] nonempty_pieces(parts)[i], c)
            && nonempty_pieces(parts)[i].len() > 0,
    decreases parts.len(),
{
    if parts.len() > 0 {
        assert forall|i: int| 0 <= i < parts.drop_last().len() implies free_of(#[trigger] parts.drop_last()[i], c) by {
            assert(parts.drop_last()[i] == parts[i]);
        }
        lemma_nonempty_pieces(parts.drop_last(), c);
        assert(free_of(parts.last(), c));
        let earlier = nonempty_pieces(parts.drop_last());
        assert forall|i: int| 0 <= i < nonempty_pieces(parts).len() implies free_of(
            #[trigger] nonempty_pieces(parts)[i],
            c,
        ) && nonempty_pieces(parts)[i].len() > 0 by {
            if parts.last().len() > 0 {
                if i < earlier.len() {
                    assert(nonempty_pieces(parts)[i] == earlier[i]);
                } else {
                    assert(nonempty_pieces(parts)[i] == parts.last());
                }
            } else {
                assert(nonempty_pieces(parts)[i] == earlier[i]);
            }
        }
    }
}

/// Dropping empty pieces from an empty piece followed by non-empty ones.
pub proof fn lemma_nonempty_after_empty(q: Seq<Seq<char>>)
    requires
        forall|i: int| 0 <= i < q.len() ==> (#[trigger] q[i]).len() > 0,
    ensures
        nonempty_pieces(seq![Seq::<char>::empty()] + q) == q,
    decreases q.len(),
{
    let e = seq![Seq::<char>::empty()];
    if q.len() == 0 {
        assert(e + q =~= e);
        assert(e.drop_last() =~= Seq::<Seq<char>>::empty());
        assert(e.len() == 1);
        assert(e.last() == Seq::<char>::empty());
        assert(nonempty_pieces(e.drop_last()) == Seq::<Seq<char>>::empty());
        assert(nonempty_pieces(e) == nonempty_pieces(e.drop_last()));
        assert(nonempty_pieces(e) =~= q);
    } else {
        assert((e + q).drop_last() =~= e + q.drop_last());
        assert((e + q).last() == q.last());
        assert forall|i: int| 0 <= i < q.drop_last().len() implies (#[trigger] q.drop_last()[i]).len() > 0 by {
            assert(q.drop_last()[i] == q[i]);
        }
        lemma_nonempty_after_empty(q.drop_last());
        assert(q.last().len() > 0);
        assert(q.drop_last().push(q.last()) =~= q);
    }
}

/// Law: a clean path stays as it is, so cleaning twice is cleaning once.
pub proof fn clean_path_idempotent(path: Seq<char>)
    ensures
        spec_clean_path(spec_clean_path(path)) == spec_clean_path(path),
{
    let slash = seq!['/'];
    let parts = nonempty_pieces(split(path, slash));
    crate::seqs::lemma_split_free(path, '/');
    lemma_nonempty_pieces(split(path, slash), '/');
    let j = join(parts, slash);
    let clean = slash + j;
    assert(clean =~= Seq::<char>::empty() + seq!['/'] + j);
    crate::seqs::lemma_split_prefix(Seq::<char>::empty(), '/', j);
    if parts.len() == 0 {
        assert(j == Seq::<char>::empty());
        crate::seqs::lemma_split_none(Seq::<char>::empty(), '/');
        lemma_nonempty_after_empty(Seq::<Seq<char>>::empty());
        assert(seq![Seq::<char>::empty()] + Seq::<Seq<char>>::empty() =~= seq![Seq::<char>::empty()]);
        assert(split(clean, slash) =~= seq![Seq::<char>::empty()] + seq![Seq::<char>::empty()]);
        let pieces = split(clean, slash);
        assert(pieces.drop_last() =~= seq![Seq::<char>::empty()]);
        assert(pieces.last() == Seq::<char>::empty());
        assert(nonempty_pieces(pieces) == nonempty_pieces(pieces.drop_last()));
        assert(nonempty_pieces(pieces) =~= Seq::<Seq<char>>::empty());
    } else {
        crate::seqs::lemma_split_join(parts, '/');
        lemma_nonempty_after_empty(parts);
    }
}

/// Law: the path a redirect sends the client to is answered without a
/// further redirect.
pub proof fn redirect_target_settles(method: Method, path: Seq<char>)
    ensures
        !(route_for(method, spec_clean_path(path)) is Redirect),
{
    clean_path_idempotent(path);
}

/// The root path is clean.
proof fn lemma_root_clean()
    ensures
        spec_clean_path(seq!['/']) == seq!['/'],
{
    let e = Seq::<char>::empty();
    assert(seq!['/'] =~= e + seq!['/'] + e);
    crate::seqs::lemma_split_prefix(e, '/', e);
    crate::seqs::lemma_split_none(e, '/');
    let pieces = split(seq!['/'], seq!['/']);
    assert(pieces =~= seq![e, e]);
    assert(pieces.drop_last() =~= seq![e]);
    assert(seq![e].drop_last() =~= Seq::<Seq<char>>::empty());
    assert(nonempty_pieces(seq![e]) == nonempty_pieces(Seq::<Seq<char>>::empty()));
    assert(nonempty_pieces(pieces) =~= Seq::<Seq<char>>::empty());
    assert(seq!['/'] + join(Seq::<Seq<char>>::empty(), seq!['/']) =~= seq!['/']);
}

/// A path of one non-empty segment without `/` is clean.
proof fn lemma_one_segment_clean(seg: Seq<char>)
    requires
        seg.len() > 0,
        free_of(seg, '/'),
    ensures
        spec_clean_path(seq!['/'] + seg) == seq!['/'] + seg,
{
    let e = Seq::<char>::empty();
    assert(seq!['/'] + seg =~= e + seq!['/'] + seg);
    assert(!seg.contains('/')) by {
        if seg.contains('/') {
            let i = choose|i: int| 0 <= i < seg.len() && seg[i] == '/';
            assert(seg[i] != '/');
        }
    }
    crate::seqs::lemma_split_prefix(e, '/', seg);
    crate::seqs::lemma_split_none(seg, '/');
    assert(split(seq!['/'] + seg, seq!['/']) =~= seq![e] + seq![seg]);
    lemma_nonempty_after_empty(seq![seg]);
    assert(join(seq![seg], seq!['/']) == seg);
}

/// Law: every page path is answered by its page for every method, and by
/// its action for a `POST` where it has one: `/` by the index, `/register`
/// by the registration form's handling on `POST` and the registration page
/// otherwise, `/success` by the success page, `/profile` by the upload on
/// `POST` and the profile page otherwise.
pub proof fn page_routes(m: Method)
    ensures
        route_for(m, "/"@) == RouteModel::Index,
        route_for(m, "/register"@) == if m == Method::Post {
            RouteModel::RegisterForm
        } else {
            RouteModel::RegisterPage
        },
        route_for(m, "/success"@) == RouteModel::Success,
        route_for(m, "/profile"@) == if m == Method::Post {
            RouteModel::ProfileUpload
        } else {
            RouteModel::ProfilePage
        },
{
    reveal_strlit("/");
    reveal_strlit("/register");
    reveal_strlit("/success");
    reveal_strlit("/profile");
    reveal_strlit("/static/");
    lemma_root_clean();
    assert("/"@ =~= seq!['/']);
    let r = "/register"@;
    let su = "/success"@;
    let pr = "/profile"@;
    let st = "/static/"@;
    assert(r =~= seq!['/'] + r.drop_first());
    assert(su =~= seq!['/'] + su.drop_first());
    assert(pr =~= seq!['/'] + pr.drop_first());
    lemma_one_segment_clean(r.drop_first());
    lemma_one_segment_clean(su.drop_first());
    lemma_one_segment_clean(pr.drop_first());
    assert(r.subrange(0, 8)[1] != st[1]);
    assert(su.subrange(0, 8)[2] != st[2]);
    assert(pr.subrange(0, 8)[1] != st[1]);
    assert(!starts_with("/"@, st));
    assert(r != "/"@);
    assert(su != "/"@ && su != r);
    assert(pr != "/"@ && pr != r && pr != su);
}

/// Law: a clean path under `/static/` is answered by the file at that path
/// below the working directory, typed by the text after its last `.`:
/// `html`, `css`, `jpeg` or `jpg`, `png`; any other text is not found.
pub proof fn static_file_routes(m: Method, stem: Seq<char>, ext: Seq<char>)
    requires
        free_of(ext, '.'),
        spec_clean_path(stem + seq!['.'] + ext) == stem + seq!['.'] + ext,
        starts_with(stem + seq!['.'] + ext, "/static/"@),
    ensures
        ext == "html"@ ==> route_for(m, stem + seq!['.'] + ext) == RouteModel::Static(
            "."@ + stem + seq!['.'] + ext,
            ContentType::Html,
        ),
        ext == "css"@ ==> route_for(m, stem + seq!['.'] + ext) == RouteModel::Static(
            "."@ + stem + seq!['.'] + ext,
            ContentType::Css,
        ),
        ext == "jpeg"@ || ext == "jpg"@ ==> route_for(m, stem + seq!['.'] + ext) == RouteModel::Static(
            "."@ + stem + seq!['.'] + ext,
            ContentType::Jpeg,
        ),
        ext == "png"@ ==> route_for(m, stem + seq!['.'] + ext) == RouteModel::Static(
            "."@ + stem + seq!['.'] + ext,
            ContentType::Png,
        ),
        !(ext == "html"@ || ext == "css"@ || ext == "jpeg"@ || ext == "jpg"@ || ext == "png"@) ==> route_for(
            m,
            stem + seq!['.'] + ext,
        ) == RouteModel::NotFound,
{
    reveal_strlit("html");
    reveal_strlit("css");
    reveal_strlit("jpeg");
    reveal_strlit("jpg");
    reveal_strlit("png");
    assert("css"@.len() != "html"@.len());
    assert("jpeg"@[0] != "html"@[0]);
    assert("jpeg"@.len() != "css"@.len());
    assert("jpg"@.len() != "html"@.len());
    assert("jpg"@[0] != "css"@[0]);
    assert("png"@.len() != "html"@.len());
    assert("png"@[0] != "css"@[0]);
    assert("png"@.len() != "jpeg"@.len());
    assert("png"@[0] != "jpg"@[0]);
    let path = stem + seq!['.'] + ext;
    crate::seqs::lemma_split_append(stem, '.', ext);
    assert(split(path, seq!['.']).last() == ext);
    assert("."@ + path =~= "."@ + stem + seq!['.'] + ext);
}

/// `s` begins with `prefix`.
pub open spec fn starts_with(s: Seq<char>, prefix: Seq<char>) -> bool {
    prefix.len() <= s.len() && s.subrange(0, prefix.len() as int) == prefix
}

fn has_prefix(s: &str, prefix: &str) -> (b: bool)
    ensures
        b == starts_with(s@, prefix@),
{
    let a = to_chars(s);
    let p = to_chars(prefix);
    if p.len() > a.len() {
        return false;
    }
    let head = from_chars(slice_subrange(a.as_slice(), 0, p.len()));
    let pre = from_chars(p.as_slice());
    head == pre
}

/// What answers a request.
pub enum Route {
    /// Send the client to the clean form of its path.
    Redirect(String),
    /// Send a static file of this path and type.
    Static(String, ContentType),
    /// The rendered index template.
    Index,
    /// Register the account of a submitted form.
    RegisterForm,
    /// The registration page.
    RegisterPage,
    /// The success page.
    Success,
    /// Take a profile upload, then show the profile page.
    ProfileUpload,
    /// The profile page.
    ProfilePage,
    /// Not found.
    NotFound,
}

/// What answers a request, mathematically.
pub enum RouteModel {
    Redirect(Seq<char>),
    Static(Seq<char>, ContentType),
    Index,
    RegisterForm,
    RegisterPage,
    Success,
    ProfileUpload,
    ProfilePage,
    NotFound,
}

impl View for Route {
    type V = RouteModel;

    open spec fn view(&self) -> RouteModel {
        match self {
            Route::Redirect(p) => RouteModel::Redirect(p@),
            Route::Static(p, c) => RouteModel::Static(p@, *c),
            Route::Index => RouteModel::Index,
            Route::RegisterForm => RouteModel::RegisterForm,
            Route::RegisterPage => RouteModel::RegisterPage,
            Route::Success => RouteModel::Success,
            Route::ProfileUpload => RouteModel::ProfileUpload,
            Route::ProfilePage => RouteModel::ProfilePage,
            Route::NotFound => RouteModel::NotFound,
        }
    }
}

/// The static file that answers a `/static/` path: the path below the
/// working directory, typed by the text after its last `.`; not found for
/// an unknown type.
pub open spec fn static_route(path: Seq<char>) -> RouteModel {
    let parts = split(path, seq!['.']);
    match content_type_of_ext(parts.last()) {
        Some(ct) => RouteModel::Static("."@ + path, ct),
        None => RouteModel::NotFound,
    }
}

/// What answers a request for `path` with `method`: a redirect to the clean
/// path where the path is not clean, else the page or action of the path.
pub open spec fn route_for(method: Method, path: Seq<char>) -> RouteModel {
    if spec_clean_path(path) != path {
        RouteModel::Redirect(spec_clean_path(path))
    } else if starts_with(path, "/static/"@) {
        static_route(path)
    } else if path == "/"@ {
        RouteModel::Index
    } else if path == "/register"@ {
        if method == Method::Post {
            RouteModel::RegisterForm
        } else {
            RouteModel::RegisterPage
        }
    } else if path == "/success"@ {
        RouteModel::Success
    } else if path == "/profile"@ {
        if method == Method::Post {
            RouteModel::ProfileUpload
        } else {
            RouteModel::ProfilePage
        }
    } else {
        RouteModel::NotFound
    }
}

fn handle_static(path: &str) -> (route: Route)
    ensures
        route@ == static_route(path@),
{
    let chars = to_chars(path);
    let dot = ['.'];
    assert(dot@ =~= seq!['.']);
    let parts = split_chars(chars.as_slice(), &dot);
    proof { crate::seqs::lemma_split_nonempty(chars@, dot@); }
    let last = from_chars(parts[parts.len() - 1].as_slice());
    assert(parts[parts.len() - 1]@ == parts.deep_view().last());
    match ext_to_content_type_enum(last.as_str()) {
        Ok(ct) => {
            let mut file = String::from_str(".");
            file.append(path);
            Route::Static(file, *ct)
        },
        Err(_) => Route::NotFound,
    }
}

/// Which page or action answers a request.
pub fn select_route(request: &Request) -> (route: Route)
    ensures
        route@ == route_for(request.method, request.path@),
{
    let clean = clean_path(request.path.as_str());
    if clean != request.path {
        return Route::Redirect(clean);
    }
    let path = request.path.as_str();
    if has_prefix(path, "/static/") {
        handle_static(path)
    } else if crate::parse::same_text(path, "/") {
        Route::Index
    } else if crate::parse::same_text(path, "/register") {
        if request.method == Method::Post {
            Route::RegisterForm
        } else {
            Route::RegisterPage
        }
    } else if crate::parse::same_text(path, "/success") {
        Route::Success
    } else if crate::parse::same_text(path, "/profile") {
        if request.method == Method::Post {
            Route::ProfileUpload
        } else {
            Route::ProfilePage
        }
    } else {
        Route::NotFound
    }
}

/// The not-found response: code 404 and the body `Not found`.
pub fn handle_not_found() -> (resp: Response)
    ensures
        resp.response_code == ResponseCode::NotFound,
        resp.headers@ == Map::<Seq<char>, Seq<char>>::empty(),
        crate::types::bytes_view(resp.body) == Some(encode_utf8("Not found"@)),
{
    let body = slice_to_vec("Not found".as_bytes());
    Response { response_code: ResponseCode::NotFound, headers: StringMap::new(), body: Some(body) }
}

/// A redirect: code 303 with a `Location` header and no body.
pub fn redirect_resp(location: &str) -> (resp: Response)
    ensures
        resp.response_code == ResponseCode::SeeOther,
        resp.headers@ == Map::<Seq<char>, Seq<char>>::empty().insert("Location"@, location@),
        resp.body is None,
{
    let mut headers = StringMap::new();
    headers.insert(String::from_str("Location"), String::from_str(location));
    Response { response_code: ResponseCode::SeeOther, headers, body: None }
}

/// An HTML page: code 200, `Content-Type: text/html` and the text as body.
pub fn string_resp(body: &str) -> (resp: Response)
    ensures
        resp.response_code == ResponseCode::OK,
        resp.headers@ == Map::<Seq<char>, Seq<char>>::empty().insert("Content-Type"@, "text/html"@),
        crate::types::bytes_view(resp.body) == Some(encode_utf8(body@)),
{
    let mut headers = StringMap::new();
    headers.insert(String::from_str("Content-Type"), String::from_str("text/html"));
    Response { response_code: ResponseCode::OK, headers, body: Some(slice_to_vec(body.as_bytes())) }
}

/// How long, in seconds, a login lasts: thirty days.
pub const LOGIN_MAX_AGE: i32 = 2592000;

/// The answer to a login attempt: where it failed, a redirect back to the
/// form's path; where it gave a token, a redirect to `/` that sets the
/// `auth_token` cookie for thirty days.
pub fn login_response(request_path: &str, login: Result<String, DatabaseError>) -> (resp: Response)
    ensures
        resp.response_code == ResponseCode::SeeOther,
        resp.body is None,
        match login {
            Err(_) => resp.headers@ == Map::<Seq<char>, Seq<char>>::empty().insert("Location"@, request_path@),
            Ok(token) => resp.headers@ == Map::<Seq<char>, Seq<char>>::empty().insert("Location"@, "/"@).insert(
                "Set-Cookie"@,
                set_cookie_value("auth_token"@, token@, LOGIN_MAX_AGE as int),
            ),
        },
{
    match login {
        Err(_) => redirect_resp(request_path),
        Ok(token) => {
            let mut resp = redirect_resp("/");
            resp.write_cookie("auth_token", token.as_str(), LOGIN_MAX_AGE);
            resp
        },
    }
}

} // verus!
