//! Parsing HTTP requests: the request line, header lines, form bodies and
//! `multipart/form-data` bodies.
use vstd::prelude::*;
use crate::chars::{from_chars, split_chars, split_once_chars, to_chars, trim, trim_chars};
use crate::seqs::lemma_join_front;
use crate::seqs::{find, find_from, free_of, occurs_at, split, split_from, split_once};
use crate::string_map::StringMap;
use crate::numbers::{decimal, parse_usize, spec_parse_usize};
use crate::types::{HttpParseError, HttpVersion, Method, MultipartFormEntry, Request, RequestModel};
use vstd::utf8::encode_utf8;
use crate::trusted::{lossy_text, split_str_pieces, utf8_lossy};
use vstd::slice::{slice_subrange, slice_to_vec};

verus! {

broadcast use vstd::slice::group_slice_axioms;

/// Whether two strings hold the same text.
pub fn same_text(a: &str, b: &str) -> (same: bool)
    ensures
        same == (a@ == b@),
{
    a.to_owned() == b.to_owned()
}

/// The method a request line names, by its exact (case-sensitive) name.
pub open spec fn method_named(name: Seq<char>) -> Option<Method> {
    if name == "GET"@ {
        Some(Method::Get)
    } else if name == "DELETE"@ {
        Some(Method::Delete)
    } else if name == "HEAD"@ {
        Some(Method::Head)
    } else if name == "OPTIONS"@ {
        Some(Method::Options)
    } else if name == "PATCH"@ {
        Some(Method::Patch)
    } else if name == "POST"@ {
        Some(Method::Post)
    } else if name == "PUT"@ {
        Some(Method::Put)
    } else {
        None
    }
}

/// What `get_method` gives for an optional method word.
pub open spec fn spec_get_method(word: Option<Seq<char>>) -> Result<Method, HttpParseError> {
    match word {
        Some(name) => match method_named(name) {
            Some(m) => Ok(m),
            None => Err(HttpParseError::InvalidMethod),
        },
        None => Err(HttpParseError::InvalidMethod),
    }
}

/// The text of an optional string slice.
pub open spec fn text_of(word: Option<&str>) -> Option<Seq<char>> {
    match word {
        Some(s) => Some(s@),
        None => None,
    }
}

/// The method named by `method`; `InvalidMethod` for a missing or unknown name.
pub fn get_method(method: Option<&str>) -> (result: Result<Method, HttpParseError>)
    ensures
        result == spec_get_method(text_of(method)),
{
    match method {
        None => Err(HttpParseError::InvalidMethod),
        Some(name) => {
            if same_text(name, "GET") {
                Ok(Method::Get)
            } else if same_text(name, "DELETE") {
                Ok(Method::Delete)
            } else if same_text(name, "HEAD") {
                Ok(Method::Head)
            } else if same_text(name, "OPTIONS") {
                Ok(Method::Options)
            } else if same_text(name, "PATCH") {
                Ok(Method::Patch)
            } else if same_text(name, "POST") {
                Ok(Method::Post)
            } else if same_text(name, "PUT") {
                Ok(Method::Put)
            } else {
                Err(HttpParseError::InvalidMethod)
            }
        },
    }
}

/// The name of a method on a request line.
pub open spec fn method_name(m: Method) -> Seq<char> {
    match m {
        Method::Get => "GET"@,
        Method::Post => "POST"@,
        Method::Put => "PUT"@,
        Method::Head => "HEAD"@,
        Method::Delete => "DELETE"@,
        Method::Options => "OPTIONS"@,
        Method::Patch => "PATCH"@,
    }
}

/// Law: every method's name reads back as that method, so no two methods
/// share a name.
pub proof fn method_name_round_trip(m: Method)
    ensures
        spec_get_method(Some(method_name(m))) == Ok::<Method, HttpParseError>(m),
{
    reveal_strlit("GET");
    reveal_strlit("POST");
    reveal_strlit("PUT");
    reveal_strlit("HEAD");
    reveal_strlit("DELETE");
    reveal_strlit("OPTIONS");
    reveal_strlit("PATCH");
    let n = method_name(m);
    assert(n != "GET"@ ==> m != Method::Get);
    if m != Method::Get {
        assert(n.len() != 3 || n[0] != 'G');
        assert(n != "GET"@);
    }
    if m != Method::Get && m != Method::Delete {
        assert(n.len() != 6 || n[0] != 'D');
        assert(n != "DELETE"@);
    }
    if m != Method::Get && m != Method::Delete && m != Method::Head {
        assert(n.len() != 4 || n[0] != 'H');
        assert(n != "HEAD"@);
    }
    if m != Method::Get && m != Method::Delete && m != Method::Head && m != Method::Options {
        assert(n.len() != 7 || n[0] != 'O');
        assert(n != "OPTIONS"@);
    }
    if m == Method::Post || m == Method::Put {
        assert(n.len() != 5 || n[0] != 'P' || n[1] != 'A');
        assert(n != "PATCH"@);
    }
    if m == Method::Put {
        assert(n.len() != 4 || n[1] != 'O');
        assert(n != "POST"@);
    }
}

/// What `get_path` gives: the word itself, unless it is missing or empty.
pub open spec fn spec_get_path(word: Option<Seq<char>>) -> Result<Seq<char>, HttpParseError> {
    match word {
        Some(p) => if p.len() == 0 {
            Err(HttpParseError::InvalidPath)
        } else {
            Ok(p)
        },
        None => Err(HttpParseError::InvalidPath),
    }
}

/// The request path; `InvalidPath` for a missing or empty one.
pub fn get_path(req: Option<&str>) -> (result: Result<String, HttpParseError>)
    ensures
        match result {
            Ok(p) => spec_get_path(text_of(req)) == Ok::<Seq<char>, HttpParseError>(p@),
            Err(e) => spec_get_path(text_of(req)) == Err::<Seq<char>, HttpParseError>(e),
        },
{
    match req {
        None => Err(HttpParseError::InvalidPath),
        Some(s) => {
            let string = s.to_owned();
            if s.is_empty() {
                Err(HttpParseError::InvalidPath)
            } else {
                Ok(string)
            }
        },
    }
}

/// The protocol version a request line names.
pub open spec fn spec_get_http_version(word: Option<Seq<char>>) -> Result<HttpVersion, HttpParseError> {
    match word {
        Some(v) => if v == "HTTP/1.1"@ {
            Ok(HttpVersion::Http1_1)
        } else if v == "HTTP/2.0"@ {
            Ok(HttpVersion::Http2_0)
        } else {
            Err(HttpParseError::InvalidHttpVersion)
        },
        None => Err(HttpParseError::InvalidHttpVersion),
    }
}

fn get_http_version(version: Option<&str>) -> (result: Result<HttpVersion, HttpParseError>)
    ensures
        result == spec_get_http_version(text_of(version)),
{
    match version {
        Some(v) => {
            if same_text(v, "HTTP/1.1") {
                Ok(HttpVersion::Http1_1)
            } else if same_text(v, "HTTP/2.0") {
                Ok(HttpVersion::Http2_0)
            } else {
                Err(HttpParseError::InvalidHttpVersion)
            }
        },
        None => Err(HttpParseError::InvalidHttpVersion),
    }
}

/// The `i`-th piece, if there are that many.
pub open spec fn nth<A>(pieces: Seq<A>, i: int) -> Option<A> {
    if 0 <= i < pieces.len() {
        Some(pieces[i])
    } else {
        None
    }
}

/// The method, path and version of a request line, its words separated by
/// single spaces.
pub open spec fn spec_parse_first_line(line: Seq<char>) -> Result<(Method, Seq<char>, HttpVersion), HttpParseError> {
    let words = split(line, seq![' ']);
    match spec_get_method(nth(words, 0)) {
        Err(e) => Err(e),
        Ok(m) => match spec_get_path(nth(words, 1)) {
            Err(e) => Err(e),
            Ok(p) => match spec_get_http_version(nth(words, 2)) {
                Err(e) => Err(e),
                Ok(v) => Ok((m, p, v)),
            },
        },
    }
}

fn optional_word(words: &Vec<Vec<char>>, i: usize) -> (word: Option<String>)
    ensures
        match word {
            Some(w) => nth(words.deep_view(), i as int) == Some(w@),
            None => nth(words.deep_view(), i as int) is None,
        },
{
    if i < words.len() {
        let w = from_chars(words[i].as_slice());
        assert(words[i as int]@ == words.deep_view()[i as int]);
        Some(w)
    } else {
        None
    }
}

fn as_text(word: &Option<String>) -> (text: Option<&str>)
    ensures
        text_of(text) == match word {
            Some(w) => Some(w@),
            None => None::<Seq<char>>,
        },
{
    match word {
        Some(w) => Some(w.as_str()),
        None => None,
    }
}

/// The method, path and version of a request line.
pub fn parse_first_line(first_line: &[char]) -> (result: Result<(Method, String, HttpVersion), HttpParseError>)
    ensures
        match result {
            Ok((m, p, v)) => spec_parse_first_line(first_line@) == Ok::<(Method, Seq<char>, HttpVersion), HttpParseError>((m, p@, v)),
            Err(e) => spec_parse_first_line(first_line@) == Err::<(Method, Seq<char>, HttpVersion), HttpParseError>(e),
        },
{
    let space = [' '];
    assert(space@ =~= seq![' ']);
    let words = split_chars(first_line, &space);
    let w0 = optional_word(&words, 0);
    let method = get_method(as_text(&w0))?;
    let w1 = optional_word(&words, 1);
    let path = get_path(as_text(&w1))?;
    let w2 = optional_word(&words, 2);
    let http_version = get_http_version(as_text(&w2))?;
    Ok((method, path, http_version))
}

/// The name and value of a header line: the trimmed text before the first
/// colon and the trimmed text between it and the next colon, if any.
pub open spec fn spec_parse_header(line: Seq<char>) -> Option<(Seq<char>, Seq<char>)> {
    let parts = split(line, seq![':']);
    if parts.len() >= 2 {
        Some((trim(parts[0]), trim(parts[1])))
    } else {
        None
    }
}

fn parse_header(header: &[char]) -> (result: Result<(Vec<char>, Vec<char>), HttpParseError>)
    ensures
        match result {
            Ok((k, v)) => spec_parse_header(header@) == Some((k@, v@)),
            Err(e) => spec_parse_header(header@) is None && e == HttpParseError::InvalidHeader,
        },
{
    let colon = [':'];
    assert(colon@ =~= seq![':']);
    let parts = split_chars(header, &colon);
    if parts.len() < 2 {
        return Err(HttpParseError::InvalidHeader);
    }
    assert(parts[0]@ == parts.deep_view()[0]);
    assert(parts[1]@ == parts.deep_view()[1]);
    let key = trim_chars(parts[0].as_slice());
    let value = trim_chars(parts[1].as_slice());
    Ok((key, value))
}

/// The header table of a list of header lines: lines that are no header are
/// skipped, and a later line overrides an earlier one of the same name.
pub open spec fn headers_from_lines(lines: Seq<Seq<char>>) -> Map<Seq<char>, Seq<char>>
    decreases lines.len(),
{
    if lines.len() == 0 {
        Map::empty()
    } else {
        let earlier = headers_from_lines(lines.drop_last());
        match spec_parse_header(lines.last()) {
            Some((k, v)) => earlier.insert(k, v),
            None => earlier,
        }
    }
}

/// Line break of the protocol.
pub open spec fn crlf() -> Seq<char> {
    seq!['\r', '\n']
}

/// The header table of a block of CRLF-separated lines.
pub open spec fn spec_parse_headers(text: Seq<char>) -> Map<Seq<char>, Seq<char>> {
    headers_from_lines(split(text, crlf()))
}

/// The header table of a block of header lines.
pub fn parse_headers(text: &[char]) -> (headers: StringMap<String>)
    ensures
        headers@ == spec_parse_headers(text@),
{
    let sep = ['\r', '\n'];
    assert(sep@ =~= crlf());
    let lines = split_chars(text, &sep);
    let ghost all = lines.deep_view();
    let mut headers: StringMap<String> = StringMap::new();
    let mut i: usize = 0;
    while i < lines.len()
        invariant
            i <= lines@.len(),
            all == lines.deep_view(),
            headers@ == headers_from_lines(all.take(i as int)),
        decreases lines.len() - i,
    {
        assert(all.take(i + 1).drop_last() =~= all.take(i as int));
        assert(lines[i as int]@ == all[i as int]);
        match parse_header(lines[i].as_slice()) {
            Ok((k, v)) => {
                headers.insert(from_chars(k.as_slice()), from_chars(v.as_slice()));
            },
            Err(_) => {},
        }
        i = i + 1;
    }
    assert(all.take(lines@.len() as int) =~= all);
    headers
}

/// `vec` split around the first occurrence of `splitter`: the first piece
/// of splitting it, and what follows that piece and the splitter, where
/// it is that long.
pub fn split_vec_u8_once<'a, 'b>(vec: &'a [u8], splitter: &'b [u8]) -> (parts: Option<(&'a [u8], &'a [u8])>)
    ensures
        match parts {
            Some((a, b)) => split_once(vec@, splitter@) == Some((a@, b@)),
            None => split_once(vec@, splitter@) is None,
        },
{
    if splitter.len() == 0 {
        proof {
            assert(vec@.subrange(0, 0) =~= splitter@);
            assert(occurs_at(vec@, splitter@, 0));
            crate::seqs::lemma_find_unique(vec@, splitter@, 0);
            assert(vec@.subrange(0, vec@.len() as int) =~= vec@);
        }
        return Some((slice_subrange(vec, 0, 0), vec));
    }
    let pieces = split_str_pieces(vec, splitter);
    proof {
        crate::seqs::lemma_split_first(vec@, splitter@);
        crate::seqs::lemma_find_from(vec@, splitter@, 0);
        assert(pieces[0]@ == pieces.deep_view()[0]);
    }
    let first_len = pieces[0].len();
    if vec.len() - first_len < splitter.len() {
        return None;
    }
    let first = slice_subrange(vec, 0, first_len);
    let rest = slice_subrange(vec, first_len + splitter.len(), vec.len());
    Some((first, rest))
}

/// The blank line that ends the head of a request.
pub open spec fn crlfcrlf() -> Seq<u8> {
    seq![13u8, 10u8, 13u8, 10u8]
}

/// The head of a message and its body, split at the first blank line; all
/// head and no body where there is none.
pub open spec fn head_and_body(req: Seq<u8>) -> (Seq<u8>, Seq<u8>) {
    match split_once(req, crlfcrlf()) {
        Some(p) => p,
        None => (req, Seq::empty()),
    }
}

/// The first line of a text and the rest after its line break.
pub open spec fn first_line_and_rest(text: Seq<char>) -> (Seq<char>, Seq<char>) {
    match split_once(text, crlf()) {
        Some(p) => p,
        None => (text, Seq::empty()),
    }
}

/// The request that the bytes `req` make up.
pub open spec fn spec_internal_parse(req: Seq<u8>) -> Result<RequestModel, HttpParseError> {
    let (head, body) = head_and_body(req);
    let (first, rest) = first_line_and_rest(lossy_text(head));
    match spec_parse_first_line(first) {
        Err(e) => Err(e),
        Ok((m, p, v)) => Ok(
            RequestModel {
                method: m,
                path: p,
                http_version: v,
                headers: spec_parse_headers(rest),
                body: if body.len() > 0 {
                    Some(body)
                } else {
                    None
                },
            },
        ),
    }
}

fn head_body(req: &[u8]) -> (parts: (&[u8], &[u8]))
    ensures
        head_and_body(req@) == (parts.0@, parts.1@),
{
    let sep: [u8; 4] = [13, 10, 13, 10];
    assert(sep@ =~= crlfcrlf());
    match split_vec_u8_once(req, &sep) {
        Some(p) => p,
        None => {
            let none = slice_subrange(req, 0, 0);
            assert(none@ =~= Seq::<u8>::empty());
            (req, none)
        },
    }
}

/// Parses a whole request held in memory.
pub fn internal_parse(req: &[u8]) -> (result: Result<Request, HttpParseError>)
    ensures
        match result {
            Ok(r) => spec_internal_parse(req@) == Ok::<RequestModel, HttpParseError>(r@),
            Err(e) => spec_internal_parse(req@) == Err::<RequestModel, HttpParseError>(e),
        },
{
    let (head, body) = head_body(req);
    let head_text = utf8_lossy(head);
    let head_chars = to_chars(head_text.as_str());
    let sep = ['\r', '\n'];
    assert(sep@ =~= crlf());
    let (first, rest) = match split_once_chars(head_chars.as_slice(), &sep) {
        Some(p) => p,
        None => (head_chars, Vec::new()),
    };
    assert(first_line_and_rest(head_text@) == (first@, rest@));
    let (method, path, http_version) = parse_first_line(first.as_slice())?;
    let headers = parse_headers(rest.as_slice());
    let body = if body.len() > 0 {
        Some(slice_to_vec(body))
    } else {
        None
    };
    let request = Request { method, path, http_version, headers, body };
    assert(request@ == spec_internal_parse(req@)->Ok_0);
    Ok(request)
}

/// The pieces of `s` between the occurrences of the non-empty `pat`, as
/// bstr's `split_str` yields them.
pub fn split_bytes(s: &[u8], pat: &[u8]) -> (pieces: Vec<Vec<u8>>)
    requires
        pat@.len() > 0,
    ensures
        pieces.deep_view() == split(s@, pat@),
{
    split_str_pieces(s, pat)
}

/// Where `remove_quotes` would index a string at a byte that is no character
/// boundary: its first character, or (after an opening quote) its last, is
/// not ASCII.
pub open spec fn quotes_panic(s: Seq<char>) -> bool {
    ||| (s.len() >= 1 && s[0] > '\u{7f}')
    ||| (s.len() >= 2 && s[0] == '"' && s.last() > '\u{7f}')
}

/// `s` without one pair of enclosing double quotes.
pub open spec fn spec_remove_quotes(s: Seq<char>) -> Seq<char> {
    if s.len() >= 2 && s[0] == '"' && s.last() == '"' {
        s.subrange(1, s.len() - 1)
    } else {
        s
    }
}

fn quotes_would_panic(s: &[char]) -> (panics: bool)
    ensures
        panics == quotes_panic(s@),
{
    (s.len() >= 1 && s[0] > '\u{7f}') || (s.len() >= 2 && s[0] == '"' && s[s.len() - 1] > '\u{7f}')
}

fn remove_quotes(string: &[char]) -> (inner: Vec<char>)
    requires
        !quotes_panic(string@),
    ensures
        inner@ == spec_remove_quotes(string@),
{
    let len = string.len();
    if len >= 2 && string[0] == '"' && string[len - 1] == '"' {
        return slice_to_vec(slice_subrange(string, 1, len - 1));
    }
    slice_to_vec(string)
}

/// The name and optional value of one `;`-separated item: the trimmed item
/// split at its first `=`, the value without enclosing quotes.
pub open spec fn semicolon_entry(piece: Seq<char>) -> (Seq<char>, Option<Seq<char>>) {
    let t = trim(piece);
    match split_once(t, seq!['=']) {
        Some((k, v)) => (k, Some(spec_remove_quotes(v))),
        None => (t, None),
    }
}

/// Whether reading the item panics in `remove_quotes`.
pub open spec fn semicolon_entry_panics(piece: Seq<char>) -> bool {
    match split_once(trim(piece), seq!['=']) {
        Some((k, v)) => quotes_panic(v),
        None => false,
    }
}

/// The table of a list of items, a later item overriding an earlier one.
pub open spec fn semicolon_map(pieces: Seq<Seq<char>>) -> Map<Seq<char>, Option<Seq<char>>>
    decreases pieces.len(),
{
    if pieces.len() == 0 {
        Map::empty()
    } else {
        let e = semicolon_entry(pieces.last());
        semicolon_map(pieces.drop_last()).insert(e.0, e.1)
    }
}

/// The table that `parse_semicolon_list` makes of a text.
pub open spec fn spec_parse_semicolon_list(s: Seq<char>) -> Map<Seq<char>, Option<Seq<char>>> {
    semicolon_map(split(s, seq![';']))
}

/// Where `parse_semicolon_list` panics.
pub open spec fn semicolon_list_panics(s: Seq<char>) -> bool {
    exists|i: int| 0 <= i < split(s, seq![';']).len() && semicolon_entry_panics(#[trigger] split(s, seq![';'])[i])
}

/// The semicolon list of `s`, or `None` where reading it would panic.
fn checked_semicolon_list(s: &[char]) -> (list: Option<StringMap<Option<String>>>)
    ensures
        list is None <==> semicolon_list_panics(s@),
        list matches Some(m) ==> m@ == spec_parse_semicolon_list(s@),
{
    let semi = [';'];
    assert(semi@ =~= seq![';']);
    let eq = ['='];
    assert(eq@ =~= seq!['=']);
    let pieces = split_chars(s, &semi);
    let ghost all = pieces.deep_view();
    let mut list: StringMap<Option<String>> = StringMap::new();
    let mut i: usize = 0;
    while i < pieces.len()
        invariant
            i <= pieces@.len(),
            all == pieces.deep_view(),
            all == split(s@, seq![';']),
            eq@ == seq!['='],
            list@ == semicolon_map(all.take(i as int)),
            forall|j: int| 0 <= j < i ==> !semicolon_entry_panics(#[trigger] all[j]),
        decreases pieces.len() - i,
    {
        assert(all.take(i + 1).drop_last() =~= all.take(i as int));
        assert(pieces[i as int]@ == all[i as int]);
        let t = trim_chars(pieces[i].as_slice());
        match split_once_chars(t.as_slice(), &eq) {
            Some((k, v)) => {
                if quotes_would_panic(v.as_slice()) {
                    assert(semicolon_entry_panics(all[i as int]));
                    return None;
                }
                let inner = remove_quotes(v.as_slice());
                list.insert(from_chars(k.as_slice()), Some(from_chars(inner.as_slice())));
            },
            None => {
                list.insert(from_chars(t.as_slice()), None);
            },
        }
        i = i + 1;
    }
    assert(all.take(pieces@.len() as int) =~= all);
    Some(list)
}

/// The items of a `;`-separated parameter list such as a `Content-Type`
/// value: each trimmed item split at its first `=` into a name and a value
/// without enclosing quotes, or a bare name without a value.
pub fn parse_semicolon_list(string: &str) -> (list: StringMap<Option<String>>)
    requires
        !semicolon_list_panics(string@),
    ensures
        list@ == spec_parse_semicolon_list(string@),
{
    let chars = to_chars(string);
    match checked_semicolon_list(chars.as_slice()) {
        Some(list) => list,
        None => StringMap::new(),
    }
}

/// Law: a parameter written `name="value"` (the name not starting with
/// white space and holding neither `;` nor `=`, the value no `;`) is read
/// without panic as the one item `name` with `value`, its quotes removed.
pub proof fn quoted_parameter_read_back(name: Seq<char>, value: Seq<char>)
    requires
        name.len() > 0,
        !crate::chars::is_space(name[0]),
        free_of(name, ';'),
        free_of(name, '='),
        free_of(value, ';'),
    ensures
        !semicolon_list_panics(name + seq!['=', '"'] + value + seq!['"']),
        spec_parse_semicolon_list(name + seq!['=', '"'] + value + seq!['"']) == Map::<
            Seq<char>,
            Option<Seq<char>>,
        >::empty().insert(name, Some(value)),
{
    let eq = seq!['='];
    let quoted = seq!['"'] + value + seq!['"'];
    let text = name + seq!['=', '"'] + value + seq!['"'];
    assert(text =~= name + eq + quoted);
    assert(!text.contains(';')) by {
        assert forall|j: int| 0 <= j < text.len() implies text[j] != ';' by {
            if j < name.len() {
                assert(text[j] == name[j]);
            } else if name.len() + 1 < j < text.len() - 1 {
                assert(text[j] == value[j - name.len() - 2]);
            }
        }
    }
    crate::seqs::lemma_split_none(text, ';');
    assert(text[0] == name[0]);
    assert(crate::chars::trim_start(text) == text);
    assert(crate::chars::trim_end(text) == text);
    assert forall|j: int| 0 <= j < name.len() implies !occurs_at(#[trigger] (name + eq + quoted), eq, j) by {
        if occurs_at(name + eq + quoted, eq, j) {
            assert((name + eq + quoted).subrange(j, j + 1)[0] == '=');
            assert((name + eq + quoted)[j] == name[j]);
        }
    }
    crate::seqs::lemma_find_after(name, eq, quoted);
    assert(text.subrange(0, name.len() as int) =~= name);
    assert(text.subrange(name.len() + 1int, text.len() as int) =~= quoted);
    assert(split_once(text, eq) == Some((name, quoted)));
    assert(quoted.subrange(1, quoted.len() - 1) =~= value);
    assert(spec_remove_quotes(quoted) == value);
    assert(!quotes_panic(quoted));
    assert(semicolon_entry(text) == (name, Some(value)));
    let pieces = seq![text];
    assert(pieces.drop_last() =~= Seq::<Seq<char>>::empty());
    assert(semicolon_map(pieces) == semicolon_map(pieces.drop_last()).insert(name, Some(value)));
    assert(!semicolon_entry_panics(text));
}

/// The fields of a URL-encoded form: `&`-separated `name=value` pairs, items
/// without `=` skipped, a later field overriding an earlier one.
pub open spec fn form_fields(pieces: Seq<Seq<char>>) -> Map<Seq<char>, Seq<char>>
    decreases pieces.len(),
{
    if pieces.len() == 0 {
        Map::empty()
    } else {
        let earlier = form_fields(pieces.drop_last());
        match split_once(pieces.last(), seq!['=']) {
            Some((k, v)) => earlier.insert(k, v),
            None => earlier,
        }
    }
}

/// The form that a request body holds, if there is a body.
pub open spec fn spec_parse_form(body: Option<Seq<u8>>) -> Option<Map<Seq<char>, Seq<char>>> {
    match body {
        Some(b) => Some(form_fields(split(lossy_text(b), seq!['&']))),
        None => None,
    }
}

/// The text of a URL-encoded form: the fields written `name=value` and
/// joined by `&`.
pub open spec fn form_text(fields: Seq<(Seq<char>, Seq<char>)>) -> Seq<char> {
    crate::seqs::join(fields.map_values(|f: (Seq<char>, Seq<char>)| f.0 + seq!['='] + f.1), seq!['&'])
}

/// A field whose name holds neither `=` nor `&` and whose value holds no `&`.
pub open spec fn plain_field(f: (Seq<char>, Seq<char>)) -> bool {
    free_of(f.0, '=') && free_of(f.0, '&') && free_of(f.1, '&')
}

proof fn lemma_form_fields_read_back(fields: Seq<(Seq<char>, Seq<char>)>)
    requires
        forall|i: int| 0 <= i < fields.len() ==> plain_field(#[trigger] fields[i]),
    ensures
        form_fields(fields.map_values(|f: (Seq<char>, Seq<char>)| f.0 + seq!['='] + f.1)) == headers_map(fields),
    decreases fields.len(),
{
    let lines = fields.map_values(|f: (Seq<char>, Seq<char>)| f.0 + seq!['='] + f.1);
    if fields.len() > 0 {
        let rest = fields.drop_last();
        assert(lines.drop_last() =~= rest.map_values(|f: (Seq<char>, Seq<char>)| f.0 + seq!['='] + f.1));
        assert forall|i: int| 0 <= i < rest.len() implies plain_field(#[trigger] rest[i]) by {
            assert(rest[i] == fields[i]);
        }
        lemma_form_fields_read_back(rest);
        let f = fields.last();
        assert(plain_field(fields[fields.len() - 1]));
        assert(lines.last() == f.0 + seq!['='] + f.1);
        crate::seqs::lemma_split_once_at(f.0, '=', f.1);
    }
}

/// Law: a URL-encoded form body written from a list of fields, no name
/// holding `=` or `&` and no value `&`, is read back as the table of those
/// fields, a later field overriding an earlier one of the same name.
pub proof fn form_round_trip(fields: Seq<(Seq<char>, Seq<char>)>)
    requires
        forall|i: int| 0 <= i < fields.len() ==> plain_field(#[trigger] fields[i]),
    ensures
        spec_parse_form(Some(encode_utf8(form_text(fields)))) == Some(headers_map(fields)),
{
    let text = form_text(fields);
    vstd::utf8::encode_utf8_valid_utf8(text);
    vstd::utf8::encode_utf8_decode_utf8(text);
    assert(lossy_text(encode_utf8(text)) == text);
    let lines = fields.map_values(|f: (Seq<char>, Seq<char>)| f.0 + seq!['='] + f.1);
    if fields.len() == 0 {
        assert(text =~= Seq::<char>::empty());
        crate::seqs::lemma_split_none(text, '&');
        let empty = Seq::<char>::empty();
        crate::seqs::lemma_split_once_free(empty, '=');
        assert(seq![empty].drop_last() =~= Seq::<Seq<char>>::empty());
        assert(seq![empty].last() == empty);
        assert(form_fields(seq![empty]) == form_fields(Seq::<Seq<char>>::empty()));
    } else {
        assert forall|i: int| 0 <= i < lines.len() implies free_of(#[trigger] lines[i], '&') by {
            let f = fields[i];
            assert(plain_field(f));
            let line = f.0 + seq!['='] + f.1;
            assert(lines[i] == line);
            assert forall|j: int| 0 <= j < line.len() implies line[j] != '&' by {
                if j < f.0.len() {
                    assert(line[j] == f.0[j]);
                } else if j > f.0.len() {
                    assert(line[j] == f.1[j - f.0.len() - 1]);
                }
            }
        }
        crate::seqs::lemma_split_join(lines, '&');
        lemma_form_fields_read_back(fields);
    }
}

/// The headers, part and name of one part of a multipart body: the part's
/// head and content split at its blank line, its headers parsed, and its
/// name taken from the `name` parameter of `Content-Disposition`; the
/// header table loses any header called `name`.
pub open spec fn multipart_part(part: Seq<u8>) -> Option<(Seq<char>, (Map<Seq<char>, Seq<char>>, Seq<u8>))> {
    match split_once(part, crlfcrlf()) {
        None => None,
        Some((h, v)) => {
            let headers = spec_parse_headers(lossy_text(h));
            if headers.contains_key("Content-Disposition"@) {
                let cd = spec_parse_semicolon_list(headers["Content-Disposition"@]);
                if cd.contains_key("name"@) {
                    match cd["name"@] {
                        Some(name) => Some((name, (headers.remove("name"@), v))),
                        None => None,
                    }
                } else {
                    None
                }
            } else {
                None
            }
        },
    }
}

/// Where reading a part panics.
pub open spec fn multipart_part_panics(part: Seq<u8>) -> bool {
    match split_once(part, crlfcrlf()) {
        None => false,
        Some((h, v)) => {
            let headers = spec_parse_headers(lossy_text(h));
            headers.contains_key("Content-Disposition"@) && semicolon_list_panics(
                headers["Content-Disposition"@],
            )
        },
    }
}

/// The fields of a list of parts, a later part overriding an earlier one.
pub open spec fn multipart_fields(parts: Seq<Seq<u8>>) -> Map<Seq<char>, (Map<Seq<char>, Seq<char>>, Seq<u8>)>
    decreases parts.len(),
{
    if parts.len() == 0 {
        Map::empty()
    } else {
        let earlier = multipart_fields(parts.drop_last());
        match multipart_part(parts.last()) {
            Some((name, entry)) => earlier.insert(name, entry),
            None => earlier,
        }
    }
}

/// The boundary that separates the parts: `--` and the `boundary` parameter
/// of the `Content-Type` header, as UTF-8.
pub open spec fn multipart_boundary(headers: Map<Seq<char>, Seq<char>>) -> Option<Seq<u8>> {
    if headers.contains_key("Content-Type"@) {
        let ct = spec_parse_semicolon_list(headers["Content-Type"@]);
        if ct.contains_key("boundary"@) {
            match ct["boundary"@] {
                Some(b) => Some(encode_utf8("--"@ + b)),
                None => None,
            }
        } else {
            None
        }
    } else {
        None
    }
}

/// The multipart form that a request holds: its body split at the boundary,
/// each part that has a name read as a field.
pub open spec fn spec_parse_multipart_form(req: RequestModel) -> Option<Map<Seq<char>, (Map<Seq<char>, Seq<char>>, Seq<u8>)>> {
    match multipart_boundary(req.headers) {
        None => None,
        Some(b) => match req.body {
            None => None,
            Some(body) => Some(multipart_fields(split(body, b))),
        },
    }
}

/// Where reading the multipart form of a request panics.
pub open spec fn multipart_panics(req: RequestModel) -> bool {
    ||| (req.headers.contains_key("Content-Type"@) && semicolon_list_panics(req.headers["Content-Type"@]))
    ||| (multipart_boundary(req.headers) matches Some(b) && req.body matches Some(body) && exists|i: int|
        0 <= i < split(body, b).len() && multipart_part_panics(#[trigger] split(body, b)[i]))
}

/// The multipart form contents as a map of plain values.
pub open spec fn form_view(form: Option<StringMap<MultipartFormEntry>>) -> Option<Map<Seq<char>, (Map<Seq<char>, Seq<char>>, Seq<u8>)>> {
    match form {
        Some(f) => Some(f@),
        None => None,
    }
}

/// One part read as a named field; `None` where reading it would panic.
fn checked_part(part: &[u8]) -> (field: Option<Option<(String, MultipartFormEntry)>>)
    ensures
        field is None <==> multipart_part_panics(part@),
        field matches Some(f) ==> match f {
            Some((name, entry)) => multipart_part(part@) == Some((name@, entry.deep_view())),
            None => multipart_part(part@) is None,
        },
{
    let sep: [u8; 4] = [13, 10, 13, 10];
    assert(sep@ =~= crlfcrlf());
    match split_vec_u8_once(part, &sep) {
        None => Some(None),
        Some((h, v)) => {
            let text = utf8_lossy(h);
            let text_chars = to_chars(text.as_str());
            let mut headers = parse_headers(text_chars.as_slice());
            let cd_chars = match headers.get("Content-Disposition") {
                None => {
                    return Some(None);
                },
                Some(cd) => to_chars(cd.as_str()),
            };
            match checked_semicolon_list(cd_chars.as_slice()) {
                None => None,
                Some(list) => match list.get("name") {
                    Some(Some(name)) => {
                        let name = name.clone();
                        headers.remove("name");
                        let entry = MultipartFormEntry { headers, field_value: slice_to_vec(v) };
                        Some(Some((name, entry)))
                    },
                    _ => Some(None),
                },
            }
        },
    }
}

impl Request {
    /// The fields of a URL-encoded form body, if there is a body.
    pub fn parse_form(&self) -> (form: Option<StringMap<String>>)
        ensures
            match form {
                Some(f) => spec_parse_form(self@.body) == Some(f@),
                None => spec_parse_form(self@.body) is None,
            },
    {
        match &self.body {
            None => None,
            Some(bytes) => {
                let text = utf8_lossy(bytes.as_slice());
                let chars = to_chars(text.as_str());
                let amp = ['&'];
                assert(amp@ =~= seq!['&']);
                let eq = ['='];
                assert(eq@ =~= seq!['=']);
                let pieces = split_chars(chars.as_slice(), &amp);
                let ghost all = pieces.deep_view();
                let mut fields: StringMap<String> = StringMap::new();
                let mut i: usize = 0;
                while i < pieces.len()
                    invariant
                        i <= pieces@.len(),
                        all == pieces.deep_view(),
                        eq@ == seq!['='],
                        fields@ == form_fields(all.take(i as int)),
                    decreases pieces.len() - i,
                {
                    assert(all.take(i + 1).drop_last() =~= all.take(i as int));
                    assert(pieces[i as int]@ == all[i as int]);
                    match split_once_chars(pieces[i].as_slice(), &eq) {
                        Some((k, v)) => {
                            fields.insert(from_chars(k.as_slice()), from_chars(v.as_slice()));
                        },
                        None => {},
                    }
                    i = i + 1;
                }
                assert(all.take(pieces@.len() as int) =~= all);
                Some(fields)
            },
        }
    }

    /// The multipart form of the request, or `None` where reading it would
    /// panic (a parameter value whose first or last character is not ASCII).
    pub fn checked_parse_multipart_form(&self) -> (form: Option<Option<StringMap<MultipartFormEntry>>>)
        ensures
            form is None <==> multipart_panics(self@),
            form matches Some(f) ==> form_view(f) == spec_parse_multipart_form(self@),
    {
        let ct_chars = match self.headers.get("Content-Type") {
            None => {
                return Some(None);
            },
            Some(ct) => to_chars(ct.as_str()),
        };
        let ct_list = match checked_semicolon_list(ct_chars.as_slice()) {
            None => {
                return None;
            },
            Some(l) => l,
        };
        let mut text = String::from_str("--");
        match ct_list.get("boundary") {
            Some(Some(b)) => {
                text.append(b.as_str());
            },
            _ => {
                return Some(None);
            },
        }
        let boundary = slice_to_vec(text.as_str().as_bytes());
        proof {
            reveal_strlit("--");
            assert(text@[0] == '-');
            assert(encode_utf8(text@).len() > 0) by {
                vstd::utf8::is_ascii_chars_encode_utf8(seq!['-']);
                assert(text@ =~= seq!['-'] + text@.drop_first());
            }
        }
        let bytes = match &self.body {
            None => {
                return Some(None);
            },
            Some(bytes) => bytes,
        };
        let parts = split_bytes(bytes.as_slice(), boundary.as_slice());
        let ghost all = parts.deep_view();
        assert(multipart_boundary(self@.headers) == Some(boundary@));
        assert(self@.body == Some(bytes@));
        let mut fields: StringMap<MultipartFormEntry> = StringMap::new();
        let mut i: usize = 0;
        while i < parts.len()
            invariant
                i <= parts@.len(),
                all == parts.deep_view(),
                fields@ == multipart_fields(all.take(i as int)),
                forall|j: int| 0 <= j < i ==> !multipart_part_panics(#[trigger] all[j]),
                all == split(bytes@, boundary@),
                multipart_boundary(self@.headers) == Some(boundary@),
                self@.body == Some(bytes@),
                !(self@.headers.contains_key("Content-Type"@) && semicolon_list_panics(self@.headers["Content-Type"@])),
            decreases parts.len() - i,
        {
            assert(all.take(i + 1).drop_last() =~= all.take(i as int));
            assert(parts[i as int]@ == all[i as int]);
            match checked_part(parts[i].as_slice()) {
                None => {
                    assert(multipart_part_panics(all[i as int]));
                    return None;
                },
                Some(None) => {},
                Some(Some((name, entry))) => {
                    fields.insert(name, entry);
                },
            }
            i = i + 1;
        }
        assert(all.take(parts@.len() as int) =~= all);
        Some(Some(fields))
    }

    /// The fields of a `multipart/form-data` body, named by the `name`
    /// parameter of each part's `Content-Disposition` header; `None` where
    /// the request has no boundary parameter or no body.
    pub fn parse_multipart_form(&self) -> (form: Option<StringMap<MultipartFormEntry>>)
        requires
            !multipart_panics(self@),
        ensures
            form_view(form) == spec_parse_multipart_form(self@),
    {
        match self.checked_parse_multipart_form() {
            Some(f) => f,
            None => None,
        }
    }
}

/// The name of a protocol version on a request line.
pub open spec fn version_name(v: HttpVersion) -> Seq<char> {
    match v {
        HttpVersion::Http1_1 => "HTTP/1.1"@,
        HttpVersion::Http2_0 => "HTTP/2.0"@,
    }
}

/// The request line of a method, a path and a version.
pub open spec fn request_line(m: Method, path: Seq<char>, v: HttpVersion) -> Seq<char> {
    method_name(m) + " "@ + path + " "@ + version_name(v)
}

proof fn lemma_names_plain(m: Method, v: HttpVersion)
    ensures
        free_of(method_name(m), ' '),
        free_of(version_name(v), ' '),
        free_of(method_name(m), '\r'),
        free_of(version_name(v), '\r'),
        free_of(method_name(m), ':'),
        free_of(version_name(v), ':'),
        " "@ == seq![' '],
        spec_get_http_version(Some(version_name(v))) == Ok::<HttpVersion, HttpParseError>(v),
{
    reveal_strlit("GET");
    reveal_strlit("POST");
    reveal_strlit("PUT");
    reveal_strlit("HEAD");
    reveal_strlit("DELETE");
    reveal_strlit("OPTIONS");
    reveal_strlit("PATCH");
    reveal_strlit("HTTP/1.1");
    reveal_strlit("HTTP/2.0");
    reveal_strlit(" ");
    assert(" "@ =~= seq![' ']);
    if v == HttpVersion::Http2_0 {
        assert(version_name(v)[5] == '2');
        assert(version_name(v) != "HTTP/1.1"@);
    }
}

/// A header line as a client writes it: `name: value`.
pub open spec fn request_header(h: (Seq<char>, Seq<char>)) -> Seq<char> {
    h.0 + ": "@ + h.1
}

/// The header lines of a request, each after a line break.
pub open spec fn header_block(headers: Seq<(Seq<char>, Seq<char>)>) -> Seq<char>
    decreases headers.len(),
{
    if headers.len() == 0 {
        Seq::empty()
    } else {
        header_block(headers.drop_last()) + crlf() + request_header(headers.last())
    }
}

/// The head of a request: its request line, then its header lines.
pub open spec fn request_head(m: Method, path: Seq<char>, v: HttpVersion, headers: Seq<(Seq<char>, Seq<char>)>) -> Seq<char> {
    request_line(m, path, v) + header_block(headers)
}

/// The table a list of headers makes, a later header overriding an earlier one.
pub open spec fn headers_map(headers: Seq<(Seq<char>, Seq<char>)>) -> Map<Seq<char>, Seq<char>>
    decreases headers.len(),
{
    if headers.len() == 0 {
        Map::empty()
    } else {
        headers_map(headers.drop_last()).insert(headers.last().0, headers.last().1)
    }
}

/// A header that is read back as written: name and value without colon or
/// carriage return, and without white space around them.
pub open spec fn plain_header(h: (Seq<char>, Seq<char>)) -> bool {
    &&& free_of(h.0, ':')
    &&& free_of(h.1, ':')
    &&& free_of(h.0, '\r')
    &&& free_of(h.1, '\r')
    &&& trim(h.0) == h.0
    &&& trim(h.1) == h.1
}

/// Each carriage return is followed by a line feed and then by something
/// other than a carriage return.
pub open spec fn lone_line_breaks(t: Seq<char>) -> bool {
    forall|j: int|
        0 <= j < t.len() && #[trigger] t[j] == '\r' ==> j + 2 < t.len() && t[j + 1] == '\n' && t[j + 2] != '\r'
}

proof fn lemma_request_header_plain(h: (Seq<char>, Seq<char>))
    requires
        plain_header(h),
    ensures
        free_of(request_header(h), '\r'),
        request_header(h).len() >= 2,
        request_header(h)[0] != '\r',
        spec_parse_header(request_header(h)) == Some((h.0, h.1)),
{
    reveal_strlit(": ");
    let cs = seq![':', ' '];
    assert(": "@ =~= cs);
    let line = request_header(h);
    let (k, v) = h;
    assert(line =~= k + cs + v);
    assert forall|j: int| 0 <= j < line.len() implies line[j] != '\r' by {
        if j < k.len() {
            assert(line[j] == k[j]);
        } else if j >= k.len() + 2 {
            assert(line[j] == v[j - k.len() - 2]);
        }
    }
    let sp_v = seq![' '] + v;
    assert(line =~= k + seq![':'] + sp_v);
    assert(free_of(sp_v, ':')) by {
        assert forall|j: int| 0 <= j < sp_v.len() implies sp_v[j] != ':' by {
            if j > 0 {
                assert(sp_v[j] == v[j - 1]);
            }
        }
    }
    crate::seqs::lemma_split_none(sp_v, ':');
    crate::seqs::lemma_split_prefix(k, ':', sp_v);
    let parts = split(line, seq![':']);
    assert(parts =~= seq![k, sp_v]);
    assert(sp_v.drop_first() =~= v);
    assert(crate::chars::trim_start(sp_v) == crate::chars::trim_start(v));
}

proof fn lemma_headers_read_back(headers: Seq<(Seq<char>, Seq<char>)>)
    requires
        forall|i: int| 0 <= i < headers.len() ==> plain_header(#[trigger] headers[i]),
    ensures
        headers_from_lines(headers.map_values(|h: (Seq<char>, Seq<char>)| request_header(h))) == headers_map(headers),
    decreases headers.len(),
{
    let lines = headers.map_values(|h: (Seq<char>, Seq<char>)| request_header(h));
    if headers.len() > 0 {
        assert(lines.drop_last() =~= headers.drop_last().map_values(|h: (Seq<char>, Seq<char>)| request_header(h)));
        assert forall|i: int| 0 <= i < headers.drop_last().len() implies plain_header(#[trigger] headers.drop_last()[i]) by {
            assert(headers.drop_last()[i] == headers[i]);
        }
        lemma_headers_read_back(headers.drop_last());
        assert(plain_header(headers.last()));
        lemma_request_header_plain(headers.last());
        assert(lines.last() == request_header(headers.last()));
    }
}

proof fn lemma_header_block_join(headers: Seq<(Seq<char>, Seq<char>)>)
    requires
        headers.len() >= 1,
    ensures
        header_block(headers) == crlf() + crate::seqs::join(headers.map_values(|h: (Seq<char>, Seq<char>)| request_header(h)), crlf()),
    decreases headers.len(),
{
    let lines = headers.map_values(|h: (Seq<char>, Seq<char>)| request_header(h));
    if headers.len() == 1 {
        assert(headers.drop_last() =~= Seq::<(Seq<char>, Seq<char>)>::empty());
        assert(header_block(headers.drop_last()) == Seq::<char>::empty());
        assert(lines[0] == request_header(headers[0]));
        assert(header_block(headers) =~= crlf() + lines[0]);
    } else {
        lemma_header_block_join(headers.drop_last());
        assert(lines.drop_last() =~= headers.drop_last().map_values(|h: (Seq<char>, Seq<char>)| request_header(h)));
        assert(lines.last() == request_header(headers.last()));
        assert(header_block(headers) =~= crlf() + crate::seqs::join(lines, crlf()));
    }
}

proof fn lemma_head_line_breaks(line: Seq<char>, headers: Seq<(Seq<char>, Seq<char>)>)
    requires
        free_of(line, '\r'),
        forall|i: int| 0 <= i < headers.len() ==> plain_header(#[trigger] headers[i]),
    ensures
        lone_line_breaks(line + header_block(headers)),
    decreases headers.len(),
{
    if headers.len() > 0 {
        assert forall|i: int| 0 <= i < headers.drop_last().len() implies plain_header(#[trigger] headers.drop_last()[i]) by {
            assert(headers.drop_last()[i] == headers[i]);
        }
        lemma_head_line_breaks(line, headers.drop_last());
        let t = line + header_block(headers.drop_last());
        let r = request_header(headers.last());
        assert(plain_header(headers.last()));
        lemma_request_header_plain(headers.last());
        let t2 = t + crlf() + r;
        assert(line + header_block(headers) =~= t2);
        assert forall|j: int| 0 <= j < t2.len() && #[trigger] t2[j] == '\r' implies j + 2 < t2.len() && t2[j + 1] == '\n'
            && t2[j + 2] != '\r' by {
            if j < t.len() {
                assert(t2[j] == t[j]);
                assert(t[j] == '\r');
                assert(t2[j + 1] == t[j + 1]);
                assert(t2[j + 2] == t[j + 2]);
            } else if j == t.len() {
                assert(t2[j + 1] == '\n');
                assert(t2[j + 2] == r[0]);
            } else if j == t.len() + 1 {
                assert(t2[j] == '\n');
            } else {
                assert(t2[j] == r[j - t.len() - 2]);
            }
        }
    } else {
        assert(line + header_block(headers) =~= line);
    }
}

proof fn lemma_split_join_crlf(lines: Seq<Seq<char>>)
    requires
        lines.len() >= 1,
        forall|i: int| 0 <= i < lines.len() ==> free_of(#[trigger] lines[i], '\r'),
    ensures
        split(crate::seqs::join(lines, crlf()), crlf()) == lines,
    decreases lines.len(),
{
    if lines.len() == 1 {
        assert(free_of(lines[0], '\r'));
        assert forall|j: int| !occurs_at(lines[0], crlf(), j) by {
            if occurs_at(lines[0], crlf(), j) {
                assert(lines[0].subrange(j, j + 2)[0] == '\r');
            }
        }
        crate::seqs::lemma_split_none_pat(lines[0], crlf());
        assert(split(crate::seqs::join(lines, crlf()), crlf()) =~= lines);
    } else {
        lemma_join_front(lines, crlf());
        let a = lines[0];
        let b = crate::seqs::join(lines.drop_first(), crlf());
        assert(free_of(a, '\r'));
        assert forall|j: int| 0 <= j < a.len() implies !occurs_at(#[trigger] (a + crlf() + b), crlf(), j) by {
            if occurs_at(a + crlf() + b, crlf(), j) {
                assert((a + crlf() + b).subrange(j, j + 2)[0] == '\r');
                assert((a + crlf() + b)[j] == a[j]);
            }
        }
        assert forall|i: int| 0 <= i < lines.drop_first().len() implies free_of(#[trigger] lines.drop_first()[i], '\r') by {
            assert(lines.drop_first()[i] == lines[i + 1]);
        }
        lemma_split_join_crlf(lines.drop_first());
        crate::seqs::lemma_split_prefix_pat(a, crlf(), b);
        assert(seq![a] + lines.drop_first() =~= lines);
    }
}

/// The request line of plain words has no carriage return.
proof fn lemma_line_plain(m: Method, path: Seq<char>, v: HttpVersion)
    requires
        free_of(path, '\r'),
    ensures
        free_of(request_line(m, path, v), '\r'),
        request_line(m, path, v) == method_name(m) + seq![' '] + path + seq![' '] + version_name(v),
{
    lemma_names_plain(m, v);
    let line = request_line(m, path, v);
    let mn = method_name(m);
    let vn = version_name(v);
    let sp = seq![' '];
    assert(line =~= mn + sp + path + sp + vn);
    assert forall|j: int| 0 <= j < line.len() implies line[j] != '\r' by {
        if j < mn.len() {
            assert(line[j] == mn[j]);
        } else if j == mn.len() {
        } else if j < mn.len() + 1 + path.len() {
            assert(line[j] == path[j - mn.len() - 1]);
        } else if j == mn.len() + 1 + path.len() {
        } else {
            assert(line[j] == vn[j - mn.len() - 2 - path.len()]);
        }
    }
}

/// Two characters with the same code are the same character.
proof fn lemma_char_code(a: char, b: char)
    requires
        a as u32 == b as u32,
    ensures
        a == b,
{
    vstd::utf8::char_u32_cast(a, a as u32);
    vstd::utf8::char_u32_cast(b, b as u32);
}

/// No blank line starts within the UTF-8 bytes of `t` (followed by a blank
/// line and anything) where none starts within `t` followed by a blank line.
pub proof fn lemma_blank_line_bytes(t: Seq<char>, body: Seq<u8>)
    requires
        forall|j: int| 0 <= j < t.len() ==> !#[trigger] occurs_at(t + crlf() + crlf(), crlf() + crlf(), j),
    ensures
        forall|j: int|
            0 <= j < encode_utf8(t).len() ==> !#[trigger] occurs_at(encode_utf8(t) + crlfcrlf() + body, crlfcrlf(), j),
    decreases t.len(),
{
    let cc = crlf() + crlf();
    let x = crlfcrlf() + body;
    let e = encode_utf8(t);
    if t.len() > 0 {
        let c = t[0];
        let rest = t.drop_first();
        assert forall|j: int| 0 <= j < rest.len() implies !#[trigger] occurs_at(rest + crlf() + crlf(), cc, j) by {
            assert((t + cc).subrange(j + 1, j + 5) =~= (rest + cc).subrange(j, j + 4));
            assert(!occurs_at(t + crlf() + crlf(), cc, j + 1));
            assert(t + crlf() + crlf() =~= t + cc);
            assert(rest + crlf() + crlf() =~= rest + cc);
        }
        lemma_blank_line_bytes(rest, body);
        crate::chars::lemma_char_bytes(c);
        let ec = vstd::utf8::encode_scalar(c as u32);
        let s = e + crlfcrlf() + body;
        let s2 = encode_utf8(rest) + crlfcrlf() + body;
        assert(e == ec + encode_utf8(rest));
        assert(s =~= ec + s2);
        assert(s =~= e + x);
        assert forall|j: int| 0 <= j < e.len() implies !#[trigger] occurs_at(e + crlfcrlf() + body, crlfcrlf(), j) by {
            if occurs_at(s, crlfcrlf(), j) {
                let w = s.subrange(j, j + 4);
                assert(w[0] == 13u8 && w[1] == 10u8 && w[2] == 13u8 && w[3] == 10u8);
                if j >= ec.len() {
                    let k = j - ec.len();
                    assert(s2.subrange(k, k + 4) =~= s.subrange(j, j + 4));
                    assert(occurs_at(encode_utf8(rest) + crlfcrlf() + body, crlfcrlf(), k));
                } else if (c as u32) >= 0x80 {
                    assert(s[j] == ec[j]);
                } else {
                    assert(j == 0);
                    assert(s[0] == c as u8);
                    assert(c as u32 == 13);
                    lemma_char_code(c, '\r');
                    assert(s[1] == 10u8 && s[2] == 13u8 && s[3] == 10u8);
                    let s1 = encode_utf8(rest) + x;
                    assert(s =~= seq![c as u8] + s1);
                    assert(s1[0] == 10u8);
                    crate::chars::lemma_first_ascii_byte(rest, x);
                    if rest.len() == 0 {
                        assert(x[0] == 13u8);
                    } else {
                        let r2 = rest.drop_first();
                        let s3 = encode_utf8(r2) + x;
                        assert(s1 == seq![rest[0] as u8] + s3);
                        crate::chars::lemma_char_bytes(rest[0]);
                        assert(rest[0] as u32 == 10);
                        lemma_char_code(rest[0], '\n');
                        assert(s3[0] == 13u8);
                        crate::chars::lemma_first_ascii_byte(r2, x);
                        if r2.len() == 0 {
                            assert(t =~= seq!['\r', '\n']);
                            assert((t + cc).subrange(0, 4) =~= cc);
                            assert(t + crlf() + crlf() =~= t + cc);
                            assert(occurs_at(t + crlf() + crlf(), cc, 0));
                        } else {
                            let r3 = r2.drop_first();
                            let s4 = encode_utf8(r3) + x;
                            assert(s3 == seq![r2[0] as u8] + s4);
                            crate::chars::lemma_char_bytes(r2[0]);
                            assert(r2[0] as u32 == 13);
                            lemma_char_code(r2[0], '\r');
                            assert(s4[0] == 10u8);
                            crate::chars::lemma_first_ascii_byte(r3, x);
                            if r3.len() == 0 {
                                assert(x[0] == 13u8);
                            } else {
                                crate::chars::lemma_char_bytes(r3[0]);
                                assert(r3[0] as u32 == 10);
                                lemma_char_code(r3[0], '\n');
                                assert(t[1] == rest[0] && t[2] == r2[0] && t[3] == r3[0]);
                                assert((t + cc).subrange(0, 4) =~= cc);
                                assert(t + crlf() + crlf() =~= t + cc);
                                assert(occurs_at(t + crlf() + crlf(), cc, 0));
                            }
                        }
                    }
                }
            }
        }
    }
}

/// The bytes of a written request split at the blank line into the head's
/// bytes and the body, and the head's bytes decode back to the head.
proof fn lemma_request_bytes(
    m: Method,
    path: Seq<char>,
    v: HttpVersion,
    headers: Seq<(Seq<char>, Seq<char>)>,
    body: Seq<u8>,
)
    requires
        free_of(path, '\r'),
        forall|i: int| 0 <= i < headers.len() ==> plain_header(#[trigger] headers[i]),
    ensures
        head_and_body(encode_utf8(request_head(m, path, v, headers)) + crlfcrlf() + body) == (
            encode_utf8(request_head(m, path, v, headers)),
            body,
        ),
        lossy_text(encode_utf8(request_head(m, path, v, headers))) == request_head(m, path, v, headers),
{
    lemma_line_plain(m, path, v);
    let line = request_line(m, path, v);
    lemma_head_line_breaks(line, headers);
    let head = request_head(m, path, v, headers);
    let bl = encode_utf8(head);
    vstd::utf8::encode_utf8_valid_utf8(head);
    vstd::utf8::encode_utf8_decode_utf8(head);
    let s = bl + crlfcrlf() + body;
    let cc = crlf() + crlf();
    assert forall|j: int| 0 <= j < head.len() implies !#[trigger] occurs_at(head + crlf() + crlf(), cc, j) by {
        let t = head + crlf() + crlf();
        if occurs_at(t, cc, j) {
            let w = t.subrange(j, j + 4);
            assert(w[0] == '\r' && w[2] == '\r');
            assert(t[j] == head[j]);
            assert(head[j] == '\r');
            assert(t[j + 2] == head[j + 2]);
        }
    }
    lemma_blank_line_bytes(head, body);
    crate::seqs::lemma_find_after(bl, crlfcrlf(), body);
    assert(s.subrange(0, bl.len() as int) =~= bl);
    assert(s.subrange(bl.len() + 4int, s.len() as int) =~= body);
    assert(head_and_body(s) == (bl, body));
}

/// Law: a request written as its request line (a method, a non-empty path
/// without space or carriage return, a version), header lines
/// `name: value` of plain text, a blank line and a body is parsed back to
/// that method, path, version, header table and body.
pub proof fn request_round_trip(
    m: Method,
    path: Seq<char>,
    v: HttpVersion,
    headers: Seq<(Seq<char>, Seq<char>)>,
    body: Seq<u8>,
)
    requires
        path.len() > 0,
        free_of(path, ' '),
        free_of(path, '\r'),
        forall|i: int| 0 <= i < headers.len() ==> plain_header(#[trigger] headers[i]),
    ensures
        spec_internal_parse(encode_utf8(request_head(m, path, v, headers)) + crlfcrlf() + body) == Ok::<RequestModel, HttpParseError>(
            RequestModel {
                method: m,
                path: path,
                http_version: v,
                headers: headers_map(headers),
                body: if body.len() > 0 {
                    Some(body)
                } else {
                    None
                },
            },
        ),
{
    lemma_names_plain(m, v);
    method_name_round_trip(m);
    let mn = method_name(m);
    let vn = version_name(v);
    let line = request_line(m, path, v);
    let sp = seq![' '];
    assert(line =~= mn + sp + path + sp + vn);
    assert(free_of(line, '\r'));
    let head = request_head(m, path, v, headers);
    lemma_request_bytes(m, path, v, headers, body);
    crate::seqs::lemma_split_none(vn, ' ');
    crate::seqs::lemma_split_prefix(path, ' ', vn);
    crate::seqs::lemma_split_prefix(mn, ' ', path + sp + vn);
    assert(mn + sp + (path + sp + vn) =~= line);
    let words = split(line, sp);
    assert(words =~= seq![mn, path, vn]);
    assert(nth(words, 0) == Some(mn));
    assert(nth(words, 1) == Some(path));
    assert(nth(words, 2) == Some(vn));
    if headers.len() == 0 {
        assert(head =~= line);
        assert forall|j: int| !occurs_at(line, crlf(), j) by {
            if occurs_at(line, crlf(), j) {
                assert(line.subrange(j, j + 2)[0] == '\r');
            }
        }
        crate::seqs::lemma_find_none(line, crlf());
        assert(first_line_and_rest(line) == (line, Seq::<char>::empty()));
        let empty = Seq::<char>::empty();
        assert(empty.subrange(0, 0) =~= empty);
        assert(split(empty, crlf()) =~= seq![empty]);
        assert(split(empty, seq![':']) =~= seq![empty]);
        assert(spec_parse_header(empty) is None);
        let lines = seq![empty];
        assert(lines.drop_last() =~= Seq::<Seq<char>>::empty());
        assert(lines.last() == empty);
        assert(headers_from_lines(lines.drop_last()) == Map::<Seq<char>, Seq<char>>::empty());
        assert(headers_from_lines(lines) == headers_from_lines(lines.drop_last()));
        assert(spec_parse_headers(empty) =~= Map::<Seq<char>, Seq<char>>::empty());
    } else {
        let lines = headers.map_values(|h: (Seq<char>, Seq<char>)| request_header(h));
        let rest = crate::seqs::join(lines, crlf());
        lemma_header_block_join(headers);
        assert(head =~= line + crlf() + rest);
        assert forall|j: int| 0 <= j < line.len() implies !occurs_at(#[trigger] (line + crlf() + rest), crlf(), j) by {
            if occurs_at(line + crlf() + rest, crlf(), j) {
                assert((line + crlf() + rest).subrange(j, j + 2)[0] == '\r');
                assert((line + crlf() + rest)[j] == line[j]);
            }
        }
        crate::seqs::lemma_find_after(line, crlf(), rest);
        assert(head.subrange(0, line.len() as int) =~= line);
        assert(head.subrange(line.len() + 2int, head.len() as int) =~= rest);
        assert(first_line_and_rest(head) == (line, rest));
        assert forall|i: int| 0 <= i < lines.len() implies free_of(#[trigger] lines[i], '\r') by {
            assert(plain_header(headers[i]));
            lemma_request_header_plain(headers[i]);
        }
        lemma_split_join_crlf(lines);
        lemma_headers_read_back(headers);
    }
}

/// The largest body, in bytes, that the server accepts.
pub const MAX_BODY_LEN: usize = 67108864;

/// The declared body length of a request head: the `Content-Length` header
/// (or `_` where there is none), trimmed and read as a `usize`.
pub open spec fn declared_length(headers: Map<Seq<char>, Seq<char>>) -> Option<nat> {
    let text = if headers.contains_key("Content-Length"@) {
        headers["Content-Length"@]
    } else {
        "_"@
    };
    spec_parse_usize(trim(text))
}

/// How many more bytes must be read before a request whose first bytes are
/// `data` is complete: what its declared length exceeds the body received,
/// `RequestTooBig` where that length is over `MAX_BODY_LEN`, and nothing
/// where no length is declared.
pub open spec fn spec_body_bytes_missing(data: Seq<u8>) -> Result<nat, HttpParseError> {
    let (head, body) = head_and_body(data);
    match declared_length(spec_parse_headers(lossy_text(head))) {
        None => Ok(0),
        Some(n) => if n > MAX_BODY_LEN {
            Err(HttpParseError::RequestTooBig)
        } else if n > body.len() {
            Ok((n - body.len()) as nat)
        } else {
            Ok(0)
        },
    }
}

/// The decision `parse` makes after its first read: how many more bytes of
/// body to wait for, or that the request is too big.
pub fn body_bytes_missing(data: &[u8]) -> (missing: Result<usize, HttpParseError>)
    ensures
        match missing {
            Ok(n) => spec_body_bytes_missing(data@) == Ok::<nat, HttpParseError>(n as nat),
            Err(e) => spec_body_bytes_missing(data@) == Err::<nat, HttpParseError>(e),
        },
{
    let (head, body) = head_body(data);
    let text = utf8_lossy(head);
    let chars = to_chars(text.as_str());
    let headers = parse_headers(chars.as_slice());
    let length_text = match headers.get("Content-Length") {
        Some(v) => to_chars(v.as_str()),
        None => to_chars("_"),
    };
    let trimmed = trim_chars(length_text.as_slice());
    match parse_usize(trimmed.as_slice()) {
        None => Ok(0),
        Some(n) => {
            if n > MAX_BODY_LEN {
                Err(HttpParseError::RequestTooBig)
            } else if n > body.len() {
                Ok(n - body.len())
            } else {
                Ok(0)
            }
        },
    }
}

/// Header lines after a line that is no header are read as if it were absent.
proof fn lemma_lines_after_non_header(x: Seq<char>, lines: Seq<Seq<char>>)
    requires
        spec_parse_header(x) is None,
    ensures
        headers_from_lines(seq![x] + lines) == headers_from_lines(lines),
    decreases lines.len(),
{
    let all = seq![x] + lines;
    if lines.len() == 0 {
        assert(all =~= seq![x]);
        assert(all.drop_last() =~= Seq::<Seq<char>>::empty());
        assert(all.last() == x);
        assert(headers_from_lines(all) == headers_from_lines(all.drop_last()));
    } else {
        assert(all.drop_last() =~= seq![x] + lines.drop_last());
        assert(all.last() == lines.last());
        lemma_lines_after_non_header(x, lines.drop_last());
        assert(headers_from_lines(all.drop_last()) == headers_from_lines(lines.drop_last()));
    }
}

/// Law: a written request whose headers give `Content-Length` as the
/// decimal text of `n`, and of which the bytes `received` of body have come
/// in, waits for the rest of those `n` bytes, or is refused as too big
/// where `n` exceeds `MAX_BODY_LEN`.
pub proof fn declared_length_awaited(
    m: Method,
    path: Seq<char>,
    v: HttpVersion,
    headers: Seq<(Seq<char>, Seq<char>)>,
    n: usize,
    received: Seq<u8>,
)
    requires
        free_of(path, '\r'),
        free_of(path, ':'),
        forall|i: int| 0 <= i < headers.len() ==> plain_header(#[trigger] headers[i]),
        headers_map(headers).contains_key("Content-Length"@),
        headers_map(headers)["Content-Length"@] == decimal(n as nat),
    ensures
        spec_body_bytes_missing(encode_utf8(request_head(m, path, v, headers)) + crlfcrlf() + received) == if n
            > MAX_BODY_LEN {
            Err::<nat, HttpParseError>(HttpParseError::RequestTooBig)
        } else if n > received.len() {
            Ok::<nat, HttpParseError>((n - received.len()) as nat)
        } else {
            Ok::<nat, HttpParseError>(0)
        },
{
    lemma_request_bytes(m, path, v, headers, received);
    lemma_line_plain(m, path, v);
    lemma_names_plain(m, v);
    let line = request_line(m, path, v);
    let head = request_head(m, path, v, headers);
    let mn = method_name(m);
    let vn = version_name(v);
    let sp = seq![' '];
    assert(free_of(line, ':')) by {
        assert forall|j: int| 0 <= j < line.len() implies line[j] != ':' by {
            if j < mn.len() {
                assert(line[j] == mn[j]);
            } else if j == mn.len() {
            } else if j < mn.len() + 1 + path.len() {
                assert(line[j] == path[j - mn.len() - 1]);
            } else if j == mn.len() + 1 + path.len() {
            } else {
                assert(line[j] == vn[j - mn.len() - 2 - path.len()]);
            }
        }
    }
    crate::seqs::lemma_split_none(line, ':');
    assert(spec_parse_header(line) is None);
    if headers.len() == 0 {
        assert(head =~= line);
    } else {
        let lines = headers.map_values(|h: (Seq<char>, Seq<char>)| request_header(h));
        let rest = crate::seqs::join(lines, crlf());
        lemma_header_block_join(headers);
        assert(head =~= line + crlf() + rest);
        assert forall|j: int| 0 <= j < line.len() implies !occurs_at(#[trigger] (line + crlf() + rest), crlf(), j) by {
            if occurs_at(line + crlf() + rest, crlf(), j) {
                assert((line + crlf() + rest).subrange(j, j + 2)[0] == '\r');
                assert((line + crlf() + rest)[j] == line[j]);
            }
        }
        assert forall|i: int| 0 <= i < lines.len() implies free_of(#[trigger] lines[i], '\r') by {
            assert(plain_header(headers[i]));
            lemma_request_header_plain(headers[i]);
        }
        lemma_split_join_crlf(lines);
        crate::seqs::lemma_split_prefix_pat(line, crlf(), rest);
        lemma_lines_after_non_header(line, lines);
        lemma_headers_read_back(headers);
        assert(spec_parse_headers(head) == headers_map(headers));
    }
    assert(headers.len() > 0) by {
        if headers.len() == 0 {
            assert(headers_map(headers) == Map::<Seq<char>, Seq<char>>::empty());
        }
    }
    let d = decimal(n as nat);
    crate::numbers::lemma_decimal_parses(n as nat);
    assert(!crate::chars::is_space(d[0]));
    assert(crate::chars::trim_start(d) == d);
    assert(!crate::chars::is_space(d.last()));
    assert(crate::chars::trim_end(d) == d);
    crate::numbers::decimal_round_trip(n);
}

} // verus!
