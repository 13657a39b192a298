//! Multipart form bodies as a client writes them, and what reading them
//! gives back.
use vstd::prelude::*;
use vstd::utf8::encode_utf8;
use crate::chars::{is_space, trim, trim_end, trim_start};
use crate::parse::{
    crlf, crlfcrlf, headers_from_lines, multipart_boundary, multipart_fields, multipart_panics,
    multipart_part, multipart_part_panics, quotes_panic, semicolon_entry, semicolon_entry_panics,
    semicolon_list_panics, semicolon_map, spec_parse_header, spec_parse_headers,
    spec_parse_multipart_form, spec_parse_semicolon_list, spec_remove_quotes,
};
use crate::seqs::{free_of, occurs_at, split, split_once};
use crate::trusted::lossy_text;
use crate::types::RequestModel;

verus! {

/// The `Content-Disposition` value of the form field `name`.
pub open spec fn form_data_disposition(name: Seq<char>) -> Seq<char> {
    "form-data; name=\""@ + name + "\""@
}

/// The header line of a form field's part, after the line break that ends
/// the delimiter.
pub open spec fn disposition_line(name: Seq<char>) -> Seq<char> {
    "Content-Disposition: "@ + form_data_disposition(name)
}

/// The part that carries the field `name`: its header, a blank line and
/// the content.
pub open spec fn form_field_part(name: Seq<char>, content: Seq<u8>) -> Seq<u8> {
    encode_utf8(crlf() + disposition_line(name)) + crlfcrlf() + content
}

/// The line that opens each part: `--` and the boundary.
pub open spec fn multipart_delimiter(boundary: Seq<char>) -> Seq<u8> {
    encode_utf8("--"@ + boundary)
}

/// The `--` after the last delimiter, which closes the body.
pub open spec fn closing_dashes() -> Seq<u8> {
    seq![45u8, 45u8]
}

/// A multipart body of the one field `name`: the delimiter, the part, the
/// delimiter again and the closing `--`.
pub open spec fn one_field_body(boundary: Seq<char>, name: Seq<char>, content: Seq<u8>) -> Seq<u8> {
    multipart_delimiter(boundary) + form_field_part(name, content) + multipart_delimiter(boundary)
        + closing_dashes()
}

/// The UTF-8 encoding is at least as long as the text.
proof fn lemma_encode_len(s: Seq<char>)
    ensures
        encode_utf8(s).len() >= s.len(),
    decreases s.len(),
{
    if s.len() > 0 {
        lemma_encode_len(s.drop_first());
    }
}

/// A text whose ends are not white space trims to itself.
proof fn lemma_trim_plain(t: Seq<char>)
    requires
        t.len() > 0,
        !is_space(t[0]),
        !is_space(t.last()),
    ensures
        trim(t) == t,
{
    assert(trim_start(t) == t);
    assert(trim_end(t) == t);
}

/// One leading space is trimmed away.
proof fn lemma_trim_leading_space(t: Seq<char>)
    requires
        t.len() > 0,
        !is_space(t[0]),
        !is_space(t.last()),
    ensures
        trim(seq![' '] + t) == t,
{
    let s = seq![' '] + t;
    assert(s.drop_first() =~= t);
    assert(trim_start(s) == trim_start(t));
    lemma_trim_plain(t);
}

/// An item `key=v` of a parameter list, with or without one space before it.
proof fn lemma_param_entry(key: Seq<char>, v: Seq<char>)
    requires
        key.len() > 0,
        !is_space(key[0]),
        free_of(key, '='),
        v.len() > 0,
        !is_space(v.last()),
    ensures
        semicolon_entry(key + seq!['='] + v) == (key, Some(spec_remove_quotes(v))),
        semicolon_entry_panics(key + seq!['='] + v) == quotes_panic(v),
        semicolon_entry(seq![' '] + key + seq!['='] + v) == (key, Some(spec_remove_quotes(v))),
        semicolon_entry_panics(seq![' '] + key + seq!['='] + v) == quotes_panic(v),
{
    let t = key + seq!['='] + v;
    assert(t[0] == key[0]);
    assert(t.last() == v.last());
    lemma_trim_plain(t);
    assert(seq![' '] + key + seq!['='] + v =~= seq![' '] + t);
    lemma_trim_leading_space(t);
    crate::seqs::lemma_split_once_at(key, '=', v);
}

/// An item without `=` is a bare name.
proof fn lemma_bare_entry(t: Seq<char>)
    requires
        t.len() > 0,
        !is_space(t[0]),
        !is_space(t.last()),
        free_of(t, '='),
    ensures
        semicolon_entry(t) == (t, None::<Seq<char>>),
        !semicolon_entry_panics(t),
{
    lemma_trim_plain(t);
    crate::seqs::lemma_split_once_free(t, '=');
}

/// A list of two items.
proof fn lemma_two_items(a: Seq<char>, b: Seq<char>)
    requires
        free_of(a, ';'),
        free_of(b, ';'),
    ensures
        split(a + seq![';'] + b, seq![';']) == seq![a, b],
        spec_parse_semicolon_list(a + seq![';'] + b) == Map::<Seq<char>, Option<Seq<char>>>::empty().insert(
            semicolon_entry(a).0,
            semicolon_entry(a).1,
        ).insert(semicolon_entry(b).0, semicolon_entry(b).1),
        semicolon_list_panics(a + seq![';'] + b) <==> semicolon_entry_panics(a) || semicolon_entry_panics(b),
{
    assert(!a.contains(';')) by {
        if a.contains(';') {
            let i = choose|i: int| 0 <= i < a.len() && a[i] == ';';
            assert(a[i] != ';');
        }
    }
    assert(!b.contains(';')) by {
        if b.contains(';') {
            let i = choose|i: int| 0 <= i < b.len() && b[i] == ';';
            assert(b[i] != ';');
        }
    }
    crate::seqs::lemma_split_prefix(a, ';', b);
    crate::seqs::lemma_split_none(b, ';');
    let pieces = seq![a, b];
    assert(seq![a] + seq![b] =~= pieces);
    assert(pieces.drop_last() =~= seq![a]);
    assert(seq![a].drop_last() =~= Seq::<Seq<char>>::empty());
    assert(semicolon_map(seq![a]) == semicolon_map(Seq::<Seq<char>>::empty()).insert(
        semicolon_entry(a).0,
        semicolon_entry(a).1,
    ));
    if semicolon_entry_panics(a) {
        assert(semicolon_entry_panics(pieces[0]));
    }
    if semicolon_entry_panics(b) {
        assert(semicolon_entry_panics(pieces[1]));
    }
}

/// The `Content-Disposition` value of a field is read as its two
/// parameters, `form-data` and `name`.
proof fn lemma_disposition_params(name: Seq<char>)
    requires
        free_of(name, ';'),
    ensures
        !semicolon_list_panics(form_data_disposition(name)),
        spec_parse_semicolon_list(form_data_disposition(name)).contains_key("name"@),
        spec_parse_semicolon_list(form_data_disposition(name))["name"@] == Some(name),
{
    reveal_strlit("form-data; name=\"");
    reveal_strlit("\"");
    reveal_strlit("form-data");
    reveal_strlit("name");
    let fd = "form-data"@;
    let key = "name"@;
    let quoted = seq!['"'] + name + seq!['"'];
    let rest = seq![' '] + key + seq!['='] + quoted;
    assert(form_data_disposition(name) =~= fd + seq![';'] + rest);
    assert(free_of(rest, ';')) by {
        assert forall|j: int| 0 <= j < rest.len() implies rest[j] != ';' by {
            if 7 <= j < rest.len() - 1 {
                assert(rest[j] == name[j - 7]);
            }
        }
    }
    lemma_two_items(fd, rest);
    lemma_bare_entry(fd);
    lemma_param_entry(key, quoted);
    assert(quoted.subrange(1, quoted.len() - 1) =~= name);
    assert(spec_remove_quotes(quoted) == name);
    assert(key != fd);
}

/// The header line of a field holds no line break.
proof fn lemma_disposition_line_breaks(name: Seq<char>)
    requires
        forall|j: int| !occurs_at(name, crlf(), j),
    ensures
        forall|j: int| !occurs_at(disposition_line(name), crlf(), j),
{
    reveal_strlit("Content-Disposition: ");
    reveal_strlit("form-data; name=\"");
    reveal_strlit("\"");
    let pre = "Content-Disposition: "@ + "form-data; name=\""@;
    let line = disposition_line(name);
    assert(line =~= pre + name + seq!['"']);
    assert(pre.len() == 38);
    assert(free_of(pre, '\r'));
    assert forall|j: int| !occurs_at(line, crlf(), j) by {
        if occurs_at(line, crlf(), j) {
            let w = line.subrange(j, j + 2);
            assert(w[0] == '\r' && w[1] == '\n');
            assert(line[j] == '\r');
            if j < 38 {
                assert(line[j] == pre[j]);
            } else if j + 1 < line.len() - 1 {
                assert(line[j] == name[j - 38]);
                assert(line[j + 1] == name[j + 1 - 38]);
                assert(name.subrange(j - 38, j - 38 + 2) =~= crlf());
                assert(occurs_at(name, crlf(), j - 38));
            } else {
                assert(line[j + 1] == '"');
            }
        }
    }
}

/// The header table of a field's part: its one `Content-Disposition`
/// header.
proof fn lemma_disposition_headers(name: Seq<char>)
    requires
        free_of(name, ':'),
        forall|j: int| !occurs_at(name, crlf(), j),
    ensures
        spec_parse_headers(crlf() + disposition_line(name)) == Map::<Seq<char>, Seq<char>>::empty().insert(
            "Content-Disposition"@,
            form_data_disposition(name),
        ),
{
    reveal_strlit("Content-Disposition: ");
    reveal_strlit("Content-Disposition");
    reveal_strlit("form-data; name=\"");
    reveal_strlit("\"");
    let line = disposition_line(name);
    let disp = form_data_disposition(name);
    lemma_disposition_line_breaks(name);
    assert(crlf() + line =~= Seq::<char>::empty() + crlf() + line);
    crate::seqs::lemma_split_prefix_pat(Seq::<char>::empty(), crlf(), line);
    crate::seqs::lemma_split_none_pat(line, crlf());
    let lines = seq![Seq::<char>::empty(), line];
    assert(seq![Seq::<char>::empty()] + seq![line] =~= lines);
    assert(split(crlf() + line, crlf()) == lines);
    let cd = "Content-Disposition"@;
    let tail = seq![' '] + disp;
    assert(line =~= cd + seq![':'] + tail);
    assert(!cd.contains(':')) by {
        if cd.contains(':') {
            let i = choose|i: int| 0 <= i < cd.len() && cd[i] == ':';
            assert(free_of(cd, ':'));
        }
    }
    assert(!tail.contains(':')) by {
        if tail.contains(':') {
            let i = choose|i: int| 0 <= i < tail.len() && tail[i] == ':';
            if 17 < i < tail.len() - 1 {
                assert(tail[i] == name[i - 18]);
            }
        }
    }
    crate::seqs::lemma_split_prefix(cd, ':', tail);
    crate::seqs::lemma_split_none(tail, ':');
    assert(seq![cd] + seq![tail] =~= seq![cd, tail]);
    lemma_trim_plain(cd);
    assert(disp[0] == 'f');
    assert(disp.last() == '"');
    lemma_trim_leading_space(disp);
    assert(spec_parse_header(line) == Some((cd, disp)));
    let empty = Seq::<char>::empty();
    assert(split(empty, seq![':']).len() == 1);
    assert(spec_parse_header(empty) is None);
    assert(lines.drop_last() =~= seq![empty]);
    assert(seq![empty].drop_last() =~= Seq::<Seq<char>>::empty());
    assert(seq![empty].last() == empty);
    assert(headers_from_lines(Seq::<Seq<char>>::empty()) == Map::<Seq<char>, Seq<char>>::empty());
    assert(headers_from_lines(seq![empty]) == Map::<Seq<char>, Seq<char>>::empty());
    assert(lines.last() == line);
}

/// A field's part is read back as the field: its name, its one header and
/// its content.
proof fn lemma_field_part(name: Seq<char>, content: Seq<u8>)
    requires
        free_of(name, ';'),
        free_of(name, ':'),
        forall|j: int| !occurs_at(name, crlf(), j),
    ensures
        !multipart_part_panics(form_field_part(name, content)),
        multipart_part(form_field_part(name, content)) == Some(
            (
                name,
                (
                    Map::<Seq<char>, Seq<char>>::empty().insert("Content-Disposition"@, form_data_disposition(name)),
                    content,
                ),
            ),
        ),
{
    reveal_strlit("Content-Disposition: ");
    reveal_strlit("Content-Disposition");
    reveal_strlit("form-data; name=\"");
    reveal_strlit("\"");
    reveal_strlit("name");
    let line = disposition_line(name);
    let hc = crlf() + line;
    let cc = crlf() + crlf();
    lemma_disposition_line_breaks(name);
    assert(line[0] == 'C');
    assert(line.last() == '"');
    assert forall|j: int| 0 <= j < hc.len() implies !#[trigger] occurs_at(hc + crlf() + crlf(), cc, j) by {
        let t = hc + crlf() + crlf();
        if occurs_at(t, cc, j) {
            let w = t.subrange(j, j + 4);
            assert(w[0] == '\r' && w[1] == '\n' && w[2] == '\r');
            assert(t[j] == hc[j]);
            if j == 0 {
                assert(t[2] == hc[2]);
            } else if j == hc.len() - 1 {
                assert(hc[j] == line.last());
            } else {
                assert(t[j + 1] == hc[j + 1]);
                assert(hc[j] == line[j - 2]);
                assert(hc[j + 1] == line[j - 1]);
                assert(line.subrange(j - 2, j) =~= crlf());
                assert(occurs_at(line, crlf(), j - 2));
            }
        }
    }
    let hb = encode_utf8(hc);
    vstd::utf8::encode_utf8_valid_utf8(hc);
    vstd::utf8::encode_utf8_decode_utf8(hc);
    assert(lossy_text(hb) == hc);
    let part = hb + crlfcrlf() + content;
    assert(part == form_field_part(name, content));
    crate::parse::lemma_blank_line_bytes(hc, content);
    crate::seqs::lemma_find_after(hb, crlfcrlf(), content);
    assert(part.subrange(0, hb.len() as int) =~= hb);
    assert(part.subrange(hb.len() + 4int, part.len() as int) =~= content);
    assert(split_once(part, crlfcrlf()) == Some((hb, content)));
    lemma_disposition_headers(name);
    lemma_disposition_params(name);
    let headers = Map::<Seq<char>, Seq<char>>::empty().insert("Content-Disposition"@, form_data_disposition(name));
    assert("name"@ != "Content-Disposition"@) by {
        assert("name"@.len() != "Content-Disposition"@.len());
    }
    assert(headers.remove("name"@) =~= headers);
}

/// A `Content-Type` of `multipart/form-data; boundary=` and a plain
/// boundary gives that boundary's delimiter.
proof fn lemma_content_type_boundary(headers: Map<Seq<char>, Seq<char>>, boundary: Seq<char>)
    requires
        boundary.len() > 0,
        free_of(boundary, ';'),
        !is_space(boundary.last()),
        !quotes_panic(boundary),
        spec_remove_quotes(boundary) == boundary,
        headers.contains_key("Content-Type"@),
        headers["Content-Type"@] == "multipart/form-data; boundary="@ + boundary,
    ensures
        !semicolon_list_panics(headers["Content-Type"@]),
        multipart_boundary(headers) == Some(multipart_delimiter(boundary)),
{
    reveal_strlit("multipart/form-data; boundary=");
    reveal_strlit("multipart/form-data");
    reveal_strlit("boundary");
    let mfd = "multipart/form-data"@;
    let key = "boundary"@;
    let rest = seq![' '] + key + seq!['='] + boundary;
    assert(headers["Content-Type"@] =~= mfd + seq![';'] + rest);
    assert(free_of(rest, ';')) by {
        assert forall|j: int| 0 <= j < rest.len() implies rest[j] != ';' by {
            if 10 <= j {
                assert(rest[j] == boundary[j - 10]);
            }
        }
    }
    lemma_two_items(mfd, rest);
    lemma_bare_entry(mfd);
    lemma_param_entry(key, boundary);
    assert(key != mfd);
}

/// Law: a multipart body of one field `name` with `content`, sent with
/// `Content-Type: multipart/form-data; boundary=...`, is read without
/// panic as that one field, with its `Content-Disposition` header and its
/// content.  The boundary is not quoted, does not end in white space and
/// holds no `;`; the field name holds no `;`, `:` or line break; and the
/// delimiter does not occur in the part.
pub proof fn one_field_form_read_back(req: RequestModel, boundary: Seq<char>, name: Seq<char>, content: Seq<u8>)
    requires
        boundary.len() > 0,
        free_of(boundary, ';'),
        !is_space(boundary.last()),
        !quotes_panic(boundary),
        spec_remove_quotes(boundary) == boundary,
        free_of(name, ';'),
        free_of(name, ':'),
        forall|j: int| !occurs_at(name, crlf(), j),
        forall|j: int|
            0 <= j < form_field_part(name, content).len() ==> !#[trigger] occurs_at(
                form_field_part(name, content) + multipart_delimiter(boundary) + closing_dashes(),
                multipart_delimiter(boundary),
                j,
            ),
        req.headers.contains_key("Content-Type"@),
        req.headers["Content-Type"@] == "multipart/form-data; boundary="@ + boundary,
        req.body == Some(one_field_body(boundary, name, content)),
    ensures
        !multipart_panics(req),
        spec_parse_multipart_form(req) == Some(
            Map::<Seq<char>, (Map<Seq<char>, Seq<char>>, Seq<u8>)>::empty().insert(
                name,
                (
                    Map::<Seq<char>, Seq<char>>::empty().insert("Content-Disposition"@, form_data_disposition(name)),
                    content,
                ),
            ),
        ),
{
    reveal_strlit("--");
    lemma_content_type_boundary(req.headers, boundary);
    let delim = multipart_delimiter(boundary);
    lemma_encode_len("--"@ + boundary);
    assert(delim.len() >= 3);
    let part = form_field_part(name, content);
    let dd = closing_dashes();
    let body = one_field_body(boundary, name, content);
    let empty = Seq::<u8>::empty();
    assert(body =~= empty + delim + (part + delim + dd));
    crate::seqs::lemma_split_prefix_pat(empty, delim, part + delim + dd);
    crate::seqs::lemma_split_prefix_pat(part, delim, dd);
    assert forall|j: int| !occurs_at(dd, delim, j) by {}
    crate::seqs::lemma_split_none_pat(dd, delim);
    let pieces = seq![empty, part, dd];
    assert(seq![empty] + (seq![part] + seq![dd]) =~= pieces);
    assert(split(body, delim) == pieces);
    lemma_field_part(name, content);
    assert(split_once(empty, crlfcrlf()) is None);
    assert(split_once(dd, crlfcrlf()) is None);
    assert(multipart_part(empty) is None);
    assert(multipart_part(dd) is None);
    assert(pieces.drop_last() =~= seq![empty, part]);
    assert(seq![empty, part].drop_last() =~= seq![empty]);
    assert(seq![empty].drop_last() =~= Seq::<Seq<u8>>::empty());
    assert(seq![empty].last() == empty);
    assert(seq![empty, part].last() == part);
    assert(pieces.last() == dd);
    assert(multipart_fields(Seq::<Seq<u8>>::empty()) == Map::<Seq<char>, (Map<Seq<char>, Seq<char>>, Seq<u8>)>::empty());
    assert(multipart_fields(seq![empty]) == Map::<Seq<char>, (Map<Seq<char>, Seq<char>>, Seq<u8>)>::empty());
    assert(multipart_fields(seq![empty, part]) == multipart_fields(seq![empty]).insert(
        name,
        (
            Map::<Seq<char>, Seq<char>>::empty().insert("Content-Disposition"@, form_data_disposition(name)),
            content,
        ),
    ));
    assert(multipart_fields(pieces) == multipart_fields(seq![empty, part]));
    assert forall|i: int| 0 <= i < pieces.len() implies !multipart_part_panics(#[trigger] pieces[i]) by {
        if i == 0 {
            assert(pieces[0] == empty);
        } else if i == 1 {
            assert(pieces[1] == part);
        } else {
            assert(pieces[2] == dd);
        }
    }
}

} // verus!
