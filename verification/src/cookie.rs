//! Reading the cookie a request carries and setting one on a response.
use vstd::prelude::*;
use vstd::string::StrSliceExecFns;
use crate::chars::{find_chars_from, from_chars, to_chars};
use crate::numbers::{signed_decimal, signed_decimal_digits};
use crate::parse::same_text;
use crate::seqs::split_once;
use crate::types::{Request, Response};

verus! {

/// The value a request's `Cookie` header gives the cookie `name`: the header
/// split at its first `=` (an empty name and value where there is none) and
/// its value taken where the part before matches `name`.
pub open spec fn spec_read_cookie(headers: Map<Seq<char>, Seq<char>>, name: Seq<char>) -> Option<Seq<char>> {
    if headers.contains_key("Cookie"@) {
        let (n, v) = match split_once(headers["Cookie"@], seq!['=']) {
            Some(p) => p,
            None => (Seq::<char>::empty(), Seq::<char>::empty()),
        };
        if n == name {
            Some(v)
        } else {
            None
        }
    } else {
        None
    }
}

/// The `Set-Cookie` value that gives cookie `name` the `value` for `max_age` seconds.
pub open spec fn set_cookie_value(name: Seq<char>, value: Seq<char>, max_age: int) -> Seq<char> {
    name + "="@ + value + "; Max-Age="@ + signed_decimal(max_age)
}

/// Law: a `Cookie` header `name=value`, the name holding no `=`, gives
/// `value` back as cookie `name`.
pub proof fn cookie_read_back(headers: Map<Seq<char>, Seq<char>>, name: Seq<char>, value: Seq<char>)
    requires
        !name.contains('='),
    ensures
        spec_read_cookie(headers.insert("Cookie"@, name + "="@ + value), name) == Some(value),
{
    reveal_strlit("=");
    let pat = seq!['='];
    let s = name + pat + value;
    assert("="@ =~= pat);
    assert forall|j: int| 0 <= j < name.len() implies !crate::seqs::occurs_at(#[trigger] (name + pat + value), pat, j) by {
        if crate::seqs::occurs_at(s, pat, j) {
            assert(s.subrange(j, j + 1)[0] == '=');
            assert(s[j] == name[j]);
        }
    }
    crate::seqs::lemma_find_after(name, pat, value);
    assert(s.subrange(0, name.len() as int) =~= name);
    assert(s.subrange(name.len() + 1int, s.len() as int) =~= value);
}

/// Law: a `Cookie` header `name=value`, the name holding no `=`, gives
/// `value` for the name `name` and nothing for any other name, not even one
/// that `name` begins with or that begins with `name`.
pub proof fn cookie_read_exact(headers: Map<Seq<char>, Seq<char>>, name: Seq<char>, value: Seq<char>, asked: Seq<char>)
    requires
        !name.contains('='),
    ensures
        spec_read_cookie(headers.insert("Cookie"@, name + "="@ + value), asked) == if asked == name {
            Some(value)
        } else {
            None
        },
{
    reveal_strlit("=");
    assert("="@ =~= seq!['=']);
    assert(crate::seqs::free_of(name, '=')) by {
        assert forall|j: int| 0 <= j < name.len() implies name[j] != '=' by {
            if name[j] == '=' {
                assert(name.contains('='));
            }
        }
    }
    crate::seqs::lemma_split_once_at(name, '=', value);
    assert(name + "="@ + value =~= name + seq!['='] + value);
}

/// Law: without a `Cookie` header no cookie is read; a `Cookie` header
/// without `=` reads as an empty name with an empty value, so only the
/// empty name gets a value, the empty one.
pub proof fn cookie_absent_or_bare(headers: Map<Seq<char>, Seq<char>>, text: Seq<char>, asked: Seq<char>)
    requires
        !text.contains('='),
    ensures
        !headers.contains_key("Cookie"@) ==> spec_read_cookie(headers, asked) is None,
        spec_read_cookie(headers.insert("Cookie"@, text), asked) == if asked.len() == 0 {
            Some(Seq::<char>::empty())
        } else {
            None::<Seq<char>>
        },
{
    assert(crate::seqs::free_of(text, '=')) by {
        assert forall|j: int| 0 <= j < text.len() implies text[j] != '=' by {
            if text[j] == '=' {
                assert(text.contains('='));
            }
        }
    }
    crate::seqs::lemma_split_once_free(text, '=');
    if asked.len() == 0 {
        assert(asked =~= Seq::<char>::empty());
    }
}

impl Request {
    /// The value of cookie `name`, as the `Cookie` header carries it.
    pub fn read_cookie(&self, name: &str) -> (value: Option<&str>)
        ensures
            match value {
                Some(v) => spec_read_cookie(self@.headers, name@) == Some(v@),
                None => spec_read_cookie(self@.headers, name@) is None,
            },
    {
        let cookie = self.headers.get("Cookie")?;
        let chars = to_chars(cookie.as_str());
        let eq = ['='];
        assert(eq@ =~= seq!['=']);
        match find_chars_from(chars.as_slice(), &eq, 0) {
            Some(i) => {
                proof { crate::seqs::lemma_find_from(chars@, eq@, 0); }
                assert(i + 1 <= chars.len());
                let first = cookie.as_str().substring_char(0, i);
                if same_text(first, name) {
                    Some(cookie.as_str().substring_char(i + 1, chars.len()))
                } else {
                    None
                }
            },
            None => {
                let empty = cookie.as_str().substring_char(0, 0);
                assert(empty@ =~= Seq::<char>::empty());
                if same_text(empty, name) {
                    Some(empty)
                } else {
                    None
                }
            },
        }
    }
}

impl Response {
    /// Sets cookie `name` to `value` for `max_age` seconds.
    pub fn write_cookie(&mut self, name: &str, value: &str, max_age: i32)
        ensures
            final(self).headers@ == old(self).headers@.insert(
                "Set-Cookie"@,
                set_cookie_value(name@, value@, max_age as int),
            ),
            final(self).response_code == old(self).response_code,
            final(self).body == old(self).body,
    {
        let mut header_value = String::from_str(name);
        header_value.append("=");
        header_value.append(value);
        header_value.append("; Max-Age=");
        let digits = signed_decimal_digits(max_age);
        let age = from_chars(digits.as_slice());
        header_value.append(age.as_str());
        self.headers.insert(String::from_str("Set-Cookie"), header_value);
    }
}

} // verus!
