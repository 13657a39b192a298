//! The rules of account storage that need no database: field lengths,
//! password hashes and login tokens.
use vstd::prelude::*;
use vstd::utf8::encode_utf8;
use crate::chars::from_chars;
use crate::numbers::{decimal, decimal_digits, hex_lower, to_hex_lower};
use crate::trusted::{sha256, sha256_digest};
use crate::types::DatabaseError;

verus! {

broadcast use vstd::slice::group_slice_axioms;

/// The length of a text in bytes, as `str::len` counts it.
pub open spec fn byte_len(s: &str) -> nat {
    encode_utf8(s@).len()
}

/// Whether a text's byte length lies within `min..=max`.
pub open spec fn len_within(s: &str, min: usize, max: usize) -> bool {
    min <= byte_len(s) <= max
}

/// `StingLengthError` unless the text is between `min` and `max` bytes long.
pub fn validate_str_len(string: &str, min: usize, max: usize) -> (result: Result<(), DatabaseError>)
    ensures
        result is Ok <==> len_within(string, min, max),
        result matches Err(e) ==> e == DatabaseError::StingLengthError,
{
    let len = string.as_bytes().len();
    if len < min || len > max {
        Err(DatabaseError::StingLengthError)
    } else {
        Ok(())
    }
}

/// Law: a text is within `min..=max` exactly when the count of its UTF-8
/// bytes is.
pub proof fn length_limits_in_bytes(s: &str, min: usize, max: usize)
    ensures
        len_within(s, min, max) <==> min <= encode_utf8(s@).len() <= max,
{
}

/// Law: the fields of a new account pass exactly when, in UTF-8 bytes, the
/// name has 4 to 50, the password 8 to 50, the nickname 4 to 50 and the
/// description at most 500.
pub proof fn new_user_limits(user_name: &str, password: &str, nickname: &str, description: &str)
    ensures
        new_user_fields_ok(user_name, password, nickname, description) <==> {
            &&& 4 <= encode_utf8(user_name@).len() <= 50
            &&& 8 <= encode_utf8(password@).len() <= 50
            &&& 4 <= encode_utf8(nickname@).len() <= 50
            &&& encode_utf8(description@).len() <= 500
        },
{
}

/// The fields of a new account are within their limits: a name of 4 to 50
/// bytes, a password of 8 to 50, a nickname of 4 to 50 and a description of
/// at most 500.
pub open spec fn new_user_fields_ok(user_name: &str, password: &str, nickname: &str, description: &str) -> bool {
    &&& len_within(user_name, 4, 50)
    &&& len_within(password, 8, 50)
    &&& len_within(nickname, 4, 50)
    &&& len_within(description, 0, 500)
}

/// The length checks `add_user` makes before it touches the database.
pub fn check_new_user(user_name: &str, password: &str, nickname: &str, description: &str) -> (result: Result<(), DatabaseError>)
    ensures
        result is Ok <==> new_user_fields_ok(user_name, password, nickname, description),
        result matches Err(e) ==> e == DatabaseError::StingLengthError,
{
    validate_str_len(user_name, 4, 50)?;
    validate_str_len(password, 8, 50)?;
    validate_str_len(nickname, 4, 50)?;
    validate_str_len(description, 0, 500)?;
    Ok(())
}

/// The length checks `update_user_info` makes: a nickname of 4 to 50 bytes
/// and a description of at most 500.
pub fn check_user_info(nickname: &str, description: &str) -> (result: Result<(), DatabaseError>)
    ensures
        result is Ok <==> len_within(nickname, 4, 50) && len_within(description, 0, 500),
        result matches Err(e) ==> e == DatabaseError::StingLengthError,
{
    validate_str_len(nickname, 4, 50)?;
    validate_str_len(description, 0, 500)?;
    Ok(())
}

/// The length checks of media: a title of at most 50 bytes and a
/// description of at most 200.
pub fn check_media_info(title: &str, description: &str) -> (result: Result<(), DatabaseError>)
    ensures
        result is Ok <==> len_within(title, 0, 50) && len_within(description, 0, 200),
        result matches Err(e) ==> e == DatabaseError::StingLengthError,
{
    validate_str_len(title, 0, 50)?;
    validate_str_len(description, 0, 200)?;
    Ok(())
}

/// The stored hash of a password: its SHA-256 digest in lower-case hex.
pub open spec fn spec_password_hash(password: Seq<u8>) -> Seq<char> {
    hex_lower(sha256_digest(password))
}

/// Law: the stored hash of a password is the lower-case hex of the SHA-256
/// digest of its own bytes, unchanged.
pub proof fn password_hash_is_hex_sha256(password: Seq<u8>)
    ensures
        spec_password_hash(password) == hex_lower(sha256_digest(password)),
        spec_password_hash(password).len() == 2 * sha256_digest(password).len(),
{
    crate::numbers::hex_lower_digits(sha256_digest(password));
}

/// The hash under which a password is stored and checked.
pub fn password_hash(password: &str) -> (hash: String)
    ensures
        hash@ == spec_password_hash(encode_utf8(password@)),
{
    let digest = sha256(password.as_bytes());
    let hex = to_hex_lower(digest.as_slice());
    from_chars(hex.as_slice())
}

/// The ASCII bytes of a text of ASCII characters.
pub open spec fn ascii_bytes(s: Seq<char>) -> Seq<u8> {
    Seq::new(s.len(), |i: int| s[i] as u8)
}

/// The token a login at time `nanos` is given: the SHA-256 digest of the
/// time's decimal text, in lower-case hex.
pub open spec fn spec_login_token(nanos: nat) -> Seq<char> {
    hex_lower(sha256_digest(ascii_bytes(decimal(nanos))))
}

/// Law: a login token is the lower-case hex of the SHA-256 digest of the
/// UTF-8 bytes of the time's decimal text, whose digits are worth the time.
pub proof fn login_token_is_hex_sha256(nanos: nat)
    ensures
        spec_login_token(nanos) == hex_lower(sha256_digest(encode_utf8(decimal(nanos)))),
        crate::numbers::digits_value(decimal(nanos)) == nanos,
        forall|i: int| 0 <= i < decimal(nanos).len() ==> '0' <= #[trigger] decimal(nanos)[i] <= '9',
{
    let d = decimal(nanos);
    crate::numbers::lemma_decimal_parses(nanos);
    assert(vstd::utf8::is_ascii_chars(d)) by {
        assert forall|i: int| 0 <= i < d.len() implies '\0' <= #[trigger] d[i] <= '\u{7f}' by {
            assert(crate::numbers::is_digit(d[i]));
        }
    }
    vstd::utf8::is_ascii_chars_encode_utf8(d);
    assert(ascii_bytes(d) =~= encode_utf8(d));
}

/// The token of a login made `nanos` nanoseconds into the clock's reading.
pub fn login_token(nanos: u128) -> (token: String)
    ensures
        token@ == spec_login_token(nanos as nat),
{
    let digits = decimal_digits(nanos);
    let mut bytes: Vec<u8> = Vec::new();
    let mut i: usize = 0;
    while i < digits.len()
        invariant
            i <= digits@.len(),
            bytes@ == ascii_bytes(digits@.take(i as int)),
        decreases digits.len() - i,
    {
        bytes.push(digits[i] as u8);
        i = i + 1;
        assert(bytes@ =~= ascii_bytes(digits@.take(i as int)));
    }
    assert(digits@.take(digits@.len() as int) =~= digits@);
    let digest = sha256(bytes.as_slice());
    let hex = to_hex_lower(digest.as_slice());
    from_chars(hex.as_slice())
}

} // verus!
