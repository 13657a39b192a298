use gall_rs::accounts::{check_media_info, check_new_user, check_user_info, login_token, password_hash, validate_str_len};
use gall_rs::types::DatabaseError;

#[test]
fn validates_lengths_in_bytes() {
    assert_eq!(validate_str_len("abcd", 4, 50), Ok(()));
    assert_eq!(validate_str_len("abc", 4, 50), Err(DatabaseError::StingLengthError));
    assert_eq!(validate_str_len("\u{e9}\u{e9}", 4, 50), Ok(()));
    assert_eq!(validate_str_len(&"x".repeat(51), 4, 50), Err(DatabaseError::StingLengthError));
    assert_eq!(validate_str_len("", 0, 0), Ok(()));
}

#[test]
fn checks_account_fields() {
    assert_eq!(check_new_user("Billy Bones", "treasure map", "tokyo ghoul", "i am ghoul, let me die"), Ok(()));
    assert_eq!(check_new_user("Bil", "treasure map", "tokyo ghoul", ""), Err(DatabaseError::StingLengthError));
    assert_eq!(check_new_user("Billy", "short", "tokyo ghoul", ""), Err(DatabaseError::StingLengthError));
    assert_eq!(check_new_user("Billy", "long enough", "", ""), Err(DatabaseError::StingLengthError));
    assert_eq!(check_new_user("Billy", "long enough", "nick", &"d".repeat(501)), Err(DatabaseError::StingLengthError));
    assert_eq!(check_user_info("nick", ""), Ok(()));
    assert_eq!(check_user_info("nic", ""), Err(DatabaseError::StingLengthError));
    assert_eq!(check_media_info("", &"d".repeat(200)), Ok(()));
    assert_eq!(check_media_info(&"t".repeat(51), ""), Err(DatabaseError::StingLengthError));
}

#[test]
fn hashes_passwords_as_hex_sha256() {
    assert_eq!(password_hash(""), "e3b0c44298fc1c149afbf4c8996fb92427ae41e4649b934ca495991b7852b855");
    assert_eq!(password_hash("abc"), "ba7816bf8f01cfea414140de5dae2223b00361a396177a9cb410ff61f20015ad");
    assert_eq!(password_hash("treasure map"), password_hash("treasure map"));
}

#[test]
fn derives_login_tokens_from_time() {
    assert_eq!(login_token(0), "5feceb66ffc86f38d952786c6d696c79c2dbc239dd4e91b46729d73a27fb57e9");
    assert_eq!(login_token(0), password_hash("0"));
    assert_eq!(login_token(1234567890123), password_hash("1234567890123"));
    assert_eq!(login_token(u128::MAX), password_hash(&u128::MAX.to_string()));
}

#[test]
fn displays_database_errors() {
    assert_eq!(DatabaseError::NoUserError.message(), "SuperError is here!");
}
