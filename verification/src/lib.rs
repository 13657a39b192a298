//! A small HTTP/1.1 web application server: request parsing, cookies,
//! response encoding, routing decisions and account-field validation.

pub mod types;
pub mod seqs;
pub mod trusted;
pub mod chars;
pub mod string_map;
pub mod parse;
pub mod numbers;
pub mod cookie;
pub mod response;
pub mod router;
pub mod accounts;
pub mod form_data;
