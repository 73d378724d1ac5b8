//! The web backend: the API-key check and its two pages.
use vstd::prelude::*;
use vstd::string::*;
use crate::text::{has_line, lines, push_decimal, decimal};

verus! {

/// An API key that a request was admitted with.
pub struct ApiKey(pub String);

/// Why a request was turned away (always with status 400).
#[derive(Debug, Clone, Copy, PartialEq, Eq, Structural)]
pub enum ApiKeyError {
    /// No key was sent.
    Missing,
    /// The key is not one of the valid keys.
    Invalid,
    /// More than one key was sent.
    BadCount,
}

/// What the key check decides about a request.
pub enum KeyOutcome {
    Success(ApiKey),
    Failure(ApiKeyError),
}

/// Whether `key` is one of the lines of the key file.
pub fn is_valid(key: &str, key_file: &str) -> (r: bool)
    ensures
        r == lines(key_file@).contains(key@),
{
    has_line(key_file, key)
}

/// The key check: in development mode every request passes with an empty key;
/// otherwise a request must send exactly one `x-api-key` value, and it must be
/// a line of the key file.
pub fn from_request(dev_mode: bool, keys: &Vec<String>, key_file: &str) -> (r: KeyOutcome)
    ensures
        dev_mode ==> (r matches KeyOutcome::Success(k) && k.0@ == Seq::<char>::empty()),
        !dev_mode && keys@.len() == 0 ==> (r matches KeyOutcome::Failure(e) && e == ApiKeyError::Missing),
        !dev_mode && keys@.len() == 1 && lines(key_file@).contains(keys@[0]@)
            ==> (r matches KeyOutcome::Success(k) && k.0@ == keys@[0]@),
        !dev_mode && keys@.len() == 1 && !lines(key_file@).contains(keys@[0]@)
            ==> (r matches KeyOutcome::Failure(e) && e == ApiKeyError::Invalid),
        !dev_mode && keys@.len() > 1 ==> (r matches KeyOutcome::Failure(e) && e == ApiKeyError::BadCount),
{
    if dev_mode {
        return KeyOutcome::Success(ApiKey(String::new()));
    }
    if keys.len() == 0 {
        KeyOutcome::Failure(ApiKeyError::Missing)
    } else if keys.len() == 1 {
        if is_valid(keys[0].as_str(), key_file) {
            KeyOutcome::Success(ApiKey(keys[0].clone()))
        } else {
            KeyOutcome::Failure(ApiKeyError::Invalid)
        }
    } else {
        KeyOutcome::Failure(ApiKeyError::BadCount)
    }
}

/// The greeting page.
pub open spec fn hello_text(name: Seq<char>, age: nat) -> Seq<char> {
    "Hello, "@ + decimal(age) + " year old named "@ + name + "!"@
}

/// The root page.
pub open spec fn root_text() -> Seq<char> {
    "It seems you are too early. Maybe come back at a later time!"@
}

/// Greets `name`, who is `age` years old; only for requests with a key.
pub fn hello(_key: ApiKey, name: String, age: u8) -> (r: String)
    ensures
        r@ == hello_text(name@, age as nat),
{
    let mut s = String::from_str("Hello, ");
    push_decimal(&mut s, age as u64);
    s.append(" year old named ");
    s.append(name.as_str());
    s.append("!");
    s
}

/// The root page.
pub fn root() -> (r: String)
    ensures
        r@ == root_text(),
{
    String::from_str("It seems you are too early. Maybe come back at a later time!")
}

} // verus!
