//! Inputs for zero-knowledge circuits that prove facts about DKIM-signed emails:
//! SHA-256 padding, big-integer and field encodings, Poseidon commitments, the
//! circuit-input assembly, and reading values out of commands by template.
use vstd::prelude::*;
use vstd::string::{StrSliceExecFns, StringExecFns, StringSliceAdditionalSpecFns};

pub mod bits;
pub mod circuit;
pub mod command_templates;
pub mod converters;
pub mod cryptos;
pub mod field;
pub mod parse_email;
pub mod pattern;
pub mod prover;
pub mod sha;

verus! {

/// Why an input to the library's bindings was refused.
#[derive(Debug, Clone)]
pub enum WasmBindingError {
    ParseError { context: String, error: String },
    ValidationError { field: String, message: String },
    CryptoError { operation: String, error: String },
    CircuitError { stage: String, error: String },
    SerializationError { context: String, error: String },
}

fn has_char(s: &str, c: char) -> (r: bool)
    ensures
        r == s@.contains(c),
{
    let n = s.unicode_len();
    let mut i: usize = 0;
    while i < n
        invariant
            n == s@.len(),
            i <= n,
            forall|j: int| 0 <= j < i ==> s@[j] != c,
        decreases n - i,
    {
        if s.get_char(i) == c {
            return true;
        }
        i = i + 1;
    }
    false
}

fn validation_error(field: &str, message: &str) -> (r: WasmBindingError)
    ensures
        r matches WasmBindingError::ValidationError { field: f, message: m } && f@ == field@
            && m@ == message@,
{
    WasmBindingError::ValidationError {
        field: <String as StringExecFns>::from_str(field),
        message: <String as StringExecFns>::from_str(message),
    }
}

/// Accepts an email address that is not empty and holds an `@`.
pub fn validate_email_input(email: &str) -> (r: Result<(), WasmBindingError>)
    ensures
        r is Ok <==> (email@.len() > 0 && email@.contains('@')),
        r matches Err(WasmBindingError::ValidationError { field: f, message: _ }) ==> f@ == "email"@,
        r matches Err(e) ==> e is ValidationError,
{
    if email.unicode_len() == 0 {
        return Err(validation_error("email", "Email cannot be empty"));
    }
    if !has_char(email, '@') {
        return Err(validation_error("email", "Email must contain @ symbol"));
    }
    Ok(())
}

/// Accepts a string that starts with `0x` and has an even number of bytes.
pub fn validate_hex_input(hex: &str, field: &str) -> (r: Result<(), WasmBindingError>)
    ensures
        r is Ok <==> (hex@.len() >= 2 && hex@[0] == '0' && hex@[1] == 'x' && hex.spec_bytes().len()
            % 2 == 0),
        r matches Err(WasmBindingError::ValidationError { field: f, message: _ }) ==> f@ == field@,
        r matches Err(e) ==> e is ValidationError,
{
    if crate::field::strip_hex_prefix(hex).is_none() {
        return Err(validation_error(field, "Must start with 0x"));
    }
    if hex.as_bytes().len() % 2 != 0 {
        return Err(validation_error(field, "Must have even length"));
    }
    Ok(())
}

} // verus!
