use vstd::prelude::*;

verus! {

/// The error type of the `wat` crate, which `wat::parse_str` returns when it rejects a text.
#[verifier::external_type_specification]
#[verifier::external_body]
pub struct ExWatError(wat::Error);

/// The binary module that `wat::parse_str` makes of a WebAssembly text, `None` when it rejects
/// the text.
pub uninterp spec fn wat_binary(text: Seq<char>) -> Option<Seq<u8>>;

/// `wat::parse_str` from the `wat` crate: parses a WebAssembly text and encodes it as a binary
/// module. Stated here: the outcome depends on the text alone and is named `wat_binary`, `Ok`
/// with its bytes exactly when that is `Some`. Which bytes, and which texts it accepts, is left
/// unsaid.
#[verifier::external_body]
fn parse_wat(text: &str) -> (r: Result<Vec<u8>, wat::Error>)
    ensures
        match r {
            Ok(b) => wat_binary(text@) == Some(b@),
            Err(_) => wat_binary(text@) is None,
        },
{
    wat::parse_str(text)
}

/// The `Display` text of a `wat::Error`, the crate's message for the rejected text. Nothing is
/// stated of it.
#[verifier::external_body]
fn wat_message(e: &wat::Error) -> (r: String) {
    format!("{}", e)
}

/// A WebAssembly text that the encoder rejected, with its message.
#[derive(Debug)]
pub struct WatError {
    pub msg: String,
}

/// Encodes generated WebAssembly text as a binary module: `Ok` with the bytes `wat_binary`
/// names, `Err` with the encoder's message when it rejects the text.
pub fn tobytes(wat_str: String) -> (r: Result<Vec<u8>, WatError>)
    ensures
        match wat_binary(wat_str@) {
            Some(b) => r matches Ok(v) && v@ == b,
            None => r is Err,
        },
{
    match parse_wat(wat_str.as_str()) {
        Ok(b) => Ok(b),
        Err(e) => Err(WatError { msg: wat_message(&e) }),
    }
}

} // verus!
