//! From the bytes of a file to its text.

use vstd::prelude::*;
use vstd::utf8::{decode_utf8, valid_utf8};

verus! {

/// The error of a read or a write is carried through as it is.
#[verifier::external_type_specification]
#[verifier::external_body]
pub struct ExIoError(std::io::Error);

/// The kinds of errors of reads and writes.
#[verifier::external_type_specification]
pub struct ExErrorKind(std::io::ErrorKind);

/// The error of decoding is carried through as it is.
#[verifier::external_type_specification]
#[verifier::external_body]
pub struct ExFromUtf8Error(std::string::FromUtf8Error);

/// The error with which `String::from_utf8` refuses `bytes`. It holds the bytes
/// and where they cease to be UTF-8.
pub uninterp spec fn utf8_error(bytes: Seq<u8>) -> std::string::FromUtf8Error;

/// `String::from_utf8` gives the text of bytes that are UTF-8, and refuses all
/// others with an error that depends on the bytes alone.
pub assume_specification[ String::from_utf8 ](vec: Vec<u8>) -> (res: Result<
    String,
    std::string::FromUtf8Error,
>)
    ensures
        match res {
            Ok(text) => valid_utf8(vec@) && text@ == decode_utf8(vec@),
            Err(error) => !valid_utf8(vec@) && error == utf8_error(vec@),
        },
;

/// The error that `std::io::Error::new` makes of a kind and a cause.
pub uninterp spec fn io_error(
    kind: std::io::ErrorKind,
    cause: std::string::FromUtf8Error,
) -> std::io::Error;

/// `std::io::Error::new` makes an error of the given kind and with the given
/// cause, which depends on these two alone.
#[verifier::external_body]
fn new_io_error(kind: std::io::ErrorKind, cause: std::string::FromUtf8Error) -> (res:
    std::io::Error)
    ensures
        res == io_error(kind, cause),
{
    std::io::Error::new(kind, cause)
}

/// `std::io::Error::kind` gives back the kind with which `std::io::Error::new`
/// made an error. Nothing is stated of errors that come from elsewhere.
pub assume_specification[ std::io::Error::kind ](error: &std::io::Error) -> (res:
    std::io::ErrorKind)
    ensures
        forall|kind: std::io::ErrorKind, cause: std::string::FromUtf8Error|
            #[trigger] io_error(kind, cause) == *error ==> res == kind,
;

/// The text that `bytes` encode. Bytes that are not UTF-8 are invalid data.
pub open spec fn decoded(bytes: Seq<u8>) -> Result<Seq<char>, std::io::Error> {
    if valid_utf8(bytes) {
        Ok(decode_utf8(bytes))
    } else {
        Err(io_error(std::io::ErrorKind::InvalidData, utf8_error(bytes)))
    }
}

/// The text that `bytes` encode.
pub fn decode(bytes: Vec<u8>) -> (res: Result<String, std::io::Error>)
    ensures
        match res {
            Ok(text) => decoded(bytes@) == Ok::<Seq<char>, std::io::Error>(text@),
            Err(error) => decoded(bytes@) == Err::<Seq<char>, std::io::Error>(error),
        },
{
    match String::from_utf8(bytes) {
        Ok(text) => Ok(text),
        Err(cause) => Err(new_io_error(std::io::ErrorKind::InvalidData, cause)),
    }
}

} // verus!
