use vstd::prelude::*;

verus! {

/// Code carried by every error of this library.
pub const COMMON_ERROR_CODE: usize = 10000;

/// An error: a numeric code and a message for people.
#[derive(Debug, PartialEq)]
pub struct CustomError {
    pub code: usize,
    pub message: String,
}

pub type CustomResult<T> = Result<T, CustomError>;

/// An error with the common code and the message `msg`.
pub fn common_err(msg: String) -> (r: CustomError)
    ensures
        r.code == COMMON_ERROR_CODE,
        r.message@ == msg@,
{
    CustomError { code: COMMON_ERROR_CODE, message: msg }
}

impl CustomError {
    /// An error with the common code carrying the text of an underlying error.
    pub fn new(message: String) -> (r: CustomError)
        ensures
            r.code == COMMON_ERROR_CODE,
            r.message@ == message@,
    {
        common_err(message)
    }
}

} // verus!
