use vstd::prelude::*;
use vstd::string::StringExecFns;

verus! {

/// The category of an error, as seen by a remote caller.
#[derive(Clone, Copy, Debug, PartialEq, Eq, Structural)]
pub enum ErrorType {
    BadRequest,
    Conflict,
    Forbidden,
    Internal,
    MethodNotAllowed,
    NotFound,
    NotImplemented,
    Timeout,
    Unauthorized,
}

/// The transport status code of each error category.
pub open spec fn status_code_of(code: ErrorType) -> u16 {
    match code {
        ErrorType::BadRequest => 400,
        ErrorType::Conflict => 409,
        ErrorType::Forbidden => 403,
        ErrorType::Internal => 500,
        ErrorType::MethodNotAllowed => 405,
        ErrorType::NotFound => 404,
        ErrorType::NotImplemented => 501,
        ErrorType::Timeout => 408,
        ErrorType::Unauthorized => 401,
    }
}

/// The human-readable name of each error category.
pub open spec fn description_of(code: ErrorType) -> Seq<char> {
    match code {
        ErrorType::BadRequest => "bad request"@,
        ErrorType::Conflict => "conflict"@,
        ErrorType::Forbidden => "forbidden"@,
        ErrorType::Internal => "internal error"@,
        ErrorType::MethodNotAllowed => "method not allowed"@,
        ErrorType::NotFound => "not found"@,
        ErrorType::NotImplemented => "not implemented"@,
        ErrorType::Timeout => "request timeout"@,
        ErrorType::Unauthorized => "unauthorized"@,
    }
}

impl ErrorType {
    /// The status code under which this kind of error is reported on the transport.
    pub fn status_code(&self) -> (r: u16)
        ensures
            r == status_code_of(*self),
    {
        match self {
            ErrorType::BadRequest => 400,
            ErrorType::Conflict => 409,
            ErrorType::Forbidden => 403,
            ErrorType::Internal => 500,
            ErrorType::MethodNotAllowed => 405,
            ErrorType::NotFound => 404,
            ErrorType::NotImplemented => 501,
            ErrorType::Timeout => 408,
            ErrorType::Unauthorized => 401,
        }
    }

    /// The human-readable name of this kind of error.
    pub fn description(&self) -> (r: &'static str)
        ensures
            r@ == description_of(*self),
    {
        proof {
            reveal_strlit("bad request");
            reveal_strlit("conflict");
            reveal_strlit("forbidden");
            reveal_strlit("internal error");
            reveal_strlit("method not allowed");
            reveal_strlit("not found");
            reveal_strlit("not implemented");
            reveal_strlit("request timeout");
            reveal_strlit("unauthorized");
        }
        match self {
            ErrorType::BadRequest => "bad request",
            ErrorType::Conflict => "conflict",
            ErrorType::Forbidden => "forbidden",
            ErrorType::Internal => "internal error",
            ErrorType::MethodNotAllowed => "method not allowed",
            ErrorType::NotFound => "not found",
            ErrorType::NotImplemented => "not implemented",
            ErrorType::Timeout => "request timeout",
            ErrorType::Unauthorized => "unauthorized",
        }
    }
}

/// A general error description: a category and a message.
#[derive(Debug)]
pub struct TCError {
    code: ErrorType,
    message: String,
}

/// `message: cause`, the form of a message that names what caused it.
pub open spec fn joined(message: Seq<char>, cause: Seq<char>) -> Seq<char> {
    message + ": "@ + cause
}

fn join_message(message: &str, cause: &str) -> (r: String)
    ensures
        r@ == joined(message@, cause@),
{
    proof {
        reveal_strlit(": ");
    }
    let r = String::from_str(message);
    let r = r.concat(": ");
    r.concat(cause)
}

impl TCError {
    /// The category of this error.
    pub closed spec fn spec_code(&self) -> ErrorType {
        self.code
    }

    /// The message of this error.
    pub closed spec fn spec_message(&self) -> Seq<char> {
        self.message@
    }

    fn with(code: ErrorType, message: String) -> (r: TCError)
        ensures
            r.spec_code() == code,
            r.spec_message() == message@,
    {
        TCError { code, message }
    }

    /// The request is badly-constructed or nonsensical.
    pub fn bad_request(message: &str, cause: &str) -> (r: TCError)
        ensures
            r.spec_code() == ErrorType::BadRequest,
            r.spec_message() == joined(message@, cause@),
    {
        TCError::with(ErrorType::BadRequest, join_message(message, cause))
    }

    /// The request depends on a resource which another transaction holds exclusively.
    pub fn conflict() -> (r: TCError)
        ensures
            r.spec_code() == ErrorType::Conflict,
            r.spec_message() == Seq::<char>::empty(),
    {
        TCError::with(ErrorType::Conflict, String::new())
    }

    /// The actor's credentials do not authorize access to some dependency of the request.
    pub fn forbidden(message: &str, id: &str) -> (r: TCError)
        ensures
            r.spec_code() == ErrorType::Forbidden,
            r.spec_message() == joined(message@, id@),
    {
        TCError::with(ErrorType::Forbidden, join_message(message, id))
    }

    /// A truly unexpected error, for which a caller can define no specific handling.
    pub fn internal(info: &str) -> (r: TCError)
        ensures
            r.spec_code() == ErrorType::Internal,
            r.spec_message() == info@,
    {
        TCError::with(ErrorType::Internal, String::from_str(info))
    }

    /// The resource exists but does not support the request method.
    pub fn method_not_allowed(info: &str) -> (r: TCError)
        ensures
            r.spec_code() == ErrorType::MethodNotAllowed,
            r.spec_message() == info@,
    {
        TCError::with(ErrorType::MethodNotAllowed, String::from_str(info))
    }

    /// No resource exists at the requested location.
    pub fn not_found(locator: &str) -> (r: TCError)
        ensures
            r.spec_code() == ErrorType::NotFound,
            r.spec_message() == locator@,
    {
        TCError::with(ErrorType::NotFound, String::from_str(locator))
    }

    /// A feature which this host explicitly refuses.
    pub fn not_implemented(feature: &str) -> (r: TCError)
        ensures
            r.spec_code() == ErrorType::NotImplemented,
            r.spec_message() == feature@,
    {
        TCError::with(ErrorType::NotImplemented, String::from_str(feature))
    }

    /// The request did not complete in the allotted time.
    pub fn timeout(info: &str) -> (r: TCError)
        ensures
            r.spec_code() == ErrorType::Timeout,
            r.spec_message() == info@,
    {
        TCError::with(ErrorType::Timeout, String::from_str(info))
    }

    /// The user's credentials are missing or nonsensical.
    pub fn unauthorized(info: &str) -> (r: TCError)
        ensures
            r.spec_code() == ErrorType::Unauthorized,
            r.spec_message() == joined("invalid credentials"@, info@),
    {
        TCError::with(ErrorType::Unauthorized, join_message("invalid credentials", info))
    }

    /// The category of this error.
    pub fn code(&self) -> (r: ErrorType)
        ensures
            r == self.spec_code(),
    {
        self.code
    }

    /// The message of this error.
    pub fn message(&self) -> (r: &str)
        ensures
            r@ == self.spec_message(),
    {
        self.message.as_str()
    }

    /// `code: message`, the rendering of this error for a remote caller.
    pub fn to_string(&self) -> (r: String)
        ensures
            r@ == joined(description_of(self.spec_code()), self.spec_message()),
    {
        join_message(self.code.description(), self.message.as_str())
    }
}

} // verus!
