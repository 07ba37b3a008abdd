use tinychain::error::{ErrorType, TCError};

#[test]
fn bad_request_joins_message_and_cause() {
    let e = TCError::bad_request("invalid header", "x");
    assert_eq!(e.code(), ErrorType::BadRequest);
    assert_eq!(e.message(), "invalid header: x");
    assert_eq!(e.code().status_code(), 400);
}

#[test]
fn every_error_kind_has_its_status() {
    let cases = vec![
        (TCError::bad_request("a", "b"), ErrorType::BadRequest, 400),
        (TCError::conflict(), ErrorType::Conflict, 409),
        (TCError::forbidden("a", "b"), ErrorType::Forbidden, 403),
        (TCError::internal("a"), ErrorType::Internal, 500),
        (TCError::method_not_allowed("a"), ErrorType::MethodNotAllowed, 405),
        (TCError::not_found("a"), ErrorType::NotFound, 404),
        (TCError::not_implemented("a"), ErrorType::NotImplemented, 501),
        (TCError::timeout("a"), ErrorType::Timeout, 408),
        (TCError::unauthorized("a"), ErrorType::Unauthorized, 401),
    ];
    for (e, code, status) in cases {
        assert_eq!(e.code(), code);
        assert_eq!(e.code().status_code(), status);
    }
}

#[test]
fn messages_of_each_constructor() {
    assert_eq!(TCError::conflict().message(), "");
    assert_eq!(TCError::forbidden("no access to", "/x").message(), "no access to: /x");
    assert_eq!(TCError::not_found("/a/b").message(), "/a/b");
    assert_eq!(TCError::unauthorized("token").message(), "invalid credentials: token");
}

#[test]
fn error_renders_with_its_kind() {
    let e = TCError::not_found("/a");
    assert_eq!(e.to_string(), "not found: /a");
    assert_eq!(ErrorType::Timeout.description(), "request timeout");
    assert_eq!(ErrorType::Internal.description(), "internal error");
}
