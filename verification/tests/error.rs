use playground::util::error::{ErrorKind, PlaygroundError};

#[test]
fn unknown_error_texts() {
    assert_eq!(ErrorKind::UnknownError.as_str(), "unknown error");
    assert_eq!(ErrorKind::UnknownError.code(), 1);
    assert_eq!(ErrorKind::UnknownError.message(), "error_code unknown error");
    assert_eq!(
        PlaygroundError::custom_message(ErrorKind::UnknownError),
        "playground error: error_code unknown error"
    );
}

#[test]
fn io_errors_convert() {
    let e: PlaygroundError = std::io::Error::new(std::io::ErrorKind::Other, "boom").into();
    match e {
        PlaygroundError::IoError(inner) => assert_eq!(inner.to_string(), "boom"),
        PlaygroundError::Custom(_) => panic!("wrong variant"),
    }
}
