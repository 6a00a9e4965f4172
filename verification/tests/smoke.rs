use globazog::error::Error;

#[test]
fn crate_links_and_error_displays() {
    let err = Error::Pattern("example".to_owned());
    assert!(err.message().contains("example"));
}

#[test]
fn option_error_message_is_prefixed() {
    let err = Error::Options("ring_capacity must be non-zero".to_owned());
    assert_eq!(err.message(), "invalid option: ring_capacity must be non-zero");
}

#[test]
fn io_errors_convert_into_the_crate_error() {
    let e: Error = std::io::Error::other("x").into();
    assert!(matches!(e, Error::Io(_)));
}
