use cdio_paranoia::error::{Error, TransportError};

#[test]
fn error_transport_codes() {
    for code in 0..12 {
        assert_eq!(TransportError::from_code(code).code(), code);
    }
    assert_eq!(TransportError::from_code(-1), TransportError::Unknown);
    assert_eq!(TransportError::from(2), TransportError::ReadError);
    assert_eq!(TransportError::from_driver_code(11), TransportError::Unknown);
    assert_eq!(TransportError::from_driver_code(9), TransportError::Fault);
    assert_eq!(TransportError::Busy.description(), "Device busy");
    assert_eq!(TransportError::Success.description(), "Success");
}

#[test]
fn error_from_io() {
    let io = std::io::Error::new(std::io::ErrorKind::Other, "boom");
    let e = Error::from(io);
    assert!(matches!(e, Error::IoError(_)));
}
