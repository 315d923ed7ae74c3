use fab::error::FabError;

#[test]
fn io_error_converts() {
    let e = std::io::Error::new(std::io::ErrorKind::Other, "boom");
    assert!(matches!(FabError::from(e), FabError::IoError(_)));
}

#[test]
fn bincode_error_converts() {
    let e: bincode::Error = bincode::deserialize::<String>(&[1]).unwrap_err();
    assert!(matches!(FabError::from(e), FabError::BincodeError(_)));
}

#[test]
fn poison_error_converts() {
    let e = std::sync::PoisonError::new(5u8);
    assert!(matches!(FabError::from(e), FabError::MutexPoisonedError));
}

#[test]
fn descriptions() {
    assert_eq!(FabError::AlreadyListeningError.describe(), "Already listening on that port");
    assert_eq!(FabError::NotListeningError.describe(), "Not listening on that port");
    assert_eq!(FabError::MutexPoisonedError.describe(), "Mutex poisoned");
    assert_eq!(FabError::ChannelSendError.describe(), "Channel failed");
    assert_eq!(FabError::ChannelRecvError.describe(), "Channel receive error");
    let io = FabError::IoError(std::io::Error::new(std::io::ErrorKind::Other, "boom"));
    let d = io.describe();
    assert!(d.starts_with("IO error: "));
    assert!(d.contains("boom"));
    let b = FabError::from(bincode::deserialize::<String>(&[1]).unwrap_err());
    assert!(b.describe().starts_with("Error with bincode: "));
}
