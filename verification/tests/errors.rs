use matchday::error::{DecodeError, Error, IOError};

#[test]
fn io_error_keeps_file_and_source() {
    let e = IOError::new(
        std::path::PathBuf::from("/tmp/competitors.json"),
        std::io::Error::new(std::io::ErrorKind::NotFound, "gone"),
    );
    let text = format!("{e:?}");
    assert!(text.contains("competitors.json"));
    assert!(text.contains("gone"));
}

#[test]
fn error_kinds_can_be_told_apart() {
    let transport = Error::Transport {
        detail: "connection refused".to_string(),
    };
    let storage = Error::Storage(IOError::new(
        std::path::PathBuf::from("stats"),
        std::io::Error::new(std::io::ErrorKind::PermissionDenied, "no"),
    ));
    let decode = Error::Decode {
        file: Some("competitors.json".to_string()),
        cause: DecodeError { offset: 0 },
    };
    let configuration = Error::Configuration {
        variable: "SPORTRADAR_API_KEY".to_string(),
    };
    assert!(matches!(transport, Error::Transport { .. }));
    assert!(matches!(storage, Error::Storage(_)));
    assert!(matches!(decode, Error::Decode { file: Some(_), .. }));
    assert!(matches!(
        configuration,
        Error::Configuration { ref variable } if variable == "SPORTRADAR_API_KEY"
    ));
}
