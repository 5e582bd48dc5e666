use hdfs_native::err::get_error_kind;
use hdfs_native::HdfsErr;
use std::io::ErrorKind;

#[test]
fn error_kinds_follow_the_variant() {
    assert_eq!(get_error_kind(&HdfsErr::Unknown), ErrorKind::Other);
    assert_eq!(
        get_error_kind(&HdfsErr::FileNotFound("/a".to_owned())),
        ErrorKind::NotFound
    );
    assert_eq!(
        get_error_kind(&HdfsErr::FileAlreadyExists("/a".to_owned())),
        ErrorKind::AlreadyExists
    );
    assert_eq!(
        get_error_kind(&HdfsErr::CannotConnectToNameNode("nn:9000".to_owned())),
        ErrorKind::ConnectionRefused
    );
    assert_eq!(
        get_error_kind(&HdfsErr::InvalidUrl("::".to_owned())),
        ErrorKind::AddrNotAvailable
    );
    assert_eq!(
        get_error_kind(&HdfsErr::IoError(std::io::Error::new(
            ErrorKind::TimedOut,
            "slow"
        ))),
        ErrorKind::Other
    );
}

#[test]
fn from_errno_gives_an_io_error() {
    assert!(matches!(HdfsErr::from_errno(), HdfsErr::IoError(_)));
}
