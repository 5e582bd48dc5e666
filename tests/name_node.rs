use hdfs_native::name_node::{get_name_node, name_node_from_parts, HostPort, NNScheme};
use std::io::ErrorKind;

fn remote(n: Result<NNScheme, ErrorKind>) -> (String, u16) {
    match n {
        Ok(NNScheme::Remote(hp)) => (hp.host, hp.port),
        Ok(NNScheme::Local) => panic!("local name node"),
        Err(k) => panic!("error {:?}", k),
    }
}

#[test]
fn file_scheme_is_local() {
    assert!(matches!(get_name_node("file:///tmp/data"), Ok(NNScheme::Local)));
    assert!(matches!(
        name_node_from_parts("file", None, None),
        Ok(NNScheme::Local)
    ));
}

#[test]
fn remote_url_gives_scheme_host_and_port() {
    assert_eq!(
        remote(get_name_node("hdfs://localhost:9000/testing")),
        ("hdfs://localhost".to_owned(), 9000)
    );
    assert_eq!(
        remote(get_name_node("hdfs://[::1]:8020")),
        ("hdfs://[::1]".to_owned(), 8020)
    );
    assert_eq!(
        remote(name_node_from_parts("viewfs", Some("cluster"), Some(1))),
        ("viewfs://cluster".to_owned(), 1)
    );
}

#[test]
fn missing_port_or_host_is_invalid_input() {
    assert!(matches!(
        get_name_node("hdfs://localhost/testing"),
        Err(ErrorKind::InvalidInput)
    ));
    assert!(matches!(
        name_node_from_parts("hdfs", None, Some(9000)),
        Err(ErrorKind::InvalidInput)
    ));
    assert!(matches!(
        name_node_from_parts("hdfs", Some("nn"), None),
        Err(ErrorKind::InvalidInput)
    ));
}

#[test]
fn text_that_is_no_url_is_invalid_input() {
    assert!(matches!(get_name_node("not a url"), Err(ErrorKind::InvalidInput)));
    assert!(matches!(get_name_node(""), Err(ErrorKind::InvalidInput)));
}

#[test]
fn keys_of_name_nodes() {
    assert_eq!(NNScheme::Local.to_string(), "file:///");
    let key = |port: u16| {
        NNScheme::Remote(HostPort {
            host: "hdfs://nn".to_owned(),
            port,
        })
        .to_string()
    };
    assert_eq!(key(9000), "hdfs://nn:9000");
    assert_eq!(key(0), "hdfs://nn:0");
    assert_eq!(key(7), "hdfs://nn:7");
    assert_eq!(key(10), "hdfs://nn:10");
    assert_eq!(key(65535), "hdfs://nn:65535");
}
