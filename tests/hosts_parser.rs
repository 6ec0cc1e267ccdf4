use filessh::hosts_parser::{from_str, Deserializer, Host, Hosts, ParserError};

#[test]
fn hosts_parser_test_deserialize_host() {
    let test_str = "Host mc_server\n\tHostName 141.148.218.223\n\tUser opc\n        Port 22\n\tIdentityFile ~/Downloads/ssh-key-2024-06-13.key ";
    println!("starting deserialization");
    let host: Host = from_str(test_str.trim()).unwrap();
    println!("{:?}", host);
}

#[test]
fn strict_host_fields() {
    let test_str = "Host mc_server\n\tHostName 141.148.218.223\n\tUser opc\n        Port 22\n\tIdentityFile ~/Downloads/ssh-key-2024-06-13.key ";
    let host: Host = from_str(test_str.trim()).unwrap();
    assert_eq!(host.host_name, "141.148.218.223");
    assert_eq!(host.user, "opc");
    assert_eq!(host.port, 22);
    assert_eq!(host.identity_file, "~/Downloads/ssh-key-2024-06-13.key");
}

#[test]
fn strict_port_is_required() {
    let r: Result<Host, ParserError> = from_str("Host a\n\tHostName h\n\tUser u\n\tIdentityFile k");
    match r {
        Err(ParserError::Message(m)) => assert_eq!(m, "missing field `Port`"),
        other => panic!("unexpected {:?}", other),
    }
}

#[test]
fn strict_key_needs_one_blank() {
    let r: Result<Host, ParserError> = from_str("Host a\n\tHostName\nh");
    assert!(matches!(r, Err(ParserError::UnexpectedToken)));
}

#[test]
fn strict_lines_must_break() {
    let r: Result<Host, ParserError> = from_str("Host a\n\tHostName h User u");
    assert!(matches!(r, Err(ParserError::UnexpectedToken)));
}

#[test]
fn strict_trailing_blank_is_refused() {
    let r: Result<Host, ParserError> =
        from_str("Host a\n\tHostName h\n\tUser u\n\tIdentityFile k\n\tPort 1 ");
    assert!(matches!(r, Err(ParserError::UnexpectedToken)));
}

#[test]
fn strict_types_exist() {
    let _de = Deserializer::from_str("Host a");
    let hosts = Hosts { hosts: Vec::new() };
    assert!(hosts.hosts.is_empty());
}
