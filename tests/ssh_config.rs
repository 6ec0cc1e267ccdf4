use filessh::ssh_config::de::{default_port, Deserializer, ParserError};
use filessh::ssh_config::reader::SSHConfigReader;
use filessh::ssh_config::{from_str, Host, Hosts};

#[test]
fn de_test_deserialize_host() {
    let test_str = "Host mc_server
    HostName 141.148.218.223
    User opc
        Port 22
    IdentityFile ~/Downloads/ssh-key-2024-06-13.key ";
    println!("starting deserialization");
    let host: Host = from_str(test_str.trim()).unwrap();
    println!("{:?}", host);
    assert_eq!(host.host_name, "141.148.218.223");
    assert_eq!(host.user, "opc");
    assert_eq!(host.port, 22);
}

#[test]
fn test_deserialize_hosts_multiple() {
    let test_str = "Host mc_server
    HostName 141.148.218.223
    User opc
    Port 22
    IdentityFile ~/Downloads/ssh-key-2024-06-13.key

Host git_server
    HostName github.com
    User git
    Port 2222
    IdentityFile ~/.ssh/id_rsa";

    let hosts: Hosts = from_str(test_str).unwrap();
    println!("{:?}", hosts);
    assert_eq!(hosts.0.len(), 2);

    let h1 = &hosts.0[0];
    assert_eq!(h1.host_name, "141.148.218.223");
    assert_eq!(h1.user, "opc");

    let h2 = &hosts.0[1];
    assert_eq!(h2.host_name, "github.com");
    assert_eq!(h2.user, "git");
    assert_eq!(h2.port, 2222);
}

#[test]
fn host_identity_file_is_kept() {
    let host: Host =
        from_str("Host a\n HostName h\n User u\n IdentityFile ~/.ssh/key\n Port 2200").unwrap();
    assert_eq!(
        host,
        Host {
            host_name: "h".to_string(),
            user: "u".to_string(),
            identity_file: "~/.ssh/key".to_string(),
            port: 2200,
        }
    );
}

#[test]
fn missing_port_defaults_to_22() {
    let host: Host = from_str("Host a\nHostName h\nUser u\nIdentityFile k\n").unwrap();
    assert_eq!(host.port, 22);
    assert_eq!(default_port(), 22);
}

#[test]
fn comments_and_unknown_keys_are_skipped() {
    let text = "# top comment\n\nHost a\n  # a note\n  HostName h # trailing\n  ForwardAgent yes\n  User u\n  IdentityFile k\n";
    let hosts: Hosts = from_str(text).unwrap();
    assert_eq!(hosts.0.len(), 1);
    assert_eq!(hosts.0[0].host_name, "h");
    assert_eq!(hosts.0[0].user, "u");
    assert_eq!(hosts.0[0].identity_file, "k");
    assert_eq!(hosts.0[0].port, 22);
}

#[test]
fn missing_user_is_reported() {
    let r: Result<Host, ParserError> = from_str("Host a\nHostName h\nIdentityFile k\n");
    match r {
        Err(ParserError::Message(m)) => assert_eq!(m, "missing field `User`"),
        other => panic!("unexpected {:?}", other),
    }
}

#[test]
fn duplicate_key_is_reported() {
    let r: Result<Host, ParserError> = from_str("Host a\nHostName h\nHostName g\nUser u\nIdentityFile k\n");
    match r {
        Err(ParserError::Message(m)) => assert_eq!(m, "duplicate field `HostName`"),
        other => panic!("unexpected {:?}", other),
    }
}

#[test]
fn port_must_be_a_number() {
    let r: Result<Host, ParserError> = from_str("Host a\nPort x22\n");
    assert!(matches!(r, Err(ParserError::ExpectedInteger)));
}

#[test]
fn port_over_u16_is_rejected() {
    let r: Result<Host, ParserError> = from_str("Host a\nPort 65536\nHostName h\nUser u\nIdentityFile k\n");
    assert!(matches!(r, Err(ParserError::ExpectedInteger)));
    let ok: Host = from_str("Host a\nPort 65535\nHostName h\nUser u\nIdentityFile k\n").unwrap();
    assert_eq!(ok.port, 65535);
}

#[test]
fn port_at_end_of_input_is_eof() {
    let r: Result<Host, ParserError> = from_str("Host a\nPort");
    assert!(matches!(r, Err(ParserError::Eof)));
}

#[test]
fn host_without_alias_is_eof() {
    let r: Result<Host, ParserError> = from_str("Host");
    assert!(matches!(r, Err(ParserError::Eof)));
}

#[test]
fn block_must_open_with_host() {
    let r: Result<Host, ParserError> = from_str("User u\n");
    assert!(matches!(r, Err(ParserError::UnexpectedToken)));
    let r: Result<Hosts, ParserError> = from_str("Match all\n");
    assert!(matches!(r, Err(ParserError::UnexpectedToken)));
}

#[test]
fn second_block_ends_a_single_host() {
    let r: Result<Host, ParserError> =
        from_str("Host a\nHostName h\nUser u\nIdentityFile k\nHost b\nHostName g\n");
    assert!(matches!(r, Err(ParserError::TrailingCharacters)));
}

#[test]
fn empty_file_has_no_hosts() {
    let r: Result<Hosts, ParserError> = from_str("  \n# nothing\n");
    match r {
        Err(e) => assert_eq!(
            e.message(),
            "invalid length 0, expected tuple struct Hosts with 1 element"
        ),
        Ok(h) => panic!("unexpected {:?}", h),
    }
}

#[test]
fn deserializer_starts_at_the_beginning() {
    let _de = Deserializer::from_str("Host a");
}

#[test]
fn reader_concatenates_texts() {
    let mut reader = SSHConfigReader::new();
    reader.push_text("Host a\n");
    reader.push_text("HostName h\n");
    assert_eq!(reader.finalize(), "Host a\nHostName h\n");
}
