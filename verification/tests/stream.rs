use riffol::{Address, Facility, LineBuffer, Severity, Stream};

#[test]
fn no_newline_means_no_line_yet() {
    let mut buf = LineBuffer::new();
    buf.push_bytes(b"partial");
    assert_eq!(buf.take_line(), None);
}

#[test]
fn a_completed_line_loses_its_newline() {
    let mut buf = LineBuffer::new();
    buf.push_bytes(b"hello world\n");
    assert_eq!(buf.take_line(), Some(b"hello world".to_vec()));
    assert_eq!(buf.take_line(), None);
}

#[test]
fn lines_split_across_chunks_are_reassembled() {
    let mut buf = LineBuffer::new();
    buf.push_bytes(b"hel");
    assert_eq!(buf.take_line(), None);
    buf.push_bytes(b"lo\nwor");
    assert_eq!(buf.take_line(), Some(b"hello".to_vec()));
    assert_eq!(buf.take_line(), None);
    buf.push_bytes(b"ld\n");
    assert_eq!(buf.take_line(), Some(b"world".to_vec()));
}

#[test]
fn one_chunk_may_hold_many_lines() {
    let mut buf = LineBuffer::new();
    buf.push_bytes(b"a\nb\n\nc");
    assert_eq!(buf.take_line(), Some(b"a".to_vec()));
    assert_eq!(buf.take_line(), Some(b"b".to_vec()));
    // an empty line is still a line
    assert_eq!(buf.take_line(), Some(b"".to_vec()));
    assert_eq!(buf.take_line(), None);
}

#[test]
fn sink_descriptors_carry_their_configuration() {
    let file = Stream::File { filename: "/var/log/app.log".to_string() };
    assert!(matches!(file, Stream::File { ref filename } if filename == "/var/log/app.log"));

    let sys = Stream::Syslog {
        address: Address::Udp {
            server: "10.0.0.1:514".to_string(),
            local: "0.0.0.0:0".to_string(),
        },
        facility: Facility::Daemon,
        severity: Severity::Warning,
    };
    match sys {
        Stream::Syslog { address: Address::Udp { server, local }, facility, severity } => {
            assert_eq!(server, "10.0.0.1:514");
            assert_eq!(local, "0.0.0.0:0");
            assert_eq!(facility, Facility::Daemon);
            assert_eq!(severity, Severity::Warning);
        },
        _ => panic!("expected a UDP syslog sink"),
    }
}
