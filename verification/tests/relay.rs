use vhrn::server::relay::{
    relay, CopyAction, Direction, RelayError, RelayStart, MAX_PREFIX_BYTES, RELAY_BUFFER_BYTES,
};

/// Copies a source through one direction and returns what comes out.
fn copied(prefix: &[u8], source: &[u8]) -> Vec<u8> {
    let mut direction = Direction::new(prefix.to_vec());
    let mut out = Vec::new();
    let mut at = 0;
    loop {
        match direction.action() {
            CopyAction::Write => {
                out.extend_from_slice(direction.bytes());
                direction = direction.written();
            },
            CopyAction::Read => {
                let count = (source.len() - at).min(RELAY_BUFFER_BYTES);
                direction = direction.read(&source[at..at + count]);
                at += count;
            },
            CopyAction::Finish => direction = direction.shut_down(),
            CopyAction::Done => return out,
        }
    }
}

#[test]
fn already_cancelled_returns_without_waiting() {
    assert!(matches!(relay(true, Vec::new(), Vec::new()), Ok(RelayStart::Cancelled)));
}

#[test]
fn eager_prefixes_are_first_and_lossless_in_both_directions() {
    let downstream_prefix = vec![0x16; 12 * 1024];
    let upstream_prefix = vec![0x17; 12 * 1024];
    let Ok(RelayStart::Relay { upward, downward }) =
        relay(false, downstream_prefix.clone(), upstream_prefix.clone())
    else {
        panic!("both directions");
    };
    assert_eq!(upward.bytes(), downstream_prefix);
    assert_eq!(downward.bytes(), upstream_prefix);
    let mut expected = downstream_prefix.clone();
    expected.extend_from_slice(b"client-suffix");
    assert_eq!(copied(&downstream_prefix, b"client-suffix"), expected);
    let mut expected = upstream_prefix.clone();
    expected.extend_from_slice(b"origin-suffix");
    assert_eq!(copied(&upstream_prefix, b"origin-suffix"), expected);
}

#[test]
fn simultaneous_traffic_and_queued_bytes_survive_client_eof() {
    let client_bytes = vec![0x31; 128 * 1024];
    let origin_bytes = vec![0x32; 128 * 1024];
    assert_eq!(copied(b"", &client_bytes), client_bytes);
    assert_eq!(copied(b"", &origin_bytes), origin_bytes);
}

#[test]
fn upstream_eof_keeps_client_write_half_open() {
    let Ok(RelayStart::Relay { upward, downward }) = relay(false, Vec::new(), Vec::new()) else {
        panic!("both directions");
    };
    let downward = downward.read(b"sentinel").written().read(b"");
    assert_eq!(downward.action(), CopyAction::Finish);
    assert_eq!(downward.shut_down().action(), CopyAction::Done);
    assert_eq!(upward.action(), CopyAction::Read);
    let upward = upward.read(b"request after upstream eof");
    assert_eq!(upward.bytes(), b"request after upstream eof");
}

#[test]
fn nonrecoverable_io_error_is_redacted_and_closes_both_streams() {
    assert_eq!(RelayError.message(), "CONNECT tunnel I/O failure");
}

#[test]
fn prefixes_are_bounded() {
    assert!(relay(false, vec![0; MAX_PREFIX_BYTES], Vec::new()).is_ok());
    assert_eq!(relay(false, vec![0; MAX_PREFIX_BYTES + 1], Vec::new()).err(), Some(RelayError));
    assert_eq!(relay(false, Vec::new(), vec![0; MAX_PREFIX_BYTES + 1]).err(), Some(RelayError));
}
