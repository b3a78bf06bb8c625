use pddb_client::key::{
    Key, KeyError, KeyList, ListKeyRequest, OpenKeyRequest, PddbRetcode, SeekFrom,
    TAG_LIST_KEY_RESPONSE, TAG_OPEN_KEY_RESPONSE, TAG_READ_KEY_RESPONSE, TAG_WRITE_KEY_RESPONSE,
};
use pddb_client::senres::SenresStack;

/// A fabricated open-key response granting a token and length.
fn open_response(len: u64) -> SenresStack {
    let stack = SenresStack::new(4096);
    let mut w = stack.writer_tagged(TAG_OPEN_KEY_RESPONSE);
    w.append(&1u8); // success
    w.append(&0xaaaa_0001u32);
    w.append(&0xbbbb_0002u32);
    w.append(&0xcccc_0003u32);
    w.append(&len);
    w.finish()
}

fn open_key(len: u64) -> Key {
    Key::open(7, &open_response(len)).expect("open failed")
}

#[test]
fn open_parses_token_and_length() {
    let key = open_key(10);
    assert_eq!(key.connection(), 7);
    assert_eq!(key.stream_offset(), 0);
    assert_eq!(key.stream_len(), 10);
    let token = key.token();
    assert_eq!(token.w0, 0xaaaa_0001);
    assert_eq!(token.w1, 0xbbbb_0002);
    assert_eq!(token.w2, 0xcccc_0003);
    assert!(key.release(Some(1)).is_ok());
}

#[test]
fn open_reports_remote_status() {
    let stack = SenresStack::new(4096);
    let mut w = stack.writer_tagged(TAG_OPEN_KEY_RESPONSE);
    w.append(&6u8); // disk full
    let response = w.finish();
    assert!(matches!(
        Key::open(7, &response),
        Err(KeyError::Status(PddbRetcode::DiskFull))
    ));
}

#[test]
fn open_rejects_wrong_tag() {
    let stack = SenresStack::new(4096);
    let mut w = stack.writer_tagged(TAG_READ_KEY_RESPONSE);
    w.append(&1u8);
    let response = w.finish();
    assert!(matches!(Key::open(7, &response), Err(KeyError::Framing)));
}

#[test]
fn seek_is_local_arithmetic() {
    // Cached length 10: an end-relative seek of +5 yields offset 15
    // and leaves the cached length alone.
    let mut key = open_key(10);
    assert_eq!(key.seek(SeekFrom::End(5)).unwrap(), 15);
    assert_eq!(key.stream_offset(), 15);
    assert_eq!(key.stream_len(), 10);

    assert_eq!(key.seek(SeekFrom::Start(3)).unwrap(), 3);
    assert_eq!(key.seek(SeekFrom::Current(-2)).unwrap(), 1);
    assert_eq!(key.seek(SeekFrom::Current(-2)), Err(KeyError::InvalidInput));
    assert_eq!(key.stream_offset(), 1);
    assert_eq!(key.seek(SeekFrom::End(i64::MIN)), Err(KeyError::InvalidInput));
    assert!(key.release(Some(1)).is_ok());
}

#[test]
fn seek_rejects_overflow() {
    let mut key = open_key(u64::MAX);
    assert_eq!(key.seek(SeekFrom::End(1)), Err(KeyError::InvalidInput));
    assert_eq!(key.stream_offset(), 0);
    assert!(key.release(Some(1)).is_ok());
}

/// A fabricated write-key response confirming `n` bytes.
fn write_response(n: u32) -> SenresStack {
    let stack = SenresStack::new(4096);
    let mut w = stack.writer_tagged(TAG_WRITE_KEY_RESPONSE);
    w.append(&1u8);
    w.append(&n);
    w.finish()
}

#[test]
fn write_past_end_grows_cached_length() {
    // Continuing the seek scenario: after seek(End, +5) on length 10,
    // a confirmed write of n bytes at offset 15 makes the length 15+n.
    let mut key = open_key(10);
    assert_eq!(key.seek(SeekFrom::End(5)).unwrap(), 15);
    let (request, m) = key.write_request(&[9u8, 8, 7]);
    assert_eq!(m, 3);
    assert_eq!(request.capacity(), 4096);
    let n = key.finish_write(&write_response(3)).unwrap();
    assert_eq!(n, 3);
    assert_eq!(key.stream_offset(), 18);
    assert_eq!(key.stream_len(), 18);
    assert!(key.release(Some(1)).is_ok());
}

#[test]
fn write_within_length_keeps_cached_length() {
    let mut key = open_key(100);
    let n = key.finish_write(&write_response(4)).unwrap();
    assert_eq!(n, 4);
    assert_eq!(key.stream_offset(), 4);
    assert_eq!(key.stream_len(), 100);
    assert!(key.release(Some(1)).is_ok());
}

#[test]
fn failed_write_changes_nothing() {
    let mut key = open_key(10);
    let stack = SenresStack::new(4096);
    let mut w = stack.writer_tagged(TAG_WRITE_KEY_RESPONSE);
    w.append(&3u8); // access denied
    let response = w.finish();
    assert_eq!(
        key.finish_write(&response),
        Err(KeyError::Status(PddbRetcode::AccessDenied))
    );
    assert_eq!(key.stream_offset(), 0);
    assert_eq!(key.stream_len(), 10);
    assert!(key.release(Some(1)).is_ok());
}

#[test]
fn read_advances_offset_only() {
    let mut key = open_key(10);
    let request = key.read_request(100);
    assert_eq!(request.capacity(), 4096);

    let stack = SenresStack::new(4096);
    let mut w = stack.writer_tagged(TAG_READ_KEY_RESPONSE);
    w.append(&1u8);
    w.append(&vec![10u8, 20, 30, 40]);
    let response = w.finish();

    let data = key.finish_read(&response).unwrap();
    assert_eq!(data, vec![10u8, 20, 30, 40]);
    assert_eq!(key.stream_offset(), 4);
    assert_eq!(key.stream_len(), 10);
    assert!(key.release(Some(1)).is_ok());
}

#[test]
fn read_error_leaves_handle_unchanged() {
    let mut key = open_key(10);
    let stack = SenresStack::new(4096);
    let mut w = stack.writer_tagged(TAG_READ_KEY_RESPONSE);
    w.append(&4u8); // unexpected end of stream
    let response = w.finish();
    assert_eq!(
        key.finish_read(&response),
        Err(KeyError::Status(PddbRetcode::UnexpectedEof))
    );
    assert_eq!(key.stream_offset(), 0);
    assert!(key.release(Some(1)).is_ok());
}

#[test]
fn every_open_is_released_once_even_after_errors() {
    // Resource discipline: a successful open is paired with exactly
    // one release, also when an operation on the handle failed first.
    // A second release of the same handle cannot be written at all:
    // `release` consumes the handle.
    let mut key = open_key(10);
    let bad = SenresStack::new(4096);
    assert_eq!(key.finish_read(&bad), Err(KeyError::Framing));
    assert!(key.release(Some(1)).is_ok());
}

#[test]
fn unexpected_release_confirmation_is_reported() {
    let key = open_key(10);
    assert_eq!(key.release(Some(0)), Err(KeyError::Protocol));
}

#[test]
fn missing_release_confirmation_is_reported() {
    let key = open_key(10);
    assert_eq!(key.release(None), Err(KeyError::Protocol));
}

#[test]
fn flush_maps_scalar_confirmations() {
    let key = open_key(10);
    assert!(key.finish_flush(Some(1)).is_ok());
    assert_eq!(
        key.finish_flush(Some(6)),
        Err(KeyError::Status(PddbRetcode::DiskFull))
    );
    assert_eq!(
        key.finish_flush(Some(77)),
        Err(KeyError::Status(PddbRetcode::Invalid))
    );
    assert_eq!(key.finish_flush(None), Err(KeyError::Protocol));
    assert!(key.release(Some(1)).is_ok());
}

#[test]
fn open_request_carries_names() {
    let request = OpenKeyRequest::new(
        Some(".System"),
        "wlan.networks",
        "Home Wifi",
        false,
        true,
        None,
    )
    .unwrap();
    let bytes = request.into_stack().into_vec();
    // marker, tag, version, then the presence byte of the basis name
    assert_eq!(&bytes[4..8], b"OkyQ");
    assert_eq!(&bytes[8..12], &1u32.to_le_bytes());
    assert_eq!(bytes[12], 1);
    assert_eq!(&bytes[13..17], &7u32.to_le_bytes());
    assert_eq!(&bytes[17..24], b".System");
}

#[test]
fn list_key_request_and_response() {
    let request = ListKeyRequest::new(None, "wlan.networks").unwrap();
    let bytes = request.into_stack().into_vec();
    assert_eq!(&bytes[4..8], b"keyQ");
    assert_eq!(bytes[12], 0);

    let stack = SenresStack::new(4096);
    let mut w = stack.writer_tagged(TAG_LIST_KEY_RESPONSE);
    w.append(&1u32);
    w.append(&2u32);
    w.append("Renode");
    w.append("Home Wifi");
    let list = KeyList::new(w.finish()).unwrap();
    assert_eq!(list.len(), 2);
    let mut iter = list.iter();
    assert_eq!(iter.next(), Some("Renode"));
    assert_eq!(iter.next(), Some("Home Wifi"));
    assert_eq!(iter.next(), None);
}

#[test]
fn empty_key_list_is_immediately_exhausted() {
    let stack = SenresStack::new(4096);
    let mut w = stack.writer_tagged(TAG_LIST_KEY_RESPONSE);
    w.append(&1u32);
    w.append(&0u32);
    let list = KeyList::new(w.finish()).unwrap();
    assert_eq!(list.len(), 0);
    let mut iter = list.iter();
    assert_eq!(iter.next(), None);
}

#[test]
fn key_list_rejects_wrong_version() {
    let stack = SenresStack::new(4096);
    let mut w = stack.writer_tagged(TAG_LIST_KEY_RESPONSE);
    w.append(&2u32);
    w.append(&0u32);
    assert!(KeyList::new(w.finish()).is_none());
}
