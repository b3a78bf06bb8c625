use pddb_client::basis::{basis_list_request, BasisList, TAG_BASIS_RESPONSE};
use pddb_client::dict::{
    list_dict_request, path_list_request, DictList, EntryKind, PathList, TAG_DICT_RESPONSE,
    TAG_PATH_RESPONSE,
};
use pddb_client::senres::SenresStack;

#[test]
fn basis_request_layout() {
    let bytes = basis_list_request().into_vec();
    assert_eq!(&bytes[4..8], b"basQ");
    assert_eq!(&bytes[8..12], &1u32.to_le_bytes());
}

#[test]
fn basis_list_round_trip() {
    let stack = SenresStack::new(4096);
    let mut w = stack.writer_tagged(TAG_BASIS_RESPONSE);
    w.append(&1u32);
    w.append(&3u32);
    w.append(".System");
    w.append("secret");
    w.append("travel");
    let list = BasisList::new(w.finish()).unwrap();
    assert_eq!(list.len(), 3);
    let mut iter = list.iter();
    assert_eq!(iter.next(), Some(".System"));
    assert_eq!(iter.next(), Some("secret"));
    assert_eq!(iter.next(), Some("travel"));
    assert_eq!(iter.next(), None);
    // the walk is restartable only by asking again
    let mut again = list.iter();
    assert_eq!(again.next(), Some(".System"));
}

#[test]
fn empty_basis_list_is_immediately_exhausted() {
    let stack = SenresStack::new(4096);
    let mut w = stack.writer_tagged(TAG_BASIS_RESPONSE);
    w.append(&1u32);
    w.append(&0u32);
    let list = BasisList::new(w.finish()).unwrap();
    assert_eq!(list.len(), 0);
    let mut iter = list.iter();
    assert_eq!(iter.next(), None);
}

#[test]
fn basis_list_rejects_wrong_tag_or_version() {
    let stack = SenresStack::new(4096);
    let mut w = stack.writer_tagged(TAG_PATH_RESPONSE);
    w.append(&1u32);
    w.append(&0u32);
    assert!(BasisList::new(w.finish()).is_none());

    let stack = SenresStack::new(4096);
    let mut w = stack.writer_tagged(TAG_BASIS_RESPONSE);
    w.append(&9u32);
    w.append(&0u32);
    assert!(BasisList::new(w.finish()).is_none());
}

#[test]
fn dict_request_carries_basis() {
    let bytes = list_dict_request(Some(".System")).unwrap().into_vec();
    assert_eq!(&bytes[4..8], b"dicQ");
    assert_eq!(&bytes[8..12], &1u32.to_le_bytes());
    assert_eq!(bytes[12], 1);
    assert_eq!(&bytes[13..17], &7u32.to_le_bytes());
    assert_eq!(&bytes[17..24], b".System");

    let bytes = list_dict_request(None).unwrap().into_vec();
    assert_eq!(bytes[12], 0);
}

#[test]
fn dict_list_round_trip() {
    let stack = SenresStack::new(4096);
    let mut w = stack.writer_tagged(TAG_DICT_RESPONSE);
    w.append(&1u32);
    w.append(&2u32);
    w.append("wlan.networks");
    w.append("sys.rtc");
    let list = DictList::new(w.finish()).unwrap();
    assert_eq!(list.len(), 2);
    let mut iter = list.iter();
    assert_eq!(iter.next(), Some("wlan.networks"));
    assert_eq!(iter.next(), Some("sys.rtc"));
    assert_eq!(iter.next(), None);
}

#[test]
fn empty_dict_list_is_immediately_exhausted() {
    let stack = SenresStack::new(4096);
    let mut w = stack.writer_tagged(TAG_DICT_RESPONSE);
    w.append(&1u32);
    w.append(&0u32);
    let list = DictList::new(w.finish()).unwrap();
    assert_eq!(list.len(), 0);
    let mut iter = list.iter();
    assert_eq!(iter.next(), None);
}

#[test]
fn path_request_carries_path() {
    let bytes = path_list_request("sys.rtc").unwrap().into_vec();
    assert_eq!(&bytes[4..8], b"PthQ");
    assert_eq!(&bytes[8..12], &1u32.to_le_bytes());
    assert_eq!(&bytes[12..16], &7u32.to_le_bytes());
    assert_eq!(&bytes[16..23], b"sys.rtc");
}

#[test]
fn path_request_refuses_trailing_separator() {
    // grammar errors are reported before any request is built
    assert!(path_list_request("one:two:").is_err());
    assert!(path_list_request(":one:two:").is_err());
    assert!(path_list_request("foo:bar::").is_err());
    // a colon inside the remainder is a literal character, not an error
    assert!(path_list_request("wlan.networks:recent").is_ok());
    assert!(path_list_request("").is_ok());
    assert!(path_list_request(":").is_ok());
}

#[test]
fn path_list_round_trip() {
    let stack = SenresStack::new(4096);
    let mut w = stack.writer_tagged(TAG_PATH_RESPONSE);
    w.append(&1u32);
    w.append(&3u32);
    w.append(".System");
    w.append(&0u8);
    w.append("wlan.networks");
    w.append(&1u8);
    w.append("tz_offset");
    w.append(&2u8);
    let list = PathList::new(w.finish()).unwrap();
    assert_eq!(list.len(), 3);
    let entries = list.iter();
    assert_eq!(entries[0].name, ".System");
    assert_eq!(entries[0].kind, EntryKind::Basis);
    assert_eq!(entries[1].name, "wlan.networks");
    assert_eq!(entries[1].kind, EntryKind::Dict);
    assert_eq!(entries[2].name, "tz_offset");
    assert_eq!(entries[2].kind, EntryKind::Key);
}

#[test]
fn empty_path_list() {
    let stack = SenresStack::new(4096);
    let mut w = stack.writer_tagged(TAG_PATH_RESPONSE);
    w.append(&1u32);
    w.append(&0u32);
    let list = PathList::new(w.finish()).unwrap();
    assert_eq!(list.len(), 0);
    assert!(list.iter().is_empty());
}

#[test]
fn path_list_rejects_unknown_entry_kind() {
    let stack = SenresStack::new(4096);
    let mut w = stack.writer_tagged(TAG_PATH_RESPONSE);
    w.append(&1u32);
    w.append(&1u32);
    w.append("odd");
    w.append(&9u8);
    assert!(PathList::new(w.finish()).is_none());
}

#[test]
fn path_list_rejects_truncated_response() {
    let stack = SenresStack::new(4096);
    let mut w = stack.writer_tagged(TAG_PATH_RESPONSE);
    w.append(&1u32);
    w.append(&1u32); // one entry
    w.append(&60000u32); // name length prefix far beyond the buffer
    assert!(PathList::new(w.finish()).is_none());
}
