use pddb_client::senres::{SenresStack, SENRES_V1_MAGIC};

#[test]
fn main() {
    let sr1 = SenresStack::new(4096);
    let sr3 = SenresStack::new(8192);
    let sr5 = SenresStack::new(4096);

    println!("Size of sr1: {}", sr1.capacity());
    println!("Size of sr3: {}", sr3.capacity());
    println!("Size of sr5: {}", sr5.capacity());

    let mut writer = sr1.writer();
    writer.append(&16777215u32);
    writer.append(&u64::MAX);
    writer.append("Hello, world!");
    writer.append("String2");
    writer.append::<Option<u32>>(&None);
    writer.append::<Option<u32>>(&Some(42));
    writer.append(&vec![1i32, 2, 3, 4, 5]);
    writer.append(&vec![5u8, 4, 3, 2]);
    writer.append(&vec![
        String::from("Hello"),
        String::from("There"),
        String::from("World"),
    ]);
    let sr1 = writer.finish();
    println!("sr1: {:?}", sr1);

    let mut reader = sr1.reader().expect("couldn't get reader");
    let val: u32 = reader.try_get_from().expect("couldn't get the u32 value");
    println!("u32 val: {}", val);
    assert_eq!(val, 16777215);
    let val: u64 = reader.try_get_from().expect("couldn't get the u64 value");
    println!("u64 val: {:x}", val);
    assert_eq!(val, u64::MAX);
    let val: &str = reader.try_get_ref_from().expect("couldn't get string value");
    println!("String val: {}", val);
    assert_eq!(val, "Hello, world!");
    let val: String = reader.try_get_from().expect("couldn't get string2 value");
    println!("String2 val: {}", val);
    assert_eq!(val, "String2");
    let val: Option<u32> = reader.try_get_from().expect("couldn't get Option<u32>");
    println!("Option<u32> val: {:?}", val);
    assert_eq!(val, None);
    let val: Option<u32> = reader.try_get_from().expect("couldn't get Option<u32>");
    println!("Option<u32> val: {:?}", val);
    assert_eq!(val, Some(42));
    let val: Vec<i32> = reader.try_get_from().expect("couldn't get &[i32]");
    println!("&[i32] val: {:?}", val);
    assert_eq!(val, vec![1i32, 2, 3, 4, 5]);
    let val: &[u8] = reader.try_get_bytes_ref().expect("couldn't get &[u8]");
    println!("&[u8] val: {:?}", val);
    assert_eq!(val, &[5u8, 4, 3, 2]);
}

#[test]
fn end_to_end_three_values_one_buffer() {
    let stack = SenresStack::new(4096);
    let mut w = stack.writer();
    assert!(w.append(&16777215u32));
    assert!(w.append(&u64::MAX));
    assert!(w.append("Hello, world!"));
    let written = w.offset();
    let stack = w.finish();

    let mut r = stack.reader().unwrap();
    assert_eq!(r.try_get_from::<u32>().unwrap(), 16777215);
    assert_eq!(r.try_get_from::<u64>().unwrap(), u64::MAX);
    assert_eq!(r.try_get_from::<String>().unwrap(), "Hello, world!");
    assert_eq!(r.position(), written);
}

#[test]
fn round_trip_all_scalar_kinds() {
    let stack = SenresStack::new(4096);
    let mut w = stack.writer();
    assert!(w.append(&0x12u8));
    assert!(w.append(&-7i8));
    assert!(w.append(&0xbeefu16));
    assert!(w.append(&-12345i16));
    assert!(w.append(&0xdead_beefu32));
    assert!(w.append(&-123456789i32));
    assert!(w.append(&0x0123_4567_89ab_cdefu64));
    assert!(w.append(&i64::MIN));
    let written = w.offset();
    let stack = w.finish();

    let mut r = stack.reader().unwrap();
    assert_eq!(r.try_get_from::<u8>().unwrap(), 0x12);
    assert_eq!(r.try_get_from::<i8>().unwrap(), -7);
    assert_eq!(r.try_get_from::<u16>().unwrap(), 0xbeef);
    assert_eq!(r.try_get_from::<i16>().unwrap(), -12345);
    assert_eq!(r.try_get_from::<u32>().unwrap(), 0xdead_beef);
    assert_eq!(r.try_get_from::<i32>().unwrap(), -123456789);
    assert_eq!(r.try_get_from::<u64>().unwrap(), 0x0123_4567_89ab_cdef);
    assert_eq!(r.try_get_from::<i64>().unwrap(), i64::MIN);
    assert_eq!(r.position(), written);
}

#[test]
fn round_trip_nested_option_and_sequences() {
    let stack = SenresStack::new(4096);
    let mut w = stack.writer();
    assert!(w.append::<Option<Option<u16>>>(&Some(Some(7))));
    assert!(w.append::<Option<Option<u16>>>(&Some(None)));
    assert!(w.append(&vec![vec![1u8, 2], vec![], vec![3u8]]));
    assert!(w.append::<Option<String>>(&Some(String::from("αβγ"))));
    let written = w.offset();
    let stack = w.finish();

    let mut r = stack.reader().unwrap();
    assert_eq!(r.try_get_from::<Option<Option<u16>>>().unwrap(), Some(Some(7)));
    assert_eq!(r.try_get_from::<Option<Option<u16>>>().unwrap(), Some(None));
    assert_eq!(
        r.try_get_from::<Vec<Vec<u8>>>().unwrap(),
        vec![vec![1u8, 2], vec![], vec![3u8]]
    );
    assert_eq!(
        r.try_get_from::<Option<String>>().unwrap(),
        Some(String::from("αβγ"))
    );
    assert_eq!(r.position(), written);
}

#[test]
fn header_layout_is_marker_then_tag() {
    let stack = SenresStack::new(4096);
    let w = stack.writer_tagged(0x5173_6162);
    let bytes = w.finish().into_vec();
    assert_eq!(&bytes[0..4], &SENRES_V1_MAGIC.to_le_bytes());
    assert_eq!(&bytes[4..8], b"basQ");
}

#[test]
fn reader_rejects_missing_marker() {
    let stack = SenresStack::new(4096);
    assert!(stack.reader().is_none());

    let mut raw = vec![0u8; 4096];
    raw[0] = 1;
    let stack = SenresStack::from_vec(raw).unwrap();
    assert!(stack.reader().is_none());
}

#[test]
fn reader_rejects_wrong_tag() {
    let stack = SenresStack::new(4096);
    let mut w = stack.writer_tagged(0x5173_6162);
    w.append(&1u32);
    let stack = w.finish();
    assert!(stack.reader_tagged(0x5273_6162).is_none());
    assert!(stack.reader_tagged(0x5173_6162).is_some());
}

#[test]
fn append_fails_whole_when_out_of_capacity() {
    let stack = SenresStack::new(4096);
    let mut w = stack.writer();
    let big = vec![7u8; 5000];
    assert!(!w.append(&big));
    let small = vec![1u8, 2, 3];
    assert!(w.append(&small));
    let stack = w.finish();
    let mut r = stack.reader().unwrap();
    assert_eq!(r.try_get_from::<Vec<u8>>().unwrap(), vec![1u8, 2, 3]);
}

#[test]
fn malformed_length_fails_decode() {
    let stack = SenresStack::new(4096);
    let mut w = stack.writer();
    assert!(w.append(&100_000u32));
    let stack = w.finish();
    let mut r = stack.reader().unwrap();
    assert!(r.try_get_ref_from().is_err());
    // a failed decode leaves the cursor where it was: the same field
    // fails again, and the malformed length prefix is still in place
    assert!(r.try_get_from::<String>().is_err());
    assert_eq!(r.try_get_from::<u32>().unwrap(), 100_000);
}

#[test]
fn invalid_utf8_fails_string_decode() {
    let stack = SenresStack::new(4096);
    let mut w = stack.writer();
    assert!(w.append(&2u32));
    assert!(w.append(&0xffu8));
    assert!(w.append(&0xfeu8));
    let stack = w.finish();
    let mut r = stack.reader().unwrap();
    assert!(r.try_get_ref_from().is_err());
}

#[test]
fn from_vec_refuses_unaligned_length() {
    assert!(SenresStack::from_vec(vec![0u8; 100]).is_none());
    assert!(SenresStack::from_vec(vec![]).is_none());
    assert!(SenresStack::from_vec(vec![0u8; 8192]).is_some());
}

#[test]
fn default_is_one_page() {
    let stack = SenresStack::default();
    assert_eq!(stack.capacity(), 4096);
}
