use container_format::{
    read_string_until_0x00, ClockError, Container, File, FormatError, MAGIC_NUMBER, Y_DIFFERENCE,
    Z_DIFFERENCE,
};
use std::time::{SystemTime, UNIX_EPOCH};

fn file(name: &str, content: &[u8]) -> File {
    File { name: name.to_string(), content: content.to_vec() }
}

fn sample(comment: &str, x: u64, files: Vec<File>) -> Container {
    Container { comment: comment.to_string(), x, y: x + 43, z: x + 34, files }
}

const SCENARIO: [u8; 31] = [
    0x46, 0x68, 0x69, 0x00, 0xE8, 0x03, 0x00, 0x00, 0x00, 0x00, 0x00, 0x00, 0x01, 0x00, 0x61,
    0x2E, 0x74, 0x78, 0x74, 0x00, 0x03, 0x00, 0x00, 0x00, 0x00, 0x00, 0x00, 0x00, 0x01, 0x02,
    0x03,
];

#[test]
fn create_container_has_correct_values() {
    let mut container = Container::new("Example").unwrap();
    let current_time = SystemTime::now().duration_since(UNIX_EPOCH).unwrap().as_secs();
    assert_eq!(container.x, current_time);
    assert_eq!(container.y, current_time + Y_DIFFERENCE);
    assert_eq!(container.z, current_time + Z_DIFFERENCE);
    assert_eq!(container.files.len(), 0); // files are empty

    // ensure you can add files
    let file_name = "C:\\farting.png".to_string();
    let file = File { name: file_name.clone(), content: vec![0x00, 0xF2] };
    container.add_file(file);
    assert_eq!(container.files.len(), 1);

    container.remove_file(file_name);
    assert_eq!(container.files.len(), 0);
}

#[test]
fn read_write() {
    let mut container = Container::new("The Best In The World").unwrap();

    let file_name = "C:\\hello.png".to_string();
    let file_content: [u8; 4] = [0x66, 0x66, 0x66, 0x66];
    let file = File { name: file_name, content: file_content.to_vec() };
    container.add_file(file);
    let file2 =
        File { name: "better file name!!!!".to_string(), content: [0x23, 0x54, 0xFF].to_vec() };
    container.add_file(file2);

    let as_bytes = container.to_bytes();

    let new_container = Container::from_bytes(as_bytes.as_slice()).unwrap();

    println!("{:?}", new_container.files);
}

#[test]
fn scenario_encodes_to_expected_bytes() {
    let c = sample("hi", 1000, vec![file("a.txt", &[1, 2, 3])]);
    assert_eq!(c.to_bytes(), SCENARIO.to_vec());
}

#[test]
fn scenario_decodes_to_expected_container() {
    let c = Container::from_bytes(&SCENARIO).unwrap();
    assert_eq!(c.comment, "hi");
    assert_eq!(c.x, 1000);
    assert_eq!(c.y, 1043);
    assert_eq!(c.z, 1034);
    assert_eq!(c.files.len(), 1);
    assert_eq!(c.files[0].name, "a.txt");
    assert_eq!(c.files[0].content, vec![1, 2, 3]);
}

#[test]
fn round_trip_keeps_every_field_and_order() {
    let c = sample(
        "comment ü",
        0x0102_0304_0506_0708,
        vec![file("one", &[]), file("two", &[0, 0, 255]), file("one", &[7])],
    );
    let d = Container::from_bytes(&c.to_bytes()).unwrap();
    assert_eq!(d.comment, c.comment);
    assert_eq!((d.x, d.y, d.z), (c.x, c.y, c.z));
    assert_eq!(d.files.len(), 3);
    for i in 0..3 {
        assert_eq!(d.files[i].name, c.files[i].name);
        assert_eq!(d.files[i].content, c.files[i].content);
    }
}

#[test]
fn encoding_size_matches_layout() {
    let c = sample("abc", 5, vec![file("n1", &[1, 2]), file("", &[9; 10])]);
    let expected = 1 + 4 + 8 + 2 + (3 + 8 + 2) + (1 + 8 + 10);
    assert_eq!(c.to_bytes().len(), expected);
}

#[test]
fn empty_container_encoding() {
    let c = sample("", 0, vec![]);
    assert_eq!(c.to_bytes(), vec![0x46, 0, 0, 0, 0, 0, 0, 0, 0, 0, 0, 0]);
    let d = Container::from_bytes(&c.to_bytes()).unwrap();
    assert_eq!(d.comment, "");
    assert_eq!((d.x, d.y, d.z), (0, 43, 34));
    assert!(d.files.is_empty());
}

#[test]
fn bad_magic_is_rejected() {
    let mut bytes = SCENARIO.to_vec();
    bytes[0] = 0x47;
    assert_eq!(Container::from_bytes(&bytes).unwrap_err(), FormatError::BadMagic);
    assert_eq!(Container::from_bytes(&[0x00]).unwrap_err(), FormatError::BadMagic);
    assert_eq!(MAGIC_NUMBER, 0x46);
}

#[test]
fn empty_buffer_is_truncated() {
    assert_eq!(Container::from_bytes(&[]).unwrap_err(), FormatError::Truncated);
}

#[test]
fn every_truncation_is_detected() {
    for keep in 1..SCENARIO.len() {
        assert_eq!(
            Container::from_bytes(&SCENARIO[..keep]).unwrap_err(),
            FormatError::Truncated,
            "prefix of {} bytes",
            keep
        );
    }
}

#[test]
fn trailing_bytes_are_ignored() {
    let mut bytes = SCENARIO.to_vec();
    bytes.extend_from_slice(&[0xAA, 0xBB]);
    let c = Container::from_bytes(&bytes).unwrap();
    assert_eq!(c.files.len(), 1);
    assert_eq!(c.files[0].content, vec![1, 2, 3]);
}

#[test]
fn declared_count_beyond_data_is_truncated() {
    let mut bytes = SCENARIO.to_vec();
    bytes[12] = 2;
    assert_eq!(Container::from_bytes(&bytes).unwrap_err(), FormatError::Truncated);
}

#[test]
fn huge_content_length_is_truncated() {
    let mut bytes = SCENARIO.to_vec();
    for b in &mut bytes[20..28] {
        *b = 0xFF;
    }
    assert_eq!(Container::from_bytes(&bytes).unwrap_err(), FormatError::Truncated);
}

#[test]
fn timestamp_overflow_is_reported() {
    let mut bytes = vec![0x46, 0x00];
    bytes.extend_from_slice(&u64::MAX.to_le_bytes());
    bytes.extend_from_slice(&[0, 0]);
    assert_eq!(Container::from_bytes(&bytes).unwrap_err(), FormatError::TimestampOverflow);
    let mut ok = vec![0x46, 0x00];
    ok.extend_from_slice(&(u64::MAX - 43).to_le_bytes());
    ok.extend_from_slice(&[0, 0]);
    let c = Container::from_bytes(&ok).unwrap();
    assert_eq!(c.y, u64::MAX);
    assert_eq!(c.z, u64::MAX - 9);
}

#[test]
fn invalid_utf8_is_replaced() {
    let bytes = vec![0x46, 0x61, 0xFF, 0x62, 0x00, 1, 0, 0, 0, 0, 0, 0, 0, 0, 0];
    let c = Container::from_bytes(&bytes).unwrap();
    assert_eq!(c.comment, "a\u{FFFD}b");
    assert_eq!(c.x, 1);
}

#[test]
fn file_count_is_truncated_to_sixteen_bits() {
    let files: Vec<File> = (0..65537).map(|_| file("", &[])).collect();
    let bytes = sample("", 0, files).to_bytes();
    assert_eq!(&bytes[10..12], &[1, 0]);
    assert_eq!(Container::from_bytes(&bytes).unwrap().files.len(), 1);
}

#[test]
fn embedded_zero_in_comment_desynchronizes() {
    let c = sample("a\u{0}b", 1, vec![]);
    let d = Container::from_bytes(&c.to_bytes()).unwrap();
    assert_eq!(d.comment, "a");
    assert_ne!(d.x, 1);
}

#[test]
fn read_string_stops_at_zero() {
    let bytes = [0x41, 0x42, 0x00, 0x43];
    let (s, next) = read_string_until_0x00(&bytes, 0).unwrap();
    assert_eq!(s, "AB");
    assert_eq!(next, 3);
    assert!(read_string_until_0x00(&bytes, 3).is_none());
}

#[test]
fn add_then_remove_returns_to_empty() {
    let mut c = sample("", 0, vec![]);
    c.add_file(file("f", &[1]));
    c.remove_file("f".to_string());
    assert!(c.files.is_empty());
}

#[test]
fn remove_takes_every_match_and_keeps_order() {
    let mut c = sample("", 0, vec![file("a", &[1]), file("b", &[2]), file("a", &[3]), file("c", &[4])]);
    c.remove_file("a".to_string());
    let names: Vec<&str> = c.files.iter().map(|f| f.name.as_str()).collect();
    assert_eq!(names, vec!["b", "c"]);
    c.remove_file("zzz".to_string());
    assert_eq!(c.files.len(), 2);
}

#[test]
fn get_file_returns_first_match() {
    let c = sample("", 0, vec![file("a", &[1]), file("b", &[2]), file("b", &[3])]);
    assert_eq!(c.get_file("b".to_string()).unwrap().content, vec![2]);
    assert!(c.get_file("x".to_string()).is_none());
}

#[test]
fn clock_readings_decide_construction() {
    let c = Container::with_clock_reading("note", Some(10)).unwrap();
    assert_eq!((c.x, c.y, c.z), (10, 53, 44));
    assert_eq!(c.comment, "note");
    assert!(c.files.is_empty());
    assert_eq!(
        Container::with_clock_reading("note", None).unwrap_err(),
        ClockError::Unavailable
    );
    assert_eq!(
        Container::with_clock_reading("note", Some(u64::MAX)).unwrap_err(),
        ClockError::OutOfRange
    );
}
