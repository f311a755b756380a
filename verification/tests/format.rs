use bawikv::codec::{decode_command, encode_command, Command};
use bawikv::error::InternalError;
use bawikv::naive::BawiDB;
use bawikv::store::{log_path, sorted_logs_list, CommandPos};

#[test]
fn put_record_round_trips() {
    let cmd = Command::set("clé".to_string(), "значение".to_string());
    let bytes = encode_command(&cmd);
    let (decoded, end) = decode_command(&bytes, 0).expect("own encoding decodes");
    assert_eq!(end, bytes.len());
    match decoded {
        Command::Put { key, value } => {
            assert_eq!(key, "clé");
            assert_eq!(value, "значение");
        }
        Command::Remove { .. } => panic!("a put record decoded as a remove"),
    }
}

#[test]
fn remove_record_round_trips_amid_neighbours() {
    let mut bytes = encode_command(&Command::set("a".to_string(), "1".to_string()));
    let start = bytes.len();
    bytes.extend(encode_command(&Command::remove("a".to_string())));
    bytes.extend(encode_command(&Command::set("b".to_string(), "2".to_string())));
    let (decoded, end) = decode_command(&bytes, start).expect("record in the middle decodes");
    match decoded {
        Command::Remove { key } => assert_eq!(key, "a"),
        Command::Put { .. } => panic!("a remove record decoded as a put"),
    }
    let (next, _) = decode_command(&bytes, end).expect("the record after it decodes");
    match next {
        Command::Put { key, value } => {
            assert_eq!(key, "b");
            assert_eq!(value, "2");
        }
        Command::Remove { .. } => panic!("wrong variant after the remove"),
    }
}

#[test]
fn malformed_records_are_refused() {
    let bytes = encode_command(&Command::set("key".to_string(), "value".to_string()));
    // Truncated: the value's length prefix promises more bytes than remain.
    let cut: Vec<u8> = bytes[..bytes.len() - 1].to_vec();
    assert_eq!(decode_command(&cut, 0).unwrap_err(), InternalError::Serde);
    // An unknown tag byte.
    assert_eq!(decode_command(&vec![7u8, 0, 0], 0).unwrap_err(), InternalError::Serde);
    // Empty input.
    assert_eq!(decode_command(&Vec::new(), 0).unwrap_err(), InternalError::Serde);
    // A key that is not UTF-8.
    let bad = vec![1u8, 1, 0, 0, 0, 0, 0, 0, 0, 0xff];
    assert_eq!(decode_command(&bad, 0).unwrap_err(), InternalError::Serde);
}

#[test]
fn command_pos_from_generation_and_range() {
    let cp = CommandPos::from((3u64, 5u64..12u64));
    assert_eq!(cp, CommandPos { gen: 3, pos: 5, len: 7 });
}

#[test]
fn log_path_prints_the_generation() {
    assert_eq!(log_path(0), "0.log");
    assert_eq!(log_path(7), "7.log");
    assert_eq!(log_path(42), "42.log");
    assert_eq!(log_path(1024), "1024.log");
    assert_eq!(log_path(u64::MAX), format!("{}.log", u64::MAX));
}

#[test]
fn sorted_logs_list_keeps_generations_in_order() {
    let names: Vec<String> = vec![
        "2.log".to_string(),
        "10.log".to_string(),
        "1.log".to_string(),
        "007.log".to_string(),
        "foo.txt".to_string(),
        "x.log".to_string(),
        ".log".to_string(),
        "readme".to_string(),
    ];
    assert_eq!(sorted_logs_list(&names), vec![1, 2, 7, 10]);
    assert_eq!(sorted_logs_list(&Vec::new()), Vec::<u64>::new());
}

#[test]
fn naive_search_finds_the_first_match() {
    let db = BawiDB { file_path: "test_db".to_string() };
    let lines: Vec<String> = vec![
        "a::1".to_string(),
        "b::2".to_string(),
        "a::3".to_string(),
        "c::x::y".to_string(),
        "noseparator".to_string(),
        "empty::".to_string(),
    ];
    assert_eq!(db.search(&lines, &"a".to_string()), Some("1".to_string()));
    assert_eq!(db.search(&lines, &"b".to_string()), Some("2".to_string()));
    assert_eq!(db.search(&lines, &"c".to_string()), None);
    assert_eq!(db.search(&lines, &"empty".to_string()), Some(String::new()));
    assert_eq!(db.search(&lines, &"z".to_string()), None);
}

#[test]
fn naive_record_line_shape() {
    let line = BawiDB::record_line(&"k".to_string(), &"v".to_string());
    assert_eq!(line, "k::v\n");
}
