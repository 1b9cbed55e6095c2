use dir_lister::list_files;
use dir_lister::lossy::lossy_string;

fn listed(entries: Vec<Option<Vec<u8>>>) -> Vec<String> {
    match list_files(Ok(entries)) {
        Ok(names) => names,
        Err(message) => panic!("listing failed: {}", message),
    }
}

fn decoded(bytes: &[u8]) -> String {
    lossy_string(&bytes.to_vec())
}

#[test]
fn three_entries_exact_set() {
    let entries = vec![
        Some(b"a.txt".to_vec()),
        Some(b"b".to_vec()),
        Some(b"c.md".to_vec()),
    ];
    let mut names = listed(entries);
    names.sort();
    assert_eq!(names, vec!["a.txt".to_string(), "b".to_string(), "c.md".to_string()]);
}

#[test]
fn empty_directory_lists_nothing() {
    let names = listed(Vec::new());
    assert!(names.is_empty());
}

#[test]
fn open_failure_is_passed_through() {
    let message = "No such file or directory (os error 2)".to_string();
    let result = list_files(Err(message.clone()));
    match result {
        Ok(_) => panic!("an open failure must not yield a listing"),
        Err(reported) => {
            assert_eq!(reported, message);
            assert!(!reported.is_empty());
        }
    }
}

#[test]
fn not_a_directory_is_an_error() {
    let message = "Not a directory (os error 20)".to_string();
    let result = list_files(Err(message.clone()));
    assert_eq!(result, Err(message));
}

#[test]
fn reordered_entries_keep_the_name_set() {
    let first = vec![
        Some(b"a.txt".to_vec()),
        Some(b"b".to_vec()),
        Some(b"c.md".to_vec()),
    ];
    let second = vec![
        Some(b"c.md".to_vec()),
        Some(b"a.txt".to_vec()),
        Some(b"b".to_vec()),
    ];
    let mut names_first = listed(first);
    let mut names_second = listed(second);
    names_first.sort();
    names_second.sort();
    assert_eq!(names_first, names_second);
}

#[test]
fn failed_entries_are_skipped() {
    let entries = vec![Some(b"x".to_vec()), None, Some(b"y".to_vec())];
    let names = listed(entries);
    assert_eq!(names, vec!["x".to_string(), "y".to_string()]);
}

#[test]
fn invalid_name_is_still_listed() {
    let entries = vec![Some(vec![0xff, 0x61])];
    let names = listed(entries);
    assert_eq!(names, vec!["\u{fffd}a".to_string()]);
}

#[test]
fn only_failed_entries_list_nothing() {
    let entries = vec![None, None];
    let names = listed(entries);
    assert!(names.is_empty());
}

#[test]
fn ascii_name_is_unchanged() {
    assert_eq!(decoded(b"a.txt"), "a.txt".to_string());
}

#[test]
fn empty_name_stays_empty() {
    assert_eq!(decoded(b""), String::new());
}

#[test]
fn multibyte_name_is_exact() {
    let name = "h\u{e9}llo-\u{4f60}\u{597d}-\u{1f600}";
    assert_eq!(decoded(name.as_bytes()), name.to_string());
}

#[test]
fn two_byte_boundaries_decode() {
    assert_eq!(decoded(&[0xc2, 0x80]), "\u{80}".to_string());
    assert_eq!(decoded(&[0xdf, 0xbf]), "\u{7ff}".to_string());
}

#[test]
fn three_byte_boundaries_decode() {
    assert_eq!(decoded(&[0xe0, 0xa0, 0x80]), "\u{800}".to_string());
    assert_eq!(decoded(&[0xed, 0x9f, 0xbf]), "\u{d7ff}".to_string());
    assert_eq!(decoded(&[0xee, 0x80, 0x80]), "\u{e000}".to_string());
    assert_eq!(decoded(&[0xef, 0xbf, 0xbf]), "\u{ffff}".to_string());
}

#[test]
fn four_byte_boundaries_decode() {
    assert_eq!(decoded(&[0xf0, 0x90, 0x80, 0x80]), "\u{10000}".to_string());
    assert_eq!(decoded(&[0xf4, 0x8f, 0xbf, 0xbf]), "\u{10ffff}".to_string());
}

#[test]
fn lone_continuation_byte_is_replaced() {
    assert_eq!(decoded(&[0x80]), "\u{fffd}".to_string());
}

#[test]
fn overlong_encoding_is_replaced() {
    assert_eq!(decoded(&[0xc0, 0x80]), "\u{fffd}\u{fffd}".to_string());
    assert_eq!(decoded(&[0xe0, 0x80, 0x80]), "\u{fffd}\u{fffd}\u{fffd}".to_string());
}

#[test]
fn surrogate_encoding_is_replaced() {
    assert_eq!(decoded(&[0xed, 0xa0, 0x80]), "\u{fffd}\u{fffd}\u{fffd}".to_string());
}

#[test]
fn truncated_encoding_is_one_replacement() {
    assert_eq!(decoded(&[0x61, 0xe2, 0x82]), "a\u{fffd}".to_string());
    assert_eq!(decoded(&[0xe2, 0x82]), "\u{fffd}".to_string());
    assert_eq!(decoded(&[0xc2]), "\u{fffd}".to_string());
    assert_eq!(decoded(&[0xe0, 0xa0]), "\u{fffd}".to_string());
    assert_eq!(decoded(&[0xf0, 0x90]), "\u{fffd}".to_string());
    assert_eq!(decoded(&[0xf0, 0x90, 0x80]), "\u{fffd}".to_string());
}

#[test]
fn interrupted_encoding_is_one_replacement() {
    assert_eq!(decoded(&[0xc2, 0x61]), "\u{fffd}a".to_string());
    assert_eq!(decoded(&[0xe2, 0x82, 0x61]), "\u{fffd}a".to_string());
    assert_eq!(decoded(&[0xf0, 0x90, 0x80, 0x61]), "\u{fffd}a".to_string());
}

#[test]
fn disallowed_second_byte_replaces_the_lead_alone() {
    // the second byte is outside what may follow the lead, so the lead is one
    // subpart and the continuation bytes after it are one subpart each
    assert_eq!(decoded(&[0xe0, 0x9f, 0xbf]), "\u{fffd}\u{fffd}\u{fffd}".to_string());
    assert_eq!(decoded(&[0xf4, 0x90, 0x80]), "\u{fffd}\u{fffd}\u{fffd}".to_string());
}

#[test]
fn beyond_last_scalar_is_replaced() {
    assert_eq!(
        decoded(&[0xf4, 0x90, 0x80, 0x80]),
        "\u{fffd}\u{fffd}\u{fffd}\u{fffd}".to_string()
    );
}

#[test]
fn invalid_lead_byte_is_replaced() {
    assert_eq!(decoded(&[0xf8, 0x61]), "\u{fffd}a".to_string());
    assert_eq!(decoded(&[0xff]), "\u{fffd}".to_string());
}

#[test]
fn agrees_with_std_lossy_decoding_short() {
    // every one-byte and every two-byte name
    for b0 in 0..=0xffu16 {
        let one = vec![b0 as u8];
        assert_eq!(lossy_string(&one), String::from_utf8_lossy(&one).into_owned());
        for b1 in 0..=0xffu16 {
            let two = vec![b0 as u8, b1 as u8];
            assert_eq!(lossy_string(&two), String::from_utf8_lossy(&two).into_owned());
        }
    }
}

#[test]
fn agrees_with_std_lossy_decoding_three_bytes() {
    // every three-byte name whose first byte is a multi-byte lead
    for b0 in 0xc2..=0xf4u16 {
        for b1 in 0..=0xffu16 {
            for b2 in 0..=0xffu16 {
                let bytes = vec![b0 as u8, b1 as u8, b2 as u8];
                assert_eq!(
                    lossy_string(&bytes),
                    String::from_utf8_lossy(&bytes).into_owned()
                );
            }
        }
    }
}

#[test]
fn agrees_with_std_lossy_decoding_four_bytes() {
    // four-byte names over the range boundaries that decide well-formedness
    let boundary = [0x00, 0x61, 0x7f, 0x80, 0x8f, 0x90, 0x9f, 0xa0, 0xbf, 0xc0, 0xf4, 0xff];
    let leads = [0xef, 0xf0, 0xf1, 0xf3, 0xf4, 0xf5, 0xff];
    for &b0 in leads.iter() {
        for &b1 in boundary.iter() {
            for &b2 in boundary.iter() {
                for &b3 in boundary.iter() {
                    let bytes = vec![b0, b1, b2, b3];
                    assert_eq!(
                        lossy_string(&bytes),
                        String::from_utf8_lossy(&bytes).into_owned()
                    );
                }
            }
        }
    }
}

#[test]
fn valid_text_resumes_after_replacement() {
    assert_eq!(decoded(&[0x61, 0xff, 0xc3, 0xa9]), "a\u{fffd}\u{e9}".to_string());
}
