#![allow(unused_imports)]
use yangon::Yangon;
use yangon::yCow;
use yangon::yError;
use yangon::yFmtError;
use yangon::yTrait;

#[test]
fn prop_round_trip_render() {
    let texts = ["", "plain ascii", "mixed \u{4E16}\u{754C} \u{1F980}", "caf\u{E9}"];
    for t in texts {
        let y = Yangon::<256>::from(t);
        assert_eq!(y.as_str(), t);
        assert_eq!(y.to_string(), t);
        let bytes = y.into_bytes();
        assert_eq!(bytes, t.as_bytes().to_vec());
        let y2 = Yangon::<256>::from_utf8(bytes).unwrap();
        assert_eq!(y2.as_str(), t);
    }
}

#[test]
fn prop_valid_after_operation_mix() {
    let mut y = Yangon::<128>::from("a\u{1F980}b");
    y.push('\u{4E16}').unwrap();
    y.insert(1, 'x');
    y.remove(0);
    y.pop();
    y.push_str("tail").unwrap();
    y.replace_range(0..1, ">>");
    y.retain(|c| c != 'b');
    assert!(std::str::from_utf8(y.as_str().as_bytes()).is_ok());
}

#[test]
fn prop_overflow_leaves_content() {
    let mut y = Yangon::<4>::from("abc");
    assert!(matches!(y.push_str("de"), Err(yError::CapacityOverflow)));
    assert_eq!(y.as_str(), "abc");
    assert_eq!(y.len(), 3);
    assert!(matches!(y.push('\u{1F980}'), Err(yError::CapacityOverflow)));
    assert_eq!(y.as_str(), "abc");
    assert!(y.push('d').is_ok());
    assert_eq!(y.as_str(), "abcd");
}

#[test]
fn prop_write_str_failure_kind() {
    let mut y = Yangon::<4>::from("abc");
    assert!(matches!(y.write_str("de"), Err(yFmtError::WriteOverflow)));
    assert_eq!(y.as_str(), "abc");
    assert!(y.write_str("d").is_ok());
    assert_eq!(y.as_str(), "abcd");
}

#[test]
fn prop_insert_remove_restores() {
    let original = "a\u{1F980}\u{4E16}";
    for (i, c) in [(0usize, 'x'), (1, '\u{4E16}'), (5, '\u{1F980}'), (8, 'q')] {
        let mut y = Yangon::<64>::from(original);
        y.insert(i, c);
        let back = y.remove(i);
        assert_eq!(back, c);
        assert_eq!(y.as_str(), original);
        assert_eq!(y.len(), original.len());
    }
}

#[test]
fn prop_push_pop_restores() {
    for c in ['a', '~', '\u{7F}', 'Z'] {
        let mut y = Yangon::<32>::from("base");
        let before = y.len();
        y.push(c).unwrap();
        assert_eq!(y.pop(), Some(c));
        assert_eq!(y.len(), before);
        assert_eq!(y.as_str(), "base");
    }
}

#[test]
fn prop_retain_all_none_unicode() {
    let mut keep_all = Yangon::<64>::from("a\u{1F980}b\u{4E16}");
    keep_all.retain(|_| true);
    assert_eq!(keep_all.as_str(), "a\u{1F980}b\u{4E16}");
    let mut keep_none = Yangon::<64>::from("a\u{1F980}b\u{4E16}");
    keep_none.retain(|_| false);
    assert!(keep_none.is_empty());
    assert_eq!(keep_none.as_str(), "");
}

#[test]
fn prop_split_off_rejoins() {
    let text = "ab\u{1F980}cd\u{4E16}";
    for at in [0usize, 1, 2, 6, 7, 8, 11] {
        let mut y = Yangon::<64>::from(text);
        let before = y.len();
        let tail = y.split_off(at);
        assert_eq!(y.len() + tail.len(), before);
        let mut joined = String::new();
        joined.push_str(y.as_str());
        joined.push_str(tail.as_str());
        assert_eq!(joined, text);
        assert_eq!(tail.capacity(), tail.len());
    }
}

#[test]
fn prop_lossy_exact_outputs() {
    let cow = Yangon::<64>::from_utf8_lossy(&[0xFF]);
    assert_eq!(cow.as_str(), "\u{FFFD}");
    let cow = Yangon::<64>::from_utf8_lossy(&[0xC0, 0x00]);
    assert_eq!(cow.as_str(), "\u{FFFD}\u{0000}");
    let cow = Yangon::<64>::from_utf8_lossy(&[0xED, 0xA0, 0x80]);
    assert_eq!(cow.as_str(), "\u{FFFD}\u{FFFD}\u{FFFD}");
    let cow = Yangon::<64>::from_utf8_lossy(&[0xF0, 0x9F, 0xA6]);
    assert_eq!(cow.as_str(), "\u{FFFD}");
    let cow = Yangon::<64>::from_utf8_lossy(b"ok");
    assert_eq!(cow.as_str(), "ok");
}

#[test]
fn prop_lossy_matches_std() {
    let inputs: [&[u8]; 6] = [
        &[0xFF],
        &[0xC0, 0x00],
        &[0xED, 0xA0, 0x80],
        &[72, 101, 0xFF, 108, 108, 111],
        &[0xF4, 0x90, 0x80, 0x80],
        &[0xE2, 0x82],
    ];
    for bytes in inputs {
        let cow = Yangon::<64>::from_utf8_lossy(bytes);
        let expected = String::from_utf8_lossy(bytes);
        assert_eq!(cow.as_str(), expected);
    }
}

#[test]
fn prop_replace_left_to_right() {
    let y = Yangon::<64>::from("aaaa");
    assert_eq!(y.replace_it("aa", "a").as_str(), "aa");
    let y2 = Yangon::<64>::from("ABC");
    assert_eq!(y2.replace_it("", "X").as_str(), "XAXBXCX");
    let y3 = Yangon::<64>::from("");
    assert_eq!(y3.replace_it("", "X").as_str(), "X");
    let y4 = Yangon::<64>::from("no hit");
    assert_eq!(y4.replace_it("zz", "yy").as_str(), "no hit");
}

#[test]
fn prop_replace_range_examples() {
    let mut y = Yangon::<64>::from("Hello World");
    y.replace_range(0..0, ">>> ");
    assert_eq!(y.as_str(), ">>> Hello World");
    let mut y2 = Yangon::<64>::from("Hello World");
    y2.replace_range(5..11, "");
    assert_eq!(y2.as_str(), "Hello");
}

#[test]
fn prop_construction_truncates_at_boundary() {
    let y = Yangon::<5>::from("ab\u{1F980}");
    assert_eq!(y.as_str(), "ab");
    assert_eq!(y.len(), 2);
    let chars: Vec<char> = "ab\u{1F980}".chars().collect();
    let y2: Yangon<5> = Yangon::from_chars(&chars);
    assert_eq!(y2.as_str(), "ab");
}

#[test]
fn prop_replace_result_cut_at_boundary() {
    let y = Yangon::<4>::from("ab");
    let r = y.replace_it("b", "\u{1F980}\u{1F980}");
    assert_eq!(r.as_str(), "a");
}

#[test]
fn prop_shrink_to_fit_clamped_at_bound() {
    let mut y = Yangon::<3>::from("abc");
    y.shrink_to_fit();
    assert_eq!(y.capacity(), 3);
    let mut y2 = Yangon::<8>::from("abc");
    y2.shrink_to_fit();
    assert_eq!(y2.capacity(), 4);
}

#[test]
fn prop_remove_four_byte_scalar() {
    let mut y = Yangon::<32>::from("x\u{1F680}y");
    assert_eq!(y.remove(1), '\u{1F680}');
    assert_eq!(y.as_str(), "xy");
}

#[test]
fn prop_debug_form_escapes() {
    let y = Yangon::<64>::from("a\"b\\c\nd\te\rf\u{0}g");
    assert_eq!(y.to_debug_string(), "\"a\\\"b\\\\c\\nd\\te\\rf\\0g\"");
    let plain = Yangon::<64>::from("Hello");
    assert_eq!(plain.to_debug_string(), "\"Hello\"");
}

#[test]
fn prop_debug_form_escapes_control_range() {
    let y = Yangon::<64>::from("\u{1}\u{b}\u{1f}\u{7f}");
    assert_eq!(y.to_debug_string(), "\"\\u{1}\\u{b}\\u{1f}\\u{7f}\"");
    let inputs = [
        "Hello",
        "a\"b\\c",
        "\u{1}\u{8}\u{b}\u{c}\u{e}\u{1f}\u{7f}",
        "tab\there\nnl\rret\u{0}nul",
    ];
    for s in inputs {
        let y = Yangon::<64>::from(s);
        assert_eq!(y.to_debug_string(), format!("{:?}", s));
    }
}

#[test]
fn prop_to_yangon_truncates_at_boundary() {
    let mut long = "a".repeat(10239);
    long.push('\u{1F980}');
    let y = long.as_str().to_yangon();
    assert_eq!(y.len(), 10239);
    assert_eq!(y.capacity(), 10240);
    assert!(y.as_str().chars().all(|c| c == 'a'));
    let short = "short".to_yangon();
    assert_eq!(short.as_str(), "short");
}

#[test]
fn prop_eq_str_byte_exact() {
    let y = Yangon::<32>::from("caf\u{E9}");
    assert!(y.eq_str("caf\u{E9}"));
    assert!(!y.eq_str("cafe"));
    assert!(!y.eq_str("caf\u{E9} "));
    assert!(!y.eq_str(""));
    let empty = Yangon::<32>::with_capacity();
    assert!(empty.eq_str(""));
}

#[test]
fn prop_from_utf8_error_on_invalid() {
    assert!(matches!(
        Yangon::<16>::from_utf8(vec![0xC3, 0x28]),
        Err(yError::FromUtf8Error)
    ));
    assert!(matches!(
        Yangon::<16>::from_utf8(vec![0xED, 0xA0, 0x80]),
        Err(yError::FromUtf8Error)
    ));
    assert!(Yangon::<16>::from_utf8(vec![0xF0, 0x9F, 0xA6, 0x80]).is_ok());
}

#[test]
fn prop_replace_set_sequential_passes() {
    let y = Yangon::<64>::from("abca");
    let set: [char; 2] = ['a', 'b'];
    let r = y.replace::<&[char; 2], 2>(&set, "x");
    assert_eq!(r.as_str(), "xxcx");
    // a later pass may match what an earlier pass just wrote
    let r2 = y.replace::<&[char; 2], 2>(&set, "ab");
    assert_eq!(r2.as_str(), "aababcaab");
}
