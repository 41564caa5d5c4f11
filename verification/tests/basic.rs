#![allow(unused_imports)]
use yangon::Yangon;
use yangon::yCow;
use yangon::yError;
use yangon::yTrait;

#[test]
fn test_remove_unicode() {
    let mut y: Yangon<1024> = Yangon::with_capacity();
    y.push_str("a🦀b").unwrap();
    assert_eq!(y.remove(1), '🦀');
    assert_eq!(y.as_str(), "ab");
}
#[test]
fn test_remove_multibyte_chars() {
    let mut y: Yangon<1024> = Yangon::with_capacity();
    y.push_str("Hello世界").unwrap();
    let ch = y.remove(5);
    assert_eq!(ch, '世');
    assert_eq!(y.as_str(), "Hello界");
}
#[test]
fn test_insert_ascii() {
    let mut y: Yangon<1024> = Yangon::with_capacity();
    y.push_str("Hllo").unwrap();
    y.insert(1, 'e');
    assert_eq!(y.as_str(), "Hello");
}
#[test]
fn test_insert_unicode() {
    let mut y: Yangon<1024> = Yangon::with_capacity();
    y.push_str("ab").unwrap();
    y.insert(1, '🦀');
    assert_eq!(y.as_str(), "a🦀b");
}
#[test]
fn test_insert_at_end() {
    let mut y: Yangon<1024> = Yangon::with_capacity();
    y.push_str("Hello").unwrap();
    y.insert(5, '!');
    assert_eq!(y.as_str(), "Hello!");
}
#[test]
fn test_insert_at_start() {
    let mut y: Yangon<1024> = Yangon::with_capacity();
    y.push_str("ello").unwrap();
    y.insert(0, 'H');
    assert_eq!(y.as_str(), "Hello");
}
#[test]
fn test_from_str() {
    let y = Yangon::<1024>::from("Hello World");
    assert_eq!(y.as_str(), "Hello World");
    assert_eq!(y.len(), 11);
}
#[test]
fn test_from_str_unicode() {
    let y = Yangon::<1024>::from("Hello 世界 🦀");
    assert_eq!(y.as_str(), "Hello 世界 🦀");
}
#[test]
fn test_from_utf8_valid() {
    let vec = vec![72, 101, 108, 108, 111];
    let y = Yangon::<1024>::from_utf8(vec).unwrap();
    assert_eq!(y.as_str(), "Hello");
}
#[test]
fn test_from_utf8_invalid() {
    let vec = vec![0xFF, 0xFF];
    assert!(matches!(Yangon::<1024>::from_utf8(vec), Err(yError::FromUtf8Error)));
}
#[test]
fn test_from_utf8_unchecked() {
    let vec = vec![72, 101, 108, 108, 111];
    let y = Yangon::<1024>::from_utf8_unchecked(vec);
    assert_eq!(y.as_str(), "Hello");
}
#[test]
fn test_from_utf8_lossy_valid() {
    let bytes = b"Hello World";
    let cow = Yangon::<1024>::from_utf8_lossy(bytes);
    assert_eq!(cow.as_str(), "Hello World");
}
#[test]
fn test_from_utf8_lossy_invalid() {
    let bytes = &[72, 101, 0xFF, 0xFF, 111];
    let cow = Yangon::<1024>::from_utf8_lossy(bytes);
    assert!(cow.as_str().contains("He"));
    assert!(cow.as_str().contains("o"));
}
#[test]
fn test_to_string() {
    let mut y = Yangon::<1024>::with_capacity();
    y.push_str("Hello World").unwrap();
    let s = y.to_string();
    assert_eq!(s, "Hello World");
}
#[test]
fn test_into_bytes() {
    let mut y = Yangon::<1024>::with_capacity();
    y.push_str("Hello").unwrap();
    let bytes = y.into_bytes();
    assert_eq!(bytes, vec![72, 101, 108, 108, 111]);
}
#[test]
fn test_trim_spaces() {
    let y = Yangon::<1024>::from("  Hello World  ");
    assert_eq!(y.trim(), "Hello World");
}
#[test]
fn test_trim_no_spaces() {
    let y = Yangon::<1024>::from("Hello");
    assert_eq!(y.trim(), "Hello");
}
#[test]
fn test_trim_all_spaces() {
    let y = Yangon::<1024>::from("     ");
    assert_eq!(y.trim(), "");
}
#[test]
fn test_trim_empty() {
    let y = Yangon::<1024>::with_capacity();
    assert_eq!(y.trim(), "");
}
#[test]
fn test_retain_predicate() {
    let mut y = Yangon::<1024>::from("Hello World");
    y.retain(|c| c != 'l');
    assert_eq!(y.as_str(), "Heo Word");
}
#[test]
fn test_retain_all() {
    let mut y = Yangon::<1024>::from("Hello");
    y.retain(|_| true);
    assert_eq!(y.as_str(), "Hello");
}
#[test]
fn test_retain_none() {
    let mut y = Yangon::<1024>::from("Hello");
    y.retain(|_| false);
    assert_eq!(y.as_str(), "");
}
#[test]
fn test_retain_unicode() {
    let mut y = Yangon::<1024>::from("H🦀e🦀l🦀lo");
    y.retain(|c| c != '🦀');
    assert_eq!(y.as_str(), "Hello");
}
#[test]
fn test_split_off_middle() {
    let mut y = Yangon::<1024>::from("Hello World");
    let y2 = y.split_off(6);
    assert_eq!(y.as_str(), "Hello ");
    assert_eq!(y2.as_str(), "World");
}
#[test]
fn test_split_off_start() {
    let mut y = Yangon::<1024>::from("Hello");
    let y2 = y.split_off(0);
    assert_eq!(y.as_str(), "");
    assert_eq!(y2.as_str(), "Hello");
}
#[test]
fn test_split_off_end() {
    let mut y = Yangon::<1024>::from("Hello");
    let y2 = y.split_off(5);
    assert_eq!(y.as_str(), "Hello");
    assert_eq!(y2.as_str(), "");
}
#[test]
fn test_replace_str() {
    let y = Yangon::<1024>::from("Hello World");
    let y2 = y.replace::<&str, 0>("World", "Rust");
    assert_eq!(y2.as_str(), "Hello Rust");
}
#[test]
fn test_replace_char() {
    let y = Yangon::<1024>::from("Hello");
    let y2 = y.replace::<char, 0>('l', "L");
    assert_eq!(y2.as_str(), "HeLLo");
}
#[test]
fn test_replace_empty_pattern() {
    let y = Yangon::<1024>::from("Hi");
    let y2 = y.replace::<&str, 0>("", "X");
    assert_eq!(y2.as_str(), "XHXiX");
}
#[test]
fn test_replace_not_found() {
    let y = Yangon::<1024>::from("Hello");
    let y2 = y.replace::<&str, 0>("xyz", "abc");
    assert_eq!(y2.as_str(), "Hello");
}
#[test]
fn test_replace_multiple() {
    let y = Yangon::<1024>::from("aaa");
    let y2 = y.replace::<char, 0>('a', "b");
    assert_eq!(y2.as_str(), "bbb");
}
#[test]
fn test_replace_unicode() {
    let y = Yangon::<1024>::from("Hello 世界");
    let y2 = y.replace::<&str, 0>("世界", "World");
    assert_eq!(y2.as_str(), "Hello World");
}
#[test]
fn test_replace_with_closure() {
    let y = Yangon::<1024>::from("Hello123World");
    let y2 = y.replace_with(|c: char| c.is_numeric(), "X");
    assert_eq!(y2.as_str(), "HelloXXXWorld");
}
#[test]
fn test_shrink_to_fit() {
    let mut y = Yangon::<1024>::with_capacity();
    y.push_str("Hello").unwrap();
    assert_eq!(y.capacity(), 1024);
    y.shrink_to_fit();
    assert_eq!(y.capacity(), 6);
}
#[test]
fn test_shrink_to() {
    let mut y = Yangon::<1024>::with_capacity();
    y.push_str("Hello").unwrap();
    y.shrink_to(100);
    assert_eq!(y.capacity(), 100);
}
#[test]
fn test_shrink_to_invalid() {
    let mut y = Yangon::<1024>::with_capacity();
    y.push_str("Hello").unwrap();
    let orig_cap = y.capacity();
    y.shrink_to(3);
    assert_eq!(y.capacity(), orig_cap);
}
#[test]
fn test_partial_eq() {
    let y = Yangon::<1024>::from("Hello");
    assert!(y.as_str() == "Hello");
    assert!(y.as_str() != "World");
}
#[test]
fn test_as_ref() {
    let y = Yangon::<1024>::from("Hello");
    let s: &str = y.as_str();
    assert_eq!(s, "Hello");
}
#[test]
fn test_deref() {
    let y = Yangon::<1024>::from("Hello");
    assert_eq!(y.len(), 5);
}
#[test]
fn test_from_iter() {
    let chars: Vec<char> = "Hello".chars().collect();
    let y: Yangon<1024> = Yangon::from_chars(&chars);
    assert_eq!(y.as_str(), "Hello");
}
#[test]
fn test_from_iter_unicode() {
    let chars: Vec<char> = "\u{1F980}\u{4E16}\u{754C}".chars().collect();
    let y: Yangon<1024> = Yangon::from_chars(&chars);
    assert_eq!(y.as_str(), "\u{1F980}\u{4E16}\u{754C}");
}
#[test]
fn test_yangon_macro_empty() {
    let y = Yangon::<10240>::with_capacity();
    assert_eq!(y.len(), 0);
    assert!(y.is_empty());
}
#[test]
fn test_yangon_macro_with_str() {
    let y = Yangon::<10240>::from("Hello World");
    assert_eq!(y.as_str(), "Hello World");
}
#[test]
fn test_to_yangon_trait() {
    let s = "Hello";
    let y = s.to_yangon();
    assert_eq!(y.as_str(), "Hello");
}
#[test]
fn test_clone() {
    let y1 = Yangon::<1024>::from("Hello");
    let y2 = y1.clone();
    assert_eq!(y1.as_str(), y2.as_str());
}
#[test]
fn test_write_trait() {
    let mut y = Yangon::<1024>::with_capacity();
    y.write_str(&format!("Hello {}", "World")).unwrap();
    assert_eq!(y.as_str(), "Hello World");
}
#[test]
fn test_display_trait() {
    let y = Yangon::<1024>::from("Hello");
    assert_eq!(y.to_string(), "Hello");
}
#[test]
fn test_debug_trait() {
    let y = Yangon::<1024>::from("Hello");
    assert_eq!(y.to_debug_string(), "\"Hello\"");
}
#[test]
fn test_set_len_unsafe() {
    let mut y = Yangon::<1024>::with_capacity();
    y.push_str("Hello").unwrap();
    y.set_len(3);
    assert_eq!(y.len(), 3);
}
#[test]
fn test_set_cap_unsafe() {
    let mut y = Yangon::<1024>::with_capacity();
    y.set_cap(512);
    assert_eq!(y.capacity(), 512);
}
#[test]
fn test_stress_push_pop() {
    let mut y = Yangon::<2048>::with_capacity();
    for i in 0..100 {
        y.push(char::from_u32(97 + (i % 26)).unwrap()).unwrap();
    }
    for _ in 0..100 {
        y.pop();
    }
    assert!(y.is_empty());
}
#[test]
fn test_stress_insert_remove() {
    let mut y = Yangon::<2048>::from("abcdef");
    for i in 0..10 {
        y.insert(3, char::from_u32(97 + i).unwrap());
    }
    for _ in 0..10 {
        y.remove(3);
    }
    assert_eq!(y.as_str(), "abcdef");
}
#[test]
fn test_replace_range_shrink() {
    let mut y = Yangon::<1024>::from("Hello World");
    y.replace_range(5..11, "!");
    assert_eq!(y.as_str(), "Hello!");
}
#[test]
fn test_replace_range_expand() {
    let mut y = Yangon::<1024>::from("Hi");
    y.replace_range(2..2, " there");
    assert_eq!(y.as_str(), "Hi there");
}
#[test]
fn test_replace_range_same_size() {
    let mut y = Yangon::<1024>::from("Hello");
    y.replace_range(0..5, "World");
    assert_eq!(y.as_str(), "World");
}
