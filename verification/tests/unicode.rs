#![allow(unused_imports)]
use yangon::Yangon;
use yangon::yCow;
use yangon::yError;
use yangon::yTrait;

#[test]
fn test_log_line_simulation() {
    let mut y = Yangon::<4096>::with_capacity();
    for i in 0..100 {
        y.write_str(&format!("[INFO] Line {}: ", i)).ok();
        y.push_str("Some log message 🦀\n").ok();
        if i % 25 == 0 {
            y.clear();
        }
    }
}
#[test]
fn test_json_like_construction() {
    let mut y = Yangon::<2048>::with_capacity();
    y.push('{').unwrap();
    for i in 0..20 {
        y.write_str(&format!("\"key{}\":\"value{}\"", i, i)).ok();
        if i < 19 {
            y.push(',').ok();
        }
    }
    y.push('}').unwrap();
    assert!(y.as_str().starts_with('{'));
    assert!(y.as_str().ends_with('}'));
}
#[test]
fn test_html_tag_building() {
    let mut y = Yangon::<2048>::with_capacity();
    y.push_str("<div class=\"container\">").unwrap();
    y.push_str("<p>Content with 🦀 emoji</p>").unwrap();
    y.push_str("</div>").unwrap();
    assert!(y.as_str().contains("🦀"));
}
#[test]
fn test_unicode_boundary_all_multibyte_sizes() {
    let mut y = Yangon::<1024>::with_capacity();
    y.push('a').unwrap();
    y.push('é').unwrap();
    y.push('世').unwrap();
    y.push('🦀').unwrap();
    assert_eq!(y.pop(), Some('🦀'));
    assert_eq!(y.pop(), Some('世'));
    assert_eq!(y.pop(), Some('é'));
    assert_eq!(y.pop(), Some('a'));
}
#[test]
fn test_insert_remove_at_every_unicode_boundary() {
    let y = Yangon::<1024>::from("a🦀世界");
    let positions = vec![0, 1, 5, 8];
    for &pos in &positions {
        let mut temp = y.clone();
        temp.insert(pos, 'X');
        assert!(temp.as_str().is_char_boundary(pos));
    }
    let mut y2 = Yangon::<1024>::from("a🦀世界");
    while !y2.is_empty() {
        let ch = y2.remove(0);
        assert!(ch.len_utf8() <= 4);
    }
}
#[test]
fn test_truncate_at_all_unicode_boundaries() {
    let s = "Hello🦀世界!";
    for i in 0..=s.len() {
        if s.is_char_boundary(i) {
            let mut y = Yangon::<1024>::from(s);
            y.truncate(i);
            assert_eq!(y.len(), i);
            assert!(std::str::from_utf8(y.as_str().as_bytes()).is_ok());
        }
    }
}
#[test]
fn test_split_off_at_unicode_boundaries() {
    let test_str = "ab🦀cd世界ef";
    let boundaries = [0, 1, 2, 6, 7, 8, 11, 14, 15, 16];
    for &idx in &boundaries {
        let mut y = Yangon::<1024>::from(test_str);
        let y2 = y.split_off(idx);
        assert_eq!(y.len() + y2.len(), test_str.len());
        assert!(std::str::from_utf8(y.as_str().as_bytes()).is_ok());
        assert!(std::str::from_utf8(y2.as_str().as_bytes()).is_ok());
    }
}
#[test]
fn test_exact_capacity_fill() {
    let mut y = Yangon::<5>::with_capacity();
    assert!(y.push_str("12345").is_ok());
    assert!(matches!(y.push('x'), Err(yError::CapacityOverflow)));
}
#[test]
fn test_multibyte_char_at_capacity_boundary() {
    let mut y = Yangon::<7>::with_capacity();
    y.push_str("abc").unwrap();
    assert!(y.push('🦀').is_ok());
    assert!(matches!(y.push('x'), Err(yError::CapacityOverflow)));
}
#[test]
fn test_capacity_off_by_one_scenarios() {
    for cap in [10, 100, 1024] {
        let mut y = Yangon::<1024>::with_capacity();
        y.set_cap(cap);
        let s = "a".repeat(cap);
        assert_eq!(y.push_str(&s).is_ok(), true);
        let mut y2 = Yangon::<1024>::with_capacity();
        y2.set_cap(cap);
        let s2 = "a".repeat(cap + 1);
        assert!(y2.push_str(&s2).is_err());
    }
}
#[test]
fn test_zero_capacity_behavior() {
    let mut y = Yangon::<1024>::with_capacity();
    y.set_cap(0);
    assert!(matches!(y.push('a'), Err(yError::CapacityOverflow)));
    assert!(matches!(y.push_str("a"), Err(yError::CapacityOverflow)));
}
#[test]
fn test_repeated_push_pop_cycles() {
    let mut y = Yangon::<2048>::with_capacity();
    for cycle in 0..100 {
        for i in 0..20 {
            let ch = char::from_u32(97 + ((cycle + i) % 26)).unwrap();
            y.push(ch).unwrap();
        }
        for _ in 0..20 {
            assert!(y.pop().is_some());
        }
    }
    assert!(y.is_empty());
}
#[test]
fn test_interleaved_operations() {
    let mut y = Yangon::<2048>::with_capacity();
    for i in 0..50 {
        y.push_str("test").unwrap();
        y.truncate(y.len() - 2);
        y.push('🦀').unwrap();
        y.remove(0);
        if i % 10 == 0 {
            y.clear();
        }
    }
}
#[test]
fn test_retain_with_complex_predicate() {
    let mut y = Yangon::<2048>::from("aAbBcCdDeEfF123456!@#$%^&*()🦀世界");
    y.retain(|c| !c.is_ascii_digit());
    y.retain(|c| !c.is_ascii_punctuation());
    y.retain(|c| c.is_alphabetic() || c.len_utf8() > 1);
    assert!(y.as_str().chars().all(|c| c.is_alphabetic() || c.len_utf8() > 1));
    assert_eq!(y.as_str(), "aAbBcCdDeEfF🦀世界");
}
#[test]
fn test_replace_range_edge_cases() {
    let mut y = Yangon::<1024>::from("Hello World");
    y.replace_range(0..0, ">>> ");
    assert_eq!(y.as_str(), ">>> Hello World");
    let mut y = Yangon::<1024>::from("Hello World");
    y.replace_range(11..11, " <<<");
    assert_eq!(y.as_str(), "Hello World <<<");
    let mut y = Yangon::<1024>::from("Hello World");
    y.replace_range(0..11, "Replaced");
    assert_eq!(y.as_str(), "Replaced");
    let mut y = Yangon::<1024>::from("Hello World");
    y.replace_range(5..11, "");
    assert_eq!(y.as_str(), "Hello");
}
#[test]
fn test_massive_replace_operations() {
    let mut y = Yangon::<4096>::from("aaaaaaaaaa");
    for _ in 0..10 {
        let temp = y.replace::<char, 0>('a', "bb");
        y = Yangon::<4096>::from(temp.as_str());
        if y.len() * 2 > y.capacity() {
            break;
        }
    }
}
#[test]
fn test_push_str_unchecked_safety() {
    let mut y = Yangon::<1024>::with_capacity();
    y.push_str_unchecked("Hello");
    y.push_str_unchecked(" ");
    y.push_str_unchecked("World");
    y.push_str_unchecked(" 🦀");
    assert_eq!(y.as_str(), "Hello World 🦀");
    assert!(std::str::from_utf8(y.as_str().as_bytes()).is_ok());
}
#[test]
fn test_from_utf8_unchecked_with_valid_data() {
    let valid_bytes = vec![
        72, 101, 108, 108, 111,  
        32,                      
        240, 159, 166, 128,      
    ];
    let y = Yangon::<1024>::from_utf8_unchecked(valid_bytes);
    assert_eq!(y.as_str(), "Hello 🦀");
}
#[test]
fn test_set_len_with_valid_utf8() {
    let mut y = Yangon::<1024>::with_capacity();
    y.push_str("Hello World").unwrap();
    y.set_len(5);
    assert_eq!(y.as_str(), "Hello");
    assert_eq!(y.len(), 5);
}
#[test]
fn test_from_iter_large_collection() {
    let chars: Vec<char> = (0..1000)
        .map(|i| char::from_u32(97 + (i % 26)).unwrap())
        .collect();
    let y: Yangon<2048> = Yangon::from_chars(&chars);
    assert_eq!(y.len(), 1000);
}
#[test]
fn test_from_iter_mixed_unicode() {
    let chars = vec!['a', '\u{1F980}', '\u{4E16}', 'b', '\u{754C}', '!', 'z'];
    let y: Yangon<1024> = Yangon::from_chars(&chars);
    assert_eq!(y.as_str().chars().count(), 7);
}
#[test]
fn test_clone_independence() {
    let mut y1 = Yangon::<1024>::from("Original");
    let mut y2 = y1.clone();
    y1.push_str(" Modified").unwrap();
    y2.push_str(" Cloned").unwrap();
    assert_eq!(y1.as_str(), "Original Modified");
    assert_eq!(y2.as_str(), "Original Cloned");
}
#[test]
fn test_multiple_clones() {
    let original = Yangon::<1024>::from("Test🦀世界");
    let clones: Vec<_> = (0..10).map(|_| original.clone()).collect();
    for clone in &clones {
        assert_eq!(clone.as_str(), "Test🦀世界");
    }
}
#[test]
fn test_from_utf8_with_various_lengths() {
    for len in [0, 1, 10, 100, 500] {
        let bytes: Vec<u8> = (0..len).map(|i| b'a' + (i as u8 % 26)).collect();
        let result = Yangon::<1024>::from_utf8(bytes);
        assert!(result.is_ok());
        assert_eq!(result.unwrap().len(), len);
    }
}
#[test]
fn test_from_utf8_lossy_with_invalid_sequences() {
    let test_cases = vec![
        vec![72, 101, 0xFF, 108, 108, 111],  
        vec![0xFF, 0xFF, 72, 105],            
        vec![72, 105, 0xFF, 0xFF],            
        vec![0xC0, 0x80],                     
    ];
    for bytes in test_cases {
        let cow = Yangon::<1024>::from_utf8_lossy(&bytes);
        assert!(std::str::from_utf8(cow.as_str().as_bytes()).is_ok());
    }
}
#[test]
fn test_into_bytes_and_back() {
    let original = "Hello🦀World世界";
    let y1 = Yangon::<1024>::from(original);
    let bytes = y1.into_bytes();
    let y2 = Yangon::<1024>::from_utf8(bytes).unwrap();
    assert_eq!(y2.as_str(), original);
}
#[test]
fn test_write_trait_stress() {
    let mut y = Yangon::<2048>::with_capacity();
    for i in 0..100 {
        y.write_str(&format!("{} ", i)).unwrap();
    }
    assert!(y.as_str().contains("0 "));
    assert!(y.as_str().contains("99 "));
}
#[test]
fn test_display_with_special_chars() {
    let y = Yangon::<1024>::from("Test\n\t\"🦀\"");
    let displayed = y.to_string();
    assert_eq!(displayed, "Test\n\t\"🦀\"");
}
#[test]
fn test_debug_escaping() {
    let y = Yangon::<1024>::from("Line1\nLine2\t\"quoted\"");
    let debug_str = y.to_debug_string();
    assert!(debug_str.contains("\\n"));
    assert!(debug_str.contains("\\t"));
}
#[test]
fn test_shrink_to_fit_various_sizes() {
    for initial_cap in [128, 256, 512, 1024] {
        for content_len in [10, 50, 100] {
            let mut y = Yangon::<2048>::with_capacity();
            y.set_cap(initial_cap);
            let content = "a".repeat(content_len);
            y.push_str(&content).unwrap();
            y.shrink_to_fit();
            assert!(y.capacity() >= content_len);
            assert!(y.capacity() <= initial_cap);
        }
    }
}
#[test]
fn test_empty_string_operations() {
    let mut y = Yangon::<1024>::with_capacity();
    assert_eq!(y.pop(), None);
    y.clear();
    y.truncate(0);
    y.retain(|_| true);
    let y2 = y.split_off(0);
    assert!(y2.is_empty());
}
#[test]
fn test_single_char_operations() {
    let mut y = Yangon::<1024>::from("X");
    assert_eq!(y.remove(0), 'X');
    assert!(y.is_empty());
    y.push('Y').unwrap();
    y.insert(0, 'Z');
    assert_eq!(y.as_str(), "ZY");
}
#[test]
fn test_all_whitespace_variations() {
    let whitespace_chars = [' ', '\t', '\n', '\r'];
    for &ws in &whitespace_chars {
        let mut y = Yangon::<1024>::with_capacity();
        y.push(ws).unwrap();
        y.push('a').unwrap();
        y.push(ws).unwrap();
        assert_eq!(y.trim(), "a");
    }
}
#[test]
fn test_maximum_unicode_codepoint() {
    let mut y = Yangon::<1024>::with_capacity();
    if let Some(max_char) = char::from_u32(0x10FFFF) {
        y.push(max_char).unwrap();
        assert_eq!(y.pop(), Some(max_char));
    }
}
#[test]
fn test_alternating_multibyte_sizes() {
    let mut y = Yangon::<2048>::with_capacity();
    for i in 0..100 {
        match i % 4 {
            0 => y.push('a').unwrap(),     
            1 => y.push('é').unwrap(),      
            2 => y.push('世').unwrap(),     
            _ => y.push('🦀').unwrap(),     
        }
    }
    assert_eq!(y.as_str().chars().count(), 100);
}
#[test]
fn test_replace_with_size_explosion() {
    let mut y = Yangon::<4096>::from("a");
    for _ in 0..5 {
        let temp = y.replace::<char, 0>('a', "aa");
        if temp.len() > y.capacity() / 2 {
            break;
        }
        y = Yangon::<4096>::from(temp.as_str());
    }
    assert!(y.as_str().chars().all(|c| c == 'a'));
}
#[test]
fn test_repeated_insert_at_same_position() {
    let mut y = Yangon::<2048>::from("_");
    for i in 0..50 {
        let ch = char::from_u32(97 + (i % 26)).unwrap();
        y.insert(0, ch);
    }
    assert_eq!(y.len(), 51);
}
#[test]
fn test_stress_all_ascii_printable() {
    let mut y = Yangon::<2048>::with_capacity();
    for byte in 32u8..=126 {
        y.push(byte as char).unwrap();
    }
    assert_eq!(y.len(), 95);
    assert!(y.as_str().is_ascii());
}
#[test]
fn test_retain_removes_everything_then_rebuild() {
    let mut y = Yangon::<1024>::from("HelloWorld");
    y.retain(|_| false);
    assert!(y.is_empty());
    y.push_str("Rebuilt").unwrap();
    assert_eq!(y.as_str(), "Rebuilt");
}
#[test]
fn test_basic_creation_and_capacity() {
    let y: Yangon<1024> = Yangon::with_capacity();
    assert_eq!(y.len(), 0);
    assert_eq!(y.capacity(), 1024);
    assert!(y.is_empty());
}
#[test]
fn test_push_str_basic() {
    let mut y: Yangon<1024> = Yangon::with_capacity();
    assert!(y.push_str("Hello").is_ok());
    assert_eq!(y.len(), 5);
    assert_eq!(y.as_str(), "Hello");
}
#[test]
fn test_push_str_multiple() {
    let mut y: Yangon<1024> = Yangon::with_capacity();
    assert!(y.push_str("Hello").is_ok());
    assert!(y.push_str(" ").is_ok());
    assert!(y.push_str("World").is_ok());
    assert_eq!(y.as_str(), "Hello World");
    assert_eq!(y.len(), 11);
}
#[test]
fn test_push_str_unicode() {
    let mut y: Yangon<1024> = Yangon::with_capacity();
    assert!(y.push_str("Hello").is_ok());
    assert!(y.push_str(" 世界").is_ok());
    assert!(y.push_str(" 🦀").is_ok());
    assert_eq!(y.as_str(), "Hello 世界 🦀");
}
#[test]
fn test_push_str_capacity_overflow() {
    let mut y: Yangon<10> = Yangon::with_capacity();
    assert!(y.push_str("12345").is_ok());
    assert!(matches!(y.push_str("678901"), Err(yError::CapacityOverflow)));
}
#[test]
fn test_push_str_unchecked() {
    let mut y: Yangon<1024> = Yangon::with_capacity();
    y.push_str_unchecked("Hello");
    y.push_str_unchecked(" World");
    assert_eq!(y.as_str(), "Hello World");
}
#[test]
fn test_push_char() {
    let mut y: Yangon<1024> = Yangon::with_capacity();
    assert!(y.push('H').is_ok());
    assert!(y.push('i').is_ok());
    assert_eq!(y.as_str(), "Hi");
}
#[test]
fn test_push_unicode_char() {
    let mut y: Yangon<1024> = Yangon::with_capacity();
    assert!(y.push('🦀').is_ok());
    assert!(y.push('世').is_ok());
    assert_eq!(y.as_str(), "🦀世");
}
#[test]
fn test_push_char_capacity_overflow() {
    let mut y: Yangon<3> = Yangon::with_capacity();
    assert!(y.push('a').is_ok());
    assert!(y.push('b').is_ok());
    assert!(y.push('c').is_ok());
    assert!(matches!(y.push('d'), Err(yError::CapacityOverflow)));
}
#[test]
fn test_pop_basic() {
    let mut y: Yangon<1024> = Yangon::with_capacity();
    y.push_str("abc").unwrap();
    assert_eq!(y.pop(), Some('c'));
    assert_eq!(y.pop(), Some('b'));
    assert_eq!(y.pop(), Some('a'));
    assert_eq!(y.pop(), None);
}
#[test]
fn test_pop_unicode() {
    let mut y: Yangon<1024> = Yangon::with_capacity();
    y.push_str("a🦀世").unwrap();
    assert_eq!(y.pop(), Some('世'));
    assert_eq!(y.pop(), Some('🦀'));
    assert_eq!(y.pop(), Some('a'));
    assert_eq!(y.pop(), None);
}
#[test]
fn test_pop_empty() {
    let mut y: Yangon<1024> = Yangon::with_capacity();
    assert_eq!(y.pop(), None);
}
#[test]
fn test_clear() {
    let mut y: Yangon<1024> = Yangon::with_capacity();
    y.push_str("Hello World").unwrap();
    assert_eq!(y.len(), 11);
    y.clear();
    assert_eq!(y.len(), 0);
    assert!(y.is_empty());
}
#[test]
fn test_truncate() {
    let mut y: Yangon<1024> = Yangon::with_capacity();
    y.push_str("Hello World").unwrap();
    y.truncate(5);
    assert_eq!(y.as_str(), "Hello");
    assert_eq!(y.len(), 5);
}
#[test]
fn test_truncate_beyond_len() {
    let mut y: Yangon<1024> = Yangon::with_capacity();
    y.push_str("Hello").unwrap();
    y.truncate(100);
    assert_eq!(y.len(), 5);
}
#[test]
fn test_remove_ascii() {
    let mut y: Yangon<1024> = Yangon::with_capacity();
    y.push_str("Hello").unwrap();
    assert_eq!(y.remove(1), 'e');
    assert_eq!(y.as_str(), "Hllo");
}
