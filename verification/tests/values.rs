use quarry::bytes::{copy_range, push_le, read_le, same_bytes};
use quarry::ieee;
use quarry::text;
use quarry::utf16;
use quarry::value::{Shown, ValueType};

fn text_of(s: Shown) -> String {
    match s {
        Shown::Text(t) => t,
        Shown::Float(b) => format!("{}", f64::from_bits(b)),
    }
}

#[test]
fn kinds_have_sizes_and_names() {
    let all = ValueType::all();
    assert_eq!(all.len(), 12);
    let sizes: Vec<usize> = all.iter().map(|v| v.size()).collect();
    assert_eq!(sizes, vec![1, 2, 4, 8, 1, 2, 4, 8, 4, 8, 0, 0]);
    assert_eq!(ValueType::I32.label(), "4 Bytes (i32)");
    assert_eq!(ValueType::StringUtf16.label(), "String (UTF-16/Unicode)");
    assert!(ValueType::StringUtf8.is_string());
    assert!(!ValueType::F64.is_string());
    assert!(ValueType::F32.is_float());
    assert!(!ValueType::U8.is_float());
}

#[test]
fn integers_are_read_with_their_sign() {
    assert_eq!(ValueType::I8.read_i128(&[0xff]), Some(-1));
    assert_eq!(ValueType::U8.read_i128(&[0xff]), Some(255));
    assert_eq!(ValueType::I16.read_i128(&[0x00, 0x80, 9]), Some(-32768));
    assert_eq!(ValueType::U32.read_i128(&[1, 2, 3, 4]), Some(0x0403_0201));
    assert_eq!(ValueType::U64.read_i128(&[0xff; 8]), Some(u64::MAX as i128));
    assert_eq!(ValueType::I64.read_i128(&[0xff; 8]), Some(-1));
    assert_eq!(ValueType::I64.read_i128(&[0xff; 7]), None);
    assert_eq!(ValueType::F32.read_i128(&[0; 8]), None);
    assert_eq!(ValueType::StringUtf8.read_i128(&[0; 8]), None);
}

#[test]
fn numbers_are_read_as_floating_point() {
    for x in [0.0f32, -0.0, 1.5, -2.25, 3.4e38, 1e-45, f32::INFINITY, f32::NEG_INFINITY] {
        let b = x.to_le_bytes();
        assert_eq!(ValueType::F32.read_f64(&b), Some((x as f64).to_bits()));
    }
    for x in [0.1f64, -7.0, 1e300, f64::MIN_POSITIVE] {
        assert_eq!(ValueType::F64.read_f64(&x.to_le_bytes()), Some(x.to_bits()));
    }
    for v in [0u64, 1, 1 << 53, (1 << 53) + 1, u64::MAX, 0x8000_0000_0000_0400] {
        assert_eq!(ValueType::U64.read_f64(&v.to_le_bytes()), Some((v as f64).to_bits()));
    }
    assert_eq!(ValueType::StringUtf8.read_f64(&[0; 8]), None);
    assert_eq!(ValueType::F64.read_f64(&[0; 7]), None);
}

#[test]
fn typed_values_become_bytes() {
    assert_eq!(ValueType::I32.parse_to_bytes("  -5 ", None), Some(vec![0xfb, 0xff, 0xff, 0xff]));
    assert_eq!(ValueType::U8.parse_to_bytes("255", None), Some(vec![255]));
    assert_eq!(ValueType::U8.parse_to_bytes("256", None), None);
    assert_eq!(ValueType::U8.parse_to_bytes("-1", None), None);
    assert_eq!(ValueType::I8.parse_to_bytes("+7", None), Some(vec![7]));
    assert_eq!(ValueType::I64.parse_to_bytes("x", None), None);
    assert_eq!(ValueType::I64.parse_to_bytes("", None), None);
    assert_eq!(
        ValueType::F32.parse_to_bytes("1.5", Some(1.5f32.to_bits() as u64)),
        Some(1.5f32.to_le_bytes().to_vec())
    );
    assert_eq!(
        ValueType::F64.parse_to_bytes("1.5", Some(1.5f64.to_bits())),
        Some(1.5f64.to_le_bytes().to_vec())
    );
    assert_eq!(ValueType::F64.parse_to_bytes("abc", None), None);
    assert_eq!(ValueType::StringUtf8.parse_to_bytes("é ", None), Some("é ".as_bytes().to_vec()));
    let wide: Vec<u8> = "a😀".encode_utf16().flat_map(|u| u.to_le_bytes()).collect();
    assert_eq!(ValueType::StringUtf16.parse_to_bytes("a😀", None), Some(wide));
}

#[test]
fn values_are_shown() {
    assert_eq!(text_of(ValueType::I16.format(&[0xfe, 0xff])), "-2");
    assert_eq!(text_of(ValueType::U32.format(&[1, 0, 0])), "?");
    assert_eq!(text_of(ValueType::F64.format(&2.5f64.to_le_bytes())), "2.5");
    assert_eq!(text_of(ValueType::F32.format(&2.5f32.to_le_bytes())), "2.5");
    assert_eq!(text_of(ValueType::StringUtf8.format(b"oi\xff")), "oi\u{fffd}");
    assert_eq!(text_of(ValueType::StringUtf16.format(&[0x41, 0, 0x00, 0xd8])), "A\u{fffd}");
    assert_eq!(text_of(ValueType::U64.format(&[0xff; 8])), format!("{}", u64::MAX as f64 as i64));
    assert_eq!(text_of(ValueType::I64.format(&i64::MIN.to_le_bytes())), format!("{}", i64::MIN));
}

#[test]
fn an_integer_survives_its_text() {
    for v in [i32::MIN, -77, 0, 5, i32::MAX] {
        let typed = format!("{v}");
        let b = ValueType::I32.parse_to_bytes(&typed, None).unwrap();
        assert_eq!(ValueType::I32.read_i128(&b), Some(v as i128));
        assert_eq!(text_of(ValueType::I32.format(&b)), typed);
    }
}

#[test]
fn a_text_survives_its_bytes() {
    for s in ["", "olá", "日本 😀", "tab\tend"] {
        for vt in [ValueType::StringUtf8, ValueType::StringUtf16] {
            let b = vt.parse_to_bytes(s, None).unwrap();
            assert_eq!(vt.decode_string(&b), s);
        }
    }
}

#[test]
fn bytes_are_little_endian() {
    let mut out = vec![9u8];
    push_le(&mut out, 0x0102_0304, 4);
    assert_eq!(out, vec![9, 4, 3, 2, 1]);
    assert_eq!(read_le(&out, 1, 4), 0x0102_0304);
    assert_eq!(read_le(&out, 1, 0), 0);
    assert_eq!(copy_range(&out, 1, 3), vec![4, 3]);
    assert!(same_bytes(&[1, 2], &[1, 2]));
    assert!(!same_bytes(&[1, 2], &[1, 3]));
    assert!(!same_bytes(&[1], &[1, 3]));
}

#[test]
fn patterns_are_ordered_as_numbers() {
    let xs = [
        f64::NEG_INFINITY,
        -1e300,
        -1.0,
        -5e-324,
        -0.0,
        0.0,
        5e-324,
        0.5,
        1.0,
        1e300,
        f64::INFINITY,
        f64::NAN,
    ];
    for a in xs {
        for b in xs {
            assert_eq!(ieee::less(a.to_bits(), b.to_bits()), a < b);
            assert_eq!(ieee::equal(a.to_bits(), b.to_bits()), a == b);
        }
        assert_eq!(ieee::not_a_number(a.to_bits()), a.is_nan());
    }
}

#[test]
fn single_precision_is_widened() {
    let mut n: u32 = 0;
    while n < 0xffff_0000 {
        let f = f32::from_bits(n);
        if !f.is_nan() {
            assert_eq!(ieee::widen(n), (f as f64).to_bits());
        }
        n += 0xfff1;
    }
    for n in [1u32, 2, 3, 0x7f_ffff, 0x80_0000, 0x7f7f_ffff, 0x8000_0001] {
        assert_eq!(ieee::widen(n), (f32::from_bits(n) as f64).to_bits());
    }
}

#[test]
fn integers_become_the_nearest_number() {
    let mut vs: Vec<i128> = vec![0, 1, -1, 3, 255, 1 << 52, (1 << 53) - 1, 1 << 53, 1 << 64];
    for k in 50..64u32 {
        for d in -3i128..=3 {
            vs.push((1i128 << k) + d);
            vs.push(-(1i128 << k) + d);
            vs.push((1i128 << k) + (1i128 << (k - 53 + 3)) / 2 + d);
        }
    }
    for v in vs {
        if v.abs() <= 1i128 << 64 {
            assert_eq!(ieee::from_integer(v), (v as f64).to_bits());
            assert_eq!(ieee::show_through_float(v), v as f64 as i64);
        }
    }
}

#[test]
fn numbers_are_cut_to_integers() {
    for x in [
        0.0,
        -0.0,
        0.9,
        -0.9,
        1.0,
        -1.5,
        1e15 + 0.3,
        123456789.75,
        -1e20,
        1e38,
        1e39,
        -1e39,
        f64::INFINITY,
        f64::NEG_INFINITY,
        f64::NAN,
        5e-324,
        -170141183460469231731687303715884105728.0,
    ] {
        assert_eq!(ieee::truncate(f64::to_bits(x)), x as i128);
    }
}

#[test]
fn white_space_is_that_of_the_standard_library() {
    for c in '\u{0}'..=char::MAX {
        assert_eq!(text::is_whitespace(c), c.is_whitespace());
    }
}

#[test]
fn texts_are_trimmed_and_split() {
    for s in ["", " ", "a", "  a b  ", "\u{a0}x\u{3000}", "a\tb\nc", " \u{2028} "] {
        let t: String = text::trim(s).into_iter().collect();
        assert_eq!(t, s.trim());
        let cs: Vec<char> = s.chars().collect();
        let ws: Vec<String> =
            text::split_words(&cs).into_iter().map(|w| w.into_iter().collect()).collect();
        let expected: Vec<String> = s.split_whitespace().map(|w| w.to_string()).collect();
        assert_eq!(ws, expected);
    }
}

#[test]
fn addresses_are_read_in_hexadecimal() {
    assert_eq!(text::parse_addr("7FF612340000"), Some(0x7ff6_1234_0000));
    assert_eq!(text::parse_addr("  0x1A2b "), Some(0x1a2b));
    assert_eq!(text::parse_addr("0X10"), Some(0x10));
    assert_eq!(text::parse_addr("0x0x10"), Some(0x10));
    assert_eq!(text::parse_addr("+10"), Some(0x10));
    assert_eq!(text::parse_addr("FFFFFFFFFFFFFFFF"), Some(u64::MAX));
    assert_eq!(text::parse_addr("10000000000000000"), None);
    assert_eq!(text::parse_addr("-1"), None);
    assert_eq!(text::parse_addr("7FF6 0001"), None);
    assert_eq!(text::parse_addr(""), None);
    assert_eq!(text::parse_addr("0x"), None);
    assert_eq!(text::parse_addr("xyz"), None);
}

#[test]
fn numbers_are_written() {
    for n in [0u64, 7, 10, 255, 4096, u64::MAX] {
        assert_eq!(text::decimal_string(n), format!("{n}"));
        assert_eq!(text::hex_string(n), format!("{n:X}"));
        assert_eq!(text::address_string(n), format!("{n:016X}"));
    }
    let mut s = String::new();
    text::push_signed(&mut s, i64::MIN);
    s.push(' ');
    text::push_signed(&mut s, 12);
    assert_eq!(s, format!("{} 12", i64::MIN));
}

#[test]
fn filters_ignore_case() {
    assert!(text::filter_accepts("Game.EXE", ""));
    assert!(text::filter_accepts("Game.EXE", "me.e"));
    assert!(text::filter_accepts("ÁRVORE", "árv"));
    assert!(!text::filter_accepts("Game.EXE", "dll"));
    assert!(!text::filter_accepts("a", "ab"));
}

#[test]
fn utf16_round_trip() {
    let cs: Vec<char> = "aé€😀\u{10ffff}\u{e000}".chars().collect();
    let units = utf16::encode(&cs);
    let expected: Vec<u16> = cs.iter().collect::<String>().encode_utf16().collect();
    assert_eq!(units, expected);
    let bytes = utf16::to_bytes(&units);
    assert_eq!(utf16::from_bytes(&bytes), units);
    assert_eq!(utf16::decode(&units), cs.iter().collect::<String>());
    assert_eq!(utf16::from_bytes(&[1, 2, 3]), vec![0x0201]);
    for us in [vec![0xd800u16], vec![0xdc00, 0x41], vec![0xd83d, 0xd83d, 0xde00]] {
        assert_eq!(utf16::decode(&us), String::from_utf16_lossy(&us));
    }
}
