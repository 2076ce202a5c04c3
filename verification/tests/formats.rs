use quarry::dump::{hex_dump, hex_dump_at, human_bytes, readable_text};

fn xxd(data: &[u8]) -> String {
    let mut out = String::new();
    for (i, chunk) in data.chunks(16).enumerate() {
        let mut hex = String::new();
        let mut asc = String::new();
        for j in 0..16 {
            match chunk.get(j) {
                Some(b) => {
                    hex.push_str(&format!("{b:02x} "));
                    asc.push(if b.is_ascii_graphic() || *b == b' ' { *b as char } else { '.' });
                }
                None => hex.push_str("   "),
            }
            if j == 7 {
                hex.push(' ');
            }
        }
        out.push_str(&format!("{:08x}  {hex} |{asc}|\n", i * 16));
    }
    out
}

#[test]
fn dumps_have_sixteen_bytes_in_a_line() {
    let data: Vec<u8> = (0..=255).collect();
    for n in [0, 1, 7, 8, 9, 15, 16, 17, 100, 256] {
        assert_eq!(hex_dump(&data[..n]), xxd(&data[..n]));
    }
    assert_eq!(
        hex_dump(b"Quarry\n"),
        "00000000  51 75 61 72 72 79 0a                              |Quarry.|\n"
    );
}

#[test]
fn dumps_of_memory_give_addresses() {
    assert_eq!(
        hex_dump_at(0x7ff6_0000_1230, &[0xab; 17]),
        "00007FF600001230  AB AB AB AB AB AB AB AB  AB AB AB AB AB AB AB AB  |................|\n\
         00007FF600001240  AB                                                |.|\n"
    );
    assert!(hex_dump_at(u64::MAX - 15, &[0; 32]).contains("\n0000000000000000  "));
    assert_eq!(hex_dump_at(5, &[]), "");
}

#[test]
fn text_is_made_readable() {
    assert_eq!(readable_text(b"a\tb\r\nc\x00\x7f~ "), "a\tb\nc..~ ");
    assert_eq!(readable_text("é".as_bytes()), "..");
    assert_eq!(readable_text(b""), "");
}

#[test]
fn sizes_are_written_with_one_digit() {
    let reference = |n: u64| {
        let units = ["B", "KB", "MB", "GB"];
        let mut v = n as f64;
        let mut u = 0;
        while v >= 1024.0 && u < 3 {
            v /= 1024.0;
            u += 1;
        }
        if u == 0 { format!("{n} B") } else { format!("{v:.1} {}", units[u]) }
    };
    let mut ns: Vec<u64> = vec![0, 1, 1023, 1024, 1075, 1076, 1126, 1127, 1177, 1178, u64::MAX];
    for k in 10..64u32 {
        for d in [0u64, 1, 51, 52, 102, 256, 512, 768] {
            ns.push((1u64 << k).wrapping_add(d << (k - 10)));
            ns.push((1u64 << k).wrapping_sub(d + 1));
        }
    }
    for n in ns {
        assert_eq!(human_bytes(n), reference(n));
    }
    assert_eq!(human_bytes(1536), "1.5 KB");
    assert_eq!(human_bytes(5 << 30), "5.0 GB");
}
