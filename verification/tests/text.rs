use ssh_agent_mux::text::{
    chars_of, copy_bytes, decimal_string, is_white_space, parse_i32, same_bytes, split_bytes,
    split_lines, string_of, trim,
};

fn parse(s: &str) -> Option<i32> {
    parse_i32(&chars_of(s))
}

fn trimmed(s: &str) -> String {
    let out = trim(&chars_of(s));
    string_of(&out, 0, out.len())
}

#[test]
fn chars_and_back() {
    let chars = chars_of("a\u{2026}b");
    assert_eq!(chars, vec!['a', '\u{2026}', 'b']);
    assert_eq!(string_of(&chars, 1, 3), "\u{2026}b");
    assert_eq!(string_of(&chars, 1, 1), "");
}

#[test]
fn bytes_are_compared_and_copied() {
    assert!(same_bytes(b"/run/a", b"/run/a"));
    assert!(!same_bytes(b"/run/a", b"/run/b"));
    assert!(!same_bytes(b"/run/a", b"/run/"));
    assert_eq!(copy_bytes(b"xyz"), b"xyz".to_vec());
}

#[test]
fn decimal_numbers() {
    assert_eq!(decimal_string(0), "0");
    assert_eq!(decimal_string(9), "9");
    assert_eq!(decimal_string(10), "10");
    assert_eq!(decimal_string(-1), "-1");
    assert_eq!(decimal_string(4294967295), "4294967295");
    assert_eq!(decimal_string(-2147483648), "-2147483648");
}

#[test]
fn numbers_are_read_like_std_reads_them() {
    let texts = [
        "", "+", "-", "0", "-0", "+0", "7", "+7", "-7", "007", "2147483647", "2147483648",
        "-2147483648", "-2147483649", "99999999999999999999", "1 ", " 1", "1_0", "0x1", "--1",
        "+-1", "12a", "\u{0661}",
    ];
    for text in texts {
        assert_eq!(parse(text), text.parse::<i32>().ok(), "{:?}", text);
    }
}

#[test]
fn a_number_comes_back_from_its_text() {
    for n in [0, 1, -1, 42, -42, i32::MAX, i32::MIN] {
        assert_eq!(parse(&decimal_string(n as i64)), Some(n));
    }
}

#[test]
fn white_space_is_that_of_unicode() {
    let mut count = 0;
    for code in 0..=0x10ffff_u32 {
        if let Some(c) = char::from_u32(code) {
            assert_eq!(is_white_space(c), c.is_whitespace(), "{:?}", c);
            count += 1;
        }
    }
    assert_eq!(count, 1112064);
}

#[test]
fn trimming_is_that_of_std() {
    for text in ["", " ", "a", " a", "a ", "\t a b \r\n", "\u{3000}x\u{a0}", "\u{200b}x"] {
        assert_eq!(trimmed(text), text.trim());
    }
}

#[test]
fn splitting_undoes_joining() {
    let lines = split_lines(&chars_of("one\n\ntwo\n"));
    let lines: Vec<String> = lines.iter().map(|l| string_of(l, 0, l.len())).collect();
    assert_eq!(lines, vec!["one", "", "two", ""]);
    assert_eq!(lines.join("\n"), "one\n\ntwo\n");

    let parts = split_bytes(b"git\0\0push\0", 0);
    assert_eq!(
        parts,
        vec![b"git".to_vec(), vec![], b"push".to_vec(), vec![]]
    );
    assert_eq!(split_bytes(b"", 47), vec![Vec::<u8>::new()]);
}
