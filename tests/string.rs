use orbital::string::String as Text;

fn text(s: &str) -> Vec<char> {
    s.chars().collect()
}

#[test]
fn builds_from_str_and_char() {
    assert_eq!(Text::from_str("h\u{e9}llo").iter(), text("h\u{e9}llo"));
    assert_eq!(Text::from_str("").len(), 0);
    assert_eq!(Text::new().len(), 0);
    assert_eq!(Text::from_char('x').iter(), vec!['x']);
    assert_eq!(Text::from_char('\0').len(), 0);
}

#[test]
fn builds_from_c_bytes() {
    assert_eq!(Text::from_c_slice(b"abc\0def").iter(), text("abc"));
    assert_eq!(Text::from_c_slice(b"xyz").iter(), text("xyz"));
    assert_eq!(Text::from_c_slice(&[0xe9, 0]).iter(), vec!['\u{e9}']);
    assert_eq!(Text::from_c_str(b"\0abc").len(), 0);
}

#[test]
fn writes_numbers() {
    assert_eq!(Text::from_num(0).iter(), text("0"));
    assert_eq!(Text::from_num(1234).iter(), text("1234"));
    assert_eq!(Text::from_num_radix(255, 16).iter(), text("FF"));
    assert_eq!(Text::from_num_radix(5, 2).iter(), text("101"));
    assert_eq!(Text::from_num_radix(35, 36).iter(), text("Z"));
    assert_eq!(Text::from_num_radix(7, 0).len(), 0);
    assert_eq!(Text::from_num_radix(0, 1).iter(), text("0"));
    assert_eq!(Text::from_num_radix(200, 201).iter(), vec!['\u{ff}']);
    assert_eq!(Text::from_num_radix(37 * 40 + 36, 40).iter(), vec!['\u{5c}', '[']);
}

#[test]
fn concatenates() {
    let a = Text::from_str("ab");
    let b = Text::from_str("c\u{e9}");
    assert_eq!(a.concat(&b).iter(), text("abc\u{e9}"));
    assert_eq!(a.concat(&Text::new()).iter(), text("ab"));
    assert_eq!(Text::new().concat(&b).iter(), text("c\u{e9}"));
}

#[test]
fn reads_numbers() {
    assert_eq!(Text::from_str("1234").to_num(), 1234);
    assert_eq!(Text::from_str("12ab").to_num(), 12);
    assert_eq!(Text::from_str("ff").to_num_radix(16), 255);
    assert_eq!(Text::from_str("Zz").to_num_radix(36), 35 * 36 + 35);
    assert_eq!(Text::from_str("19").to_num_radix(8), 1);
    assert_eq!(Text::from_str("").to_num(), 0);
    assert_eq!(Text::from_str("12").to_num_radix(0), 0);
}

#[test]
fn indexes_and_slices() {
    let s = Text::from_str("abcdef");
    assert_eq!(s.get(2), 'c');
    assert_eq!(s.get(6), '\0');
    assert_eq!(s.substr(1, 3).iter(), text("bcd"));
    assert_eq!(s.substr(4, 10).iter(), text("ef"));
    assert_eq!(s.substr(9, 2).len(), 0);
    assert_eq!(s.substr(2, usize::MAX).iter(), text("cdef"));
    assert_eq!(s.clone().iter(), text("abcdef"));
}

#[test]
fn compares() {
    let s = Text::from_str("abcdef");
    assert!(s.equals(&Text::from_str("abcdef")));
    assert!(!s.equals(&Text::from_str("abcdeg")));
    assert!(!s.equals(&Text::from_str("abc")));
    assert!(s.starts_with(&Text::from_str("abc")));
    assert!(!s.starts_with(&Text::from_str("bc")));
    assert!(s.ends_with(&Text::from_str("def")));
    assert!(!s.ends_with(&Text::from_str("abcdefg")));
    assert!(s.starts_with(&Text::new()));
}

#[test]
fn writes_c_bytes() {
    assert_eq!(Text::from_str("ab").to_c_str(), vec![b'a', b'b', 0]);
    assert_eq!(Text::new().to_c_str(), vec![0]);
    assert_eq!(Text::from_char('\u{141}').to_c_str(), vec![0x41, 0]);
}
