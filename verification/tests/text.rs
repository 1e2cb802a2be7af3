use cosmo_sysconf::text::{chars_of, trim_range, white_space};

#[test]
fn white_space_property() {
    for c in ['\t', '\n', '\u{b}', '\u{c}', '\r', ' ', '\u{85}', '\u{a0}', '\u{1680}', '\u{2000}', '\u{200a}', '\u{2028}', '\u{2029}', '\u{202f}', '\u{205f}', '\u{3000}'] {
        assert!(white_space(c), "{:?}", c);
        assert_eq!(white_space(c), c.is_whitespace());
    }
    for c in ['a', '#', '\u{200b}', '\u{feff}', '\u{180e}', '0', ':'] {
        assert!(!white_space(c), "{:?}", c);
        assert_eq!(white_space(c), c.is_whitespace());
    }
}

#[test]
fn chars_in_order() {
    assert_eq!(chars_of("a✓b"), vec!['a', '✓', 'b']);
    assert_eq!(chars_of(""), Vec::<char>::new());
}

#[test]
fn trimming() {
    let s = chars_of("  ab c \t");
    assert_eq!(trim_range(&s, 0, s.len()), (2, 6));
    let blank = chars_of(" \t ");
    let (a, b) = trim_range(&blank, 0, blank.len());
    assert_eq!(a, b);
    assert_eq!(trim_range(&s, 3, 5), (3, 4));
}
