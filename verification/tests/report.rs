use cosmo_sysconf::numeral::{alternate_hex, decimal, signed_decimal};
use cosmo_sysconf::report::{field, report_line};

#[test]
fn decimal_numerals() {
    assert_eq!(decimal(0), "0");
    assert_eq!(decimal(7), "7");
    assert_eq!(decimal(8000), "8000");
    assert_eq!(decimal(u128::MAX), u128::MAX.to_string());
}

#[test]
fn signed_numerals() {
    assert_eq!(signed_decimal(0), "0");
    assert_eq!(signed_decimal(22), "22");
    assert_eq!(signed_decimal(-1), "-1");
    assert_eq!(signed_decimal(i64::MIN), i64::MIN.to_string());
    assert_eq!(signed_decimal(i64::MAX), i64::MAX.to_string());
}

#[test]
fn alternate_hex_numerals() {
    assert_eq!(alternate_hex(0), "0x0");
    assert_eq!(alternate_hex(0x80800), "0x80800");
    assert_eq!(alternate_hex(0xff), "0xff");
    assert_eq!(alternate_hex(u32::MAX), format!("{:#x}", u32::MAX));
    assert_eq!(alternate_hex(-1i32 as u32), format!("{:#x}", -1i32));
}

#[test]
fn fields_and_lines() {
    assert_eq!(field("ok", "true"), "ok=true");
    assert_eq!(field("k", ""), "k=");
    let fields = vec![field("mutex_final", "8000"), field("expected", "8000"), field("ok", "true")];
    assert_eq!(
        report_line(6, "threads", &fields),
        "CAT06 threads: mutex_final=8000 expected=8000 ok=true"
    );
    assert_eq!(report_line(13, "einval", &Vec::new()), "CAT13 einval:");
    assert_eq!(
        report_line(5, "sockets", &vec!["bind".to_string(), "ok".to_string()]),
        "CAT05 sockets: bind ok"
    );
}

#[test]
fn category_padding() {
    assert_eq!(report_line(0, "x", &Vec::new()), "CAT00 x:");
    assert_eq!(report_line(9, "x", &vec![field("a", "b")]), "CAT09 x: a=b");
    assert_eq!(report_line(123, "x", &Vec::new()), "CAT123 x:");
}
