use cosmo_sysconf::errmsg::{copy_error_message, xpg_strerror_r, CopyStatus};

#[test]
fn message_fits() {
    let mut buf = [0xaau8; 16];
    assert_eq!(copy_error_message(Some(b"No such file"), &mut buf), CopyStatus::Copied);
    assert_eq!(&buf[..13], b"No such file\0");
    assert_eq!(&buf[13..], &[0xaa, 0xaa, 0xaa]);
}

#[test]
fn message_truncated() {
    let mut buf = [0xaau8; 5];
    assert_eq!(copy_error_message(Some(b"Permission denied"), &mut buf), CopyStatus::Truncated);
    assert_eq!(&buf, b"Perm\0");
}

#[test]
fn exact_fit_and_one_byte() {
    let mut buf = [1u8; 4];
    assert_eq!(copy_error_message(Some(b"abc"), &mut buf), CopyStatus::Copied);
    assert_eq!(&buf, b"abc\0");
    let mut short = [1u8; 3];
    assert_eq!(copy_error_message(Some(b"abc"), &mut short), CopyStatus::Truncated);
    assert_eq!(&short, b"ab\0");
    let mut one = [7u8; 1];
    assert_eq!(copy_error_message(Some(b"abc"), &mut one), CopyStatus::Truncated);
    assert_eq!(one, [0]);
    let mut fits = [7u8; 1];
    assert_eq!(copy_error_message(Some(b""), &mut fits), CopyStatus::Copied);
    assert_eq!(fits, [0]);
}

#[test]
fn invalid_arguments() {
    let mut empty: [u8; 0] = [];
    assert_eq!(copy_error_message(Some(b"abc"), &mut empty), CopyStatus::InvalidArgument);
    let mut buf = [9u8; 3];
    assert_eq!(copy_error_message(None, &mut buf), CopyStatus::InvalidArgument);
    assert_eq!(buf, [9, 9, 9]);
}

#[test]
fn strerror_r_return_values() {
    let (einval, erange) = (22, 34);
    let mut buf = [5u8; 8];
    assert_eq!(xpg_strerror_r(Some(b"No such"), &mut buf, einval, erange), 0);
    assert_eq!(&buf, b"No such\0");
    let mut small = [5u8; 4];
    assert_eq!(xpg_strerror_r(Some(b"No such"), &mut small, einval, erange), erange);
    assert_eq!(&small, b"No \0");
    let mut none: [u8; 0] = [];
    assert_eq!(xpg_strerror_r(Some(b"x"), &mut none, einval, erange), einval);
    let mut untouched = [5u8; 2];
    assert_eq!(xpg_strerror_r(None, &mut untouched, einval, erange), einval);
    assert_eq!(untouched, [5, 5]);
}
