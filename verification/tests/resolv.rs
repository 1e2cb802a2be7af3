use cosmo_sysconf::ip::IpAddress;
use cosmo_sysconf::resolv::{nameserver_from_line, nameservers_from_lines};

fn lines(text: &[&str]) -> Vec<String> {
    text.iter().map(|s| s.to_string()).collect()
}

#[test]
fn plain_nameserver_lines() {
    assert_eq!(
        nameserver_from_line("nameserver 8.8.8.8"),
        Some(IpAddress::V4([8, 8, 8, 8]))
    );
    assert_eq!(
        nameserver_from_line("nameserver 2001:4860:4860::8888"),
        Some(IpAddress::V6([0x2001, 0x4860, 0x4860, 0, 0, 0, 0, 0x8888]))
    );
}

#[test]
fn whitespace_and_comments() {
    assert_eq!(
        nameserver_from_line("  nameserver\t1.1.1.1   # cloudflare"),
        Some(IpAddress::V4([1, 1, 1, 1]))
    );
    assert_eq!(
        nameserver_from_line("nameserver 9.9.9.9\r"),
        Some(IpAddress::V4([9, 9, 9, 9]))
    );
    assert_eq!(
        nameserver_from_line("\u{3000}nameserver\u{a0}10.0.0.1"),
        Some(IpAddress::V4([10, 0, 0, 1]))
    );
    assert_eq!(nameserver_from_line("# nameserver 8.8.8.8"), None);
    assert_eq!(nameserver_from_line("nameserver # 8.8.8.8"), None);
}

#[test]
fn lines_that_name_no_server() {
    assert_eq!(nameserver_from_line(""), None);
    assert_eq!(nameserver_from_line("nameserver"), None);
    assert_eq!(nameserver_from_line("nameserver   "), None);
    assert_eq!(nameserver_from_line("search example.com"), None);
    assert_eq!(nameserver_from_line("options ndots:2"), None);
    assert_eq!(nameserver_from_line("nameserver not-an-address"), None);
    assert_eq!(nameserver_from_line("Nameserver 1.2.3.4"), None);
    assert_eq!(nameserver_from_line("nameserver 1.2.3.4 5.6.7.8"), None);
    assert_eq!(nameserver_from_line("nameserver [::1]"), None);
}

#[test]
fn keyword_glued_to_address() {
    // The keyword is a prefix: what follows is trimmed and parsed as is.
    assert_eq!(
        nameserver_from_line("nameserver1.2.3.4"),
        Some(IpAddress::V4([1, 2, 3, 4]))
    );
    assert_eq!(nameserver_from_line("nameserverX 1.2.3.4"), None);
}

#[test]
fn servers_in_file_order() {
    let file = lines(&[
        "# generated",
        "search lan",
        "nameserver 192.168.1.1",
        "nameserver ::1",
        "",
        "nameserver bogus",
        "nameserver 8.8.4.4 # secondary",
    ]);
    assert_eq!(
        nameservers_from_lines(&file),
        vec![
            IpAddress::V4([192, 168, 1, 1]),
            IpAddress::V6([0, 0, 0, 0, 0, 0, 0, 1]),
            IpAddress::V4([8, 8, 4, 4]),
        ]
    );
}

#[test]
fn no_servers_gives_empty() {
    assert_eq!(nameservers_from_lines(&Vec::new()), Vec::new());
    assert_eq!(nameservers_from_lines(&lines(&["domain lan", "# nothing"])), Vec::new());
}

#[test]
fn concatenated_files_concatenate_servers() {
    let a = lines(&["nameserver 1.1.1.1", "search x"]);
    let b = lines(&["nameserver 2.2.2.2", "nameserver 3.3.3.3"]);
    let mut ab = a.clone();
    ab.extend(b.clone());
    let mut expected = nameservers_from_lines(&a);
    expected.extend(nameservers_from_lines(&b));
    assert_eq!(nameservers_from_lines(&ab), expected);
}

#[test]
fn text_after_hash_is_ignored() {
    for line in ["nameserver 4.4.4.4", "  nameserver ::2 ", "search lan", "nameserver"] {
        for comment in ["", "x", " nameserver 1.1.1.1", "#"] {
            let with_comment = format!("{line}#{comment}");
            assert_eq!(nameserver_from_line(&with_comment), nameserver_from_line(line));
        }
    }
}

#[test]
fn leading_white_space_is_ignored() {
    for line in ["nameserver 7.7.7.7", "search lan", "nameserver ::9", "#nameserver 1.1.1.1"] {
        for ws in ["", " ", "\t\t", "\u{2003}\u{85} "] {
            let padded = format!("{ws}{line}");
            assert_eq!(nameserver_from_line(&padded), nameserver_from_line(line));
        }
    }
}

#[test]
fn every_server_comes_from_a_line() {
    let file = lines(&["nameserver 1.0.0.1", "x", "nameserver 1.0.0.2", "nameserver 1.0.0.1"]);
    let found = nameservers_from_lines(&file);
    assert_eq!(found.len(), 3);
    for a in &found {
        assert!(file.iter().any(|l| nameserver_from_line(l) == Some(*a)));
    }
    for l in &file {
        if let Some(a) = nameserver_from_line(l) {
            assert!(found.contains(&a));
        }
    }
}
