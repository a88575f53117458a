use ingestd::cli::parse_filesize;
use ingestd::listing::{flatten_expansions, split_listing_lines};
use ingestd::store::{parse_confirmation, Decision};

#[test]
fn filesize_plain_bytes() {
    assert_eq!(parse_filesize(b"0"), Some(0));
    assert_eq!(parse_filesize(b"10"), Some(10));
    assert_eq!(parse_filesize(b"1048576"), Some(1048576));
    assert_eq!(parse_filesize(b"007"), Some(7));
}

#[test]
fn filesize_suffixes() {
    assert_eq!(parse_filesize(b"10M"), Some(10 * 1024 * 1024));
    assert_eq!(parse_filesize(b"10m"), Some(10 * 1024 * 1024));
    assert_eq!(parse_filesize(b"1K"), Some(1024));
    assert_eq!(parse_filesize(b"3k"), Some(3 * 1024));
    assert_eq!(parse_filesize(b"2G"), Some(2 * 1024 * 1024 * 1024));
    assert_eq!(parse_filesize(b"1T"), Some(1024u64 * 1024 * 1024 * 1024));
}

#[test]
fn filesize_rejects_malformed() {
    assert_eq!(parse_filesize(b""), None);
    assert_eq!(parse_filesize(b"K"), None);
    assert_eq!(parse_filesize(b"10Q"), None);
    assert_eq!(parse_filesize(b"1 0"), None);
    assert_eq!(parse_filesize(b"M10"), None);
    assert_eq!(parse_filesize(b"-5"), None);
}

#[test]
fn filesize_rejects_overflow() {
    assert_eq!(parse_filesize(b"18446744073709551615"), Some(u64::MAX));
    assert_eq!(parse_filesize(b"18446744073709551616"), None);
    assert_eq!(parse_filesize(b"99999999999999999999999"), None);
    assert_eq!(parse_filesize(b"18446744073709551615K"), None);
}

#[test]
fn confirmation_spellings() {
    for yes in [&b"Y"[..], b"y", b"YES", b"Yes", b"yes"] {
        assert_eq!(parse_confirmation(yes), Some(Decision::Accepted));
    }
    for no in [&b"N"[..], b"n", b"NO", b"No", b"no"] {
        assert_eq!(parse_confirmation(no), Some(Decision::Rejected));
    }
    for bad in [&b""[..], b"YEs", b"nO", b"maybe", b"yess", b"Nope"] {
        assert_eq!(parse_confirmation(bad), None);
    }
}

#[test]
fn listing_lines_split() {
    let data = b"a.txt\nb.txt\n\nc.txt\n";
    let lines = split_listing_lines(data);
    assert_eq!(lines.len(), 3);
    assert_eq!(lines[0], b"a.txt".to_vec());
    assert_eq!(lines[1], b"b.txt".to_vec());
    assert_eq!(lines[2], b"c.txt".to_vec());
}

#[test]
fn listing_last_line_without_newline() {
    let lines = split_listing_lines(b"one\ntwo");
    assert_eq!(lines.len(), 2);
    assert_eq!(lines[0], b"one".to_vec());
    assert_eq!(lines[1], b"two".to_vec());
    assert_eq!(split_listing_lines(b"").len(), 0);
    assert_eq!(split_listing_lines(b"\n\n").len(), 0);
}

#[test]
fn expansions_concatenated_in_order() {
    let expansions = vec![
        vec!["b.txt".to_string(), "a.txt".to_string()],
        vec![],
        vec!["a.txt".to_string(), "c.txt".to_string()],
    ];
    let flat = flatten_expansions(&expansions);
    let expect = ["b.txt", "a.txt", "a.txt", "c.txt"];
    assert_eq!(flat.len(), expect.len());
    for (got, want) in flat.iter().zip(expect.iter()) {
        assert_eq!(got, want);
    }
}
