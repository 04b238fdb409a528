use practica_one::algo::parse::{parse_distances, parse_palets};

#[test]
fn parse_palets_reads_one_palet_per_line() {
    assert_eq!(parse_palets(b"3\n 5 \r\n+7\n"), Some(vec![3, 5, 7]));
    assert_eq!(parse_palets(b"12\n49"), Some(vec![12, 49]));
    assert_eq!(parse_palets(b"007\n255\n"), Some(vec![7, 255]));
}

#[test]
fn parse_palets_of_empty_text_is_empty() {
    assert_eq!(parse_palets(b""), Some(vec![]));
}

#[test]
fn parse_palets_refuses_bad_lines() {
    assert_eq!(parse_palets(b"256\n"), None);
    assert_eq!(parse_palets(b"1\n\n2\n"), None);
    assert_eq!(parse_palets(b"a\n"), None);
    assert_eq!(parse_palets(b"+\n"), None);
    assert_eq!(parse_palets(b"-1\n"), None);
    assert_eq!(parse_palets(b"1 2\n"), None);
    assert_eq!(parse_palets(b"\n"), None);
}

#[test]
fn parse_distances_reads_rows_of_entries() {
    assert_eq!(
        parse_distances(b"0 1  2\n3\t4\n\n5"),
        Some(vec![vec![0, 1, 2], vec![3, 4], vec![], vec![5]])
    );
    assert_eq!(parse_distances(b"  10 20  \r\n"), Some(vec![vec![10, 20]]));
    assert_eq!(parse_distances(b""), Some(vec![]));
}

#[test]
fn parse_distances_refuses_bad_entries() {
    assert_eq!(parse_distances(b"1 x\n"), None);
    assert_eq!(parse_distances(b"1 -2\n"), None);
    assert_eq!(parse_distances(b"99999999999999999999999999\n"), None);
}

#[test]
fn parse_distances_accepts_the_largest_entry() {
    let text = format!("{} 0\n", usize::MAX);
    assert_eq!(parse_distances(text.as_bytes()), Some(vec![vec![usize::MAX, 0]]));
}

#[test]
fn parse_palets_trims_unicode_whitespace() {
    let text = "\u{a0}7\u{3000}\n\u{2003}12\u{85}\n\u{1680}+3\u{205f}\u{2029}\n";
    assert_eq!(parse_palets(text.as_bytes()), Some(vec![7, 12, 3]));
    assert_eq!(parse_palets("7\u{e9}\n".as_bytes()), None);
    assert_eq!(parse_palets("\u{200b}7\n".as_bytes()), None);
}

#[test]
fn parse_distances_splits_on_unicode_whitespace() {
    let text = "1\u{2003}2\u{a0}\u{a0}3\u{202f}\n\u{3000}4";
    assert_eq!(parse_distances(text.as_bytes()), Some(vec![vec![1, 2, 3], vec![4]]));
    assert_eq!(parse_distances("1\u{e9}2\n".as_bytes()), None);
}
