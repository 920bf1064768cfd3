use read_until::delimiter::{delimiter_at, find_first, matches_at};
use read_until::scan::{check_delimiters, scan_until, scan_until_any, Outcome, Scan, ScanError};

#[test]
fn matches_at_compares_byte_for_byte() {
    assert!(matches_at(b"hello", b"ell", 1));
    assert!(!matches_at(b"hello", b"ell", 0));
    assert!(!matches_at(b"hello", b"elL", 1));
    assert!(matches_at(b"hello", b"hello", 0));
    assert!(matches_at(b"\xff\x00\xfe", b"\x00\xfe", 1));
}

#[test]
fn matches_at_is_false_where_the_pattern_does_not_fit() {
    assert!(!matches_at(b"hello", b"lo", 4));
    assert!(!matches_at(b"hello", b"lo", 5));
    assert!(!matches_at(b"hello", b"lo", usize::MAX));
    assert!(!matches_at(b"hi", b"high", 0));
    assert!(!matches_at(b"", b"a", 0));
}

#[test]
fn the_empty_pattern_occurs_wherever_it_fits() {
    assert!(matches_at(b"ab", b"", 0));
    assert!(matches_at(b"ab", b"", 2));
    assert!(!matches_at(b"ab", b"", 3));
    assert!(matches_at(b"", b"", 0));
}

#[test]
fn delimiter_at_gives_the_first_listed() {
    let set: [&[u8]; 3] = [b"bc", b"b", b"bcd"];
    assert_eq!(delimiter_at(b"abcd", &set, 1), Some(0));
    assert_eq!(delimiter_at(b"abcd", &set, 0), None);
    assert_eq!(delimiter_at(b"abcd", &set, 4), None);
    let set: [&[u8]; 3] = [b"bd", b"bcd", b"b"];
    assert_eq!(delimiter_at(b"abcd", &set, 1), Some(1));
    let none: [&[u8]; 0] = [];
    assert_eq!(delimiter_at(b"abcd", &none, 1), None);
}

#[test]
fn find_first_prefers_the_lowest_offset() {
    let set: [&[u8]; 2] = [b"\n", b"\r\n"];
    assert_eq!(find_first(b"a\r\nb", &set), Some((1, 1)));
    assert_eq!(find_first(b"a\nb\r\n", &set), Some((1, 0)));
    assert_eq!(find_first(b"abc", &set), None);
    assert_eq!(find_first(b"", &set), None);
    assert_eq!(find_first(b"abc\n", &set), Some((3, 0)));
}

#[test]
fn find_first_tries_every_offset() {
    let aa: [&[u8]; 1] = [b"aa"];
    assert_eq!(find_first(b"aaa", &aa), Some((0, 0)));
    assert_eq!(find_first(b"baa", &aa), Some((1, 0)));
    assert_eq!(find_first(b"bbaa", &aa), Some((2, 0)));
    assert_eq!(find_first(b"bbba", &aa), None);
    let abcd: [&[u8]; 1] = [b"abcd"];
    assert_eq!(find_first(b"xxabcd", &abcd), Some((2, 0)));
    assert_eq!(find_first(b"abcabcabcd", &abcd), Some((6, 0)));
}

#[test]
fn find_first_finds_an_empty_delimiter_at_once() {
    let set: [&[u8]; 2] = [b"x", b""];
    assert_eq!(find_first(b"abc", &set), Some((0, 1)));
    assert_eq!(find_first(b"", &set), Some((0, 1)));
    let none: [&[u8]; 0] = [];
    assert_eq!(find_first(b"abc", &none), None);
}

#[test]
fn check_delimiters_gives_the_longest_length() {
    let set: [&[u8]; 3] = [b"ab", b"abcd", b"a"];
    assert_eq!(check_delimiters(&set), Ok(4));
    let one: [&[u8]; 1] = [b"\r\n"];
    assert_eq!(check_delimiters(&one), Ok(2));
}

#[test]
fn check_delimiters_refuses_empty_sets_and_members() {
    let none: [&[u8]; 0] = [];
    assert_eq!(check_delimiters(&none), Err(ScanError::InvalidArgument));
    let last_empty: [&[u8]; 2] = [b"a", b""];
    assert_eq!(check_delimiters(&last_empty), Err(ScanError::InvalidArgument));
    let first_empty: [&[u8]; 2] = [b"", b"a"];
    assert_eq!(check_delimiters(&first_empty), Err(ScanError::InvalidArgument));
}

#[test]
fn scan_until_takes_through_the_delimiter() {
    let mut out = Vec::new();
    let scan = scan_until(b"This is a text\r\nwith two lines", b"\r\n", true, &mut out);
    assert_eq!(scan, Ok(Scan { consumed: 16, outcome: Outcome::Found { delimiter: 0 } }));
    assert_eq!(out, b"This is a text\r\n".to_vec());
    assert!(out.ends_with(b"\r\n"));
}

#[test]
fn scan_until_finds_the_same_whether_or_not_more_follows() {
    let mut out = Vec::new();
    let scan = scan_until(b"these are two lines abcd separated by abcd", b"abcd", false, &mut out);
    assert_eq!(scan, Ok(Scan { consumed: 24, outcome: Outcome::Found { delimiter: 0 } }));
    assert_eq!(out, b"these are two lines abcd".to_vec());
}

#[test]
fn scan_until_takes_everything_at_the_end_of_the_stream() {
    let mut out = Vec::new();
    let scan = scan_until(b"with two lines", b"\r\n", true, &mut out);
    assert_eq!(scan, Ok(Scan { consumed: 14, outcome: Outcome::ExhaustedNoMatch }));
    assert_eq!(out, b"with two lines".to_vec());
}

#[test]
fn scan_until_holds_back_what_could_begin_the_delimiter() {
    let mut out = Vec::new();
    let scan = scan_until(b"0123456789", b"<end>", false, &mut out);
    assert_eq!(scan, Ok(Scan { consumed: 6, outcome: Outcome::ExhaustedNoMatch }));
    assert_eq!(out, b"012345".to_vec());

    let mut out = Vec::new();
    let scan = scan_until(b"line\r", b"\r\n", false, &mut out);
    assert_eq!(scan, Ok(Scan { consumed: 4, outcome: Outcome::ExhaustedNoMatch }));
    assert_eq!(out, b"line".to_vec());

    // a delimiter of one byte cannot straddle anything
    let mut out = Vec::new();
    let scan = scan_until(b"line", b"\n", false, &mut out);
    assert_eq!(scan, Ok(Scan { consumed: 4, outcome: Outcome::ExhaustedNoMatch }));
}

#[test]
fn scan_until_takes_nothing_from_a_chunk_shorter_than_the_delimiter_while_more_follows() {
    let mut out = b"x".to_vec();
    let scan = scan_until(b"<en", b"<end>", false, &mut out);
    assert_eq!(scan, Ok(Scan { consumed: 0, outcome: Outcome::ExhaustedNoMatch }));
    assert_eq!(out, b"x".to_vec());

    let scan = scan_until(b"<en", b"<end>", true, &mut out);
    assert_eq!(scan, Ok(Scan { consumed: 3, outcome: Outcome::ExhaustedNoMatch }));
    assert_eq!(out, b"x<en".to_vec());
}

#[test]
fn scan_until_of_an_empty_chunk_takes_nothing() {
    let mut out = b"x".to_vec();
    for at_end in [true, false] {
        let scan = scan_until(b"", b"\n", at_end, &mut out);
        assert_eq!(scan, Ok(Scan { consumed: 0, outcome: Outcome::ExhaustedNoMatch }));
    }
    assert_eq!(out, b"x".to_vec());
}

#[test]
fn scan_until_refuses_an_empty_delimiter() {
    let mut out = b"x".to_vec();
    assert_eq!(scan_until(b"abc", b"", true, &mut out), Err(ScanError::InvalidArgument));
    assert_eq!(scan_until(b"", b"", false, &mut out), Err(ScanError::InvalidArgument));
    assert_eq!(out, b"x".to_vec());
}

#[test]
fn scan_until_any_names_the_delimiter_found() {
    let set: [&[u8]; 2] = [b"\r\n", b"\n"];
    let mut out = Vec::new();
    let scan = scan_until_any(b"line1\r\nline2\nline3", &set, true, &mut out);
    assert_eq!(scan, Ok(Scan { consumed: 7, outcome: Outcome::Found { delimiter: 0 } }));
    let scan = scan_until_any(b"line2\nline3", &set, true, &mut out);
    assert_eq!(scan, Ok(Scan { consumed: 6, outcome: Outcome::Found { delimiter: 1 } }));
    assert_eq!(out, b"line1\r\nline2\n".to_vec());
}

#[test]
fn scan_until_any_holds_back_by_the_longest_delimiter() {
    let set: [&[u8]; 3] = [b"--", b"-----", b"---"];
    let mut out = Vec::new();
    let scan = scan_until_any(b"0123456789", &set, false, &mut out);
    assert_eq!(scan, Ok(Scan { consumed: 6, outcome: Outcome::ExhaustedNoMatch }));
    let scan = scan_until_any(b"0123456789", &set, true, &mut out);
    assert_eq!(scan, Ok(Scan { consumed: 10, outcome: Outcome::ExhaustedNoMatch }));
}

#[test]
fn scan_until_any_takes_a_short_delimiter_near_the_end_of_the_chunk() {
    let set: [&[u8]; 2] = [b"-----", b"\n"];
    let mut out = Vec::new();
    let scan = scan_until_any(b"ab\n--", &set, false, &mut out);
    assert_eq!(scan, Ok(Scan { consumed: 3, outcome: Outcome::Found { delimiter: 1 } }));
    assert_eq!(out, b"ab\n".to_vec());
}

#[test]
fn scan_until_any_refuses_bad_sets() {
    let mut out = b"x".to_vec();
    let none: [&[u8]; 0] = [];
    assert_eq!(scan_until_any(b"abc", &none, true, &mut out), Err(ScanError::InvalidArgument));
    let with_empty: [&[u8]; 2] = [b"b", b""];
    assert_eq!(
        scan_until_any(b"abc", &with_empty, true, &mut out),
        Err(ScanError::InvalidArgument)
    );
    assert_eq!(out, b"x".to_vec());
}

#[test]
fn a_repeated_delimiter_counts_where_it_is_listed_first() {
    let set: [&[u8]; 3] = [b";", b",", b";"];
    let mut out = Vec::new();
    let scan = scan_until_any(b"a;b", &set, true, &mut out);
    assert_eq!(scan, Ok(Scan { consumed: 2, outcome: Outcome::Found { delimiter: 0 } }));
}
