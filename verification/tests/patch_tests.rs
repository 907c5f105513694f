use cnat::patch::Replacement;

#[test]
fn replacements() {
    let contents = "1234567hiearth".as_bytes().to_vec();
    let rps = vec![
        Replacement::new(1, 3, "234".as_bytes(), "abcdef".as_bytes()),
        Replacement::new(5, 6, "67".as_bytes(), "jkl".as_bytes()),
        Replacement::new(7, 8, "hi".as_bytes(), "hello".as_bytes()),
        Replacement::new(9, 13, "earth".as_bytes(), "world".as_bytes()),
    ];

    let contents = Replacement::apply_all(&rps, contents).unwrap();

    assert_eq!(contents, "1abcdef5jklhelloworld".as_bytes());
}

#[test]
fn no_edits_leave_the_buffer_alone() {
    let contents = "untouched bytes".as_bytes().to_vec();
    let rps: Vec<Replacement> = vec![];

    let out = Replacement::apply_all(&rps, contents.clone()).unwrap();

    assert_eq!(out, contents);
}

#[test]
fn mismatched_expected_bytes_are_fatal() {
    let contents = "abcdef".as_bytes().to_vec();
    let rps = vec![Replacement::new(0, 2, "xyz".as_bytes(), "aa".as_bytes())];

    assert!(Replacement::apply_all(&rps, contents).is_err());
}

#[test]
fn wrong_expected_length_is_fatal() {
    let contents = "abcdef".as_bytes().to_vec();
    let rps = vec![Replacement::new(0, 2, "ab".as_bytes(), "aa".as_bytes())];

    assert!(Replacement::apply_all(&rps, contents).is_err());
}

#[test]
fn range_past_the_end_is_fatal() {
    let contents = "abc".as_bytes().to_vec();
    let rps = vec![Replacement::new(1, 5, "bc???".as_bytes(), "x".as_bytes())];

    assert!(Replacement::apply_all(&rps, contents).is_err());
}

#[test]
fn shrinking_edits_shift_later_ranges_back() {
    let contents = "aaa-bbb-ccc".as_bytes().to_vec();
    let rps = vec![
        Replacement::new(0, 2, "aaa".as_bytes(), "a".as_bytes()),
        Replacement::new(4, 6, "bbb".as_bytes(), "B".as_bytes()),
        Replacement::new(8, 10, "ccc".as_bytes(), "cccc".as_bytes()),
    ];

    let out = Replacement::apply_all(&rps, contents).unwrap();

    assert_eq!(out, "a-B-cccc".as_bytes());
}
