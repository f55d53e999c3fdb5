use measurements::record::Record;
use measurements::scan::scan_range;
use measurements::table::Table;
use measurements::InputError;

fn get(t: &Table, key: &[u8]) -> Record {
    for (k, r) in t.entries.iter() {
        if k.as_slice() == key {
            return *r;
        }
    }
    panic!("key not found");
}

#[test]
fn scan_covers_exactly_the_given_range() {
    let data = b"A;1.0\nB;2.0\nC;3.0\n".to_vec();
    let t = scan_range(&data, 6, 12).unwrap();
    assert_eq!(t.entries.len(), 1);
    let b = get(&t, b"B");
    assert_eq!((b.min, b.total, b.max, b.count), (20, 20, 20, 1));
}

#[test]
fn counts_tally_lines_per_key() {
    let data = b"K;1.0\nJ;2.0\nK;3.0\n".to_vec();
    let t = scan_range(&data, 0, data.len()).unwrap();
    assert_eq!(get(&t, b"K").count, 2);
    assert_eq!(get(&t, b"J").count, 1);
    assert_eq!(get(&t, b"K").total, 40);
}

#[test]
fn digits_accumulate_in_tenths() {
    // `12.5` is carried as 125; a value without a decimal point accumulates
    // its digits as written, so `25` is also 2.5 in tenths.
    let data = b"A;12.5\nB;25\n".to_vec();
    let t = scan_range(&data, 0, data.len()).unwrap();
    assert_eq!(get(&t, b"A").total, 125);
    assert_eq!(get(&t, b"B").total, 25);
}

#[test]
fn range_starting_mid_line_is_rejected() {
    let data = b"A;1.0\nB;2.0\n".to_vec();
    // From byte 2 the scanner sees `1.0\n...`: a line with no separator.
    assert!(matches!(scan_range(&data, 2, data.len()), Err(InputError::MalformedLine)));
}

#[test]
fn range_ending_mid_line_is_rejected() {
    let data = b"A;1.0\nB;2.0\n".to_vec();
    assert!(matches!(scan_range(&data, 0, 8), Err(InputError::MissingTerminator)));
}

#[test]
fn empty_range_is_an_empty_table() {
    let data = b"A;1.0\n".to_vec();
    let t = scan_range(&data, 0, 0).unwrap();
    assert_eq!(t.entries.len(), 0);
}
