use measurements::summary::summarize;
use measurements::InputError;

fn run(data: &[u8], workers: usize) -> Result<Vec<u8>, InputError> {
    summarize(&data.to_vec(), workers)
}

fn run_ok(data: &[u8], workers: usize) -> String {
    String::from_utf8(run(data, workers).unwrap()).unwrap()
}

#[test]
fn three_records_single_worker() {
    assert_eq!(run_ok(b"A;3.0\nB;-1.5\nA;5.0\n", 1), "{A=3.0/4.0/5.0, B=-1.5/-1.5/-1.5}");
}

#[test]
fn three_records_split_mid_line() {
    // With two workers the naive split point falls inside `B;-1.5`; after
    // alignment the output must be identical to the single-worker one.
    let data = b"A;3.0\nB;-1.5\nA;5.0\n";
    assert_eq!(run(data, 2).unwrap(), run(data, 1).unwrap());
    assert_eq!(run_ok(data, 2), "{A=3.0/4.0/5.0, B=-1.5/-1.5/-1.5}");
}

#[test]
fn single_line() {
    assert_eq!(run_ok(b"Z;-0.1\n", 1), "{Z=-0.1/-0.1/-0.1}");
}

#[test]
fn negative_mean() {
    assert_eq!(run_ok(b"N;-2.0\nN;-4.0\n", 1), "{N=-4.0/-3.0/-2.0}");
}

#[test]
fn empty_input() {
    assert_eq!(run_ok(b"", 1), "{}");
    assert_eq!(run_ok(b"", 5), "{}");
}

#[test]
fn worker_count_immaterial() {
    let data = b"Oslo;3.5\nParis;10.2\nOslo;-7.7\nRome;21.0\nParis;8.8\nOslo;0.0\n";
    let reference = run(data, 1).unwrap();
    for workers in 2..=9 {
        assert_eq!(run(data, workers).unwrap(), reference);
    }
}

#[test]
fn keys_sorted_by_byte_order() {
    assert_eq!(
        run_ok(b"b;1.0\nB;2.0\nA;0.5\nAB;1.1\n", 1),
        "{A=0.5/0.5/0.5, AB=1.1/1.1/1.1, B=2.0/2.0/2.0, b=1.0/1.0/1.0}"
    );
}

#[test]
fn mean_rounds_to_nearest() {
    // 4.0 / 3 = 1.33..; displayed to one decimal as 1.3.
    assert_eq!(run_ok(b"A;1.0\nA;1.0\nA;2.0\n", 1), "{A=1.0/1.3/2.0}");
}

#[test]
fn mean_tie_rounds_away_from_zero() {
    assert_eq!(run_ok(b"A;0.1\nA;0.2\n", 1), "{A=0.1/0.2/0.2}");
    assert_eq!(run_ok(b"A;-0.1\nA;-0.2\n", 1), "{A=-0.2/-0.2/-0.1}");
}

#[test]
fn extremes_update_both_bounds() {
    assert_eq!(run_ok(b"A;5.0\nA;3.0\nA;7.0\n", 1), "{A=3.0/5.0/7.0}");
}

#[test]
fn repeated_equal_values() {
    assert_eq!(run_ok(b"A;5.0\nA;5.0\nA;5.0\n", 1), "{A=5.0/5.0/5.0}");
}

#[test]
fn unterminated_input_rejected() {
    assert_eq!(run(b"A;1.0", 1), Err(InputError::MissingTerminator));
    assert_eq!(run(b"A;1.0\nB;2.0", 3), Err(InputError::MissingTerminator));
}

#[test]
fn missing_separator_rejected() {
    assert_eq!(run(b"A\n", 1), Err(InputError::MalformedLine));
}

#[test]
fn stray_byte_in_value_rejected() {
    assert_eq!(run(b"A;1x0\n", 1), Err(InputError::MalformedLine));
}

#[test]
fn sign_after_digit_rejected() {
    assert_eq!(run(b"A;1-0\n", 1), Err(InputError::MalformedLine));
}

#[test]
fn double_sign_rejected() {
    assert_eq!(run(b"A;--1.0\n", 1), Err(InputError::MalformedLine));
}

#[test]
fn oversized_value_rejected() {
    // The accumulated magnitude would leave the 32-bit fixed-point range.
    assert_eq!(run(b"A;99999999999.9\n", 1), Err(InputError::MalformedLine));
}

#[test]
fn empty_key_and_empty_value() {
    // The machine accepts an empty key and an empty value field (read as 0).
    assert_eq!(run_ok(b";\n", 1), "{=0.0/0.0/0.0}");
}

#[test]
fn non_utf8_key_passes_through() {
    let data: Vec<u8> = vec![0xFF, b';', b'2', b'.', b'5', b'\n'];
    let out = summarize(&data, 1).unwrap();
    let mut expected: Vec<u8> = Vec::new();
    expected.push(b'{');
    expected.push(0xFF);
    expected.extend_from_slice(b"=2.5/2.5/2.5}");
    assert_eq!(out, expected);
}

#[test]
fn digits_allowed_in_keys() {
    assert_eq!(run_ok(b"K9;1.0\n", 1), "{K9=1.0/1.0/1.0}");
}

#[test]
fn more_workers_than_lines() {
    let data = b"A;1.0\nB;2.0\n";
    assert_eq!(run(data, 64).unwrap(), run(data, 1).unwrap());
}
