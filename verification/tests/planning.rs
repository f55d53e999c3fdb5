use measurements::planner::{plan_chunks, ChunkRange};
use measurements::InputError;

#[test]
fn single_worker_gets_the_whole_file() {
    let data = b"A;3.0\nB;-1.5\nA;5.0\n".to_vec();
    let rs = plan_chunks(&data, 1).unwrap();
    assert_eq!(rs, vec![ChunkRange { start: 0, end: 19 }]);
}

#[test]
fn mid_line_split_aligns_to_terminator() {
    // 19 bytes, naive split at 9, inside `B;-1.5`; the terminator of that
    // line sits at byte 12, so the aligned boundary is 13.
    let data = b"A;3.0\nB;-1.5\nA;5.0\n".to_vec();
    let rs = plan_chunks(&data, 2).unwrap();
    assert_eq!(rs, vec![ChunkRange { start: 0, end: 13 }, ChunkRange { start: 13, end: 19 }]);
}

#[test]
fn empty_file_yields_empty_ranges() {
    let data: Vec<u8> = Vec::new();
    let rs = plan_chunks(&data, 3).unwrap();
    assert_eq!(
        rs,
        vec![
            ChunkRange { start: 0, end: 0 },
            ChunkRange { start: 0, end: 0 },
            ChunkRange { start: 0, end: 0 },
        ]
    );
}

#[test]
fn unterminated_tail_fails_alignment() {
    let data = b"AAAA".to_vec();
    assert_eq!(plan_chunks(&data, 2), Err(InputError::MissingTerminator));
}

#[test]
fn ranges_cover_input_and_align_on_terminators() {
    let data = b"Oslo;3.5\nParis;10.2\nRome;21.0\nOslo;-7.7\n".to_vec();
    for workers in 1..=8 {
        let rs = plan_chunks(&data, workers).unwrap();
        assert_eq!(rs.len(), workers);
        assert_eq!(rs[0].start, 0);
        assert_eq!(rs[rs.len() - 1].end, data.len());
        for w in 1..rs.len() {
            assert_eq!(rs[w - 1].end, rs[w].start);
            let b = rs[w].start;
            assert!(b == 0 || data[b - 1] == b'\n');
        }
    }
}
