use fst_writer::buffer::{expand_special_vector_cases, gen_signal_info, SignalBuffer};
use fst_writer::signal::{FstSignalId, FstSignalType, FstWriteError};

fn buffer(types: &[FstSignalType]) -> SignalBuffer {
    SignalBuffer::new(types).unwrap()
}

fn bit(len: u32) -> FstSignalType {
    FstSignalType::bit_vec(len)
}

fn id(index: u32) -> FstSignalId {
    FstSignalId::from_index(index)
}

#[test]
fn signal_info_layout() {
    let (infos, len) = gen_signal_info(&[bit(1), FstSignalType::real64(), bit(16)]);
    assert_eq!(len, 25);
    let layout: Vec<(u32, u32)> = infos.iter().map(|i| (i.len, i.offset)).collect();
    assert_eq!(layout, [(1, 0), (8, 1), (16, 9)]);
}

/// Values written without any time change are kept: closing mocks up a time step at zero that
/// records the value of every signal, including one that was never written.
#[test]
fn buffer_no_time_change() {
    let mut b = buffer(&[bit(1), bit(16), bit(1)]);
    b.signal_change(id(0), b"1").unwrap();
    b.signal_change(id(1), b"1010101010101010").unwrap();
    assert!(b.is_initial_time());
    assert!(!b.has_value_changes());
    b.mock_initial_time_step().unwrap();
    assert!(!b.is_initial_time());
    assert_eq!(b.first_time(), 0);
    let section = b.flush();
    assert_eq!(section.start_time, 0);
    assert_eq!(section.end_time, 0);
    assert_eq!(section.frame, b"11010101010101010x".to_vec());
    assert_eq!(section.time_table, [0]);
    assert_eq!(section.num_time_table_entries, 1);
    assert_eq!(
        section.signal_changes,
        [vec![2u8], vec![0, 0xaa, 0xaa], vec![1]]
    );
}

/// An untouched real reads back as NaN, not as eight `x` bytes.
#[test]
fn buffer_real_initial_value() {
    let mut b = buffer(&[FstSignalType::real64()]);
    b.mock_initial_time_step().unwrap();
    let section = b.flush();
    assert_eq!(section.frame, f64::NAN.to_le_bytes().to_vec());
    let mut expected = vec![1u8];
    expected.extend_from_slice(&f64::NAN.to_le_bytes());
    assert_eq!(section.signal_changes, [expected]);
}

/// Without a value before it, the first time change starts the file.
#[test]
fn buffer_first_time_change_not_zero() {
    let mut b = buffer(&[bit(1)]);
    b.time_change(10).unwrap();
    b.signal_change(id(0), b"1").unwrap();
    b.time_change(20).unwrap();
    b.signal_change(id(0), b"0").unwrap();
    assert_eq!(b.first_time(), 10);
    assert_eq!(b.end_time(), 20);
    let section = b.flush();
    assert_eq!(section.start_time, 10);
    assert_eq!(section.end_time, 20);
    assert_eq!(section.frame, b"x".to_vec());
    assert_eq!(section.time_table, [10, 10]);
    assert_eq!(section.num_time_table_entries, 2);
    // `1` at step 0, then `0` one step later
    assert_eq!(section.signal_changes, [vec![2u8, 4]]);
}

/// A value written before the first time change only reaches the frame, and makes the file start
/// at zero.
#[test]
fn buffer_value_before_time_change_at_zero() {
    let mut b = buffer(&[bit(1), bit(16)]);
    b.signal_change(id(0), b"1").unwrap();
    b.signal_change(id(1), b"1010101010101010").unwrap();
    b.time_change(0).unwrap();
    b.time_change(5).unwrap();
    b.signal_change(id(0), b"0").unwrap();
    assert_eq!(b.first_time(), 0);
    let section = b.flush();
    assert_eq!(section.start_time, 0);
    assert_eq!(section.frame, b"11010101010101010".to_vec());
    assert_eq!(section.time_table, [0, 5]);
    assert_eq!(section.signal_changes, [vec![4u8], vec![]]);
}

/// A value written before the first time change is not a value change.
#[test]
fn buffer_value_then_time_change_has_no_value_change() {
    let mut b = buffer(&[bit(1)]);
    b.signal_change(id(0), b"1").unwrap();
    b.time_change(0).unwrap();
    assert!(!b.has_value_changes());
}

#[test]
fn buffer_time_decrease_is_refused() {
    let mut b = buffer(&[bit(1)]);
    b.time_change(10).unwrap();
    assert_eq!(b.time_change(5), Err(FstWriteError::TimeDecrease(10, 5)));
    assert_eq!(b.end_time(), 10);
    assert_eq!(b.num_time_table_entries(), 1);
    b.time_change(10).unwrap();
    assert_eq!(b.num_time_table_entries(), 2);
}

/// A time change that does not advance the clock is still a time step.
#[test]
fn buffer_time_change_without_progress() {
    let mut b = buffer(&[FstSignalType::real64()]);
    b.time_change(0).unwrap();
    b.time_change(37632).unwrap();
    b.time_change(37632).unwrap();
    assert_eq!(b.num_time_table_entries(), 3);
    let section = b.flush();
    assert_eq!(section.time_table, [0, 0x80, 0xa6, 0x02, 0]);
}

#[test]
fn buffer_invalid_signal_id() {
    let mut b = buffer(&[bit(1)]);
    assert_eq!(
        b.signal_change(id(1), b"1"),
        Err(FstWriteError::InvalidSignalId(id(1)))
    );
}

/// A character that is not one of the nine `std_logic` states is rejected.
#[test]
fn buffer_invalid_bit_vector_character() {
    let mut b = buffer(&[bit(1)]);
    b.time_change(0).unwrap();
    for bad in ['q', '?'] {
        let err = b.signal_change(id(0), bad.to_string().as_bytes()).unwrap_err();
        assert_eq!(err, FstWriteError::InvalidCharacter(bad));
    }
    assert!(!b.has_value_changes());
    // the refused value was not written either
    b.signal_change(id(0), b"1").unwrap();
    assert_eq!(b.flush().frame, b"x".to_vec());
}

/// Before the first time change too, a character that is not one of the nine `std_logic` states
/// is rejected, and the signal keeps its value.
#[test]
fn buffer_invalid_character_before_first_time_change() {
    let mut b = buffer(&[bit(1)]);
    assert_eq!(
        b.signal_change(id(0), b"q"),
        Err(FstWriteError::InvalidCharacter('q'))
    );
    b.mock_initial_time_step().unwrap();
    let section = b.flush();
    assert_eq!(section.frame, b"x".to_vec());
    assert_eq!(section.signal_changes, [vec![1u8]]);
}

#[test]
fn buffer_short_values_are_extended() {
    let mut b = buffer(&[bit(4), bit(3)]);
    b.signal_change(id(0), b"1").unwrap();
    b.signal_change(id(1), b"z1").unwrap();
    b.time_change(0).unwrap();
    let section = b.flush();
    assert_eq!(section.frame, b"0001zz1".to_vec());
}

#[test]
fn expand_vector_cases() {
    assert_eq!(expand_special_vector_cases(b"1", 4), Some(b"0001".to_vec()));
    assert_eq!(expand_special_vector_cases(b"01", 3), Some(b"001".to_vec()));
    assert_eq!(expand_special_vector_cases(b"x", 3), Some(b"xxx".to_vec()));
    assert_eq!(expand_special_vector_cases(b"Z1", 4), Some(b"ZZZ1".to_vec()));
    assert_eq!(expand_special_vector_cases(b"q", 3), None);
    assert_eq!(expand_special_vector_cases(b"0101", 3), None);
    assert_eq!(expand_special_vector_cases(b"010", 3), None);
}

/// A flush is held back until the section holds more than one time step past its first, and a
/// request that finds nothing to write is dropped.
#[test]
fn buffer_flush_request_gate() {
    let mut b = buffer(&[bit(8)]);
    b.time_change(10).unwrap();
    b.signal_change(id(0), b"00000001").unwrap();
    b.time_change(20).unwrap();
    b.signal_change(id(0), b"00000010").unwrap();
    b.request_flush();
    assert!(!b.take_pending_flush());
    b.time_change(30).unwrap();
    b.request_flush();
    assert!(b.take_pending_flush());
    // the request is cleared
    assert!(!b.take_pending_flush());
}

#[test]
fn buffer_flush_request_with_nothing_to_write() {
    let mut b = buffer(&[bit(8)]);
    for t in [10u64, 20, 30] {
        b.time_change(t).unwrap();
    }
    b.request_flush();
    assert!(!b.take_pending_flush());
}

/// A value change may follow a flush request with no time change in between; it joins the
/// still open section.
#[test]
fn buffer_value_after_flush_request() {
    let mut b = buffer(&[bit(8)]);
    for t in [10u64, 20, 30] {
        b.time_change(t).unwrap();
        b.signal_change(id(0), b"00000001").unwrap();
    }
    b.request_flush();
    b.signal_change(id(0), b"00000010").unwrap();
    let section = b.flush();
    assert_eq!(section.time_table, [10, 10, 10]);
    assert_eq!(section.signal_changes, [vec![0u8, 1, 2, 1, 2, 1, 0, 2]]);
}

/// After a flush nothing is left to write, and the next section opens with the time the last
/// one closed at.
#[test]
fn buffer_flush_then_next_section() {
    let mut b = buffer(&[bit(1)]);
    b.signal_change(id(0), b"0").unwrap();
    b.time_change(1).unwrap();
    b.signal_change(id(0), b"1").unwrap();
    b.time_change(2).unwrap();
    b.signal_change(id(0), b"0").unwrap();
    b.time_change(3).unwrap();
    b.signal_change(id(0), b"1").unwrap();
    let first = b.flush();
    assert_eq!(first.start_time, 0);
    assert_eq!(first.end_time, 3);
    assert_eq!(first.frame, b"0".to_vec());
    assert_eq!(first.time_table, [1, 1, 1]);
    assert_eq!(first.signal_changes, [vec![2u8, 4, 6]]);
    assert!(!b.has_value_changes());
    assert!(!b.is_initial_time());
    assert_eq!(b.num_time_table_entries(), 1);
    b.request_flush();
    assert!(!b.take_pending_flush());
    b.time_change(4).unwrap();
    b.signal_change(id(0), b"0").unwrap();
    let second = b.flush();
    assert_eq!(second.start_time, 3);
    assert_eq!(second.end_time, 4);
    // the frame is the values at the first time step of this section
    assert_eq!(second.frame, b"1".to_vec());
    assert_eq!(second.time_table, [3, 1]);
    assert_eq!(second.num_time_table_entries, 2);
    assert_eq!(second.signal_changes, [vec![4u8]]);
}

#[test]
fn buffer_size() {
    let mut b = buffer(&[bit(1), bit(1)]);
    assert_eq!(b.size(), 8);
    b.time_change(0).unwrap();
    assert_eq!(b.size(), 9);
    b.signal_change(id(0), b"1").unwrap();
    // a one byte record, in the lists with a back pointer and its length
    assert_eq!(b.size(), 9 + 1 + 6);
}

/// `a=1; t=0; b=1`: the value of `a` stays in the frame alone, `b` is recorded.
#[test]
fn buffer_value_before_and_after_time_change_at_zero() {
    let mut b = buffer(&[bit(1), bit(1)]);
    b.signal_change(id(0), b"1").unwrap();
    b.time_change(0).unwrap();
    b.signal_change(id(1), b"1").unwrap();
    let section = b.flush();
    assert_eq!(section.start_time, 0);
    assert_eq!(section.frame, b"1x".to_vec());
    assert_eq!(section.time_table, [0]);
    assert_eq!(section.signal_changes, [vec![], vec![2u8]]);
}

/// `t=0; a=1`: the value is recorded at time 0.
#[test]
fn buffer_time_change_at_zero_then_value() {
    let mut b = buffer(&[bit(1), bit(1)]);
    b.time_change(0).unwrap();
    b.signal_change(id(0), b"1").unwrap();
    let section = b.flush();
    assert_eq!(section.frame, b"xx".to_vec());
    assert_eq!(section.signal_changes, [vec![2u8], vec![]]);
}

/// `a=1; t=5; b=1`: the file starts at 0, the frame holds `a`, `b` is recorded at 5.
#[test]
fn buffer_value_before_later_time_change() {
    let mut b = buffer(&[bit(1), bit(1)]);
    b.signal_change(id(0), b"1").unwrap();
    b.time_change(5).unwrap();
    b.signal_change(id(1), b"1").unwrap();
    assert_eq!(b.first_time(), 0);
    let section = b.flush();
    assert_eq!(section.start_time, 0);
    assert_eq!(section.frame, b"1x".to_vec());
    assert_eq!(section.time_table, [5]);
    assert_eq!(section.signal_changes, [vec![], vec![2u8]]);
}

/// Reading the time table varint by varint and adding up the distances gives back the steps.
#[test]
fn buffer_time_table_reads_back() {
    let steps = [3u64, 3, 200, 70000, 70000, u64::MAX / 2];
    let mut b = buffer(&[bit(1)]);
    for t in steps {
        b.time_change(t).unwrap();
    }
    let table = b.flush().time_table;
    let mut pos = 0;
    let mut time = 0u64;
    let mut read = vec![];
    while pos < table.len() {
        let (delta, len) = fst_writer::varint::read_variant_u64(&table[pos..]);
        time += delta;
        read.push(time);
        pos += len;
    }
    assert_eq!(read, steps);
}

/// The buffer waits for its first time step until a time change, and has value changes exactly
/// when one was recorded since the start of the section: values before the first time change,
/// flush requests and refused values record none, and a flush leaves none.
#[test]
fn buffer_history_of_time_steps_and_value_changes() {
    let mut b = buffer(&[bit(1), bit(8)]);
    b.signal_change(id(0), b"1").unwrap();
    b.request_flush();
    assert!(!b.take_pending_flush());
    assert!(b.is_initial_time());
    assert!(!b.has_value_changes());
    b.time_change(5).unwrap();
    assert!(!b.is_initial_time());
    assert!(!b.has_value_changes());
    assert_eq!(b.signal_change(id(0), b"q"), Err(FstWriteError::InvalidCharacter('q')));
    assert!(!b.has_value_changes());
    b.signal_change(id(1), b"00000001").unwrap();
    assert!(b.has_value_changes());
    b.flush();
    assert!(!b.has_value_changes());
    assert!(!b.is_initial_time());
    b.time_change(6).unwrap();
    assert!(!b.has_value_changes());
    // the same value again is recorded as a change
    b.signal_change(id(0), b"1").unwrap();
    assert!(b.has_value_changes());
}

/// Building the section leaves the buffer as it is, so a write that fails loses nothing; the
/// next section only opens with `finish_section`.
#[test]
fn buffer_section_then_finish() {
    let mut b = buffer(&[bit(1)]);
    b.time_change(1).unwrap();
    b.signal_change(id(0), b"1").unwrap();
    b.time_change(2).unwrap();
    let first = b.section();
    let again = b.section();
    assert_eq!(first.time_table, again.time_table);
    assert_eq!(first.signal_changes, again.signal_changes);
    assert_eq!(first.frame, b"x".to_vec());
    assert_eq!(first.num_time_table_entries, 2);
    assert!(b.has_value_changes());
    assert_eq!(b.num_time_table_entries(), 2);
    b.finish_section();
    assert!(!b.has_value_changes());
    assert_eq!(b.num_time_table_entries(), 1);
    assert_eq!(b.end_time(), 2);
    let next = b.section();
    assert_eq!(next.start_time, 2);
    assert_eq!(next.frame, b"1".to_vec());
    assert_eq!(next.time_table, [2]);
}

/// The last time step and the number of time table entries follow the accepted time changes
/// only; the bytes taken grow with each of them.
#[test]
fn buffer_history_of_end_time_and_entries() {
    let mut b = buffer(&[bit(1), bit(1)]);
    assert_eq!((b.end_time(), b.num_time_table_entries(), b.size()), (0, 0, 8));
    b.signal_change(id(0), b"1").unwrap();
    assert_eq!((b.end_time(), b.num_time_table_entries()), (0, 0));
    b.time_change(10).unwrap();
    assert_eq!((b.end_time(), b.num_time_table_entries()), (10, 1));
    let s1 = b.size();
    b.time_change(10).unwrap();
    assert_eq!((b.end_time(), b.num_time_table_entries()), (10, 2));
    let s2 = b.size();
    assert!(s2 > s1);
    assert_eq!(b.time_change(5), Err(FstWriteError::TimeDecrease(10, 5)));
    b.request_flush();
    b.take_pending_flush();
    assert_eq!((b.end_time(), b.num_time_table_entries(), b.size()), (10, 2, s2));
    b.flush();
    assert_eq!((b.end_time(), b.num_time_table_entries()), (10, 1));
    b.time_change(12).unwrap();
    assert_eq!((b.end_time(), b.num_time_table_entries()), (12, 2));
}
