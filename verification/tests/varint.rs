use fst_writer::encode::{write_multi_bit_signal, write_one_bit_signal, write_time_chain_update};
use fst_writer::signal::FstWriteError;
use fst_writer::varint::{read_variant_u64, write_variant_u64};

fn encoded(value: u64) -> Vec<u8> {
    let mut out = vec![];
    let n = write_variant_u64(&mut out, value);
    assert_eq!(n, out.len());
    out
}

#[test]
fn varint_encodings() {
    assert_eq!(encoded(0), [0x00]);
    assert_eq!(encoded(1), [0x01]);
    assert_eq!(encoded(127), [0x7f]);
    assert_eq!(encoded(128), [0x80, 0x01]);
    assert_eq!(encoded(300), [0xac, 0x02]);
    assert_eq!(encoded(37632), [0x80, 0xa6, 0x02]);
    assert_eq!(
        encoded(u64::MAX),
        [0xff, 0xff, 0xff, 0xff, 0xff, 0xff, 0xff, 0xff, 0xff, 0x01]
    );
}

#[test]
fn varint_appends() {
    let mut out = vec![9u8];
    write_variant_u64(&mut out, 300);
    assert_eq!(out, [9, 0xac, 0x02]);
}

#[test]
fn varint_roundtrip() {
    for value in [0u64, 1, 127, 128, 300, 16383, 16384, 1 << 35, u64::MAX - 1, u64::MAX] {
        let mut bytes = encoded(value);
        let len = bytes.len();
        // whatever follows the varint does not matter
        bytes.extend_from_slice(&[0x81, 0x00, 0xff]);
        assert_eq!(read_variant_u64(&bytes), (value, len));
    }
}

#[test]
fn varint_read_cuts_to_64_bits() {
    // ten bytes of which the last carries more than the one bit that still fits
    let bytes = [0xff, 0xff, 0xff, 0xff, 0xff, 0xff, 0xff, 0xff, 0xff, 0x7f];
    assert_eq!(read_variant_u64(&bytes), (u64::MAX, 10));
}

#[test]
fn one_bit_encodings() {
    let enc = |delta: u64, c: u8| {
        let mut out = vec![];
        write_one_bit_signal(&mut out, delta, c).map(|()| out)
    };
    assert_eq!(enc(0, b'0'), Ok(vec![0]));
    assert_eq!(enc(0, b'1'), Ok(vec![2]));
    assert_eq!(enc(3, b'1'), Ok(vec![14]));
    assert_eq!(enc(0, b'x'), Ok(vec![1]));
    assert_eq!(enc(0, b'X'), Ok(vec![1]));
    assert_eq!(enc(1, b'z'), Ok(vec![19]));
    assert_eq!(enc(1, b'Z'), Ok(vec![19]));
    assert_eq!(enc(0, b'h'), Ok(vec![5]));
    assert_eq!(enc(0, b'u'), Ok(vec![7]));
    assert_eq!(enc(0, b'w'), Ok(vec![9]));
    assert_eq!(enc(0, b'L'), Ok(vec![11]));
    assert_eq!(enc(1, b'-'), Ok(vec![29]));
    assert_eq!(enc(0, b'q'), Err(FstWriteError::InvalidCharacter('q')));
    assert_eq!(enc(0, b'?'), Err(FstWriteError::InvalidCharacter('?')));
}

#[test]
fn multi_bit_encodings() {
    let enc = |delta: u64, v: &[u8]| {
        let mut out = vec![];
        write_multi_bit_signal(&mut out, delta, v);
        out
    };
    // binary values are packed, first bit most significant, the last byte padded
    assert_eq!(enc(2, b"10110"), [4, 0b1011_0000]);
    assert_eq!(enc(0, b"1010101010101010"), [0, 0xaa, 0xaa]);
    assert_eq!(enc(1, b"000000011"), [2, 0x01, 0x80]);
    // anything else is written as it is
    assert_eq!(enc(2, b"1x"), [5, b'1', b'x']);
    assert_eq!(enc(0, &[0, 0, 0, 0, 0, 0, 0xf8, 0x7f]), [1, 0, 0, 0, 0, 0, 0, 0xf8, 0x7f]);
}

#[test]
fn time_chain_encoding() {
    let mut out = vec![];
    write_time_chain_update(&mut out, 0, 10);
    write_time_chain_update(&mut out, 10, 12);
    write_time_chain_update(&mut out, 12, 12);
    write_time_chain_update(&mut out, 12, 140);
    assert_eq!(out, [10, 2, 0, 0x80, 0x01]);
}
