use voxelens_core::schematic::{read_all_unsigned, read_unsigned, write_unsigned, VarintError};

fn enc(v: u32) -> Vec<u8> {
    let mut o = Vec::new();
    write_unsigned(v, &mut o);
    o
}

#[test]
fn writes_known_values() {
    assert_eq!(enc(0), [0x00]);
    assert_eq!(enc(1), [0x01]);
    assert_eq!(enc(127), [0x7f]);
    assert_eq!(enc(128), [0x80, 0x01]);
    assert_eq!(enc(255), [0xff, 0x01]);
    assert_eq!(enc(300), [0xac, 0x02]);
    assert_eq!(enc(16384), [0x80, 0x80, 0x01]);
    assert_eq!(enc(2_097_151), [0xff, 0xff, 0x7f]);
    assert_eq!(enc(u32::MAX), [0xff, 0xff, 0xff, 0xff, 0x0f]);
}

#[test]
fn round_trips() {
    for v in [
        0,
        1,
        2,
        127,
        128,
        255,
        256,
        300,
        16_384,
        2_097_151,
        16_777_215,
        u32::MAX / 2,
        u32::MAX,
    ] {
        let bytes = enc(v);
        assert_eq!(
            read_unsigned(&bytes).unwrap(),
            (v, bytes.len()),
            "value {v}"
        );
    }
}

#[test]
fn reads_a_sequence() {
    let mut bytes = Vec::new();
    for v in [1u32, 300, 2, 128] {
        write_unsigned(v, &mut bytes);
    }
    assert_eq!(read_all_unsigned(&bytes).unwrap(), vec![1, 300, 2, 128]);
    // Consumes a trailing partial value as an error, never silently.
    bytes.push(0x80);
    assert_eq!(read_all_unsigned(&bytes), Err(VarintError::Truncated));
}

#[test]
fn rejects_truncated_and_overflow() {
    assert_eq!(read_unsigned(&[]), Err(VarintError::Truncated));
    assert_eq!(read_unsigned(&[0x80]), Err(VarintError::Truncated));
    // Five continuation bytes never terminate.
    assert_eq!(
        read_unsigned(&[0xff, 0xff, 0xff, 0xff, 0xff]),
        Err(VarintError::Overflow)
    );
    // Fifth byte carries more than the top 4 bits.
    assert_eq!(
        read_unsigned(&[0xff, 0xff, 0xff, 0xff, 0x1f]),
        Err(VarintError::Overflow)
    );
}

#[test]
fn write_appends_to_existing_bytes() {
    let mut out = vec![0xaa, 0xbb];
    write_unsigned(300, &mut out);
    assert_eq!(out, [0xaa, 0xbb, 0xac, 0x02]);
}

#[test]
fn read_stops_at_the_terminal_byte() {
    // Whatever follows a complete value is left alone.
    assert_eq!(read_unsigned(&[0xac, 0x02, 0xff, 0x00]), Ok((300, 2)));
    assert_eq!(read_unsigned(&[0x05, 0x80]), Ok((5, 1)));
}

#[test]
fn read_accepts_a_padded_encoding() {
    // Non-minimal but terminated within five bytes.
    assert_eq!(read_unsigned(&[0x80, 0x00]), Ok((0, 2)));
    assert_eq!(read_unsigned(&[0x81, 0x80, 0x80, 0x80, 0x00]), Ok((1, 5)));
}

#[test]
fn fifth_byte_limit_is_exactly_four_bits() {
    assert_eq!(
        read_unsigned(&[0xff, 0xff, 0xff, 0xff, 0x0f]),
        Ok((u32::MAX, 5))
    );
    assert_eq!(
        read_unsigned(&[0x80, 0x80, 0x80, 0x80, 0x10]),
        Err(VarintError::Overflow)
    );
    // A continuation bit on the fifth byte is an overflow, even with input left.
    assert_eq!(
        read_unsigned(&[0x80, 0x80, 0x80, 0x80, 0x81, 0x00]),
        Err(VarintError::Overflow)
    );
}

#[test]
fn truncated_within_four_bytes() {
    assert_eq!(read_unsigned(&[0xff, 0xff, 0xff, 0xff]), Err(VarintError::Truncated));
}

#[test]
fn read_all_of_nothing_is_empty() {
    assert_eq!(read_all_unsigned(&[]), Ok(vec![]));
}

#[test]
fn read_all_reports_an_overflow_in_the_middle() {
    let mut bytes = enc(7);
    bytes.extend_from_slice(&[0xff, 0xff, 0xff, 0xff, 0xff]);
    bytes.extend_from_slice(&enc(9));
    assert_eq!(read_all_unsigned(&bytes), Err(VarintError::Overflow));
}

#[test]
fn read_all_round_trips_many_values() {
    let values: Vec<u32> = (0..2000u32).map(|i| i.wrapping_mul(2_654_435_761)).collect();
    let mut bytes = Vec::new();
    for &v in &values {
        write_unsigned(v, &mut bytes);
    }
    assert_eq!(read_all_unsigned(&bytes).unwrap(), values);
    // A trailing partial value of up to four continuation bytes.
    for extra in 1..=4usize {
        let mut b = bytes.clone();
        b.extend(std::iter::repeat(0x80u8).take(extra));
        assert_eq!(read_all_unsigned(&b), Err(VarintError::Truncated));
    }
}

#[test]
fn error_messages() {
    assert_eq!(VarintError::Truncated.message(), "varint truncated");
    assert_eq!(VarintError::Overflow.message(), "varint overflows u32");
}
