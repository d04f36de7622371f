use enroute_git::error::Error;
use enroute_git::packfile::varint::{read_varint, write_varint};

#[test]
fn a_truncated_varint_is_rejected() {
    assert_eq!(read_varint(&[0x80]), Err(Error::VarintTruncated));
    assert_eq!(read_varint(&[]), Err(Error::VarintTruncated));
}

#[test]
fn an_overlong_varint_is_rejected() {
    assert_eq!(read_varint(&[0x80; 12]), Err(Error::VarintOverflow));
}

#[test]
fn varints_at_the_edges_round_trip() {
    for value in [0u64, 1, 127, 128, 300, 16_383, 16_384, u64::from(u32::MAX), u64::MAX] {
        let mut out = Vec::new();
        write_varint(&mut out, value);
        let n = out.len();
        out.push(0xff);
        assert_eq!(read_varint(&out), Ok((value, n)));
    }
}

#[test]
fn three_hundred_takes_two_bytes() {
    let mut out = Vec::new();
    write_varint(&mut out, 300);
    assert_eq!(out, [0xac, 0x02]);
}

#[test]
fn a_varint_past_sixty_four_bits_is_rejected() {
    let mut bytes = [0x80u8; 10];
    bytes[9] = 0x01;
    assert_eq!(read_varint(&bytes), Ok((1u64 << 63, 10)));
    for tenth in [0x02, 0x03, 0x7f] {
        bytes[9] = tenth;
        assert_eq!(read_varint(&bytes), Err(Error::VarintOverflow));
    }
}
