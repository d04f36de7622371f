use enroute_git::error::Error;
use enroute_git::packfile::delta::apply::apply_delta;
use enroute_git::packfile::delta::encode::{block_hash, encode_delta, roll, BlockIndex};
use enroute_git::packfile::delta::scheme::BLOCK;
use enroute_git::packfile::varint::write_varint;

fn make_delta(base: &[u8], instructions: &[u8], result_size: usize) -> Vec<u8> {
    let mut delta = Vec::new();
    write_varint(&mut delta, u64::try_from(base.len()).unwrap());
    write_varint(&mut delta, u64::try_from(result_size).unwrap());
    delta.extend_from_slice(instructions);
    delta
}

#[test]
fn delta_base_size_mismatch() {
    let base = b"hello";
    let delta = make_delta(b"wrong size base", &[], 0);
    assert_eq!(apply_delta(base, &delta).unwrap_err(), Error::DeltaBaseSize);
}

#[test]
fn delta_result_too_short() {
    let base = b"hello";
    let delta = make_delta(base, &[], 10);
    assert_eq!(apply_delta(base, &delta).unwrap_err(), Error::DeltaResultTooShort);
}

#[test]
fn delta_copy_out_of_bounds() {
    let base = b"hi";
    let instructions = [0x91u8, 0x00, 0x0a]; // copy 10 bytes, base only has 2
    let delta = make_delta(base, &instructions, 10);
    assert_eq!(apply_delta(base, &delta).unwrap_err(), Error::DeltaCopyRange);
}

#[test]
fn delta_invalid_command_zero() {
    let base = b"hello";
    let instructions = [0x00u8];
    let delta = make_delta(base, &instructions, 0);
    assert_eq!(apply_delta(base, &delta).unwrap_err(), Error::DeltaCommandZero);
}

#[test]
fn delta_insert_data_truncated() {
    let base = b"hello";
    let instructions = [0x05u8, b'a', b'b', b'c'];
    let delta = make_delta(base, &instructions, 5);
    assert_eq!(apply_delta(base, &delta).unwrap_err(), Error::DeltaInsertTruncated);
}

#[test]
fn delta_copy_instruction_truncated() {
    let base = b"hello";
    let delta = make_delta(base, &[0x93u8, 0x00], 5);
    assert_eq!(apply_delta(base, &delta).unwrap_err(), Error::DeltaCopyTruncated);
}

#[test]
fn delta_result_overflows() {
    let base = b"hello";
    let delta = make_delta(base, &[0x90u8, 0x05], 4);
    assert_eq!(apply_delta(base, &delta).unwrap_err(), Error::DeltaResultOverflow);
}

#[test]
fn delta_result_over_the_limit() {
    let base = b"hello";
    let delta = make_delta(base, &[], 104_857_601);
    assert_eq!(apply_delta(base, &delta).unwrap_err(), Error::DeltaResultTooLarge);
}

#[test]
fn delta_sizes_truncated() {
    assert_eq!(apply_delta(b"", &[]).unwrap_err(), Error::VarintTruncated);
    assert_eq!(apply_delta(b"", &[0x00]).unwrap_err(), Error::VarintTruncated);
}

#[test]
fn a_copy_without_size_bytes_copies_65536() {
    let base: Vec<u8> = (0..70_000u32).map(|i| u8::try_from(i % 251).unwrap()).collect();
    let delta = make_delta(&base, &[0x81u8, 0x03], 65_536);
    assert_eq!(apply_delta(&base, &delta).unwrap(), &base[3..65_539]);
}

#[test]
fn full_and_minimal_copies_decode_alike() {
    let base = b"0123456789";
    let minimal = make_delta(base, &[0x91u8, 0x02, 0x04], 4);
    let full = make_delta(base, &[0xffu8, 0x02, 0, 0, 0, 0x04, 0, 0], 4);
    assert_eq!(apply_delta(base, &minimal).unwrap(), b"2345");
    assert_eq!(apply_delta(base, &full).unwrap(), b"2345");
}

/// The decoder is the oracle: whatever the encoder emits must reconstruct
/// the target exactly.
fn round_trip(base: &[u8], target: &[u8]) -> Vec<u8> {
    let delta = encode_delta(base, target).unwrap();
    assert_eq!(apply_delta(base, &delta).unwrap(), target);
    delta
}

#[test]
fn empty_inputs() {
    round_trip(b"", b"");
    round_trip(b"", b"hello");
    round_trip(b"hello", b"");
}

#[test]
fn identical_content_costs_almost_nothing() {
    let content = b"the quick brown fox jumps over the lazy dog".repeat(64);
    let delta = round_trip(&content, &content);
    // One copy instruction plus the two-varint header, versus 2,752 bytes.
    assert!(delta.len() < 16, "expected a single copy, got {}", delta.len());
}

#[test]
fn shared_prefix_and_suffix_are_copied() {
    let base = b"aaaaaaaaaaaaaaaaaaaaaaaaMIDDLEzzzzzzzzzzzzzzzzzzzzzzzz";
    let target = b"aaaaaaaaaaaaaaaaaaaaaaaaCHANGEDzzzzzzzzzzzzzzzzzzzzzzzz";
    let delta = round_trip(base, target);
    assert!(delta.len() < target.len(), "delta {} bytes", delta.len());
}

#[test]
fn literal_run_exceeds_one_insert_instruction() {
    // No shared content, so the whole target must go out as inserts, which
    // have to be split at 127 bytes each.
    let base = b"x".repeat(BLOCK);
    let target: Vec<u8> = (0..1000u32)
        .map(|i| u8::try_from(i.wrapping_mul(37) % 251).unwrap_or(0))
        .collect();
    round_trip(&base, &target);
}

#[test]
fn copy_needs_multiple_size_bytes() {
    // Longer than 0xffff, so the third size byte is exercised, and longer
    // than 0x10000 so it cannot be confused with the zero-size encoding.
    let base: Vec<u8> = (0..300_000u32)
        .map(|i| u8::try_from(i.wrapping_mul(2_654_435_761) >> 24).unwrap_or(0))
        .collect();
    let mut target = base.clone();
    target.extend_from_slice(b"tail");
    let delta = round_trip(&base, &target);
    assert!(delta.len() < 64, "expected a long copy, got {}", delta.len());
}

#[test]
fn repeated_blocks_do_not_blow_up() {
    // Every block hashes identically; the cap on candidates is what keeps this
    // from going quadratic.
    let base = b"z".repeat(200_000);
    let target = b"z".repeat(200_000);
    round_trip(&base, &target);
}

#[test]
fn an_edit_in_the_middle_copies_both_sides() {
    let base: Vec<u8> = (0..64u8).collect();
    let mut target = base.clone();
    target.insert(32, 0xee);
    // Sizes 64 and 65; copy 32 from 0; insert one byte; copy 32 from 32.
    assert_eq!(
        round_trip(&base, &target),
        [64, 65, 0x90, 32, 1, 0xee, 0x91, 32, 32],
    );
}

#[test]
fn a_delta_over_the_limit_is_refused() {
    let large = vec![0u8; 104_857_601];
    assert_eq!(encode_delta(&large, b"").unwrap_err(), Error::DeltaInputTooLarge);
    assert_eq!(encode_delta(b"", &large).unwrap_err(), Error::DeltaInputTooLarge);
}

#[test]
fn a_size_past_sixty_four_bits_is_no_size() {
    // Ten bytes that spell 2^64 + 3, for a base of three bytes.
    let mut delta = vec![0x83];
    delta.extend([0x80; 8]);
    delta.push(0x02);
    delta.extend([0x01, 0x01, b'x']);
    assert_eq!(apply_delta(b"abc", &delta), Err(Error::VarintOverflow));

    let mut delta = vec![0x03, 0x81];
    delta.extend([0x80; 8]);
    delta.push(0x02);
    delta.extend([0x01, b'x']);
    assert_eq!(apply_delta(b"abc", &delta), Err(Error::VarintOverflow));
}

#[test]
fn a_match_is_a_true_copy_whatever_the_hash() {
    let base: Vec<u8> = (0..64u8).collect();
    let mut target = b"literal ".to_vec();
    target.extend_from_slice(&base[10..50]);
    let index = BlockIndex::build(&base);
    let mut matched = 0;
    for pos in 0..=target.len() + 1 {
        for hash in (0..200u32).chain([u32::MAX]) {
            for pending in [0, pos / 2, pos, pos + 1] {
                let Some(m) = index.best_match(&base, &target, pos, pending, hash) else {
                    continue;
                };
                matched += 1;
                assert!(m.len >= BLOCK);
                assert!(pending <= m.start && m.start <= pos && pos < m.start + m.len);
                assert_eq!(
                    target[m.start..m.start + m.len],
                    base[m.base_offset..m.base_offset + m.len]
                );
            }
        }
    }
    assert!(matched > 0, "some hash leads to a block that is there");
    assert!(index.best_match(&base, &target, target.len() + 1, 0, 0).is_none());
    assert!(index.best_match(&base, &target, 3, 4, 0).is_none());

    let at = 8 + (16 - 10);
    let hash = block_hash(&target[at..at + BLOCK]);
    let m = index.best_match(&base, &target, at, 0, hash).unwrap();
    assert_eq!((m.start, m.base_offset, m.len), (8, 10, 40));
}

#[test]
fn rolling_a_hash_moves_its_window() {
    let data: Vec<u8> = (0..80u32).map(|n| (n * 151 % 256) as u8).collect();
    let mut hash = block_hash(&data[..BLOCK]);
    for at in 0..data.len() - BLOCK {
        hash = roll(hash, data[at], data[at + BLOCK]);
        assert_eq!(hash, block_hash(&data[at + 1..at + 1 + BLOCK]));
    }
}
