use std::io::Write;

use enroute_git::error::Error;
use enroute_git::object::{Kind, ObjectId};
use enroute_git::packfile::format::{inflate_entry, EntryHeader};
use enroute_git::packfile::reader::PackReader;
use enroute_git::packfile::writer::{
    write_pack_entry, write_pack_entry_header, write_pack_header, write_ref_delta_header,
};
use sha1::Digest;

/// A reader that has all of `data` and will get no more.
fn reading(data: &[u8]) -> PackReader {
    let mut reader = PackReader::new();
    reader.feed(data);
    reader.finish();
    reader
}

fn make_entry_header(type_id: u8, size: u64) -> Vec<u8> {
    let mut bytes = Vec::new();
    let size_lsb = u8::try_from(size & 0x0f).unwrap();
    let mut remaining = size >> 4;
    let first = if remaining > 0 { 0x80 } else { 0x00 } | (type_id << 4) | size_lsb;
    bytes.push(first);
    while remaining > 0 {
        let byte = u8::try_from(remaining & 0x7f).unwrap();
        remaining >>= 7;
        bytes.push(if remaining > 0 { byte | 0x80 } else { byte });
    }
    bytes
}

fn zlib_compress(data: &[u8]) -> Vec<u8> {
    let mut enc = flate2::write::ZlibEncoder::new(Vec::new(), flate2::Compression::fast());
    enc.write_all(data).unwrap();
    enc.finish().unwrap()
}

fn sha1_of(data: &[u8]) -> Vec<u8> {
    let mut hasher = sha1::Sha1::default();
    hasher.update(data);
    hasher.finalize().to_vec()
}

#[test]
fn pack_header_valid() {
    let mut data = [0u8; 12];
    data[..4].copy_from_slice(b"PACK");
    data[4..8].copy_from_slice(&2u32.to_be_bytes());
    data[8..12].copy_from_slice(&42u32.to_be_bytes());
    assert_eq!(reading(&data).read_pack_header(), Ok(Some(42)));
}

#[test]
fn pack_header_wrong_magic() {
    let mut data = [0u8; 12];
    data[..4].copy_from_slice(b"NOPE");
    data[4..8].copy_from_slice(&2u32.to_be_bytes());
    assert_eq!(reading(&data).read_pack_header(), Err(Error::PackMagic));
}

#[test]
fn pack_header_wrong_version() {
    let mut data = [0u8; 12];
    data[..4].copy_from_slice(b"PACK");
    data[4..8].copy_from_slice(&3u32.to_be_bytes());
    assert_eq!(reading(&data).read_pack_header(), Err(Error::PackVersion));
}

#[test]
fn pack_header_too_short() {
    assert_eq!(reading(&[0u8; 8]).read_pack_header(), Err(Error::StreamEnded));
}

#[test]
fn entry_header_unknown_type() {
    let header = make_entry_header(5, 10);
    assert_eq!(reading(&header).read_entry_header(), Err(Error::EntryType));
}

#[test]
fn entry_header_type_zero_is_invalid() {
    assert_eq!(reading(&[0x00]).read_entry_header(), Err(Error::EntryType));
}

#[test]
fn entry_header_truncated_empty() {
    assert_eq!(reading(&[]).read_entry_header(), Err(Error::StreamEnded));
}

#[test]
fn entry_header_truncated_mid_continuation() {
    assert_eq!(reading(&[0xB0]).read_entry_header(), Err(Error::StreamEnded));
}

#[test]
fn entry_header_truncated_ref_delta_sha() {
    let mut header = make_entry_header(7, 10);
    header.extend_from_slice(&[0xab; 10]);
    assert_eq!(reading(&header).read_entry_header(), Err(Error::StreamEnded));
}

#[test]
fn an_entry_size_past_64_bits_is_refused() {
    let mut header = vec![0xbf];
    header.extend_from_slice(&[0xff; 10]);
    assert_eq!(reading(&header).read_entry_header(), Err(Error::EntrySizeOverflow));
}

#[test]
fn a_base_distance_past_64_bits_is_refused() {
    let mut header = Vec::new();
    gix_pack::data::entry::Header::OfsDelta { base_distance: u64::MAX }
        .write_to(10, &mut header)
        .unwrap();
    assert_eq!(
        reading(&header).read_entry_header(),
        Ok(Some((EntryHeader::OfsDelta { base_distance: u64::MAX }, 10)))
    );
    *header.last_mut().unwrap() |= 0x80;
    header.push(0);
    assert_eq!(reading(&header).read_entry_header(), Err(Error::DistanceOverflow));
}

/// Encoded by the `gix-pack` crate, read by this one.
#[test]
fn entry_headers_round_trip_for_any_shape_and_size() {
    let id = ObjectId::from_bytes(&[0x5a; 20]);
    let gix_id = gix_hash::ObjectId::from_bytes_or_panic(&[0x5a; 20]);
    for size in [0u64, 1, 15, 16, 2047, 2048, (1 << 40) - 1] {
        let mut shapes = vec![
            (gix_pack::data::entry::Header::Commit, EntryHeader::Full(Kind::Commit)),
            (gix_pack::data::entry::Header::Tree, EntryHeader::Full(Kind::Tree)),
            (gix_pack::data::entry::Header::Blob, EntryHeader::Full(Kind::Blob)),
            (gix_pack::data::entry::Header::Tag, EntryHeader::Full(Kind::Tag)),
            (
                gix_pack::data::entry::Header::RefDelta { base_id: gix_id },
                EntryHeader::RefDelta { base_id: id },
            ),
        ];
        for base_distance in [0u64, 1, 127, 128, 16_511, 16_512, 1 << 39] {
            shapes.push((
                gix_pack::data::entry::Header::OfsDelta { base_distance },
                EntryHeader::OfsDelta { base_distance },
            ));
        }
        for (header, expected) in shapes {
            let mut bytes = Vec::new();
            header.write_to(size, &mut bytes).unwrap();
            let n = bytes.len() as u64;
            bytes.push(0xff);
            let mut reader = reading(&bytes);
            assert_eq!(reader.read_entry_header(), Ok(Some((expected, size))));
            assert_eq!(reader.offset(), n);
        }
    }
}

#[test]
fn skip_entry_body_consumes_exactly_the_compressed_bytes() {
    let original: Vec<u8> = (0..200_000u32).map(|i| u8::try_from(i % 251).unwrap()).collect();
    let compressed = zlib_compress(&original);
    let mut reader = reading(&compressed);
    assert_eq!(reader.skip_entry_body(original.len() as u64), Ok(Some(())));
    assert_eq!(reader.offset(), compressed.len() as u64);
}

#[test]
fn skip_entry_body_stops_at_the_stream_boundary() {
    let original = b"abc";
    let mut data = zlib_compress(original);
    data.extend_from_slice(&make_entry_header(3, 6));
    let mut reader = reading(&data);
    assert_eq!(reader.skip_entry_body(original.len() as u64), Ok(Some(())));
    assert_eq!(reader.read_entry_header(), Ok(Some((EntryHeader::Full(Kind::Blob), 6))));
}

#[test]
fn skip_entry_body_hashes_over_exactly_the_body() {
    let original = b"hello world, this is test data";
    let compressed = zlib_compress(original);
    let mut reader = PackReader::new();
    reader.feed(&compressed);
    assert_eq!(reader.skip_entry_body(original.len() as u64), Ok(Some(())));
    assert_eq!(reader.offset(), compressed.len() as u64);
    // The trailer is right only where the digest covers exactly the body.
    reader.feed(&sha1_of(&compressed));
    assert_eq!(reader.verify_trailer(), Ok(Some(())));
}

/// A body is read to its end with nothing behind it, also where more comes out
/// of its last bytes than the sink takes at once.
#[test]
fn a_body_with_nothing_behind_it_is_read_to_its_end() {
    let mixed = |n: usize| -> Vec<u8> {
        (0..n as u32).map(|i| if i < 1000 { (i * 7919 % 251) as u8 } else { 0 }).collect()
    };
    let sizes = [0usize, 1, 1000, 32_768, 33_768, 65_535, 65_536, 65_537, 66_536, 98_304, 300_000];
    for n in sizes {
        let content = mixed(n);
        let compressed = zlib_compress(&content);
        let size = n as u64;
        let mut reader = reading(&compressed);
        assert_eq!(reader.skip_entry_body(size), Ok(Some(())), "{n} at once");
        assert_eq!(reader.offset(), compressed.len() as u64);
        assert_eq!(reading(&compressed).skip_entry_body(size + 1), Err(Error::EntryLength));
        for cut in (0..compressed.len()).step_by(compressed.len() / 40 + 1) {
            let mut reader = PackReader::retaining(0);
            reader.feed(&compressed[..cut]);
            assert_eq!(reader.skip_entry_body(size), Ok(None), "{n} cut at {cut}");
            reader.feed(&compressed[cut..]);
            assert_eq!(reader.skip_entry_body(size), Ok(Some(())), "{n} cut at {cut}");
            assert_eq!(reader.offset(), compressed.len() as u64);
            assert_eq!(reader.take_pack(), compressed);
        }
    }
}

#[test]
fn skip_entry_body_size_mismatch() {
    let compressed = zlib_compress(b"hello");
    assert_eq!(reading(&compressed).skip_entry_body(99), Err(Error::EntryLength));
}

#[test]
fn a_body_that_is_no_zlib_is_refused() {
    assert_eq!(reading(&[0xffu8; 64]).skip_entry_body(5), Err(Error::EntryNotZlib));
    assert_eq!(inflate_entry(&[0xffu8; 64], 5), Err(Error::EntryNotZlib));
}

#[test]
fn a_body_cut_short_is_refused() {
    let compressed = zlib_compress(b"hello hello hello");
    let cut = &compressed[..compressed.len() - 3];
    assert_eq!(reading(cut).skip_entry_body(17), Err(Error::StreamEnded));
}

fn one_blob_pack(content: &[u8]) -> Vec<u8> {
    let mut pack = Vec::new();
    pack.extend_from_slice(b"PACK");
    pack.extend_from_slice(&2u32.to_be_bytes());
    pack.extend_from_slice(&1u32.to_be_bytes());
    pack.extend_from_slice(&make_entry_header(3, content.len() as u64));
    pack.extend_from_slice(&zlib_compress(content));
    let digest = sha1_of(&pack);
    pack.extend_from_slice(&digest);
    pack
}

fn read_whole_pack(reader: &mut PackReader) {
    assert_eq!(reader.read_pack_header(), Ok(Some(1)));
    let (_, size) = reader.read_entry_header().unwrap().unwrap();
    assert_eq!(reader.skip_entry_body(size), Ok(Some(())));
    assert_eq!(reader.verify_trailer(), Ok(Some(())));
}

#[test]
fn retaining_keeps_the_pack_byte_for_byte() {
    let pack = one_blob_pack(b"hello");
    let mut reader = PackReader::retaining(pack.len());
    reader.feed(&pack);
    reader.finish();
    read_whole_pack(&mut reader);
    assert_eq!(reader.take_pack(), pack);
}

#[test]
fn retaining_stops_at_the_trailer() {
    let pack = one_blob_pack(b"hello");
    let mut stream = pack.clone();
    stream.extend_from_slice(b"whatever the client sent next");
    let mut reader = PackReader::retaining(0);
    reader.feed(&stream);
    reader.finish();
    read_whole_pack(&mut reader);
    assert_eq!(reader.take_pack(), pack);
}

#[test]
fn a_plain_reader_keeps_nothing() {
    let pack = one_blob_pack(b"hello");
    let mut reader = reading(&pack);
    read_whole_pack(&mut reader);
    assert!(reader.take_pack().is_empty());
}

#[test]
fn taking_the_pack_twice_yields_it_once() {
    let pack = one_blob_pack(b"hello");
    let mut reader = PackReader::retaining(pack.len());
    reader.feed(&pack);
    reader.finish();
    read_whole_pack(&mut reader);
    assert!(!reader.take_pack().is_empty());
    assert!(reader.take_pack().is_empty());
}

#[test]
fn a_wrong_trailer_is_refused() {
    let mut pack = one_blob_pack(b"hello");
    let last = pack.len() - 1;
    pack[last] ^= 1;
    let mut reader = reading(&pack);
    assert_eq!(reader.read_pack_header(), Ok(Some(1)));
    let (_, size) = reader.read_entry_header().unwrap().unwrap();
    assert_eq!(reader.skip_entry_body(size), Ok(Some(())));
    assert_eq!(reader.verify_trailer(), Err(Error::PackChecksum));
}

/// However a pack is cut into pieces, it reads the same.
#[test]
fn a_pack_that_arrives_byte_by_byte_reads_the_same() {
    let pack = one_blob_pack(b"hello, one byte at a time");
    let mut reader = PackReader::retaining(0);
    let mut left = pack.iter();
    let mut header = None;
    while header.is_none() {
        header = reader.read_pack_header().unwrap();
        if header.is_none() {
            reader.feed(&[*left.next().unwrap()]);
        }
    }
    assert_eq!(header, Some(1));
    let mut entry = None;
    while entry.is_none() {
        entry = reader.read_entry_header().unwrap();
        if entry.is_none() {
            reader.feed(&[*left.next().unwrap()]);
        }
    }
    let (kind, size) = entry.unwrap();
    assert_eq!((kind, size), (EntryHeader::Full(Kind::Blob), 25));
    while reader.skip_entry_body(size).unwrap().is_none() {
        reader.feed(&[*left.next().unwrap()]);
    }
    while reader.verify_trailer().unwrap().is_none() {
        reader.feed(&[*left.next().unwrap()]);
    }
    assert_eq!(left.next(), None);
    assert_eq!(reader.take_pack(), pack);
}

#[test]
fn a_ref_delta_header_round_trips_through_the_reader() {
    let base = ObjectId::from_bytes(&[0xab; 20]);
    let mut out = Vec::new();
    write_ref_delta_header(base, 1234, &mut out).unwrap();

    let type_id = (out[0] >> 4) & 0b0111;
    assert_eq!(type_id, 7, "type nibble must say REF_DELTA, got {type_id}");
    assert_eq!(
        &out[out.len() - 20..],
        &base.to_bytes()[..],
        "header must end with the base oid"
    );
    assert_eq!(
        reading(&out).read_entry_header(),
        Ok(Some((EntryHeader::RefDelta { base_id: base }, 1234)))
    );
}

#[test]
fn written_entries_read_back() {
    let long: Vec<u8> = (0..2048u32).map(|i| u8::try_from(i % 7).unwrap()).collect();
    for kind in [Kind::Commit, Kind::Tree, Kind::Blob, Kind::Tag] {
        for content in [&b""[..], b"x", b"hello", &long] {
            let mut out = Vec::new();
            write_pack_entry(kind, content, &mut out).unwrap();
            let mut reader = reading(&out);
            let size = content.len() as u64;
            assert_eq!(reader.read_entry_header(), Ok(Some((EntryHeader::Full(kind), size))));
            let header_len = reader.offset() as usize;
            assert_eq!(reader.skip_entry_body(size), Ok(Some(())));
            assert_eq!(reader.offset(), out.len() as u64);
            assert_eq!(inflate_entry(&out[header_len..], size).unwrap(), content);
            for other in (0..size + 70).filter(|other| *other != size) {
                assert!(inflate_entry(&out[header_len..], other).is_err(), "{other} for {size}");
            }
        }
    }
}

#[test]
fn written_pack_headers_read_back() {
    for count in [0u32, 1, 42, u32::MAX] {
        let mut out = Vec::new();
        write_pack_header(count, &mut out);
        assert_eq!(reading(&out).read_pack_header(), Ok(Some(count)));
    }
    let mut out = Vec::new();
    write_pack_header(7, &mut out);
    assert_eq!(out, b"PACK\x00\x00\x00\x02\x00\x00\x00\x07");
}

#[test]
fn an_entry_header_of_three_hundred_takes_two_bytes() {
    let mut out = Vec::new();
    write_pack_entry_header(Kind::Blob, 300, &mut out).unwrap();
    assert_eq!(out, [0xbc, 0x12]);
}

#[test]
fn an_entry_of_another_length_is_refused() {
    let body = zlib_compress(b"hello");
    assert_eq!(inflate_entry(&body, 5).unwrap(), b"hello");
    assert_eq!(inflate_entry(&body, 6), Err(Error::EntryLength));
    assert_eq!(inflate_entry(&body, 4), Err(Error::EntryNotZlib));
}

#[test]
fn an_id_is_its_bytes() {
    let bytes: Vec<u8> = (1..=20).collect();
    assert_eq!(ObjectId::from_bytes(&bytes).to_bytes(), bytes);
    assert!(ObjectId::from_bytes(&[1; 20]).is_before(ObjectId::from_bytes(&[2; 20])));
}
