//! Zlib streams: `libdeflater` inflates whole ones, `flate2` finds where one
//! ends and writes new ones.

use std::io::Write;

use vstd::prelude::*;

verus! {

/// An inflater of `flate2`, which takes a zlib stream in pieces.
#[verifier::external_type_specification]
#[verifier::external_body]
pub struct ExDecompress(flate2::Decompress);

/// What `libdeflater` inflates the zlib stream at the front of `body` to, in a
/// buffer of `room` bytes; none where it is not one or does not fit.
pub uninterp spec fn zlib_inflated(body: Seq<u8>, room: nat) -> Option<Seq<u8>>;

/// What `flate2` compresses `content` to at its fast level.
pub uninterp spec fn zlib_compressed(content: Seq<u8>) -> Seq<u8>;

/// How many bytes `bytes` inflates to for `flate2`, where it is exactly one
/// zlib stream.
pub uninterp spec fn zlib_whole(bytes: Seq<u8>) -> Option<nat>;

/// What an inflater has taken in since it was last reset.
pub uninterp spec fn taken_in(inflater: flate2::Decompress) -> Seq<u8>;

/// How many bytes an inflater has given out since it was last reset.
pub uninterp spec fn given_out(inflater: flate2::Decompress) -> nat;

/// Whether an inflater has failed since it was last reset.
pub uninterp spec fn has_failed(inflater: flate2::Decompress) -> bool;

/// Where no shorter run of bytes at the front of `bytes` is a whole stream.
pub open spec fn nothing_shorter_is_whole(bytes: Seq<u8>) -> bool {
    forall|n: int| 0 <= n < bytes.len() ==> (#[trigger] zlib_whole(bytes.take(n))) is None
}

/// Whether the stream at the front of `bytes` ends behind the first `n`.
pub open spec fn ends_at(bytes: Seq<u8>, n: int) -> bool {
    &&& 0 <= n <= bytes.len()
    &&& zlib_whole(bytes.take(n)) is Some
    &&& nothing_shorter_is_whole(bytes.take(n))
}

/// Whether `bytes` start with a whole stream.
pub open spec fn holds_stream(bytes: Seq<u8>) -> bool {
    exists|n: int| ends_at(bytes, n)
}

/// Whether `bytes` are the start of a stream.
pub open spec fn begins_stream(bytes: Seq<u8>) -> bool {
    exists|more: Seq<u8>| holds_stream(#[trigger] (bytes + more))
}

/// Calls `libdeflater::Decompressor::zlib_decompress` on `body` with a buffer
/// of `room` bytes. It fails on bytes that are no zlib stream and on a stream
/// that does not fit; otherwise it reports how many bytes it wrote at the front
/// of the buffer. Which of the two failures it was is left unsaid.
#[verifier::external_body]
pub(crate) fn zlib_decompress(body: &[u8], room: usize) -> (r: Option<(Vec<u8>, usize)>)
    requires
        room <= isize::MAX,
    ensures
        match r {
            Some((out, n)) => {
                &&& n <= room
                &&& out@.len() == room
                &&& zlib_inflated(body@, room as nat) == Some(out@.take(n as int))
            },
            None => zlib_inflated(body@, room as nat) is None,
        },
{
    let mut out: Vec<u8> = vec![0u8; room];
    let written = libdeflater::Decompressor::new().zlib_decompress(body, &mut out);
    written.ok().map(|n| (out, n))
}

/// Calls `flate2::write::ZlibEncoder` at `Compression::fast()` over a vector,
/// which cannot fail to take the bytes. What it writes is one whole zlib
/// stream, and both inflaters give the content back: `libdeflater` in any
/// buffer that has room for it, and in a smaller one nothing.
#[verifier::external_body]
pub(crate) fn zlib_compress(content: &[u8]) -> (r: Vec<u8>)
    ensures
        r@ == zlib_compressed(content@),
        zlib_inflated(r@, content@.len()) == Some(content@),
        forall|room: nat|
            room <= isize::MAX ==> #[trigger] zlib_inflated(r@, room) == if room < content@.len() {
                None
            } else {
                Some(content@)
            },
        zlib_whole(r@) == Some(content@.len()),
        nothing_shorter_is_whole(r@),
{
    let mut enc = flate2::write::ZlibEncoder::new(Vec::new(), flate2::Compression::fast());
    let _ = enc.write_all(content);
    enc.finish().unwrap_or_default()
}

/// Calls `flate2::Decompress::new` for a stream with a zlib header. A new
/// inflater has taken in and given out nothing.
#[verifier::external_body]
pub(crate) fn new_inflater() -> (r: flate2::Decompress)
    ensures
        taken_in(r) == Seq::<u8>::empty(),
        given_out(r) == 0,
        !has_failed(r),
{
    flate2::Decompress::new(true)
}

/// Calls `flate2::Decompress::reset` for a stream with a zlib header, after
/// which the inflater is as good as new.
#[verifier::external_body]
pub(crate) fn reset_inflater(inflater: &mut flate2::Decompress)
    ensures
        taken_in(*final(inflater)) == Seq::<u8>::empty(),
        given_out(*final(inflater)) == 0,
        !has_failed(*final(inflater)),
{
    inflater.reset(true);
}

/// Calls `flate2::Decompress::total_in`: how many bytes the inflater has taken
/// in since it was last reset.
#[verifier::external_body]
pub(crate) fn total_in(inflater: &flate2::Decompress) -> (n: u64)
    ensures
        n == taken_in(*inflater).len(),
{
    inflater.total_in()
}

/// Calls `flate2::Decompress::total_out`: how many bytes the inflater has given
/// out since it was last reset.
#[verifier::external_body]
pub(crate) fn total_out(inflater: &flate2::Decompress) -> (n: u64)
    ensures
        n == given_out(*inflater),
{
    inflater.total_out()
}

/// Calls `flate2::Decompress::decompress` on `input`, its output thrown away
/// through `sink`, and says whether the stream ended. It takes bytes from the
/// front of the input, none twice and none from behind the stream's end, and
/// gives out no more than the stream holds. Once it has taken in a whole stream
/// it reports the end, unless what it still holds back filled the sink. Each
/// call that has input and room gets it further. It fails on no bytes that are a
/// stream, or the start of one; which others it fails on, and how many bytes it
/// takes at a time, is left unsaid.
#[verifier::external_body]
pub(crate) fn inflate(
    inflater: &mut flate2::Decompress,
    input: &[u8],
    sink: &mut Vec<u8>,
) -> (r: Option<bool>)
    ensures
        final(sink)@.len() == old(sink)@.len(),
        match r {
            Some(ended) => {
                let before = taken_in(*old(inflater));
                let after = taken_in(*final(inflater));
                let made = given_out(*final(inflater)) - given_out(*old(inflater));
                &&& !has_failed(*final(inflater))
                &&& before.len() <= after.len() <= before.len() + input@.len()
                &&& after == before + input@.take(after.len() - before.len())
                &&& made >= 0
                &&& ended ==> zlib_whole(after) == Some(given_out(*final(inflater)))
                    && nothing_shorter_is_whole(after)
                &&& nothing_shorter_is_whole(before) ==> nothing_shorter_is_whole(after)
                &&& zlib_whole(after) matches Some(whole) ==> given_out(*final(inflater)) <= whole
                    && (made < old(sink)@.len() ==> ended)
                &&& input@.len() > 0 && old(sink)@.len() > 0 ==> ended || after.len() > before.len()
                    || made > 0
            },
            None => has_failed(*old(inflater)) || !begins_stream(
                taken_in(*old(inflater)) + input@,
            ),
        },
{
    let status = inflater.decompress(input, sink, flate2::FlushDecompress::None).ok()?;
    Some(status == flate2::Status::StreamEnd)
}

} // verus!
