//! The payload frame: magic bytes, version, ID length, UTF-8 ID bytes and a
//! big-endian CRC-32 of everything before it; and its bit serialization.

use crate::common::DecodeStatus;
use crate::primitives::{crc32, crc32_of};
use vstd::prelude::*;
use vstd::utf8::{decode_utf8, valid_utf8};

verus! {

/// "HWM2".
pub const MAGIC: [u8; 4] = [72u8, 87u8, 77u8, 50u8];
pub const VERSION: u8 = 2;
pub const MAX_ID_BYTES: usize = 255;
pub const HEADER_BYTES: usize = 6;
pub const CRC_BYTES: usize = 4;

/// Result of parsing a frame.
#[derive(Clone, Debug)]
pub enum ParseFrameResult {
    Decoded(String),
    NoWatermark,
    CrcMismatch,
    UnsupportedPayload,
}

/// Result of parsing a frame header. `Unsupported` stands for an ID longer
/// than MAX_ID_BYTES; the one-byte length field cannot declare one, so
/// `parse_frame_header` never returns it.
#[derive(Clone, Debug)]
pub enum HeaderStatus {
    Valid(usize),
    Invalid,
    Unsupported,
}

pub open spec fn magic() -> Seq<u8> {
    seq![72u8, 87u8, 77u8, 50u8]
}

/// The big-endian bytes of x.
pub open spec fn be_bytes(x: u32) -> Seq<u8> {
    seq![(x >> 24u32) as u8, (x >> 16u32) as u8, (x >> 8u32) as u8, x as u8]
}

/// The u32 whose big-endian bytes are b[0..4].
pub open spec fn from_be(b: Seq<u8>) -> u32 {
    ((b[0] as u32) << 24u32) | ((b[1] as u32) << 16u32) | ((b[2] as u32) << 8u32) | (b[3] as u32)
}

/// Header and ID bytes of the frame for id.
pub open spec fn frame_body(id: Seq<u8>) -> Seq<u8> {
    magic() + seq![VERSION, (id.len() % 256) as u8] + id
}

/// The frame for id: body followed by the CRC-32 of the body.
pub open spec fn frame_of(id: Seq<u8>) -> Seq<u8> {
    frame_body(id) + be_bytes(crc32(frame_body(id)))
}

/// The ID length a frame declares.
pub open spec fn declared_len(f: Seq<u8>) -> int {
    f[5] as int
}

/// The ID bytes of a frame.
pub open spec fn frame_id(f: Seq<u8>) -> Seq<u8> {
    f.subrange(6, 6 + declared_len(f))
}

/// What parsing a frame yields, without the decoded ID.
pub open spec fn frame_status(f: Seq<u8>) -> DecodeStatus {
    if f.len() < 10 || f.subrange(0, 4) != magic() || f[4] != VERSION {
        DecodeStatus::NoWatermark
    } else if f.len() < 10 + declared_len(f) {
        DecodeStatus::UnsupportedPayload
    } else if from_be(f.subrange(6 + declared_len(f), 10 + declared_len(f))) != crc32(
        f.subrange(0, 6 + declared_len(f)),
    ) {
        DecodeStatus::CrcMismatch
    } else if !valid_utf8(frame_id(f)) {
        DecodeStatus::UnsupportedPayload
    } else {
        DecodeStatus::Decoded
    }
}

impl ParseFrameResult {
    pub open spec fn status(&self) -> DecodeStatus {
        match self {
            ParseFrameResult::Decoded(_) => DecodeStatus::Decoded,
            ParseFrameResult::NoWatermark => DecodeStatus::NoWatermark,
            ParseFrameResult::CrcMismatch => DecodeStatus::CrcMismatch,
            ParseFrameResult::UnsupportedPayload => DecodeStatus::UnsupportedPayload,
        }
    }
}

/// `String::from_utf8`: Ok exactly for valid UTF-8, holding the decoded characters.
#[verifier::external_body]
fn utf8_to_string(bytes: Vec<u8>) -> (s: Option<String>)
    ensures
        s is Some <==> valid_utf8(bytes@),
        s matches Some(t) ==> t@ == decode_utf8(bytes@),
{
    String::from_utf8(bytes).ok()
}

proof fn lemma_be_roundtrip(x: u32)
    ensures
        from_be(be_bytes(x)) == x,
{
    let b0 = (x >> 24u32) as u8;
    let b1 = (x >> 16u32) as u8;
    let b2 = (x >> 8u32) as u8;
    let b3 = x as u8;
    assert(((b0 as u32) << 24u32) | ((b1 as u32) << 16u32) | ((b2 as u32) << 8u32) | (b3 as u32) == x)
        by (bit_vector)
        requires
            b0 == (x >> 24u32) as u8,
            b1 == (x >> 16u32) as u8,
            b2 == (x >> 8u32) as u8,
            b3 == x as u8,
    ;
}

/// Builds the frame for an ID.
pub fn build_frame(id: &[u8]) -> (frame: Vec<u8>)
    ensures
        frame@ == frame_of(id@),
{
    let mut frame: Vec<u8> = Vec::new();
    frame.push(MAGIC[0]);
    frame.push(MAGIC[1]);
    frame.push(MAGIC[2]);
    frame.push(MAGIC[3]);
    frame.push(VERSION);
    let n = id.len();
    let len_byte = n as u8;
    assert(len_byte == (n % 256) as u8) by (bit_vector)
        requires len_byte == n as u8;
    frame.push(len_byte);
    frame.extend_from_slice(id);
    assert(frame@ =~= frame_body(id@));
    let crc = crc32_of(frame.as_slice());
    frame.push((crc >> 24u32) as u8);
    frame.push((crc >> 16u32) as u8);
    frame.push((crc >> 8u32) as u8);
    frame.push(crc as u8);
    assert(frame@ =~= frame_of(id@));
    frame
}

/// Parses a frame: checks magic, version, length and checksum, then decodes the ID.
pub fn parse_frame(frame: &[u8]) -> (r: ParseFrameResult)
    ensures
        r.status() == frame_status(frame@),
        r matches ParseFrameResult::Decoded(s) ==> s@ == decode_utf8(frame_id(frame@)),
{
    if frame.len() < HEADER_BYTES + CRC_BYTES {
        return ParseFrameResult::NoWatermark;
    }
    if frame[0] != MAGIC[0] || frame[1] != MAGIC[1] || frame[2] != MAGIC[2] || frame[3] != MAGIC[3]
        || frame[4] != VERSION {
        proof {
            if frame@.subrange(0, 4) == magic() {
                assert(frame@[0] == frame@.subrange(0, 4)[0]);
                assert(frame@[1] == frame@.subrange(0, 4)[1]);
                assert(frame@[2] == frame@.subrange(0, 4)[2]);
                assert(frame@[3] == frame@.subrange(0, 4)[3]);
            }
        }
        return ParseFrameResult::NoWatermark;
    }
    assert(frame@.subrange(0, 4) =~= magic());
    let len = frame[5] as usize;
    let total = HEADER_BYTES + len + CRC_BYTES;
    if frame.len() < total {
        return ParseFrameResult::UnsupportedPayload;
    }
    let b0 = frame[HEADER_BYTES + len];
    let b1 = frame[HEADER_BYTES + len + 1];
    let b2 = frame[HEADER_BYTES + len + 2];
    let b3 = frame[HEADER_BYTES + len + 3];
    let expected = ((b0 as u32) << 24u32) | ((b1 as u32) << 16u32) | ((b2 as u32) << 8u32) | (b3 as u32);
    let ghost crc_bytes = frame@.subrange(6 + len, 10 + len);
    assert(crc_bytes[0] == b0 && crc_bytes[1] == b1 && crc_bytes[2] == b2 && crc_bytes[3] == b3);
    let computed = crc32_of(&frame[0..HEADER_BYTES + len]);
    if computed != expected {
        return ParseFrameResult::CrcMismatch;
    }
    let mut id: Vec<u8> = Vec::new();
    let mut i: usize = 0;
    while i < len
        invariant
            i <= len,
            len == frame@[5] as int,
            6 + len <= frame.len(),
            id@ == frame@.subrange(6, 6 + i),
        decreases len - i,
    {
        id.push(frame[HEADER_BYTES + i]);
        i += 1;
        assert(id@ =~= frame@.subrange(6, 6 + i));
    }
    match utf8_to_string(id) {
        Some(s) => ParseFrameResult::Decoded(s),
        None => ParseFrameResult::UnsupportedPayload,
    }
}

/// The frame for an ID of at most MAX_ID_BYTES bytes parses back to that ID,
/// decoded as UTF-8 when it is valid UTF-8 (UnsupportedPayload otherwise).
pub proof fn lemma_frame_roundtrip(id: Seq<u8>)
    requires
        id.len() <= 255,
    ensures
        frame_status(frame_of(id)) == (if valid_utf8(id) {
            DecodeStatus::Decoded
        } else {
            DecodeStatus::UnsupportedPayload
        }),
        frame_id(frame_of(id)) == id,
{
    let f = frame_of(id);
    let body = frame_body(id);
    assert(f.len() == 10 + id.len());
    assert(f.subrange(0, 4) =~= magic());
    assert(declared_len(f) == id.len());
    assert(f.subrange(0, 6 + declared_len(f)) =~= body);
    assert(f.subrange(6 + declared_len(f), 10 + declared_len(f)) =~= be_bytes(crc32(body)));
    lemma_be_roundtrip(crc32(body));
    assert(frame_id(f) =~= id);
}

/// A frame is reported decoded only when its checksum matches: the CRC-32 of
/// header and ID equals the big-endian value stored after them, and the ID
/// is at most MAX_ID_BYTES of valid UTF-8.
pub proof fn lemma_decoded_frames_pass_crc(f: Seq<u8>)
    requires
        frame_status(f) == DecodeStatus::Decoded,
    ensures
        f.subrange(0, 4) == magic(),
        f[4] == VERSION,
        declared_len(f) <= 255,
        10 + declared_len(f) <= f.len(),
        from_be(f.subrange(6 + declared_len(f), 10 + declared_len(f))) == crc32(f.subrange(0, 6 + declared_len(f))),
        valid_utf8(frame_id(f)),
{
}

/// The eight bits of a byte, most significant first.
pub open spec fn byte_bits(b: u8) -> Seq<bool> {
    Seq::new(8, |k: int| (b >> ((7 - k) as u8)) & 1u8 == 1u8)
}

/// The bits of a byte string, each byte most significant bit first.
pub open spec fn bits_of(f: Seq<u8>) -> Seq<bool>
    decreases f.len(),
{
    if f.len() == 0 {
        Seq::empty()
    } else {
        bits_of(f.drop_last()) + byte_bits(f.last())
    }
}

/// Bit i of a bit string, false past its end.
pub open spec fn bit_at(bits: Seq<bool>, i: int) -> bool {
    0 <= i < bits.len() && bits[i]
}

/// The byte made of the first n of the eight bits from start, most
/// significant first.
pub open spec fn pack_bits(bits: Seq<bool>, start: int, n: int) -> u8
    decreases n,
{
    if n <= 0 {
        0
    } else {
        pack_bits(bits, start, n - 1) | (if bit_at(bits, start + n - 1) {
            1u8 << ((7 - (n - 1)) as u8)
        } else {
            0u8
        })
    }
}

/// count bytes packed from a bit string, missing bits read as zero.
pub open spec fn bytes_of(bits: Seq<bool>, count: int) -> Seq<u8> {
    Seq::new(count as nat, |k: int| pack_bits(bits, 8 * k, 8))
}

/// What parsing a header yields.
pub open spec fn header_status(h: Seq<u8>) -> HeaderStatus {
    if h.len() != 6 || h.subrange(0, 4) != magic() || h[4] != VERSION {
        HeaderStatus::Invalid
    } else {
        HeaderStatus::Valid(h[5] as usize)
    }
}

/// Appends the bits of a byte, most significant first.
pub fn push_byte_bits(byte: u8, bits: &mut Vec<bool>)
    ensures
        final(bits)@ == old(bits)@ + byte_bits(byte),
{
    let mut shift: u8 = 8;
    while shift > 0
        invariant
            shift <= 8,
            bits@ == old(bits)@ + byte_bits(byte).take(8 - shift),
        decreases shift,
    {
        shift -= 1;
        bits.push(((byte >> shift) & 1) == 1);
        assert(bits@ =~= old(bits)@ + byte_bits(byte).take(8 - shift));
    }
    assert(byte_bits(byte).take(8) =~= byte_bits(byte));
}

/// The bits of a frame, each byte most significant bit first.
pub fn frame_bits(frame: &[u8]) -> (bits: Vec<bool>)
    ensures
        bits@ == bits_of(frame@),
{
    let mut bits: Vec<bool> = Vec::new();
    let mut i: usize = 0;
    while i < frame.len()
        invariant
            i <= frame.len(),
            bits@ == bits_of(frame@.take(i as int)),
        decreases frame.len() - i,
    {
        push_byte_bits(frame[i], &mut bits);
        assert(frame@.take(i + 1).drop_last() =~= frame@.take(i as int));
        i += 1;
    }
    assert(frame@.take(frame.len() as int) =~= frame@);
    bits
}

/// Packs bits into raw_bytes bytes, most significant bit first; bits past the
/// end of the input read as zero.
pub fn bits_to_bytes(bits: &[bool], raw_bytes: usize) -> (out: Vec<u8>)
    requires
        raw_bytes <= usize::MAX / 8,
    ensures
        out@ == bytes_of(bits@, raw_bytes as int),
{
    let mut out: Vec<u8> = Vec::new();
    let mut byte_index: usize = 0;
    while byte_index < raw_bytes
        invariant
            raw_bytes <= usize::MAX / 8,
            byte_index <= raw_bytes,
            out@ == bytes_of(bits@, byte_index as int),
        decreases raw_bytes - byte_index,
    {
        let mut byte: u8 = 0;
        let mut bit_index: usize = 0;
        while bit_index < 8
            invariant
                byte_index < raw_bytes,
                raw_bytes <= usize::MAX / 8,
                bit_index <= 8,
                byte == pack_bits(bits@, 8 * byte_index, bit_index as int),
            decreases 8 - bit_index,
        {
            let idx = byte_index * 8 + bit_index;
            let bit = if idx < bits.len() { bits[idx] } else { false };
            if bit {
                byte = byte | (1u8 << ((7 - bit_index) as u8));
            } else {
                assert(byte | 0u8 == byte) by (bit_vector);
            }
            bit_index += 1;
        }
        out.push(byte);
        byte_index += 1;
        assert(out@ =~= bytes_of(bits@, byte_index as int));
    }
    out
}

/// Parses a frame header: magic and version, then the declared ID length.
pub fn parse_frame_header(header: &[u8]) -> (r: HeaderStatus)
    ensures
        r == header_status(header@),
{
    if header.len() != HEADER_BYTES || header[0] != MAGIC[0] || header[1] != MAGIC[1] || header[2]
        != MAGIC[2] || header[3] != MAGIC[3] || header[4] != VERSION {
        proof {
            if header@.len() == 6 && header@.subrange(0, 4) == magic() {
                assert(header@[0] == header@.subrange(0, 4)[0]);
                assert(header@[1] == header@.subrange(0, 4)[1]);
                assert(header@[2] == header@.subrange(0, 4)[2]);
                assert(header@[3] == header@.subrange(0, 4)[3]);
            }
        }
        return HeaderStatus::Invalid;
    }
    assert(header@.subrange(0, 4) =~= magic());
    HeaderStatus::Valid(header[5] as usize)
}

proof fn lemma_bits_of_len_index(f: Seq<u8>)
    ensures
        bits_of(f).len() == 8 * f.len(),
        forall|k: int, i: int|
            0 <= k < f.len() && 0 <= i < 8 ==> #[trigger] bits_of(f)[8 * k + i] == byte_bits(f[k])[i],
    decreases f.len(),
{
    if f.len() > 0 {
        let d = f.drop_last();
        lemma_bits_of_len_index(d);
        assert forall|k: int, i: int| 0 <= k < f.len() && 0 <= i < 8 implies #[trigger] bits_of(f)[8 * k + i] == byte_bits(f[k])[i] by {
            if k < d.len() {
                assert(f[k] == d[k]);
            }
        }
    }
}

proof fn lemma_pack_byte(b: u8, c0: bool, c1: bool, c2: bool, c3: bool, c4: bool, c5: bool, c6: bool, c7: bool)
    requires
        c0 == ((b >> 7u8) & 1u8 == 1u8),
        c1 == ((b >> 6u8) & 1u8 == 1u8),
        c2 == ((b >> 5u8) & 1u8 == 1u8),
        c3 == ((b >> 4u8) & 1u8 == 1u8),
        c4 == ((b >> 3u8) & 1u8 == 1u8),
        c5 == ((b >> 2u8) & 1u8 == 1u8),
        c6 == ((b >> 1u8) & 1u8 == 1u8),
        c7 == ((b >> 0u8) & 1u8 == 1u8),
    ensures
        (((((((((0u8 | (if c0 { 1u8 << 7u8 } else { 0u8 })) | (if c1 { 1u8 << 6u8 } else { 0u8 })) | (if c2 {
            1u8 << 5u8
        } else {
            0u8
        })) | (if c3 { 1u8 << 4u8 } else { 0u8 })) | (if c4 { 1u8 << 3u8 } else { 0u8 })) | (if c5 {
            1u8 << 2u8
        } else {
            0u8
        })) | (if c6 { 1u8 << 1u8 } else { 0u8 })) | (if c7 { 1u8 << 0u8 } else { 0u8 }))) == b,
{
    assert((((((((((0u8 | (if c0 { 1u8 << 7u8 } else { 0u8 })) | (if c1 { 1u8 << 6u8 } else { 0u8 })) | (if c2 {
        1u8 << 5u8
    } else {
        0u8
    })) | (if c3 { 1u8 << 4u8 } else { 0u8 })) | (if c4 { 1u8 << 3u8 } else { 0u8 })) | (if c5 {
        1u8 << 2u8
    } else {
        0u8
    })) | (if c6 { 1u8 << 1u8 } else { 0u8 })) | (if c7 { 1u8 << 0u8 } else { 0u8 }))) == b) by (bit_vector)
        requires
            c0 == ((b >> 7u8) & 1u8 == 1u8),
            c1 == ((b >> 6u8) & 1u8 == 1u8),
            c2 == ((b >> 5u8) & 1u8 == 1u8),
            c3 == ((b >> 4u8) & 1u8 == 1u8),
            c4 == ((b >> 3u8) & 1u8 == 1u8),
            c5 == ((b >> 2u8) & 1u8 == 1u8),
            c6 == ((b >> 1u8) & 1u8 == 1u8),
            c7 == ((b >> 0u8) & 1u8 == 1u8),
    ;
}

/// Serializing a byte string to bits and packing the bits back gives the
/// same bytes.
pub proof fn lemma_bits_roundtrip(f: Seq<u8>)
    ensures
        bytes_of(bits_of(f), f.len() as int) == f,
{
    lemma_bits_of_len_index(f);
    let bits = bits_of(f);
    assert forall|k: int| 0 <= k < f.len() implies #[trigger] pack_bits(bits, 8 * k, 8) == f[k] by {
        let b = f[k];
        assert(bits[8 * k + 0] == byte_bits(b)[0]);
        assert(bits[8 * k + 1] == byte_bits(b)[1]);
        assert(bits[8 * k + 2] == byte_bits(b)[2]);
        assert(bits[8 * k + 3] == byte_bits(b)[3]);
        assert(bits[8 * k + 4] == byte_bits(b)[4]);
        assert(bits[8 * k + 5] == byte_bits(b)[5]);
        assert(bits[8 * k + 6] == byte_bits(b)[6]);
        assert(bits[8 * k + 7] == byte_bits(b)[7]);
        reveal_with_fuel(pack_bits, 9);
        lemma_pack_byte(b, bits[8 * k], bits[8 * k + 1], bits[8 * k + 2], bits[8 * k + 3], bits[8 * k + 4], bits[8 * k + 5], bits[8 * k + 6], bits[8 * k + 7]);
    }
    assert(bytes_of(bits, f.len() as int) =~= f);
}

// ---------------------------------------------------------------------------
// Reading a frame back from decoded bits.

/// The total frame length in bytes announced by the header in the first 48 bits.
pub open spec fn announced_len(bits: Seq<bool>) -> Option<usize> {
    match header_status(bytes_of(bits, 6)) {
        HeaderStatus::Valid(len) => Some((6 + len + 4) as usize),
        _ => None,
    }
}

/// Reads the header from the first 48 bits; the length of the whole frame in
/// bytes when the header is valid.
pub fn frame_len_from_header_bits(bits: &[bool]) -> (r: Option<usize>)
    ensures
        r == announced_len(bits@),
{
    let header = bits_to_bytes(bits, HEADER_BYTES);
    match parse_frame_header(header.as_slice()) {
        HeaderStatus::Valid(len) => Some(HEADER_BYTES + len + CRC_BYTES),
        _ => None,
    }
}

/// Packs raw_bytes bytes from the bits and parses them as a frame.
pub fn frame_from_bits(bits: &[bool], raw_bytes: usize) -> (r: ParseFrameResult)
    requires
        raw_bytes <= usize::MAX / 8,
    ensures
        r.status() == frame_status(bytes_of(bits@, raw_bytes as int)),
        r matches ParseFrameResult::Decoded(s) ==> s@ == decode_utf8(frame_id(bytes_of(bits@, raw_bytes as int))),
{
    let frame = bits_to_bytes(bits, raw_bytes);
    parse_frame(frame.as_slice())
}

/// The bits of each word.
pub open spec fn words_view(words: Seq<Vec<bool>>) -> Seq<Seq<bool>> {
    words.map_values(|w: Vec<bool>| w@)
}

/// How many of the first n words set bit i.
pub open spec fn count_set(words: Seq<Seq<bool>>, i: int, n: int) -> int
    decreases n,
{
    if n <= 0 {
        0
    } else {
        count_set(words, i, n - 1) + if words[n - 1][i] {
            1int
        } else {
            0int
        }
    }
}

/// Bitwise majority of the words: bit i is set when at least half of them set it.
pub open spec fn majority(words: Seq<Seq<bool>>, len: int) -> Seq<bool> {
    Seq::new(len as nat, |i: int| 2 * count_set(words, i, words.len() as int) >= words.len())
}

/// At least two words, all of the same nonzero length.
pub open spec fn can_vote(words: Seq<Seq<bool>>) -> bool {
    &&& words.len() >= 2
    &&& words[0].len() > 0
    &&& forall|t: int| 0 <= t < words.len() ==> #[trigger] words[t].len() == words[0].len()
}

proof fn lemma_count_set_bound(words: Seq<Seq<bool>>, i: int, n: int)
    requires
        0 <= n,
    ensures
        0 <= count_set(words, i, n) <= n,
    decreases n,
{
    if n > 0 {
        lemma_count_set_bound(words, i, n - 1);
    }
}

proof fn lemma_count_set_filter(words: Seq<Seq<bool>>, i: int, n: int)
    requires
        0 <= n <= words.len(),
    ensures
        count_set(words, i, n) == words.take(n).filter(|w: Seq<bool>| w[i]).len(),
    decreases n,
{
    let p = |w: Seq<bool>| w[i];
    if n == 0 {
        assert(words.take(0) =~= Seq::<Seq<bool>>::empty());
        reveal(Seq::filter);
    } else {
        lemma_count_set_filter(words, i, n - 1);
        assert(words.take(n - 1).push(words[n - 1]) =~= words.take(n));
        words.take(n - 1).lemma_filter_len_push(p, words[n - 1]);
    }
}

/// Majority law: bit i of the merged word is set exactly when at least as
/// many words set it as clear it; a bit set by fewer than half of the words
/// is clear, and one set by all of them is set.
pub proof fn lemma_majority_vote(words: Seq<Seq<bool>>, len: int, i: int)
    requires
        0 <= i < len,
    ensures
        majority(words, len)[i] == (2 * words.filter(|w: Seq<bool>| w[i]).len() >= words.len()),
        majority(words, len)[i] == (words.filter(|w: Seq<bool>| w[i]).len() >= words.filter(|w: Seq<bool>| !w[i]).len()),
{
    lemma_count_set_filter(words, i, words.len() as int);
    assert(words.take(words.len() as int) =~= words);
    lemma_filter_split(words, i);
}

/// Every word either sets or clears bit i.
proof fn lemma_filter_split(words: Seq<Seq<bool>>, i: int)
    ensures
        words.filter(|w: Seq<bool>| w[i]).len() + words.filter(|w: Seq<bool>| !w[i]).len() == words.len(),
    decreases words.len(),
{
    let p = |w: Seq<bool>| w[i];
    let q = |w: Seq<bool>| !w[i];
    if words.len() == 0 {
        reveal(Seq::filter);
    } else {
        let d = words.drop_last();
        lemma_filter_split(d, i);
        assert(d.push(words.last()) =~= words);
        d.lemma_filter_len_push(p, words.last());
        d.lemma_filter_len_push(q, words.last());
    }
}

/// Merges equally long bit words by a bitwise majority vote; None unless
/// there are at least two words of the same nonzero length.
pub fn majority_bits(words: &Vec<Vec<bool>>) -> (r: Option<Vec<bool>>)
    ensures
        r is Some <==> can_vote(words_view(words@)),
        r matches Some(b) ==> b@ == majority(words_view(words@), words@[0]@.len() as int),
{
    let ghost wv = words_view(words@);
    if words.len() < 2 {
        return None;
    }
    let bit_len = words[0].len();
    if bit_len == 0 {
        return None;
    }
    let mut t: usize = 0;
    while t < words.len()
        invariant
            wv == words_view(words@),
            bit_len == words@[0]@.len(),
            t <= words.len(),
            forall|u: int| 0 <= u < t ==> #[trigger] wv[u].len() == bit_len,
        decreases words.len() - t,
    {
        if words[t].len() != bit_len {
            assert(wv[t as int].len() != wv[0].len());
            return None;
        }
        t += 1;
    }
    let mut merged: Vec<bool> = Vec::new();
    let mut i: usize = 0;
    while i < bit_len
        invariant
            wv == words_view(words@),
            bit_len == words@[0]@.len(),
            can_vote(wv),
            i <= bit_len,
            merged@ == majority(wv, bit_len as int).take(i as int),
        decreases bit_len - i,
    {
        let mut ones: usize = 0;
        let mut u: usize = 0;
        while u < words.len()
            invariant
                wv == words_view(words@),
                can_vote(wv),
                bit_len == words@[0]@.len(),
                i < bit_len,
                u <= words.len(),
                ones == count_set(wv, i as int, u as int),
            decreases words.len() - u,
        {
            proof {
                lemma_count_set_bound(wv, i as int, u as int);
            }
            assert(wv[u as int].len() == bit_len);
            if words[u][i] {
                ones += 1;
            }
            u += 1;
        }
        proof {
            lemma_count_set_bound(wv, i as int, words.len() as int);
        }
        merged.push(ones >= words.len() - ones);
        i += 1;
        assert(merged@ =~= majority(wv, bit_len as int).take(i as int));
    }
    assert(merged@ =~= majority(wv, bit_len as int));
    Some(merged)
}

/// The frame recovered from several decoded copies of the same bits by a
/// majority vote, packed into raw_bytes bytes and parsed; None when the
/// copies cannot be merged.
pub fn vote_frame(words: &Vec<Vec<bool>>, raw_bytes: usize) -> (r: Option<ParseFrameResult>)
    requires
        raw_bytes <= usize::MAX / 8,
    ensures
        r is Some <==> can_vote(words_view(words@)),
        r matches Some(p) ==> {
            let f = bytes_of(majority(words_view(words@), words@[0]@.len() as int), raw_bytes as int);
            &&& p.status() == frame_status(f)
            &&& (p matches ParseFrameResult::Decoded(s) ==> s@ == decode_utf8(frame_id(f)))
        },
{
    match majority_bits(words) {
        Some(merged) => Some(frame_from_bits(merged.as_slice(), raw_bytes)),
        None => None,
    }
}

proof fn lemma_pack_bit(bits: Seq<bool>, start: int, n: int, k: int)
    requires
        0 <= n <= 8,
        0 <= k < 8,
    ensures
        ((pack_bits(bits, start, n) >> ((7 - k) as u8)) & 1u8 == 1u8) == (k < n && bit_at(bits, start + k)),
    decreases n,
{
    let s = (7 - k) as u8;
    if n == 0 {
        assert((0u8 >> s) & 1u8 == 0u8) by (bit_vector);
    } else {
        lemma_pack_bit(bits, start, n - 1, k);
        let x = pack_bits(bits, start, n - 1);
        let t = (7 - (n - 1)) as u8;
        assert(s < 8 && t < 8);
        if bit_at(bits, start + n - 1) {
            assert((((x | (1u8 << t)) >> s) & 1u8 == 1u8) == (((x >> s) & 1u8 == 1u8) || t == s)) by (bit_vector)
                requires s < 8u8, t < 8u8;
        } else {
            assert((((x | 0u8) >> s) & 1u8) == ((x >> s) & 1u8)) by (bit_vector);
        }
    }
}

/// Bit k (most significant first) of byte i of the packed bytes is bit
/// 8 i + k of the input, false past its end.
pub proof fn lemma_bytes_of_bits(bits: Seq<bool>, count: int, i: int, k: int)
    requires
        0 <= i < count,
        0 <= k < 8,
    ensures
        bytes_of(bits, count).len() == count,
        ((bytes_of(bits, count)[i] >> ((7 - k) as u8)) & 1u8 == 1u8) == bit_at(bits, 8 * i + k),
{
    lemma_pack_bit(bits, 8 * i, 8, k);
}

} // verus!
