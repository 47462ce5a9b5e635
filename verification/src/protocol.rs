use crate::buffer::{buffer_advance, buffer_bytes, buffer_reserve, buffer_split_to, buffered};
use crate::text::{string_from_utf8_lossy, utf8_lossy};
use bytes::BytesMut;
use vstd::prelude::*;
use vstd::slice::slice_to_vec;
use vstd::string::*;
use vstd::utf8::*;

verus! {

// Frame layout, all integers big-endian:
// Magic(4) | TagAppLen(2) | TagUrlLen(2) | PayloadLen(4) | EndFlag(4) | TagApp | TagUrl | Payload
/// Length of the fixed frame header.
pub const HEADER_LEN: usize = 16;

/// Length of the magic number that opens every frame.
pub const MAGIC_LEN: usize = 4;

/// The 16-bit big-endian number stored at `s[i..i + 2]`.
pub open spec fn be_u16_at(s: Seq<u8>, i: int) -> nat {
    (s[i] as nat) * 256 + (s[i + 1] as nat)
}

/// The 32-bit big-endian number stored at `s[i..i + 4]`.
pub open spec fn be_u32_at(s: Seq<u8>, i: int) -> nat {
    (s[i] as nat) * 16777216 + (s[i + 1] as nat) * 65536 + (s[i + 2] as nat) * 256 + (
    s[i + 3] as nat)
}

/// Length of the application tag announced by a header.
pub open spec fn app_len(buf: Seq<u8>) -> nat {
    be_u16_at(buf, 4)
}

/// Length of the URL tag announced by a header.
pub open spec fn url_len(buf: Seq<u8>) -> nat {
    be_u16_at(buf, 6)
}

/// Length of the payload announced by a header.
pub open spec fn payload_len(buf: Seq<u8>) -> nat {
    be_u32_at(buf, 8)
}

/// The end-flag word of a header.
pub open spec fn end_word(buf: Seq<u8>) -> nat {
    be_u32_at(buf, 12)
}

/// Total length of the frame whose header opens `buf`.
pub open spec fn frame_len(buf: Seq<u8>) -> nat {
    (HEADER_LEN as nat) + app_len(buf) + url_len(buf) + payload_len(buf)
}

/// The buffer opens with the given magic number.
pub open spec fn magic_matches(magic: Seq<u8>, buf: Seq<u8>) -> bool {
    buf.take(MAGIC_LEN as int) == magic
}

/// The raw bytes of the application tag of the frame that opens `buf`.
pub open spec fn app_bytes(buf: Seq<u8>) -> Seq<u8> {
    buf.subrange(HEADER_LEN as int, HEADER_LEN + app_len(buf))
}

/// The raw bytes of the URL tag of the frame that opens `buf`.
pub open spec fn url_bytes(buf: Seq<u8>) -> Seq<u8> {
    buf.subrange(HEADER_LEN + app_len(buf), HEADER_LEN + app_len(buf) + url_len(buf))
}

/// The payload of the frame that opens `buf`.
pub open spec fn payload_bytes(buf: Seq<u8>) -> Seq<u8> {
    buf.subrange(HEADER_LEN + app_len(buf) + url_len(buf), frame_len(buf) as int)
}

/// The decoder can tell nothing yet: the header is incomplete, or the magic
/// matches and the frame it announces is incomplete.
pub open spec fn awaits_more(magic: Seq<u8>, buf: Seq<u8>) -> bool {
    buf.len() < HEADER_LEN || (magic_matches(magic, buf) && buf.len() < frame_len(buf))
}

/// The buffer holds a whole header whose magic number is wrong.
pub open spec fn bad_magic(magic: Seq<u8>, buf: Seq<u8>) -> bool {
    buf.len() >= HEADER_LEN && !magic_matches(magic, buf)
}

/// The buffer opens with a whole frame whose magic number is right.
pub open spec fn holds_frame(magic: Seq<u8>, buf: Seq<u8>) -> bool {
    buf.len() >= HEADER_LEN && magic_matches(magic, buf) && buf.len() >= frame_len(buf)
}

/// The key of a codec: the first four bytes of the configured key, padded
/// with zero bytes to four.
pub open spec fn magic_of(key: Seq<u8>) -> Seq<u8> {
    if key.len() >= MAGIC_LEN {
        key.take(MAGIC_LEN as int)
    } else {
        key + Seq::new((MAGIC_LEN - key.len()) as nat, |i: int| 0u8)
    }
}

/// `p` holds the fields of the frame that opens `buf`, its tags read as
/// UTF-8 with invalid sequences replaced.
pub open spec fn is_frame_of(p: Packet, buf: Seq<u8>) -> bool {
    &&& p.tag_app@ == utf8_lossy(app_bytes(buf))
    &&& p.tag_url@ == utf8_lossy(url_bytes(buf))
    &&& valid_utf8(app_bytes(buf)) ==> p.tag_app@ == decode_utf8(app_bytes(buf))
    &&& valid_utf8(url_bytes(buf)) ==> p.tag_url@ == decode_utf8(url_bytes(buf))
    &&& p.tag@ == p.tag_app@ + seq!['|'] + p.tag_url@
    &&& p.end_flag == (end_word(buf) != 0)
    &&& p.payload@ == payload_bytes(buf)
}

/// The two bytes of `n` in big-endian order.
pub open spec fn be_u16_bytes(n: nat) -> Seq<u8> {
    seq![(n / 256) as u8, (n % 256) as u8]
}

/// The four bytes of `n` in big-endian order.
pub open spec fn be_u32_bytes(n: nat) -> Seq<u8> {
    seq![(n / 16777216) as u8, ((n / 65536) % 256) as u8, ((n / 256) % 256) as u8, (n % 256) as u8]
}

/// The frame that carries the given fields under the given magic number.
pub open spec fn frame(magic: Seq<u8>, app: Seq<u8>, url: Seq<u8>, end: nat, payload: Seq<u8>) -> Seq<
    u8,
> {
    magic + be_u16_bytes(app.len()) + be_u16_bytes(url.len()) + be_u32_bytes(payload.len())
        + be_u32_bytes(end) + app + url + payload
}

/// The fields fit the widths of the header.
pub open spec fn fits_header(app: Seq<u8>, url: Seq<u8>, end: nat, payload: Seq<u8>) -> bool {
    &&& app.len() < 0x1_0000
    &&& url.len() < 0x1_0000
    &&& payload.len() < 0x1_0000_0000
    &&& end < 0x1_0000_0000
}

proof fn lemma_be_u16(n: nat)
    requires
        n < 0x1_0000,
    ensures
        be_u16_at(be_u16_bytes(n), 0) == n,
{
    assert((n / 256) * 256 + n % 256 == n) by (nonlinear_arith);
    assert(n / 256 < 256) by (nonlinear_arith)
        requires
            n < 0x1_0000,
    ;
}

proof fn lemma_be_u32(n: nat)
    requires
        n < 0x1_0000_0000,
    ensures
        be_u32_at(be_u32_bytes(n), 0) == n,
{
    assert((n / 16777216) * 16777216 + ((n / 65536) % 256) * 65536 + ((n / 256) % 256) * 256 + n
        % 256 == n) by (nonlinear_arith);
    assert(n / 16777216 < 256) by (nonlinear_arith)
        requires
            n < 0x1_0000_0000,
    ;
}

/// A frame built from fields that fit the header decodes to those fields,
/// whatever follows it in the stream, and the decoder takes off exactly
/// that frame.
pub proof fn lemma_frame_decodes(
    magic: Seq<u8>,
    app: Seq<u8>,
    url: Seq<u8>,
    end: nat,
    payload: Seq<u8>,
    rest: Seq<u8>,
)
    requires
        magic.len() == MAGIC_LEN,
        fits_header(app, url, end, payload),
    ensures
        ({
            let buf = frame(magic, app, url, end, payload) + rest;
            &&& holds_frame(magic, buf)
            &&& frame_len(buf) == frame(magic, app, url, end, payload).len()
            &&& app_bytes(buf) == app
            &&& url_bytes(buf) == url
            &&& payload_bytes(buf) == payload
            &&& end_word(buf) == end
            &&& buf.skip(frame_len(buf) as int) == rest
        }),
{
    let f = frame(magic, app, url, end, payload);
    let buf = f + rest;
    lemma_be_u16(app.len());
    lemma_be_u16(url.len());
    lemma_be_u32(payload.len());
    lemma_be_u32(end);
    let header = magic + be_u16_bytes(app.len()) + be_u16_bytes(url.len()) + be_u32_bytes(
        payload.len(),
    ) + be_u32_bytes(end);
    assert(header.len() == 16);
    assert(buf.take(4) =~= magic);
    assert(be_u16_at(buf, 4) == be_u16_at(be_u16_bytes(app.len()), 0));
    assert(be_u16_at(buf, 6) == be_u16_at(be_u16_bytes(url.len()), 0));
    assert(be_u32_at(buf, 8) == be_u32_at(be_u32_bytes(payload.len()), 0));
    assert(be_u32_at(buf, 12) == be_u32_at(be_u32_bytes(end), 0));
    assert(app_bytes(buf) =~= app);
    assert(url_bytes(buf) =~= url);
    assert(payload_bytes(buf) =~= payload);
    assert(buf.skip(frame_len(buf) as int) =~= rest);
}

/// A packet sent as a frame, its tags encoded as UTF-8, comes out of the
/// decoder as it was sent, whatever follows the frame in the stream.
pub proof fn lemma_packet_round_trip(
    magic: Seq<u8>,
    app: Seq<char>,
    url: Seq<char>,
    end: nat,
    payload: Seq<u8>,
    rest: Seq<u8>,
    p: Packet,
)
    requires
        magic.len() == MAGIC_LEN,
        fits_header(encode_utf8(app), encode_utf8(url), end, payload),
        is_frame_of(p, frame(magic, encode_utf8(app), encode_utf8(url), end, payload) + rest),
    ensures
        p.tag_app@ == app,
        p.tag_url@ == url,
        p.tag@ == app + seq!['|'] + url,
        p.end_flag == (end != 0),
        p.payload@ == payload,
{
    broadcast use encode_utf8_valid_utf8, encode_utf8_decode_utf8;

    lemma_frame_decodes(magic, encode_utf8(app), encode_utf8(url), end, payload, rest);
}

/// While a frame has not fully arrived, the decoder waits for more bytes.
pub proof fn lemma_partial_frame_waits(
    magic: Seq<u8>,
    app: Seq<u8>,
    url: Seq<u8>,
    end: nat,
    payload: Seq<u8>,
    k: nat,
)
    requires
        magic.len() == MAGIC_LEN,
        fits_header(app, url, end, payload),
        k < frame(magic, app, url, end, payload).len(),
    ensures
        awaits_more(magic, frame(magic, app, url, end, payload).take(k as int)),
{
    let f = frame(magic, app, url, end, payload);
    let part = f.take(k as int);
    if k >= HEADER_LEN {
        lemma_frame_decodes(magic, app, url, end, payload, Seq::empty());
        assert(f + Seq::<u8>::empty() =~= f);
        assert(part.take(4) =~= f.take(4));
        assert(app_len(part) == app_len(f));
        assert(url_len(part) == url_len(f));
        assert(payload_len(part) == payload_len(f));
    }
}

/// Why a frame was refused.
#[derive(Debug, Clone, Copy, PartialEq, Eq)]
pub enum DecodeError {
    /// The header does not open with the codec's magic number.
    InvalidMagic,
}

/// Splits a byte stream into frames, checking each frame's magic number.
pub struct ProtocolCodec {
    pub magic_key: Vec<u8>,
}

/// One decoded frame.
pub struct Packet {
    /// `tag_app`, a `|`, then `tag_url`.
    pub tag: String,
    pub tag_app: String,
    pub tag_url: String,
    pub end_flag: bool,
    pub payload: Vec<u8>,
}

impl ProtocolCodec {
    /// A codec whose magic number is the first four bytes of `magic_key`,
    /// padded with zero bytes when the key is shorter.
    pub fn new(magic_key: &String) -> (codec: Self)
        ensures
            codec.magic_key@ == magic_of(encode_utf8(magic_key@)),
            codec.magic_key@.len() == MAGIC_LEN,
    {
        let mut key_bytes = slice_to_vec(magic_key.as_str().as_bytes());
        let ghost key = key_bytes@;
        key_bytes.truncate(MAGIC_LEN);
        while key_bytes.len() < MAGIC_LEN
            invariant
                key_bytes@.len() <= MAGIC_LEN,
                key.len() >= MAGIC_LEN ==> key_bytes@ == key.take(MAGIC_LEN as int),
                key.len() < MAGIC_LEN ==> key_bytes@.len() >= key.len() && key_bytes@
                    == key + Seq::new((key_bytes@.len() - key.len()) as nat, |i: int| 0u8),
            decreases MAGIC_LEN - key_bytes@.len(),
        {
            let ghost before = key_bytes@;
            key_bytes.push(0);
            assert(key + Seq::new((key_bytes@.len() - key.len()) as nat, |i: int| 0u8)
                =~= before.push(0u8));
        }
        proof {
            if key.len() >= MAGIC_LEN {
                assert(key_bytes@ =~= key.take(MAGIC_LEN as int));
            }
        }
        ProtocolCodec { magic_key: key_bytes }
    }
}

/// Whether `buf` opens with the four bytes of `magic`.
fn opens_with(buf: &[u8], magic: &[u8]) -> (b: bool)
    requires
        buf@.len() >= MAGIC_LEN,
    ensures
        b == magic_matches(magic@, buf@),
{
    if magic.len() != MAGIC_LEN {
        return false;
    }
    let mut i: usize = 0;
    while i < MAGIC_LEN
        invariant
            buf@.len() >= MAGIC_LEN,
            magic@.len() == MAGIC_LEN,
            i <= MAGIC_LEN,
            forall|j: int| 0 <= j < i ==> buf@[j] == magic@[j],
        decreases MAGIC_LEN - i,
    {
        if buf[i] != magic[i] {
            assert(buf@.take(MAGIC_LEN as int)[i as int] != magic@[i as int]);
            return false;
        }
        i = i + 1;
    }
    assert(buf@.take(MAGIC_LEN as int) =~= magic@);
    true
}

impl ProtocolCodec {
    /// Takes the next frame off the front of `src`.
    ///
    /// Returns `Ok(None)` and leaves `src` as it was while the header or the
    /// frame it announces is incomplete, `Err(InvalidMagic)` when a complete
    /// header carries the wrong magic number, and otherwise removes exactly
    /// one frame from `src` and returns its fields.
    pub fn decode(&mut self, src: &mut BytesMut) -> (r: Result<Option<Packet>, DecodeError>)
        ensures
            final(self).magic_key@ == old(self).magic_key@,
            match r {
                Err(e) => {
                    &&& e == DecodeError::InvalidMagic
                    &&& bad_magic(old(self).magic_key@, buffered(*old(src)))
                    &&& buffered(*final(src)) == buffered(*old(src))
                },
                Ok(None) => {
                    &&& awaits_more(old(self).magic_key@, buffered(*old(src)))
                    &&& buffered(*final(src)) == buffered(*old(src))
                },
                Ok(Some(p)) => {
                    &&& holds_frame(old(self).magic_key@, buffered(*old(src)))
                    &&& is_frame_of(p, buffered(*old(src)))
                    &&& buffered(*final(src)) == buffered(*old(src)).skip(
                        frame_len(buffered(*old(src))) as int,
                    )
                },
            },
    {
        let ghost old_buf = buffered(*src);
        let bytes = buffer_bytes(src);
        let n: usize = bytes.len();
        // 1. the fixed header must be complete
        if n < HEADER_LEN {
            return Ok(None);
        }
        // 2. the magic number keeps scanners out
        if !opens_with(bytes, self.magic_key.as_slice()) {
            return Err(DecodeError::InvalidMagic);
        }
        // 3. the lengths of the three fields and the end flag
        let tag_app_len: usize = (bytes[4] as usize) * 256 + (bytes[5] as usize);
        let tag_url_len: usize = (bytes[6] as usize) * 256 + (bytes[7] as usize);
        let payload_len: u64 = (bytes[8] as u64) * 16777216 + (bytes[9] as u64) * 65536 + (
        bytes[10] as u64) * 256 + (bytes[11] as u64);
        let end_flag: u64 = (bytes[12] as u64) * 16777216 + (bytes[13] as u64) * 65536 + (
        bytes[14] as u64) * 256 + (bytes[15] as u64);
        let total: u64 = 16 + (tag_app_len as u64) + (tag_url_len as u64) + payload_len;
        assert(total == frame_len(old_buf));
        if (n as u64) < total {
            let limit: u64 = isize::MAX as u64;
            if (n as u64) <= limit && total <= limit - (n as u64) {
                buffer_reserve(src, total as usize);
            }
            return Ok(None);
        }
        let payload_len: usize = payload_len as usize;
        // 4. drop the header
        buffer_advance(src, HEADER_LEN);
        // 5. split off the three fields
        let tag_app = buffer_split_to(src, tag_app_len);
        let tag_url = buffer_split_to(src, tag_url_len);
        let payload = buffer_split_to(src, payload_len);
        proof {
            let a = tag_app_len as int;
            let u = tag_url_len as int;
            let p = payload_len as int;
            assert(buffered(tag_app) =~= app_bytes(old_buf));
            assert(buffered(tag_url) =~= url_bytes(old_buf));
            assert(buffered(payload) =~= payload_bytes(old_buf));
            assert(buffered(*src) =~= old_buf.skip(16 + a + u + p));
        }
        let app_text = string_from_utf8_lossy(buffer_bytes(&tag_app));
        let url_text = string_from_utf8_lossy(buffer_bytes(&tag_url));
        let payload_bytes = slice_to_vec(buffer_bytes(&payload));
        Ok(Some(Packet::new(app_text, url_text, end_flag != 0, payload_bytes)))
    }
}

impl Packet {
    /// A packet whose tag joins the two tags with `|`.
    pub fn new(tag_app: String, tag_url: String, end_flag: bool, payload: Vec<u8>) -> (p: Self)
        ensures
            p.tag@ == tag_app@ + seq!['|'] + tag_url@,
            p.tag_app@ == tag_app@,
            p.tag_url@ == tag_url@,
            p.end_flag == end_flag,
            p.payload@ == payload@,
    {
        let tag = tag_app.clone().concat("|").concat(tag_url.as_str());
        proof {
            reveal_strlit("|");
        }
        Packet { tag, tag_app, tag_url, end_flag, payload }
    }
}

} // verus!
