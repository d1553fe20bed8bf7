//! The packet format of the flooding protocol.
//!
//! A packet is one byte of remaining hops, the sender's running number in
//! eight bytes, the length of the sender's name in two bytes, the name in
//! UTF-8, and the payload up to the end. Numbers are big-endian.

use vstd::arithmetic::power::pow;
use vstd::prelude::*;
use vstd::slice::{slice_subrange, slice_to_vec};
use vstd::utf8::{
    decode_utf8, decode_utf8_encode_utf8, encode_utf8, encode_utf8_decode_utf8,
    encode_utf8_valid_utf8, valid_utf8,
};

use crate::text::utf8_text;
use crate::transport::protocol::bytes::{
    be_bytes, be_value, law_most_significant_first, lemma_be_bytes_len,
    lemma_be_bytes_of_be_value, lemma_be_value_fits, lemma_be_value_of_be_bytes,
    lemma_small_powers, push_be, read_be,
};
use crate::{Frame, FrameView};

verus! {

/// Bytes before the sender's name.
pub const HEADER_LEN: usize = 11;

/// The packet that carries `frame`.
///
/// The length field holds the low two bytes of the length of the name.
pub open spec fn packet_bytes(frame: FrameView) -> Seq<u8> {
    let name = encode_utf8(frame.origin);
    seq![frame.ttl] + be_bytes(frame.seq as nat, 8) + be_bytes(name.len(), 2) + name
        + frame.payload
}

/// A name that the length field can describe.
pub open spec fn fits_packet(origin: Seq<char>) -> bool {
    encode_utf8(origin).len() <= 0xffff
}

/// The frame that a packet carries; a packet without hops left, cut short, or
/// with a name that is not UTF-8 carries none.
pub open spec fn packet_frame(bytes: Seq<u8>) -> Option<FrameView> {
    if bytes.len() < HEADER_LEN || bytes[0] == 0 {
        None
    } else {
        let end = HEADER_LEN + be_value(bytes.subrange(9, 11));
        if bytes.len() < end || !valid_utf8(bytes.subrange(HEADER_LEN as int, end)) {
            None
        } else {
            Some(
                FrameView {
                    origin: decode_utf8(bytes.subrange(HEADER_LEN as int, end)),
                    seq: be_value(bytes.subrange(1, 9)) as u64,
                    ttl: bytes[0],
                    payload: bytes.skip(end),
                },
            )
        }
    }
}

/// Writes the packet that carries `payload` from `origin`.
pub fn encode_packet(origin: &str, seq: u64, ttl: u8, payload: &[u8]) -> (out: Vec<u8>)
    ensures
        out@ == packet_bytes(FrameView { origin: origin@, seq, ttl, payload: payload@ }),
{
    let name = origin.as_bytes();
    let name_len: usize = name.len();
    let mut out: Vec<u8> = Vec::new();
    out.push(ttl);
    push_be(&mut out, seq, 8);
    push_be(&mut out, name_len as u64, 2);
    out.extend_from_slice(name);
    out.extend_from_slice(payload);
    out
}

/// Reads the frame that a packet carries.
pub fn decode_packet(bytes: &[u8]) -> (frame: Option<Frame>)
    ensures
        match frame {
            Some(f) => packet_frame(bytes@) == Some(f@),
            None => packet_frame(bytes@) is None,
        },
{
    if bytes.len() < HEADER_LEN {
        return None;
    }
    let ttl: u8 = bytes[0];
    if ttl == 0 {
        return None;
    }
    let seq: u64 = read_be(bytes, 1, 9);
    proof {
        lemma_be_value_fits(bytes@.subrange(9, 11));
        lemma_small_powers();
    }
    let name_len: usize = read_be(bytes, 9, 11) as usize;
    if bytes.len() - HEADER_LEN < name_len {
        return None;
    }
    let end: usize = HEADER_LEN + name_len;
    match utf8_text(slice_subrange(bytes, HEADER_LEN, end)) {
        None => None,
        Some(origin) => {
            let payload = slice_to_vec(slice_subrange(bytes, end, bytes.len()));
            assert(payload@ =~= bytes@.skip(end as int));
            Some(Frame::new(origin.to_owned(), seq, ttl, payload))
        },
    }
}

/// A packet is read back as the frame it was written from, when it has hops
/// left and its sender's name fits.
pub proof fn law_read_gives_back_write(frame: FrameView)
    requires
        frame.ttl != 0,
        fits_packet(frame.origin),
    ensures
        packet_frame(packet_bytes(frame)) == Some(frame),
{
    let name = encode_utf8(frame.origin);
    let bytes = packet_bytes(frame);
    lemma_small_powers();
    lemma_be_bytes_len(frame.seq as nat, 8);
    lemma_be_bytes_len(name.len(), 2);
    lemma_be_value_of_be_bytes(frame.seq as nat, 8);
    lemma_be_value_of_be_bytes(name.len(), 2);
    encode_utf8_valid_utf8(frame.origin);
    encode_utf8_decode_utf8(frame.origin);
    assert(bytes.subrange(1, 9) =~= be_bytes(frame.seq as nat, 8));
    assert(bytes.subrange(9, 11) =~= be_bytes(name.len(), 2));
    assert(bytes.subrange(11, 11 + name.len() as int) =~= name);
    assert(bytes.skip(11 + name.len() as int) =~= frame.payload);
}

/// Every packet that is read at all is the one that its frame is written as:
/// no two packets carry the same frame.
pub proof fn law_write_gives_back_read(bytes: Seq<u8>)
    requires
        packet_frame(bytes) is Some,
    ensures
        packet_bytes(packet_frame(bytes)->0) == bytes,
        fits_packet((packet_frame(bytes)->0).origin),
        (packet_frame(bytes)->0).ttl != 0,
{
    let frame = packet_frame(bytes)->0;
    let len = be_value(bytes.subrange(9, 11));
    let name = bytes.subrange(11, 11 + len as int);
    lemma_small_powers();
    lemma_be_value_fits(bytes.subrange(1, 9));
    lemma_be_value_fits(bytes.subrange(9, 11));
    lemma_be_bytes_of_be_value(bytes.subrange(1, 9));
    lemma_be_bytes_of_be_value(bytes.subrange(9, 11));
    decode_utf8_encode_utf8(name);
    assert(packet_bytes(frame) =~= bytes);
}

/// Where everything stands in a packet: the hops, the number and the length of
/// the name from the first byte on, most significant byte first, then the name,
/// then the payload up to the end.
pub proof fn law_packet_layout(frame: FrameView)
    ensures
        ({
            let name = encode_utf8(frame.origin);
            let bytes = packet_bytes(frame);
            let end = 11 + name.len() as int;
            &&& bytes.len() == end + frame.payload.len()
            &&& bytes[0] == frame.ttl
            &&& forall|i: int|
                0 <= i < 8 ==> #[trigger] bytes[1 + i] == (frame.seq as int / pow(
                    256,
                    (7 - i) as nat,
                )) % 256
            &&& bytes[9] == (name.len() / 256) % 256
            &&& bytes[10] == name.len() % 256
            &&& bytes.subrange(11, end) == name
            &&& bytes.skip(end) == frame.payload
        }),
{
    let name = encode_utf8(frame.origin);
    let bytes = packet_bytes(frame);
    let seq = be_bytes(frame.seq as nat, 8);
    let len = be_bytes(name.len(), 2);
    lemma_be_bytes_len(frame.seq as nat, 8);
    lemma_be_bytes_len(name.len(), 2);
    assert forall|i: int| 0 <= i < 8 implies #[trigger] bytes[1 + i] == (frame.seq as int / pow(
        256,
        (7 - i) as nat,
    )) % 256 by {
        law_most_significant_first(frame.seq as nat, 8, i);
        assert(bytes[1 + i] == seq[i]);
    }
    law_most_significant_first(name.len(), 2, 0);
    law_most_significant_first(name.len(), 2, 1);
    assert(pow(256, 1) == 256 && pow(256, 0) == 1) by {
        reveal(pow);
        reveal_with_fuel(pow, 2);
    }
    assert(bytes[9] == len[0] && bytes[10] == len[1]);
    assert(bytes.subrange(11, 11 + name.len() as int) =~= name);
    assert(bytes.skip(11 + name.len() as int) =~= frame.payload);
}

/// A name fits a packet unless it takes more than 65535 bytes.
pub proof fn law_which_names_fit(origin: Seq<char>)
    ensures
        fits_packet(origin) <==> encode_utf8(origin).len() <= 65535,
{
}

} // verus!
