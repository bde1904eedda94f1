//! The protocol message type and its wire codec.
//!
//! Every message is encoded as a one-byte tag followed by its payload
//! fields (each `i32` as four little-endian bytes, each `bool` as one
//! byte).  On a link, a message travels as a frame: the unsigned 32-bit
//! little-endian length of the encoding, then the encoding itself.  The
//! codec is total and injective: `spec_decode` inverts `spec_encode` on
//! every message, and rejects every byte string that no message encodes
//! to.

use vstd::prelude::*;

verus! {

/// One protocol message, as exchanged between two adjacent processes.
///
/// - `Search(layer, max_layer)`: the sender, at depth `layer`, offers to
///   become the receiver's parent; the receiver's depth would become
///   `layer + 1`, and the wave keeps cascading while the new depth plus
///   one is at most `max_layer`.
/// - `Ack`: the receiver of a `Search` accepts the sender as its parent;
///   also sent upward by a non-originating node when its wave collapses.
/// - `Reject`: the receiver of a `Search` declines, or releases a
///   previous parent after re-parenting.
/// - `NewPhase(layer)`: the root instructs the frontier at depth `layer`
///   to start the next phase.
/// - `PhaseComplete(child_added)`: upward report that some node was (or
///   was not) newly attached in the reporter's subtree this phase.
/// - `Terminate`: the root's final broadcast; recipients re-broadcast it
///   and exit.
/// - `Connect(id)`: handshake, exchanged exactly once per link right
///   after the link is established, never during the algorithm.
#[derive(Clone, Copy, PartialEq, Eq, Structural, Debug)]
pub enum Message {
    Search(i32, i32),
    Ack,
    Reject,
    NewPhase(i32),
    PhaseComplete(bool),
    Terminate,
    Connect(i32),
}

/// The four little-endian bytes of an `i32`, via its two's-complement
/// unsigned image.
pub open spec fn spec_i32_le(x: i32) -> Seq<u8> {
    vstd::bytes::spec_u32_to_le_bytes(x as u32)
}

/// The `i32` read from four little-endian bytes.
pub open spec fn spec_i32_from_le(b: Seq<u8>) -> i32
    recommends
        b.len() == 4,
{
    vstd::bytes::spec_u32_from_le_bytes(b) as i32
}

/// The byte encoding of a message: a one-byte tag, then the payload.
pub open spec fn spec_encode(m: Message) -> Seq<u8> {
    match m {
        Message::Search(l, ml) => seq![0u8] + spec_i32_le(l) + spec_i32_le(ml),
        Message::Ack => seq![1u8],
        Message::Reject => seq![2u8],
        Message::NewPhase(l) => seq![3u8] + spec_i32_le(l),
        Message::PhaseComplete(b) => seq![4u8, if b { 1u8 } else { 0u8 }],
        Message::Terminate => seq![5u8],
        Message::Connect(id) => seq![6u8] + spec_i32_le(id),
    }
}

/// The message a byte string encodes, or `None` when it encodes none:
/// the tag must be known, and the length and payload must fit it
/// exactly.
pub open spec fn spec_decode(b: Seq<u8>) -> Option<Message> {
    if b.len() == 0 {
        None
    } else if b[0] == 0u8 && b.len() == 9 {
        Some(
            Message::Search(
                spec_i32_from_le(b.subrange(1, 5)),
                spec_i32_from_le(b.subrange(5, 9)),
            ),
        )
    } else if b[0] == 1u8 && b.len() == 1 {
        Some(Message::Ack)
    } else if b[0] == 2u8 && b.len() == 1 {
        Some(Message::Reject)
    } else if b[0] == 3u8 && b.len() == 5 {
        Some(Message::NewPhase(spec_i32_from_le(b.subrange(1, 5))))
    } else if b[0] == 4u8 && b.len() == 2 && (b[1] == 0u8 || b[1] == 1u8) {
        Some(Message::PhaseComplete(b[1] == 1u8))
    } else if b[0] == 5u8 && b.len() == 1 {
        Some(Message::Terminate)
    } else if b[0] == 6u8 && b.len() == 5 {
        Some(Message::Connect(spec_i32_from_le(b.subrange(1, 5))))
    } else {
        None
    }
}

/// A complete frame: the encoding's length as four little-endian bytes,
/// then the encoding.
pub open spec fn spec_frame(m: Message) -> Seq<u8> {
    vstd::bytes::spec_u32_to_le_bytes(spec_encode(m).len() as u32) + spec_encode(m)
}

fn i32_to_le_bytes(x: i32) -> (r: Vec<u8>)
    ensures
        r@ == spec_i32_le(x),
        r@.len() == 4,
{
    let u: u32 = #[verifier::truncate] (x as u32);
    vstd::bytes::u32_to_le_bytes(u)
}

fn i32_from_le_bytes(s: &[u8]) -> (x: i32)
    requires
        s@.len() == 4,
    ensures
        x == spec_i32_from_le(s@),
{
    let u = vstd::bytes::u32_from_le_bytes(s);
    #[verifier::truncate] (u as i32)
}

/// Encode a message to its wire bytes.
pub fn encode_message(m: Message) -> (r: Vec<u8>)
    ensures
        r@ == spec_encode(m),
        1 <= r@.len() <= 9,
{
    let mut v: Vec<u8> = Vec::new();
    match m {
        Message::Search(l, ml) => {
            v.push(0u8);
            let mut a = i32_to_le_bytes(l);
            v.append(&mut a);
            let mut b = i32_to_le_bytes(ml);
            v.append(&mut b);
        },
        Message::Ack => {
            v.push(1u8);
        },
        Message::Reject => {
            v.push(2u8);
        },
        Message::NewPhase(l) => {
            v.push(3u8);
            let mut a = i32_to_le_bytes(l);
            v.append(&mut a);
        },
        Message::PhaseComplete(b) => {
            v.push(4u8);
            v.push(if b { 1u8 } else { 0u8 });
        },
        Message::Terminate => {
            v.push(5u8);
        },
        Message::Connect(id) => {
            v.push(6u8);
            let mut a = i32_to_le_bytes(id);
            v.append(&mut a);
        },
    }
    proof {
        assert(v@ =~= spec_encode(m));
    }
    v
}

/// Decode wire bytes back to a message; `None` means the bytes encode
/// no message (a corrupt or truncated frame).
pub fn decode_message(bytes: &Vec<u8>) -> (r: Option<Message>)
    ensures
        r == spec_decode(bytes@),
{
    if bytes.len() == 0 {
        return None;
    }
    let tag = bytes[0];
    if tag == 0u8 && bytes.len() == 9 {
        let l = i32_from_le_bytes(vstd::slice::slice_subrange(bytes.as_slice(), 1, 5));
        let ml = i32_from_le_bytes(vstd::slice::slice_subrange(bytes.as_slice(), 5, 9));
        Some(Message::Search(l, ml))
    } else if tag == 1u8 && bytes.len() == 1 {
        Some(Message::Ack)
    } else if tag == 2u8 && bytes.len() == 1 {
        Some(Message::Reject)
    } else if tag == 3u8 && bytes.len() == 5 {
        let l = i32_from_le_bytes(vstd::slice::slice_subrange(bytes.as_slice(), 1, 5));
        Some(Message::NewPhase(l))
    } else if tag == 4u8 && bytes.len() == 2 && (bytes[1] == 0u8 || bytes[1] == 1u8) {
        Some(Message::PhaseComplete(bytes[1] == 1u8))
    } else if tag == 5u8 && bytes.len() == 1 {
        Some(Message::Terminate)
    } else if tag == 6u8 && bytes.len() == 5 {
        let id = i32_from_le_bytes(vstd::slice::slice_subrange(bytes.as_slice(), 1, 5));
        Some(Message::Connect(id))
    } else {
        None
    }
}

/// Build the complete frame for a message: four little-endian length
/// bytes, then the encoding.  The receiving side reads exactly four
/// bytes, then exactly that many more, and hands the payload to
/// `decode_message`.
pub fn frame_message(m: Message) -> (r: Vec<u8>)
    ensures
        r@ == spec_frame(m),
        r@.len() == spec_encode(m).len() + 4,
{
    let mut payload = encode_message(m);
    let len: u32 = payload.len() as u32;
    let mut v = vstd::bytes::u32_to_le_bytes(len);
    v.append(&mut payload);
    proof {
        assert(len == spec_encode(m).len() as u32);
        assert(v@ =~= spec_frame(m));
    }
    v
}

/// Read the frame length announced by the four little-endian bytes that
/// open a frame.
pub fn frame_len(header: &[u8]) -> (r: u32)
    requires
        header@.len() == 4,
    ensures
        r == vstd::bytes::spec_u32_from_le_bytes(header@),
{
    vstd::bytes::u32_from_le_bytes(header)
}

proof fn lemma_i32_u32_round(x: i32)
    ensures
        ((x as u32) as i32) == x,
{
    assert(((x as u32) as i32) == x) by (bit_vector);
}

/// The codec round-trip law: decoding the encoding of any message, of
/// any variant and payload, yields exactly that message back.
pub proof fn lemma_codec_round_trip(m: Message)
    ensures
        spec_decode(spec_encode(m)) == Some(m),
{
    vstd::bytes::lemma_auto_spec_u32_to_from_le_bytes();
    let b = spec_encode(m);
    match m {
        Message::Search(l, ml) => {
            assert(b.subrange(1, 5) =~= spec_i32_le(l));
            assert(b.subrange(5, 9) =~= spec_i32_le(ml));
            lemma_i32_u32_round(l);
            lemma_i32_u32_round(ml);
        },
        Message::NewPhase(l) => {
            assert(b.subrange(1, 5) =~= spec_i32_le(l));
            lemma_i32_u32_round(l);
        },
        Message::Connect(id) => {
            assert(b.subrange(1, 5) =~= spec_i32_le(id));
            lemma_i32_u32_round(id);
        },
        _ => {},
    }
}

} // verus!
