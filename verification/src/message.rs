//! Peer wire codec.
//!
//! Peer messages travel in frames: a big-endian four-byte length prefix,
//! then one id byte and the payload (a zero length means keep-alive). The
//! 68-byte handshake opens every connection. Encoding and decoding are
//! exact inverses; [`spec_frame_ok`] describes precisely the frames the
//! decoder accepts.

use vstd::prelude::*;

verus! {

/// A peer-protocol message.
#[derive(Debug, PartialEq, Eq, Clone)]
pub enum Message {
    KeepAlive,
    Choke,
    Unchoke,
    Interested,
    NotInterested,
    Have(u32),
    Bitfield(Vec<u8>),
    Request { index: u32, begin: u32, length: u32 },
    Piece { index: u32, begin: u32, block: Vec<u8> },
    Cancel { index: u32, begin: u32, length: u32 },
    Port(u16),
}

/// Byte `k` (0 is most significant) of `x` in big-endian order.
pub open spec fn be_byte(x: u32, k: int) -> u8 {
    if k == 0 {
        ((x >> 24u32) & 0xff) as u8
    } else if k == 1 {
        ((x >> 16u32) & 0xff) as u8
    } else if k == 2 {
        ((x >> 8u32) & 0xff) as u8
    } else {
        (x & 0xff) as u8
    }
}

/// The four bytes of `x`, most significant first.
pub open spec fn spec_u32_be(x: u32) -> Seq<u8> {
    seq![be_byte(x, 0), be_byte(x, 1), be_byte(x, 2), be_byte(x, 3)]
}

/// The value read from four bytes, most significant first.
pub open spec fn spec_u32_of_bytes(b0: u8, b1: u8, b2: u8, b3: u8) -> u32 {
    ((b0 as u32) << 24u32) | ((b1 as u32) << 16u32) | ((b2 as u32) << 8u32) | (b3 as u32)
}

/// The two bytes of `x`, most significant first.
pub open spec fn spec_u16_be(x: u16) -> Seq<u8> {
    seq![((x >> 8u16) & 0xff) as u8, (x & 0xff) as u8]
}

/// The value read from two bytes, most significant first.
pub open spec fn spec_u16_of_bytes(b0: u8, b1: u8) -> u16 {
    ((b0 as u16) << 8u16) | (b1 as u16)
}

/// Reading back the four bytes of `x` yields `x`.
pub proof fn lemma_u32_round_trip(x: u32)
    ensures
        spec_u32_of_bytes(be_byte(x, 0), be_byte(x, 1), be_byte(x, 2), be_byte(x, 3)) == x,
{
    assert((((((x >> 24u32) & 0xff) as u8) as u32) << 24u32) | (((((x >> 16u32) & 0xff) as u8)
        as u32) << 16u32) | (((((x >> 8u32) & 0xff) as u8) as u32) << 8u32) | (((x & 0xff) as u8)
        as u32) == x) by (bit_vector);
}

/// The four bytes of the value read from four bytes are those bytes.
pub proof fn lemma_u32_bytes_round_trip(b0: u8, b1: u8, b2: u8, b3: u8)
    ensures
        spec_u32_be(spec_u32_of_bytes(b0, b1, b2, b3)) == seq![b0, b1, b2, b3],
{
    let x = spec_u32_of_bytes(b0, b1, b2, b3);
    assert((((((b0 as u32) << 24u32) | ((b1 as u32) << 16u32) | ((b2 as u32) << 8u32) | (b3
        as u32)) >> 24u32) & 0xff) as u8 == b0) by (bit_vector);
    assert((((((b0 as u32) << 24u32) | ((b1 as u32) << 16u32) | ((b2 as u32) << 8u32) | (b3
        as u32)) >> 16u32) & 0xff) as u8 == b1) by (bit_vector);
    assert((((((b0 as u32) << 24u32) | ((b1 as u32) << 16u32) | ((b2 as u32) << 8u32) | (b3
        as u32)) >> 8u32) & 0xff) as u8 == b2) by (bit_vector);
    assert(((((b0 as u32) << 24u32) | ((b1 as u32) << 16u32) | ((b2 as u32) << 8u32) | (b3 as u32))
        & 0xff) as u8 == b3) by (bit_vector);
    assert(spec_u32_be(x) =~= seq![b0, b1, b2, b3]);
}

/// The two bytes of the value read from two bytes are those bytes.
pub proof fn lemma_u16_bytes_round_trip(b0: u8, b1: u8)
    ensures
        spec_u16_be(spec_u16_of_bytes(b0, b1)) == seq![b0, b1],
{
    assert(((((b0 as u16) << 8u16) | (b1 as u16)) >> 8u16) & 0xff == b0 as u16) by (bit_vector);
    assert((((b0 as u16) << 8u16) | (b1 as u16)) & 0xff == b1 as u16) by (bit_vector);
    assert(spec_u16_be(spec_u16_of_bytes(b0, b1)) =~= seq![b0, b1]);
}

/// Appends the four big-endian bytes of `x`.
pub fn push_u32_be(out: &mut Vec<u8>, x: u32)
    requires
        old(out)@.len() + 4 <= usize::MAX,
    ensures
        final(out)@ == old(out)@ + spec_u32_be(x),
{
    out.push(((x >> 24u32) & 0xff) as u8);
    out.push(((x >> 16u32) & 0xff) as u8);
    out.push(((x >> 8u32) & 0xff) as u8);
    out.push((x & 0xff) as u8);
    proof {
        assert(final(out)@ =~= old(out)@ + spec_u32_be(x));
    }
}

/// Reads a big-endian `u32` at `at`.
pub fn read_u32_be(buf: &[u8], at: usize) -> (x: u32)
    requires
        at + 4 <= buf@.len(),
    ensures
        x == spec_u32_of_bytes(buf@[at as int], buf@[at + 1], buf@[at + 2], buf@[at + 3]),
{
    ((buf[at] as u32) << 24u32) | ((buf[at + 1] as u32) << 16u32) | ((buf[at + 2] as u32) << 8u32)
        | (buf[at + 3] as u32)
}

/// The id byte and payload of a message, without the length prefix.
pub open spec fn spec_payload(m: Message) -> Seq<u8> {
    match m {
        Message::KeepAlive => Seq::empty(),
        Message::Choke => seq![0u8],
        Message::Unchoke => seq![1u8],
        Message::Interested => seq![2u8],
        Message::NotInterested => seq![3u8],
        Message::Have(index) => seq![4u8] + spec_u32_be(index),
        Message::Bitfield(bits) => seq![5u8] + bits@,
        Message::Request { index, begin, length } => seq![6u8] + spec_u32_be(index) + spec_u32_be(
            begin,
        ) + spec_u32_be(length),
        Message::Piece { index, begin, block } => seq![7u8] + spec_u32_be(index) + spec_u32_be(
            begin,
        ) + block@,
        Message::Cancel { index, begin, length } => seq![8u8] + spec_u32_be(index) + spec_u32_be(
            begin,
        ) + spec_u32_be(length),
        Message::Port(port) => seq![9u8] + spec_u16_be(port),
    }
}

/// The full frame of a message: length prefix, id byte, payload.
pub open spec fn spec_encode(m: Message) -> Seq<u8> {
    spec_u32_be(spec_payload(m).len() as u32) + spec_payload(m)
}

impl Message {
    /// The message's payload fits a frame's 32-bit length prefix.
    pub open spec fn wf(&self) -> bool {
        match self {
            Message::Bitfield(bits) => bits@.len() + 1 <= u32::MAX,
            Message::Piece { block, .. } => block@.len() + 9 <= u32::MAX,
            _ => true,
        }
    }

    /// Encodes the message as one frame.
    pub fn encode(&self) -> (r: Vec<u8>)
        requires
            self.wf(),
        ensures
            r@ == spec_encode(*self),
    {
        let mut payload: Vec<u8> = Vec::new();
        match self {
            Message::KeepAlive => {},
            Message::Choke => payload.push(0),
            Message::Unchoke => payload.push(1),
            Message::Interested => payload.push(2),
            Message::NotInterested => payload.push(3),
            Message::Have(index) => {
                payload.push(4);
                push_u32_be(&mut payload, *index);
            },
            Message::Bitfield(bits) => {
                payload.push(5);
                payload.extend_from_slice(bits.as_slice());
            },
            Message::Request { index, begin, length } => {
                payload.push(6);
                push_u32_be(&mut payload, *index);
                push_u32_be(&mut payload, *begin);
                push_u32_be(&mut payload, *length);
            },
            Message::Piece { index, begin, block } => {
                payload.push(7);
                push_u32_be(&mut payload, *index);
                push_u32_be(&mut payload, *begin);
                payload.extend_from_slice(block.as_slice());
            },
            Message::Cancel { index, begin, length } => {
                payload.push(8);
                push_u32_be(&mut payload, *index);
                push_u32_be(&mut payload, *begin);
                push_u32_be(&mut payload, *length);
            },
            Message::Port(port) => {
                payload.push(9);
                payload.push(((*port >> 8u16) & 0xff) as u8);
                payload.push((*port & 0xff) as u8);
            },
        }
        proof {
            assert(payload@ =~= spec_payload(*self));
        }
        let mut out: Vec<u8> = Vec::new();
        push_u32_be(&mut out, payload.len() as u32);
        let mut rest = payload;
        out.append(&mut rest);
        proof {
            assert(out@ =~= spec_encode(*self));
        }
        out
    }
}

/// Exactly the frames that decode to a message: a correct length prefix
/// and one of the known shapes.
pub open spec fn spec_frame_ok(frame: Seq<u8>) -> bool {
    &&& frame.len() >= 4
    &&& frame.len() == 4 + spec_u32_of_bytes(frame[0], frame[1], frame[2], frame[3]) as int
    &&& {
        let n = frame.len() - 4;
        ||| n == 0
        ||| (n == 1 && frame[4] <= 3)
        ||| (n == 5 && frame[4] == 4)
        ||| (n >= 1 && frame[4] == 5)
        ||| (n == 13 && (frame[4] == 6 || frame[4] == 8))
        ||| (n >= 9 && frame[4] == 7)
        ||| (n == 3 && frame[4] == 9)
    }
}

/// Every well-formed message encodes to a frame the decoder accepts.
pub proof fn lemma_encode_frame_ok(m: Message)
    requires
        m.wf(),
    ensures
        spec_frame_ok(spec_encode(m)),
{
    let frame = spec_encode(m);
    let p = spec_payload(m);
    let n32 = p.len() as u32;
    lemma_u32_round_trip(n32);
    assert(frame[0] == be_byte(n32, 0));
    assert(frame[1] == be_byte(n32, 1));
    assert(frame[2] == be_byte(n32, 2));
    assert(frame[3] == be_byte(n32, 3));
    if p.len() > 0 {
        assert(frame[4] == p[0]);
    }
}

/// Decodes one frame. Returns the message a well-formed frame carries;
/// a frame of any other shape (wrong length prefix, unknown id, wrong
/// payload size) decodes to nothing.
pub fn decode_message(frame: &[u8]) -> (r: Option<Message>)
    ensures
        match r {
            Some(m) => m.wf() && frame@ == spec_encode(m),
            None => !spec_frame_ok(frame@),
        },
{
    if frame.len() < 4 {
        return None;
    }
    let n32 = read_u32_be(frame, 0);
    proof {
        lemma_u32_bytes_round_trip(frame@[0], frame@[1], frame@[2], frame@[3]);
    }
    if frame.len() - 4 != n32 as usize || (frame.len() - 4) as u64 != n32 as u64 {
        proof {
            assert(!spec_frame_ok(frame@));
        }
        return None;
    }
    let n = frame.len() - 4;
    if n == 0 {
        proof {
            assert(frame@ =~= spec_encode(Message::KeepAlive));
        }
        return Some(Message::KeepAlive);
    }
    let id = frame[4];
    let r = if id == 0 && n == 1 {
        Some(Message::Choke)
    } else if id == 1 && n == 1 {
        Some(Message::Unchoke)
    } else if id == 2 && n == 1 {
        Some(Message::Interested)
    } else if id == 3 && n == 1 {
        Some(Message::NotInterested)
    } else if id == 4 && n == 5 {
        Some(Message::Have(read_u32_be(frame, 5)))
    } else if id == 5 {
        let bits = vstd::slice::slice_to_vec(
            vstd::slice::slice_subrange(frame, 5, frame.len()),
        );
        Some(Message::Bitfield(bits))
    } else if (id == 6 || id == 8) && n == 13 {
        let index = read_u32_be(frame, 5);
        let begin = read_u32_be(frame, 9);
        let length = read_u32_be(frame, 13);
        if id == 6 {
            Some(Message::Request { index, begin, length })
        } else {
            Some(Message::Cancel { index, begin, length })
        }
    } else if id == 7 && n >= 9 {
        let index = read_u32_be(frame, 5);
        let begin = read_u32_be(frame, 9);
        let block = vstd::slice::slice_to_vec(
            vstd::slice::slice_subrange(frame, 13, frame.len()),
        );
        Some(Message::Piece { index, begin, block })
    } else if id == 9 && n == 3 {
        let port = ((frame[5] as u16) << 8u16) | (frame[6] as u16);
        Some(Message::Port(port))
    } else {
        None
    };
    proof {
        match r {
            Some(ref m) => {
                match m {
                    Message::Have(_) => {
                        lemma_u32_bytes_round_trip(frame@[5], frame@[6], frame@[7], frame@[8]);
                    },
                    Message::Request { .. } => {
                        lemma_u32_bytes_round_trip(frame@[5], frame@[6], frame@[7], frame@[8]);
                        lemma_u32_bytes_round_trip(frame@[9], frame@[10], frame@[11], frame@[12]);
                        lemma_u32_bytes_round_trip(frame@[13], frame@[14], frame@[15], frame@[16]);
                    },
                    Message::Cancel { .. } => {
                        lemma_u32_bytes_round_trip(frame@[5], frame@[6], frame@[7], frame@[8]);
                        lemma_u32_bytes_round_trip(frame@[9], frame@[10], frame@[11], frame@[12]);
                        lemma_u32_bytes_round_trip(frame@[13], frame@[14], frame@[15], frame@[16]);
                    },
                    Message::Piece { .. } => {
                        lemma_u32_bytes_round_trip(frame@[5], frame@[6], frame@[7], frame@[8]);
                        lemma_u32_bytes_round_trip(frame@[9], frame@[10], frame@[11], frame@[12]);
                    },
                    Message::Port(_) => {
                        lemma_u16_bytes_round_trip(frame@[5], frame@[6]);
                    },
                    _ => {},
                }
                assert(frame@ =~= spec_encode(*m));
            },
            None => {
                assert(!spec_frame_ok(frame@));
            },
        }
    }
    r
}

/// Two well-formed messages that encode to the same frame are the same
/// message, with equal views in every field.
pub proof fn lemma_encode_injective(m1: Message, m2: Message)
    requires
        m1.wf(),
        m2.wf(),
        spec_encode(m1) == spec_encode(m2),
    ensures
        spec_payload(m1) == spec_payload(m2),
        message_like(m1, m2),
{
    let p1 = spec_payload(m1);
    let p2 = spec_payload(m2);
    assert(p1 =~= spec_encode(m1).subrange(4, spec_encode(m1).len() as int));
    assert(p2 =~= spec_encode(m2).subrange(4, spec_encode(m2).len() as int));
    assert(p1 == p2);
    if p1.len() > 0 {
        assert(p1[0] == p2[0]);
    }
    match (m1, m2) {
        (Message::Have(i1), Message::Have(i2)) => {
            lemma_u32_bytes_round_trip(p1[1], p1[2], p1[3], p1[4]);
            assert(spec_u32_be(i1) =~= p1.subrange(1, 5));
            assert(spec_u32_be(i2) =~= p2.subrange(1, 5));
            lemma_u32_be_injective(i1, i2);
        },
        (Message::Bitfield(b1), Message::Bitfield(b2)) => {
            assert(b1@ =~= p1.subrange(1, p1.len() as int));
            assert(b2@ =~= p2.subrange(1, p2.len() as int));
        },
        (Message::Request { index: i1, begin: g1, length: l1 }, Message::Request {
            index: i2,
            begin: g2,
            length: l2,
        }) => {
            assert(p1.subrange(1, 5) =~= spec_u32_be(i1));
            assert(p1.subrange(5, 9) =~= spec_u32_be(g1));
            assert(p1.subrange(9, 13) =~= spec_u32_be(l1));
            assert(p2.subrange(1, 5) =~= spec_u32_be(i2));
            assert(p2.subrange(5, 9) =~= spec_u32_be(g2));
            assert(p2.subrange(9, 13) =~= spec_u32_be(l2));
            lemma_fields_13(p1, p2, i1, g1, l1, i2, g2, l2);
        },
        (Message::Cancel { index: i1, begin: g1, length: l1 }, Message::Cancel {
            index: i2,
            begin: g2,
            length: l2,
        }) => {
            assert(p1.subrange(1, 5) =~= spec_u32_be(i1));
            assert(p1.subrange(5, 9) =~= spec_u32_be(g1));
            assert(p1.subrange(9, 13) =~= spec_u32_be(l1));
            assert(p2.subrange(1, 5) =~= spec_u32_be(i2));
            assert(p2.subrange(5, 9) =~= spec_u32_be(g2));
            assert(p2.subrange(9, 13) =~= spec_u32_be(l2));
            lemma_fields_13(p1, p2, i1, g1, l1, i2, g2, l2);
        },
        (Message::Piece { index: i1, begin: g1, block: b1 }, Message::Piece {
            index: i2,
            begin: g2,
            block: b2,
        }) => {
            assert(spec_u32_be(i1) =~= p1.subrange(1, 5));
            assert(spec_u32_be(i2) =~= p2.subrange(1, 5));
            assert(spec_u32_be(g1) =~= p1.subrange(5, 9));
            assert(spec_u32_be(g2) =~= p2.subrange(5, 9));
            lemma_u32_be_injective(i1, i2);
            lemma_u32_be_injective(g1, g2);
            assert(b1@ =~= p1.subrange(9, p1.len() as int));
            assert(b2@ =~= p2.subrange(9, p2.len() as int));
        },
        (Message::Port(t1), Message::Port(t2)) => {
            assert(spec_u16_be(t1) =~= p1.subrange(1, 3));
            assert(spec_u16_be(t2) =~= p2.subrange(1, 3));
            assert(spec_u16_be(t1) == spec_u16_be(t2));
            assert(t1 == t2) by {
                let s = spec_u16_be(t1);
                assert(((t1 >> 8u16) & 0xff) as u8 == ((t2 >> 8u16) & 0xff) as u8 && (t1 & 0xff)
                    as u8 == (t2 & 0xff) as u8 ==> t1 == t2) by (bit_vector);
            }
        },
        _ => {},
    }
}

/// The same variant with equal scalar fields and equal views of byte
/// fields.
pub open spec fn message_like(m1: Message, m2: Message) -> bool {
    match (m1, m2) {
        (Message::KeepAlive, Message::KeepAlive) => true,
        (Message::Choke, Message::Choke) => true,
        (Message::Unchoke, Message::Unchoke) => true,
        (Message::Interested, Message::Interested) => true,
        (Message::NotInterested, Message::NotInterested) => true,
        (Message::Have(i1), Message::Have(i2)) => i1 == i2,
        (Message::Bitfield(b1), Message::Bitfield(b2)) => b1@ == b2@,
        (Message::Request { index: i1, begin: g1, length: l1 }, Message::Request {
            index: i2,
            begin: g2,
            length: l2,
        }) => i1 == i2 && g1 == g2 && l1 == l2,
        (Message::Piece { index: i1, begin: g1, block: b1 }, Message::Piece {
            index: i2,
            begin: g2,
            block: b2,
        }) => i1 == i2 && g1 == g2 && b1@ == b2@,
        (Message::Cancel { index: i1, begin: g1, length: l1 }, Message::Cancel {
            index: i2,
            begin: g2,
            length: l2,
        }) => i1 == i2 && g1 == g2 && l1 == l2,
        (Message::Port(t1), Message::Port(t2)) => t1 == t2,
        _ => false,
    }
}

/// The mask of bit `i` inside its byte: bit 0 is the most significant.
pub open spec fn spec_mask(i: int) -> u8 {
    128u8 >> ((i % 8) as u8)
}

/// Is bit `i` of the bitfield set? Bits run MSB-first inside each byte; a
/// bit beyond the bitfield's end is not set.
pub open spec fn spec_bit(data: Seq<u8>, i: int) -> bool {
    &&& 0 <= i
    &&& i / 8 < data.len()
    &&& data[i / 8] & spec_mask(i) == spec_mask(i)
}

/// Byte index and bit mask of bit `index` in a bitfield.
#[inline]
pub fn index_in_bitarray(index: usize) -> (r: (usize, u8))
    ensures
        r.0 == index as int / 8,
        r.1 == spec_mask(index as int),
{
    (index / 8, 128 >> ((index % 8) as u8))
}

/// Looks bit `index` up in a bitfield: its byte index and mask when the
/// bit is set, nothing when it is clear or beyond the end.
#[inline]
pub fn bit_by_index(index: usize, data: &[u8]) -> (r: Option<(usize, u8)>)
    ensures
        match r {
            Some(found) => spec_bit(data@, index as int) && found.0 == index as int / 8 && found.1
                == spec_mask(index as int),
            None => !spec_bit(data@, index as int),
        },
{
    let (index_byte, index_bit) = index_in_bitarray(index);
    if index_byte < data.len() {
        let v = data[index_byte];
        if v & index_bit == index_bit {
            Some((index_byte, index_bit))
        } else {
            None
        }
    } else {
        None
    }
}

/// Sets bit `index` of the bitfield; every other bit keeps its value.
pub fn set_bit(data: &mut Vec<u8>, index: usize)
    requires
        index as int / 8 < old(data)@.len(),
    ensures
        final(data)@.len() == old(data)@.len(),
        spec_bit(final(data)@, index as int),
        forall|j: int|
            0 <= j && j != index as int ==> spec_bit(final(data)@, j) == spec_bit(old(data)@, j),
{
    let (index_byte, index_bit) = index_in_bitarray(index);
    let updated = data[index_byte] | index_bit;
    data.as_mut_slice()[index_byte] = updated;
    proof {
        let i = index as int;
        let ki = (i % 8) as u8;
        let b0 = old(data)@[i / 8];
        lemma_or_mask_sets(b0, ki);
        assert(ki < 8);
        assert forall|j: int| 0 <= j && j != i implies spec_bit(data@, j) == spec_bit(
            old(data)@,
            j,
        ) by {
            if j / 8 < data@.len() {
                if j / 8 == i / 8 {
                    let kj = (j % 8) as u8;
                    assert(j % 8 != i % 8) by {
                        vstd::arithmetic::div_mod::lemma_fundamental_div_mod(j, 8);
                        vstd::arithmetic::div_mod::lemma_fundamental_div_mod(i, 8);
                    }
                    lemma_or_mask_preserves(b0, ki, kj);
                }
            }
        }
    }
}

proof fn lemma_or_mask_sets(b: u8, ki: u8)
    ensures
        (b | (128u8 >> ki)) & (128u8 >> ki) == (128u8 >> ki),
{
    assert((b | (128u8 >> ki)) & (128u8 >> ki) == (128u8 >> ki)) by (bit_vector);
}

proof fn lemma_or_mask_preserves(b: u8, ki: u8, kj: u8)
    requires
        ki < 8,
        kj < 8,
        ki != kj,
    ensures
        ((b | (128u8 >> ki)) & (128u8 >> kj) == (128u8 >> kj)) == (b & (128u8 >> kj) == (128u8
            >> kj)),
{
    assert(((b | (128u8 >> ki)) & (128u8 >> kj) == (128u8 >> kj)) == (b & (128u8 >> kj) == (128u8
        >> kj))) by (bit_vector)
        requires
            ki < 8,
            kj < 8,
            ki != kj,
    ;
}

/// Length in bytes of the handshake that opens a peer connection.
pub const HANDSHAKE_SIZE: usize = 68;

/// Byte `i` of the protocol name `BitTorrent protocol`.
pub open spec fn spec_pstr_byte(i: int) -> u8 {
    if i == 0 {
        66
    } else if i == 1 {
        105
    } else if i == 2 {
        116
    } else if i == 3 {
        84
    } else if i == 4 {
        111
    } else if i == 5 {
        114
    } else if i == 6 {
        114
    } else if i == 7 {
        101
    } else if i == 8 {
        110
    } else if i == 9 {
        116
    } else if i == 10 {
        32
    } else if i == 11 {
        112
    } else if i == 12 {
        114
    } else if i == 13 {
        111
    } else if i == 14 {
        116
    } else if i == 15 {
        111
    } else if i == 16 {
        99
    } else if i == 17 {
        111
    } else {
        108
    }
}

/// The 19 bytes of the protocol name.
pub open spec fn spec_pstr() -> Seq<u8> {
    Seq::new(19, |i: int| spec_pstr_byte(i))
}

/// Byte `i` of the protocol name.
fn pstr_byte(i: usize) -> (b: u8)
    requires
        i < 19,
    ensures
        b == spec_pstr_byte(i as int),
{
    if i == 0 {
        66
    } else if i == 1 {
        105
    } else if i == 2 {
        116
    } else if i == 3 {
        84
    } else if i == 4 {
        111
    } else if i == 5 {
        114
    } else if i == 6 {
        114
    } else if i == 7 {
        101
    } else if i == 8 {
        110
    } else if i == 9 {
        116
    } else if i == 10 {
        32
    } else if i == 11 {
        112
    } else if i == 12 {
        114
    } else if i == 13 {
        111
    } else if i == 14 {
        116
    } else if i == 15 {
        111
    } else if i == 16 {
        99
    } else if i == 17 {
        111
    } else {
        108
    }
}

/// The 68 bytes that open a peer connection for `info_hash` and
/// `peer_id`: a length byte, the protocol name, 8 reserved zero bytes and
/// the two 20-byte ids.
pub open spec fn spec_handshake(info_hash: Seq<u8>, peer_id: Seq<u8>) -> Seq<u8> {
    seq![19u8] + spec_pstr() + seq![0u8, 0u8, 0u8, 0u8, 0u8, 0u8, 0u8, 0u8] + info_hash + peer_id
}

/// Does the buffer begin like a handshake: the length byte and the
/// protocol name? The reserved bytes may hold anything.
pub open spec fn spec_handshake_prefix_ok(bytes: Seq<u8>) -> bool {
    &&& bytes.len() == HANDSHAKE_SIZE
    &&& bytes[0] == 19u8
    &&& bytes.subrange(1, 20) == spec_pstr()
}

/// The ids a peer presented in its handshake.
#[derive(Debug, PartialEq, Eq, Clone)]
pub struct Handshake {
    pub info_hash: Vec<u8>,
    pub peer_id: Vec<u8>,
}

impl Handshake {
    /// Both ids are 20 bytes long.
    pub open spec fn wf(&self) -> bool {
        self.info_hash@.len() == crate::SHA1_SIZE && self.peer_id@.len() == crate::SHA1_SIZE
    }
}

/// Builds the 68-byte handshake for `info_hash` and `peer_id`.
pub fn build_handshake(info_hash: &Vec<u8>, peer_id: &Vec<u8>) -> (r: Vec<u8>)
    requires
        info_hash@.len() == crate::SHA1_SIZE,
        peer_id@.len() == crate::SHA1_SIZE,
    ensures
        r@ == spec_handshake(info_hash@, peer_id@),
        r@.len() == HANDSHAKE_SIZE,
{
    let mut out: Vec<u8> = Vec::new();
    out.push(19);
    proof {
        assert(out@ =~= seq![19u8] + spec_pstr().take(0));
    }
    let mut i: usize = 0;
    while i < 19
        invariant
            i <= 19,
            out@ == seq![19u8] + spec_pstr().take(i as int),
        decreases 19 - i,
    {
        out.push(pstr_byte(i));
        i = i + 1;
        proof {
            assert(out@ =~= seq![19u8] + spec_pstr().take(i as int));
        }
    }
    proof {
        assert(spec_pstr().take(19) =~= spec_pstr());
    }
    let mut k: usize = 0;
    while k < 8
        invariant
            k <= 8,
            out@ == seq![19u8] + spec_pstr() + Seq::new(k as nat, |j: int| 0u8),
        decreases 8 - k,
    {
        out.push(0);
        k = k + 1;
        proof {
            assert(out@ =~= seq![19u8] + spec_pstr() + Seq::new(k as nat, |j: int| 0u8));
        }
    }
    out.extend_from_slice(info_hash.as_slice());
    out.extend_from_slice(peer_id.as_slice());
    proof {
        assert(Seq::new(8nat, |j: int| 0u8) =~= seq![0u8, 0u8, 0u8, 0u8, 0u8, 0u8, 0u8, 0u8]);
        assert(out@ =~= spec_handshake(info_hash@, peer_id@));
    }
    out
}

/// Parses a 68-byte handshake: the ids it carries when the prefix is the
/// protocol's, nothing otherwise.
pub fn parse_handshake(bytes: &[u8]) -> (r: Option<Handshake>)
    ensures
        match r {
            Some(hs) => spec_handshake_prefix_ok(bytes@) && hs.wf() && hs.info_hash@ == bytes
                @.subrange(28, 48) && hs.peer_id@ == bytes@.subrange(48, 68),
            None => !spec_handshake_prefix_ok(bytes@),
        },
{
    if bytes.len() != HANDSHAKE_SIZE {
        return None;
    }
    if bytes[0] != 19 {
        return None;
    }
    let mut i: usize = 0;
    while i < 19
        invariant
            bytes@.len() == HANDSHAKE_SIZE,
            i <= 19,
            forall|k: int| 0 <= k < i ==> bytes@[1 + k] == #[trigger] spec_pstr_byte(k),
        decreases 19 - i,
    {
        if bytes[1 + i] != pstr_byte(i) {
            proof {
                assert(bytes@.subrange(1, 20)[i as int] != spec_pstr()[i as int]);
            }
            return None;
        }
        i = i + 1;
    }
    let info_hash = vstd::slice::slice_to_vec(vstd::slice::slice_subrange(bytes, 28, 48));
    let peer_id = vstd::slice::slice_to_vec(vstd::slice::slice_subrange(bytes, 48, 68));
    proof {
        assert(bytes@.subrange(1, 20) =~= spec_pstr());
    }
    Some(Handshake { info_hash, peer_id })
}

/// Two equal big-endian byte strings come from the same value.
proof fn lemma_u32_be_injective(x1: u32, x2: u32)
    requires
        spec_u32_be(x1) == spec_u32_be(x2),
    ensures
        x1 == x2,
{
    lemma_u32_round_trip(x1);
    lemma_u32_round_trip(x2);
    assert(spec_u32_be(x1)[0] == spec_u32_be(x2)[0]);
    assert(spec_u32_be(x1)[1] == spec_u32_be(x2)[1]);
    assert(spec_u32_be(x1)[2] == spec_u32_be(x2)[2]);
    assert(spec_u32_be(x1)[3] == spec_u32_be(x2)[3]);
}

/// The three `u32` fields of a 13-byte payload are determined by it.
proof fn lemma_fields_13(
    p1: Seq<u8>,
    p2: Seq<u8>,
    i1: u32,
    g1: u32,
    l1: u32,
    i2: u32,
    g2: u32,
    l2: u32,
)
    requires
        p1 == p2,
        p1.len() == 13,
        p1.subrange(1, 5) == spec_u32_be(i1),
        p1.subrange(5, 9) == spec_u32_be(g1),
        p1.subrange(9, 13) == spec_u32_be(l1),
        p2.subrange(1, 5) == spec_u32_be(i2),
        p2.subrange(5, 9) == spec_u32_be(g2),
        p2.subrange(9, 13) == spec_u32_be(l2),
    ensures
        i1 == i2 && g1 == g2 && l1 == l2,
{
    lemma_u32_be_injective(i1, i2);
    lemma_u32_be_injective(g1, g2);
    lemma_u32_be_injective(l1, l2);
}

} // verus!
