//! UDP tracker announce protocol.
//!
//! A tracker round is two datagrams: a connect request answered with a
//! connection id, then an announce request answered with a re-announce
//! interval and a list of peers. The packet layouts here are exact; the
//! socket work happens outside and hands the reply bytes back in.

use vstd::prelude::*;

use crate::message::{
    push_u32_be, read_u32_be, spec_u16_of_bytes, spec_u32_be, spec_u32_of_bytes,
};

verus! {

/// The fixed magic value that opens every connect request.
pub const UDP_PROTOCOL_ID: u64 = 0x41727101980;

/// Tracker re-announce interval, in seconds, after a failed round.
pub const DEFAULT_RETRY_INTERVAL: u64 = 5;

/// One peer from an announce reply: four address octets and a port.
#[derive(Debug, PartialEq, Eq, Clone, Copy)]
pub struct Peer {
    pub ip: [u8; 4],
    pub port: u16,
}

/// Byte `k` (0 is most significant) of `x` in big-endian order.
pub open spec fn be64_byte(x: u64, k: int) -> u8 {
    if k == 0 {
        ((x >> 56u64) & 0xff) as u8
    } else if k == 1 {
        ((x >> 48u64) & 0xff) as u8
    } else if k == 2 {
        ((x >> 40u64) & 0xff) as u8
    } else if k == 3 {
        ((x >> 32u64) & 0xff) as u8
    } else if k == 4 {
        ((x >> 24u64) & 0xff) as u8
    } else if k == 5 {
        ((x >> 16u64) & 0xff) as u8
    } else if k == 6 {
        ((x >> 8u64) & 0xff) as u8
    } else {
        (x & 0xff) as u8
    }
}

/// The eight bytes of `x`, most significant first.
pub open spec fn spec_u64_be(x: u64) -> Seq<u8> {
    Seq::new(8, |k: int| be64_byte(x, k))
}

/// The value read from eight bytes, most significant first.
pub open spec fn spec_u64_of_bytes(b: Seq<u8>) -> u64 {
    ((b[0] as u64) << 56u64) | ((b[1] as u64) << 48u64) | ((b[2] as u64) << 40u64) | ((b[3] as u64)
        << 32u64) | ((b[4] as u64) << 24u64) | ((b[5] as u64) << 16u64) | ((b[6] as u64) << 8u64)
        | (b[7] as u64)
}

/// Appends the eight big-endian bytes of `x`.
pub fn push_u64_be(out: &mut Vec<u8>, x: u64)
    requires
        old(out)@.len() + 8 <= usize::MAX,
    ensures
        final(out)@ == old(out)@ + spec_u64_be(x),
{
    out.push(((x >> 56u64) & 0xff) as u8);
    out.push(((x >> 48u64) & 0xff) as u8);
    out.push(((x >> 40u64) & 0xff) as u8);
    out.push(((x >> 32u64) & 0xff) as u8);
    out.push(((x >> 24u64) & 0xff) as u8);
    out.push(((x >> 16u64) & 0xff) as u8);
    out.push(((x >> 8u64) & 0xff) as u8);
    out.push((x & 0xff) as u8);
    proof {
        assert(final(out)@ =~= old(out)@ + spec_u64_be(x));
    }
}

/// Reads a big-endian `u64` at `at`.
pub fn read_u64_be(buf: &[u8], at: usize) -> (x: u64)
    requires
        at + 8 <= buf@.len(),
    ensures
        x == spec_u64_of_bytes(buf@.subrange(at as int, at + 8)),
{
    let x = ((buf[at] as u64) << 56u64) | ((buf[at + 1] as u64) << 48u64) | ((buf[at + 2] as u64)
        << 40u64) | ((buf[at + 3] as u64) << 32u64) | ((buf[at + 4] as u64) << 24u64) | ((buf[at
        + 5] as u64) << 16u64) | ((buf[at + 6] as u64) << 8u64) | (buf[at + 7] as u64);
    proof {
        let b = buf@.subrange(at as int, at + 8);
        assert(b[0] == buf@[at as int]);
        assert(b[1] == buf@[at + 1]);
        assert(b[2] == buf@[at + 2]);
        assert(b[3] == buf@[at + 3]);
        assert(b[4] == buf@[at + 4]);
        assert(b[5] == buf@[at + 5]);
        assert(b[6] == buf@[at + 6]);
        assert(b[7] == buf@[at + 7]);
    }
    x
}

/// The 16-byte connect request for `transaction_id`: the protocol magic,
/// action 0, and the transaction id.
pub open spec fn spec_connect_request(transaction_id: u32) -> Seq<u8> {
    spec_u64_be(UDP_PROTOCOL_ID) + spec_u32_be(0) + spec_u32_be(transaction_id)
}

/// Builds the connect request for `transaction_id`.
pub fn connect_request(transaction_id: u32) -> (r: Vec<u8>)
    ensures
        r@ == spec_connect_request(transaction_id),
        r@.len() == 16,
{
    let mut out: Vec<u8> = Vec::new();
    push_u64_be(&mut out, UDP_PROTOCOL_ID);
    push_u32_be(&mut out, 0);
    push_u32_be(&mut out, transaction_id);
    proof {
        assert(out@ =~= spec_connect_request(transaction_id));
    }
    out
}

/// Is this a connect reply to our request: long enough, action 0, and the
/// same transaction id?
pub open spec fn spec_connect_response_ok(bytes: Seq<u8>, transaction_id: u32) -> bool {
    &&& bytes.len() >= 16
    &&& spec_u32_of_bytes(bytes[0], bytes[1], bytes[2], bytes[3]) == 0
    &&& spec_u32_of_bytes(bytes[4], bytes[5], bytes[6], bytes[7]) == transaction_id
}

/// Parses a connect reply: the connection id it carries when it answers
/// our `transaction_id`, nothing on a short reply or a mismatch.
pub fn parse_connect_response(bytes: &[u8], transaction_id: u32) -> (r: Option<u64>)
    ensures
        match r {
            Some(connection_id) => spec_connect_response_ok(bytes@, transaction_id)
                && connection_id == spec_u64_of_bytes(bytes@.subrange(8, 16)),
            None => !spec_connect_response_ok(bytes@, transaction_id),
        },
{
    if bytes.len() < 16 {
        return None;
    }
    let action = read_u32_be(bytes, 0);
    let txid = read_u32_be(bytes, 4);
    if action != 0 || txid != transaction_id {
        return None;
    }
    Some(read_u64_be(bytes, 8))
}

/// What an announce round reports to the tracker.
#[derive(Debug, PartialEq, Eq, Structural, Clone, Copy)]
pub struct AnnounceTransfer {
    pub downloaded: u64,
    pub left: u64,
    pub uploaded: u64,
    pub event: u32,
}

/// The 98-byte announce request.
pub open spec fn spec_announce_request(
    connection_id: u64,
    transaction_id: u32,
    info_hash: Seq<u8>,
    peer_id: Seq<u8>,
    transfer: AnnounceTransfer,
    key: u32,
    port: u16,
) -> Seq<u8> {
    spec_u64_be(connection_id) + spec_u32_be(1) + spec_u32_be(transaction_id) + info_hash + peer_id
        + spec_u64_be(transfer.downloaded) + spec_u64_be(transfer.left) + spec_u64_be(
        transfer.uploaded,
    ) + spec_u32_be(transfer.event) + spec_u32_be(0) + spec_u32_be(key) + spec_u32_be(0xffffffff)
        + crate::message::spec_u16_be(port)
}

/// Builds the announce request: connection id, action 1, transaction id,
/// both 20-byte ids, the transfer counters, event, ip 0 (let the tracker
/// see the source address), a random key, `num_want` -1, and our port.
pub fn announce_request(
    connection_id: u64,
    transaction_id: u32,
    info_hash: &Vec<u8>,
    peer_id: &Vec<u8>,
    transfer: AnnounceTransfer,
    key: u32,
    port: u16,
) -> (r: Vec<u8>)
    requires
        info_hash@.len() == crate::SHA1_SIZE,
        peer_id@.len() == crate::SHA1_SIZE,
    ensures
        r@ == spec_announce_request(
            connection_id,
            transaction_id,
            info_hash@,
            peer_id@,
            transfer,
            key,
            port,
        ),
        r@.len() == 98,
{
    let mut out: Vec<u8> = Vec::new();
    push_u64_be(&mut out, connection_id);
    push_u32_be(&mut out, 1);
    push_u32_be(&mut out, transaction_id);
    out.extend_from_slice(info_hash.as_slice());
    out.extend_from_slice(peer_id.as_slice());
    push_u64_be(&mut out, transfer.downloaded);
    push_u64_be(&mut out, transfer.left);
    push_u64_be(&mut out, transfer.uploaded);
    push_u32_be(&mut out, transfer.event);
    push_u32_be(&mut out, 0);
    push_u32_be(&mut out, key);
    push_u32_be(&mut out, 0xffffffff);
    out.push(((port >> 8u16) & 0xff) as u8);
    out.push((port & 0xff) as u8);
    proof {
        assert(out@ =~= spec_announce_request(
            connection_id,
            transaction_id,
            info_hash@,
            peer_id@,
            transfer,
            key,
            port,
        ));
    }
    out
}

/// Is this an announce reply to our request: long enough, action 1, and
/// the same transaction id?
pub open spec fn spec_announce_response_ok(bytes: Seq<u8>, transaction_id: u32) -> bool {
    &&& bytes.len() >= 20
    &&& spec_u32_of_bytes(bytes[0], bytes[1], bytes[2], bytes[3]) == 1
    &&& spec_u32_of_bytes(bytes[4], bytes[5], bytes[6], bytes[7]) == transaction_id
}

/// The peer at chunk `k` of an announce reply: 6 bytes from offset
/// `20 + 6 k`.
pub open spec fn spec_reply_peer(bytes: Seq<u8>, k: int) -> Peer {
    Peer {
        ip: [bytes[20 + 6 * k], bytes[21 + 6 * k], bytes[22 + 6 * k], bytes[23 + 6 * k]],
        port: spec_u16_of_bytes(bytes[24 + 6 * k], bytes[25 + 6 * k]),
    }
}

/// Parses an announce reply: the re-announce interval and the peer list
/// it carries when it answers our `transaction_id`, nothing otherwise.
/// Each peer is four address octets and a big-endian port; a trailing
/// fragment shorter than six bytes is ignored.
pub fn parse_announce_response(bytes: &[u8], transaction_id: u32) -> (r: Option<(u32, Vec<Peer>)>)
    ensures
        match r {
            Some(reply) => {
                &&& spec_announce_response_ok(bytes@, transaction_id)
                &&& reply.0 == spec_u32_of_bytes(bytes@[8], bytes@[9], bytes@[10], bytes@[11])
                &&& reply.1@.len() == (bytes@.len() - 20) as int / 6
                &&& forall|k: int|
                    0 <= k < reply.1@.len() ==> #[trigger] reply.1@[k] == spec_reply_peer(bytes@, k)
            },
            None => !spec_announce_response_ok(bytes@, transaction_id),
        },
{
    if bytes.len() < 20 {
        return None;
    }
    let action = read_u32_be(bytes, 0);
    let txid = read_u32_be(bytes, 4);
    if action != 1 || txid != transaction_id {
        return None;
    }
    let interval = read_u32_be(bytes, 8);
    let count = (bytes.len() - 20) / 6;
    let mut peers: Vec<Peer> = Vec::new();
    let mut k: usize = 0;
    while k < count
        invariant
            bytes@.len() >= 20,
            count as int == (bytes@.len() - 20) as int / 6,
            bytes@.len() <= usize::MAX,
            k <= count,
            peers@.len() == k,
            forall|j: int| 0 <= j < k ==> #[trigger] peers@[j] == spec_reply_peer(bytes@, j),
        decreases count - k,
    {
        proof {
            lemma_peer_chunk_in_bounds(bytes@.len() as int, k as int);
        }
        let off = 20 + k * 6;
        let peer = Peer {
            ip: [bytes[off], bytes[off + 1], bytes[off + 2], bytes[off + 3]],
            port: ((bytes[off + 4] as u16) << 8u16) | (bytes[off + 5] as u16),
        };
        peers.push(peer);
        k = k + 1;
    }
    Some((interval, peers))
}

/// `k < (len - 20) / 6` says exactly that the 6-byte peer chunk at `k`
/// lies inside a reply of `len` bytes.
proof fn lemma_peer_chunk_in_bounds(len: int, k: int)
    requires
        20 <= len,
        0 <= k,
        k < (len - 20) / 6,
    ensures
        20 + 6 * k + 6 <= len,
{
    let n = len - 20;
    vstd::arithmetic::div_mod::lemma_fundamental_div_mod(n, 6);
    let q = n / 6;
    let r = n % 6;
    assert(0 <= r < 6) by {
        vstd::arithmetic::div_mod::lemma_mod_bound(n, 6);
    }
    assert(6 * k + 6 <= 6 * q) by (nonlinear_arith)
        requires
            k < q,
    ;
    assert(6 * q <= n) by (nonlinear_arith)
        requires
            n == 6 * q + r,
            0 <= r,
    ;
}

/// The announce loop's decision after one round: the interval and peers
/// of a reply that answers our request, or an empty peer list and the
/// default retry interval when the reply was missing, short or not ours.
pub fn udp_announce_outcome(response: Option<&[u8]>, transaction_id: u32) -> (r: (u64, Vec<Peer>))
    ensures
        match response {
            Some(bytes) => {
                if spec_announce_response_ok(bytes@, transaction_id) {
                    &&& r.0 == spec_u32_of_bytes(bytes@[8], bytes@[9], bytes@[10], bytes@[11])
                        as u64
                    &&& r.1@.len() == (bytes@.len() - 20) as int / 6
                    &&& forall|k: int|
                        0 <= k < r.1@.len() ==> #[trigger] r.1@[k] == spec_reply_peer(bytes@, k)
                } else {
                    r.0 == DEFAULT_RETRY_INTERVAL && r.1@.len() == 0
                }
            },
            None => r.0 == DEFAULT_RETRY_INTERVAL && r.1@.len() == 0,
        },
{
    match response {
        Some(bytes) => match parse_announce_response(bytes, transaction_id) {
            Some(reply) => (reply.0 as u64, reply.1),
            None => (DEFAULT_RETRY_INTERVAL, Vec::new()),
        },
        None => (DEFAULT_RETRY_INTERVAL, Vec::new()),
    }
}

/// Relies on rand::random: draws a value from the thread-local generator;
/// nothing is promised of the result.
pub assume_specification<T>[ rand::random::<T> ]() -> (r: T)
    where
        rand::distributions::Standard: rand::distributions::Distribution<T>,
;

/// A fresh transaction id for one tracker exchange.
pub fn transaction_id() -> u32 {
    rand::random::<u32>()
}

/// A fresh announce key.
pub fn announce_key() -> u32 {
    rand::random::<u32>()
}

} // verus!
