//! The peer wire protocol: the fixed-layout handshake record and the
//! length-prefixed framed messages.

use vstd::prelude::*;
use vstd::slice::slice_index_get;
use vstd::slice::slice_subrange;
use vstd::slice::slice_to_vec;

use crate::errors::TorrentError;

verus! {

/// Big-endian 4-byte encoding of a 32-bit value.
pub open spec fn be32(n: u32) -> Seq<u8> {
    seq![
        (n / 0x1000000) as u8,
        ((n / 0x10000) % 256) as u8,
        ((n / 256) % 256) as u8,
        (n % 256) as u8,
    ]
}

/// Emits the big-endian bytes of `n`.
pub fn push_be32(n: u32, out: &mut Vec<u8>)
    ensures
        final(out)@ == old(out)@ + be32(n),
{
    out.push((n / 0x1000000) as u8);
    out.push(((n / 0x10000) % 256) as u8);
    out.push(((n / 256) % 256) as u8);
    out.push((n % 256) as u8);
    proof {
        assert(out@ =~= old(out)@ + be32(n));
    }
}

/// Reads a big-endian 32-bit value from four bytes.
pub fn parse_be32(bytes: &[u8]) -> (r: u32)
    requires
        bytes@.len() == 4,
    ensures
        be32(r) == bytes@,
{
    let b0 = *slice_index_get(bytes, 0);
    let b1 = *slice_index_get(bytes, 1);
    let b2 = *slice_index_get(bytes, 2);
    let b3 = *slice_index_get(bytes, 3);
    let r: u32 = (b0 as u32) * 0x1000000 + (b1 as u32) * 0x10000 + (b2 as u32) * 256 + (b3 as u32);
    proof {
        let v = r as int;
        let i0 = b0 as int;
        let i1 = b1 as int;
        let i2 = b2 as int;
        let i3 = b3 as int;
        assert(v == i0 * 0x1000000 + i1 * 0x10000 + i2 * 256 + i3);
        assert(v / 0x1000000 == i0 && (v / 0x10000) % 256 == i1 && (v / 256) % 256 == i2 && v % 256
            == i3) by (nonlinear_arith)
            requires
                v == i0 * 0x1000000 + i1 * 0x10000 + i2 * 256 + i3,
                0 <= i0 < 256,
                0 <= i1 < 256,
                0 <= i2 < 256,
                0 <= i3 < 256,
        ;
        assert(be32(r) =~= bytes@);
    }
    r
}

/// The ASCII protocol string of the handshake record.
pub open spec fn protocol_str() -> Seq<u8> {
    seq![
        66u8, 105u8, 116u8, 84u8, 111u8, 114u8, 114u8, 101u8, 110u8, 116u8, 32u8, 112u8, 114u8,
        111u8, 116u8, 111u8, 99u8, 111u8, 108u8,
    ]
}

/// The reserved flag bytes: byte five carries the extension-protocol bit.
pub open spec fn reserved_bytes(extensions: bool) -> Seq<u8> {
    seq![0u8, 0u8, 0u8, 0u8, 0u8, if extensions { 16u8 } else { 0u8 }, 0u8, 0u8]
}

/// The 68-byte handshake record.
pub open spec fn handshake_bytes(info_hash: Seq<u8>, peer_id: Seq<u8>, extensions: bool) -> Seq<
    u8,
> {
    seq![19u8] + protocol_str() + reserved_bytes(extensions) + info_hash + peer_id
}

/// What a received handshake carries.
#[derive(Debug)]
pub struct Handshake {
    pub info_hash: Vec<u8>,
    pub peer_id: Vec<u8>,
    pub extensions: bool,
}

/// Builds the handshake record this side sends once at session start.
pub fn build_handshake(info_hash: &[u8], peer_id: &[u8], extensions: bool) -> (r: Vec<u8>)
    requires
        info_hash@.len() == 20,
        peer_id@.len() == 20,
    ensures
        r@ == handshake_bytes(info_hash@, peer_id@, extensions),
        r@.len() == 68,
{
    let mut out: Vec<u8> = Vec::new();
    out.push(19);
    let mut p: Vec<u8> = vec![
        66u8, 105u8, 116u8, 84u8, 111u8, 114u8, 114u8, 101u8, 110u8, 116u8, 32u8, 112u8, 114u8,
        111u8, 116u8, 111u8, 99u8, 111u8, 108u8,
    ];
    out.append(&mut p);
    out.push(0);
    out.push(0);
    out.push(0);
    out.push(0);
    out.push(0);
    if extensions {
        out.push(16);
    } else {
        out.push(0);
    }
    out.push(0);
    out.push(0);
    let mut ih = slice_to_vec(info_hash);
    out.append(&mut ih);
    let mut pid = slice_to_vec(peer_id);
    out.append(&mut pid);
    proof {
        assert(out@ =~= handshake_bytes(info_hash@, peer_id@, extensions));
    }
    out
}

/// Reads a peer's 68-byte handshake record: accepts exactly the records of
/// the right length with a leading `19` and the protocol string, and returns
/// the peer's info-hash, peer id and extension bit.
pub fn parse_handshake(bytes: &[u8]) -> (r: Result<Handshake, TorrentError>)
    ensures
        r is Ok <==> bytes@.len() == 68 && bytes@[0] == 19 && bytes@.subrange(1, 20)
            == protocol_str(),
        r matches Ok(h) ==> {
            &&& h.info_hash@ == bytes@.subrange(28, 48)
            &&& h.peer_id@ == bytes@.subrange(48, 68)
            &&& h.extensions == ((bytes@[25] / 16) % 2 == 1)
        },
        r matches Err(e) ==> e == TorrentError::HandshakeRejected,
{
    if bytes.len() != 68 {
        return Err(TorrentError::HandshakeRejected);
    }
    let pstr: Vec<u8> = vec![
        66u8, 105u8, 116u8, 84u8, 111u8, 114u8, 114u8, 101u8, 110u8, 116u8, 32u8, 112u8, 114u8,
        111u8, 116u8, 111u8, 99u8, 111u8, 108u8,
    ];
    proof {
        assert(pstr@ =~= protocol_str());
    }
    if *slice_index_get(bytes, 0) != 19 {
        return Err(TorrentError::HandshakeRejected);
    }
    let mut i: usize = 0;
    while i < 19
        invariant
            i <= 19,
            bytes@.len() == 68,
            pstr@ == protocol_str(),
            forall|j: int| 0 <= j < i ==> bytes@[j + 1] == protocol_str()[j],
        decreases 19 - i,
    {
        if *slice_index_get(bytes, i + 1) != pstr[i] {
            proof {
                assert(bytes@[i + 1] != protocol_str()[i as int]);
                assert(bytes@.subrange(1, 20)[i as int] == bytes@[i + 1]);
            }
            return Err(TorrentError::HandshakeRejected);
        }
        i = i + 1;
    }
    proof {
        assert(bytes@.subrange(1, 20) =~= protocol_str());
    }
    let flag = *slice_index_get(bytes, 25);
    let extensions = (flag / 16) % 2 == 1;
    let info_hash = slice_to_vec(slice_subrange(bytes, 28, 48));
    let peer_id = slice_to_vec(slice_subrange(bytes, 48, 68));
    Ok(Handshake { info_hash, peer_id, extensions })
}

/// One peer-protocol message, keep-alive included.
#[derive(Debug)]
pub enum PeerMessage {
    KeepAlive,
    Choke,
    Unchoke,
    Interested,
    NotInterested,
    Have(u32),
    Bitfield(Vec<u8>),
    Request { index: u32, begin: u32, length: u32 },
    Piece { index: u32, begin: u32, block: Vec<u8> },
    Cancel { index: u32, begin: u32, length: u32 },
    Extended { ext_id: u8, payload: Vec<u8> },
}

/// The id-and-payload bytes of a message: what stands after the length
/// prefix. A keep-alive has none.
pub open spec fn msg_payload(m: PeerMessage) -> Seq<u8> {
    match m {
        PeerMessage::KeepAlive => Seq::empty(),
        PeerMessage::Choke => seq![0u8],
        PeerMessage::Unchoke => seq![1u8],
        PeerMessage::Interested => seq![2u8],
        PeerMessage::NotInterested => seq![3u8],
        PeerMessage::Have(i) => seq![4u8] + be32(i),
        PeerMessage::Bitfield(b) => seq![5u8] + b@,
        PeerMessage::Request { index, begin, length } => seq![6u8] + be32(index) + be32(begin)
            + be32(length),
        PeerMessage::Piece { index, begin, block } => seq![7u8] + be32(index) + be32(begin)
            + block@,
        PeerMessage::Cancel { index, begin, length } => seq![8u8] + be32(index) + be32(begin)
            + be32(length),
        PeerMessage::Extended { ext_id, payload } => seq![20u8] + seq![ext_id] + payload@,
    }
}

/// The full frame: a big-endian length prefix followed by the payload.
pub open spec fn msg_frame(m: PeerMessage) -> Seq<u8> {
    be32(msg_payload(m).len() as u32) + msg_payload(m)
}

/// Frames one message for the wire. The payload must leave room for the
/// 32-bit length prefix.
pub fn encode_message(m: &PeerMessage) -> (r: Vec<u8>)
    requires
        msg_payload(*m).len() <= 0xffff_ffff,
    ensures
        r@ == msg_frame(*m),
{
    let mut body: Vec<u8> = Vec::new();
    match m {
        PeerMessage::KeepAlive => {},
        PeerMessage::Choke => {
            body.push(0);
        },
        PeerMessage::Unchoke => {
            body.push(1);
        },
        PeerMessage::Interested => {
            body.push(2);
        },
        PeerMessage::NotInterested => {
            body.push(3);
        },
        PeerMessage::Have(i) => {
            body.push(4);
            push_be32(*i, &mut body);
        },
        PeerMessage::Bitfield(b) => {
            body.push(5);
            let mut c = slice_to_vec(b.as_slice());
            body.append(&mut c);
        },
        PeerMessage::Request { index, begin, length } => {
            body.push(6);
            push_be32(*index, &mut body);
            push_be32(*begin, &mut body);
            push_be32(*length, &mut body);
        },
        PeerMessage::Piece { index, begin, block } => {
            body.push(7);
            push_be32(*index, &mut body);
            push_be32(*begin, &mut body);
            let mut c = slice_to_vec(block.as_slice());
            body.append(&mut c);
        },
        PeerMessage::Cancel { index, begin, length } => {
            body.push(8);
            push_be32(*index, &mut body);
            push_be32(*begin, &mut body);
            push_be32(*length, &mut body);
        },
        PeerMessage::Extended { ext_id, payload } => {
            body.push(20);
            body.push(*ext_id);
            let mut c = slice_to_vec(payload.as_slice());
            body.append(&mut c);
        },
    }
    proof {
        assert(body@ =~= msg_payload(*m));
    }
    let mut out: Vec<u8> = Vec::new();
    push_be32(body.len() as u32, &mut out);
    out.append(&mut body);
    proof {
        assert(out@ =~= msg_frame(*m));
    }
    out
}

/// Shape of every message payload: its id byte and its length class.
proof fn lemma_msg_shape(m: PeerMessage)
    ensures
        m is KeepAlive ==> msg_payload(m).len() == 0,
        !(m is KeepAlive) ==> msg_payload(m).len() >= 1,
        m is Choke ==> msg_payload(m) == seq![0u8],
        m is Unchoke ==> msg_payload(m) == seq![1u8],
        m is Interested ==> msg_payload(m) == seq![2u8],
        m is NotInterested ==> msg_payload(m) == seq![3u8],
        m is Have ==> msg_payload(m)[0] == 4 && msg_payload(m).len() == 5,
        m is Bitfield ==> msg_payload(m)[0] == 5,
        m is Request ==> msg_payload(m)[0] == 6 && msg_payload(m).len() == 13,
        m is Piece ==> msg_payload(m)[0] == 7 && msg_payload(m).len() >= 9,
        m is Cancel ==> msg_payload(m)[0] == 8 && msg_payload(m).len() == 13,
        m is Extended ==> msg_payload(m)[0] == 20 && msg_payload(m).len() >= 2,
{
    match m {
        PeerMessage::Choke => {
            assert(msg_payload(m) =~= seq![0u8]);
        },
        PeerMessage::Unchoke => {
            assert(msg_payload(m) =~= seq![1u8]);
        },
        PeerMessage::Interested => {
            assert(msg_payload(m) =~= seq![2u8]);
        },
        PeerMessage::NotInterested => {
            assert(msg_payload(m) =~= seq![3u8]);
        },
        _ => {},
    }
}

/// Reads the id-and-payload bytes of one frame back into a message. Empty
/// bytes are a keep-alive; an unknown id or a payload of the wrong shape is a
/// peer error. The accepted bytes are exactly the payload of the returned
/// message, and parsing succeeds exactly when the bytes are some message's
/// payload.
pub fn parse_message(bytes: &[u8]) -> (r: Result<PeerMessage, TorrentError>)
    ensures
        r matches Ok(m) ==> msg_payload(m) == bytes@,
        r is Ok <==> exists|m: PeerMessage| #[trigger] msg_payload(m) == bytes@,
        r matches Err(e) ==> e == TorrentError::PeerIoError,
{
    proof {
        if exists|m: PeerMessage| #[trigger] msg_payload(m) == bytes@ {
            let m = choose|m: PeerMessage| #[trigger] msg_payload(m) == bytes@;
            lemma_msg_shape(m);
        }
    }
    if bytes.len() == 0 {
        proof {
            assert(bytes@ =~= Seq::<u8>::empty());
        }
        return Ok(PeerMessage::KeepAlive);
    }
    let id = *slice_index_get(bytes, 0);
    if id == 0 || id == 1 || id == 2 || id == 3 {
        if bytes.len() != 1 {
            proof {
                assert forall|m: PeerMessage| #[trigger] msg_payload(m) != bytes@ by {
                    lemma_msg_shape(m);
                    if msg_payload(m) == bytes@ {
                        assert(msg_payload(m)[0] == id);
                    }
                }
            }
            return Err(TorrentError::PeerIoError);
        }
        let m = if id == 0 {
            PeerMessage::Choke
        } else if id == 1 {
            PeerMessage::Unchoke
        } else if id == 2 {
            PeerMessage::Interested
        } else {
            PeerMessage::NotInterested
        };
        proof {
            assert(msg_payload(m) =~= bytes@);
        }
        return Ok(m);
    }
    if id == 4 {
        if bytes.len() != 5 {
            proof {
                assert forall|m: PeerMessage| #[trigger] msg_payload(m) != bytes@ by {
                    lemma_msg_shape(m);
                    if msg_payload(m) == bytes@ {
                        assert(msg_payload(m)[0] == 4);
                    }
                }
            }
            return Err(TorrentError::PeerIoError);
        }
        let i = parse_be32(slice_subrange(bytes, 1, 5));
        proof {
            assert(msg_payload(PeerMessage::Have(i)) =~= bytes@);
        }
        return Ok(PeerMessage::Have(i));
    }
    if id == 5 {
        let b = slice_to_vec(slice_subrange(bytes, 1, bytes.len()));
        let m = PeerMessage::Bitfield(b);
        proof {
            assert(msg_payload(m) =~= bytes@);
        }
        return Ok(m);
    }
    if id == 6 || id == 8 {
        if bytes.len() != 13 {
            proof {
                assert forall|m: PeerMessage| #[trigger] msg_payload(m) != bytes@ by {
                    lemma_msg_shape(m);
                    if msg_payload(m) == bytes@ {
                        assert(msg_payload(m)[0] == id);
                    }
                }
            }
            return Err(TorrentError::PeerIoError);
        }
        let index = parse_be32(slice_subrange(bytes, 1, 5));
        let begin = parse_be32(slice_subrange(bytes, 5, 9));
        let length = parse_be32(slice_subrange(bytes, 9, 13));
        let m = if id == 6 {
            PeerMessage::Request { index, begin, length }
        } else {
            PeerMessage::Cancel { index, begin, length }
        };
        proof {
            assert(msg_payload(m) =~= bytes@);
        }
        return Ok(m);
    }
    if id == 7 {
        if bytes.len() < 9 {
            proof {
                assert forall|m: PeerMessage| #[trigger] msg_payload(m) != bytes@ by {
                    lemma_msg_shape(m);
                    if msg_payload(m) == bytes@ {
                        assert(msg_payload(m)[0] == 7);
                    }
                }
            }
            return Err(TorrentError::PeerIoError);
        }
        let index = parse_be32(slice_subrange(bytes, 1, 5));
        let begin = parse_be32(slice_subrange(bytes, 5, 9));
        let block = slice_to_vec(slice_subrange(bytes, 9, bytes.len()));
        let m = PeerMessage::Piece { index, begin, block };
        proof {
            assert(msg_payload(m) =~= bytes@);
        }
        return Ok(m);
    }
    if id == 20 {
        if bytes.len() < 2 {
            proof {
                assert forall|m: PeerMessage| #[trigger] msg_payload(m) != bytes@ by {
                    lemma_msg_shape(m);
                    if msg_payload(m) == bytes@ {
                        assert(msg_payload(m)[0] == 20);
                    }
                }
            }
            return Err(TorrentError::PeerIoError);
        }
        let ext_id = *slice_index_get(bytes, 1);
        let payload = slice_to_vec(slice_subrange(bytes, 2, bytes.len()));
        let m = PeerMessage::Extended { ext_id, payload };
        proof {
            assert(msg_payload(m) =~= bytes@);
        }
        return Ok(m);
    }
    proof {
        assert forall|m: PeerMessage| #[trigger] msg_payload(m) != bytes@ by {
            lemma_msg_shape(m);
            if msg_payload(m) == bytes@ {
                assert(msg_payload(m)[0] == id);
            }
        }
    }
    Err(TorrentError::PeerIoError)
}

} // verus!
