//! The tracker client's pure parts: the announce query string, and the
//! compact peer list of the response.

use vstd::prelude::*;
use vstd::slice::slice_index_get;

use crate::bencode::BValue;
use crate::bencode::decode;
use crate::bencode::dict_get;
use crate::bencode::enc;
use crate::errors::TorrentError;
use crate::keys::key_failure_reason;
use crate::keys::key_failure_reason_vec;
use crate::keys::key_interval;
use crate::keys::key_interval_vec;
use crate::keys::key_peers;
use crate::keys::key_peers_vec;

verus! {

/// One peer endpoint from the compact list: four IPv4 octets and a port.
#[derive(Clone, Copy, Debug)]
pub struct PeerAddr {
    pub ip: (u8, u8, u8, u8),
    pub port: u16,
}

/// A byte that URL-encoding passes through unchanged.
pub open spec fn is_unreserved(b: u8) -> bool {
    (48 <= b <= 57) || (65 <= b <= 90) || (97 <= b <= 122) || b == 45 || b == 46 || b == 95 || b
        == 126
}

/// Uppercase hex digit of a nibble.
pub open spec fn hex_digit_byte(n: u8) -> u8 {
    if n < 10 {
        (48 + n) as u8
    } else {
        (55 + n) as u8
    }
}

/// Byte-wise URL-encoding: unreserved bytes stand as themselves, every
/// other byte becomes `%XX`.
pub open spec fn urlenc(s: Seq<u8>) -> Seq<u8>
    decreases s.len(),
{
    if s.len() == 0 {
        Seq::empty()
    } else {
        urlenc(s.drop_last()) + (if is_unreserved(s.last()) {
            seq![s.last()]
        } else {
            seq![37u8, hex_digit_byte(s.last() / 16), hex_digit_byte(s.last() % 16)]
        })
    }
}

/// URL-encodes a byte string, byte by byte.
pub fn urlencode(s: &[u8]) -> (r: Vec<u8>)
    ensures
        r@ == urlenc(s@),
{
    let mut out: Vec<u8> = Vec::new();
    let mut i: usize = 0;
    proof {
        assert(out@ =~= urlenc(s@.take(0)));
    }
    while i < s.len()
        invariant
            i <= s@.len(),
            out@ == urlenc(s@.take(i as int)),
        decreases s@.len() - i,
    {
        let b = *slice_index_get(s, i);
        proof {
            assert(s@.take(i + 1).drop_last() =~= s@.take(i as int));
            assert(s@.take(i + 1).last() == s@[i as int]);
        }
        let unreserved = (48 <= b && b <= 57) || (65 <= b && b <= 90) || (97 <= b && b <= 122) || b
            == 45 || b == 46 || b == 95 || b == 126;
        if unreserved {
            out.push(b);
        } else {
            out.push(37);
            let hi = b / 16;
            let lo = b % 16;
            out.push(if hi < 10 {
                48 + hi
            } else {
                55 + hi
            });
            out.push(if lo < 10 {
                48 + lo
            } else {
                55 + lo
            });
        }
        proof {
            assert(out@ =~= urlenc(s@.take(i + 1)));
        }
        i = i + 1;
    }
    proof {
        assert(s@.take(s@.len() as int) =~= s@);
    }
    out
}

/// The fixed text between the query's fields:
/// `?info_hash=`, `&peer_id=`, `&port=`, `&uploaded=0&downloaded=0&left=`,
/// `&compact=1`.
pub open spec fn lit_info_hash() -> Seq<u8> {
    seq![63u8, 105u8, 110u8, 102u8, 111u8, 95u8, 104u8, 97u8, 115u8, 104u8, 61u8]
}

pub open spec fn lit_peer_id() -> Seq<u8> {
    seq![38u8, 112u8, 101u8, 101u8, 114u8, 95u8, 105u8, 100u8, 61u8]
}

pub open spec fn lit_port() -> Seq<u8> {
    seq![38u8, 112u8, 111u8, 114u8, 116u8, 61u8]
}

pub open spec fn lit_counters() -> Seq<u8> {
    seq![
        38u8, 117u8, 112u8, 108u8, 111u8, 97u8, 100u8, 101u8, 100u8, 61u8, 48u8, 38u8, 100u8,
        111u8, 119u8, 110u8, 108u8, 111u8, 97u8, 100u8, 101u8, 100u8, 61u8, 48u8, 38u8, 108u8,
        101u8, 102u8, 116u8, 61u8,
    ]
}

pub open spec fn lit_compact() -> Seq<u8> {
    seq![38u8, 99u8, 111u8, 109u8, 112u8, 97u8, 99u8, 116u8, 61u8, 49u8]
}

/// The whole announce request line after the URL: info-hash and peer id
/// URL-encoded byte-wise, the port and bytes-left counters in decimal,
/// `uploaded=0`, `downloaded=0` and `compact=1` fixed.
pub open spec fn announce_query(
    announce: Seq<u8>,
    info_hash: Seq<u8>,
    peer_id: Seq<u8>,
    port: u16,
    left: u64,
) -> Seq<u8> {
    announce + lit_info_hash() + urlenc(info_hash) + lit_peer_id() + urlenc(peer_id) + lit_port()
        + crate::bencode::dec_u(port as nat) + lit_counters() + crate::bencode::dec_u(left as nat)
        + lit_compact()
}

/// Builds the full announce GET target for a one-shot tracker contact.
pub fn build_announce_query(
    announce: &[u8],
    info_hash: &[u8],
    peer_id: &[u8],
    port: u16,
    left: u64,
) -> (r: Vec<u8>)
    ensures
        r@ == announce_query(announce@, info_hash@, peer_id@, port, left),
{
    let mut out: Vec<u8> = vstd::slice::slice_to_vec(announce);
    let mut l1: Vec<u8> = vec![
        63u8, 105u8, 110u8, 102u8, 111u8, 95u8, 104u8, 97u8, 115u8, 104u8, 61u8,
    ];
    out.append(&mut l1);
    let mut ih = urlencode(info_hash);
    out.append(&mut ih);
    let mut l2: Vec<u8> = vec![38u8, 112u8, 101u8, 101u8, 114u8, 95u8, 105u8, 100u8, 61u8];
    out.append(&mut l2);
    let mut pid = urlencode(peer_id);
    out.append(&mut pid);
    let mut l3: Vec<u8> = vec![38u8, 112u8, 111u8, 114u8, 116u8, 61u8];
    out.append(&mut l3);
    crate::bencode::push_dec(port as u64, &mut out);
    let mut l4: Vec<u8> = vec![
        38u8, 117u8, 112u8, 108u8, 111u8, 97u8, 100u8, 101u8, 100u8, 61u8, 48u8, 38u8, 100u8,
        111u8, 119u8, 110u8, 108u8, 111u8, 97u8, 100u8, 101u8, 100u8, 61u8, 48u8, 38u8, 108u8,
        101u8, 102u8, 116u8, 61u8,
    ];
    out.append(&mut l4);
    crate::bencode::push_dec(left, &mut out);
    let mut l5: Vec<u8> = vec![38u8, 99u8, 111u8, 109u8, 112u8, 97u8, 99u8, 116u8, 61u8, 49u8];
    out.append(&mut l5);
    proof {
        assert(out@ =~= announce_query(announce@, info_hash@, peer_id@, port, left));
    }
    out
}

/// Splits a compact peer list into endpoints: each six bytes are four
/// big-endian IPv4 octets and two big-endian port bytes. Fails exactly when
/// the length is not a multiple of six.
pub fn parse_compact_peers(bytes: &[u8]) -> (r: Result<Vec<PeerAddr>, TorrentError>)
    ensures
        r is Ok <==> bytes@.len() % 6 == 0,
        r matches Ok(v) ==> {
            &&& 6 * v@.len() == bytes@.len()
            &&& forall|i: int|
                0 <= i < v@.len() ==> (#[trigger] v@[i]) == (PeerAddr {
                    ip: (bytes@[6 * i], bytes@[6 * i + 1], bytes@[6 * i + 2], bytes@[6 * i + 3]),
                    port: (bytes@[6 * i + 4] as u16 * 256 + bytes@[6 * i + 5] as u16) as u16,
                })
        },
        r matches Err(e) ==> e == TorrentError::MalformedBencode,
{
    if bytes.len() % 6 != 0 {
        return Err(TorrentError::MalformedBencode);
    }
    let n = bytes.len() / 6;
    let mut out: Vec<PeerAddr> = Vec::new();
    let mut i: usize = 0;
    while i < n
        invariant
            6 * n == bytes@.len(),
            bytes@.len() <= usize::MAX,
            i <= n,
            out@.len() == i,
            forall|j: int|
                0 <= j < i ==> (#[trigger] out@[j]) == (PeerAddr {
                    ip: (bytes@[6 * j], bytes@[6 * j + 1], bytes@[6 * j + 2], bytes@[6 * j + 3]),
                    port: (bytes@[6 * j + 4] as u16 * 256 + bytes@[6 * j + 5] as u16) as u16,
                }),
        decreases n - i,
    {
        proof {
            assert(6 * (i as int) + 6 <= 6 * (n as int)) by (nonlinear_arith)
                requires
                    i < n,
            ;
        }
        let base = 6 * i;
        let a = *slice_index_get(bytes, base);
        let b = *slice_index_get(bytes, base + 1);
        let c = *slice_index_get(bytes, base + 2);
        let d = *slice_index_get(bytes, base + 3);
        let p1 = *slice_index_get(bytes, base + 4);
        let p2 = *slice_index_get(bytes, base + 5);
        out.push(PeerAddr { ip: (a, b, c, d), port: (p1 as u16) * 256 + (p2 as u16) });
        i = i + 1;
    }
    Ok(out)
}

/// What the tracker answered: the re-announce interval and the peers.
pub struct TrackerResponse {
    pub interval: i64,
    pub peers: Vec<PeerAddr>,
    pub resp_val: Ghost<BValue>,
    pub peers_flat: Ghost<Seq<u8>>,
}

impl TrackerResponse {
    /// The fields agree with the decoded response dictionary.
    pub open spec fn wf(&self) -> bool {
        &&& self.resp_val@ is Dict
        &&& dict_get(self.resp_val@->Dict_0, key_failure_reason()) is None
        &&& dict_get(self.resp_val@->Dict_0, key_interval()) == Some(
            BValue::Int(self.interval),
        )
        &&& dict_get(self.resp_val@->Dict_0, key_peers()) == Some(
            BValue::Bytes(self.peers_flat@),
        )
        &&& self.peers_flat@.len() % 6 == 0
        &&& 6 * self.peers@.len() == self.peers_flat@.len()
        &&& forall|i: int|
            0 <= i < self.peers@.len() ==> (#[trigger] self.peers@[i]) == (PeerAddr {
                ip: (
                    self.peers_flat@[6 * i],
                    self.peers_flat@[6 * i + 1],
                    self.peers_flat@[6 * i + 2],
                    self.peers_flat@[6 * i + 3],
                ),
                port: (self.peers_flat@[6 * i + 4] as u16 * 256 + self.peers_flat@[6 * i
                    + 5] as u16) as u16,
            })
    }
}

/// A well-formed tracker answer: a dictionary without `failure reason`,
/// with an integer `interval` and a `peers` byte string of whole six-byte
/// endpoints.
pub open spec fn tracker_response_ok(d: BValue) -> bool {
    &&& d is Dict
    &&& dict_get(d->Dict_0, key_failure_reason()) is None
    &&& dict_get(d->Dict_0, key_interval()) matches Some(iv) && iv is Int
    &&& dict_get(d->Dict_0, key_peers()) matches Some(BValue::Bytes(pb)) && pb.len() % 6 == 0
}

/// Reads a tracker's bencoded response: rejected exactly when the decoded
/// dictionary carries a `failure reason`, successful exactly when the body
/// opens with a well-formed answer.
pub fn parse_tracker_response(bytes: &[u8]) -> (r: Result<TrackerResponse, TorrentError>)
    ensures
        r is Ok <==> exists|d: BValue, rest: Seq<u8>|
            bytes@ == #[trigger] (enc(d) + rest) && tracker_response_ok(d),
        r == Err::<TrackerResponse, TorrentError>(TorrentError::TrackerRejected) <==> exists|
            d: BValue,
            rest: Seq<u8>,
        |
            bytes@ == #[trigger] (enc(d) + rest) && d is Dict && dict_get(
                d->Dict_0,
                key_failure_reason(),
            ) is Some,
        r matches Ok(t) ==> {
            &&& t.wf()
            &&& exists|n: int| 0 < n <= bytes@.len() && enc(t.resp_val@) == bytes@.subrange(0, n)
        },
        r matches Err(e) ==> e == TorrentError::MalformedBencode || e
            == TorrentError::TrackerRejected,
{
    let (outer, dn) = match decode(bytes) {
        Ok(p) => p,
        Err(e) => {
            proof {
                assert forall|d: BValue, rest: Seq<u8>| bytes@ != #[trigger] (enc(d) + rest) by {
                    if bytes@ == enc(d) + rest {
                        assert(crate::bencode::starts_value(bytes@));
                    }
                }
            }
            return Err(e);
        },
    };
    proof {
        assert(bytes@ =~= enc(outer@) + bytes@.skip(dn as int));
        assert forall|d: BValue, rest: Seq<u8>| bytes@ == #[trigger] (enc(d) + rest) implies d
            == outer@ by {
            crate::bencode::lemma_enc_prefix_free(d, outer@, rest, bytes@.skip(dn as int));
        }
        assert(enc(outer@) == bytes@.subrange(0, dn as int));
    }
    let fail_key = key_failure_reason_vec();
    match outer.lookup(fail_key.as_slice()) {
        Some(_) => {
            return Err(TorrentError::TrackerRejected);
        },
        None => {},
    }
    let interval_key = key_interval_vec();
    let interval = match outer.lookup(interval_key.as_slice()) {
        Some(b) => match b.as_int() {
            Some(n) => n,
            None => {
                proof {
                    assert(!tracker_response_ok(outer@));
                }
                return Err(TorrentError::MalformedBencode);
            },
        },
        None => {
            proof {
                assert(!tracker_response_ok(outer@));
            }
            return Err(TorrentError::MalformedBencode);
        },
    };
    let peers_key = key_peers_vec();
    let (peers, flat) = match outer.lookup(peers_key.as_slice()) {
        Some(b) => match b.as_bytes() {
            Some(s) => {
                let ghost flatg = s@;
                match parse_compact_peers(s.as_slice()) {
                    Ok(v) => (v, Ghost(flatg)),
                    Err(e) => {
                        proof {
                            assert(!tracker_response_ok(outer@));
                        }
                        return Err(e);
                    },
                }
            },
            None => {
                proof {
                    assert(!tracker_response_ok(outer@));
                }
                return Err(TorrentError::MalformedBencode);
            },
        },
        None => {
            proof {
                assert(!tracker_response_ok(outer@));
            }
            return Err(TorrentError::MalformedBencode);
        },
    };
    proof {
        assert(tracker_response_ok(outer@));
        assert(bytes@ == enc(outer@) + bytes@.skip(dn as int) && tracker_response_ok(outer@));
    }
    Ok(TrackerResponse { interval, peers, resp_val: Ghost(outer@), peers_flat: flat })
}

} // verus!
