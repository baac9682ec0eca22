//! The magnet bootstrap: the ut_metadata extension payloads, assembly of the
//! metadata pieces, and the hash gate that turns fetched metadata into a
//! meta-info.

use vstd::prelude::*;

use crate::bencode::BValue;
use crate::bencode::Bencode;
use crate::bencode::decode_value;
use crate::bencode::dict_get;
use crate::bencode::enc;
use crate::bencode::encode_wire;
use crate::bencode::bytes_eq;
use crate::digest::sha1_digest;
use crate::digest::sha1_of;
use crate::errors::TorrentError;
use crate::keys::key_m;
use crate::keys::key_m_vec;
use crate::keys::key_metadata_size;
use crate::keys::key_total_size;
use crate::keys::key_metadata_size_vec;
use crate::keys::key_msg_type;
use crate::keys::key_piece;
use crate::keys::key_ut_metadata;
use crate::keys::key_ut_metadata_vec;
use crate::meta_info::MetaInfo;
use crate::meta_info::meta_from_info;

verus! {

/// Bytes in one metadata piece of the ut_metadata exchange.
pub const METADATA_PIECE_LEN: u64 = 16384;

/// The extension-handshake payload this side sends: a dictionary announcing
/// its ut_metadata id under `m`.
pub open spec fn ext_handshake_val(local_id: u8) -> BValue {
    BValue::Dict(
        seq![
            (key_m(), BValue::Dict(seq![(key_ut_metadata(), BValue::Int(local_id as i64))])),
        ],
    )
}

/// Builds the extension-handshake payload announcing our ut_metadata id.
pub fn build_extension_handshake(local_id: u8) -> (r: Vec<u8>)
    ensures
        r@ == enc(ext_handshake_val(local_id)),
{
    let mut inner: Vec<(Vec<u8>, Bencode)> = Vec::new();
    inner.push((key_ut_metadata_vec(), Bencode::Int(local_id as i64)));
    let ghost inner_s = inner@;
    let mut outer: Vec<(Vec<u8>, Bencode)> = Vec::new();
    outer.push((key_m_vec(), Bencode::Dict(inner)));
    let v = Bencode::Dict(outer);
    proof {
        assert(inner_s.len() == 1);
        assert(inner_s.drop_last() =~= Seq::<(Vec<u8>, Bencode)>::empty());
        assert(inner_s.last().0@ == key_ut_metadata());
        assert(inner_s.last().1 == Bencode::Int(local_id as i64));
        assert(crate::bencode::bval(inner_s.last().1) == BValue::Int(local_id as i64));
        assert(crate::bencode::bval_pairs(inner_s) == crate::bencode::bval_pairs(
            inner_s.drop_last(),
        ).push((inner_s.last().0@, crate::bencode::bval(inner_s.last().1))));
        assert(crate::bencode::bval_pairs(Seq::<(Vec<u8>, Bencode)>::empty())
            == Seq::<(Seq<u8>, BValue)>::empty());
        assert(crate::bencode::bval_pairs(inner_s) =~~= seq![
            (key_ut_metadata(), BValue::Int(local_id as i64)),
        ]);
        assert(outer@.len() == 1);
        assert(outer@.drop_last() =~= Seq::<(Vec<u8>, Bencode)>::empty());
        assert(outer@.last().0@ == key_m());
        assert(outer@.last().1 == Bencode::Dict(inner));
        assert(crate::bencode::bval(Bencode::Dict(inner)) == BValue::Dict(
            crate::bencode::bval_pairs(inner_s),
        ));
        assert(crate::bencode::bval_pairs(outer@) == crate::bencode::bval_pairs(
            outer@.drop_last(),
        ).push((outer@.last().0@, crate::bencode::bval(outer@.last().1))));
        assert(crate::bencode::bval_pairs(outer@) =~~= seq![
            (key_m(), BValue::Dict(seq![(key_ut_metadata(), BValue::Int(local_id as i64))])),
        ]);
        assert(v@ =~~= ext_handshake_val(local_id));
    }
    encode_wire(&v)
}

/// A ut_metadata message: a request for one piece, the piece's data with
/// the metadata's total size, or a rejection.
pub open spec fn metadata_msg_val(msg_type: u8, piece: u32) -> BValue {
    BValue::Dict(
        seq![
            (key_msg_type(), BValue::Int(msg_type as i64)),
            (key_piece(), BValue::Int(piece as i64)),
        ],
    )
}

/// Builds a ut_metadata request (`msg_type = 0`) for one metadata piece.
pub fn build_metadata_request(piece: u32) -> (r: Vec<u8>)
    ensures
        r@ == enc(metadata_msg_val(0, piece)),
{
    let mut pairs: Vec<(Vec<u8>, Bencode)> = Vec::new();
    pairs.push((crate::keys::key_msg_type_vec(), Bencode::Int(0)));
    let ghost one = pairs@;
    pairs.push((crate::keys::key_piece_vec(), Bencode::Int(piece as i64)));
    let v = Bencode::Dict(pairs);
    proof {
        assert(one.len() == 1);
        assert(one.drop_last() =~= Seq::<(Vec<u8>, Bencode)>::empty());
        assert(one.last().0@ == key_msg_type());
        assert(one.last().1 == Bencode::Int(0));
        assert(crate::bencode::bval(one.last().1) == BValue::Int(0));
        assert(crate::bencode::bval_pairs(one) == crate::bencode::bval_pairs(one.drop_last()).push(
            (one.last().0@, crate::bencode::bval(one.last().1)),
        ));
        assert(crate::bencode::bval_pairs(Seq::<(Vec<u8>, Bencode)>::empty())
            == Seq::<(Seq<u8>, BValue)>::empty());
        assert(crate::bencode::bval_pairs(one) =~~= seq![(key_msg_type(), BValue::Int(0))]);
        assert(pairs@.len() == 2);
        assert(pairs@.drop_last() =~= one);
        assert(pairs@.last().0@ == key_piece());
        assert(pairs@.last().1 == Bencode::Int(piece as i64));
        assert(crate::bencode::bval(pairs@.last().1) == BValue::Int(piece as i64));
        assert(crate::bencode::bval_pairs(pairs@) == crate::bencode::bval_pairs(
            pairs@.drop_last(),
        ).push((pairs@.last().0@, crate::bencode::bval(pairs@.last().1))));
        assert(crate::bencode::bval_pairs(pairs@) =~~= seq![
            (key_msg_type(), BValue::Int(0)),
            (key_piece(), BValue::Int(piece as i64)),
        ]);
        assert(v@ =~~= metadata_msg_val(0, piece));
    }
    encode_wire(&v)
}

/// A well-formed extension handshake: its `m` dictionary maps `ut_metadata`
/// to a byte-sized id.
pub open spec fn ext_handshake_ok(d: BValue) -> bool {
    &&& d is Dict
    &&& (dict_get(d->Dict_0, key_m()) matches Some(md) && md is Dict && (dict_get(
        md->Dict_0,
        key_ut_metadata(),
    ) matches Some(BValue::Int(n)) && 0 <= n <= 255))
}

/// Reads the remote's extension handshake: its ut_metadata id under `m`,
/// and the metadata size when announced. Succeeds exactly when the payload
/// opens with a well-formed handshake dictionary.
pub fn parse_extension_handshake(payload: &[u8]) -> (r: Result<(u8, Option<i64>), TorrentError>)
    ensures
        r is Ok <==> exists|d: BValue, rest: Seq<u8>|
            payload@ == #[trigger] (enc(d) + rest) && ext_handshake_ok(d),
        r matches Ok(p) ==> exists|d: BValue, rest: Seq<u8>|
            payload@ == #[trigger] (enc(d) + rest) && ext_handshake_ok(d) && (dict_get(
                d->Dict_0,
                key_m(),
            ) matches Some(md) && dict_get(md->Dict_0, key_ut_metadata()) == Some(
                BValue::Int(p.0 as i64),
            )) && (match dict_get(d->Dict_0, key_metadata_size()) {
                Some(sv) => (sv matches BValue::Int(sz) && p.1 == Some(sz)) || (!(sv is Int)
                    && p.1 is None),
                None => p.1 is None,
            }),
        r matches Err(e) ==> e == TorrentError::PeerIoError,
{
    proof {
        assert(payload@.skip(0) =~= payload@);
    }
    let (outer, dn) = match decode_value(payload, 0) {
        Ok(p) => p,
        Err(_) => {
            proof {
                assert forall|d: BValue, rest: Seq<u8>|
                    !(payload@ == #[trigger] (enc(d) + rest) && ext_handshake_ok(d)) by {
                    if payload@ == enc(d) + rest {
                        assert(crate::bencode::starts_value(payload@));
                    }
                }
            }
            return Err(TorrentError::PeerIoError);
        },
    };
    proof {
        assert forall|d: BValue, rest: Seq<u8>| payload@ == #[trigger] (enc(d) + rest) implies d
            == outer@ by {
            assert(payload@ =~= enc(outer@) + payload@.skip(dn as int));
            crate::bencode::lemma_enc_prefix_free(d, outer@, rest, payload@.skip(dn as int));
        }
        assert(payload@ =~= enc(outer@) + payload@.skip(dn as int));
    }
    let m_key = key_m_vec();
    let id = match outer.lookup(m_key.as_slice()) {
        Some(m_dict) => {
            let ut_key = key_ut_metadata_vec();
            match m_dict.lookup(ut_key.as_slice()) {
                Some(b) => match b.as_int() {
                    Some(n) => {
                        if n < 0 || n > 255 {
                            proof {
                                assert(!ext_handshake_ok(outer@));
                            }
                            return Err(TorrentError::PeerIoError);
                        }
                        n as u8
                    },
                    None => {
                        proof {
                            assert(!ext_handshake_ok(outer@));
                        }
                        return Err(TorrentError::PeerIoError);
                    },
                },
                None => {
                    proof {
                        assert(!ext_handshake_ok(outer@));
                    }
                    return Err(TorrentError::PeerIoError);
                },
            }
        },
        None => {
            proof {
                assert(!ext_handshake_ok(outer@));
            }
            return Err(TorrentError::PeerIoError);
        },
    };
    let size_key = key_metadata_size_vec();
    let metadata_size = match outer.lookup(size_key.as_slice()) {
        Some(b) => match b.as_int() {
            Some(n) => Some(n),
            None => None,
        },
        None => None,
    };
    proof {
        assert(ext_handshake_ok(outer@));
        assert(payload@ == enc(outer@) + payload@.skip(dn as int) && ext_handshake_ok(outer@));
    }
    Ok((id, metadata_size))
}

/// A well-formed ut_metadata `data` header: `msg_type` is 1 and `piece` is
/// an integer.
pub open spec fn metadata_data_ok(d: BValue) -> bool {
    &&& d is Dict
    &&& dict_get(d->Dict_0, key_msg_type()) == Some(BValue::Int(1))
    &&& dict_get(d->Dict_0, key_piece()) matches Some(pv) && pv is Int
}

/// Reads a ut_metadata `data` message: the bencoded header gives the piece
/// index and total size, and the raw metadata slice follows the header
/// immediately. Succeeds exactly when the payload opens with a well-formed
/// `data` header.
pub fn parse_metadata_data(payload: &[u8]) -> (r: Result<(i64, Option<i64>, Vec<u8>), TorrentError>)
    ensures
        r is Ok <==> exists|d: BValue, rest: Seq<u8>|
            payload@ == #[trigger] (enc(d) + rest) && metadata_data_ok(d),
        r matches Ok(p) ==> exists|d: BValue, n: int|
            #![trigger enc(d), payload@.subrange(0, n)]
            {
                &&& 0 < n <= payload@.len()
                &&& enc(d) == payload@.subrange(0, n)
                &&& metadata_data_ok(d)
                &&& dict_get(d->Dict_0, key_piece()) == Some(BValue::Int(p.0))
                &&& p.2@ == payload@.skip(n)
                &&& (match dict_get(d->Dict_0, key_total_size()) {
                    Some(tv) => (tv matches BValue::Int(t) && p.1 == Some(t)) || (!(tv is Int)
                        && p.1 is None),
                    None => p.1 is None,
                })
            },
        r matches Err(e) ==> e == TorrentError::PeerIoError,
{
    proof {
        assert(payload@.skip(0) =~= payload@);
    }
    let (header, n) = match decode_value(payload, 0) {
        Ok(p) => p,
        Err(_) => {
            proof {
                assert forall|d: BValue, rest: Seq<u8>|
                    !(payload@ == #[trigger] (enc(d) + rest) && metadata_data_ok(d)) by {
                    if payload@ == enc(d) + rest {
                        assert(crate::bencode::starts_value(payload@));
                    }
                }
            }
            return Err(TorrentError::PeerIoError);
        },
    };
    proof {
        assert(payload@ =~= enc(header@) + payload@.skip(n as int));
        assert forall|d: BValue, rest: Seq<u8>| payload@ == #[trigger] (enc(d) + rest) implies d
            == header@ by {
            crate::bencode::lemma_enc_prefix_free(d, header@, rest, payload@.skip(n as int));
        }
    }
    let mt_key = crate::keys::key_msg_type_vec();
    match header.lookup(mt_key.as_slice()) {
        Some(b) => match b.as_int() {
            Some(t) => {
                if t != 1 {
                    proof {
                        assert(!metadata_data_ok(header@));
                    }
                    return Err(TorrentError::PeerIoError);
                }
            },
            None => {
                proof {
                    assert(!metadata_data_ok(header@));
                }
                return Err(TorrentError::PeerIoError);
            },
        },
        None => {
            proof {
                assert(!metadata_data_ok(header@));
            }
            return Err(TorrentError::PeerIoError);
        },
    }
    let piece_key = crate::keys::key_piece_vec();
    let piece = match header.lookup(piece_key.as_slice()) {
        Some(b) => match b.as_int() {
            Some(p) => p,
            None => {
                proof {
                    assert(!metadata_data_ok(header@));
                }
                return Err(TorrentError::PeerIoError);
            },
        },
        None => {
            proof {
                assert(!metadata_data_ok(header@));
            }
            return Err(TorrentError::PeerIoError);
        },
    };
    let ts_key = crate::keys::key_total_size_vec();
    let total_size = match header.lookup(ts_key.as_slice()) {
        Some(b) => match b.as_int() {
            Some(t) => Some(t),
            None => None,
        },
        None => None,
    };
    let data = vstd::slice::slice_to_vec(vstd::slice::slice_subrange(payload, n, payload.len()));
    proof {
        assert(metadata_data_ok(header@));
        assert(payload@ == enc(header@) + payload@.skip(n as int) && metadata_data_ok(header@));
        assert(data@ =~= payload@.skip(n as int));
    }
    Ok((piece, total_size, data))
}

/// Number of metadata pieces a metadata of `size` bytes has.
pub fn metadata_piece_count(size: u64) -> (r: u64)
    ensures
        r == (if size == 0 {
            0
        } else {
            (size - 1) as int / METADATA_PIECE_LEN as int + 1
        }),
{
    if size == 0 {
        0
    } else {
        (size - 1) / METADATA_PIECE_LEN + 1
    }
}

/// Concatenates the fetched metadata pieces in index order.
pub fn assemble_metadata(parts: &Vec<Vec<u8>>) -> (r: Vec<u8>)
    ensures
        r@ == crate::pieces::flat_hashes(parts@),
{
    crate::scheduler::assemble_file(parts)
}

/// Accepts the fetched metadata bytes only when their SHA-1 equals the
/// magnet's info-hash, then decodes them as the info dictionary and builds
/// the meta-info. The resulting info-hash is exactly the magnet's.
pub fn metadata_to_meta_info(data: &[u8], magnet_hash: &[u8], announce: Vec<u8>) -> (r: Result<
    MetaInfo,
    TorrentError,
>)
    ensures
        r is Ok <==> sha1_of(data@) == magnet_hash@ && (exists|d: BValue|
            #![trigger enc(d)]
            enc(d) == data@ && crate::meta_info::info_fields_ok(d)),
        r matches Ok(m) ==> {
            &&& m.wf()
            &&& sha1_of(data@) == magnet_hash@
            &&& m.info_hash@ == magnet_hash@
            &&& enc(m.info_val@) == data@
        },
        r matches Err(e) ==> e == TorrentError::MetadataHashMismatch || e
            == TorrentError::MalformedTorrent,
        sha1_of(data@) != magnet_hash@ ==> r == Err::<MetaInfo, TorrentError>(
            TorrentError::MetadataHashMismatch,
        ),
{
    let h = sha1_digest(data);
    if !bytes_eq(h.as_slice(), magnet_hash) {
        return Err(TorrentError::MetadataHashMismatch);
    }
    let (info, n) = match decode_value(data, 0) {
        Ok(p) => p,
        Err(_) => {
            proof {
                assert forall|d: BValue| !(#[trigger] enc(d) == data@
                    && crate::meta_info::info_fields_ok(d)) by {
                    if enc(d) == data@ {
                        assert(data@ =~= enc(d) + Seq::<u8>::empty());
                        assert(data@.skip(0) =~= data@);
                        assert(crate::bencode::starts_value(data@.skip(0)));
                    }
                }
            }
            return Err(TorrentError::MalformedTorrent);
        },
    };
    proof {
        assert(data@.skip(0) =~= data@);
    }
    if n != data.len() {
        proof {
            assert forall|d: BValue| !(#[trigger] enc(d) == data@
                && crate::meta_info::info_fields_ok(d)) by {
                if enc(d) == data@ {
                    assert(data@ =~= enc(d) + Seq::<u8>::empty());
                    assert(data@ =~= enc(info@) + data@.skip(n as int));
                    crate::bencode::lemma_enc_prefix_free(
                        info@,
                        d,
                        data@.skip(n as int),
                        Seq::empty(),
                    );
                }
            }
        }
        return Err(TorrentError::MalformedTorrent);
    }
    proof {
        assert(data@.subrange(0, data@.len() as int) =~= data@);
    }
    let r = meta_from_info(&info, announce, h);
    proof {
        if crate::meta_info::info_fields_ok(info@) {
            assert(enc(info@) == data@ && crate::meta_info::info_fields_ok(info@));
        }
        assert forall|d: BValue| #[trigger] enc(d) == data@
            && crate::meta_info::info_fields_ok(d) implies crate::meta_info::info_fields_ok(
            info@,
        ) by {
            crate::bencode::lemma_enc_injective(info@, d);
        }
    }
    r
}

/// Metadata whose SHA-1 matches the magnet's `xt` info-hash yields a
/// meta-info carrying exactly that info-hash.
pub proof fn lemma_magnet_parity(m: MetaInfo, magnet_hash: Seq<u8>, data: Seq<u8>)
    requires
        m.wf(),
        sha1_of(data) == magnet_hash,
        enc(m.info_val@) == data,
    ensures
        m.info_hash@ == magnet_hash,
{
}

} // verus!
