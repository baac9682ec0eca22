//! The meta-info model: the typed view of a decoded torrent, with the
//! info-hash computed on the exact bytes of the `info` value as it stood in
//! the source stream.

use vstd::prelude::*;
use vstd::slice::slice_subrange;
use vstd::slice::slice_to_vec;

use crate::bencode::BValue;
use crate::bencode::Bencode;
use crate::bencode::bytes_eq;
use crate::bencode::decode;
use crate::bencode::decode_value;
use crate::bencode::dict_get;
use crate::bencode::enc;
use crate::bencode::parse_bytestring_at;
use crate::digest::sha1_digest;
use crate::digest::sha1_of;
use crate::errors::TorrentError;
use crate::keys::key_announce;
use crate::keys::key_announce_vec;
use crate::keys::key_info_vec;
use crate::keys::key_length;
use crate::keys::key_length_vec;
use crate::keys::key_name;
use crate::keys::key_name_vec;
use crate::keys::key_piece_length;
use crate::keys::key_piece_length_vec;
use crate::keys::key_pieces;
use crate::keys::key_pieces_vec;
use crate::pieces::Pieces;

verus! {

/// Ceiling division: the number of pieces a file of `len` bytes needs at
/// `piece_len` bytes per piece.
pub open spec fn ceil_div(len: u64, piece_len: u64) -> int
    recommends
        piece_len >= 1,
{
    if len == 0 {
        0
    } else {
        (len - 1) as int / piece_len as int + 1
    }
}

/// The typed view of a torrent: announce URL, the fields of its single-file
/// info dictionary, and the info-hash of the exact info bytes.
pub struct MetaInfo {
    pub announce: Vec<u8>,
    pub name: Vec<u8>,
    pub piece_length: u64,
    pub length: u64,
    pub pieces: Pieces,
    pub info_hash: Vec<u8>,
    pub info_val: Ghost<BValue>,
}

impl MetaInfo {
    /// The fields agree with the info dictionary the torrent held, and the
    /// info-hash is the SHA-1 of that dictionary's exact wire bytes.
    pub open spec fn wf(&self) -> bool {
        &&& self.info_val@ is Dict
        &&& self.info_hash@ == sha1_of(enc(self.info_val@))
        &&& self.info_hash@.len() == 20
        &&& dict_get(self.info_val@->Dict_0, key_name()) == Some(BValue::Bytes(self.name@))
        &&& dict_get(self.info_val@->Dict_0, key_piece_length()) == Some(
            BValue::Int(self.piece_length as i64),
        )
        &&& self.piece_length >= 1
        &&& dict_get(self.info_val@->Dict_0, key_length()) == Some(
            BValue::Int(self.length as i64),
        )
        &&& dict_get(self.info_val@->Dict_0, key_pieces()) == Some(
            BValue::Bytes(self.pieces.flat()),
        )
        &&& self.pieces.wf()
        &&& self.pieces.0@.len() == ceil_div(self.length, self.piece_length)
    }

    /// Number of pieces.
    pub fn piece_count(&self) -> (r: usize)
        ensures
            r == self.pieces.0@.len(),
    {
        self.pieces.count()
    }

    /// Length in bytes of piece `index`: the piece length for all pieces but
    /// the last, and the remainder `length - (N-1) * piece_length` for the
    /// last.
    pub fn piece_size(&self, index: usize) -> (r: u64)
        requires
            self.wf(),
            index < self.pieces.0@.len(),
        ensures
            index + 1 < self.pieces.0@.len() ==> r == self.piece_length,
            index + 1 == self.pieces.0@.len() ==> r == self.length - (self.pieces.0@.len() - 1)
                * self.piece_length,
            1 <= r <= self.piece_length,
    {
        let count = self.pieces.count();
        proof {
            let n = ceil_div(self.length, self.piece_length) - 1;
            let pl = self.piece_length as int;
            let len = self.length as int;
            assert(self.length > 0);
            assert(n == (len - 1) / pl);
            assert(len - n * pl >= 1 && len - n * pl <= pl) by (nonlinear_arith)
                requires
                    pl >= 1,
                    len >= 1,
                    n == (len - 1) / pl,
            ;
            assert(count as int - 1 == n);
        }
        if index + 1 < count {
            self.piece_length
        } else {
            self.length - ((count as u64) - 1) * self.piece_length
        }
    }
}

/// A parsed run of non-`info` entries pins down any witness decomposition
/// of the same stream that continues with the `info` key: the witness's run
/// extends the parsed one.
proof fn lemma_pairs_walk(
    wps: Seq<(Seq<u8>, BValue)>,
    ips: Seq<(Seq<u8>, BValue)>,
    y: Seq<u8>,
    t2: Seq<u8>,
)
    requires
        crate::bencode::enc_pairs(wps) + (crate::bencode::enc_str(crate::keys::key_info()) + y)
            == crate::bencode::enc_pairs(ips) + t2,
        forall|j: int| 0 <= j < ips.len() ==> (#[trigger] ips[j]).0 != crate::keys::key_info(),
    ensures
        exists|ps2: Seq<(Seq<u8>, BValue)>|
            #![trigger crate::bencode::enc_pairs(ps2)]
            wps == ips + ps2 && crate::bencode::enc_pairs(ps2) + (crate::bencode::enc_str(
                crate::keys::key_info(),
            ) + y) == t2,
    decreases ips.len(),
{
    let x = crate::bencode::enc_str(crate::keys::key_info()) + y;
    if ips.len() == 0 {
        let ps2 = wps;
        assert(wps =~= ips + ps2);
        assert(crate::bencode::enc_pairs(ips) =~= Seq::<u8>::empty());
        assert(crate::bencode::enc_pairs(ps2) + x =~= t2);
    } else if wps.len() == 0 {
        assert(crate::bencode::enc_pairs(wps) =~= Seq::<u8>::empty());
        assert(crate::bencode::enc_pairs(wps) + x =~= crate::bencode::enc_str(
            crate::keys::key_info(),
        ) + y);
        assert(crate::bencode::enc_pairs(ips) + t2 =~= crate::bencode::enc_str(ips[0].0) + (
        crate::bencode::enc(ips[0].1) + (crate::bencode::enc_pairs(ips.drop_first()) + t2)));
        crate::bencode::lemma_enc_str_pf(
            crate::keys::key_info(),
            ips[0].0,
            y,
            crate::bencode::enc(ips[0].1) + (crate::bencode::enc_pairs(ips.drop_first()) + t2),
        );
        assert(false);
    } else {
        assert(crate::bencode::enc_pairs(wps) + x =~= crate::bencode::enc_str(wps[0].0) + (
        crate::bencode::enc(wps[0].1) + (crate::bencode::enc_pairs(wps.drop_first()) + x)));
        assert(crate::bencode::enc_pairs(ips) + t2 =~= crate::bencode::enc_str(ips[0].0) + (
        crate::bencode::enc(ips[0].1) + (crate::bencode::enc_pairs(ips.drop_first()) + t2)));
        crate::bencode::lemma_enc_str_pf(
            wps[0].0,
            ips[0].0,
            crate::bencode::enc(wps[0].1) + (crate::bencode::enc_pairs(wps.drop_first()) + x),
            crate::bencode::enc(ips[0].1) + (crate::bencode::enc_pairs(ips.drop_first()) + t2),
        );
        crate::bencode::lemma_enc_prefix_free(
            wps[0].1,
            ips[0].1,
            crate::bencode::enc_pairs(wps.drop_first()) + x,
            crate::bencode::enc_pairs(ips.drop_first()) + t2,
        );
        assert forall|j: int|
            0 <= j < ips.drop_first().len() implies (#[trigger] ips.drop_first()[j]).0
            != crate::keys::key_info() by {
            assert(ips.drop_first()[j] == ips[j + 1]);
        }
        lemma_pairs_walk(wps.drop_first(), ips.drop_first(), y, t2);
        let ps2 = choose|ps2: Seq<(Seq<u8>, BValue)>|
            #![trigger crate::bencode::enc_pairs(ps2)]
            wps.drop_first() == ips.drop_first() + ps2 && crate::bencode::enc_pairs(ps2) + x == t2;
        assert(wps[0] == ips[0]);
        assert(wps.len() == ips.len() + ps2.len());
        assert forall|t: int| 0 <= t < wps.len() implies wps[t] == (ips + ps2)[t] by {
            if t > 0 {
                assert(wps[t] == wps.drop_first()[t - 1]);
                assert(wps.drop_first()[t - 1] == (ips.drop_first() + ps2)[t - 1]);
                if t < ips.len() {
                    assert((ips.drop_first() + ps2)[t - 1] == ips.drop_first()[t - 1]);
                    assert(ips.drop_first()[t - 1] == ips[t]);
                } else {
                    assert((ips.drop_first() + ps2)[t - 1] == ps2[t - ips.len()]);
                }
            }
        }
        assert(wps =~= ips + ps2);
    }
}

/// Whether a stream opens a dictionary whose top-level entries parse and
/// reach an `info` key: a tag byte `d`, a run of entries under other keys,
/// then the `info` entry.
pub open spec fn has_info_entry(s: Seq<u8>) -> bool {
    &&& s.len() >= 1
    &&& s[0] == 100
    &&& exists|ps: Seq<(Seq<u8>, BValue)>, v: BValue, rest: Seq<u8>|
        #![trigger crate::bencode::enc_pairs(ps), enc(v) + rest]
        s.skip(1) == crate::bencode::enc_pairs(ps) + (crate::bencode::enc_str(
            crate::keys::key_info(),
        ) + (enc(v) + rest)) && (forall|j: int|
            0 <= j < ps.len() ==> (#[trigger] ps[j]).0 != crate::keys::key_info())
}

/// Locates the `info` value of the outer dictionary and decodes it, returning
/// the value together with the byte range it occupies in the input: the exact
/// bytes, not a re-encoding. Succeeds exactly when the input opens a
/// dictionary whose top-level entries reach an `info` key, and returns the
/// first `info` entry's value.
pub fn slice_info_dict(bytes: &[u8]) -> (r: Result<(Bencode, usize, usize), TorrentError>)
    ensures
        r is Ok <==> has_info_entry(bytes@),
        r matches Ok(p) ==> {
            &&& 0 < p.1 < p.2 <= bytes@.len()
            &&& enc(p.0@) == bytes@.subrange(p.1 as int, p.2 as int)
            &&& exists|ps: Seq<(Seq<u8>, BValue)>|
                #![trigger crate::bencode::enc_pairs(ps)]
                bytes@.skip(1) == crate::bencode::enc_pairs(ps) + (crate::bencode::enc_str(
                    crate::keys::key_info(),
                ) + (enc(p.0@) + bytes@.skip(p.2 as int))) && (forall|j: int|
                    0 <= j < ps.len() ==> (#[trigger] ps[j]).0 != crate::keys::key_info())
        },
        r matches Err(e) ==> e == TorrentError::MalformedTorrent,
{
    if bytes.len() == 0 || *vstd::slice::slice_index_get(bytes, 0) != 100 {
        return Err(TorrentError::MalformedTorrent);
    }
    let info_key = key_info_vec();
    let mut cur: usize = 1;
    let ghost mut gps: Seq<(Seq<u8>, BValue)> = Seq::empty();
    proof {
        assert(crate::bencode::enc_pairs(gps) =~= bytes@.subrange(1, cur as int));
    }
    loop
        invariant
            1 <= cur <= bytes@.len(),
            bytes@.len() >= 1,
            bytes@[0] == 100,
            info_key@ == crate::keys::key_info(),
            crate::bencode::enc_pairs(gps) == bytes@.subrange(1, cur as int),
            forall|j: int| 0 <= j < gps.len() ==> (#[trigger] gps[j]).0 != crate::keys::key_info(),
        decreases bytes@.len() - cur,
    {
        proof {
            assert(bytes@.skip(1) =~= crate::bencode::enc_pairs(gps) + bytes@.skip(cur as int));
        }
        if cur >= bytes.len() {
            proof {
                if has_info_entry(bytes@) {
                    let (ps, v, rest) = choose|
                        ps: Seq<(Seq<u8>, BValue)>,
                        v: BValue,
                        rest: Seq<u8>,
                    |
                        #![trigger crate::bencode::enc_pairs(ps), enc(v) + rest]
                        bytes@.skip(1) == crate::bencode::enc_pairs(ps) + (crate::bencode::enc_str(
                            crate::keys::key_info(),
                        ) + (enc(v) + rest)) && (forall|j: int|
                            0 <= j < ps.len() ==> (#[trigger] ps[j]).0 != crate::keys::key_info());
                    lemma_pairs_walk(ps, gps, enc(v) + rest, bytes@.skip(cur as int));
                    crate::bencode::lemma_enc_str_first(crate::keys::key_info());
                    assert(false);
                }
            }
            return Err(TorrentError::MalformedTorrent);
        }
        let tag = *vstd::slice::slice_index_get(bytes, cur);
        if tag == 101 {
            proof {
                if has_info_entry(bytes@) {
                    let (ps, v, rest) = choose|
                        ps: Seq<(Seq<u8>, BValue)>,
                        v: BValue,
                        rest: Seq<u8>,
                    |
                        #![trigger crate::bencode::enc_pairs(ps), enc(v) + rest]
                        bytes@.skip(1) == crate::bencode::enc_pairs(ps) + (crate::bencode::enc_str(
                            crate::keys::key_info(),
                        ) + (enc(v) + rest)) && (forall|j: int|
                            0 <= j < ps.len() ==> (#[trigger] ps[j]).0 != crate::keys::key_info());
                    lemma_pairs_walk(ps, gps, enc(v) + rest, bytes@.skip(cur as int));
                    let ps2 = choose|ps2: Seq<(Seq<u8>, BValue)>|
                        #![trigger crate::bencode::enc_pairs(ps2)]
                        ps == gps + ps2 && crate::bencode::enc_pairs(ps2) + (
                        crate::bencode::enc_str(crate::keys::key_info()) + (enc(v) + rest))
                            == bytes@.skip(cur as int);
                    crate::bencode::lemma_enc_str_first(crate::keys::key_info());
                    if ps2.len() == 0 {
                        assert(crate::bencode::enc_pairs(ps2) =~= Seq::<u8>::empty());
                        assert(bytes@.skip(cur as int) =~= crate::bencode::enc_str(
                            crate::keys::key_info(),
                        ) + (enc(v) + rest));
                        assert(bytes@[cur as int] == bytes@.skip(cur as int)[0]);
                        assert(false);
                    } else {
                        crate::bencode::lemma_enc_str_first(ps2[0].0);
                        assert(bytes@.skip(cur as int) =~= crate::bencode::enc_str(ps2[0].0) + (
                        enc(ps2[0].1) + (crate::bencode::enc_pairs(ps2.drop_first()) + (
                        crate::bencode::enc_str(crate::keys::key_info()) + (enc(v) + rest)))));
                        assert(bytes@[cur as int] == bytes@.skip(cur as int)[0]);
                        assert(false);
                    }
                }
            }
            return Err(TorrentError::MalformedTorrent);
        }
        let (k, kend) = match parse_bytestring_at(bytes, cur) {
            Ok(p) => p,
            Err(_) => {
                proof {
                    if has_info_entry(bytes@) {
                        let (ps, v, rest) = choose|
                            ps: Seq<(Seq<u8>, BValue)>,
                            v: BValue,
                            rest: Seq<u8>,
                        |
                            #![trigger crate::bencode::enc_pairs(ps), enc(v) + rest]
                            bytes@.skip(1) == crate::bencode::enc_pairs(ps) + (
                            crate::bencode::enc_str(crate::keys::key_info()) + (enc(v) + rest))
                                && (forall|j: int|
                                0 <= j < ps.len() ==> (#[trigger] ps[j]).0
                                    != crate::keys::key_info());
                        lemma_pairs_walk(ps, gps, enc(v) + rest, bytes@.skip(cur as int));
                        let ps2 = choose|ps2: Seq<(Seq<u8>, BValue)>|
                            #![trigger crate::bencode::enc_pairs(ps2)]
                            ps == gps + ps2 && crate::bencode::enc_pairs(ps2) + (
                            crate::bencode::enc_str(crate::keys::key_info()) + (enc(v) + rest))
                                == bytes@.skip(cur as int);
                        if ps2.len() == 0 {
                            assert(bytes@.skip(cur as int) =~= crate::bencode::enc_str(
                                crate::keys::key_info(),
                            ) + (enc(v) + rest));
                            assert(crate::bencode::starts_string(bytes@.skip(cur as int)));
                            assert(false);
                        } else {
                            assert(bytes@.skip(cur as int) =~= crate::bencode::enc_str(ps2[0].0)
                                + (enc(ps2[0].1) + (crate::bencode::enc_pairs(ps2.drop_first())
                                + (crate::bencode::enc_str(crate::keys::key_info()) + (enc(v)
                                + rest)))));
                            assert(crate::bencode::starts_string(bytes@.skip(cur as int)));
                            assert(false);
                        }
                    }
                }
                return Err(TorrentError::MalformedTorrent);
            },
        };
        let (v, nxt) = match decode_value(bytes, kend) {
            Ok(p) => p,
            Err(_) => {
                proof {
                    if has_info_entry(bytes@) {
                        let (ps, w, rest) = choose|
                            ps: Seq<(Seq<u8>, BValue)>,
                            w: BValue,
                            rest: Seq<u8>,
                        |
                            #![trigger crate::bencode::enc_pairs(ps), enc(w) + rest]
                            bytes@.skip(1) == crate::bencode::enc_pairs(ps) + (
                            crate::bencode::enc_str(crate::keys::key_info()) + (enc(w) + rest))
                                && (forall|j: int|
                                0 <= j < ps.len() ==> (#[trigger] ps[j]).0
                                    != crate::keys::key_info());
                        lemma_pairs_walk(ps, gps, enc(w) + rest, bytes@.skip(cur as int));
                        let ps2 = choose|ps2: Seq<(Seq<u8>, BValue)>|
                            #![trigger crate::bencode::enc_pairs(ps2)]
                            ps == gps + ps2 && crate::bencode::enc_pairs(ps2) + (
                            crate::bencode::enc_str(crate::keys::key_info()) + (enc(w) + rest))
                                == bytes@.skip(cur as int);
                        assert(bytes@.skip(cur as int) =~= crate::bencode::enc_str(k@)
                            + bytes@.skip(kend as int));
                        if ps2.len() == 0 {
                            assert(bytes@.skip(cur as int) =~= crate::bencode::enc_str(
                                crate::keys::key_info(),
                            ) + (enc(w) + rest));
                            crate::bencode::lemma_enc_str_pf(
                                k@,
                                crate::keys::key_info(),
                                bytes@.skip(kend as int),
                                enc(w) + rest,
                            );
                            assert(bytes@.skip(kend as int) =~= enc(w) + rest);
                            assert(crate::bencode::starts_value(bytes@.skip(kend as int)));
                            assert(false);
                        } else {
                            assert(bytes@.skip(cur as int) =~= crate::bencode::enc_str(ps2[0].0)
                                + (enc(ps2[0].1) + (crate::bencode::enc_pairs(ps2.drop_first())
                                + (crate::bencode::enc_str(crate::keys::key_info()) + (enc(w)
                                + rest)))));
                            crate::bencode::lemma_enc_str_pf(
                                k@,
                                ps2[0].0,
                                bytes@.skip(kend as int),
                                enc(ps2[0].1) + (crate::bencode::enc_pairs(ps2.drop_first()) + (
                                crate::bencode::enc_str(crate::keys::key_info()) + (enc(w)
                                    + rest))),
                            );
                            assert(bytes@.skip(kend as int) =~= enc(ps2[0].1) + (
                            crate::bencode::enc_pairs(ps2.drop_first()) + (
                            crate::bencode::enc_str(crate::keys::key_info()) + (enc(w) + rest))));
                            assert(crate::bencode::starts_value(bytes@.skip(kend as int)));
                            assert(false);
                        }
                    }
                }
                return Err(TorrentError::MalformedTorrent);
            },
        };
        if bytes_eq(k.as_slice(), info_key.as_slice()) {
            proof {
                assert(bytes@.skip(cur as int) =~= crate::bencode::enc_str(k@) + (enc(v@)
                    + bytes@.skip(nxt as int)));
                assert(bytes@.skip(1) =~= crate::bencode::enc_pairs(gps) + (
                crate::bencode::enc_str(crate::keys::key_info()) + (enc(v@) + bytes@.skip(
                    nxt as int,
                ))));
                assert(has_info_entry(bytes@));
            }
            return Ok((v, kend, nxt));
        }
        proof {
            crate::bencode::lemma_enc_pairs_push(gps, k@, v@);
            assert(crate::bencode::enc_pairs(gps.push((k@, v@))) =~= bytes@.subrange(
                1,
                nxt as int,
            ));
            assert forall|j: int|
                0 <= j < gps.push((k@, v@)).len() implies (#[trigger] gps.push((k@, v@))[j]).0
                != crate::keys::key_info() by {
                if j < gps.len() {
                    assert(gps.push((k@, v@))[j] == gps[j]);
                } else {
                    assert(gps.push((k@, v@))[j] == (k@, v@));
                }
            }
        }
        proof {
            gps = gps.push((k@, v@));
        }
        cur = nxt;
    }
}

/// The single-file info dictionary is well-formed: every required key is
/// present and well-typed, and the piece table has exactly one 20-byte
/// digest per piece of the file.
pub open spec fn info_fields_ok(info: BValue) -> bool {
    &&& info is Dict
    &&& dict_get(info->Dict_0, key_name()) matches Some(nv) && nv is Bytes
    &&& dict_get(info->Dict_0, key_piece_length()) matches Some(BValue::Int(pl)) && pl >= 1
    &&& dict_get(info->Dict_0, key_length()) matches Some(BValue::Int(l)) && l >= 0
    &&& (dict_get(info->Dict_0, key_piece_length()) matches Some(BValue::Int(pl))
        && dict_get(info->Dict_0, key_length()) matches Some(BValue::Int(l)) && (dict_get(
        info->Dict_0,
        key_pieces(),
    ) matches Some(BValue::Bytes(b)) && b.len() % 20 == 0 && pl >= 1 && l >= 0 && b.len() as int
        / 20 == ceil_div(l as u64, pl as u64)))
}

/// Builds a `MetaInfo` from a decoded info dictionary, its hash, and the
/// announce URL: extracts and checks `name`, `piece length`, `length` and
/// `pieces`, including the piece-count invariant. Succeeds exactly when the
/// dictionary's fields are well-formed.
pub fn meta_from_info(info: &Bencode, announce: Vec<u8>, info_hash: Vec<u8>) -> (r: Result<
    MetaInfo,
    TorrentError,
>)
    requires
        info_hash@ == sha1_of(enc(info@)),
        info_hash@.len() == 20,
    ensures
        r is Ok <==> info_fields_ok(info@),
        r matches Ok(m) ==> {
            &&& m.wf()
            &&& m.info_val@ == info@
            &&& m.info_hash@ == info_hash@
            &&& m.announce@ == announce@
        },
        r matches Err(e) ==> e == TorrentError::MalformedTorrent,
{
    if !is_dict(info) {
        return Err(TorrentError::MalformedTorrent);
    }
    let name_key = key_name_vec();
    let name = match info.lookup(name_key.as_slice()) {
        Some(b) => match b.as_bytes() {
            Some(s) => slice_to_vec(s.as_slice()),
            None => {
                return Err(TorrentError::MalformedTorrent);
            },
        },
        None => {
            return Err(TorrentError::MalformedTorrent);
        },
    };
    let plen_key = key_piece_length_vec();
    let piece_length_i = match info.lookup(plen_key.as_slice()) {
        Some(b) => match b.as_int() {
            Some(n) => n,
            None => {
                return Err(TorrentError::MalformedTorrent);
            },
        },
        None => {
            return Err(TorrentError::MalformedTorrent);
        },
    };
    if piece_length_i < 1 {
        return Err(TorrentError::MalformedTorrent);
    }
    let piece_length = piece_length_i as u64;
    let len_key = key_length_vec();
    let length_i = match info.lookup(len_key.as_slice()) {
        Some(b) => match b.as_int() {
            Some(n) => n,
            None => {
                return Err(TorrentError::MalformedTorrent);
            },
        },
        None => {
            return Err(TorrentError::MalformedTorrent);
        },
    };
    if length_i < 0 {
        return Err(TorrentError::MalformedTorrent);
    }
    let length = length_i as u64;
    let pieces_key = key_pieces_vec();
    let pieces = match info.lookup(pieces_key.as_slice()) {
        Some(b) => match b.as_bytes() {
            Some(s) => match Pieces::from_flat(s.as_slice()) {
                Ok(p) => p,
                Err(e) => {
                    return Err(e);
                },
            },
            None => {
                return Err(TorrentError::MalformedTorrent);
            },
        },
        None => {
            return Err(TorrentError::MalformedTorrent);
        },
    };
    let count = pieces.count();
    let expected: u64 = if length == 0 {
        0
    } else {
        (length - 1) / piece_length + 1
    };
    if count as u64 != expected {
        return Err(TorrentError::MalformedTorrent);
    }
    Ok(
        MetaInfo {
            announce,
            name,
            piece_length,
            length,
            pieces,
            info_hash,
            info_val: Ghost(info@),
        },
    )
}

/// Whether a decoded value is a dictionary.
fn is_dict(v: &Bencode) -> (r: bool)
    ensures
        r == (v@ is Dict),
{
    match v {
        Bencode::Dict(_) => true,
        _ => false,
    }
}

/// Reads a torrent's bytes into a `MetaInfo`: decodes the outer dictionary,
/// extracts `announce` and the info fields, checks the piece-table invariant,
/// and hashes the exact info slice. Succeeds exactly when the input opens a
/// dictionary with a byte-string `announce` whose entries reach an `info`
/// key holding a well-formed single-file info dictionary.
pub fn parse_meta_info(bytes: &[u8]) -> (r: Result<MetaInfo, TorrentError>)
    ensures
        r is Ok <==> (exists|d: BValue, rest: Seq<u8>|
            bytes@ == #[trigger] (enc(d) + rest) && d is Dict && (dict_get(
                d->Dict_0,
                key_announce(),
            ) matches Some(av) && av is Bytes)) && bytes@.len() >= 1 && bytes@[0] == 100 && (exists|
            ps: Seq<(Seq<u8>, BValue)>,
            v: BValue,
            rest: Seq<u8>,
        |
            #![trigger crate::bencode::enc_pairs(ps), enc(v) + rest]
            bytes@.skip(1) == crate::bencode::enc_pairs(ps) + (crate::bencode::enc_str(
                crate::keys::key_info(),
            ) + (enc(v) + rest)) && (forall|j: int|
                0 <= j < ps.len() ==> (#[trigger] ps[j]).0 != crate::keys::key_info())
                && info_fields_ok(v)),
        r matches Ok(m) ==> {
            &&& m.wf()
            &&& exists|s: int, e: int|
                0 <= s <= e <= bytes@.len() && bytes@.subrange(s, e) == enc(m.info_val@)
            &&& exists|d: BValue, n: int|
                #![trigger enc(d), bytes@.subrange(0, n)]
                {
                    &&& 0 < n <= bytes@.len()
                    &&& enc(d) == bytes@.subrange(0, n)
                    &&& d is Dict
                    &&& dict_get(d->Dict_0, key_announce()) == Some(BValue::Bytes(m.announce@))
                }
        },
        r matches Err(e) ==> e == TorrentError::MalformedTorrent,
{
    let (outer, dn) = match decode(bytes) {
        Ok(p) => p,
        Err(_) => {
            proof {
                assert forall|d: BValue, rest: Seq<u8>| bytes@ != #[trigger] (enc(d) + rest) by {
                    if bytes@ == enc(d) + rest {
                        assert(crate::bencode::starts_value(bytes@));
                    }
                }
            }
            return Err(TorrentError::MalformedTorrent);
        },
    };
    proof {
        assert(bytes@ =~= enc(outer@) + bytes@.skip(dn as int));
        assert forall|d: BValue, rest: Seq<u8>| bytes@ == #[trigger] (enc(d) + rest) implies d
            == outer@ by {
            crate::bencode::lemma_enc_prefix_free(d, outer@, rest, bytes@.skip(dn as int));
        }
    }
    let announce_key = key_announce_vec();
    let announce = match outer.lookup(announce_key.as_slice()) {
        Some(b) => match b.as_bytes() {
            Some(s) => slice_to_vec(s.as_slice()),
            None => {
                return Err(TorrentError::MalformedTorrent);
            },
        },
        None => {
            return Err(TorrentError::MalformedTorrent);
        },
    };
    let (info, istart, iend) = match slice_info_dict(bytes) {
        Ok(p) => p,
        Err(e) => {
            return Err(e);
        },
    };
    let info_hash = sha1_digest(slice_subrange(bytes, istart, iend));
    let ghost s0 = istart as int;
    let ghost e0 = iend as int;
    proof {
        // any info decomposition of the input names exactly the value found
        assert forall|ps: Seq<(Seq<u8>, BValue)>, v: BValue, rest: Seq<u8>|
            bytes@.skip(1) == #[trigger] (crate::bencode::enc_pairs(ps) + (
            crate::bencode::enc_str(crate::keys::key_info()) + (enc(v) + rest))) && (forall|j: int|
                0 <= j < ps.len() ==> (#[trigger] ps[j]).0 != crate::keys::key_info()) implies v
            == info@ by {
            let gp = choose|gp: Seq<(Seq<u8>, BValue)>|
                #![trigger crate::bencode::enc_pairs(gp)]
                bytes@.skip(1) == crate::bencode::enc_pairs(gp) + (crate::bencode::enc_str(
                    crate::keys::key_info(),
                ) + (enc(info@) + bytes@.skip(e0))) && (forall|j: int|
                    0 <= j < gp.len() ==> (#[trigger] gp[j]).0 != crate::keys::key_info());
            lemma_pairs_walk(
                ps,
                gp,
                enc(v) + rest,
                crate::bencode::enc_str(crate::keys::key_info()) + (enc(info@) + bytes@.skip(e0)),
            );
            let ps2 = choose|ps2: Seq<(Seq<u8>, BValue)>|
                #![trigger crate::bencode::enc_pairs(ps2)]
                ps == gp + ps2 && crate::bencode::enc_pairs(ps2) + (crate::bencode::enc_str(
                    crate::keys::key_info(),
                ) + (enc(v) + rest)) == crate::bencode::enc_str(crate::keys::key_info()) + (enc(
                    info@,
                ) + bytes@.skip(e0));
            if ps2.len() == 0 {
                assert(crate::bencode::enc_pairs(ps2) =~= Seq::<u8>::empty());
                assert(crate::bencode::enc_str(crate::keys::key_info()) + (enc(v) + rest)
                    =~= crate::bencode::enc_str(crate::keys::key_info()) + (enc(info@)
                    + bytes@.skip(e0)));
                crate::bencode::lemma_enc_str_pf(
                    crate::keys::key_info(),
                    crate::keys::key_info(),
                    enc(v) + rest,
                    enc(info@) + bytes@.skip(e0),
                );
                crate::bencode::lemma_enc_prefix_free(v, info@, rest, bytes@.skip(e0));
            } else {
                assert(crate::bencode::enc_pairs(ps2) + (crate::bencode::enc_str(
                    crate::keys::key_info(),
                ) + (enc(v) + rest)) =~= crate::bencode::enc_str(ps2[0].0) + (enc(ps2[0].1) + (
                crate::bencode::enc_pairs(ps2.drop_first()) + (crate::bencode::enc_str(
                    crate::keys::key_info(),
                ) + (enc(v) + rest)))));
                crate::bencode::lemma_enc_str_pf(
                    ps2[0].0,
                    crate::keys::key_info(),
                    enc(ps2[0].1) + (crate::bencode::enc_pairs(ps2.drop_first()) + (
                    crate::bencode::enc_str(crate::keys::key_info()) + (enc(v) + rest))),
                    enc(info@) + bytes@.skip(e0),
                );
                assert(ps2[0] == ps[gp.len() as int]);
                assert(false);
            }
        }
    }
    match meta_from_info(&info, announce, info_hash) {
        Ok(m) => {
            proof {
                assert(bytes@.subrange(s0, e0) == enc(m.info_val@));
                assert(bytes@ == enc(outer@) + bytes@.skip(dn as int) && outer@ is Dict
                    && (dict_get(outer@->Dict_0, key_announce()) matches Some(av)
                    && av is Bytes));
            }
            Ok(m)
        },
        Err(e) => Err(e),
    }
}

/// Info-hash stability: the info-hash is a function of the info value's exact
/// wire bytes alone. Two torrents whose info slices carry the same bytes get
/// the same info-hash, whatever differs around them.
pub proof fn lemma_info_hash_stability(m1: MetaInfo, m2: MetaInfo)
    requires
        m1.wf(),
        m2.wf(),
        enc(m1.info_val@) == enc(m2.info_val@),
    ensures
        m1.info_hash@ == m2.info_hash@,
{
}

} // verus!
