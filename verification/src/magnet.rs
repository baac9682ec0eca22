//! The magnet-link parser: `magnet:?` query pairs to info-hash, display
//! name and tracker list.

use vstd::prelude::*;
use vstd::slice::slice_index_get;
use vstd::slice::slice_subrange;

use crate::digest::hex_decode;
use crate::errors::TorrentError;

verus! {

/// Percent-decoding of a query value: a `%` followed by two hex digits
/// becomes one byte; everything else passes through.
pub open spec fn pct_decoded(s: Seq<u8>) -> Seq<u8>
    decreases s.len(),
{
    if s.len() == 0 {
        Seq::empty()
    } else if s[0] == 37 && s.len() >= 3 && crate::digest::is_hex_digit(s[1])
        && crate::digest::is_hex_digit(s[2]) {
        seq![
            (crate::digest::hex_val(s[1]) * 16 + crate::digest::hex_val(s[2])) as u8,
        ] + pct_decoded(s.skip(3))
    } else {
        seq![s[0]] + pct_decoded(s.skip(1))
    }
}

/// Applies percent-decoding to one query value.
pub fn percent_decode(s: &[u8]) -> (r: Vec<u8>)
    ensures
        r@ == pct_decoded(s@),
{
    let mut out: Vec<u8> = Vec::new();
    let mut i: usize = 0;
    proof {
        assert(s@.skip(0) =~= s@);
    }
    while i < s.len()
        invariant
            i <= s@.len(),
            pct_decoded(s@) == out@ + pct_decoded(s@.skip(i as int)),
        decreases s@.len() - i,
    {
        let b = *slice_index_get(s, i);
        proof {
            assert(s@.skip(i as int)[0] == s@[i as int]);
            if s@.len() - i >= 3 {
                assert(s@.skip(i as int)[1] == s@[i + 1]);
                assert(s@.skip(i as int)[2] == s@[i + 2]);
                assert(s@.skip(i as int).skip(3) =~= s@.skip(i + 3));
            }
            assert(s@.skip(i as int).skip(1) =~= s@.skip(i + 1));
        }
        if b == 37 && s.len() - i > 2 {
            let h1 = crate::digest::hex_digit_value(*slice_index_get(s, i + 1));
            let h2 = crate::digest::hex_digit_value(*slice_index_get(s, i + 2));
            if h1 < 16 && h2 < 16 {
                out.push(h1 * 16 + h2);
                i = i + 3;
                proof {
                    assert(pct_decoded(s@) =~= out@ + pct_decoded(s@.skip(i as int)));
                }
                continue ;
            }
        }
        out.push(b);
        i = i + 1;
        proof {
            assert(pct_decoded(s@) =~= out@ + pct_decoded(s@.skip(i as int)));
        }
    }
    proof {
        assert(pct_decoded(s@.skip(s@.len() as int)).len() == 0);
        assert(out@ =~= pct_decoded(s@));
    }
    out
}

/// What a magnet URI carries: the 20-byte info-hash, an optional display
/// name, and the tracker URLs in order.
pub struct MagnetLink {
    pub info_hash: Vec<u8>,
    pub display_name: Option<Vec<u8>>,
    pub trackers: Vec<Vec<u8>>,
}

impl MagnetLink {
    /// The info-hash is always 20 bytes.
    pub open spec fn wf(&self) -> bool {
        self.info_hash@.len() == 20
    }
}

/// Value of one base32 character (RFC 4648 alphabet, either case), 255 for
/// any other byte.
pub open spec fn b32_val(b: u8) -> u8 {
    if 65 <= b <= 90 {
        (b - 65) as u8
    } else if 97 <= b <= 122 {
        (b - 97) as u8
    } else if 50 <= b <= 55 {
        (b - 50 + 26) as u8
    } else {
        255
    }
}

/// Whether a byte is a base32 character.
pub open spec fn is_b32(b: u8) -> bool {
    b32_val(b) < 32
}

/// The big-endian value of a run of base32 characters, five bits each.
pub open spec fn b32_group(s: Seq<u8>) -> int
    decreases s.len(),
{
    if s.len() == 0 {
        0
    } else {
        b32_group(s.drop_last()) * 32 + b32_val(s.last()) as int
    }
}

/// 32 to the given power.
pub open spec fn p32(k: nat) -> int
    decreases k,
{
    if k == 0 {
        1
    } else {
        32 * p32((k - 1) as nat)
    }
}

proof fn lemma_b32_group_bound(s: Seq<u8>)
    requires
        forall|j: int| 0 <= j < s.len() ==> is_b32(#[trigger] s[j]),
    ensures
        0 <= b32_group(s) < p32(s.len()),
    decreases s.len(),
{
    if s.len() > 0 {
        assert forall|j: int| 0 <= j < s.drop_last().len() implies is_b32(
            #[trigger] s.drop_last()[j],
        ) by {
            assert(s.drop_last()[j] == s[j]);
        }
        lemma_b32_group_bound(s.drop_last());
        assert(is_b32(s.last()));
        assert(b32_val(s.last()) < 32);
        assert(b32_group(s.drop_last()) * 32 + 31 < 32 * p32((s.len() - 1) as nat))
            by (nonlinear_arith)
            requires
                b32_group(s.drop_last()) < p32((s.len() - 1) as nat),
                0 <= b32_group(s.drop_last()),
        ;
        assert(b32_group(s.drop_last()) * 32 >= 0) by (nonlinear_arith)
            requires
                0 <= b32_group(s.drop_last()),
        ;
    }
}

proof fn lemma_p32_values()
    ensures
        p32(0) == 1,
        p32(1) == 32,
        p32(2) == 0x400,
        p32(3) == 0x8000,
        p32(4) == 0x10_0000,
        p32(5) == 0x200_0000,
        p32(6) == 0x4000_0000,
        p32(7) == 0x8_0000_0000,
        p32(8) == 0x100_0000_0000,
{
    assert(p32(1) == 32 * p32(0));
    assert(p32(2) == 32 * p32(1));
    assert(p32(3) == 32 * p32(2));
    assert(p32(4) == 32 * p32(3));
    assert(p32(5) == 32 * p32(4));
    assert(p32(6) == 32 * p32(5));
    assert(p32(7) == 32 * p32(6));
    assert(p32(8) == 32 * p32(7));
}

/// Decodes 32 base32 characters (RFC 4648 alphabet, either case) into the 20
/// bytes they spell, each five-character-aligned group read big-endian.
/// `None` exactly when a character is outside the alphabet.
pub fn base32_decode_160(tail: &[u8]) -> (r: Option<Vec<u8>>)
    requires
        tail@.len() == 32,
    ensures
        r is Some <==> (forall|i: int| 0 <= i < 32 ==> is_b32(#[trigger] tail@[i])),
        r matches Some(v) ==> {
            &&& v@.len() == 20
            &&& forall|c: int|
                0 <= c < 4 ==> {
                    let g = #[trigger] b32_group(tail@.subrange(8 * c, 8 * c + 8));
                    &&& v@[5 * c] == g / 0x1_0000_0000
                    &&& v@[5 * c + 1] == (g / 0x100_0000) % 256
                    &&& v@[5 * c + 2] == (g / 0x1_0000) % 256
                    &&& v@[5 * c + 3] == (g / 0x100) % 256
                    &&& v@[5 * c + 4] == g % 256
                }
        },
{
    let mut out: Vec<u8> = Vec::new();
    let mut c: usize = 0;
    while c < 4
        invariant
            c <= 4,
            tail@.len() == 32,
            out@.len() == 5 * c,
            forall|j: int| 0 <= j < 8 * c ==> is_b32(#[trigger] tail@[j]),
            forall|t: int|
                0 <= t < c ==> {
                    let g = #[trigger] b32_group(tail@.subrange(8 * t, 8 * t + 8));
                    &&& out@[5 * t] == g / 0x1_0000_0000
                    &&& out@[5 * t + 1] == (g / 0x100_0000) % 256
                    &&& out@[5 * t + 2] == (g / 0x1_0000) % 256
                    &&& out@[5 * t + 3] == (g / 0x100) % 256
                    &&& out@[5 * t + 4] == g % 256
                },
        decreases 4 - c,
    {
        let ghost chunk = tail@.subrange(8 * c as int, 8 * c as int + 8);
        let mut acc: u64 = 0;
        let mut k: usize = 0;
        proof {
            assert(chunk.take(0) =~= Seq::<u8>::empty());
        }
        while k < 8
            invariant
                k <= 8,
                c < 4,
                tail@.len() == 32,
                chunk == tail@.subrange(8 * c as int, 8 * c as int + 8),
                acc as int == b32_group(chunk.take(k as int)),
                forall|j: int| 8 * c <= j < 8 * c + k ==> is_b32(#[trigger] tail@[j]),
            decreases 8 - k,
        {
            let ch = *slice_index_get(tail, 8 * c + k);
            let v: u64 = if 65 <= ch && ch <= 90 {
                (ch - 65) as u64
            } else if 97 <= ch && ch <= 122 {
                (ch - 97) as u64
            } else if 50 <= ch && ch <= 55 {
                (ch - 50 + 26) as u64
            } else {
                proof {
                    assert(!is_b32(tail@[8 * c as int + k as int]));
                }
                return None;
            };
            proof {
                assert forall|j: int| 0 <= j < chunk.take(k as int).len() implies is_b32(
                    #[trigger] chunk.take(k as int)[j],
                ) by {
                    assert(chunk.take(k as int)[j] == chunk[j]);
                    assert(chunk[j] == tail@[8 * c + j]);
                }
                lemma_b32_group_bound(chunk.take(k as int));
                lemma_p32_values();
                assert(p32(chunk.take(k as int).len() as nat) <= p32(7)) by {
                    assert(chunk.take(k as int).len() <= 7);
                    if chunk.take(k as int).len() < 7 {
                        assert(forall|a: nat, b: nat|
                            a <= b ==> #[trigger] p32(a) <= #[trigger] p32(b)) by {
                            assert forall|a: nat, b: nat| a <= b implies #[trigger] p32(a)
                                <= #[trigger] p32(b) by {
                                lemma_p32_mono(a, b);
                            }
                        }
                    }
                }
                assert(acc < 0x8_0000_0000);
                assert(chunk.take(k + 1) =~= chunk.take(k as int).push(chunk[k as int]));
                assert(chunk.take(k + 1).drop_last() =~= chunk.take(k as int));
                assert(chunk[k as int] == tail@[8 * c as int + k as int]);
                assert(b32_val(chunk[k as int]) as int == v as int);
                assert(b32_group(chunk.take(k + 1)) == b32_group(chunk.take(k as int)) * 32
                    + v as int);
            }
            acc = acc * 32 + v;
            k = k + 1;
        }
        proof {
            assert(chunk.take(8) =~= chunk);
            assert forall|j: int| 0 <= j < chunk.len() implies is_b32(#[trigger] chunk[j]) by {
                assert(chunk[j] == tail@[8 * c + j]);
            }
            lemma_b32_group_bound(chunk);
            lemma_p32_values();
            assert(acc as int == b32_group(chunk));
            assert(acc < 0x100_0000_0000);
        }
        out.push((acc / 0x1_0000_0000) as u8);
        out.push(((acc / 0x100_0000) % 256) as u8);
        out.push(((acc / 0x1_0000) % 256) as u8);
        out.push(((acc / 0x100) % 256) as u8);
        out.push((acc % 256) as u8);
        c = c + 1;
    }
    Some(out)
}

proof fn lemma_p32_mono(a: nat, b: nat)
    requires
        a <= b,
    ensures
        p32(a) <= p32(b),
    decreases b,
{
    if a < b {
        lemma_p32_mono(a, (b - 1) as nat);
        lemma_p32_pos((b - 1) as nat);
        assert(p32(b) == 32 * p32((b - 1) as nat));
    }
}

proof fn lemma_p32_pos(k: nat)
    ensures
        p32(k) >= 1,
    decreases k,
{
    if k > 0 {
        lemma_p32_pos((k - 1) as nat);
    }
}

/// End of the query segment that starts at `i`: the next `&` or the end of
/// the input.
pub open spec fn seg_end(s: Seq<u8>, i: int) -> int
    decreases s.len() - i
        when 0 <= i <= s.len()
{
    if i >= s.len() || s[i] == 38 {
        i
    } else {
        seg_end(s, i + 1)
    }
}

proof fn lemma_seg_end_props(s: Seq<u8>, i: int)
    requires
        0 <= i <= s.len(),
    ensures
        i <= seg_end(s, i) <= s.len(),
        forall|j: int| i <= j < seg_end(s, i) ==> s[j] != 38,
        seg_end(s, i) == s.len() || s[seg_end(s, i)] == 38,
    decreases s.len() - i,
{
    if !(i >= s.len() || s[i] == 38) {
        lemma_seg_end_props(s, i + 1);
    }
}

/// Whether a query segment starts at `a`: right after the scheme, or right
/// after a separating `&`.
pub open spec fn is_seg_start(s: Seq<u8>, a: int) -> bool {
    (a == 8 && a <= s.len()) || (8 < a <= s.len() && s[a - 1] == 38)
}

/// Whether the segment at `a` is an `xt=` pair.
pub open spec fn seg_is_xt(s: Seq<u8>, a: int) -> bool {
    &&& is_seg_start(s, a)
    &&& a + 3 <= seg_end(s, a)
    &&& s[a] == 120
    &&& s[a + 1] == 116
    &&& s[a + 2] == 61
}

/// The percent-decoded value of the `xt=` segment at `a`.
pub open spec fn xt_raw(s: Seq<u8>, a: int) -> Seq<u8> {
    pct_decoded(s.subrange(a + 3, seg_end(s, a)))
}

/// The `urn:btih:` prefix every `xt` value must carry.
pub open spec fn urn_btih() -> Seq<u8> {
    seq![117u8, 114u8, 110u8, 58u8, 98u8, 116u8, 105u8, 104u8, 58u8]
}

/// The `magnet:?` scheme prefix.
pub open spec fn magnet_scheme() -> Seq<u8> {
    seq![109u8, 97u8, 103u8, 110u8, 101u8, 116u8, 58u8, 63u8]
}

/// The 20 bytes spelled by 40 hex digits, two per byte.
pub open spec fn hex_pairs(t: Seq<u8>) -> Seq<u8> {
    Seq::new(
        20,
        |i: int| (crate::digest::hex_val(t[2 * i]) * 16 + crate::digest::hex_val(t[2 * i + 1])) as u8,
    )
}

/// The 20 bytes spelled by 32 base32 characters, five-character groups read
/// big-endian.
pub open spec fn b32_bytes(t: Seq<u8>) -> Seq<u8> {
    Seq::new(
        20,
        |i: int|
            {
                let g = b32_group(t.subrange(8 * (i / 5), 8 * (i / 5) + 8));
                if i % 5 == 0 {
                    (g / 0x1_0000_0000) as u8
                } else if i % 5 == 1 {
                    ((g / 0x100_0000) % 256) as u8
                } else if i % 5 == 2 {
                    ((g / 0x1_0000) % 256) as u8
                } else if i % 5 == 3 {
                    ((g / 0x100) % 256) as u8
                } else {
                    (g % 256) as u8
                }
            },
    )
}

/// The info-hash an `xt` value names: its `urn:btih:` tail read as 40 hex
/// digits or as 32 base32 characters. `None` when the value has neither
/// form.
pub open spec fn xt_hash_of(val: Seq<u8>) -> Option<Seq<u8>> {
    if val.len() >= 9 && val.take(9) == urn_btih() {
        if val.len() - 9 == 40 && (forall|i: int|
            0 <= i < 40 ==> crate::digest::is_hex_digit(#[trigger] val.skip(9)[i])) {
            Some(hex_pairs(val.skip(9)))
        } else if val.len() - 9 == 32 && (forall|i: int|
            0 <= i < 32 ==> is_b32(#[trigger] val.skip(9)[i])) {
            Some(b32_bytes(val.skip(9)))
        } else {
            None
        }
    } else {
        None
    }
}

/// Parses a magnet URI: the `magnet:?` scheme followed by `&`-separated
/// `key=value` pairs with percent-decoded values. Succeeds exactly when the
/// scheme is right, at least one `xt=` pair stands in the query, and every
/// `xt=` pair names a well-formed `urn:btih:` info-hash; the parsed hash is
/// the one an `xt` pair of the input names.
pub fn parse_magnet_link(input: &[u8]) -> (r: Result<MagnetLink, TorrentError>)
    ensures
        r is Ok <==> input@.len() >= 8 && input@.take(8) == magnet_scheme() && (exists|a: int|
            #[trigger] seg_is_xt(input@, a)) && (forall|a: int|
            #[trigger] seg_is_xt(input@, a) ==> xt_hash_of(xt_raw(input@, a)) is Some),
        r matches Ok(m) ==> {
            &&& m.wf()
            &&& exists|a: int|
                #[trigger] seg_is_xt(input@, a) && xt_hash_of(xt_raw(input@, a)) == Some(
                    m.info_hash@,
                )
        },
        r matches Err(e) ==> e == TorrentError::MalformedMagnet,
{
    let scheme: Vec<u8> = vec![109u8, 97u8, 103u8, 110u8, 101u8, 116u8, 58u8, 63u8];
    proof {
        assert(scheme@ =~= magnet_scheme());
    }
    if input.len() < 8 {
        return Err(TorrentError::MalformedMagnet);
    }
    if !crate::bencode::bytes_eq(slice_subrange(input, 0, 8), scheme.as_slice()) {
        proof {
            assert(input@.take(8) =~= input@.subrange(0, 8));
        }
        return Err(TorrentError::MalformedMagnet);
    }
    proof {
        assert(input@.take(8) =~= input@.subrange(0, 8));
    }
    let mut info_hash: Option<Vec<u8>> = None;
    let mut display_name: Option<Vec<u8>> = None;
    let mut trackers: Vec<Vec<u8>> = Vec::new();
    let mut cur: usize = 8;
    loop
        invariant_except_break
            info_hash is None ==> (forall|a: int| a < cur ==> !(#[trigger] seg_is_xt(input@, a))),
            info_hash matches Some(h) ==> h@.len() == 20 && (exists|a: int|
                a < cur && #[trigger] seg_is_xt(input@, a) && xt_hash_of(xt_raw(input@, a))
                    == Some(h@)),
            forall|a: int|
                a < cur && #[trigger] seg_is_xt(input@, a) ==> xt_hash_of(xt_raw(input@, a))
                    is Some,
        invariant
            8 <= cur <= input@.len(),
            input@.len() >= 8,
            input@.take(8) == magnet_scheme(),
            is_seg_start(input@, cur as int),
        ensures
            input@.len() >= 8,
            input@.take(8) == magnet_scheme(),
            info_hash is None ==> (forall|a: int| !(#[trigger] seg_is_xt(input@, a))),
            info_hash matches Some(h) ==> h@.len() == 20 && (exists|a: int|
                #[trigger] seg_is_xt(input@, a) && xt_hash_of(xt_raw(input@, a)) == Some(h@)),
            forall|a: int|
                #[trigger] seg_is_xt(input@, a) ==> xt_hash_of(xt_raw(input@, a)) is Some,
        decreases input@.len() + 1 - cur,
    {
        let mut amp: usize = cur;
        proof {
            lemma_seg_end_props(input@, cur as int);
        }
        while amp < input.len() && *slice_index_get(input, amp) != 38
            invariant
                cur <= amp <= input@.len(),
                seg_end(input@, cur as int) == seg_end(input@, amp as int),
            decreases input@.len() - amp,
        {
            amp = amp + 1;
        }
        proof {
            assert(seg_end(input@, amp as int) == amp);
            assert(seg_end(input@, cur as int) == amp);
            lemma_seg_end_props(input@, cur as int);
        }
        let seg = slice_subrange(input, cur, amp);
        let mut eq: usize = 0;
        while eq < seg.len() && *slice_index_get(seg, eq) != 61
            invariant
                eq <= seg@.len(),
                seg@ == input@.subrange(cur as int, amp as int),
                forall|j: int| 0 <= j < eq ==> seg@[j] != 61,
            decreases seg@.len() - eq,
        {
            eq = eq + 1;
        }
        let ghost cur_is_xt = seg_is_xt(input@, cur as int);
        proof {
            // the exec `xt=` test and the spec segment shape agree
            if cur_is_xt {
                assert(input@[cur as int] == seg@[0]);
                assert(input@[cur + 1] == seg@[1]);
                assert(input@[cur + 2] == seg@[2]);
                assert(seg@.len() >= 3);
                assert(eq == 2) by {
                    if eq < 2 {
                        assert(seg@[eq as int] == 61);
                    }
                    if eq > 2 {
                        assert(seg@[2] != 61);
                    }
                }
            }
        }
        if eq < seg.len() {
            let key = slice_subrange(seg, 0, eq);
            let val = percent_decode(slice_subrange(seg, eq + 1, seg.len()));
            let xt_key: Vec<u8> = vec![120u8, 116u8];
            let dn_key: Vec<u8> = vec![100u8, 110u8];
            let tr_key: Vec<u8> = vec![116u8, 114u8];
            if crate::bencode::bytes_eq(key, xt_key.as_slice()) {
                proof {
                    assert(key@ =~= seq![120u8, 116u8]);
                    assert(key@ == input@.subrange(cur as int, amp as int).subrange(0, eq as int));
                    assert(key@.len() == eq);
                    assert(eq == 2);
                    assert(seg@[0] == 120 && seg@[1] == 116 && seg@[2] == 61);
                    assert(seg_is_xt(input@, cur as int)) by {
                        assert(input@[cur as int] == seg@[0]);
                        assert(input@[cur + 1] == seg@[1]);
                        assert(input@[cur + 2] == seg@[2]);
                    }
                    assert(seg@.subrange(3, seg@.len() as int) =~= input@.subrange(
                        cur + 3,
                        amp as int,
                    ));
                    assert(val@ == xt_raw(input@, cur as int));
                }
                let urn: Vec<u8> = vec![117u8, 114u8, 110u8, 58u8, 98u8, 116u8, 105u8, 104u8, 58u8];
                proof {
                    assert(urn@ =~= urn_btih());
                }
                if val.len() < 9 {
                    proof {
                        assert(xt_hash_of(val@) is None);
                    }
                    return Err(TorrentError::MalformedMagnet);
                }
                if !crate::bencode::bytes_eq(
                    slice_subrange(val.as_slice(), 0, 9),
                    urn.as_slice(),
                ) {
                    proof {
                        assert(val@.take(9) =~= val@.subrange(0, 9));
                        assert(xt_hash_of(val@) is None);
                    }
                    return Err(TorrentError::MalformedMagnet);
                }
                proof {
                    assert(val@.take(9) =~= val@.subrange(0, 9));
                }
                let tail = slice_subrange(val.as_slice(), 9, val.len());
                proof {
                    assert(tail@ =~= val@.skip(9));
                }
                if tail.len() == 40 {
                    match hex_decode(tail) {
                        Some(h) => {
                            proof {
                                assert(h@ =~= hex_pairs(val@.skip(9)));
                                assert(xt_hash_of(val@) == Some(h@));
                            }
                            info_hash = Some(h);
                        },
                        None => {
                            proof {
                                assert(xt_hash_of(val@) is None);
                            }
                            return Err(TorrentError::MalformedMagnet);
                        },
                    }
                } else if tail.len() == 32 {
                    match base32_decode_160(tail) {
                        Some(h) => {
                            proof {
                                assert forall|i: int| 0 <= i < 20 implies h@[i] == b32_bytes(
                                    val@.skip(9),
                                )[i] by {
                                    let c = i / 5;
                                    assert(0 <= c < 4);
                                    assert(i == 5 * c + i % 5);
                                }
                                assert(h@ =~= b32_bytes(val@.skip(9)));
                                assert(xt_hash_of(val@) == Some(h@));
                            }
                            info_hash = Some(h);
                        },
                        None => {
                            proof {
                                assert(xt_hash_of(val@) is None);
                            }
                            return Err(TorrentError::MalformedMagnet);
                        },
                    }
                } else {
                    proof {
                        assert(xt_hash_of(val@) is None);
                    }
                    return Err(TorrentError::MalformedMagnet);
                }
            } else {
                proof {
                    assert(!cur_is_xt) by {
                        if cur_is_xt {
                            assert(key@ =~= seq![120u8, 116u8]);
                        }
                    }
                }
                if crate::bencode::bytes_eq(key, dn_key.as_slice()) {
                    display_name = Some(val);
                } else if crate::bencode::bytes_eq(key, tr_key.as_slice()) {
                    trackers.push(val);
                }
            }
        } else {
            proof {
                assert(!cur_is_xt);
            }
        }
        proof {
            // no segment starts strictly inside the one just processed
            assert forall|a: int| cur < a < amp + 1 implies !is_seg_start(input@, a) by {
                if is_seg_start(input@, a) {
                    assert(input@[a - 1] == 38);
                    assert(cur <= a - 1 < seg_end(input@, cur as int));
                }
            }
        }
        if amp >= input.len() {
            proof {
                assert forall|a: int| #[trigger] seg_is_xt(input@, a) implies a < amp + 1 by {
                    assert(is_seg_start(input@, a));
                }
            }
            break ;
        }
        cur = amp + 1;
    }
    match info_hash {
        Some(h) => Ok(MagnetLink { info_hash: h, display_name, trackers }),
        None => Err(TorrentError::MalformedMagnet),
    }
}

} // verus!
