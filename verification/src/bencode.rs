//! The bencode codec: decoding, canonical encoding, and the byte-preserving
//! location of the `info` dictionary inside a torrent stream.

use vstd::prelude::*;
use vstd::slice::slice_index_get;
use vstd::slice::slice_subrange;
use vstd::slice::slice_to_vec;

use crate::errors::TorrentError;

verus! {

/// Mathematical model of a bencoded value: the value tree with sequences in
/// place of vectors. Dictionary entries keep the order in which they stand on
/// the wire; canonical encoding sorts them by raw key bytes.
pub enum BValue {
    Bytes(Seq<u8>),
    Int(i64),
    List(Seq<BValue>),
    Dict(Seq<(Seq<u8>, BValue)>),
}

/// Executable bencoded value: a tagged tree of byte strings, integers, lists
/// and dictionaries (key order as decoded).
#[derive(Debug)]
pub enum Bencode {
    Bytes(Vec<u8>),
    Int(i64),
    List(Vec<Bencode>),
    Dict(Vec<(Vec<u8>, Bencode)>),
}

/// Deep view of an executable value as its mathematical model.
pub open spec fn bval(v: Bencode) -> BValue
    decreases v,
{
    match v {
        Bencode::Bytes(s) => BValue::Bytes(s@),
        Bencode::Int(i) => BValue::Int(i),
        Bencode::List(vs) => BValue::List(bval_seq(vs@)),
        Bencode::Dict(ps) => BValue::Dict(bval_pairs(ps@)),
    }
}

pub open spec fn bval_seq(vs: Seq<Bencode>) -> Seq<BValue>
    decreases vs,
{
    if vs.len() == 0 {
        Seq::empty()
    } else {
        bval_seq(vs.drop_last()).push(bval(vs.last()))
    }
}

pub open spec fn bval_pairs(ps: Seq<(Vec<u8>, Bencode)>) -> Seq<(Seq<u8>, BValue)>
    decreases ps,
{
    if ps.len() == 0 {
        Seq::empty()
    } else {
        bval_pairs(ps.drop_last()).push((ps.last().0@, bval(ps.last().1)))
    }
}

impl View for Bencode {
    type V = BValue;

    open spec fn view(&self) -> BValue {
        bval(*self)
    }
}

/// Canonical decimal digits of a natural number, most significant first.
pub open spec fn dec_u(n: nat) -> Seq<u8>
    decreases n,
{
    if n < 10 {
        seq![(48 + n) as u8]
    } else {
        dec_u(n / 10).push((48 + n % 10) as u8)
    }
}

/// Canonical decimal digits of an integer, with a leading minus sign when
/// negative.
pub open spec fn dec_i(i: int) -> Seq<u8>
    decreases (if i < 0 { 1int } else { 0int }),
{
    if i < 0 {
        seq![45u8] + dec_u((-i) as nat)
    } else {
        dec_u(i as nat)
    }
}

/// Wire encoding of one byte string: `<decimal length>:<bytes>`.
pub open spec fn enc_str(s: Seq<u8>) -> Seq<u8> {
    dec_u(s.len()) + seq![58u8] + s
}

/// Wire encoding of a value, with dictionary entries in their stored order.
pub open spec fn enc(v: BValue) -> Seq<u8>
    decreases v,
{
    match v {
        BValue::Bytes(s) => enc_str(s),
        BValue::Int(i) => seq![105u8] + dec_i(i as int) + seq![101u8],
        BValue::List(vs) => seq![108u8] + enc_seq(vs) + seq![101u8],
        BValue::Dict(ps) => seq![100u8] + enc_pairs(ps) + seq![101u8],
    }
}

/// Wire encoding of a run of list elements.
pub open spec fn enc_seq(vs: Seq<BValue>) -> Seq<u8>
    decreases vs,
{
    if vs.len() == 0 {
        Seq::empty()
    } else {
        enc(vs[0]) + enc_seq(vs.drop_first())
    }
}

/// Wire encoding of a run of dictionary entries.
pub open spec fn enc_pairs(ps: Seq<(Seq<u8>, BValue)>) -> Seq<u8>
    decreases ps,
{
    if ps.len() == 0 {
        Seq::empty()
    } else {
        enc_str(ps[0].0) + enc(ps[0].1) + enc_pairs(ps.drop_first())
    }
}

/// Appending one element to a run extends its encoding on the right.
pub proof fn lemma_enc_seq_push(s: Seq<BValue>, x: BValue)
    ensures
        enc_seq(s.push(x)) == enc_seq(s) + enc(x),
    decreases s.len(),
{
    if s.len() == 0 {
        assert(s.push(x).drop_first() =~= Seq::<BValue>::empty());
        assert(s.push(x)[0] == x);
        assert(enc_seq(s.push(x)) == enc(x) + enc_seq(Seq::<BValue>::empty()));
        assert(enc_seq(s.push(x)) =~= enc_seq(s) + enc(x));
    } else {
        assert(s.push(x).drop_first() =~= s.drop_first().push(x));
        lemma_enc_seq_push(s.drop_first(), x);
        assert(s.push(x)[0] == s[0]);
        assert(s.push(x).len() != 0);
        assert(enc_seq(s.push(x)) == enc(s.push(x)[0]) + enc_seq(s.push(x).drop_first()));
        assert(enc_seq(s.push(x)) == enc(s[0]) + (enc_seq(s.drop_first()) + enc(x)));
        assert(enc_seq(s) == enc(s[0]) + enc_seq(s.drop_first()));
        assert(enc_seq(s.push(x)) =~= enc_seq(s) + enc(x));
    }
}

/// Appending one entry to a dictionary run extends its encoding on the right.
pub proof fn lemma_enc_pairs_push(ps: Seq<(Seq<u8>, BValue)>, k: Seq<u8>, v: BValue)
    ensures
        enc_pairs(ps.push((k, v))) == enc_pairs(ps) + enc_str(k) + enc(v),
    decreases ps.len(),
{
    if ps.len() == 0 {
        assert(ps.push((k, v)).drop_first() =~= Seq::<(Seq<u8>, BValue)>::empty());
        assert(ps.push((k, v))[0] == (k, v));
        assert(enc_pairs(ps.push((k, v))) == enc_str(k) + enc(v) + enc_pairs(
            Seq::<(Seq<u8>, BValue)>::empty(),
        ));
        assert(enc_pairs(ps.push((k, v))) =~= enc_pairs(ps) + enc_str(k) + enc(v));
    } else {
        assert(ps.push((k, v)).drop_first() =~= ps.drop_first().push((k, v)));
        lemma_enc_pairs_push(ps.drop_first(), k, v);
        assert(ps.push((k, v))[0] == ps[0]);
        assert(ps.push((k, v)).len() != 0);
        assert(enc_pairs(ps.push((k, v))) == enc_str(ps.push((k, v))[0].0) + enc(
            ps.push((k, v))[0].1,
        ) + enc_pairs(ps.push((k, v)).drop_first()));
        assert(enc_pairs(ps.push((k, v))) == enc_str(ps[0].0) + enc(ps[0].1) + (enc_pairs(
            ps.drop_first(),
        ) + enc_str(k) + enc(v)));
        assert(enc_pairs(ps) == enc_str(ps[0].0) + enc(ps[0].1) + enc_pairs(ps.drop_first()));
        assert(enc_pairs(ps.push((k, v))) =~= enc_pairs(ps) + enc_str(k) + enc(v));
    }
}

/// Lexicographic order on raw byte strings: the order canonical encoding
/// gives to dictionary keys.
pub open spec fn lex_le(a: Seq<u8>, b: Seq<u8>) -> bool
    decreases a.len(),
{
    if a.len() == 0 {
        true
    } else if b.len() == 0 {
        false
    } else if a[0] < b[0] {
        true
    } else if a[0] > b[0] {
        false
    } else {
        lex_le(a.drop_first(), b.drop_first())
    }
}

/// Inserts an entry into a run of dictionary entries, before the first entry
/// whose key is not smaller.
pub open spec fn insert_sorted(p: (Seq<u8>, BValue), ps: Seq<(Seq<u8>, BValue)>) -> Seq<
    (Seq<u8>, BValue),
>
    decreases ps.len(),
{
    if ps.len() == 0 {
        seq![p]
    } else if lex_le(p.0, ps[0].0) {
        seq![p] + ps
    } else {
        seq![ps[0]] + insert_sorted(p, ps.drop_first())
    }
}

/// Sorts a run of dictionary entries by key, by insertion in stored order.
pub open spec fn sort_pairs(ps: Seq<(Seq<u8>, BValue)>) -> Seq<(Seq<u8>, BValue)>
    decreases ps.len(),
{
    if ps.len() == 0 {
        Seq::empty()
    } else {
        insert_sorted(ps.last(), sort_pairs(ps.drop_last()))
    }
}

/// Canonical form of a value: the same tree with every dictionary sorted by
/// raw key bytes. Canonical re-encoding is `enc` of this form.
pub open spec fn canon(v: BValue) -> BValue
    decreases v,
{
    match v {
        BValue::Bytes(s) => BValue::Bytes(s),
        BValue::Int(i) => BValue::Int(i),
        BValue::List(vs) => BValue::List(canon_seq(vs)),
        BValue::Dict(ps) => BValue::Dict(sort_pairs(canon_pairs(ps))),
    }
}

pub open spec fn canon_seq(vs: Seq<BValue>) -> Seq<BValue>
    decreases vs,
{
    if vs.len() == 0 {
        Seq::empty()
    } else {
        canon_seq(vs.drop_last()).push(canon(vs.last()))
    }
}

pub open spec fn canon_pairs(ps: Seq<(Seq<u8>, BValue)>) -> Seq<(Seq<u8>, BValue)>
    decreases ps,
{
    if ps.len() == 0 {
        Seq::empty()
    } else {
        canon_pairs(ps.drop_last()).push((ps.last().0, canon(ps.last().1)))
    }
}

/// Whether every dictionary in the tree has its keys in non-decreasing
/// lexicographic order.
pub open spec fn dicts_sorted(v: BValue) -> bool
    decreases v,
{
    match v {
        BValue::Bytes(_) => true,
        BValue::Int(_) => true,
        BValue::List(vs) => dicts_sorted_seq(vs),
        BValue::Dict(ps) => pairs_le_sorted(ps) && dicts_sorted_pairs(ps),
    }
}

pub open spec fn dicts_sorted_seq(vs: Seq<BValue>) -> bool
    decreases vs,
{
    forall|i: int| 0 <= i < vs.len() ==> dicts_sorted(#[trigger] vs[i])
}

pub open spec fn dicts_sorted_pairs(ps: Seq<(Seq<u8>, BValue)>) -> bool
    decreases ps,
{
    forall|i: int| 0 <= i < ps.len() ==> dicts_sorted(#[trigger] ps[i].1)
}

/// Whether the keys of one run of entries are in non-decreasing order.
pub open spec fn pairs_le_sorted(ps: Seq<(Seq<u8>, BValue)>) -> bool {
    forall|i: int, j: int|
        0 <= i < j < ps.len() ==> lex_le((#[trigger] ps[i]).0, (#[trigger] ps[j]).0)
}

/// Whether the keys are in strictly increasing order, as the grammar demands
/// of a well-formed stream.
pub open spec fn pairs_strict_sorted(ps: Seq<(Seq<u8>, BValue)>) -> bool {
    forall|i: int, j: int|
        0 <= i < j < ps.len() ==> lex_le((#[trigger] ps[i]).0, (#[trigger] ps[j]).0) && ps[i].0
            != ps[j].0
}

/// Membership of `bval_seq`: it maps elements pointwise.
pub proof fn lemma_bval_seq_index(vs: Seq<Bencode>)
    ensures
        bval_seq(vs).len() == vs.len(),
        forall|j: int| 0 <= j < vs.len() ==> bval_seq(vs)[j] == bval(#[trigger] vs[j]),
    decreases vs.len(),
{
    if vs.len() > 0 {
        lemma_bval_seq_index(vs.drop_last());
        assert forall|j: int| 0 <= j < vs.len() implies bval_seq(vs)[j] == bval(
            #[trigger] vs[j],
        ) by {
            if j < vs.len() - 1 {
                assert(vs.drop_last()[j] == vs[j]);
                assert(bval_seq(vs)[j] == bval_seq(vs.drop_last())[j]);
            } else {
                assert(vs.last() == vs[j]);
            }
        }
    }
}

/// Membership of `bval_pairs`: it maps entries pointwise.
pub proof fn lemma_bval_pairs_index(ps: Seq<(Vec<u8>, Bencode)>)
    ensures
        bval_pairs(ps).len() == ps.len(),
        forall|j: int|
            0 <= j < ps.len() ==> bval_pairs(ps)[j] == ((#[trigger] ps[j]).0@, bval(ps[j].1)),
    decreases ps.len(),
{
    if ps.len() > 0 {
        lemma_bval_pairs_index(ps.drop_last());
        assert forall|j: int|
            0 <= j < ps.len() implies bval_pairs(ps)[j] == ((#[trigger] ps[j]).0@, bval(
            ps[j].1,
        )) by {
            if j < ps.len() - 1 {
                assert(ps.drop_last()[j] == ps[j]);
                assert(bval_pairs(ps)[j] == bval_pairs(ps.drop_last())[j]);
            } else {
                assert(ps.last() == ps[j]);
            }
        }
    }
}

/// Membership of `canon_seq`: it maps elements pointwise.
pub proof fn lemma_canon_seq_index(vs: Seq<BValue>)
    ensures
        canon_seq(vs).len() == vs.len(),
        forall|j: int| 0 <= j < vs.len() ==> canon_seq(vs)[j] == canon(#[trigger] vs[j]),
    decreases vs.len(),
{
    if vs.len() > 0 {
        lemma_canon_seq_index(vs.drop_last());
        assert forall|j: int| 0 <= j < vs.len() implies canon_seq(vs)[j] == canon(
            #[trigger] vs[j],
        ) by {
            if j < vs.len() - 1 {
                assert(vs.drop_last()[j] == vs[j]);
                assert(canon_seq(vs)[j] == canon_seq(vs.drop_last())[j]);
            } else {
                assert(vs.last() == vs[j]);
            }
        }
    }
}

/// Membership of `canon_pairs`: it keeps keys and canonicalises values.
pub proof fn lemma_canon_pairs_index(ps: Seq<(Seq<u8>, BValue)>)
    ensures
        canon_pairs(ps).len() == ps.len(),
        forall|j: int|
            0 <= j < ps.len() ==> canon_pairs(ps)[j] == ((#[trigger] ps[j]).0, canon(ps[j].1)),
    decreases ps.len(),
{
    if ps.len() > 0 {
        lemma_canon_pairs_index(ps.drop_last());
        assert forall|j: int|
            0 <= j < ps.len() implies canon_pairs(ps)[j] == ((#[trigger] ps[j]).0, canon(
            ps[j].1,
        )) by {
            if j < ps.len() - 1 {
                assert(ps.drop_last()[j] == ps[j]);
                assert(canon_pairs(ps)[j] == canon_pairs(ps.drop_last())[j]);
            } else {
                assert(ps.last() == ps[j]);
            }
        }
    }
}

/// Where `insert_sorted` puts the new entry: at the first index whose key is
/// not smaller than the new key.
pub proof fn lemma_insert_sorted_at(p: (Seq<u8>, BValue), ps: Seq<(Seq<u8>, BValue)>, j: int)
    requires
        0 <= j <= ps.len(),
        forall|i: int| 0 <= i < j ==> !lex_le(p.0, (#[trigger] ps[i]).0),
        j < ps.len() ==> lex_le(p.0, ps[j].0),
    ensures
        insert_sorted(p, ps) == ps.take(j) + seq![p] + ps.skip(j),
    decreases ps.len(),
{
    if ps.len() == 0 {
        assert(insert_sorted(p, ps) =~= ps.take(j) + seq![p] + ps.skip(j));
    } else if j == 0 {
        assert(lex_le(p.0, ps[0].0));
        assert(insert_sorted(p, ps) =~= ps.take(0) + seq![p] + ps.skip(0));
    } else {
        assert(!lex_le(p.0, ps[0].0));
        lemma_insert_sorted_at(p, ps.drop_first(), j - 1);
        assert(ps.drop_first().take(j - 1) =~= ps.take(j).drop_first());
        assert(ps.drop_first().skip(j - 1) =~= ps.skip(j));
        assert(insert_sorted(p, ps) =~= ps.take(j) + seq![p] + ps.skip(j));
    }
}

/// Whether every dictionary in the tree has strictly increasing keys, as the
/// grammar demands of a well-formed stream.
pub open spec fn dicts_strict_sorted(v: BValue) -> bool
    decreases v,
{
    match v {
        BValue::Bytes(_) => true,
        BValue::Int(_) => true,
        BValue::List(vs) => dicts_strict_sorted_seq(vs),
        BValue::Dict(ps) => pairs_strict_sorted(ps) && dicts_strict_sorted_pairs(ps),
    }
}

pub open spec fn dicts_strict_sorted_seq(vs: Seq<BValue>) -> bool
    decreases vs,
{
    forall|i: int| 0 <= i < vs.len() ==> dicts_strict_sorted(#[trigger] vs[i])
}

pub open spec fn dicts_strict_sorted_pairs(ps: Seq<(Seq<u8>, BValue)>) -> bool
    decreases ps,
{
    forall|i: int| 0 <= i < ps.len() ==> dicts_strict_sorted(#[trigger] ps[i].1)
}

proof fn lemma_lex_le_total(a: Seq<u8>, b: Seq<u8>)
    ensures
        lex_le(a, b) || lex_le(b, a),
    decreases a.len(),
{
    if a.len() > 0 && b.len() > 0 && a[0] == b[0] {
        lemma_lex_le_total(a.drop_first(), b.drop_first());
    }
}

proof fn lemma_lex_le_antisym(a: Seq<u8>, b: Seq<u8>)
    requires
        lex_le(a, b),
        lex_le(b, a),
    ensures
        a == b,
    decreases a.len(),
{
    if a.len() == 0 {
        assert(a =~= b);
    } else {
        assert(b.len() > 0);
        assert(a[0] == b[0]);
        lemma_lex_le_antisym(a.drop_first(), b.drop_first());
        assert forall|i: int| 0 <= i < a.len() implies a[i] == b[i] by {
            if i > 0 {
                assert(a[i] == a.drop_first()[i - 1]);
                assert(b[i] == b.drop_first()[i - 1]);
            }
        }
        assert(a =~= b);
    }
}

proof fn lemma_lex_le_trans(a: Seq<u8>, b: Seq<u8>, c: Seq<u8>)
    requires
        lex_le(a, b),
        lex_le(b, c),
    ensures
        lex_le(a, c),
    decreases a.len(),
{
    if a.len() == 0 {
    } else {
        assert(b.len() > 0);
        assert(c.len() > 0);
        if a[0] == b[0] && b[0] == c[0] {
            lemma_lex_le_trans(a.drop_first(), b.drop_first(), c.drop_first());
        }
    }
}

proof fn lemma_insert_sorted_membership(p: (Seq<u8>, BValue), ps: Seq<(Seq<u8>, BValue)>)
    ensures
        insert_sorted(p, ps).len() == ps.len() + 1,
        forall|t: int|
            0 <= t < insert_sorted(p, ps).len() ==> (#[trigger] insert_sorted(p, ps)[t] == p
                || ps.contains(insert_sorted(p, ps)[t])),
    decreases ps.len(),
{
    let res = insert_sorted(p, ps);
    if ps.len() == 0 {
    } else if lex_le(p.0, ps[0].0) {
        assert forall|t: int| 0 <= t < res.len() implies (#[trigger] res[t] == p || ps.contains(
            res[t],
        )) by {
            if t > 0 {
                assert(res[t] == ps[t - 1]);
                assert(ps.contains(res[t]));
            }
        }
    } else {
        lemma_insert_sorted_membership(p, ps.drop_first());
        let rec = insert_sorted(p, ps.drop_first());
        assert forall|t: int| 0 <= t < res.len() implies (#[trigger] res[t] == p || ps.contains(
            res[t],
        )) by {
            if t == 0 {
                assert(res[0] == ps[0]);
                assert(ps.contains(res[0]));
            } else {
                assert(res[t] == rec[t - 1]);
                if rec[t - 1] == p {
                } else {
                    assert(ps.drop_first().contains(rec[t - 1]));
                    let i = choose|i: int|
                        0 <= i < ps.drop_first().len() && ps.drop_first()[i] == rec[t - 1];
                    assert(ps[i + 1] == rec[t - 1]);
                    assert(ps.contains(res[t]));
                }
            }
        }
    }
}

proof fn lemma_insert_sorted_le(p: (Seq<u8>, BValue), ps: Seq<(Seq<u8>, BValue)>)
    requires
        pairs_le_sorted(ps),
    ensures
        pairs_le_sorted(insert_sorted(p, ps)),
    decreases ps.len(),
{
    let res = insert_sorted(p, ps);
    if ps.len() == 0 {
    } else if lex_le(p.0, ps[0].0) {
        assert forall|i: int, j: int| 0 <= i < j < res.len() implies lex_le(
            res[i].0,
            res[j].0,
        ) by {
            if i == 0 {
                assert(res[j] == ps[j - 1]);
                if j == 1 {
                } else {
                    assert(lex_le(ps[0].0, ps[j - 1].0));
                    lemma_lex_le_trans(p.0, ps[0].0, ps[j - 1].0);
                }
            } else {
                assert(res[i] == ps[i - 1]);
                assert(res[j] == ps[j - 1]);
            }
        }
    } else {
        assert(pairs_le_sorted(ps.drop_first())) by {
            assert forall|i: int, j: int|
                0 <= i < j < ps.drop_first().len() implies lex_le(
                ps.drop_first()[i].0,
                ps.drop_first()[j].0,
            ) by {
                assert(ps.drop_first()[i] == ps[i + 1]);
                assert(ps.drop_first()[j] == ps[j + 1]);
            }
        }
        lemma_insert_sorted_le(p, ps.drop_first());
        lemma_insert_sorted_membership(p, ps.drop_first());
        lemma_lex_le_total(p.0, ps[0].0);
        let rec = insert_sorted(p, ps.drop_first());
        assert forall|i: int, j: int| 0 <= i < j < res.len() implies lex_le(
            res[i].0,
            res[j].0,
        ) by {
            if i == 0 {
                assert(res[j] == rec[j - 1]);
                if rec[j - 1] == p {
                    assert(lex_le(ps[0].0, p.0));
                } else {
                    assert(ps.drop_first().contains(rec[j - 1]));
                    let t = choose|t: int|
                        0 <= t < ps.drop_first().len() && ps.drop_first()[t] == rec[j - 1];
                    assert(ps[t + 1] == rec[j - 1]);
                    assert(lex_le(ps[0].0, ps[t + 1].0));
                }
            } else {
                assert(res[i] == rec[i - 1]);
                assert(res[j] == rec[j - 1]);
            }
        }
    }
}

proof fn lemma_sort_pairs_props(ps: Seq<(Seq<u8>, BValue)>)
    ensures
        sort_pairs(ps).len() == ps.len(),
        pairs_le_sorted(sort_pairs(ps)),
        forall|t: int| 0 <= t < sort_pairs(ps).len() ==> ps.contains(#[trigger] sort_pairs(ps)[t]),
    decreases ps.len(),
{
    if ps.len() > 0 {
        lemma_sort_pairs_props(ps.drop_last());
        lemma_insert_sorted_le(ps.last(), sort_pairs(ps.drop_last()));
        lemma_insert_sorted_membership(ps.last(), sort_pairs(ps.drop_last()));
        let res = sort_pairs(ps);
        assert forall|t: int| 0 <= t < res.len() implies ps.contains(#[trigger] res[t]) by {
            if res[t] == ps.last() {
                assert(ps[ps.len() - 1] == res[t]);
                assert(ps.contains(res[t]));
            } else {
                assert(sort_pairs(ps.drop_last()).contains(res[t]));
                let i = choose|i: int|
                    0 <= i < sort_pairs(ps.drop_last()).len() && sort_pairs(ps.drop_last())[i]
                        == res[t];
                assert(ps.drop_last().contains(res[t]));
                let j = choose|j: int|
                    0 <= j < ps.drop_last().len() && ps.drop_last()[j] == res[t];
                assert(ps[j] == res[t]);
                assert(ps.contains(res[t]));
            }
        }
    }
}

/// Canonicalisation really sorts: every dictionary of `canon(v)` has its keys
/// in order.
pub proof fn lemma_canon_sorted(v: BValue)
    ensures
        dicts_sorted(canon(v)),
    decreases v,
{
    match v {
        BValue::Bytes(_) => {},
        BValue::Int(_) => {},
        BValue::List(vs) => {
            lemma_canon_seq_index(vs);
            assert forall|i: int|
                0 <= i < canon_seq(vs).len() implies dicts_sorted(#[trigger] canon_seq(vs)[i]) by {
                lemma_canon_sorted(vs[i]);
            }
        },
        BValue::Dict(ps) => {
            lemma_canon_pairs_index(ps);
            lemma_sort_pairs_props(canon_pairs(ps));
            let sp = sort_pairs(canon_pairs(ps));
            assert forall|t: int| 0 <= t < sp.len() implies dicts_sorted(#[trigger] sp[t].1) by {
                assert(canon_pairs(ps).contains(sp[t]));
                let s = choose|s: int|
                    0 <= s < canon_pairs(ps).len() && canon_pairs(ps)[s] == sp[t];
                assert(canon_pairs(ps)[s] == (ps[s].0, canon(ps[s].1)));
                lemma_canon_sorted(ps[s].1);
            }
        },
    }
}

proof fn lemma_insert_at_end(p: (Seq<u8>, BValue), ps: Seq<(Seq<u8>, BValue)>)
    requires
        forall|t: int| 0 <= t < ps.len() ==> lex_le((#[trigger] ps[t]).0, p.0) && ps[t].0 != p.0,
    ensures
        insert_sorted(p, ps) == ps.push(p),
    decreases ps.len(),
{
    if ps.len() == 0 {
        assert(insert_sorted(p, ps) =~= ps.push(p));
    } else {
        if lex_le(p.0, ps[0].0) {
            lemma_lex_le_antisym(p.0, ps[0].0);
            assert(false);
        }
        assert forall|t: int|
            0 <= t < ps.drop_first().len() implies lex_le((#[trigger] ps.drop_first()[t]).0, p.0)
            && ps.drop_first()[t].0 != p.0 by {
            assert(ps.drop_first()[t] == ps[t + 1]);
        }
        lemma_insert_at_end(p, ps.drop_first());
        assert(insert_sorted(p, ps) =~= ps.push(p));
    }
}

proof fn lemma_sort_id(ps: Seq<(Seq<u8>, BValue)>)
    requires
        pairs_strict_sorted(ps),
    ensures
        sort_pairs(ps) == ps,
    decreases ps.len(),
{
    if ps.len() > 0 {
        assert forall|i: int, j: int|
            0 <= i < j < ps.drop_last().len() implies lex_le(
            (#[trigger] ps.drop_last()[i]).0,
            (#[trigger] ps.drop_last()[j]).0,
        ) && ps.drop_last()[i].0 != ps.drop_last()[j].0 by {
            assert(ps.drop_last()[i] == ps[i]);
            assert(ps.drop_last()[j] == ps[j]);
            assert(lex_le(ps[i].0, ps[j].0) && ps[i].0 != ps[j].0);
        }
        lemma_sort_id(ps.drop_last());
        assert forall|t: int|
            0 <= t < ps.drop_last().len() implies lex_le(
            (#[trigger] ps.drop_last()[t]).0,
            ps.last().0,
        ) && ps.drop_last()[t].0 != ps.last().0 by {
            assert(ps.drop_last()[t] == ps[t]);
            assert(ps.last() == ps[ps.len() - 1]);
            assert(lex_le(ps[t].0, ps[ps.len() - 1].0) && ps[t].0 != ps[ps.len() - 1].0);
        }
        lemma_insert_at_end(ps.last(), ps.drop_last());
        assert(ps.drop_last().push(ps.last()) =~= ps);
    }
}

/// A value whose dictionaries are already strictly sorted is its own
/// canonical form.
pub proof fn lemma_canon_id(v: BValue)
    requires
        dicts_strict_sorted(v),
    ensures
        canon(v) == v,
    decreases v,
{
    match v {
        BValue::Bytes(_) => {},
        BValue::Int(_) => {},
        BValue::List(vs) => {
            lemma_canon_seq_index(vs);
            assert forall|i: int| 0 <= i < vs.len() implies canon_seq(vs)[i] == vs[i] by {
                lemma_canon_id(vs[i]);
            }
            assert(canon_seq(vs) =~= vs);
        },
        BValue::Dict(ps) => {
            lemma_canon_pairs_index(ps);
            assert forall|i: int| 0 <= i < ps.len() implies canon_pairs(ps)[i] == ps[i] by {
                lemma_canon_id(ps[i].1);
                assert(canon_pairs(ps)[i] == (ps[i].0, canon(ps[i].1)));
                assert((ps[i].0, ps[i].1) == ps[i]);
            }
            assert(canon_pairs(ps) =~= ps);
            lemma_sort_id(ps);
        },
    }
}

/// Round trip, sorted case: a decoded value whose dictionary keys were
/// already strictly increasing re-encodes canonically to exactly the bytes it
/// was decoded from.
pub proof fn lemma_round_trip_sorted(v: BValue)
    requires
        dicts_strict_sorted(v),
    ensures
        enc(canon(v)) == enc(v),
{
    lemma_canon_id(v);
}

/// Round trip, converse: if the canonical re-encoding reproduces the wire
/// bytes, every dictionary already had its keys in order.
pub proof fn lemma_round_trip_needs_sorted(v: BValue)
    requires
        enc(canon(v)) == enc(v),
    ensures
        dicts_sorted(v),
{
    lemma_enc_injective(canon(v), v);
    lemma_canon_sorted(v);
}

/// A second decode of the canonical re-encoding can only return the canonical
/// form of the original value, consuming every byte: whatever a sound decoder
/// yields on `enc(canon(v))` is structurally the canonicalised value.
pub proof fn lemma_second_decode_canonical(u: BValue, v: BValue, rest: Seq<u8>)
    requires
        enc(u) + rest == enc(canon(v)),
    ensures
        u == canon(v),
        rest == Seq::<u8>::empty(),
{
    assert(enc(canon(v)) + Seq::<u8>::empty() =~= enc(canon(v)));
    lemma_enc_prefix_free(u, canon(v), rest, Seq::empty());
}

/// An ASCII decimal digit.
pub open spec fn is_digit(b: u8) -> bool {
    48 <= b <= 57
}

proof fn lemma_dec_u_digits(n: nat)
    ensures
        dec_u(n).len() >= 1,
        forall|t: int| 0 <= t < dec_u(n).len() ==> is_digit(#[trigger] dec_u(n)[t]),
    decreases n,
{
    if n >= 10 {
        lemma_dec_u_digits(n / 10);
    }
}

proof fn lemma_dec_u_inj(a: nat, b: nat)
    requires
        dec_u(a) == dec_u(b),
    ensures
        a == b,
    decreases a,
{
    lemma_dec_u_digits(a);
    lemma_dec_u_digits(b);
    if a < 10 && b < 10 {
        assert(dec_u(a) == seq![(48 + a) as u8]);
        assert(dec_u(b) == seq![(48 + b) as u8]);
        assert(dec_u(a)[0] == (48 + a) as u8);
        assert(dec_u(b)[0] == (48 + b) as u8);
        assert((48 + a) as u8 as nat == 48 + a);
        assert((48 + b) as u8 as nat == 48 + b);
    } else if a < 10 && b >= 10 {
        lemma_dec_u_digits(b / 10);
        assert(dec_u(b).len() >= 2);
        assert(false);
    } else if a >= 10 && b < 10 {
        lemma_dec_u_digits(a / 10);
        assert(dec_u(a).len() >= 2);
        assert(false);
    } else {
        assert(dec_u(a) == dec_u(a / 10).push((48 + a % 10) as u8));
        assert(dec_u(b) == dec_u(b / 10).push((48 + b % 10) as u8));
        assert(dec_u(a).last() == (48 + a % 10) as u8);
        assert(dec_u(b).last() == (48 + b % 10) as u8);
        assert(a % 10 < 10 && b % 10 < 10);
        assert((48 + a % 10) as u8 as nat == 48 + a % 10);
        assert((48 + b % 10) as u8 as nat == 48 + b % 10);
        assert(a % 10 == b % 10);
        assert(dec_u(a).drop_last() =~= dec_u(a / 10));
        assert(dec_u(b).drop_last() =~= dec_u(b / 10));
        assert(dec_u(a / 10) == dec_u(b / 10));
        lemma_dec_u_inj(a / 10, b / 10);
        assert(a == 10 * (a / 10) + a % 10);
        assert(b == 10 * (b / 10) + b % 10);
    }
}

/// Two runs of digits with non-digit terminators in one stream coincide.
proof fn lemma_digits_run(d1: Seq<u8>, t1: Seq<u8>, d2: Seq<u8>, t2: Seq<u8>)
    requires
        d1 + t1 == d2 + t2,
        forall|i: int| 0 <= i < d1.len() ==> is_digit(#[trigger] d1[i]),
        forall|i: int| 0 <= i < d2.len() ==> is_digit(#[trigger] d2[i]),
        t1.len() > 0,
        !is_digit(t1[0]),
        t2.len() > 0,
        !is_digit(t2[0]),
    ensures
        d1 == d2,
        t1 == t2,
    decreases d1.len(),
{
    if d1.len() == 0 {
        if d2.len() > 0 {
            assert((d1 + t1)[0] == t1[0]);
            assert((d2 + t2)[0] == d2[0]);
            assert(false);
        }
        assert(d1 =~= d2);
        assert(t1 =~= d1 + t1);
        assert(t2 =~= d2 + t2);
    } else if d2.len() == 0 {
        assert((d1 + t1)[0] == d1[0]);
        assert((d2 + t2)[0] == t2[0]);
        assert(false);
    } else {
        assert((d1 + t1)[0] == d1[0]);
        assert((d2 + t2)[0] == d2[0]);
        assert((d1 + t1).drop_first() =~= d1.drop_first() + t1);
        assert((d2 + t2).drop_first() =~= d2.drop_first() + t2);
        lemma_digits_run(d1.drop_first(), t1, d2.drop_first(), t2);
        assert forall|i: int| 0 <= i < d1.len() implies d1[i] == d2[i] by {
            if i > 0 {
                assert(d1[i] == d1.drop_first()[i - 1]);
                assert(d2[i] == d2.drop_first()[i - 1]);
            }
        }
        assert(d1 =~= d2);
    }
}

/// First byte of a wire encoding names the kind of the value; it is never a
/// terminator or a sign.
proof fn lemma_enc_first(v: BValue)
    ensures
        enc(v).len() >= 1,
        v is Bytes ==> is_digit(enc(v)[0]),
        v is Int ==> enc(v)[0] == 105,
        v is List ==> enc(v)[0] == 108,
        v is Dict ==> enc(v)[0] == 100,
        enc(v)[0] != 101,
        enc(v)[0] != 45,
        enc(v)[0] != 58,
{
    match v {
        BValue::Bytes(s) => {
            lemma_dec_u_digits(s.len());
            assert(enc(v)[0] == dec_u(s.len())[0]);
        },
        BValue::Int(_) => {
            assert(enc(v)[0] == 105);
        },
        BValue::List(_) => {
            assert(enc(v)[0] == 108);
        },
        BValue::Dict(_) => {
            assert(enc(v)[0] == 100);
        },
    }
}

/// Byte-string encodings are prefix-free.
pub proof fn lemma_enc_str_pf(a: Seq<u8>, b: Seq<u8>, r1: Seq<u8>, r2: Seq<u8>)
    requires
        enc_str(a) + r1 == enc_str(b) + r2,
    ensures
        a == b,
        r1 == r2,
{
    lemma_dec_u_digits(a.len());
    lemma_dec_u_digits(b.len());
    assert(enc_str(a) + r1 =~= dec_u(a.len()) + (seq![58u8] + a + r1));
    assert(enc_str(b) + r2 =~= dec_u(b.len()) + (seq![58u8] + b + r2));
    lemma_digits_run(dec_u(a.len()), seq![58u8] + a + r1, dec_u(b.len()), seq![58u8] + b + r2);
    lemma_dec_u_inj(a.len(), b.len());
    assert((seq![58u8] + a + r1).drop_first() =~= a + r1);
    assert((seq![58u8] + b + r2).drop_first() =~= b + r2);
    assert(a + r1 == b + r2);
    assert(a =~= (a + r1).take(a.len() as int));
    assert(b =~= (b + r2).take(b.len() as int));
    assert(r1 =~= (a + r1).skip(a.len() as int));
    assert(r2 =~= (b + r2).skip(b.len() as int));
}

/// Wire encodings are prefix-free: no encoding is a proper prefix of another,
/// so a stream determines the value and the remainder uniquely.
pub proof fn lemma_enc_prefix_free(u: BValue, v: BValue, r1: Seq<u8>, r2: Seq<u8>)
    requires
        enc(u) + r1 == enc(v) + r2,
    ensures
        u == v,
        r1 == r2,
    decreases u,
{
    lemma_enc_first(u);
    lemma_enc_first(v);
    assert((enc(u) + r1)[0] == enc(u)[0]);
    assert((enc(v) + r2)[0] == enc(v)[0]);
    match u {
        BValue::Bytes(a) => {
            assert(v is Bytes);
            let b = v->Bytes_0;
            lemma_enc_str_pf(a, b, r1, r2);
        },
        BValue::Int(a) => {
            assert(v is Int);
            let b = v->Int_0;
            let x1 = dec_i(a as int) + seq![101u8] + r1;
            let x2 = dec_i(b as int) + seq![101u8] + r2;
            assert((enc(u) + r1).drop_first() =~= x1);
            assert((enc(v) + r2).drop_first() =~= x2);
            lemma_dec_u_digits((-(a as int)) as nat);
            lemma_dec_u_digits((-(b as int)) as nat);
            lemma_dec_u_digits(a as nat);
            lemma_dec_u_digits(b as nat);
            if a < 0 && b >= 0 {
                assert(x1[0] == 45);
                assert(x2[0] == dec_u(b as nat)[0]);
                assert(false);
            } else if a >= 0 && b < 0 {
                assert(x1[0] == dec_u(a as nat)[0]);
                assert(x2[0] == 45);
                assert(false);
            } else if a >= 0 && b >= 0 {
                assert(x1 =~= dec_u(a as nat) + (seq![101u8] + r1));
                assert(x2 =~= dec_u(b as nat) + (seq![101u8] + r2));
                lemma_digits_run(dec_u(a as nat), seq![101u8] + r1, dec_u(b as nat), seq![101u8] + r2);
                lemma_dec_u_inj(a as nat, b as nat);
                assert((seq![101u8] + r1).drop_first() =~= r1);
                assert((seq![101u8] + r2).drop_first() =~= r2);
                assert(r1 =~= r2);
            } else {
                assert(x1.drop_first() =~= dec_u((-(a as int)) as nat) + (seq![101u8] + r1));
                assert(x2.drop_first() =~= dec_u((-(b as int)) as nat) + (seq![101u8] + r2));
                lemma_digits_run(
                    dec_u((-(a as int)) as nat),
                    seq![101u8] + r1,
                    dec_u((-(b as int)) as nat),
                    seq![101u8] + r2,
                );
                lemma_dec_u_inj((-(a as int)) as nat, (-(b as int)) as nat);
                assert((seq![101u8] + r1).drop_first() =~= r1);
                assert((seq![101u8] + r2).drop_first() =~= r2);
                assert(r1 =~= r2);
            }
        },
        BValue::List(us) => {
            assert(v is List);
            let vs = v->List_0;
            assert((enc(u) + r1).drop_first() =~= enc_seq(us) + (seq![101u8] + r1));
            assert((enc(v) + r2).drop_first() =~= enc_seq(vs) + (seq![101u8] + r2));
            lemma_enc_seq_pf(us, vs, seq![101u8] + r1, seq![101u8] + r2);
            assert((seq![101u8] + r1).drop_first() =~= r1);
            assert((seq![101u8] + r2).drop_first() =~= r2);
            assert(r1 =~= r2);
        },
        BValue::Dict(ups) => {
            assert(v is Dict);
            let vps = v->Dict_0;
            assert((enc(u) + r1).drop_first() =~= enc_pairs(ups) + (seq![101u8] + r1));
            assert((enc(v) + r2).drop_first() =~= enc_pairs(vps) + (seq![101u8] + r2));
            lemma_enc_pairs_pf(ups, vps, seq![101u8] + r1, seq![101u8] + r2);
            assert((seq![101u8] + r1).drop_first() =~= r1);
            assert((seq![101u8] + r2).drop_first() =~= r2);
            assert(r1 =~= r2);
        },
    }
}

proof fn lemma_enc_seq_pf(us: Seq<BValue>, vs: Seq<BValue>, s1: Seq<u8>, s2: Seq<u8>)
    requires
        enc_seq(us) + s1 == enc_seq(vs) + s2,
        s1.len() > 0,
        s1[0] == 101,
        s2.len() > 0,
        s2[0] == 101,
    ensures
        us == vs,
        s1 == s2,
    decreases us,
{
    if us.len() == 0 && vs.len() == 0 {
        assert(us =~= vs);
        assert(s1 =~= enc_seq(us) + s1);
        assert(s2 =~= enc_seq(vs) + s2);
    } else if us.len() == 0 {
        lemma_enc_first(vs[0]);
        assert((enc_seq(us) + s1)[0] == s1[0]);
        assert(enc_seq(vs) + s2 =~= enc(vs[0]) + (enc_seq(vs.drop_first()) + s2));
        assert((enc(vs[0]) + (enc_seq(vs.drop_first()) + s2))[0] == enc(vs[0])[0]);
        assert(false);
    } else if vs.len() == 0 {
        lemma_enc_first(us[0]);
        assert((enc_seq(vs) + s2)[0] == s2[0]);
        assert(enc_seq(us) + s1 =~= enc(us[0]) + (enc_seq(us.drop_first()) + s1));
        assert((enc(us[0]) + (enc_seq(us.drop_first()) + s1))[0] == enc(us[0])[0]);
        assert(false);
    } else {
        assert(enc_seq(us) + s1 =~= enc(us[0]) + (enc_seq(us.drop_first()) + s1));
        assert(enc_seq(vs) + s2 =~= enc(vs[0]) + (enc_seq(vs.drop_first()) + s2));
        lemma_enc_prefix_free(
            us[0],
            vs[0],
            enc_seq(us.drop_first()) + s1,
            enc_seq(vs.drop_first()) + s2,
        );
        lemma_enc_seq_pf(us.drop_first(), vs.drop_first(), s1, s2);
        assert forall|i: int| 0 <= i < us.len() implies us[i] == vs[i] by {
            if i > 0 {
                assert(us[i] == us.drop_first()[i - 1]);
                assert(vs[i] == vs.drop_first()[i - 1]);
            }
        }
        assert(us =~= vs);
    }
}

proof fn lemma_enc_pairs_pf(
    ups: Seq<(Seq<u8>, BValue)>,
    vps: Seq<(Seq<u8>, BValue)>,
    s1: Seq<u8>,
    s2: Seq<u8>,
)
    requires
        enc_pairs(ups) + s1 == enc_pairs(vps) + s2,
        s1.len() > 0,
        s1[0] == 101,
        s2.len() > 0,
        s2[0] == 101,
    ensures
        ups == vps,
        s1 == s2,
    decreases ups,
{
    if ups.len() == 0 && vps.len() == 0 {
        assert(ups =~= vps);
        assert(s1 =~= enc_pairs(ups) + s1);
        assert(s2 =~= enc_pairs(vps) + s2);
    } else if ups.len() == 0 {
        lemma_dec_u_digits(vps[0].0.len());
        assert((enc_pairs(ups) + s1)[0] == s1[0]);
        assert(enc_pairs(vps) + s2 =~= dec_u(vps[0].0.len()) + (seq![58u8] + vps[0].0 + enc(
            vps[0].1,
        ) + enc_pairs(vps.drop_first()) + s2));
        assert(false);
    } else if vps.len() == 0 {
        lemma_dec_u_digits(ups[0].0.len());
        assert((enc_pairs(vps) + s2)[0] == s2[0]);
        assert(enc_pairs(ups) + s1 =~= dec_u(ups[0].0.len()) + (seq![58u8] + ups[0].0 + enc(
            ups[0].1,
        ) + enc_pairs(ups.drop_first()) + s1));
        assert(false);
    } else {
        assert(enc_pairs(ups) + s1 =~= enc_str(ups[0].0) + (enc(ups[0].1) + (enc_pairs(
            ups.drop_first(),
        ) + s1)));
        assert(enc_pairs(vps) + s2 =~= enc_str(vps[0].0) + (enc(vps[0].1) + (enc_pairs(
            vps.drop_first(),
        ) + s2)));
        lemma_enc_str_pf(
            ups[0].0,
            vps[0].0,
            enc(ups[0].1) + (enc_pairs(ups.drop_first()) + s1),
            enc(vps[0].1) + (enc_pairs(vps.drop_first()) + s2),
        );
        lemma_enc_prefix_free(
            ups[0].1,
            vps[0].1,
            enc_pairs(ups.drop_first()) + s1,
            enc_pairs(vps.drop_first()) + s2,
        );
        lemma_enc_pairs_pf(ups.drop_first(), vps.drop_first(), s1, s2);
        assert(ups[0] == vps[0]);
        assert forall|i: int| 0 <= i < ups.len() implies ups[i] == vps[i] by {
            if i > 0 {
                assert(ups[i] == ups.drop_first()[i - 1]);
                assert(vps[i] == vps.drop_first()[i - 1]);
            }
        }
        assert(ups =~= vps);
    }
}

/// A byte string's encoding opens with a decimal digit and is never empty.
pub proof fn lemma_enc_str_first(k: Seq<u8>)
    ensures
        enc_str(k).len() >= 2,
        is_digit(enc_str(k)[0]),
{
    lemma_dec_u_digits(k.len());
    assert(enc_str(k)[0] == dec_u(k.len())[0]);
}

/// The wire encoding is injective: equal encodings mean equal values.
pub proof fn lemma_enc_injective(u: BValue, v: BValue)
    requires
        enc(u) == enc(v),
    ensures
        u == v,
{
    assert(enc(u) + Seq::<u8>::empty() =~= enc(u));
    assert(enc(v) + Seq::<u8>::empty() =~= enc(v));
    lemma_enc_prefix_free(u, v, Seq::empty(), Seq::empty());
}

/// Whether a byte sequence begins with the wire encoding of some value.
pub open spec fn starts_value(s: Seq<u8>) -> bool {
    exists|v: BValue, rest: Seq<u8>| s == #[trigger] (enc(v) + rest)
}

/// Whether a byte sequence begins with the wire encoding of some byte string.
pub open spec fn starts_string(s: Seq<u8>) -> bool {
    exists|k: Seq<u8>, rest: Seq<u8>| s == #[trigger] (enc_str(k) + rest)
}

/// Numeric value of a run of decimal digit bytes.
pub open spec fn digits_val(ds: Seq<u8>) -> nat
    decreases ds.len(),
{
    if ds.len() == 0 {
        0
    } else {
        digits_val(ds.drop_last()) * 10 + (if ds.last() >= 48 {
            (ds.last() - 48) as nat
        } else {
            0
        })
    }
}

proof fn lemma_digits_val_dec_u(n: nat)
    ensures
        digits_val(dec_u(n)) == n,
    decreases n,
{
    lemma_dec_u_digits(n);
    assert(digits_val(dec_u(n)) == digits_val(dec_u(n).drop_last()) * 10 + ((dec_u(n).last()
        - 48) as nat)) by {
        assert(dec_u(n).len() >= 1);
        assert(dec_u(n).last() >= 48);
    }
    if n < 10 {
        assert(dec_u(n) == seq![(48 + n) as u8]);
        assert(dec_u(n).drop_last() =~= Seq::<u8>::empty());
        assert(digits_val(Seq::<u8>::empty()) == 0);
        assert(dec_u(n).last() == (48 + n) as u8);
        assert((48 + n) as u8 as nat == 48 + n);
        assert(dec_u(n).last() >= 48);
        assert((dec_u(n).last() - 48) as nat == n);
    } else {
        lemma_digits_val_dec_u(n / 10);
        assert(dec_u(n) == dec_u(n / 10).push((48 + n % 10) as u8));
        assert(dec_u(n).drop_last() =~= dec_u(n / 10));
        assert(dec_u(n).last() == (48 + n % 10) as u8);
        assert(n % 10 < 10);
        assert((48 + n % 10) as u8 as nat == 48 + n % 10);
        assert(dec_u(n).last() >= 48);
        assert((dec_u(n).last() - 48) as nat == n % 10);
        assert(n == (n / 10) * 10 + n % 10);
    }
}

proof fn lemma_dec_u_first_nonzero(n: nat)
    requires
        n > 0,
    ensures
        dec_u(n)[0] != 48,
    decreases n,
{
    if n < 10 {
        assert((48 + n) as u8 != 48);
    } else {
        lemma_dec_u_first_nonzero(n / 10);
        lemma_dec_u_digits(n / 10);
        assert(dec_u(n) == dec_u(n / 10).push((48 + n % 10) as u8));
        assert(dec_u(n)[0] == dec_u(n / 10)[0]);
    }
}

/// A maximal digit run in front of a stream is the digit run of any witness
/// decomposition of that stream: the run determines the number.
proof fn lemma_run_align(s: Seq<u8>, d1: Seq<u8>, n: nat, t2: Seq<u8>)
    requires
        s == dec_u(n) + t2,
        t2.len() > 0,
        !is_digit(t2[0]),
        d1.len() <= s.len(),
        d1 == s.take(d1.len() as int),
        forall|j: int| 0 <= j < d1.len() ==> is_digit(#[trigger] d1[j]),
        d1.len() == s.len() || !is_digit(s[d1.len() as int]),
    ensures
        d1 == dec_u(n),
        digits_val(d1) == n,
{
    lemma_dec_u_digits(n);
    let a = d1.len() as int;
    let b = dec_u(n).len() as int;
    assert(b + t2.len() == s.len());
    if a < b {
        assert(s[a] == dec_u(n)[a]);
        assert(is_digit(s[a]));
        assert(a < s.len());
        assert(false);
    } else if a > b {
        assert(0 <= b < a);
        assert(s[b] == (dec_u(n) + t2)[b]);
        assert(s[b] == t2[0]);
        assert(s.take(a)[b] == s[b]);
        assert(d1[b] == s.take(a)[b]) by {
            assert(d1 == s.take(a));
        }
        assert(is_digit(d1[b]));
        assert(false);
    } else {
        assert forall|j: int| 0 <= j < a implies d1[j] == dec_u(n)[j] by {
            assert(d1[j] == s[j]);
        }
        assert(d1 =~= dec_u(n));
    }
    lemma_digits_val_dec_u(n);
}

/// An integer witness in front of a stream that opens with `i`: the value's
/// decimal digits follow the tag (and the sign when negative).
proof fn lemma_int_witness(s: Seq<u8>, v: BValue, rest: Seq<u8>)
    requires
        s == enc(v) + rest,
        s.len() >= 1,
        s[0] == 105,
    ensures
        v is Int,
        s.len() >= 3,
        v->Int_0 >= 0 ==> s.skip(1) == dec_u(v->Int_0 as nat) + (seq![101u8] + rest),
        v->Int_0 < 0 ==> s.len() >= 4 && s[1] == 45 && s.skip(2) == dec_u(
            (-(v->Int_0 as int)) as nat,
        ) + (seq![101u8] + rest),
{
    lemma_enc_first(v);
    assert((enc(v) + rest)[0] == enc(v)[0]);
    assert(v is Int);
    let b = v->Int_0;
    if b >= 0 {
        lemma_dec_u_digits(b as nat);
        assert(enc(v) == seq![105u8] + dec_u(b as nat) + seq![101u8]);
        assert(s.skip(1) =~= dec_u(b as nat) + (seq![101u8] + rest));
    } else {
        let m = (-(b as int)) as nat;
        lemma_dec_u_digits(m);
        assert(enc(v) == seq![105u8] + (seq![45u8] + dec_u(m)) + seq![101u8]);
        assert(s[1] == 45);
        assert(s.skip(2) =~= dec_u(m) + (seq![101u8] + rest));
    }
}

/// If a run of list elements plus an `e` terminator refines a longer run
/// plus its own tail, the shorter element sequence is a prefix of it.
proof fn lemma_enc_seq_split(ws: Seq<BValue>, is: Seq<BValue>, t1: Seq<u8>, t2: Seq<u8>)
    requires
        enc_seq(ws) + t1 == enc_seq(is) + t2,
        t1.len() > 0,
        t1[0] == 101,
    ensures
        exists|ws2: Seq<BValue>|
            #![trigger enc_seq(ws2)]
            ws == is + ws2 && enc_seq(ws2) + t1 == t2,
    decreases is.len(),
{
    if is.len() == 0 {
        let ws2 = ws;
        assert(ws =~= is + ws2);
        assert(enc_seq(is) =~= Seq::<u8>::empty());
        assert(enc_seq(ws2) + t1 =~= t2);
    } else {
        lemma_enc_first(is[0]);
        if ws.len() == 0 {
            assert(enc_seq(ws) =~= Seq::<u8>::empty());
            assert((enc_seq(ws) + t1)[0] == t1[0]);
            assert(enc_seq(is) + t2 =~= enc(is[0]) + (enc_seq(is.drop_first()) + t2));
            assert((enc(is[0]) + (enc_seq(is.drop_first()) + t2))[0] == enc(is[0])[0]);
            assert(false);
        }
        assert(enc_seq(ws) + t1 =~= enc(ws[0]) + (enc_seq(ws.drop_first()) + t1));
        assert(enc_seq(is) + t2 =~= enc(is[0]) + (enc_seq(is.drop_first()) + t2));
        lemma_enc_prefix_free(
            ws[0],
            is[0],
            enc_seq(ws.drop_first()) + t1,
            enc_seq(is.drop_first()) + t2,
        );
        lemma_enc_seq_split(ws.drop_first(), is.drop_first(), t1, t2);
        let ws2 = choose|ws2: Seq<BValue>|
            #![trigger enc_seq(ws2)]
            ws.drop_first() == is.drop_first() + ws2 && enc_seq(ws2) + t1 == t2;
        assert(ws.len() == is.len() + ws2.len());
        assert forall|t: int| 0 <= t < ws.len() implies ws[t] == (is + ws2)[t] by {
            if t > 0 {
                assert(ws[t] == ws.drop_first()[t - 1]);
                assert(ws.drop_first()[t - 1] == (is.drop_first() + ws2)[t - 1]);
                if t < is.len() {
                    assert((is.drop_first() + ws2)[t - 1] == is.drop_first()[t - 1]);
                    assert(is.drop_first()[t - 1] == is[t]);
                } else {
                    assert((is.drop_first() + ws2)[t - 1] == ws2[t - is.len()]);
                }
            }
        }
        assert(ws =~= is + ws2);
    }
}

/// The dictionary-entry counterpart of the list split lemma.
proof fn lemma_enc_pairs_split(
    wps: Seq<(Seq<u8>, BValue)>,
    ips: Seq<(Seq<u8>, BValue)>,
    t1: Seq<u8>,
    t2: Seq<u8>,
)
    requires
        enc_pairs(wps) + t1 == enc_pairs(ips) + t2,
        t1.len() > 0,
        t1[0] == 101,
    ensures
        exists|wps2: Seq<(Seq<u8>, BValue)>|
            #![trigger enc_pairs(wps2)]
            wps == ips + wps2 && enc_pairs(wps2) + t1 == t2,
    decreases ips.len(),
{
    if ips.len() == 0 {
        let wps2 = wps;
        assert(wps =~= ips + wps2);
        assert(enc_pairs(ips) =~= Seq::<u8>::empty());
        assert(enc_pairs(wps2) + t1 =~= t2);
    } else {
        lemma_dec_u_digits(ips[0].0.len());
        if wps.len() == 0 {
            assert(enc_pairs(wps) =~= Seq::<u8>::empty());
            assert((enc_pairs(wps) + t1)[0] == t1[0]);
            assert(enc_pairs(ips) + t2 =~= dec_u(ips[0].0.len()) + (seq![58u8] + ips[0].0 + enc(
                ips[0].1,
            ) + enc_pairs(ips.drop_first()) + t2));
            assert(false);
        }
        assert(enc_pairs(wps) + t1 =~= enc_str(wps[0].0) + (enc(wps[0].1) + (enc_pairs(
            wps.drop_first(),
        ) + t1)));
        assert(enc_pairs(ips) + t2 =~= enc_str(ips[0].0) + (enc(ips[0].1) + (enc_pairs(
            ips.drop_first(),
        ) + t2)));
        lemma_enc_str_pf(
            wps[0].0,
            ips[0].0,
            enc(wps[0].1) + (enc_pairs(wps.drop_first()) + t1),
            enc(ips[0].1) + (enc_pairs(ips.drop_first()) + t2),
        );
        lemma_enc_prefix_free(
            wps[0].1,
            ips[0].1,
            enc_pairs(wps.drop_first()) + t1,
            enc_pairs(ips.drop_first()) + t2,
        );
        lemma_enc_pairs_split(wps.drop_first(), ips.drop_first(), t1, t2);
        let wps2 = choose|wps2: Seq<(Seq<u8>, BValue)>|
            #![trigger enc_pairs(wps2)]
            wps.drop_first() == ips.drop_first() + wps2 && enc_pairs(wps2) + t1 == t2;
        assert(wps[0] == ips[0]);
        assert(wps.len() == ips.len() + wps2.len());
        assert forall|t: int| 0 <= t < wps.len() implies wps[t] == (ips + wps2)[t] by {
            if t > 0 {
                assert(wps[t] == wps.drop_first()[t - 1]);
                assert(wps.drop_first()[t - 1] == (ips.drop_first() + wps2)[t - 1]);
                if t < ips.len() {
                    assert((ips.drop_first() + wps2)[t - 1] == ips.drop_first()[t - 1]);
                    assert(ips.drop_first()[t - 1] == ips[t]);
                } else {
                    assert((ips.drop_first() + wps2)[t - 1] == wps2[t - ips.len()]);
                }
            }
        }
        assert(wps =~= ips + wps2);
    }
}

/// No value encoding starts at the end of the stream.
proof fn lemma_no_value_empty(s: Seq<u8>)
    requires
        s.len() == 0,
    ensures
        !starts_value(s),
{
    assert forall|v: BValue, rest: Seq<u8>| s != #[trigger] (enc(v) + rest) by {
        lemma_enc_first(v);
    }
}

/// No value encoding starts with a byte outside the grammar's first set.
proof fn lemma_no_value_bad_first(s: Seq<u8>)
    requires
        s.len() >= 1,
        !is_digit(s[0]),
        s[0] != 105,
        s[0] != 108,
        s[0] != 100,
    ensures
        !starts_value(s),
{
    assert forall|v: BValue, rest: Seq<u8>| s != #[trigger] (enc(v) + rest) by {
        if s == enc(v) + rest {
            lemma_enc_first(v);
            assert(s[0] == enc(v)[0]);
        }
    }
}

/// A stream that opens with a digit begins a value exactly when it begins a
/// byte string.
proof fn lemma_value_is_string(s: Seq<u8>)
    requires
        s.len() >= 1,
        is_digit(s[0]),
        !starts_string(s),
    ensures
        !starts_value(s),
{
    assert forall|v: BValue, rest: Seq<u8>| s != #[trigger] (enc(v) + rest) by {
        if s == enc(v) + rest {
            lemma_enc_first(v);
            assert(s[0] == enc(v)[0]);
            assert(v is Bytes);
            assert(enc(v) == enc_str(v->Bytes_0));
            assert(s == enc_str(v->Bytes_0) + rest);
            assert(starts_string(s));
        }
    }
}

/// A parsed maximal digit run at `pos` pins down any witness decomposition
/// `dec_u(m) + t2` of the same suffix: the numbers agree and the witness's
/// terminator stands right after the run.
proof fn lemma_digits_witness(
    bytes: Seq<u8>,
    pos: int,
    n: nat,
    runlen: int,
    m: nat,
    t2: Seq<u8>,
)
    requires
        0 <= pos,
        0 <= runlen,
        pos + runlen <= bytes.len(),
        bytes.skip(pos) == dec_u(m) + t2,
        t2.len() > 0,
        !is_digit(t2[0]),
        dec_u(n) == bytes.subrange(pos, pos + runlen),
        pos + runlen == bytes.len() || !is_digit(bytes[pos + runlen]),
    ensures
        m == n,
        runlen == dec_u(n).len(),
        pos + runlen < bytes.len(),
        bytes[pos + runlen] == t2[0],
        bytes.len() - pos == runlen + t2.len(),
{
    let s = bytes.skip(pos);
    let d1 = bytes.subrange(pos, pos + runlen);
    lemma_dec_u_digits(n);
    lemma_dec_u_digits(m);
    assert(d1.len() == runlen);
    assert(s.len() == bytes.len() - pos);
    assert(d1 =~= s.take(d1.len() as int));
    assert(d1.len() == s.len() || !is_digit(s[d1.len() as int])) by {
        if pos + runlen < bytes.len() {
            assert(s[d1.len() as int] == bytes[pos + runlen]);
        }
    }
    lemma_run_align(s, d1, m, t2);
    lemma_dec_u_inj(n, m);
    assert(runlen < s.len());
    assert(s[runlen] == (dec_u(m) + t2)[runlen]);
    assert(s[runlen] == t2[0]);
    assert(bytes[pos + runlen] == s[runlen]);
}

/// Parses a canonical run of decimal digits starting at `pos`: either a
/// single `0`, or a nonzero leading digit followed by the maximal run of
/// digits. Fails exactly when no digit stands at `pos` or the maximal run's
/// value does not fit in 64 bits.
fn parse_u64(bytes: &[u8], pos: usize) -> (r: Result<(u64, usize), TorrentError>)
    requires
        pos <= bytes@.len(),
    ensures
        match r {
            Ok(p) => {
                &&& pos < p.1 <= bytes@.len()
                &&& dec_u(p.0 as nat) == bytes@.subrange(pos as int, p.1 as int)
                &&& (p.0 == 0 ==> p.1 == pos + 1)
                &&& (p.0 > 0 ==> p.1 == bytes@.len() || !is_digit(bytes@[p.1 as int]))
            },
            Err(e) => {
                &&& e == TorrentError::MalformedBencode
                &&& (pos == bytes@.len() || !is_digit(bytes@[pos as int]) || (exists|end2: int|
                    {
                        &&& pos < end2 <= bytes@.len()
                        &&& (forall|j: int| pos <= j < end2 ==> is_digit(#[trigger] bytes@[j]))
                        &&& (end2 == bytes@.len() || !is_digit(bytes@[end2]))
                        &&& #[trigger] digits_val(bytes@.subrange(pos as int, end2))
                            > u64::MAX as nat
                    }))
            },
        },
{
    if pos >= bytes.len() {
        return Err(TorrentError::MalformedBencode);
    }
    let b0 = *slice_index_get(bytes, pos);
    if !(48 <= b0 && b0 <= 57) {
        return Err(TorrentError::MalformedBencode);
    }
    if b0 == 48 {
        proof {
            assert(dec_u(0) =~= bytes@.subrange(pos as int, pos + 1));
        }
        return Ok((0, pos + 1));
    }
    let mut value: u64 = (b0 - 48) as u64;
    let mut i: usize = pos + 1;
    proof {
        assert(dec_u(value as nat) =~= bytes@.subrange(pos as int, i as int));
    }
    loop
        invariant
            pos < i <= bytes@.len(),
            1 <= value,
            dec_u(value as nat) == bytes@.subrange(pos as int, i as int),
        decreases bytes@.len() - i,
    {
        if i >= bytes.len() {
            return Ok((value, i));
        }
        let b = *slice_index_get(bytes, i);
        if !(48 <= b && b <= 57) {
            return Ok((value, i));
        }
        let d = (b - 48) as u64;
        if value > (0xffff_ffff_ffff_ffffu64 - d) / 10 {
            // the run's value exceeds 64 bits: scan it to its end and report
            proof {
                lemma_dec_u_digits(value as nat);
                lemma_digits_val_dec_u(value as nat);
                assert(bytes@.subrange(pos as int, i + 1) =~= bytes@.subrange(
                    pos as int,
                    i as int,
                ).push(bytes@[i as int]));
                assert(digits_val(bytes@.subrange(pos as int, i + 1)) == value as nat * 10 + (
                d as nat)) by {
                    assert(bytes@.subrange(pos as int, i + 1).drop_last() =~= bytes@.subrange(
                        pos as int,
                        i as int,
                    ));
                    assert(bytes@.subrange(pos as int, i + 1).last() == bytes@[i as int]);
                }
                assert(value as nat * 10 + d as nat > u64::MAX as nat) by (nonlinear_arith)
                    requires
                        0 <= d < 10,
                        value as nat > ((u64::MAX - d) as nat) / 10,
                ;
                assert forall|t: int| pos <= t < i + 1 implies is_digit(#[trigger] bytes@[t]) by {
                    if t < i {
                        assert(bytes@[t] == bytes@.subrange(pos as int, i as int)[t - pos]);
                    } else {
                        assert(bytes@[t] == b);
                    }
                }
            }
            let mut j: usize = i + 1;
            loop
                invariant
                    pos < i < j <= bytes@.len(),
                    forall|t: int| pos <= t < j ==> is_digit(#[trigger] bytes@[t]),
                    digits_val(bytes@.subrange(pos as int, j as int)) > u64::MAX as nat,
                decreases bytes@.len() - j,
            {
                if j >= bytes.len() {
                    return Err(TorrentError::MalformedBencode);
                }
                let c = *slice_index_get(bytes, j);
                if !(48 <= c && c <= 57) {
                    return Err(TorrentError::MalformedBencode);
                }
                proof {
                    let run = bytes@.subrange(pos as int, j as int);
                    assert(bytes@.subrange(pos as int, j + 1) =~= run.push(bytes@[j as int]));
                    assert(bytes@.subrange(pos as int, j + 1).drop_last() =~= run);
                    assert(digits_val(bytes@.subrange(pos as int, j + 1)) == digits_val(run) * 10
                        + ((bytes@[j as int] - 48) as nat));
                    assert(digits_val(run) * 10 >= digits_val(run)) by (nonlinear_arith);
                }
                j = j + 1;
            }
        }
        proof {
            let nv = value as int * 10 + d as int;
            assert(nv <= 0xffff_ffff_ffff_ffffu64 as int) by (nonlinear_arith)
                requires
                    0 <= d < 10,
                    0 <= value as int <= (0xffff_ffff_ffff_ffffu64 as int - d as int) / 10,
                    nv == value as int * 10 + d as int,
            ;
            assert(nv / 10 == value as int && nv % 10 == d as int && nv >= 10) by (nonlinear_arith)
                requires
                    0 <= d < 10,
                    1 <= value as int,
                    nv == value as int * 10 + d as int,
            ;
            assert(dec_u(nv as nat) == dec_u(value as nat).push((48 + nv as nat % 10) as u8));
            assert(bytes@.subrange(pos as int, i + 1) =~= bytes@.subrange(
                pos as int,
                i as int,
            ).push(bytes@[i as int]));
            assert(dec_u(nv as nat) =~= bytes@.subrange(pos as int, i + 1));
        }
        value = value * 10 + d;
        i = i + 1;
    }
}

/// Parses one bencoded byte string (`<length>:<bytes>`) starting at `pos`.
/// Succeeds exactly when a byte-string encoding stands at `pos`.
pub fn parse_bytestring_at(bytes: &[u8], pos: usize) -> (r: Result<(Vec<u8>, usize), TorrentError>)
    requires
        pos <= bytes@.len(),
    ensures
        r matches Ok(p) ==> {
            &&& pos < p.1 <= bytes@.len()
            &&& enc_str(p.0@) == bytes@.subrange(pos as int, p.1 as int)
        },
        r is Ok <==> starts_string(bytes@.skip(pos as int)),
        r matches Err(e) ==> e == TorrentError::MalformedBencode,
{
    let blen = bytes.len();
    let ghost suffix = bytes@.skip(pos as int);
    let (n, p1) = match parse_u64(bytes, pos) {
        Ok(p) => p,
        Err(_) => {
            proof {
                assert forall|k: Seq<u8>, rest: Seq<u8>| suffix != #[trigger] (enc_str(k)
                    + rest) by {
                    if suffix == enc_str(k) + rest {
                        lemma_dec_u_digits(k.len());
                        assert(suffix =~= dec_u(k.len()) + (seq![58u8] + k + rest));
                        assert(suffix[0] == dec_u(k.len())[0]);
                        assert(bytes@[pos as int] == suffix[0]);
                        assert(pos < bytes@.len() && is_digit(bytes@[pos as int]));
                        let end2 = choose|end2: int|
                            {
                                &&& pos < end2 <= bytes@.len()
                                &&& (forall|j: int|
                                    pos <= j < end2 ==> is_digit(#[trigger] bytes@[j]))
                                &&& (end2 == bytes@.len() || !is_digit(bytes@[end2]))
                                &&& #[trigger] digits_val(bytes@.subrange(pos as int, end2))
                                    > u64::MAX as nat
                            };
                        let d1 = bytes@.subrange(pos as int, end2);
                        assert(d1 =~= suffix.take(d1.len() as int));
                        assert(d1.len() == suffix.len() || !is_digit(
                            suffix[d1.len() as int],
                        )) by {
                            if end2 < bytes@.len() {
                                assert(suffix[d1.len() as int] == bytes@[end2]);
                            }
                        }
                        lemma_run_align(suffix, d1, k.len(), seq![58u8] + k + rest);
                        assert(k.len() <= suffix.len());
                        assert(suffix.len() <= blen as nat);
                        assert(digits_val(d1) <= u64::MAX as nat);
                        assert(false);
                    }
                }
            }
            return Err(TorrentError::MalformedBencode);
        },
    };
    let colon_ok = p1 < blen && *slice_index_get(bytes, p1) == 58;
    if !colon_ok {
        proof {
            assert forall|k: Seq<u8>, rest: Seq<u8>| suffix != #[trigger] (enc_str(k) + rest) by {
                if suffix == enc_str(k) + rest {
                    lemma_dec_u_digits(k.len());
                    assert(suffix =~= dec_u(k.len()) + (seq![58u8] + k + rest));
                    if n == 0 {
                        assert(suffix[0] == dec_u(k.len())[0]);
                        assert(bytes@[pos as int] == suffix[0]);
                        assert(dec_u(0) == bytes@.subrange(pos as int, pos + 1));
                        assert(bytes@[pos as int] == 48) by {
                            assert(dec_u(0)[0] == 48);
                            assert(bytes@.subrange(pos as int, pos + 1)[0] == bytes@[pos as int]);
                        }
                        if k.len() > 0 {
                            lemma_dec_u_first_nonzero(k.len());
                            assert(false);
                        }
                        assert(dec_u(k.len()) == seq![48u8]);
                        assert(suffix.len() >= 2);
                        assert(suffix[1] == (seq![58u8] + k + rest)[0]);
                        assert(bytes@[p1 as int] == suffix[1]);
                        assert(false);
                    } else {
                        lemma_digits_witness(
                            bytes@,
                            pos as int,
                            n as nat,
                            p1 - pos,
                            k.len(),
                            seq![58u8] + k + rest,
                        );
                        assert(bytes@[p1 as int] == 58);
                        assert(p1 < bytes@.len());
                        assert(false);
                    }
                }
            }
        }
        return Err(TorrentError::MalformedBencode);
    }
    let start = p1 + 1;
    if n > (blen - start) as u64 {
        proof {
            assert forall|k: Seq<u8>, rest: Seq<u8>| suffix != #[trigger] (enc_str(k) + rest) by {
                if suffix == enc_str(k) + rest {
                    lemma_dec_u_digits(k.len());
                    assert(suffix =~= dec_u(k.len()) + (seq![58u8] + k + rest));
                    if n == 0 {
                        assert(false);
                    } else {
                        lemma_digits_witness(
                            bytes@,
                            pos as int,
                            n as nat,
                            p1 - pos,
                            k.len(),
                            seq![58u8] + k + rest,
                        );
                        assert(bytes@.len() - pos >= (p1 - pos) + 1 + n);
                        assert(false);
                    }
                }
            }
        }
        return Err(TorrentError::MalformedBencode);
    }
    let end = start + (n as usize);
    let s = slice_to_vec(slice_subrange(bytes, start, end));
    proof {
        assert(s@.len() == n as nat);
        assert(enc_str(s@) =~= bytes@.subrange(pos as int, end as int));
        assert(suffix =~= enc_str(s@) + bytes@.skip(end as int));
        assert(starts_string(suffix));
    }
    Ok((s, end))
}

/// An integer witness placed in a stream: where its sign and digits stand.
proof fn lemma_int_digits_at(bytes: Seq<u8>, pos: int, v: BValue, rest: Seq<u8>)
    requires
        0 <= pos < bytes.len(),
        bytes.skip(pos) == enc(v) + rest,
        bytes[pos] == 105,
    ensures
        v is Int,
        bytes.len() - pos >= 3,
        v->Int_0 >= 0 ==> {
            &&& bytes.skip(pos + 1) == dec_u(v->Int_0 as nat) + (seq![101u8] + rest)
            &&& is_digit(bytes[pos + 1])
        },
        v->Int_0 < 0 ==> {
            &&& bytes.len() - pos >= 4
            &&& bytes[pos + 1] == 45
            &&& bytes.skip(pos + 2) == dec_u((-(v->Int_0 as int)) as nat) + (seq![101u8] + rest)
            &&& is_digit(bytes[pos + 2])
        },
{
    let s = bytes.skip(pos);
    assert(s[0] == bytes[pos]);
    lemma_int_witness(s, v, rest);
    let b = v->Int_0;
    if b >= 0 {
        lemma_dec_u_digits(b as nat);
        assert(bytes.skip(pos + 1) =~= s.skip(1));
        assert(bytes[pos + 1] == bytes.skip(pos + 1)[0]);
        assert(bytes.skip(pos + 1)[0] == dec_u(b as nat)[0]);
    } else {
        let m = (-(b as int)) as nat;
        lemma_dec_u_digits(m);
        assert(bytes[pos + 1] == s[1]);
        assert(bytes.skip(pos + 2) =~= s.skip(2));
        assert(bytes[pos + 2] == bytes.skip(pos + 2)[0]);
        assert(bytes.skip(pos + 2)[0] == dec_u(m)[0]);
    }
}

/// Decodes exactly one bencoded value starting at `pos`; returns the value
/// and the position one past its final byte. The bytes consumed are exactly
/// the wire encoding of the returned value, and decoding succeeds exactly
/// when some value's encoding stands at `pos`.
#[verifier::rlimit(100)]
pub fn decode_value(bytes: &[u8], pos: usize) -> (r: Result<(Bencode, usize), TorrentError>)
    requires
        pos <= bytes@.len(),
    ensures
        r matches Ok(p) ==> {
            &&& pos < p.1 <= bytes@.len()
            &&& enc(p.0@) == bytes@.subrange(pos as int, p.1 as int)
        },
        r is Ok <==> starts_value(bytes@.skip(pos as int)),
        r matches Err(e) ==> e == TorrentError::MalformedBencode,
    decreases bytes@.len() - pos,
{
    let blen = bytes.len();
    let ghost suffix = bytes@.skip(pos as int);
    if pos >= blen {
        proof {
            lemma_no_value_empty(suffix);
        }
        return Err(TorrentError::MalformedBencode);
    }
    let b0 = *slice_index_get(bytes, pos);
    proof {
        assert(suffix[0] == bytes@[pos as int]);
    }
    if 48 <= b0 && b0 <= 57 {
        match parse_bytestring_at(bytes, pos) {
            Ok(p) => {
                let (s, end) = p;
                proof {
                    assert(suffix =~= enc(BValue::Bytes(s@)) + bytes@.skip(end as int));
                    assert(starts_value(suffix));
                }
                return Ok((Bencode::Bytes(s), end));
            },
            Err(e) => {
                proof {
                    lemma_value_is_string(suffix);
                }
                return Err(e);
            },
        }
    }
    if b0 == 105 {
        // 'i': integer
        let mut magstart = pos + 1;
        let mut neg = false;
        if magstart < blen && *slice_index_get(bytes, magstart) == 45 {
            neg = true;
            magstart = magstart + 1;
        }
        let (mag, p1) = match parse_u64(bytes, magstart) {
            Ok(p) => p,
            Err(_) => {
                proof {
                    assert forall|v: BValue, rest: Seq<u8>| suffix != #[trigger] (enc(v)
                        + rest) by {
                        if suffix == enc(v) + rest {
                            lemma_int_digits_at(bytes@, pos as int, v, rest);
                            let b = v->Int_0;
                            let m: nat = if b < 0 {
                                (-(b as int)) as nat
                            } else {
                                b as nat
                            };
                            // the witness's sign decides the exec path exactly
                            if b < 0 {
                                assert(neg && magstart == pos + 2);
                            } else {
                                assert(!neg && magstart == pos + 1);
                            }
                            assert(bytes@.skip(magstart as int) == dec_u(m) + (seq![101u8]
                                + rest));
                            assert(is_digit(bytes@[magstart as int]));
                            assert(magstart < bytes@.len());
                            let end2 = choose|end2: int|
                                {
                                    &&& magstart < end2 <= bytes@.len()
                                    &&& (forall|j: int|
                                        magstart <= j < end2 ==> is_digit(#[trigger] bytes@[j]))
                                    &&& (end2 == bytes@.len() || !is_digit(bytes@[end2]))
                                    &&& #[trigger] digits_val(
                                        bytes@.subrange(magstart as int, end2),
                                    ) > u64::MAX as nat
                                };
                            let d1 = bytes@.subrange(magstart as int, end2);
                            let sfx = bytes@.skip(magstart as int);
                            assert(d1 =~= sfx.take(d1.len() as int));
                            assert(d1.len() == sfx.len() || !is_digit(sfx[d1.len() as int])) by {
                                if end2 < bytes@.len() {
                                    assert(sfx[d1.len() as int] == bytes@[end2]);
                                }
                            }
                            lemma_run_align(sfx, d1, m, seq![101u8] + rest);
                            assert(m <= 0x8000_0000_0000_0000u64 as nat);
                            assert(digits_val(d1) <= u64::MAX as nat);
                            assert(false);
                        }
                    }
                }
                return Err(TorrentError::MalformedBencode);
            },
        };
        let mut bad = false;
        if neg && mag == 0 {
            bad = true;
        }
        if neg && mag > 0x8000_0000_0000_0000u64 {
            bad = true;
        }
        if !neg && mag > 0x7fff_ffff_ffff_ffffu64 {
            bad = true;
        }
        if p1 >= blen || *slice_index_get(bytes, p1) != 101 {
            bad = true;
        }
        if bad {
            proof {
                assert forall|v: BValue, rest: Seq<u8>| suffix != #[trigger] (enc(v) + rest) by {
                    if suffix == enc(v) + rest {
                        lemma_int_digits_at(bytes@, pos as int, v, rest);
                        let b = v->Int_0;
                        let m: nat = if b < 0 {
                            (-(b as int)) as nat
                        } else {
                            b as nat
                        };
                        if b < 0 {
                            assert(neg && magstart == pos + 2);
                        } else {
                            assert(!neg && magstart == pos + 1);
                        }
                        assert(bytes@.skip(magstart as int) == dec_u(m) + (seq![101u8] + rest));
                        if mag == 0 {
                            // the run is the single digit 0, so the witness's number is 0
                            assert(dec_u(0) == bytes@.subrange(magstart as int, magstart + 1));
                            assert(bytes@[magstart as int] == 48) by {
                                assert(dec_u(0)[0] == 48);
                                assert(bytes@.subrange(magstart as int, magstart + 1)[0]
                                    == bytes@[magstart as int]);
                            }
                            assert(bytes@.skip(magstart as int)[0] == dec_u(m)[0]);
                            if m > 0 {
                                lemma_dec_u_first_nonzero(m);
                                assert(false);
                            }
                            assert(m == 0);
                            assert(b == 0);
                            assert(!neg);
                            assert(dec_u(0 as nat) == seq![48u8]);
                            assert(p1 == magstart + 1);
                            assert(bytes@.skip(magstart as int).len() >= 2);
                            assert(bytes@.skip(magstart as int)[1] == (seq![101u8] + rest)[0]);
                            assert(bytes@[p1 as int] == bytes@.skip(magstart as int)[1]);
                            assert(p1 < bytes@.len());
                            assert(false);
                        } else {
                            lemma_digits_witness(
                                bytes@,
                                magstart as int,
                                mag as nat,
                                p1 - magstart,
                                m,
                                seq![101u8] + rest,
                            );
                            assert(m == mag);
                            assert(m <= 0x8000_0000_0000_0000u64 as nat);
                            assert(b >= 0 ==> m <= 0x7fff_ffff_ffff_ffffu64 as nat);
                            assert(bytes@[p1 as int] == 101 && p1 < bytes@.len());
                            assert(false);
                        }
                    }
                }
            }
            return Err(TorrentError::MalformedBencode);
        }
        let end = p1 + 1;
        let value: i64 = if neg {
            if mag == 0x8000_0000_0000_0000u64 {
                i64::MIN
            } else {
                -(mag as i64)
            }
        } else {
            mag as i64
        };
        proof {
            if neg {
                assert(value as int == -(mag as int));
                assert(dec_i(value as int) =~= seq![45u8] + dec_u(mag as nat));
            } else {
                assert(dec_i(value as int) == dec_u(mag as nat));
            }
            assert(enc(BValue::Int(value)) =~= bytes@.subrange(pos as int, end as int));
            assert(suffix =~= enc(BValue::Int(value)) + bytes@.skip(end as int));
            assert(starts_value(suffix));
        }
        return Ok((Bencode::Int(value), end));
    }
    if b0 == 108 {
        // 'l': list
        let mut items: Vec<Bencode> = Vec::new();
        let mut cur = pos + 1;
        proof {
            assert(enc_seq(bval_seq(items@)) =~= bytes@.subrange(pos + 1, cur as int));
        }
        loop
            invariant
                pos < cur <= bytes@.len(),
                pos < bytes@.len(),
                bytes@[pos as int] == 108,
                suffix == bytes@.skip(pos as int),
                enc_seq(bval_seq(items@)) == bytes@.subrange(pos + 1, cur as int),
            decreases bytes@.len() - cur,
        {
            let ghost is = bval_seq(items@);
            proof {
                assert(bytes@.skip(pos + 1) =~= enc_seq(is) + bytes@.skip(cur as int));
            }
            if cur >= bytes.len() {
                proof {
                    assert forall|v: BValue, rest: Seq<u8>| suffix != #[trigger] (enc(v)
                        + rest) by {
                        if suffix == enc(v) + rest {
                            lemma_enc_first(v);
                            assert(suffix[0] == bytes@[pos as int]);
                            assert(v is List);
                            let ws = v->List_0;
                            assert(suffix.skip(1) =~= enc_seq(ws) + (seq![101u8] + rest));
                            assert(bytes@.skip(pos + 1) =~= suffix.skip(1));
                            lemma_enc_seq_split(ws, is, seq![101u8] + rest, bytes@.skip(cur as int));
                            assert(false);
                        }
                    }
                }
                return Err(TorrentError::MalformedBencode);
            }
            if *slice_index_get(bytes, cur) == 101 {
                let end = cur + 1;
                proof {
                    assert(enc(BValue::List(bval_seq(items@))) =~= bytes@.subrange(
                        pos as int,
                        end as int,
                    ));
                    assert(suffix =~= enc(BValue::List(bval_seq(items@))) + bytes@.skip(
                        end as int,
                    ));
                    assert(starts_value(suffix));
                }
                return Ok((Bencode::List(items), end));
            }
            let (v, nxt) = match decode_value(bytes, cur) {
                Ok(p) => p,
                Err(e) => {
                    proof {
                        assert forall|w: BValue, rest: Seq<u8>| suffix != #[trigger] (enc(w)
                            + rest) by {
                            if suffix == enc(w) + rest {
                                lemma_enc_first(w);
                                assert(suffix[0] == bytes@[pos as int]);
                                assert(w is List);
                                let ws = w->List_0;
                                assert(suffix.skip(1) =~= enc_seq(ws) + (seq![101u8] + rest));
                                assert(bytes@.skip(pos + 1) =~= suffix.skip(1));
                                lemma_enc_seq_split(
                                    ws,
                                    is,
                                    seq![101u8] + rest,
                                    bytes@.skip(cur as int),
                                );
                                let ws2 = choose|ws2: Seq<BValue>|
                                    #![trigger enc_seq(ws2)]
                                    ws == is + ws2 && enc_seq(ws2) + (seq![101u8] + rest)
                                        == bytes@.skip(cur as int);
                                if ws2.len() == 0 {
                                    assert(enc_seq(ws2) =~= Seq::<u8>::empty());
                                    assert(bytes@.skip(cur as int) =~= seq![101u8] + rest);
                                    assert(bytes@[cur as int] == bytes@.skip(cur as int)[0]);
                                    assert(false);
                                } else {
                                    assert(bytes@.skip(cur as int) =~= enc(ws2[0]) + (enc_seq(
                                        ws2.drop_first(),
                                    ) + (seq![101u8] + rest)));
                                    assert(starts_value(bytes@.skip(cur as int)));
                                    assert(false);
                                }
                            }
                        }
                    }
                    return Err(e);
                },
            };
            proof {
                lemma_enc_seq_push(bval_seq(items@), v@);
                assert(items@.push(v).drop_last() =~= items@);
                assert(bval_seq(items@.push(v)) == bval_seq(items@).push(v@));
                assert(enc_seq(bval_seq(items@).push(v@)) =~= bytes@.subrange(pos + 1, nxt as int));
            }
            items.push(v);
            cur = nxt;
        }
    }
    if b0 == 100 {
        // 'd': dictionary
        let mut pairs: Vec<(Vec<u8>, Bencode)> = Vec::new();
        let mut cur = pos + 1;
        proof {
            assert(enc_pairs(bval_pairs(pairs@)) =~= bytes@.subrange(pos + 1, cur as int));
        }
        loop
            invariant
                pos < cur <= bytes@.len(),
                pos < bytes@.len(),
                bytes@[pos as int] == 100,
                suffix == bytes@.skip(pos as int),
                enc_pairs(bval_pairs(pairs@)) == bytes@.subrange(pos + 1, cur as int),
            decreases bytes@.len() - cur,
        {
            let ghost ips = bval_pairs(pairs@);
            proof {
                assert(bytes@.skip(pos + 1) =~= enc_pairs(ips) + bytes@.skip(cur as int));
            }
            if cur >= bytes.len() {
                proof {
                    assert forall|v: BValue, rest: Seq<u8>| suffix != #[trigger] (enc(v)
                        + rest) by {
                        if suffix == enc(v) + rest {
                            lemma_enc_first(v);
                            assert(suffix[0] == bytes@[pos as int]);
                            assert(v is Dict);
                            let wps = v->Dict_0;
                            assert(suffix.skip(1) =~= enc_pairs(wps) + (seq![101u8] + rest));
                            assert(bytes@.skip(pos + 1) =~= suffix.skip(1));
                            lemma_enc_pairs_split(
                                wps,
                                ips,
                                seq![101u8] + rest,
                                bytes@.skip(cur as int),
                            );
                            assert(false);
                        }
                    }
                }
                return Err(TorrentError::MalformedBencode);
            }
            if *slice_index_get(bytes, cur) == 101 {
                let end = cur + 1;
                proof {
                    assert(enc(BValue::Dict(bval_pairs(pairs@))) =~= bytes@.subrange(
                        pos as int,
                        end as int,
                    ));
                    assert(suffix =~= enc(BValue::Dict(bval_pairs(pairs@))) + bytes@.skip(
                        end as int,
                    ));
                    assert(starts_value(suffix));
                }
                return Ok((Bencode::Dict(pairs), end));
            }
            let (k, kend) = match parse_bytestring_at(bytes, cur) {
                Ok(p) => p,
                Err(e) => {
                    proof {
                        assert forall|v: BValue, rest: Seq<u8>| suffix != #[trigger] (enc(v)
                            + rest) by {
                            if suffix == enc(v) + rest {
                                lemma_enc_first(v);
                                assert(suffix[0] == bytes@[pos as int]);
                                assert(v is Dict);
                                let wps = v->Dict_0;
                                assert(suffix.skip(1) =~= enc_pairs(wps) + (seq![101u8] + rest));
                                assert(bytes@.skip(pos + 1) =~= suffix.skip(1));
                                lemma_enc_pairs_split(
                                    wps,
                                    ips,
                                    seq![101u8] + rest,
                                    bytes@.skip(cur as int),
                                );
                                let wps2 = choose|wps2: Seq<(Seq<u8>, BValue)>|
                                    #![trigger enc_pairs(wps2)]
                                    wps == ips + wps2 && enc_pairs(wps2) + (seq![101u8] + rest)
                                        == bytes@.skip(cur as int);
                                if wps2.len() == 0 {
                                    assert(enc_pairs(wps2) =~= Seq::<u8>::empty());
                                    assert(bytes@.skip(cur as int) =~= seq![101u8] + rest);
                                    assert(bytes@[cur as int] == bytes@.skip(cur as int)[0]);
                                    assert(false);
                                } else {
                                    assert(bytes@.skip(cur as int) =~= enc_str(wps2[0].0) + (enc(
                                        wps2[0].1,
                                    ) + (enc_pairs(wps2.drop_first()) + (seq![101u8] + rest))));
                                    assert(starts_string(bytes@.skip(cur as int)));
                                    assert(false);
                                }
                            }
                        }
                    }
                    return Err(e);
                },
            };
            let (v, nxt) = match decode_value(bytes, kend) {
                Ok(p) => p,
                Err(e) => {
                    proof {
                        assert forall|w: BValue, rest: Seq<u8>| suffix != #[trigger] (enc(w)
                            + rest) by {
                            if suffix == enc(w) + rest {
                                lemma_enc_first(w);
                                assert(suffix[0] == bytes@[pos as int]);
                                assert(w is Dict);
                                let wps = w->Dict_0;
                                assert(suffix.skip(1) =~= enc_pairs(wps) + (seq![101u8] + rest));
                                assert(bytes@.skip(pos + 1) =~= suffix.skip(1));
                                lemma_enc_pairs_split(
                                    wps,
                                    ips,
                                    seq![101u8] + rest,
                                    bytes@.skip(cur as int),
                                );
                                let wps2 = choose|wps2: Seq<(Seq<u8>, BValue)>|
                                    #![trigger enc_pairs(wps2)]
                                    wps == ips + wps2 && enc_pairs(wps2) + (seq![101u8] + rest)
                                        == bytes@.skip(cur as int);
                                if wps2.len() == 0 {
                                    assert(enc_pairs(wps2) =~= Seq::<u8>::empty());
                                    assert(bytes@.skip(cur as int) =~= seq![101u8] + rest);
                                    assert(bytes@[cur as int] == bytes@.skip(cur as int)[0]);
                                    assert(false);
                                } else {
                                    assert(bytes@.skip(cur as int) =~= enc_str(wps2[0].0) + (enc(
                                        wps2[0].1,
                                    ) + (enc_pairs(wps2.drop_first()) + (seq![101u8] + rest))));
                                    assert(bytes@.skip(cur as int) =~= enc_str(k@) + bytes@.skip(
                                        kend as int,
                                    ));
                                    lemma_enc_str_pf(
                                        k@,
                                        wps2[0].0,
                                        bytes@.skip(kend as int),
                                        enc(wps2[0].1) + (enc_pairs(wps2.drop_first()) + (
                                        seq![101u8] + rest)),
                                    );
                                    assert(bytes@.skip(kend as int) =~= enc(wps2[0].1) + (enc_pairs(
                                        wps2.drop_first(),
                                    ) + (seq![101u8] + rest)));
                                    assert(starts_value(bytes@.skip(kend as int)));
                                    assert(false);
                                }
                            }
                        }
                    }
                    return Err(e);
                },
            };
            proof {
                lemma_enc_pairs_push(bval_pairs(pairs@), k@, v@);
                assert(pairs@.push((k, v)).drop_last() =~= pairs@);
                assert(bval_pairs(pairs@.push((k, v))) == bval_pairs(pairs@).push((k@, v@)));
                assert(enc_pairs(bval_pairs(pairs@).push((k@, v@))) =~= bytes@.subrange(
                    pos + 1,
                    nxt as int,
                ));
            }
            pairs.push((k, v));
            cur = nxt;
        }
    }
    proof {
        lemma_no_value_bad_first(suffix);
    }
    Err(TorrentError::MalformedBencode)
}

/// Compares two byte strings in the lexicographic key order.
pub fn lex_le_bytes(a: &[u8], b: &[u8]) -> (r: bool)
    ensures
        r == lex_le(a@, b@),
{
    let mut i: usize = 0;
    let alen = a.len();
    let blen = b.len();
    proof {
        assert(a@.skip(0) =~= a@);
        assert(b@.skip(0) =~= b@);
    }
    loop
        invariant
            i <= alen <= a@.len(),
            i <= blen <= b@.len(),
            alen == a@.len(),
            blen == b@.len(),
            forall|j: int| 0 <= j < i ==> a@[j] == b@[j],
            lex_le(a@, b@) == lex_le(a@.skip(i as int), b@.skip(i as int)),
        decreases alen - i,
    {
        if i >= alen {
            proof {
                assert(a@.skip(i as int).len() == 0);
            }
            return true;
        }
        if i >= blen {
            proof {
                assert(b@.skip(i as int).len() == 0);
                assert(a@.skip(i as int).len() > 0);
            }
            return false;
        }
        let x = *slice_index_get(a, i);
        let y = *slice_index_get(b, i);
        proof {
            assert(a@.skip(i as int)[0] == a@[i as int]);
            assert(b@.skip(i as int)[0] == b@[i as int]);
            assert(a@.skip(i as int).drop_first() =~= a@.skip(i + 1));
            assert(b@.skip(i as int).drop_first() =~= b@.skip(i + 1));
        }
        if x < y {
            return true;
        }
        if x > y {
            return false;
        }
        i = i + 1;
    }
}

/// Appends the canonical decimal digits of `n` to `out`.
pub fn push_dec(n: u64, out: &mut Vec<u8>)
    ensures
        final(out)@ == old(out)@ + dec_u(n as nat),
    decreases n,
{
    if n < 10 {
        out.push((48 + n) as u8);
        proof {
            assert(out@ =~= old(out)@ + dec_u(n as nat));
        }
    } else {
        proof {
            assert(n / 10 < n) by (nonlinear_arith)
                requires
                    n >= 10,
            ;
        }
        push_dec(n / 10, out);
        out.push((48 + (n % 10)) as u8);
        proof {
            assert(dec_u(n as nat) == dec_u((n as nat) / 10).push((48 + (n as nat) % 10) as u8));
            assert((n as nat) / 10 == (n / 10) as nat);
            assert(out@ =~= old(out)@ + dec_u(n as nat));
        }
    }
}

/// Appends the wire encoding of one byte string, `<length>:<bytes>`.
fn push_str_enc(s: &Vec<u8>, out: &mut Vec<u8>)
    ensures
        final(out)@ == old(out)@ + enc_str(s@),
{
    push_dec(s.len() as u64, out);
    out.push(58);
    let mut i: usize = 0;
    proof {
        assert(s@.take(0) =~= Seq::<u8>::empty());
        assert(out@ =~= old(out)@ + dec_u(s@.len()) + seq![58u8] + s@.take(0));
    }
    while i < s.len()
        invariant
            i <= s@.len(),
            out@ == old(out)@ + dec_u(s@.len()) + seq![58u8] + s@.take(i as int),
        decreases s@.len() - i,
    {
        let b = *slice_index_get(s.as_slice(), i);
        out.push(b);
        proof {
            assert(s@.take(i + 1) =~= s@.take(i as int).push(s@[i as int]));
            assert(out@ =~= old(out)@ + dec_u(s@.len()) + seq![58u8] + s@.take(i + 1));
        }
        i = i + 1;
    }
    proof {
        assert(s@.take(s@.len() as int) =~= s@);
        assert(out@ =~= old(out)@ + enc_str(s@));
    }
}

/// Appends the wire encoding of `v` (dictionary entries in stored order).
fn enc_into(v: &Bencode, out: &mut Vec<u8>)
    ensures
        final(out)@ == old(out)@ + enc(v@),
    decreases v,
{
    match v {
        Bencode::Bytes(s) => {
            push_str_enc(s, out);
            proof {
                assert(enc(v@) == enc_str(s@));
                assert(out@ =~= old(out)@ + enc(v@));
            }
        },
        Bencode::Int(n) => {
            out.push(105);
            let i = *n;
            if i < 0 {
                out.push(45);
                let mag: u64 = if i == i64::MIN {
                    0x8000_0000_0000_0000u64
                } else {
                    (-i) as u64
                };
                push_dec(mag, out);
                proof {
                    assert(mag as int == -(i as int));
                    assert(dec_i(i as int) =~= seq![45u8] + dec_u(mag as nat));
                }
            } else {
                push_dec(i as u64, out);
                proof {
                    assert(dec_i(i as int) == dec_u(i as nat));
                }
            }
            out.push(101);
            proof {
                assert(enc(v@) == seq![105u8] + dec_i(*n as int) + seq![101u8]);
                assert(out@ =~= old(out)@ + enc(v@));
            }
        },
        Bencode::List(vs) => {
            out.push(108);
            let mut i: usize = 0;
            proof {
                lemma_bval_seq_index(vs@);
                assert(bval_seq(vs@.take(0)) =~= Seq::<BValue>::empty());
                assert(out@ =~= old(out)@ + seq![108u8] + enc_seq(bval_seq(vs@.take(0))));
            }
            while i < vs.len()
                invariant
                    i <= vs@.len(),
                    *v == Bencode::List(*vs),
                    out@ == old(out)@ + seq![108u8] + enc_seq(bval_seq(vs@.take(i as int))),
                decreases vs@.len() - i,
            {
                proof {
                    assert(v->List_0 == *vs);
                    assert(decreases_to!(*v => v->List_0));
                    assert(decreases_to!(v->List_0 => v->List_0@));
                    assert(decreases_to!(v->List_0@ => v->List_0@[i as int]));
                }
                enc_into(vec_ref(vs, i), out);
                proof {
                    assert(vs@.take(i + 1).drop_last() =~= vs@.take(i as int));
                    assert(vs@.take(i + 1).last() == vs@[i as int]);
                    assert(bval_seq(vs@.take(i + 1)) == bval_seq(vs@.take(i as int)).push(
                        bval(vs@[i as int]),
                    ));
                    lemma_enc_seq_push(bval_seq(vs@.take(i as int)), bval(vs@[i as int]));
                    assert(out@ =~= old(out)@ + seq![108u8] + enc_seq(bval_seq(vs@.take(i + 1))));
                }
                i = i + 1;
            }
            out.push(101);
            proof {
                assert(vs@.take(vs@.len() as int) =~= vs@);
                assert(enc(v@) == seq![108u8] + enc_seq(bval_seq(vs@)) + seq![101u8]);
                assert(out@ =~= old(out)@ + enc(v@));
            }
        },
        Bencode::Dict(ps) => {
            out.push(100);
            let mut i: usize = 0;
            proof {
                assert(bval_pairs(ps@.take(0)) =~= Seq::<(Seq<u8>, BValue)>::empty());
                assert(out@ =~= old(out)@ + seq![100u8] + enc_pairs(bval_pairs(ps@.take(0))));
            }
            while i < ps.len()
                invariant
                    i <= ps@.len(),
                    *v == Bencode::Dict(*ps),
                    out@ == old(out)@ + seq![100u8] + enc_pairs(bval_pairs(ps@.take(i as int))),
                decreases ps@.len() - i,
            {
                let pair = vec_ref(ps, i);
                push_str_enc(&pair.0, out);
                proof {
                    assert(v->Dict_0 == *ps);
                    assert(decreases_to!(*v => v->Dict_0));
                    assert(decreases_to!(v->Dict_0 => v->Dict_0@));
                    assert(decreases_to!(v->Dict_0@ => v->Dict_0@[i as int]));
                    assert(decreases_to!(v->Dict_0@[i as int] => v->Dict_0@[i as int].1));
                }
                enc_into(&pair.1, out);
                proof {
                    assert(ps@.take(i + 1).drop_last() =~= ps@.take(i as int));
                    assert(ps@.take(i + 1).last() == ps@[i as int]);
                    assert(bval_pairs(ps@.take(i + 1)) == bval_pairs(ps@.take(i as int)).push(
                        (ps@[i as int].0@, bval(ps@[i as int].1)),
                    ));
                    lemma_enc_pairs_push(
                        bval_pairs(ps@.take(i as int)),
                        ps@[i as int].0@,
                        bval(ps@[i as int].1),
                    );
                    assert(out@ =~= old(out)@ + seq![100u8] + enc_pairs(bval_pairs(ps@.take(i + 1))));
                }
                i = i + 1;
            }
            out.push(101);
            proof {
                assert(ps@.take(ps@.len() as int) =~= ps@);
                assert(enc(v@) == seq![100u8] + enc_pairs(bval_pairs(ps@)) + seq![101u8]);
                assert(out@ =~= old(out)@ + enc(v@));
            }
        },
    }
}

/// Re-encodes a value exactly as it stood on the wire, dictionary entries in
/// stored order.
pub fn encode_wire(v: &Bencode) -> (r: Vec<u8>)
    ensures
        r@ == enc(v@),
{
    let mut out: Vec<u8> = Vec::new();
    enc_into(v, &mut out);
    proof {
        assert(out@ =~= enc(v@));
    }
    out
}

/// Rebuilds a value with every dictionary sorted by raw key bytes.
pub fn canonicalize(v: &Bencode) -> (r: Bencode)
    ensures
        r@ == canon(v@),
    decreases v,
{
    match v {
        Bencode::Bytes(s) => {
            let c = slice_to_vec(s.as_slice());
            Bencode::Bytes(c)
        },
        Bencode::Int(n) => Bencode::Int(*n),
        Bencode::List(vs) => {
            let mut items: Vec<Bencode> = Vec::new();
            let mut i: usize = 0;
            proof {
                lemma_bval_seq_index(vs@);
                assert(bval_seq(vs@.take(0)) =~= Seq::<BValue>::empty());
                assert(canon_seq(bval_seq(vs@.take(0))) =~= Seq::<BValue>::empty());
                assert(bval_seq(items@) =~= canon_seq(bval_seq(vs@.take(0))));
            }
            while i < vs.len()
                invariant
                    i <= vs@.len(),
                    *v == Bencode::List(*vs),
                    bval_seq(items@) == canon_seq(bval_seq(vs@.take(i as int))),
                decreases vs@.len() - i,
            {
                proof {
                    assert(v->List_0 == *vs);
                    assert(decreases_to!(*v => v->List_0));
                    assert(decreases_to!(v->List_0 => v->List_0@));
                    assert(decreases_to!(v->List_0@ => v->List_0@[i as int]));
                }
                let c = canonicalize(vec_ref(vs, i));
                proof {
                    assert(items@.push(c).drop_last() =~= items@);
                    assert(bval_seq(items@.push(c)) == bval_seq(items@).push(c@));
                    assert(vs@.take(i + 1).drop_last() =~= vs@.take(i as int));
                    assert(bval_seq(vs@.take(i + 1)) == bval_seq(vs@.take(i as int)).push(
                        bval(vs@[i as int]),
                    ));
                    assert(bval_seq(vs@.take(i + 1)).drop_last() =~= bval_seq(vs@.take(i as int)));
                    assert(canon_seq(bval_seq(vs@.take(i + 1))) == canon_seq(
                        bval_seq(vs@.take(i as int)),
                    ).push(canon(bval(vs@[i as int]))));
                }
                items.push(c);
                i = i + 1;
            }
            proof {
                assert(vs@.take(vs@.len() as int) =~= vs@);
                assert(bval(Bencode::List(items)) == BValue::List(bval_seq(items@)));
            }
            Bencode::List(items)
        },
        Bencode::Dict(ps) => {
            let mut entries: Vec<(Vec<u8>, Bencode)> = Vec::new();
            let mut i: usize = 0;
            proof {
                lemma_bval_pairs_index(ps@);
                assert(bval_pairs(ps@.take(0)) =~= Seq::<(Seq<u8>, BValue)>::empty());
                assert(canon_pairs(bval_pairs(ps@.take(0))) =~= Seq::<(Seq<u8>, BValue)>::empty());
                assert(sort_pairs(canon_pairs(bval_pairs(ps@.take(0)))) =~= Seq::<
                    (Seq<u8>, BValue),
                >::empty());
                assert(bval_pairs(entries@) =~= sort_pairs(canon_pairs(bval_pairs(ps@.take(0)))));
            }
            while i < ps.len()
                invariant
                    i <= ps@.len(),
                    *v == Bencode::Dict(*ps),
                    bval_pairs(entries@) == sort_pairs(canon_pairs(bval_pairs(ps@.take(i as int)))),
                decreases ps@.len() - i,
            {
                let pair = vec_ref(ps, i);
                let key = slice_to_vec(pair.0.as_slice());
                proof {
                    assert(v->Dict_0 == *ps);
                    assert(decreases_to!(*v => v->Dict_0));
                    assert(decreases_to!(v->Dict_0 => v->Dict_0@));
                    assert(decreases_to!(v->Dict_0@ => v->Dict_0@[i as int]));
                    assert(decreases_to!(v->Dict_0@[i as int] => v->Dict_0@[i as int].1));
                }
                let cv = canonicalize(&pair.1);
                let ghost before = bval_pairs(entries@);
                let ghost newp = (key@, cv@);
                let mut j: usize = 0;
                loop
                    invariant
                        j <= entries@.len(),
                        bval_pairs(entries@) == before,
                        forall|t: int| 0 <= t < j ==> !lex_le(newp.0, (#[trigger] before[t]).0),
                        newp == (key@, cv@),
                    ensures
                        j <= entries@.len(),
                        bval_pairs(entries@) == before,
                        forall|t: int| 0 <= t < j ==> !lex_le(newp.0, (#[trigger] before[t]).0),
                        j < entries@.len() ==> lex_le(newp.0, before[j as int].0),
                        newp == (key@, cv@),
                    decreases entries@.len() - j,
                {
                    proof {
                        lemma_bval_pairs_index(entries@);
                    }
                    if j >= entries.len() {
                        break ;
                    }
                    if lex_le_bytes(key.as_slice(), vec_ref(&entries, j).0.as_slice()) {
                        break ;
                    }
                    j = j + 1;
                }
                proof {
                    lemma_bval_pairs_index(entries@);
                    assert(before.len() == entries@.len());
                    lemma_insert_sorted_at(newp, before, j as int);
                }
                let ghost pre = entries@;
                entries.insert(j, (key, cv));
                proof {
                    pre.insert_ensures(j as int, (key, cv));
                    lemma_bval_pairs_index(pre);
                    lemma_bval_pairs_index(entries@);
                    assert(entries@ == pre.insert(j as int, (key, cv)));
                    assert forall|t: int| 0 <= t < bval_pairs(entries@).len() implies bval_pairs(
                        entries@,
                    )[t] == (before.take(j as int) + seq![newp] + before.skip(j as int))[t] by {
                        if t < j {
                            assert(entries@[t] == pre[t]);
                        } else if t == j {
                            assert(entries@[t] == (key, cv));
                        } else {
                            assert(entries@[t] == pre[t - 1]);
                        }
                    }
                    assert(bval_pairs(entries@) =~= before.take(j as int) + seq![newp]
                        + before.skip(j as int));
                    assert(bval_pairs(entries@) == insert_sorted(newp, before));
                    assert(ps@.take(i + 1).drop_last() =~= ps@.take(i as int));
                    assert(bval_pairs(ps@.take(i + 1)) == bval_pairs(ps@.take(i as int)).push(
                        (ps@[i as int].0@, bval(ps@[i as int].1)),
                    ));
                    assert(bval_pairs(ps@.take(i + 1)).drop_last() =~= bval_pairs(
                        ps@.take(i as int),
                    ));
                    assert(canon_pairs(bval_pairs(ps@.take(i + 1))) == canon_pairs(
                        bval_pairs(ps@.take(i as int)),
                    ).push((ps@[i as int].0@, canon(bval(ps@[i as int].1)))));
                    assert(canon_pairs(bval_pairs(ps@.take(i + 1))).drop_last() =~= canon_pairs(
                        bval_pairs(ps@.take(i as int)),
                    ));
                    assert(sort_pairs(canon_pairs(bval_pairs(ps@.take(i + 1)))) == insert_sorted(
                        (ps@[i as int].0@, canon(bval(ps@[i as int].1))),
                        sort_pairs(canon_pairs(bval_pairs(ps@.take(i as int)))),
                    ));
                }
                i = i + 1;
            }
            proof {
                assert(ps@.take(ps@.len() as int) =~= ps@);
                assert(bval(Bencode::Dict(entries)) == BValue::Dict(bval_pairs(entries@)));
            }
            Bencode::Dict(entries)
        },
    }
}

/// Canonical encoding of a value: its wire encoding with every dictionary's
/// entries sorted by raw key bytes.
pub fn encode(v: &Bencode) -> (r: Vec<u8>)
    ensures
        r@ == enc(canon(v@)),
{
    let c = canonicalize(v);
    encode_wire(&c)
}

/// Shared reference to one element of a vector.
fn vec_ref<T>(v: &Vec<T>, i: usize) -> (r: &T)
    requires
        i < v@.len(),
    ensures
        *r == v@[i as int],
{
    &v[i]
}

/// Decodes one value from the head of `bytes`, returning the value and how
/// many bytes it consumed. The consumed prefix is exactly the wire encoding
/// of the value, and decoding succeeds exactly when the input begins with
/// some value's encoding.
pub fn decode(bytes: &[u8]) -> (r: Result<(Bencode, usize), TorrentError>)
    ensures
        r matches Ok(p) ==> {
            &&& 0 < p.1 <= bytes@.len()
            &&& enc(p.0@) == bytes@.subrange(0, p.1 as int)
        },
        r is Ok <==> starts_value(bytes@),
        r matches Err(e) ==> e == TorrentError::MalformedBencode,
{
    let r = decode_value(bytes, 0);
    proof {
        assert(bytes@.skip(0) =~= bytes@);
    }
    r
}

/// First-match lookup of a key in a run of dictionary entries.
pub open spec fn dict_get(ps: Seq<(Seq<u8>, BValue)>, k: Seq<u8>) -> Option<BValue>
    decreases ps.len(),
{
    if ps.len() == 0 {
        None
    } else if ps[0].0 == k {
        Some(ps[0].1)
    } else {
        dict_get(ps.drop_first(), k)
    }
}

/// Byte-for-byte equality of two byte strings.
pub fn bytes_eq(a: &[u8], b: &[u8]) -> (r: bool)
    ensures
        r == (a@ == b@),
{
    if a.len() != b.len() {
        return false;
    }
    let mut i: usize = 0;
    while i < a.len()
        invariant
            a@.len() == b@.len(),
            i <= a@.len(),
            forall|j: int| 0 <= j < i ==> a@[j] == b@[j],
        decreases a@.len() - i,
    {
        if *slice_index_get(a, i) != *slice_index_get(b, i) {
            proof {
                assert(a@[i as int] != b@[i as int]);
            }
            return false;
        }
        i = i + 1;
    }
    proof {
        assert(a@ =~= b@);
    }
    true
}

impl Bencode {
    /// First entry with the given key, when this value is a dictionary.
    pub fn lookup(&self, key: &[u8]) -> (r: Option<&Bencode>)
        ensures
            match r {
                Some(b) => self@ is Dict && dict_get(self@->Dict_0, key@) == Some(b@),
                None => self@ is Dict ==> dict_get(self@->Dict_0, key@) is None,
            },
    {
        match self {
            Bencode::Dict(ps) => {
                let ghost full = bval_pairs(ps@);
                let mut i: usize = 0;
                proof {
                    lemma_bval_pairs_index(ps@);
                    assert(full.skip(0) =~= full);
                }
                while i < ps.len()
                    invariant
                        *self == Bencode::Dict(*ps),
                        full == bval_pairs(ps@),
                        i <= ps@.len(),
                        dict_get(full, key@) == dict_get(full.skip(i as int), key@),
                    decreases ps@.len() - i,
                {
                    proof {
                        lemma_bval_pairs_index(ps@);
                        assert(full.skip(i as int)[0] == full[i as int]);
                        assert(full.skip(i as int).drop_first() =~= full.skip(i + 1));
                    }
                    let pair = vec_ref(ps, i);
                    if bytes_eq(pair.0.as_slice(), key) {
                        return Some(&pair.1);
                    }
                    i = i + 1;
                }
                proof {
                    assert(full.skip(ps@.len() as int).len() == 0);
                }
                None
            },
            _ => None,
        }
    }

    /// The integer held by this value, when it is one.
    pub fn as_int(&self) -> (r: Option<i64>)
        ensures
            match r {
                Some(n) => self@ == BValue::Int(n),
                None => !(self@ is Int),
            },
    {
        match self {
            Bencode::Int(n) => Some(*n),
            _ => None,
        }
    }

    /// The byte string held by this value, when it is one.
    pub fn as_bytes(&self) -> (r: Option<&Vec<u8>>)
        ensures
            match r {
                Some(s) => self@ == BValue::Bytes(s@),
                None => !(self@ is Bytes),
            },
    {
        match self {
            Bencode::Bytes(s) => Some(s),
            _ => None,
        }
    }
}

} // verus!
