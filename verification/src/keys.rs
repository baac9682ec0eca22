//! The dictionary keys the protocol reads, as raw byte strings.

use vstd::prelude::*;

verus! {

pub open spec fn key_announce() -> Seq<u8> {
    seq![97u8, 110u8, 110u8, 111u8, 117u8, 110u8, 99u8, 101u8]
}

pub open spec fn key_info() -> Seq<u8> {
    seq![105u8, 110u8, 102u8, 111u8]
}

pub open spec fn key_name() -> Seq<u8> {
    seq![110u8, 97u8, 109u8, 101u8]
}

pub open spec fn key_piece_length() -> Seq<u8> {
    seq![112u8, 105u8, 101u8, 99u8, 101u8, 32u8, 108u8, 101u8, 110u8, 103u8, 116u8, 104u8]
}

pub open spec fn key_length() -> Seq<u8> {
    seq![108u8, 101u8, 110u8, 103u8, 116u8, 104u8]
}

pub open spec fn key_pieces() -> Seq<u8> {
    seq![112u8, 105u8, 101u8, 99u8, 101u8, 115u8]
}

pub open spec fn key_interval() -> Seq<u8> {
    seq![105u8, 110u8, 116u8, 101u8, 114u8, 118u8, 97u8, 108u8]
}

pub open spec fn key_peers() -> Seq<u8> {
    seq![112u8, 101u8, 101u8, 114u8, 115u8]
}

pub open spec fn key_failure_reason() -> Seq<u8> {
    seq![
        102u8, 97u8, 105u8, 108u8, 117u8, 114u8, 101u8, 32u8, 114u8, 101u8, 97u8, 115u8, 111u8,
        110u8,
    ]
}

pub open spec fn key_m() -> Seq<u8> {
    seq![109u8]
}

pub open spec fn key_ut_metadata() -> Seq<u8> {
    seq![117u8, 116u8, 95u8, 109u8, 101u8, 116u8, 97u8, 100u8, 97u8, 116u8, 97u8]
}

pub open spec fn key_msg_type() -> Seq<u8> {
    seq![109u8, 115u8, 103u8, 95u8, 116u8, 121u8, 112u8, 101u8]
}

pub open spec fn key_piece() -> Seq<u8> {
    seq![112u8, 105u8, 101u8, 99u8, 101u8]
}

pub open spec fn key_total_size() -> Seq<u8> {
    seq![116u8, 111u8, 116u8, 97u8, 108u8, 95u8, 115u8, 105u8, 122u8, 101u8]
}

pub open spec fn key_metadata_size() -> Seq<u8> {
    seq![109u8, 101u8, 116u8, 97u8, 100u8, 97u8, 116u8, 97u8, 95u8, 115u8, 105u8, 122u8, 101u8]
}

pub fn key_announce_vec() -> (r: Vec<u8>)
    ensures
        r@ == key_announce(),
{
    let r: Vec<u8> = vec![97u8, 110u8, 110u8, 111u8, 117u8, 110u8, 99u8, 101u8];
    proof {
        assert(r@ =~= key_announce());
    }
    r
}

pub fn key_info_vec() -> (r: Vec<u8>)
    ensures
        r@ == key_info(),
{
    let r: Vec<u8> = vec![105u8, 110u8, 102u8, 111u8];
    proof {
        assert(r@ =~= key_info());
    }
    r
}

pub fn key_name_vec() -> (r: Vec<u8>)
    ensures
        r@ == key_name(),
{
    let r: Vec<u8> = vec![110u8, 97u8, 109u8, 101u8];
    proof {
        assert(r@ =~= key_name());
    }
    r
}

pub fn key_piece_length_vec() -> (r: Vec<u8>)
    ensures
        r@ == key_piece_length(),
{
    let r: Vec<u8> = vec![
        112u8, 105u8, 101u8, 99u8, 101u8, 32u8, 108u8, 101u8, 110u8, 103u8, 116u8, 104u8,
    ];
    proof {
        assert(r@ =~= key_piece_length());
    }
    r
}

pub fn key_length_vec() -> (r: Vec<u8>)
    ensures
        r@ == key_length(),
{
    let r: Vec<u8> = vec![108u8, 101u8, 110u8, 103u8, 116u8, 104u8];
    proof {
        assert(r@ =~= key_length());
    }
    r
}

pub fn key_pieces_vec() -> (r: Vec<u8>)
    ensures
        r@ == key_pieces(),
{
    let r: Vec<u8> = vec![112u8, 105u8, 101u8, 99u8, 101u8, 115u8];
    proof {
        assert(r@ =~= key_pieces());
    }
    r
}

pub fn key_interval_vec() -> (r: Vec<u8>)
    ensures
        r@ == key_interval(),
{
    let r: Vec<u8> = vec![105u8, 110u8, 116u8, 101u8, 114u8, 118u8, 97u8, 108u8];
    proof {
        assert(r@ =~= key_interval());
    }
    r
}

pub fn key_peers_vec() -> (r: Vec<u8>)
    ensures
        r@ == key_peers(),
{
    let r: Vec<u8> = vec![112u8, 101u8, 101u8, 114u8, 115u8];
    proof {
        assert(r@ =~= key_peers());
    }
    r
}

pub fn key_failure_reason_vec() -> (r: Vec<u8>)
    ensures
        r@ == key_failure_reason(),
{
    let r: Vec<u8> = vec![
        102u8, 97u8, 105u8, 108u8, 117u8, 114u8, 101u8, 32u8, 114u8, 101u8, 97u8, 115u8, 111u8,
        110u8,
    ];
    proof {
        assert(r@ =~= key_failure_reason());
    }
    r
}

pub fn key_m_vec() -> (r: Vec<u8>)
    ensures
        r@ == key_m(),
{
    let r: Vec<u8> = vec![109u8];
    proof {
        assert(r@ =~= key_m());
    }
    r
}

pub fn key_ut_metadata_vec() -> (r: Vec<u8>)
    ensures
        r@ == key_ut_metadata(),
{
    let r: Vec<u8> = vec![117u8, 116u8, 95u8, 109u8, 101u8, 116u8, 97u8, 100u8, 97u8, 116u8, 97u8];
    proof {
        assert(r@ =~= key_ut_metadata());
    }
    r
}

pub fn key_msg_type_vec() -> (r: Vec<u8>)
    ensures
        r@ == key_msg_type(),
{
    let r: Vec<u8> = vec![109u8, 115u8, 103u8, 95u8, 116u8, 121u8, 112u8, 101u8];
    proof {
        assert(r@ =~= key_msg_type());
    }
    r
}

pub fn key_piece_vec() -> (r: Vec<u8>)
    ensures
        r@ == key_piece(),
{
    let r: Vec<u8> = vec![112u8, 105u8, 101u8, 99u8, 101u8];
    proof {
        assert(r@ =~= key_piece());
    }
    r
}

pub fn key_total_size_vec() -> (r: Vec<u8>)
    ensures
        r@ == key_total_size(),
{
    let r: Vec<u8> = vec![116u8, 111u8, 116u8, 97u8, 108u8, 95u8, 115u8, 105u8, 122u8, 101u8];
    proof {
        assert(r@ =~= key_total_size());
    }
    r
}

pub fn key_metadata_size_vec() -> (r: Vec<u8>)
    ensures
        r@ == key_metadata_size(),
{
    let r: Vec<u8> = vec![
        109u8, 101u8, 116u8, 97u8, 100u8, 97u8, 116u8, 97u8, 95u8, 115u8, 105u8, 122u8, 101u8,
    ];
    proof {
        assert(r@ =~= key_metadata_size());
    }
    r
}

} // verus!
