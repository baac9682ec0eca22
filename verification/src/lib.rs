//! Core of a BitTorrent client: the bencode codec, the meta-info model with
//! its info-hash, the magnet-link parser, the tracker peer-list codec, the
//! peer wire protocol, the block request pipeline and the download scheduler.
//!
//! All network and file I/O lives outside this crate; the functions here work
//! on plain byte values and carry machine-checked contracts.

use vstd::prelude::*;

pub mod bencode;
pub mod digest;
pub mod errors;
pub mod keys;
pub mod magnet;
pub mod magnet_fetch;
pub mod meta_info;
pub mod pieces;
pub mod scheduler;
pub mod session;
pub mod tracker;
pub mod wire;


verus! {

/// Byte offset at which piece `index` starts in the output file.
pub fn piece_offset(index: u32, piece_length: u32) -> (r: u64)
    ensures
        r == index as u64 * piece_length as u64,
{
    proof {
        assert((index as int) * (piece_length as int) <= 0xffff_ffffu64 * 0xffff_ffffu64)
            by (nonlinear_arith)
            requires
                0 <= index <= 0xffff_ffffu64,
                0 <= piece_length <= 0xffff_ffffu64,
        ;
    }
    index as u64 * piece_length as u64
}

} // verus!
