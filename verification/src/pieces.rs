//! Pieces: the table of 20-byte SHA-1 digests, one per piece, carried in a
//! torrent's `pieces` byte string.

use vstd::prelude::*;
use vstd::slice::slice_subrange;
use vstd::slice::slice_to_vec;

use crate::errors::TorrentError;

verus! {

/// Length of one SHA-1 digest in bytes.
pub const SHA1_LEN: usize = 20;

/// Concatenation of a sequence of hash vectors into one flat byte sequence.
pub open spec fn flat_hashes(s: Seq<Vec<u8>>) -> Seq<u8>
    decreases s.len(),
{
    if s.len() == 0 {
        Seq::empty()
    } else {
        flat_hashes(s.drop_last()) + s.last()@
    }
}

/// The 20-byte SHA-1 hash values of all pieces, in piece-index order.
///
/// On the wire they stand concatenated in one byte string whose length is a
/// multiple of 20; here each hash is its own vector.
pub struct Pieces(pub Vec<Vec<u8>>);

impl Pieces {
    /// Every entry is one 20-byte digest.
    pub open spec fn wf(&self) -> bool {
        forall|i: int| 0 <= i < self.0@.len() ==> (#[trigger] self.0@[i])@.len() == 20
    }

    /// The flat byte string these hashes came from.
    pub open spec fn flat(&self) -> Seq<u8> {
        flat_hashes(self.0@)
    }

    /// Splits a flat `pieces` byte string into 20-byte hashes. Fails exactly
    /// when the length is not a multiple of 20.
    pub fn from_flat(bytes: &[u8]) -> (r: Result<Pieces, TorrentError>)
        ensures
            r is Ok <==> bytes@.len() % 20 == 0,
            r matches Ok(p) ==> {
                &&& p.wf()
                &&& p.flat() == bytes@
                &&& 20 * p.0@.len() == bytes@.len()
            },
            r matches Err(e) ==> e == TorrentError::MalformedTorrent,
    {
        if bytes.len() % 20 != 0 {
            return Err(TorrentError::MalformedTorrent);
        }
        let n = bytes.len() / 20;
        let mut hashes: Vec<Vec<u8>> = Vec::new();
        let mut i: usize = 0;
        proof {
            assert(flat_hashes(hashes@) =~= bytes@.take(0));
        }
        while i < n
            invariant
                20 * n == bytes@.len(),
                bytes@.len() <= usize::MAX,
                i <= n,
                hashes@.len() == i,
                forall|j: int| 0 <= j < hashes@.len() ==> (#[trigger] hashes@[j])@.len() == 20,
                flat_hashes(hashes@) == bytes@.take(20 * i),
            decreases n - i,
        {
            proof {
                assert(20 * (i as int) + 20 <= 20 * (n as int)) by (nonlinear_arith)
                    requires
                        i < n,
                ;
            }
            let h = slice_to_vec(slice_subrange(bytes, 20 * i, 20 * i + 20));
            proof {
                assert(hashes@.push(h).drop_last() =~= hashes@);
                assert(flat_hashes(hashes@.push(h)) == flat_hashes(hashes@) + h@);
                assert(flat_hashes(hashes@) + h@ =~= bytes@.take(20 * (i + 1)));
            }
            hashes.push(h);
            i = i + 1;
        }
        proof {
            assert(bytes@.take(20 * n) =~= bytes@);
        }
        Ok(Pieces(hashes))
    }

    /// Number of pieces.
    pub fn count(&self) -> (r: usize)
        ensures
            r == self.0@.len(),
    {
        self.0.len()
    }

    /// The expected SHA-1 hash of piece `index`.
    pub fn hash_at(&self, index: usize) -> (r: &Vec<u8>)
        requires
            index < self.0@.len(),
        ensures
            *r == self.0@[index as int],
    {
        &self.0[index]
    }

    /// Restores the flat wire form: all hashes concatenated in order.
    pub fn to_flat(&self) -> (r: Vec<u8>)
        ensures
            r@ == self.flat(),
    {
        let mut out: Vec<u8> = Vec::new();
        let mut i: usize = 0;
        proof {
            assert(out@ =~= flat_hashes(self.0@.take(0)));
        }
        while i < self.0.len()
            invariant
                i <= self.0@.len(),
                out@ == flat_hashes(self.0@.take(i as int)),
            decreases self.0@.len() - i,
        {
            let h = &self.0[i];
            let mut j: usize = 0;
            while j < h.len()
                invariant
                    j <= h@.len(),
                    *h == self.0@[i as int],
                    i < self.0@.len(),
                    out@ == flat_hashes(self.0@.take(i as int)) + h@.take(j as int),
                decreases h@.len() - j,
            {
                out.push(h[j]);
                proof {
                    assert(h@.take(j + 1) =~= h@.take(j as int).push(h@[j as int]));
                    assert(out@ =~= flat_hashes(self.0@.take(i as int)) + h@.take(j + 1));
                }
                j = j + 1;
            }
            proof {
                assert(self.0@.take(i + 1).drop_last() =~= self.0@.take(i as int));
                assert(self.0@.take(i + 1).last() == self.0@[i as int]);
                assert(h@.take(h@.len() as int) =~= h@);
                assert(flat_hashes(self.0@.take(i + 1)) == flat_hashes(self.0@.take(i as int))
                    + h@);
            }
            i = i + 1;
        }
        proof {
            assert(self.0@.take(self.0@.len() as int) =~= self.0@);
        }
        out
    }
}

} // verus!
