//! The download scheduler's state: the piece table with its three states,
//! assignment of pieces to sessions, stall detection, and reconstruction of
//! the output file from verified pieces.

use vstd::prelude::*;

use crate::meta_info::MetaInfo;
use crate::meta_info::ceil_div;
use crate::pieces::flat_hashes;

verus! {

/// Download state of one piece. `InFlight` names the one session the piece
/// is assigned to.
#[derive(PartialEq, Eq, Structural, Clone, Copy, Debug)]
pub enum PieceState {
    Pending,
    InFlight(usize),
    Done,
}

/// The piece table: the scheduler is its sole owner and mutator.
pub struct PieceTable {
    pub states: Vec<PieceState>,
}

impl PieceTable {
    /// A fresh table: every piece pending.
    pub fn start(num_pieces: usize) -> (r: PieceTable)
        ensures
            r.states@.len() == num_pieces,
            forall|i: int| 0 <= i < num_pieces ==> (#[trigger] r.states@[i]) == PieceState::Pending,
    {
        let mut states: Vec<PieceState> = Vec::new();
        let mut i: usize = 0;
        while i < num_pieces
            invariant
                i <= num_pieces,
                states@.len() == i,
                forall|j: int| 0 <= j < i ==> (#[trigger] states@[j]) == PieceState::Pending,
            decreases num_pieces - i,
        {
            states.push(PieceState::Pending);
            i = i + 1;
        }
        PieceTable { states }
    }

    /// Assigns the lowest-indexed pending piece that the peer's bitfield
    /// claims, marking it in flight for that session. `None` exactly when no
    /// pending piece is claimed; then nothing changes.
    pub fn assign(&mut self, session: usize, bitfield: &Vec<bool>) -> (r: Option<usize>)
        requires
            bitfield@.len() == old(self).states@.len(),
        ensures
            match r {
                Some(i) => {
                    &&& i < old(self).states@.len()
                    &&& old(self).states@[i as int] == PieceState::Pending
                    &&& bitfield@[i as int]
                    &&& final(self).states@ == old(self).states@.update(
                        i as int,
                        PieceState::InFlight(session),
                    )
                    &&& forall|j: int|
                        0 <= j < i ==> !((#[trigger] old(self).states@[j]) == PieceState::Pending
                            && bitfield@[j])
                },
                None => {
                    &&& *final(self) == *old(self)
                    &&& forall|j: int|
                        0 <= j < old(self).states@.len() ==> !((#[trigger] old(self).states@[j])
                            == PieceState::Pending && bitfield@[j])
                },
            },
    {
        let mut i: usize = 0;
        let n = self.states.len();
        while i < n
            invariant
                i <= n,
                n == self.states@.len(),
                bitfield@.len() == self.states@.len(),
                *self == *old(self),
                forall|j: int|
                    0 <= j < i ==> !((#[trigger] self.states@[j]) == PieceState::Pending
                        && bitfield@[j]),
            decreases n - i,
        {
            let claimed = bitfield[i];
            let pending = match self.states[i] {
                PieceState::Pending => true,
                _ => false,
            };
            if pending && claimed {
                self.states.set(i, PieceState::InFlight(session));
                return Some(i);
            }
            i = i + 1;
        }
        None
    }

    /// Marks an in-flight piece done: its hash has been verified and its
    /// bytes written.
    pub fn complete(&mut self, index: usize)
        requires
            index < old(self).states@.len(),
            old(self).states@[index as int] is InFlight,
        ensures
            final(self).states@ == old(self).states@.update(index as int, PieceState::Done),
    {
        self.states.set(index, PieceState::Done);
    }

    /// Returns an in-flight piece to the queue after a peer failure or a
    /// hash mismatch.
    pub fn requeue(&mut self, index: usize)
        requires
            index < old(self).states@.len(),
            old(self).states@[index as int] is InFlight,
        ensures
            final(self).states@ == old(self).states@.update(index as int, PieceState::Pending),
    {
        self.states.set(index, PieceState::Pending);
    }

    /// Whether every piece is done.
    pub fn all_done(&self) -> (r: bool)
        ensures
            r == (forall|i: int|
                0 <= i < self.states@.len() ==> (#[trigger] self.states@[i]) == PieceState::Done),
    {
        let mut i: usize = 0;
        let n = self.states.len();
        while i < n
            invariant
                i <= n,
                n == self.states@.len(),
                forall|j: int| 0 <= j < i ==> (#[trigger] self.states@[j]) == PieceState::Done,
            decreases n - i,
        {
            let done = match self.states[i] {
                PieceState::Done => true,
                _ => false,
            };
            if !done {
                return false;
            }
            i = i + 1;
        }
        true
    }

    /// Whether any piece is in flight.
    pub fn any_in_flight(&self) -> (r: bool)
        ensures
            r == (exists|i: int|
                0 <= i < self.states@.len() && (#[trigger] self.states@[i]) is InFlight),
    {
        let mut i: usize = 0;
        let n = self.states.len();
        while i < n
            invariant
                i <= n,
                n == self.states@.len(),
                forall|j: int| 0 <= j < i ==> !((#[trigger] self.states@[j]) is InFlight),
            decreases n - i,
        {
            let inflight = match self.states[i] {
                PieceState::InFlight(_) => true,
                _ => false,
            };
            if inflight {
                return true;
            }
            i = i + 1;
        }
        false
    }

    /// The stall test: true exactly when no piece is in flight and no live
    /// session's bitfield claims a pending piece. The download then cannot
    /// make progress and fails with a stall.
    pub fn stalled(&self, bitfields: &Vec<Vec<bool>>) -> (r: bool)
        requires
            forall|s: int|
                0 <= s < bitfields@.len() ==> (#[trigger] bitfields@[s])@.len()
                    == self.states@.len(),
        ensures
            r == (!(exists|i: int|
                0 <= i < self.states@.len() && (#[trigger] self.states@[i]) is InFlight) && (forall|
                s: int,
                i: int,
            |
                0 <= s < bitfields@.len() && 0 <= i < self.states@.len() ==> !((
                #[trigger] self.states@[i]) == PieceState::Pending
                    && (#[trigger] bitfields@[s])@[i]))),
    {
        if self.any_in_flight() {
            return false;
        }
        let mut s: usize = 0;
        let m = bitfields.len();
        while s < m
            invariant
                s <= m,
                m == bitfields@.len(),
                forall|t: int|
                    0 <= t < bitfields@.len() ==> (#[trigger] bitfields@[t])@.len()
                        == self.states@.len(),
                forall|t: int, i: int|
                    0 <= t < s && 0 <= i < self.states@.len() ==> !((
                    #[trigger] self.states@[i]) == PieceState::Pending
                        && (#[trigger] bitfields@[t])@[i]),
            decreases m - s,
        {
            let bf = &bitfields[s];
            let mut i: usize = 0;
            let n = self.states.len();
            while i < n
                invariant
                    i <= n,
                    s < m,
                    m == bitfields@.len(),
                    n == self.states@.len(),
                    *bf == bitfields@[s as int],
                    bf@.len() == self.states@.len(),
                    forall|t: int, k: int|
                        0 <= t < s && 0 <= k < self.states@.len() ==> !((
                        #[trigger] self.states@[k]) == PieceState::Pending
                            && (#[trigger] bitfields@[t])@[k]),
                    forall|k: int|
                        0 <= k < i ==> !((#[trigger] self.states@[k]) == PieceState::Pending
                            && bf@[k]),
                decreases n - i,
            {
                let pending = match self.states[i] {
                    PieceState::Pending => true,
                    _ => false,
                };
                if pending && bf[i] {
                    return false;
                }
                i = i + 1;
            }
            s = s + 1;
        }
        true
    }
}

/// No double assignment: a piece's state names at most one session, so one
/// piece can be in flight in two sessions only if they are the same session.
pub proof fn lemma_no_double_assignment(t: PieceTable, i: int, p: usize, q: usize)
    requires
        0 <= i < t.states@.len(),
        t.states@[i] == PieceState::InFlight(p),
        t.states@[i] == PieceState::InFlight(q),
    ensures
        p == q,
{
}

/// Concatenates verified pieces in index order into the output file bytes.
pub fn assemble_file(pieces: &Vec<Vec<u8>>) -> (r: Vec<u8>)
    ensures
        r@ == flat_hashes(pieces@),
{
    let mut out: Vec<u8> = Vec::new();
    let mut i: usize = 0;
    proof {
        assert(out@ =~= flat_hashes(pieces@.take(0)));
    }
    while i < pieces.len()
        invariant
            i <= pieces@.len(),
            out@ == flat_hashes(pieces@.take(i as int)),
        decreases pieces@.len() - i,
    {
        let mut c = vstd::slice::slice_to_vec(pieces[i].as_slice());
        proof {
            assert(pieces@.take(i + 1).drop_last() =~= pieces@.take(i as int));
            assert(pieces@.take(i + 1).last() == pieces@[i as int]);
            assert(flat_hashes(pieces@.take(i + 1)) == flat_hashes(pieces@.take(i as int)) + c@);
        }
        out.append(&mut c);
        i = i + 1;
    }
    proof {
        assert(pieces@.take(pieces@.len() as int) =~= pieces@);
    }
    out
}

/// File reconstruction: pieces of the lengths the meta-info dictates, the
/// last one carrying the remainder, concatenate to exactly the file length.
pub proof fn lemma_file_reconstruction(pieces: Seq<Vec<u8>>, m: MetaInfo)
    requires
        m.wf(),
        pieces.len() == m.pieces.0@.len(),
        forall|i: int|
            0 <= i < pieces.len() ==> (#[trigger] pieces[i])@.len() == (if i + 1 < pieces.len() {
                m.piece_length as int
            } else {
                m.length as int - (pieces.len() - 1) * (m.piece_length as int)
            }),
    ensures
        flat_hashes(pieces).len() == m.length,
{
    let pl = m.piece_length as int;
    let len = m.length as int;
    let n = pieces.len() as int;
    if n == 0 {
        assert(ceil_div(m.length, m.piece_length) == 0);
        assert(len == 0);
    } else {
        lemma_flat_prefix_len(pieces, n - 1, pl);
        assert(pieces.take(n) =~= pieces);
        assert(pieces.take(n).drop_last() =~= pieces.take(n - 1));
        assert(flat_hashes(pieces) == flat_hashes(pieces.take(n - 1)) + pieces[n - 1]@);
        assert(n == (len - 1) / pl + 1);
        assert((n - 1) * pl <= len - 1) by (nonlinear_arith)
            requires
                pl >= 1,
                len >= 1,
                n - 1 == (len - 1) / pl,
        ;
    }
}

/// Length of the first `k` pieces when each full piece has `pl` bytes.
proof fn lemma_flat_prefix_len(pieces: Seq<Vec<u8>>, k: int, pl: int)
    requires
        0 <= k < pieces.len(),
        forall|i: int| 0 <= i < k ==> (#[trigger] pieces[i])@.len() == pl,
    ensures
        flat_hashes(pieces.take(k)).len() == k * pl,
    decreases k,
{
    if k == 0 {
        assert(pieces.take(0) =~= Seq::<Vec<u8>>::empty());
    } else {
        lemma_flat_prefix_len(pieces, k - 1, pl);
        assert(pieces.take(k).drop_last() =~= pieces.take(k - 1));
        assert(pieces.take(k).last() == pieces[k - 1]);
        assert((k - 1) * pl + pl == k * pl) by (nonlinear_arith);
    }
}

} // verus!
