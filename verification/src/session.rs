//! One peer session: the post-handshake protocol state and the block request
//! pipeline that fetches a piece sixteen kibibytes at a time.

use vstd::prelude::*;

use crate::digest::sha1_digest;
use crate::digest::sha1_of;
use crate::bencode::bytes_eq;
use crate::errors::TorrentError;
use crate::wire::PeerMessage;

verus! {

/// Most block requests a session keeps outstanding at once.
pub const REQUEST_WINDOW: usize = 5;

/// Bytes in one block: the unit of the request/piece exchange.
pub const BLOCK_LEN: u32 = 16384;

/// Whether bit `i` of a bitfield (MSB of byte 0 is piece 0) is set.
pub open spec fn bitfield_bit(bytes: Seq<u8>, i: int) -> bool {
    0 <= i && i / 8 < bytes.len() && (bytes[i / 8] / pow2_u8((7 - i % 8) as nat)) % 2 == 1
}

/// The eight powers of two that select a bit inside a byte.
pub open spec fn pow2_u8(k: nat) -> u8
    recommends
        k < 8,
    decreases k,
{
    if k == 0 {
        1
    } else if k >= 8 {
        1
    } else {
        (2 * pow2_u8((k - 1) as nat)) as u8
    }
}

/// Selects one power of two below 256.
fn pow2_u8_exec(k: u32) -> (r: u8)
    requires
        k < 8,
    ensures
        r == pow2_u8(k as nat),
        r >= 1,
{
    proof {
        assert(pow2_u8(0) == 1);
        assert(pow2_u8(1) == 2);
        assert(pow2_u8(2) == 4);
        assert(pow2_u8(3) == 8);
        assert(pow2_u8(4) == 16);
        assert(pow2_u8(5) == 32);
        assert(pow2_u8(6) == 64);
        assert(pow2_u8(7) == 128);
    }
    if k == 0 {
        1
    } else if k == 1 {
        2
    } else if k == 2 {
        4
    } else if k == 3 {
        8
    } else if k == 4 {
        16
    } else if k == 5 {
        32
    } else if k == 6 {
        64
    } else {
        128
    }
}

/// The protocol state of one session after the handshake.
///
/// Initially both sides choke and neither is interested, and the remote's
/// bitfield is empty; `have` messages accumulate into it.
pub struct SessionState {
    pub choked: bool,
    pub interested: bool,
    pub remote_choked: bool,
    pub remote_interested: bool,
    pub claims_seen: bool,
    pub bitfield: Vec<bool>,
    pub ut_metadata_id: Option<u8>,
}

/// What the session should do next to make progress towards fetching
/// blocks: wait for the remote's claims, declare interest once they are
/// known, wait out a choke, or issue block requests.
#[derive(PartialEq, Eq, Structural, Clone, Copy, Debug)]
pub enum NextStep {
    AwaitClaims,
    ExpressInterest,
    AwaitUnchoke,
    RequestBlocks,
}

impl SessionState {
    /// The state a session starts in.
    pub fn start(num_pieces: usize) -> (r: SessionState)
        ensures
            r.choked,
            r.remote_choked,
            !r.interested,
            !r.remote_interested,
            r.bitfield@.len() == num_pieces,
            forall|i: int| 0 <= i < num_pieces ==> !(#[trigger] r.bitfield@[i]),
            r.ut_metadata_id is None,
            !r.claims_seen,
    {
        let mut bitfield: Vec<bool> = Vec::new();
        let mut i: usize = 0;
        while i < num_pieces
            invariant
                i <= num_pieces,
                bitfield@.len() == i,
                forall|j: int| 0 <= j < i ==> !(#[trigger] bitfield@[j]),
            decreases num_pieces - i,
        {
            bitfield.push(false);
            i = i + 1;
        }
        SessionState {
            choked: true,
            interested: false,
            remote_choked: true,
            remote_interested: false,
            claims_seen: false,
            bitfield,
            ut_metadata_id: None,
        }
    }

    /// The protocol decision of the post-handshake state machine: wait for a
    /// bitfield or a first `have`, then declare interest, then wait to be
    /// unchoked, and only then request blocks. Choking at any point sends
    /// the session back to waiting.
    pub fn next_step(&self) -> (r: NextStep)
        ensures
            r == (if !self.claims_seen {
                NextStep::AwaitClaims
            } else if !self.interested {
                NextStep::ExpressInterest
            } else if self.remote_choked {
                NextStep::AwaitUnchoke
            } else {
                NextStep::RequestBlocks
            }),
    {
        if !self.claims_seen {
            NextStep::AwaitClaims
        } else if !self.interested {
            NextStep::ExpressInterest
        } else if self.remote_choked {
            NextStep::AwaitUnchoke
        } else {
            NextStep::RequestBlocks
        }
    }

    /// Records that this side has sent `interested`.
    pub fn mark_interested(&mut self)
        ensures
            final(self).interested,
            final(self).choked == old(self).choked,
            final(self).remote_choked == old(self).remote_choked,
            final(self).remote_interested == old(self).remote_interested,
            final(self).claims_seen == old(self).claims_seen,
            final(self).bitfield@ == old(self).bitfield@,
            final(self).ut_metadata_id == old(self).ut_metadata_id,
    {
        self.interested = true;
    }

    /// Applies one received message to the session state: choke and interest
    /// flags flip, `have` marks one piece, `bitfield` replaces the claim set
    /// bit by bit (MSB of byte 0 is piece 0), anything else leaves the state
    /// as it was.
    pub fn on_message(&mut self, msg: &PeerMessage)
        ensures
            final(self).bitfield@.len() == old(self).bitfield@.len(),
            final(self).choked == old(self).choked,
            final(self).interested == old(self).interested,
            final(self).ut_metadata_id == old(self).ut_metadata_id,
            *msg is Choke ==> final(self).remote_choked,
            *msg is Unchoke ==> !final(self).remote_choked,
            !(*msg is Choke || *msg is Unchoke) ==> final(self).remote_choked == old(self).remote_choked,
            *msg is Interested ==> final(self).remote_interested,
            *msg is NotInterested ==> !final(self).remote_interested,
            !(*msg is Interested || *msg is NotInterested) ==> final(self).remote_interested
                == old(self).remote_interested,
            *msg matches PeerMessage::Have(i) ==> (forall|j: int|
                0 <= j < old(self).bitfield@.len() && j != i ==> final(self).bitfield@[j] == old(self).bitfield@[j]) && (i < old(self).bitfield@.len() ==> final(self).bitfield@[i as int]),
            *msg matches PeerMessage::Bitfield(b) ==> (forall|j: int|
                0 <= j < old(self).bitfield@.len() ==> final(self).bitfield@[j] == bitfield_bit(
                    b@,
                    j,
                )),
            !(*msg is Have || *msg is Bitfield) ==> final(self).bitfield@ == old(self).bitfield@,
            (*msg is Have || *msg is Bitfield) ==> final(self).claims_seen,
            !(*msg is Have || *msg is Bitfield) ==> final(self).claims_seen == old(
                self,
            ).claims_seen,
    {
        match msg {
            PeerMessage::Choke => {
                self.remote_choked = true;
            },
            PeerMessage::Unchoke => {
                self.remote_choked = false;
            },
            PeerMessage::Interested => {
                self.remote_interested = true;
            },
            PeerMessage::NotInterested => {
                self.remote_interested = false;
            },
            PeerMessage::Have(i) => {
                let idx = *i as usize;
                if idx < self.bitfield.len() {
                    self.bitfield.set(idx, true);
                }
                self.claims_seen = true;
            },
            PeerMessage::Bitfield(b) => {
                self.claims_seen = true;
                let n = self.bitfield.len();
                let mut j: usize = 0;
                while j < n
                    invariant
                        j <= n,
                        n == self.bitfield@.len(),
                        self.choked == old(self).choked,
                        self.interested == old(self).interested,
                        self.remote_choked == old(self).remote_choked,
                        self.remote_interested == old(self).remote_interested,
                        self.claims_seen,
                        self.ut_metadata_id == old(self).ut_metadata_id,
                        forall|t: int| 0 <= t < j ==> self.bitfield@[t] == bitfield_bit(b@, t),
                    decreases n - j,
                {
                    let byte_idx = j / 8;
                    let bit = if byte_idx < b.len() {
                        let byte = b[byte_idx];
                        let shift = 7 - (j % 8) as u32;
                        (byte / pow2_u8_exec(shift)) % 2 == 1
                    } else {
                        false
                    };
                    proof {
                        if j / 8 < b@.len() {
                            assert(bitfield_bit(b@, j as int) == ((b@[j as int / 8] / pow2_u8(
                                (7 - j as int % 8) as nat,
                            )) % 2 == 1));
                        }
                    }
                    self.bitfield.set(j, bit);
                    j = j + 1;
                }
            },
            _ => {},
        }
    }
}

/// The in-progress download of one piece: its blocks, the requests in
/// flight, and the next block to ask for.
pub struct PieceDownload {
    pub piece_index: u32,
    pub piece_length: u32,
    pub blocks: Vec<Option<Vec<u8>>>,
    pub next_block: usize,
    pub outstanding: Vec<usize>,
}

/// Number of blocks a piece of `len` bytes splits into.
pub open spec fn block_count(len: u32) -> int {
    if len == 0 {
        0
    } else {
        (len - 1) as int / (BLOCK_LEN as int) + 1
    }
}

/// Length of block `b` of a piece of `len` bytes: a full block for all but
/// the last, the remainder for the last.
pub open spec fn block_size_of(len: u32, b: int) -> int {
    if b + 1 < block_count(len) {
        (BLOCK_LEN as int)
    } else {
        len as int - b * (BLOCK_LEN as int)
    }
}

impl PieceDownload {
    /// The pipeline invariant: at most `REQUEST_WINDOW` outstanding
    /// requests, all for blocks already handed out and not yet received.
    pub open spec fn wf(&self) -> bool {
        &&& self.blocks@.len() == block_count(self.piece_length)
        &&& self.next_block <= self.blocks@.len()
        &&& self.outstanding@.len() <= REQUEST_WINDOW
        &&& forall|k: int|
            0 <= k < self.outstanding@.len() ==> #[trigger] self.outstanding@[k] < self.next_block
        &&& forall|b: int|
            0 <= b < self.blocks@.len() ==> ((#[trigger] self.blocks@[b]) matches Some(data)
                ==> data@.len() == block_size_of(self.piece_length, b))
    }

    /// Starts the download of one piece.
    pub fn begin(piece_index: u32, piece_length: u32) -> (r: PieceDownload)
        ensures
            r.wf(),
            r.piece_index == piece_index,
            r.piece_length == piece_length,
            r.outstanding@.len() == 0,
            r.next_block == 0,
            forall|b: int| 0 <= b < r.blocks@.len() ==> (#[trigger] r.blocks@[b]) is None,
    {
        let n: usize = if piece_length == 0 {
            0
        } else {
            ((piece_length - 1) / BLOCK_LEN + 1) as usize
        };
        let mut blocks: Vec<Option<Vec<u8>>> = Vec::new();
        let mut i: usize = 0;
        while i < n
            invariant
                i <= n,
                blocks@.len() == i,
                forall|b: int| 0 <= b < i ==> (#[trigger] blocks@[b]) is None,
            decreases n - i,
        {
            blocks.push(None);
            i = i + 1;
        }
        PieceDownload {
            piece_index,
            piece_length,
            blocks,
            next_block: 0,
            outstanding: Vec::new(),
        }
    }

    /// The next block request to send, while the window has room and blocks
    /// remain: its byte offset and length. `None` exactly when the window is
    /// full or every block has been requested.
    pub fn next_request(&mut self) -> (r: Option<(u32, u32)>)
        requires
            old(self).wf(),
            old(self).piece_length >= 1,
        ensures
            final(self).wf(),
            final(self).piece_index == old(self).piece_index,
            final(self).piece_length == old(self).piece_length,
            final(self).blocks@ == old(self).blocks@,
            r is Some <==> old(self).outstanding@.len() < REQUEST_WINDOW && old(self).next_block
                < old(self).blocks@.len(),
            r matches Some(p) ==> {
                &&& p.0 == old(self).next_block * (BLOCK_LEN as int)
                &&& p.1 == block_size_of(old(self).piece_length, old(self).next_block as int)
                &&& final(self).next_block == old(self).next_block + 1
                &&& final(self).outstanding@ == old(self).outstanding@.push(
                    old(self).next_block as usize,
                )
            },
            r is None ==> *final(self) == *old(self),
            final(self).outstanding@.len() <= REQUEST_WINDOW,
    {
        if self.outstanding.len() >= REQUEST_WINDOW {
            return None;
        }
        if self.next_block >= self.blocks.len() {
            return None;
        }
        let b = self.next_block;
        proof {
            let len = self.piece_length as int;
            let bi = b as int;
            assert(bi < block_count(self.piece_length));
            assert(bi * (BLOCK_LEN as int) + block_size_of(self.piece_length, bi) <= len
                && bi * (BLOCK_LEN as int) < len && 1 <= block_size_of(self.piece_length, bi)
                && block_size_of(self.piece_length, bi) <= (BLOCK_LEN as int)) by (nonlinear_arith)
                requires
                    1 <= len <= 0xffff_ffff,
                    0 <= bi < block_count(self.piece_length),
                    block_count(self.piece_length) == (len - 1) / (BLOCK_LEN as int) + 1,
                    block_size_of(self.piece_length, bi) == (if bi + 1 < block_count(
                        self.piece_length,
                    ) {
                        (BLOCK_LEN as int)
                    } else {
                        len - bi * (BLOCK_LEN as int)
                    }),
                    BLOCK_LEN == 16384,
            ;
        }
        let begin: u32 = (b as u32) * BLOCK_LEN;
        let size: u32 = if ((b + 1) as u64) < (self.blocks.len() as u64) {
            BLOCK_LEN
        } else {
            self.piece_length - begin
        };
        self.outstanding.push(b);
        self.next_block = b + 1;
        Some((begin, size))
    }

    /// Accepts one `piece` response: the offset must be block-aligned and
    /// the data must be exactly the block's length; the block is stored and
    /// its request retired. Anything else is a peer error and changes
    /// nothing.
    pub fn on_block(&mut self, begin: u32, data: Vec<u8>) -> (r: Result<(), TorrentError>)
        requires
            old(self).wf(),
        ensures
            final(self).wf(),
            final(self).piece_index == old(self).piece_index,
            final(self).piece_length == old(self).piece_length,
            final(self).outstanding@.len() <= old(self).outstanding@.len(),
            r is Ok <==> begin as int % (BLOCK_LEN as int) == 0 && begin as int / (
            BLOCK_LEN as int) < old(self).blocks@.len() && data@.len() == block_size_of(
                old(self).piece_length,
                begin as int / (BLOCK_LEN as int),
            ),
            r is Ok ==> {
                &&& begin as int % (BLOCK_LEN as int) == 0
                &&& begin as int / (BLOCK_LEN as int) < old(self).blocks@.len()
                &&& final(self).blocks@[begin as int / (BLOCK_LEN as int)] == Some(data)
                &&& forall|b: int|
                    0 <= b < old(self).blocks@.len() && b != begin as int / (BLOCK_LEN as int)
                        ==> final(self).blocks@[b] == old(self).blocks@[b]
            },
            r matches Err(e) ==> e == TorrentError::PeerIoError && *final(self) == *old(self),
    {
        if begin % BLOCK_LEN != 0 {
            return Err(TorrentError::PeerIoError);
        }
        let b = (begin / BLOCK_LEN) as usize;
        if b >= self.blocks.len() {
            return Err(TorrentError::PeerIoError);
        }
        proof {
            assert(begin as int / (BLOCK_LEN as int) == b as int);
        }
        let expected = self.block_size_at(b);
        if data.len() as u64 != expected as u64 {
            return Err(TorrentError::PeerIoError);
        }
        let mut k: usize = 0;
        let n = self.outstanding.len();
        loop
            invariant
                k <= n,
                n == self.outstanding@.len(),
                *self == *old(self),
                b < self.blocks@.len(),
            ensures
                k <= n,
                *self == *old(self),
                k < n ==> self.outstanding@[k as int] == b,
            decreases n - k,
        {
            if k >= n {
                break ;
            }
            if self.outstanding[k] == b {
                break ;
            }
            k = k + 1;
        }
        if k < self.outstanding.len() {
            let ghost pre = self.outstanding@;
            self.outstanding.remove(k);
            proof {
                assert(self.outstanding@ == pre.remove(k as int));
                assert forall|t: int|
                    0 <= t < self.outstanding@.len() implies #[trigger] self.outstanding@[t]
                    < self.next_block by {
                    if t < k {
                        assert(self.outstanding@[t] == pre[t]);
                    } else {
                        assert(self.outstanding@[t] == pre[t + 1]);
                    }
                }
            }
        }
        self.blocks.set(b, Some(data));
        Ok(())
    }

    /// Length of block `b` of this piece.
    pub fn block_size_at(&self, b: usize) -> (r: u32)
        requires
            self.wf(),
            b < self.blocks@.len(),
        ensures
            r == block_size_of(self.piece_length, b as int),
            1 <= r <= BLOCK_LEN || self.piece_length == 0,
    {
        proof {
            let len = self.piece_length as int;
            let bi = b as int;
            assert(len >= 1);
            assert(1 <= block_size_of(self.piece_length, bi) <= (BLOCK_LEN as int)
                && bi * (BLOCK_LEN as int) + block_size_of(self.piece_length, bi) <= len) by (
            nonlinear_arith)
                requires
                    1 <= len <= 0xffff_ffff,
                    0 <= bi < block_count(self.piece_length),
                    block_count(self.piece_length) == (len - 1) / (BLOCK_LEN as int) + 1,
                    block_size_of(self.piece_length, bi) == (if bi + 1 < block_count(
                        self.piece_length,
                    ) {
                        (BLOCK_LEN as int)
                    } else {
                        len - bi * (BLOCK_LEN as int)
                    }),
                    BLOCK_LEN == 16384,
            ;
        }
        if b + 1 < self.blocks.len() {
            BLOCK_LEN
        } else {
            self.piece_length - (b as u32) * BLOCK_LEN
        }
    }

    /// Whether every block has arrived.
    pub fn is_complete(&self) -> (r: bool)
        ensures
            r == (forall|b: int| 0 <= b < self.blocks@.len() ==> (#[trigger] self.blocks@[b]) is Some),
    {
        let mut i: usize = 0;
        let n = self.blocks.len();
        while i < n
            invariant
                i <= n,
                n == self.blocks@.len(),
                forall|b: int| 0 <= b < i ==> (#[trigger] self.blocks@[b]) is Some,
            decreases n - i,
        {
            if self.blocks[i].is_none() {
                return false;
            }
            i = i + 1;
        }
        true
    }
}

/// Concatenation of received blocks in index order.
pub open spec fn blocks_flat(s: Seq<Option<Vec<u8>>>) -> Seq<u8>
    decreases s.len(),
{
    if s.len() == 0 {
        Seq::empty()
    } else {
        blocks_flat(s.drop_last()) + (match s.last() {
            Some(d) => d@,
            None => Seq::empty(),
        })
    }
}

/// Length of the first `k` blocks of a complete well-formed download: full
/// blocks up to the last, which carries the remainder.
proof fn lemma_blocks_flat_len(d: PieceDownload, k: int)
    requires
        d.wf(),
        d.piece_length >= 1,
        0 <= k <= d.blocks@.len(),
        forall|b: int| 0 <= b < d.blocks@.len() ==> (#[trigger] d.blocks@[b]) is Some,
    ensures
        blocks_flat(d.blocks@.take(k)).len() == (if k < d.blocks@.len() {
            k * (BLOCK_LEN as int)
        } else {
            d.piece_length as int
        }),
    decreases k,
{
    let len = d.piece_length as int;
    let n = d.blocks@.len() as int;
    if k > 0 {
        lemma_blocks_flat_len(d, k - 1);
        assert(d.blocks@.take(k).drop_last() =~= d.blocks@.take(k - 1));
        assert(d.blocks@.take(k).last() == d.blocks@[k - 1]);
        assert(d.blocks@[k - 1] is Some);
        let bs = block_size_of(d.piece_length, k - 1);
        assert(blocks_flat(d.blocks@.take(k)).len() == blocks_flat(d.blocks@.take(k - 1)).len()
            + bs);
        assert(n == (len - 1) / (BLOCK_LEN as int) + 1);
        if k < n {
            assert(bs == BLOCK_LEN as int);
        } else {
            assert(bs == len - (k - 1) * (BLOCK_LEN as int));
            assert((k - 1) * (BLOCK_LEN as int) == blocks_flat(d.blocks@.take(k - 1)).len());
        }
    }
}

impl PieceDownload {
    /// The finished piece: all blocks concatenated in order, exactly
    /// `piece_length` bytes.
    pub fn assemble(&self) -> (r: Vec<u8>)
        requires
            self.wf(),
            self.piece_length >= 1,
            forall|b: int| 0 <= b < self.blocks@.len() ==> (#[trigger] self.blocks@[b]) is Some,
        ensures
            r@ == blocks_flat(self.blocks@),
            r@.len() == self.piece_length,
    {
        let mut out: Vec<u8> = Vec::new();
        let mut i: usize = 0;
        let n = self.blocks.len();
        proof {
            assert(out@ =~= blocks_flat(self.blocks@.take(0)));
        }
        while i < n
            invariant
                i <= n,
                n == self.blocks@.len(),
                self.wf(),
                forall|b: int| 0 <= b < self.blocks@.len() ==> (#[trigger] self.blocks@[b]) is Some,
                out@ == blocks_flat(self.blocks@.take(i as int)),
            decreases n - i,
        {
            match &self.blocks[i] {
                Some(d) => {
                    let mut c = vstd::slice::slice_to_vec(d.as_slice());
                    proof {
                        assert(self.blocks@.take(i + 1).drop_last() =~= self.blocks@.take(i as int));
                        assert(self.blocks@.take(i + 1).last() == self.blocks@[i as int]);
                        assert(blocks_flat(self.blocks@.take(i + 1)) == blocks_flat(
                            self.blocks@.take(i as int),
                        ) + c@);
                    }
                    out.append(&mut c);
                },
                None => {
                    proof {
                        assert(self.blocks@[i as int] is Some);
                        assert(false);
                    }
                },
            }
            i = i + 1;
        }
        proof {
            assert(self.blocks@.take(n as int) =~= self.blocks@);
            lemma_blocks_flat_len(*self, n as int);
        }
        out
    }
}

/// Pipeline bound: a well-formed piece download never has more than
/// `REQUEST_WINDOW` outstanding block requests.
pub proof fn lemma_pipeline_bound(d: PieceDownload)
    requires
        d.wf(),
    ensures
        d.outstanding@.len() <= REQUEST_WINDOW,
{
}

/// Gate on a finished piece: hands the bytes back only when their SHA-1
/// equals the expected piece hash, and reports a hash mismatch otherwise.
pub fn finish_piece(data: Vec<u8>, expected_hash: &[u8]) -> (r: Result<Vec<u8>, TorrentError>)
    ensures
        r is Ok <==> sha1_of(data@) == expected_hash@,
        r matches Ok(b) ==> b@ == data@ && sha1_of(b@) == expected_hash@,
        r matches Err(e) ==> e == TorrentError::PieceHashMismatch,
{
    let h = sha1_digest(data.as_slice());
    if bytes_eq(h.as_slice(), expected_hash) {
        Ok(data)
    } else {
        Err(TorrentError::PieceHashMismatch)
    }
}

} // verus!
