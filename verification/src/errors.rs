//! The error taxonomy of the client core.

use vstd::prelude::*;

verus! {

/// Every failure the core can report.
///
/// Input-shape errors (`MalformedBencode`, `MalformedTorrent`,
/// `MalformedMagnet`) are fatal for the current command. Tracker and
/// per-session errors are recoverable by trying other trackers or peers.
/// Integrity errors cause a piece requeue or a session drop.
#[derive(Clone, Copy, Debug, PartialEq, Eq, Structural)]
pub enum TorrentError {
    MalformedBencode,
    MalformedTorrent,
    MalformedMagnet,
    TrackerUnreachable,
    TrackerRejected,
    HandshakeRejected,
    PeerIoError,
    PieceHashMismatch,
    MetadataHashMismatch,
    DownloadStalled,
}

impl TorrentError {
    /// A fixed diagnostic word for each error, for the front-end to print.
    pub fn as_str(&self) -> (r: &'static str)
        ensures
            r@.len() > 0,
    {
        let r = match self {
            TorrentError::MalformedBencode => "malformed bencode",
            TorrentError::MalformedTorrent => "malformed torrent",
            TorrentError::MalformedMagnet => "malformed magnet link",
            TorrentError::TrackerUnreachable => "tracker unreachable",
            TorrentError::TrackerRejected => "tracker rejected the announce",
            TorrentError::HandshakeRejected => "handshake rejected",
            TorrentError::PeerIoError => "peer i/o error",
            TorrentError::PieceHashMismatch => "piece hash mismatch",
            TorrentError::MetadataHashMismatch => "metadata hash mismatch",
            TorrentError::DownloadStalled => "download stalled",
        };
        proof {
            reveal_strlit("malformed bencode");
            reveal_strlit("malformed torrent");
            reveal_strlit("malformed magnet link");
            reveal_strlit("tracker unreachable");
            reveal_strlit("tracker rejected the announce");
            reveal_strlit("handshake rejected");
            reveal_strlit("peer i/o error");
            reveal_strlit("piece hash mismatch");
            reveal_strlit("metadata hash mismatch");
            reveal_strlit("download stalled");
        }
        r
    }
}

} // verus!
