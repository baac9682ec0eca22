use bittorrent_client_rust::digest::sha1_digest;
use bittorrent_client_rust::errors::TorrentError;
use bittorrent_client_rust::magnet_fetch::{
    build_extension_handshake, build_metadata_request, metadata_to_meta_info,
    parse_extension_handshake, parse_metadata_data,
};
use bittorrent_client_rust::meta_info::parse_meta_info;
use bittorrent_client_rust::scheduler::{assemble_file, PieceState, PieceTable};
use bittorrent_client_rust::session::{finish_piece, PieceDownload, SessionState};
use bittorrent_client_rust::wire::{
    build_handshake, encode_message, parse_be32, parse_handshake, parse_message, PeerMessage,
};
use bittorrent_client_rust::piece_offset;

#[test]
fn handshake_round_trip() {
    let ih = [0x5au8; 20];
    let pid = [0x42u8; 20];
    let hs = build_handshake(&ih, &pid, true);
    assert_eq!(hs.len(), 68);
    assert_eq!(hs[0], 19);
    assert_eq!(&hs[1..20], b"BitTorrent protocol");
    assert_eq!(hs[25], 0x10);
    let h = parse_handshake(&hs).unwrap();
    assert_eq!(h.info_hash, ih.to_vec());
    assert_eq!(h.peer_id, pid.to_vec());
    assert!(h.extensions);

    let plain = build_handshake(&ih, &pid, false);
    assert!(!parse_handshake(&plain).unwrap().extensions);

    let mut bad = hs.clone();
    bad[1] = b'X';
    assert_eq!(parse_handshake(&bad).unwrap_err(), TorrentError::HandshakeRejected);
    assert_eq!(parse_handshake(&hs[..67]).unwrap_err(), TorrentError::HandshakeRejected);
}

#[test]
fn message_frames_round_trip() {
    let cases = vec![
        PeerMessage::KeepAlive,
        PeerMessage::Choke,
        PeerMessage::Unchoke,
        PeerMessage::Interested,
        PeerMessage::NotInterested,
        PeerMessage::Have(42),
        PeerMessage::Bitfield(vec![0b1010_0000]),
        PeerMessage::Request { index: 1, begin: 16384, length: 16384 },
        PeerMessage::Piece { index: 1, begin: 0, block: vec![9, 9, 9] },
        PeerMessage::Cancel { index: 1, begin: 16384, length: 16384 },
        PeerMessage::Extended { ext_id: 0, payload: b"d1:md11:ut_metadatai3eee".to_vec() },
    ];
    for m in cases {
        let frame = encode_message(&m);
        let len = parse_be32(&frame[..4]) as usize;
        assert_eq!(len, frame.len() - 4);
        let back = encode_message(&parse_message(&frame[4..]).unwrap());
        assert_eq!(back, frame);
    }
    assert_eq!(parse_message(&[99]).unwrap_err(), TorrentError::PeerIoError);
    assert_eq!(parse_message(&[4, 0]).unwrap_err(), TorrentError::PeerIoError);
}

#[test]
fn session_state_transitions() {
    let mut s = SessionState::start(3);
    assert!(s.choked && s.remote_choked && !s.interested && !s.remote_interested);
    assert_eq!(s.bitfield, vec![false, false, false]);
    s.on_message(&PeerMessage::Unchoke);
    assert!(!s.remote_choked);
    s.on_message(&PeerMessage::Interested);
    assert!(s.remote_interested);
    s.on_message(&PeerMessage::Have(1));
    assert_eq!(s.bitfield, vec![false, true, false]);
    s.on_message(&PeerMessage::Bitfield(vec![0b1010_0000]));
    assert_eq!(s.bitfield, vec![true, false, true]);
    s.on_message(&PeerMessage::Choke);
    assert!(s.remote_choked);
}

#[test]
fn pipeline_window_and_assembly() {
    // a 40000-byte piece splits into 16384 + 16384 + 7232
    let piece: Vec<u8> = (0..40000u32).map(|i| (i % 251) as u8).collect();
    let mut d = PieceDownload::begin(0, 40000);
    let mut requests = Vec::new();
    while let Some((begin, len)) = d.next_request() {
        requests.push((begin, len));
    }
    assert_eq!(requests, vec![(0, 16384), (16384, 16384), (32768, 7232)]);
    assert!(d.next_request().is_none());
    for (begin, len) in requests {
        let block = piece[begin as usize..(begin + len) as usize].to_vec();
        d.on_block(begin, block).unwrap();
    }
    assert!(d.is_complete());
    let bytes = d.assemble();
    assert_eq!(bytes, piece);
    let hash = sha1_digest(&piece);
    let ok = finish_piece(bytes, &hash).unwrap();
    assert_eq!(ok, piece);
}

#[test]
fn pipeline_keeps_at_most_five_outstanding() {
    // 8 blocks, but only five requests may be pending at once
    let mut d = PieceDownload::begin(0, 16384 * 8);
    let mut issued = 0;
    while d.next_request().is_some() {
        issued += 1;
    }
    assert_eq!(issued, 5);
    d.on_block(0, vec![0u8; 16384]).unwrap();
    assert!(d.next_request().is_some());
    assert!(d.next_request().is_none());
}

#[test]
fn misaligned_or_missized_blocks_are_peer_errors() {
    let mut d = PieceDownload::begin(0, 40000);
    let _ = d.next_request();
    assert_eq!(d.on_block(3, vec![0u8; 16384]).unwrap_err(), TorrentError::PeerIoError);
    assert_eq!(d.on_block(0, vec![0u8; 5]).unwrap_err(), TorrentError::PeerIoError);
    assert_eq!(
        d.on_block(16384 * 7, vec![0u8; 16384]).unwrap_err(),
        TorrentError::PeerIoError
    );
}

#[test]
fn corrupted_piece_is_rejected_and_retried() {
    let piece: Vec<u8> = (0..20000u32).map(|i| (i * 7 % 256) as u8).collect();
    let hash = sha1_digest(&piece);
    let mut corrupted = piece.clone();
    corrupted[100] ^= 0xff;
    assert_eq!(
        finish_piece(corrupted, &hash).unwrap_err(),
        TorrentError::PieceHashMismatch
    );

    // the scheduler requeues the piece and a retry against good data succeeds
    let mut table = PieceTable::start(1);
    let claims = vec![true];
    let i = table.assign(7, &claims).unwrap();
    assert_eq!(i, 0);
    table.requeue(0);
    assert_eq!(table.states[0], PieceState::Pending);
    let again = table.assign(9, &claims).unwrap();
    assert_eq!(again, 0);
    let good = finish_piece(piece.clone(), &hash).unwrap();
    assert_eq!(good, piece);
    table.complete(0);
    assert!(table.all_done());
}

#[test]
fn scheduler_assigns_lowest_claimed_pending_piece() {
    let mut table = PieceTable::start(4);
    let claims_a = vec![false, true, true, false];
    let claims_b = vec![true, true, false, false];
    assert_eq!(table.assign(0, &claims_a).unwrap(), 1);
    assert_eq!(table.states[1], PieceState::InFlight(0));
    assert_eq!(table.assign(1, &claims_a).unwrap(), 2);
    assert_eq!(table.assign(2, &claims_a), None);
    assert_eq!(table.assign(2, &claims_b).unwrap(), 0);
    assert!(!table.all_done());
    assert!(table.any_in_flight());
    assert!(!table.stalled(&vec![claims_a.clone(), claims_b.clone()]));
}

#[test]
fn stall_is_detected() {
    let mut table = PieceTable::start(2);
    let claims = vec![false, true];
    let i = table.assign(0, &claims).unwrap();
    assert_eq!(i, 1);
    table.complete(1);
    // piece 0 is pending but nobody claims it, and nothing is in flight
    assert!(table.stalled(&vec![claims.clone()]));
    assert!(!table.stalled(&vec![vec![true, true]]));
}

#[test]
fn file_assembly_and_offsets() {
    let pieces = vec![vec![1u8, 2, 3], vec![4u8, 5], vec![6u8]];
    assert_eq!(assemble_file(&pieces), vec![1, 2, 3, 4, 5, 6]);
    assert_eq!(piece_offset(3, 262144), 3 * 262144);
}

#[test]
fn extension_handshake_payloads() {
    assert_eq!(build_extension_handshake(3), b"d1:md11:ut_metadatai3eee".to_vec());
    let (id, size) = parse_extension_handshake(b"d1:md11:ut_metadatai7ee13:metadata_sizei132ee")
        .unwrap();
    assert_eq!(id, 7);
    assert_eq!(size, Some(132));
    assert_eq!(
        parse_extension_handshake(b"d1:mdee").unwrap_err(),
        TorrentError::PeerIoError
    );
}

#[test]
fn metadata_request_and_data_messages() {
    assert_eq!(build_metadata_request(0), b"d8:msg_typei0e5:piecei0ee".to_vec());
    let mut payload = b"d8:msg_typei1e5:piecei0e10:total_sizei5ee".to_vec();
    payload.extend_from_slice(b"hello");
    let (piece, total, data) = parse_metadata_data(&payload).unwrap();
    assert_eq!(piece, 0);
    assert_eq!(total, Some(5));
    assert_eq!(data, b"hello".to_vec());
    // a reject message is not data
    assert_eq!(
        parse_metadata_data(b"d8:msg_typei2e5:piecei0ee").unwrap_err(),
        TorrentError::PeerIoError
    );
}

#[test]
fn magnet_metadata_matches_torrent_info() {
    // the same info dictionary served over ut_metadata and read from a torrent
    let mut info: Vec<u8> = Vec::new();
    info.extend_from_slice(b"d6:lengthi5e4:name1:f12:piece lengthi16384e6:pieces20:");
    info.extend_from_slice(&[0x33u8; 20]);
    info.push(b'e');
    let mut torrent: Vec<u8> = Vec::new();
    torrent.extend_from_slice(b"d8:announce8:http://t4:info");
    torrent.extend_from_slice(&info);
    torrent.push(b'e');
    let from_torrent = parse_meta_info(&torrent).unwrap();

    let magnet_hash = sha1_digest(&info);
    let from_magnet =
        metadata_to_meta_info(&info, &magnet_hash, b"http://t".to_vec()).unwrap();
    assert_eq!(from_magnet.info_hash, from_torrent.info_hash);
    assert_eq!(from_magnet.name, from_torrent.name);
    assert_eq!(from_magnet.length, from_torrent.length);
    assert_eq!(from_magnet.piece_length, from_torrent.piece_length);
    assert_eq!(from_magnet.pieces.to_flat(), from_torrent.pieces.to_flat());

    // a corrupted metadata byte is caught by the hash gate
    let mut bad = info.clone();
    bad[7] ^= 1;
    assert_eq!(
        metadata_to_meta_info(&bad, &magnet_hash, b"http://t".to_vec()).err().unwrap(),
        TorrentError::MetadataHashMismatch
    );
}
