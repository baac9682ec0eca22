use bittorrent_client_rust::digest::{hex_decode, hex_encode, sha1_digest};
use bittorrent_client_rust::errors::TorrentError;
use bittorrent_client_rust::magnet::parse_magnet_link;
use bittorrent_client_rust::meta_info::{parse_meta_info, slice_info_dict};
use bittorrent_client_rust::pieces::Pieces;
use bittorrent_client_rust::tracker::{
    build_announce_query, parse_compact_peers, parse_tracker_response, urlencode,
};

fn sample_info_dict(piece_hash: &[u8]) -> Vec<u8> {
    let mut info: Vec<u8> = Vec::new();
    info.extend_from_slice(b"d6:lengthi92063e4:name6:sample12:piece lengthi262144e6:pieces20:");
    info.extend_from_slice(piece_hash);
    info.push(b'e');
    info
}

fn sample_torrent(piece_hash: &[u8]) -> Vec<u8> {
    let mut t: Vec<u8> = Vec::new();
    t.extend_from_slice(b"d8:announce20:http://t.example/ann4:info");
    t.extend_from_slice(&sample_info_dict(piece_hash));
    t.push(b'e');
    t
}

#[test]
fn hex_encode_and_decode() {
    assert_eq!(hex_encode(&[0x00, 0xff, 0x1a]), "00ff1a");
    assert_eq!(hex_decode(b"00ff1a").unwrap(), vec![0x00, 0xff, 0x1a]);
    assert_eq!(hex_decode(b"C77829").unwrap(), vec![0xc7, 0x78, 0x29]);
    assert!(hex_decode(b"abc").is_none());
    assert!(hex_decode(b"zz").is_none());
}

#[test]
fn sha1_digest_matches_known_value() {
    let d = sha1_digest(b"abc");
    assert_eq!(hex_encode(&d), "a9993e364706816aba3e25717850c26c9cd0d89d");
    assert_eq!(d.len(), 20);
}

#[test]
fn pieces_split_and_restore() {
    let flat: Vec<u8> = (0u8..40).collect();
    let p = Pieces::from_flat(&flat).unwrap();
    assert_eq!(p.count(), 2);
    assert_eq!(p.hash_at(0).as_slice(), &flat[..20]);
    assert_eq!(p.hash_at(1).as_slice(), &flat[20..]);
    assert_eq!(p.to_flat(), flat);
    assert_eq!(
        Pieces::from_flat(&flat[..19]).err().unwrap(),
        TorrentError::MalformedTorrent
    );
}

#[test]
fn meta_info_fields_and_info_hash() {
    let piece_hash = [0xabu8; 20];
    let torrent = sample_torrent(&piece_hash);
    let m = parse_meta_info(&torrent).unwrap();
    assert_eq!(m.announce, b"http://t.example/ann".to_vec());
    assert_eq!(m.name, b"sample".to_vec());
    assert_eq!(m.piece_length, 262144);
    assert_eq!(m.length, 92063);
    assert_eq!(m.piece_count(), 1);
    assert_eq!(m.piece_size(0), 92063);
    let expected = sha1_digest(&sample_info_dict(&piece_hash));
    assert_eq!(m.info_hash, expected);
}

#[test]
fn info_slice_preserves_exact_bytes() {
    let piece_hash = [0x11u8; 20];
    let torrent = sample_torrent(&piece_hash);
    let (_, s, e) = slice_info_dict(&torrent).unwrap();
    assert_eq!(&torrent[s..e], sample_info_dict(&piece_hash).as_slice());
}

#[test]
fn info_hash_ignores_non_info_regions() {
    let piece_hash = [0x22u8; 20];
    let mut other: Vec<u8> = Vec::new();
    other.extend_from_slice(b"d8:announce14:http://o.ex/an4:info");
    other.extend_from_slice(&sample_info_dict(&piece_hash));
    other.push(b'e');
    let m1 = parse_meta_info(&sample_torrent(&piece_hash)).unwrap();
    let m2 = parse_meta_info(&other).unwrap();
    assert_eq!(m1.info_hash, m2.info_hash);
}

#[test]
fn magnet_link_with_hex_hash() {
    let uri = b"magnet:?xt=urn:btih:c77829d2a77d6516f88cd7a3de1a26abcbfab0db&dn=sample&tr=http://tracker.example/announce";
    let m = parse_magnet_link(uri).unwrap();
    assert_eq!(m.info_hash, hex_decode(b"c77829d2a77d6516f88cd7a3de1a26abcbfab0db").unwrap());
    assert_eq!(m.display_name.unwrap(), b"sample".to_vec());
    assert_eq!(m.trackers, vec![b"http://tracker.example/announce".to_vec()]);
}

#[test]
fn magnet_link_percent_decoding_and_errors() {
    let uri = b"magnet:?xt=urn:btih:c77829d2a77d6516f88cd7a3de1a26abcbfab0db&tr=http%3A%2F%2Fx";
    let m = parse_magnet_link(uri).unwrap();
    assert_eq!(m.trackers, vec![b"http://x".to_vec()]);
    assert_eq!(
        parse_magnet_link(b"magnet:?dn=sample").err().unwrap(),
        TorrentError::MalformedMagnet
    );
    assert_eq!(
        parse_magnet_link(b"magnet:?xt=urn:btih:zz").err().unwrap(),
        TorrentError::MalformedMagnet
    );
    assert_eq!(
        parse_magnet_link(b"http://not-a-magnet").err().unwrap(),
        TorrentError::MalformedMagnet
    );
}

#[test]
fn magnet_link_with_base32_hash() {
    // 32 base32 characters spell a 20-byte hash
    let uri = b"magnet:?xt=urn:btih:AAAAAAAAAAAAAAAAAAAAAAAAAAAAAAAA";
    let m = parse_magnet_link(uri).unwrap();
    assert_eq!(m.info_hash, vec![0u8; 20]);
}

#[test]
fn urlencode_escapes_reserved_bytes() {
    assert_eq!(urlencode(b"AZaz09-._~"), b"AZaz09-._~".to_vec());
    assert_eq!(urlencode(&[0x00, 0x20, 0xff]), b"%00%20%FF".to_vec());
}

#[test]
fn announce_query_has_every_field() {
    let q = build_announce_query(b"http://t/ann", &[0xaau8; 20], b"-AB1234-abcdefghijkl", 6881, 92063);
    let expected = format!(
        "http://t/ann?info_hash={}&peer_id=-AB1234-abcdefghijkl&port=6881&uploaded=0&downloaded=0&left=92063&compact=1",
        "%AA".repeat(20)
    );
    assert_eq!(q, expected.as_bytes().to_vec());
}

#[test]
fn compact_peers_decode() {
    let bytes = [127, 0, 0, 1, 0x1a, 0xe1, 10, 0, 0, 2, 0, 80];
    let peers = parse_compact_peers(&bytes).unwrap();
    assert_eq!(peers.len(), 2);
    assert_eq!(peers[0].ip, (127, 0, 0, 1));
    assert_eq!(peers[0].port, 6881);
    assert_eq!(peers[1].ip, (10, 0, 0, 2));
    assert_eq!(peers[1].port, 80);
    assert_eq!(
        parse_compact_peers(&bytes[..5]).unwrap_err(),
        TorrentError::MalformedBencode
    );
}

#[test]
fn tracker_response_parsing() {
    let mut resp: Vec<u8> = Vec::new();
    resp.extend_from_slice(b"d8:intervali1800e5:peers6:");
    resp.extend_from_slice(&[127, 0, 0, 1, 0x1a, 0xe1]);
    resp.push(b'e');
    let t = parse_tracker_response(&resp).unwrap();
    assert_eq!(t.interval, 1800);
    assert_eq!(t.peers.len(), 1);
    assert_eq!(t.peers[0].port, 6881);

    let rejected = b"d14:failure reason7:no way!e";
    assert_eq!(
        parse_tracker_response(rejected).err().unwrap(),
        TorrentError::TrackerRejected
    );
}
