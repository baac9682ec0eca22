use bittorrent_client_rust::bencode::{decode, encode, encode_wire, Bencode};
use bittorrent_client_rust::errors::TorrentError;

fn bytes(s: &str) -> Vec<u8> {
    s.as_bytes().to_vec()
}

#[test]
fn decode_byte_string() {
    let (v, n) = decode(b"5:hello").unwrap();
    assert_eq!(n, 7);
    match v {
        Bencode::Bytes(s) => assert_eq!(s, bytes("hello")),
        _ => panic!("expected a byte string"),
    }
}

#[test]
fn decode_negative_integer() {
    let (v, n) = decode(b"i-42e").unwrap();
    assert_eq!(n, 5);
    assert!(matches!(v, Bencode::Int(-42)));
}

#[test]
fn decode_list() {
    let (v, n) = decode(b"l4:spami7ee").unwrap();
    assert_eq!(n, 11);
    match v {
        Bencode::List(items) => {
            assert_eq!(items.len(), 2);
            match &items[0] {
                Bencode::Bytes(s) => assert_eq!(*s, bytes("spam")),
                _ => panic!("expected a byte string"),
            }
            assert!(matches!(items[1], Bencode::Int(7)));
        },
        _ => panic!("expected a list"),
    }
}

#[test]
fn decode_dictionary() {
    let (v, n) = decode(b"d3:bari2e3:foo5:helloe").unwrap();
    assert_eq!(n, 22);
    match v {
        Bencode::Dict(pairs) => {
            assert_eq!(pairs.len(), 2);
            assert_eq!(pairs[0].0, bytes("bar"));
            assert!(matches!(pairs[0].1, Bencode::Int(2)));
            assert_eq!(pairs[1].0, bytes("foo"));
            match &pairs[1].1 {
                Bencode::Bytes(s) => assert_eq!(*s, bytes("hello")),
                _ => panic!("expected a byte string"),
            }
        },
        _ => panic!("expected a dictionary"),
    }
}

#[test]
fn round_trip_sorted_input() {
    let input = b"d3:bari2e3:foo5:helloe";
    let (v, n) = decode(input).unwrap();
    assert_eq!(n, input.len());
    assert_eq!(encode(&v), input.to_vec());
}

#[test]
fn round_trip_sorts_unsorted_keys() {
    let input = b"d3:foo5:hello3:bari2ee";
    let (v, n) = decode(input).unwrap();
    assert_eq!(n, input.len());
    assert_eq!(encode(&v), bytes("d3:bari2e3:foo5:helloe"));
    // re-encoding in wire order reproduces the consumed bytes exactly
    assert_eq!(encode_wire(&v), input.to_vec());
}

#[test]
fn second_decode_is_structurally_equal() {
    let input = b"d3:foo5:hello3:bari2ee";
    let (v, _) = decode(input).unwrap();
    let re = encode(&v);
    let (v2, n2) = decode(&re).unwrap();
    assert_eq!(n2, re.len());
    assert_eq!(encode(&v2), re);
}

#[test]
fn integer_extremes_round_trip() {
    let min = b"i-9223372036854775808e";
    let (v, n) = decode(min).unwrap();
    assert_eq!(n, min.len());
    assert!(matches!(v, Bencode::Int(i64::MIN)));
    assert_eq!(encode(&v), min.to_vec());
    let (z, _) = decode(b"i0e").unwrap();
    assert_eq!(encode(&z), bytes("i0e"));
}

#[test]
fn malformed_inputs_are_rejected() {
    assert_eq!(decode(b"").unwrap_err(), TorrentError::MalformedBencode);
    assert_eq!(decode(b"i-0e").unwrap_err(), TorrentError::MalformedBencode);
    assert_eq!(decode(b"i03e").unwrap_err(), TorrentError::MalformedBencode);
    assert_eq!(decode(b"5:hell").unwrap_err(), TorrentError::MalformedBencode);
    assert_eq!(decode(b"x").unwrap_err(), TorrentError::MalformedBencode);
    assert_eq!(decode(b"l4:spam").unwrap_err(), TorrentError::MalformedBencode);
    assert_eq!(decode(b"d3:fooe").unwrap_err(), TorrentError::MalformedBencode);
}

#[test]
fn nested_structures_round_trip() {
    let input = b"d1:ad1:bli1eeee".to_vec();
    let (v, n) = decode(&input).unwrap();
    assert_eq!(n, input.len());
    assert_eq!(encode(&v), input);
}
