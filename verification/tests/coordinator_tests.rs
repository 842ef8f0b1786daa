use acl_distribnat::coordinator::ClaimError;
use acl_distribnat::coordinator::RemoteBinding;
use acl_distribnat::coordinator::claim_decision;
use acl_distribnat::coordinator::claim_from_fetched;
use acl_distribnat::coordinator::encode_endpoint;
use acl_distribnat::coordinator::parse_bindings;
use acl_distribnat::coordinator::parse_endpoint;
use acl_distribnat::coordinator::parse_endpoint_bytes;

#[test]
fn parse_endpoint_accepts_decimal_pairs() {
    assert_eq!(parse_endpoint("167772161:1024"), Some((167772161, 1024)));
    assert_eq!(parse_endpoint("1:2"), Some((1, 2)));
    assert_eq!(parse_endpoint("0:0"), Some((0, 0)));
    assert_eq!(parse_endpoint("4294967295:65535"), Some((4294967295, 65535)));
    // Leading zeros are accepted.
    assert_eq!(parse_endpoint("007:0080"), Some((7, 80)));
}

#[test]
fn parse_endpoint_rejects_malformed_input() {
    assert_eq!(parse_endpoint(""), None);
    assert_eq!(parse_endpoint("12345"), None);
    assert_eq!(parse_endpoint(":1"), None);
    assert_eq!(parse_endpoint("1:"), None);
    assert_eq!(parse_endpoint("a:1"), None);
    assert_eq!(parse_endpoint("1:b"), None);
    assert_eq!(parse_endpoint("1:2:3"), None);
    assert_eq!(parse_endpoint("4294967296:1"), None);
    assert_eq!(parse_endpoint("1:65536"), None);
    assert_eq!(parse_endpoint("12345678901:1"), None);
    assert_eq!(parse_endpoint("-1:2"), None);
    assert_eq!(parse_endpoint("1.5:2"), None);
}

#[test]
fn parse_endpoint_bytes_rejects_non_utf8() {
    assert_eq!(parse_endpoint_bytes(&[0xff, 0xfe, 58, 49]), None);
    assert_eq!(parse_endpoint_bytes(b"7:80"), Some((7, 80)));
}

#[test]
fn encode_endpoint_round_trips_through_parse() {
    assert_eq!(encode_endpoint(167772161, 1024), b"167772161:1024".to_vec());
    assert_eq!(encode_endpoint(0, 0), b"0:0".to_vec());
    assert_eq!(encode_endpoint(4294967295, 65535), b"4294967295:65535".to_vec());
    for &(ip, port) in &[(0u32, 0u16), (7, 80), (167772161, 1024), (4294967295, 65535)] {
        let encoded = encode_endpoint(ip, port);
        assert_eq!(parse_endpoint_bytes(&encoded), Some((ip, port)));
    }
}

#[test]
fn claim_decision_is_idempotent_and_conflicts() {
    // A free binding can be claimed.
    assert_eq!(claim_decision(None, 7, 80), Ok(()));
    // Claiming again with the identical endpoint succeeds.
    assert_eq!(claim_decision(Some((7, 80)), 7, 80), Ok(()));
    // Claiming the same binding for a different endpoint conflicts.
    assert_eq!(claim_decision(Some((7, 80)), 7, 81), Err(ClaimError::Conflict));
    assert_eq!(claim_decision(Some((7, 80)), 8, 80), Err(ClaimError::Conflict));
}

#[test]
fn claim_from_fetched_reads_the_stored_binding() {
    assert_eq!(claim_from_fetched(None, 7, 80), Ok(()));
    assert_eq!(claim_from_fetched(Some(b"7:80"), 7, 80), Ok(()));
    assert_eq!(claim_from_fetched(Some(b"7:81"), 7, 80), Err(ClaimError::Conflict));
    // A binding this scheme cannot read is treated as a foreign owner,
    // not a transport failure — including non-UTF-8 bytes.
    assert_eq!(claim_from_fetched(Some(b"junk"), 7, 80), Err(ClaimError::Conflict));
    assert_eq!(claim_from_fetched(Some(&[0xff, 0x00]), 7, 80), Err(ClaimError::Conflict));
}

#[test]
fn claim_from_fetched_accepts_what_encode_wrote() {
    let value = encode_endpoint(167772165, 33333);
    assert_eq!(claim_from_fetched(Some(&value), 167772165, 33333), Ok(()));
    assert_eq!(
        claim_from_fetched(Some(&value), 167772165, 33334),
        Err(ClaimError::Conflict)
    );
}

#[test]
fn parse_bindings_keeps_wellformed_pairs_in_order() {
    let raw: Vec<(Vec<u8>, Vec<u8>)> = vec![
        (b"167772161:1024".to_vec(), b"167772165:33333".to_vec()),
        (b"not a key".to_vec(), b"1:2".to_vec()),
        (b"167772161:1025".to_vec(), b"bad value".to_vec()),
        (b"167772161:1026".to_vec(), b"9:10".to_vec()),
    ];
    let parsed = parse_bindings(&raw);
    assert_eq!(
        parsed,
        vec![
            RemoteBinding { nat_ip: 167772161, nat_port: 1024, orig_ip: 167772165, orig_port: 33333 },
            RemoteBinding { nat_ip: 167772161, nat_port: 1026, orig_ip: 9, orig_port: 10 },
        ]
    );
}

#[test]
fn parse_bindings_of_empty_dump_is_empty() {
    let raw: Vec<(Vec<u8>, Vec<u8>)> = Vec::new();
    assert_eq!(parse_bindings(&raw), Vec::new());
}

#[test]
fn parse_bindings_round_trips_encoded_bindings() {
    let raw: Vec<(Vec<u8>, Vec<u8>)> = vec![
        (encode_endpoint(167772161, 1024), encode_endpoint(167772165, 33333)),
        (encode_endpoint(167772161, 1025), encode_endpoint(167772166, 44444)),
    ];
    let parsed = parse_bindings(&raw);
    assert_eq!(
        parsed,
        vec![
            RemoteBinding { nat_ip: 167772161, nat_port: 1024, orig_ip: 167772165, orig_port: 33333 },
            RemoteBinding { nat_ip: 167772161, nat_port: 1025, orig_ip: 167772166, orig_port: 44444 },
        ]
    );
}
