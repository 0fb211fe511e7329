use base32::Alphabet;
use flate2::write::DeflateEncoder;
use flate2::Compression;
use gift_swop::url_encoding::{
    decode_message_payload, decode_message_v2, decode_state_payload, decode_state_v2,
    encode_message_v2, encode_state_v2, CompactMessageV1, CompactStateV1, VERSION_1_0,
};
use serde::ser::SerializeStruct;
use std::io::Write;

/// The message body as serde sees it, for a size comparison with bincode.
struct SerdeMessage {
    g: String,
    r: String,
}

impl serde::Serialize for SerdeMessage {
    fn serialize<S: serde::Serializer>(&self, serializer: S) -> Result<S::Ok, S::Error> {
        let mut st = serializer.serialize_struct("CompactMessageV1", 2)?;
        st.serialize_field("g", &self.g)?;
        st.serialize_field("r", &self.r)?;
        st.end()
    }
}

fn flatten_state(
    forbidden_pairs: &[(u32, u32)],
    history: &[Vec<u32>],
) -> (Vec<u32>, Vec<u32>) {
    let forbidden_flat: Vec<u32> = forbidden_pairs.iter().flat_map(|(a, b)| vec![*a, *b]).collect();
    let history_flat: Vec<u32> = history.iter().flat_map(|round| round.iter().copied()).collect();
    (forbidden_flat, history_flat)
}

#[test]
fn test_versioned_message_roundtrip() {
    let giver = "Alice";
    let receiver = "Bob";

    let encoded = encode_message_v2(giver, receiver).unwrap();
    println!("Versioned encoded message: {} (length: {})", encoded, encoded.len());

    let decoded = decode_message_v2(encoded.as_str()).unwrap();
    assert_eq!(decoded.giver(), giver);
    assert_eq!(decoded.receiver(), receiver);

    assert_eq!(encoded, "cnqhltgjjrhgk5wkj4baa");
}

#[test]
fn test_ultra_compact_vs_bincode_sizes() {
    let giver = "Alice";
    let receiver = "Bob";
    let message = CompactMessageV1 { g: giver.to_string(), r: receiver.to_string() };

    let ultra_compact = message.serialize_ultra_compact();
    println!("Ultra-compact message size: {} bytes", ultra_compact.len());

    let bincode_bytes =
        bincode::serialize(&SerdeMessage { g: giver.to_string(), r: receiver.to_string() }).unwrap();
    println!("Bincode message size: {} bytes", bincode_bytes.len());

    assert!(ultra_compact.len() <= bincode_bytes.len());
}

#[test]
fn test_message_encoding_regression_snapshots() {
    let test_cases = vec![
        ("Alice", "Bob", "cnqhltgjjrhgk5wkj4baa"),
        ("A", "B", "cnqhizduaiaa"),
        ("Bob", "Charlie", "cnqhnsspmj344sbmzleuybia"),
        ("X", "Y", "cnqiyyemaqaa"),
        ("Long Name", "Another Long Name", "cpqpjsopjnl7as6mjukxjtglf7euqlksqcfqaaa"),
        ("José", "François", "cnqplsrph26jfu5nfay674hs7tggeaa"),
    ];

    for (giver, receiver, expected_encoded) in test_cases {
        let encoded = encode_message_v2(giver, receiver).unwrap();
        assert_eq!(
            encoded, expected_encoded,
            "REGRESSION FAILURE: {} → {} encoding changed from {} to {}",
            giver, receiver, expected_encoded, encoded
        );

        let decoded = decode_message_v2(&encoded).unwrap();
        assert_eq!(decoded.giver(), giver);
        assert_eq!(decoded.receiver(), receiver);
    }
}

#[test]
fn test_state_encoding_regression_snapshots() {
    let test_cases: Vec<(Vec<String>, Vec<(u32, u32)>, Vec<Vec<u32>>, &str)> = vec![
        (
            vec!["Alice".to_string(), "Bob".to_string(), "Charlie".to_string()],
            vec![(0, 1), (1, 2)],
            vec![vec![0, 1, 2], vec![2, 0, 1]],
            "cnqgm5omzfge4zlwzjhwe56ojawmvskmmvrgazdeaijcadaa",
        ),
        (vec![], vec![], vec![], "cnqgayaaaa"),
        (vec!["Alice".to_string()], vec![], vec![], "cnqgi5omzfge4zlaaaaa"),
        (
            vec!["A".to_string(), "B".to_string()],
            vec![(0, 1)],
            vec![vec![0, 1]],
            "cnqge5deorrgiyaeeiaa",
        ),
        (
            vec![
                "Alice".to_string(),
                "Bob".to_string(),
                "Charlie".to_string(),
                "David".to_string(),
                "Eve".to_string(),
            ],
            vec![(0, 2), (1, 3)],
            vec![vec![0, 1, 2, 3, 4], vec![4, 3, 2, 1, 0]],
            "aexabup7cacqkqlmnfrwka2cn5raoq3imfzgy2lfavcgc5tjmqbuk5tfaiaaeaidaiaacaqdaqcagaqbaa",
        ),
    ];

    for (names, forbidden_pairs, history, expected_encoded) in test_cases {
        let (forbidden_flat, history_flat) = flatten_state(&forbidden_pairs, &history);

        let encoded =
            encode_state_v2(names.clone(), forbidden_flat.clone(), history_flat.clone()).unwrap();
        assert_eq!(
            encoded, expected_encoded,
            "REGRESSION FAILURE: State encoding changed.\nExpected: {}\nGot: {}",
            expected_encoded, encoded
        );

        let decoded = decode_state_v2(&encoded).unwrap();
        assert_eq!(decoded.names, names);
        assert_eq!(decoded.forbidden_pairs, forbidden_flat);
        assert_eq!(decoded.history, history_flat);
        assert_eq!(decoded.version(), "1.0");
    }
}

#[test]
fn test_future_compatibility_guarantee() {
    let current_format_urls = vec![("cnqhizduaiaa", "A", "B"), ("cnqhltgjjrhgk5wkj4baa", "Alice", "Bob")];

    for (encoded_url, expected_giver, expected_receiver) in current_format_urls {
        match decode_message_v2(encoded_url) {
            Ok(decoded) => {
                assert_eq!(decoded.giver(), expected_giver);
                assert_eq!(decoded.receiver(), expected_receiver);
            }
            Err(e) => {
                panic!(
                    "FUTURE COMPATIBILITY BROKEN: Current format URL '{}' failed to decode: {}",
                    encoded_url, e
                );
            }
        }
    }
}

#[test]
fn test_encoding_edge_cases_and_errors() {
    let encoded = encode_message_v2("", "").unwrap();
    let decoded = decode_message_v2(&encoded).unwrap();
    assert_eq!(decoded.giver(), "");
    assert_eq!(decoded.receiver(), "");

    let long_name = "A".repeat(200);
    let encoded = encode_message_v2(&long_name, "B").unwrap();
    let decoded = decode_message_v2(&encoded).unwrap();
    assert_eq!(decoded.giver(), long_name);
    assert_eq!(decoded.receiver(), "B");

    assert!(decode_message_v2("invalid!@#$%").is_err());
    assert!(decode_message_v2("cnq").is_err());
    assert!(decode_message_v2("").is_err());
}

#[test]
fn test_single_character_names() {
    let test_cases = vec![("A", "B"), ("B", "C"), ("C", "A")];

    for (giver, receiver) in test_cases {
        let encoded = encode_message_v2(giver, receiver).unwrap();
        let decoded = decode_message_v2(encoded.as_str()).unwrap();
        assert_eq!(decoded.giver(), giver);
        assert_eq!(decoded.receiver(), receiver);
    }
}

#[test]
fn test_ultra_compact_binary_format() {
    let message = CompactMessageV1 { g: "A".to_string(), r: "B".to_string() };

    let binary = message.serialize_ultra_compact();
    assert_eq!(binary[0], 1);
    assert_eq!(binary[1], b'A');
    assert_eq!(binary[2], 1);
    assert_eq!(binary[3], b'B');
    assert_eq!(binary.len(), 4);

    let decoded = CompactMessageV1::deserialize_ultra_compact(&binary).unwrap();
    assert_eq!(decoded.g, "A");
    assert_eq!(decoded.r, "B");
}

#[test]
fn test_state_serialization_size() {
    let names = vec!["Alice".to_string(), "Bob".to_string(), "Charlie".to_string()];
    let state = CompactStateV1 {
        n: names.clone(),
        f: vec![(0, 1), (1, 2)],
        h: vec![vec![0, 1, 2], vec![2, 0, 1]],
    };

    let serialized = state.serialize_ultra_compact();
    println!("State serialized size: {} bytes", serialized.len());

    let mut encoder = DeflateEncoder::new(Vec::new(), Compression::best());
    encoder.write_all(&serialized).unwrap();
    let compressed = encoder.finish().unwrap();
    println!("Compressed size: {} bytes", compressed.len());

    let encoded = base32::encode(Alphabet::RFC4648 { padding: false }, &compressed);
    println!("Base32 encoded length: {} chars", encoded.len());
}

#[test]
fn test_version_parsing() {
    let version = VERSION_1_0;
    let major = version >> 4;
    let minor = version & 0x0F;
    assert_eq!(major, 1);
    assert_eq!(minor, 0);

    let version_2_3: u8 = 0x23;
    let major = version_2_3 >> 4;
    let minor = version_2_3 & 0x0F;
    assert_eq!(major, 2);
    assert_eq!(minor, 3);
}

fn pack_payload(payload: &[u8]) -> String {
    let mut encoder = DeflateEncoder::new(Vec::new(), Compression::best());
    encoder.write_all(payload).unwrap();
    let compressed = encoder.finish().unwrap();
    base32::encode(Alphabet::RFC4648 { padding: false }, &compressed).to_lowercase()
}

#[test]
fn encoded_text_is_lowercase_base32() {
    let encoded = encode_message_v2("Zoë", "Émile").unwrap();
    assert!(encoded.chars().all(|c| c.is_ascii_lowercase() || ('2'..='7').contains(&c)));
    let state = encode_state_v2(vec!["Ünal".to_string()], vec![], vec![0]).unwrap();
    assert!(state.chars().all(|c| c.is_ascii_lowercase() || ('2'..='7').contains(&c)));
}

#[test]
fn decoding_accepts_uppercase_text() {
    let encoded = encode_message_v2("Alice", "Bob").unwrap();
    let decoded = decode_message_v2(&encoded.to_uppercase()).unwrap();
    assert_eq!(decoded.giver(), "Alice");
    assert_eq!(decoded.receiver(), "Bob");
}

#[test]
fn base32_error_quotes_input() {
    let err = decode_message_v2("invalid!@#$%").err().unwrap();
    assert_eq!(err, "Base32 decode error for: 'invalid!@#$%'");
    assert_eq!(decode_state_v2("invalid!").err().unwrap(), "Base32 decode error");
}

#[test]
fn unsupported_version_is_reported() {
    let text = pack_payload(&[0x23, 1, b'A', 1, b'B']);
    assert_eq!(decode_message_v2(&text).err().unwrap(), "Unsupported version: 2.3");
    let text = pack_payload(&[0xFF]);
    assert_eq!(decode_state_v2(&text).err().unwrap(), "Unsupported version: 15.15");
}

#[test]
fn empty_payload_is_reported() {
    let text = pack_payload(&[]);
    assert_eq!(decode_message_v2(&text).err().unwrap(), "Empty message");
    assert_eq!(decode_state_v2(&text).err().unwrap(), "Empty state");
}

#[test]
fn message_body_errors() {
    let cases: Vec<(Vec<u8>, &str)> = vec![
        (vec![], "Invalid data: empty"),
        (vec![3, b'A'], "Invalid data: giver name length exceeds data"),
        (vec![1, b'A'], "Invalid data: unexpected end before receiver name"),
        (vec![1, b'A', 2, b'B'], "Invalid data: receiver name length exceeds data"),
    ];
    for (body, expected) in cases {
        assert_eq!(CompactMessageV1::deserialize_ultra_compact(&body).err().unwrap(), expected);
        let mut payload = vec![VERSION_1_0];
        payload.extend_from_slice(&body);
        let text = pack_payload(&payload);
        assert_eq!(
            decode_message_v2(&text).err().unwrap(),
            format!("Deserialization error: {}", expected)
        );
    }
    let bad = CompactMessageV1::deserialize_ultra_compact(&[1, 0xFF, 0]).err().unwrap();
    assert!(bad.starts_with("Invalid UTF-8 in giver name: "));
    let bad = CompactMessageV1::deserialize_ultra_compact(&[0, 1, 0xC3]).err().unwrap();
    assert!(bad.starts_with("Invalid UTF-8 in receiver name: "));
}

#[test]
fn state_body_errors() {
    let cases: Vec<(Vec<u8>, &str)> = vec![
        (vec![], "Invalid data: empty"),
        (vec![1], "Invalid data: unexpected end while reading names"),
        (vec![1, 2, b'A'], "Invalid data: name length exceeds data"),
        (vec![0], "Invalid data: unexpected end before forbidden pairs"),
        (vec![0, 1, 5], "Invalid data: unexpected end while reading forbidden pairs"),
        (vec![0, 0], "Invalid data: unexpected end before history"),
        (vec![1, 1, b'A', 0, 1], "Invalid data: unexpected end while reading history"),
    ];
    for (body, expected) in cases {
        assert_eq!(CompactStateV1::deserialize_ultra_compact(&body).err().unwrap(), expected);
    }
    let bad = CompactStateV1::deserialize_ultra_compact(&[1, 1, 0x80, 0, 0]).err().unwrap();
    assert!(bad.starts_with("Invalid UTF-8 in name: "));
}

#[test]
fn odd_forbidden_pairs_are_refused() {
    assert_eq!(
        encode_state_v2(vec!["A".to_string()], vec![1], vec![]).err().unwrap(),
        "Forbidden pairs must have even length"
    );
}

#[test]
fn state_without_names_drops_history() {
    let encoded = encode_state_v2(vec![], vec![0, 1], vec![4, 5]).unwrap();
    let decoded = decode_state_v2(&encoded).unwrap();
    assert!(decoded.names.is_empty());
    assert_eq!(decoded.forbidden_pairs, vec![0, 1]);
    assert!(decoded.history.is_empty());
}

#[test]
fn state_values_are_truncated_to_bytes() {
    let state = CompactStateV1 { n: vec!["A".to_string()], f: vec![(256, 257)], h: vec![vec![300]] };
    assert_eq!(state.serialize_ultra_compact(), vec![1, 1, b'A', 1, 0, 1, 1, 44]);
}

#[test]
fn long_name_length_wraps_and_breaks_roundtrip() {
    let long_name = "B".repeat(300);
    let encoded = encode_message_v2(&long_name, "C").unwrap();
    let decoded = decode_message_v2(&encoded);
    assert!(decoded.is_err() || decoded.unwrap().giver() != long_name);
}

#[test]
fn message_payload_is_read_directly() {
    let decoded = decode_message_payload(&[VERSION_1_0, 1, b'A', 2, b'B', b'o']).unwrap();
    assert_eq!(decoded.giver(), "A");
    assert_eq!(decoded.receiver(), "Bo");
    assert_eq!(decode_message_payload(&[]).err().unwrap(), "Empty message");
    assert_eq!(
        decode_message_payload(&[0x21, 0, 0]).err().unwrap(),
        "Unsupported version: 2.1"
    );
    assert_eq!(
        decode_message_payload(&[VERSION_1_0, 2, b'A']).err().unwrap(),
        "Deserialization error: Invalid data: giver name length exceeds data"
    );
}

#[test]
fn state_payload_is_read_directly() {
    let payload = [VERSION_1_0, 2, 1, b'A', 1, b'B', 1, 0, 1, 1, 1, 0];
    let state = decode_state_payload(&payload).unwrap();
    assert_eq!(state.names, vec!["A".to_string(), "B".to_string()]);
    assert_eq!(state.forbidden_pairs, vec![0, 1]);
    assert_eq!(state.history, vec![1, 0]);
    assert_eq!(state.version(), "1.0");
    assert_eq!(decode_state_payload(&[]).err().unwrap(), "Empty state");
    assert_eq!(decode_state_payload(&[0x11]).err().unwrap(), "Unsupported version: 1.1");
    assert_eq!(
        decode_state_payload(&[VERSION_1_0, 1]).err().unwrap(),
        "Deserialization error: Invalid data: unexpected end while reading names"
    );
}

#[test]
fn encoding_always_succeeds_for_even_pair_lists() {
    assert!(encode_message_v2("", "").is_ok());
    assert!(encode_message_v2(&"x".repeat(1000), "y").is_ok());
    assert!(encode_state_v2(vec![], vec![], vec![]).is_ok());
    assert!(encode_state_v2(vec!["A".to_string(), "B".to_string()], vec![0, 1, 1, 0], vec![1, 0]).is_ok());
    assert!(encode_state_v2(vec!["A".to_string()], vec![0, 1, 2], vec![]).is_err());
}

#[test]
fn every_truncated_state_body_is_rejected() {
    let state = CompactStateV1 {
        n: vec!["Ann".to_string(), "Bé".to_string(), "C".to_string()],
        f: vec![(0, 1), (2, 0)],
        h: vec![vec![1, 2, 0], vec![2, 0, 1]],
    };
    let bytes = state.serialize_ultra_compact();
    assert!(CompactStateV1::deserialize_ultra_compact(&bytes).is_ok());
    for k in 0..bytes.len() {
        assert!(CompactStateV1::deserialize_ultra_compact(&bytes[..k]).is_err(), "prefix {}", k);
    }
}
