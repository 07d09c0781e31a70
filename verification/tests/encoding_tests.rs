use chat_core::encoding::{decode_participant_ids, encode_participant_ids};

#[test]
fn encode_joins_with_commas() {
    let ids = vec!["u1".to_string(), "u2".to_string()];
    assert_eq!(encode_participant_ids(&ids), "u1,u2");
    assert_eq!(encode_participant_ids(&vec!["solo".to_string()]), "solo");
    assert_eq!(encode_participant_ids(&Vec::new()), "");
}

#[test]
fn decode_splits_on_commas() {
    let got = decode_participant_ids(&"a,b,c".to_string());
    assert_eq!(got, vec!["a".to_string(), "b".to_string(), "c".to_string()]);
    assert_eq!(decode_participant_ids(&"solo".to_string()), vec!["solo".to_string()]);
    assert_eq!(decode_participant_ids(&"".to_string()), vec!["".to_string()]);
}

#[test]
fn round_trip_restores_the_sequence() {
    let ids = vec![
        "0e1ad55b-21a8-4b3a-9e39-2ba6775c5e4f".to_string(),
        "77f2e5da-7c7e-41dd-a12f-4300b2bbe71c".to_string(),
    ];
    let encoded = encode_participant_ids(&ids);
    assert_eq!(decode_participant_ids(&encoded), ids);
}
