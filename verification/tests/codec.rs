use base64::Engine;
use dcg_codec::codec::{decode, encode};
use dcg_codec::codec::{Card, CodecError, Deck, Language};

fn roundtrip_with_version(deck_code: &str, version: u8) {
    let decoded_deck = decode(deck_code).expect("fixture should decode");
    let encoded_deck = encode(decoded_deck, version).expect("fixture should re-encode");
    assert_eq!(deck_code, encoded_deck);
}

#[test]
fn codec_roundtrip() {
    // v0
    let digi_bros_deck_encoded = "DCGApQzQlQyIIHBU1QxIEEBQlQxIIQFAsYCQU0QQlQyIIHEBEJUMyCGxALFAYNCwYUNU1QxIEbCwYMBiEUCRGlnaSBCcm9zOiBSYWduYWxvYXJkbW9uIFJlZCAoeW91dHUuYmUvbzBLb1cyd3doUjQp";
    // v1
    let st1_deck_encoded = "DCGETsdnJ0BQQMBnJ0BTwMCAwEDAQMBAwEBAQMBAwEBAQEBAwEDAQMBAQEBAVN0YXJ0ZXIgRGVjaywgR2FpYSBSZWQgW1NULTFd";
    // v2
    let deck_with_sideboard_encoded = "DCGIkA_B4udAoEDAZydAUEAAYudAYQACQMKAQEBMQSLnQKBAxABi50DhQMIAwUCAwECAwGLnQOBAhgEnJ0BRgMCAwECAwABAiABCV9fX19fX19fX19fX19fX19fX19fX19fX19fX19fX19fX19fX19fX19fX19fX19fX19fX19fX19fX19fX19fXw";
    // v3
    let deck_with_sideboard_and_language_encoded = "DCGOkA_B4udAoEDAZydAUEAAYudAYQACQMKAQEBMQSLnQKBAxABi50DhQMIAwUCAwECAwGLnQOBAhgEnJ0BRgMCAwECAwABAiABCV9fX19fX19fX19fX19fX19fX19fX19fX19fX19fX19fX19fX19fX19fX19fX19fX19fX19fX19fX19fX19fXw";
    // v4
    let deck_with_sideboard_and_language_and_icon_encoded = "DCGQsA_h4udAoEDAZydAUEAAYudAYQACQMKAQEBMQSLnQKBAxABi50DhQMIAwUCAwECAwGLnQOBAhgEnJ0BRgMCAwECAwABAiABCUJBQ0stMDAxX19fX19fX19fX19fX19fX19fX19fX19fX19fX19fX19fX19fX19fX19fX19fX19fX19fX19fXw";
    // v5
    let deck_with_sideboard_and_language_zh_and_icon_encoded = "DCGUsC_h4udAoEDAZydAUEAAYudAYQACQMKAQEBMQSLnQKBAxABi50DhQMIAwUCAwECAwGLnQOBAhgEnJ0BRgMCAwECAwABAiABCUJBQ0stMDAxX19fX19fX19fX19fX19fX19fX19fX19fX19fX19fX19fX19fX19fX19fX19fX19fX19fX19fXw";
    // v5
    let deck_with_sideboard_and_language_ko_and_icon_encoded = "DCGUsD_h4udAoEDAZydAUEAAYudAYQACQMKAQEBMQSLnQKBAxABi50DhQMIAwUCAwECAwGLnQOBAhgEnJ0BRgMCAwECAwABAiABCUJBQ0stMDAxX19fX19fX19fX19fX19fX19fX19fX19fX19fX19fX19fX19fX19fX19fX19fX19fX19fX19fXw";

    roundtrip_with_version(digi_bros_deck_encoded, 0);
    roundtrip_with_version(st1_deck_encoded, 1);
    roundtrip_with_version(deck_with_sideboard_encoded, 2);
    roundtrip_with_version(deck_with_sideboard_and_language_encoded, 3);
    roundtrip_with_version(deck_with_sideboard_and_language_and_icon_encoded, 4);
    roundtrip_with_version(deck_with_sideboard_and_language_zh_and_icon_encoded, 5);
    roundtrip_with_version(deck_with_sideboard_and_language_ko_and_icon_encoded, 5);
}

fn card(number: &str, parallel_id: u8, count: u16) -> Card {
    Card {
        number: number.to_string(),
        parallel_id,
        count,
    }
}

fn simple_deck() -> Deck {
    Deck {
        digi_eggs: vec![card("ST1-001", 0, 4)],
        deck: vec![card("BT2-010", 0, 3), card("ST1-002", 0, 4), card("ST1-003", 1, 2)],
        sideboard: Vec::new(),
        icon: None,
        language: None,
        name: "Test Deck".to_string(),
    }
}

#[test]
fn roundtrip_built_deck() {
    let deck = simple_deck();
    for version in [0u8, 1, 2] {
        let code = encode(deck.clone(), version).expect("deck should encode");
        let back = decode(&code).expect("code should decode");
        assert_eq!(back, deck);
    }
}

#[test]
fn roundtrip_language_and_icon() {
    let mut deck = simple_deck();
    deck.language = Some(Language::Japanese);
    let code = encode(deck.clone(), 3).expect("v3 should encode");
    let back = decode(&code).expect("v3 code should decode");
    assert_eq!(back.language, Some(Language::Japanese));

    deck.icon = Some("BACK-001".to_string());
    let code = encode(deck.clone(), 4).expect("v4 should encode");
    let back = decode(&code).expect("v4 code should decode");
    assert_eq!(back.icon, Some("BACK-001".to_string()));

    deck.language = Some(Language::Korean);
    let code = encode(deck.clone(), 5).expect("v5 should encode");
    let back = decode(&code).expect("v5 code should decode");
    assert_eq!(back, deck);
}

#[test]
fn icon_shorter_than_block_is_padded_and_trimmed() {
    let mut deck = simple_deck();
    deck.language = Some(Language::English);
    deck.icon = Some("AB".to_string());
    let code = encode(deck.clone(), 4).expect("short icon should encode");
    let back = decode(&code).expect("short icon code should decode");
    assert_eq!(back.icon, Some("AB".to_string()));
    assert_eq!(back, deck);
}

#[test]
fn encode_is_order_independent() {
    let a = Deck {
        digi_eggs: Vec::new(),
        deck: vec![card("BT1-020", 0, 2), card("BT1-003", 1, 4), card("ST5-001", 0, 1)],
        sideboard: Vec::new(),
        icon: None,
        language: None,
        name: "Shuffled".to_string(),
    };
    let b = Deck {
        digi_eggs: Vec::new(),
        deck: vec![card("ST5-001", 0, 1), card("BT1-020", 0, 2), card("BT1-003", 1, 4)],
        sideboard: Vec::new(),
        icon: None,
        language: None,
        name: "Shuffled".to_string(),
    };
    let ca = encode(a, 1).expect("first order should encode");
    let cb = encode(b, 1).expect("second order should encode");
    assert_eq!(ca, cb);
}

#[test]
fn count_boundaries() {
    // count = 256 is stored as byte 255 and survives the round trip
    let deck = Deck {
        digi_eggs: Vec::new(),
        deck: vec![card("BT1-001", 0, 256)],
        sideboard: Vec::new(),
        icon: None,
        language: None,
        name: String::new(),
    };
    let code = encode(deck.clone(), 1).expect("count 256 should encode");
    let back = decode(&code).expect("count 256 should decode");
    assert_eq!(back.deck[0].count, 256);

    // count = 0 and count > 256 are rejected at encode time
    let mut zero = deck.clone();
    zero.deck[0].count = 0;
    assert_eq!(encode(zero, 1), Err(CodecError::OutOfRangeField));
    let mut over = deck.clone();
    over.deck[0].count = 257;
    assert_eq!(encode(over, 1), Err(CodecError::OutOfRangeField));

    // version 0 only stores counts 1 to 4
    let mut five = deck;
    five.deck[0].count = 5;
    assert_eq!(encode(five, 0), Err(CodecError::OutOfRangeField));
}

#[test]
fn version_gating() {
    // a sideboard cannot be represented before version 2
    let mut deck = simple_deck();
    deck.sideboard = vec![card("ST1-007", 0, 1)];
    assert_eq!(encode(deck.clone(), 0), Err(CodecError::OutOfRangeField));
    assert_eq!(encode(deck.clone(), 1), Err(CodecError::OutOfRangeField));
    assert!(encode(deck.clone(), 2).is_ok());

    // versions 3 and 4 have a single language bit: Japanese or English only
    let mut zh = simple_deck();
    zh.language = Some(Language::Chinese);
    assert_eq!(encode(zh.clone(), 3), Err(CodecError::OutOfRangeField));
    assert!(encode(zh.clone(), 5).is_ok());

    // versions 3 and 4 count digi-eggs in three bits
    let mut eggs = simple_deck();
    eggs.language = Some(Language::English);
    eggs.digi_eggs = (1..=8).map(|i| card(&format!("ST1-10{}", i), 0, 1)).collect();
    assert_eq!(encode(eggs.clone(), 3), Err(CodecError::OutOfRangeField));
    assert!(encode(eggs.clone(), 2).is_ok());

    // versions above 5 do not exist
    assert_eq!(encode(simple_deck(), 6), Err(CodecError::UnsupportedVersion));
}

#[test]
fn invalid_parallel_id_is_rejected() {
    let mut deck = simple_deck();
    deck.deck[0].parallel_id = 8;
    assert_eq!(encode(deck, 1), Err(CodecError::OutOfRangeField));
}

#[test]
fn malformed_numbers_are_rejected() {
    for bad in ["ST1001", "-001", "ST1-", "ST1-00001", "ST1-0a1"] {
        let deck = Deck {
            digi_eggs: Vec::new(),
            deck: vec![card(bad, 0, 1)],
            sideboard: Vec::new(),
            icon: None,
            language: None,
            name: String::new(),
        };
        assert_eq!(encode(deck, 1), Err(CodecError::OutOfRangeField), "number {:?}", bad);
    }
}

#[test]
fn decode_rejects_bad_prefix() {
    assert_eq!(decode("XYZabcd"), Err(CodecError::InvalidPrefix));
    assert_eq!(decode("DC"), Err(CodecError::InvalidPrefix));
    assert_eq!(decode(""), Err(CodecError::InvalidPrefix));
}

#[test]
fn decode_rejects_bad_transport() {
    assert_eq!(decode("DCG!!!!"), Err(CodecError::MalformedTransportEncoding));
    // padding is not part of the URL-safe unpadded alphabet
    assert_eq!(decode("DCGAA=="), Err(CodecError::MalformedTransportEncoding));
}

fn code_of_payload(payload: &[u8]) -> String {
    let mut s = "DCG".to_string();
    s.push_str(&base64::engine::general_purpose::URL_SAFE_NO_PAD.encode(payload));
    s
}

#[test]
fn decode_rejects_unsupported_version() {
    // version nibble 6 in byte 0
    assert_eq!(
        decode(&code_of_payload(&[0x60, 0x00, 0x00])),
        Err(CodecError::UnsupportedVersion)
    );
}

#[test]
fn decode_rejects_truncated_payload() {
    assert_eq!(decode(&code_of_payload(&[])), Err(CodecError::TruncatedBuffer));
    assert_eq!(decode(&code_of_payload(&[0x00, 0x00])), Err(CodecError::TruncatedBuffer));
    // the declared name length exceeds what is left
    assert_eq!(decode(&code_of_payload(&[0x00, 0x00, 0x05])), Err(CodecError::TruncatedBuffer));
}

#[test]
fn decode_rejects_invalid_name_text() {
    // version 0, empty card region, one name byte that is not UTF-8: the
    // checksum over the empty card region matches, the name does not decode
    assert_eq!(
        decode(&code_of_payload(&[0x00, 0x00, 0x01, 0xFF])),
        Err(CodecError::InvalidText)
    );
    // with a stray byte inside the checksummed region the checksum fires first
    assert_eq!(
        decode(&code_of_payload(&[0x00, 0x00, 0x01, 0xFF, 0xFF])),
        Err(CodecError::ChecksumMismatch)
    );
}

#[test]
fn checksum_guards_every_payload_bit() {
    let deck = simple_deck();
    let code = encode(deck, 2).expect("deck should encode");
    let payload = base64::engine::general_purpose::URL_SAFE_NO_PAD
        .decode(&code[3..])
        .expect("own encoding should be base64");
    let name_len = (payload[2] & 0x3F) as usize;
    let card_end = payload.len() - name_len;
    for i in 3..card_end {
        for k in 0..8 {
            let mut flipped = payload.clone();
            flipped[i] ^= 1u8 << k;
            let bad = code_of_payload(&flipped);
            assert_eq!(
                decode(&bad),
                Err(CodecError::ChecksumMismatch),
                "bit {} of byte {} went unnoticed",
                k,
                i
            );
        }
    }
}

#[test]
fn name_is_truncated_and_trimmed() {
    let mut deck = simple_deck();
    deck.name = "x".repeat(100);
    let code = encode(deck, 1).expect("long name should encode");
    let back = decode(&code).expect("long name code should decode");
    assert_eq!(back.name, "x".repeat(63));

    let mut spaced = simple_deck();
    spaced.name = "  padded  ".to_string();
    let code = encode(spaced, 1).expect("spaced name should encode");
    let back = decode(&code).expect("spaced name code should decode");
    assert_eq!(back.name, "padded");
}

#[test]
fn base36_alphabet() {
    assert_eq!(dcg_codec::codec::base36_to_char(0), "0");
    assert_eq!(dcg_codec::codec::base36_to_char(9), "9");
    assert_eq!(dcg_codec::codec::base36_to_char(10), "A");
    assert_eq!(dcg_codec::codec::base36_to_char(35), "Z");
    assert_eq!(dcg_codec::codec::base36_to_char(36), "");
    assert_eq!(dcg_codec::codec::char_to_base36(&'0'), 0);
    assert_eq!(dcg_codec::codec::char_to_base36(&'Z'), 35);
    assert_eq!(dcg_codec::codec::char_to_base36(&'z'), 35);
    assert_eq!(dcg_codec::codec::char_to_base36(&'a'), 10);
    assert_eq!(dcg_codec::codec::char_to_base36(&'?'), 0);
}

#[test]
fn checksum_of_known_bytes() {
    assert_eq!(dcg_codec::codec::compute_checksum(4, &[1, 2, 3, 4]), 10);
    assert_eq!(dcg_codec::codec::compute_checksum(2, &[255, 2, 99]), 1);
    assert_eq!(dcg_codec::codec::compute_checksum(0, &[7, 7]), 0);
}

#[test]
fn sideboard_roundtrip() {
    let mut deck = simple_deck();
    deck.sideboard = vec![card("EX1-001", 0, 2), card("EX1-002", 0, 1)];
    let code = encode(deck.clone(), 2).expect("sideboard should encode");
    let back = decode(&code).expect("sideboard code should decode");
    assert_eq!(back, deck);
}

#[test]
fn empty_deck_roundtrip() {
    let deck = Deck {
        digi_eggs: Vec::new(),
        deck: Vec::new(),
        sideboard: Vec::new(),
        icon: None,
        language: None,
        name: String::new(),
    };
    for version in [0u8, 1, 2] {
        let code = encode(deck.clone(), version).expect("empty deck should encode");
        let back = decode(&code).expect("empty deck code should decode");
        assert_eq!(back, deck);
    }
}

#[test]
fn count_varint_continuation_roundtrip() {
    // forty cards of one set: the group count no longer fits the six-bit
    // field and spills into a continuation byte
    let deck = Deck {
        digi_eggs: Vec::new(),
        deck: (1..=40).map(|i| card(&format!("ST1-{:03}", i), 0, 1)).collect(),
        sideboard: Vec::new(),
        icon: None,
        language: None,
        name: "forty".to_string(),
    };
    let code = encode(deck.clone(), 2).expect("forty cards should encode");
    let back = decode(&code).expect("forty cards should decode");
    assert_eq!(back, deck);
}

#[test]
fn delta_varint_continuation_roundtrip() {
    // a number jump beyond the five-bit delta field needs continuation bytes
    let deck = Deck {
        digi_eggs: Vec::new(),
        deck: vec![card("BT1-0001", 0, 1), card("BT1-2047", 0, 2)],
        sideboard: Vec::new(),
        icon: None,
        language: None,
        name: String::new(),
    };
    for version in [0u8, 1, 2] {
        let code = encode(deck.clone(), version).expect("large delta should encode");
        let back = decode(&code).expect("large delta should decode");
        assert_eq!(back, deck);
    }
}

#[test]
fn four_character_set_code_roundtrip() {
    let deck = Deck {
        digi_eggs: Vec::new(),
        deck: vec![card("BT10-086", 0, 4)],
        sideboard: Vec::new(),
        icon: None,
        language: None,
        name: "boss".to_string(),
    };
    for version in [0u8, 1] {
        let code = encode(deck.clone(), version).expect("four-char set should encode");
        let back = decode(&code).expect("four-char set should decode");
        assert_eq!(back, deck);
    }
}

#[test]
fn unicode_name_roundtrip() {
    let mut deck = simple_deck();
    deck.name = "\u{30c7}\u{30c3}\u{30ad}\u{00e9}".to_string();
    let code = encode(deck.clone(), 1).expect("unicode name should encode");
    let back = decode(&code).expect("unicode name should decode");
    assert_eq!(back.name, deck.name);
}
