use raincore::address::Address;
use raincore::bytes32::Word256;
use raincore::meta::{
    authoring_meta_from_envelope, decode_authoring_meta, decode_pragma_addresses,
    encode_parse_pragma_call, EnvelopeError, MetaDecodeError,
};
use raincore::order_quote::{
    batch_order_quotes, order_pairs, order_quote_responses, order_quote_targets, parse_hex_address,
    parse_order_hash, BatchQuoteError,
};
use raincore::quote::{FailedQuote, OrderQuote};
use raincore::subgraph::{BigInt, Bytes, Erc20, Order, Orderbook, Vault};
use raincore::text::hex_string;

#[test]
fn test_word_from_u64_bytes() {
    let w = Word256::from_u64(0x0102);
    let bytes = w.as_bytes();
    assert_eq!(bytes.len(), 32);
    assert_eq!(bytes[30], 0x01);
    assert_eq!(bytes[31], 0x02);
    assert!(bytes[..30].iter().all(|b| *b == 0));
}

#[test]
fn test_hex_string_renders() {
    let s = hex_string(&vec![0x00, 0x1f, 0xa0]);
    assert_eq!(s, "0x001fa0");
}

#[test]
fn test_parse_order_hash_value() {
    let w = parse_order_hash(&"0x1f".to_string()).unwrap();
    assert_eq!(w.as_bytes(), Word256::from_u64(0x1f).as_bytes());
    let long = format!("0x{}", "12".repeat(32));
    let w2 = parse_order_hash(&long.to_string()).unwrap();
    assert_eq!(w2.as_bytes(), &vec![0x12u8; 32]);
}

#[test]
fn test_parse_order_hash_rejects() {
    assert!(parse_order_hash(&"".to_string()).is_none());
    assert!(parse_order_hash(&"0x".to_string()).is_none());
    assert!(parse_order_hash(&"1f".to_string()).is_none());
    assert!(parse_order_hash(&"0xzz".to_string()).is_none());
    assert!(parse_order_hash(&format!("0x{}", "1".repeat(65))).is_none());
}

#[test]
fn test_parse_hex_address_value() {
    let s = format!("0x{}", "ab".repeat(20));
    let a = parse_hex_address(&s).unwrap();
    assert_eq!(a.as_bytes(), &vec![0xabu8; 20]);
    assert!(parse_hex_address(&"0xab".to_string()).is_none());
    assert!(parse_hex_address(&format!("0x{}", "ab".repeat(21))).is_none());
}

fn token(symbol: Option<&str>) -> Erc20 {
    Erc20 {
        id: Bytes("0x00".to_string()),
        address: Bytes("0x00".to_string()),
        name: None,
        symbol: symbol.map(|s| s.to_string()),
        decimals: None,
    }
}

fn vault(symbol: Option<&str>) -> Vault {
    Vault {
        id: Bytes("0x00".to_string()),
        owner: Bytes("0x00".to_string()),
        vault_id: BigInt("1".to_string()),
        balance: BigInt("0".to_string()),
        token: token(symbol),
        orderbook: Orderbook { id: Bytes("0x00".to_string()) },
        orders_as_output: vec![],
        orders_as_input: vec![],
        balance_changes: vec![],
    }
}

fn order(inputs: Vec<Vault>, outputs: Vec<Vault>, orderbook: &str, hash: &str) -> Order {
    Order {
        id: Bytes("0x01".to_string()),
        order_bytes: Bytes("0x00".to_string()),
        order_hash: Bytes(hash.to_string()),
        owner: Bytes("0x00".to_string()),
        outputs,
        inputs,
        orderbook: Orderbook { id: Bytes(orderbook.to_string()) },
        active: true,
        timestamp_added: BigInt("0".to_string()),
        meta: None,
        add_events: vec![],
    }
}

fn good_orderbook() -> String {
    format!("0x{}", "cd".repeat(20))
}

#[test]
fn test_order_pairs_enumeration() {
    let o = order(
        vec![vault(Some("WETH")), vault(None)],
        vec![vault(Some("USDC")), vault(Some("DAI"))],
        &good_orderbook(),
        "0x01",
    );
    let pairs = order_pairs(&o);
    assert_eq!(pairs.len(), 4);
    assert_eq!(pairs[0].pair_name, "WETH/USDC");
    assert_eq!(pairs[1].pair_name, "WETH/DAI");
    assert_eq!(pairs[2].pair_name, "UNKNOWN/USDC");
    assert_eq!(pairs[3].pair_name, "UNKNOWN/DAI");
    assert_eq!((pairs[2].input_index, pairs[2].output_index), (1, 0));
}

#[test]
fn test_order_quote_targets_fields() {
    let o = order(
        vec![vault(Some("WETH"))],
        vec![vault(Some("USDC"))],
        &good_orderbook(),
        "0x2a",
    );
    let pairs = order_pairs(&o);
    let targets = order_quote_targets(&o, &pairs).unwrap();
    assert_eq!(targets.len(), 1);
    assert_eq!(targets[0].orderbook.as_bytes(), &vec![0xcdu8; 20]);
    assert_eq!(targets[0].order_hash.as_bytes(), Word256::from_u64(0x2a).as_bytes());
    assert_eq!(targets[0].input_io_index, 0);
    assert_eq!(targets[0].output_io_index, 0);
}

#[test]
fn test_order_quote_targets_bad_address() {
    let o = order(vec![vault(None)], vec![vault(None)], "not-an-address", "0x2a");
    let pairs = order_pairs(&o);
    assert_eq!(
        order_quote_targets(&o, &pairs).unwrap_err(),
        BatchQuoteError::InvalidOrderbookAddress,
    );
}

#[test]
fn test_order_quote_targets_bad_hash() {
    let o = order(vec![vault(None)], vec![vault(None)], &good_orderbook(), "nope");
    let pairs = order_pairs(&o);
    assert_eq!(
        order_quote_targets(&o, &pairs).unwrap_err(),
        BatchQuoteError::InvalidOrderHash,
    );
}

#[test]
fn test_order_quote_responses_mixed() {
    let o = order(
        vec![vault(Some("WETH"))],
        vec![vault(Some("USDC")), vault(Some("DAI"))],
        &good_orderbook(),
        "0x2a",
    );
    let pairs = order_pairs(&o);
    let outcomes: Vec<Result<OrderQuote, FailedQuote>> = vec![
        Ok(OrderQuote { max_output: Word256::from_u64(1), ratio: Word256::from_u64(2) }),
        Err(FailedQuote::NonExistent),
    ];
    let responses = order_quote_responses(&o, pairs, Ok(outcomes));
    assert_eq!(responses.len(), 2);
    assert!(responses[0].success);
    assert_eq!(responses[0].pair_name, "WETH/USDC");
    assert!(responses[0].error.is_none());
    assert!(!responses[1].success);
    assert_eq!(responses[1].pair_name, "WETH/DAI");
    assert_eq!(responses[1].error.as_deref(), Some("order does not exist"));
}

#[test]
fn test_batch_order_quotes_order_major() {
    let o1 = order(vec![vault(Some("A"))], vec![vault(Some("B"))], &good_orderbook(), "0x01");
    let o2 = order(vec![vault(Some("C"))], vec![vault(Some("D"))], &good_orderbook(), "0x02");
    let per_order = vec![
        Ok(vec![Ok(OrderQuote {
            max_output: Word256::from_u64(5),
            ratio: Word256::from_u64(6),
        })]),
        Err("rpc unreachable".to_string()),
    ];
    let responses = batch_order_quotes(&vec![o1, o2], per_order).unwrap();
    assert_eq!(responses.len(), 2);
    assert_eq!(responses[0].pair_name, "A/B");
    assert!(responses[0].success);
    assert_eq!(responses[1].pair_name, "C/D");
    assert!(!responses[1].success);
    assert_eq!(responses[1].error.as_deref(), Some("rpc unreachable"));
}

#[test]
fn test_pragma_response_decoding_rejects() {
    assert!(decode_pragma_addresses(&vec![]).is_none());
    // non-zero byte inside the address padding
    let mut bad = Vec::new();
    bad.extend_from_slice(Word256::from_u64(0x20).as_bytes());
    bad.extend_from_slice(Word256::from_u64(1).as_bytes());
    let mut word = vec![0u8; 32];
    word[0] = 1;
    bad.extend_from_slice(&word);
    assert!(decode_pragma_addresses(&bad).is_none());
}

#[test]
fn test_parse_pragma_call_layout() {
    let text = b"some rainlang text".to_vec();
    let call = encode_parse_pragma_call(&text);
    assert_eq!(&call[0..4], &[0x55, 0x14, 0xca, 0x20]);
    assert_eq!(call[4 + 31], 0x20);
    assert_eq!(call[4 + 63], text.len() as u8);
    assert_eq!(&call[4 + 64..4 + 64 + text.len()], text.as_slice());
    assert_eq!(call.len(), 4 + 64 + 32);
}

#[test]
fn test_authoring_meta_decode_rejects() {
    assert_eq!(
        decode_authoring_meta(&vec![1, 2, 3]).unwrap_err(),
        MetaDecodeError::MalformedPayload,
    );
    // a non-ASCII description byte
    let mut out = Vec::new();
    out.extend_from_slice(Word256::from_u64(0x20).as_bytes());
    out.extend_from_slice(Word256::from_u64(1).as_bytes());
    out.extend_from_slice(Word256::from_u64(32).as_bytes());
    let mut name = b"w".to_vec();
    name.resize(32, 0);
    out.extend_from_slice(&name);
    out.extend_from_slice(Word256::from_u64(0x40).as_bytes());
    out.extend_from_slice(Word256::from_u64(1).as_bytes());
    let mut desc = vec![0xffu8];
    desc.resize(32, 0);
    out.extend_from_slice(&desc);
    assert_eq!(
        decode_authoring_meta(&out).unwrap_err(),
        MetaDecodeError::NonAsciiText,
    );
}

#[test]
fn test_address_equality() {
    let a = Address::from_bytes(vec![1u8; 20]);
    let b = Address::from_bytes(vec![1u8; 20]);
    let c = Address::from_bytes(vec![2u8; 20]);
    assert_eq!(a, b);
    assert_ne!(a, c);
}

#[test]
fn test_parse_date_epoch() {
    assert_eq!(
        raincore::downtime::DowntimeArgs::parse_date(&"01-01-1970".to_string()),
        Some(0),
    );
    assert_eq!(
        raincore::downtime::DowntimeArgs::parse_date(&"02-01-1970".to_string()),
        Some(86400),
    );
    // a leap day, and the day after it
    assert_eq!(
        raincore::downtime::DowntimeArgs::parse_date(&"29-02-1972".to_string()),
        Some((365 + 365 + 31 + 28) * 86400),
    );
    assert_eq!(
        raincore::downtime::DowntimeArgs::parse_date(&"01-01-2000".to_string()),
        Some(946684800),
    );
}

#[test]
fn test_parse_date_rejects() {
    let parse = raincore::downtime::DowntimeArgs::parse_date;
    assert_eq!(parse(&"1-1-1970".to_string()), None);
    assert_eq!(parse(&"32-01-1970".to_string()), None);
    assert_eq!(parse(&"29-02-1970".to_string()), None);
    assert_eq!(parse(&"01-13-1970".to_string()), None);
    assert_eq!(parse(&"01-01-1969".to_string()), None);
    assert_eq!(parse(&"01/01/1970".to_string()), None);
}

#[test]
fn test_downtime_period() {
    let args = raincore::downtime::DowntimeArgs {
        start: Some("01-01-1970".to_string()),
        end: Some("02-01-1970".to_string()),
        subgraph_url: "http://example.com/sg".to_string(),
        threshold_secs: 600,
    };
    assert_eq!(args.period(), Ok(Some((0, 86400))));
    let open_ended = raincore::downtime::DowntimeArgs { start: None, ..args.clone() };
    assert_eq!(open_ended.period(), Ok(None));
    let bad = raincore::downtime::DowntimeArgs {
        start: Some("bad".to_string()),
        ..args.clone()
    };
    assert!(bad.period().is_err());
}

#[test]
fn test_default_multicall_address() {
    let a = raincore::quote::default_multicall_address();
    assert_eq!(
        Some(a),
        parse_hex_address(&"0xcA11bde05977b3631167028862bE2a173976CA11".to_string()),
    );
}

fn authoring_envelope(magic: rain_metadata::KnownMagic, payload: Vec<u8>) -> Vec<u8> {
    rain_metadata::RainMetaDocumentV1Item {
        payload: serde_bytes::ByteBuf::from(payload),
        magic,
        content_type: rain_metadata::ContentType::OctetStream,
        content_encoding: rain_metadata::ContentEncoding::None,
        content_language: rain_metadata::ContentLanguage::None,
    }
    .cbor_encode()
    .unwrap()
}

fn v2_payload(words: &[(&str, &str)]) -> Vec<u8> {
    // item array: offset, count, per-item offsets, then each tail
    let mut out = Vec::new();
    let word32 = |v: u64| {
        let mut w = vec![0u8; 24];
        w.extend_from_slice(&v.to_be_bytes());
        w
    };
    out.extend_from_slice(&word32(0x20));
    out.extend_from_slice(&word32(words.len() as u64));
    let mut tails: Vec<Vec<u8>> = Vec::new();
    for (word, desc) in words {
        let mut tail = Vec::new();
        let mut name = word.as_bytes().to_vec();
        name.resize(32, 0);
        tail.extend_from_slice(&name);
        tail.extend_from_slice(&word32(0x40));
        tail.extend_from_slice(&word32(desc.len() as u64));
        tail.extend_from_slice(desc.as_bytes());
        tail.extend_from_slice(&vec![0u8; (32 - desc.len() % 32) % 32]);
        tails.push(tail);
    }
    let mut offset = 32 * words.len();
    for tail in &tails {
        out.extend_from_slice(&word32(offset as u64));
        offset += tail.len();
    }
    for tail in &tails {
        out.extend_from_slice(tail);
    }
    out
}

#[test]
fn test_authoring_meta_from_envelope() {
    let magic = rain_metadata::KnownMagic::AuthoringMetaV1;
    let envelope = authoring_envelope(
        magic,
        v2_payload(&[("some-word", "some-desc"), ("some-other-word", "some-other-desc")]),
    );
    let meta = authoring_meta_from_envelope(&envelope, magic as u64).unwrap();
    assert_eq!(meta.words.len(), 2);
    assert_eq!(meta.words[0].word, "some-word");
    assert_eq!(meta.words[0].description, "some-desc");
    assert_eq!(meta.words[1].word, "some-other-word");
    assert_eq!(meta.words[1].description, "some-other-desc");
}

#[test]
fn test_authoring_meta_from_envelope_rejects() {
    let magic = rain_metadata::KnownMagic::AuthoringMetaV1 as u64;
    // not a metadata envelope at all
    assert!(matches!(
        authoring_meta_from_envelope(&vec![1, 2, 3], magic),
        Err(EnvelopeError::MalformedEnvelope(_)),
    ));
    // a document with another magic number
    let envelope = authoring_envelope(
        rain_metadata::KnownMagic::OpMetaV1,
        v2_payload(&[("some-word", "some-desc")]),
    );
    assert!(matches!(
        authoring_meta_from_envelope(&envelope, magic),
        Err(EnvelopeError::NoAuthoringDocument),
    ));
    // the right magic over an undecodable payload
    let envelope = authoring_envelope(rain_metadata::KnownMagic::AuthoringMetaV1, vec![9, 9]);
    assert!(matches!(
        authoring_meta_from_envelope(&envelope, magic),
        Err(EnvelopeError::Payload(_)),
    ));
}
