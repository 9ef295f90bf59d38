use raincore::bytes32::Word256;
use raincore::fork::{classify_call_result, ForkCache, ForkKey, RevertPayload, SimulationOutcome};
use raincore::revert::{decode_revert, ArgKind, RevertDecodeError, SelectorRegistry};

fn key(endpoint: &str, block_number: u64) -> ForkKey {
    ForkKey { endpoint: endpoint.to_string(), block_number }
}

#[test]
fn test_fork_cache_reuses_instance() {
    // repeated acquisition of one key: one construction, one handle
    let mut cache = ForkCache::new();
    let k = key("https://example.com/rpc", 45122616);
    let (h1, built1) = cache.acquire(&k);
    let (h2, built2) = cache.acquire(&k);
    let (h3, _) = cache.acquire(&key("https://example.com/rpc", 45122616));
    assert!(built1);
    assert!(!built2);
    assert_eq!(h1, h2);
    assert_eq!(h1, h3);
    assert_eq!(cache.constructions(), 1);
}

#[test]
fn test_fork_cache_distinct_keys() {
    // another endpoint or block is another instance
    let mut cache = ForkCache::new();
    let (h1, _) = cache.acquire(&key("https://example.com/a", 1));
    let (h2, _) = cache.acquire(&key("https://example.com/b", 1));
    let (h3, _) = cache.acquire(&key("https://example.com/a", 2));
    assert_ne!(h1, h2);
    assert_ne!(h1, h3);
    assert_ne!(h2, h3);
    assert_eq!(cache.constructions(), 3);
}

fn known_registry() -> SelectorRegistry {
    let mut registry = SelectorRegistry::new();
    registry.register(
        0x01020304,
        "MissingFinalSemi".to_string(),
        vec![ArgKind::Uint256],
    );
    registry
}

#[test]
fn test_classify_returned_bytes() {
    let out = classify_call_result(false, vec![1, 2, 3], &known_registry());
    assert!(matches!(out, SimulationOutcome::Returned(b) if b == vec![1, 2, 3]));
}

#[test]
fn test_classify_reverted_known() {
    let mut data = vec![0x01, 0x02, 0x03, 0x04];
    data.extend_from_slice(Word256::from_u64(13).as_bytes());
    let out = classify_call_result(true, data, &known_registry());
    match out {
        SimulationOutcome::Reverted(RevertPayload::Decoded(e)) => {
            assert_eq!(e.name, "MissingFinalSemi");
            assert_eq!(e.sig, "MissingFinalSemi(uint256)");
            let expected_arg = format!("uint256 0x{}{}", "0".repeat(63), "d");
            assert_eq!(e.args, vec![expected_arg]);
        },
        _ => panic!("expected a decoded revert"),
    }
}

#[test]
fn test_classify_reverted_unknown_falls_back_to_raw() {
    let data = vec![0xff, 0xee, 0xdd, 0xcc, 0x01];
    let out = classify_call_result(true, data.clone(), &known_registry());
    assert!(matches!(
        out,
        SimulationOutcome::Reverted(RevertPayload::Raw(b)) if b == data
    ));
}

#[test]
fn test_decode_revert_too_short() {
    let r = decode_revert(&vec![1, 2], &known_registry());
    assert_eq!(r.unwrap_err(), RevertDecodeError::TooShort);
}

#[test]
fn test_decode_revert_unknown_selector() {
    let r = decode_revert(&vec![9, 9, 9, 9], &known_registry());
    assert_eq!(r.unwrap_err(), RevertDecodeError::UnknownSelector);
}

#[test]
fn test_decode_revert_malformed_arguments() {
    // known selector but a truncated argument word
    let mut data = vec![0x01, 0x02, 0x03, 0x04];
    data.extend_from_slice(&[0u8; 16]);
    let r = decode_revert(&data, &known_registry());
    assert_eq!(r.unwrap_err(), RevertDecodeError::MalformedArguments);
}

#[test]
fn test_decode_revert_multiple_args() {
    let mut registry = SelectorRegistry::new();
    registry.register(
        0x0a0b0c0d,
        "BadOpInputsLength".to_string(),
        vec![ArgKind::Uint256, ArgKind::Uint256, ArgKind::Uint256],
    );
    let mut data = vec![0x0a, 0x0b, 0x0c, 0x0d];
    data.extend_from_slice(Word256::from_u64(1).as_bytes());
    data.extend_from_slice(Word256::from_u64(2).as_bytes());
    data.extend_from_slice(Word256::from_u64(1).as_bytes());
    let e = decode_revert(&data, &registry).unwrap();
    assert_eq!(e.name, "BadOpInputsLength");
    assert_eq!(e.sig, "BadOpInputsLength(uint256,uint256,uint256)");
    assert_eq!(e.args.len(), 3);
}

#[test]
fn test_decode_revert_bool_and_address_args() {
    let mut registry = SelectorRegistry::new();
    registry.register(
        0x11223344,
        "Flagged".to_string(),
        vec![ArgKind::Bool, ArgKind::Address],
    );
    let mut data = vec![0x11, 0x22, 0x33, 0x44];
    data.extend_from_slice(Word256::from_u64(1).as_bytes());
    let mut addr_word = vec![0u8; 12];
    addr_word.extend_from_slice(&[0x22u8; 20]);
    data.extend_from_slice(&addr_word);
    let e = decode_revert(&data, &registry).unwrap();
    assert_eq!(e.sig, "Flagged(bool,address)");
    assert_eq!(e.args[0], "bool true");
    assert_eq!(e.args[1], format!("address 0x{}", "22".repeat(20)));
}
