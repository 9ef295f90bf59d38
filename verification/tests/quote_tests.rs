use raincore::address::Address;
use raincore::bytes32::Word256;
use raincore::quote::{
    build_quote_calls, decode_multicall_response, encode_aggregate3, encode_multicall_response,
    encode_quote_call, encode_quote_return, multi_quote, FailedQuote, QuoteTarget, SubResult,
};
use raincore::revert::SelectorRegistry;

fn target(orderbook: Address) -> QuoteTarget {
    QuoteTarget {
        orderbook,
        order_hash: Word256::from_u64(0),
        input_io_index: 0,
        output_io_index: 0,
        signed_context: Vec::new(),
    }
}

fn some_orderbook() -> Address {
    Address::from_bytes(vec![0x11u8; 20])
}

#[test]
fn test_multi_quote() {
    let quote_targets = vec![
        target(some_orderbook()),
        target(some_orderbook()),
        target(some_orderbook()),
    ];

    // build response data
    let response_data = encode_multicall_response(&vec![
        SubResult {
            success: true,
            return_data: encode_quote_return(
                true,
                &Word256::from_u64(1),
                &Word256::from_u64(2),
            ),
        },
        SubResult {
            success: true,
            return_data: encode_quote_return(
                false,
                &Word256::from_u64(0),
                &Word256::from_u64(0),
            ),
        },
        SubResult { success: false, return_data: vec![] },
    ]);

    let registry = SelectorRegistry::new();
    let result = multi_quote(&quote_targets, &response_data, &registry).unwrap();
    let mut iter_result = result.into_iter();

    let first = iter_result.next().unwrap().unwrap();
    assert_eq!(first.max_output.as_bytes(), Word256::from_u64(1).as_bytes());
    assert_eq!(first.ratio.as_bytes(), Word256::from_u64(2).as_bytes());
    assert!(matches!(
        iter_result.next().unwrap(),
        Result::Err(FailedQuote::NonExistent)
    ));
    assert!(matches!(
        iter_result.next().unwrap(),
        Result::Err(FailedQuote::RevertErrorDecodeFailed(_))
    ));
    assert!(iter_result.next().is_none());
}

#[test]
fn test_quote_value_outcome() {
    // success with exists = true yields the two price words
    let targets = vec![target(some_orderbook())];
    let response = encode_multicall_response(&vec![SubResult {
        success: true,
        return_data: encode_quote_return(true, &Word256::from_u64(1), &Word256::from_u64(2)),
    }]);
    let result = multi_quote(&targets, &response, &SelectorRegistry::new()).unwrap();
    assert_eq!(result.len(), 1);
    let q = result[0].as_ref().unwrap();
    assert_eq!(q.max_output.as_bytes(), Word256::from_u64(1).as_bytes());
    assert_eq!(q.ratio.as_bytes(), Word256::from_u64(2).as_bytes());
}

#[test]
fn test_quote_non_existent_outcome() {
    // success with exists = false yields NonExistent
    let targets = vec![target(some_orderbook())];
    let response = encode_multicall_response(&vec![SubResult {
        success: true,
        return_data: encode_quote_return(false, &Word256::from_u64(0), &Word256::from_u64(0)),
    }]);
    let result = multi_quote(&targets, &response, &SelectorRegistry::new()).unwrap();
    assert!(matches!(result[0], Err(FailedQuote::NonExistent)));
}

#[test]
fn test_quote_revert_decode_failed_outcome() {
    // a failed sub-call with undecodable bytes yields RevertErrorDecodeFailed
    let targets = vec![target(some_orderbook())];
    let response = encode_multicall_response(&vec![SubResult {
        success: false,
        return_data: vec![0xde, 0xad],
    }]);
    let result = multi_quote(&targets, &response, &SelectorRegistry::new()).unwrap();
    assert!(matches!(result[0], Err(FailedQuote::RevertErrorDecodeFailed(_))));
}

#[test]
fn test_quote_corrupt_return_data_outcome() {
    // success with bytes that are no quote tuple yields CorruptReturnData
    let targets = vec![target(some_orderbook())];
    let response = encode_multicall_response(&vec![SubResult {
        success: true,
        return_data: vec![1, 2, 3],
    }]);
    let result = multi_quote(&targets, &response, &SelectorRegistry::new()).unwrap();
    assert!(matches!(result[0], Err(FailedQuote::CorruptReturnData(_))));
}

#[test]
fn test_quote_revert_known_error() {
    // a failed sub-call whose selector the registry knows decodes
    let mut registry = SelectorRegistry::new();
    registry.register(
        0x01020304,
        "SomeError".to_string(),
        vec![raincore::revert::ArgKind::Uint256],
    );
    let mut data = vec![0x01, 0x02, 0x03, 0x04];
    data.extend_from_slice(Word256::from_u64(7).as_bytes());
    let targets = vec![target(some_orderbook())];
    let response =
        encode_multicall_response(&vec![SubResult { success: false, return_data: data }]);
    let result = multi_quote(&targets, &response, &registry).unwrap();
    match &result[0] {
        Err(FailedQuote::RevertError(e)) => {
            assert_eq!(e.name, "SomeError");
            assert_eq!(e.sig, "SomeError(uint256)");
            assert_eq!(e.args.len(), 1);
        },
        other => panic!("unexpected outcome: {:?}", other),
    }
}

#[test]
fn test_multi_quote_length_mismatch_fails_batch() {
    // one target but two sub-results: the whole batch is refused
    let targets = vec![target(some_orderbook())];
    let response = encode_multicall_response(&vec![
        SubResult { success: false, return_data: vec![] },
        SubResult { success: false, return_data: vec![] },
    ]);
    assert!(multi_quote(&targets, &response, &SelectorRegistry::new()).is_err());
}

#[test]
fn test_multi_quote_garbage_response_fails_batch() {
    let targets = vec![target(some_orderbook())];
    let response = vec![0u8; 7];
    assert!(multi_quote(&targets, &response, &SelectorRegistry::new()).is_err());
}

#[test]
fn test_multicall_response_round_trip() {
    let subs = vec![
        SubResult { success: true, return_data: vec![1, 2, 3, 4, 5] },
        SubResult { success: false, return_data: vec![] },
        SubResult { success: true, return_data: vec![0xaa; 32] },
    ];
    let bytes = encode_multicall_response(&subs);
    let decoded = decode_multicall_response(&bytes).unwrap();
    assert_eq!(decoded.len(), subs.len());
    for (a, b) in subs.iter().zip(decoded.iter()) {
        assert_eq!(a.success, b.success);
        assert_eq!(a.return_data, b.return_data);
    }
}

#[test]
fn test_aggregate_call_layout() {
    // one sub-call: selector, array offset, count, element offset, tail
    let t = target(some_orderbook());
    let calls = build_quote_calls(&vec![t]);
    assert_eq!(calls.len(), 1);
    assert!(calls[0].allow_failure);
    assert_eq!(calls[0].calldata, encode_quote_call(&target(some_orderbook())));
    let encoded = encode_aggregate3(&calls);
    // selector 0x82ad56cb
    assert_eq!(&encoded[0..4], &[0x82, 0xad, 0x56, 0xcb]);
    // array offset word
    assert_eq!(encoded[4 + 31], 0x20);
    // count word
    assert_eq!(encoded[4 + 63], 1);
    // the sub-call's address word: twelve zero bytes then the address
    assert_eq!(&encoded[4 + 96 + 12..4 + 96 + 32], some_orderbook().as_bytes().as_slice());
}

#[test]
fn test_quote_calldata_layout() {
    let t = QuoteTarget {
        orderbook: some_orderbook(),
        order_hash: Word256::from_u64(0xabcd),
        input_io_index: 3,
        output_io_index: 5,
        signed_context: vec![Word256::from_u64(9)],
    };
    let data = encode_quote_call(&t);
    // selector, hash word, two index words, context offset, length, one word
    assert_eq!(data.len(), 4 + 32 * 6);
    assert_eq!(&data[4..36], Word256::from_u64(0xabcd).as_bytes().as_slice());
    assert_eq!(data[4 + 63], 3);
    assert_eq!(data[4 + 95], 5);
    assert_eq!(data[4 + 127], 0x80);
    assert_eq!(data[4 + 159], 1);
    assert_eq!(&data[4 + 160..4 + 192], Word256::from_u64(9).as_bytes().as_slice());
}
