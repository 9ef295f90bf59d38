use raincore::address::Address;
use raincore::config::{ConfigSource, DeployerCfg, Network, ScenarioCfg, StrMap};
use raincore::dotrain_order::{get_front_matter, DotrainOrder, DotrainOrderError, WordsResult};
use raincore::meta::{AuthoringMetaItem, AuthoringMetaV2};

fn addr(s: &str) -> Address {
    raincore::order_quote::parse_hex_address(&s.to_string()).unwrap()
}

fn network(name: &str, rpc: &str, chain_id: u64) -> Network {
    Network { name: name.to_string(), rpc: rpc.to_string(), chain_id }
}

fn empty_source() -> ConfigSource {
    ConfigSource {
        networks: StrMap::new(),
        deployers: StrMap::new(),
        scenarios: StrMap::new(),
        metaboards: StrMap::new(),
        raindex_version: None,
    }
}

fn polygon_source(rpc: &str) -> ConfigSource {
    let mut source = empty_source();
    source.networks.insert("polygon".to_string(), network("polygon", rpc, 137));
    source.deployers.insert(
        "polygon".to_string(),
        DeployerCfg { address: addr("0x1234567890123456789012345678901234567890"), network: None },
    );
    source.scenarios.insert(
        "polygon".to_string(),
        ScenarioCfg { deployer: None, bindings: StrMap::new() },
    );
    source
}

fn sepolia_source(rpc: &str, deployer: &str, metaboard: Option<&str>) -> ConfigSource {
    let mut source = empty_source();
    source.networks.insert("sepolia".to_string(), network("sepolia", rpc, 0));
    source.deployers.insert(
        "sepolia".to_string(),
        DeployerCfg { address: addr(deployer), network: None },
    );
    source.scenarios.insert(
        "sepolia".to_string(),
        ScenarioCfg { deployer: None, bindings: StrMap::new() },
    );
    if let Some(m) = metaboard {
        source.metaboards.insert("sepolia".to_string(), m.to_string());
    }
    source
}

fn some_meta() -> AuthoringMetaV2 {
    AuthoringMetaV2 {
        words: vec![
            AuthoringMetaItem {
                word: "some-word".to_string(),
                description: "some-desc".to_string(),
            },
            AuthoringMetaItem {
                word: "some-other-word".to_string(),
                description: "some-other-desc".to_string(),
            },
        ],
    }
}

fn push_small_word(out: &mut Vec<u8>, v: u64) {
    out.extend_from_slice(&[0u8; 24]);
    out.extend_from_slice(&v.to_be_bytes());
}

fn pragma_response(addresses: &[Address]) -> Vec<u8> {
    let mut out = Vec::new();
    push_small_word(&mut out, 0x20);
    push_small_word(&mut out, addresses.len() as u64);
    for a in addresses {
        out.extend_from_slice(&[0u8; 12]);
        out.extend_from_slice(a.as_bytes());
    }
    out
}

#[test]
fn test_config_parse() {
    let rpc_url = "http://example.com/rpc";
    let dotrain = "\
networks:
    polygon:
        rpc: http://example.com/rpc
---
#calculate-io
_ _: 0 0;
#handle-io
:;"
        .to_string();
    let dotrain_order = DotrainOrder::new(dotrain, polygon_source(rpc_url), None).unwrap();
    assert_eq!(
        dotrain_order.config().networks.get(&"polygon".to_string()).unwrap().rpc,
        rpc_url,
    );
}

#[test]
fn test_rainlang_from_scenario() {
    let dotrain = "\
networks:
    polygon:
        rpc: http://example.com/rpc
---
#calculate-io
_ _: 0 0;
#handle-io
:;"
        .to_string();
    let dotrain_order =
        DotrainOrder::new(dotrain, polygon_source("http://example.com/rpc"), None).unwrap();
    let rainlang = dotrain_order.compose_scenario_to_rainlang("polygon".to_string()).unwrap();
    assert_eq!(
        rainlang,
        "/* 0. calculate-io */ \n_ _: 0 0;\n\n/* 1. handle-io */ \n:;",
    );
}

#[test]
fn test_rainlang_post_from_scenario() {
    let dotrain = "\
networks:
    polygon:
        rpc: http://example.com/rpc
---
#calculate-io
_ _: 0 0;
#handle-io
:;
#handle-add-order
_ _: 1 2;
"
        .to_string();
    let dotrain_order =
        DotrainOrder::new(dotrain, polygon_source("http://example.com/rpc"), None).unwrap();
    let rainlang =
        dotrain_order.compose_scenario_to_post_task_rainlang("polygon".to_string()).unwrap();
    assert_eq!(rainlang, "/* 0. handle-add-order */ \n_ _: 1 2;");
}

#[test]
fn test_config_merge() {
    let dotrain = "\
networks:
  polygon:
    rpc: http://example.com/rpc-polygon
---
#calculate-io
_ _: 00;

#handle-io
:;"
        .to_string();
    let mut frontmatter = empty_source();
    frontmatter
        .networks
        .insert("polygon".to_string(), network("polygon", "http://example.com/rpc-polygon", 137));
    let mut settings = empty_source();
    settings
        .networks
        .insert("mainnet".to_string(), network("mainnet", "http://example.com/rpc-mainnet", 1));
    let merged_dotrain_order = DotrainOrder::new(dotrain, frontmatter, Some(settings)).unwrap();
    assert_eq!(
        merged_dotrain_order.config().networks.get(&"mainnet".to_string()).unwrap().rpc,
        "http://example.com/rpc-mainnet",
    );
}

#[test]
fn test_get_pragmas_for_scenario() {
    let pragma_addresses = vec![addr("0xb06202aA3Fe7d85171fB7aA5f17011d17E63f382")];
    let source = sepolia_source(
        "http://example.com/rpc",
        "0x017F5651eB8fa4048BBc17433149c6c035d391A6",
        None,
    );
    let dotrain = "---\n#calculate-io\n_ _: 0 0;\n#handle-io\n:;".to_string();
    let dotrain_order = DotrainOrder::new(dotrain, source, None).unwrap();
    let response = pragma_response(&pragma_addresses);
    let pragmas = dotrain_order
        .get_pragmas_for_scenario(&"sepolia".to_string(), &response)
        .unwrap();
    assert_eq!(pragmas, pragma_addresses);
}

fn meta_payload(words: &[(&str, &str)]) -> Vec<u8> {
    // item array: offset, count, per-item offsets, then each tail
    let mut out = Vec::new();
    push_small_word(&mut out, 0x20);
    push_small_word(&mut out, words.len() as u64);
    let mut tails: Vec<Vec<u8>> = Vec::new();
    for (word, desc) in words {
        let mut tail = Vec::new();
        let mut name = word.as_bytes().to_vec();
        name.resize(32, 0);
        tail.extend_from_slice(&name);
        push_small_word(&mut tail, 0x40);
        push_small_word(&mut tail, desc.len() as u64);
        tail.extend_from_slice(desc.as_bytes());
        let pad = (32 - desc.len() % 32) % 32;
        tail.extend_from_slice(&vec![0u8; pad]);
        tails.push(tail);
    }
    let mut offset = 32 * words.len();
    for tail in &tails {
        push_small_word(&mut out, offset as u64);
        offset += tail.len();
    }
    for tail in &tails {
        out.extend_from_slice(tail);
    }
    out
}

#[test]
fn test_get_contract_authoring_meta_v2_for_scenario() {
    let source = sepolia_source(
        "http://example.com/rpc",
        "0x3131baC3E2Ec97b0ee93C74B16180b1e93FABd59",
        Some("http://example.com/sg"),
    );
    let dotrain = "---\n#calculate-io\n_ _: 0 0;\n#handle-io\n:;".to_string();
    let dotrain_order = DotrainOrder::new(dotrain, source, None).unwrap();
    let payload = meta_payload(&[("some-word", "some-desc"), ("some-other-word", "some-other-desc")]);
    let result = dotrain_order
        .get_contract_authoring_meta_v2_for_scenario(&"sepolia".to_string(), &payload)
        .unwrap();

    assert_eq!(&result.words[0].word, "some-word");
    assert_eq!(&result.words[0].description, "some-desc");

    assert_eq!(&result.words[1].word, "some-other-word");
    assert_eq!(&result.words[1].description, "some-other-desc");
}

#[test]
fn test_get_pragma_words_for_scenario() {
    let pragma_addresses = vec![addr("0xbc609623F5020f6Fc7481024862cD5EE3FFf52D7")];
    let source = sepolia_source(
        "http://example.com/rpc",
        "0x3131baC3E2Ec97b0ee93C74B16180b1e93FABd59",
        Some("http://example.com/sg"),
    );
    let dotrain = "---\n#calculate-io\n_ _: 0 0;\n#handle-io\n:;".to_string();
    let dotrain_order = DotrainOrder::new(dotrain, source, None).unwrap();
    let result = dotrain_order
        .get_pragma_words_for_scenario(
            &"sepolia".to_string(),
            pragma_addresses.clone(),
            vec![Ok(some_meta())],
        )
        .unwrap();

    assert!(result.len() == 1);
    assert_eq!(result[0].address, pragma_addresses[0]);
    assert!(matches!(result[0].words, WordsResult::Success(_)));
    if let WordsResult::Success(authoring_meta) = &result[0].words {
        assert_eq!(&authoring_meta.words[0].word, "some-word");
        assert_eq!(&authoring_meta.words[0].description, "some-desc");

        assert_eq!(&authoring_meta.words[1].word, "some-other-word");
        assert_eq!(&authoring_meta.words[1].description, "some-other-desc");
    }
}

#[test]
fn test_get_deployer_words_for_scenario() {
    let deployer = addr("0xF14E09601A47552De6aBd3A0B165607FaFd2B5Ba");
    let source = sepolia_source(
        "http://example.com/rpc",
        "0xF14E09601A47552De6aBd3A0B165607FaFd2B5Ba",
        Some("http://example.com/sg"),
    );
    let dotrain = "---\n#calculate-io\n_ _: 0 0;\n#handle-io\n:;".to_string();
    let dotrain_order = DotrainOrder::new(dotrain, source, None).unwrap();
    let result = dotrain_order
        .get_deployer_words_for_scenario(&"sepolia".to_string(), Ok(some_meta()))
        .unwrap();

    assert_eq!(result.address, deployer);
    assert!(matches!(result.words, WordsResult::Success(_)));
    if let WordsResult::Success(authoring_meta) = &result.words {
        assert_eq!(&authoring_meta.words[0].word, "some-word");
        assert_eq!(&authoring_meta.words[0].description, "some-desc");

        assert_eq!(&authoring_meta.words[1].word, "some-other-word");
        assert_eq!(&authoring_meta.words[1].description, "some-other-desc");
    }
}

#[test]
fn test_get_all_words_for_scenario() {
    let deployer = addr("0xF14E09601A47552De6aBd3A0B165607FaFd2B5Ba");
    let pragma_addresses = vec![addr("0xbc609623F5020f6Fc7481024862cD5EE3FFf52D7")];
    let source = sepolia_source(
        "http://example.com/rpc",
        "0xF14E09601A47552De6aBd3A0B165607FaFd2B5Ba",
        Some("http://example.com/sg"),
    );
    let dotrain = "---\n#calculate-io\n_ _: 0 0;\n#handle-io\n:;".to_string();
    let dotrain_order = DotrainOrder::new(dotrain, source, None).unwrap();
    let result = dotrain_order
        .get_all_words_for_scenario(
            &"sepolia".to_string(),
            pragma_addresses.clone(),
            vec![Ok(some_meta()), Ok(some_meta())],
        )
        .unwrap();

    assert_eq!(&result.scenario, "sepolia");

    assert_eq!(result.deployer_words.address, deployer);
    assert!(matches!(result.deployer_words.words, WordsResult::Success(_)));
    if let WordsResult::Success(authoring_meta) = &result.deployer_words.words {
        assert_eq!(&authoring_meta.words[0].word, "some-word");
        assert_eq!(&authoring_meta.words[0].description, "some-desc");

        assert_eq!(&authoring_meta.words[1].word, "some-other-word");
        assert_eq!(&authoring_meta.words[1].description, "some-other-desc");
    }

    assert!(result.pragma_words.len() == 1);
    assert_eq!(result.pragma_words[0].address, pragma_addresses[0]);
    assert!(matches!(result.pragma_words[0].words, WordsResult::Success(_)));
    if let WordsResult::Success(authoring_meta) = &result.pragma_words[0].words {
        assert_eq!(&authoring_meta.words[0].word, "some-word");
        assert_eq!(&authoring_meta.words[0].description, "some-desc");

        assert_eq!(&authoring_meta.words[1].word, "some-other-word");
        assert_eq!(&authoring_meta.words[1].description, "some-other-desc");
    }
}

#[test]
fn test_validate_raindex_version_happy() {
    let app_sha = "af36abc755106e72be7e0eb46bbbc6d4e865befc".to_string();
    let mut source = sepolia_source(
        "http://example.com/rpc",
        "0x3131baC3E2Ec97b0ee93C74B16180b1e93FABd59",
        None,
    );
    source.raindex_version = Some(app_sha.clone());
    let dotrain = "---\n#calculate-io\n_ _: 0 0;\n#handle-io\n:;".to_string();
    let dotrain_order = DotrainOrder::new(dotrain, source, None).unwrap();
    dotrain_order.validate_raindex_version(&app_sha).unwrap();
}

#[test]
fn test_validate_raindex_version_unhappy() {
    let mut source = sepolia_source(
        "http://example.com/rpc",
        "0x3131baC3E2Ec97b0ee93C74B16180b1e93FABd59",
        None,
    );
    source.raindex_version = Some("1234567890".to_string());
    let dotrain = "---\n#calculate-io\n_ _: 0 0;\n#handle-io\n:;".to_string();
    let dotrain_order = DotrainOrder::new(dotrain, source, None).unwrap();
    let app_sha = "af36abc755106e72be7e0eb46bbbc6d4e865befc".to_string();
    assert!(dotrain_order.validate_raindex_version(&app_sha).is_err());
}

#[test]
fn test_config_merge_override_wins() {
    let mut frontmatter = empty_source();
    frontmatter
        .networks
        .insert("shared".to_string(), network("shared", "http://example.com/base", 1));
    let mut settings = empty_source();
    settings
        .networks
        .insert("shared".to_string(), network("shared", "http://example.com/override", 1));
    let dotrain = "---\n#calculate-io\n_ _: 0 0;\n#handle-io\n:;".to_string();
    let order = DotrainOrder::new(dotrain, frontmatter, Some(settings)).unwrap();
    assert_eq!(
        order.config().networks.get(&"shared".to_string()).unwrap().rpc,
        "http://example.com/override",
    );
}

#[test]
fn test_new_rejects_unknown_deployer_network() {
    let mut source = empty_source();
    source.deployers.insert(
        "d".to_string(),
        DeployerCfg {
            address: addr("0x1234567890123456789012345678901234567890"),
            network: Some("missing".to_string()),
        },
    );
    let dotrain = "---\n#calculate-io\n_ _: 0 0;\n#handle-io\n:;".to_string();
    assert!(DotrainOrder::new(dotrain, source, None).is_err());
}

#[test]
fn test_compose_unknown_scenario() {
    let dotrain = "---\n#calculate-io\n_ _: 0 0;\n#handle-io\n:;".to_string();
    let order = DotrainOrder::new(dotrain, empty_source(), None).unwrap();
    assert!(order.compose_scenario_to_rainlang("missing".to_string()).is_err());
}

#[test]
fn test_metadata_failure_is_data_not_control_flow() {
    // one of two pragma fetches fails: the other keeps its words
    let addresses = vec![
        addr("0x1111111111111111111111111111111111111111"),
        addr("0x2222222222222222222222222222222222222222"),
    ];
    let source = sepolia_source(
        "http://example.com/rpc",
        "0x3131baC3E2Ec97b0ee93C74B16180b1e93FABd59",
        Some("http://example.com/sg"),
    );
    let dotrain = "---\n#calculate-io\n_ _: 0 0;\n#handle-io\n:;".to_string();
    let order = DotrainOrder::new(dotrain, source, None).unwrap();
    let result = order
        .get_pragma_words_for_scenario(
            &"sepolia".to_string(),
            addresses.clone(),
            vec![Err("fetch failed".to_string()), Ok(some_meta())],
        )
        .unwrap();
    assert_eq!(result.len(), 2);
    assert_eq!(result[0].address, addresses[0]);
    assert!(matches!(&result[0].words, WordsResult::Error(m) if m == "fetch failed"));
    assert_eq!(result[1].address, addresses[1]);
    assert!(matches!(result[1].words, WordsResult::Success(_)));
}

#[test]
fn test_get_all_scenarios_all_words() {
    let source = sepolia_source(
        "http://example.com/rpc",
        "0xF14E09601A47552De6aBd3A0B165607FaFd2B5Ba",
        Some("http://example.com/sg"),
    );
    let dotrain = "---\n#calculate-io\n_ _: 0 0;\n#handle-io\n:;".to_string();
    let order = DotrainOrder::new(dotrain, source, None).unwrap();
    let pragma = addr("0xbc609623F5020f6Fc7481024862cD5EE3FFf52D7");
    let all = order
        .get_all_scenarios_all_words(vec![(
            vec![pragma.clone()],
            vec![Ok(some_meta()), Err("gone".to_string())],
        )])
        .unwrap();
    assert_eq!(all.len(), 1);
    assert_eq!(&all[0].scenario, "sepolia");
    assert!(matches!(all[0].deployer_words.words, WordsResult::Success(_)));
    assert_eq!(all[0].pragma_words.len(), 1);
    assert_eq!(all[0].pragma_words[0].address, pragma);
    assert!(matches!(&all[0].pragma_words[0].words, WordsResult::Error(m) if m == "gone"));
}

#[test]
fn test_metaboard_not_found() {
    let source = sepolia_source(
        "http://example.com/rpc",
        "0x3131baC3E2Ec97b0ee93C74B16180b1e93FABd59",
        None,
    );
    let dotrain = "---\n#calculate-io\n_ _: 0 0;\n#handle-io\n:;".to_string();
    let order = DotrainOrder::new(dotrain, source, None).unwrap();
    let payload = meta_payload(&[("some-word", "some-desc")]);
    let err = order
        .get_contract_authoring_meta_v2_for_scenario(&"sepolia".to_string(), &payload)
        .unwrap_err();
    assert!(matches!(err, DotrainOrderError::MetaboardNotFound(n) if n == "sepolia"));
}

#[test]
fn test_pragma_decode_failed() {
    let source = sepolia_source(
        "http://example.com/rpc",
        "0x3131baC3E2Ec97b0ee93C74B16180b1e93FABd59",
        None,
    );
    let dotrain = "---\n#calculate-io\n_ _: 0 0;\n#handle-io\n:;".to_string();
    let order = DotrainOrder::new(dotrain, source, None).unwrap();
    let err = order
        .get_pragmas_for_scenario(&"sepolia".to_string(), &vec![1, 2, 3])
        .unwrap_err();
    assert!(matches!(err, DotrainOrderError::PragmaDecodeFailed));
}

#[test]
fn test_missing_raindex_version() {
    let source = sepolia_source(
        "http://example.com/rpc",
        "0x3131baC3E2Ec97b0ee93C74B16180b1e93FABd59",
        None,
    );
    let dotrain = "---\n#calculate-io\n_ _: 0 0;\n#handle-io\n:;".to_string();
    let order = DotrainOrder::new(dotrain, source, None).unwrap();
    let err = order
        .validate_raindex_version(&"af36abc".to_string())
        .unwrap_err();
    assert!(matches!(err, DotrainOrderError::MissingRaindexVersion(m) if m == "af36abc"));
}

#[test]
fn test_new_rejects_unknown_scenario_deployer() {
    let mut source = empty_source();
    source.scenarios.insert(
        "s".to_string(),
        ScenarioCfg { deployer: Some("missing".to_string()), bindings: StrMap::new() },
    );
    let dotrain = "---\n#calculate-io\n_ _: 0 0;\n#handle-io\n:;".to_string();
    let r = DotrainOrder::new(dotrain, source, None);
    assert!(matches!(
        r,
        Err(DotrainOrderError::ParseConfigSourceError(
            raincore::config::ParseConfigError::DeployerNotFound(_),
        ))
    ));
}

#[test]
fn test_compose_rejects_non_ascii_document() {
    // a non-breaking space inside an expression is not ASCII: the library
    // refuses the document instead of handing it to the composer
    let dotrain = "---\n#calculate-io\n_:\u{a0}1;\n#handle-io\n:;".to_string();
    let order = DotrainOrder::new(dotrain, polygon_source("http://example.com/rpc"), None)
        .unwrap();
    let r = order.compose_scenario_to_rainlang("polygon".to_string());
    assert!(matches!(r, Err(DotrainOrderError::NonAsciiContent)));
}

#[test]
fn test_compose_rejects_non_ascii_binding() {
    let mut source = polygon_source("http://example.com/rpc");
    let mut bindings = StrMap::new();
    bindings.insert("amount".to_string(), "\u{a0}1".to_string());
    source.scenarios.insert(
        "polygon".to_string(),
        ScenarioCfg { deployer: None, bindings },
    );
    let dotrain = "---\n#calculate-io\n_ _: 0 0;\n#handle-io\n:;".to_string();
    let order = DotrainOrder::new(dotrain, source, None).unwrap();
    let r = order.compose_scenario_to_rainlang("polygon".to_string());
    assert!(matches!(r, Err(DotrainOrderError::NonAsciiContent)));
}

#[test]
fn test_get_front_matter() {
    assert_eq!(
        get_front_matter("networks:\n    polygon:\n---\n#calculate-io\n:;"),
        Some("networks:\n    polygon:\n".to_string()),
    );
    // the first separator wins
    assert_eq!(get_front_matter("a---b---c"), Some("a".to_string()));
    assert_eq!(get_front_matter("---\n#x\n:;"), Some("".to_string()));
    assert_eq!(get_front_matter("#x\n:;"), None);
    assert_eq!(get_front_matter(""), None);
}
