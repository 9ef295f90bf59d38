use raincore::address::Address;
use raincore::cli::{flat_words, Input, Source, Words, WordsError};
use raincore::config::{Config, Deployer, Network, StrMap};
use raincore::meta::{AuthoringMetaItem, AuthoringMetaV2};

fn words_args(deployer: Option<&str>, scenario: Option<&str>) -> Words {
    Words {
        input: Input {
            dotrain_file: Some("./strategy.rain".to_string()),
            settings_file: None,
        },
        source: Source {
            deployer: deployer.map(|s| s.to_string()),
            scenario: scenario.map(|s| s.to_string()),
        },
        pragma_only: false,
        deployer_only: false,
        metaboard_subgraph: None,
        output: None,
        stdout: true,
    }
}

#[test]
fn verify_command1() {
    let words = words_args(Some("some-deployer"), None);
    assert!(words.validate());
}

#[test]
fn test_words_source_rules() {
    // both or neither source: refused
    assert!(!words_args(Some("d"), Some("s")).validate());
    assert!(!words_args(None, None).validate());
    // the per-scenario flags demand a scenario
    let mut w = words_args(Some("d"), None);
    w.pragma_only = true;
    assert!(!w.validate());
    let mut w = words_args(None, Some("s"));
    w.pragma_only = true;
    assert!(w.validate());
    w.deployer_only = true;
    assert!(!w.validate());
    // a scenario demands the strategy document
    let mut w = words_args(None, Some("s"));
    w.input.dotrain_file = None;
    w.input.settings_file = Some("./settings.yml".to_string());
    assert!(!w.validate());
}

fn config_with_deployer(metaboard: Option<&str>) -> Config {
    let network = Network {
        name: "some-network".to_string(),
        rpc: "http://example.com/rpc".to_string(),
        chain_id: 123,
    };
    let mut deployers: StrMap<Deployer> = StrMap::new();
    deployers.insert(
        "some-deployer".to_string(),
        Deployer {
            address: Address::from_bytes(vec![0x0fu8; 20]),
            network: network.clone(),
        },
    );
    let mut networks: StrMap<Network> = StrMap::new();
    networks.insert("some-network".to_string(), network);
    let mut metaboards: StrMap<String> = StrMap::new();
    if let Some(m) = metaboard {
        metaboards.insert("some-network".to_string(), m.to_string());
    }
    Config {
        networks,
        deployers,
        scenarios: StrMap::new(),
        metaboards,
        raindex_version: None,
    }
}

#[test]
fn test_metaboard_override_wins_for_deployer() {
    let mut w = words_args(Some("some-deployer"), None);
    w.metaboard_subgraph = Some("http://example.com/override".to_string());
    let config = config_with_deployer(Some("http://example.com/sg"));
    let url = w.metaboard_for_deployer(&config, &"some-deployer".to_string()).unwrap();
    assert_eq!(url, "http://example.com/override");
}

#[test]
fn test_metaboard_config_fallback_for_deployer() {
    let w = words_args(Some("some-deployer"), None);
    let config = config_with_deployer(Some("http://example.com/sg"));
    let url = w.metaboard_for_deployer(&config, &"some-deployer".to_string()).unwrap();
    assert_eq!(url, "http://example.com/sg");
}

#[test]
fn test_metaboard_missing_for_deployer() {
    let w = words_args(Some("some-deployer"), None);
    let config = config_with_deployer(None);
    let r = w.metaboard_for_deployer(&config, &"some-deployer".to_string());
    assert_eq!(r.unwrap_err(), WordsError::UndefinedMetaboard);
}

#[test]
fn test_metaboard_undefined_deployer() {
    let w = words_args(Some("other"), None);
    let config = config_with_deployer(Some("http://example.com/sg"));
    let r = w.metaboard_for_deployer(&config, &"other".to_string());
    assert_eq!(r.unwrap_err(), WordsError::UndefinedDeployer);
}

#[test]
fn test_flat_words_joins_in_order() {
    let a = AuthoringMetaV2 {
        words: vec![AuthoringMetaItem {
            word: "first".to_string(),
            description: "one".to_string(),
        }],
    };
    let b = AuthoringMetaV2 {
        words: vec![
            AuthoringMetaItem { word: "second".to_string(), description: "two".to_string() },
            AuthoringMetaItem { word: "third".to_string(), description: "three".to_string() },
        ],
    };
    let joined = flat_words(vec![a, b]);
    let names: Vec<&str> = joined.iter().map(|w| w.word.as_str()).collect();
    assert_eq!(names, vec!["first", "second", "third"]);
}

#[test]
fn test_apply_override_unknown_scenario() {
    let mut w = words_args(None, Some("missing"));
    w.metaboard_subgraph = Some("http://example.com/override".to_string());
    let source = raincore::config::ConfigSource {
        networks: StrMap::new(),
        deployers: StrMap::new(),
        scenarios: StrMap::new(),
        metaboards: StrMap::new(),
        raindex_version: None,
    };
    let mut order =
        raincore::dotrain_order::DotrainOrder::new("---\n#a\n:;".to_string(), source, None)
            .unwrap();
    let r = w.apply_metaboard_override(&mut order, &"missing".to_string());
    assert_eq!(r.unwrap_err(), WordsError::UndefinedScenario);
}
