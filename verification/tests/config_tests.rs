//! The configuration surface: typed lookups, error paths, and sub-scopes.

use candlerunner::account::{Account, AccountId, AccessLevel, AccountPositions, Environment};
use candlerunner::cache::{AccountsCachePeriodic, InstrumentCachePeriodic, PositionsCachePeriodic};
use candlerunner::config::{Config, ConfigError, ConfigValue};
use candlerunner::instruments::{from_share, Figi, Instrument, ShareFields, Ticker};

fn sample_config() -> Config {
    let periodic_scope = vec![
        ("update_period".to_string(), ConfigValue::Int(30)),
        ("max_chunks_per_instrument".to_string(), ConfigValue::Int(49)),
    ];
    Config::new(
        vec![
            ("url".to_string(), ConfigValue::Str("localhost:2000".to_string())),
            ("verbose".to_string(), ConfigValue::Bool(true)),
            ("ratio".to_string(), ConfigValue::RealBits(4_602_498_675_187_552_092)),
            ("retries".to_string(), ConfigValue::Int(-2)),
            ("market-data-sync".to_string(), ConfigValue::Scope(periodic_scope)),
        ],
        "#".to_string(),
    )
}

#[test]
fn typed_getters_return_their_values() {
    let config = sample_config();
    assert_eq!(config.get_str(&"url".to_string()).unwrap(), "localhost:2000");
    assert_eq!(config.get_bool(&"verbose".to_string()).unwrap(), true);
    assert_eq!(config.get_i64(&"retries".to_string()).unwrap(), -2);
    // The bit pattern of 0.5 survives untouched.
    assert_eq!(
        f64::from_bits(config.get_real_bits(&"ratio".to_string()).unwrap()),
        0.49,
    );
}

#[test]
fn missing_paths_are_not_found() {
    let config = sample_config();
    let err = config.get_str(&"address".to_string()).unwrap_err();
    match err {
        ConfigError::NotFound { path } => assert_eq!(path, "#/address"),
        _ => panic!("expected a missing path"),
    }
}

#[test]
fn type_mismatches_name_both_types() {
    let config = sample_config();
    let err = config.get_i64(&"url".to_string()).unwrap_err();
    match err {
        ConfigError::TypeMismatch { path, expected_ty, actual_ty } => {
            assert_eq!(path, "#/url");
            assert_eq!(expected_ty, "integer");
            assert_eq!(actual_ty, "string");
        }
        _ => panic!("expected a type mismatch"),
    }
}

#[test]
fn negative_integers_are_not_unsigned() {
    let config = sample_config();
    let err = config.get_u64(&"retries".to_string()).unwrap_err();
    assert!(matches!(err, ConfigError::TypeMismatch { .. }));
    let sub = sample_config().into_subconfig(&"market-data-sync".to_string()).unwrap();
    assert_eq!(sub.get_u64(&"update_period".to_string()).unwrap(), 30);
}

#[test]
fn subconfig_extends_the_path() {
    let sub = sample_config().into_subconfig(&"market-data-sync".to_string()).unwrap();
    let err = sub.get_i64(&"absent".to_string()).unwrap_err();
    match err {
        ConfigError::NotFound { path } => assert_eq!(path, "#/market-data-sync/absent"),
        _ => panic!("expected a missing path"),
    }
}

fn account(id: &str, name: &str) -> Account {
    Account {
        id: AccountId(id.to_string()),
        name: name.to_string(),
        access_level: AccessLevel::FullAccess,
        environment: Environment::Sandbox,
    }
}

#[test]
fn accounts_cache_replaces_on_success_and_keeps_on_failure() {
    let periodic = AccountsCachePeriodic::new();
    let prev = vec![account("a", "old")];
    let next = periodic.step(Some(vec![account("b", "one"), account("b", "two")]), prev);
    assert_eq!(next.len(), 1);
    assert_eq!(next[0].name, "two");

    let kept = periodic.step(None, next);
    assert_eq!(kept.len(), 1);
    assert_eq!(kept[0].id.0, "b");
}

#[test]
fn instrument_cache_keys_by_figi() {
    let periodic = InstrumentCachePeriodic::new();
    let list = vec![
        Instrument {
            figi: Figi("F1".to_string()),
            ticker: Ticker("AAA".to_string()),
            display_name: "first".to_string(),
        },
        Instrument {
            figi: Figi("F1".to_string()),
            ticker: Ticker("BBB".to_string()),
            display_name: "second".to_string(),
        },
    ];
    let cache = periodic.step(list);
    assert_eq!(cache.len(), 1);
    assert_eq!(cache[0].ticker.0, "BBB");
}

#[test]
fn positions_cache_falls_back() {
    let periodic = PositionsCachePeriodic::new();
    let empty = periodic.next_positions(None, None);
    assert!(empty.positions.is_empty() && empty.currencies.is_empty());

    let prev = AccountPositions {
        currencies: Vec::new(),
        positions: vec![candlerunner::account::Position {
            figi: Figi("F1".to_string()),
            lots: 4,
        }],
    };
    let kept = periodic.next_positions(None, Some(prev));
    assert_eq!(kept.positions.len(), 1);
}

#[test]
fn shares_convert_field_for_field() {
    let instrument = from_share(ShareFields {
        figi: "F9".to_string(),
        ticker: "ZZZ".to_string(),
        name: "Zenith".to_string(),
    });
    assert_eq!(instrument.figi.0, "F9");
    assert_eq!(instrument.ticker.0, "ZZZ");
    assert_eq!(instrument.display_name, "Zenith");
}
