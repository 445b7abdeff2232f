//! Durable identities: namespaces, determinism, and permutation stability.

use candlerunner::identity::{
    get_params_set_ns, get_place_order_settings_ns, get_position_manager_instance_ns,
    get_strategy_instance_ns, params_set_id,
};
use candlerunner::instruments::Figi;
use candlerunner::market_data::CandleResolution;
use candlerunner::params::ParamValue;
use candlerunner::position_manager::{
    PositionManagerInstanceDefinition, PositionManagerInstanceOptions,
};
use candlerunner::strategy::StrategyInstanceDefinition;

#[test]
fn namespaces_match_the_oid_derivation() {
    // Each namespace is the UUIDv5 of its tag under the standard OID
    // namespace, as the uuid crate computes it.
    assert_eq!(
        uuid::Uuid::from_u128(get_strategy_instance_ns()),
        uuid::Uuid::new_v5(&uuid::Uuid::NAMESPACE_OID, b"strategyInstanceId")
    );
    assert_eq!(
        uuid::Uuid::from_u128(get_place_order_settings_ns()),
        uuid::Uuid::new_v5(&uuid::Uuid::NAMESPACE_OID, b"placeOrderSettings")
    );
    assert_eq!(
        uuid::Uuid::from_u128(get_params_set_ns()),
        uuid::Uuid::new_v5(&uuid::Uuid::NAMESPACE_OID, b"paramsSet")
    );
    assert_eq!(
        uuid::Uuid::from_u128(get_position_manager_instance_ns()),
        uuid::Uuid::new_v5(&uuid::Uuid::NAMESPACE_OID, b"Position Manager Instance Id")
    );
}

fn sample_params() -> Vec<(String, ParamValue)> {
    vec![
        ("instrument".to_string(), ParamValue::Instrument(Figi("BBG000B9XRY4".to_string()))),
        ("lots".to_string(), ParamValue::Integer(41)),
        ("aggressive".to_string(), ParamValue::Boolean(true)),
        ("threshold".to_string(), ParamValue::Float((2.5f64).to_bits())),
    ]
}

#[test]
fn params_identity_ignores_iteration_order() {
    // Any permutation of the same parameter map hashes to the same identity.
    let forward = sample_params();
    let mut backward = sample_params();
    backward.reverse();
    assert_eq!(params_set_id(forward), params_set_id(backward));
}

#[test]
fn params_identity_distinguishes_values() {
    let a = sample_params();
    let mut b = sample_params();
    b[1].1 = ParamValue::Integer(42);
    assert_ne!(params_set_id(a), params_set_id(b));
}

fn sample_definition(params: Vec<(String, ParamValue)>) -> StrategyInstanceDefinition {
    StrategyInstanceDefinition::new(
        "BuyAndHold".to_string(),
        params,
        1_672_617_600,
        Some(1_672_628_400),
        CandleResolution::OneHour,
        None,
    )
}

#[test]
fn strategy_identity_is_deterministic_and_order_blind() {
    let one = sample_definition(sample_params());
    let mut shuffled = sample_params();
    shuffled.swap(0, 3);
    shuffled.swap(1, 2);
    let two = sample_definition(shuffled);
    assert_eq!(one.id(), two.id());
    assert_eq!(one.id(), one.id());

    let mut different = sample_definition(sample_params());
    different.time_from += 1;
    assert_ne!(one.id(), different.id());
}

#[test]
fn position_manager_identity_sorts_strategies() {
    let a = PositionManagerInstanceDefinition {
        position_manager_name: "QuorumManager".to_string(),
        strategies: vec![7, 3, 5],
        options: PositionManagerInstanceOptions::Backtest,
        params: sample_params(),
    };
    let b = PositionManagerInstanceDefinition {
        position_manager_name: "QuorumManager".to_string(),
        strategies: vec![3, 5, 7],
        options: PositionManagerInstanceOptions::Backtest,
        params: {
            let mut p = sample_params();
            p.reverse();
            p
        },
    };
    assert_eq!(a.id(), b.id());

    let c = PositionManagerInstanceDefinition {
        position_manager_name: "QuorumManager".to_string(),
        strategies: vec![3, 5, 8],
        options: PositionManagerInstanceOptions::Backtest,
        params: sample_params(),
    };
    assert_ne!(a.id(), c.id());
}
