//! The strategy pipeline: parameter validation, the registry, the runner's
//! tick, the caches, and the position-manager join.

use candlerunner::cache::{position_manager_cache_step, strategy_cache_step, CacheCounts};
use candlerunner::instruments::Figi;
use candlerunner::market_data::{Candle, CandleResolution};
use candlerunner::params::{ParamDefinition, ParamError, ParamType, ParamValidator, ParamValue};
use candlerunner::pm_runner::{
    filter_context_window, join_contexts, plan_pm_tick, pm_new_cursor, PmTickPlan,
};
use candlerunner::account::{AccessLevel, Account, AccountId, Environment};
use candlerunner::position_manager::{
    InstantiatePositionManagerError, PositionManagerExecutionState,
    PositionManagerInstanceDefinition, PositionManagerInstanceOptions, PositionManagerRegistry,
};
use candlerunner::runner::{exec_strategy, init_execution, window_end};
use candlerunner::service::{close_sandbox_decision, ServiceError};
use candlerunner::strategy::{
    InstantiateStrategyError, StrategyExecution, StrategyExecutionStatus,
    StrategyInstanceDefinition, StrategyRegistry, StrategyState, FIXED_POINT_ONE,
};

fn figi() -> Figi {
    Figi("BBG000B9XRY4".to_string())
}

fn instrument_params() -> Vec<(String, ParamValue)> {
    vec![("instrument".to_string(), ParamValue::Instrument(figi()))]
}

fn buy_and_hold_definition(params: Vec<(String, ParamValue)>) -> StrategyInstanceDefinition {
    StrategyInstanceDefinition::new(
        "BuyAndHold".to_string(),
        params,
        1_672_617_600,
        Some(1_672_628_400),
        CandleResolution::OneHour,
        None,
    )
}

fn declared() -> Vec<ParamDefinition> {
    vec![ParamDefinition::new(
        "instrument".to_string(),
        "Instrument to buy".to_string(),
        ParamType::Instrument,
        None,
    )]
}

#[test]
fn validator_accepts_a_fitting_set() {
    let validator = ParamValidator::new();
    let known = vec![figi()];
    assert!(validator.validate(&declared(), &instrument_params(), &known).is_ok());
}

#[test]
fn validator_rejects_undeclared_names() {
    let validator = ParamValidator::new();
    let mut params = instrument_params();
    params.push(("extra".to_string(), ParamValue::Boolean(true)));
    let err = validator.validate(&declared(), &params, &vec![figi()]).unwrap_err();
    assert!(matches!(err, ParamError::InvalidParam(n) if n == "extra"));
}

#[test]
fn validator_reports_missing_and_mistyped() {
    let validator = ParamValidator::new();
    let err = validator.validate(&declared(), &Vec::new(), &vec![figi()]).unwrap_err();
    assert!(matches!(err, ParamError::ParamMissing(n) if n == "instrument"));

    let bad = vec![("instrument".to_string(), ParamValue::Integer(3))];
    let err = validator.validate(&declared(), &bad, &vec![figi()]).unwrap_err();
    assert!(matches!(err, ParamError::ParamTypeMismatch(n) if n == "instrument"));
}

#[test]
fn validator_rejects_unknown_instruments() {
    let validator = ParamValidator::new();
    let err = validator.validate(&declared(), &instrument_params(), &Vec::new()).unwrap_err();
    assert!(matches!(err, ParamError::UnknownInstrument(n, f)
        if n == "instrument" && f == "BBG000B9XRY4"));
}

#[test]
fn registry_builds_and_rejects() {
    let registry = StrategyRegistry::new();
    let def = buy_and_hold_definition(instrument_params());
    assert!(registry.validate_instance_definition(&def, &vec![figi()]).is_ok());
    assert!(registry.instantiate_strategy(&def).is_ok());

    let unknown = StrategyInstanceDefinition::new(
        "MeanReversion".to_string(),
        instrument_params(),
        0,
        None,
        CandleResolution::OneDay,
        None,
    );
    let err = registry.instantiate_strategy(&unknown).unwrap_err();
    assert!(matches!(err, InstantiateStrategyError::NotFound(n) if n == "MeanReversion"));
}

#[test]
fn service_error_of_instantiate_error() {
    let not_found = ServiceError::of_instantiate_error(InstantiateStrategyError::NotFound(
        "MeanReversion".to_string(),
    ));
    assert!(matches!(not_found, ServiceError::NotFound(_)));
    let bad = ServiceError::of_instantiate_error(
        InstantiateStrategyError::ParamValidationFailed(ParamError::ParamMissing(
            "instrument".to_string(),
        )),
    );
    assert!(matches!(bad, ServiceError::BadRequest(_)));
}

fn pack_at(price: i64) -> Vec<(Figi, Candle)> {
    vec![(figi(), Candle { open: price, high: price, low: price, close: price, volume: 1 })]
}

#[test]
fn runner_finishes_a_bounded_window() {
    // Three hourly packs, a window bounded at the third tick: three contexts
    // with the constant signal, a finished record at the last tick.
    let registry = StrategyRegistry::new();
    let def = buy_and_hold_definition(instrument_params());
    let strategy = registry.instantiate_strategy(&def).unwrap();
    let t0: i64 = 1_672_617_600;
    let packs = vec![
        (t0, pack_at(10_000_000)),
        (t0 + 3600, pack_at(11_000_000)),
        (t0 + 7200, pack_at(12_000_000)),
    ];
    let mut execution = StrategyExecution::new(StrategyExecutionStatus::Running, t0);
    let contexts = exec_strategy(
        &strategy,
        &mut execution,
        Some(t0 + 7200),
        StrategyState::new(),
        &packs,
    );
    assert_eq!(contexts.len(), 3);
    assert_eq!(contexts[0].0, t0);
    assert_eq!(contexts[2].0, t0 + 7200);
    for (_, state) in &contexts {
        assert_eq!(state.signal(&figi()), Some(FIXED_POINT_ONE));
    }
    assert_eq!(execution.status(), StrategyExecutionStatus::Finished);
    assert_eq!(execution.last_execution_timestamp(), t0 + 7200);
}

#[test]
fn runner_skips_terminal_strategies() {
    // A failed strategy is left untouched: the cursor is frozen.
    let registry = StrategyRegistry::new();
    let def = buy_and_hold_definition(instrument_params());
    let strategy = registry.instantiate_strategy(&def).unwrap();
    let mut execution = StrategyExecution::new(StrategyExecutionStatus::Failed, 500);
    let contexts = exec_strategy(
        &strategy,
        &mut execution,
        None,
        StrategyState::new(),
        &vec![(600i64, pack_at(1))],
    );
    assert!(contexts.is_empty());
    assert_eq!(execution.status(), StrategyExecutionStatus::Failed);
    assert_eq!(execution.last_execution_timestamp(), 500);
}

#[test]
fn runner_cursor_never_decreases() {
    // Packs aligned below the cursor do not move it back.
    let registry = StrategyRegistry::new();
    let def = buy_and_hold_definition(instrument_params());
    let strategy = registry.instantiate_strategy(&def).unwrap();
    let mut execution = StrategyExecution::new(StrategyExecutionStatus::Running, 7200);
    let _ = exec_strategy(
        &strategy,
        &mut execution,
        None,
        StrategyState::new(),
        &vec![(3600i64, pack_at(1))],
    );
    assert!(execution.last_execution_timestamp() >= 7200);
}

#[test]
fn strategy_cache_reuses_and_counts() {
    let registry = StrategyRegistry::new();
    let def = buy_and_hold_definition(instrument_params());
    let id = def.id();
    let (state, counts) = strategy_cache_step(Vec::new(), vec![(id, def)], &registry);
    assert_eq!(state.len(), 1);
    let CacheCounts { inserted, removed, failed } = counts;
    assert_eq!((inserted, removed, failed), (1, 0, 0));

    // The same definition again: the instance is reused, nothing inserted.
    let def2 = buy_and_hold_definition(instrument_params());
    let (state2, counts2) = strategy_cache_step(state, vec![(id, def2)], &registry);
    assert_eq!(state2.len(), 1);
    assert_eq!((counts2.inserted, counts2.removed, counts2.failed), (0, 0, 0));

    // An empty definition list drops everything.
    let (state3, counts3) = strategy_cache_step(state2, Vec::new(), &registry);
    assert!(state3.is_empty());
    assert_eq!((counts3.inserted, counts3.removed, counts3.failed), (0, 1, 0));
}

#[test]
fn strategy_cache_counts_failures() {
    let registry = StrategyRegistry::new();
    let def = StrategyInstanceDefinition::new(
        "MeanReversion".to_string(),
        instrument_params(),
        0,
        None,
        CandleResolution::OneDay,
        None,
    );
    let id = def.id();
    let (state, counts) = strategy_cache_step(Vec::new(), vec![(id, def)], &registry);
    assert!(state.is_empty());
    assert_eq!((counts.inserted, counts.removed, counts.failed), (0, 0, 1));
}

fn pm_definition(strategies: Vec<u128>, options: PositionManagerInstanceOptions)
    -> PositionManagerInstanceDefinition {
    PositionManagerInstanceDefinition {
        position_manager_name: "QuorumManager".to_string(),
        strategies,
        options,
        params: Vec::new(),
    }
}

#[test]
fn pm_cache_instantiates_quorum_managers() {
    let registry = PositionManagerRegistry::new();
    let def = pm_definition(vec![1], PositionManagerInstanceOptions::Backtest);
    let id = def.id();
    let (state, counts) = position_manager_cache_step(Vec::new(), vec![(id, def)], &registry);
    assert_eq!(state.len(), 1);
    assert_eq!(counts.inserted, 1);
}

#[test]
fn pm_plan_skips_backtests_and_missing_cursors() {
    let state = PositionManagerExecutionState::new(0);
    let backtest = plan_pm_tick(
        &PositionManagerInstanceOptions::Backtest,
        &state,
        &vec![Some(10)],
        1_000,
        100,
    );
    assert!(matches!(backtest, PmTickPlan::SkipBacktest));

    let realtime = PositionManagerInstanceOptions::Realtime {
        account_id: candlerunner::account::AccountId("acct".to_string()),
    };
    let missing = plan_pm_tick(&realtime, &state, &vec![Some(10), None], 1_000, 100);
    assert!(matches!(missing, PmTickPlan::SkipMissingStrategy));

    let run = plan_pm_tick(&realtime, &state, &vec![Some(40), Some(25)], 1_000, 100);
    match run {
        PmTickPlan::Run { time_from, time_to } => {
            // The window starts at the age bound, which is ahead of the
            // cursor, and ends at the smaller strategy cursor.
            assert_eq!(time_from, 900);
            assert_eq!(time_to, 25);
        }
        _ => panic!("expected a run"),
    }
}

#[test]
fn pm_cursor_moves_only_forward() {
    let state = PositionManagerExecutionState::new(50);
    assert_eq!(pm_new_cursor(80, &state).cursor(), 80);
    assert_eq!(pm_new_cursor(20, &state).cursor(), 50);
}

fn ctx() -> StrategyState {
    StrategyState::new()
}

#[test]
fn pm_join_buckets_hold_both_strategies() {
    // Contexts at {t1, t2, t3} and {t2, t3, t4}; the window is (t1, t3]:
    // buckets at t2 and t3 only, each with both strategies.
    let (t1, t2, t3, t4) = (100i64, 200i64, 300i64, 400i64);
    let tl_a = vec![(t1, ctx()), (t2, ctx()), (t3, ctx())];
    let tl_b = vec![(t2, ctx()), (t3, ctx()), (t4, ctx())];
    let fa = filter_context_window(tl_a, t1, t3);
    let fb = filter_context_window(tl_b, t1, t3);
    let buckets = join_contexts(vec![(11u128, fa), (22u128, fb)]);
    assert_eq!(buckets.len(), 2);
    assert_eq!(buckets[0].0, t2);
    assert_eq!(buckets[1].0, t3);
    for (_, bucket) in &buckets {
        let ids: Vec<u128> = bucket.iter().map(|(id, _)| *id).collect();
        assert_eq!(ids, vec![11, 22]);
    }
}


#[test]
fn registry_validation_reports_parameter_errors() {
    let registry = StrategyRegistry::new();
    let def = buy_and_hold_definition(Vec::new());
    let err = registry.validate_instance_definition(&def, &vec![figi()]).unwrap_err();
    assert!(matches!(
        err,
        InstantiateStrategyError::ParamValidationFailed(ParamError::ParamMissing(_))
    ));
}

#[test]
fn pm_registry_validates_names_and_strategies() {
    let registry = PositionManagerRegistry::new();

    let mut def = pm_definition(vec![5, 9], PositionManagerInstanceOptions::Backtest);
    let err = registry
        .validate_instance_definition(&def, &vec![5], &Vec::new())
        .unwrap_err();
    assert!(matches!(err, InstantiatePositionManagerError::UnknownStrategy(9)));

    def.position_manager_name = "VetoManager".to_string();
    let err = registry
        .validate_instance_definition(&def, &vec![5, 9], &Vec::new())
        .unwrap_err();
    assert!(matches!(err, InstantiatePositionManagerError::NotFound(n) if n == "VetoManager"));

    def.position_manager_name = "QuorumManager".to_string();
    // The quorum manager declares two real-valued thresholds.
    def.params = vec![
        ("Buy Threshold".to_string(), ParamValue::Float((1.5f64).to_bits())),
        ("Sell Threshold".to_string(), ParamValue::Float((-1.5f64).to_bits())),
    ];
    assert!(registry.validate_instance_definition(&def, &vec![5, 9], &Vec::new()).is_ok());
}

#[test]
fn sandbox_close_decision() {
    let sandbox = Account {
        id: AccountId("s".to_string()),
        name: "sandbox".to_string(),
        access_level: AccessLevel::FullAccess,
        environment: Environment::Sandbox,
    };
    let production = Account {
        id: AccountId("p".to_string()),
        name: "production".to_string(),
        access_level: AccessLevel::FullAccess,
        environment: Environment::Production,
    };
    assert!(close_sandbox_decision(Some(&sandbox)).is_ok());
    assert!(matches!(close_sandbox_decision(Some(&production)), Err(ServiceError::BadRequest(_))));
    assert!(matches!(close_sandbox_decision(None), Err(ServiceError::NotFound(_))));
}

#[test]
fn cursor_is_monotone_across_ticks() {
    // Two consecutive ticks: the persisted cursor never decreases.
    let registry = StrategyRegistry::new();
    let def = buy_and_hold_definition(instrument_params());
    let strategy = registry.instantiate_strategy(&def).unwrap();
    let mut execution = StrategyExecution::new(StrategyExecutionStatus::Running, 0);
    let mut last = execution.last_execution_timestamp();
    for packs in [
        vec![(3600i64, pack_at(1)), (7200i64, pack_at(2))],
        vec![(7200i64, pack_at(3))],
    ] {
        let _ = exec_strategy(&strategy, &mut execution, None, StrategyState::new(), &packs);
        assert!(execution.last_execution_timestamp() >= last);
        last = execution.last_execution_timestamp();
    }
}


#[test]
fn init_execution_resumes_from_durable_contexts() {
    // Never run: a fresh running record at the window start, default state.
    let (fresh, state) = init_execution(None, 1_000, Vec::new());
    assert_eq!(fresh.status(), StrategyExecutionStatus::Running);
    assert_eq!(fresh.last_execution_timestamp(), 1_000);
    assert!(state.signals.is_empty());

    // A stored record with a fresher durable context: the cursor catches up
    // and the state resumes from that context.
    let mut resumed_state = StrategyState::new();
    resumed_state.set_signal(figi(), FIXED_POINT_ONE);
    let stored = StrategyExecution::new(StrategyExecutionStatus::Running, 2_000);
    let (record, state) = init_execution(
        Some(stored),
        1_000,
        vec![(1_500, StrategyState::new()), (2_500, resumed_state)],
    );
    assert_eq!(record.last_execution_timestamp(), 2_500);
    assert_eq!(state.signal(&figi()), Some(FIXED_POINT_ONE));

    assert_eq!(window_end(Some(42), 99), 42);
    assert_eq!(window_end(None, 99), 99);
}
