//! The strategy model: durable instance definitions, per-tick state with
//! signals and opaque indicator blobs, the execution record's status machine,
//! and the built-in buy-and-hold strategy with its factory and registry.

use vstd::prelude::*;

use crate::account::AccountId;
use crate::instruments::Figi;
use crate::market_data::{Candle, CandleResolution};
use crate::params::{
    params_find, params_lookup, ParamDefinition, ParamError, ParamType, ParamValidator, ParamValue,
};

verus! {

/// The fixed-point representation of the real number one, the scale signal
/// values are held in.
pub const FIXED_POINT_ONE: i64 = 1000000;

/// Where a strategy's execution stands.
#[derive(Clone, Copy, PartialEq, Eq, Structural, Debug)]
pub enum StrategyExecutionStatus {
    Running,
    Finished,
    Failed,
}

/// Why one strategy tick failed.
#[derive(Clone, Copy, PartialEq, Eq, Structural, Debug)]
pub enum StrategyExecutionError {
    /// Retryable: the cursor stays, the next tick tries again.
    ExecutionFailure,
    /// Terminal: the strategy moves to `Failed`.
    CriticalFailure,
}

/// The durable execution record: status and the cursor the runner resumes
/// from.
#[derive(Clone, Copy, PartialEq, Eq, Structural)]
pub struct StrategyExecution {
    pub status: StrategyExecutionStatus,
    pub last_execution_timestamp: i64,
}

impl StrategyExecution {
    pub fn new(status: StrategyExecutionStatus, last_execution_time: i64) -> (r: Self)
        ensures
            r.status == status,
            r.last_execution_timestamp == last_execution_time,
    {
        StrategyExecution { status, last_execution_timestamp: last_execution_time }
    }

    pub fn status(&self) -> (r: StrategyExecutionStatus)
        ensures
            r == self.status,
    {
        self.status
    }

    pub fn last_execution_timestamp(&self) -> (r: i64)
        ensures
            r == self.last_execution_timestamp,
    {
        self.last_execution_timestamp
    }

    pub fn set_status(&mut self, status: StrategyExecutionStatus)
        ensures
            final(self).status == status,
            final(self).last_execution_timestamp == old(self).last_execution_timestamp,
    {
        self.status = status;
    }

    pub fn set_last_execution_timestamp(&mut self, last_execution_timestamp: i64)
        ensures
            final(self).status == old(self).status,
            final(self).last_execution_timestamp == last_execution_timestamp,
    {
        self.last_execution_timestamp = last_execution_timestamp;
    }
}

/// The abstract value of a per-tick state: signals keyed by instrument
/// text, indicator blobs keyed by indicator id.
pub struct StrategyStateView {
    pub signals: Seq<(Seq<char>, i64)>,
    pub indicators: Seq<(u128, Seq<u8>)>,
}

/// The signal a state holds for a figi, if any.
pub open spec fn signals_lookup(signals: Seq<(Seq<char>, i64)>, f: Seq<char>) -> Option<i64>
    decreases signals.len(),
{
    if signals.len() == 0 {
        None
    } else if signals.last().0 == f {
        Some(signals.last().1)
    } else {
        signals_lookup(signals.drop_last(), f)
    }
}

/// Pairwise distinct signal keys.
pub open spec fn distinct_signal_figis(signals: Seq<(Seq<char>, i64)>) -> bool {
    forall|i: int, j: int|
        0 <= i < j < signals.len() ==> (#[trigger] signals[i]).0 != (#[trigger] signals[j]).0
}

/// The state after setting one signal: the signal under this figi is
/// replaced or appended, everything else stays.
pub open spec fn spec_set_signal(sv: StrategyStateView, f: Seq<char>, value: i64) -> StrategyStateView {
    if exists|i: int| 0 <= i < sv.signals.len() && (#[trigger] sv.signals[i]).0 == f {
        let i = choose|i: int| 0 <= i < sv.signals.len() && (#[trigger] sv.signals[i]).0 == f;
        StrategyStateView { signals: sv.signals.update(i, (f, value)), indicators: sv.indicators }
    } else {
        StrategyStateView { signals: sv.signals.push((f, value)), indicators: sv.indicators }
    }
}

/// Per-tick strategy output: one signal per instrument, plus opaque
/// indicator state blobs keyed by indicator id.
pub struct StrategyState {
    pub signals: Vec<(Figi, i64)>,
    pub indicators: Vec<(u128, Vec<u8>)>,
}

impl View for StrategyState {
    type V = StrategyStateView;

    open spec fn view(&self) -> StrategyStateView {
        StrategyStateView {
            signals: Seq::new(self.signals@.len(), |i: int| (self.signals@[i].0@, self.signals@[i].1)),
            indicators: Seq::new(
                self.indicators@.len(),
                |i: int| (self.indicators@[i].0, self.indicators@[i].1@),
            ),
        }
    }
}

impl StrategyState {
    /// Signal keys never repeat.
    pub open spec fn well_formed(&self) -> bool {
        distinct_signal_figis(self@.signals)
    }

    pub fn new() -> (r: StrategyState)
        ensures
            r.well_formed(),
            r.signals@.len() == 0,
            r.indicators@.len() == 0,
    {
        StrategyState { signals: Vec::new(), indicators: Vec::new() }
    }

    /// The signal currently set for this figi.
    pub fn signal(&self, figi: &Figi) -> (r: Option<i64>)
        ensures
            r == signals_lookup(self@.signals, figi@),
    {
        let n = self.signals.len();
        let mut idx = n;
        proof {
            assert(self@.signals.take(n as int) =~= self@.signals);
        }
        while idx > 0
            invariant
                idx <= self.signals@.len(),
                signals_lookup(self@.signals, figi@) == signals_lookup(
                    self@.signals.take(idx as int),
                    figi@,
                ),
            decreases idx,
        {
            idx -= 1;
            proof {
                assert(self@.signals.take(idx as int + 1).drop_last() =~= self@.signals.take(
                    idx as int,
                ));
                assert(self@.signals.take(idx as int + 1).last() == self@.signals[idx as int]);
            }
            if self.signals[idx].0.matches(figi) {
                return Some(self.signals[idx].1);
            }
        }
        proof {
            assert(self@.signals.take(0) =~= Seq::<(Seq<char>, i64)>::empty());
        }
        None
    }

    /// Set the signal for one instrument, replacing any previous value.
    pub fn set_signal(&mut self, instrument: Figi, value: i64)
        requires
            old(self).well_formed(),
        ensures
            final(self).well_formed(),
            final(self)@ == spec_set_signal(old(self)@, instrument@, value),
    {
        let ghost prev = *self;
        let n = self.signals.len();
        let mut k: usize = 0;
        while k < n
            invariant
                k <= n,
                n == self.signals.len(),
                *self == prev,
                prev == *old(self),
                prev.well_formed(),
                forall|j: int| 0 <= j < k ==> (#[trigger] prev@.signals[j]).0 != instrument@,
            decreases n - k,
        {
            if self.signals[k].0.matches(&instrument) {
                let kept = self.signals[k].0.clone();
                self.signals[k] = (kept, value);
                proof {
                    assert(prev@.signals[k as int].0 == instrument@);
                    let i = choose|i: int|
                        0 <= i < prev@.signals.len() && (#[trigger] prev@.signals[i]).0
                            == instrument@;
                    assert(i == k as int);
                    assert(self@.signals =~= prev@.signals.update(i, (instrument@, value)));
                    assert(self@.indicators =~= prev@.indicators);
                    assert(self@ == spec_set_signal(prev@, instrument@, value));
                    assert forall|a: int, b: int|
                        0 <= a < b < self@.signals.len() implies (#[trigger] self@.signals[a]).0
                        != (#[trigger] self@.signals[b]).0 by {
                        assert(prev@.signals[a].0 != prev@.signals[b].0);
                    }
                }
                return ;
            }
            k += 1;
        }
        let ghost pre = *self;
        self.signals.push((instrument, value));
        proof {
            assert(self@.signals =~= pre@.signals.push((instrument@, value)));
            assert(self@.indicators =~= pre@.indicators);
            assert(!(exists|i: int|
                0 <= i < pre@.signals.len() && (#[trigger] pre@.signals[i]).0 == instrument@));
            assert(self@ == spec_set_signal(pre@, instrument@, value));
            assert forall|a: int, b: int| 0 <= a < b < self@.signals.len() implies (
            #[trigger] self@.signals[a]).0 != (#[trigger] self@.signals[b]).0 by {
                if b < self@.signals.len() - 1 {
                    assert(pre@.signals[a].0 != pre@.signals[b].0);
                } else {
                    assert(self@.signals[a] == pre@.signals[a]);
                }
            }
        }
    }
}

impl Clone for StrategyState {
    fn clone(&self) -> (r: Self)
        ensures
            r@ == self@,
    {
        let mut signals: Vec<(Figi, i64)> = Vec::new();
        let mut k: usize = 0;
        let n = self.signals.len();
        while k < n
            invariant
                k <= n,
                n == self.signals@.len(),
                signals@.len() == k,
                forall|i: int|
                    0 <= i < k ==> (#[trigger] signals@[i]).0@ == self.signals@[i].0@
                        && signals@[i].1 == self.signals@[i].1,
            decreases n - k,
        {
            let key = self.signals[k].0.clone();
            signals.push((key, self.signals[k].1));
            k += 1;
        }
        let mut indicators: Vec<(u128, Vec<u8>)> = Vec::new();
        let mut k2: usize = 0;
        let n2 = self.indicators.len();
        while k2 < n2
            invariant
                k2 <= n2,
                n2 == self.indicators@.len(),
                indicators@.len() == k2,
                forall|i: int|
                    0 <= i < k2 ==> (#[trigger] indicators@[i]).0 == self.indicators@[i].0
                        && indicators@[i].1@ == self.indicators@[i].1@,
            decreases n2 - k2,
        {
            let blob = vstd::slice::slice_to_vec(self.indicators[k2].1.as_slice());
            indicators.push((self.indicators[k2].0, blob));
            k2 += 1;
        }
        let r = StrategyState { signals, indicators };
        proof {
            assert(r@.signals =~= self@.signals);
            assert(r@.indicators =~= self@.indicators);
            assert(r@ == self@);
        }
        r
    }
}

/// Settings for placing orders from signals, attached to an instance
/// definition. Thresholds carry the IEEE-754 bit patterns of the reals; only
/// the unverified edge interprets them.
pub struct PlaceOrderSettings {
    pub account_id: AccountId,
    pub buy_threshold: Option<u64>,
    pub sell_threshold: Option<u64>,
    /// Offset in ticks from order price to stop loss price.
    pub stop_loss_offset: u32,
    /// Offset in ticks from order price to take profit price.
    pub take_profit_offset: u32,
    /// Length of interval in candles.
    pub interval_length: u32,
}

impl Clone for PlaceOrderSettings {
    fn clone(&self) -> (r: Self)
        ensures
            r == *self,
    {
        PlaceOrderSettings {
            account_id: self.account_id.clone(),
            buy_threshold: self.buy_threshold,
            sell_threshold: self.sell_threshold,
            stop_loss_offset: self.stop_loss_offset,
            take_profit_offset: self.take_profit_offset,
            interval_length: self.interval_length,
        }
    }
}

/// A durable strategy instance: which strategy, with which parameters, over
/// which time window and resolution.
pub struct StrategyInstanceDefinition {
    pub strategy_name: String,
    pub params: Vec<(String, ParamValue)>,
    pub time_from: i64,
    pub time_to: Option<i64>,
    pub resolution: CandleResolution,
    pub place_order_settings: Option<PlaceOrderSettings>,
}

impl StrategyInstanceDefinition {
    pub fn new(
        strategy_name: String,
        params: Vec<(String, ParamValue)>,
        time_from: i64,
        time_to: Option<i64>,
        resolution: CandleResolution,
        place_order_settings: Option<PlaceOrderSettings>,
    ) -> (r: Self)
        ensures
            r == (StrategyInstanceDefinition {
                strategy_name,
                params,
                time_from,
                time_to,
                resolution,
                place_order_settings,
            }),
    {
        StrategyInstanceDefinition {
            strategy_name,
            params,
            time_from,
            time_to,
            resolution,
            place_order_settings,
        }
    }

    pub fn strategy_name(&self) -> (r: &String)
        ensures
            *r == self.strategy_name,
    {
        &self.strategy_name
    }

    pub fn params(&self) -> (r: &Vec<(String, ParamValue)>)
        ensures
            *r == self.params,
    {
        &self.params
    }

    pub fn time_from(&self) -> (r: i64)
        ensures
            r == self.time_from,
    {
        self.time_from
    }

    pub fn time_to(&self) -> (r: Option<i64>)
        ensures
            r == self.time_to,
    {
        self.time_to
    }

    pub fn resolution(&self) -> (r: CandleResolution)
        ensures
            r == self.resolution,
    {
        self.resolution
    }

    pub fn place_order_settings(&self) -> (r: &Option<PlaceOrderSettings>)
        ensures
            *r == self.place_order_settings,
    {
        &self.place_order_settings
    }
}

/// What a strategy kind declares: its parameters, name and description.
pub struct StrategyDefinition {
    pub params: Vec<ParamDefinition>,
    pub strategy_name: String,
    pub strategy_description: String,
}

impl StrategyDefinition {
    pub fn new(
        params: Vec<ParamDefinition>,
        strategy_name: String,
        strategy_description: String,
    ) -> (r: Self)
        ensures
            r.params == params,
            r.strategy_name == strategy_name,
            r.strategy_description == strategy_description,
    {
        StrategyDefinition { params, strategy_name, strategy_description }
    }

    pub fn params(&self) -> (r: &Vec<ParamDefinition>)
        ensures
            *r == self.params,
    {
        &self.params
    }

    pub fn strategy_name(&self) -> (r: &String)
        ensures
            *r == self.strategy_name,
    {
        &self.strategy_name
    }

    pub fn strategy_description(&self) -> &String {
        &self.strategy_description
    }
}

/// Buys its instrument on the first tick and holds it: the signal for the
/// instrument is the constant one.
#[derive(Debug)]
pub struct BuyAndHold {
    pub figi: Figi,
    pub data_requirements: Vec<Figi>,
}

impl BuyAndHold {
    pub fn new(figi: Figi) -> (r: Self)
        ensures
            r.figi == figi,
            r.data_requirements@ =~= seq![figi],
    {
        let mut reqs: Vec<Figi> = Vec::new();
        reqs.push(figi.clone());
        proof {
            assert(reqs@ =~= seq![figi]);
        }
        BuyAndHold { figi, data_requirements: reqs }
    }
}

/// A live strategy instance. Each variant is one strategy kind the registry
/// can build.
#[derive(Debug)]
pub enum StrategyInstance {
    BuyAndHold(BuyAndHold),
}

/// What one strategy tick returns, as a function of the instance, the tick
/// and the incoming state.
pub open spec fn spec_execute(
    s: StrategyInstance,
    ts: i64,
    pack: Seq<(Figi, Candle)>,
    state: StrategyStateView,
) -> Result<StrategyStateView, StrategyExecutionError> {
    match s {
        StrategyInstance::BuyAndHold(b) => Ok(spec_set_signal(state, b.figi@, FIXED_POINT_ONE)),
    }
}

impl StrategyInstance {
    /// The instruments whose candles the strategy needs.
    pub open spec fn spec_data_requirements(&self) -> Seq<Figi> {
        match self {
            StrategyInstance::BuyAndHold(b) => b.data_requirements@,
        }
    }

    /// The instruments whose candles the strategy needs.
    pub fn data_requirements(&self) -> (r: &Vec<Figi>)
        ensures
            r@ == self.spec_data_requirements(),
    {
        match self {
            StrategyInstance::BuyAndHold(b) => &b.data_requirements,
        }
    }

    /// One tick: from the candle pack at `ts` and the previous state to the
    /// next state.
    pub fn execute(&self, ts: i64, pack: &Vec<(Figi, Candle)>, state: StrategyState) -> (r: Result<
        StrategyState,
        StrategyExecutionError,
    >)
        requires
            state.well_formed(),
        ensures
            match r {
                Ok(st) => spec_execute(*self, ts, pack@, state@) == Result::<
                    StrategyStateView,
                    StrategyExecutionError,
                >::Ok(st@) && st.well_formed(),
                Err(e) => spec_execute(*self, ts, pack@, state@) == Result::<
                    StrategyStateView,
                    StrategyExecutionError,
                >::Err(e),
            },
    {
        match self {
            StrategyInstance::BuyAndHold(b) => {
                let mut next = state;
                next.set_signal(b.figi.clone(), FIXED_POINT_ONE);
                Ok(next)
            },
        }
    }
}

/// Why a strategy instance cannot be built.
#[derive(Debug)]
pub enum InstantiateStrategyError {
    /// No registered strategy has this name.
    NotFound(String),
    /// The factory refused the parameters.
    FailedToInstantiate(String),
    /// The parameters do not fit the declared list.
    ParamValidationFailed(ParamError),
}

/// Builds buy-and-hold instances; declares the single `instrument`
/// parameter.
pub struct BuyAndHoldFactory {
    pub definition: StrategyDefinition,
}

/// The name of the parameter that picks the instrument to hold.
pub open spec fn spec_instrument_param_name() -> Seq<char> {
    "instrument"@
}

impl BuyAndHoldFactory {
    pub fn new() -> (r: Self)
        ensures
            r.definition.strategy_name@ == "BuyAndHold"@,
            r.definition.params@.len() == 1,
            r.definition.params@[0].spec_name() == spec_instrument_param_name(),
            r.definition.params@[0].spec_param_type() == ParamType::Instrument,
    {
        let mut params: Vec<ParamDefinition> = Vec::new();
        params.push(
            ParamDefinition::new(
                "instrument".to_owned(),
                "Instrument to buy".to_owned(),
                ParamType::Instrument,
                None,
            ),
        );
        BuyAndHoldFactory {
            definition: StrategyDefinition::new(
                params,
                "BuyAndHold".to_owned(),
                "Buys instrument on day 1 and keeps it for the whole period of time".to_owned(),
            ),
        }
    }

    pub fn strategy_name(&self) -> (r: &String)
        ensures
            *r == self.definition.strategy_name,
    {
        &self.definition.strategy_name
    }

    pub fn definition(&self) -> (r: &StrategyDefinition)
        ensures
            *r == self.definition,
    {
        &self.definition
    }

    /// Build an instance from the supplied parameters: the `instrument`
    /// parameter must be present and hold an instrument.
    pub fn create(&self, params: &Vec<(String, ParamValue)>) -> (r: Result<
        StrategyInstance,
        InstantiateStrategyError,
    >)
        ensures
            match params_lookup(params@, spec_instrument_param_name()) {
                Some(v) => if v is Instrument {
                    r is Ok && r->Ok_0 is BuyAndHold && r->Ok_0->BuyAndHold_0.figi
                        == v->Instrument_0
                } else {
                    r is Err && r->Err_0 is ParamValidationFailed
                        && r->Err_0->ParamValidationFailed_0 is ParamTypeMismatch && (
                    r->Err_0->ParamValidationFailed_0->ParamTypeMismatch_0)@
                        == spec_instrument_param_name()
                },
                None => r is Err && r->Err_0 is ParamValidationFailed
                    && r->Err_0->ParamValidationFailed_0 is ParamMissing && (
                r->Err_0->ParamValidationFailed_0->ParamMissing_0)@ == spec_instrument_param_name(),
            },
    {
        let name = "instrument".to_owned();
        match params_find(params, &name) {
            None => Err(
                InstantiateStrategyError::ParamValidationFailed(ParamError::ParamMissing(name)),
            ),
            Some(idx) => {
                let value = &params[idx].1;
                match value.as_instrument() {
                    Some(figi) => Ok(StrategyInstance::BuyAndHold(BuyAndHold::new(figi.clone()))),
                    None => Err(
                        InstantiateStrategyError::ParamValidationFailed(
                            ParamError::ParamTypeMismatch(params[idx].0.clone()),
                        ),
                    ),
                }
            },
        }
    }
}

/// One registered strategy factory.
pub enum StrategyFactoryKind {
    BuyAndHold(BuyAndHoldFactory),
}

impl StrategyFactoryKind {
    /// The name instances refer to this factory by.
    pub open spec fn spec_strategy_name(&self) -> Seq<char> {
        match self {
            StrategyFactoryKind::BuyAndHold(f) => f.definition.strategy_name@,
        }
    }

    /// The declared parameters of this factory's strategy.
    pub open spec fn spec_declared_params(&self) -> Seq<ParamDefinition> {
        match self {
            StrategyFactoryKind::BuyAndHold(f) => f.definition.params@,
        }
    }

    pub fn strategy_name(&self) -> (r: &String)
        ensures
            r@ == self.spec_strategy_name(),
    {
        match self {
            StrategyFactoryKind::BuyAndHold(f) => f.strategy_name(),
        }
    }

    pub fn definition(&self) -> (r: &StrategyDefinition)
        ensures
            r.params@ == self.spec_declared_params(),
            r.strategy_name@ == self.spec_strategy_name(),
    {
        match self {
            StrategyFactoryKind::BuyAndHold(f) => f.definition(),
        }
    }

    /// Build an instance from the supplied parameters.
    pub fn create(&self, params: &Vec<(String, ParamValue)>) -> (r: Result<
        StrategyInstance,
        InstantiateStrategyError,
    >)
        ensures
            spec_create_ok(*self, params@, r),
    {
        match self {
            StrategyFactoryKind::BuyAndHold(f) => f.create(params),
        }
    }
}

/// How a factory's result relates to the supplied parameters: for the
/// buy-and-hold factory, success exactly when the `instrument` parameter is
/// supplied as an instrument, which then becomes the instance's figi.
pub open spec fn spec_create_ok(
    f: StrategyFactoryKind,
    params: Seq<(String, ParamValue)>,
    r: Result<StrategyInstance, InstantiateStrategyError>,
) -> bool {
    match f {
        StrategyFactoryKind::BuyAndHold(_) => match params_lookup(
            params,
            spec_instrument_param_name(),
        ) {
            Some(v) => if v is Instrument {
                r is Ok && r->Ok_0 is BuyAndHold && r->Ok_0->BuyAndHold_0.figi == v->Instrument_0
            } else {
                r is Err && r->Err_0 is ParamValidationFailed
                    && r->Err_0->ParamValidationFailed_0 is ParamTypeMismatch && (
                r->Err_0->ParamValidationFailed_0->ParamTypeMismatch_0)@
                    == spec_instrument_param_name()
            },
            None => r is Err && r->Err_0 is ParamValidationFailed
                && r->Err_0->ParamValidationFailed_0 is ParamMissing && (
            r->Err_0->ParamValidationFailed_0->ParamMissing_0)@ == spec_instrument_param_name(),
        },
    }
}

/// Does some registered factory carry this name?
pub open spec fn has_factory(fs: Seq<StrategyFactoryKind>, name: Seq<char>) -> bool {
    exists|i: int| 0 <= i < fs.len() && (#[trigger] fs[i]).spec_strategy_name() == name
}

/// Would this factory's `create` succeed on these parameters? For the
/// buy-and-hold factory: exactly when the `instrument` parameter is supplied
/// as an instrument.
pub open spec fn spec_can_create(f: StrategyFactoryKind, params: Seq<(String, ParamValue)>) -> bool {
    match f {
        StrategyFactoryKind::BuyAndHold(_) => match params_lookup(
            params,
            spec_instrument_param_name(),
        ) {
            Some(v) => v is Instrument,
            None => false,
        },
    }
}

/// Can the registry build a live instance from this definition: its strategy
/// is registered and that factory's success condition holds.
pub open spec fn spec_instantiable(
    fs: Seq<StrategyFactoryKind>,
    def: StrategyInstanceDefinition,
) -> bool {
    has_factory(fs, def.strategy_name@) && spec_can_create(
        fs[choose|i: int|
            0 <= i < fs.len() && (#[trigger] fs[i]).spec_strategy_name() == def.strategy_name@],
        def.params@,
    )
}

/// A factory's create succeeds exactly when its success condition holds.
pub proof fn lemma_create_ok_cases(
    f: StrategyFactoryKind,
    params: Seq<(String, ParamValue)>,
    r: Result<StrategyInstance, InstantiateStrategyError>,
)
    requires
        spec_create_ok(f, params, r),
    ensures
        r is Ok <==> spec_can_create(f, params),
{
}

/// Knows every registered strategy kind and builds instances from durable
/// definitions after validating their parameters.
pub struct StrategyRegistry {
    pub factories: Vec<StrategyFactoryKind>,
    pub param_validator: ParamValidator,
}

impl StrategyRegistry {
    /// Registered names never repeat.
    pub open spec fn well_formed(&self) -> bool {
        forall|i: int, j: int|
            0 <= i < j < self.factories@.len() ==> (
            #[trigger] self.factories@[i]).spec_strategy_name() != (
            #[trigger] self.factories@[j]).spec_strategy_name()
    }

    /// The registry with the built-in strategies registered.
    pub fn new() -> (r: Self)
        ensures
            r.well_formed(),
            r.factories@.len() == 1,
            r.factories@[0] is BuyAndHold,
            r.factories@[0].spec_strategy_name() == "BuyAndHold"@,
    {
        let mut factories: Vec<StrategyFactoryKind> = Vec::new();
        factories.push(StrategyFactoryKind::BuyAndHold(BuyAndHoldFactory::new()));
        StrategyRegistry { factories, param_validator: ParamValidator::new() }
    }

    /// The first factory registered under this name.
    fn find_factory(&self, name: &String) -> (r: Option<usize>)
        ensures
            match r {
                Some(idx) => idx < self.factories@.len() && self.factories@[
                    idx as int].spec_strategy_name() == name@,
                None => !has_factory(self.factories@, name@),
            },
    {
        let n = self.factories.len();
        let mut i: usize = 0;
        while i < n
            invariant
                i <= n,
                n == self.factories@.len(),
                forall|j: int|
                    0 <= j < i ==> (#[trigger] self.factories@[j]).spec_strategy_name() != name@,
            decreases n - i,
        {
            if *self.factories[i].strategy_name() == *name {
                return Some(i);
            }
            i += 1;
        }
        None
    }

    /// Check a durable instance definition: its strategy must be registered
    /// and its parameters must fit the factory's declared list.
    pub fn validate_instance_definition(
        &self,
        instance_definition: &StrategyInstanceDefinition,
        instruments: &Vec<Figi>,
    ) -> (r: Result<(), InstantiateStrategyError>)
        requires
            self.well_formed(),
        ensures
            !has_factory(self.factories@, instance_definition.strategy_name@) ==> r is Err
                && r->Err_0 is NotFound && r->Err_0->NotFound_0
                == instance_definition.strategy_name,
            has_factory(self.factories@, instance_definition.strategy_name@) ==> ({
                let i = choose|i: int|
                    0 <= i < self.factories@.len() && (
                    #[trigger] self.factories@[i]).spec_strategy_name()
                        == instance_definition.strategy_name@;
                r == match crate::params::spec_validate(
                    self.factories@[i].spec_declared_params(),
                    instance_definition.params@,
                    instruments@,
                ) {
                    Option::Some(e) => Result::<(), InstantiateStrategyError>::Err(
                        InstantiateStrategyError::ParamValidationFailed(e),
                    ),
                    Option::None => Result::<(), InstantiateStrategyError>::Ok(()),
                }
            }),
    {
        match self.find_factory(instance_definition.strategy_name()) {
            None => Err(InstantiateStrategyError::NotFound(
                instance_definition.strategy_name().clone(),
            )),
            Some(idx) => {
                let factory = &self.factories[idx];
                proof {
                    let i = choose|i: int|
                        0 <= i < self.factories@.len() && (
                        #[trigger] self.factories@[i]).spec_strategy_name()
                            == instance_definition.strategy_name@;
                    assert(i == idx as int);
                }
                match self.param_validator.validate(
                    factory.definition().params(),
                    instance_definition.params(),
                    instruments,
                ) {
                    Ok(()) => Ok(()),
                    Err(e) => Err(InstantiateStrategyError::ParamValidationFailed(e)),
                }
            },
        }
    }

    /// Build the live instance a durable definition asks for.
    pub fn instantiate_strategy(&self, instance_definition: &StrategyInstanceDefinition) -> (r:
        Result<StrategyInstance, InstantiateStrategyError>)
        requires
            self.well_formed(),
        ensures
            !has_factory(self.factories@, instance_definition.strategy_name@) ==> r is Err
                && r->Err_0 is NotFound && r->Err_0->NotFound_0
                == instance_definition.strategy_name,
            has_factory(self.factories@, instance_definition.strategy_name@) ==> ({
                let i = choose|i: int|
                    0 <= i < self.factories@.len() && (
                    #[trigger] self.factories@[i]).spec_strategy_name()
                        == instance_definition.strategy_name@;
                spec_create_ok(self.factories@[i], instance_definition.params@, r)
            }),
    {
        match self.find_factory(instance_definition.strategy_name()) {
            None => Err(InstantiateStrategyError::NotFound(
                instance_definition.strategy_name().clone(),
            )),
            Some(idx) => {
                proof {
                    let i = choose|i: int|
                        0 <= i < self.factories@.len() && (
                        #[trigger] self.factories@[i]).spec_strategy_name()
                            == instance_definition.strategy_name@;
                    assert(i == idx as int);
                }
                self.factories[idx].create(instance_definition.params())
            },
        }
    }
}

/// What an indicator's state hands back to its owner; only the owning
/// indicator decodes its own blob.
pub trait ExtractIndicatorValue {
    type ValueType;

    fn extract_value(&self) -> Option<Self::ValueType>;
}

} // verus!
