//! The position-manager model: durable instance definitions over a set of
//! strategies, the per-manager execution cursor, orders, and the built-in
//! quorum manager's declaration with its factory and registry.

use vstd::prelude::*;

use crate::account::AccountId;
use crate::instruments::Figi;
use crate::params::{ParamDefinition, ParamError, ParamType, ParamValidator, ParamValue};
use crate::strategy::StrategyState;

verus! {

/// The durable per-tick output of one strategy, as the position manager
/// consumes it.
pub type StrategyExecutionContext = StrategyState;

/// What a position-manager kind declares.
pub struct PositionManagerDefinition {
    pub position_manager_name: String,
    pub params: Vec<ParamDefinition>,
}

impl PositionManagerDefinition {
    pub fn new(position_manager_name: String, params: Vec<ParamDefinition>) -> (r: Self)
        ensures
            r.position_manager_name == position_manager_name,
            r.params == params,
    {
        PositionManagerDefinition { position_manager_name, params }
    }

    pub fn params(&self) -> (r: &Vec<ParamDefinition>)
        ensures
            *r == self.params,
    {
        &self.params
    }

    pub fn position_manager_name(&self) -> (r: &String)
        ensures
            *r == self.position_manager_name,
    {
        &self.position_manager_name
    }
}

/// Whether an instance trades a real account or replays history.
pub enum PositionManagerInstanceOptions {
    Realtime { account_id: AccountId },
    Backtest,
}

impl Clone for PositionManagerInstanceOptions {
    fn clone(&self) -> (r: Self)
        ensures
            r == *self,
    {
        match self {
            PositionManagerInstanceOptions::Realtime { account_id } => {
                PositionManagerInstanceOptions::Realtime { account_id: account_id.clone() }
            },
            PositionManagerInstanceOptions::Backtest => PositionManagerInstanceOptions::Backtest,
        }
    }
}

/// A durable position-manager instance: which manager, over which
/// strategies, with which parameters and options.
pub struct PositionManagerInstanceDefinition {
    pub position_manager_name: String,
    pub strategies: Vec<u128>,
    pub options: PositionManagerInstanceOptions,
    pub params: Vec<(String, ParamValue)>,
}

impl PositionManagerInstanceDefinition {
    pub fn position_manager_name(&self) -> (r: &String)
        ensures
            *r == self.position_manager_name,
    {
        &self.position_manager_name
    }

    pub fn params(&self) -> (r: &Vec<(String, ParamValue)>)
        ensures
            *r == self.params,
    {
        &self.params
    }

    pub fn strategies(&self) -> (r: &Vec<u128>)
        ensures
            *r == self.strategies,
    {
        &self.strategies
    }

    pub fn options(&self) -> (r: &PositionManagerInstanceOptions)
        ensures
            *r == self.options,
    {
        &self.options
    }
}

pub enum OrderDirection {
    Buy,
    Sell,
}

pub enum OrderType {
    Limit,
    Market,
}

/// An order a position manager asks to place; this core never routes them.
pub struct Order {
    pub direction: OrderDirection,
    pub order_type: OrderType,
    pub lots: u32,
    pub instrument: Figi,
}

/// The durable per-manager execution record: the cursor the runner resumes
/// from.
#[derive(Clone, Copy, PartialEq, Eq, Structural)]
pub struct PositionManagerExecutionState {
    pub cursor: i64,
}

impl PositionManagerExecutionState {
    pub fn new(cursor: i64) -> (r: Self)
        ensures
            r.cursor == cursor,
    {
        PositionManagerExecutionState { cursor }
    }

    pub fn cursor(&self) -> (r: i64)
        ensures
            r == self.cursor,
    {
        self.cursor
    }
}

/// Why a position-manager instance cannot be built.
pub enum InstantiatePositionManagerError {
    /// No registered manager has this name.
    NotFound(String),
    /// The factory refused the parameters.
    FailedToInstantiate(String),
    /// The parameters do not fit the declared list.
    ParamValidationFailed(ParamError),
    /// The definition references a strategy that is not live.
    UnknownStrategy(u128),
}

/// Combines the signals of its strategies by quorum; its trading rule lives
/// outside this core, which never routes orders.
pub struct QuorumManager {}

/// A live position-manager instance.
pub enum PositionManagerInstance {
    Quorum(QuorumManager),
}

/// Declares the quorum manager: two real-valued thresholds.
pub struct QuorumManagerFactory {
    pub definition: PositionManagerDefinition,
}

impl QuorumManagerFactory {
    pub fn new() -> (r: Self)
        ensures
            r.definition.position_manager_name@ == "QuorumManager"@,
            r.definition.params@.len() == 2,
            r.definition.params@[0].spec_name() == "Buy Threshold"@,
            r.definition.params@[0].spec_param_type() == ParamType::Float,
            r.definition.params@[1].spec_name() == "Sell Threshold"@,
            r.definition.params@[1].spec_param_type() == ParamType::Float,
    {
        let mut params: Vec<ParamDefinition> = Vec::new();
        params.push(
            ParamDefinition::new(
                "Buy Threshold".to_owned(),
                "Cumulative signal level to buy instrument".to_owned(),
                ParamType::Float,
                None,
            ),
        );
        params.push(
            ParamDefinition::new(
                "Sell Threshold".to_owned(),
                "Cumulative signal level to sell instrument".to_owned(),
                ParamType::Float,
                None,
            ),
        );
        QuorumManagerFactory {
            definition: PositionManagerDefinition::new("QuorumManager".to_owned(), params),
        }
    }

    pub fn position_manager_name(&self) -> (r: &String)
        ensures
            *r == self.definition.position_manager_name,
    {
        &self.definition.position_manager_name
    }

    pub fn definition(&self) -> (r: &PositionManagerDefinition)
        ensures
            *r == self.definition,
    {
        &self.definition
    }

    /// The quorum manager takes any validated parameter set.
    pub fn create(&self, params: &Vec<(String, ParamValue)>) -> (r: Result<
        PositionManagerInstance,
        InstantiatePositionManagerError,
    >)
        ensures
            r is Ok && r->Ok_0 is Quorum,
    {
        Ok(PositionManagerInstance::Quorum(QuorumManager {  }))
    }
}

/// Is this strategy id among the live strategies?
pub open spec fn strategy_known(known: Seq<u128>, id: u128) -> bool {
    exists|i: int| 0 <= i < known.len() && #[trigger] known[i] == id
}

/// The first referenced strategy that is not live, if any.
pub open spec fn spec_first_unknown(strategies: Seq<u128>, known: Seq<u128>) -> Option<u128> {
    if exists|i: int| 0 <= i < strategies.len() && !strategy_known(known, #[trigger] strategies[i]) {
        let i = choose|i: int|
            0 <= i < strategies.len() && !strategy_known(known, #[trigger] strategies[i]) && forall|
                j: int,
            | 0 <= j < i ==> strategy_known(known, #[trigger] strategies[j]);
        Some(strategies[i])
    } else {
        None
    }
}

/// Knows every registered position-manager kind and builds instances after
/// validating their parameters and strategy references.
pub struct PositionManagerRegistry {
    pub factory: QuorumManagerFactory,
    pub param_validator: ParamValidator,
}

impl PositionManagerRegistry {
    pub fn new() -> (r: Self)
        ensures
            r.factory.definition.position_manager_name@ == "QuorumManager"@,
    {
        PositionManagerRegistry {
            factory: QuorumManagerFactory::new(),
            param_validator: ParamValidator::new(),
        }
    }

    /// Check a durable instance definition: the manager must be registered,
    /// every referenced strategy must be live, and the parameters must fit.
    pub fn validate_instance_definition(
        &self,
        instance_definition: &PositionManagerInstanceDefinition,
        known_strategies: &Vec<u128>,
        instruments: &Vec<Figi>,
    ) -> (r: Result<(), InstantiatePositionManagerError>)
        ensures
            instance_definition.position_manager_name@
                != self.factory.definition.position_manager_name@ ==> r is Err
                && r->Err_0 is NotFound && r->Err_0->NotFound_0
                == instance_definition.position_manager_name,
            instance_definition.position_manager_name@
                == self.factory.definition.position_manager_name@ ==> (
            match spec_first_unknown(instance_definition.strategies@, known_strategies@) {
                Some(id) => r is Err && r->Err_0 is UnknownStrategy && r->Err_0->UnknownStrategy_0
                    == id,
                None => r == match crate::params::spec_validate(
                    self.factory.definition.params@,
                    instance_definition.params@,
                    instruments@,
                ) {
                    Option::Some(e) => Result::<(), InstantiatePositionManagerError>::Err(
                        InstantiatePositionManagerError::ParamValidationFailed(e),
                    ),
                    Option::None => Result::<(), InstantiatePositionManagerError>::Ok(()),
                },
            }),
    {
        if !(*instance_definition.position_manager_name() == *self.factory.position_manager_name()) {
            return Err(
                InstantiatePositionManagerError::NotFound(
                    instance_definition.position_manager_name().clone(),
                ),
            );
        }
        let n = instance_definition.strategies.len();
        let mut i: usize = 0;
        while i < n
            invariant
                i <= n,
                n == instance_definition.strategies@.len(),
                instance_definition.position_manager_name@
                    == self.factory.definition.position_manager_name@,
                forall|j: int|
                    0 <= j < i ==> strategy_known(
                        known_strategies@,
                        #[trigger] instance_definition.strategies@[j],
                    ),
            decreases n - i,
        {
            let id = instance_definition.strategies[i];
            let mut found = false;
            let m = known_strategies.len();
            let mut k: usize = 0;
            while k < m
                invariant
                    k <= m,
                    m == known_strategies@.len(),
                    found ==> strategy_known(known_strategies@, id),
                    !found ==> forall|l: int|
                        0 <= l < k ==> #[trigger] known_strategies@[l] != id,
                decreases m - k,
            {
                if known_strategies[k] == id {
                    found = true;
                    proof {
                        assert(strategy_known(known_strategies@, id));
                    }
                }
                k += 1;
            }
            if !found {
                proof {
                    let w = choose|w: int|
                        0 <= w < instance_definition.strategies@.len() && !strategy_known(
                            known_strategies@,
                            #[trigger] instance_definition.strategies@[w],
                        ) && forall|j: int|
                            0 <= j < w ==> strategy_known(
                                known_strategies@,
                                #[trigger] instance_definition.strategies@[j],
                            );
                    assert(w == i as int);
                }
                return Err(InstantiatePositionManagerError::UnknownStrategy(id));
            }
            i += 1;
        }
        match self.param_validator.validate(
            self.factory.definition().params(),
            instance_definition.params(),
            instruments,
        ) {
            Ok(()) => Ok(()),
            Err(e) => Err(InstantiatePositionManagerError::ParamValidationFailed(e)),
        }
    }

    /// Build the live instance a durable definition asks for.
    pub fn instantiate_position_manager(
        &self,
        instance_definition: &PositionManagerInstanceDefinition,
    ) -> (r: Result<PositionManagerInstance, InstantiatePositionManagerError>)
        ensures
            instance_definition.position_manager_name@
                != self.factory.definition.position_manager_name@ ==> r is Err
                && r->Err_0 is NotFound && r->Err_0->NotFound_0
                == instance_definition.position_manager_name,
            instance_definition.position_manager_name@
                == self.factory.definition.position_manager_name@ ==> r is Ok
                && r->Ok_0 is Quorum,
    {
        if !(*instance_definition.position_manager_name() == *self.factory.position_manager_name()) {
            return Err(
                InstantiatePositionManagerError::NotFound(
                    instance_definition.position_manager_name().clone(),
                ),
            );
        }
        self.factory.create(instance_definition.params())
    }
}

} // verus!
