//! Brokerage accounts and positions as the core sees them.

use vstd::prelude::*;

use crate::instruments::Figi;

verus! {

/// Opaque account identifier.
pub struct AccountId(pub String);

impl View for AccountId {
    type V = Seq<char>;

    open spec fn view(&self) -> Seq<char> {
        self.0@
    }
}

impl Clone for AccountId {
    fn clone(&self) -> (r: Self)
        ensures
            r == *self,
    {
        AccountId(self.0.clone())
    }
}

impl AccountId {
    /// Two account ids are the same exactly when their text is.
    pub fn matches(&self, other: &AccountId) -> (r: bool)
        ensures
            r == (self@ == other@),
    {
        self.0 == other.0
    }
}

/// Where an account lives.
#[derive(Clone, Copy, PartialEq, Eq, Structural)]
pub enum Environment {
    Sandbox,
    Production,
}

/// What the account's token may do.
#[derive(Clone, Copy, PartialEq, Eq, Structural)]
pub enum AccessLevel {
    Unspecified,
    FullAccess,
    ReadOnly,
    NoAccess,
}

/// A brokerage account.
pub struct Account {
    pub id: AccountId,
    pub name: String,
    pub access_level: AccessLevel,
    pub environment: Environment,
}

impl Clone for Account {
    fn clone(&self) -> (r: Self)
        ensures
            r == *self,
    {
        Account {
            id: self.id.clone(),
            name: self.name.clone(),
            access_level: self.access_level,
            environment: self.environment,
        }
    }
}

/// An open position: a signed number of lots of one instrument.
pub struct Position {
    pub figi: Figi,
    pub lots: i64,
}

impl Clone for Position {
    fn clone(&self) -> (r: Self)
        ensures
            r == *self,
    {
        Position { figi: self.figi.clone(), lots: self.lots }
    }
}

/// A currency balance, in fixed-point units of the named currency.
pub struct Currency {
    pub iso_currency: String,
    pub amount: i64,
}

impl Clone for Currency {
    fn clone(&self) -> (r: Self)
        ensures
            r == *self,
    {
        Currency { iso_currency: self.iso_currency.clone(), amount: self.amount }
    }
}

/// Everything one account holds.
pub struct AccountPositions {
    pub currencies: Vec<Currency>,
    pub positions: Vec<Position>,
}

} // verus!
