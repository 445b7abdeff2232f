//! Instrument identity: the globally unique FIGI, the human-readable ticker
//! and display name.

use vstd::prelude::*;

verus! {

/// Opaque, globally unique identifier of a tradeable instrument.
#[derive(Debug)]
pub struct Figi(pub String);

impl View for Figi {
    type V = Seq<char>;

    open spec fn view(&self) -> Seq<char> {
        self.0@
    }
}

impl Clone for Figi {
    fn clone(&self) -> (r: Self)
        ensures
            r == *self,
    {
        Figi(self.0.clone())
    }
}

impl Figi {
    /// Two FIGIs are the same exactly when their text is.
    pub fn matches(&self, other: &Figi) -> (r: bool)
        ensures
            r == (self@ == other@),
    {
        self.0 == other.0
    }
}

/// Human-readable instrument symbol.
pub struct Ticker(pub String);

impl View for Ticker {
    type V = Seq<char>;

    open spec fn view(&self) -> Seq<char> {
        self.0@
    }
}

impl Clone for Ticker {
    fn clone(&self) -> (r: Self)
        ensures
            r == *self,
    {
        Ticker(self.0.clone())
    }
}

/// A tradeable instrument as the core sees it.
pub struct Instrument {
    pub figi: Figi,
    pub ticker: Ticker,
    pub display_name: String,
}

impl Clone for Instrument {
    fn clone(&self) -> (r: Self)
        ensures
            r == *self,
    {
        Instrument { figi: self.figi.clone(), ticker: self.ticker.clone(), display_name: self.display_name.clone() }
    }
}

/// The fields of a brokerage share listing that the core reads.
pub struct ShareFields {
    pub figi: String,
    pub ticker: String,
    pub name: String,
}

/// Turn a brokerage share listing into an instrument: the FIGI and ticker are
/// taken verbatim, the share's name becomes the display name.
pub fn from_share(proto: ShareFields) -> (r: Instrument)
    ensures
        r.figi@ == proto.figi@,
        r.ticker@ == proto.ticker@,
        r.display_name@ == proto.name@,
{
    Instrument { figi: Figi(proto.figi), ticker: Ticker(proto.ticker), display_name: proto.name }
}

} // verus!
