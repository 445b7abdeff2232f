//! Typed strategy and position-manager parameters, and their validation
//! against a definition's expected parameter list.

use vstd::prelude::*;

use crate::instruments::Figi;

verus! {

/// The type a parameter is declared with.
#[derive(Clone, Copy, PartialEq, Eq, Structural)]
pub enum ParamType {
    Instrument,
    Integer,
    Float,
    Boolean,
}

/// A parameter value. Real-valued parameters carry the IEEE-754 bit pattern
/// of the real; the core never interprets it, it only stores, compares and
/// hashes it.
pub enum ParamValue {
    Instrument(Figi),
    Integer(i64),
    Float(u64),
    Boolean(bool),
}

impl ParamValue {
    /// The type of this value.
    pub open spec fn spec_param_type(&self) -> ParamType {
        match self {
            ParamValue::Instrument(_) => ParamType::Instrument,
            ParamValue::Integer(_) => ParamType::Integer,
            ParamValue::Float(_) => ParamType::Float,
            ParamValue::Boolean(_) => ParamType::Boolean,
        }
    }

    /// The type of this value.
    pub fn param_type(&self) -> (r: ParamType)
        ensures
            r == self.spec_param_type(),
    {
        match self {
            ParamValue::Instrument(_) => ParamType::Instrument,
            ParamValue::Integer(_) => ParamType::Integer,
            ParamValue::Float(_) => ParamType::Float,
            ParamValue::Boolean(_) => ParamType::Boolean,
        }
    }

    pub fn as_instrument(&self) -> (r: Option<&Figi>)
        ensures
            match r {
                Some(f) => *self is Instrument && *f == self->Instrument_0,
                None => !(*self is Instrument),
            },
    {
        if let ParamValue::Instrument(val) = self {
            Some(val)
        } else {
            None
        }
    }

    pub fn as_integer(&self) -> (r: Option<i64>)
        ensures
            match r {
                Some(v) => *self is Integer && v == self->Integer_0,
                None => !(*self is Integer),
            },
    {
        if let ParamValue::Integer(val) = self {
            Some(*val)
        } else {
            None
        }
    }

    /// The IEEE-754 bit pattern of a real-valued parameter.
    pub fn as_float(&self) -> (r: Option<u64>)
        ensures
            match r {
                Some(v) => *self is Float && v == self->Float_0,
                None => !(*self is Float),
            },
    {
        if let ParamValue::Float(val) = self {
            Some(*val)
        } else {
            None
        }
    }

    pub fn as_boolean(&self) -> (r: Option<bool>)
        ensures
            match r {
                Some(v) => *self is Boolean && v == self->Boolean_0,
                None => !(*self is Boolean),
            },
    {
        if let ParamValue::Boolean(val) = self {
            Some(*val)
        } else {
            None
        }
    }
}

impl Clone for ParamValue {
    fn clone(&self) -> (r: Self)
        ensures
            r == *self,
    {
        match self {
            ParamValue::Instrument(f) => ParamValue::Instrument(f.clone()),
            ParamValue::Integer(v) => ParamValue::Integer(*v),
            ParamValue::Float(v) => ParamValue::Float(*v),
            ParamValue::Boolean(v) => ParamValue::Boolean(*v),
        }
    }
}

/// A parameter a strategy or position manager declares.
pub struct ParamDefinition {
    pub name: String,
    pub description: String,
    pub param_type: ParamType,
    pub default_value: Option<ParamValue>,
}

impl ParamDefinition {
    pub open spec fn spec_name(&self) -> Seq<char> {
        self.name@
    }

    pub open spec fn spec_param_type(&self) -> ParamType {
        self.param_type
    }

    pub fn new(
        name: String,
        description: String,
        param_type: ParamType,
        default_value: Option<ParamValue>,
    ) -> (r: Self)
        ensures
            r.spec_name() == name@,
            r.spec_param_type() == param_type,
    {
        ParamDefinition { name, description, param_type, default_value }
    }

    pub fn name(&self) -> (r: &String)
        ensures
            *r == self.name,
    {
        &self.name
    }

    pub fn description(&self) -> &String {
        &self.description
    }

    pub fn param_type(&self) -> (r: ParamType)
        ensures
            r == self.spec_param_type(),
    {
        self.param_type
    }

    pub fn default_value(&self) -> &Option<ParamValue> {
        &self.default_value
    }
}

/// Why a parameter set does not fit a definition.
#[derive(Debug)]
pub enum ParamError {
    /// A declared parameter has no value.
    ParamMissing(String),
    /// A value was given for a parameter the definition does not declare.
    InvalidParam(String),
    /// A value has the wrong type.
    ParamTypeMismatch(String),
    /// An instrument value names an unknown instrument.
    UnknownInstrument(String, String),
}

/// Does the definition list declare this name?
pub open spec fn defs_contain(defs: Seq<ParamDefinition>, name: Seq<char>) -> bool {
    exists|i: int| 0 <= i < defs.len() && (#[trigger] defs[i]).spec_name() == name
}

/// The value supplied under `name`, if any.
pub open spec fn params_lookup(params: Seq<(String, ParamValue)>, name: Seq<char>) -> Option<
    ParamValue,
>
    decreases params.len(),
{
    if params.len() == 0 {
        None
    } else if params.last().0@ == name {
        Some(params.last().1)
    } else {
        params_lookup(params.drop_last(), name)
    }
}

/// Is this figi among the known instruments?
pub open spec fn instruments_contain(instruments: Seq<Figi>, figi: Seq<char>) -> bool {
    exists|i: int| 0 <= i < instruments.len() && (#[trigger] instruments[i])@ == figi
}

/// What the check of the `d`-th declared parameter reports: missing, wrong
/// type, unknown instrument, or nothing.
pub open spec fn spec_def_check(
    defs: Seq<ParamDefinition>,
    params: Seq<(String, ParamValue)>,
    instruments: Seq<Figi>,
    d: int,
) -> Option<ParamError> {
    match params_lookup(params, defs[d].spec_name()) {
        None => Some(ParamError::ParamMissing(defs[d].name)),
        Some(v) => if v.spec_param_type() != defs[d].spec_param_type() {
            Some(ParamError::ParamTypeMismatch(defs[d].name))
        } else {
            match v {
                ParamValue::Instrument(figi) => if !instruments_contain(instruments, figi@) {
                    Some(ParamError::UnknownInstrument(defs[d].name, figi.0))
                } else {
                    None
                },
                _ => None,
            }
        },
    }
}

/// The verdict on a parameter set: the first offence, supplied names first
/// and then declared parameters in order, or nothing.
pub open spec fn spec_validate(
    defs: Seq<ParamDefinition>,
    ps: Seq<(String, ParamValue)>,
    ins: Seq<Figi>,
) -> Option<ParamError> {
    if exists|i: int| 0 <= i < ps.len() && !defs_contain(defs, (#[trigger] ps[i]).0@) {
        let i = choose|i: int|
            #![trigger ps[i]]
            0 <= i < ps.len() && !defs_contain(defs, ps[i].0@) && forall|j: int|
                0 <= j < i ==> defs_contain(defs, (#[trigger] ps[j]).0@);
        Some(ParamError::InvalidParam(ps[i].0))
    } else if exists|d: int| 0 <= d < defs.len() && spec_def_check(defs, ps, ins, d) is Some {
        let d = choose|d: int|
            0 <= d < defs.len() && #[trigger] spec_def_check(defs, ps, ins, d) is Some && forall|
                e: int,
            | 0 <= e < d ==> #[trigger] spec_def_check(defs, ps, ins, e) is None;
        Some(spec_def_check(defs, ps, ins, d)->0)
    } else {
        None
    }
}

/// Validates parameter sets against declared parameter lists, with the known
/// instruments as context.
pub struct ParamValidator {}

impl ParamValidator {
    pub fn new() -> ParamValidator {
        ParamValidator {  }
    }

    /// Check supplied parameters against the declared list: every supplied
    /// name must be declared, every declared parameter must be supplied with
    /// its declared type, and instrument values must name known instruments.
    /// The first offence, supplied names first and then declared parameters
    /// in order, is reported.
    pub fn validate(
        &self,
        param_definitions: &Vec<ParamDefinition>,
        params: &Vec<(String, ParamValue)>,
        instruments: &Vec<Figi>,
    ) -> (r: Result<(), ParamError>)
        ensures
            r == match spec_validate(param_definitions@, params@, instruments@) {
                Option::Some(e) => Result::<(), ParamError>::Err(e),
                Option::None => Result::<(), ParamError>::Ok(()),
            },
    {
        let ghost defs = param_definitions@;
        let ghost ps = params@;
        let ghost ins = instruments@;
        let np = params.len();
        let mut i: usize = 0;
        while i < np
            invariant
                i <= np,
                np == params.len(),
                defs == param_definitions@,
                ps == params@,
                forall|j: int| 0 <= j < i ==> defs_contain(defs, (#[trigger] ps[j]).0@),
            decreases np - i,
        {
            let name = &params[i].0;
            let found = defs_find(param_definitions, name);
            if !found {
                proof {
                    let w = choose|w: int|
                        #![trigger ps[w]]
                        0 <= w < ps.len() && !defs_contain(defs, ps[w].0@) && forall|j: int|
                            0 <= j < w ==> defs_contain(defs, (#[trigger] ps[j]).0@);
                    assert(w == i as int);
                }
                return Err(ParamError::InvalidParam(name.clone()));
            }
            i += 1;
        }
        let nd = param_definitions.len();
        let mut d: usize = 0;
        while d < nd
            invariant
                d <= nd,
                nd == param_definitions.len(),
                defs == param_definitions@,
                ps == params@,
                ins == instruments@,
                forall|j: int| 0 <= j < ps.len() ==> defs_contain(defs, (#[trigger] ps[j]).0@),
                forall|e: int| 0 <= e < d ==> #[trigger] spec_def_check(defs, ps, ins, e) is None,
            decreases nd - d,
        {
            let def = &param_definitions[d];
            let actual = params_find(params, def.name());
            match actual {
                None => {
                    proof {
                        lemma_def_check_first(defs, ps, ins, d as int);
                    }
                    return Err(ParamError::ParamMissing(def.name().clone()));
                },
                Some(idx) => {
                    let value = &params[idx].1;
                    let actual_type = value.param_type();
                    if !param_types_equal(actual_type, def.param_type()) {
                        proof {
                            lemma_def_check_first(defs, ps, ins, d as int);
                        }
                        return Err(ParamError::ParamTypeMismatch(def.name().clone()));
                    }
                    if let ParamValue::Instrument(figi) = value {
                        let known = instruments_find(instruments, figi);
                        if !known {
                            proof {
                                lemma_def_check_first(defs, ps, ins, d as int);
                            }
                            return Err(
                                ParamError::UnknownInstrument(def.name().clone(), figi.0.clone()),
                            );
                        }
                    }
                },
            }
            d += 1;
        }
        Ok(())
    }
}

/// Both sides of the first failing declared-parameter check.
proof fn lemma_def_check_first(
    defs: Seq<ParamDefinition>,
    ps: Seq<(String, ParamValue)>,
    ins: Seq<Figi>,
    d: int,
)
    requires
        0 <= d < defs.len(),
        spec_def_check(defs, ps, ins, d) is Some,
        forall|e: int| 0 <= e < d ==> #[trigger] spec_def_check(defs, ps, ins, e) is None,
    ensures
        ({
            let w = choose|w: int|
                0 <= w < defs.len() && #[trigger] spec_def_check(defs, ps, ins, w) is Some
                    && forall|e: int|
                    0 <= e < w ==> #[trigger] spec_def_check(defs, ps, ins, e) is None;
            w == d && spec_def_check(defs, ps, ins, w) == spec_def_check(defs, ps, ins, d)
        }),
{
    let w = choose|w: int|
        0 <= w < defs.len() && #[trigger] spec_def_check(defs, ps, ins, w) is Some && forall|e: int|
            0 <= e < w ==> #[trigger] spec_def_check(defs, ps, ins, e) is None;
    if w < d {
        assert(spec_def_check(defs, ps, ins, w) is None);
    }
    if d < w {
        assert(spec_def_check(defs, ps, ins, d) is None);
    }
}

/// Compare two parameter types.
fn param_types_equal(a: ParamType, b: ParamType) -> (r: bool)
    ensures
        r == (a == b),
{
    match (a, b) {
        (ParamType::Instrument, ParamType::Instrument) => true,
        (ParamType::Integer, ParamType::Integer) => true,
        (ParamType::Float, ParamType::Float) => true,
        (ParamType::Boolean, ParamType::Boolean) => true,
        _ => false,
    }
}

/// Does the declared parameter list hold this name?
pub fn defs_find(defs: &Vec<ParamDefinition>, name: &String) -> (r: bool)
    ensures
        r == defs_contain(defs@, name@),
{
    let nd = defs.len();
    let mut d: usize = 0;
    while d < nd
        invariant
            d <= nd,
            nd == defs.len(),
            forall|e: int| 0 <= e < d ==> (#[trigger] defs@[e]).spec_name() != name@,
        decreases nd - d,
    {
        if *defs[d].name() == *name {
            return true;
        }
        d += 1;
    }
    false
}

/// Is this figi among the known instruments?
pub fn instruments_find(instruments: &Vec<Figi>, figi: &Figi) -> (r: bool)
    ensures
        r == instruments_contain(instruments@, figi@),
{
    let ni = instruments.len();
    let mut k: usize = 0;
    while k < ni
        invariant
            k <= ni,
            ni == instruments.len(),
            forall|e: int| 0 <= e < k ==> (#[trigger] instruments@[e])@ != figi@,
        decreases ni - k,
    {
        if instruments[k].matches(figi) {
            return true;
        }
        k += 1;
    }
    false
}

/// Find the index of the value supplied under `name`.
pub fn params_find(params: &Vec<(String, ParamValue)>, name: &String) -> (r: Option<usize>)
    ensures
        match r {
            Some(idx) => idx < params@.len() && params@[idx as int].0@ == name@ && params_lookup(
                params@,
                name@,
            ) == Some(params@[idx as int].1),
            None => params_lookup(params@, name@) is None,
        },
{
    let mut idx = params.len();
    proof {
        assert(params@.take(params@.len() as int) =~= params@);
    }
    while idx > 0
        invariant
            idx <= params.len(),
            params_lookup(params@, name@) == params_lookup(params@.take(idx as int), name@),
        decreases idx,
    {
        idx -= 1;
        proof {
            assert(params@.take(idx as int + 1).drop_last() =~= params@.take(idx as int));
            assert(params@.take(idx as int + 1).last() == params@[idx as int]);
        }
        if params[idx].0 == *name {
            return Some(idx);
        }
    }
    proof {
        assert(params@.take(0) =~= Seq::<(String, ParamValue)>::empty());
    }
    None
}

} // verus!
