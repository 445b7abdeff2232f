//! The configuration surface: a tree of named scopes with typed leaves,
//! looked up by name, with errors that carry the full path for messages.
//! Real-valued leaves carry their IEEE-754 bit pattern, which only the
//! unverified edge interprets.

use vstd::prelude::*;

verus! {

/// A configuration value: a typed leaf or a nested scope.
pub enum ConfigValue {
    Str(String),
    Int(i64),
    RealBits(u64),
    Bool(bool),
    Scope(Vec<(String, ConfigValue)>),
}

/// Why a lookup failed.
#[derive(Debug)]
pub enum ConfigError {
    /// No value under this path.
    NotFound { path: String },
    /// A value exists but has another type.
    TypeMismatch { path: String, expected_ty: String, actual_ty: String },
}

/// The value under `name`, if any.
pub open spec fn scope_lookup(entries: Seq<(String, ConfigValue)>, name: Seq<char>) -> Option<
    ConfigValue,
>
    decreases entries.len(),
{
    if entries.len() == 0 {
        None
    } else if entries.last().0@ == name {
        Some(entries.last().1)
    } else {
        scope_lookup(entries.drop_last(), name)
    }
}

/// One scope of the configuration tree, carrying the path that leads to it.
pub struct Config {
    pub entries: Vec<(String, ConfigValue)>,
    pub path: String,
}

/// The name of each leaf type, as it appears in error messages.
pub fn type_name_of(v: &ConfigValue) -> (r: String)
    ensures
        v is Str ==> r@ == "string"@,
        v is Int ==> r@ == "integer"@,
        v is RealBits ==> r@ == "real"@,
        v is Bool ==> r@ == "boolean"@,
        v is Scope ==> r@ == "dict"@,
{
    match v {
        ConfigValue::Str(_) => "string".to_owned(),
        ConfigValue::Int(_) => "integer".to_owned(),
        ConfigValue::RealBits(_) => "real".to_owned(),
        ConfigValue::Bool(_) => "boolean".to_owned(),
        ConfigValue::Scope(_) => "dict".to_owned(),
    }
}

impl Config {
    /// A root configuration scope.
    pub fn new(entries: Vec<(String, ConfigValue)>, path: String) -> (r: Config)
        ensures
            r.entries == entries,
            r.path == path,
    {
        Config { entries, path }
    }

    /// The path of `name` under this scope, for error messages.
    fn child_path(&self, name: &String) -> (r: String)
        ensures
            r@ == self.path@ + "/"@ + name@,
    {
        let mut p = self.path.clone();
        p.append("/");
        p.append(name.as_str());
        p
    }

    /// Find the raw value under `name`; its index pins it for the caller.
    fn get_doc(&self, name: &String) -> (r: Option<usize>)
        ensures
            match r {
                Some(idx) => idx < self.entries@.len() && self.entries@[idx as int].0@ == name@
                    && scope_lookup(self.entries@, name@) == Some(self.entries@[idx as int].1),
                None => scope_lookup(self.entries@, name@) is None,
            },
    {
        let mut idx = self.entries.len();
        proof {
            assert(self.entries@.take(self.entries@.len() as int) =~= self.entries@);
        }
        while idx > 0
            invariant
                idx <= self.entries@.len(),
                scope_lookup(self.entries@, name@) == scope_lookup(
                    self.entries@.take(idx as int),
                    name@,
                ),
            decreases idx,
        {
            idx -= 1;
            proof {
                assert(self.entries@.take(idx as int + 1).drop_last() =~= self.entries@.take(
                    idx as int,
                ));
                assert(self.entries@.take(idx as int + 1).last() == self.entries@[idx as int]);
            }
            if self.entries[idx].0 == *name {
                return Some(idx);
            }
        }
        proof {
            assert(self.entries@.take(0) =~= Seq::<(String, ConfigValue)>::empty());
        }
        None
    }

    /// The string under `name`.
    pub fn get_str(&self, name: &String) -> (r: Result<&String, ConfigError>)
        ensures
            match scope_lookup(self.entries@, name@) {
                Some(v) => if v is Str {
                    r is Ok && *r->Ok_0 == v->Str_0
                } else {
                    r is Err && r->Err_0 is TypeMismatch
                },
                None => r is Err && r->Err_0 is NotFound,
            },
    {
        match self.get_doc(name) {
            None => Err(ConfigError::NotFound { path: self.child_path(name) }),
            Some(idx) => match &self.entries[idx].1 {
                ConfigValue::Str(s) => Ok(s),
                other => Err(
                    ConfigError::TypeMismatch {
                        path: self.child_path(name),
                        expected_ty: "string".to_owned(),
                        actual_ty: type_name_of(other),
                    },
                ),
            },
        }
    }

    /// The signed integer under `name`.
    pub fn get_i64(&self, name: &String) -> (r: Result<i64, ConfigError>)
        ensures
            match scope_lookup(self.entries@, name@) {
                Some(v) => if v is Int {
                    r is Ok && r->Ok_0 == v->Int_0
                } else {
                    r is Err && r->Err_0 is TypeMismatch
                },
                None => r is Err && r->Err_0 is NotFound,
            },
    {
        match self.get_doc(name) {
            None => Err(ConfigError::NotFound { path: self.child_path(name) }),
            Some(idx) => match &self.entries[idx].1 {
                ConfigValue::Int(v) => Ok(*v),
                other => Err(
                    ConfigError::TypeMismatch {
                        path: self.child_path(name),
                        expected_ty: "integer".to_owned(),
                        actual_ty: type_name_of(other),
                    },
                ),
            },
        }
    }

    /// The unsigned integer under `name`: a negative integer is rejected as
    /// a type mismatch.
    pub fn get_u64(&self, name: &String) -> (r: Result<u64, ConfigError>)
        ensures
            match scope_lookup(self.entries@, name@) {
                Some(v) => if v is Int && v->Int_0 >= 0 {
                    r is Ok && r->Ok_0 == v->Int_0 as u64
                } else {
                    r is Err && r->Err_0 is TypeMismatch
                },
                None => r is Err && r->Err_0 is NotFound,
            },
    {
        match self.get_doc(name) {
            None => Err(ConfigError::NotFound { path: self.child_path(name) }),
            Some(idx) => match &self.entries[idx].1 {
                ConfigValue::Int(v) => if *v >= 0 {
                    Ok(*v as u64)
                } else {
                    Err(
                        ConfigError::TypeMismatch {
                            path: self.child_path(name),
                            expected_ty: "unsigned integer".to_owned(),
                            actual_ty: "integer".to_owned(),
                        },
                    )
                },
                other => Err(
                    ConfigError::TypeMismatch {
                        path: self.child_path(name),
                        expected_ty: "unsigned integer".to_owned(),
                        actual_ty: type_name_of(other),
                    },
                ),
            },
        }
    }

    /// The IEEE-754 bit pattern of the real under `name`.
    pub fn get_real_bits(&self, name: &String) -> (r: Result<u64, ConfigError>)
        ensures
            match scope_lookup(self.entries@, name@) {
                Some(v) => if v is RealBits {
                    r is Ok && r->Ok_0 == v->RealBits_0
                } else {
                    r is Err && r->Err_0 is TypeMismatch
                },
                None => r is Err && r->Err_0 is NotFound,
            },
    {
        match self.get_doc(name) {
            None => Err(ConfigError::NotFound { path: self.child_path(name) }),
            Some(idx) => match &self.entries[idx].1 {
                ConfigValue::RealBits(v) => Ok(*v),
                other => Err(
                    ConfigError::TypeMismatch {
                        path: self.child_path(name),
                        expected_ty: "real".to_owned(),
                        actual_ty: type_name_of(other),
                    },
                ),
            },
        }
    }

    /// The boolean under `name`.
    pub fn get_bool(&self, name: &String) -> (r: Result<bool, ConfigError>)
        ensures
            match scope_lookup(self.entries@, name@) {
                Some(v) => if v is Bool {
                    r is Ok && r->Ok_0 == v->Bool_0
                } else {
                    r is Err && r->Err_0 is TypeMismatch
                },
                None => r is Err && r->Err_0 is NotFound,
            },
    {
        match self.get_doc(name) {
            None => Err(ConfigError::NotFound { path: self.child_path(name) }),
            Some(idx) => match &self.entries[idx].1 {
                ConfigValue::Bool(v) => Ok(*v),
                other => Err(
                    ConfigError::TypeMismatch {
                        path: self.child_path(name),
                        expected_ty: "boolean".to_owned(),
                        actual_ty: type_name_of(other),
                    },
                ),
            },
        }
    }

    /// The sub-scope under `name`, carrying the extended path. The scope is
    /// taken apart: the subtree moves out of it.
    pub fn into_subconfig(self, name: &String) -> (r: Result<Config, ConfigError>)
        ensures
            match scope_lookup(self.entries@, name@) {
                Some(v) => if v is Scope {
                    r is Ok && r->Ok_0.entries == v->Scope_0 && (r->Ok_0.path)@ == self.path@
                        + "/"@ + name@
                } else {
                    r is Err && r->Err_0 is TypeMismatch
                },
                None => r is Err && r->Err_0 is NotFound,
            },
    {
        let path = self.child_path(name);
        match self.get_doc(name) {
            None => Err(ConfigError::NotFound { path }),
            Some(idx) => {
                let mut entries = self.entries;
                let entry = entries.remove(idx);
                match entry.1 {
                    ConfigValue::Scope(sub) => Ok(Config { entries: sub, path }),
                    other => Err(
                        ConfigError::TypeMismatch {
                            path,
                            expected_ty: "dict".to_owned(),
                            actual_ty: type_name_of(&other),
                        },
                    ),
                }
            },
        }
    }
}

} // verus!
