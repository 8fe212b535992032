//! A versioned configuration cell: a value and a version number that every
//! update bumps, so that a reader detects a change by comparing versions.
use vstd::prelude::*;
use vstd::string::StringExecFns;

verus! {

/// A configuration value with a version that counts its updates.
#[derive(Debug)]
pub struct ConfigCell<T> {
    value: T,
    version: u64,
}

impl<T> View for ConfigCell<T> {
    /// The value and its version.
    type V = (T, u64);

    closed spec fn view(&self) -> (T, u64) {
        (self.value, self.version)
    }
}

impl<T: Clone> ConfigCell<T> {
    /// A cell holding `initial`, at version 0.
    pub fn new(initial: T) -> (c: Self)
        ensures
            c@ == (initial, 0u64),
    {
        ConfigCell { value: initial, version: 0 }
    }

    /// A copy of the value, and the version.
    pub fn get(&self) -> (r: (T, u64))
        ensures
            cloned(self@.0, r.0),
            r.1 == self@.1,
    {
        (self.value.clone(), self.version)
    }

    /// A copy of the value and the version when the version differs from
    /// `last_seen`; nothing and `last_seen` otherwise.
    pub fn check(&self, last_seen: u64) -> (r: (Option<T>, u64))
        ensures
            self@.1 != last_seen ==> r.0 is Some && cloned(self@.0, r.0->Some_0) && r.1 == self@.1,
            self@.1 == last_seen ==> r.0 is None && r.1 == last_seen,
    {
        if self.version != last_seen {
            (Some(self.value.clone()), self.version)
        } else {
            (None, last_seen)
        }
    }

    /// Replaces the value and bumps the version by one (wrapping past the
    /// largest version).
    pub fn update(&mut self, new: T)
        ensures
            final(self)@ == (new, old(self)@.1.wrapping_add(1)),
    {
        self.value = new;
        self.version = self.version.wrapping_add(1);
    }

    /// The version, without reading the value.
    pub fn version(&self) -> (v: u64)
        ensures
            v == self@.1,
    {
        self.version
    }
}

/// The value and version after the updates `ys`, applied in order.
pub open spec fn after_updates<T>(c: (T, u64), ys: Seq<T>) -> (T, u64)
    decreases ys.len(),
{
    if ys.len() == 0 {
        c
    } else {
        after_updates((ys[0], c.1.wrapping_add(1)), ys.drop_first())
    }
}

/// After `k` updates of a new cell (`k` within the version range) the
/// version is `k` and the value is the last one written, or the initial
/// value when there was none.
pub proof fn lemma_updates_count<T>(x: T, ys: Seq<T>)
    requires
        ys.len() <= u64::MAX,
    ensures
        after_updates((x, 0u64), ys) == (if ys.len() == 0 { x } else { ys.last() }, ys.len() as u64),
{
    lemma_updates_from(x, 0, ys);
}

proof fn lemma_updates_from<T>(x: T, v: u64, ys: Seq<T>)
    requires
        v + ys.len() <= u64::MAX,
    ensures
        after_updates((x, v), ys) == (if ys.len() == 0 { x } else { ys.last() }, (v + ys.len()) as u64),
    decreases ys.len(),
{
    if ys.len() > 0 {
        assert(v.wrapping_add(1) == v + 1);
        lemma_updates_from(ys[0], (v + 1) as u64, ys.drop_first());
        if ys.len() > 1 {
            assert(ys.drop_first().last() == ys.last());
        }
    }
}

/// After an update a reader that saw the old version sees a change, and
/// the value it reads is the one written.
pub proof fn lemma_update_is_seen<T>(before: (T, u64), new: T)
    ensures
        ({
            let after = (new, before.1.wrapping_add(1));
            &&& after.1 != before.1
            &&& after.0 == new
        }),
{
    let v: u64 = before.1;
    assert(v.wrapping_add(1) != v);
}

/// An error of a configuration operation.
#[derive(Debug)]
pub enum ConfigError {
    /// No configuration key of that name.
    KeyNotFound(&'static str),
    /// The value does not have the expected type.
    TypeMismatch { key: &'static str, expected: &'static str },
    /// The value is not acceptable.
    InvalidValue { key: &'static str, reason: String },
}

/// The text of a configuration error.
pub open spec fn config_error_text(e: &ConfigError) -> Seq<char> {
    match e {
        ConfigError::KeyNotFound(k) => "config key not found: "@ + k@,
        ConfigError::TypeMismatch { key, expected } => "config type mismatch for '"@ + key@ + "': expected "@ + expected@,
        ConfigError::InvalidValue { key, reason } => "invalid config value for '"@ + key@ + "': "@ + reason@,
    }
}

impl ConfigError {
    /// The human-readable text of the error.
    pub fn message(&self) -> (m: String)
        ensures
            m@ == config_error_text(self),
    {
        match self {
            ConfigError::KeyNotFound(k) => String::from_str("config key not found: ").concat(k),
            ConfigError::TypeMismatch { key, expected } => String::from_str("config type mismatch for '").concat(key).concat(
                "': expected ",
            ).concat(expected),
            ConfigError::InvalidValue { key, reason } => String::from_str("invalid config value for '").concat(key).concat(
                "': ",
            ).concat(reason.as_str()),
        }
    }
}

} // verus!
