//! Errors of restoring a stateful entity from a checkpoint.
use vstd::prelude::*;
use vstd::string::StringExecFns;
use crate::strings::{decimal, decimal_string};
use crate::resource::MachinePhysicalSpec;

verus! {

/// Why a checkpoint could not be restored.
#[derive(Debug)]
pub enum EntityRestoreError {
    NotSupported,
    ChecksumMismatch,
    VersionMismatch { expected: u32, actual: u32 },
    DeserializationFailed(String),
}

/// The text of a restore error.
pub open spec fn restore_error_text(e: &EntityRestoreError) -> Seq<char> {
    match e {
        EntityRestoreError::NotSupported => "checkpoint/restore not supported"@,
        EntityRestoreError::ChecksumMismatch => "checkpoint checksum mismatch"@,
        EntityRestoreError::VersionMismatch { expected, actual } => "version mismatch: expected "@ + decimal(*expected as nat)
            + ", got "@ + decimal(*actual as nat),
        EntityRestoreError::DeserializationFailed(s) => "deserialization failed: "@ + s@,
    }
}

impl EntityRestoreError {
    /// The human-readable text of the error.
    pub fn message(&self) -> (m: String)
        ensures
            m@ == restore_error_text(self),
    {
        match self {
            EntityRestoreError::NotSupported => String::from_str("checkpoint/restore not supported"),
            EntityRestoreError::ChecksumMismatch => String::from_str("checkpoint checksum mismatch"),
            EntityRestoreError::VersionMismatch { expected, actual } => {
                let e = decimal_string(*expected as u64);
                let a = decimal_string(*actual as u64);
                String::from_str("version mismatch: expected ").concat(e.as_str()).concat(", got ").concat(a.as_str())
            },
            EntityRestoreError::DeserializationFailed(s) => String::from_str("deserialization failed: ").concat(s.as_str()),
        }
    }
}

/// A stateful entity of a deployment: a state with a name, a physical
/// declaration, and optional checkpoints.
pub trait Entity {
    type State;

    /// The entity's name.
    fn name() -> &'static str;

    /// How the entity runs; untouched by default.
    fn physical_spec() -> (p: MachinePhysicalSpec)
        default_ensures
            crate::resource::is_default_physical(p),
    {
        MachinePhysicalSpec::default()
    }

    /// A checkpoint of the state; none by default.
    fn checkpoint(_state: &Self::State) -> (r: Option<Vec<u8>>)
        default_ensures
            r is None,
    {
        None
    }

    /// Restores the state from a checkpoint; not supported by default.
    fn restore(_state: &mut Self::State, _data: &[u8]) -> (r: Result<(), EntityRestoreError>)
        default_ensures
            r == Err::<(), EntityRestoreError>(EntityRestoreError::NotSupported),
            *final(_state) == *old(_state),
    {
        Err(EntityRestoreError::NotSupported)
    }
}

} // verus!
