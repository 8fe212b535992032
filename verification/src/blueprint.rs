//! Blueprints: deployment specifications written as data. Reading the text
//! is done outside the library; here a parsed specification is checked, and
//! the errors of the whole path are described.
use vstd::prelude::*;
use vstd::string::StringExecFns;
use crate::deploy::{DynamicTopology, MachineInstance, MachineInstanceView};
use crate::link::{LinkKind, LinkSpec, LinkSpecView};
use crate::resource::MachinePhysicalSpec;
use crate::validate::{ValidationError, ValidationErrorView, verdict, structural_verdict, error_text};
use crate::strings::{decimal, decimal_string};

verus! {

/// Why a blueprint was not accepted.
#[derive(Debug)]
pub enum BlueprintError {
    /// The text is not well-formed, at `line` and `column`.
    Parse { message: String, line: usize, column: usize },
    /// The text is well-formed but not a deployment specification.
    Invalid { message: String, path: String },
    /// The specification breaks a structural rule.
    Validate(ValidationError),
}

/// The text of a blueprint error.
pub open spec fn blueprint_error_text(e: &BlueprintError) -> Seq<char> {
    match e {
        BlueprintError::Parse { message, line, column } => "blueprint parse error at "@ + decimal(*line as nat) + ":"@
            + decimal(*column as nat) + ": "@ + message@,
        BlueprintError::Invalid { message, path } => "blueprint invalid at "@ + path@ + ": "@ + message@,
        BlueprintError::Validate(v) => "blueprint violates invariants: "@ + error_text(v@),
    }
}

impl BlueprintError {
    /// The human-readable text of the error.
    pub fn message(&self) -> (m: String)
        ensures
            m@ == blueprint_error_text(self),
    {
        match self {
            BlueprintError::Parse { message, line, column } => {
                let l = decimal_string(*line as u64);
                let c = decimal_string(*column as u64);
                String::from_str("blueprint parse error at ").concat(l.as_str()).concat(":").concat(c.as_str()).concat(
                    ": ",
                ).concat(message.as_str())
            },
            BlueprintError::Invalid { message, path } => String::from_str("blueprint invalid at ").concat(path.as_str()).concat(
                ": ",
            ).concat(message.as_str()),
            BlueprintError::Validate(v) => {
                let t = v.message();
                String::from_str("blueprint violates invariants: ").concat(t.as_str())
            },
        }
    }
}

/// Accepts a parsed specification when it passes the structural checks,
/// and refuses it with the first structural error otherwise.
pub fn accept_parsed(spec: DynamicTopology) -> (r: Result<DynamicTopology, BlueprintError>)
    ensures
        match r {
            Ok(s) => s@ == spec@ && structural_verdict(spec@) is Ok,
            Err(BlueprintError::Validate(e)) => structural_verdict(spec@) == Err::<(), ValidationErrorView>(e@),
            Err(_) => false,
        },
{
    match spec.validate() {
        Ok(()) => Ok(spec),
        Err(e) => Err(BlueprintError::Validate(e)),
    }
}

/// A machine instance from its parts, as a blueprint writes them.
pub fn machine(name: &str, machine_type: &str, physical: MachinePhysicalSpec) -> (m: MachineInstance)
    ensures
        m@ == (MachineInstanceView {
            name: name@,
            machine_type: machine_type@,
            physical,
            config_overrides: Seq::empty(),
            is_moore: false,
        }),
{
    MachineInstance::new(name, machine_type, physical)
}

/// A link from machine and port names, as a blueprint writes them.
pub fn link(out: (&str, &str), into: (&str, &str), kind: LinkKind) -> (l: LinkSpec)
    ensures
        l@ == (LinkSpecView { out: (out.0@, out.1@), into: (into.0@, into.1@), kind }),
{
    LinkSpec::new(out, into, kind)
}

} // verus!
