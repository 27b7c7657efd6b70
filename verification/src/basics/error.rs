use vstd::prelude::*;
use crate::text::push_all;

verus! {

/// Errors produced by identifier and version parsing.
#[derive(Debug, Clone, PartialEq, Eq)]
pub enum CoreError {
    /// An identifier did not match its canonical pattern.
    InvalidId {
        /// Kind of id (e.g. "instance", "obligation").
        kind: &'static str,
        /// The expected pattern.
        pattern: &'static str,
        /// The offending value.
        value: String,
    },
    /// A version string did not match its canonical pattern.
    InvalidVersion {
        /// Kind of version (e.g. "benchmark", "schema", "metrics", "rubric").
        kind: &'static str,
        /// The expected pattern.
        pattern: &'static str,
        /// The offending value.
        value: String,
    },
    /// An enum discriminant was unknown.
    UnknownVariant {
        /// Enum name.
        kind: &'static str,
        /// The unknown value.
        value: String,
    },
}

impl CoreError {
    /// `self` reports `value` as an invalid id.
    pub open spec fn is_invalid_id_for(self, value: Seq<char>) -> bool {
        match self {
            CoreError::InvalidId { value: v, .. } => v@ == value,
            _ => false,
        }
    }

    /// `self` reports `value` as an invalid version.
    pub open spec fn is_invalid_version_for(self, value: Seq<char>) -> bool {
        match self {
            CoreError::InvalidVersion { value: v, .. } => v@ == value,
            _ => false,
        }
    }

    /// Human-readable description of the error.
    pub open spec fn message_spec(self) -> Seq<char> {
        match self {
            CoreError::InvalidId { kind, pattern, value } => "invalid "@ + kind@ + " id: expected pattern '"@
                + pattern@ + "', got '"@ + value@ + "'"@,
            CoreError::InvalidVersion { kind, pattern, value } => "invalid "@ + kind@
                + " version: expected pattern '"@ + pattern@ + "', got '"@ + value@ + "'"@,
            CoreError::UnknownVariant { kind, value } => "unknown "@ + kind@ + " variant: '"@ + value@ + "'"@,
        }
    }

    /// `self` reports `value` as an unknown variant.
    pub open spec fn is_unknown_variant_for(self, value: Seq<char>) -> bool {
        match self {
            CoreError::UnknownVariant { value: v, .. } => v@ == value,
            _ => false,
        }
    }
}

impl CoreError {
    /// Human-readable description of the error.
    pub fn message(&self) -> (m: String)
        ensures
            m@ == self.message_spec(),
    {
        let mut m = String::new();
        match self {
            CoreError::InvalidId { kind, pattern, value } => {
                push_all(&mut m, "invalid ");
                push_all(&mut m, kind);
                push_all(&mut m, " id: expected pattern '");
                push_all(&mut m, pattern);
                push_all(&mut m, "', got '");
                push_all(&mut m, value.as_str());
                push_all(&mut m, "'");
            },
            CoreError::InvalidVersion { kind, pattern, value } => {
                push_all(&mut m, "invalid ");
                push_all(&mut m, kind);
                push_all(&mut m, " version: expected pattern '");
                push_all(&mut m, pattern);
                push_all(&mut m, "', got '");
                push_all(&mut m, value.as_str());
                push_all(&mut m, "'");
            },
            CoreError::UnknownVariant { kind, value } => {
                push_all(&mut m, "unknown ");
                push_all(&mut m, kind);
                push_all(&mut m, " variant: '");
                push_all(&mut m, value.as_str());
                push_all(&mut m, "'");
            },
        }
        proof {
            assert(m@ =~= self.message_spec());
        }
        m
    }
}

} // verus!
