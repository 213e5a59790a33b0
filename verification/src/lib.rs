//! Read-only auditing of the Windows `PATH`.
//!
//! The library works on plain data and never prints, reads or writes anything itself. What
//! the registry, the environment, the filesystem and the shells say reaches it through
//! functions and values that a front end hands in; what all of it amounts to is decided,
//! and proved, here.

pub mod audit;
pub mod compose;
pub mod constructs;
pub mod envelope;
pub mod executables;
pub mod json;
pub mod masking;
pub mod options;
pub mod pathext;
pub mod probe;
pub mod registry;
pub mod report;
pub mod resolution;
pub mod style;
pub mod table;
pub mod text;
pub mod winenv;

pub use crate::audit::{audit, audit_with};
pub use crate::envelope::JsonReport;
pub use crate::report::{
    AuditError, AuditOptions, AuditReport, Capability, Finding, Intercept, Interpreter,
    Occurrence, PathEntry, PathScope, Resolved, ShellConstruct, ShellScan, ValueKind,
    SCHEMA_VERSION,
};
