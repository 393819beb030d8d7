//! Machine-wide daemon configuration.

use vstd::prelude::*;

verus! {

/// Machine-wide configuration.
#[derive(Debug, Clone, Copy, PartialEq, Eq, Structural)]
pub struct GlobalConfig {
    pub server: ServerConfig,
    pub updates: UpdateConfig,
}

/// Configuration for automatic update checks.
#[derive(Debug, Clone, Copy, PartialEq, Eq, Structural)]
pub struct UpdateConfig {
    /// Whether to check for updates when running `locald up`; opt-in.
    pub auto_check: bool,
}

/// Server binding policy.
#[derive(Debug, Clone, Copy, PartialEq, Eq, Structural)]
pub struct ServerConfig {
    /// Sandbox mode: skip privileged port binding (80/443) and cert trust.
    pub sandbox: bool,
    /// The legacy `privileged_ports` setting, when an old file has one.
    pub privileged_ports_compat: Option<bool>,
}

impl ServerConfig {
    /// Effective sandbox state: explicit `sandbox = true`, or legacy
    /// `privileged_ports = false`.
    pub fn is_sandbox(&self) -> (r: bool)
        ensures
            r == (self.sandbox || self.privileged_ports_compat == Some(false)),
    {
        if self.sandbox {
            return true;
        }
        match self.privileged_ports_compat {
            Some(false) => true,
            _ => false,
        }
    }
}

} // verus!
