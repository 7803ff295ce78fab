//! TLS modes.

use vstd::prelude::*;
use vstd::string::*;

use crate::text::{lower_of, text_is, to_lower};

verus! {

/// How the server treats TLS.
#[derive(Debug, Clone, Copy, PartialEq, Eq, Structural)]
pub enum TlsMode {
    /// Plain TCP only.
    Disabled,
    /// TLS accepted, plain TCP too.
    Prefer,
    /// TLS required.
    Require,
}

/// The mode that a lower-case name stands for.
pub open spec fn mode_named(s: Seq<char>) -> Option<TlsMode> {
    if s == "disable"@ || s == "disabled"@ {
        Some(TlsMode::Disabled)
    } else if s == "prefer"@ || s == "optional"@ {
        Some(TlsMode::Prefer)
    } else if s == "require"@ || s == "required"@ {
        Some(TlsMode::Require)
    } else {
        None
    }
}

impl TlsMode {
    /// Reads a mode name, case-insensitively: `disable(d)`, `prefer` or
    /// `optional`, `require(d)`.
    pub fn from_str(s: &str) -> (r: Result<TlsMode, String>)
        ensures
            r is Ok <==> mode_named(lower_of(s@)) is Some,
            r matches Ok(m) ==> mode_named(lower_of(s@)) == Some(m),
    {
        let lower = to_lower(s);
        if text_is(&lower, "disable") || text_is(&lower, "disabled") {
            Ok(TlsMode::Disabled)
        } else if text_is(&lower, "prefer") || text_is(&lower, "optional") {
            Ok(TlsMode::Prefer)
        } else if text_is(&lower, "require") || text_is(&lower, "required") {
            Ok(TlsMode::Require)
        } else {
            Err(String::from_str("Invalid TLS mode. Use 'disable', 'prefer', or 'require'"))
        }
    }

    /// Whether TLS is in use at all.
    pub fn is_enabled(&self) -> (r: bool)
        ensures
            r == (*self != TlsMode::Disabled),
    {
        !matches!(self, TlsMode::Disabled)
    }

    /// Whether plain connections are refused.
    pub fn is_required(&self) -> (r: bool)
        ensures
            r == (*self == TlsMode::Require),
    {
        matches!(self, TlsMode::Require)
    }
}

} // verus!
