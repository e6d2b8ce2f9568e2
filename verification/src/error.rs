//! Error types for components.
//!
//! Every component returns [`ComponentResult`]. Errors are structured so that
//! a shim can map them to the engine's own exceptions without string parsing.

use crate::text;
use vstd::prelude::*;
use vstd::string::*;

verus! {

/// The result type returned by all component operations.
pub type ComponentResult<T> = Result<T, ComponentError>;

/// A structured error from a component.
///
/// The variants are deliberately coarse: the engine cares about "is this a bug
/// or is this load", not the internal details.
#[derive(Debug)]
pub enum ComponentError {
    /// The input buffers or metadata are invalid for this step. This is a bug
    /// in the shim or the engine's adapter code, not a transient failure.
    InvalidInput(String),
    /// The component's internal state is inconsistent. The engine should fall
    /// back to stock and report the error.
    Internal {
        /// Which component produced the error (e.g. "infe-kv").
        component: &'static str,
        /// Human-readable detail.
        detail: String,
    },
    /// A buffer was too small for the step's output. The engine can reallocate
    /// and retry the step.
    BufferTooSmall {
        /// Bytes needed.
        needed: usize,
        /// Bytes available in the output buffer.
        have: usize,
    },
    /// A feature is not supported by this component at this engine version.
    /// The engine should fall back to stock for this feature.
    UnsupportedFeature(String),
    /// The component's manifest declares this engine version as unsupported.
    UnsupportedEngine {
        /// Component name.
        component: &'static str,
        /// The engine version that was attempted.
        version: String,
        /// The supported semver range from the manifest.
        range: String,
    },
}

impl ComponentError {
    /// The message of the error.
    pub open spec fn text(self) -> Seq<char> {
        match self {
            ComponentError::InvalidInput(what) => "invalid input: "@ + what@,
            ComponentError::Internal { component, detail } => "internal error in "@ + component@
                + ": "@ + detail@,
            ComponentError::BufferTooSmall { needed, have } => "buffer too small: needed "@
                + text::decimal(needed as nat) + " bytes, have "@ + text::decimal(have as nat),
            ComponentError::UnsupportedFeature(what) => "unsupported feature: "@ + what@,
            ComponentError::UnsupportedEngine { component, version, range } => "engine version "@
                + version@ + " not supported by "@ + component@ + " (requires "@ + range@ + ")"@,
        }
    }

    /// The message of the error.
    pub fn to_text(&self) -> (s: String)
        ensures
            s@ == self.text(),
    {
        match self {
            ComponentError::InvalidInput(what) => String::from_str("invalid input: ").concat(
                what.as_str(),
            ),
            ComponentError::Internal { component, detail } => String::from_str(
                "internal error in ",
            ).concat(component).concat(": ").concat(detail.as_str()),
            ComponentError::BufferTooSmall { needed, have } => String::from_str(
                "buffer too small: needed ",
            ).concat(text::decimal_text(*needed as u64).as_str()).concat(" bytes, have ").concat(
                text::decimal_text(*have as u64).as_str(),
            ),
            ComponentError::UnsupportedFeature(what) => String::from_str(
                "unsupported feature: ",
            ).concat(what.as_str()),
            ComponentError::UnsupportedEngine { component, version, range } => String::from_str(
                "engine version ",
            ).concat(version.as_str()).concat(" not supported by ").concat(component).concat(
                " (requires ",
            ).concat(range.as_str()).concat(")"),
        }
    }

    /// Convenience constructor for [`ComponentError::Internal`].
    pub fn internal(component: &'static str, detail: &str) -> (e: Self)
        ensures
            e matches ComponentError::Internal { component: c, detail: d } && c == component && d@
                == detail@,
    {
        ComponentError::Internal { component, detail: String::from_str(detail) }
    }

    /// Whether this error is transient (retryable) or permanent (fall back).
    ///
    /// Only [`ComponentError::BufferTooSmall`] is transient: the engine can
    /// reallocate and retry. All others indicate a bug or an unsupported
    /// feature that requires falling back to the stock path.
    pub fn is_transient(&self) -> (r: bool)
        ensures
            r == (self is BufferTooSmall),
    {
        matches!(self, ComponentError::BufferTooSmall { .. })
    }

    /// Whether this error should cause the engine to fall back to stock: an
    /// error either is transient or requires this, never both.
    pub fn requires_fallback(&self) -> (r: bool)
        ensures
            r == !(self is BufferTooSmall),
    {
        !self.is_transient()
    }
}

/// The message of an error says what it holds, all of it, behind words that tell the
/// errors apart.
pub proof fn law_messages(what: String, component: &'static str, other: String, a: usize, b: usize)
    ensures
        ComponentError::InvalidInput(what).text() == "invalid input: "@ + what@,
        (ComponentError::Internal { component, detail: what }).text() == "internal error in "@
            + component@ + ": "@ + what@,
        (ComponentError::BufferTooSmall { needed: a, have: b }).text()
            == "buffer too small: needed "@ + text::decimal(a as nat) + " bytes, have "@
            + text::decimal(b as nat),
        ComponentError::UnsupportedFeature(what).text() == "unsupported feature: "@ + what@,
        (ComponentError::UnsupportedEngine { component, version: what, range: other }).text()
            == "engine version "@ + what@ + " not supported by "@ + component@ + " (requires "@
            + other@ + ")"@,
{
}

/// An error either is transient or requires falling back, never both and never
/// neither. A buffer that is too small is the one that is transient.
pub proof fn law_transient_or_fallback(e: ComponentError, transient: bool, fallback: bool)
    requires
        call_ensures(ComponentError::is_transient, (&e,), transient),
        call_ensures(ComponentError::requires_fallback, (&e,), fallback),
    ensures
        transient == !fallback,
        e is BufferTooSmall ==> transient,
        e is InvalidInput || e is Internal || e is UnsupportedFeature || e is UnsupportedEngine
            ==> fallback,
{
}

} // verus!
