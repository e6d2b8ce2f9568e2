//! Streaming tool-call and reasoning parsers for LLM inference engines, and
//! the step-granular component framework they plug into.
//!
//! The streaming parser is called once per engine step with a batch of
//! newly-decoded text chunks. It produces structured deltas
//! ([`ToolCallDelta`]s and [`ReasoningDelta`]s) in the `OpenAI` streaming
//! format. Each model dialect is a state machine implementing
//! [`DialectParser`]; the contracts say what each one makes of a text, and the
//! laws beside them say what holds however the text is cut into chunks.
//!
//! The framework has the step contract, typed views over buffers, structured
//! errors, component manifests and a step timer.

use vstd::prelude::*;

pub mod braces;
pub mod buffer;
pub mod call_laws;
pub mod dialects;
pub mod error;
pub mod ids;
pub mod json;
pub mod manifest;
pub mod manifest_laws;
pub mod parser;
pub mod registry;
pub mod step;
pub mod text;
pub mod text_laws;
pub mod timer;
pub mod types;

pub use buffer::{BufferView, BufferViewMut, DType};
pub use error::{ComponentError, ComponentResult};
pub use manifest::{ComponentManifest, EngineSupport, ManifestCapability};
pub use parser::{DialectParser, ParseResult, StreamingParser};
pub use registry::DialectRegistry;
pub use step::{StepContext, StepInput, StepOutput, StepPlan, StepRequest, StepResult};
pub use timer::StepTimer;
pub use types::{ParseError, ReasoningDelta, ToolCallArgState, ToolCallDelta, ToolCallState};

verus! {

/// The component name of the parsers, as used in the manifest and by
/// [`step::StepComponent`].
pub const COMPONENT_NAME: &'static str = "infe-parsers";

} // verus!
