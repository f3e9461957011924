//! Typed error values of the library, each with a stable wire code.

use vstd::prelude::*;
use core::time::Duration;
use crate::config::{duration_as_millis, saturated_millis, saturating_millis};
use crate::identity::IdentityError;
use crate::model::EditorStructure;

verus! {

#[derive(Clone, Copy, Debug, PartialEq, Eq, Structural)]
pub enum SamplingError {
    EmptyAnswerDomain,
    EmptyLayers,
    LayerMinimumExceedsWorksheet { minimum_total: usize, problem_count: usize },
    LayerOutOfRange { index: usize, layer_count: usize },
    InsufficientDistinctCandidates { required: usize, available: usize },
    ExhaustiveFiniteDomainSizeMismatch { worksheet_size: usize, domain_size: usize },
    ZeroBootstrapMultiplier,
    AnswerConditionMismatch,
    RequestedLayerMismatch { requested: usize, actual: usize },
}

#[derive(Clone, Copy, Debug, PartialEq, Eq)]
pub enum RegistryError {
    DuplicateThemeId { numeric_theme_id: u32 },
}

#[derive(Clone, Debug, PartialEq, Eq)]
pub enum GenerationError {
    Timeout { timeout_ms: u64 },
    AttemptLimit { attempts: u64, max_attempts: u64 },
    UnsupportedSchemaVersion { received: u16, expected: u16 },
    UnknownTheme { numeric_theme_id: u32 },
    UnknownGeneratorRevision { numeric_theme_id: u32, generator_revision: u32 },
    InvalidIdentity(IdentityError),
    InvalidRegistry(RegistryError),
    InvalidSampling(SamplingError),
    InvalidGeneratedProblem { reason: &'static str },
    InvalidGeneratedWorksheet { reason: &'static str },
}

impl GenerationError {
    pub fn code(&self) -> (r: &'static str)
        ensures
            r@ == generation_error_code(*self),
    {
        match self {
            Self::Timeout { .. } => "generation_timeout",
            Self::AttemptLimit { .. } => "generation_attempt_limit",
            Self::UnsupportedSchemaVersion { .. } => "unsupported_schema_version",
            Self::UnknownTheme { .. } => "unknown_theme",
            Self::UnknownGeneratorRevision { .. } => "unknown_generator_revision",
            Self::InvalidIdentity(IdentityError::UnsupportedSchemaVersion { .. }) => {
                "unsupported_schema_version"
            },
            Self::InvalidIdentity(_) => "invalid_problem_set_identity",
            Self::InvalidRegistry(_) => "invalid_registry",
            Self::InvalidSampling(_) => "invalid_sampling_strategy",
            Self::InvalidGeneratedProblem { .. } => "invalid_generated_problem",
            Self::InvalidGeneratedWorksheet { .. } => "invalid_generated_worksheet",
        }
    }

    /// The timeout error for a timeout of `timeout`, in whole
    /// milliseconds saturated to `u64`.
    pub fn timeout(timeout: Duration) -> (r: Self)
        ensures
            r == (GenerationError::Timeout { timeout_ms: saturated_millis(duration_as_millis(timeout)) }),
    {
        Self::Timeout { timeout_ms: saturating_millis(timeout) }
    }

    /// The timeout error for a timeout of `timeout_ms` milliseconds.
    pub fn timeout_millis(timeout_ms: u64) -> (r: Self)
        ensures
            r == (GenerationError::Timeout { timeout_ms }),
    {
        Self::Timeout { timeout_ms }
    }
}

pub open spec fn generation_error_code(e: GenerationError) -> Seq<char> {
    match e {
        GenerationError::Timeout { .. } => "generation_timeout"@,
        GenerationError::AttemptLimit { .. } => "generation_attempt_limit"@,
        GenerationError::UnsupportedSchemaVersion { .. } => "unsupported_schema_version"@,
        GenerationError::UnknownTheme { .. } => "unknown_theme"@,
        GenerationError::UnknownGeneratorRevision { .. } => "unknown_generator_revision"@,
        GenerationError::InvalidIdentity(IdentityError::UnsupportedSchemaVersion { .. }) => "unsupported_schema_version"@,
        GenerationError::InvalidIdentity(_) => "invalid_problem_set_identity"@,
        GenerationError::InvalidRegistry(_) => "invalid_registry"@,
        GenerationError::InvalidSampling(_) => "invalid_sampling_strategy"@,
        GenerationError::InvalidGeneratedProblem { .. } => "invalid_generated_problem"@,
        GenerationError::InvalidGeneratedWorksheet { .. } => "invalid_generated_worksheet"@,
    }
}

#[derive(Clone, Copy, Debug, PartialEq, Eq, Structural)]
pub enum EditorError {
    AnswerSizeLimit { max_size: usize },
    StructureNotAllowed { structure: EditorStructure },
    InputInterfaceViolation,
    InvalidPath,
    InvalidDigit,
    NegativeDraft,
    UnsupportedDraftNode,
    IntegerOverflow,
}


/// Why a generated problem breaks one of its invariants.
#[derive(Clone, Copy, Debug, PartialEq, Eq, Structural)]
pub enum ProblemInvariantError {
    PromptKind,
    WireIntegerRange,
    AnswerSchemaKind,
    InvalidAnswerSchema,
    CanonicalAnswer,
    AnswerContract,
    AnswerSemantics,
    WorkedSolution,
}

pub open spec fn problem_invariant_description(e: ProblemInvariantError) -> Seq<char> {
    match e {
        ProblemInvariantError::PromptKind => "prompt does not satisfy the registered theme contract"@,
        ProblemInvariantError::WireIntegerRange => "problem contains an integer that cannot cross the JavaScript wire exactly"@,
        ProblemInvariantError::AnswerSchemaKind => "answer schema kind does not satisfy the registered theme contract"@,
        ProblemInvariantError::InvalidAnswerSchema => "answer schema is structurally invalid"@,
        ProblemInvariantError::CanonicalAnswer => "canonical answer does not satisfy the answer schema"@,
        ProblemInvariantError::AnswerContract => "canonical answer does not satisfy the registered theme contract"@,
        ProblemInvariantError::AnswerSemantics => "canonical answer does not solve the problem prompt"@,
        ProblemInvariantError::WorkedSolution => "worked solution cannot be derived from the problem semantics"@,
    }
}

impl ProblemInvariantError {
    /// A sentence that says which invariant broke.
    pub fn description(self) -> (r: &'static str)
        ensures
            r@ == problem_invariant_description(self),
    {
        match self {
            Self::PromptKind => "prompt does not satisfy the registered theme contract",
            Self::WireIntegerRange => "problem contains an integer that cannot cross the JavaScript wire exactly",
            Self::AnswerSchemaKind => "answer schema kind does not satisfy the registered theme contract",
            Self::InvalidAnswerSchema => "answer schema is structurally invalid",
            Self::CanonicalAnswer => "canonical answer does not satisfy the answer schema",
            Self::AnswerContract => "canonical answer does not satisfy the registered theme contract",
            Self::AnswerSemantics => "canonical answer does not solve the problem prompt",
            Self::WorkedSolution => "worked solution cannot be derived from the problem semantics",
        }
    }
}

} // verus!
