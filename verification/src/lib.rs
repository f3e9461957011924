use vstd::prelude::*;

pub mod answer;
pub mod config;
pub mod curriculum;
pub mod editor;
pub mod effort;
pub mod error;
pub mod exact;
pub mod exact_value;
pub mod generation;
pub mod generator_support;
pub mod grade;
pub mod identity;
pub mod input;
pub mod mathlive_input;
pub mod model;
pub mod normalize;
pub mod registry;
pub mod rng;
pub mod sampling;
pub mod schema;
pub mod semantics;
pub mod solutions;
pub mod text;
pub mod theme;
pub mod worked;

pub use answer::{AnswerBinaryOperator, AnswerNode, MAX_ANSWER_AST_SIZE};
pub use error::{EditorError, GenerationError};
pub use grade::{grade_answer, grade_answer_with_schema, GradeError};
pub use identity::{
    validate_seed, Difficulty, IdentityError, ProblemSetIdentity, MAX_DIFFICULTY, MAX_SEED_LENGTH,
    MIN_DIFFICULTY,
};
pub use mathlive_input::parse_mathlive_answer;
pub use model::{
    AnswerInputInterface, AnswerSchema, EditorStructure, GradeResult, GradeStatus, GradeWarning,
};
pub use normalize::normalize_answer;
pub use schema::SCHEMA_VERSION;

verus! {
} // verus!
