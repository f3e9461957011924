//! Theme registration: identity, curriculum placement, presentation policy,
//! answer contract and worksheet layout of each generator theme.

use vstd::prelude::*;

verus! {

/// Search and filter taxonomy only; behaviour lives in the typed policies.
#[derive(Clone, Copy, Debug, PartialEq, Eq, Hash, Structural)]
pub enum ThemeTag {
    Addition,
    Subtraction,
    Multiplication,
    Division,
    Fractions,
    Decimals,
    NegativeNumbers,
    Equations,
    LinearEquation,
    SimultaneousEquation,
    QuadraticEquation,
    Bonus,
}

#[derive(Clone, Copy, Debug, PartialEq, Eq, Structural)]
pub enum CurriculumSafetyPolicy {
    NonNegativeOnly,
    Unrestricted,
}

#[derive(Clone, Copy, Debug, PartialEq, Eq, Structural)]
pub enum FractionPresentationPolicy {
    NoFraction,
    MixedNumberWhenImproper,
    KeepImproperFraction,
}

#[derive(Clone, Copy, Debug, PartialEq, Eq, Structural)]
pub enum DedupPolicy {
    CanonicalizeCommutative,
    PreserveOperandOrder,
}

/// The single worksheet presentation from which every layout capability is
/// derived.
#[derive(Clone, Copy, Debug, PartialEq, Eq, Structural)]
pub enum WorksheetPresentation {
    Standard,
    Equation,
    Grid,
    ColumnArithmetic,
}

/// Presentation policy with mutually consistent capabilities: column
/// arithmetic always uses the page grid and carries the print
/// recommendation.
#[derive(Clone, Copy, Debug, PartialEq, Eq, Structural)]
pub struct ThemePresentationPolicy {
    worksheet: WorksheetPresentation,
    fraction: FractionPresentationPolicy,
}

impl View for ThemePresentationPolicy {
    type V = (WorksheetPresentation, FractionPresentationPolicy);

    closed spec fn view(&self) -> Self::V {
        (self.worksheet, self.fraction)
    }
}

pub open spec fn uses_worksheet_grid(w: WorksheetPresentation) -> bool {
    w is Grid || w is ColumnArithmetic
}

impl ThemePresentationPolicy {
    pub fn standard() -> (r: Self)
        ensures
            r@ == (WorksheetPresentation::Standard, FractionPresentationPolicy::NoFraction),
    {
        Self { worksheet: WorksheetPresentation::Standard, fraction: FractionPresentationPolicy::NoFraction }
    }

    pub fn equation() -> (r: Self)
        ensures
            r@ == (WorksheetPresentation::Equation, FractionPresentationPolicy::NoFraction),
    {
        Self { worksheet: WorksheetPresentation::Equation, fraction: FractionPresentationPolicy::NoFraction }
    }

    pub fn grid() -> (r: Self)
        ensures
            r@ == (WorksheetPresentation::Grid, FractionPresentationPolicy::NoFraction),
    {
        Self { worksheet: WorksheetPresentation::Grid, fraction: FractionPresentationPolicy::NoFraction }
    }

    pub fn column() -> (r: Self)
        ensures
            r@ == (WorksheetPresentation::ColumnArithmetic, FractionPresentationPolicy::NoFraction),
    {
        Self { worksheet: WorksheetPresentation::ColumnArithmetic, fraction: FractionPresentationPolicy::NoFraction }
    }

    pub fn with_fraction(self, fraction: FractionPresentationPolicy) -> (r: Self)
        ensures
            r@ == (self@.0, fraction),
    {
        Self { worksheet: self.worksheet, fraction }
    }

    pub fn worksheet_grid(self) -> (r: bool)
        ensures
            r == uses_worksheet_grid(self@.0),
    {
        matches!(self.worksheet, WorksheetPresentation::Grid | WorksheetPresentation::ColumnArithmetic)
    }

    pub fn column_arithmetic(self) -> (r: bool)
        ensures
            r == (self@.0 is ColumnArithmetic),
    {
        matches!(self.worksheet, WorksheetPresentation::ColumnArithmetic)
    }

    pub fn print_recommended(self) -> (r: bool)
        ensures
            r == (self@.0 is ColumnArithmetic),
    {
        self.column_arithmetic()
    }

    pub fn equation_layout(self) -> (r: bool)
        ensures
            r == (self@.0 is Equation),
    {
        matches!(self.worksheet, WorksheetPresentation::Equation)
    }

    pub fn fraction(self) -> (r: FractionPresentationPolicy)
        ensures
            r == self@.1,
    {
        self.fraction
    }
}

/// Column arithmetic always lays out on the page grid and is recommended
/// for printing; no policy can hold one capability without the others.
pub proof fn lemma_column_arithmetic_capabilities(p: ThemePresentationPolicy)
    ensures
        p@.0 is ColumnArithmetic ==> uses_worksheet_grid(p@.0),
        p@.0 is Equation ==> !uses_worksheet_grid(p@.0),
{
}

#[derive(Clone, Copy, Debug, PartialEq, Eq, Structural)]
pub enum ThemePromptKind {
    Addition,
    Arithmetic,
    ColumnArithmetic,
    LinearEquation,
    QuadraticEquation,
    SimultaneousEquation,
    LiarPuzzle,
    MiniSudoku,
}

#[derive(Clone, Copy, Debug, PartialEq, Eq, Structural)]
pub enum ThemeAnswerSchemaKind {
    Integer,
    Rational,
    Decimal,
    OrderedPair,
    Algebraic,
    OrderedTuple,
}

/// A validated school grade; bonus themes register no grade at all.
#[derive(Clone, Copy, Debug, PartialEq, Eq, Hash, PartialOrd, Ord, Structural)]
pub enum SchoolGrade {
    Elementary1,
    Elementary2,
    Elementary3,
    Elementary4,
    Elementary5,
    Elementary6,
    JuniorHigh1,
    JuniorHigh2,
    JuniorHigh3,
}

/// School years counted from the first elementary year.
pub open spec fn school_year(g: SchoolGrade) -> u8 {
    match g {
        SchoolGrade::Elementary1 => 1,
        SchoolGrade::Elementary2 => 2,
        SchoolGrade::Elementary3 => 3,
        SchoolGrade::Elementary4 => 4,
        SchoolGrade::Elementary5 => 5,
        SchoolGrade::Elementary6 => 6,
        SchoolGrade::JuniorHigh1 => 7,
        SchoolGrade::JuniorHigh2 => 8,
        SchoolGrade::JuniorHigh3 => 9,
    }
}

impl SchoolGrade {
    pub fn value(self) -> (r: u8)
        ensures
            r == school_year(self),
    {
        match self {
            Self::Elementary1 => 1,
            Self::Elementary2 => 2,
            Self::Elementary3 => 3,
            Self::Elementary4 => 4,
            Self::Elementary5 => 5,
            Self::Elementary6 => 6,
            Self::JuniorHigh1 => 7,
            Self::JuniorHigh2 => 8,
            Self::JuniorHigh3 => 9,
        }
    }
}

/// A digit-grid answer: `cell_count` cells, each one digit in
/// `min_digit..=max_digit`.
#[derive(Clone, Copy, Debug, PartialEq, Eq, Structural)]
pub struct DigitGridSpec {
    min_digit: u8,
    max_digit: u8,
    cell_count: u8,
}

impl View for DigitGridSpec {
    type V = (u8, u8, u8);

    closed spec fn view(&self) -> (u8, u8, u8) {
        (self.min_digit, self.max_digit, self.cell_count)
    }
}

impl DigitGridSpec {
    pub closed spec fn well_formed(self) -> bool {
        self.min_digit <= self.max_digit && self.cell_count > 0
    }

    /// A grid is well formed when its digit range is not empty and it has a
    /// cell.
    pub proof fn lemma_well_formed_view(self)
        ensures
            self.well_formed() <==> (self@.0 <= self@.1 && self@.2 > 0),
    {
    }

    pub fn new(min_digit: u8, max_digit: u8, cell_count: u8) -> (r: Self)
        requires
            min_digit <= max_digit,
            cell_count > 0,
        ensures
            r@ == (min_digit, max_digit, cell_count),
            r.well_formed(),
    {
        Self { min_digit, max_digit, cell_count }
    }

    pub fn min_digit(self) -> (r: u8)
        ensures
            r == self@.0,
    {
        self.min_digit
    }

    pub fn max_digit(self) -> (r: u8)
        ensures
            r == self@.1,
    {
        self.max_digit
    }

    pub fn cell_count(self) -> (r: u8)
        ensures
            r == self@.2,
    {
        self.cell_count
    }
}

#[derive(Clone, Copy, Debug, PartialEq, Eq, Structural)]
pub enum ThemeInputProfile {
    SimplePositive,
    SimpleSigned,
    SimpleDecimal,
    Fraction,
    SignedRational,
    LinearEquation,
    QuadraticEquation,
    SimultaneousEquation,
    JuniorHighFull,
    TupleOnly,
    DigitGrid(DigitGridSpec),
}

/// The finite set of answer contracts in use: each fixes its prompt kind,
/// answer schema kind and input profile together.
#[derive(Clone, Copy, Debug, PartialEq, Eq, Structural)]
pub enum ThemeAnswerContract {
    AdditionInteger,
    ArithmeticPositiveInteger,
    ArithmeticSignedInteger,
    ArithmeticSignedRational,
    ArithmeticDecimal,
    ArithmeticFraction,
    LinearInteger,
    LinearRational,
    QuadraticAlgebraic,
    SimultaneousPair,
    ColumnInteger,
    ColumnIntegerDivision,
    ColumnDecimal,
    LiarPuzzle,
    DigitGrid(DigitGridSpec),
}

pub open spec fn contract_prompt_kind(c: ThemeAnswerContract) -> ThemePromptKind {
    match c {
        ThemeAnswerContract::AdditionInteger => ThemePromptKind::Addition,
        ThemeAnswerContract::ArithmeticPositiveInteger | ThemeAnswerContract::ArithmeticSignedInteger
        | ThemeAnswerContract::ArithmeticSignedRational | ThemeAnswerContract::ArithmeticDecimal
        | ThemeAnswerContract::ArithmeticFraction => ThemePromptKind::Arithmetic,
        ThemeAnswerContract::LinearInteger | ThemeAnswerContract::LinearRational => ThemePromptKind::LinearEquation,
        ThemeAnswerContract::QuadraticAlgebraic => ThemePromptKind::QuadraticEquation,
        ThemeAnswerContract::SimultaneousPair => ThemePromptKind::SimultaneousEquation,
        ThemeAnswerContract::ColumnInteger | ThemeAnswerContract::ColumnIntegerDivision
        | ThemeAnswerContract::ColumnDecimal => ThemePromptKind::ColumnArithmetic,
        ThemeAnswerContract::LiarPuzzle => ThemePromptKind::LiarPuzzle,
        ThemeAnswerContract::DigitGrid(_) => ThemePromptKind::MiniSudoku,
    }
}

pub open spec fn contract_schema_kind(c: ThemeAnswerContract) -> ThemeAnswerSchemaKind {
    match c {
        ThemeAnswerContract::AdditionInteger | ThemeAnswerContract::ArithmeticPositiveInteger
        | ThemeAnswerContract::ArithmeticSignedInteger | ThemeAnswerContract::LinearInteger
        | ThemeAnswerContract::ColumnInteger => ThemeAnswerSchemaKind::Integer,
        ThemeAnswerContract::ArithmeticSignedRational | ThemeAnswerContract::ArithmeticFraction
        | ThemeAnswerContract::LinearRational => ThemeAnswerSchemaKind::Rational,
        ThemeAnswerContract::ArithmeticDecimal | ThemeAnswerContract::ColumnDecimal => ThemeAnswerSchemaKind::Decimal,
        ThemeAnswerContract::SimultaneousPair | ThemeAnswerContract::ColumnIntegerDivision => ThemeAnswerSchemaKind::OrderedPair,
        ThemeAnswerContract::QuadraticAlgebraic | ThemeAnswerContract::LiarPuzzle => ThemeAnswerSchemaKind::Algebraic,
        ThemeAnswerContract::DigitGrid(_) => ThemeAnswerSchemaKind::OrderedTuple,
    }
}

pub open spec fn contract_input_profile(c: ThemeAnswerContract) -> ThemeInputProfile {
    match c {
        ThemeAnswerContract::AdditionInteger | ThemeAnswerContract::ArithmeticPositiveInteger
        | ThemeAnswerContract::ColumnInteger => ThemeInputProfile::SimplePositive,
        ThemeAnswerContract::ArithmeticSignedInteger => ThemeInputProfile::SimpleSigned,
        ThemeAnswerContract::ArithmeticSignedRational => ThemeInputProfile::SignedRational,
        ThemeAnswerContract::ArithmeticDecimal | ThemeAnswerContract::ColumnDecimal => ThemeInputProfile::SimpleDecimal,
        ThemeAnswerContract::ArithmeticFraction => ThemeInputProfile::Fraction,
        ThemeAnswerContract::LinearInteger | ThemeAnswerContract::LinearRational => ThemeInputProfile::LinearEquation,
        ThemeAnswerContract::QuadraticAlgebraic => ThemeInputProfile::QuadraticEquation,
        ThemeAnswerContract::SimultaneousPair => ThemeInputProfile::SimultaneousEquation,
        ThemeAnswerContract::ColumnIntegerDivision | ThemeAnswerContract::LiarPuzzle => ThemeInputProfile::TupleOnly,
        ThemeAnswerContract::DigitGrid(spec) => ThemeInputProfile::DigitGrid(spec),
    }
}

impl ThemeAnswerContract {
    pub fn prompt_kind(self) -> (r: ThemePromptKind)
        ensures
            r == contract_prompt_kind(self),
    {
        match self {
            Self::AdditionInteger => ThemePromptKind::Addition,
            Self::ArithmeticPositiveInteger | Self::ArithmeticSignedInteger | Self::ArithmeticSignedRational
            | Self::ArithmeticDecimal | Self::ArithmeticFraction => ThemePromptKind::Arithmetic,
            Self::LinearInteger | Self::LinearRational => ThemePromptKind::LinearEquation,
            Self::QuadraticAlgebraic => ThemePromptKind::QuadraticEquation,
            Self::SimultaneousPair => ThemePromptKind::SimultaneousEquation,
            Self::ColumnInteger | Self::ColumnIntegerDivision | Self::ColumnDecimal => ThemePromptKind::ColumnArithmetic,
            Self::LiarPuzzle => ThemePromptKind::LiarPuzzle,
            Self::DigitGrid(_) => ThemePromptKind::MiniSudoku,
        }
    }

    pub fn answer_schema_kind(self) -> (r: ThemeAnswerSchemaKind)
        ensures
            r == contract_schema_kind(self),
    {
        match self {
            Self::AdditionInteger | Self::ArithmeticPositiveInteger | Self::ArithmeticSignedInteger
            | Self::LinearInteger | Self::ColumnInteger => ThemeAnswerSchemaKind::Integer,
            Self::ArithmeticSignedRational | Self::ArithmeticFraction | Self::LinearRational => ThemeAnswerSchemaKind::Rational,
            Self::ArithmeticDecimal | Self::ColumnDecimal => ThemeAnswerSchemaKind::Decimal,
            Self::SimultaneousPair | Self::ColumnIntegerDivision => ThemeAnswerSchemaKind::OrderedPair,
            Self::QuadraticAlgebraic | Self::LiarPuzzle => ThemeAnswerSchemaKind::Algebraic,
            Self::DigitGrid(_) => ThemeAnswerSchemaKind::OrderedTuple,
        }
    }

    pub fn input_profile(self) -> (r: ThemeInputProfile)
        ensures
            r == contract_input_profile(self),
    {
        match self {
            Self::AdditionInteger | Self::ArithmeticPositiveInteger | Self::ColumnInteger => ThemeInputProfile::SimplePositive,
            Self::ArithmeticSignedInteger => ThemeInputProfile::SimpleSigned,
            Self::ArithmeticSignedRational => ThemeInputProfile::SignedRational,
            Self::ArithmeticDecimal | Self::ColumnDecimal => ThemeInputProfile::SimpleDecimal,
            Self::ArithmeticFraction => ThemeInputProfile::Fraction,
            Self::LinearInteger | Self::LinearRational => ThemeInputProfile::LinearEquation,
            Self::QuadraticAlgebraic => ThemeInputProfile::QuadraticEquation,
            Self::SimultaneousPair => ThemeInputProfile::SimultaneousEquation,
            Self::ColumnIntegerDivision | Self::LiarPuzzle => ThemeInputProfile::TupleOnly,
            Self::DigitGrid(spec) => ThemeInputProfile::DigitGrid(spec),
        }
    }

    pub fn digit_grid(self) -> (r: Option<DigitGridSpec>)
        ensures
            r == (match self {
                ThemeAnswerContract::DigitGrid(spec) => Some(spec),
                _ => None,
            }),
    {
        match self {
            Self::DigitGrid(spec) => Some(spec),
            _ => None,
        }
    }
}

/// A digit-grid contract is the only one whose input is a digit grid, and it
/// always asks an ordered tuple of a mini sudoku.
pub proof fn lemma_digit_grid_contract(c: ThemeAnswerContract)
    ensures
        (contract_input_profile(c) is DigitGrid) <==> (c is DigitGrid),
        c is DigitGrid ==> contract_schema_kind(c) == ThemeAnswerSchemaKind::OrderedTuple
            && contract_prompt_kind(c) == ThemePromptKind::MiniSudoku,
{
}

/// How many problems a worksheet holds and the grid they are printed on.
#[derive(Clone, Copy, Debug, PartialEq, Eq, Structural)]
pub struct WorksheetLayoutProfile {
    problem_count: u32,
    columns: u32,
    rows: u32,
}

impl View for WorksheetLayoutProfile {
    type V = (u32, u32, u32);

    closed spec fn view(&self) -> (u32, u32, u32) {
        (self.problem_count, self.columns, self.rows)
    }
}

/// A layout holds at least one problem, and its grid holds every problem.
pub open spec fn layout_fits(problem_count: u32, columns: u32, rows: u32) -> bool {
    problem_count > 0 && columns > 0 && rows > 0 && columns * rows >= problem_count
}

impl WorksheetLayoutProfile {
    /// Every layout fits its problems.
    #[verifier::type_invariant]
    spec fn fits(self) -> bool {
        layout_fits(self.problem_count, self.columns, self.rows)
    }

    fn new(problem_count: u32, columns: u32, rows: u32) -> (r: Self)
        requires
            layout_fits(problem_count, columns, rows),
        ensures
            r@ == (problem_count, columns, rows),
    {
        Self { problem_count, columns, rows }
    }

    pub fn problem_count(self) -> (r: usize)
        ensures
            r == self@.0,
            layout_fits(self@.0, self@.1, self@.2),
    {
        proof {
            use_type_invariant(&self);
        }
        self.problem_count as usize
    }

    pub fn columns(self) -> (r: usize)
        ensures
            r == self@.1,
            layout_fits(self@.0, self@.1, self@.2),
    {
        proof {
            use_type_invariant(&self);
        }
        self.columns as usize
    }

    pub fn rows(self) -> (r: usize)
        ensures
            r == self@.2,
            layout_fits(self@.0, self@.1, self@.2),
    {
        proof {
            use_type_invariant(&self);
        }
        self.rows as usize
    }

    pub fn problem_count_wire(self) -> (r: u32)
        ensures
            r == self@.0,
            layout_fits(self@.0, self@.1, self@.2),
    {
        proof {
            use_type_invariant(&self);
        }
        self.problem_count
    }

    pub fn columns_wire(self) -> (r: u32)
        ensures
            r == self@.1,
            layout_fits(self@.0, self@.1, self@.2),
    {
        proof {
            use_type_invariant(&self);
        }
        self.columns
    }

    pub fn rows_wire(self) -> (r: u32)
        ensures
            r == self@.2,
            layout_fits(self@.0, self@.1, self@.2),
    {
        proof {
            use_type_invariant(&self);
        }
        self.rows
    }
}

/// Twenty problems in two columns of ten.
pub fn standard_20_layout() -> (r: WorksheetLayoutProfile)
    ensures
        r@ == (20u32, 2u32, 10u32),
{
    WorksheetLayoutProfile::new(20, 2, 10)
}

/// Sixteen problems in two columns of eight.
pub fn compact_16_layout() -> (r: WorksheetLayoutProfile)
    ensures
        r@ == (16u32, 2u32, 8u32),
{
    WorksheetLayoutProfile::new(16, 2, 8)
}

/// Twelve equation pairs in two columns of six.
pub fn equation_pair_12_layout() -> (r: WorksheetLayoutProfile)
    ensures
        r@ == (12u32, 2u32, 6u32),
{
    WorksheetLayoutProfile::new(12, 2, 6)
}

/// Six liar puzzles in one column.
pub fn liar_6_layout() -> (r: WorksheetLayoutProfile)
    ensures
        r@ == (6u32, 1u32, 6u32),
{
    WorksheetLayoutProfile::new(6, 1, 6)
}

/// Four puzzles on a two-by-two grid.
pub fn puzzle_4_layout() -> (r: WorksheetLayoutProfile)
    ensures
        r@ == (4u32, 2u32, 2u32),
{
    WorksheetLayoutProfile::new(4, 2, 2)
}

/// Sixteen column calculations on a four-by-four grid.
pub fn column_16_layout() -> (r: WorksheetLayoutProfile)
    ensures
        r@ == (16u32, 4u32, 4u32),
{
    WorksheetLayoutProfile::new(16, 4, 4)
}

/// Twelve column divisions in four columns of three.
pub fn column_division_12_layout() -> (r: WorksheetLayoutProfile)
    ensures
        r@ == (12u32, 4u32, 3u32),
{
    WorksheetLayoutProfile::new(12, 4, 3)
}

#[derive(Clone, Copy, Debug, PartialEq, Eq, Structural)]
pub struct SamplingLayerSpec {
    pub weight: u32,
    pub minimum: usize,
}

/// A nonzero theme number.
#[derive(Clone, Copy, Debug, PartialEq, Eq, Hash, PartialOrd, Ord, Structural)]
pub struct ThemeId(u32);

impl View for ThemeId {
    type V = u32;

    closed spec fn view(&self) -> u32 {
        self.0
    }
}

impl ThemeId {
    pub fn new(value: u32) -> (r: Self)
        requires
            value > 0,
        ensures
            r@ == value,
    {
        Self(value)
    }

    pub fn value(self) -> (r: u32)
        ensures
            r == self@,
    {
        self.0
    }
}

/// A nonzero generator revision.
#[derive(Clone, Copy, Debug, PartialEq, Eq, Hash, PartialOrd, Ord, Structural)]
pub struct GeneratorRevision(u32);

impl View for GeneratorRevision {
    type V = u32;

    closed spec fn view(&self) -> u32 {
        self.0
    }
}

impl GeneratorRevision {
    pub fn new(value: u32) -> (r: Self)
        requires
            value > 0,
        ensures
            r@ == value,
    {
        Self(value)
    }

    pub fn value(self) -> (r: u32)
        ensures
            r == self@,
    {
        self.0
    }
}

#[derive(Clone, Copy, Debug, PartialEq)]
pub struct ThemeRegistrationSpec {
    pub numeric_theme_id: ThemeId,
    pub generator_revision: GeneratorRevision,
    pub skill_id: &'static str,
    pub curriculum_path: &'static [&'static str],
    pub grade: Option<SchoolGrade>,
    pub tags: &'static [ThemeTag],
    pub safety: CurriculumSafetyPolicy,
    pub presentation: ThemePresentationPolicy,
    pub dedup: DedupPolicy,
    pub answer_contract: ThemeAnswerContract,
    pub layout: WorksheetLayoutProfile,
}

#[derive(Clone, Copy, Debug, PartialEq)]
pub struct ThemeRegistration {
    theme_id: ThemeId,
    revision: GeneratorRevision,
    skill_id: &'static str,
    curriculum_path: &'static [&'static str],
    grade: Option<SchoolGrade>,
    tags: &'static [ThemeTag],
    safety: CurriculumSafetyPolicy,
    presentation: ThemePresentationPolicy,
    dedup: DedupPolicy,
    answer_contract: ThemeAnswerContract,
    /// Theme-level interactive editor grammar used by the web input shell.
    editor_input_profile: ThemeInputProfile,
    layout: WorksheetLayoutProfile,
}

impl ThemeRegistration {
    /// The registration as specified; its editor input profile is the answer
    /// contract's own.
    pub closed spec fn registered(self) -> ThemeRegistrationSpec {
        ThemeRegistrationSpec {
            numeric_theme_id: self.theme_id,
            generator_revision: self.revision,
            skill_id: self.skill_id,
            curriculum_path: self.curriculum_path,
            grade: self.grade,
            tags: self.tags,
            safety: self.safety,
            presentation: self.presentation,
            dedup: self.dedup,
            answer_contract: self.answer_contract,
            layout: self.layout,
        }
    }

    pub closed spec fn editor_profile(self) -> ThemeInputProfile {
        self.editor_input_profile
    }

    pub fn new(spec: ThemeRegistrationSpec) -> (r: Self)
        ensures
            r.registered() == spec,
            r.editor_profile() == contract_input_profile(spec.answer_contract),
    {
        Self {
            theme_id: spec.numeric_theme_id,
            revision: spec.generator_revision,
            skill_id: spec.skill_id,
            curriculum_path: spec.curriculum_path,
            grade: spec.grade,
            tags: spec.tags,
            safety: spec.safety,
            presentation: spec.presentation,
            dedup: spec.dedup,
            answer_contract: spec.answer_contract,
            editor_input_profile: spec.answer_contract.input_profile(),
            layout: spec.layout,
        }
    }

    pub fn numeric_theme_id(self) -> (r: u32)
        ensures
            r == self.registered().numeric_theme_id@,
    {
        self.theme_id.value()
    }

    pub fn generator_revision(self) -> (r: u32)
        ensures
            r == self.registered().generator_revision@,
    {
        self.revision.value()
    }

    pub fn skill_id(self) -> (r: &'static str)
        ensures
            r == self.registered().skill_id,
    {
        self.skill_id
    }

    pub fn curriculum_path(self) -> (r: &'static [&'static str])
        ensures
            r == self.registered().curriculum_path,
    {
        self.curriculum_path
    }

    pub fn grade(self) -> (r: Option<SchoolGrade>)
        ensures
            r == self.registered().grade,
    {
        self.grade
    }

    pub fn tags(self) -> (r: &'static [ThemeTag])
        ensures
            r == self.registered().tags,
    {
        self.tags
    }

    pub fn safety(self) -> (r: CurriculumSafetyPolicy)
        ensures
            r == self.registered().safety,
    {
        self.safety
    }

    pub fn presentation(self) -> (r: ThemePresentationPolicy)
        ensures
            r == self.registered().presentation,
    {
        self.presentation
    }

    pub fn dedup(self) -> (r: DedupPolicy)
        ensures
            r == self.registered().dedup,
    {
        self.dedup
    }

    pub fn answer_contract(self) -> (r: ThemeAnswerContract)
        ensures
            r == self.registered().answer_contract,
    {
        self.answer_contract
    }

    pub fn editor_input_profile(self) -> (r: ThemeInputProfile)
        ensures
            r == self.editor_profile(),
    {
        self.editor_input_profile
    }

    pub fn layout(self) -> (r: WorksheetLayoutProfile)
        ensures
            r == self.registered().layout,
    {
        self.layout
    }

    /// The same registration with another editor grammar.
    pub fn with_editor_input_profile(self, editor_input_profile: ThemeInputProfile) -> (r: Self)
        ensures
            r.registered() == self.registered(),
            r.editor_profile() == editor_input_profile,
    {
        Self { editor_input_profile, ..self }
    }
}

} // verus!
