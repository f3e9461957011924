use drill_core::answer::{AnswerBinaryOperator, AnswerNode};
use drill_core::model::{
    AnswerSchema, ArithmeticExpression, ArithmeticOperator, LiarCount, LiarStatement, MiniSudokuGrid,
    PeopleCount, PersonIndex, ProblemPrompt, QuadraticEquationForm, RationalCoefficient, MINI_SUDOKU_CELL_COUNT,
    mini_sudoku_grid_spec,
};
use drill_core::semantics::{evaluate_expression, liar_solutions, mini_sudoku_solutions, prompt_accepts_canonical_answer};
use drill_core::theme::ThemeAnswerContract;

fn accepts(contract: ThemeAnswerContract, prompt: &ProblemPrompt, schema: &AnswerSchema, answer: &AnswerNode) -> bool {
    prompt_accepts_canonical_answer(contract, prompt, schema, answer)
}

fn integer(value: i64) -> ArithmeticExpression {
    ArithmeticExpression::Integer { value }
}

fn binary(operator: ArithmeticOperator, left: ArithmeticExpression, right: ArithmeticExpression) -> ArithmeticExpression {
    ArithmeticExpression::Binary { operator, left: Box::new(left), right: Box::new(right) }
}

fn q(value: i64) -> RationalCoefficient {
    RationalCoefficient::new(value, 1).unwrap()
}

fn person(index: u8) -> PersonIndex {
    PersonIndex::new(index).unwrap()
}

fn tuple(values: &[i64]) -> AnswerNode {
    AnswerNode::Tuple(values.iter().map(|v| AnswerNode::Integer(*v)).collect())
}

const SOLVED: [u8; 16] = [1, 2, 3, 4, 3, 4, 1, 2, 2, 1, 4, 3, 4, 3, 2, 1];

fn sudoku_givens(open_last: bool) -> MiniSudokuGrid {
    let mut cells = [None; MINI_SUDOKU_CELL_COUNT];
    for index in 0..MINI_SUDOKU_CELL_COUNT {
        if !(open_last && index + 1 == MINI_SUDOKU_CELL_COUNT) {
            cells[index] = Some(SOLVED[index]);
        }
    }
    MiniSudokuGrid::new(cells).unwrap()
}

#[test]
fn addition_and_arithmetic_answers_are_checked_exactly() {
    let schema = AnswerSchema::Integer { min: 1, max: 18 };
    let prompt = ProblemPrompt::Addition { left: 1, right: 1 };
    assert!(!accepts(ThemeAnswerContract::AdditionInteger, &prompt, &schema, &AnswerNode::Integer(3)));
    assert!(accepts(ThemeAnswerContract::AdditionInteger, &prompt, &schema, &AnswerNode::Integer(2)));

    let subtraction = ProblemPrompt::Arithmetic { expression: binary(ArithmeticOperator::Subtract, integer(5), integer(2)) };
    let schema = AnswerSchema::Integer { min: 1, max: 9 };
    assert!(!accepts(ThemeAnswerContract::ArithmeticPositiveInteger, &subtraction, &schema, &AnswerNode::Integer(4)));
    assert!(accepts(ThemeAnswerContract::ArithmeticPositiveInteger, &subtraction, &schema, &AnswerNode::Integer(3)));

    let half = ProblemPrompt::Arithmetic { expression: binary(ArithmeticOperator::Divide, integer(1), integer(2)) };
    let decimal = AnswerNode::ExactDecimal { coefficient: 5, scale: 1 };
    assert!(accepts(ThemeAnswerContract::ArithmeticDecimal, &half, &AnswerSchema::Decimal { max_scale: 2 }, &decimal));
}

#[test]
fn ordered_pair_schema_checks_quotient_and_remainder() {
    let prompt = ProblemPrompt::Arithmetic { expression: binary(ArithmeticOperator::Divide, integer(17), integer(5)) };
    let schema = AnswerSchema::OrderedPair;
    let contract = ThemeAnswerContract::ArithmeticSignedInteger;
    assert!(accepts(contract, &prompt, &schema, &tuple(&[3, 2])));
    assert!(!accepts(contract, &prompt, &schema, &tuple(&[2, 7])));
    assert!(!accepts(contract, &prompt, &schema, &tuple(&[3])));
}

#[test]
fn column_answers_follow_the_contract() {
    let prompt = ProblemPrompt::ColumnArithmetic { operator: ArithmeticOperator::Multiply, left: integer(12), right: integer(3) };
    let schema = AnswerSchema::Integer { min: 0, max: 100 };
    assert!(!accepts(ThemeAnswerContract::ColumnInteger, &prompt, &schema, &AnswerNode::Integer(35)));
    assert!(accepts(ThemeAnswerContract::ColumnInteger, &prompt, &schema, &AnswerNode::Integer(36)));

    let division = ProblemPrompt::ColumnArithmetic { operator: ArithmeticOperator::Divide, left: integer(17), right: integer(5) };
    assert!(accepts(ThemeAnswerContract::ColumnIntegerDivision, &division, &schema, &tuple(&[3, 2])));
    assert!(!accepts(ThemeAnswerContract::ColumnIntegerDivision, &division, &schema, &tuple(&[3, 5])));
}

#[test]
fn linear_quadratic_and_simultaneous_answers_solve_their_equations() {
    let linear = ProblemPrompt::LinearEquation {
        a: q(1),
        b: RationalCoefficient::zero(),
        c: RationalCoefficient::zero(),
        d: q(1),
        left_negative_constant_as_subtraction: false,
        right_negative_constant_as_subtraction: false,
    };
    let schema = AnswerSchema::Integer { min: -15, max: 15 };
    assert!(!accepts(ThemeAnswerContract::LinearInteger, &linear, &schema, &AnswerNode::Integer(2)));
    assert!(accepts(ThemeAnswerContract::LinearInteger, &linear, &schema, &AnswerNode::Integer(1)));

    let quadratic = ProblemPrompt::QuadraticEquation {
        form: QuadraticEquationForm::SquareEqualsConstant,
        a: q(1),
        b: RationalCoefficient::zero(),
        c: q(4),
    };
    let algebraic = AnswerSchema::Algebraic;
    let contract = ThemeAnswerContract::QuadraticAlgebraic;
    assert!(!accepts(contract, &quadratic, &algebraic, &AnswerNode::PlusMinus(Box::new(AnswerNode::Integer(3)))));
    assert!(accepts(contract, &quadratic, &algebraic, &AnswerNode::PlusMinus(Box::new(AnswerNode::Integer(2)))));
    assert!(accepts(contract, &quadratic, &algebraic, &tuple(&[2, -2])));
    assert!(!accepts(contract, &quadratic, &algebraic, &AnswerNode::Integer(2)));

    // x^2 = 2 has the irrational roots +-sqrt(2).
    let irrational = ProblemPrompt::QuadraticEquation {
        form: QuadraticEquationForm::SquareEqualsConstant,
        a: q(1),
        b: RationalCoefficient::zero(),
        c: q(2),
    };
    let root_two = AnswerNode::Root { radicand: Box::new(AnswerNode::Integer(2)), index: None };
    assert!(accepts(contract, &irrational, &algebraic, &AnswerNode::PlusMinus(Box::new(root_two.clone()))));
    assert!(!accepts(contract, &irrational, &algebraic, &root_two));

    // x^2 - 2x - 1 = 0 has the roots 1 +- sqrt(2).
    let standard = ProblemPrompt::QuadraticEquation {
        form: QuadraticEquationForm::Standard,
        a: q(1),
        b: q(-2),
        c: q(-1),
    };
    let offset = AnswerNode::Binary {
        operator: AnswerBinaryOperator::Add,
        left: Box::new(AnswerNode::Integer(1)),
        right: Box::new(AnswerNode::PlusMinus(Box::new(root_two))),
    };
    assert!(accepts(contract, &standard, &algebraic, &offset));

    let simultaneous = ProblemPrompt::SimultaneousEquation { a: 1, b: 1, c: 3, d: 1, e: -1, f: 1 };
    let pair = AnswerSchema::OrderedPair;
    assert!(!accepts(ThemeAnswerContract::SimultaneousPair, &simultaneous, &pair, &tuple(&[1, 2])));
    assert!(accepts(ThemeAnswerContract::SimultaneousPair, &simultaneous, &pair, &tuple(&[2, 1])));
}

#[test]
fn liar_puzzles_need_a_unique_consistent_answer() {
    let people_count = PeopleCount::new(3).unwrap();
    let statements = vec![
        LiarStatement::SaysLiar { person: person(2) },
        LiarStatement::SaysLiar { person: person(3) },
        LiarStatement::ExactlyOneLiar { first: person(1), second: person(2) },
    ];
    assert_eq!(liar_solutions(people_count, &statements), vec![2]);
    let prompt = ProblemPrompt::LiarPuzzle { people_count, statements };
    let schema = AnswerSchema::Algebraic;
    assert!(!accepts(ThemeAnswerContract::LiarPuzzle, &prompt, &schema, &tuple(&[1])));
    assert!(accepts(ThemeAnswerContract::LiarPuzzle, &prompt, &schema, &tuple(&[2])));

    let ambiguous = vec![LiarStatement::ExactLiarCount { count: LiarCount::new(1).unwrap() }];
    assert_eq!(liar_solutions(PeopleCount::new(3).unwrap(), &ambiguous), vec![2, 3, 4, 5, 7]);
}

#[test]
fn mini_sudoku_answers_must_be_the_unique_completion() {
    let givens = sudoku_givens(true);
    let prompt = ProblemPrompt::MiniSudoku { givens };
    let schema = AnswerSchema::OrderedTuple { length: 16 };
    let contract = ThemeAnswerContract::DigitGrid(mini_sudoku_grid_spec());
    let solved: Vec<i64> = SOLVED.iter().map(|d| i64::from(*d)).collect();
    assert!(accepts(contract, &prompt, &schema, &tuple(&solved)));
    let mut wrong = solved.clone();
    wrong[15] = 2;
    assert!(!accepts(contract, &prompt, &schema, &tuple(&wrong)));
    assert!(!accepts(contract, &prompt, &schema, &tuple(&solved[..15])));

    let mut board = [0_u8; 16];
    board[0] = 1;
    let found = mini_sudoku_solutions(board, 2);
    assert_eq!(found.len(), 2);
    let empty_board = [0_u8; 16];
    assert_eq!(mini_sudoku_solutions(empty_board, 1000).len(), 288);
    let mut broken = [0_u8; 16];
    broken[0] = 1;
    broken[1] = 1;
    assert!(mini_sudoku_solutions(broken, 10).is_empty());
    assert_eq!(mini_sudoku_solutions(SOLVED, 3), vec![SOLVED]);
}

#[test]
fn expressions_evaluate_to_reduced_coefficients() {
    let expression = binary(ArithmeticOperator::Add, binary(ArithmeticOperator::Divide, integer(1), integer(2)), integer(1));
    let value = evaluate_expression(&expression).unwrap();
    assert_eq!((value.numerator(), value.denominator()), (3, 2));
    assert!(evaluate_expression(&binary(ArithmeticOperator::Divide, integer(1), integer(0))).is_none());
}

fn grid_is_valid(grid: &[u8; 16]) -> bool {
    let groups: Vec<[usize; 4]> = (0..4)
        .map(|r| [r * 4, r * 4 + 1, r * 4 + 2, r * 4 + 3])
        .chain((0..4).map(|c| [c, c + 4, c + 8, c + 12]))
        .chain([[0, 1, 4, 5], [2, 3, 6, 7], [8, 9, 12, 13], [10, 11, 14, 15]])
        .collect();
    groups.iter().all(|group| {
        let mut seen: Vec<u8> = group.iter().map(|&cell| grid[cell]).collect();
        seen.sort();
        seen == vec![1, 2, 3, 4]
    })
}

#[test]
fn every_search_result_is_a_valid_grid_keeping_the_givens() {
    let mut board = [0u8; 16];
    board[0] = 1;
    board[5] = 3;
    let found = mini_sudoku_solutions(board, 1000);
    assert!(!found.is_empty());
    for grid in &found {
        assert!(grid_is_valid(grid));
        assert_eq!(grid[0], 1);
        assert_eq!(grid[5], 3);
    }
    for i in 0..found.len() {
        for j in i + 1..found.len() {
            assert_ne!(found[i], found[j]);
        }
    }
    let all = mini_sudoku_solutions([0u8; 16], 1000);
    let expected = all.iter().filter(|grid| grid[0] == 1 && grid[5] == 3).count();
    assert_eq!(found.len(), expected);
}
