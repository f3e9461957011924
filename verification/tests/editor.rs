use drill_core::answer::AnswerNode;
use drill_core::editor::{apply_editor_action, EditorAction, EditorState};
use drill_core::error::EditorError;
use drill_core::model::{AnswerInputInterface, EditorStructure};

fn decimal_interface() -> AnswerInputInterface {
    AnswerInputInterface::SimpleNumeric { allow_decimal: true, allow_negative: false }
}

fn structured(structures: Vec<EditorStructure>) -> AnswerInputInterface {
    AnswerInputInterface::StructuredMath { allowed_structures: structures }
}

fn apply(state: &EditorState, action: EditorAction, interface: &AnswerInputInterface) -> EditorState {
    apply_editor_action(state, &action, interface).unwrap()
}

#[test]
fn digits_and_a_decimal_point_build_an_exact_decimal() {
    let i = decimal_interface();
    let mut state = EditorState::empty();
    state = apply(&state, EditorAction::InsertDigit { digit: 1 }, &i);
    state = apply(&state, EditorAction::InsertDigit { digit: 2 }, &i);
    assert_eq!(state.answer, AnswerNode::Integer(12));
    assert_eq!(state.cursor, 2);
    state = apply(&state, EditorAction::InsertStructure { structure: EditorStructure::Decimal }, &i);
    assert_eq!(state.answer, AnswerNode::ExactDecimal { coefficient: 12, scale: 0 });
    assert_eq!(state.cursor, 3);
    state = apply(&state, EditorAction::InsertDigit { digit: 5 }, &i);
    assert_eq!(state.answer, AnswerNode::ExactDecimal { coefficient: 125, scale: 1 });
    state = apply(&state, EditorAction::Backspace, &i);
    assert_eq!(state.answer, AnswerNode::ExactDecimal { coefficient: 12, scale: 0 });
    state = apply(&state, EditorAction::MoveLeft, &i);
    assert_eq!(state.cursor, 2);
    state = apply(&state, EditorAction::Delete, &i);
    assert_eq!(state.answer, AnswerNode::Integer(12));
    state = apply(&state, EditorAction::Commit, &i);
    assert!(state.committed);
    assert_eq!(apply(&state, EditorAction::Clear, &i), EditorState::empty());
}

#[test]
fn a_point_on_an_empty_slot_starts_at_zero_and_leading_zeros_drop() {
    let i = decimal_interface();
    let state = apply(&EditorState::empty(), EditorAction::InsertStructure { structure: EditorStructure::Decimal }, &i);
    assert_eq!(state.answer, AnswerNode::ExactDecimal { coefficient: 0, scale: 0 });
    assert_eq!(state.cursor, 2);
    let mut state = EditorState::empty();
    state = apply(&state, EditorAction::InsertDigit { digit: 0 }, &i);
    state = apply(&state, EditorAction::InsertDigit { digit: 7 }, &i);
    assert_eq!(state.answer, AnswerNode::Integer(7));
    assert_eq!(state.cursor, 1);
}

#[test]
fn actions_outside_the_capability_fail_closed() {
    let i = decimal_interface();
    let state = EditorState::empty();
    assert_eq!(
        apply_editor_action(&state, &EditorAction::InsertDigit { digit: 10 }, &i),
        Err(EditorError::InvalidDigit)
    );
    assert_eq!(
        apply_editor_action(&state, &EditorAction::InsertStructure { structure: EditorStructure::Fraction }, &i),
        Err(EditorError::StructureNotAllowed { structure: EditorStructure::Fraction })
    );
    assert_eq!(
        apply_editor_action(&state, &EditorAction::SelectSlot { path: vec![], cursor: 1 }, &i),
        Err(EditorError::InvalidPath)
    );
    let mut state = EditorState::empty();
    for _ in 0..18 {
        state = apply(&state, EditorAction::InsertDigit { digit: 1 }, &i);
    }
    assert_eq!(
        apply_editor_action(&state, &EditorAction::InsertDigit { digit: 1 }, &i),
        Err(EditorError::AnswerSizeLimit { max_size: 18 })
    );
    let negative = EditorState { answer: AnswerNode::Integer(-3), active_path: vec![], cursor: 0, committed: false };
    assert_eq!(
        apply_editor_action(&negative, &EditorAction::InsertDigit { digit: 1 }, &i),
        Err(EditorError::StructureNotAllowed { structure: EditorStructure::Negative })
    );
}

#[test]
fn structures_wrap_the_active_slot_and_the_cursor_crosses_slots() {
    let i = structured(vec![EditorStructure::Fraction, EditorStructure::Tuple]);
    let mut state = apply(&EditorState::empty(), EditorAction::InsertDigit { digit: 3 }, &i);
    state = apply(&state, EditorAction::InsertStructure { structure: EditorStructure::Fraction }, &i);
    assert_eq!(
        state.answer,
        AnswerNode::Fraction { numerator: Box::new(AnswerNode::Integer(3)), denominator: Box::new(AnswerNode::Empty) }
    );
    assert_eq!(state.active_path, vec![1]);
    assert_eq!(state.cursor, 0);
    state = apply(&state, EditorAction::MoveLeft, &i);
    assert_eq!(state.active_path, vec![0]);
    assert_eq!(state.cursor, 1);
    state = apply(&state, EditorAction::MoveRight, &i);
    assert_eq!(state.active_path, vec![1]);
    assert_eq!(state.cursor, 0);
    let edge = apply(&state, EditorAction::MoveRight, &i);
    assert_eq!(edge, state);
    let emptied = apply(&state, EditorAction::Backspace, &i);
    assert_eq!(emptied, EditorState::empty());

    let tuple = apply(&EditorState::empty(), EditorAction::InsertStructure { structure: EditorStructure::Tuple }, &i);
    assert_eq!(tuple.answer, AnswerNode::Tuple(vec![AnswerNode::Empty, AnswerNode::Empty]));
    assert_eq!(tuple.active_path, vec![1]);
    let selected = apply(&tuple, EditorAction::SelectSlot { path: vec![0], cursor: 0 }, &i);
    assert_eq!(selected.active_path, vec![0]);
}
