use drill_core::input::input_interface;
use drill_core::model::{AnswerInputInterface, EditorStructure};
use drill_core::theme::{DigitGridSpec, ThemeInputProfile};

#[test]
fn simple_profiles_project_to_simple_numeric_inputs() {
    assert_eq!(
        input_interface(ThemeInputProfile::SimplePositive),
        AnswerInputInterface::SimpleNumeric { allow_decimal: false, allow_negative: false }
    );
    assert_eq!(
        input_interface(ThemeInputProfile::SimpleSigned),
        AnswerInputInterface::SimpleNumeric { allow_decimal: false, allow_negative: true }
    );
    assert_eq!(
        input_interface(ThemeInputProfile::SimpleDecimal),
        AnswerInputInterface::SimpleNumeric { allow_decimal: true, allow_negative: false }
    );
}

#[test]
fn structured_profiles_list_their_editor_structures_in_order() {
    assert_eq!(
        input_interface(ThemeInputProfile::SignedRational),
        AnswerInputInterface::StructuredMath {
            allowed_structures: vec![EditorStructure::Fraction, EditorStructure::Negative]
        }
    );
    assert_eq!(
        input_interface(ThemeInputProfile::TupleOnly),
        AnswerInputInterface::StructuredMath { allowed_structures: vec![EditorStructure::Tuple] }
    );
    match input_interface(ThemeInputProfile::JuniorHighFull) {
        AnswerInputInterface::StructuredMath { allowed_structures } => assert_eq!(allowed_structures.len(), 8),
        other => panic!("expected structured math, got {other:?}"),
    }
    for profile in [
        ThemeInputProfile::Fraction,
        ThemeInputProfile::SignedRational,
        ThemeInputProfile::LinearEquation,
        ThemeInputProfile::QuadraticEquation,
        ThemeInputProfile::SimultaneousEquation,
        ThemeInputProfile::JuniorHighFull,
        ThemeInputProfile::TupleOnly,
    ] {
        assert!(input_interface(profile).is_structurally_valid());
    }
}

#[test]
fn digit_grid_profile_carries_its_grid() {
    let grid = DigitGridSpec::new(1, 4, 16);
    assert_eq!(
        input_interface(ThemeInputProfile::DigitGrid(grid)),
        AnswerInputInterface::DigitGrid { min_digit: 1, max_digit: 4, cell_count: 16 }
    );
}
