//! Input capabilities: the projection from a theme's input profile to the
//! problem-level capability, and validation of answers against it.

use vstd::prelude::*;
use crate::answer::{lemma_view_nodes, view_nodes, AnswerNode, AnswerValue};
use crate::error::EditorError;
use crate::model::{AnswerInputInterface, EditorStructure};
use crate::theme::ThemeInputProfile;

verus! {

pub open spec fn structure_check(i: AnswerInputInterface, s: EditorStructure) -> Result<(), EditorError> {
    if i.allows(s) {
        Ok(())
    } else {
        Err(EditorError::StructureNotAllowed { structure: s })
    }
}

pub open spec fn digit_cell_ok(v: AnswerValue, min_digit: u8, max_digit: u8) -> bool {
    match v {
        AnswerValue::Empty => true,
        AnswerValue::Integer(x) => min_digit <= x && x <= max_digit,
        _ => false,
    }
}

/// Whether an answer uses only the capabilities of an input interface; the
/// first violation, in left-to-right order, is reported.
pub open spec fn capability_check(a: AnswerValue, i: AnswerInputInterface) -> Result<(), EditorError>
    decreases a, 0nat,
{
    match i {
        AnswerInputInterface::DigitGrid { min_digit, max_digit, cell_count } => match a {
            AnswerValue::Empty => Ok(()),
            AnswerValue::Tuple(vs) => if vs.len() == cell_count && forall|k: int|
                0 <= k < vs.len() ==> #[trigger] digit_cell_ok(vs[k], min_digit, max_digit) {
                Ok(())
            } else {
                Err(EditorError::InputInterfaceViolation)
            },
            _ => Err(EditorError::InputInterfaceViolation),
        },
        _ => match a {
            AnswerValue::Empty | AnswerValue::NanError(_) => Ok(()),
            AnswerValue::Integer(x) => if x < 0 {
                structure_check(i, EditorStructure::Negative)
            } else {
                Ok(())
            },
            AnswerValue::ExactDecimal { coefficient, .. } => match structure_check(i, EditorStructure::Decimal) {
                Err(e) => Err(e),
                Ok(_) => if coefficient < 0 {
                    structure_check(i, EditorStructure::Negative)
                } else {
                    Ok(())
                },
            },
            AnswerValue::Fraction { numerator, denominator } => match structure_check(i, EditorStructure::Fraction) {
                Err(e) => Err(e),
                Ok(_) => match capability_check(*numerator, i) {
                    Err(e) => Err(e),
                    Ok(_) => capability_check(*denominator, i),
                },
            },
            AnswerValue::MixedFraction { whole, numerator, denominator } => match structure_check(i, EditorStructure::MixedFraction) {
                Err(e) => Err(e),
                Ok(_) => match capability_check(*whole, i) {
                    Err(e) => Err(e),
                    Ok(_) => match capability_check(*numerator, i) {
                        Err(e) => Err(e),
                        Ok(_) => capability_check(*denominator, i),
                    },
                },
            },
            AnswerValue::Root { radicand, index } => match structure_check(i, EditorStructure::Root) {
                Err(e) => Err(e),
                Ok(_) => match capability_check(*radicand, i) {
                    Err(e) => Err(e),
                    Ok(_) => match index {
                        Some(x) => capability_check(*x, i),
                        None => Ok(()),
                    },
                },
            },
            AnswerValue::Negative(x) => match structure_check(i, EditorStructure::Negative) {
                Err(e) => Err(e),
                Ok(_) => capability_check(*x, i),
            },
            AnswerValue::PlusMinus(x) => match structure_check(i, EditorStructure::PlusMinus) {
                Err(e) => Err(e),
                Ok(_) => capability_check(*x, i),
            },
            AnswerValue::Binary { left, right, .. } => match structure_check(i, EditorStructure::Arithmetic) {
                Err(e) => Err(e),
                Ok(_) => match capability_check(*left, i) {
                    Err(e) => Err(e),
                    Ok(_) => capability_check(*right, i),
                },
            },
            AnswerValue::Tuple(vs) => match structure_check(i, EditorStructure::Tuple) {
                Err(e) => Err(e),
                Ok(_) => capabilities_check(vs, i, 0),
            },
            AnswerValue::Variable(_) => Err(EditorError::InputInterfaceViolation),
        },
    }
}

/// Checks the items of `vs` from position `k` on.
pub open spec fn capabilities_check(vs: Seq<AnswerValue>, i: AnswerInputInterface, k: nat) -> Result<(), EditorError>
    decreases vs, vs.len() - k,
{
    if k >= vs.len() {
        Ok(())
    } else {
        match capability_check(vs[k as int], i) {
            Err(e) => Err(e),
            Ok(_) => capabilities_check(vs, i, k + 1),
        }
    }
}

fn ensure_structure_allowed(input_interface: &AnswerInputInterface, structure: EditorStructure) -> (r: Result<(), EditorError>)
    ensures
        r == structure_check(*input_interface, structure),
{
    if input_interface.allows_structure(structure) {
        Ok(())
    } else {
        Err(EditorError::StructureNotAllowed { structure })
    }
}

/// Validates that an already-parsed answer uses only capabilities exposed by
/// the interface.
pub fn ensure_capability(answer: &AnswerNode, input_interface: &AnswerInputInterface) -> (r: Result<(), EditorError>)
    ensures
        r == capability_check(answer@, *input_interface),
    decreases answer,
{
    if let AnswerInputInterface::DigitGrid { min_digit, max_digit, cell_count } = input_interface {
        return match answer {
            AnswerNode::Empty => Ok(()),
            AnswerNode::Tuple(values) => {
                let ghost tv = view_nodes(values@, values@.len());
                proof {
                    lemma_view_nodes(values@, values@.len());
                }
                if values.len() != *cell_count as usize {
                    return Err(EditorError::InputInterfaceViolation);
                }
                proof {
                    assert(answer@ == AnswerValue::Tuple(tv));
                }
                let mut k: usize = 0;
                while k < values.len()
                    invariant
                        *input_interface == (AnswerInputInterface::DigitGrid { min_digit: *min_digit, max_digit: *max_digit, cell_count: *cell_count }),
                        answer@ == AnswerValue::Tuple(tv),
                        values@.len() == *cell_count as int,
                        k <= values@.len(),
                        tv.len() == values@.len(),
                        forall|j: int| 0 <= j < tv.len() ==> #[trigger] tv[j] == values@[j]@,
                        forall|j: int| 0 <= j < k ==> #[trigger] digit_cell_ok(tv[j], *min_digit, *max_digit),
                    decreases values@.len() - k,
                {
                    let ok = match &values[k] {
                        AnswerNode::Empty => true,
                        AnswerNode::Integer(x) => (*min_digit as i64) <= *x && *x <= (*max_digit as i64),
                        _ => false,
                    };
                    proof {
                        assert(tv[k as int] == values@[k as int]@);
                    }
                    if !ok {
                        proof {
                            assert(!digit_cell_ok(tv[k as int], *min_digit, *max_digit));
                            assert(!(forall|j: int| 0 <= j < tv.len() ==> #[trigger] digit_cell_ok(tv[j], *min_digit, *max_digit)));
                            let ghost ii = *input_interface;
                            assert(ii is DigitGrid);
                            assert(ii->min_digit == *min_digit);
                            assert(capability_check(AnswerValue::Tuple(tv), ii) == (if tv.len() == ii->cell_count && forall|j: int| 0 <= j < tv.len() ==> #[trigger] digit_cell_ok(tv[j], ii->min_digit, ii->max_digit) { Ok::<(), EditorError>(()) } else { Err(EditorError::InputInterfaceViolation) }));
                            assert(capability_check(AnswerValue::Tuple(tv), ii) == Err::<(), EditorError>(EditorError::InputInterfaceViolation));
                        }
                        return Err(EditorError::InputInterfaceViolation);
                    }
                    k += 1;
                }
                Ok(())
            },
            _ => Err(EditorError::InputInterfaceViolation),
        };
    }
    match answer {
        AnswerNode::Empty | AnswerNode::NanError(_) => Ok(()),
        AnswerNode::Integer(value) => {
            if *value < 0 {
                return ensure_structure_allowed(input_interface, EditorStructure::Negative);
            }
            Ok(())
        },
        AnswerNode::ExactDecimal { coefficient, .. } => {
            match ensure_structure_allowed(input_interface, EditorStructure::Decimal) {
                Err(e) => return Err(e),
                Ok(()) => {},
            }
            if *coefficient < 0 {
                return ensure_structure_allowed(input_interface, EditorStructure::Negative);
            }
            Ok(())
        },
        AnswerNode::Fraction { numerator, denominator } => {
            match ensure_structure_allowed(input_interface, EditorStructure::Fraction) {
                Err(e) => return Err(e),
                Ok(()) => {},
            }
            match ensure_capability(numerator, input_interface) {
                Err(e) => return Err(e),
                Ok(()) => {},
            }
            ensure_capability(denominator, input_interface)
        },
        AnswerNode::MixedFraction { whole, numerator, denominator } => {
            match ensure_structure_allowed(input_interface, EditorStructure::MixedFraction) {
                Err(e) => return Err(e),
                Ok(()) => {},
            }
            match ensure_capability(whole, input_interface) {
                Err(e) => return Err(e),
                Ok(()) => {},
            }
            match ensure_capability(numerator, input_interface) {
                Err(e) => return Err(e),
                Ok(()) => {},
            }
            ensure_capability(denominator, input_interface)
        },
        AnswerNode::Root { radicand, index } => {
            match ensure_structure_allowed(input_interface, EditorStructure::Root) {
                Err(e) => return Err(e),
                Ok(()) => {},
            }
            match ensure_capability(radicand, input_interface) {
                Err(e) => return Err(e),
                Ok(()) => {},
            }
            match index {
                Some(i) => ensure_capability(i, input_interface),
                None => Ok(()),
            }
        },
        AnswerNode::Negative(value) => {
            match ensure_structure_allowed(input_interface, EditorStructure::Negative) {
                Err(e) => return Err(e),
                Ok(()) => {},
            }
            ensure_capability(value, input_interface)
        },
        AnswerNode::PlusMinus(value) => {
            match ensure_structure_allowed(input_interface, EditorStructure::PlusMinus) {
                Err(e) => return Err(e),
                Ok(()) => {},
            }
            ensure_capability(value, input_interface)
        },
        AnswerNode::Binary { left, right, .. } => {
            match ensure_structure_allowed(input_interface, EditorStructure::Arithmetic) {
                Err(e) => return Err(e),
                Ok(()) => {},
            }
            match ensure_capability(left, input_interface) {
                Err(e) => return Err(e),
                Ok(()) => {},
            }
            ensure_capability(right, input_interface)
        },
        AnswerNode::Tuple(values) => {
            match ensure_structure_allowed(input_interface, EditorStructure::Tuple) {
                Err(e) => return Err(e),
                Ok(()) => {},
            }
            let ghost tv = view_nodes(values@, values@.len());
            proof {
                lemma_view_nodes(values@, values@.len());
            }
            proof {
                assert(answer@ == AnswerValue::Tuple(tv));
            }
            let mut k: usize = 0;
            while k < values.len()
                invariant
                    capability_check(answer@, *input_interface) == capabilities_check(tv, *input_interface, 0),
                    k <= values@.len(),
                    *answer == AnswerNode::Tuple(*values),
                    tv == view_nodes(values@, values@.len()),
                    tv.len() == values@.len(),
                    forall|j: int| 0 <= j < tv.len() ==> #[trigger] tv[j] == values@[j]@,
                    capabilities_check(tv, *input_interface, 0) == capabilities_check(tv, *input_interface, k as nat),
                decreases values@.len() - k,
            {
                proof {
                    let ghost v = *values;
                    assert(decreases_to!(*answer => (*answer)->Tuple_0));
                    assert(decreases_to!(v => v@));
                    assert(decreases_to!(v@ => v@[k as int]));
                    assert(tv[k as int] == values@[k as int]@);
                }
                match ensure_capability(&values[k], input_interface) {
                    Err(e) => return Err(e),
                    Ok(()) => {},
                }
                k += 1;
            }
            Ok(())
        },
        AnswerNode::Variable(_) => Err(EditorError::InputInterfaceViolation),
    }
}

/// The editor structures that a structured-math profile exposes, in the
/// order the editor offers them; `None` for the simple numeric and
/// digit-grid profiles.
pub open spec fn profile_structures(profile: ThemeInputProfile) -> Option<Seq<EditorStructure>> {
    match profile {
        ThemeInputProfile::Fraction => Some(
            seq![EditorStructure::Fraction, EditorStructure::MixedFraction, EditorStructure::Decimal],
        ),
        ThemeInputProfile::SignedRational => Some(seq![EditorStructure::Fraction, EditorStructure::Negative]),
        ThemeInputProfile::LinearEquation => Some(
            seq![
                EditorStructure::Fraction,
                EditorStructure::MixedFraction,
                EditorStructure::Decimal,
                EditorStructure::Root,
                EditorStructure::Negative,
                EditorStructure::PlusMinus,
                EditorStructure::Tuple,
            ],
        ),
        ThemeInputProfile::QuadraticEquation => Some(
            seq![
                EditorStructure::Fraction,
                EditorStructure::Root,
                EditorStructure::Negative,
                EditorStructure::PlusMinus,
                EditorStructure::Tuple,
                EditorStructure::Arithmetic,
            ],
        ),
        ThemeInputProfile::SimultaneousEquation => Some(seq![EditorStructure::Negative, EditorStructure::Tuple]),
        ThemeInputProfile::JuniorHighFull => Some(
            seq![
                EditorStructure::Fraction,
                EditorStructure::MixedFraction,
                EditorStructure::Decimal,
                EditorStructure::Root,
                EditorStructure::Negative,
                EditorStructure::PlusMinus,
                EditorStructure::Tuple,
                EditorStructure::Arithmetic,
            ],
        ),
        ThemeInputProfile::TupleOnly => Some(seq![EditorStructure::Tuple]),
        _ => None,
    }
}

/// The problem-level input capability of a theme's input profile.
pub open spec fn profile_interface_is(profile: ThemeInputProfile, i: AnswerInputInterface) -> bool {
    match profile {
        ThemeInputProfile::SimplePositive => i == AnswerInputInterface::SimpleNumeric {
            allow_decimal: false,
            allow_negative: false,
        },
        ThemeInputProfile::SimpleSigned => i == AnswerInputInterface::SimpleNumeric {
            allow_decimal: false,
            allow_negative: true,
        },
        ThemeInputProfile::SimpleDecimal => i == AnswerInputInterface::SimpleNumeric {
            allow_decimal: true,
            allow_negative: false,
        },
        ThemeInputProfile::DigitGrid(spec) => i == AnswerInputInterface::DigitGrid {
            min_digit: spec@.0,
            max_digit: spec@.1,
            cell_count: spec@.2,
        },
        _ => i matches AnswerInputInterface::StructuredMath { allowed_structures } && profile_structures(profile)
            == Some(allowed_structures@),
    }
}

fn structures(items: &[EditorStructure]) -> (r: Vec<EditorStructure>)
    ensures
        r@ == items@,
{
    let mut out: Vec<EditorStructure> = Vec::new();
    let mut i: usize = 0;
    while i < items.len()
        invariant
            i <= items@.len(),
            out@ == items@.subrange(0, i as int),
        decreases items@.len() - i,
    {
        out.push(items[i]);
        i += 1;
    }
    out
}

/// Resolves the canonical input capability of a theme profile: the one
/// projection from the profile that a theme registers to the capability a
/// problem carries. Every profile projects onto a structurally valid
/// capability (for a digit grid, given a well-formed grid).
pub fn input_interface(profile: ThemeInputProfile) -> (r: AnswerInputInterface)
    ensures
        profile_interface_is(profile, r),
        (profile matches ThemeInputProfile::DigitGrid(spec) ==> spec.well_formed()) ==> r.structurally_valid(),
{
    match profile {
        ThemeInputProfile::SimplePositive => AnswerInputInterface::SimpleNumeric {
            allow_decimal: false,
            allow_negative: false,
        },
        ThemeInputProfile::SimpleSigned => AnswerInputInterface::SimpleNumeric {
            allow_decimal: false,
            allow_negative: true,
        },
        ThemeInputProfile::SimpleDecimal => AnswerInputInterface::SimpleNumeric {
            allow_decimal: true,
            allow_negative: false,
        },
        ThemeInputProfile::Fraction => {
            let v = structures(&[EditorStructure::Fraction, EditorStructure::MixedFraction, EditorStructure::Decimal]);
            assert(v@ =~= seq![EditorStructure::Fraction, EditorStructure::MixedFraction, EditorStructure::Decimal]);
            AnswerInputInterface::StructuredMath { allowed_structures: v }
        },
        ThemeInputProfile::SignedRational => {
            let v = structures(&[EditorStructure::Fraction, EditorStructure::Negative]);
            assert(v@ =~= seq![EditorStructure::Fraction, EditorStructure::Negative]);
            AnswerInputInterface::StructuredMath { allowed_structures: v }
        },
        ThemeInputProfile::LinearEquation => {
            let v = structures(&[EditorStructure::Fraction, EditorStructure::MixedFraction, EditorStructure::Decimal, EditorStructure::Root, EditorStructure::Negative, EditorStructure::PlusMinus, EditorStructure::Tuple]);
            assert(v@ =~= seq![EditorStructure::Fraction, EditorStructure::MixedFraction, EditorStructure::Decimal, EditorStructure::Root, EditorStructure::Negative, EditorStructure::PlusMinus, EditorStructure::Tuple]);
            AnswerInputInterface::StructuredMath { allowed_structures: v }
        },
        ThemeInputProfile::QuadraticEquation => {
            let v = structures(&[EditorStructure::Fraction, EditorStructure::Root, EditorStructure::Negative, EditorStructure::PlusMinus, EditorStructure::Tuple, EditorStructure::Arithmetic]);
            assert(v@ =~= seq![EditorStructure::Fraction, EditorStructure::Root, EditorStructure::Negative, EditorStructure::PlusMinus, EditorStructure::Tuple, EditorStructure::Arithmetic]);
            AnswerInputInterface::StructuredMath { allowed_structures: v }
        },
        ThemeInputProfile::SimultaneousEquation => {
            let v = structures(&[EditorStructure::Negative, EditorStructure::Tuple]);
            assert(v@ =~= seq![EditorStructure::Negative, EditorStructure::Tuple]);
            AnswerInputInterface::StructuredMath { allowed_structures: v }
        },
        ThemeInputProfile::JuniorHighFull => {
            let v = structures(&[EditorStructure::Fraction, EditorStructure::MixedFraction, EditorStructure::Decimal, EditorStructure::Root, EditorStructure::Negative, EditorStructure::PlusMinus, EditorStructure::Tuple, EditorStructure::Arithmetic]);
            assert(v@ =~= seq![EditorStructure::Fraction, EditorStructure::MixedFraction, EditorStructure::Decimal, EditorStructure::Root, EditorStructure::Negative, EditorStructure::PlusMinus, EditorStructure::Tuple, EditorStructure::Arithmetic]);
            AnswerInputInterface::StructuredMath { allowed_structures: v }
        },
        ThemeInputProfile::TupleOnly => {
            let v = structures(&[EditorStructure::Tuple]);
            assert(v@ =~= seq![EditorStructure::Tuple]);
            AnswerInputInterface::StructuredMath { allowed_structures: v }
        },
        ThemeInputProfile::DigitGrid(spec) => {
            proof {
                spec.lemma_well_formed_view();
            }
            AnswerInputInterface::DigitGrid {
                min_digit: spec.min_digit(),
                max_digit: spec.max_digit(),
                cell_count: spec.cell_count(),
            }
        },
    }
}

} // verus!
