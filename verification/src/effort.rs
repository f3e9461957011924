//! The effort model: the primitive operations of one standard written
//! solution, column by column, as a pupil carries them out.

use vstd::prelude::*;
use crate::answer::{lemma_view_nodes, magnitudes, view_nodes, AnswerNode, AnswerValue};
use crate::model::{
    coefficient_difference, coefficient_new, coefficient_product, coefficient_quotient, coefficient_sum,
    ArithmeticExpression, ArithmeticOperator, RationalCoefficient,
};
use crate::exact::{
    abs_int, exact_sqrt, exact_square_root_u128, gcd_spec, gcd_u64, pow10, square_free_sqrt_decomposition, strip_squares,
};
use crate::worked::{decimal_digits, lemma_decimal_digits, push_digits};

verus! {

/// The kinds of primitive operation that effort is counted in.
#[derive(Clone, Copy, Debug, PartialEq, Eq, Hash, PartialOrd, Ord, Structural)]
pub enum OperationKind {
    Identity,
    Count,
    Increment,
    Decrement,
    BasePlus,
    BaseMinus,
    BaseTimes,
    BaseDivide,
    BigNum,
    TimeTen,
    OverheadPf,
    OverheadGcd,
    OverheadLcm,
    OverheadNegative,
    OverheadCarryPlus,
    OverheadCarryMinus,
    OverheadCarryMult,
    Transposition,
    OverheadLinear,
    OverheadEqSystem,
    OverheadFactorPerfectSquare,
    OverheadFactorDifferenceOfSquares,
    OverheadFactorGeneral,
    OverheadQuadratic,
    BaseRoot,
    Compare,
    Reciprocal,
    BaseFractionCancel,
    FractionSelfDivision,
}

/// One primitive operation of a written solution.
#[derive(Clone, Copy, Debug, PartialEq, Eq, Structural)]
pub enum Operation {
    Identity,
    Count { amount: u32 },
    Increment,
    Decrement,
    BasePlus,
    BaseMinus,
    BaseTimes,
    BaseDivide,
    BigNum { magnitude: u64 },
    TimeTen { exponent: u32 },
    OverheadPf,
    OverheadGcd,
    OverheadLcm,
    OverheadNegative,
    OverheadCarryPlus,
    OverheadCarryMinus,
    OverheadCarryMult,
    Transposition,
    OverheadLinear,
    OverheadEqSystem,
    OverheadFactorPerfectSquare,
    OverheadFactorDifferenceOfSquares,
    OverheadFactorGeneral,
    OverheadQuadratic,
    BaseRoot,
    Compare,
    Reciprocal,
    BaseFractionCancel,
    FractionSelfDivision,
}

impl Operation {
    /// The kind that the operation counts toward.
    pub fn kind(self) -> (r: OperationKind)
        ensures
            r == operation_kind(self),
    {
        match self {
            Self::Identity => OperationKind::Identity,
            Self::Count { .. } => OperationKind::Count,
            Self::Increment => OperationKind::Increment,
            Self::Decrement => OperationKind::Decrement,
            Self::BasePlus => OperationKind::BasePlus,
            Self::BaseMinus => OperationKind::BaseMinus,
            Self::BaseTimes => OperationKind::BaseTimes,
            Self::BaseDivide => OperationKind::BaseDivide,
            Self::BigNum { .. } => OperationKind::BigNum,
            Self::TimeTen { .. } => OperationKind::TimeTen,
            Self::OverheadPf => OperationKind::OverheadPf,
            Self::OverheadGcd => OperationKind::OverheadGcd,
            Self::OverheadLcm => OperationKind::OverheadLcm,
            Self::OverheadNegative => OperationKind::OverheadNegative,
            Self::OverheadCarryPlus => OperationKind::OverheadCarryPlus,
            Self::OverheadCarryMinus => OperationKind::OverheadCarryMinus,
            Self::OverheadCarryMult => OperationKind::OverheadCarryMult,
            Self::Transposition => OperationKind::Transposition,
            Self::OverheadLinear => OperationKind::OverheadLinear,
            Self::OverheadEqSystem => OperationKind::OverheadEqSystem,
            Self::OverheadFactorPerfectSquare => OperationKind::OverheadFactorPerfectSquare,
            Self::OverheadFactorDifferenceOfSquares => OperationKind::OverheadFactorDifferenceOfSquares,
            Self::OverheadFactorGeneral => OperationKind::OverheadFactorGeneral,
            Self::OverheadQuadratic => OperationKind::OverheadQuadratic,
            Self::BaseRoot => OperationKind::BaseRoot,
            Self::Compare => OperationKind::Compare,
            Self::Reciprocal => OperationKind::Reciprocal,
            Self::BaseFractionCancel => OperationKind::BaseFractionCancel,
            Self::FractionSelfDivision => OperationKind::FractionSelfDivision,
        }
    }
}

pub open spec fn operation_kind(o: Operation) -> OperationKind {
    match o {
        Operation::Identity => OperationKind::Identity,
        Operation::Count { .. } => OperationKind::Count,
        Operation::Increment => OperationKind::Increment,
        Operation::Decrement => OperationKind::Decrement,
        Operation::BasePlus => OperationKind::BasePlus,
        Operation::BaseMinus => OperationKind::BaseMinus,
        Operation::BaseTimes => OperationKind::BaseTimes,
        Operation::BaseDivide => OperationKind::BaseDivide,
        Operation::BigNum { .. } => OperationKind::BigNum,
        Operation::TimeTen { .. } => OperationKind::TimeTen,
        Operation::OverheadPf => OperationKind::OverheadPf,
        Operation::OverheadGcd => OperationKind::OverheadGcd,
        Operation::OverheadLcm => OperationKind::OverheadLcm,
        Operation::OverheadNegative => OperationKind::OverheadNegative,
        Operation::OverheadCarryPlus => OperationKind::OverheadCarryPlus,
        Operation::OverheadCarryMinus => OperationKind::OverheadCarryMinus,
        Operation::OverheadCarryMult => OperationKind::OverheadCarryMult,
        Operation::Transposition => OperationKind::Transposition,
        Operation::OverheadLinear => OperationKind::OverheadLinear,
        Operation::OverheadEqSystem => OperationKind::OverheadEqSystem,
        Operation::OverheadFactorPerfectSquare => OperationKind::OverheadFactorPerfectSquare,
        Operation::OverheadFactorDifferenceOfSquares => OperationKind::OverheadFactorDifferenceOfSquares,
        Operation::OverheadFactorGeneral => OperationKind::OverheadFactorGeneral,
        Operation::OverheadQuadratic => OperationKind::OverheadQuadratic,
        Operation::BaseRoot => OperationKind::BaseRoot,
        Operation::Compare => OperationKind::Compare,
        Operation::Reciprocal => OperationKind::Reciprocal,
        Operation::BaseFractionCancel => OperationKind::BaseFractionCancel,
        Operation::FractionSelfDivision => OperationKind::FractionSelfDivision,
    }
}

/// The ordered primitive operations of one standard solution path.
#[derive(Clone, Debug, PartialEq, Eq)]
pub struct OperationPlan {
    operations: Vec<Operation>,
}

impl View for OperationPlan {
    type V = Seq<Operation>;

    closed spec fn view(&self) -> Seq<Operation> {
        self.operations@
    }
}

impl OperationPlan {
    pub fn new(operations: Vec<Operation>) -> (r: Self)
        ensures
            r@ == operations@,
    {
        Self { operations }
    }

    pub fn from_operations(operations: Vec<Operation>) -> (r: Self)
        ensures
            r@ == operations@,
    {
        Self::new(operations)
    }

    pub fn operations(&self) -> (r: &[Operation])
        ensures
            r@ == self@,
    {
        self.operations.as_slice()
    }

    /// The operations, in order, taken out of the plan.
    pub fn into_operations(self) -> (r: Vec<Operation>)
        ensures
            r@ == self@,
    {
        self.operations
    }

    /// How much of one kind of primitive the plan holds: the coordinate of
    /// that kind in the plan's operation counts. A `Count` adds its amount,
    /// a `TimeTen` adds one to its own kind and its exponent to `Count`
    /// (the places moved), and every other operation, `BigNum` included,
    /// adds one to its kind.
    pub fn kind_count(&self, kind: OperationKind) -> (r: u128)
        ensures
            r == kind_total(self@, kind),
    {
        let mut total: u128 = 0;
        let mut i: usize = 0;
        while i < self.operations.len()
            invariant
                i <= self@.len(),
                self@ == self.operations@,
                total == kind_total(self@.subrange(0, i as int), kind),
                total <= i * 0x2_0000_0000,
            decreases self@.len() - i,
        {
            let op = self.operations[i];
            proof {
                assert(self@.subrange(0, i + 1).drop_last() =~= self@.subrange(0, i as int));
            }
            let own: u128 = if op.kind() == kind {
                match op {
                    Operation::Count { amount } => amount as u128,
                    _ => 1,
                }
            } else {
                0
            };
            let places: u128 = match op {
                Operation::TimeTen { exponent } => if kind == OperationKind::Count {
                    exponent as u128
                } else {
                    0
                },
                _ => 0,
            };
            total = total + own + places;
            i += 1;
        }
        proof {
            assert(self@.subrange(0, self@.len() as int) =~= self@);
        }
        total
    }
}

/// What one operation adds to the count of a kind.
pub open spec fn contribution(o: Operation, kind: OperationKind) -> nat {
    let own: nat = if operation_kind(o) == kind {
        match o {
            Operation::Count { amount } => amount as nat,
            _ => 1,
        }
    } else {
        0
    };
    let places: nat = match o {
        Operation::TimeTen { exponent } => if kind == OperationKind::Count { exponent as nat } else { 0 },
        _ => 0,
    };
    own + places
}

/// The count of a kind over a sequence of operations.
pub open spec fn kind_total(ops: Seq<Operation>, kind: OperationKind) -> nat
    decreases ops.len(),
{
    if ops.len() == 0 {
        0
    } else {
        kind_total(ops.drop_last(), kind) + contribution(ops.last(), kind)
    }
}

/// Appends `more` to `ops`.
fn extend(ops: &mut Vec<Operation>, more: Vec<Operation>)
    ensures
        final(ops)@ == old(ops)@ + more@,
{
    let mut i: usize = 0;
    while i < more.len()
        invariant
            i <= more@.len(),
            ops@ == old(ops)@ + more@.subrange(0, i as int),
        decreases more@.len() - i,
    {
        ops.push(more[i]);
        proof {
            assert(more@.subrange(0, i + 1) =~= more@.subrange(0, i as int).push(more@[i as int]));
        }
        i += 1;
    }
    proof {
        assert(more@.subrange(0, more@.len() as int) =~= more@);
    }
}

/// One `BigNum` per exact integer magnitude of the answer: reading or
/// writing each number of the result.
pub open spec fn big_num_ops(answer: AnswerValue) -> Seq<Operation> {
    magnitudes(answer).map_values(|m: u64| Operation::BigNum { magnitude: m })
}

pub fn big_num_operations(answer: &AnswerNode) -> (r: Vec<Operation>)
    ensures
        r@ == big_num_ops(answer@),
{
    let mut found: Vec<u64> = Vec::new();
    answer.exact_integer_magnitudes(&mut found);
    proof {
        assert(found@ =~= magnitudes(answer@));
    }
    let mut ops: Vec<Operation> = Vec::new();
    let mut i: usize = 0;
    while i < found.len()
        invariant
            i <= found@.len(),
            ops@ == found@.subrange(0, i as int).map_values(|m: u64| Operation::BigNum { magnitude: m }),
        decreases found@.len() - i,
    {
        ops.push(Operation::BigNum { magnitude: found[i] });
        proof {
            assert(found@.subrange(0, i + 1).map_values(|m: u64| Operation::BigNum { magnitude: m }) =~= found@.subrange(
                0,
                i as int,
            ).map_values(|m: u64| Operation::BigNum { magnitude: m }).push(Operation::BigNum { magnitude: found@[i as int] }));
        }
        i += 1;
    }
    proof {
        assert(found@.subrange(0, found@.len() as int) =~= found@);
    }
    ops
}

/// Decimal digits of a number, units first (zero has the one digit 0).
pub open spec fn digits_lsb(v: nat) -> Seq<u8>
    decreases v,
{
    if v < 10 {
        seq![v as u8]
    } else {
        seq![(v % 10) as u8] + digits_lsb(v / 10)
    }
}

pub proof fn lemma_digits_lsb(v: nat)
    ensures
        1 <= digits_lsb(v).len(),
        v <= u64::MAX ==> digits_lsb(v).len() <= 20,
        forall|i: int| 0 <= i < digits_lsb(v).len() ==> #[trigger] digits_lsb(v)[i] < 10,
    decreases v,
{
    if v >= 10 {
        lemma_digits_lsb(v / 10);
        if v <= u64::MAX {
            lemma_digits_lsb_pow(v, 20);
            crate::exact::lemma_pow10_20();
        }
    }
}

proof fn lemma_digits_lsb_pow(v: nat, k: nat)
    ensures
        k >= 1 && v < crate::exact::pow10(k) ==> digits_lsb(v).len() <= k,
    decreases v,
{
    if v >= 10 {
        if k >= 1 {
            crate::exact::lemma_pow10_step((k - 1) as nat);
        }
        lemma_digits_lsb_pow(v / 10, (k - 1) as nat);
        if k == 1 {
            vstd::arithmetic::power::lemma_pow1(10);
        }
    }
}

/// The decimal digits of `value`, units first.
fn decimal_digits_lsb(value: u64) -> (r: Vec<u8>)
    ensures
        r@ == digits_lsb(value as nat),
        1 <= r@.len() <= 20,
        forall|i: int| 0 <= i < r@.len() ==> #[trigger] r@[i] < 10,
{
    proof {
        lemma_digits_lsb(value as nat);
    }
    let mut digits: Vec<u8> = Vec::new();
    let mut rest = value;
    loop
        invariant
            digits@ + digits_lsb(rest as nat) == digits_lsb(value as nat),
            1 <= digits_lsb(value as nat).len() <= 20,
            forall|i: int| 0 <= i < digits_lsb(value as nat).len() ==> #[trigger] digits_lsb(value as nat)[i] < 10,
        decreases rest,
    {
        if rest < 10 {
            digits.push(rest as u8);
            proof {
                assert(digits@ =~= digits_lsb(value as nat));
            }
            return digits;
        }
        digits.push((rest % 10) as u8);
        proof {
            assert(digits@ + digits_lsb((rest / 10) as nat) =~= digits@.drop_last() + digits_lsb(rest as nat));
        }
        rest = rest / 10;
    }
}

/// The digit at `i` of a units-first digit list, zero past its end.
pub open spec fn digit_or_zero(ds: Seq<u8>, i: int) -> u8 {
    if 0 <= i < ds.len() { ds[i] } else { 0 }
}

/// The operations of one addition column and the carry it passes on: a
/// table addition for two nonzero digits, a carried one as an increment, a
/// lone nonzero digit copied down, and a carry noted when the column
/// reaches ten.
pub open spec fn addition_column(l: u8, r: u8, carry: u8) -> (Seq<Operation>, u8) {
    let both_nonzero = l != 0 && r != 0;
    let base: int = l + r;
    let first: Seq<Operation> = if both_nonzero { seq![Operation::BasePlus] } else { Seq::empty() };
    let (second, sum): (Seq<Operation>, int) = if carry == 1 {
        (seq![Operation::Increment], base + 1)
    } else if !both_nonzero && base != 0 {
        (seq![Operation::Identity], base)
    } else {
        (Seq::empty(), base)
    };
    let next: u8 = if sum >= 10 { 1 } else { 0 };
    let third: Seq<Operation> = if next == 1 { seq![Operation::OverheadCarryPlus] } else { Seq::empty() };
    (first + second + third, next)
}

/// The columns of a written addition from column `i` on; a final carry is
/// written down.
pub open spec fn addition_columns(ls: Seq<u8>, rs: Seq<u8>, i: nat, width: nat, carry: u8) -> Seq<Operation>
    decreases width - i,
{
    if i >= width {
        if carry == 1 { seq![Operation::Identity] } else { Seq::empty() }
    } else {
        let (ops, next) = addition_column(digit_or_zero(ls, i as int), digit_or_zero(rs, i as int), carry);
        ops + addition_columns(ls, rs, i + 1, width, next)
    }
}

/// The operations of adding two numbers in columns.
pub open spec fn unsigned_addition_ops(left: nat, right: nat) -> Seq<Operation> {
    let ls = digits_lsb(left);
    let rs = digits_lsb(right);
    addition_columns(ls, rs, 0, if ls.len() >= rs.len() { ls.len() } else { rs.len() }, 0)
}

fn addition_column_exec(l: u8, r: u8, carry: u8) -> (res: (Vec<Operation>, u8))
    requires
        l < 10,
        r < 10,
        carry <= 1,
    ensures
        (res.0@, res.1) == addition_column(l, r, carry),
        res.1 <= 1,
{
    let mut ops: Vec<Operation> = Vec::new();
    let both_nonzero = l != 0 && r != 0;
    if both_nonzero {
        ops.push(Operation::BasePlus);
    }
    let base = l + r;
    let sum = if carry == 1 {
        ops.push(Operation::Increment);
        base + 1
    } else {
        if !both_nonzero && base != 0 {
            ops.push(Operation::Identity);
        }
        base
    };
    let next: u8 = if sum >= 10 { 1 } else { 0 };
    if next == 1 {
        ops.push(Operation::OverheadCarryPlus);
    }
    proof {
        let (spec_ops, spec_next) = addition_column(l, r, carry);
        assert(ops@ =~= spec_ops);
    }
    (ops, next)
}

pub fn unsigned_addition_operations(left: u64, right: u64) -> (r: Vec<Operation>)
    ensures
        r@ == unsigned_addition_ops(left as nat, right as nat),
{
    let ls = decimal_digits_lsb(left);
    let rs = decimal_digits_lsb(right);
    let width = if ls.len() >= rs.len() { ls.len() } else { rs.len() };
    let ghost total = addition_columns(ls@, rs@, 0, width as nat, 0);
    let mut ops: Vec<Operation> = Vec::new();
    let mut carry: u8 = 0;
    let mut i: usize = 0;
    while i < width
        invariant
            i <= width,
            width <= 20,
            carry <= 1,
            forall|k: int| 0 <= k < ls@.len() ==> #[trigger] ls@[k] < 10,
            forall|k: int| 0 <= k < rs@.len() ==> #[trigger] rs@[k] < 10,
            total == addition_columns(ls@, rs@, 0, width as nat, 0),
            ops@ + addition_columns(ls@, rs@, i as nat, width as nat, carry) == total,
        decreases width - i,
    {
        let l = if i < ls.len() { ls[i] } else { 0 };
        let r = if i < rs.len() { rs[i] } else { 0 };
        let (column, next) = addition_column_exec(l, r, carry);
        proof {
            assert(l == digit_or_zero(ls@, i as int));
            assert(r == digit_or_zero(rs@, i as int));
            let ghost rest = addition_columns(ls@, rs@, i as nat + 1, width as nat, next);
            assert(ops@ + column@ + rest =~= ops@ + (column@ + rest));
        }
        extend(&mut ops, column);
        carry = next;
        i += 1;
    }
    if carry == 1 {
        ops.push(Operation::Identity);
    }
    proof {
        assert(ops@ =~= total);
    }
    ops
}


/// Whether `left - right` is a subtraction-table fact.
pub open spec fn base_minus_fact(left: nat, right: nat) -> bool {
    left >= right && left <= 18 && right <= 9 && left - right <= 9
}

/// The operations of one subtraction column and the borrow it passes on:
/// a borrow costs a decrement and its bookkeeping; a zero subtrahend digit
/// is copied down.
pub open spec fn subtraction_column(l: u8, r: u8, borrow: u8) -> (Seq<Operation>, u8) {
    let adjusted: int = l - borrow;
    let (first, next): (Seq<Operation>, u8) = if adjusted < r {
        (seq![Operation::Decrement, Operation::OverheadCarryMinus], 1)
    } else {
        (Seq::empty(), 0)
    };
    let second: Seq<Operation> = if r == 0 { seq![Operation::Identity] } else { seq![Operation::BaseMinus] };
    (first + second, next)
}

pub open spec fn subtraction_columns(ls: Seq<u8>, rs: Seq<u8>, i: nat, borrow: u8) -> Seq<Operation>
    decreases ls.len() - i,
{
    if i >= ls.len() {
        Seq::empty()
    } else {
        let (ops, next) = subtraction_column(ls[i as int], digit_or_zero(rs, i as int), borrow);
        ops + subtraction_columns(ls, rs, i + 1, next)
    }
}

/// The operations of subtracting `right` from `left` in columns; nothing to
/// take away is a copy, and a table fact is one step.
pub open spec fn unsigned_subtraction_ops(left: nat, right: nat) -> Seq<Operation> {
    if right == 0 {
        seq![Operation::Identity]
    } else if base_minus_fact(left, right) {
        seq![Operation::BaseMinus]
    } else {
        subtraction_columns(digits_lsb(left), digits_lsb(right), 0, 0)
    }
}

pub fn unsigned_subtraction_operations(left: u64, right: u64) -> (r: Vec<Operation>)
    requires
        left >= right,
    ensures
        r@ == unsigned_subtraction_ops(left as nat, right as nat),
{
    if right == 0 {
        let mut ops: Vec<Operation> = Vec::new();
        ops.push(Operation::Identity);
        proof {
            assert(ops@ =~= seq![Operation::Identity]);
        }
        return ops;
    }
    if left >= right && left <= 18 && right <= 9 && left - right <= 9 {
        let mut ops: Vec<Operation> = Vec::new();
        ops.push(Operation::BaseMinus);
        proof {
            assert(ops@ =~= seq![Operation::BaseMinus]);
        }
        return ops;
    }
    let ls = decimal_digits_lsb(left);
    let rs = decimal_digits_lsb(right);
    let ghost total = subtraction_columns(ls@, rs@, 0, 0);
    let mut ops: Vec<Operation> = Vec::new();
    let mut borrow: u8 = 0;
    let mut i: usize = 0;
    while i < ls.len()
        invariant
            i <= ls@.len(),
            borrow <= 1,
            forall|k: int| 0 <= k < ls@.len() ==> #[trigger] ls@[k] < 10,
            forall|k: int| 0 <= k < rs@.len() ==> #[trigger] rs@[k] < 10,
            total == subtraction_columns(ls@, rs@, 0, 0),
            ops@ + subtraction_columns(ls@, rs@, i as nat, borrow) == total,
        decreases ls@.len() - i,
    {
        let l = ls[i];
        let r = if i < rs.len() { rs[i] } else { 0 };
        let adjusted = l as i16 - borrow as i16;
        let ghost before = ops@;
        let next: u8 = if adjusted < r as i16 {
            ops.push(Operation::Decrement);
            ops.push(Operation::OverheadCarryMinus);
            1
        } else {
            0
        };
        if r == 0 {
            ops.push(Operation::Identity);
        } else {
            ops.push(Operation::BaseMinus);
        }
        proof {
            assert(r == digit_or_zero(rs@, i as int));
            let (column, spec_next) = subtraction_column(l, r, borrow);
            assert(ops@ =~= before + column);
            let rest = subtraction_columns(ls@, rs@, i as nat + 1, next);
            assert(before + column + rest =~= before + (column + rest));
        }
        borrow = next;
        i += 1;
    }
    proof {
        assert(ops@ =~= total);
    }
    ops
}

pub open spec fn abs_nat(x: i64) -> nat {
    if x < 0 { (-x) as nat } else { x as nat }
}

fn magnitude(x: i64) -> (r: u64)
    ensures
        r == abs_nat(x),
{
    if x < 0 {
        if x == i64::MIN {
            9223372036854775808u64
        } else {
            (-x) as u64
        }
    } else {
        x as u64
    }
}

/// Signed addition after the sign rules: like signs add the magnitudes;
/// unlike signs compare them and subtract the smaller. A negative operand
/// costs one sign step, except in `a + (-b)` with positive `a`.
pub open spec fn signed_addition_ops(left: i64, right: i64) -> Seq<Operation> {
    let la = abs_nat(left);
    let ra = abs_nat(right);
    let ops = if (left < 0) == (right < 0) {
        unsigned_addition_ops(la, ra)
    } else {
        seq![Operation::Compare] + if la > ra {
            unsigned_subtraction_ops(la, ra)
        } else if la < ra {
            unsigned_subtraction_ops(ra, la)
        } else {
            seq![Operation::Identity]
        }
    };
    if (left < 0 || right < 0) && !(left > 0 && right < 0) {
        ops.push(Operation::OverheadNegative)
    } else {
        ops
    }
}

fn compare_then(rest: Vec<Operation>) -> (r: Vec<Operation>)
    ensures
        r@ == seq![Operation::Compare] + rest@,
{
    let mut ops: Vec<Operation> = Vec::new();
    ops.push(Operation::Compare);
    extend(&mut ops, rest);
    proof {
        assert(ops@ =~= seq![Operation::Compare] + rest@);
    }
    ops
}

fn single(op: Operation) -> (r: Vec<Operation>)
    ensures
        r@ == seq![op],
{
    let mut ops: Vec<Operation> = Vec::new();
    ops.push(op);
    proof {
        assert(ops@ =~= seq![op]);
    }
    ops
}

pub fn signed_addition_operations(left: i64, right: i64) -> (r: Vec<Operation>)
    ensures
        r@ == signed_addition_ops(left, right),
{
    let la = magnitude(left);
    let ra = magnitude(right);
    let mut ops = if (left < 0) == (right < 0) {
        unsigned_addition_operations(la, ra)
    } else if la > ra {
        compare_then(unsigned_subtraction_operations(la, ra))
    } else if la < ra {
        compare_then(unsigned_subtraction_operations(ra, la))
    } else {
        compare_then(single(Operation::Identity))
    };
    if (left < 0 || right < 0) && !(left > 0 && right < 0) {
        ops.push(Operation::OverheadNegative);
    }
    ops
}

/// Signed subtraction after the sign rules: unlike signs add the
/// magnitudes; like signs compare them and subtract the smaller. A negative
/// operand costs one sign step.
pub open spec fn signed_subtraction_ops(left: i64, right: i64) -> Seq<Operation> {
    let la = abs_nat(left);
    let ra = abs_nat(right);
    let ops = if left >= 0 && right >= 0 {
        seq![Operation::Compare] + if la >= ra {
            unsigned_subtraction_ops(la, ra)
        } else {
            unsigned_subtraction_ops(ra, la)
        }
    } else if left < 0 && right < 0 {
        seq![Operation::Compare] + if ra >= la {
            unsigned_subtraction_ops(ra, la)
        } else {
            unsigned_subtraction_ops(la, ra)
        }
    } else {
        unsigned_addition_ops(la, ra)
    };
    if left < 0 || right < 0 {
        ops.push(Operation::OverheadNegative)
    } else {
        ops
    }
}

pub fn signed_subtraction_operations(left: i64, right: i64) -> (r: Vec<Operation>)
    ensures
        r@ == signed_subtraction_ops(left, right),
{
    let la = magnitude(left);
    let ra = magnitude(right);
    let mut ops = if left >= 0 && right >= 0 {
        if la >= ra {
            compare_then(unsigned_subtraction_operations(la, ra))
        } else {
            compare_then(unsigned_subtraction_operations(ra, la))
        }
    } else if left < 0 && right < 0 {
        if ra >= la {
            compare_then(unsigned_subtraction_operations(ra, la))
        } else {
            compare_then(unsigned_subtraction_operations(la, ra))
        }
    } else {
        unsigned_addition_operations(la, ra)
    };
    if left < 0 || right < 0 {
        ops.push(Operation::OverheadNegative);
    }
    ops
}

/// Adding a multiplication carry to a digit product: nothing without a
/// carry, a copy onto a zero product, an increment for a carry of one, and
/// otherwise a table addition on the product's units digit (which may raise
/// the carry by one more).
pub open spec fn carry_addition_ops(product: nat, carry: nat) -> Seq<Operation> {
    if carry == 0 {
        Seq::empty()
    } else if product == 0 {
        seq![Operation::Identity]
    } else if carry == 1 {
        seq![Operation::Increment]
    } else if product < 10 {
        if product % 10 == 0 { seq![Operation::Identity] } else { seq![Operation::BasePlus] }
    } else if product % 10 == 0 {
        seq![Operation::Identity]
    } else if product % 10 + carry >= 10 {
        seq![Operation::BasePlus, Operation::Increment]
    } else {
        seq![Operation::BasePlus]
    }
}

pub fn multiplication_carry_addition_operations(product: u16, carry: u16) -> (r: Vec<Operation>)
    requires
        carry <= 100,
    ensures
        r@ == carry_addition_ops(product as nat, carry as nat),
{
    if carry == 0 {
        return Vec::new();
    }
    if product == 0 {
        return single(Operation::Identity);
    }
    if carry == 1 {
        return single(Operation::Increment);
    }
    let ones = product % 10;
    if product < 10 {
        return if ones == 0 {
            single(Operation::Identity)
        } else {
            single(Operation::BasePlus)
        };
    }
    if ones == 0 {
        return single(Operation::Identity);
    }
    let mut ops = single(Operation::BasePlus);
    if ones + carry >= 10 {
        ops.push(Operation::Increment);
    }
    proof {
        if ones + carry >= 10 {
            assert(ops@ =~= seq![Operation::BasePlus, Operation::Increment]);
        }
    }
    ops
}



/// The value of the first `k` digits of a units-first digit list.
pub open spec fn value_prefix(ds: Seq<u8>, k: nat) -> int
    decreases k,
{
    if k == 0 || k > ds.len() {
        0
    } else {
        value_prefix(ds, (k - 1) as nat) + ds[k - 1] * pow10((k - 1) as nat)
    }
}

proof fn lemma_value_prefix_nonneg(ds: Seq<u8>, k: nat)
    ensures
        value_prefix(ds, k) >= 0,
    decreases k,
{
    if k > 0 && k <= ds.len() {
        lemma_value_prefix_nonneg(ds, (k - 1) as nat);
        crate::exact::lemma_pow10_positive((k - 1) as nat);
        assert(ds[k - 1] * pow10((k - 1) as nat) >= 0) by (nonlinear_arith)
            requires
                ds[k - 1] >= 0,
                pow10((k - 1) as nat) > 0,
        ;
    }
}

proof fn lemma_value_prefix_cons(d: u8, rest: Seq<u8>, k: nat)
    requires
        1 <= k <= rest.len() + 1,
    ensures
        value_prefix(seq![d] + rest, k) == d + 10 * value_prefix(rest, (k - 1) as nat),
    decreases k,
{
    let ds = seq![d] + rest;
    if k == 1 {
        vstd::arithmetic::power::lemma_pow0(10);
        assert(ds[0] == d);
        assert(value_prefix(ds, 0) == 0);
        assert(value_prefix(rest, 0) == 0);
        assert(pow10(0) == 1);
        assert(value_prefix(ds, 1) == value_prefix(ds, 0) + ds[0] * pow10(0));
    } else {
        lemma_value_prefix_cons(d, rest, (k - 1) as nat);
        crate::exact::lemma_pow10_step((k - 2) as nat);
        assert(ds[k - 1] == rest[k - 2]);
        let a = value_prefix(rest, (k - 2) as nat);
        let b = rest[k - 2] as int;
        let c = pow10((k - 2) as nat);
        assert(pow10((k - 1) as nat) == 10 * c);
        assert(value_prefix(rest, (k - 1) as nat) == a + b * c);
        assert(value_prefix(ds, k) == value_prefix(ds, (k - 1) as nat) + b * pow10((k - 1) as nat));
        assert(10 * (a + b * c) == 10 * a + b * (10 * c)) by (nonlinear_arith);
    }
}

/// The first `k` units-first digits of `v` are worth at most `v`, and all
/// of them exactly `v`.
pub proof fn lemma_value_prefix_digits(v: nat, k: nat)
    requires
        k <= digits_lsb(v).len(),
    ensures
        value_prefix(digits_lsb(v), k) <= v,
        k == digits_lsb(v).len() ==> value_prefix(digits_lsb(v), k) == v,
    decreases v,
{
    if v < 10 {
        if k == 1 {
            vstd::arithmetic::power::lemma_pow0(10);
            assert(value_prefix(digits_lsb(v), 1) == value_prefix(digits_lsb(v), 0) + digits_lsb(v)[0] * pow10(0));
        }
    } else {
        let rest = digits_lsb(v / 10);
        assert(digits_lsb(v) == seq![(v % 10) as u8] + rest);
        if k >= 1 {
            lemma_value_prefix_cons((v % 10) as u8, rest, k);
            lemma_value_prefix_digits(v / 10, (k - 1) as nat);
        }
    }
}

pub proof fn lemma_value_prefix_step(ds: Seq<u8>, k: nat)
    requires
        k < ds.len(),
    ensures
        value_prefix(ds, k + 1) == value_prefix(ds, k) + ds[k as int] * pow10(k),
{
}

/// Sum of a sequence of numbers.
pub open spec fn seq_sum(s: Seq<u64>) -> nat
    decreases s.len(),
{
    if s.len() == 0 {
        0
    } else {
        seq_sum(s.drop_last()) + s.last() as nat
    }
}

proof fn lemma_seq_sum_prefix(s: Seq<u64>, k: nat)
    requires
        k <= s.len(),
    ensures
        seq_sum(s.take(k as int)) <= seq_sum(s),
    decreases s.len() - k,
{
    if k < s.len() {
        lemma_seq_sum_prefix(s, k + 1);
        assert(s.take(k + 1int).drop_last() =~= s.take(k as int));
    } else {
        assert(s.take(k as int) =~= s);
    }
}

/// One row of a long multiplication: each multiplicand digit times the
/// multiplier digit, with the carry added; a carry out of the last digit
/// is written down.
pub open spec fn multiplication_row_ops(ls: Seq<u8>, rd: nat, index: nat, carry: nat) -> Seq<Operation>
    decreases ls.len() - index,
{
    if index >= ls.len() {
        Seq::empty()
    } else {
        let ld = ls[index as int] as nat;
        let product: nat = if ld == 0 { 0 } else { ld * rd };
        let first: Seq<Operation> = if ld != 0 { seq![Operation::BaseTimes] } else { Seq::empty() };
        let out: nat = (product + carry) / 10;
        let last: Seq<Operation> = if out > 0 {
            seq![Operation::OverheadCarryMult] + if index + 1 == ls.len() {
                seq![Operation::Identity]
            } else {
                Seq::<Operation>::empty()
            }
        } else {
            Seq::empty()
        };
        first + carry_addition_ops(product, carry) + last + multiplication_row_ops(ls, rd, index + 1, out)
    }
}

/// The rows of a long multiplication from row `row` on (a zero multiplier
/// digit is skipped), and the nonzero row values to be added.
pub open spec fn multiplication_rows(left: nat, ls: Seq<u8>, rs: Seq<u8>, row: nat) -> (Seq<Operation>, Seq<u64>)
    decreases rs.len() - row,
{
    if row >= rs.len() {
        (Seq::empty(), Seq::empty())
    } else {
        let rd = rs[row as int] as nat;
        let (ops, partials) = multiplication_rows(left, ls, rs, row + 1);
        if rd == 0 {
            (ops, partials)
        } else {
            let value = left * rd * pow10(row) as nat;
            (
                multiplication_row_ops(ls, rd, 0, 0) + ops,
                if value != 0 { seq![value as u64] + partials } else { partials },
            )
        }
    }
}

/// Adding up the rows of a long multiplication, from row value `k` on.
pub open spec fn partial_sum_ops(ps: Seq<u64>, acc: nat, k: nat) -> Seq<Operation>
    decreases ps.len() - k,
{
    if k >= ps.len() {
        Seq::empty()
    } else {
        unsigned_addition_ops(acc, ps[k as int] as nat) + partial_sum_ops(ps, acc + ps[k as int] as nat, k + 1)
    }
}

/// The operations of a long multiplication: the rows, then the additions of
/// the row values.
pub open spec fn unsigned_multiplication_ops(left: nat, right: nat) -> Seq<Operation> {
    let (ops, partials) = multiplication_rows(left, digits_lsb(left), digits_lsb(right), 0);
    ops + if partials.len() > 1 {
        partial_sum_ops(partials, partials[0] as nat, 1)
    } else {
        Seq::empty()
    }
}

fn multiplication_row_operations(ls: &Vec<u8>, rd: u8) -> (r: Vec<Operation>)
    requires
        rd < 10,
        forall|k: int| 0 <= k < ls@.len() ==> #[trigger] ls@[k] < 10,
    ensures
        r@ == multiplication_row_ops(ls@, rd as nat, 0, 0),
{
    let ghost total = multiplication_row_ops(ls@, rd as nat, 0, 0);
    let mut ops: Vec<Operation> = Vec::new();
    let mut carry: u16 = 0;
    let mut index: usize = 0;
    while index < ls.len()
        invariant
            index <= ls@.len(),
            carry <= 8,
            rd < 10,
            forall|k: int| 0 <= k < ls@.len() ==> #[trigger] ls@[k] < 10,
            total == multiplication_row_ops(ls@, rd as nat, 0, 0),
            ops@ + multiplication_row_ops(ls@, rd as nat, index as nat, carry as nat) == total,
        decreases ls@.len() - index,
    {
        let ld = ls[index];
        assert(ld < 10);
        let ghost before = ops@;
        proof {
            assert(ld as u16 * rd as u16 <= 81) by (nonlinear_arith)
                requires
                    ld < 10,
                    rd < 10,
            ;
        }
        let product: u16 = if ld == 0 {
            0
        } else {
            ops.push(Operation::BaseTimes);
            ld as u16 * rd as u16
        };
        let ghost after_first = ops@;
        extend(&mut ops, multiplication_carry_addition_operations(product, carry));
        let ghost after_second = ops@;
        assert(product <= 81);
        let total_digit = product + carry;
        let out = total_digit / 10;
        if out > 0 {
            ops.push(Operation::OverheadCarryMult);
            if index + 1 == ls.len() {
                ops.push(Operation::Identity);
            }
        }
        proof {
            let first: Seq<Operation> = if ld != 0 { seq![Operation::BaseTimes] } else { Seq::empty() };
            assert(after_first =~= before + first);
            let last: Seq<Operation> = if out > 0 {
                seq![Operation::OverheadCarryMult] + if index + 1 == ls@.len() {
                    seq![Operation::Identity]
                } else {
                    Seq::<Operation>::empty()
                }
            } else {
                Seq::empty()
            };
            assert(ops@ =~= after_second + last);
            let rest = multiplication_row_ops(ls@, rd as nat, index as nat + 1, out as nat);
            assert(before + (first + carry_addition_ops(product as nat, carry as nat) + last + rest) =~= ops@
                + rest);
        }
        carry = out;
        index += 1;
    }
    ops
}

/// The operations of multiplying `left` by `right` in writing.
pub fn unsigned_multiplication_operations(left: u64, right: u64) -> (r: Vec<Operation>)
    requires
        left * right <= u64::MAX,
    ensures
        r@ == unsigned_multiplication_ops(left as nat, right as nat),
{
    let ls = decimal_digits_lsb(left);
    let rs = decimal_digits_lsb(right);
    let ghost rows = multiplication_rows(left as nat, ls@, rs@, 0);
    let mut ops: Vec<Operation> = Vec::new();
    let mut partials: Vec<u64> = Vec::new();
    let mut row: usize = 0;
    while row < rs.len()
        invariant
            row <= rs@.len(),
            rs@.len() <= 20,
            rs@ == digits_lsb(right as nat),
            left * right <= u64::MAX,
            forall|k: int| 0 <= k < ls@.len() ==> #[trigger] ls@[k] < 10,
            forall|k: int| 0 <= k < rs@.len() ==> #[trigger] rs@[k] < 10,
            rows == multiplication_rows(left as nat, ls@, rs@, 0),
            ops@ + multiplication_rows(left as nat, ls@, rs@, row as nat).0 == rows.0,
            partials@ + multiplication_rows(left as nat, ls@, rs@, row as nat).1 == rows.1,
            seq_sum(partials@) == left * value_prefix(rs@, row as nat),
        decreases rs@.len() - row,
    {
        let rd = rs[row];
        proof {
            lemma_value_prefix_step(rs@, row as nat);
            lemma_value_prefix_digits(right as nat, row as nat + 1);
            lemma_value_prefix_nonneg(rs@, row as nat);
            crate::exact::lemma_pow10_positive(row as nat);
            assert(rd < 10);
        }
        if rd != 0 {
            let ghost before_ops = ops@;
            let ghost before_partials = partials@;
            extend(&mut ops, multiplication_row_operations(&ls, rd));
            let ghost p = pow10(row as nat);
            let ghost vp = value_prefix(rs@, row as nat);
            proof {
                assert(p <= rd * p) by (nonlinear_arith)
                    requires
                        rd >= 1,
                        p > 0,
                ;
                assert(left * (vp + rd * p) <= left * right) by (nonlinear_arith)
                    requires
                        vp + rd * p <= right,
                        left >= 0,
                ;
                assert(left * (vp + rd * p) == left * vp + left * rd * p) by (nonlinear_arith);
                assert(left * vp >= 0) by (nonlinear_arith)
                    requires
                        left >= 0,
                        vp >= 0,
                ;
                assert(p <= u64::MAX);
            }
            let power = match crate::exact::checked_pow10_u64(row as u32) {
                Some(v) => v,
                None => {
                    proof {
                        assert(false);
                    }
                    0
                },
            };
            proof {
                assert(left * rd * power <= u64::MAX);
                assert(left * rd <= u64::MAX) by (nonlinear_arith)
                    requires
                        left * rd * power <= u64::MAX,
                        power >= 1,
                        left >= 0,
                        rd >= 0,
                ;
            }
            let value = left * rd as u64 * power;
            if value != 0 {
                partials.push(value);
            }
            proof {
                let rest = multiplication_rows(left as nat, ls@, rs@, row as nat + 1);
                assert(before_ops + (multiplication_row_ops(ls@, rd as nat, 0, 0) + rest.0) =~= ops@ + rest.0);
                assert(value == left * rd * p);
                if value != 0 {
                    assert(before_partials + (seq![value] + rest.1) =~= partials@ + rest.1);
                    assert(partials@.drop_last() =~= before_partials);
                    assert(seq_sum(partials@) == seq_sum(before_partials) + value);
                } else {
                    assert(partials@ == before_partials);
                }
                assert(left * value_prefix(rs@, row as nat + 1) == left * vp + left * rd * p);
            }
        }
        else {
            proof {
                assert(rs@[row as int] == 0);
                assert(rs@[row as int] * pow10(row as nat) == 0) by (nonlinear_arith)
                    requires
                        rs@[row as int] == 0,
                ;
                assert(value_prefix(rs@, row as nat + 1) == value_prefix(rs@, row as nat));
            }
        }
        row += 1;
    }
    proof {
        lemma_value_prefix_digits(right as nat, rs@.len() as nat);
        assert(ops@ =~= rows.0);
        assert(partials@ =~= rows.1);
    }
    if partials.len() > 1 {
        let ghost ps = partials@;
        let mut accumulated: u64 = partials[0];
        let mut k: usize = 1;
        proof {
            assert(ps.take(1).drop_last() =~= ps.take(0));
            assert(ps.take(0) =~= Seq::<u64>::empty());
            assert(seq_sum(ps.take(1)) == seq_sum(ps.take(0)) + ps.take(1).last());
        }
        while k < partials.len()
            invariant
                1 <= k <= ps.len(),
                ps == partials@,
                seq_sum(ps) <= u64::MAX,
                accumulated == seq_sum(ps.take(k as int)),
                ops@ + partial_sum_ops(ps, accumulated as nat, k as nat) == rows.0 + partial_sum_ops(
                    ps,
                    ps[0] as nat,
                    1,
                ),
            decreases ps.len() - k,
        {
            proof {
                lemma_seq_sum_prefix(ps, k as nat + 1);
                assert(ps.take(k + 1).drop_last() =~= ps.take(k as int));
            }
            let ghost before = ops@;
            extend(&mut ops, unsigned_addition_operations(accumulated, partials[k]));
            proof {
                let rest = partial_sum_ops(ps, (accumulated + ps[k as int]) as nat, k as nat + 1);
                assert(before + (unsigned_addition_ops(accumulated as nat, ps[k as int] as nat) + rest) =~= ops@
                    + rest);
            }
            accumulated = accumulated + partials[k];
            k += 1;
        }
        proof {
            assert(ops@ + Seq::<Operation>::empty() =~= ops@);
        }
    } else {
        proof {
            assert(ops@ + Seq::<Operation>::empty() =~= ops@);
        }
    }
    ops
}

/// Signed multiplication: the magnitudes multiplied, and one sign step for
/// a negative factor.
pub open spec fn signed_multiplication_ops(left: i64, right: i64) -> Seq<Operation> {
    let ops = unsigned_multiplication_ops(abs_nat(left), abs_nat(right));
    if left < 0 || right < 0 { ops.push(Operation::OverheadNegative) } else { ops }
}

pub fn signed_multiplication_operations(left: i64, right: i64) -> (r: Vec<Operation>)
    requires
        abs_nat(left) * abs_nat(right) <= u64::MAX,
    ensures
        r@ == signed_multiplication_ops(left, right),
{
    let mut ops = unsigned_multiplication_operations(magnitude(left), magnitude(right));
    if left < 0 || right < 0 {
        ops.push(Operation::OverheadNegative);
    }
    ops
}

/// Multiplying by one (or minus one) is a copy, with a sign step for a
/// negative factor; anything else is a long multiplication.
pub open spec fn multiply_or_identity_ops(left: i64, right: i64) -> Seq<Operation> {
    if abs_nat(left) == 1 || abs_nat(right) == 1 {
        if left < 0 || right < 0 {
            seq![Operation::Identity, Operation::OverheadNegative]
        } else {
            seq![Operation::Identity]
        }
    } else {
        signed_multiplication_ops(left, right)
    }
}

pub fn multiply_or_identity_operations(left: i64, right: i64) -> (r: Vec<Operation>)
    requires
        abs_nat(left) * abs_nat(right) <= u64::MAX,
    ensures
        r@ == multiply_or_identity_ops(left, right),
{
    if magnitude(left) == 1 || magnitude(right) == 1 {
        let mut ops = single(Operation::Identity);
        if left < 0 || right < 0 {
            ops.push(Operation::OverheadNegative);
        }
        proof {
            if left < 0 || right < 0 {
                assert(ops@ =~= seq![Operation::Identity, Operation::OverheadNegative]);
            }
        }
        ops
    } else {
        signed_multiplication_operations(left, right)
    }
}


/// Whether `dividend / divisor` is a division-table fact.
pub open spec fn base_divide_fact(dividend: nat, divisor: nat) -> bool {
    0 < divisor <= 9 && dividend % divisor == 0 && dividend / divisor <= 9
}

/// The value of a most-significant-first digit list.
pub open spec fn msb_value(ds: Seq<u8>) -> int
    decreases ds.len(),
{
    if ds.len() == 0 {
        0
    } else {
        msb_value(ds.drop_last()) * 10 + ds.last()
    }
}

proof fn lemma_msb_value_prefix(v: nat, k: nat)
    requires
        k <= decimal_digits(v).len(),
    ensures
        0 <= msb_value(decimal_digits(v).take(k as int)) <= v,
        k == decimal_digits(v).len() ==> msb_value(decimal_digits(v).take(k as int)) == v,
    decreases v,
{
    let ds = decimal_digits(v);
    if v < 10 {
        assert(ds == seq![v as u8]);
        if k == 1 {
            let t = ds.take(1);
            assert(t.drop_last() =~= Seq::<u8>::empty());
            assert(msb_value(t.drop_last()) == 0);
            assert(t.last() == v as u8);
            assert(msb_value(t) == msb_value(t.drop_last()) * 10 + t.last());
        } else {
            assert(ds.take(0) =~= Seq::<u8>::empty());
            assert(msb_value(ds.take(0)) == 0);
        }
    } else {
        let d = decimal_digits(v / 10);
        lemma_decimal_digits(v / 10);
        assert(ds == d.push((v % 10) as u8));
        if k <= d.len() {
            assert(ds.take(k as int) =~= d.take(k as int));
            lemma_msb_value_prefix(v / 10, k);
        } else {
            assert(ds.take(k as int) =~= ds);
            assert(ds.drop_last() =~= d.take(d.len() as int));
            lemma_msb_value_prefix(v / 10, d.len());
            assert(msb_value(ds) == msb_value(ds.drop_last()) * 10 + ds.last());
        }
    }
}

/// One column of a long division: bring the next digit down, compare with
/// the divisor, then either write a zero quotient digit (once the quotient
/// has started), use a table fact, or search the quotient digit (three table
/// probes) and subtract its product.
pub open spec fn division_column(p: nat, divisor: nat, started: bool) -> (Seq<Operation>, nat) {
    if p < divisor {
        (if started { seq![Operation::Identity] } else { Seq::empty() }, p)
    } else if base_divide_fact(p, divisor) {
        (seq![Operation::BaseDivide], 0)
    } else {
        let q: nat = if p / divisor <= 9 { p / divisor } else { 9 };
        let product = divisor * q;
        (
            seq![Operation::BaseTimes, Operation::BaseTimes, Operation::BaseTimes] + if p != product {
                unsigned_subtraction_ops(p, product)
            } else {
                Seq::empty()
            },
            (p - product) as nat,
        )
    }
}

pub open spec fn division_steps(ds: Seq<u8>, divisor: nat, index: nat, partial: nat, started: bool) -> Seq<
    Operation,
>
    decreases ds.len() - index,
{
    if index >= ds.len() || divisor == 0 {
        Seq::empty()
    } else {
        let head: Seq<Operation> = if index > 0 {
            seq![Operation::Identity, Operation::Compare]
        } else {
            seq![Operation::Compare]
        };
        let p = partial * 10 + ds[index as int] as nat;
        let (ops, next) = division_column(p, divisor, started);
        head + ops + division_steps(ds, divisor, index + 1, next, started || p >= divisor)
    }
}

fn division_column_exec(p: u64, divisor: u64, started: bool) -> (r: (Vec<Operation>, u64))
    requires
        divisor > 0,
    ensures
        (r.0@, r.1 as nat) == division_column(p as nat, divisor as nat, started),
        r.1 <= p,
{
    if p < divisor {
        let ops = if started { single(Operation::Identity) } else { Vec::new() };
        proof {
            if !started {
                assert(ops@ =~= Seq::<Operation>::empty());
            }
        }
        return (ops, p);
    }
    if divisor <= 9 && p % divisor == 0 && p / divisor <= 9 {
        return (single(Operation::BaseDivide), 0);
    }
    let mut ops: Vec<Operation> = Vec::new();
    ops.push(Operation::BaseTimes);
    ops.push(Operation::BaseTimes);
    ops.push(Operation::BaseTimes);
    let quotient = p / divisor;
    let q = if quotient <= 9 { quotient } else { 9 };
    proof {
        assert(divisor * q <= p) by (nonlinear_arith)
            requires
                q <= p / divisor,
                divisor > 0,
        ;
    }
    let product = divisor * q;
    if p != product {
        extend(&mut ops, unsigned_subtraction_operations(p, product));
    }
    proof {
        let three = seq![Operation::BaseTimes, Operation::BaseTimes, Operation::BaseTimes];
        if p != product {
            assert(ops@ =~= three + unsigned_subtraction_ops(p as nat, product as nat));
        } else {
            assert(ops@ =~= three + Seq::<Operation>::empty());
        }
    }
    (ops, p - product)
}

/// The operations of a long division: zero is copied, a table fact is one
/// step, anything else is worked digit by digit.
pub open spec fn unsigned_division_ops(dividend: nat, divisor: nat) -> Seq<Operation> {
    if dividend == 0 {
        seq![Operation::Identity]
    } else if base_divide_fact(dividend, divisor) {
        seq![Operation::BaseDivide]
    } else {
        division_steps(decimal_digits(dividend), divisor, 0, 0, false)
    }
}

pub fn unsigned_division_operations(dividend: u64, divisor: u64) -> (r: Vec<Operation>)
    requires
        divisor > 0,
    ensures
        r@ == unsigned_division_ops(dividend as nat, divisor as nat),
{
    if dividend == 0 {
        return single(Operation::Identity);
    }
    if divisor <= 9 && dividend % divisor == 0 && dividend / divisor <= 9 {
        return single(Operation::BaseDivide);
    }
    let mut digits: Vec<u8> = Vec::new();
    push_digits(&mut digits, dividend);
    proof {
        assert(digits@ =~= decimal_digits(dividend as nat));
        lemma_decimal_digits(dividend as nat);
        assert(digits@.take(0) =~= Seq::<u8>::empty());
    }
    let ghost total = division_steps(digits@, divisor as nat, 0, 0, false);
    let mut ops: Vec<Operation> = Vec::new();
    let mut partial: u64 = 0;
    let mut started = false;
    let mut index: usize = 0;
    while index < digits.len()
        invariant
            index <= digits@.len(),
            digits@ == decimal_digits(dividend as nat),
            divisor > 0,
            forall|k: int| 0 <= k < digits@.len() ==> #[trigger] digits@[k] < 10,
            partial <= msb_value(digits@.take(index as int)),
            total == division_steps(digits@, divisor as nat, 0, 0, false),
            ops@ + division_steps(digits@, divisor as nat, index as nat, partial as nat, started) == total,
        decreases digits@.len() - index,
    {
        let d = digits[index];
        proof {
            lemma_msb_value_prefix(dividend as nat, index as nat + 1);
            assert(digits@.take(index + 1).drop_last() =~= digits@.take(index as int));
            assert(digits@.take(index + 1).last() == d);
        }
        let ghost before = ops@;
        if index > 0 {
            ops.push(Operation::Identity);
        }
        ops.push(Operation::Compare);
        let p = partial * 10 + d as u64;
        let (column, next) = division_column_exec(p, divisor, started);
        proof {
            let head: Seq<Operation> = if index > 0 {
                seq![Operation::Identity, Operation::Compare]
            } else {
                seq![Operation::Compare]
            };
            assert(ops@ =~= before + head);
            let rest = division_steps(digits@, divisor as nat, index as nat + 1, next as nat, started || p >= divisor);
            assert(before + (head + column@ + rest) =~= ops@ + column@ + rest);
        }
        extend(&mut ops, column);
        started = started || p >= divisor;
        partial = next;
        index += 1;
    }
    proof {
        assert(ops@ =~= total);
    }
    ops
}

/// Signed division: the magnitudes divided, and one sign step for a
/// negative operand.
pub open spec fn signed_division_ops(dividend: i64, divisor: i64) -> Seq<Operation> {
    let ops = unsigned_division_ops(abs_nat(dividend), abs_nat(divisor));
    if dividend < 0 || divisor < 0 { ops.push(Operation::OverheadNegative) } else { ops }
}

pub fn signed_division_operations(dividend: i64, divisor: i64) -> (r: Vec<Operation>)
    requires
        divisor != 0,
    ensures
        r@ == signed_division_ops(dividend, divisor),
{
    let mut ops = unsigned_division_operations(magnitude(dividend), magnitude(divisor));
    if dividend < 0 || divisor < 0 {
        ops.push(Operation::OverheadNegative);
    }
    ops
}

/// Dividing zero, or dividing by one (or minus one), is a copy with a sign
/// step for a negative operand; anything else is a long division.
pub open spec fn divide_or_identity_ops(dividend: i64, divisor: i64) -> Seq<Operation> {
    if dividend == 0 || abs_nat(divisor) == 1 {
        if dividend < 0 || divisor < 0 {
            seq![Operation::Identity, Operation::OverheadNegative]
        } else {
            seq![Operation::Identity]
        }
    } else {
        signed_division_ops(dividend, divisor)
    }
}

pub fn divide_or_identity_operations(dividend: i64, divisor: i64) -> (r: Vec<Operation>)
    requires
        divisor != 0,
    ensures
        r@ == divide_or_identity_ops(dividend, divisor),
{
    if dividend == 0 || magnitude(divisor) == 1 {
        let mut ops = single(Operation::Identity);
        if dividend < 0 || divisor < 0 {
            ops.push(Operation::OverheadNegative);
        }
        proof {
            if dividend < 0 || divisor < 0 {
                assert(ops@ =~= seq![Operation::Identity, Operation::OverheadNegative]);
            }
        }
        ops
    } else {
        signed_division_operations(dividend, divisor)
    }
}

/// The plan of a one-digit addition: the column work, then the answer.
pub fn one_digit_addition_plan(left: u8, right: u8) -> (r: Option<OperationPlan>)
    ensures
        match r {
            Some(p) => left <= 9 && right <= 9 && p@ == unsigned_addition_ops(left as nat, right as nat).push(
                Operation::BigNum { magnitude: (left + right) as u64 },
            ),
            None => left > 9 || right > 9,
        },
{
    if left > 9 || right > 9 {
        return None;
    }
    let mut ops = unsigned_addition_operations(left as u64, right as u64);
    ops.push(Operation::BigNum { magnitude: left as u64 + right as u64 });
    Some(OperationPlan::from_operations(ops))
}

/// The plan of a subtraction within the subtraction table.
pub fn one_digit_subtraction_plan(left: u8, right: u8) -> (r: Option<OperationPlan>)
    ensures
        match r {
            Some(p) => left <= 18 && right <= 9 && left >= right && p@ == unsigned_subtraction_ops(
                left as nat,
                right as nat,
            ).push(Operation::BigNum { magnitude: (left - right) as u64 }),
            None => left > 18 || right > 9 || left < right,
        },
{
    if left > 18 || right > 9 || left < right {
        return None;
    }
    let mut ops = unsigned_subtraction_operations(left as u64, right as u64);
    ops.push(Operation::BigNum { magnitude: (left - right) as u64 });
    Some(OperationPlan::from_operations(ops))
}

/// The plan of a two-digit addition.
pub fn two_digit_addition_plan(left: u8, right: u8) -> (r: Option<OperationPlan>)
    ensures
        match r {
            Some(p) => 10 <= left <= 99 && 10 <= right <= 99 && p@ == unsigned_addition_ops(
                left as nat,
                right as nat,
            ).push(Operation::BigNum { magnitude: (left + right) as u64 }),
            None => !(10 <= left <= 99 && 10 <= right <= 99),
        },
{
    if !(10 <= left && left <= 99 && 10 <= right && right <= 99) {
        return None;
    }
    let mut ops = unsigned_addition_operations(left as u64, right as u64);
    ops.push(Operation::BigNum { magnitude: left as u64 + right as u64 });
    Some(OperationPlan::from_operations(ops))
}

/// The plan of a signed addition after the sign rules.
pub fn signed_addition_plan(left: i64, right: i64) -> (r: OperationPlan)
    ensures
        r@ == signed_addition_ops(left, right),
{
    OperationPlan::from_operations(signed_addition_operations(left, right))
}

/// The plan of a signed subtraction after the sign rules.
pub fn signed_subtraction_plan(left: i64, right: i64) -> (r: OperationPlan)
    ensures
        r@ == signed_subtraction_ops(left, right),
{
    OperationPlan::from_operations(signed_subtraction_operations(left, right))
}

/// Long division with a quotient-and-remainder answer: the division work,
/// then the numbers of the answer.
pub fn integer_division_with_remainder_plan(dividend: i64, divisor: i64, answer: &AnswerNode) -> (r: Option<
    OperationPlan,
>)
    ensures
        match r {
            Some(p) => divisor != 0 && p@ == divide_or_identity_ops(dividend, divisor) + big_num_ops(answer@),
            None => divisor == 0,
        },
{
    if divisor == 0 {
        return None;
    }
    let mut ops = divide_or_identity_operations(dividend, divisor);
    extend(&mut ops, big_num_operations(answer));
    Some(OperationPlan::from_operations(ops))
}


/// `x` placed into a sorted list before the first item not below it.
pub open spec fn insert_sorted(s: Seq<u64>, x: u64) -> Seq<u64>
    decreases s.len(),
{
    if s.len() == 0 {
        seq![x]
    } else if x <= s[0] {
        seq![x] + s
    } else {
        seq![s[0]] + insert_sorted(s.drop_first(), x)
    }
}

/// The items of `s` in ascending order.
pub open spec fn sorted_seq(s: Seq<u64>) -> Seq<u64>
    decreases s.len(),
{
    if s.len() == 0 {
        Seq::empty()
    } else {
        insert_sorted(sorted_seq(s.drop_last()), s.last())
    }
}

fn insert_sorted_exec(s: &Vec<u64>, x: u64) -> (r: Vec<u64>)
    ensures
        r@ == insert_sorted(s@, x),
{
    let mut out: Vec<u64> = Vec::new();
    let mut i: usize = 0;
    proof {
        assert(s@.skip(0) =~= s@);
    }
    while i < s.len() && s[i] < x
        invariant
            i <= s@.len(),
            out@ + insert_sorted(s@.skip(i as int), x) == insert_sorted(s@, x),
        decreases s@.len() - i,
    {
        proof {
            assert(s@.skip(i as int).drop_first() =~= s@.skip(i + 1));
        }
        let ghost before = out@;
        out.push(s[i]);
        proof {
            assert(before + (seq![s@[i as int]] + insert_sorted(s@.skip(i + 1), x)) =~= out@ + insert_sorted(
                s@.skip(i + 1),
                x,
            ));
        }
        i += 1;
    }
    let ghost prefix = out@;
    out.push(x);
    let mut j = i;
    while j < s.len()
        invariant
            i <= j <= s@.len(),
            out@ == prefix + seq![x] + s@.subrange(i as int, j as int),
        decreases s@.len() - j,
    {
        out.push(s[j]);
        proof {
            assert(out@ =~= prefix + seq![x] + s@.subrange(i as int, j + 1));
        }
        j += 1;
    }
    proof {
        assert(s@.subrange(i as int, s@.len() as int) =~= s@.skip(i as int));
        if i < s@.len() {
            assert(insert_sorted(s@.skip(i as int), x) == seq![x] + s@.skip(i as int));
        } else {
            assert(s@.skip(i as int) =~= Seq::<u64>::empty());
        }
        assert(out@ =~= prefix + insert_sorted(s@.skip(i as int), x));
    }
    out
}

pub(crate) fn sort_exec(v: &Vec<u64>) -> (r: Vec<u64>)
    ensures
        r@ == sorted_seq(v@),
{
    let mut out: Vec<u64> = Vec::new();
    let mut k: usize = 0;
    proof {
        assert(v@.take(0) =~= Seq::<u64>::empty());
    }
    while k < v.len()
        invariant
            k <= v@.len(),
            out@ == sorted_seq(v@.take(k as int)),
        decreases v@.len() - k,
    {
        proof {
            assert(v@.take(k + 1).drop_last() =~= v@.take(k as int));
        }
        out = insert_sorted_exec(&out, v[k]);
        k += 1;
    }
    proof {
        assert(v@.take(v@.len() as int) =~= v@);
    }
    out
}

/// Whether `v` is prime: at least two, and no divisor from two up to its
/// square root.
pub open spec fn is_prime_spec(v: nat) -> bool {
    v >= 2 && forall|d: nat| 2 <= d && d * d <= v ==> #[trigger] (v % d) != 0
}

pub fn is_prime(value: u64) -> (r: bool)
    ensures
        r == is_prime_spec(value as nat),
{
    if value < 2 {
        return false;
    }
    let mut divisor: u64 = 2;
    while (divisor as u128) * (divisor as u128) <= value as u128
        invariant
            2 <= divisor <= value,
            value >= 2,
            divisor * divisor <= 0xFFFF_FFFF_FFFF_FFFE_0000_0000_0000_0001,
            forall|d: nat| 2 <= d < divisor ==> #[trigger] (value as nat % d) != 0,
        decreases value - divisor,
    {
        if value % divisor == 0 {
            return false;
        }
        proof {
            assert(divisor < value) by (nonlinear_arith)
                requires
                    divisor * divisor <= value,
                    divisor >= 2,
                    value % divisor != 0,
            ;
            assert((divisor + 1) * (divisor + 1) <= 0xFFFF_FFFF_FFFF_FFFE_0000_0000_0000_0001) by (nonlinear_arith)
                requires
                    divisor + 1 <= 0xFFFF_FFFF_FFFF_FFFF,
                    divisor >= 0,
            ;
        }
        divisor += 1;
    }
    proof {
        assert forall|d: nat| 2 <= d && d * d <= value implies #[trigger] (value as nat % d) != 0 by {
            if d >= divisor {
                assert(d * d >= divisor * divisor) by (nonlinear_arith)
                    requires
                        d >= divisor,
                        divisor >= 0,
                ;
            }
        }
    }
    true
}

/// `v` with every factor `p` split off: the factors, then what is left.
pub open spec fn strip_factor(v: nat, p: u64) -> (Seq<u64>, nat)
    decreases v,
{
    if p >= 2 && v > 0 && v % (p as nat) == 0 {
        proof {
            assert(v / (p as nat) < v) by (nonlinear_arith)
                requires
                    p >= 2,
                    v > 0,
            ;
        }
        let (f, r) = strip_factor(v / (p as nat), p);
        (seq![p] + f, r)
    } else {
        (Seq::empty(), v)
    }
}

/// The factors two, three, five and seven of a one-digit number.
pub open spec fn small_factors(v: nat) -> Option<Seq<u64>> {
    let (f2, r2) = strip_factor(v, 2);
    let (f3, r3) = strip_factor(r2, 3);
    let (f5, r5) = strip_factor(r3, 5);
    let (f7, r7) = strip_factor(r5, 7);
    if r7 == 1 { Some(f2 + f3 + f5 + f7) } else { None }
}

/// The prime factors of a number read off the multiplication table (a
/// product of two one-digit numbers), sorted; `None` for other numbers.
pub open spec fn table_factorization(v: nat) -> Option<Seq<u64>>
    decreases v, 11nat,
{
    if v < 2 {
        Some(Seq::empty())
    } else if v <= 9 {
        small_factors(v)
    } else {
        table_search(v, 2)
    }
}

pub open spec fn table_search(v: nat, left: nat) -> Option<Seq<u64>>
    decreases v, 10 - left,
{
    if left > 9 || left < 2 || v <= 9 {
        None
    } else if v % left == 0 && v / left <= 9 {
        match (table_factorization(left), table_factorization(v / left)) {
            (Some(a), Some(b)) => Some(sorted_seq(a + b)),
            _ => None,
        }
    } else {
        table_search(v, left + 1)
    }
}

fn strip_factor_exec(factors: &mut Vec<u64>, v: u64, p: u64) -> (r: u64)
    requires
        p >= 2,
    ensures
        final(factors)@ == old(factors)@ + strip_factor(v as nat, p).0,
        r == strip_factor(v as nat, p).1,
    decreases v,
{
    if v > 0 && v % p == 0 {
        proof {
            assert(v / p < v) by (nonlinear_arith)
                requires
                    p >= 2,
                    v > 0,
            ;
        }
        factors.push(p);
        let ghost mid = factors@;
        let r = strip_factor_exec(factors, v / p, p);
        proof {
            assert(old(factors)@ + (seq![p] + strip_factor((v / p) as nat, p).0) =~= mid + strip_factor(
                (v / p) as nat,
                p,
            ).0);
        }
        r
    } else {
        proof {
            assert(old(factors)@ + Seq::<u64>::empty() =~= old(factors)@);
        }
        v
    }
}

pub fn multiplication_table_factorization(value: u64) -> (r: Option<Vec<u64>>)
    ensures
        match r {
            Some(f) => table_factorization(value as nat) == Some(f@),
            None => table_factorization(value as nat) is None,
        },
    decreases value, 11nat,
{
    if value < 2 {
        return Some(Vec::new());
    }
    if value <= 9 {
        let mut factors: Vec<u64> = Vec::new();
        let r2 = strip_factor_exec(&mut factors, value, 2);
        let r3 = strip_factor_exec(&mut factors, r2, 3);
        let r5 = strip_factor_exec(&mut factors, r3, 5);
        let r7 = strip_factor_exec(&mut factors, r5, 7);
        proof {
            assert(factors@ =~= Seq::<u64>::empty() + strip_factor(value as nat, 2).0 + strip_factor(r2 as nat, 3).0
                + strip_factor(r3 as nat, 5).0 + strip_factor(r5 as nat, 7).0);
        }
        if r7 == 1 {
            return Some(factors);
        }
        return None;
    }
    table_search_exec(value, 2)
}

fn table_search_exec(value: u64, left: u64) -> (r: Option<Vec<u64>>)
    requires
        value > 9,
        2 <= left,
    ensures
        match r {
            Some(f) => table_search(value as nat, left as nat) == Some(f@),
            None => table_search(value as nat, left as nat) is None,
        },
    decreases value, 10 - left,
{
    if left > 9 {
        return None;
    }
    if value % left == 0 && value / left <= 9 {
        let a = match multiplication_table_factorization(left) {
            Some(a) => a,
            None => return None,
        };
        let b = match multiplication_table_factorization(value / left) {
            Some(b) => b,
            None => return None,
        };
        let mut both = a;
        extend_u64(&mut both, &b);
        return Some(sort_exec(&both));
    }
    table_search_exec(value, left + 1)
}

fn extend_u64(v: &mut Vec<u64>, more: &Vec<u64>)
    ensures
        final(v)@ == old(v)@ + more@,
{
    let mut i: usize = 0;
    while i < more.len()
        invariant
            i <= more@.len(),
            v@ == old(v)@ + more@.subrange(0, i as int),
        decreases more@.len() - i,
    {
        v.push(more[i]);
        proof {
            assert(more@.subrange(0, i + 1) =~= more@.subrange(0, i as int).push(more@[i as int]));
        }
        i += 1;
    }
    proof {
        assert(more@.subrange(0, more@.len() as int) =~= more@);
    }
}


/// Dividing a prime out of `remaining` again and again: a number of the
/// multiplication table is read off at once; otherwise each trial is a long
/// division, until it leaves a remainder or nothing is left. The factors
/// found, the operations, and what remains.
pub open spec fn divide_out(remaining: nat, candidate: nat) -> (Seq<u64>, Seq<Operation>, nat)
    decreases remaining,
{
    match table_factorization(remaining) {
        Some(f) => (f, Seq::empty(), 1),
        None => {
            let d = unsigned_division_ops(remaining, candidate);
            if candidate < 2 || remaining % candidate != 0 {
                (Seq::empty(), d, remaining)
            } else {
                let next = remaining / candidate;
                if next <= 1 {
                    (seq![candidate as u64], d, next)
                } else {
                    proof {
                        assert(remaining / candidate < remaining) by (nonlinear_arith)
                            requires
                                candidate >= 2,
                                remaining > 0,
                        ;
                    }
                    let (f, o, r) = divide_out(next, candidate);
                    (seq![candidate as u64] + f, d + o, r)
                }
            }
        },
    }
}

pub proof fn lemma_divide_out_shrinks(remaining: nat, candidate: nat)
    ensures
        divide_out(remaining, candidate).2 <= remaining || remaining == 0,
        remaining >= 1 ==> divide_out(remaining, candidate).2 >= 1,
    decreases remaining,
{
    if table_factorization(remaining) is None && candidate >= 2 && remaining % candidate == 0 && remaining > 0 {
        let next = remaining / candidate;
        assert(remaining / candidate < remaining) by (nonlinear_arith)
            requires
                candidate >= 2,
                remaining > 0,
        ;
        if next > 1 {
            lemma_divide_out_shrinks(next, candidate);
        }
        if remaining >= 1 {
            assert(next >= 1) by (nonlinear_arith)
                requires
                    remaining >= 1,
                    remaining % candidate == 0,
                    candidate >= 2,
                    next == remaining / candidate,
            ;
        }
    }
}

/// Trial division by the primes from `candidate` up to the square root of
/// what remains, one count per prime tried. The factors found, the
/// operations, and what remains.
pub open spec fn trial_division(remaining: nat, candidate: nat) -> (Seq<u64>, Seq<Operation>, nat)
    decreases remaining, remaining + 1 - candidate,
{
    if candidate * candidate > remaining || candidate < 2 {
        (Seq::empty(), Seq::empty(), remaining)
    } else {
        proof {
            assert(candidate <= remaining) by (nonlinear_arith)
                requires
                    candidate * candidate <= remaining,
                    candidate >= 2,
            ;
            lemma_divide_out_shrinks(remaining, candidate);
        }
        if !is_prime_spec(candidate) {
            trial_division(remaining, candidate + 1)
        } else {
            let (f, o, r) = divide_out(remaining, candidate);
            let ops = seq![Operation::Count { amount: 1 }] + o;
            if r == 1 {
                (f, ops, 1)
            } else {
                let (f2, o2, r2) = trial_division(r, candidate + 1);
                (f + f2, ops + o2, r2)
            }
        }
    }
}

/// The prime-factorization work on a number: one setup step; a number of
/// the multiplication table is read off; otherwise trial division, with what
/// remains above one a prime factor too. The sorted factors and the
/// operations.
pub open spec fn prime_factorization_ops(value: nat) -> (Seq<u64>, Seq<Operation>) {
    let start = seq![Operation::OverheadPf];
    if value <= 1 {
        (Seq::empty(), start)
    } else {
        match table_factorization(value) {
            Some(f) => (f, start),
            None => {
                let (f, o, r) = trial_division(value, 2);
                (sorted_seq(if r > 1 { f.push(r as u64) } else { f }), start + o)
            },
        }
    }
}

fn divide_out_exec(remaining: u64, candidate: u64, factors: &mut Vec<u64>, ops: &mut Vec<Operation>) -> (r: u64)
    requires
        candidate >= 2,
    ensures
        ({
            let (f, o, rest) = divide_out(remaining as nat, candidate as nat);
            &&& final(factors)@ == old(factors)@ + f
            &&& final(ops)@ == old(ops)@ + o
            &&& r == rest
        }),
    decreases remaining,
{
    match multiplication_table_factorization(remaining) {
        Some(table) => {
            extend_u64(factors, &table);
            proof {
                assert(old(ops)@ + Seq::<Operation>::empty() =~= old(ops)@);
            }
            return 1;
        },
        None => {},
    }
    let ghost ops_before = ops@;
    extend(ops, unsigned_division_operations(remaining, candidate));
    if remaining % candidate != 0 {
        proof {
            assert(old(factors)@ + Seq::<u64>::empty() =~= old(factors)@);
        }
        return remaining;
    }
    factors.push(candidate);
    let next = remaining / candidate;
    if next <= 1 {
        proof {
            assert(old(factors)@ + seq![candidate] =~= factors@);
        }
        return next;
    }
    proof {
        assert(remaining / candidate < remaining) by (nonlinear_arith)
            requires
                candidate >= 2,
                remaining > 0,
        ;
    }
    let ghost factors_mid = factors@;
    let ghost ops_mid = ops@;
    let r = divide_out_exec(next, candidate, factors, ops);
    proof {
        let (f, o, rest) = divide_out(next as nat, candidate as nat);
        assert(old(factors)@ + (seq![candidate] + f) =~= factors_mid + f);
        assert(ops_before + (unsigned_division_ops(remaining as nat, candidate as nat) + o) =~= ops_mid + o);
    }
    r
}

pub fn prime_factorization_model(value: u64) -> (r: (Vec<u64>, Vec<Operation>))
    ensures
        (r.0@, r.1@) == prime_factorization_ops(value as nat),
{
    let mut ops = single(Operation::OverheadPf);
    if value <= 1 {
        return (Vec::new(), ops);
    }
    match multiplication_table_factorization(value) {
        Some(f) => return (f, ops),
        None => {},
    }
    let ghost total = trial_division(value as nat, 2);
    let mut remaining = value;
    let mut factors: Vec<u64> = Vec::new();
    let mut candidate: u64 = 2;
    loop
        invariant_except_break
            2 <= candidate,
            1 <= remaining <= value,
            ({
                let (f, o, r) = trial_division(remaining as nat, candidate as nat);
                &&& factors@ + f == total.0
                &&& ops@ + o == seq![Operation::OverheadPf] + total.1
                &&& r == total.2
            }),
        ensures
            factors@ == total.0,
            ops@ == seq![Operation::OverheadPf] + total.1,
            remaining == total.2,
        decreases remaining, remaining + 1 - candidate,
    {
        proof {
            assert(candidate * candidate <= 0xFFFF_FFFF_FFFF_FFFE_0000_0000_0000_0001) by (nonlinear_arith)
                requires
                    candidate <= 0xFFFF_FFFF_FFFF_FFFF,
                    candidate >= 0,
            ;
        }
        if (candidate as u128) * (candidate as u128) > remaining as u128 {
            proof {
                assert(factors@ + Seq::<u64>::empty() =~= factors@);
                assert(ops@ + Seq::<Operation>::empty() =~= ops@);
            }
            break;
        }
        proof {
            assert(candidate < remaining) by (nonlinear_arith)
                requires
                    candidate * candidate <= remaining,
                    candidate >= 2,
            ;
        }
        if !is_prime(candidate) {
            candidate += 1;
            continue;
        }
        let ghost ops_before = ops@;
        let ghost factors_before = factors@;
        let ghost old_remaining = remaining;
        ops.push(Operation::Count { amount: 1 });
        let r = divide_out_exec(remaining, candidate, &mut factors, &mut ops);
        proof {
            lemma_divide_out_shrinks(remaining as nat, candidate as nat);
            let (f, o, rr) = divide_out(remaining as nat, candidate as nat);
            assert(ops_before + (seq![Operation::Count { amount: 1 }] + o) =~= ops@);
            if rr != 1 {
                let (f2, o2, r2) = trial_division(rr, candidate as nat + 1);
                assert(factors_before + (f + f2) =~= factors@ + f2);
                assert(ops_before + (seq![Operation::Count { amount: 1 }] + o + o2) =~= ops@ + o2);
            } else {
                assert(factors@ + Seq::<u64>::empty() =~= factors@);
                assert(ops@ + Seq::<Operation>::empty() =~= ops@);
            }
        }
        if r == 1 {
            remaining = 1;
            proof {
                let (f, o, rr) = divide_out(old_remaining as nat, candidate as nat);
                assert(trial_division(old_remaining as nat, candidate as nat) == (f, seq![Operation::Count { amount: 1 }] + o, 1nat));
            }
            break;
        }
        remaining = r;
        candidate += 1;
    }
    if remaining > 1 {
        factors.push(remaining);
    }
    (sort_exec(&factors), ops)
}


/// `Some(prefix + rest)`, or `None` where the rest failed.
pub open spec fn prepend_ops(prefix: Seq<Operation>, rest: Option<Seq<Operation>>) -> Option<Seq<Operation>> {
    match rest {
        Some(r) => Some(prefix + r),
        None => None,
    }
}

/// Walking two sorted factor lists side by side: one comparison per step,
/// a copy for each common factor. The operations and the common factors.
pub open spec fn merge_common(lf: Seq<u64>, rf: Seq<u64>, li: nat, ri: nat) -> (Seq<Operation>, Seq<u64>)
    decreases (lf.len() - li) + (rf.len() - ri),
{
    if li >= lf.len() || ri >= rf.len() {
        (Seq::empty(), Seq::empty())
    } else if lf[li as int] < rf[ri as int] {
        let (o, c) = merge_common(lf, rf, li + 1, ri);
        (seq![Operation::Compare] + o, c)
    } else if lf[li as int] > rf[ri as int] {
        let (o, c) = merge_common(lf, rf, li, ri + 1);
        (seq![Operation::Compare] + o, c)
    } else {
        let (o, c) = merge_common(lf, rf, li + 1, ri + 1);
        (seq![Operation::Compare, Operation::Identity] + o, seq![lf[li as int]] + c)
    }
}

/// Multiplying the common factors together, from factor `k` on; `None` if
/// a product leaves `u64` (the product of common prime factors divides both
/// numbers, so it does not).
pub open spec fn common_product_ops(common: Seq<u64>, product: nat, k: nat) -> Option<Seq<Operation>>
    decreases common.len() - k,
{
    if k >= common.len() {
        Some(Seq::empty())
    } else {
        let next: nat = product * common[k as int] as nat;
        if next > u64::MAX {
            None
        } else {
            match common_product_ops(common, next, k + 1) {
                Some(o) => Some(unsigned_multiplication_ops(product, common[k as int] as nat) + o),
                None => None,
            }
        }
    }
}

/// The search for a greatest common divisor: both numbers factorized, the
/// factor lists compared, the common factors multiplied.
pub open spec fn gcd_search_ops(left: nat, right: nat) -> Option<Seq<Operation>> {
    if left == 1 || right == 1 {
        Some(seq![Operation::OverheadGcd, Operation::Identity])
    } else {
        let (lf, lo) = prime_factorization_ops(left);
        let (rf, ro) = prime_factorization_ops(right);
        let (mo, common) = merge_common(lf, rf, 0, 0);
        let base = seq![Operation::OverheadGcd] + lo + ro + mo;
        if common.len() > 1 {
            match common_product_ops(common, common[0] as nat, 1) {
                Some(p) => Some(base + p),
                None => None,
            }
        } else {
            Some(base)
        }
    }
}

pub fn gcd_search_operations(left: u64, right: u64) -> (r: Option<Vec<Operation>>)
    requires
        left > 0,
        right > 0,
    ensures
        match r {
            Some(o) => gcd_search_ops(left as nat, right as nat) == Some(o@),
            None => gcd_search_ops(left as nat, right as nat) is None,
        },
{
    if left == 1 || right == 1 {
        let mut ops = single(Operation::OverheadGcd);
        ops.push(Operation::Identity);
        proof {
            assert(ops@ =~= seq![Operation::OverheadGcd, Operation::Identity]);
        }
        return Some(ops);
    }
    let (lf, lo) = prime_factorization_model(left);
    let (rf, ro) = prime_factorization_model(right);
    let mut ops = single(Operation::OverheadGcd);
    extend(&mut ops, lo);
    extend(&mut ops, ro);
    let ghost total = merge_common(lf@, rf@, 0, 0);
    let mut common: Vec<u64> = Vec::new();
    let ghost base_start = ops@;
    let mut li: usize = 0;
    let mut ri: usize = 0;
    while li < lf.len() && ri < rf.len()
        invariant
            li <= lf@.len(),
            ri <= rf@.len(),
            total == merge_common(lf@, rf@, 0, 0),
            ops@ + merge_common(lf@, rf@, li as nat, ri as nat).0 == base_start + total.0,
            common@ + merge_common(lf@, rf@, li as nat, ri as nat).1 == total.1,
        decreases (lf@.len() - li) + (rf@.len() - ri),
    {
        let ghost before_ops = ops@;
        let ghost before_common = common@;
        ops.push(Operation::Compare);
        if lf[li] < rf[ri] {
            proof {
                let rest = merge_common(lf@, rf@, li as nat + 1, ri as nat);
                assert(before_ops + (seq![Operation::Compare] + rest.0) =~= ops@ + rest.0);
            }
            li += 1;
        } else if lf[li] > rf[ri] {
            proof {
                let rest = merge_common(lf@, rf@, li as nat, ri as nat + 1);
                assert(before_ops + (seq![Operation::Compare] + rest.0) =~= ops@ + rest.0);
            }
            ri += 1;
        } else {
            common.push(lf[li]);
            ops.push(Operation::Identity);
            proof {
                let rest = merge_common(lf@, rf@, li as nat + 1, ri as nat + 1);
                assert(before_ops + (seq![Operation::Compare, Operation::Identity] + rest.0) =~= ops@ + rest.0);
                assert(before_common + (seq![lf@[li as int]] + rest.1) =~= common@ + rest.1);
            }
            li += 1;
            ri += 1;
        }
    }
    proof {
        assert(ops@ =~= base_start + total.0);
        assert(common@ =~= total.1);
    }
    if common.len() > 1 {
        let ghost base = ops@;
        proof {
            assert(ops@.subrange(0, base.len() as int) =~= base);
            assert(ops@.subrange(base.len() as int, ops@.len() as int) =~= Seq::<Operation>::empty());
            assert(Seq::<Operation>::empty() + common_product_ops(common@, common@[0] as nat, 1)->0 =~= common_product_ops(common@, common@[0] as nat, 1)->0);
        }
        let ghost all = common_product_ops(common@, common@[0] as nat, 1);
        let mut product: u64 = common[0];
        let mut k: usize = 1;
        while k < common.len()
            invariant
                1 <= k <= common@.len(),
                all == common_product_ops(common@, common@[0] as nat, 1),
                gcd_search_ops(left as nat, right as nat) == prepend_ops(base, all),
                base.len() <= ops@.len(),
                ops@.subrange(0, base.len() as int) == base,
                all == prepend_ops(
                    ops@.subrange(base.len() as int, ops@.len() as int),
                    common_product_ops(common@, product as nat, k as nat),
                ),
            decreases common@.len() - k,
        {
            let f = common[k];
            let next = match product.checked_mul(f) {
                Some(n) => n,
                None => return None,
            };
            let ghost before = ops@;
            extend(&mut ops, unsigned_multiplication_operations(product, f));
            proof {
                let grown = unsigned_multiplication_ops(product as nat, f as nat);
                assert(ops@.subrange(base.len() as int, ops@.len() as int) =~= before.subrange(
                    base.len() as int,
                    before.len() as int,
                ) + grown);
                assert(ops@.subrange(0, base.len() as int) =~= before.subrange(0, base.len() as int));
                match common_product_ops(common@, next as nat, k as nat + 1) {
                    Some(rest) => {
                        assert(before.subrange(base.len() as int, before.len() as int) + (grown + rest) =~= ops@.subrange(
                            base.len() as int,
                            ops@.len() as int,
                        ) + rest);
                    },
                    None => {},
                }
            }
            product = next;
            k += 1;
        }
        proof {
            assert(ops@.subrange(base.len() as int, ops@.len() as int) + Seq::<Operation>::empty() =~= ops@.subrange(
                base.len() as int,
                ops@.len() as int,
            ));
            assert(ops@ =~= base + ops@.subrange(base.len() as int, ops@.len() as int));
        }
    }
    Some(ops)
}

/// The least common multiple, computed as `left / gcd * right`; zero when
/// either is zero, `None` when it leaves `u64`.
pub open spec fn lcm_value(left: u64, right: u64) -> Option<u64> {
    if left == 0 || right == 0 {
        Some(0)
    } else {
        match left.checked_div(gcd_spec(left as nat, right as nat) as u64) {
            Some(q) => q.checked_mul(right),
            None => None,
        }
    }
}

pub fn lcm_u64(left: u64, right: u64) -> (r: Option<u64>)
    ensures
        r == lcm_value(left, right),
{
    if left == 0 || right == 0 {
        return Some(0);
    }
    match left.checked_div(gcd_u64(left, right)) {
        Some(q) => q.checked_mul(right),
        None => None,
    }
}

/// Listing multiples of both numbers until they meet: each step compares
/// the two current multiples and advances the smaller one (a count and a
/// multiplication). `None` when a multiple or an index leaves its type.
pub open spec fn lcm_walk(left: u64, right: u64, li: u64, ri: u64) -> Option<Seq<Operation>>
    decreases (u64::MAX + 1 - li) + (u64::MAX + 1 - ri),
{
    let lm = left * li;
    let rm = right * ri;
    if lm == rm {
        Some(seq![Operation::Compare])
    } else if lm < rm {
        match (li.checked_add(1), i64::MAX >= left) {
            (Some(next), true) => if left * next > u64::MAX || next > i64::MAX {
                None
            } else {
                match lcm_walk(left, right, next, ri) {
                    Some(rest) => Some(seq![Operation::Compare, Operation::Count { amount: 1 }]
                        + multiply_or_identity_ops(left as i64, next as i64) + rest),
                    None => None,
                }
            },
            _ => None,
        }
    } else {
        match (ri.checked_add(1), i64::MAX >= right) {
            (Some(next), true) => if right * next > u64::MAX || next > i64::MAX {
                None
            } else {
                match lcm_walk(left, right, li, next) {
                    Some(rest) => Some(seq![Operation::Compare, Operation::Count { amount: 1 }]
                        + multiply_or_identity_ops(right as i64, next as i64) + rest),
                    None => None,
                }
            },
            _ => None,
        }
    }
}

/// The search for a least common multiple by listing multiples.
pub open spec fn lcm_search_ops(left: u64, right: u64) -> Option<Seq<Operation>> {
    if left == 0 || right == 0 || lcm_value(left, right) is None {
        None
    } else {
        match lcm_walk(left, right, 1, 1) {
            Some(w) => Some(seq![
                Operation::OverheadLcm,
                Operation::Count { amount: 2 },
                Operation::Identity,
                Operation::Identity,
            ] + w),
            None => None,
        }
    }
}

pub fn lcm_search_operations(left: u64, right: u64) -> (r: Option<Vec<Operation>>)
    ensures
        match r {
            Some(o) => lcm_search_ops(left, right) == Some(o@),
            None => lcm_search_ops(left, right) is None,
        },
{
    if left == 0 || right == 0 {
        return None;
    }
    if lcm_u64(left, right).is_none() {
        return None;
    }
    let mut ops = single(Operation::OverheadLcm);
    ops.push(Operation::Count { amount: 2 });
    ops.push(Operation::Identity);
    ops.push(Operation::Identity);
    let ghost start = ops@;
    let ghost all = lcm_walk(left, right, 1, 1);
    proof {
        assert(start =~= seq![
            Operation::OverheadLcm,
            Operation::Count { amount: 2 },
            Operation::Identity,
            Operation::Identity,
        ]);
        assert(ops@.subrange(0, start.len() as int) =~= start);
        assert(ops@.subrange(start.len() as int, ops@.len() as int) =~= Seq::<Operation>::empty());
        match all {
            Some(w) => {
                assert(Seq::<Operation>::empty() + w =~= w);
            },
            None => {},
        }
    }
    let mut li: u64 = 1;
    let mut ri: u64 = 1;
    let mut lm: u64 = left;
    let mut rm: u64 = right;
    loop
        invariant_except_break
            lm == left * li,
            rm == right * ri,
            lcm_search_ops(left, right) == prepend_ops(start, all),
            start.len() <= ops@.len(),
            ops@.subrange(0, start.len() as int) == start,
            match lcm_walk(left, right, li, ri) {
                Some(rest) => all == Some(ops@.subrange(start.len() as int, ops@.len() as int) + rest),
                None => all is None,
            },
        ensures
            lcm_search_ops(left, right) == prepend_ops(start, all),
            all == Some(ops@.subrange(start.len() as int, ops@.len() as int)),
            start.len() <= ops@.len(),
            ops@.subrange(0, start.len() as int) == start,
        decreases (u64::MAX + 1 - li) + (u64::MAX + 1 - ri),
    {
        let ghost before = ops@;
        ops.push(Operation::Compare);
        if lm == rm {
            proof {
                assert(ops@.subrange(start.len() as int, ops@.len() as int) =~= before.subrange(
                    start.len() as int,
                    before.len() as int,
                ) + seq![Operation::Compare]);
                assert(ops@.subrange(0, start.len() as int) =~= before.subrange(0, start.len() as int));
            }
            break;
        }
        if lm < rm {
            let next = match li.checked_add(1) {
                Some(n) => n,
                None => return None,
            };
            let multiple = match left.checked_mul(next) {
                Some(m) => m,
                None => return None,
            };
            if left > i64::MAX as u64 || next > i64::MAX as u64 {
                return None;
            }
            ops.push(Operation::Count { amount: 1 });
            extend(&mut ops, multiply_or_identity_operations(left as i64, next as i64));
            proof {
                let grown = seq![Operation::Compare, Operation::Count { amount: 1 }] + multiply_or_identity_ops(
                    left as i64,
                    next as i64,
                );
                assert(ops@.subrange(start.len() as int, ops@.len() as int) =~= before.subrange(
                    start.len() as int,
                    before.len() as int,
                ) + grown);
                assert(ops@.subrange(0, start.len() as int) =~= before.subrange(0, start.len() as int));
                match lcm_walk(left, right, next, ri) {
                    Some(rest) => {
                        assert(before.subrange(start.len() as int, before.len() as int) + (grown + rest)
                            =~= ops@.subrange(start.len() as int, ops@.len() as int) + rest);
                    },
                    None => {},
                }
            }
            li = next;
            lm = multiple;
        } else {
            let next = match ri.checked_add(1) {
                Some(n) => n,
                None => return None,
            };
            let multiple = match right.checked_mul(next) {
                Some(m) => m,
                None => return None,
            };
            if right > i64::MAX as u64 || next > i64::MAX as u64 {
                return None;
            }
            ops.push(Operation::Count { amount: 1 });
            extend(&mut ops, multiply_or_identity_operations(right as i64, next as i64));
            proof {
                let grown = seq![Operation::Compare, Operation::Count { amount: 1 }] + multiply_or_identity_ops(
                    right as i64,
                    next as i64,
                );
                assert(ops@.subrange(start.len() as int, ops@.len() as int) =~= before.subrange(
                    start.len() as int,
                    before.len() as int,
                ) + grown);
                assert(ops@.subrange(0, start.len() as int) =~= before.subrange(0, start.len() as int));
                match lcm_walk(left, right, li, next) {
                    Some(rest) => {
                        assert(before.subrange(start.len() as int, before.len() as int) + (grown + rest)
                            =~= ops@.subrange(start.len() as int, ops@.len() as int) + rest);
                    },
                    None => {},
                }
            }
            ri = next;
            rm = multiple;
        }
    }
    proof {
        assert(ops@ =~= start + ops@.subrange(start.len() as int, ops@.len() as int));
    }
    Some(ops)
}


/// Reducing `numerator / denominator`: nothing for a zero part, a unit
/// denominator or a unit numerator; otherwise the divisor search, then both
/// parts divided where the divisor exceeds one.
pub open spec fn fraction_reduction_ops(numerator: i64, denominator: i64) -> Option<Seq<Operation>> {
    let n = abs_nat(numerator);
    let d = abs_nat(denominator);
    if numerator == 0 || denominator == 0 || d == 1 || n == 1 {
        Some(Seq::empty())
    } else {
        let g = gcd_spec(n, d);
        match gcd_search_ops(n, d) {
            Some(ops) => if g > 1 {
                if g > i64::MAX {
                    None
                } else {
                    Some(ops + signed_division_ops(numerator, g as i64) + unsigned_division_ops(d, g))
                }
            } else {
                Some(ops)
            },
            None => None,
        }
    }
}

pub fn fraction_reduction_operations(numerator: i64, denominator: i64) -> (r: Option<Vec<Operation>>)
    ensures
        match r {
            Some(o) => fraction_reduction_ops(numerator, denominator) == Some(o@),
            None => fraction_reduction_ops(numerator, denominator) is None,
        },
{
    let n = magnitude(numerator);
    let d = magnitude(denominator);
    if numerator == 0 || denominator == 0 || d == 1 || n == 1 {
        return Some(Vec::new());
    }
    let divisor = gcd_u64(n, d);
    let mut ops = match gcd_search_operations(n, d) {
        Some(o) => o,
        None => return None,
    };
    if divisor > 1 {
        if divisor > i64::MAX as u64 {
            return None;
        }
        extend(&mut ops, signed_division_operations(numerator, divisor as i64));
        extend(&mut ops, unsigned_division_operations(d, divisor));
    }
    Some(ops)
}

/// The common denominator of two fractions: the denominator they share, or
/// the least common multiple found by listing multiples.
pub open spec fn common_denominator_ops(ld: i64, rd: i64) -> Option<(Seq<Operation>, i64)> {
    if ld == rd {
        Some((Seq::empty(), ld))
    } else {
        match (lcm_search_ops(ld as u64, rd as u64), lcm_value(ld as u64, rd as u64)) {
            (Some(o), Some(v)) => if v <= i64::MAX { Some((o, v as i64)) } else { None },
            _ => None,
        }
    }
}

/// Each numerator scaled to the common denominator `c` (where the
/// denominators differ), the numerators combined, the result reduced.
pub open spec fn scaled_combination_ops(ln: i64, ld: i64, rn: i64, rd: i64, c: i64, subtract: bool) -> Option<
    Seq<Operation>,
> {
    match (c.checked_div(ld), c.checked_div(rd)) {
        (Some(lscale), Some(rscale)) => match (ln.checked_mul(lscale), rn.checked_mul(rscale)) {
            (Some(lscaled), Some(rscaled)) => {
                let scaling = if ld != rd {
                    multiply_or_identity_ops(ln, lscale) + multiply_or_identity_ops(rn, rscale)
                } else {
                    Seq::empty()
                };
                let combined = if subtract { lscaled.checked_sub(rscaled) } else { lscaled.checked_add(rscaled) };
                let combine_ops = if subtract {
                    signed_subtraction_ops(lscaled, rscaled)
                } else {
                    signed_addition_ops(lscaled, rscaled)
                };
                match combined {
                    Some(raw) => prepend_ops(scaling + combine_ops, fraction_reduction_ops(raw, c)),
                    None => None,
                }
            },
            _ => None,
        },
        _ => None,
    }
}

/// Adding or subtracting two fractions over a common denominator.
pub open spec fn rational_add_subtract_ops(left: (i64, i64), right: (i64, i64), subtract: bool) -> Option<
    Seq<Operation>,
> {
    match common_denominator_ops(left.1, right.1) {
        Some((pre, c)) => prepend_ops(pre, scaled_combination_ops(left.0, left.1, right.0, right.1, c, subtract)),
        None => None,
    }
}

fn common_denominator(ld: i64, rd: i64) -> (r: Option<(Vec<Operation>, i64)>)
    ensures
        match r {
            Some((o, c)) => common_denominator_ops(ld, rd) == Some((o@, c)),
            None => common_denominator_ops(ld, rd) is None,
        },
{
    if ld == rd {
        return Some((Vec::new(), ld));
    }
    let search = match lcm_search_operations(ld as u64, rd as u64) {
        Some(o) => o,
        None => return None,
    };
    let value = match lcm_u64(ld as u64, rd as u64) {
        Some(v) => v,
        None => return None,
    };
    if value > i64::MAX as u64 {
        return None;
    }
    Some((search, value as i64))
}

fn scaled_combination(ln: i64, ld: i64, rn: i64, rd: i64, c: i64, subtract: bool) -> (r: Option<Vec<Operation>>)
    ensures
        match r {
            Some(o) => scaled_combination_ops(ln, ld, rn, rd, c, subtract) == Some(o@),
            None => scaled_combination_ops(ln, ld, rn, rd, c, subtract) is None,
        },
{
    let lscale = match c.checked_div(ld) {
        Some(v) => v,
        None => return None,
    };
    let rscale = match c.checked_div(rd) {
        Some(v) => v,
        None => return None,
    };
    let lscaled = match ln.checked_mul(lscale) {
        Some(v) => v,
        None => return None,
    };
    let rscaled = match rn.checked_mul(rscale) {
        Some(v) => v,
        None => return None,
    };
    proof {
        lemma_abs_product(ln, lscale, lscaled);
        lemma_abs_product(rn, rscale, rscaled);
    }
    let mut ops: Vec<Operation> = Vec::new();
    if ld != rd {
        extend(&mut ops, multiply_or_identity_operations(ln, lscale));
        extend(&mut ops, multiply_or_identity_operations(rn, rscale));
    }
    let raw = if subtract {
        extend(&mut ops, signed_subtraction_operations(lscaled, rscaled));
        match lscaled.checked_sub(rscaled) {
            Some(v) => v,
            None => return None,
        }
    } else {
        extend(&mut ops, signed_addition_operations(lscaled, rscaled));
        match lscaled.checked_add(rscaled) {
            Some(v) => v,
            None => return None,
        }
    };
    let ghost head = ops@;
    match fraction_reduction_operations(raw, c) {
        Some(red) => extend(&mut ops, red),
        None => return None,
    }
    proof {
        let scaling = if ld != rd {
            multiply_or_identity_ops(ln, lscale) + multiply_or_identity_ops(rn, rscale)
        } else {
            Seq::empty()
        };
        let combine_ops = if subtract {
            signed_subtraction_ops(lscaled, rscaled)
        } else {
            signed_addition_ops(lscaled, rscaled)
        };
        assert(head =~= scaling + combine_ops);
    }
    Some(ops)
}

proof fn lemma_abs_product(a: i64, b: i64, p: i64)
    requires
        a * b == p,
    ensures
        abs_nat(a) * abs_nat(b) == abs_nat(p),
        abs_nat(a) * abs_nat(b) <= u64::MAX,
{
    assert(abs_nat(a) * abs_nat(b) == abs_nat(p)) by (nonlinear_arith)
        requires
            a * b == p,
            abs_nat(a) == if a < 0 { -(a as int) } else { a as int },
            abs_nat(b) == if b < 0 { -(b as int) } else { b as int },
            abs_nat(p) == if p < 0 { -(p as int) } else { p as int },
    ;
}

pub fn rational_add_subtract_operations(left: RationalCoefficient, right: RationalCoefficient, subtract: bool) -> (r:
    Option<Vec<Operation>>)
    ensures
        match r {
            Some(o) => rational_add_subtract_ops(left@, right@, subtract) == Some(o@),
            None => rational_add_subtract_ops(left@, right@, subtract) is None,
        },
{
    let (mut ops, c) = match common_denominator(left.denominator(), right.denominator()) {
        Some(v) => v,
        None => return None,
    };
    match scaled_combination(left.numerator(), left.denominator(), right.numerator(), right.denominator(), c, subtract) {
        Some(rest) => extend(&mut ops, rest),
        None => return None,
    }
    Some(ops)
}

/// A fraction times the integer equal to its denominator cancels in one
/// step (with a sign step for a negative factor).
pub open spec fn cancellation_ops(fraction: (i64, i64), integer: (i64, i64)) -> Option<Seq<Operation>> {
    if fraction.1 == 1 || integer.1 != 1 || abs_nat(integer.0) != (fraction.1 as u64) {
        None
    } else if fraction.0 < 0 || integer.0 < 0 {
        Some(seq![Operation::BaseFractionCancel, Operation::OverheadNegative])
    } else {
        Some(seq![Operation::BaseFractionCancel])
    }
}

pub fn fraction_integer_cancellation_operations(fraction: RationalCoefficient, integer: RationalCoefficient) -> (r:
    Option<Vec<Operation>>)
    ensures
        match r {
            Some(o) => cancellation_ops(fraction@, integer@) == Some(o@),
            None => cancellation_ops(fraction@, integer@) is None,
        },
{
    if fraction.denominator() == 1 || integer.denominator() != 1 {
        return None;
    }
    if magnitude(integer.numerator()) != fraction.denominator() as u64 {
        return None;
    }
    let mut ops = single(Operation::BaseFractionCancel);
    if fraction.numerator() < 0 || integer.numerator() < 0 {
        ops.push(Operation::OverheadNegative);
        proof {
            assert(ops@ =~= seq![Operation::BaseFractionCancel, Operation::OverheadNegative]);
        }
    }
    Some(ops)
}

/// Multiplying two fractions: a cancellation where one is an integer equal
/// to the other's denominator; otherwise numerators and denominators
/// multiplied and the result reduced.
pub open spec fn rational_multiplication_ops(left: (i64, i64), right: (i64, i64)) -> Option<Seq<Operation>> {
    match cancellation_ops(left, right) {
        Some(o) => Some(o),
        None => match cancellation_ops(right, left) {
            Some(o) => Some(o),
            None => match (left.0.checked_mul(right.0), left.1.checked_mul(right.1)) {
                (Some(n), Some(d)) => match fraction_reduction_ops(n, d) {
                    Some(red) => Some(multiply_or_identity_ops(left.0, right.0) + multiply_or_identity_ops(
                        left.1,
                        right.1,
                    ) + red),
                    None => None,
                },
                _ => None,
            },
        },
    }
}

pub fn rational_multiplication_operations(left: RationalCoefficient, right: RationalCoefficient) -> (r: Option<
    Vec<Operation>,
>)
    ensures
        match r {
            Some(o) => rational_multiplication_ops(left@, right@) == Some(o@),
            None => rational_multiplication_ops(left@, right@) is None,
        },
{
    match fraction_integer_cancellation_operations(left, right) {
        Some(o) => return Some(o),
        None => {},
    }
    match fraction_integer_cancellation_operations(right, left) {
        Some(o) => return Some(o),
        None => {},
    }
    let n = match left.numerator().checked_mul(right.numerator()) {
        Some(v) => v,
        None => return None,
    };
    let d = match left.denominator().checked_mul(right.denominator()) {
        Some(v) => v,
        None => return None,
    };
    proof {
        lemma_abs_product(left@.0, right@.0, n);
        lemma_abs_product(left@.1, right@.1, d);
    }
    let mut ops = multiply_or_identity_operations(left.numerator(), right.numerator());
    extend(&mut ops, multiply_or_identity_operations(left.denominator(), right.denominator()));
    match fraction_reduction_operations(n, d) {
        Some(red) => extend(&mut ops, red),
        None => return None,
    }
    Some(ops)
}

/// Dividing by a fraction: its reciprocal, then a multiplication.
pub open spec fn rational_division_ops(dividend: (i64, i64), divisor: (i64, i64)) -> Option<Seq<Operation>> {
    if divisor.0 == 0 {
        None
    } else {
        let unit: i64 = if divisor.0 > 0 { 1i64 } else { -1i64 };
        match divisor.1.checked_mul(unit) {
            Some(n) => if abs_nat(divisor.0) > i64::MAX {
                None
            } else {
                match coefficient_new(n as int, abs_nat(divisor.0) as int) {
                    Some(reciprocal) => match rational_multiplication_ops(dividend, reciprocal) {
                        Some(o) => Some(seq![Operation::Reciprocal] + o),
                        None => None,
                    },
                    None => None,
                }
            },
            None => None,
        }
    }
}

pub fn rational_division_operations(dividend: RationalCoefficient, divisor: RationalCoefficient) -> (r: Option<
    Vec<Operation>,
>)
    ensures
        match r {
            Some(o) => rational_division_ops(dividend@, divisor@) == Some(o@),
            None => rational_division_ops(dividend@, divisor@) is None,
        },
{
    if divisor.is_zero() {
        return None;
    }
    let unit: i64 = if divisor.numerator() > 0 { 1 } else { -1 };
    let n = match divisor.denominator().checked_mul(unit) {
        Some(v) => v,
        None => return None,
    };
    let d = magnitude(divisor.numerator());
    if d > i64::MAX as u64 {
        return None;
    }
    let reciprocal = match RationalCoefficient::new(n, d as i64) {
        Some(r) => r,
        None => return None,
    };
    let mut ops = single(Operation::Reciprocal);
    match rational_multiplication_operations(dividend, reciprocal) {
        Some(o) => extend(&mut ops, o),
        None => return None,
    }
    Some(ops)
}

/// Dividing coefficients: a whole division where both are integers and the
/// division comes out even, otherwise a division of fractions.
pub open spec fn coefficient_division_ops(dividend: (i64, i64), divisor: (i64, i64)) -> Option<Seq<Operation>> {
    if dividend.1 == 1 && divisor.1 == 1 && divisor.0 != 0 && abs_nat(dividend.0) % abs_nat(divisor.0) == 0 {
        Some(divide_or_identity_ops(dividend.0, divisor.0))
    } else {
        rational_division_ops(dividend, divisor)
    }
}

pub fn coefficient_division_operations(dividend: RationalCoefficient, divisor: RationalCoefficient) -> (r: Option<
    Vec<Operation>,
>)
    requires
        !(dividend@ == (i64::MIN, 1i64) && divisor@ == (-1i64, 1i64)),
    ensures
        match r {
            Some(o) => coefficient_division_ops(dividend@, divisor@) == Some(o@),
            None => coefficient_division_ops(dividend@, divisor@) is None,
        },
{
    if dividend.is_integer() && divisor.is_integer() {
        let left = dividend.numerator();
        let right = divisor.numerator();
        if right != 0 {
            if magnitude(left) % magnitude(right) == 0 {
                return Some(divide_or_identity_operations(left, right));
            }
        }
    }
    rational_division_operations(dividend, divisor)
}


/// The standard plan for `ax + b = cx + d`: transpose to `Ax = B` with
/// `A = a - c` and `B = d - b` (a transposition and a subtraction for each
/// nonzero moved term), divide `B / A` (a copy for `A = 1`), then the
/// answer's numbers. `None` without a unique solution or where a value
/// leaves `i64`.
/// Moving a nonzero term across: a transposition and a subtraction.
pub open spec fn transposition_ops(x: (i64, i64), y: (i64, i64)) -> Option<Seq<Operation>> {
    if y.0 != 0 {
        prepend_ops(seq![Operation::Transposition], rational_add_subtract_ops(x, y, true))
    } else {
        Some(Seq::empty())
    }
}

fn transposition_operations(x: RationalCoefficient, y: RationalCoefficient) -> (r: Option<Vec<Operation>>)
    ensures
        match r {
            Some(o) => transposition_ops(x@, y@) == Some(o@),
            None => transposition_ops(x@, y@) is None,
        },
{
    if y.is_zero() {
        return Some(Vec::new());
    }
    let mut ops = single(Operation::Transposition);
    match rational_add_subtract_operations(x, y, true) {
        Some(o) => extend(&mut ops, o),
        None => return None,
    }
    Some(ops)
}

pub open spec fn linear_plan_ops(a: (i64, i64), b: (i64, i64), c: (i64, i64), d: (i64, i64), answer: AnswerValue) -> Option<
    Seq<Operation>,
> {
    match (coefficient_difference(a, c), coefficient_difference(d, b)) {
        (Some(coefficient), Some(constant)) => if coefficient.0 == 0 {
            None
        } else {
            let first = transposition_ops(a, c);
            let second = transposition_ops(d, b);
            let division: Option<Seq<Operation>> = if coefficient.0 == coefficient.1 {
                Some(seq![Operation::Identity])
            } else {
                coefficient_division_ops(constant, coefficient)
            };
            match (first, second, division) {
                (Some(f), Some(s), Some(q)) => Some(seq![Operation::OverheadLinear] + f + s + q + big_num_ops(answer)),
                _ => None,
            }
        },
        _ => None,
    }
}

/// The one division that the linear plan cannot carry out: `i64::MIN`
/// divided by minus one.
pub open spec fn linear_division_in_range(a: (i64, i64), b: (i64, i64), c: (i64, i64), d: (i64, i64)) -> bool {
    match (coefficient_difference(a, c), coefficient_difference(d, b)) {
        (Some(k), Some(m)) => !(m == (i64::MIN, 1i64) && k == (-1i64, 1i64)),
        _ => true,
    }
}

pub fn linear_equation_plan(
    a: RationalCoefficient,
    b: RationalCoefficient,
    c: RationalCoefficient,
    d: RationalCoefficient,
    answer: &AnswerNode,
) -> (r: Option<OperationPlan>)
    requires
        linear_division_in_range(a@, b@, c@, d@),
    ensures
        match r {
            Some(p) => linear_plan_ops(a@, b@, c@, d@, answer@) == Some(p@),
            None => linear_plan_ops(a@, b@, c@, d@, answer@) is None,
        },
{
    let coefficient = match a.subtract(c) {
        Some(v) => v,
        None => return None,
    };
    if coefficient.is_zero() {
        return None;
    }
    let constant = match d.subtract(b) {
        Some(v) => v,
        None => return None,
    };
    let first = match transposition_operations(a, c) {
        Some(o) => o,
        None => return None,
    };
    let second = match transposition_operations(d, b) {
        Some(o) => o,
        None => return None,
    };
    let division = if coefficient.numerator() == coefficient.denominator() {
        single(Operation::Identity)
    } else {
        match coefficient_division_operations(constant, coefficient) {
            Some(o) => o,
            None => return None,
        }
    };
    let mut ops = single(Operation::OverheadLinear);
    let ghost f = first@;
    let ghost s2 = second@;
    let ghost q = division@;
    extend(&mut ops, first);
    extend(&mut ops, second);
    extend(&mut ops, division);
    extend(&mut ops, big_num_operations(answer));
    proof {
        assert(ops@ =~= seq![Operation::OverheadLinear] + f + s2 + q + big_num_ops(answer@));
    }
    Some(OperationPlan::from_operations(ops))
}


/// An exact decimal `coefficient / 10^scale` in the effort model.
#[derive(Clone, Copy, Debug, PartialEq, Eq, Structural)]
pub struct DecimalEffortValue {
    pub coefficient: i64,
    pub scale: u32,
}

/// Trailing zeros of the coefficient dropped against decimal places.
pub open spec fn normalized_decimal(v: DecimalEffortValue) -> DecimalEffortValue
    decreases v.scale,
{
    if v.scale > 0 && v.coefficient.checked_rem(10) == Some(0i64) {
        match v.coefficient.checked_div(10) {
            Some(c) => normalized_decimal(DecimalEffortValue { coefficient: c, scale: (v.scale - 1) as u32 }),
            None => v,
        }
    } else {
        v
    }
}

pub fn normalize_decimal_effort(value: DecimalEffortValue) -> (r: DecimalEffortValue)
    ensures
        r == normalized_decimal(value),
{
    let mut v = value;
    while v.scale > 0 && v.coefficient.checked_rem(10) == Some(0i64)
        invariant
            normalized_decimal(v) == normalized_decimal(value),
        decreases v.scale,
    {
        match v.coefficient.checked_div(10) {
            Some(c) => {
                v = DecimalEffortValue { coefficient: c, scale: v.scale - 1 };
            },
            None => {
                return v;
            },
        }
    }
    v
}

/// `base^exponent` when it fits `i64`.
fn checked_pow_i64(base: i64, exponent: u32) -> (r: Option<i64>)
    requires
        base >= 1,
    ensures
        match r {
            Some(v) => v == vstd::arithmetic::power::pow(base as int, exponent as nat),
            None => vstd::arithmetic::power::pow(base as int, exponent as nat) > i64::MAX,
        },
{
    let mut value: i64 = 1;
    let mut k: u32 = 0;
    proof {
        vstd::arithmetic::power::lemma_pow0(base as int);
    }
    while k < exponent
        invariant
            k <= exponent,
            base >= 1,
            value == vstd::arithmetic::power::pow(base as int, k as nat),
            value >= 1,
        decreases exponent - k,
    {
        proof {
            vstd::arithmetic::power::lemma_pow_adds(base as int, k as nat, 1);
            vstd::arithmetic::power::lemma_pow1(base as int);
        }
        match value.checked_mul(base) {
            Some(v) => {
                proof {
                    assert(value * base >= 1) by (nonlinear_arith)
                        requires
                            value >= 1,
                            base >= 1,
                    ;
                }
                value = v;
            },
            None => {
                proof {
                    vstd::arithmetic::power::lemma_pow_increases(base as nat, (k + 1) as nat, exponent as nat);
                }
                return None;
            },
        }
        k = k + 1;
    }
    Some(value)
}

/// `d` with every factor `p` taken out, and how many there were.
pub open spec fn strip_count(d: nat, p: nat) -> (nat, nat)
    decreases d,
{
    if p >= 2 && d > 0 && d % p == 0 {
        proof {
            assert(d / p < d) by (nonlinear_arith)
                requires
                    p >= 2,
                    d > 0,
            ;
        }
        let (rest, n) = strip_count(d / p, p);
        (rest, n + 1)
    } else {
        (d, 0)
    }
}

/// A fraction as an exact decimal: where its denominator is made of twos
/// and fives, the numerator is scaled to the matching power of ten.
pub open spec fn decimal_of_rational(value: (i64, i64)) -> Option<DecimalEffortValue> {
    let (after_twos, twos) = strip_count(value.1 as u64 as nat, 2);
    let (rest, fives) = strip_count(after_twos, 5);
    if rest != 1 || twos > u32::MAX || fives > u32::MAX {
        None
    } else {
        let scale: nat = if twos >= fives { twos } else { fives };
        let two_power = vstd::arithmetic::power::pow(2, (scale - twos) as nat);
        let five_power = vstd::arithmetic::power::pow(5, (scale - fives) as nat);
        if two_power > i64::MAX || five_power > i64::MAX {
            None
        } else {
            match value.0.checked_mul(two_power as i64) {
                Some(c) => match c.checked_mul(five_power as i64) {
                    Some(c2) => Some(normalized_decimal(DecimalEffortValue { coefficient: c2, scale: scale as u32 })),
                    None => None,
                },
                None => None,
            }
        }
    }
}

fn strip_count_exec(d: u64, p: u64) -> (r: (u64, u64))
    requires
        p >= 2,
    ensures
        (r.0 as nat, r.1 as nat) == strip_count(d as nat, p as nat),
    decreases d,
{
    if d > 0 && d % p == 0 {
        proof {
            assert(d / p < d) by (nonlinear_arith)
                requires
                    p >= 2,
                    d > 0,
            ;
            lemma_strip_count_bound((d / p) as nat, p as nat);
        }
        let (rest, n) = strip_count_exec(d / p, p);
        proof {
            assert(d / p + 1 <= d) by (nonlinear_arith)
                requires
                    p >= 2,
                    d > 0,
                    d % p == 0,
            ;
        }
        (rest, n + 1)
    } else {
        (d, 0)
    }
}

proof fn lemma_strip_count_bound(d: nat, p: nat)
    requires
        p >= 2,
    ensures
        strip_count(d, p).1 <= d,
    decreases d,
{
    if d > 0 && d % p == 0 {
        assert(d / p < d) by (nonlinear_arith)
            requires
                p >= 2,
                d > 0,
        ;
        lemma_strip_count_bound(d / p, p);
    }
}

pub fn rational_to_decimal_effort(value: RationalCoefficient) -> (r: Option<DecimalEffortValue>)
    ensures
        r == decimal_of_rational(value@),
{
    let (after_twos, twos_wide) = strip_count_exec(value.denominator() as u64, 2);
    let (rest, fives_wide) = strip_count_exec(after_twos, 5);
    if rest != 1 || twos_wide > u32::MAX as u64 || fives_wide > u32::MAX as u64 {
        return None;
    }
    let twos = twos_wide as u32;
    let fives = fives_wide as u32;
    let scale = if twos >= fives { twos } else { fives };
    let two_power = match checked_pow_i64(2, scale - twos) {
        Some(v) => v,
        None => return None,
    };
    let five_power = match checked_pow_i64(5, scale - fives) {
        Some(v) => v,
        None => return None,
    };
    let c = match value.numerator().checked_mul(two_power) {
        Some(c) => c,
        None => return None,
    };
    let c2 = match c.checked_mul(five_power) {
        Some(c2) => c2,
        None => return None,
    };
    Some(normalize_decimal_effort(DecimalEffortValue { coefficient: c2, scale }))
}

/// The exact value of a decimal, as a reduced coefficient.
pub open spec fn rational_of_decimal(v: DecimalEffortValue) -> Option<(i64, i64)> {
    if pow10(v.scale as nat) > i64::MAX {
        None
    } else {
        coefficient_new(v.coefficient as int, pow10(v.scale as nat))
    }
}

fn decimal_effort_to_rational(value: DecimalEffortValue) -> (r: Option<RationalCoefficient>)
    ensures
        match r {
            Some(c) => rational_of_decimal(value) == Some(c@),
            None => rational_of_decimal(value) is None,
        },
{
    let power = match crate::exact::checked_pow10_i64(value.scale) {
        Some(p) => p,
        None => return None,
    };
    RationalCoefficient::new(value.coefficient, power)
}

/// Whether the expression has an exact decimal leaf.
pub open spec fn has_exact_decimal(e: ArithmeticExpression) -> bool
    decreases e,
{
    match e {
        ArithmeticExpression::ExactDecimal { .. } => true,
        ArithmeticExpression::Binary { left, right, .. } => has_exact_decimal(*left) || has_exact_decimal(*right),
        _ => false,
    }
}

pub fn contains_exact_decimal(expression: &ArithmeticExpression) -> (r: bool)
    ensures
        r == has_exact_decimal(*expression),
    decreases expression,
{
    match expression {
        ArithmeticExpression::ExactDecimal { .. } => true,
        ArithmeticExpression::Binary { left, right, .. } => contains_exact_decimal(left) || contains_exact_decimal(
            right,
        ),
        _ => false,
    }
}

/// `10^k` as an `i64`, when it fits.
pub open spec fn pow10_i64(k: nat) -> Option<i64> {
    if pow10(k) > i64::MAX { None } else { Some(pow10(k) as i64) }
}

/// Decimal addition or subtraction: the decimal points lined up (one count
/// per place moved), the coefficients combined as integers.
pub open spec fn decimal_add_subtract(l: DecimalEffortValue, r: DecimalEffortValue, subtract: bool) -> Option<
    (DecimalEffortValue, Seq<Operation>),
> {
    let common: u32 = if l.scale >= r.scale { l.scale } else { r.scale };
    let lshift: u32 = (common - l.scale) as u32;
    let rshift: u32 = (common - r.scale) as u32;
    let count: Seq<Operation> = if lshift + rshift > 0 {
        seq![Operation::Count { amount: (lshift + rshift) as u32 }]
    } else {
        Seq::empty()
    };
    match (pow10_i64(lshift as nat), pow10_i64(rshift as nat)) {
        (Some(lp), Some(rp)) => match (l.coefficient.checked_mul(lp), r.coefficient.checked_mul(rp)) {
            (Some(la), Some(ra)) => {
                let combined = if subtract { la.checked_sub(ra) } else { la.checked_add(ra) };
                let ops = if subtract { signed_subtraction_ops(la, ra) } else { signed_addition_ops(la, ra) };
                match combined {
                    Some(c) => Some((normalized_decimal(DecimalEffortValue { coefficient: c, scale: common }), count + ops)),
                    None => None,
                }
            },
            _ => None,
        },
        _ => None,
    }
}

/// Decimal multiplication: the coefficients multiplied as integers, then
/// the decimal point moved by the sum of the places.
pub open spec fn decimal_multiply(l: DecimalEffortValue, r: DecimalEffortValue) -> Option<
    (DecimalEffortValue, Seq<Operation>),
> {
    match (l.coefficient.checked_mul(r.coefficient), l.scale.checked_add(r.scale)) {
        (Some(c), Some(scale)) => {
            let ops = signed_multiplication_ops(l.coefficient, r.coefficient) + if scale > 0 {
                seq![Operation::TimeTen { exponent: scale }]
            } else {
                Seq::<Operation>::empty()
            };
            Some((normalized_decimal(DecimalEffortValue { coefficient: c, scale }), ops))
        },
        _ => None,
    }
}

/// Decimal division: the divisor's point moved to make it whole (and the
/// dividend's with it), a long division, and the quotient's point placed.
pub open spec fn decimal_divide(l: DecimalEffortValue, r: DecimalEffortValue) -> Option<
    (DecimalEffortValue, Seq<Operation>),
> {
    if r.coefficient == 0 {
        None
    } else {
        match (rational_of_decimal(l), rational_of_decimal(r)) {
            (Some(lv), Some(rv)) => match coefficient_quotient(lv, rv) {
                Some(q) => match decimal_of_rational(q) {
                    Some(qd) => {
                        let shift: Seq<Operation> = if r.scale > 0 {
                            seq![Operation::TimeTen { exponent: r.scale }, Operation::TimeTen { exponent: r.scale }]
                        } else {
                            Seq::empty()
                        };
                        let exponent: int = r.scale + qd.scale - l.scale;
                        let scaled: Option<(i64, i64)> = if exponent >= 0 {
                            if exponent > u32::MAX {
                                None
                            } else {
                                match pow10_i64(exponent as nat) {
                                    Some(p) => match l.coefficient.checked_mul(p) {
                                        Some(v) => Some((v, r.coefficient)),
                                        None => None,
                                    },
                                    None => None,
                                }
                            }
                        } else if -exponent > u32::MAX {
                            None
                        } else {
                            match pow10_i64((-exponent) as nat) {
                                Some(p) => match r.coefficient.checked_mul(p) {
                                    Some(v) => Some((l.coefficient, v)),
                                    None => None,
                                },
                                None => None,
                            }
                        };
                        match scaled {
                            Some((dividend, divisor)) => {
                                let place: Seq<Operation> = if qd.scale > 0 {
                                    seq![Operation::TimeTen { exponent: qd.scale }]
                                } else {
                                    Seq::empty()
                                };
                                Some((qd, shift + signed_division_ops(dividend, divisor) + place))
                            },
                            None => None,
                        }
                    },
                    None => None,
                },
                None => None,
            },
            _ => None,
        }
    }
}

/// The decimal work of an expression with decimal leaves: its value and the
/// operations, inner operations first.
pub open spec fn decimal_expression_ops(e: ArithmeticExpression) -> Option<(DecimalEffortValue, Seq<Operation>)>
    decreases e,
{
    match e {
        ArithmeticExpression::Integer { value } => Some((DecimalEffortValue { coefficient: value, scale: 0 }, Seq::empty())),
        ArithmeticExpression::ExactDecimal { coefficient, scale } => Some(
            (DecimalEffortValue { coefficient, scale }, Seq::empty()),
        ),
        ArithmeticExpression::Rational { .. } => None,
        ArithmeticExpression::Binary { operator, left, right } => match (
            decimal_expression_ops(*left),
            decimal_expression_ops(*right),
        ) {
            (Some((lv, lo)), Some((rv, ro))) => {
                let step = match operator {
                    ArithmeticOperator::Add => decimal_add_subtract(lv, rv, false),
                    ArithmeticOperator::Subtract => decimal_add_subtract(lv, rv, true),
                    ArithmeticOperator::Multiply => decimal_multiply(lv, rv),
                    ArithmeticOperator::Divide => decimal_divide(lv, rv),
                };
                match step {
                    Some((v, o)) => Some((v, lo + ro + o)),
                    None => None,
                }
            },
            _ => None,
        },
    }
}


fn pow10_checked(k: u32) -> (r: Option<i64>)
    ensures
        r == pow10_i64(k as nat),
{
    crate::exact::checked_pow10_i64(k)
}

fn decimal_add_subtract_operations(l: DecimalEffortValue, r: DecimalEffortValue, subtract: bool) -> (res: Option<
    (DecimalEffortValue, Vec<Operation>),
>)
    ensures
        match res {
            Some((v, o)) => decimal_add_subtract(l, r, subtract) == Some((v, o@)),
            None => decimal_add_subtract(l, r, subtract) is None,
        },
{
    let common: u32 = if l.scale >= r.scale { l.scale } else { r.scale };
    let lshift: u32 = common - l.scale;
    let rshift: u32 = common - r.scale;
    let mut ops: Vec<Operation> = Vec::new();
    if lshift > 0 || rshift > 0 {
        ops.push(Operation::Count { amount: lshift + rshift });
    }
    let lp = match pow10_checked(lshift) {
        Some(p) => p,
        None => return None,
    };
    let rp = match pow10_checked(rshift) {
        Some(p) => p,
        None => return None,
    };
    let la = match l.coefficient.checked_mul(lp) {
        Some(v) => v,
        None => return None,
    };
    let ra = match r.coefficient.checked_mul(rp) {
        Some(v) => v,
        None => return None,
    };
    let c = if subtract {
        extend(&mut ops, signed_subtraction_operations(la, ra));
        match la.checked_sub(ra) {
            Some(v) => v,
            None => return None,
        }
    } else {
        extend(&mut ops, signed_addition_operations(la, ra));
        match la.checked_add(ra) {
            Some(v) => v,
            None => return None,
        }
    };
    proof {
        if lshift > 0 || rshift > 0 {
            assert(ops@.subrange(0, 1) =~= seq![Operation::Count { amount: (lshift + rshift) as u32 }]);
        }
    }
    Some((normalize_decimal_effort(DecimalEffortValue { coefficient: c, scale: common }), ops))
}

fn decimal_multiply_operations(l: DecimalEffortValue, r: DecimalEffortValue) -> (res: Option<
    (DecimalEffortValue, Vec<Operation>),
>)
    ensures
        match res {
            Some((v, o)) => decimal_multiply(l, r) == Some((v, o@)),
            None => decimal_multiply(l, r) is None,
        },
{
    let c = match l.coefficient.checked_mul(r.coefficient) {
        Some(v) => v,
        None => return None,
    };
    let scale = match l.scale.checked_add(r.scale) {
        Some(v) => v,
        None => return None,
    };
    proof {
        lemma_abs_product(l.coefficient, r.coefficient, c);
    }
    let mut ops = signed_multiplication_operations(l.coefficient, r.coefficient);
    let ghost head = ops@;
    if scale > 0 {
        ops.push(Operation::TimeTen { exponent: scale });
    }
    proof {
        if scale > 0 {
            assert(ops@ =~= head + seq![Operation::TimeTen { exponent: scale }]);
        } else {
            assert(ops@ =~= head + Seq::<Operation>::empty());
        }
    }
    Some((normalize_decimal_effort(DecimalEffortValue { coefficient: c, scale }), ops))
}

fn decimal_divide_operations(l: DecimalEffortValue, r: DecimalEffortValue) -> (res: Option<
    (DecimalEffortValue, Vec<Operation>),
>)
    ensures
        match res {
            Some((v, o)) => decimal_divide(l, r) == Some((v, o@)),
            None => decimal_divide(l, r) is None,
        },
{
    if r.coefficient == 0 {
        return None;
    }
    let lv = match decimal_effort_to_rational(l) {
        Some(v) => v,
        None => return None,
    };
    let rv = match decimal_effort_to_rational(r) {
        Some(v) => v,
        None => return None,
    };
    let q = match lv.divide(rv) {
        Some(v) => v,
        None => return None,
    };
    let qd = match rational_to_decimal_effort(q) {
        Some(v) => v,
        None => return None,
    };
    let mut ops: Vec<Operation> = Vec::new();
    if r.scale > 0 {
        ops.push(Operation::TimeTen { exponent: r.scale });
        ops.push(Operation::TimeTen { exponent: r.scale });
    }
    let ghost shift = ops@;
    let exponent: i64 = r.scale as i64 + qd.scale as i64 - l.scale as i64;
    let (dividend, divisor) = if exponent >= 0 {
        if exponent > u32::MAX as i64 {
            return None;
        }
        let p = match pow10_checked(exponent as u32) {
            Some(p) => p,
            None => return None,
        };
        match l.coefficient.checked_mul(p) {
            Some(v) => (v, r.coefficient),
            None => return None,
        }
    } else {
        if -exponent > u32::MAX as i64 {
            return None;
        }
        let p = match pow10_checked((-exponent) as u32) {
            Some(p) => p,
            None => return None,
        };
        proof {
            crate::exact::lemma_pow10_positive((-exponent) as nat);
        }
        match r.coefficient.checked_mul(p) {
            Some(v) => {
                proof {
                    assert(v != 0) by (nonlinear_arith)
                        requires
                            v == r.coefficient * p,
                            r.coefficient != 0,
                            p >= 1,
                    ;
                }
                (l.coefficient, v)
            },
            None => return None,
        }
    };
    extend(&mut ops, signed_division_operations(dividend, divisor));
    let ghost middle = ops@;
    if qd.scale > 0 {
        ops.push(Operation::TimeTen { exponent: qd.scale });
    }
    proof {
        if r.scale > 0 {
            assert(shift =~= seq![Operation::TimeTen { exponent: r.scale }, Operation::TimeTen { exponent: r.scale }]);
        } else {
            assert(shift =~= Seq::<Operation>::empty());
        }
        if qd.scale > 0 {
            assert(ops@ =~= middle + seq![Operation::TimeTen { exponent: qd.scale }]);
        } else {
            assert(ops@ =~= middle + Seq::<Operation>::empty());
        }
    }
    Some((qd, ops))
}

fn decimal_expression_operations(expression: &ArithmeticExpression) -> (res: Option<
    (DecimalEffortValue, Vec<Operation>),
>)
    ensures
        match res {
            Some((v, o)) => decimal_expression_ops(*expression) == Some((v, o@)),
            None => decimal_expression_ops(*expression) is None,
        },
    decreases expression,
{
    match expression {
        ArithmeticExpression::Integer { value } => Some(
            (DecimalEffortValue { coefficient: *value, scale: 0 }, Vec::new()),
        ),
        ArithmeticExpression::ExactDecimal { coefficient, scale } => Some(
            (DecimalEffortValue { coefficient: *coefficient, scale: *scale }, Vec::new()),
        ),
        ArithmeticExpression::Rational { .. } => None,
        ArithmeticExpression::Binary { operator, left, right } => {
            let (lv, mut ops) = match decimal_expression_operations(left) {
                Some(v) => v,
                None => return None,
            };
            let (rv, rops) = match decimal_expression_operations(right) {
                Some(v) => v,
                None => return None,
            };
            extend(&mut ops, rops);
            let step = match operator {
                ArithmeticOperator::Add => decimal_add_subtract_operations(lv, rv, false),
                ArithmeticOperator::Subtract => decimal_add_subtract_operations(lv, rv, true),
                ArithmeticOperator::Multiply => decimal_multiply_operations(lv, rv),
                ArithmeticOperator::Divide => decimal_divide_operations(lv, rv),
            };
            match step {
                Some((v, o)) => {
                    extend(&mut ops, o);
                    Some((v, ops))
                },
                None => None,
            }
        },
    }
}

/// One operator of a fraction expression: its exact value, and the work of
/// the standard method (integer column work where both sides are whole
/// numbers, fraction work otherwise).
pub open spec fn arithmetic_step(operator: ArithmeticOperator, l: (i64, i64), r: (i64, i64)) -> Option<
    ((i64, i64), Seq<Operation>),
> {
    let both_integer = l.1 == 1 && r.1 == 1;
    match operator {
        ArithmeticOperator::Add => match coefficient_sum(l, r) {
            Some(v) => if both_integer {
                Some((v, signed_addition_ops(l.0, r.0)))
            } else {
                match rational_add_subtract_ops(l, r, false) {
                    Some(o) => Some((v, o)),
                    None => None,
                }
            },
            None => None,
        },
        ArithmeticOperator::Subtract => match coefficient_difference(l, r) {
            Some(v) => if both_integer {
                Some((v, signed_subtraction_ops(l.0, r.0)))
            } else {
                match rational_add_subtract_ops(l, r, true) {
                    Some(o) => Some((v, o)),
                    None => None,
                }
            },
            None => None,
        },
        ArithmeticOperator::Multiply => match coefficient_product(l, r) {
            Some(v) => if both_integer {
                Some((v, signed_multiplication_ops(l.0, r.0)))
            } else {
                match rational_multiplication_ops(l, r) {
                    Some(o) => Some((v, o)),
                    None => None,
                }
            },
            None => None,
        },
        ArithmeticOperator::Divide => match coefficient_quotient(l, r) {
            Some(v) => if both_integer && r.0 != 0 && abs_nat(l.0) % abs_nat(r.0) == 0 {
                Some((v, divide_or_identity_ops(l.0, r.0)))
            } else {
                match rational_division_ops(l, r) {
                    Some(o) => Some((v, o)),
                    None => None,
                }
            },
            None => None,
        },
    }
}

/// The work of an expression without decimal leaves: its exact value and
/// the operations, inner operations first.
pub open spec fn arithmetic_expression_ops(e: ArithmeticExpression) -> Option<((i64, i64), Seq<Operation>)>
    decreases e,
{
    match e {
        ArithmeticExpression::Integer { value } => match coefficient_new(value as int, 1) {
            Some(c) => Some((c, Seq::empty())),
            None => None,
        },
        ArithmeticExpression::Rational { value } => Some((value@, Seq::empty())),
        ArithmeticExpression::ExactDecimal { .. } => None,
        ArithmeticExpression::Binary { operator, left, right } => match (
            arithmetic_expression_ops(*left),
            arithmetic_expression_ops(*right),
        ) {
            (Some((lv, lo)), Some((rv, ro))) => match arithmetic_step(operator, lv, rv) {
                Some((v, o)) => Some((v, lo + ro + o)),
                None => None,
            },
            _ => None,
        },
    }
}

/// Whole numbers are their own reduced form: the product of two exists
/// exactly when it fits `i64`.
proof fn lemma_integer_product(a: i64, b: i64)
    requires
        coefficient_product((a, 1), (b, 1)) is Some,
    ensures
        i64::MIN <= a * b <= i64::MAX,
{
    reveal_with_fuel(gcd_spec, 2);
    let p: int = a * b;
    assert(-0x4000_0000_0000_0000_0000_0000_0000_0000 <= p <= 0x4000_0000_0000_0000_0000_0000_0000_0000) by (
    nonlinear_arith)
        requires
            p == a * b,
            i64::MIN <= a <= i64::MAX,
            i64::MIN <= b <= i64::MAX,
    ;
    assert(gcd_spec(abs_int(a as int), 1) == 1);
    assert(gcd_spec(abs_int(b as int), 1) == 1);
    assert(gcd_spec(abs_int(p), 1) == 1);
    let x = crate::exact::reduced(a as int, 1);
    let y = crate::exact::reduced(b as int, 1);
    assert(x.numerator == a && x.denominator == 1);
    assert(y.numerator == b && y.denominator == 1);
    assert(crate::model::exact_of((a, 1)) == Some(x));
    assert(crate::model::exact_of((b, 1)) == Some(y));
    let z = crate::exact::reduced(p, 1);
    assert(z.numerator == p && z.denominator == 1);
    assert(x.spec_multiply(y) == Some(z));
}

fn arithmetic_step_operations(operator: ArithmeticOperator, l: RationalCoefficient, r: RationalCoefficient) -> (res:
    Option<(RationalCoefficient, Vec<Operation>)>)
    ensures
        match res {
            Some((v, o)) => arithmetic_step(operator, l@, r@) == Some((v@, o@)),
            None => arithmetic_step(operator, l@, r@) is None,
        },
{
    let both_integer = l.is_integer() && r.is_integer();
    match operator {
        ArithmeticOperator::Add => {
            let v = match l.checked_add(r) {
                Some(v) => v,
                None => return None,
            };
            if both_integer {
                Some((v, signed_addition_operations(l.numerator(), r.numerator())))
            } else {
                match rational_add_subtract_operations(l, r, false) {
                    Some(o) => Some((v, o)),
                    None => None,
                }
            }
        },
        ArithmeticOperator::Subtract => {
            let v = match l.subtract(r) {
                Some(v) => v,
                None => return None,
            };
            if both_integer {
                Some((v, signed_subtraction_operations(l.numerator(), r.numerator())))
            } else {
                match rational_add_subtract_operations(l, r, true) {
                    Some(o) => Some((v, o)),
                    None => None,
                }
            }
        },
        ArithmeticOperator::Multiply => {
            let v = match l.multiply(r) {
                Some(v) => v,
                None => return None,
            };
            if both_integer {
                proof {
                    lemma_integer_product(l@.0, r@.0);
                    lemma_abs_product(l@.0, r@.0, (l@.0 * r@.0) as i64);
                }
                Some((v, signed_multiplication_operations(l.numerator(), r.numerator())))
            } else {
                match rational_multiplication_operations(l, r) {
                    Some(o) => Some((v, o)),
                    None => None,
                }
            }
        },
        ArithmeticOperator::Divide => {
            let v = match l.divide(r) {
                Some(v) => v,
                None => return None,
            };
            if both_integer && r.numerator() != 0 && magnitude(l.numerator()) % magnitude(r.numerator()) == 0 {
                Some((v, divide_or_identity_operations(l.numerator(), r.numerator())))
            } else {
                match rational_division_operations(l, r) {
                    Some(o) => Some((v, o)),
                    None => None,
                }
            }
        },
    }
}

fn arithmetic_expression_operations(expression: &ArithmeticExpression) -> (res: Option<
    (RationalCoefficient, Vec<Operation>),
>)
    ensures
        match res {
            Some((v, o)) => arithmetic_expression_ops(*expression) == Some((v@, o@)),
            None => arithmetic_expression_ops(*expression) is None,
        },
    decreases expression,
{
    match expression {
        ArithmeticExpression::Integer { value } => match RationalCoefficient::new(*value, 1) {
            Some(c) => Some((c, Vec::new())),
            None => None,
        },
        ArithmeticExpression::Rational { value } => Some((*value, Vec::new())),
        ArithmeticExpression::ExactDecimal { .. } => None,
        ArithmeticExpression::Binary { operator, left, right } => {
            let (lv, mut ops) = match arithmetic_expression_operations(left) {
                Some(v) => v,
                None => return None,
            };
            let (rv, rops) = match arithmetic_expression_operations(right) {
                Some(v) => v,
                None => return None,
            };
            extend(&mut ops, rops);
            match arithmetic_step_operations(*operator, lv, rv) {
                Some((v, o)) => {
                    extend(&mut ops, o);
                    Some((v, ops))
                },
                None => None,
            }
        },
    }
}

/// The operations of an arithmetic expression's standard written solution,
/// then one `BigNum` per number of the answer: decimal work where the
/// expression has a decimal leaf, fraction work otherwise. `None` where the
/// work cannot be costed within `i64` (or the expression mixes a fraction
/// leaf with decimal leaves).
pub open spec fn arithmetic_plan(expression: ArithmeticExpression, answer: AnswerValue) -> Option<Seq<Operation>> {
    let work: Option<Seq<Operation>> = if has_exact_decimal(expression) {
        match decimal_expression_ops(expression) {
            Some((_, o)) => Some(o),
            None => None,
        }
    } else {
        match arithmetic_expression_ops(expression) {
            Some((_, o)) => Some(o),
            None => None,
        }
    };
    match work {
        Some(o) => Some(o + big_num_ops(answer)),
        None => None,
    }
}

pub fn arithmetic_expression_plan(expression: &ArithmeticExpression, answer: &AnswerNode) -> (r: Option<
    OperationPlan,
>)
    ensures
        match r {
            Some(plan) => arithmetic_plan(*expression, answer@) == Some(plan@),
            None => arithmetic_plan(*expression, answer@) is None,
        },
{
    let mut ops = if contains_exact_decimal(expression) {
        match decimal_expression_operations(expression) {
            Some((_, o)) => o,
            None => return None,
        }
    } else {
        match arithmetic_expression_operations(expression) {
            Some((_, o)) => o,
            None => return None,
        }
    };
    extend(&mut ops, big_num_operations(answer));
    Some(OperationPlan::from_operations(ops))
}

/// Dividing `remaining` by `square` while it divides: each attempt is a
/// long division, each success one `Identity` step. Returns the operations,
/// what is left, and how many times `square` came out.
pub open spec fn square_division_ops(remaining: nat, square: nat) -> (Seq<Operation>, nat, nat)
    decreases remaining,
{
    if square < 4 || remaining < square {
        (Seq::empty(), remaining, 0)
    } else if remaining % square != 0 {
        (unsigned_division_ops(remaining, square), remaining, 0)
    } else {
        proof {
            assert(remaining / square < remaining) by (nonlinear_arith)
                requires
                    square >= 4,
                    remaining >= square,
            ;
        }
        let (o, rest, k) = square_division_ops(remaining / square, square);
        (unsigned_division_ops(remaining, square).push(Operation::Identity) + o, rest, k + 1)
    }
}

/// The prime squares tried in turn, from `prime` while its square is at
/// most the radicand: each prime costs one `Count`, then its square is
/// divided out. Returns the operations, what is left, and the outside
/// factors (one copy of a prime per time its square came out).
pub open spec fn square_walk(radicand: nat, prime: nat, remaining: nat) -> (Seq<Operation>, nat, Seq<u64>)
    decreases radicand + 1 - prime,
{
    if prime < 2 || prime * prime > radicand {
        (Seq::empty(), remaining, Seq::empty())
    } else {
        proof {
            assert(prime <= radicand) by (nonlinear_arith)
                requires
                    prime >= 2,
                    prime * prime <= radicand,
            ;
        }
        if !is_prime_spec(prime) {
            square_walk(radicand, prime + 1, remaining)
        } else {
            let (o, rest, k) = square_division_ops(remaining, prime * prime);
            let (o2, rest2, fs) = square_walk(radicand, prime + 1, rest);
            (
                seq![Operation::Count { amount: 1 }] + o + o2,
                rest2,
                Seq::new(k, |i: int| prime as u64) + fs,
            )
        }
    }
}

/// The outside factors multiplied together, left to right.
pub open spec fn outside_product_ops(acc: nat, factors: Seq<u64>) -> Seq<Operation>
    decreases factors.len(),
{
    if factors.len() == 0 {
        Seq::empty()
    } else {
        unsigned_multiplication_ops(acc, factors[0] as nat) + outside_product_ops(
            acc * (factors[0] as nat),
            factors.drop_first(),
        )
    }
}

/// Simplifying a square root by its prime square factors: the factor-search
/// overhead, each prime square tried, and the outside factors multiplied.
pub open spec fn square_factor_search_ops(radicand: nat) -> Seq<Operation> {
    let (o, _, fs) = square_walk(radicand, 2, radicand);
    seq![Operation::OverheadFactorPerfectSquare] + o + if fs.len() > 1 {
        outside_product_ops(fs[0] as nat, fs.drop_first())
    } else {
        Seq::empty()
    }
}

/// The root of a perfect square up to `9 * 9` is one table fact; any other
/// radicand goes through the square-factor search.
pub open spec fn square_root_ops(radicand: nat) -> Seq<Operation> {
    if exact_sqrt(radicand) is Some && exact_sqrt(radicand)->0 <= 9 {
        seq![Operation::BaseRoot]
    } else {
        square_factor_search_ops(radicand)
    }
}

/// The product of a sequence of factors.
pub open spec fn factor_product(s: Seq<u64>) -> nat
    decreases s.len(),
{
    if s.len() == 0 {
        1
    } else {
        factor_product(s.drop_last()) * (s.last() as nat)
    }
}

proof fn lemma_factor_product_prefix(s: Seq<u64>, j: int)
    requires
        0 <= j <= s.len(),
        forall|i: int| 0 <= i < s.len() ==> s[i] >= 1,
    ensures
        1 <= factor_product(s.take(j)) <= factor_product(s),
    decreases s.len(),
{
    if s.len() == 0 {
        assert(s.take(j) =~= s);
    } else if j == s.len() {
        assert(s.take(j) =~= s);
        lemma_factor_product_prefix(s.drop_last(), j - 1);
        let p = factor_product(s.drop_last());
        assert(p * (s.last() as nat) >= 1) by (nonlinear_arith)
            requires
                p >= 1,
                s.last() >= 1,
        ;
    } else {
        assert(s.take(j) =~= s.drop_last().take(j));
        lemma_factor_product_prefix(s.drop_last(), j);
        let p = factor_product(s.drop_last());
        assert(p <= p * (s.last() as nat)) by (nonlinear_arith)
            requires
                p >= 1,
                s.last() >= 1,
        ;
    }
}

fn square_factor_search_operations(radicand: u64) -> (r: Vec<Operation>)
    ensures
        r@ == square_factor_search_ops(radicand as nat),
{
    let mut ops: Vec<Operation> = single(Operation::OverheadFactorPerfectSquare);
    let mut remaining: u64 = radicand;
    let mut fs: Vec<u64> = Vec::new();
    let mut prime: u64 = 2;
    let ghost total = square_walk(radicand as nat, 2, radicand as nat);
    proof {
        assert(fs@ =~= Seq::<u64>::empty());
        assert(factor_product(fs@) == 1);
    }
    while prime <= radicand / prime
        invariant
            2 <= prime,
            prime <= radicand + 2,
            prime <= 0x1_0000_0001,
            seq![Operation::OverheadFactorPerfectSquare] + total.0 == ops@ + square_walk(
                radicand as nat,
                prime as nat,
                remaining as nat,
            ).0,
            fs@ + square_walk(radicand as nat, prime as nat, remaining as nat).2 == total.2,
            total == square_walk(radicand as nat, 2, radicand as nat),
            radicand == remaining * factor_product(fs@) * factor_product(fs@),
            fs@.len() > 0 ==> remaining >= 1,
            forall|i: int| 0 <= i < fs@.len() ==> fs@[i] >= 2,
        decreases radicand + 2 - prime,
    {
        proof {
            assert(prime * prime <= radicand) by (nonlinear_arith)
                requires
                    prime >= 2,
                    prime <= radicand / prime,
            ;
            assert(prime <= radicand) by (nonlinear_arith)
                requires
                    prime >= 2,
                    prime * prime <= radicand,
            ;
            assert(prime <= 0x1_0000_0000) by (nonlinear_arith)
                requires
                    prime * prime <= radicand,
                    radicand <= u64::MAX,
            ;
            assert(prime * prime >= 4) by (nonlinear_arith)
                requires
                    prime >= 2,
            ;
        }
        if !is_prime(prime) {
            prime = prime + 1;
            continue;
        }
        let square: u64 = prime * prime;
        ops.push(Operation::Count { amount: 1 });
        let ghost start_ops = ops@;
        let ghost start_fs = fs@;
        let ghost start_rem = remaining as nat;
        let ghost sd = square_division_ops(start_rem, square as nat);
        let mut dividing = true;
        while dividing
            invariant
                square == prime * prime,
                square >= 4,
                2 <= prime,
                sd == square_division_ops(start_rem, square as nat),
                dividing ==> start_ops + sd.0 == ops@ + square_division_ops(remaining as nat, square as nat).0,
                dividing ==> sd.1 == square_division_ops(remaining as nat, square as nat).1,
                dividing ==> start_fs + Seq::new(sd.2, |i: int| prime as u64) == fs@ + Seq::new(
                    square_division_ops(remaining as nat, square as nat).2,
                    |i: int| prime as u64,
                ),
                !dividing ==> start_ops + sd.0 == ops@,
                !dividing ==> sd.1 == remaining,
                !dividing ==> start_fs + Seq::new(sd.2, |i: int| prime as u64) == fs@,
                radicand == remaining * factor_product(fs@) * factor_product(fs@),
                fs@.len() > 0 ==> remaining >= 1,
                forall|i: int| 0 <= i < fs@.len() ==> fs@[i] >= 2,
            decreases remaining + if dividing { 1int } else { 0int },
        {
            if remaining < square {
                proof {
                    assert(ops@ + Seq::<Operation>::empty() =~= ops@);
                    assert(fs@ + Seq::new(0, |i: int| prime as u64) =~= fs@);
                }
                dividing = false;
            } else {
                let ghost before = ops@;
                extend(&mut ops, unsigned_division_operations(remaining, square));
                if remaining % square != 0 {
                    proof {
                        assert(fs@ + Seq::new(0, |i: int| prime as u64) =~= fs@);
                    }
                    dividing = false;
                } else {
                    ops.push(Operation::Identity);
                    let ghost old_fs = fs@;
                    let ghost next = square_division_ops((remaining / square) as nat, square as nat);
                    fs.push(prime);
                    proof {
                        let k = next.2;
                        assert(before + (unsigned_division_ops(remaining as nat, square as nat).push(
                            Operation::Identity,
                        ) + next.0) =~= ops@ + next.0);
                        assert(old_fs + Seq::new(k + 1, |i: int| prime as u64) =~= fs@ + Seq::new(
                            k,
                            |i: int| prime as u64,
                        ));
                        assert(fs@.drop_last() =~= old_fs);
                        let p = factor_product(old_fs);
                        let q = remaining / square;
                        vstd::arithmetic::div_mod::lemma_fundamental_div_mod(remaining as int, square as int);
                        assert(remaining == q * square);
                        assert(radicand == q * (p * prime) * (p * prime)) by (nonlinear_arith)
                            requires
                                radicand == remaining * p * p,
                                remaining == q * square,
                                square == prime * prime,
                        ;
                        assert(q >= 1) by (nonlinear_arith)
                            requires
                                remaining >= square,
                                square >= 4,
                                q == remaining / square,
                        ;
                        assert(q < remaining) by (nonlinear_arith)
                            requires
                                remaining >= square,
                                square >= 4,
                                q == remaining / square,
                        ;
                    }
                    remaining = remaining / square;
                }
            }
        }
        proof {
            let w = square_walk(radicand as nat, (prime + 1) as nat, sd.1);
            assert(square_walk(radicand as nat, prime as nat, start_rem) == (
                seq![Operation::Count { amount: 1 }] + sd.0 + w.0,
                w.1,
                Seq::new(sd.2, |i: int| prime as u64) + w.2,
            ));
            assert(start_ops =~= start_ops.drop_last().push(Operation::Count { amount: 1 }));
            assert(ops@ + w.0 =~= start_ops.drop_last() + (seq![Operation::Count { amount: 1 }] + sd.0 + w.0));
            assert(fs@ + w.2 =~= start_fs + (Seq::new(sd.2, |i: int| prime as u64) + w.2));
            assert(prime * prime <= radicand);
        }
        prime = prime + 1;
    }
    proof {
        assert(prime * prime > radicand) by (nonlinear_arith)
            requires
                prime >= 2,
                prime > radicand / prime,
        ;
        assert(ops@ + Seq::<Operation>::empty() =~= ops@);
        assert(fs@ + Seq::<u64>::empty() =~= fs@);
    }
    let ghost base = ops@;
    if fs.len() > 1 {
        let mut outside: u64 = fs[0];
        let mut i: usize = 1;
        proof {
            assert(fs@.take(1).drop_last() =~= Seq::<u64>::empty());
            assert(fs@.subrange(1, fs@.len() as int) =~= fs@.drop_first());
        }
        while i < fs.len()
            invariant
                1 <= i <= fs@.len(),
                fs@ == total.2,
                outside == factor_product(fs@.take(i as int)),
                base + outside_product_ops(fs@[0] as nat, fs@.drop_first()) == ops@ + outside_product_ops(
                    outside as nat,
                    fs@.subrange(i as int, fs@.len() as int),
                ),
                radicand == remaining * factor_product(fs@) * factor_product(fs@),
                remaining >= 1,
                forall|j: int| 0 <= j < fs@.len() ==> fs@[j] >= 2,
            decreases fs@.len() - i,
        {
            let f = fs[i];
            proof {
                lemma_factor_product_prefix(fs@, i + 1);
                assert(fs@.take(i + 1).drop_last() =~= fs@.take(i as int));
                let whole = factor_product(fs@);
                assert(whole <= radicand) by (nonlinear_arith)
                    requires
                        radicand == remaining * whole * whole,
                        remaining >= 1,
                        whole >= 1,
                ;
                let rest = fs@.subrange(i as int, fs@.len() as int);
                assert(rest.drop_first() =~= fs@.subrange(i + 1, fs@.len() as int));
            }
            extend(&mut ops, unsigned_multiplication_operations(outside, f));
            outside = outside * f;
            i += 1;
        }
        proof {
            assert(fs@.subrange(i as int, fs@.len() as int) =~= Seq::<u64>::empty());
            assert(ops@ + Seq::<Operation>::empty() =~= ops@);
        }
    } else {
        proof {
            assert(base + Seq::<Operation>::empty() =~= base);
        }
    }
    ops
}

pub fn square_root_operations(radicand: u64) -> (r: Vec<Operation>)
    ensures
        r@ == square_root_ops(radicand as nat),
{
    match exact_square_root_u128(radicand as u128) {
        Some(root) => {
            if root <= 9 {
                return single(Operation::BaseRoot);
            }
        },
        None => {},
    }
    square_factor_search_operations(radicand)
}

/// Every item of `s` is at least `lo`.
pub open spec fn all_at_least(s: Seq<u64>, lo: nat) -> bool {
    forall|i: int| 0 <= i < s.len() ==> s[i] >= lo
}

proof fn lemma_concat_at_least(a: Seq<u64>, b: Seq<u64>, lo: nat)
    requires
        all_at_least(a, lo),
        all_at_least(b, lo),
    ensures
        all_at_least(a + b, lo),
{
    assert forall|i: int| 0 <= i < (a + b).len() implies (a + b)[i] >= lo by {
        if i < a.len() {
            assert((a + b)[i] == a[i]);
        } else {
            assert((a + b)[i] == b[i - a.len()]);
        }
    }
}

proof fn lemma_insert_sorted_at_least(s: Seq<u64>, x: u64, lo: nat)
    requires
        all_at_least(s, lo),
        x >= lo,
    ensures
        all_at_least(insert_sorted(s, x), lo),
    decreases s.len(),
{
    if s.len() == 0 {
    } else if x <= s[0] {
        lemma_concat_at_least(seq![x], s, lo);
    } else {
        lemma_insert_sorted_at_least(s.drop_first(), x, lo);
        lemma_concat_at_least(seq![s[0]], insert_sorted(s.drop_first(), x), lo);
    }
}

proof fn lemma_sorted_seq_at_least(s: Seq<u64>, lo: nat)
    requires
        all_at_least(s, lo),
    ensures
        all_at_least(sorted_seq(s), lo),
    decreases s.len(),
{
    if s.len() > 0 {
        lemma_sorted_seq_at_least(s.drop_last(), lo);
        lemma_insert_sorted_at_least(sorted_seq(s.drop_last()), s.last(), lo);
    }
}

proof fn lemma_strip_factor_at_least(v: nat, p: u64)
    requires
        p >= 2,
    ensures
        all_at_least(strip_factor(v, p).0, 2),
    decreases v,
{
    if v > 0 && v % (p as nat) == 0 {
        assert(v / (p as nat) < v) by (nonlinear_arith)
            requires
                p >= 2,
                v > 0,
        ;
        lemma_strip_factor_at_least(v / (p as nat), p);
        lemma_concat_at_least(seq![p], strip_factor(v / (p as nat), p).0, 2);
    }
}

proof fn lemma_table_factorization_at_least(v: nat)
    ensures
        table_factorization(v) matches Some(f) ==> all_at_least(f, 2),
    decreases v, 11nat,
{
    if v >= 2 && v <= 9 {
        let (f2, r2) = strip_factor(v, 2);
        let (f3, r3) = strip_factor(r2, 3);
        let (f5, r5) = strip_factor(r3, 5);
        let (f7, r7) = strip_factor(r5, 7);
        lemma_strip_factor_at_least(v, 2);
        lemma_strip_factor_at_least(r2, 3);
        lemma_strip_factor_at_least(r3, 5);
        lemma_strip_factor_at_least(r5, 7);
        lemma_concat_at_least(f2, f3, 2);
        lemma_concat_at_least(f2 + f3, f5, 2);
        lemma_concat_at_least(f2 + f3 + f5, f7, 2);
    } else if v > 9 {
        lemma_table_search_at_least(v, 2);
    }
}

proof fn lemma_table_search_at_least(v: nat, left: nat)
    ensures
        table_search(v, left) matches Some(f) ==> all_at_least(f, 2),
    decreases v, 10 - left,
{
    if left > 9 || left < 2 || v <= 9 {
    } else if v % left == 0 && v / left <= 9 {
        lemma_table_factorization_at_least(left);
        lemma_table_factorization_at_least(v / left);
        match (table_factorization(left), table_factorization(v / left)) {
            (Some(a), Some(b)) => {
                lemma_concat_at_least(a, b, 2);
                lemma_sorted_seq_at_least(a + b, 2);
            },
            _ => {},
        }
    } else {
        lemma_table_search_at_least(v, left + 1);
    }
}

proof fn lemma_divide_out_at_least(remaining: nat, candidate: nat)
    requires
        candidate >= 2,
        candidate <= u64::MAX,
    ensures
        all_at_least(divide_out(remaining, candidate).0, 2),
    decreases remaining,
{
    lemma_table_factorization_at_least(remaining);
    if table_factorization(remaining) is None && remaining % candidate == 0 {
        let next = remaining / candidate;
        if next > 1 {
            assert(remaining / candidate < remaining) by (nonlinear_arith)
                requires
                    candidate >= 2,
                    next > 1,
                    next == remaining / candidate,
            ;
            lemma_divide_out_at_least(next, candidate);
            lemma_concat_at_least(seq![candidate as u64], divide_out(next, candidate).0, 2);
        }
    }
}

proof fn lemma_trial_division_at_least(remaining: nat, candidate: nat)
    requires
        remaining <= u64::MAX,
    ensures
        all_at_least(trial_division(remaining, candidate).0, 2),
        trial_division(remaining, candidate).2 <= remaining,
    decreases remaining, remaining + 1 - candidate,
{
    if !(candidate * candidate > remaining || candidate < 2) {
        assert(candidate <= remaining) by (nonlinear_arith)
            requires
                candidate * candidate <= remaining,
                candidate >= 2,
        ;
        lemma_divide_out_shrinks(remaining, candidate);
        if !is_prime_spec(candidate) {
            lemma_trial_division_at_least(remaining, candidate + 1);
        } else {
            let (f, o, r) = divide_out(remaining, candidate);
            lemma_divide_out_at_least(remaining, candidate);
            if r != 1 {
                lemma_trial_division_at_least(r, candidate + 1);
                lemma_concat_at_least(f, trial_division(r, candidate + 1).0, 2);
            }
        }
    }
}

/// Every prime factor found is at least two.
proof fn lemma_prime_factors_at_least_two(value: nat)
    requires
        value <= u64::MAX,
    ensures
        all_at_least(prime_factorization_ops(value).0, 2),
{
    if value > 1 {
        lemma_table_factorization_at_least(value);
        if table_factorization(value) is None {
            let (f, o, r) = trial_division(value, 2);
            lemma_trial_division_at_least(value, 2);
            let all = if r > 1 { f.push(r as u64) } else { f };
            if r > 1 {
                lemma_concat_at_least(f, seq![r as u64], 2);
                assert(f.push(r as u64) =~= f + seq![r as u64]);
            }
            lemma_sorted_seq_at_least(all, 2);
        }
    }
}

/// `s` with each run of equal neighbours kept once.
pub open spec fn dedup_seq(s: Seq<u64>) -> Seq<u64>
    decreases s.len(),
{
    if s.len() == 0 {
        s
    } else {
        let d = dedup_seq(s.drop_last());
        if d.len() > 0 && d.last() == s.last() {
            d
        } else {
            d.push(s.last())
        }
    }
}

/// Each divisor times `f`, when every product fits `u64`.
pub open spec fn scaled_divisors(ds: Seq<u64>, f: u64) -> Option<Seq<u64>> {
    if forall|i: int| 0 <= i < ds.len() ==> #[trigger] ds[i] * f <= u64::MAX {
        Some(Seq::new(ds.len(), |i: int| (ds[i] * f) as u64))
    } else {
        None
    }
}

/// The divisors built from prime factors: from one, each factor in turn
/// multiplies every divisor so far; kept ascending, each once.
pub open spec fn divisor_list(factors: Seq<u64>) -> Option<Seq<u64>>
    decreases factors.len(),
{
    if factors.len() == 0 {
        Some(seq![1u64])
    } else {
        match divisor_list(factors.drop_last()) {
            Some(ds) => match scaled_divisors(ds, factors.last()) {
                Some(more) => Some(dedup_seq(sorted_seq(ds + more))),
                None => None,
            },
            None => None,
        }
    }
}

/// The factor-pair search of a monic quadratic `x^2 + bx + c`: for each
/// divisor `d` of `m = |c|` with `d <= m / d`, the two sign choices whose
/// product is `c` are tried in turn (an addition and a comparison with `b`
/// each), until a pair sums to `b`. The operations, and whether it was
/// found; `None` where a pair does not fit `i64`.
pub open spec fn pair_search(ds: Seq<u64>, m: nat, b: i64, c: i64) -> Option<(Seq<Operation>, bool)>
    decreases ds.len(),
{
    if ds.len() == 0 {
        Some((Seq::empty(), false))
    } else {
        let d = ds[0] as nat;
        let other = m / d;
        if d > other || d * other != m {
            pair_search(ds.drop_first(), m, b, c)
        } else if d > i64::MAX || other > i64::MAX {
            None
        } else {
            let l1: int = d as int;
            let r1: int = if c > 0 { other as int } else { -(other as int) };
            let l2: int = -(d as int);
            let r2: int = if c > 0 { -(other as int) } else { other as int };
            let first = signed_addition_ops(l1 as i64, r1 as i64).push(Operation::Compare);
            if l1 + r1 == b {
                Some((first, true))
            } else {
                let second = first + signed_addition_ops(l2 as i64, r2 as i64).push(Operation::Compare);
                if l2 + r2 == b {
                    Some((second, true))
                } else {
                    match pair_search(ds.drop_first(), m, b, c) {
                        Some((o, f)) => Some((second + o, f)),
                        None => None,
                    }
                }
            }
        }
    }
}

/// Whether `x^2 + bx + c` is the square of `x + b/2`.
pub open spec fn is_perfect_square_trinomial(b: i64, c: i64) -> bool {
    c > 0 && b % 2 == 0 && (b / 2) * (b / 2) == c
}

/// The factoring work of a monic quadratic `x^2 + bx + c = 0`: a difference
/// of squares or a perfect square is recognised at once (one square root,
/// then the roots read off); otherwise the general method: with `c = 0` the
/// common factor `x`; else `|c|` factorized, its divisors listed and
/// counted, the factor pairs searched. Then the answer's numbers. `None`
/// where no integer pair factorizes it, or the work does not fit.
pub open spec fn quadratic_factoring_ops(b: i64, c: i64, answer: AnswerValue) -> Option<Seq<Operation>> {
    let tail = big_num_ops(answer);
    if b == 0 && c < 0 && exact_sqrt(abs_nat(c)) is Some {
        Some(
            seq![Operation::OverheadQuadratic, Operation::OverheadFactorDifferenceOfSquares] + square_root_ops(
                abs_nat(c),
            ) + seq![Operation::Transposition, Operation::Transposition] + tail,
        )
    } else if is_perfect_square_trinomial(b, c) {
        Some(
            seq![Operation::OverheadQuadratic, Operation::OverheadFactorPerfectSquare] + square_root_ops(c as nat)
                + seq![Operation::Transposition] + tail,
        )
    } else if c == 0 {
        Some(
            seq![
                Operation::OverheadQuadratic,
                Operation::OverheadFactorGeneral,
                Operation::Identity,
                Operation::Transposition,
            ] + tail,
        )
    } else {
        let m = abs_nat(c);
        let (factors, pf) = prime_factorization_ops(m);
        match divisor_list(factors) {
            Some(ds) => if ds.len() > u32::MAX {
                None
            } else {
                match pair_search(ds, m, b, c) {
                    Some((o, found)) => if found {
                        Some(
                            seq![Operation::OverheadQuadratic, Operation::OverheadFactorGeneral] + pf + seq![
                                Operation::Count { amount: ds.len() as u32 },
                            ] + o + seq![Operation::Transposition, Operation::Transposition] + tail,
                        )
                    } else {
                        None
                    },
                    None => None,
                }
            },
            None => None,
        }
    }
}

proof fn lemma_dedup_at_least(s: Seq<u64>, lo: nat)
    requires
        all_at_least(s, lo),
    ensures
        all_at_least(dedup_seq(s), lo),
    decreases s.len(),
{
    if s.len() > 0 {
        lemma_dedup_at_least(s.drop_last(), lo);
        lemma_concat_at_least(dedup_seq(s.drop_last()), seq![s.last()], lo);
        assert(dedup_seq(s.drop_last()).push(s.last()) =~= dedup_seq(s.drop_last()) + seq![s.last()]);
    }
}

fn dedup_exec(v: &Vec<u64>) -> (r: Vec<u64>)
    ensures
        r@ == dedup_seq(v@),
{
    let mut out: Vec<u64> = Vec::new();
    let mut k: usize = 0;
    proof {
        assert(v@.take(0) =~= Seq::<u64>::empty());
    }
    while k < v.len()
        invariant
            k <= v@.len(),
            out@ == dedup_seq(v@.take(k as int)),
        decreases v@.len() - k,
    {
        proof {
            assert(v@.take(k + 1).drop_last() =~= v@.take(k as int));
        }
        let x = v[k];
        if out.len() == 0 || out[out.len() - 1] != x {
            out.push(x);
        }
        k += 1;
    }
    proof {
        assert(v@.take(v@.len() as int) =~= v@);
    }
    out
}

proof fn lemma_divisor_list_none(factors: Seq<u64>, k: int)
    requires
        0 <= k <= factors.len(),
        divisor_list(factors.take(k)) is None,
    ensures
        divisor_list(factors) is None,
    decreases factors.len() - k,
{
    if k == factors.len() {
        assert(factors.take(k) =~= factors);
    } else {
        assert(factors.take(k + 1).drop_last() =~= factors.take(k));
        lemma_divisor_list_none(factors, k + 1);
    }
}

fn divisors_of_factors(factors: &Vec<u64>) -> (r: Option<Vec<u64>>)
    requires
        all_at_least(factors@, 2),
    ensures
        match r {
            Some(ds) => divisor_list(factors@) == Some(ds@) && all_at_least(ds@, 1),
            None => divisor_list(factors@) is None,
        },
{
    let mut ds: Vec<u64> = Vec::new();
    ds.push(1);
    let mut k: usize = 0;
    proof {
        assert(factors@.take(0) =~= Seq::<u64>::empty());
        assert(ds@ =~= seq![1u64]);
    }
    while k < factors.len()
        invariant
            k <= factors@.len(),
            all_at_least(factors@, 2),
            divisor_list(factors@.take(k as int)) == Some(ds@),
            all_at_least(ds@, 1),
        decreases factors@.len() - k,
    {
        let f = factors[k];
        proof {
            assert(factors@.take(k + 1).drop_last() =~= factors@.take(k as int));
            assert(factors@.take(k + 1).last() == f);
        }
        let mut combined: Vec<u64> = Vec::new();
        let mut j: usize = 0;
        while j < ds.len()
            invariant
                j <= ds@.len(),
                combined@ == ds@.take(j as int),
            decreases ds@.len() - j,
        {
            combined.push(ds[j]);
            proof {
                assert(ds@.take(j + 1) =~= ds@.take(j as int).push(ds@[j as int]));
            }
            j += 1;
        }
        proof {
            assert(ds@.take(ds@.len() as int) =~= ds@);
        }
        let mut j: usize = 0;
        while j < ds.len()
            invariant
                j <= ds@.len(),
                k < factors@.len(),
                f == factors@[k as int],
                divisor_list(factors@.take(k as int)) == Some(ds@),
                f >= 2,
                all_at_least(ds@, 1),
                combined@ == ds@ + Seq::new(j as nat, |i: int| (ds@[i] * f) as u64),
                forall|i: int| 0 <= i < j ==> #[trigger] ds@[i] * f <= u64::MAX,
            decreases ds@.len() - j,
        {
            match ds[j].checked_mul(f) {
                Some(p) => {
                    combined.push(p);
                    proof {
                        assert(combined@ =~= ds@ + Seq::new((j + 1) as nat, |i: int| (ds@[i] * f) as u64));
                    }
                },
                None => {
                    proof {
                        assert(!(ds@[j as int] * f <= u64::MAX));
                        assert(scaled_divisors(ds@, f) is None);
                        assert(factors@.take(k + 1).drop_last() =~= factors@.take(k as int));
                        assert(factors@.take(k + 1).last() == f);
                        assert(divisor_list(factors@.take(k + 1)) is None);
                        lemma_divisor_list_none(factors@, k + 1);
                    }
                    return None;
                },
            }
            j += 1;
        }
        proof {
            let more = Seq::new(ds@.len(), |i: int| (ds@[i] * f) as u64);
            assert(scaled_divisors(ds@, f) == Some(more));
            assert forall|i: int| 0 <= i < more.len() implies more[i] >= 1 by {
                assert(ds@[i] * f >= 1) by (nonlinear_arith)
                    requires
                        ds@[i] >= 1,
                        f >= 2,
                ;
            }
            lemma_concat_at_least(ds@, more, 1);
            lemma_sorted_seq_at_least(ds@ + more, 1);
            lemma_dedup_at_least(sorted_seq(ds@ + more), 1);
        }
        let sorted = sort_exec(&combined);
        ds = dedup_exec(&sorted);
        k += 1;
    }
    proof {
        assert(factors@.take(factors@.len() as int) =~= factors@);
    }
    Some(ds)
}

/// The result of a search whose first steps were `prefix`.
pub open spec fn after_prefix(prefix: Seq<Operation>, rest: Option<(Seq<Operation>, bool)>) -> Option<
    (Seq<Operation>, bool),
> {
    match rest {
        Some((o, f)) => Some((prefix + o, f)),
        None => None,
    }
}

fn factor_pair_search(ds: &Vec<u64>, m: u64, b: i64, c: i64) -> (r: Option<(Vec<Operation>, bool)>)
    requires
        all_at_least(ds@, 1),
    ensures
        match r {
            Some((o, f)) => pair_search(ds@, m as nat, b, c) == Some((o@, f)),
            None => pair_search(ds@, m as nat, b, c) is None,
        },
{
    let mut ops: Vec<Operation> = Vec::new();
    let mut found = false;
    let mut i: usize = 0;
    proof {
        assert(ds@.skip(0) =~= ds@);
        assert(Seq::<Operation>::empty() + Seq::<Operation>::empty() =~= Seq::<Operation>::empty());
    }
    while !found && i < ds.len()
        invariant
            i <= ds@.len(),
            all_at_least(ds@, 1),
            !found ==> pair_search(ds@, m as nat, b, c) == after_prefix(
                ops@,
                pair_search(ds@.skip(i as int), m as nat, b, c),
            ),
            found ==> pair_search(ds@, m as nat, b, c) == Some((ops@, true)),
        decreases ds@.len() - i, if found { 0int } else { 1int },
    {
        let d = ds[i];
        proof {
            assert(ds@.skip(i as int)[0] == d);
            assert(ds@.skip(i as int).drop_first() =~= ds@.skip(i + 1));
        }
        let other = m / d;
        if d > other || d.checked_mul(other) != Some(m) {
            i += 1;
        } else {
            if d > i64::MAX as u64 || other > i64::MAX as u64 {
                return None;
            }
            let di = d as i64;
            let oi = other as i64;
            let (l1, r1, l2, r2) = if c > 0 {
                (di, oi, -di, -oi)
            } else {
                (di, -oi, -di, oi)
            };
            let ghost before = ops@;
            extend(&mut ops, signed_addition_operations(l1, r1));
            ops.push(Operation::Compare);
            let ghost first = ops@;
            if l1.checked_add(r1) == Some(b) {
                found = true;
                proof {
                    assert(first =~= before + signed_addition_ops(l1, r1).push(Operation::Compare));
                }
            } else {
                extend(&mut ops, signed_addition_operations(l2, r2));
                ops.push(Operation::Compare);
                if l2.checked_add(r2) == Some(b) {
                    found = true;
                    proof {
                        assert(ops@ =~= before + (signed_addition_ops(l1, r1).push(Operation::Compare)
                            + signed_addition_ops(l2, r2).push(Operation::Compare)));
                    }
                } else {
                    proof {
                        let second = signed_addition_ops(l1, r1).push(Operation::Compare) + signed_addition_ops(
                            l2,
                            r2,
                        ).push(Operation::Compare);
                        assert(ops@ =~= before + second);
                        match pair_search(ds@.skip(i + 1), m as nat, b, c) {
                            Some((o, f)) => {
                                assert(before + (second + o) =~= ops@ + o);
                            },
                            None => {},
                        }
                    }
                    i += 1;
                }
            }
        }
    }
    if !found {
        proof {
            assert(ds@.skip(i as int) =~= Seq::<u64>::empty());
            assert(ops@ + Seq::<Operation>::empty() =~= ops@);
        }
    }
    Some((ops, found))
}

fn is_perfect_square_trinomial_exec(b: i64, c: i64) -> (r: bool)
    ensures
        r == is_perfect_square_trinomial(b, c),
{
    if c <= 0 || magnitude(b) % 2 != 0 {
        proof {
            if c > 0 {
                assert(b % 2 != 0) by (nonlinear_arith)
                    requires
                        abs_nat(b) % 2 != 0,
                        abs_nat(b) == if b < 0 { -(b as int) } else { b as int },
                ;
            }
        }
        return false;
    }
    let half = magnitude(b) / 2;
    proof {
        assert(b % 2 == 0) by (nonlinear_arith)
            requires
                abs_nat(b) % 2 == 0,
                abs_nat(b) == if b < 0 { -(b as int) } else { b as int },
        ;
        assert((b / 2) * (b / 2) == half * half) by (nonlinear_arith)
            requires
                b % 2 == 0,
                half == abs_nat(b) / 2,
                abs_nat(b) == if b < 0 { -(b as int) } else { b as int },
        ;
    }
    match half.checked_mul(half) {
        Some(sq) => sq == c as u64,
        None => false,
    }
}

/// The plan of factoring the monic quadratic `x^2 + bx + c = 0`, with the
/// answer's numbers at the end.
#[verifier::spinoff_prover]
#[verifier::rlimit(40)]
pub fn quadratic_factoring_plan(b: i64, c: i64, answer: &AnswerNode) -> (r: Option<OperationPlan>)
    ensures
        match r {
            Some(p) => quadratic_factoring_ops(b, c, answer@) == Some(p@),
            None => quadratic_factoring_ops(b, c, answer@) is None,
        },
{
    let mut ops = single(Operation::OverheadQuadratic);
    if b == 0 && c < 0 && exact_square_root_u128(magnitude(c) as u128).is_some() {
        ops.push(Operation::OverheadFactorDifferenceOfSquares);
        extend(&mut ops, square_root_operations(magnitude(c)));
        ops.push(Operation::Transposition);
        ops.push(Operation::Transposition);
        extend(&mut ops, big_num_operations(answer));
        proof {
            assert(ops@ =~= seq![Operation::OverheadQuadratic, Operation::OverheadFactorDifferenceOfSquares]
                + square_root_ops(abs_nat(c)) + seq![Operation::Transposition, Operation::Transposition]
                + big_num_ops(answer@));
        }
        return Some(OperationPlan::from_operations(ops));
    }
    if is_perfect_square_trinomial_exec(b, c) {
        ops.push(Operation::OverheadFactorPerfectSquare);
        extend(&mut ops, square_root_operations(c as u64));
        ops.push(Operation::Transposition);
        extend(&mut ops, big_num_operations(answer));
        proof {
            assert(ops@ =~= seq![Operation::OverheadQuadratic, Operation::OverheadFactorPerfectSquare]
                + square_root_ops(c as nat) + seq![Operation::Transposition] + big_num_ops(answer@));
        }
        return Some(OperationPlan::from_operations(ops));
    }
    ops.push(Operation::OverheadFactorGeneral);
    if c == 0 {
        ops.push(Operation::Identity);
        ops.push(Operation::Transposition);
        extend(&mut ops, big_num_operations(answer));
        proof {
            assert(ops@ =~= seq![
                Operation::OverheadQuadratic,
                Operation::OverheadFactorGeneral,
                Operation::Identity,
                Operation::Transposition,
            ] + big_num_ops(answer@));
        }
        return Some(OperationPlan::from_operations(ops));
    }
    let m = magnitude(c);
    let (factors, factor_ops) = prime_factorization_model(m);
    proof {
        lemma_prime_factors_at_least_two(m as nat);
    }
    let ghost head = ops@;
    extend(&mut ops, factor_ops);
    let ds = match divisors_of_factors(&factors) {
        Some(ds) => ds,
        None => return None,
    };
    if ds.len() > u32::MAX as usize {
        return None;
    }
    ops.push(Operation::Count { amount: ds.len() as u32 });
    let ghost counted = ops@;
    let (search, found) = match factor_pair_search(&ds, m, b, c) {
        Some(v) => v,
        None => return None,
    };
    if !found {
        return None;
    }
    extend(&mut ops, search);
    ops.push(Operation::Transposition);
    ops.push(Operation::Transposition);
    extend(&mut ops, big_num_operations(answer));
    proof {
        let (fs, pf) = prime_factorization_ops(m as nat);
        assert(counted =~= seq![Operation::OverheadQuadratic, Operation::OverheadFactorGeneral] + pf + seq![
            Operation::Count { amount: ds@.len() as u32 },
        ]);
    }
    Some(OperationPlan::from_operations(ops))
}

/// The common denominator of three coefficients: an LCM search wherever
/// the next denominator differs from what is reached so far. The common
/// denominator and the operations.
pub open spec fn lcm_of_denominators(ad: u64, bd: u64, cd: u64) -> Option<(u64, Seq<Operation>)> {
    let first: Option<Seq<Operation>> = if ad != bd {
        lcm_search_ops(ad, bd)
    } else {
        Some(Seq::empty())
    };
    match (lcm_value(ad, bd), first) {
        (Some(ab), Some(o1)) => {
            let second: Option<Seq<Operation>> = if ab != cd {
                lcm_search_ops(ab, cd)
            } else {
                Some(Seq::empty())
            };
            match (lcm_value(ab, cd), second) {
                (Some(common), Some(o2)) => Some((common, o1 + o2)),
                _ => None,
            }
        },
        _ => None,
    }
}

/// Each coefficient scaled to the common denominator (the scaling costed
/// where the common denominator is above one): the integer numerators and
/// the operations.
pub open spec fn scaled_to_common(a: (i64, i64), b: (i64, i64), c: (i64, i64), common: u64) -> Option<
    (i64, i64, i64, Seq<Operation>),
> {
    if common > i64::MAX {
        None
    } else {
        let ci = common as i64;
        match (ci.checked_div(a.1), ci.checked_div(b.1), ci.checked_div(c.1)) {
            (Some(sa), Some(sb), Some(sc)) => match (a.0.checked_mul(sa), b.0.checked_mul(sb), c.0.checked_mul(sc)) {
                (Some(xa), Some(xb), Some(xc)) => {
                    let scaling = if common > 1 {
                        multiply_or_identity_ops(a.0, sa) + multiply_or_identity_ops(b.0, sb) + multiply_or_identity_ops(
                            c.0,
                            sc,
                        )
                    } else {
                        Seq::empty()
                    };
                    Some((xa, xb, xc, scaling))
                },
                _ => None,
            },
            _ => None,
        }
    }
}

/// Clearing the denominators of `ax^2 + bx + c`: the common denominator
/// found, then each coefficient scaled to it. The integer coefficients and
/// the operations; `None` where a value does not fit.
pub open spec fn cleared_denominators(a: (i64, i64), b: (i64, i64), c: (i64, i64)) -> Option<
    (i64, i64, i64, Seq<Operation>),
> {
    match lcm_of_denominators(a.1 as u64, b.1 as u64, c.1 as u64) {
        Some((common, o)) => match scaled_to_common(a, b, c, common) {
            Some((xa, xb, xc, s)) => Some((xa, xb, xc, o + s)),
            None => None,
        },
        None => None,
    }
}

fn lcm_of_denominators_exec(ad: u64, bd: u64, cd: u64) -> (r: Option<(u64, Vec<Operation>)>)
    ensures
        match r {
            Some((common, o)) => lcm_of_denominators(ad, bd, cd) == Some((common, o@)),
            None => lcm_of_denominators(ad, bd, cd) is None,
        },
{
    let mut ops: Vec<Operation> = Vec::new();
    let ab = match lcm_u64(ad, bd) {
        Some(v) => v,
        None => return None,
    };
    if ad != bd {
        match lcm_search_operations(ad, bd) {
            Some(o) => extend(&mut ops, o),
            None => return None,
        }
    }
    let ghost o1 = ops@;
    let common = match lcm_u64(ab, cd) {
        Some(v) => v,
        None => return None,
    };
    if ab != cd {
        match lcm_search_operations(ab, cd) {
            Some(o) => extend(&mut ops, o),
            None => return None,
        }
    }
    proof {
        if ad == bd {
            assert(o1 =~= Seq::<Operation>::empty());
        }
        if ab == cd {
            assert(ops@ =~= o1 + Seq::<Operation>::empty());
        }
    }
    Some((common, ops))
}

fn scaled_to_common_exec(a: RationalCoefficient, b: RationalCoefficient, c: RationalCoefficient, common: u64) -> (r:
    Option<(i64, i64, i64, Vec<Operation>)>)
    ensures
        match r {
            Some((xa, xb, xc, o)) => scaled_to_common(a@, b@, c@, common) == Some((xa, xb, xc, o@)),
            None => scaled_to_common(a@, b@, c@, common) is None,
        },
{
    if common > i64::MAX as u64 {
        return None;
    }
    let ci = common as i64;
    let sa = match ci.checked_div(a.denominator()) {
        Some(v) => v,
        None => return None,
    };
    let sb = match ci.checked_div(b.denominator()) {
        Some(v) => v,
        None => return None,
    };
    let sc = match ci.checked_div(c.denominator()) {
        Some(v) => v,
        None => return None,
    };
    let xa = match a.numerator().checked_mul(sa) {
        Some(v) => v,
        None => return None,
    };
    let xb = match b.numerator().checked_mul(sb) {
        Some(v) => v,
        None => return None,
    };
    let xc = match c.numerator().checked_mul(sc) {
        Some(v) => v,
        None => return None,
    };
    let mut ops: Vec<Operation> = Vec::new();
    if common > 1 {
        proof {
            lemma_abs_product(a@.0, sa, xa);
            lemma_abs_product(b@.0, sb, xb);
            lemma_abs_product(c@.0, sc, xc);
        }
        extend(&mut ops, multiply_or_identity_operations(a.numerator(), sa));
        extend(&mut ops, multiply_or_identity_operations(b.numerator(), sb));
        extend(&mut ops, multiply_or_identity_operations(c.numerator(), sc));
        proof {
            assert(ops@ =~= multiply_or_identity_ops(a@.0, sa) + multiply_or_identity_ops(b@.0, sb)
                + multiply_or_identity_ops(c@.0, sc));
        }
    }
    Some((xa, xb, xc, ops))
}

fn clear_quadratic_denominators(a: RationalCoefficient, b: RationalCoefficient, c: RationalCoefficient) -> (r:
    Option<(i64, i64, i64, Vec<Operation>)>)
    ensures
        match r {
            Some((xa, xb, xc, o)) => cleared_denominators(a@, b@, c@) == Some((xa, xb, xc, o@)),
            None => cleared_denominators(a@, b@, c@) is None,
        },
{
    let (common, mut ops) = match lcm_of_denominators_exec(
        a.denominator() as u64,
        b.denominator() as u64,
        c.denominator() as u64,
    ) {
        Some(v) => v,
        None => return None,
    };
    match scaled_to_common_exec(a, b, c, common) {
        Some((xa, xb, xc, s)) => {
            extend(&mut ops, s);
            Some((xa, xb, xc, ops))
        },
        None => None,
    }
}

/// `b^2`, `ac`, `4ac`, the discriminant (when positive), its square root
/// simplified, `2a`, and the reciprocal of `2a`. The discriminant, `2a`
/// and the operations.
pub open spec fn discriminant_work(ai: i64, bi: i64, ci: i64) -> Option<(i64, i64, Seq<Operation>)> {
    match (bi.checked_mul(bi), ai.checked_mul(ci)) {
        (Some(b2), Some(ac)) => match (4i64).checked_mul(ac) {
            Some(fac) => match b2.checked_sub(fac) {
                Some(disc) => if disc <= 0 {
                    None
                } else {
                    match (2i64).checked_mul(ai) {
                        Some(two_a) => Some(
                            (
                                disc,
                                two_a,
                                multiply_or_identity_ops(bi, bi) + multiply_or_identity_ops(ai, ci)
                                    + multiply_or_identity_ops(4, ac) + signed_subtraction_ops(b2, fac)
                                    + square_root_ops(disc as nat) + multiply_or_identity_ops(2, ai) + seq![
                                    Operation::Reciprocal,
                                ],
                            ),
                        ),
                        None => None,
                    }
                },
                None => None,
            },
            None => None,
        },
        _ => None,
    }
}

fn discriminant_work_exec(ai: i64, bi: i64, ci: i64) -> (r: Option<(i64, i64, Vec<Operation>)>)
    ensures
        match r {
            Some((d, t, o)) => discriminant_work(ai, bi, ci) == Some((d, t, o@)),
            None => discriminant_work(ai, bi, ci) is None,
        },
{
    let b2 = match bi.checked_mul(bi) {
        Some(v) => v,
        None => return None,
    };
    let ac = match ai.checked_mul(ci) {
        Some(v) => v,
        None => return None,
    };
    let fac = match (4i64).checked_mul(ac) {
        Some(v) => v,
        None => return None,
    };
    let disc = match b2.checked_sub(fac) {
        Some(v) => v,
        None => return None,
    };
    if disc <= 0 {
        return None;
    }
    let two_a = match (2i64).checked_mul(ai) {
        Some(v) => v,
        None => return None,
    };
    proof {
        lemma_abs_product(bi, bi, b2);
        lemma_abs_product(ai, ci, ac);
        lemma_abs_product(4, ac, fac);
        lemma_abs_product(2, ai, two_a);
    }
    let mut ops = multiply_or_identity_operations(bi, bi);
    extend(&mut ops, multiply_or_identity_operations(ai, ci));
    extend(&mut ops, multiply_or_identity_operations(4, ac));
    extend(&mut ops, signed_subtraction_operations(b2, fac));
    extend(&mut ops, square_root_operations(disc as u64));
    extend(&mut ops, multiply_or_identity_operations(2, ai));
    ops.push(Operation::Reciprocal);
    proof {
        assert(ops@ =~= multiply_or_identity_ops(bi, bi) + multiply_or_identity_ops(ai, ci)
            + multiply_or_identity_ops(4, ac) + signed_subtraction_ops(b2, fac) + square_root_ops(disc as nat)
            + multiply_or_identity_ops(2, ai) + seq![Operation::Reciprocal]);
    }
    Some((disc, two_a, ops))
}

/// The greatest common divisor taken in the formula's simplification, and
/// its search; where `trivial`, no search and the value `known`.
pub open spec fn formula_gcd(left: nat, right: nat, trivial: bool, known: nat) -> Option<(nat, Seq<Operation>)> {
    if trivial {
        Some((known, Seq::empty()))
    } else {
        match gcd_search_ops(left, right) {
            Some(o) => Some((gcd_spec(left, right), o)),
            None => None,
        }
    }
}

fn formula_gcd_exec(left: u64, right: u64, trivial: bool, known: u64) -> (r: Option<(u64, Vec<Operation>)>)
    requires
        !trivial ==> left > 0 && right > 0,
    ensures
        match r {
            Some((g, o)) => formula_gcd(left as nat, right as nat, trivial, known as nat) == Some((g as nat, o@)),
            None => formula_gcd(left as nat, right as nat, trivial, known as nat) is None,
        },
{
    if trivial {
        return Some((known, Vec::new()));
    }
    match gcd_search_operations(left, right) {
        Some(o) => Some((gcd_u64(left, right), o)),
        None => None,
    }
}

/// The root `(-b ± k√r) / 2a` simplified: the common factor of `-b`, the
/// root's coefficient `k` and `2a` found (no search where a side is one or
/// `-b` is zero) and, where above one, divided out of each.
pub open spec fn root_simplification_work(bi: i64, disc: i64, two_a: i64) -> Option<Seq<Operation>> {
    let outside = strip_squares(disc as nat, 2, 1).0;
    if outside > i64::MAX || bi == i64::MIN {
        None
    } else {
        let sc = outside as i64;
        let constant: i64 = (-bi) as i64;
        let ca = abs_nat(constant);
        let sa = abs_nat(sc);
        let first_trivial = ca == 1 || sa == 1 || constant == 0;
        let first_known: nat = if ca == 1 || sa == 1 { 1 } else { sa };
        match formula_gcd(ca, sa, first_trivial, first_known) {
            Some((g1, gops1)) => {
                let ta = abs_nat(two_a);
                match formula_gcd(g1, ta, g1 <= 1 || ta == 1, if g1 <= 1 { 1 } else { g1 }) {
                    Some((common, gops2)) => if common > 1 && common > i64::MAX {
                        None
                    } else {
                        let k = common as i64;
                        let divisions = if common > 1 {
                            (if constant != 0 {
                                divide_or_identity_ops(constant, k)
                            } else {
                                Seq::empty()
                            }) + divide_or_identity_ops(sc, k) + divide_or_identity_ops(two_a, k)
                        } else {
                            Seq::empty()
                        };
                        Some(gops1 + gops2 + divisions)
                    },
                    None => None,
                }
            },
            None => None,
        }
    }
}

fn root_simplification_work_exec(bi: i64, disc: i64, two_a: i64) -> (r: Option<Vec<Operation>>)
    requires
        disc > 0,
        two_a != 0,
    ensures
        match r {
            Some(o) => root_simplification_work(bi, disc, two_a) == Some(o@),
            None => root_simplification_work(bi, disc, two_a) is None,
        },
{
    let (outside, _) = match square_free_sqrt_decomposition(disc as u64) {
        Some(v) => v,
        None => return None,
    };
    if outside > i64::MAX as u64 || bi == i64::MIN {
        return None;
    }
    let sc = outside as i64;
    let constant = -bi;
    let ca = magnitude(constant);
    let sa = magnitude(sc);
    let first_trivial = ca == 1 || sa == 1 || constant == 0;
    let first_known: u64 = if ca == 1 || sa == 1 { 1 } else { sa };
    let (g1, mut ops) = match formula_gcd_exec(ca, sa, first_trivial, first_known) {
        Some(v) => v,
        None => return None,
    };
    let ta = magnitude(two_a);
    let (common, gops2) = match formula_gcd_exec(g1, ta, g1 <= 1 || ta == 1, if g1 <= 1 { 1 } else { g1 }) {
        Some(v) => v,
        None => return None,
    };
    let ghost gops1 = ops@;
    extend(&mut ops, gops2);
    let ghost gops12 = ops@;
    if common > 1 {
        if common > i64::MAX as u64 {
            return None;
        }
        let k = common as i64;
        if constant != 0 {
            extend(&mut ops, divide_or_identity_operations(constant, k));
        }
        let ghost mid = ops@;
        extend(&mut ops, divide_or_identity_operations(sc, k));
        extend(&mut ops, divide_or_identity_operations(two_a, k));
        proof {
            let first: Seq<Operation> = if constant != 0 {
                divide_or_identity_ops(constant, k)
            } else {
                Seq::empty()
            };
            assert(mid =~= gops12 + first);
            assert(ops@ =~= gops12 + (first + divide_or_identity_ops(sc, k) + divide_or_identity_ops(two_a, k)));
        }
    } else {
        proof {
            assert(ops@ =~= gops12 + Seq::<Operation>::empty());
        }
    }
    Some(ops)
}

/// The quadratic-formula work on `ax^2 + bx + c = 0`: denominators
/// cleared, the discriminant work and the root simplified, then the
/// answer's numbers. `None` where `a` is zero, the discriminant is not
/// positive, or a value does not fit.
pub open spec fn quadratic_formula_ops(a: (i64, i64), b: (i64, i64), c: (i64, i64), answer: AnswerValue) -> Option<
    Seq<Operation>,
> {
    match cleared_denominators(a, b, c) {
        Some((ai, bi, ci, clear)) => if ai == 0 {
            None
        } else {
            match discriminant_work(ai, bi, ci) {
                Some((disc, two_a, w1)) => match root_simplification_work(bi, disc, two_a) {
                    Some(w2) => Some(seq![Operation::OverheadQuadratic] + clear + w1 + w2 + big_num_ops(answer)),
                    None => None,
                },
                None => None,
            }
        },
        None => None,
    }
}

/// The plan of solving `ax^2 + bx + c = 0` by the quadratic formula, with
/// the answer's numbers at the end.
pub fn quadratic_formula_coefficients_plan(
    a: RationalCoefficient,
    b: RationalCoefficient,
    c: RationalCoefficient,
    answer: &AnswerNode,
) -> (r: Option<OperationPlan>)
    ensures
        match r {
            Some(p) => quadratic_formula_ops(a@, b@, c@, answer@) == Some(p@),
            None => quadratic_formula_ops(a@, b@, c@, answer@) is None,
        },
{
    let (ai, bi, ci, clear) = match clear_quadratic_denominators(a, b, c) {
        Some(v) => v,
        None => return None,
    };
    if ai == 0 {
        return None;
    }
    let (disc, two_a, w1) = match discriminant_work_exec(ai, bi, ci) {
        Some(v) => v,
        None => return None,
    };
    proof {
        assert(two_a == 2 * ai);
    }
    let w2 = match root_simplification_work_exec(bi, disc, two_a) {
        Some(v) => v,
        None => return None,
    };
    let mut ops = single(Operation::OverheadQuadratic);
    extend(&mut ops, clear);
    extend(&mut ops, w1);
    extend(&mut ops, w2);
    extend(&mut ops, big_num_operations(answer));
    Some(OperationPlan::from_operations(ops))
}

/// The equation divided through by `a` where `a` is not one (one
/// division per nonzero coefficient), which must leave integers: the monic
/// `b` and `c` and the operations.
pub open spec fn monic_form(ai: i64, bi: i64, ci: i64) -> Option<(i64, i64, Seq<Operation>)> {
    if ai == 1 {
        Some((bi, ci, Seq::empty()))
    } else if bi.checked_rem(ai) != Some(0i64) || ci.checked_rem(ai) != Some(0i64) {
        None
    } else {
        match (bi.checked_div(ai), ci.checked_div(ai)) {
            (Some(nb), Some(nc)) => Some(
                (
                    nb,
                    nc,
                    divide_or_identity_ops(ai, ai) + (if bi != 0 {
                        divide_or_identity_ops(bi, ai)
                    } else {
                        Seq::empty()
                    }) + (if ci != 0 {
                        divide_or_identity_ops(ci, ai)
                    } else {
                        Seq::empty()
                    }),
                ),
            ),
            _ => None,
        }
    }
}

/// Solving `ax^2 + bx + c = 0` by factoring: denominators cleared, the
/// equation made monic, then the factoring of the monic quadratic. `None`
/// where `a` is zero, does not divide `b` and `c`, or the monic quadratic
/// has no factoring plan.
pub open spec fn quadratic_factoring_coefficients_ops(
    a: (i64, i64),
    b: (i64, i64),
    c: (i64, i64),
    answer: AnswerValue,
) -> Option<Seq<Operation>> {
    match cleared_denominators(a, b, c) {
        Some((ai, bi, ci, clear)) => if ai == 0 {
            None
        } else {
            match monic_form(ai, bi, ci) {
                Some((nb, nc, norm)) => match quadratic_factoring_ops(nb, nc, answer) {
                    Some(o) => Some(clear + norm + o),
                    None => None,
                },
                None => None,
            }
        },
        None => None,
    }
}

fn monic_form_exec(ai: i64, bi: i64, ci: i64) -> (r: Option<(i64, i64, Vec<Operation>)>)
    requires
        ai != 0,
        !(ai == -1 && (bi == i64::MIN || ci == i64::MIN)),
    ensures
        match r {
            Some((nb, nc, o)) => monic_form(ai, bi, ci) == Some((nb, nc, o@)),
            None => monic_form(ai, bi, ci) is None,
        },
{
    if ai == 1 {
        return Some((bi, ci, Vec::new()));
    }
    if bi.checked_rem(ai) != Some(0i64) || ci.checked_rem(ai) != Some(0i64) {
        return None;
    }
    let nb = match bi.checked_div(ai) {
        Some(v) => v,
        None => return None,
    };
    let nc = match ci.checked_div(ai) {
        Some(v) => v,
        None => return None,
    };
    let mut ops = divide_or_identity_operations(ai, ai);
    let ghost first = ops@;
    if bi != 0 {
        extend(&mut ops, divide_or_identity_operations(bi, ai));
    }
    let ghost second = ops@;
    if ci != 0 {
        extend(&mut ops, divide_or_identity_operations(ci, ai));
    }
    proof {
        let bpart: Seq<Operation> = if bi != 0 {
            divide_or_identity_ops(bi, ai)
        } else {
            Seq::empty()
        };
        let cpart: Seq<Operation> = if ci != 0 {
            divide_or_identity_ops(ci, ai)
        } else {
            Seq::empty()
        };
        assert(second =~= first + bpart);
        assert(ops@ =~= second + cpart);
    }
    Some((nb, nc, ops))
}

/// The plan of solving `ax^2 + bx + c = 0` by factoring, with the answer's
/// numbers at the end. Dividing a coefficient equal to `i64::MIN` by
/// `a = -1` overflows; such an input is left out.
pub fn quadratic_factoring_coefficients_plan(
    a: RationalCoefficient,
    b: RationalCoefficient,
    c: RationalCoefficient,
    answer: &AnswerNode,
) -> (r: Option<OperationPlan>)
    requires
        !(cleared_denominators(a@, b@, c@) matches Some((ai, bi, ci, _)) && ai == -1 && (bi == i64::MIN || ci
            == i64::MIN)),
    ensures
        match r {
            Some(p) => quadratic_factoring_coefficients_ops(a@, b@, c@, answer@) == Some(p@),
            None => quadratic_factoring_coefficients_ops(a@, b@, c@, answer@) is None,
        },
{
    let (ai, bi, ci, mut ops) = match clear_quadratic_denominators(a, b, c) {
        Some(v) => v,
        None => return None,
    };
    if ai == 0 {
        return None;
    }
    let (nb, nc, norm) = match monic_form_exec(ai, bi, ci) {
        Some(v) => v,
        None => return None,
    };
    extend(&mut ops, norm);
    match quadratic_factoring_plan(nb, nc, answer) {
        Some(plan) => extend(&mut ops, plan.into_operations()),
        None => return None,
    }
    Some(OperationPlan::from_operations(ops))
}

/// An equation `ax + by = c` scaled by `multiplier` (one long
/// multiplication per term), unchanged for a multiplier of one.
pub open spec fn scaled_equation_ops(eq: (i64, i64, i64), multiplier: u64) -> Option<((i64, i64, i64), Seq<Operation>)> {
    if multiplier == 1 {
        Some((eq, Seq::empty()))
    } else if multiplier > i64::MAX {
        None
    } else {
        let m = multiplier as i64;
        match (eq.0.checked_mul(m), eq.1.checked_mul(m), eq.2.checked_mul(m)) {
            (Some(x), Some(y), Some(z)) => Some(
                (
                    (x, y, z),
                    signed_multiplication_ops(eq.0, m) + signed_multiplication_ops(eq.1, m) + signed_multiplication_ops(
                        eq.2,
                        m,
                    ),
                ),
            ),
            _ => None,
        }
    }
}

fn scaled_equation_operations(eq: (i64, i64, i64), multiplier: u64) -> (r: Option<((i64, i64, i64), Vec<Operation>)>)
    ensures
        match r {
            Some((v, o)) => scaled_equation_ops(eq, multiplier) == Some((v, o@)),
            None => scaled_equation_ops(eq, multiplier) is None,
        },
{
    if multiplier == 1 {
        return Some((eq, Vec::new()));
    }
    if multiplier > i64::MAX as u64 {
        return None;
    }
    let m = multiplier as i64;
    let x = match eq.0.checked_mul(m) {
        Some(v) => v,
        None => return None,
    };
    let y = match eq.1.checked_mul(m) {
        Some(v) => v,
        None => return None,
    };
    let z = match eq.2.checked_mul(m) {
        Some(v) => v,
        None => return None,
    };
    proof {
        lemma_abs_product(eq.0, m, x);
        lemma_abs_product(eq.1, m, y);
        lemma_abs_product(eq.2, m, z);
    }
    let mut ops = signed_multiplication_operations(eq.0, m);
    extend(&mut ops, signed_multiplication_operations(eq.1, m));
    extend(&mut ops, signed_multiplication_operations(eq.2, m));
    Some(((x, y, z), ops))
}

/// Two equation terms added, or subtracted, with the column work.
pub open spec fn combined_terms(left: i64, right: i64, subtract: bool) -> Option<(i64, Seq<Operation>)> {
    if subtract {
        match left.checked_sub(right) {
            Some(v) => Some((v, signed_subtraction_ops(left, right))),
            None => None,
        }
    } else {
        match left.checked_add(right) {
            Some(v) => Some((v, signed_addition_ops(left, right))),
            None => None,
        }
    }
}

fn combine_equation_terms(left: i64, right: i64, subtract: bool) -> (r: Option<(i64, Vec<Operation>)>)
    ensures
        match r {
            Some((v, o)) => combined_terms(left, right, subtract) == Some((v, o@)),
            None => combined_terms(left, right, subtract) is None,
        },
{
    if subtract {
        match left.checked_sub(right) {
            Some(v) => Some((v, signed_subtraction_operations(left, right))),
            None => None,
        }
    } else {
        match left.checked_add(right) {
            Some(v) => Some((v, signed_addition_operations(left, right))),
            None => None,
        }
    }
}

/// Substituting a known value into `u·unknown + k·known = c` and solving
/// for the unknown: `k·known`, `c - k·known`, then the division by `u`.
pub open spec fn substitution_ops(unknown: i64, known: i64, constant: i64, value: i64) -> Option<Seq<Operation>> {
    if unknown == 0 {
        None
    } else {
        match known.checked_mul(value) {
            Some(product) => match constant.checked_sub(product) {
                Some(rhs) => Some(
                    multiply_or_identity_ops(known, value) + signed_subtraction_ops(constant, product)
                        + divide_or_identity_ops(rhs, unknown),
                ),
                None => None,
            },
            None => None,
        }
    }
}

fn substitution_operations(unknown: i64, known: i64, constant: i64, value: i64) -> (r: Option<Vec<Operation>>)
    ensures
        match r {
            Some(o) => substitution_ops(unknown, known, constant, value) == Some(o@),
            None => substitution_ops(unknown, known, constant, value) is None,
        },
{
    if unknown == 0 {
        return None;
    }
    let product = match known.checked_mul(value) {
        Some(v) => v,
        None => return None,
    };
    let rhs = match constant.checked_sub(product) {
        Some(v) => v,
        None => return None,
    };
    proof {
        lemma_abs_product(known, value, product);
    }
    let mut ops = multiply_or_identity_operations(known, value);
    extend(&mut ops, signed_subtraction_operations(constant, product));
    extend(&mut ops, divide_or_identity_operations(rhs, unknown));
    Some(ops)
}

pub open spec fn sign_of(v: i64) -> int {
    if v > 0 {
        1
    } else if v < 0 {
        -1
    } else {
        0
    }
}

/// The rows of the system `ax + by = c`, `dx + ey = f` after scaling them
/// to a common coefficient of the eliminated unknown, and the work so far:
/// the system overhead, the LCM search where the magnitudes differ, and the
/// scaling.
pub open spec fn elimination_rows(a: i64, b: i64, c: i64, d: i64, e: i64, f: i64, eliminate_x: bool) -> Option<
    ((i64, i64, i64), (i64, i64, i64), Seq<Operation>),
> {
    let (fe, se) = if eliminate_x {
        (a, d)
    } else {
        (b, e)
    };
    if fe == 0 || se == 0 {
        None
    } else {
        let fa = abs_nat(fe) as u64;
        let sa = abs_nat(se) as u64;
        match lcm_value(fa, sa) {
            Some(target) => {
                let search: Option<Seq<Operation>> = if fa != sa {
                    lcm_search_ops(fa, sa)
                } else {
                    Some(Seq::empty())
                };
                match search {
                    Some(so) => match (
                        scaled_equation_ops((a, b, c), target / fa),
                        scaled_equation_ops((d, e, f), target / sa),
                    ) {
                        (Some((r1, o1)), Some((r2, o2))) => Some(
                            (r1, r2, seq![Operation::OverheadEqSystem] + so + o1 + o2),
                        ),
                        _ => None,
                    },
                    None => None,
                }
            },
            None => None,
        }
    }
}

/// The scaled rows combined (subtracted where the eliminated coefficients
/// share a sign, added otherwise) and the remaining unknown found by one
/// division. The operations.
pub open spec fn elimination_solve(r1: (i64, i64, i64), r2: (i64, i64, i64), eliminate_x: bool) -> Option<Seq<Operation>> {
    let (e1, e2, k1, k2) = if eliminate_x {
        (r1.0, r2.0, r1.1, r2.1)
    } else {
        (r1.1, r2.1, r1.0, r2.0)
    };
    let subtract = sign_of(e1) == sign_of(e2);
    match (combined_terms(e1, e2, subtract), combined_terms(k1, k2, subtract), combined_terms(r1.2, r2.2, subtract)) {
        (Some((_, eo)), Some((coefficient, ko)), Some((constant, co))) => if coefficient == 0 {
            None
        } else {
            Some(eo + ko + co + divide_or_identity_ops(constant, coefficient))
        },
        _ => None,
    }
}

/// Solving `ax + by = c`, `dx + ey = f` by eliminating `x` (or `y`): the
/// rows scaled to a common coefficient, combined, the remaining unknown
/// found, then the eliminated one by substituting back into the first
/// equation or, where `prefer_first_substitution` is false, the second
/// (both substitutions must be possible). `None` where a coefficient to
/// eliminate is zero, the combined coefficient is zero, or a value does not
/// fit `i64`.
pub open spec fn simultaneous_elimination_ops(
    a: i64,
    b: i64,
    c: i64,
    d: i64,
    e: i64,
    f: i64,
    eliminate_x: bool,
    x: i64,
    y: i64,
    prefer_first_substitution: bool,
) -> Option<Seq<Operation>> {
    match elimination_rows(a, b, c, d, e, f, eliminate_x) {
        Some((r1, r2, head)) => match elimination_solve(r1, r2, eliminate_x) {
            Some(solve) => {
                let (s1, s2) = if eliminate_x {
                    (substitution_ops(a, b, c, y), substitution_ops(d, e, f, y))
                } else {
                    (substitution_ops(b, a, c, x), substitution_ops(e, d, f, x))
                };
                match (s1, s2) {
                    (Some(o1), Some(o2)) => Some(head + solve + if prefer_first_substitution {
                        o1
                    } else {
                        o2
                    }),
                    _ => None,
                }
            },
            None => None,
        },
        None => None,
    }
}

fn elimination_rows_exec(a: i64, b: i64, c: i64, d: i64, e: i64, f: i64, eliminate_x: bool) -> (r: Option<
    ((i64, i64, i64), (i64, i64, i64), Vec<Operation>),
>)
    ensures
        match r {
            Some((r1, r2, o)) => elimination_rows(a, b, c, d, e, f, eliminate_x) == Some((r1, r2, o@)),
            None => elimination_rows(a, b, c, d, e, f, eliminate_x) is None,
        },
{
    let (fe, se) = if eliminate_x {
        (a, d)
    } else {
        (b, e)
    };
    if fe == 0 || se == 0 {
        return None;
    }
    let fa = magnitude(fe);
    let sa = magnitude(se);
    let target = match lcm_u64(fa, sa) {
        Some(v) => v,
        None => return None,
    };
    let mut ops = single(Operation::OverheadEqSystem);
    if fa != sa {
        match lcm_search_operations(fa, sa) {
            Some(o) => extend(&mut ops, o),
            None => return None,
        }
    }
    let ghost head = ops@;
    let (r1, o1) = match scaled_equation_operations((a, b, c), target / fa) {
        Some(v) => v,
        None => return None,
    };
    let (r2, o2) = match scaled_equation_operations((d, e, f), target / sa) {
        Some(v) => v,
        None => return None,
    };
    extend(&mut ops, o1);
    extend(&mut ops, o2);
    proof {
        if fa == sa {
            assert(head =~= seq![Operation::OverheadEqSystem] + Seq::<Operation>::empty());
        }
    }
    Some((r1, r2, ops))
}

fn elimination_solve_exec(r1: (i64, i64, i64), r2: (i64, i64, i64), eliminate_x: bool) -> (r: Option<Vec<Operation>>)
    ensures
        match r {
            Some(o) => elimination_solve(r1, r2, eliminate_x) == Some(o@),
            None => elimination_solve(r1, r2, eliminate_x) is None,
        },
{
    let (e1, e2, k1, k2) = if eliminate_x {
        (r1.0, r2.0, r1.1, r2.1)
    } else {
        (r1.1, r2.1, r1.0, r2.0)
    };
    let s1: i8 = if e1 > 0 { 1 } else if e1 < 0 { -1 } else { 0 };
    let s2: i8 = if e2 > 0 { 1 } else if e2 < 0 { -1 } else { 0 };
    let subtract = s1 == s2;
    let (_, mut ops) = match combine_equation_terms(e1, e2, subtract) {
        Some(v) => v,
        None => return None,
    };
    let (coefficient, ko) = match combine_equation_terms(k1, k2, subtract) {
        Some(v) => v,
        None => return None,
    };
    let (constant, co) = match combine_equation_terms(r1.2, r2.2, subtract) {
        Some(v) => v,
        None => return None,
    };
    if coefficient == 0 {
        return None;
    }
    extend(&mut ops, ko);
    extend(&mut ops, co);
    extend(&mut ops, divide_or_identity_operations(constant, coefficient));
    Some(ops)
}

/// The operations of solving `ax + by = c`, `dx + ey = f` (with solution
/// `(x, y)`) by eliminating `x` or `y`; `prefer_first_substitution` picks
/// the equation that the other unknown is substituted back into (the
/// caller compares the two by weighted effort).
pub fn simultaneous_elimination_strategy_operations(
    a: i64,
    b: i64,
    c: i64,
    d: i64,
    e: i64,
    f: i64,
    eliminate_x: bool,
    x: i64,
    y: i64,
    prefer_first_substitution: bool,
) -> (r: Option<Vec<Operation>>)
    ensures
        match r {
            Some(o) => simultaneous_elimination_ops(a, b, c, d, e, f, eliminate_x, x, y, prefer_first_substitution)
                == Some(o@),
            None => simultaneous_elimination_ops(a, b, c, d, e, f, eliminate_x, x, y, prefer_first_substitution) is None,
        },
{
    let (r1, r2, mut ops) = match elimination_rows_exec(a, b, c, d, e, f, eliminate_x) {
        Some(v) => v,
        None => return None,
    };
    match elimination_solve_exec(r1, r2, eliminate_x) {
        Some(o) => extend(&mut ops, o),
        None => return None,
    }
    let (s1, s2) = if eliminate_x {
        (substitution_operations(a, b, c, y), substitution_operations(d, e, f, y))
    } else {
        (substitution_operations(b, a, c, x), substitution_operations(e, d, f, x))
    };
    let (o1, o2) = match (s1, s2) {
        (Some(o1), Some(o2)) => (o1, o2),
        _ => return None,
    };
    if prefer_first_substitution {
        extend(&mut ops, o1);
    } else {
        extend(&mut ops, o2);
    }
    Some(ops)
}

/// The coefficient of the isolated unknown, of the other unknown, and the
/// constant, in the equation chosen for isolation.
pub open spec fn isolation_parts(eq: (i64, i64, i64), isolate_x: bool) -> (i64, i64, i64) {
    if isolate_x {
        (eq.0, eq.1, eq.2)
    } else {
        (eq.1, eq.0, eq.2)
    }
}

/// Dividing `i64::MIN` by `-1` overflows: the remainder tests of isolating
/// an unknown with coefficient `-1` against such a coefficient panic.
pub open spec fn isolation_overflows(eq: (i64, i64, i64), isolate_x: bool) -> bool {
    let (ic, oic, ir) = isolation_parts(eq, isolate_x);
    ic == -1 && (oic == i64::MIN || ir == i64::MIN)
}

/// The checks and work after isolating: `isolated = slope·other + intercept`
/// substituted into the other equation, the other unknown found, then the
/// isolated one computed; `None` where the substitution does not give the
/// answer `(x, y)`.
pub open spec fn substitution_tail(
    slope: i64,
    intercept: i64,
    other: (i64, i64, i64),
    isolate_x: bool,
    x: i64,
    y: i64,
) -> Option<Seq<Operation>> {
    let (osc, orc, orhs) = isolation_parts(other, isolate_x);
    let remaining = if isolate_x { y } else { x };
    let isolated_value = if isolate_x { x } else { y };
    match osc.checked_mul(slope) {
        Some(pc) => match pc.checked_add(orc) {
            Some(cc) => if cc == 0 {
                None
            } else {
                match osc.checked_mul(intercept) {
                    Some(pk) => match orhs.checked_sub(pk) {
                        Some(crhs) => match (cc.checked_mul(remaining), slope.checked_mul(remaining)) {
                            (Some(p1), Some(p2)) => match p2.checked_add(intercept) {
                                Some(v) => if p1 != crhs || v != isolated_value {
                                    None
                                } else {
                                    Some(
                                        multiply_or_identity_ops(osc, slope) + multiply_or_identity_ops(osc, intercept)
                                            + signed_addition_ops(pc, orc) + signed_subtraction_ops(orhs, pk)
                                            + divide_or_identity_ops(crhs, cc) + multiply_or_identity_ops(
                                            slope,
                                            remaining,
                                        ) + signed_addition_ops(p2, intercept),
                                    )
                                },
                                None => None,
                            },
                            _ => None,
                        },
                        None => None,
                    },
                    None => None,
                }
            },
            None => None,
        },
        None => None,
    }
}

/// Dividing the equation through by the isolated coefficient where it is
/// not one in magnitude: one division per nonzero term.
pub open spec fn isolation_divisions(ic: i64, oic: i64, ir: i64) -> Seq<Operation> {
    if abs_nat(ic) != 1 {
        (if ic != 0 {
            divide_or_identity_ops(ic, ic)
        } else {
            Seq::empty()
        }) + (if oic != 0 {
            divide_or_identity_ops(oic, ic)
        } else {
            Seq::empty()
        }) + (if ir != 0 {
            divide_or_identity_ops(ir, ic)
        } else {
            Seq::empty()
        })
    } else {
        Seq::empty()
    }
}

fn isolation_divisions_exec(ic: i64, oic: i64, ir: i64) -> (r: Vec<Operation>)
    requires
        ic != 0,
    ensures
        r@ == isolation_divisions(ic, oic, ir),
{
    let mut ops: Vec<Operation> = Vec::new();
    if magnitude(ic) != 1 {
        extend(&mut ops, divide_or_identity_operations(ic, ic));
        let ghost first = ops@;
        if oic != 0 {
            extend(&mut ops, divide_or_identity_operations(oic, ic));
        }
        let ghost second = ops@;
        if ir != 0 {
            extend(&mut ops, divide_or_identity_operations(ir, ic));
        }
        proof {
            let p2: Seq<Operation> = if oic != 0 {
                divide_or_identity_ops(oic, ic)
            } else {
                Seq::empty()
            };
            let p3: Seq<Operation> = if ir != 0 {
                divide_or_identity_ops(ir, ic)
            } else {
                Seq::empty()
            };
            assert(second =~= first + p2);
            assert(ops@ =~= divide_or_identity_ops(ic, ic) + p2 + p3);
        }
    }
    ops
}

/// One unknown isolated in one equation (dividing through by its
/// coefficient where that is not one in magnitude, one division per
/// nonzero term), then substituted into the other equation. `None` where
/// the coefficient is zero or does not divide the equation, or the
/// substitution does not give `(x, y)`.
pub open spec fn substitution_candidate_ops(
    isolated: (i64, i64, i64),
    other: (i64, i64, i64),
    isolate_x: bool,
    x: i64,
    y: i64,
) -> Option<Seq<Operation>> {
    let (ic, oic, ir) = isolation_parts(isolated, isolate_x);
    if ic == 0 || oic.checked_rem(ic) != Some(0i64) || ir.checked_rem(ic) != Some(0i64) || oic == i64::MIN {
        None
    } else {
        match ((-oic) as i64).checked_div(ic) {
            Some(slope) => match ir.checked_div(ic) {
                Some(intercept) => match substitution_tail(slope, intercept, other, isolate_x, x, y) {
                    Some(tail) => Some(seq![Operation::OverheadEqSystem] + isolation_divisions(ic, oic, ir) + tail),
                    None => None,
                },
                None => None,
            },
            None => None,
        }
    }
}

fn substitution_tail_exec(slope: i64, intercept: i64, other: (i64, i64, i64), isolate_x: bool, x: i64, y: i64) -> (r:
    Option<Vec<Operation>>)
    ensures
        match r {
            Some(o) => substitution_tail(slope, intercept, other, isolate_x, x, y) == Some(o@),
            None => substitution_tail(slope, intercept, other, isolate_x, x, y) is None,
        },
{
    let (osc, orc, orhs) = if isolate_x {
        (other.0, other.1, other.2)
    } else {
        (other.1, other.0, other.2)
    };
    let remaining = if isolate_x { y } else { x };
    let isolated_value = if isolate_x { x } else { y };
    let pc = match osc.checked_mul(slope) {
        Some(v) => v,
        None => return None,
    };
    let cc = match pc.checked_add(orc) {
        Some(v) => v,
        None => return None,
    };
    if cc == 0 {
        return None;
    }
    let pk = match osc.checked_mul(intercept) {
        Some(v) => v,
        None => return None,
    };
    let crhs = match orhs.checked_sub(pk) {
        Some(v) => v,
        None => return None,
    };
    let p1 = match cc.checked_mul(remaining) {
        Some(v) => v,
        None => return None,
    };
    let p2 = match slope.checked_mul(remaining) {
        Some(v) => v,
        None => return None,
    };
    let v = match p2.checked_add(intercept) {
        Some(v) => v,
        None => return None,
    };
    if p1 != crhs || v != isolated_value {
        return None;
    }
    proof {
        lemma_abs_product(osc, slope, pc);
        lemma_abs_product(osc, intercept, pk);
        lemma_abs_product(slope, remaining, p2);
    }
    let mut ops = multiply_or_identity_operations(osc, slope);
    extend(&mut ops, multiply_or_identity_operations(osc, intercept));
    extend(&mut ops, signed_addition_operations(pc, orc));
    extend(&mut ops, signed_subtraction_operations(orhs, pk));
    extend(&mut ops, divide_or_identity_operations(crhs, cc));
    extend(&mut ops, multiply_or_identity_operations(slope, remaining));
    extend(&mut ops, signed_addition_operations(p2, intercept));
    Some(ops)
}

/// The operations of isolating one unknown in `isolated` and substituting
/// into `other`, for a system with solution `(x, y)`.
pub fn substitution_candidate_operations(
    isolated: (i64, i64, i64),
    other: (i64, i64, i64),
    isolate_x: bool,
    x: i64,
    y: i64,
) -> (r: Option<Vec<Operation>>)
    requires
        !isolation_overflows(isolated, isolate_x),
    ensures
        match r {
            Some(o) => substitution_candidate_ops(isolated, other, isolate_x, x, y) == Some(o@),
            None => substitution_candidate_ops(isolated, other, isolate_x, x, y) is None,
        },
{
    let (ic, oic, ir) = if isolate_x {
        (isolated.0, isolated.1, isolated.2)
    } else {
        (isolated.1, isolated.0, isolated.2)
    };
    if ic == 0 || oic.checked_rem(ic) != Some(0i64) || ir.checked_rem(ic) != Some(0i64) {
        return None;
    }
    if oic == i64::MIN {
        return None;
    }
    let slope = match (-oic).checked_div(ic) {
        Some(v) => v,
        None => return None,
    };
    let intercept = match ir.checked_div(ic) {
        Some(v) => v,
        None => return None,
    };
    let tail = match substitution_tail_exec(slope, intercept, other, isolate_x, x, y) {
        Some(t) => t,
        None => return None,
    };
    let mut ops = single(Operation::OverheadEqSystem);
    extend(&mut ops, isolation_divisions_exec(ic, oic, ir));
    extend(&mut ops, tail);
    Some(ops)
}

/// How a system of two linear equations is solved. The weighted effort of
/// each choice is a floating-point sum, so the caller, which compares those,
/// names the choice: elimination of `x` or of `y` (both must be possible,
/// each substituting back into the equation its flag prefers), or
/// substitution by isolating `x` or `y` in the first or second equation.
#[derive(Clone, Copy, Debug, PartialEq, Eq, Structural)]
pub enum SimultaneousStrategy {
    Elimination { eliminate_x: bool, x_prefers_first: bool, y_prefers_first: bool },
    Substitution { isolate_in_first: bool, isolate_x: bool },
}

/// The answer as an ordered pair of integers.
pub open spec fn ordered_integer_pair(answer: AnswerValue) -> Option<(i64, i64)> {
    match answer {
        AnswerValue::Tuple(vs) => if vs.len() == 2 && vs[0] is Integer && vs[1] is Integer {
            Some((vs[0]->Integer_0, vs[1]->Integer_0))
        } else {
            None
        },
        _ => None,
    }
}

/// A substitution would divide `i64::MIN` by `-1`.
pub open spec fn strategy_overflows(a: i64, b: i64, c: i64, d: i64, e: i64, f: i64, s: SimultaneousStrategy) -> bool {
    match s {
        SimultaneousStrategy::Substitution { isolate_in_first, isolate_x } => isolation_overflows(
            if isolate_in_first { (a, b, c) } else { (d, e, f) },
            isolate_x,
        ),
        _ => false,
    }
}

/// The work of the chosen strategy.
pub open spec fn strategy_ops(
    a: i64,
    b: i64,
    c: i64,
    d: i64,
    e: i64,
    f: i64,
    x: i64,
    y: i64,
    s: SimultaneousStrategy,
) -> Option<Seq<Operation>> {
    match s {
        SimultaneousStrategy::Elimination { eliminate_x, x_prefers_first, y_prefers_first } => match (
            simultaneous_elimination_ops(a, b, c, d, e, f, true, x, y, x_prefers_first),
            simultaneous_elimination_ops(a, b, c, d, e, f, false, x, y, y_prefers_first),
        ) {
            (Some(xo), Some(yo)) => Some(if eliminate_x { xo } else { yo }),
            _ => None,
        },
        SimultaneousStrategy::Substitution { isolate_in_first, isolate_x } => {
            let (isolated, other) = if isolate_in_first {
                ((a, b, c), (d, e, f))
            } else {
                ((d, e, f), (a, b, c))
            };
            substitution_candidate_ops(isolated, other, isolate_x, x, y)
        },
    }
}

/// The plan of solving `ax + by = c`, `dx + ey = f` (integer coefficients)
/// for the answer `(x, y)`: `None` unless the answer is a pair of integers,
/// the system has a nonzero determinant and `(x, y)` solves it; then the
/// chosen strategy's work and the answer's numbers.
pub open spec fn simultaneous_plan_ops(
    a: i64,
    b: i64,
    c: i64,
    d: i64,
    e: i64,
    f: i64,
    answer: AnswerValue,
    s: SimultaneousStrategy,
) -> Option<Seq<Operation>> {
    match ordered_integer_pair(answer) {
        Some((x, y)) => {
            let solves = a * e - b * d != 0 && a * x + b * y == c && d * x + e * y == f;
            let fits = i64::MIN <= a * e <= i64::MAX && i64::MIN <= b * d <= i64::MAX && i64::MIN <= a * e - b * d
                <= i64::MAX && i64::MIN <= a * x <= i64::MAX && i64::MIN <= b * y <= i64::MAX && i64::MIN <= d * x
                <= i64::MAX && i64::MIN <= e * y <= i64::MAX;
            if !fits || !solves {
                None
            } else {
                match strategy_ops(a, b, c, d, e, f, x, y, s) {
                    Some(o) => Some(o + big_num_ops(answer)),
                    None => None,
                }
            }
        },
        None => None,
    }
}

fn answer_ordered_integer_pair(answer: &AnswerNode) -> (r: Option<(i64, i64)>)
    ensures
        r == ordered_integer_pair(answer@),
{
    match answer {
        AnswerNode::Tuple(values) => {
            proof {
                lemma_view_nodes(values@, values@.len());
            }
            if values.len() != 2 {
                return None;
            }
            match (&values[0], &values[1]) {
                (AnswerNode::Integer(x), AnswerNode::Integer(y)) => Some((*x, *y)),
                _ => {
                    proof {
                        assert(view_nodes(values@, 2)[0] == values@[0]@);
                        assert(view_nodes(values@, 2)[1] == values@[1]@);
                    }
                    None
                },
            }
        },
        _ => None,
    }
}

fn checked_solution(a: i64, b: i64, c: i64, d: i64, e: i64, f: i64, x: i64, y: i64) -> (r: bool)
    ensures
        r == (i64::MIN <= a * e <= i64::MAX && i64::MIN <= b * d <= i64::MAX && i64::MIN <= a * e - b * d <= i64::MAX
            && i64::MIN <= a * x <= i64::MAX && i64::MIN <= b * y <= i64::MAX && i64::MIN <= d * x <= i64::MAX
            && i64::MIN <= e * y <= i64::MAX && a * e - b * d != 0 && a * x + b * y == c && d * x + e * y == f),
{
    let ae = match a.checked_mul(e) {
        Some(v) => v,
        None => return false,
    };
    let bd = match b.checked_mul(d) {
        Some(v) => v,
        None => return false,
    };
    let det = match ae.checked_sub(bd) {
        Some(v) => v,
        None => return false,
    };
    let ax = match a.checked_mul(x) {
        Some(v) => v,
        None => return false,
    };
    let by = match b.checked_mul(y) {
        Some(v) => v,
        None => return false,
    };
    let dx = match d.checked_mul(x) {
        Some(v) => v,
        None => return false,
    };
    let ey = match e.checked_mul(y) {
        Some(v) => v,
        None => return false,
    };
    if det == 0 {
        return false;
    }
    let (first, second) = match (ax.checked_add(by), dx.checked_add(ey)) {
        (Some(p), Some(q)) => (p, q),
        _ => {
            proof {
                assert(ax + by != c || dx + ey != f);
            }
            return false;
        },
    };
    first == c && second == f
}

/// The plan of solving a system of two linear equations with integer
/// coefficients, `ax + by = c` and `dx + ey = f`, by the chosen strategy,
/// with the answer's numbers at the end.
pub fn simultaneous_equation_plan(
    a: i64,
    b: i64,
    c: i64,
    d: i64,
    e: i64,
    f: i64,
    answer: &AnswerNode,
    strategy: SimultaneousStrategy,
) -> (r: Option<OperationPlan>)
    requires
        !strategy_overflows(a, b, c, d, e, f, strategy),
    ensures
        match r {
            Some(p) => simultaneous_plan_ops(a, b, c, d, e, f, answer@, strategy) == Some(p@),
            None => simultaneous_plan_ops(a, b, c, d, e, f, answer@, strategy) is None,
        },
{
    let (x, y) = match answer_ordered_integer_pair(answer) {
        Some(p) => p,
        None => return None,
    };
    if !checked_solution(a, b, c, d, e, f, x, y) {
        return None;
    }
    let mut ops = match strategy {
        SimultaneousStrategy::Elimination { eliminate_x, x_prefers_first, y_prefers_first } => {
            let xo = match simultaneous_elimination_strategy_operations(a, b, c, d, e, f, true, x, y, x_prefers_first) {
                Some(o) => o,
                None => return None,
            };
            let yo = match simultaneous_elimination_strategy_operations(a, b, c, d, e, f, false, x, y, y_prefers_first) {
                Some(o) => o,
                None => return None,
            };
            if eliminate_x {
                xo
            } else {
                yo
            }
        },
        SimultaneousStrategy::Substitution { isolate_in_first, isolate_x } => {
            let (isolated, other) = if isolate_in_first {
                ((a, b, c), (d, e, f))
            } else {
                ((d, e, f), (a, b, c))
            };
            match substitution_candidate_operations(isolated, other, isolate_x, x, y) {
                Some(o) => o,
                None => return None,
            }
        },
    };
    extend(&mut ops, big_num_operations(answer));
    Some(OperationPlan::from_operations(ops))
}

} // verus!
