//! Bounds placed on number literals: which integer widths a literal can
//! inhabit, and the lattice of those bounds.

use vstd::prelude::*;

use crate::ir::Symbol;

verus! {

/// Type variables that numeric widths resolve to.
#[derive(Clone, Copy, Debug, PartialEq, Eq, Structural)]
pub enum Variable {
    U8,
    U16,
    U32,
    U64,
    U128,
    I8,
    I16,
    I32,
    I64,
    I128,
    Nat,
    F32,
    F64,
    Dec,
}

/// A bound placed on a number because of its literal value.
/// e.g. `-5` cannot be unsigned, and 300 does not fit in a U8
#[derive(Clone, Copy, Debug, PartialEq, Eq, Structural)]
pub enum NumericRange {
    IntAtLeastSigned(IntLitWidth),
    IntAtLeastEitherSign(IntLitWidth),
    NumAtLeastSigned(IntLitWidth),
    NumAtLeastEitherSign(IntLitWidth),
}

#[derive(Clone, Copy, Debug, PartialEq, Eq, Structural)]
pub enum IntSignedness {
    Unsigned,
    Signed,
}

/// The integer widths an integer literal can be checked against. A literal
/// can also be promoted to a float type when it fits without losing
/// precision, so the float widths appear here with their exact-integer
/// ranges.
#[derive(Clone, Copy, Debug, PartialEq, Eq, Structural)]
pub enum IntLitWidth {
    U8,
    U16,
    U32,
    U64,
    U128,
    I8,
    I16,
    I32,
    I64,
    I128,
    Nat,
    F32,
    F64,
    Dec,
}

#[derive(Clone, Copy, Debug, PartialEq, Eq, Structural)]
pub enum FloatWidth {
    Dec,
    F32,
    F64,
}

#[derive(Clone, Copy, Debug, PartialEq, Eq, Structural)]
pub enum SignDemand {
    /// Can be signed or unsigned.
    NoDemand,
    /// Must be signed.
    Signed,
}

/// Describes a bound on the width of an integer.
#[derive(Clone, Copy, Debug, PartialEq, Eq, Structural)]
pub enum IntBound {
    /// There is no bound on the width.
    Unbounded,
    /// Must have an exact width.
    Exact(IntLitWidth),
    /// Must have a certain sign and a minimum width.
    AtLeast { sign: SignDemand, width: IntLitWidth },
}

#[derive(Clone, Copy, Debug, PartialEq, Eq, Structural)]
pub enum FloatBound {
    Unbounded,
    Exact(FloatWidth),
}

#[derive(Clone, Copy, Debug, PartialEq, Eq, Structural)]
pub enum NumBound {
    Unbounded,
    /// Must be an integer of a certain size, or any float.
    AtLeastIntOrFloat { sign: SignDemand, width: IntLitWidth },
}

/// The signedness and bit width of a width variant; float widths count the
/// bits of their exact-integer range.
pub open spec fn spec_signedness_and_width(w: IntLitWidth) -> (IntSignedness, u32) {
    match w {
        IntLitWidth::U8 => (IntSignedness::Unsigned, 8),
        IntLitWidth::U16 => (IntSignedness::Unsigned, 16),
        IntLitWidth::U32 => (IntSignedness::Unsigned, 32),
        IntLitWidth::U64 => (IntSignedness::Unsigned, 64),
        IntLitWidth::U128 => (IntSignedness::Unsigned, 128),
        IntLitWidth::I8 => (IntSignedness::Signed, 8),
        IntLitWidth::I16 => (IntSignedness::Signed, 16),
        IntLitWidth::I32 => (IntSignedness::Signed, 32),
        IntLitWidth::I64 => (IntSignedness::Signed, 64),
        IntLitWidth::I128 => (IntSignedness::Signed, 128),
        IntLitWidth::Nat => (IntSignedness::Unsigned, 64),
        IntLitWidth::F32 => (IntSignedness::Signed, 24),
        IntLitWidth::F64 => (IntSignedness::Signed, 53),
        IntLitWidth::Dec => (IntSignedness::Signed, 128),
    }
}

/// Whether `w` represents a superset of the integers that `lower_bound`
/// represents, on the side of zero given by `is_negative`.
pub open spec fn spec_is_superset(w: IntLitWidth, lower_bound: IntLitWidth, is_negative: bool) -> bool {
    let (ws, wb) = spec_signedness_and_width(w);
    let (ls, lb) = spec_signedness_and_width(lower_bound);
    if is_negative {
        match (ws, ls) {
            (IntSignedness::Signed, IntSignedness::Signed) => wb >= lb,
            // Unsigned ints can never represent negative numbers; signed
            // (non-zero width) ints always can.
            (IntSignedness::Unsigned, IntSignedness::Signed) => false,
            (IntSignedness::Signed, IntSignedness::Unsigned) => true,
            // Trivially true; both can only express 0.
            (IntSignedness::Unsigned, IntSignedness::Unsigned) => true,
        }
    } else {
        match (ws, ls) {
            (IntSignedness::Signed, IntSignedness::Signed) => wb >= lb,
            (IntSignedness::Unsigned, IntSignedness::Unsigned) => wb >= lb,
            // An unsigned int expresses twice as many positive values as
            // the signed int of the same width.
            (IntSignedness::Unsigned, IntSignedness::Signed) => wb >= lb,
            // ...so a signed width is a superset of an unsigned one only
            // when strictly wider: i16 covers u8 but not u16.
            (IntSignedness::Signed, IntSignedness::Unsigned) => wb > lb,
        }
    }
}

/// The width carried by a range.
pub open spec fn spec_range_width(r: NumericRange) -> IntLitWidth {
    match r {
        NumericRange::IntAtLeastSigned(w) => w,
        NumericRange::IntAtLeastEitherSign(w) => w,
        NumericRange::NumAtLeastSigned(w) => w,
        NumericRange::NumAtLeastEitherSign(w) => w,
    }
}

/// The sign demand a range places on its members.
pub open spec fn spec_range_demand(r: NumericRange) -> SignDemand {
    match r {
        NumericRange::IntAtLeastSigned(_) => SignDemand::Signed,
        NumericRange::IntAtLeastEitherSign(_) => SignDemand::NoDemand,
        NumericRange::NumAtLeastSigned(_) => SignDemand::Signed,
        NumericRange::NumAtLeastEitherSign(_) => SignDemand::NoDemand,
    }
}

/// Whether the integer width `width` satisfies the range `r`: the width is
/// at least the range's width, and an unsigned width is refused when the
/// range demands a signed one.
pub open spec fn spec_contains_int_width(r: NumericRange, width: IntLitWidth) -> bool {
    let (actual_signedness, actual_bits) = spec_signedness_and_width(width);
    let (_, at_least_bits) = spec_signedness_and_width(spec_range_width(r));
    if actual_signedness == IntSignedness::Unsigned && spec_range_demand(r) == SignDemand::Signed {
        false
    } else {
        actual_bits >= at_least_bits
    }
}

/// Which result `contains_symbol` owes for each symbol: the numeric type
/// symbols are checked against the range, the unconstrained numeric
/// symbols always fit, and any other symbol is not a numeric type at all.
pub open spec fn spec_contains_symbol(r: NumericRange, symbol: Symbol) -> Option<bool> {
    match symbol {
        Symbol::NumI8 => Some(spec_contains_int_width(r, IntLitWidth::I8)),
        Symbol::NumU8 => Some(spec_contains_int_width(r, IntLitWidth::U8)),
        Symbol::NumI16 => Some(spec_contains_int_width(r, IntLitWidth::I16)),
        Symbol::NumU16 => Some(spec_contains_int_width(r, IntLitWidth::U16)),
        Symbol::NumI32 => Some(spec_contains_int_width(r, IntLitWidth::I32)),
        Symbol::NumU32 => Some(spec_contains_int_width(r, IntLitWidth::U32)),
        Symbol::NumI64 => Some(spec_contains_int_width(r, IntLitWidth::I64)),
        Symbol::NumNat => Some(spec_contains_int_width(r, IntLitWidth::Nat)),
        Symbol::NumU64 => Some(spec_contains_int_width(r, IntLitWidth::U64)),
        Symbol::NumI128 => Some(spec_contains_int_width(r, IntLitWidth::I128)),
        Symbol::NumU128 => Some(spec_contains_int_width(r, IntLitWidth::U128)),
        // Float widths are currently not checked against the range.
        Symbol::NumDec => Some(true),
        Symbol::NumF32 => Some(true),
        Symbol::NumF64 => Some(true),
        // These satisfy any range that they are given.
        Symbol::NumNum => Some(true),
        Symbol::NumInt => Some(true),
        Symbol::NumFrac => Some(true),
        _ => None,
    }
}

impl NumericRange {
    /// Whether the numeric type named by `symbol` satisfies this range, or
    /// `None` when the symbol does not name a numeric type.
    pub fn contains_symbol(&self, symbol: Symbol) -> (r: Option<bool>)
        ensures
            r == spec_contains_symbol(*self, symbol),
    {
        let contains = match symbol {
            Symbol::NumI8 => self.contains_int_width(IntLitWidth::I8),
            Symbol::NumU8 => self.contains_int_width(IntLitWidth::U8),
            Symbol::NumI16 => self.contains_int_width(IntLitWidth::I16),
            Symbol::NumU16 => self.contains_int_width(IntLitWidth::U16),
            Symbol::NumI32 => self.contains_int_width(IntLitWidth::I32),
            Symbol::NumU32 => self.contains_int_width(IntLitWidth::U32),
            Symbol::NumI64 => self.contains_int_width(IntLitWidth::I64),
            Symbol::NumNat => self.contains_int_width(IntLitWidth::Nat),
            Symbol::NumU64 => self.contains_int_width(IntLitWidth::U64),
            Symbol::NumI128 => self.contains_int_width(IntLitWidth::I128),
            Symbol::NumU128 => self.contains_int_width(IntLitWidth::U128),

            Symbol::NumDec => self.contains_float_width(FloatWidth::Dec),
            Symbol::NumF32 => self.contains_float_width(FloatWidth::F32),
            Symbol::NumF64 => self.contains_float_width(FloatWidth::F64),

            Symbol::NumNum | Symbol::NumInt | Symbol::NumFrac => {
                // these satisfy any range that they are given
                true
            }

            _ => {
                return None;
            }
        };

        Some(contains)
    }

    /// Float widths are currently not checked against the range.
    pub fn contains_float_width(&self, _width: FloatWidth) -> (r: bool)
        ensures
            r == true,
    {
        true
    }

    pub fn contains_int_width(&self, width: IntLitWidth) -> (r: bool)
        ensures
            r == spec_contains_int_width(*self, width),
    {
        let at_least_width = self.width();
        let range_signedness = match self {
            NumericRange::IntAtLeastSigned(_) => SignDemand::Signed,
            NumericRange::IntAtLeastEitherSign(_) => SignDemand::NoDemand,
            NumericRange::NumAtLeastSigned(_) => SignDemand::Signed,
            NumericRange::NumAtLeastEitherSign(_) => SignDemand::NoDemand,
        };

        let (actual_signedness, actual_bits) = width.signedness_and_width();

        if actual_signedness == IntSignedness::Unsigned && range_signedness == SignDemand::Signed {
            return false;
        }

        let (_, at_least_bits) = at_least_width.signedness_and_width();
        actual_bits >= at_least_bits
    }

    pub fn width(&self) -> (w: IntLitWidth)
        ensures
            w == spec_range_width(*self),
    {
        match self {
            NumericRange::IntAtLeastSigned(w) => *w,
            NumericRange::IntAtLeastEitherSign(w) => *w,
            NumericRange::NumAtLeastSigned(w) => *w,
            NumericRange::NumAtLeastEitherSign(w) => *w,
        }
    }
}

/// The variable a width resolves to.
pub open spec fn spec_int_lit_width_to_variable(w: IntLitWidth) -> Variable {
    match w {
        IntLitWidth::U8 => Variable::U8,
        IntLitWidth::U16 => Variable::U16,
        IntLitWidth::U32 => Variable::U32,
        IntLitWidth::U64 => Variable::U64,
        IntLitWidth::U128 => Variable::U128,
        IntLitWidth::I8 => Variable::I8,
        IntLitWidth::I16 => Variable::I16,
        IntLitWidth::I32 => Variable::I32,
        IntLitWidth::I64 => Variable::I64,
        IntLitWidth::I128 => Variable::I128,
        IntLitWidth::Nat => Variable::Nat,
        IntLitWidth::F32 => Variable::F32,
        IntLitWidth::F64 => Variable::F64,
        IntLitWidth::Dec => Variable::Dec,
    }
}

/// The variable a float width resolves to.
pub open spec fn spec_float_width_to_variable(w: FloatWidth) -> Variable {
    match w {
        FloatWidth::Dec => Variable::Dec,
        FloatWidth::F32 => Variable::F32,
        FloatWidth::F64 => Variable::F64,
    }
}

/// All numeric variables, narrowest range first; the last three entries
/// are the float promotions.
pub open spec fn spec_all_variables() -> Seq<Variable> {
    seq![
        Variable::I8,
        Variable::U8,
        Variable::I16,
        Variable::U16,
        Variable::F32,
        Variable::I32,
        Variable::U32,
        Variable::F64,
        Variable::I64,
        Variable::Nat,
        Variable::U64,
        Variable::I128,
        Variable::Dec,
        Variable::U128,
    ]
}

/// The signed numeric variables, narrowest range first; the last three
/// entries are the float promotions.
pub open spec fn spec_signed_variables() -> Seq<Variable> {
    seq![
        Variable::I8,
        Variable::I16,
        Variable::F32,
        Variable::I32,
        Variable::F64,
        Variable::I64,
        Variable::I128,
        Variable::Dec,
    ]
}

/// The position of a signed width's variable in the signed table, for the
/// widths that appear there.
pub open spec fn spec_signed_start(w: IntLitWidth) -> int {
    match w {
        IntLitWidth::I8 => 0,
        IntLitWidth::I16 => 1,
        IntLitWidth::F32 => 2,
        IntLitWidth::I32 => 3,
        IntLitWidth::F64 => 4,
        IntLitWidth::I64 => 5,
        IntLitWidth::I128 => 6,
        IntLitWidth::Dec => 7,
        _ => -1,
    }
}

/// Whether a width's variable appears in the signed table.
pub open spec fn spec_in_signed_table(w: IntLitWidth) -> bool {
    spec_signed_start(w) >= 0
}

/// The ranges whose `variable_slice` is well defined: the range's width
/// must appear in its table, no later than where the slice ends.
pub open spec fn spec_variable_slice_defined(r: NumericRange) -> bool {
    match r {
        NumericRange::IntAtLeastSigned(w) => spec_in_signed_table(w) && spec_signed_start(w)
            <= spec_signed_variables().len() - 3,
        NumericRange::IntAtLeastEitherSign(w) => spec_all_start(w) <= spec_all_variables().len()
            - 3,
        NumericRange::NumAtLeastSigned(w) => spec_in_signed_table(w),
        NumericRange::NumAtLeastEitherSign(_) => true,
    }
}

/// The position of a width's variable in the full table.
pub open spec fn spec_all_start(w: IntLitWidth) -> int {
    match w {
        IntLitWidth::I8 => 0,
        IntLitWidth::U8 => 1,
        IntLitWidth::I16 => 2,
        IntLitWidth::U16 => 3,
        IntLitWidth::F32 => 4,
        IntLitWidth::I32 => 5,
        IntLitWidth::U32 => 6,
        IntLitWidth::F64 => 7,
        IntLitWidth::I64 => 8,
        IntLitWidth::Nat => 9,
        IntLitWidth::U64 => 10,
        IntLitWidth::I128 => 11,
        IntLitWidth::Dec => 12,
        IntLitWidth::U128 => 13,
    }
}

impl NumericRange {
    /// Returns the intersection of `self` and `other`, i.e. the greatest lower bound of both, or
    /// `None` if there is no common lower bound.
    pub fn intersection(&self, other: &Self) -> (r: Option<Self>)
        ensures
            r == spec_intersection(*self, *other),
    {
        let left = self.width();
        let right = other.width();
        let use_signed_int = matches!(
            (self, other),
            (NumericRange::IntAtLeastSigned(_), _)
                | (_, NumericRange::IntAtLeastSigned(_))
                | (NumericRange::NumAtLeastSigned(_), NumericRange::IntAtLeastEitherSign(_))
                | (NumericRange::IntAtLeastEitherSign(_), NumericRange::NumAtLeastSigned(_))
        );
        let use_signed_num = !use_signed_int
            && matches!(
                (self, other),
                (
                    NumericRange::NumAtLeastSigned(_),
                    NumericRange::NumAtLeastSigned(_) | NumericRange::NumAtLeastEitherSign(_),
                ) | (NumericRange::NumAtLeastEitherSign(_), NumericRange::NumAtLeastSigned(_))
            );
        let use_num = !use_signed_int
            && !use_signed_num
            && matches!(
                (self, other),
                (NumericRange::NumAtLeastEitherSign(_), NumericRange::NumAtLeastEitherSign(_))
            );

        // One is a superset of the other if it is a superset on both sides
        let width = if left.is_superset(&right, true) && left.is_superset(&right, false) {
            left
        } else if right.is_superset(&left, true) && right.is_superset(&left, false) {
            right
        } else {
            return None;
        };

        if use_signed_int {
            Some(NumericRange::IntAtLeastSigned(width))
        } else if use_signed_num {
            Some(NumericRange::NumAtLeastSigned(width))
        } else if use_num {
            Some(NumericRange::NumAtLeastEitherSign(width))
        } else {
            Some(NumericRange::IntAtLeastEitherSign(width))
        }
    }

    /// The slice of variables this range admits, in the table order:
    /// starting at the range's width, and stopping short of the float
    /// promotions for the int-only ranges.
    pub fn variable_slice(&self) -> (r: Vec<Variable>)
        requires
            spec_variable_slice_defined(*self),
        ensures
            r@ == spec_variable_slice(*self),
    {
        match self {
            NumericRange::IntAtLeastSigned(width) => {
                let start = signed_position(*width);
                let table = signed_variables_vec();
                copy_range(&table, start, table.len() - 3)
            }
            NumericRange::IntAtLeastEitherSign(width) => {
                let start = all_position(*width);
                let table = all_variables_vec();
                copy_range(&table, start, table.len() - 3)
            }
            NumericRange::NumAtLeastSigned(width) => {
                let start = signed_position(*width);
                let table = signed_variables_vec();
                let end = table.len();
                copy_range(&table, start, end)
            }
            NumericRange::NumAtLeastEitherSign(width) => {
                let start = all_position(*width);
                let table = all_variables_vec();
                let end = table.len();
                copy_range(&table, start, end)
            }
        }
    }
}

/// The greatest lower bound of two ranges, when the two widths are
/// comparable: the wider width, under the most demanding of the two
/// constructors.
pub open spec fn spec_intersection(a: NumericRange, b: NumericRange) -> Option<NumericRange> {
    let left = spec_range_width(a);
    let right = spec_range_width(b);
    let use_signed_int = (a is IntAtLeastSigned || b is IntAtLeastSigned)
        || (a is NumAtLeastSigned && b is IntAtLeastEitherSign)
        || (a is IntAtLeastEitherSign && b is NumAtLeastSigned);
    let use_signed_num = !use_signed_int
        && ((a is NumAtLeastSigned && (b is NumAtLeastSigned || b is NumAtLeastEitherSign))
            || (a is NumAtLeastEitherSign && b is NumAtLeastSigned));
    let use_num = !use_signed_int && !use_signed_num
        && (a is NumAtLeastEitherSign && b is NumAtLeastEitherSign);
    if spec_is_superset(left, right, true) && spec_is_superset(left, right, false) {
        Some(spec_pick_constructor(use_signed_int, use_signed_num, use_num, left))
    } else if spec_is_superset(right, left, true) && spec_is_superset(right, left, false) {
        Some(spec_pick_constructor(use_signed_int, use_signed_num, use_num, right))
    } else {
        None
    }
}

/// The constructor the intersection keeps, by the dominance order of the
/// range kinds.
pub open spec fn spec_pick_constructor(
    use_signed_int: bool,
    use_signed_num: bool,
    use_num: bool,
    w: IntLitWidth,
) -> NumericRange {
    if use_signed_int {
        NumericRange::IntAtLeastSigned(w)
    } else if use_signed_num {
        NumericRange::NumAtLeastSigned(w)
    } else if use_num {
        NumericRange::NumAtLeastEitherSign(w)
    } else {
        NumericRange::IntAtLeastEitherSign(w)
    }
}

/// What `variable_slice` returns for each range kind.
pub open spec fn spec_variable_slice(r: NumericRange) -> Seq<Variable> {
    match r {
        NumericRange::IntAtLeastSigned(w) => spec_signed_variables().subrange(
            spec_signed_start(w),
            spec_signed_variables().len() - 3,
        ),
        NumericRange::IntAtLeastEitherSign(w) => spec_all_variables().subrange(
            spec_all_start(w),
            spec_all_variables().len() - 3,
        ),
        NumericRange::NumAtLeastSigned(w) => spec_signed_variables().subrange(
            spec_signed_start(w),
            spec_signed_variables().len() as int,
        ),
        NumericRange::NumAtLeastEitherSign(w) => spec_all_variables().subrange(
            spec_all_start(w),
            spec_all_variables().len() as int,
        ),
    }
}

/// The signed table as a vector.
fn signed_variables_vec() -> (r: Vec<Variable>)
    ensures
        r@ == spec_signed_variables(),
{
    let r = vec![
        Variable::I8,
        Variable::I16,
        Variable::F32,
        Variable::I32,
        Variable::F64,
        Variable::I64,
        Variable::I128,
        Variable::Dec,
    ];
    proof {
        assert(r@ =~= spec_signed_variables());
    }
    r
}

/// The full table as a vector.
fn all_variables_vec() -> (r: Vec<Variable>)
    ensures
        r@ == spec_all_variables(),
{
    let r = vec![
        Variable::I8,
        Variable::U8,
        Variable::I16,
        Variable::U16,
        Variable::F32,
        Variable::I32,
        Variable::U32,
        Variable::F64,
        Variable::I64,
        Variable::Nat,
        Variable::U64,
        Variable::I128,
        Variable::Dec,
        Variable::U128,
    ];
    proof {
        assert(r@ =~= spec_all_variables());
    }
    r
}

/// The position of a signed width's variable in the signed table.
fn signed_position(w: IntLitWidth) -> (r: usize)
    requires
        spec_in_signed_table(w),
    ensures
        r == spec_signed_start(w),
{
    match w {
        IntLitWidth::I8 => 0,
        IntLitWidth::I16 => 1,
        IntLitWidth::F32 => 2,
        IntLitWidth::I32 => 3,
        IntLitWidth::F64 => 4,
        IntLitWidth::I64 => 5,
        IntLitWidth::I128 => 6,
        IntLitWidth::Dec => 7,
        _ => 0,
    }
}

/// The position of a width's variable in the full table.
fn all_position(w: IntLitWidth) -> (r: usize)
    ensures
        r == spec_all_start(w),
{
    match w {
        IntLitWidth::I8 => 0,
        IntLitWidth::U8 => 1,
        IntLitWidth::I16 => 2,
        IntLitWidth::U16 => 3,
        IntLitWidth::F32 => 4,
        IntLitWidth::I32 => 5,
        IntLitWidth::U32 => 6,
        IntLitWidth::F64 => 7,
        IntLitWidth::I64 => 8,
        IntLitWidth::Nat => 9,
        IntLitWidth::U64 => 10,
        IntLitWidth::I128 => 11,
        IntLitWidth::Dec => 12,
        IntLitWidth::U128 => 13,
    }
}

/// The elements of `table` from `start` (inclusive) to `end` (exclusive).
fn copy_range(table: &Vec<Variable>, start: usize, end: usize) -> (r: Vec<Variable>)
    requires
        start <= end <= table@.len(),
    ensures
        r@ == table@.subrange(start as int, end as int),
{
    let mut r: Vec<Variable> = Vec::new();
    let mut i: usize = start;
    while i < end
        invariant
            start <= i <= end <= table@.len(),
            r@ == table@.subrange(start as int, i as int),
        decreases end - i,
    {
        r.push(table[i]);
        proof {
            assert(r@ =~= table@.subrange(start as int, i + 1 as int));
        }
        i = i + 1;
    }
    r
}

impl IntLitWidth {
    /// Returns the `IntSignedness` and bit width of a variant.
    pub fn signedness_and_width(&self) -> (r: (IntSignedness, u32))
        ensures
            r == spec_signedness_and_width(*self),
    {
        match self {
            IntLitWidth::U8 => (IntSignedness::Unsigned, 8),
            IntLitWidth::U16 => (IntSignedness::Unsigned, 16),
            IntLitWidth::U32 => (IntSignedness::Unsigned, 32),
            IntLitWidth::U64 => (IntSignedness::Unsigned, 64),
            IntLitWidth::U128 => (IntSignedness::Unsigned, 128),
            IntLitWidth::I8 => (IntSignedness::Signed, 8),
            IntLitWidth::I16 => (IntSignedness::Signed, 16),
            IntLitWidth::I32 => (IntSignedness::Signed, 32),
            IntLitWidth::I64 => (IntSignedness::Signed, 64),
            IntLitWidth::I128 => (IntSignedness::Signed, 128),
            IntLitWidth::Nat => (IntSignedness::Unsigned, 64),
            IntLitWidth::F32 => (IntSignedness::Signed, 24),
            IntLitWidth::F64 => (IntSignedness::Signed, 53),
            IntLitWidth::Dec => (IntSignedness::Signed, 128),
        }
    }

    /// The surface name of the width.
    pub fn type_str(&self) -> (r: &'static str)
        ensures
            r@ == spec_type_str(*self),
    {
        match self {
            IntLitWidth::U8 => "U8",
            IntLitWidth::U16 => "U16",
            IntLitWidth::U32 => "U32",
            IntLitWidth::U64 => "U64",
            IntLitWidth::U128 => "U128",
            IntLitWidth::I8 => "I8",
            IntLitWidth::I16 => "I16",
            IntLitWidth::I32 => "I32",
            IntLitWidth::I64 => "I64",
            IntLitWidth::I128 => "I128",
            IntLitWidth::Nat => "Nat",
            IntLitWidth::F32 => "F32",
            IntLitWidth::F64 => "F64",
            IntLitWidth::Dec => "Dec",
        }
    }

    /// The largest value the width can hold; for the float widths, the
    /// largest integer held without losing precision.
    pub fn max_value(&self) -> (r: u128)
        ensures
            r == spec_max_value(*self),
    {
        match self {
            IntLitWidth::U8 => u8::MAX as u128,
            IntLitWidth::U16 => u16::MAX as u128,
            IntLitWidth::U32 => u32::MAX as u128,
            IntLitWidth::U64 => u64::MAX as u128,
            IntLitWidth::U128 => u128::MAX,
            IntLitWidth::I8 => i8::MAX as u128,
            IntLitWidth::I16 => i16::MAX as u128,
            IntLitWidth::I32 => i32::MAX as u128,
            IntLitWidth::I64 => i64::MAX as u128,
            IntLitWidth::I128 => i128::MAX as u128,
            IntLitWidth::Nat => u64::MAX as u128,
            // Max int value without losing precision: 2^24
            IntLitWidth::F32 => 16_777_216,
            // Max int value without losing precision: 2^53
            IntLitWidth::F64 => 9_007_199_254_740_992,
            // Max int value without losing precision: I128::MAX
            IntLitWidth::Dec => i128::MAX as u128,
        }
    }

    /// The smallest value the width can hold; for the float widths, the
    /// smallest integer held without losing precision.
    pub fn min_value(&self) -> (r: i128)
        ensures
            r == spec_min_value(*self),
    {
        match self {
            IntLitWidth::U8
            | IntLitWidth::U16
            | IntLitWidth::U32
            | IntLitWidth::U64
            | IntLitWidth::U128
            | IntLitWidth::Nat => 0,
            IntLitWidth::I8 => i8::MIN as i128,
            IntLitWidth::I16 => i16::MIN as i128,
            IntLitWidth::I32 => i32::MIN as i128,
            IntLitWidth::I64 => i64::MIN as i128,
            IntLitWidth::I128 => i128::MIN,
            // Min int value without losing precision: -2^24
            IntLitWidth::F32 => -16_777_216,
            // Min int value without losing precision: -2^53
            IntLitWidth::F64 => -9_007_199_254_740_992,
            // Min int value without losing precision: I128::MIN
            IntLitWidth::Dec => i128::MIN,
        }
    }

    /// Checks if `self` represents superset of integers that `lower_bound` represents, on a particular
    /// side of the integers relative to 0.
    ///
    /// If `is_negative` is true, the negative side is checked; otherwise the positive side is checked.
    pub fn is_superset(&self, lower_bound: &Self, is_negative: bool) -> (r: bool)
        ensures
            r == spec_is_superset(*self, *lower_bound, is_negative),
    {
        let (us, ub) = self.signedness_and_width();
        let (ls, lb) = lower_bound.signedness_and_width();
        if is_negative {
            match (us, ls) {
                (IntSignedness::Signed, IntSignedness::Signed) => ub >= lb,
                // Unsigned ints can never represent negative numbers; signed (non-zero width)
                // ints always can.
                (IntSignedness::Unsigned, IntSignedness::Signed) => false,
                (IntSignedness::Signed, IntSignedness::Unsigned) => true,
                // Trivially true; both can only express 0.
                (IntSignedness::Unsigned, IntSignedness::Unsigned) => true,
            }
        } else {
            match (us, ls) {
                (IntSignedness::Signed, IntSignedness::Signed) => ub >= lb,
                (IntSignedness::Unsigned, IntSignedness::Unsigned) => ub >= lb,
                // Unsigned ints with the same bit width as their unsigned counterparts can always
                // express 2x more integers on the positive side as unsigned ints.
                (IntSignedness::Unsigned, IntSignedness::Signed) => ub >= lb,
                // ...but that means signed int widths can represent less than their unsigned
                // counterparts, so the below is true iff the bit width is strictly greater. E.g.
                // i16 is a superset of u8, but i16 is not a superset of u16.
                (IntSignedness::Signed, IntSignedness::Unsigned) => ub > lb,
            }
        }
    }
}

/// The surface name of each width.
pub open spec fn spec_type_str(w: IntLitWidth) -> Seq<char> {
    match w {
        IntLitWidth::U8 => "U8"@,
        IntLitWidth::U16 => "U16"@,
        IntLitWidth::U32 => "U32"@,
        IntLitWidth::U64 => "U64"@,
        IntLitWidth::U128 => "U128"@,
        IntLitWidth::I8 => "I8"@,
        IntLitWidth::I16 => "I16"@,
        IntLitWidth::I32 => "I32"@,
        IntLitWidth::I64 => "I64"@,
        IntLitWidth::I128 => "I128"@,
        IntLitWidth::Nat => "Nat"@,
        IntLitWidth::F32 => "F32"@,
        IntLitWidth::F64 => "F64"@,
        IntLitWidth::Dec => "Dec"@,
    }
}

/// The largest value of each width, as an unsigned count.
pub open spec fn spec_max_value(w: IntLitWidth) -> u128 {
    match w {
        IntLitWidth::U8 => 0xff,
        IntLitWidth::U16 => 0xffff,
        IntLitWidth::U32 => 0xffff_ffff,
        IntLitWidth::U64 => 0xffff_ffff_ffff_ffff,
        IntLitWidth::U128 => 0xffff_ffff_ffff_ffff_ffff_ffff_ffff_ffff,
        IntLitWidth::I8 => 0x7f,
        IntLitWidth::I16 => 0x7fff,
        IntLitWidth::I32 => 0x7fff_ffff,
        IntLitWidth::I64 => 0x7fff_ffff_ffff_ffff,
        IntLitWidth::I128 => 0x7fff_ffff_ffff_ffff_ffff_ffff_ffff_ffff,
        IntLitWidth::Nat => 0xffff_ffff_ffff_ffff,
        IntLitWidth::F32 => 16_777_216,
        IntLitWidth::F64 => 9_007_199_254_740_992,
        IntLitWidth::Dec => 0x7fff_ffff_ffff_ffff_ffff_ffff_ffff_ffff,
    }
}

/// The smallest value of each width.
pub open spec fn spec_min_value(w: IntLitWidth) -> i128 {
    match w {
        IntLitWidth::U8 => 0,
        IntLitWidth::U16 => 0,
        IntLitWidth::U32 => 0,
        IntLitWidth::U64 => 0,
        IntLitWidth::U128 => 0,
        IntLitWidth::Nat => 0,
        IntLitWidth::I8 => -0x80i128,
        IntLitWidth::I16 => -0x8000i128,
        IntLitWidth::I32 => -0x8000_0000i128,
        IntLitWidth::I64 => -0x8000_0000_0000_0000i128,
        IntLitWidth::I128 => -0x8000_0000_0000_0000_0000_0000_0000_0000i128,
        IntLitWidth::F32 => -16_777_216i128,
        IntLitWidth::F64 => -9_007_199_254_740_992i128,
        IntLitWidth::Dec => -0x8000_0000_0000_0000_0000_0000_0000_0000i128,
    }
}

pub fn int_lit_width_to_variable(w: IntLitWidth) -> (r: Variable)
    ensures
        r == spec_int_lit_width_to_variable(w),
{
    match w {
        IntLitWidth::U8 => Variable::U8,
        IntLitWidth::U16 => Variable::U16,
        IntLitWidth::U32 => Variable::U32,
        IntLitWidth::U64 => Variable::U64,
        IntLitWidth::U128 => Variable::U128,
        IntLitWidth::I8 => Variable::I8,
        IntLitWidth::I16 => Variable::I16,
        IntLitWidth::I32 => Variable::I32,
        IntLitWidth::I64 => Variable::I64,
        IntLitWidth::I128 => Variable::I128,
        IntLitWidth::Nat => Variable::Nat,
        IntLitWidth::F32 => Variable::F32,
        IntLitWidth::F64 => Variable::F64,
        IntLitWidth::Dec => Variable::Dec,
    }
}

pub fn float_width_to_variable(w: FloatWidth) -> (r: Variable)
    ensures
        r == spec_float_width_to_variable(w),
{
    match w {
        FloatWidth::Dec => Variable::Dec,
        FloatWidth::F32 => Variable::F32,
        FloatWidth::F64 => Variable::F64,
    }
}

} // verus!
