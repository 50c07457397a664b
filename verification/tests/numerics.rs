use match_lowering::ir::Symbol;
use match_lowering::num::FloatWidth;
use match_lowering::num::IntLitWidth;
use match_lowering::num::NumericRange;
use match_lowering::num::Variable;
use match_lowering::num::float_width_to_variable;
use match_lowering::num::int_lit_width_to_variable;

#[test]
fn width_bounds_are_exact() {
    assert_eq!(IntLitWidth::U8.max_value(), 255);
    assert_eq!(IntLitWidth::I8.max_value(), 127);
    assert_eq!(IntLitWidth::I8.min_value(), -128);
    assert_eq!(IntLitWidth::U64.max_value(), u64::MAX as u128);
    assert_eq!(IntLitWidth::F32.max_value(), 16_777_216);
    assert_eq!(IntLitWidth::F64.min_value(), -9_007_199_254_740_992);
    assert_eq!(IntLitWidth::Nat.min_value(), 0);
}

#[test]
fn type_names_match_the_widths() {
    assert_eq!(IntLitWidth::U128.type_str(), "U128");
    assert_eq!(IntLitWidth::Dec.type_str(), "Dec");
    assert_eq!(IntLitWidth::Nat.type_str(), "Nat");
}

#[test]
fn supersets_respect_signs() {
    // i16 covers u8 on the positive side, but not u16
    assert!(IntLitWidth::I16.is_superset(&IntLitWidth::U8, false));
    assert!(!IntLitWidth::I16.is_superset(&IntLitWidth::U16, false));
    // unsigned widths never cover the negative side of a signed one
    assert!(!IntLitWidth::U64.is_superset(&IntLitWidth::I8, true));
    assert!(IntLitWidth::I64.is_superset(&IntLitWidth::U8, true));
}

#[test]
fn intersections_keep_the_wider_bound() {
    let a = NumericRange::IntAtLeastEitherSign(IntLitWidth::U8);
    let b = NumericRange::IntAtLeastEitherSign(IntLitWidth::U32);
    assert_eq!(a.intersection(&b), Some(b));

    // signedness wins the constructor
    let c = NumericRange::IntAtLeastSigned(IntLitWidth::I8);
    let d = NumericRange::NumAtLeastEitherSign(IntLitWidth::I32);
    assert_eq!(c.intersection(&d), Some(NumericRange::IntAtLeastSigned(IntLitWidth::I32)));

    // incomparable widths have no common lower bound
    let e = NumericRange::IntAtLeastEitherSign(IntLitWidth::U16);
    let f = NumericRange::IntAtLeastEitherSign(IntLitWidth::I16);
    assert_eq!(e.intersection(&f), None);
}

#[test]
fn symbols_name_their_widths() {
    let r = NumericRange::IntAtLeastEitherSign(IntLitWidth::U16);
    assert_eq!(r.contains_symbol(Symbol::NumU32), Some(true));
    assert_eq!(r.contains_symbol(Symbol::NumU8), Some(false));
    // a signed demand refuses unsigned widths
    let s = NumericRange::IntAtLeastSigned(IntLitWidth::I8);
    assert_eq!(s.contains_symbol(Symbol::NumU64), Some(false));
    assert_eq!(s.contains_symbol(Symbol::NumI8), Some(true));
    // unconstrained numeric symbols fit any range
    assert_eq!(s.contains_symbol(Symbol::NumNum), Some(true));
    // anything else is not a numeric type
    assert_eq!(s.contains_symbol(Symbol::Ident(3)), None);
}

#[test]
fn variable_slices_start_at_the_width() {
    let r = NumericRange::NumAtLeastSigned(IntLitWidth::I64);
    assert_eq!(r.variable_slice(), vec![Variable::I64, Variable::I128, Variable::Dec]);

    let r = NumericRange::IntAtLeastEitherSign(IntLitWidth::I64);
    assert_eq!(r.variable_slice(), vec![Variable::I64, Variable::Nat, Variable::U64]);

    let r = NumericRange::IntAtLeastSigned(IntLitWidth::F64);
    assert_eq!(r.variable_slice(), vec![Variable::F64]);
}

#[test]
fn width_variables_line_up() {
    assert_eq!(int_lit_width_to_variable(IntLitWidth::Nat), Variable::Nat);
    assert_eq!(int_lit_width_to_variable(IntLitWidth::Dec), Variable::Dec);
    assert_eq!(float_width_to_variable(FloatWidth::F32), Variable::F32);
}
