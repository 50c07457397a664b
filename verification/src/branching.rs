//! Emission of the decider into the host expression IR: comparisons for
//! chain tests, switches for fan-outs, inlined bodies and jumps for the
//! leaves, and the production entry point that strings the whole
//! lowering together.

use std::collections::HashMap;

use vstd::prelude::*;

use crate::decider::Choice;
use crate::decider::ChoiceView;
use crate::decider::Decider;
use crate::decider::DeciderView;
use crate::decider::count_label;
use crate::decider::count_targets;
use crate::decider::create_choices;
use crate::decider::decider_test_views;
use crate::decider::insert_choices;
use crate::decider::lemma_decider_test_views;
use crate::decider::spec_insert_choices;
use crate::decider::spec_leaves;
use crate::decider::spec_tree_to_decider;
use crate::decider::tree_to_decider;
use crate::decision_tree::Test;
use crate::decision_tree::TestView;
use crate::decision_tree::compile;
use crate::decision_tree::spec_compile;
use crate::ir::Builtin;
use crate::ir::BuiltinView;
use crate::ir::Env;
use crate::ir::Expr;
use crate::ir::ExprView;
use crate::ir::Layout;
use crate::ir::LayoutView;
use crate::ir::Path;
use crate::ir::Pattern;
use crate::ir::PatternView;
use crate::ir::Symbol;

verus! {

/// The layout of a boolean condition, as the emitter names it.
pub open spec fn spec_bool_layout() -> LayoutView {
    LayoutView::Builtin(BuiltinView::Bool(TagNameViewGlobalFalse(), TagNameViewGlobalTrue()))
}

/// The name of the false tag.
pub open spec fn TagNameViewGlobalFalse() -> crate::ir::TagNameView {
    crate::ir::TagNameView::Global("False"@)
}

/// The name of the true tag.
pub open spec fn TagNameViewGlobalTrue() -> crate::ir::TagNameView {
    crate::ir::TagNameView::Global("True"@)
}

/// A bare byte layout.
pub open spec fn spec_byte_layout() -> LayoutView {
    LayoutView::Builtin(BuiltinView::Byte(Seq::empty()))
}

/// The 64-bit integer layout.
pub open spec fn spec_int64_layout() -> LayoutView {
    LayoutView::Builtin(BuiltinView::Int64)
}

/// The 64-bit float layout.
pub open spec fn spec_float64_layout() -> LayoutView {
    LayoutView::Builtin(BuiltinView::Float64)
}

/// The string layout.
pub open spec fn spec_str_layout() -> LayoutView {
    LayoutView::Builtin(BuiltinView::Str)
}

/// The IR that loads the value a path reaches: the scrutinee itself for
/// the empty path, an indexed access for `Index`, and the inner access
/// with the unwrapped flag set for `Unbox`.
pub open spec fn spec_path_to_expr(
    symbol: Symbol,
    path: Path,
    is_unwrapped: bool,
    field_layout: LayoutView,
) -> ExprView
    decreases path,
{
    match path {
        Path::Unbox(inner) => spec_path_to_expr(symbol, *inner, true, field_layout),
        Path::Empty => ExprView::Load(symbol),
        Path::Index { index, path: inner } => ExprView::AccessAtIndex {
            index,
            field_layouts: seq![field_layout],
            expr: Box::new(spec_path_to_expr(symbol, *inner, false, field_layout)),
            is_unwrapped,
        },
    }
}

/// The comparison one `(path, test)` pair emits: the value reached by
/// the path against the test's constant, through the equality primitive
/// of the test's kind.
pub open spec fn spec_test_cond(symbol: Symbol, path: Path, test: TestView) -> ExprView {
    match test {
        TestView::IsCtor { tag_id, union, .. } => {
            let rhs = ExprView::AccessAtIndex {
                index: 0,
                field_layouts: seq![spec_byte_layout(), spec_int64_layout()],
                expr: Box::new(spec_path_to_expr(symbol, path, false, spec_int64_layout())),
                is_unwrapped: union.alternatives.len() == 1,
            };
            ExprView::CallByName(
                Symbol::IntEqI64,
                seq![
                    (ExprView::Int(tag_id as i64), spec_int64_layout()),
                    (rhs, spec_int64_layout()),
                ],
            )
        }
        TestView::IsInt(v) => ExprView::CallByName(
            Symbol::IntEqI64,
            seq![
                (ExprView::Int(v), spec_int64_layout()),
                (
                    spec_path_to_expr(symbol, path, false, spec_int64_layout()),
                    spec_int64_layout(),
                ),
            ],
        ),
        TestView::IsFloat(bits) => ExprView::CallByName(
            Symbol::FloatEq,
            seq![
                (ExprView::Float(bits), spec_float64_layout()),
                (
                    spec_path_to_expr(symbol, path, false, spec_float64_layout()),
                    spec_float64_layout(),
                ),
            ],
        ),
        TestView::IsByte { tag_id, .. } => ExprView::CallByName(
            Symbol::IntEqI8,
            seq![
                (ExprView::Byte(tag_id), spec_byte_layout()),
                (
                    spec_path_to_expr(symbol, path, false, spec_byte_layout()),
                    spec_byte_layout(),
                ),
            ],
        ),
        TestView::IsBit(b) => ExprView::CallByName(
            Symbol::IntEqI8,
            seq![
                (
                    ExprView::Byte(
                        if b {
                            1
                        } else {
                            0
                        },
                    ),
                    spec_byte_layout(),
                ),
                (
                    spec_path_to_expr(symbol, path, false, spec_byte_layout()),
                    spec_byte_layout(),
                ),
            ],
        ),
        TestView::IsStr(s) => ExprView::CallByName(
            Symbol::StrEq,
            seq![
                (ExprView::Str(s), spec_str_layout()),
                (
                    spec_path_to_expr(symbol, path, false, spec_str_layout()),
                    spec_str_layout(),
                ),
            ],
        ),
    }
}

/// A chain emitted as nested conditionals: each test in turn, every
/// failure going to the chain's shared failure continuation.
pub open spec fn spec_chain_expr(
    symbol: Symbol,
    chain: Seq<(Path, TestView)>,
    success: ExprView,
    failure: ExprView,
    ret_layout: LayoutView,
) -> ExprView
    decreases chain.len(),
{
    if chain.len() == 0 {
        success
    } else {
        ExprView::Cond {
            cond: Box::new(spec_test_cond(symbol, chain[0].0, chain[0].1)),
            cond_layout: spec_bool_layout(),
            pass: Box::new(
                spec_chain_expr(
                    symbol,
                    chain.subrange(1, chain.len() as int),
                    success,
                    failure,
                    ret_layout,
                ),
            ),
            fail: Box::new(failure),
            ret_layout,
        }
    }
}

/// The switch discriminant a test stands for: tag ids for constructors
/// and bytes, raw values and bit patterns for the literals. String tests
/// have none.
pub open spec fn spec_fan_tag(test: TestView) -> u64 {
    match test {
        TestView::IsInt(v) => v as u64,
        TestView::IsFloat(bits) => bits,
        TestView::IsBit(b) => if b {
            1
        } else {
            0
        },
        TestView::IsByte { tag_id, .. } => tag_id as u64,
        TestView::IsCtor { tag_id, .. } => tag_id as u64,
        TestView::IsStr(_) => 0,
    }
}

/// No fan-out of the decider switches on a string: a string test has no
/// integer discriminant, so it may only stand in a chain.
pub open spec fn spec_no_str_fanout(d: DeciderView<ChoiceView>) -> bool
    decreases d,
{
    match d {
        DeciderView::Leaf(_) => true,
        DeciderView::Chain { success, failure, .. } => spec_no_str_fanout(*success)
            && spec_no_str_fanout(*failure),
        DeciderView::FanOut { tests, fallback, .. } => spec_no_str_fanout(*fallback)
            && spec_arms_no_str(tests),
    }
}

/// The same, over the arms of a fan-out.
pub open spec fn spec_arms_no_str(tests: Seq<(TestView, DeciderView<ChoiceView>)>) -> bool
    decreases tests,
{
    if tests.len() == 0 {
        true
    } else {
        spec_arms_no_str(tests.subrange(0, tests.len() - 1)) && !(tests[tests.len() - 1].0
            is IsStr) && spec_no_str_fanout(tests[tests.len() - 1].1)
    }
}

/// Every jump leaf's label still fits once the process-wide counter is
/// added.
pub open spec fn spec_jumps_ok(d: DeciderView<ChoiceView>, jump_count: u64) -> bool
    decreases d,
{
    match d {
        DeciderView::Leaf(c) => match c {
            ChoiceView::Jump(l) => l + jump_count <= u64::MAX,
            ChoiceView::Inline(_) => true,
        },
        DeciderView::Chain { success, failure, .. } => spec_jumps_ok(*success, jump_count)
            && spec_jumps_ok(*failure, jump_count),
        DeciderView::FanOut { tests, fallback, .. } => spec_jumps_ok(*fallback, jump_count)
            && spec_arms_jumps_ok(tests, jump_count),
    }
}

/// The same, over the arms of a fan-out.
pub open spec fn spec_arms_jumps_ok(
    tests: Seq<(TestView, DeciderView<ChoiceView>)>,
    jump_count: u64,
) -> bool
    decreases tests,
{
    if tests.len() == 0 {
        true
    } else {
        spec_arms_jumps_ok(tests.subrange(0, tests.len() - 1), jump_count) && spec_jumps_ok(
            tests[tests.len() - 1].1,
            jump_count,
        )
    }
}

/// The emitted IR for a decider: inlined bodies and jumps at the leaves,
/// nested conditionals for chains, a switch for each fan-out.
pub open spec fn spec_decide(
    symbol: Symbol,
    cond_layout: LayoutView,
    ret_layout: LayoutView,
    decider: DeciderView<ChoiceView>,
    jump_count: u64,
) -> ExprView
    decreases decider, 0nat,
{
    match decider {
        DeciderView::Leaf(choice) => match choice {
            ChoiceView::Jump(label) => ExprView::Jump((label + jump_count) as u64),
            ChoiceView::Inline(expr) => expr,
        },
        DeciderView::Chain { test_chain, success, failure } => {
            let pass = spec_decide(symbol, cond_layout, ret_layout, *success, jump_count);
            let fail = spec_decide(symbol, cond_layout, ret_layout, *failure, jump_count);
            spec_chain_expr(symbol, test_chain, pass, fail, ret_layout)
        }
        DeciderView::FanOut { path, tests, fallback } => ExprView::Switch {
            cond: Box::new(spec_path_to_expr(symbol, path, false, cond_layout)),
            cond_layout,
            branches: spec_decide_arms(symbol, cond_layout, ret_layout, tests, jump_count),
            default_branch: Box::new(
                spec_decide(symbol, cond_layout, ret_layout, *fallback, jump_count),
            ),
            ret_layout,
        },
    }
}

/// The switch arms: each test's discriminant with its compiled body.
pub open spec fn spec_decide_arms(
    symbol: Symbol,
    cond_layout: LayoutView,
    ret_layout: LayoutView,
    tests: Seq<(TestView, DeciderView<ChoiceView>)>,
    jump_count: u64,
) -> Seq<(u64, ExprView)>
    decreases tests, 1nat,
{
    if tests.len() == 0 {
        Seq::empty()
    } else {
        spec_decide_arms(
            symbol,
            cond_layout,
            ret_layout,
            tests.subrange(0, tests.len() - 1),
            jump_count,
        ).push(
            (
                spec_fan_tag(tests[tests.len() - 1].0),
                spec_decide(
                    symbol,
                    cond_layout,
                    ret_layout,
                    tests[tests.len() - 1].1,
                    jump_count,
                ),
            ),
        )
    }
}

// ---------------------------------------------------------------------
// The executable emission.
// ---------------------------------------------------------------------

/// The boolean layout value.
fn bool_layout() -> (r: Layout)
    ensures
        r.deep_view() == spec_bool_layout(),
{
    Layout::Builtin(
        Builtin::Bool(
            crate::ir::TagName::Global("False".to_string()),
            crate::ir::TagName::Global("True".to_string()),
        ),
    )
}

/// The bare byte layout value.
fn byte_layout() -> (r: Layout)
    ensures
        r.deep_view() == spec_byte_layout(),
{
    let r = Layout::Builtin(Builtin::Byte(Vec::new()));
    proof {
        assert(r.deep_view()->Builtin_0->Byte_0 =~= Seq::<
            (crate::ir::TagNameView, u8),
        >::empty());
    }
    r
}

/// The 64-bit integer layout value.
fn int64_layout() -> (r: Layout)
    ensures
        r.deep_view() == spec_int64_layout(),
{
    Layout::Builtin(Builtin::Int64)
}

/// The 64-bit float layout value.
fn float64_layout() -> (r: Layout)
    ensures
        r.deep_view() == spec_float64_layout(),
{
    Layout::Builtin(Builtin::Float64)
}

/// The string layout value.
fn str_layout() -> (r: Layout)
    ensures
        r.deep_view() == spec_str_layout(),
{
    Layout::Builtin(Builtin::Str)
}

/// Emits the IR that loads the value reached by `path`.
pub fn path_to_expr(symbol: Symbol, path: &Path, is_unwrapped: bool, field_layout: &Layout) -> (r:
    Expr)
    ensures
        r.deep_view() == spec_path_to_expr(symbol, *path, is_unwrapped, field_layout.deep_view()),
    decreases path,
{
    match path {
        Path::Unbox(inner) => path_to_expr(symbol, inner, true, field_layout),
        Path::Empty => Expr::Load(symbol),
        Path::Index { index, path: inner } => {
            let mut field_layouts: Vec<Layout> = Vec::new();
            field_layouts.push(field_layout.clone());
            let sub = path_to_expr(symbol, inner, false, field_layout);
            let r = Expr::AccessAtIndex {
                index: *index,
                field_layouts,
                expr: Box::new(sub),
                is_unwrapped,
            };
            proof {
                assert(r.deep_view()->AccessAtIndex_field_layouts =~= seq![
                    field_layout.deep_view(),
                ]) by {
                    crate::ir::lemma_layout_views(r->AccessAtIndex_field_layouts@);
                }
            }
            r
        }
    }
}

/// Emits the comparison for one `(path, test)` pair.
fn test_cond(symbol: Symbol, path: &Path, test: &Test) -> (r: Expr)
    ensures
        r.deep_view() == spec_test_cond(symbol, *path, test.deep_view()),
{
    match test {
        Test::IsCtor { tag_id, union, .. } => {
            let mut field_layouts: Vec<Layout> = Vec::new();
            field_layouts.push(byte_layout());
            field_layouts.push(int64_layout());
            let rhs = Expr::AccessAtIndex {
                index: 0,
                field_layouts,
                expr: Box::new(path_to_expr(symbol, path, false, &int64_layout())),
                is_unwrapped: union.alternatives.len() == 1,
            };
            proof {
                assert(rhs.deep_view()->AccessAtIndex_field_layouts =~= seq![
                    spec_byte_layout(),
                    spec_int64_layout(),
                ]) by {
                    crate::ir::lemma_layout_views(rhs->AccessAtIndex_field_layouts@);
                }
            }
            let mut args: Vec<(Expr, Layout)> = Vec::new();
            args.push((Expr::Int(*tag_id as i64), int64_layout()));
            args.push((rhs, int64_layout()));
            let r = Expr::CallByName(Symbol::IntEqI64, args);
            proof {
                assert(r.deep_view()->CallByName_1 =~= spec_test_cond(
                    symbol,
                    *path,
                    test.deep_view(),
                )->CallByName_1) by {
                    crate::ir::lemma_expr_arg_views(r->CallByName_1@);
                }
            }
            r
        }
        Test::IsInt(v) => {
            let mut args: Vec<(Expr, Layout)> = Vec::new();
            args.push((Expr::Int(*v), int64_layout()));
            args.push((path_to_expr(symbol, path, false, &int64_layout()), int64_layout()));
            let r = Expr::CallByName(Symbol::IntEqI64, args);
            proof {
                assert(r.deep_view()->CallByName_1 =~= spec_test_cond(
                    symbol,
                    *path,
                    test.deep_view(),
                )->CallByName_1) by {
                    crate::ir::lemma_expr_arg_views(r->CallByName_1@);
                }
            }
            r
        }
        Test::IsFloat(bits) => {
            let mut args: Vec<(Expr, Layout)> = Vec::new();
            args.push((Expr::Float(*bits), float64_layout()));
            args.push((path_to_expr(symbol, path, false, &float64_layout()), float64_layout()));
            let r = Expr::CallByName(Symbol::FloatEq, args);
            proof {
                assert(r.deep_view()->CallByName_1 =~= spec_test_cond(
                    symbol,
                    *path,
                    test.deep_view(),
                )->CallByName_1) by {
                    crate::ir::lemma_expr_arg_views(r->CallByName_1@);
                }
            }
            r
        }
        Test::IsByte { tag_id, .. } => {
            let mut args: Vec<(Expr, Layout)> = Vec::new();
            args.push((Expr::Byte(*tag_id), byte_layout()));
            args.push((path_to_expr(symbol, path, false, &byte_layout()), byte_layout()));
            let r = Expr::CallByName(Symbol::IntEqI8, args);
            proof {
                assert(r.deep_view()->CallByName_1 =~= spec_test_cond(
                    symbol,
                    *path,
                    test.deep_view(),
                )->CallByName_1) by {
                    crate::ir::lemma_expr_arg_views(r->CallByName_1@);
                }
            }
            r
        }
        Test::IsBit(b) => {
            let mut args: Vec<(Expr, Layout)> = Vec::new();
            let lhs = if *b {
                Expr::Byte(1)
            } else {
                Expr::Byte(0)
            };
            args.push((lhs, byte_layout()));
            args.push((path_to_expr(symbol, path, false, &byte_layout()), byte_layout()));
            let r = Expr::CallByName(Symbol::IntEqI8, args);
            proof {
                assert(r.deep_view()->CallByName_1 =~= spec_test_cond(
                    symbol,
                    *path,
                    test.deep_view(),
                )->CallByName_1) by {
                    crate::ir::lemma_expr_arg_views(r->CallByName_1@);
                }
            }
            r
        }
        Test::IsStr(text) => {
            let mut args: Vec<(Expr, Layout)> = Vec::new();
            args.push((Expr::Str(text.clone()), str_layout()));
            args.push((path_to_expr(symbol, path, false, &str_layout()), str_layout()));
            let r = Expr::CallByName(Symbol::StrEq, args);
            proof {
                assert(r.deep_view()->CallByName_1 =~= spec_test_cond(
                    symbol,
                    *path,
                    test.deep_view(),
                )->CallByName_1) by {
                    crate::ir::lemma_expr_arg_views(r->CallByName_1@);
                }
            }
            r
        }
    }
}

/// The switch discriminant of a non-string test.
fn fan_tag(test: &Test) -> (r: u64)
    requires
        !(test.deep_view() is IsStr),
    ensures
        r == spec_fan_tag(test.deep_view()),
{
    match test {
        Test::IsInt(v) => *v as u64,
        Test::IsFloat(bits) => *bits,
        Test::IsBit(b) => if *b {
            1
        } else {
            0
        },
        Test::IsByte { tag_id, .. } => *tag_id as u64,
        Test::IsCtor { tag_id, .. } => *tag_id as u64,
        Test::IsStr(_) => {
            proof {
                assert(false);
            }
            0
        }
    }
}

/// Emits the IR for a decider: nested conditionals for a chain, each
/// failure going to the shared continuation; a switch for a fan-out;
/// the body or a jump at each leaf.
#[verifier::loop_isolation(false)]
#[verifier::rlimit(100)]
pub fn decide_to_branching(
    cond_symbol: Symbol,
    cond_layout: &Layout,
    ret_layout: &Layout,
    decider: Decider<Choice>,
    jump_count: u64,
) -> (r: Expr)
    requires
        spec_no_str_fanout(decider.deep_view()),
        spec_jumps_ok(decider.deep_view(), jump_count),
    ensures
        r.deep_view() == spec_decide(
            cond_symbol,
            cond_layout.deep_view(),
            ret_layout.deep_view(),
            decider.deep_view(),
            jump_count,
        ),
    decreases decider,
{
    let ghost dv = decider.deep_view();
    match decider {
        Decider::Leaf(choice) => match choice {
            Choice::Jump(label) => Expr::Jump(label + jump_count),
            Choice::Inline(expr) => expr,
        },
        Decider::Chain { test_chain, success, failure } => {
            let pass = decide_to_branching(cond_symbol, cond_layout, ret_layout, *success, jump_count);
            let fail = decide_to_branching(cond_symbol, cond_layout, ret_layout, *failure, jump_count);
            let ghost chainv = dv->Chain_test_chain;
            let ghost passv = pass.deep_view();
            let ghost failv = fail.deep_view();
            let n = test_chain.len();
            let mut expr = pass;
            let mut i: usize = n;
            while i > 0
                invariant
                    0 <= i <= n == test_chain@.len(),
                    n == chainv.len(),
                    forall|q: int|
                        0 <= q < n ==> #[trigger] chainv[q] == (test_chain@[q].0, test_chain@[
                            q
                        ].1.deep_view()),
                    expr.deep_view() == spec_chain_expr(
                        cond_symbol,
                        chainv.subrange(i as int, n as int),
                        passv,
                        failv,
                        ret_layout.deep_view(),
                    ),
                decreases i,
            {
                i = i - 1;
                let pair = &test_chain[i];
                let cond = test_cond(cond_symbol, &pair.0, &pair.1);
                let ghost before = expr.deep_view();
                expr = Expr::Cond {
                    cond: Box::new(cond),
                    cond_layout: bool_layout(),
                    pass: Box::new(expr),
                    fail: Box::new(fail.clone()),
                    ret_layout: ret_layout.clone(),
                };
                proof {
                    let tail = chainv.subrange(i as int, n as int);
                    assert(tail[0] == chainv[i as int]);
                    assert(tail.subrange(1, tail.len() as int) =~= chainv.subrange(
                        i + 1,
                        n as int,
                    ));
                }
            }
            proof {
                assert(chainv.subrange(0, n as int) =~= chainv);
            }
            expr
        }
        Decider::FanOut { path, tests, fallback } => {
            let ghost arms = decider_test_views(tests@);
            proof {
                lemma_decider_test_views(tests@);
                lemma_arms_props(arms, jump_count);
            }
            let cond = path_to_expr(cond_symbol, &path, false, cond_layout);
            let default_branch = decide_to_branching(
                cond_symbol,
                cond_layout,
                ret_layout,
                *fallback,
                jump_count,
            );
            let ghost orig_tests = tests@;
            let mut branches: Vec<(u64, Expr)> = Vec::new();
            let mut tests = tests;
            let n = tests.len();
            proof {
                assert(decider_test_views(tests@) =~= arms.subrange(0, n as int));
            }
            let mut j: usize = 0;
            while j < n
                invariant
                    j + tests@.len() == n,
                    n == arms.len(),
                    n == orig_tests.len(),
                    tests@ =~= orig_tests.subrange(j as int, n as int),
                    decider_test_views(tests@) =~= arms.subrange(j as int, n as int),
                    crate::ir::switch_branch_views(branches@) =~= spec_decide_arms(
                        cond_symbol,
                        cond_layout.deep_view(),
                        ret_layout.deep_view(),
                        arms,
                        jump_count,
                    ).subrange(0, j as int),
                decreases n - j,
            {
                let ghost arr_pre = tests@;
                let arm = tests.remove(0);
                proof {
                    assert(arm == arr_pre[0]);
                    assert(tests@ =~= arr_pre.subrange(1, arr_pre.len() as int));
                    lemma_decider_test_views(arr_pre);
                    lemma_decider_test_views(tests@);
                    assert(decider_test_views(arr_pre) == arms.subrange(j as int, n as int));
                    assert(decider_test_views(arr_pre)[0] == (arm.0.deep_view(), arm.1.deep_view()));
                    assert((arm.0.deep_view(), arm.1.deep_view()) == arms[j as int]);
                    assert forall|q: int|
                        0 <= q < tests@.len() implies #[trigger] decider_test_views(tests@)[q]
                        == arms.subrange(j + 1, n as int)[q] by {
                        assert(tests@[q] == arr_pre[q + 1]);
                        assert(decider_test_views(tests@)[q] == (tests@[q].0.deep_view(), tests@[
                            q
                        ].1.deep_view()));
                        assert(decider_test_views(arr_pre)[q + 1] == (arr_pre[q
                            + 1].0.deep_view(), arr_pre[q + 1].1.deep_view()));
                        assert(arms.subrange(j + 1, n as int)[q] == arms[j + 1 + q]);
                        assert(arms[j + 1 + q] == arms.subrange(j as int, n as int)[q + 1]);
                    }
                    assert(arr_pre =~= orig_tests.subrange(j as int, n as int));
                    assert(arm == orig_tests[j as int]);
                    let ghost f = decider->FanOut_tests;
                    assert(decreases_to!(decider => f));
                    assert(decreases_to!(f => f@));
                    assert(decreases_to!(f@ => f@[j as int]));
                    assert(decreases_to!(f@[j as int] => f@[j as int].1));
                    assert(f@[j as int].1 == arm.1);
                    assert(decreases_to!(decider => arm.1));
                }
                let branch = decide_to_branching(
                    cond_symbol,
                    cond_layout,
                    ret_layout,
                    arm.1,
                    jump_count,
                );
                let tag = fan_tag(&arm.0);
                let ghost pre_at = branches@;
                let ghost pre_dv = crate::ir::switch_branch_views(branches@);
                proof {
                    crate::ir::lemma_switch_branch_views(pre_at);
                    lemma_decide_arms_shape(
                        cond_symbol,
                        cond_layout.deep_view(),
                        ret_layout.deep_view(),
                        arms,
                        jump_count,
                    );
                }
                branches.push((tag, branch));
                proof {
                    crate::ir::lemma_switch_branch_views(branches@);
                    assert(branches@ == pre_at.push(branches@[branches@.len() - 1]));
                    assert(forall|q: int|
                        0 <= q < pre_at.len() ==> #[trigger] branches@[q] == pre_at[q]);
                    assert(crate::ir::switch_branch_views(branches@)[j as int] == (
                        spec_fan_tag(arms[j as int].0),
                        spec_decide(
                            cond_symbol,
                            cond_layout.deep_view(),
                            ret_layout.deep_view(),
                            arms[j as int].1,
                            jump_count,
                        ),
                    ));
                    assert(crate::ir::switch_branch_views(branches@) =~= spec_decide_arms(
                        cond_symbol,
                        cond_layout.deep_view(),
                        ret_layout.deep_view(),
                        arms,
                        jump_count,
                    ).subrange(0, j + 1));
                }
                j = j + 1;
            }
            proof {
                lemma_decide_arms_shape(
                    cond_symbol,
                    cond_layout.deep_view(),
                    ret_layout.deep_view(),
                    arms,
                    jump_count,
                );
                assert(spec_decide_arms(
                    cond_symbol,
                    cond_layout.deep_view(),
                    ret_layout.deep_view(),
                    arms,
                    jump_count,
                ).subrange(0, n as int) =~= spec_decide_arms(
                    cond_symbol,
                    cond_layout.deep_view(),
                    ret_layout.deep_view(),
                    arms,
                    jump_count,
                ));
            }
            let r = Expr::Switch {
                cond: Box::new(cond),
                cond_layout: cond_layout.clone(),
                branches,
                default_branch: Box::new(default_branch),
                ret_layout: ret_layout.clone(),
            };
            r
        }
    }
}

/// Unpacks the per-arm facts of the fan-out side conditions.
proof fn lemma_arms_props(arms: Seq<(TestView, DeciderView<ChoiceView>)>, c: u64)
    ensures
        spec_arms_no_str(arms) ==> forall|q: int|
            0 <= q < arms.len() ==> !((#[trigger] arms[q]).0 is IsStr) && spec_no_str_fanout(
                arms[q].1,
            ),
        spec_arms_jumps_ok(arms, c) ==> forall|q: int|
            0 <= q < arms.len() ==> spec_jumps_ok((#[trigger] arms[q]).1, c),
    decreases arms.len(),
{
    if arms.len() > 0 {
        let sub = arms.subrange(0, arms.len() - 1);
        lemma_arms_props(sub, c);
        assert(forall|q: int| 0 <= q < sub.len() ==> #[trigger] sub[q] == arms[q]);
        if spec_arms_no_str(arms) {
            assert forall|q: int|
                0 <= q < arms.len() implies !((#[trigger] arms[q]).0 is IsStr)
                && spec_no_str_fanout(arms[q].1) by {
                if q < arms.len() - 1 {
                    assert(!(sub[q].0 is IsStr) && spec_no_str_fanout(sub[q].1));
                }
            }
        }
        if spec_arms_jumps_ok(arms, c) {
            assert forall|q: int|
                0 <= q < arms.len() implies spec_jumps_ok((#[trigger] arms[q]).1, c) by {
                if q < arms.len() - 1 {
                    assert(spec_jumps_ok(sub[q].1, c));
                }
            }
        }
    }
}

/// The shape of the emitted switch arms: one per arm, in order.
proof fn lemma_decide_arms_shape(
    symbol: Symbol,
    cond_layout: LayoutView,
    ret_layout: LayoutView,
    arms: Seq<(TestView, DeciderView<ChoiceView>)>,
    jump_count: u64,
)
    ensures
        spec_decide_arms(symbol, cond_layout, ret_layout, arms, jump_count).len() == arms.len(),
        forall|i: int|
            0 <= i < arms.len() ==> #[trigger] spec_decide_arms(
                symbol,
                cond_layout,
                ret_layout,
                arms,
                jump_count,
            )[i] == (
                spec_fan_tag(arms[i].0),
                spec_decide(symbol, cond_layout, ret_layout, arms[i].1, jump_count),
            ),
    decreases arms.len(),
{
    if arms.len() > 0 {
        let sub = arms.subrange(0, arms.len() - 1);
        lemma_decide_arms_shape(symbol, cond_layout, ret_layout, sub, jump_count);
        assert forall|i: int|
            0 <= i < arms.len() implies #[trigger] spec_decide_arms(
            symbol,
            cond_layout,
            ret_layout,
            arms,
            jump_count,
        )[i] == (
            spec_fan_tag(arms[i].0),
            spec_decide(symbol, cond_layout, ret_layout, arms[i].1, jump_count),
        ) by {
            if i < arms.len() - 1 {
                assert(spec_decide_arms(symbol, cond_layout, ret_layout, arms, jump_count)[i]
                    == spec_decide_arms(symbol, cond_layout, ret_layout, sub, jump_count)[i]);
                assert(sub[i] == arms[i]);
            }
        }
    }
}

// ---------------------------------------------------------------------
// The production entry point.
// ---------------------------------------------------------------------

/// The rows the production entry point builds: each surface pattern with
/// its position as goal label.
pub open spec fn spec_when_rows(branches: Seq<(PatternView, ExprView)>) -> Seq<(PatternView, u64)> {
    Seq::new(branches.len(), |i: int| (branches[i].0, i as u64))
}

/// The decider the entry point lowers the branches into.
pub open spec fn spec_when_decider(branches: Seq<(PatternView, ExprView)>) -> DeciderView<u64> {
    spec_tree_to_decider(spec_compile(spec_when_rows(branches)))
}

/// The choice each goal receives: its body inlined when the decider
/// reaches it exactly once, a jump to its label otherwise.
pub open spec fn spec_when_choices(branches: Seq<(PatternView, ExprView)>) -> Map<u64, ChoiceView> {
    let leaves = spec_leaves(spec_when_decider(branches));
    Map::new(
        |l: u64| l < branches.len(),
        |l: u64|
            if count_label(leaves, l) == 1 {
                ChoiceView::Inline(branches[l as int].1)
            } else {
                ChoiceView::Jump(l)
            },
    )
}

/// How many of the first `upto` goals are reached by jump.
pub open spec fn spec_num_jumps(branches: Seq<(PatternView, ExprView)>, upto: nat) -> nat
    decreases upto,
{
    if upto == 0 {
        0
    } else {
        spec_num_jumps(branches, (upto - 1) as nat) + if count_label(
            spec_leaves(spec_when_decider(branches)),
            (upto - 1) as u64,
        ) != 1 {
            1nat
        } else {
            0nat
        }
    }
}

/// The decider with every leaf holding its goal's choice.
pub open spec fn spec_when_choice_decider(branches: Seq<(PatternView, ExprView)>) -> DeciderView<
    ChoiceView,
> {
    spec_insert_choices(spec_when_choices(branches), spec_when_decider(branches))
}

/// The IR the entry point emits, given the counter it starts from.
pub open spec fn spec_optimize_when_expr(
    counter: u64,
    cond_symbol: Symbol,
    cond_layout: LayoutView,
    ret_layout: LayoutView,
    branches: Seq<(PatternView, ExprView)>,
) -> ExprView {
    spec_decide(cond_symbol, cond_layout, ret_layout, spec_when_choice_decider(branches), counter)
}

/// The production entry point: gives the branches sequential goal
/// labels in input order, lowers them through the decision tree and the
/// decider, assigns inline-or-jump choices, emits the IR, and advances
/// the process-wide jump counter by the number of jump-reached goals.
#[verifier::loop_isolation(false)]
#[verifier::rlimit(100)]
pub fn optimize_when(
    env: &mut Env,
    cond_symbol: Symbol,
    cond_layout: Layout,
    ret_layout: Layout,
    opt_branches: Vec<(Pattern, Expr)>,
) -> (result: Expr)
    requires
        opt_branches@.len() > 0,
        forall|l: u64|
            count_label(spec_leaves(spec_when_decider(opt_branches.deep_view())), l)
                <= u64::MAX,
        forall|i: int|
            0 <= i < opt_branches@.len() ==> #[trigger] spec_leaves(
                spec_when_decider(opt_branches.deep_view()),
            ).contains(i as u64),
        forall|l: u64|
            spec_leaves(spec_when_decider(opt_branches.deep_view())).contains(l)
                ==> l < opt_branches@.len(),
        spec_no_str_fanout(spec_when_choice_decider(opt_branches.deep_view())),
        spec_jumps_ok(spec_when_choice_decider(opt_branches.deep_view()), old(env).jump_counter),
        old(env).jump_counter + spec_num_jumps(
            opt_branches.deep_view(),
            opt_branches@.len() as nat,
        ) <= u64::MAX,
    ensures
        result.deep_view() == spec_optimize_when_expr(
            old(env).jump_counter,
            cond_symbol,
            cond_layout.deep_view(),
            ret_layout.deep_view(),
            opt_branches.deep_view(),
        ),
        final(env).jump_counter == old(env).jump_counter + spec_num_jumps(
            opt_branches.deep_view(),
            opt_branches@.len() as nat,
        ),
{
    let ghost bv = opt_branches.deep_view();
    proof {
        crate::ir::lemma_vec_deep_view(&opt_branches);
    }
    let mut patterns: Vec<(Pattern, u64)> = Vec::new();
    let mut indexed_branches: Vec<(u64, Expr)> = Vec::new();
    let mut raw = opt_branches;
    let n = raw.len();
    let mut i: usize = 0;
    while i < n
        invariant
            i + raw@.len() == n,
            n == bv.len(),
            raw.deep_view() =~= bv.subrange(i as int, n as int),
            patterns.deep_view() =~= spec_when_rows(bv).subrange(0, i as int),
            indexed_branches@.len() == i,
            forall|q: int|
                0 <= q < i ==> #[trigger] indexed_branches@[q].0 == q as u64
                    && indexed_branches@[q].1.deep_view() == bv[q].1,
        decreases n - i,
    {
        let ghost arr_pre = raw@;
        let ghost dv_pre = raw.deep_view();
        proof {
            assert(forall|q: int|
                0 <= q < arr_pre.len() ==> #[trigger] dv_pre[q] == arr_pre[q].deep_view());
        }
        let pair = raw.remove(0);
        proof {
            assert(pair == arr_pre[0]);
            assert(raw@ =~= arr_pre.subrange(1, arr_pre.len() as int));
            crate::ir::lemma_vec_deep_view(&raw);
            assert(pair.deep_view() == dv_pre[0]);
            assert(pair.deep_view() == bv[i as int]);
            assert forall|q: int| 0 <= q < raw@.len() implies #[trigger] raw.deep_view()[q]
                == bv.subrange(i + 1, n as int)[q] by {
                assert(raw@[q] == arr_pre[q + 1]);
                assert(raw.deep_view()[q] == raw@[q].deep_view());
                assert(arr_pre[q + 1].deep_view() == dv_pre[q + 1]);
            }
            assert(raw.deep_view() =~= bv.subrange(i + 1, n as int));
        }
        let ghost pats_pre = patterns.deep_view();
        proof {
            assert(forall|q: int|
                0 <= q < patterns@.len() ==> #[trigger] pats_pre[q] == patterns@[q].deep_view());
        }
        patterns.push((pair.0, i as u64));
        indexed_branches.push((i as u64, pair.1));
        proof {
            assert(forall|q: int|
                0 <= q < patterns@.len() ==> #[trigger] patterns.deep_view()[q] == patterns@[
                    q
                ].deep_view());
            assert(patterns.deep_view().len() == pats_pre.len() + 1);
            assert(forall|q: int|
                0 <= q < pats_pre.len() ==> #[trigger] patterns.deep_view()[q] == pats_pre[q]);
            assert(patterns.deep_view()[i as int] == (bv[i as int].0, i as u64));
            assert(patterns.deep_view() =~= spec_when_rows(bv).subrange(0, i + 1));
        }
        i = i + 1;
    }
    proof {
        assert(spec_when_rows(bv).subrange(0, n as int) =~= spec_when_rows(bv));
        assert(patterns.deep_view() == spec_when_rows(bv));
    }

    let decision_tree = compile(patterns);
    let decider = tree_to_decider(decision_tree);
    proof {
        assert(decider.deep_view() == spec_when_decider(bv));
    }
    let ghost leaves = spec_leaves(spec_when_decider(bv));
    let target_counts = count_targets(&decider);

    let mut choices: HashMap<u64, Choice> = HashMap::new();
    let mut jumps: Vec<(u64, Expr)> = Vec::new();
    proof {
        assert(vstd::relations::injective(|k: u64| k.deep_view())) by {
            let f = |k: u64| k.deep_view();
            assert forall|k1: u64, k2: u64| #[trigger] f(k1) == #[trigger] f(k2) implies k1
                == k2 by {}
        }
        vstd::std_specs::hash::lemma_hashmap_deepview_properties(choices);
    }
    let mut indexed = indexed_branches;
    let mut j: usize = 0;
    while j < n
        invariant
            j + indexed@.len() == n,
            n == bv.len(),
            forall|q: int|
                0 <= q < indexed@.len() ==> #[trigger] indexed@[q].0 == (j + q) as u64
                    && indexed@[q].1.deep_view() == bv[j + q].1,
            forall|l: u64| #[trigger] choices.deep_view().contains_key(l) <==> l < j,
            forall|l: u64|
                l < j ==> #[trigger] choices.deep_view()[l] == spec_when_choices(bv)[l],
            jumps@.len() == spec_num_jumps(bv, j as nat),
            forall|l: u64| count_label(leaves, l) <= u64::MAX,
            forall|q: int| 0 <= q < n ==> leaves.contains(#[trigger] (q as u64)),
            forall|l: u64|
                #[trigger] target_counts@.contains_key(l) <==> leaves.contains(l),
            forall|l: u64|
                crate::decider::map_count(target_counts@, l) == count_label(leaves, l),
        decreases n - j,
    {
        let ghost ind_pre = indexed@;
        let pair = indexed.remove(0);
        proof {
            assert(pair == ind_pre[0]);
            assert(indexed@ =~= ind_pre.subrange(1, ind_pre.len() as int));
            assert(pair.0 == j as u64);
            assert(pair.1.deep_view() == bv[j as int].1);
            assert(leaves.contains(j as u64));
            assert(target_counts@.contains_key(j as u64));
        }
        let index = pair.0;
        let ((branch_index, choice), opt_jump) = create_choices(&target_counts, index, pair.1);
        proof {
            assert(crate::decider::map_count(target_counts@, index) == count_label(
                leaves,
                index,
            ));
            assert(target_counts@[index] as nat == count_label(leaves, index));
        }
        match opt_jump {
            Option::Some(jump) => {
                jumps.push(jump);
                proof {
                    assert(count_label(leaves, j as u64) != 1);
                    assert(spec_num_jumps(bv, (j + 1) as nat) == spec_num_jumps(bv, j as nat)
                        + 1);
                }
            }
            Option::None => {
                proof {
                    assert(count_label(leaves, j as u64) == 1);
                    assert(spec_num_jumps(bv, (j + 1) as nat) == spec_num_jumps(bv, j as nat));
                }
            }
        }
        let ghost ch_pre = choices@;
        let ghost ch_pre_deep = choices.deep_view();
        proof {
            vstd::std_specs::hash::lemma_hashmap_deepview_properties(choices);
            assert forall|l: u64| l < j implies #[trigger] ch_pre.contains_key(l) && ch_pre[
                l
            ].deep_view() == spec_when_choices(bv)[l] by {
                assert(ch_pre_deep.contains_key(l));
                let k = choose|k: u64| k.deep_view() == l && #[trigger] ch_pre.contains_key(k);
                assert(k == l);
                assert(ch_pre_deep[l] == ch_pre[l].deep_view());
            }
        }
        choices.insert(branch_index, choice);
        proof {
            assert(choices@ == ch_pre.insert(branch_index, choice));
            vstd::std_specs::hash::lemma_hashmap_deepview_properties(choices);
            assert forall|l: u64| #[trigger] choices.deep_view().contains_key(l) <==> l < j + 1
                by {
                if choices.deep_view().contains_key(l) {
                    let k = choose|k: u64|
                        k.deep_view() == l && #[trigger] choices@.contains_key(k);
                    assert(k == l);
                    if l != branch_index {
                        assert(ch_pre.contains_key(l));
                        assert(ch_pre_deep.contains_key(l));
                    }
                }
                if l < j + 1 {
                    if l == branch_index {
                        assert(choices@.contains_key(l));
                    } else {
                        assert(ch_pre.contains_key(l));
                        assert(choices@.contains_key(l));
                    }
                    assert(choices.deep_view().contains_key(l));
                }
            }
            assert forall|l: u64| l < j + 1 implies #[trigger] choices.deep_view()[l]
                == spec_when_choices(bv)[l] by {
                if l == branch_index {
                    assert(choices@.contains_key(l) && choices@[l] == choice);
                    assert(choices.deep_view()[l] == choice.deep_view());
                } else {
                    assert(ch_pre.contains_key(l) && choices@[l] == ch_pre[l]);
                    assert(choices@.contains_key(l));
                    assert(choices.deep_view()[l] == choices@[l].deep_view());
                }
            }
        }
        j = j + 1;
    }
    proof {
        assert(choices.deep_view() =~= spec_when_choices(bv));
        assert forall|l: u64|
            spec_leaves(decider.deep_view()).contains(l) implies choices.deep_view(
        ).contains_key(l) by {}
    }
    let choice_decider = insert_choices(&choices, decider);
    proof {
        assert(choice_decider.deep_view() == spec_when_choice_decider(bv));
    }
    let jump_count = env.jump_counter;
    let result = decide_to_branching(
        cond_symbol,
        &cond_layout,
        &ret_layout,
        choice_decider,
        jump_count,
    );
    // advance the process-wide counter by the number of jump-reached goals
    env.jump_counter = env.jump_counter + (jumps.len() as u64);
    result
}

} // verus!
