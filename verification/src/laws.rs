//! Laws the lowering obeys, stated and proved over the spec mirrors.

use vstd::prelude::*;

use crate::branching::spec_when_choice_decider;
use crate::branching::spec_when_decider;
use crate::decider::ChoiceView;
use crate::decider::DeciderView;
use crate::decider::count_label;
use crate::decider::spec_insert_choices;
use crate::decider::spec_insert_arm_choices;
use crate::decider::spec_leaves;
use crate::decider::spec_arm_leaves;
use crate::decider::spec_tree_to_decider;
use crate::decision_tree::TestView;
use crate::decision_tree::TreeView;
use crate::decision_tree::spec_compile;
use crate::decision_tree::spec_flatten_one;
use crate::decision_tree::spec_flatten_pats;
use crate::decision_tree::spec_needs_tests;
use crate::decision_tree::spec_to_decision_tree;
use crate::decision_tree::BranchView;
use crate::ir::ExprView;
use crate::ir::LayoutView;
use crate::ir::PatternView;
use crate::ir::Path;

verus! {

// ---------------------------------------------------------------------
// An irrefutable branch lowers to its bare goal.
// ---------------------------------------------------------------------

/// A match of one branch whose pattern is irrefutable needs no test at
/// all: it compiles to the single-leaf decider of its goal.
pub proof fn lemma_irrefutable_single_branch(p: PatternView, goal: u64)
    requires
        !spec_needs_tests(p),
    ensures
        spec_to_decision_tree(
            Seq::new(1, |i: int| BranchView { goal, patterns: seq![(Path::Empty, p)] }),
        ) == TreeView::Match(goal),
        spec_tree_to_decider(spec_compile(seq![(p, goal)])) == DeciderView::<u64>::Leaf(goal),
{
    let rows = Seq::new(1, |i: int| BranchView { goal, patterns: seq![(Path::Empty, p)] });
    let flat = crate::decision_tree::spec_flatten_all(rows);
    assert(spec_flatten_one(Path::Empty, p) =~= seq![(Path::Empty, p)]);
    assert(rows[0].patterns.subrange(0, 0) =~= Seq::<(Path, PatternView)>::empty());
    assert(spec_flatten_pats(rows[0].patterns) == spec_flatten_pats(
        rows[0].patterns.subrange(0, 0),
    ) + spec_flatten_one(Path::Empty, p));
    assert(spec_flatten_pats(rows[0].patterns) =~= seq![(Path::Empty, p)]);
    assert(flat[0].patterns =~= seq![(Path::Empty, p)]);
    assert(crate::decision_tree::spec_irrefutable_row(flat[0])) by {
        assert(forall|i: int|
            0 <= i < flat[0].patterns.len() ==> (#[trigger] flat[0].patterns[i]).1 == p);
    }
    assert(spec_to_decision_tree(rows) == TreeView::Match(goal));
    let raw = seq![(p, goal)];
    assert(Seq::new(
        raw.len(),
        |i: int| BranchView { goal: raw[i].1, patterns: seq![(Path::Empty, raw[i].0)] },
    ) =~= rows);
}

// ---------------------------------------------------------------------
// Choice wrapping keeps the leaves, goal by goal.
// ---------------------------------------------------------------------

/// The choices at the leaves of a rewritten decider, in traversal
/// order.
pub open spec fn spec_choice_leaves(d: DeciderView<ChoiceView>) -> Seq<ChoiceView>
    decreases d,
{
    match d {
        DeciderView::Leaf(c) => seq![c],
        DeciderView::Chain { success, failure, .. } => spec_choice_leaves(*success)
            + spec_choice_leaves(*failure),
        DeciderView::FanOut { tests, fallback, .. } => spec_choice_leaves(*fallback)
            + spec_choice_arm_leaves(tests),
    }
}

/// The same, over the arms of a fan-out.
pub open spec fn spec_choice_arm_leaves(tests: Seq<(TestView, DeciderView<ChoiceView>)>) -> Seq<
    ChoiceView,
>
    decreases tests,
{
    if tests.len() == 0 {
        Seq::empty()
    } else {
        spec_choice_arm_leaves(tests.subrange(0, tests.len() - 1)) + spec_choice_leaves(
            tests[tests.len() - 1].1,
        )
    }
}

/// Each goal leaf, replaced by its choice.
pub open spec fn map_labels(m: Map<u64, ChoiceView>, s: Seq<u64>) -> Seq<ChoiceView> {
    Seq::new(s.len(), |i: int| m[s[i]])
}

/// Replacement distributes over concatenation.
proof fn lemma_map_labels_concat(m: Map<u64, ChoiceView>, a: Seq<u64>, b: Seq<u64>)
    ensures
        map_labels(m, a + b) =~= map_labels(m, a) + map_labels(m, b),
{
}

/// Inserting choices touches only the leaves: the rewritten decider's
/// leaf choices are exactly the goal leaves, each replaced by its
/// choice, in the same order.
pub proof fn lemma_insert_choices_leaves(m: Map<u64, ChoiceView>, d: DeciderView<u64>)
    ensures
        spec_choice_leaves(spec_insert_choices(m, d)) == map_labels(m, spec_leaves(d)),
    decreases d,
{
    match d {
        DeciderView::Leaf(t) => {
            assert(spec_choice_leaves(spec_insert_choices(m, d)) =~= map_labels(
                m,
                spec_leaves(d),
            ));
        }
        DeciderView::Chain { success, failure, .. } => {
            lemma_insert_choices_leaves(m, *success);
            lemma_insert_choices_leaves(m, *failure);
            lemma_map_labels_concat(m, spec_leaves(*success), spec_leaves(*failure));
        }
        DeciderView::FanOut { tests, fallback, .. } => {
            lemma_insert_choices_leaves(m, *fallback);
            lemma_insert_arm_choices_leaves(m, tests);
            lemma_map_labels_concat(m, spec_leaves(*fallback), spec_arm_leaves(tests));
        }
    }
}

/// The same, over the arms of a fan-out.
proof fn lemma_insert_arm_choices_leaves(
    m: Map<u64, ChoiceView>,
    tests: Seq<(TestView, DeciderView<u64>)>,
)
    ensures
        spec_choice_arm_leaves(spec_insert_arm_choices(m, tests)) == map_labels(
            m,
            spec_arm_leaves(tests),
        ),
    decreases tests,
{
    if tests.len() == 0 {
        assert(spec_choice_arm_leaves(spec_insert_arm_choices(m, tests)) =~= map_labels(
            m,
            spec_arm_leaves(tests),
        ));
    } else {
        let sub = tests.subrange(0, tests.len() - 1);
        lemma_insert_arm_choices_leaves(m, sub);
        lemma_insert_choices_leaves(m, tests[tests.len() - 1].1);
        lemma_map_labels_concat(m, spec_arm_leaves(sub), spec_leaves(tests[tests.len() - 1].1));
        crate::decider::lemma_insert_arm_choices_shape(m, tests);
        let ins = spec_insert_arm_choices(m, tests);
        assert(ins.subrange(0, ins.len() - 1) =~= spec_insert_arm_choices(m, sub));
        assert(ins[ins.len() - 1] == (tests[tests.len() - 1].0, spec_insert_choices(
            m,
            tests[tests.len() - 1].1,
        )));
    }
}

/// How often a choice occurs among the choice leaves.
pub open spec fn count_choice(s: Seq<ChoiceView>, c: ChoiceView) -> nat
    decreases s,
{
    if s.len() == 0 {
        0
    } else {
        count_choice(s.subrange(0, s.len() - 1), c) + if s[s.len() - 1] == c {
            1nat
        } else {
            0nat
        }
    }
}

/// Wrapping each goal in its choice changes no tally: as long as no
/// other goal of the decider receives the same choice, a goal's choice
/// occurs among the rewritten leaves exactly as often as the goal
/// itself occurred.
pub proof fn lemma_choice_wrapping_keeps_counts(
    m: Map<u64, ChoiceView>,
    d: DeciderView<u64>,
    l: u64,
)
    requires
        forall|x: u64| spec_leaves(d).contains(x) && m[x] == m[l] ==> x == l,
    ensures
        spec_choice_leaves(spec_insert_choices(m, d)).len() == spec_leaves(d).len(),
        count_choice(spec_choice_leaves(spec_insert_choices(m, d)), m[l]) == count_label(
            spec_leaves(d),
            l,
        ),
{
    lemma_insert_choices_leaves(m, d);
    lemma_count_map_labels(m, spec_leaves(d), l);
}

/// Counting through the replacement, for one goal whose choice no other
/// goal of the sequence shares.
proof fn lemma_count_map_labels(m: Map<u64, ChoiceView>, s: Seq<u64>, l: u64)
    requires
        forall|x: u64| s.contains(x) && m[x] == m[l] ==> x == l,
    ensures
        count_choice(map_labels(m, s), m[l]) == count_label(s, l),
    decreases s.len(),
{
    if s.len() > 0 {
        let sub = s.subrange(0, s.len() - 1);
        assert(forall|j: int| 0 <= j < sub.len() ==> #[trigger] sub[j] == s[j]);
        assert forall|x: u64| sub.contains(x) && m[x] == m[l] implies x == l by {
            let j = choose|j: int| 0 <= j < sub.len() && sub[j] == x;
            assert(s[j] == x);
            assert(s.contains(x));
        }
        lemma_count_map_labels(m, sub, l);
        assert(map_labels(m, s).subrange(0, s.len() - 1) =~= map_labels(m, sub));
        assert(map_labels(m, s)[s.len() - 1] == m[s[s.len() - 1]]);
        if m[s[s.len() - 1]] == m[l] {
            assert(s.contains(s[s.len() - 1]));
        }
    } else {
        assert(map_labels(m, s) =~= Seq::<ChoiceView>::empty());
    }
}

// ---------------------------------------------------------------------
// Each body is emitted at most once.
// ---------------------------------------------------------------------

/// A goal counted once has one leaf and no other.
proof fn lemma_count_unique(s: Seq<u64>, l: u64)
    requires
        count_label(s, l) == 1,
    ensures
        exists|i: int|
            0 <= i < s.len() && s[i] == l && (forall|j: int|
                0 <= j < s.len() && j != i ==> s[j] != l),
    decreases s.len(),
{
    let sub = s.subrange(0, s.len() - 1);
    assert(forall|j: int| 0 <= j < sub.len() ==> #[trigger] sub[j] == s[j]);
    if s[s.len() - 1] == l {
        crate::decider::lemma_count_label_contains(sub, l);
        let i = s.len() - 1;
        assert forall|j: int| 0 <= j < s.len() && j != i implies s[j] != l by {
            if s[j] == l {
                assert(sub[j] == l);
                assert(sub.contains(l));
            }
        }
        assert(s[i] == l && (forall|j: int| 0 <= j < s.len() && j != i ==> s[j] != l));
    } else {
        lemma_count_unique(sub, l);
        let i = choose|i: int|
            0 <= i < sub.len() && sub[i] == l && (forall|j: int|
                0 <= j < sub.len() && j != i ==> sub[j] != l);
        assert forall|j: int| 0 <= j < s.len() && j != i implies s[j] != l by {
            if j < s.len() - 1 {
                assert(sub[j] != l);
            }
        }
        assert(s[i] == l && (forall|j: int| 0 <= j < s.len() && j != i ==> s[j] != l));
    }
}

/// For every goal of a lowered match, the decider holds exactly one
/// inlined copy of its body, or one or more jumps to its label - never
/// both. A goal the decider reaches once is inlined at that single
/// leaf; one reached more often appears only as jumps, and a jump to a
/// goal's label stands nowhere else.
pub proof fn lemma_at_most_one_emission(branches: Seq<(PatternView, ExprView)>, l: u64)
    requires
        l < branches.len(),
        forall|x: u64|
            spec_leaves(spec_when_decider(branches)).contains(x) ==> x < branches.len(),
    ensures
        spec_choice_leaves(spec_when_choice_decider(branches)).len() == spec_leaves(
            spec_when_decider(branches),
        ).len(),
        count_label(spec_leaves(spec_when_decider(branches)), l) == 1 ==> exists|i: int|
            0 <= i < spec_leaves(spec_when_decider(branches)).len() && spec_leaves(
                spec_when_decider(branches),
            )[i] == l && spec_choice_leaves(spec_when_choice_decider(branches))[i]
                == ChoiceView::Inline(branches[l as int].1) && (forall|j: int|
                0 <= j < spec_leaves(spec_when_decider(branches)).len() && j != i
                    ==> spec_leaves(spec_when_decider(branches))[j] != l),
        count_label(spec_leaves(spec_when_decider(branches)), l) != 1 ==> forall|i: int|
            0 <= i < spec_leaves(spec_when_decider(branches)).len() && spec_leaves(
                spec_when_decider(branches),
            )[i] == l ==> spec_choice_leaves(spec_when_choice_decider(branches))[i]
                == ChoiceView::Jump(l),
        forall|i: int|
            0 <= i < spec_leaves(spec_when_decider(branches)).len() && spec_choice_leaves(
                spec_when_choice_decider(branches),
            )[i] == ChoiceView::Jump(l) ==> (spec_leaves(spec_when_decider(branches))[i] == l
                && count_label(spec_leaves(spec_when_decider(branches)), l) != 1),
{
    let leaves = spec_leaves(spec_when_decider(branches));
    let m = crate::branching::spec_when_choices(branches);
    lemma_insert_choices_leaves(m, spec_when_decider(branches));
    let cl = spec_choice_leaves(spec_when_choice_decider(branches));
    assert(cl == map_labels(m, leaves));
    if count_label(leaves, l) == 1 {
        lemma_count_unique(leaves, l);
        let i = choose|i: int|
            0 <= i < leaves.len() && leaves[i] == l && (forall|j: int|
                0 <= j < leaves.len() && j != i ==> leaves[j] != l);
        assert(cl[i] == m[l]);
        assert(m[l] == ChoiceView::Inline(branches[l as int].1));
    }
    assert forall|i: int|
        0 <= i < leaves.len() && cl[i] == ChoiceView::Jump(l) implies (leaves[i] == l
        && count_label(leaves, l) != 1) by {
        let x = leaves[i];
        assert(leaves.contains(x));
        assert(x < branches.len());
        assert(cl[i] == m[x]);
        if count_label(leaves, x) == 1 {
            assert(m[x] == ChoiceView::Inline(branches[x as int].1));
        } else {
            assert(m[x] == ChoiceView::Jump(x));
        }
    }
}

// ---------------------------------------------------------------------
// Jump labels never move backwards across matches.
// ---------------------------------------------------------------------

/// Every jump of the expression lands in `lo..hi`.
pub open spec fn spec_expr_jumps_in(e: ExprView, lo: int, hi: int) -> bool
    decreases e,
{
    match e {
        ExprView::Jump(l) => lo <= l < hi,
        ExprView::Load(_) => true,
        ExprView::Int(_) => true,
        ExprView::Float(_) => true,
        ExprView::Byte(_) => true,
        ExprView::Str(_) => true,
        ExprView::CallByName(_, args) => spec_args_jumps_in(args, lo, hi),
        ExprView::AccessAtIndex { expr, .. } => spec_expr_jumps_in(*expr, lo, hi),
        ExprView::Cond { cond, pass, fail, .. } => spec_expr_jumps_in(*cond, lo, hi)
            && spec_expr_jumps_in(*pass, lo, hi) && spec_expr_jumps_in(*fail, lo, hi),
        ExprView::Switch { cond, branches, default_branch, .. } => spec_expr_jumps_in(
            *cond,
            lo,
            hi,
        ) && spec_switch_jumps_in(branches, lo, hi) && spec_expr_jumps_in(
            *default_branch,
            lo,
            hi,
        ),
    }
}

/// The same, over call operands.
pub open spec fn spec_args_jumps_in(args: Seq<(ExprView, LayoutView)>, lo: int, hi: int) -> bool
    decreases args,
{
    if args.len() == 0 {
        true
    } else {
        spec_args_jumps_in(args.subrange(0, args.len() - 1), lo, hi) && spec_expr_jumps_in(
            args[args.len() - 1].0,
            lo,
            hi,
        )
    }
}

/// The same, over switch arms.
pub open spec fn spec_switch_jumps_in(branches: Seq<(u64, ExprView)>, lo: int, hi: int) -> bool
    decreases branches,
{
    if branches.len() == 0 {
        true
    } else {
        spec_switch_jumps_in(branches.subrange(0, branches.len() - 1), lo, hi)
            && spec_expr_jumps_in(branches[branches.len() - 1].1, lo, hi)
    }
}

/// An expression with no jump at all.
pub open spec fn spec_no_jumps(e: ExprView) -> bool {
    forall|lo: int, hi: int| spec_expr_jumps_in(e, lo, hi)
}

/// At every leaf, a jump choice's label stays below `bound` and an
/// inlined body carries no jumps of its own.
pub open spec fn spec_leaf_choices_ok(d: DeciderView<ChoiceView>, bound: int) -> bool
    decreases d,
{
    match d {
        DeciderView::Leaf(c) => match c {
            ChoiceView::Jump(l) => l < bound,
            ChoiceView::Inline(e) => spec_no_jumps(e),
        },
        DeciderView::Chain { success, failure, .. } => spec_leaf_choices_ok(*success, bound)
            && spec_leaf_choices_ok(*failure, bound),
        DeciderView::FanOut { tests, fallback, .. } => spec_leaf_choices_ok(*fallback, bound)
            && spec_arm_choices_ok(tests, bound),
    }
}

/// The same, over the arms of a fan-out.
pub open spec fn spec_arm_choices_ok(
    tests: Seq<(TestView, DeciderView<ChoiceView>)>,
    bound: int,
) -> bool
    decreases tests,
{
    if tests.len() == 0 {
        true
    } else {
        spec_arm_choices_ok(tests.subrange(0, tests.len() - 1), bound) && spec_leaf_choices_ok(
            tests[tests.len() - 1].1,
            bound,
        )
    }
}

/// The loading of a path emits no jumps.
proof fn lemma_path_no_jumps(
    symbol: crate::ir::Symbol,
    path: Path,
    is_unwrapped: bool,
    layout: LayoutView,
    lo: int,
    hi: int,
)
    ensures
        spec_expr_jumps_in(
            crate::branching::spec_path_to_expr(symbol, path, is_unwrapped, layout),
            lo,
            hi,
        ),
    decreases path,
{
    match path {
        Path::Unbox(inner) => {
            lemma_path_no_jumps(symbol, *inner, true, layout, lo, hi);
        }
        Path::Empty => {}
        Path::Index { index: _, path: inner } => {
            lemma_path_no_jumps(symbol, *inner, false, layout, lo, hi);
        }
    }
}

/// A test's comparison emits no jumps.
proof fn lemma_test_cond_no_jumps(
    symbol: crate::ir::Symbol,
    path: Path,
    test: TestView,
    lo: int,
    hi: int,
)
    ensures
        spec_expr_jumps_in(crate::branching::spec_test_cond(symbol, path, test), lo, hi),
{
    let e = crate::branching::spec_test_cond(symbol, path, test);
    let args = e->CallByName_1;
    assert(args.len() == 2);
    assert(args.subrange(0, 1).subrange(0, 0) =~= Seq::<(ExprView, LayoutView)>::empty());
    assert(args.subrange(0, 1)[0] == args[0]);
    match test {
        TestView::IsCtor { union, .. } => {
            lemma_path_no_jumps(
                symbol,
                path,
                false,
                crate::branching::spec_int64_layout(),
                lo,
                hi,
            );
        }
        TestView::IsInt(_) => {
            lemma_path_no_jumps(
                symbol,
                path,
                false,
                crate::branching::spec_int64_layout(),
                lo,
                hi,
            );
        }
        TestView::IsFloat(_) => {
            lemma_path_no_jumps(
                symbol,
                path,
                false,
                crate::branching::spec_float64_layout(),
                lo,
                hi,
            );
        }
        TestView::IsByte { .. } => {
            lemma_path_no_jumps(
                symbol,
                path,
                false,
                crate::branching::spec_byte_layout(),
                lo,
                hi,
            );
        }
        TestView::IsBit(_) => {
            lemma_path_no_jumps(
                symbol,
                path,
                false,
                crate::branching::spec_byte_layout(),
                lo,
                hi,
            );
        }
        TestView::IsStr(_) => {
            lemma_path_no_jumps(
                symbol,
                path,
                false,
                crate::branching::spec_str_layout(),
                lo,
                hi,
            );
        }
    }
    reveal_with_fuel(spec_args_jumps_in, 3);
    assert(spec_expr_jumps_in(args[0].0, lo, hi));
    assert(spec_expr_jumps_in(args[1].0, lo, hi));
    assert(args.subrange(0, 0) =~= Seq::<(ExprView, LayoutView)>::empty());
    assert(args.subrange(0, 1).subrange(0, args.subrange(0, 1).len() - 1) =~= args.subrange(
        0,
        0,
    ));
    assert(spec_args_jumps_in(args.subrange(0, 1), lo, hi));
    assert(args.subrange(0, args.len() - 1) =~= args.subrange(0, 1));
    assert(spec_args_jumps_in(args, lo, hi));
}

/// A chain keeps its jumps within those of its two continuations.
proof fn lemma_chain_jumps(
    symbol: crate::ir::Symbol,
    chain: Seq<(Path, TestView)>,
    success: ExprView,
    failure: ExprView,
    ret_layout: LayoutView,
    lo: int,
    hi: int,
)
    requires
        spec_expr_jumps_in(success, lo, hi),
        spec_expr_jumps_in(failure, lo, hi),
    ensures
        spec_expr_jumps_in(
            crate::branching::spec_chain_expr(symbol, chain, success, failure, ret_layout),
            lo,
            hi,
        ),
    decreases chain.len(),
{
    if chain.len() > 0 {
        lemma_test_cond_no_jumps(symbol, chain[0].0, chain[0].1, lo, hi);
        lemma_chain_jumps(
            symbol,
            chain.subrange(1, chain.len() as int),
            success,
            failure,
            ret_layout,
            lo,
            hi,
        );
    }
}

/// The emitted IR of a decider keeps every jump within the window the
/// counter opens: at least the counter, below the counter plus the
/// label bound.
proof fn lemma_decide_jumps(
    symbol: crate::ir::Symbol,
    cond_layout: LayoutView,
    ret_layout: LayoutView,
    d: DeciderView<ChoiceView>,
    jump_count: u64,
    bound: int,
)
    requires
        spec_leaf_choices_ok(d, bound),
        crate::branching::spec_jumps_ok(d, jump_count),
    ensures
        spec_expr_jumps_in(
            crate::branching::spec_decide(symbol, cond_layout, ret_layout, d, jump_count),
            jump_count as int,
            jump_count + bound,
        ),
    decreases d, 0nat,
{
    let lo = jump_count as int;
    let hi = jump_count + bound;
    match d {
        DeciderView::Leaf(c) => match c {
            ChoiceView::Jump(l) => {
                assert(l + jump_count <= u64::MAX);
                assert(((l + jump_count) as u64) == l + jump_count);
            }
            ChoiceView::Inline(e) => {
                assert(spec_expr_jumps_in(e, lo, hi));
            }
        },
        DeciderView::Chain { test_chain, success, failure } => {
            lemma_decide_jumps(symbol, cond_layout, ret_layout, *success, jump_count, bound);
            lemma_decide_jumps(symbol, cond_layout, ret_layout, *failure, jump_count, bound);
            lemma_chain_jumps(
                symbol,
                test_chain,
                crate::branching::spec_decide(
                    symbol,
                    cond_layout,
                    ret_layout,
                    *success,
                    jump_count,
                ),
                crate::branching::spec_decide(
                    symbol,
                    cond_layout,
                    ret_layout,
                    *failure,
                    jump_count,
                ),
                ret_layout,
                lo,
                hi,
            );
        }
        DeciderView::FanOut { path, tests, fallback } => {
            lemma_path_no_jumps(symbol, path, false, cond_layout, lo, hi);
            lemma_decide_jumps(symbol, cond_layout, ret_layout, *fallback, jump_count, bound);
            lemma_decide_arms_jumps(symbol, cond_layout, ret_layout, tests, jump_count, bound);
        }
    }
}

/// The same, over the arms of a fan-out.
proof fn lemma_decide_arms_jumps(
    symbol: crate::ir::Symbol,
    cond_layout: LayoutView,
    ret_layout: LayoutView,
    tests: Seq<(TestView, DeciderView<ChoiceView>)>,
    jump_count: u64,
    bound: int,
)
    requires
        spec_arm_choices_ok(tests, bound),
        crate::branching::spec_arms_jumps_ok(tests, jump_count),
    ensures
        spec_switch_jumps_in(
            crate::branching::spec_decide_arms(
                symbol,
                cond_layout,
                ret_layout,
                tests,
                jump_count,
            ),
            jump_count as int,
            jump_count + bound,
        ),
    decreases tests, 1nat,
{
    if tests.len() > 0 {
        let sub = tests.subrange(0, tests.len() - 1);
        lemma_decide_arms_jumps(symbol, cond_layout, ret_layout, sub, jump_count, bound);
        lemma_decide_jumps(
            symbol,
            cond_layout,
            ret_layout,
            tests[tests.len() - 1].1,
            jump_count,
            bound,
        );
        let whole = crate::branching::spec_decide_arms(
            symbol,
            cond_layout,
            ret_layout,
            tests,
            jump_count,
        );
        assert(whole.subrange(0, whole.len() - 1) =~= crate::branching::spec_decide_arms(
            symbol,
            cond_layout,
            ret_layout,
            sub,
            jump_count,
        ));
        assert(whole[whole.len() - 1].1 == crate::branching::spec_decide(
            symbol,
            cond_layout,
            ret_layout,
            tests[tests.len() - 1].1,
            jump_count,
        ));
    }
}

/// Each leaf of the lowered match receives a choice that stays in
/// bounds: a jump label below the number of jump-reached goals when
/// those goals come first, an inlined body free of jumps.
proof fn lemma_when_choices_ok(branches: Seq<(PatternView, ExprView)>, bound: int)
    requires
        forall|x: u64|
            spec_leaves(spec_when_decider(branches)).contains(x) ==> x < branches.len(),
        forall|x: u64|
            spec_leaves(spec_when_decider(branches)).contains(x) && count_label(
                spec_leaves(spec_when_decider(branches)),
                x,
            ) != 1 ==> x < bound,
        forall|i: int| 0 <= i < branches.len() ==> spec_no_jumps((#[trigger] branches[i]).1),
    ensures
        spec_leaf_choices_ok(spec_when_choice_decider(branches), bound),
{
    let m = crate::branching::spec_when_choices(branches);
    let dec = spec_when_decider(branches);
    let leaves = spec_leaves(dec);
    lemma_leaf_choices_pointwise(m, dec, bound, leaves);
}

/// The structural bound follows from the per-leaf bound.
proof fn lemma_leaf_choices_pointwise(
    m: Map<u64, ChoiceView>,
    d: DeciderView<u64>,
    bound: int,
    all: Seq<u64>,
)
    requires
        forall|x: u64|
            all.contains(x) ==> (m[x] matches ChoiceView::Jump(l) ==> l < bound),
        forall|x: u64|
            all.contains(x) ==> (m[x] matches ChoiceView::Inline(e) ==> spec_no_jumps(e)),
        forall|x: u64| spec_leaves(d).contains(x) ==> all.contains(x),
    ensures
        spec_leaf_choices_ok(spec_insert_choices(m, d), bound),
    decreases d,
{
    match d {
        DeciderView::Leaf(t) => {
            assert(spec_leaves(d)[0] == t);
            assert(spec_leaves(d).contains(t));
            assert(all.contains(t));
            match m[t] {
                ChoiceView::Jump(l) => {
                    assert(l < bound);
                }
                ChoiceView::Inline(e) => {
                    assert(spec_no_jumps(e));
                }
            }
        }
        DeciderView::Chain { success, failure, .. } => {
            assert forall|x: u64|
                spec_leaves(*success).contains(x) implies all.contains(x) by {
                lemma_concat_contains_left(spec_leaves(*success), spec_leaves(*failure), x);
            }
            assert forall|x: u64|
                spec_leaves(*failure).contains(x) implies all.contains(x) by {
                lemma_concat_contains_right(spec_leaves(*success), spec_leaves(*failure), x);
            }
            lemma_leaf_choices_pointwise(m, *success, bound, all);
            lemma_leaf_choices_pointwise(m, *failure, bound, all);
        }
        DeciderView::FanOut { tests, fallback, .. } => {
            assert forall|x: u64|
                spec_leaves(*fallback).contains(x) implies all.contains(x) by {
                lemma_concat_contains_left(spec_leaves(*fallback), spec_arm_leaves(tests), x);
            }
            lemma_leaf_choices_pointwise(m, *fallback, bound, all);
            lemma_leaf_arm_choices_pointwise(m, tests, bound, all, spec_leaves(*fallback));
        }
    }
}

/// The same, over the arms of a fan-out; `before` holds the leaves that
/// precede the arms in the traversal.
proof fn lemma_leaf_arm_choices_pointwise(
    m: Map<u64, ChoiceView>,
    tests: Seq<(TestView, DeciderView<u64>)>,
    bound: int,
    all: Seq<u64>,
    before: Seq<u64>,
)
    requires
        forall|x: u64|
            all.contains(x) ==> (m[x] matches ChoiceView::Jump(l) ==> l < bound),
        forall|x: u64|
            all.contains(x) ==> (m[x] matches ChoiceView::Inline(e) ==> spec_no_jumps(e)),
        forall|x: u64| (before + spec_arm_leaves(tests)).contains(x) ==> all.contains(x),
    ensures
        spec_arm_choices_ok(spec_insert_arm_choices(m, tests), bound),
    decreases tests,
{
    if tests.len() > 0 {
        let sub = tests.subrange(0, tests.len() - 1);
        assert forall|x: u64|
            (before + spec_arm_leaves(sub)).contains(x) implies all.contains(x) by {
            lemma_concat_split(before, spec_arm_leaves(sub), x);
            if before.contains(x) {
                lemma_concat_contains_left(before, spec_arm_leaves(tests), x);
            } else {
                lemma_concat_contains_left(spec_arm_leaves(sub), spec_leaves(tests[tests.len() - 1].1), x);
                lemma_concat_contains_right(before, spec_arm_leaves(tests), x);
            }
        }
        lemma_leaf_arm_choices_pointwise(m, sub, bound, all, before);
        assert forall|x: u64|
            spec_leaves(tests[tests.len() - 1].1).contains(x) implies all.contains(x) by {
            lemma_concat_contains_right(
                spec_arm_leaves(sub),
                spec_leaves(tests[tests.len() - 1].1),
                x,
            );
            lemma_concat_contains_right(before, spec_arm_leaves(tests), x);
        }
        lemma_leaf_choices_pointwise(m, tests[tests.len() - 1].1, bound, all);
        crate::decider::lemma_insert_arm_choices_shape(m, tests);
        let ins = spec_insert_arm_choices(m, tests);
        assert(ins.subrange(0, ins.len() - 1) =~= spec_insert_arm_choices(m, sub));
        assert(ins[ins.len() - 1].1 == spec_insert_choices(m, tests[tests.len() - 1].1));
    }
}

/// Membership on the left of a concatenation.
proof fn lemma_concat_contains_left(a: Seq<u64>, b: Seq<u64>, x: u64)
    requires
        a.contains(x),
    ensures
        (a + b).contains(x),
{
    let i = choose|i: int| 0 <= i < a.len() && a[i] == x;
    assert((a + b)[i] == x);
}

/// Membership on the right of a concatenation.
proof fn lemma_concat_contains_right(a: Seq<u64>, b: Seq<u64>, x: u64)
    requires
        b.contains(x),
    ensures
        (a + b).contains(x),
{
    let i = choose|i: int| 0 <= i < b.len() && b[i] == x;
    assert((a + b)[a.len() + i] == x);
}

/// Membership in a concatenation is membership in one part.
proof fn lemma_concat_split(a: Seq<u64>, b: Seq<u64>, x: u64)
    requires
        (a + b).contains(x),
    ensures
        a.contains(x) || b.contains(x),
{
    let i = choose|i: int| 0 <= i < (a + b).len() && (a + b)[i] == x;
    if i < a.len() {
        assert(a[i] == x);
    } else {
        assert(b[i - a.len()] == x);
    }
}

/// Labels never move backwards across two matches lowered on one
/// environment. With the jump-reached goals of the first match coming
/// first among its goals, and no jumps inside the branch bodies, every
/// jump of the first match's IR lies below the counter the second
/// match starts from, and every jump of the second match's IR lies at
/// or above it.
pub proof fn lemma_label_monotonicity(
    c0: u64,
    cond_symbol1: crate::ir::Symbol,
    cond_symbol2: crate::ir::Symbol,
    cond_layout: LayoutView,
    ret_layout: LayoutView,
    b1: Seq<(PatternView, ExprView)>,
    b2: Seq<(PatternView, ExprView)>,
)
    requires
        forall|x: u64| spec_leaves(spec_when_decider(b1)).contains(x) ==> x < b1.len(),
        forall|x: u64| spec_leaves(spec_when_decider(b2)).contains(x) ==> x < b2.len(),
        forall|x: u64|
            spec_leaves(spec_when_decider(b1)).contains(x) && count_label(
                spec_leaves(spec_when_decider(b1)),
                x,
            ) != 1 ==> x < crate::branching::spec_num_jumps(b1, b1.len() as nat),
        forall|i: int| 0 <= i < b1.len() ==> spec_no_jumps((#[trigger] b1[i]).1),
        forall|i: int| 0 <= i < b2.len() ==> spec_no_jumps((#[trigger] b2[i]).1),
        crate::branching::spec_jumps_ok(spec_when_choice_decider(b1), c0),
        crate::branching::spec_jumps_ok(
            spec_when_choice_decider(b2),
            (c0 + crate::branching::spec_num_jumps(b1, b1.len() as nat)) as u64,
        ),
        c0 + crate::branching::spec_num_jumps(b1, b1.len() as nat) <= u64::MAX,
    ensures
        spec_expr_jumps_in(
            crate::branching::spec_optimize_when_expr(c0, cond_symbol1, cond_layout, ret_layout, b1),
            c0 as int,
            c0 + crate::branching::spec_num_jumps(b1, b1.len() as nat),
        ),
        spec_expr_jumps_in(
            crate::branching::spec_optimize_when_expr(
                (c0 + crate::branching::spec_num_jumps(b1, b1.len() as nat)) as u64,
                cond_symbol2,
                cond_layout,
                ret_layout,
                b2,
            ),
            c0 + crate::branching::spec_num_jumps(b1, b1.len() as nat),
            c0 + crate::branching::spec_num_jumps(b1, b1.len() as nat) + b2.len(),
        ),
{
    let k1 = crate::branching::spec_num_jumps(b1, b1.len() as nat);
    let c1 = (c0 + k1) as u64;
    lemma_when_choices_ok(b1, k1 as int);
    lemma_decide_jumps(
        cond_symbol1,
        cond_layout,
        ret_layout,
        spec_when_choice_decider(b1),
        c0,
        k1 as int,
    );
    lemma_when_choices_ok(b2, b2.len() as int);
    lemma_decide_jumps(
        cond_symbol2,
        cond_layout,
        ret_layout,
        spec_when_choice_decider(b2),
        c1,
        b2.len() as int,
    );
}

} // verus!
