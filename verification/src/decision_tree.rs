//! Lowering of `when`/`match` branches into a decision tree: path
//! selection, edge gathering and recursive refinement.
//!
//! Every function of the construction has a spec-level mirror over the
//! view types; the executable code is proved to compute exactly the
//! mirror's result.

use vstd::prelude::*;

use crate::ir::Path;
use crate::ir::Pattern;
use crate::ir::LayoutView;
use crate::ir::PatternView;
use crate::ir::TagName;
use crate::ir::TagNameView;
use crate::ir::Union;
use crate::ir::UnionView;
use crate::ir::pattern_eq;
use crate::ir::path_eq;
use crate::ir::tag_name_eq;
use crate::ir::union_eq;
use crate::Label;

verus! {

/// The observable test the compiler will emit on the value reached by a
/// path.
#[derive(Debug)]
pub enum Test {
    IsCtor { tag_id: u8, tag_name: TagName, union: Union, arguments: Vec<Pattern> },
    IsInt(i64),
    /// Float patterns are stored as their bit pattern so they are
    /// comparable and hashable.
    IsFloat(u64),
    IsStr(String),
    IsBit(bool),
    IsByte { tag_id: u8, num_alts: usize },
}

#[verifier::ext_equal]
pub enum TestView {
    IsCtor { tag_id: u8, tag_name: TagNameView, union: UnionView, arguments: Seq<PatternView> },
    IsInt(i64),
    IsFloat(u64),
    IsStr(Seq<char>),
    IsBit(bool),
    IsByte { tag_id: u8, num_alts: usize },
}

impl DeepView for Test {
    type V = TestView;

    open spec fn deep_view(&self) -> TestView {
        match self {
            Test::IsCtor { tag_id, tag_name, union, arguments } => TestView::IsCtor {
                tag_id: *tag_id,
                tag_name: tag_name.deep_view(),
                union: union.deep_view(),
                arguments: arguments.deep_view(),
            },
            Test::IsInt(v) => TestView::IsInt(*v),
            Test::IsFloat(v) => TestView::IsFloat(*v),
            Test::IsStr(v) => TestView::IsStr(v@),
            Test::IsBit(v) => TestView::IsBit(*v),
            Test::IsByte { tag_id, num_alts } => TestView::IsByte {
                tag_id: *tag_id,
                num_alts: *num_alts,
            },
        }
    }
}

/// One row of the match: the label of its body, and the pattern each
/// still-untested position must satisfy.
#[derive(Debug)]
pub struct Branch {
    pub goal: Label,
    pub patterns: Vec<(Path, Pattern)>,
}

#[verifier::ext_equal]
pub struct BranchView {
    pub goal: Label,
    pub patterns: Seq<(Path, PatternView)>,
}

impl DeepView for Branch {
    type V = BranchView;

    open spec fn deep_view(&self) -> BranchView {
        BranchView { goal: self.goal, patterns: self.patterns.deep_view() }
    }
}

/// The n-ary decision tree: a label once the first row is decided, or a
/// decision over the tests seen at one path.
#[derive(Debug)]
pub enum DecisionTree {
    Match(Label),
    Decision {
        path: Path,
        edges: Vec<(Test, DecisionTree)>,
        default: Option<Box<DecisionTree>>,
    },
}

#[verifier::ext_equal]
pub enum TreeView {
    Match(Label),
    Decision { path: Path, edges: Seq<(TestView, TreeView)>, default: Option<Box<TreeView>> },
}

impl DeepView for DecisionTree {
    type V = TreeView;

    open spec fn deep_view(&self) -> TreeView
        decreases self,
    {
        match self {
            DecisionTree::Match(goal) => TreeView::Match(*goal),
            DecisionTree::Decision { path, edges, default } => TreeView::Decision {
                path: *path,
                edges: tree_edge_views(edges@),
                default: match default {
                    Some(d) => Some(Box::new((**d).deep_view())),
                    None => None,
                },
            },
        }
    }
}

/// The views of a sequence of decision edges.
pub open spec fn tree_edge_views(edges: Seq<(Test, DecisionTree)>) -> Seq<(TestView, TreeView)>
    decreases edges,
{
    if edges.len() == 0 {
        Seq::empty()
    } else {
        tree_edge_views(edges.subrange(0, edges.len() - 1)).push(
            (edges[edges.len() - 1].0.deep_view(), edges[edges.len() - 1].1.deep_view()),
        )
    }
}

/// `tree_edge_views` is the pointwise view.
pub proof fn lemma_tree_edge_views(edges: Seq<(Test, DecisionTree)>)
    ensures
        tree_edge_views(edges).len() == edges.len(),
        forall|i: int| 0 <= i < edges.len() ==> #[trigger] tree_edge_views(edges)[i] == (
            edges[i].0.deep_view(),
            edges[i].1.deep_view(),
        ),
    decreases edges.len(),
{
    if edges.len() > 0 {
        let sub = edges.subrange(0, edges.len() - 1);
        lemma_tree_edge_views(sub);
        assert(tree_edge_views(edges) == tree_edge_views(sub).push(
            (edges[edges.len() - 1].0.deep_view(), edges[edges.len() - 1].1.deep_view()),
        ));
        assert forall|i: int| 0 <= i < edges.len() implies #[trigger] tree_edge_views(edges)[i]
            == (edges[i].0.deep_view(), edges[i].1.deep_view()) by {
            if i < edges.len() - 1 {
                assert(tree_edge_views(edges)[i] == tree_edge_views(sub)[i]);
                assert(sub[i] == edges[i]);
            }
        }
    }
}

/// Structural equality of tests.
#[verifier::loop_isolation(false)]
pub fn test_eq(a: &Test, b: &Test) -> (r: bool)
    ensures
        r == (a.deep_view() == b.deep_view()),
{
    match (a, b) {
        (
            Test::IsCtor { tag_id: t1, tag_name: n1, union: u1, arguments: a1 },
            Test::IsCtor { tag_id: t2, tag_name: n2, union: u2, arguments: a2 },
        ) => {
            if !(*t1 == *t2 && tag_name_eq(n1, n2) && union_eq(u1, u2)) {
                return false;
            }
            if a1.len() != a2.len() {
                proof {
                    assert(a.deep_view()->IsCtor_arguments.len() == a1@.len());
                    assert(b.deep_view()->IsCtor_arguments.len() == a2@.len());
                }
                return false;
            }
            let mut i: usize = 0;
            while i < a1.len()
                invariant
                    0 <= i <= a1@.len() == a2@.len(),
                    forall|j: int| 0 <= j < i ==> #[trigger] a1@[j].deep_view()
                        == a2@[j].deep_view(),
                decreases a1@.len() - i,
            {
                if !pattern_eq(&a1[i], &a2[i]) {
                    proof {
                        assert(a1.deep_view()[i as int] != a2.deep_view()[i as int]);
                    }
                    return false;
                }
                i = i + 1;
            }
            proof {
                assert(a1.deep_view() =~= a2.deep_view());
            }
            true
        }
        (Test::IsInt(x), Test::IsInt(y)) => *x == *y,
        (Test::IsFloat(x), Test::IsFloat(y)) => *x == *y,
        (Test::IsStr(x), Test::IsStr(y)) => *x == *y,
        (Test::IsBit(x), Test::IsBit(y)) => *x == *y,
        (
            Test::IsByte { tag_id: t1, num_alts: n1 },
            Test::IsByte { tag_id: t2, num_alts: n2 },
        ) => *t1 == *t2 && *n1 == *n2,
        _ => false,
    }
}

// ---------------------------------------------------------------------
// Paths: the ancestor order.
// ---------------------------------------------------------------------

/// Whether `p` lies at or below `q`: the value reached by `p` is inside
/// the value reached by `q`.
pub open spec fn path_under(p: Path, q: Path) -> bool
    decreases p,
{
    p == q || match p {
        Path::Index { index: _, path: pp } => path_under(*pp, q),
        Path::Unbox(pp) => path_under(*pp, q),
        Path::Empty => false,
    }
}

/// The number of steps a path takes from the scrutinee root.
pub open spec fn path_depth(p: Path) -> nat
    decreases p,
{
    match p {
        Path::Index { index: _, path: pp } => 1 + path_depth(*pp),
        Path::Unbox(pp) => 1 + path_depth(*pp),
        Path::Empty => 0,
    }
}

/// Lying below only ever adds steps.
pub proof fn lemma_path_under_depth(p: Path, q: Path)
    requires
        path_under(p, q),
    ensures
        path_depth(p) >= path_depth(q),
    decreases p,
{
    if p != q {
        match p {
            Path::Index { index: _, path: pp } => lemma_path_under_depth(*pp, q),
            Path::Unbox(pp) => lemma_path_under_depth(*pp, q),
            Path::Empty => {}
        }
    }
}

/// The ancestor order is transitive.
pub proof fn lemma_path_under_trans(p: Path, q: Path, r: Path)
    requires
        path_under(p, q),
        path_under(q, r),
    ensures
        path_under(p, r),
    decreases p,
{
    if p != q {
        match p {
            Path::Index { index: _, path: pp } => lemma_path_under_trans(*pp, q, r),
            Path::Unbox(pp) => lemma_path_under_trans(*pp, q, r),
            Path::Empty => {}
        }
    }
}

/// Two ancestors of one path lie on one chain: one is an ancestor of the
/// other.
pub proof fn lemma_path_under_chain(p: Path, q: Path, r: Path)
    requires
        path_under(p, q),
        path_under(p, r),
    ensures
        path_under(q, r) || path_under(r, q),
    decreases p,
{
    if p == q || p == r {
    } else {
        match p {
            Path::Index { index: _, path: pp } => lemma_path_under_chain(*pp, q, r),
            Path::Unbox(pp) => lemma_path_under_chain(*pp, q, r),
            Path::Empty => {}
        }
    }
}

// ---------------------------------------------------------------------
// Sizes: the measure the recursive refinement decreases.
// ---------------------------------------------------------------------

/// The number of refutable pattern nodes in a pattern: what is left for
/// the refinement to test. Irrefutable patterns count nothing.
pub open spec fn pattern_size(p: PatternView) -> nat
    decreases p,
{
    match p {
        PatternView::AppliedTag { arguments, .. } => 1 + args_size(arguments),
        PatternView::BitLiteral(_) => 1,
        PatternView::EnumLiteral { .. } => 1,
        PatternView::IntLiteral(_) => 1,
        PatternView::FloatLiteral(_) => 1,
        PatternView::StrLiteral(_) => 1,
        _ => 0,
    }
}

/// The summed size of constructor arguments.
pub open spec fn args_size(args: Seq<(PatternView, LayoutView)>) -> nat
    decreases args,
{
    if args.len() == 0 {
        0
    } else {
        args_size(args.subrange(0, args.len() - 1)) + pattern_size(args[args.len() - 1].0)
    }
}

/// The summed size of a row's remaining patterns.
pub open spec fn pats_size(pats: Seq<(Path, PatternView)>) -> nat
    decreases pats,
{
    if pats.len() == 0 {
        0
    } else {
        pats_size(pats.subrange(0, pats.len() - 1)) + pattern_size(pats[pats.len() - 1].1)
    }
}

/// The size of one branch.
pub open spec fn branch_size(b: BranchView) -> nat {
    pats_size(b.patterns)
}

/// The summed size of a branch list.
pub open spec fn branches_size(bs: Seq<BranchView>) -> nat
    decreases bs,
{
    if bs.len() == 0 {
        0
    } else {
        branches_size(bs.subrange(0, bs.len() - 1)) + branch_size(bs[bs.len() - 1])
    }
}

// ---------------------------------------------------------------------
// The mirror of the construction, stated over views.
// ---------------------------------------------------------------------

/// Whether a pattern still forces a test; the irrefutable patterns,
/// record destructuring among them, do not.
pub open spec fn spec_needs_tests(p: PatternView) -> bool {
    match p {
        PatternView::Identifier(_) => false,
        PatternView::Underscore => false,
        PatternView::Shadowed(_) => false,
        PatternView::UnsupportedPattern(_) => false,
        PatternView::RecordDestructure(_, _) => false,
        _ => true,
    }
}

/// The flattening of one `(path, pattern)` entry: a single-alternative
/// constructor carries no information, so its lone argument is promoted
/// behind `Unbox`, and its arguments otherwise take indexed positions;
/// everything else passes through.
pub open spec fn spec_flatten_one(path: Path, p: PatternView) -> Seq<(Path, PatternView)>
    decreases p,
{
    match p {
        PatternView::AppliedTag { union, arguments, .. } => {
            if union.alternatives.len() == 1 {
                if arguments.len() == 1 {
                    spec_flatten_one(Path::Unbox(Box::new(path)), arguments[0].0)
                } else {
                    spec_flatten_args(path, arguments)
                }
            } else {
                seq![(path, p)]
            }
        }
        _ => seq![(path, p)],
    }
}

/// The flattening of a constructor's arguments, each at its indexed
/// position.
pub open spec fn spec_flatten_args(path: Path, args: Seq<(PatternView, LayoutView)>) -> Seq<
    (Path, PatternView),
>
    decreases args,
{
    if args.len() == 0 {
        Seq::empty()
    } else {
        spec_flatten_args(path, args.subrange(0, args.len() - 1)) + spec_flatten_one(
            Path::Index { index: (args.len() - 1) as u64, path: Box::new(path) },
            args[args.len() - 1].0,
        )
    }
}

/// The flattening of a whole row, entry by entry.
pub open spec fn spec_flatten_pats(pats: Seq<(Path, PatternView)>) -> Seq<(Path, PatternView)>
    decreases pats,
{
    if pats.len() == 0 {
        Seq::empty()
    } else {
        spec_flatten_pats(pats.subrange(0, pats.len() - 1)) + spec_flatten_one(
            pats[pats.len() - 1].0,
            pats[pats.len() - 1].1,
        )
    }
}

/// The flattening of one branch.
pub open spec fn spec_flatten_branch(b: BranchView) -> BranchView {
    BranchView { goal: b.goal, patterns: spec_flatten_pats(b.patterns) }
}

/// The flattening of every branch.
pub open spec fn spec_flatten_all(bs: Seq<BranchView>) -> Seq<BranchView> {
    Seq::new(bs.len(), |i: int| spec_flatten_branch(bs[i]))
}

/// Whether a whole row is irrefutable: nothing in it needs a test.
pub open spec fn spec_irrefutable_row(b: BranchView) -> bool {
    forall|i: int| 0 <= i < b.patterns.len() ==> !spec_needs_tests(#[trigger] b.patterns[i].1)
}

/// The base case of the refinement: once the first row is wholly
/// irrefutable its goal is the match, and later rows are discarded.
pub open spec fn spec_check_for_match(bs: Seq<BranchView>) -> Option<Label> {
    if bs.len() > 0 && spec_irrefutable_row(bs[0]) {
        Some(bs[0].goal)
    } else {
        None
    }
}

/// The position of the first entry of `pats` at `path`, or -1.
pub open spec fn spec_find_index(path: Path, pats: Seq<(Path, PatternView)>) -> int
    decreases pats,
{
    if pats.len() == 0 {
        -1
    } else if pats[0].0 == path {
        0
    } else {
        let r = spec_find_index(path, pats.subrange(1, pats.len() as int));
        if r < 0 {
            -1
        } else {
            r + 1
        }
    }
}

/// What `spec_find_index` finds: the first entry at `path`.
pub proof fn lemma_find_index(path: Path, pats: Seq<(Path, PatternView)>)
    ensures
        spec_find_index(path, pats) < 0 ==> forall|i: int|
            0 <= i < pats.len() ==> (#[trigger] pats[i]).0 != path,
        spec_find_index(path, pats) >= 0 ==> {
            let k = spec_find_index(path, pats);
            &&& k < pats.len()
            &&& pats[k].0 == path
            &&& forall|i: int| 0 <= i < k ==> (#[trigger] pats[i]).0 != path
        },
    decreases pats,
{
    if pats.len() > 0 && pats[0].0 != path {
        let sub = pats.subrange(1, pats.len() as int);
        lemma_find_index(path, sub);
        assert forall|i: int| 1 <= i < pats.len() implies sub[i - 1] == pats[i] by {}
    }
}

/// The test a pattern stands for, if it needs one.
pub open spec fn spec_pattern_test(p: PatternView) -> Option<TestView> {
    match p {
        PatternView::AppliedTag { tag_name, tag_id, arguments, union } => Some(
            TestView::IsCtor {
                tag_id,
                tag_name,
                union,
                arguments: Seq::new(arguments.len(), |i: int| arguments[i].0),
            },
        ),
        PatternView::BitLiteral(b) => Some(TestView::IsBit(b)),
        PatternView::EnumLiteral { tag_id, enum_size } => Some(
            TestView::IsByte { tag_id, num_alts: enum_size as usize },
        ),
        PatternView::IntLiteral(v) => Some(TestView::IsInt(v)),
        PatternView::FloatLiteral(v) => Some(TestView::IsFloat(v)),
        PatternView::StrLiteral(s) => Some(TestView::IsStr(s)),
        _ => None,
    }
}

/// The test a branch contributes at `path`: the test of the first
/// pattern found there, none when nothing is found or the pattern is
/// irrefutable.
pub open spec fn spec_test_at_path(path: Path, b: BranchView) -> Option<TestView> {
    let k = spec_find_index(path, b.patterns);
    if k < 0 {
        None
    } else {
        spec_pattern_test(b.patterns[k].1)
    }
}

/// The deduplicated, order-preserving list of tests the branches put at
/// `path`: the order of first appearance.
pub open spec fn spec_tests_at_path(path: Path, bs: Seq<BranchView>) -> Seq<TestView>
    decreases bs,
{
    if bs.len() == 0 {
        Seq::empty()
    } else {
        let prev = spec_tests_at_path(path, bs.subrange(0, bs.len() - 1));
        match spec_test_at_path(path, bs[bs.len() - 1]) {
            Option::None => prev,
            Option::Some(t) => if prev.contains(t) {
                prev
            } else {
                prev.push(t)
            },
        }
    }
}

/// Whether the last collected test closes the set: all alternatives of
/// its kind are covered. Int, float and string tests never close.
pub open spec fn spec_is_complete(tests: Seq<TestView>) -> bool {
    if tests.len() == 0 {
        false
    } else {
        match tests[tests.len() - 1] {
            TestView::IsCtor { union, .. } => tests.len() == union.alternatives.len(),
            TestView::IsByte { num_alts, .. } => tests.len() == num_alts,
            TestView::IsBit(_) => tests.len() == 2,
            _ => false,
        }
    }
}

/// The entries a matched constructor leaves behind: its lone argument
/// behind `Unbox` when the union has a single alternative, its arguments
/// at indexed positions otherwise.
pub open spec fn spec_ctor_expansion(path: Path, single_alt: bool, args: Seq<PatternView>) -> Seq<
    (Path, PatternView),
> {
    if args.len() == 1 && single_alt {
        seq![(Path::Unbox(Box::new(path)), args[0])]
    } else {
        Seq::new(
            args.len(),
            |i: int| (Path::Index { index: i as u64, path: Box::new(path) }, args[i]),
        )
    }
}

/// What remains of a branch on the edge of `test`: kept verbatim when
/// the branch says nothing refutable at `path`, kept with the matched
/// pattern replaced by its sub-patterns when it agrees with the test,
/// and dropped otherwise.
pub open spec fn spec_to_relevant_branch(test: TestView, path: Path, b: BranchView) -> Option<
    BranchView,
> {
    let k = spec_find_index(path, b.patterns);
    if k < 0 {
        Some(b)
    } else {
        let found = b.patterns[k].1;
        let start = b.patterns.subrange(0, k);
        let end = b.patterns.subrange(k + 1, b.patterns.len() as int);
        match found {
            PatternView::AppliedTag { tag_name, arguments, union, .. } => match test {
                TestView::IsCtor { tag_name: test_name, .. } => if tag_name == test_name {
                    Some(
                        BranchView {
                            goal: b.goal,
                            patterns: start + spec_ctor_expansion(
                                path,
                                union.alternatives.len() == 1,
                                Seq::new(arguments.len(), |i: int| arguments[i].0),
                            ) + end,
                        },
                    )
                } else {
                    None
                },
                _ => None,
            },
            PatternView::StrLiteral(sv) => match test {
                TestView::IsStr(ts) => if sv == ts {
                    Some(BranchView { goal: b.goal, patterns: start + end })
                } else {
                    None
                },
                _ => None,
            },
            PatternView::IntLiteral(iv) => match test {
                TestView::IsInt(ti) => if iv == ti {
                    Some(BranchView { goal: b.goal, patterns: start + end })
                } else {
                    None
                },
                _ => None,
            },
            PatternView::FloatLiteral(fv) => match test {
                TestView::IsFloat(tf) => if fv == tf {
                    Some(BranchView { goal: b.goal, patterns: start + end })
                } else {
                    None
                },
                _ => None,
            },
            PatternView::BitLiteral(bv) => match test {
                TestView::IsBit(tb) => if bv == tb {
                    Some(BranchView { goal: b.goal, patterns: start + end })
                } else {
                    None
                },
                _ => None,
            },
            PatternView::EnumLiteral { tag_id, .. } => match test {
                TestView::IsByte { tag_id: test_id, .. } => if tag_id == test_id {
                    Some(BranchView { goal: b.goal, patterns: start + end })
                } else {
                    None
                },
                _ => None,
            },
            _ => Some(b),
        }
    }
}

/// The branches that stay relevant on the edge of `test`.
pub open spec fn spec_relevant_branches(test: TestView, path: Path, bs: Seq<BranchView>) -> Seq<
    BranchView,
>
    decreases bs,
{
    if bs.len() == 0 {
        Seq::empty()
    } else {
        let prev = spec_relevant_branches(test, path, bs.subrange(0, bs.len() - 1));
        match spec_to_relevant_branch(test, path, bs[bs.len() - 1]) {
            Option::Some(b) => prev.push(b),
            Option::None => prev,
        }
    }
}

/// One edge per collected test, in collection order.
pub open spec fn spec_edges(path: Path, bs: Seq<BranchView>, tests: Seq<TestView>) -> Seq<
    (TestView, Seq<BranchView>),
>
    decreases tests,
{
    if tests.len() == 0 {
        Seq::empty()
    } else {
        spec_edges(path, bs, tests.subrange(0, tests.len() - 1)).push(
            (
                tests[tests.len() - 1],
                spec_relevant_branches(tests[tests.len() - 1], path, bs),
            ),
        )
    }
}

/// Whether a branch ignores `path`: no entry there, or only an
/// irrefutable one.
pub open spec fn spec_is_irrelevant_to(path: Path, b: BranchView) -> bool {
    let k = spec_find_index(path, b.patterns);
    k < 0 || !spec_needs_tests(b.patterns[k].1)
}

/// The branches that fall through every test at `path`.
pub open spec fn spec_fallback(path: Path, bs: Seq<BranchView>) -> Seq<BranchView>
    decreases bs,
{
    if bs.len() == 0 {
        Seq::empty()
    } else {
        let prev = spec_fallback(path, bs.subrange(0, bs.len() - 1));
        if spec_is_irrelevant_to(path, bs[bs.len() - 1]) {
            prev.push(bs[bs.len() - 1])
        } else {
            prev
        }
    }
}

/// The edges and the fallback set at `path`; a complete test set leaves
/// no fallback.
pub open spec fn spec_gather_edges(bs: Seq<BranchView>, path: Path) -> (
    Seq<(TestView, Seq<BranchView>)>,
    Seq<BranchView>,
) {
    let tests = spec_tests_at_path(path, bs);
    let edges = spec_edges(path, bs, tests);
    let fallback = if spec_is_complete(tests) {
        Seq::empty()
    } else {
        spec_fallback(path, bs)
    };
    (edges, fallback)
}

// ---------------------------------------------------------------------
// Path picking.
// ---------------------------------------------------------------------

/// The candidate paths one row offers: the positions of its refutable
/// patterns, in row order.
pub open spec fn spec_branch_choice_paths(pats: Seq<(Path, PatternView)>) -> Seq<Path>
    decreases pats,
{
    if pats.len() == 0 {
        Seq::empty()
    } else {
        let prev = spec_branch_choice_paths(pats.subrange(0, pats.len() - 1));
        if spec_needs_tests(pats[pats.len() - 1].1) {
            prev.push(pats[pats.len() - 1].0)
        } else {
            prev
        }
    }
}

/// All candidate paths, branch by branch.
pub open spec fn spec_choice_paths(bs: Seq<BranchView>) -> Seq<Path>
    decreases bs,
{
    if bs.len() == 0 {
        Seq::empty()
    } else {
        spec_choice_paths(bs.subrange(0, bs.len() - 1)) + spec_branch_choice_paths(
            bs[bs.len() - 1].patterns,
        )
    }
}

/// The first heuristic's weight: how many branches ignore the path.
pub open spec fn spec_small_defaults(bs: Seq<BranchView>, path: Path) -> nat
    decreases bs,
{
    if bs.len() == 0 {
        0
    } else {
        spec_small_defaults(bs.subrange(0, bs.len() - 1), path) + if spec_is_irrelevant_to(
            path,
            bs[bs.len() - 1],
        ) {
            1nat
        } else {
            0nat
        }
    }
}

/// The second heuristic's weight: how many ways the decision at the path
/// branches, the fallback counted as one.
pub open spec fn spec_small_branching_factor(bs: Seq<BranchView>, path: Path) -> nat {
    let (edges, fallback) = spec_gather_edges(bs, path);
    (edges.len() + if fallback.len() == 0 {
        0nat
    } else {
        1nat
    }) as nat
}

/// The least `spec_small_defaults` weight among the paths.
pub open spec fn spec_min_defaults(bs: Seq<BranchView>, paths: Seq<Path>) -> nat
    decreases paths,
{
    if paths.len() <= 1 {
        if paths.len() == 0 {
            0
        } else {
            spec_small_defaults(bs, paths[0])
        }
    } else {
        let prev = spec_min_defaults(bs, paths.subrange(0, paths.len() - 1));
        let w = spec_small_defaults(bs, paths[paths.len() - 1]);
        if w < prev {
            w
        } else {
            prev
        }
    }
}

/// The paths that attain the least `spec_small_defaults` weight, in
/// encounter order.
pub open spec fn spec_bests_defaults(bs: Seq<BranchView>, paths: Seq<Path>) -> Seq<Path>
    decreases paths,
{
    if paths.len() == 0 {
        Seq::empty()
    } else if paths.len() == 1 {
        seq![paths[0]]
    } else {
        let prev = spec_bests_defaults(bs, paths.subrange(0, paths.len() - 1));
        let prev_min = spec_min_defaults(bs, paths.subrange(0, paths.len() - 1));
        let w = spec_small_defaults(bs, paths[paths.len() - 1]);
        if w < prev_min {
            seq![paths[paths.len() - 1]]
        } else if w == prev_min {
            prev.push(paths[paths.len() - 1])
        } else {
            prev
        }
    }
}

/// The least `spec_small_branching_factor` weight among the paths.
pub open spec fn spec_min_branching(bs: Seq<BranchView>, paths: Seq<Path>) -> nat
    decreases paths,
{
    if paths.len() <= 1 {
        if paths.len() == 0 {
            0
        } else {
            spec_small_branching_factor(bs, paths[0])
        }
    } else {
        let prev = spec_min_branching(bs, paths.subrange(0, paths.len() - 1));
        let w = spec_small_branching_factor(bs, paths[paths.len() - 1]);
        if w < prev {
            w
        } else {
            prev
        }
    }
}

/// The paths that attain the least branching factor, in encounter order.
pub open spec fn spec_bests_branching(bs: Seq<BranchView>, paths: Seq<Path>) -> Seq<Path>
    decreases paths,
{
    if paths.len() == 0 {
        Seq::empty()
    } else if paths.len() == 1 {
        seq![paths[0]]
    } else {
        let prev = spec_bests_branching(bs, paths.subrange(0, paths.len() - 1));
        let prev_min = spec_min_branching(bs, paths.subrange(0, paths.len() - 1));
        let w = spec_small_branching_factor(bs, paths[paths.len() - 1]);
        if w < prev_min {
            seq![paths[paths.len() - 1]]
        } else if w == prev_min {
            prev.push(paths[paths.len() - 1])
        } else {
            prev
        }
    }
}

/// The picked path: the one that leaves the fewest branches to the
/// fallback, ties broken by the smallest branching factor, final ties by
/// the last candidate in encounter order.
pub open spec fn spec_pick_path(bs: Seq<BranchView>) -> Path {
    let all = spec_choice_paths(bs);
    let by_defaults = spec_bests_defaults(bs, all);
    if by_defaults.len() == 1 {
        by_defaults[0]
    } else {
        let by_branching = spec_bests_branching(bs, by_defaults);
        by_branching[by_branching.len() - 1]
    }
}

// ---------------------------------------------------------------------
// Size lemmas: what the refinement leaves always weighs less.
// ---------------------------------------------------------------------

/// Sizes add over concatenation of rows.
pub proof fn lemma_pats_size_concat(a: Seq<(Path, PatternView)>, b: Seq<(Path, PatternView)>)
    ensures
        pats_size(a + b) == pats_size(a) + pats_size(b),
    decreases b.len(),
{
    if b.len() == 0 {
        assert(a + b =~= a);
    } else {
        let b0 = b.subrange(0, b.len() - 1);
        lemma_pats_size_concat(a, b0);
        assert((a + b).subrange(0, (a + b).len() - 1) =~= a + b0);
        assert((a + b)[(a + b).len() - 1] == b[b.len() - 1]);
    }
}

/// The size of one row entry, split out of its row.
pub proof fn lemma_pats_size_split(pats: Seq<(Path, PatternView)>, k: int)
    requires
        0 <= k < pats.len(),
    ensures
        pats_size(pats) == pats_size(pats.subrange(0, k)) + pattern_size(pats[k].1) + pats_size(
            pats.subrange(k + 1, pats.len() as int),
        ),
{
    let start = pats.subrange(0, k);
    let mid = pats.subrange(k, k + 1);
    let end = pats.subrange(k + 1, pats.len() as int);
    assert(pats =~= start + mid + end);
    lemma_pats_size_concat(start + mid, end);
    lemma_pats_size_concat(start, mid);
    assert(mid.subrange(0, 0) =~= Seq::<(Path, PatternView)>::empty());
    reveal_with_fuel(pats_size, 2);
    assert(pats_size(mid) == pattern_size(mid[0].1));
}

/// Every entry weighs no more than its row.
pub proof fn lemma_pats_size_index(pats: Seq<(Path, PatternView)>, k: int)
    requires
        0 <= k < pats.len(),
    ensures
        pats_size(pats) >= pattern_size(pats[k].1),
{
    lemma_pats_size_split(pats, k);
}

/// Sizes add over concatenation of branch lists.
pub proof fn lemma_branches_size_concat(a: Seq<BranchView>, b: Seq<BranchView>)
    ensures
        branches_size(a + b) == branches_size(a) + branches_size(b),
    decreases b.len(),
{
    if b.len() == 0 {
        assert(a + b =~= a);
    } else {
        let b0 = b.subrange(0, b.len() - 1);
        lemma_branches_size_concat(a, b0);
        assert((a + b).subrange(0, (a + b).len() - 1) =~= a + b0);
        assert((a + b)[(a + b).len() - 1] == b[b.len() - 1]);
    }
}

/// The size of one branch, split out of its list.
pub proof fn lemma_branches_size_split(bs: Seq<BranchView>, k: int)
    requires
        0 <= k < bs.len(),
    ensures
        branches_size(bs) == branches_size(bs.subrange(0, k)) + branch_size(bs[k])
            + branches_size(bs.subrange(k + 1, bs.len() as int)),
{
    let start = bs.subrange(0, k);
    let mid = bs.subrange(k, k + 1);
    let end = bs.subrange(k + 1, bs.len() as int);
    assert(bs =~= start + mid + end);
    lemma_branches_size_concat(start + mid, end);
    lemma_branches_size_concat(start, mid);
    assert(mid.subrange(0, 0) =~= Seq::<BranchView>::empty());
    reveal_with_fuel(branches_size, 2);
    assert(branches_size(mid) == branch_size(mid[0]));
}

/// A pattern needs a test exactly when it stands for one, and such a
/// pattern always weighs at least one.
pub proof fn lemma_pattern_test_needs(p: PatternView)
    ensures
        spec_pattern_test(p) is Some <==> spec_needs_tests(p),
        spec_needs_tests(p) ==> pattern_size(p) >= 1,
{
}

/// The summed weight of the bare argument patterns equals the weight of
/// the paired arguments they came from.
pub open spec fn plain_args_size(args: Seq<PatternView>) -> nat
    decreases args,
{
    if args.len() == 0 {
        0
    } else {
        plain_args_size(args.subrange(0, args.len() - 1)) + pattern_size(args[args.len() - 1])
    }
}

/// Dropping the layouts keeps the weight.
pub proof fn lemma_plain_args_size(arguments: Seq<(PatternView, LayoutView)>)
    ensures
        plain_args_size(Seq::new(arguments.len(), |i: int| arguments[i].0)) == args_size(
            arguments,
        ),
    decreases arguments.len(),
{
    let mapped = Seq::new(arguments.len(), |i: int| arguments[i].0);
    if arguments.len() > 0 {
        let sub = arguments.subrange(0, arguments.len() - 1);
        lemma_plain_args_size(sub);
        assert(mapped.subrange(0, mapped.len() - 1) =~= Seq::new(sub.len(), |i: int| sub[i].0));
    }
}

/// What a matched constructor leaves weighs exactly its arguments: the
/// constructor node itself is gone.
pub proof fn lemma_ctor_expansion_size(path: Path, single_alt: bool, args: Seq<PatternView>)
    ensures
        pats_size(spec_ctor_expansion(path, single_alt, args)) == plain_args_size(args),
    decreases args.len(),
{
    if args.len() == 1 && single_alt {
        let e = spec_ctor_expansion(path, single_alt, args);
        assert(e.subrange(0, 0) =~= Seq::<(Path, PatternView)>::empty());
        assert(args.subrange(0, 0) =~= Seq::<PatternView>::empty());
        reveal_with_fuel(pats_size, 2);
        reveal_with_fuel(plain_args_size, 2);
        assert(pats_size(e) == pattern_size(args[0]));
    } else {
        lemma_indexed_expansion_size(path, args);
    }
}

/// The indexed expansion weighs its argument patterns.
proof fn lemma_indexed_expansion_size(path: Path, args: Seq<PatternView>)
    ensures
        pats_size(
            Seq::new(
                args.len(),
                |i: int| (Path::Index { index: i as u64, path: Box::new(path) }, args[i]),
            ),
        ) == plain_args_size(args),
    decreases args.len(),
{
    let e = Seq::new(
        args.len(),
        |i: int| (Path::Index { index: i as u64, path: Box::new(path) }, args[i]),
    );
    if args.len() > 0 {
        let sub = args.subrange(0, args.len() - 1);
        lemma_indexed_expansion_size(path, sub);
        assert(e.subrange(0, e.len() - 1) =~= Seq::new(
            sub.len(),
            |i: int| (Path::Index { index: i as u64, path: Box::new(path) }, sub[i]),
        ));
    }
}

/// What stays of a branch on an edge never weighs more; when the branch
/// itself contributed the edge's test, it weighs strictly less.
pub proof fn lemma_to_relevant_branch_size(test: TestView, path: Path, b: BranchView)
    ensures
        spec_to_relevant_branch(test, path, b) matches Some(b2) ==> branch_size(b2)
            <= branch_size(b),
        spec_test_at_path(path, b) == Some(test) ==> (spec_to_relevant_branch(test, path, b)
            matches Some(b2) && branch_size(b2) < branch_size(b)),
{
    let k = spec_find_index(path, b.patterns);
    lemma_find_index(path, b.patterns);
    if k >= 0 {
        let found = b.patterns[k].1;
        let start = b.patterns.subrange(0, k);
        let end = b.patterns.subrange(k + 1, b.patterns.len() as int);
        lemma_pats_size_split(b.patterns, k);
        lemma_pats_size_concat(start, end);
        match found {
            PatternView::AppliedTag { tag_name, arguments, union, .. } => {
                if test matches TestView::IsCtor { tag_name: tn, .. } && tag_name == tn {
                    let args0 = Seq::new(arguments.len(), |i: int| arguments[i].0);
                    let expansion = spec_ctor_expansion(
                        path,
                        union.alternatives.len() == 1,
                        args0,
                    );
                    lemma_ctor_expansion_size(path, union.alternatives.len() == 1, args0);
                    lemma_plain_args_size(arguments);
                    lemma_pats_size_concat(start + expansion, end);
                    lemma_pats_size_concat(start, expansion);
                }
            }
            _ => {}
        }
    }
}

/// The branches kept on an edge never weigh more than what went in; a
/// branch that contributed the test makes them weigh strictly less.
pub proof fn lemma_relevant_branches_size(test: TestView, path: Path, bs: Seq<BranchView>)
    ensures
        branches_size(spec_relevant_branches(test, path, bs)) <= branches_size(bs),
        (exists|i: int|
            0 <= i < bs.len() && spec_test_at_path(path, #[trigger] bs[i]) == Some(test))
            ==> branches_size(spec_relevant_branches(test, path, bs)) < branches_size(bs),
    decreases bs.len(),
{
    if bs.len() > 0 {
        let sub = bs.subrange(0, bs.len() - 1);
        let last = bs[bs.len() - 1];
        lemma_relevant_branches_size(test, path, sub);
        lemma_to_relevant_branch_size(test, path, last);
        match spec_to_relevant_branch(test, path, last) {
            Option::Some(b2) => {
                let rb = spec_relevant_branches(test, path, sub).push(b2);
                assert(rb.subrange(0, rb.len() - 1) =~= spec_relevant_branches(test, path, sub));
                assert(branches_size(rb) == branches_size(spec_relevant_branches(test, path, sub))
                    + branch_size(b2));
            }
            Option::None => {}
        }
        assert(bs.subrange(0, bs.len() - 1) == sub);
        assert(branches_size(bs) == branches_size(sub) + branch_size(last));
        if exists|i: int|
            0 <= i < bs.len() && spec_test_at_path(path, #[trigger] bs[i]) == Some(test) {
            let w = choose|i: int|
                0 <= i < bs.len() && spec_test_at_path(path, #[trigger] bs[i]) == Some(test);
            if w < bs.len() - 1 {
                assert(sub[w] == bs[w]);
                assert(exists|i: int|
                    0 <= i < sub.len() && spec_test_at_path(path, #[trigger] sub[i]) == Some(
                        test,
                    ));
            }
        }
    }
}

/// Every collected test was contributed by some branch.
pub proof fn lemma_tests_at_path_witness(path: Path, bs: Seq<BranchView>, t: TestView)
    requires
        spec_tests_at_path(path, bs).contains(t),
    ensures
        exists|i: int| 0 <= i < bs.len() && spec_test_at_path(path, #[trigger] bs[i]) == Some(t),
    decreases bs.len(),
{
    let sub = bs.subrange(0, bs.len() - 1);
    let prev = spec_tests_at_path(path, sub);
    if prev.contains(t) {
        lemma_tests_at_path_witness(path, sub, t);
        let i = choose|i: int|
            0 <= i < sub.len() && spec_test_at_path(path, #[trigger] sub[i]) == Some(t);
        assert(bs[i] == sub[i]);
        assert(spec_test_at_path(path, bs[i]) == Some(t));
    } else {
        assert(spec_test_at_path(path, bs[bs.len() - 1]) == Some(t));
    }
}

/// A branch that contributes a test at `path` is not irrelevant to it.
pub proof fn lemma_contributor_not_irrelevant(path: Path, b: BranchView)
    requires
        spec_test_at_path(path, b) is Some,
    ensures
        !spec_is_irrelevant_to(path, b),
        branch_size(b) >= 1,
{
    let k = spec_find_index(path, b.patterns);
    lemma_find_index(path, b.patterns);
    lemma_pattern_test_needs(b.patterns[k].1);
    lemma_pats_size_index(b.patterns, k);
}

/// The fallback never weighs more; when some branch is relevant to the
/// path it weighs strictly less.
pub proof fn lemma_fallback_size(path: Path, bs: Seq<BranchView>)
    ensures
        branches_size(spec_fallback(path, bs)) <= branches_size(bs),
        (exists|i: int| 0 <= i < bs.len() && !spec_is_irrelevant_to(path, #[trigger] bs[i]))
            ==> branches_size(spec_fallback(path, bs)) < branches_size(bs),
        forall|i: int|
            0 <= i < spec_fallback(path, bs).len() ==> exists|j: int|
                0 <= j < bs.len() && #[trigger] spec_fallback(path, bs)[i] == bs[j],
    decreases bs.len(),
{
    if bs.len() > 0 {
        let sub = bs.subrange(0, bs.len() - 1);
        let last = bs[bs.len() - 1];
        lemma_fallback_size(path, sub);
        let fb = spec_fallback(path, bs);
        let fbp = spec_fallback(path, sub);
        assert(forall|j: int| 0 <= j < sub.len() ==> #[trigger] sub[j] == bs[j]);
        assert(branches_size(bs) == branches_size(sub) + branch_size(last));
        if spec_is_irrelevant_to(path, last) {
            assert(fb == fbp.push(last));
            assert(fb.subrange(0, fb.len() - 1) =~= fbp);
            assert(branches_size(fb) == branches_size(fbp) + branch_size(last));
        }
        if !spec_is_irrelevant_to(path, last) {
            let k = spec_find_index(path, last.patterns);
            lemma_find_index(path, last.patterns);
            lemma_pats_size_index(last.patterns, k);
        }
        if exists|i: int| 0 <= i < bs.len() && !spec_is_irrelevant_to(path, #[trigger] bs[i]) {
            let w = choose|i: int|
                0 <= i < bs.len() && !spec_is_irrelevant_to(path, #[trigger] bs[i]);
            if w < bs.len() - 1 {
                assert(!spec_is_irrelevant_to(path, sub[w]));
            }
        }
        assert forall|i: int| 0 <= i < fb.len() implies exists|j: int|
            0 <= j < bs.len() && #[trigger] fb[i] == bs[j] by {
            if spec_is_irrelevant_to(path, last) && i == fb.len() - 1 {
                assert(fb[i] == bs[bs.len() - 1]);
            } else {
                assert(fb[i] == fbp[i]);
                let j = choose|j: int| 0 <= j < sub.len() && fbp[i] == #[trigger] sub[j];
                assert(fb[i] == bs[j]);
            }
        }
    }
}

/// The shape of the gathered edges: one per test, in order.
pub proof fn lemma_edges_shape(path: Path, bs: Seq<BranchView>, tests: Seq<TestView>)
    ensures
        spec_edges(path, bs, tests).len() == tests.len(),
        forall|i: int| 0 <= i < tests.len() ==> #[trigger] spec_edges(path, bs, tests)[i] == (
            tests[i],
            spec_relevant_branches(tests[i], path, bs),
        ),
    decreases tests.len(),
{
    if tests.len() > 0 {
        let sub = tests.subrange(0, tests.len() - 1);
        lemma_edges_shape(path, bs, sub);
        assert forall|i: int| 0 <= i < tests.len() implies #[trigger] spec_edges(
            path,
            bs,
            tests,
        )[i] == (tests[i], spec_relevant_branches(tests[i], path, bs)) by {
            if i < tests.len() - 1 {
                assert(spec_edges(path, bs, tests)[i] == spec_edges(path, bs, sub)[i]);
                assert(sub[i] == tests[i]);
            }
        }
    }
}

/// The largest branch-list weight among the edges.
pub open spec fn edges_measure(edges: Seq<(TestView, Seq<BranchView>)>) -> nat
    decreases edges,
{
    if edges.len() == 0 {
        0
    } else {
        let prev = edges_measure(edges.subrange(0, edges.len() - 1));
        let w = branches_size(edges[edges.len() - 1].1);
        if w > prev {
            w
        } else {
            prev
        }
    }
}

/// The measure bounds every edge, and stays below any bound that bounds
/// them all.
pub proof fn lemma_edges_measure(edges: Seq<(TestView, Seq<BranchView>)>, bound: nat)
    requires
        forall|i: int| 0 <= i < edges.len() ==> branches_size((#[trigger] edges[i]).1) < bound,
    ensures
        forall|i: int|
            0 <= i < edges.len() ==> branches_size((#[trigger] edges[i]).1) <= edges_measure(
                edges,
            ),
        edges.len() > 0 ==> edges_measure(edges) < bound,
        edges.len() == 0 ==> edges_measure(edges) == 0,
    decreases edges.len(),
{
    if edges.len() > 0 {
        let sub = edges.subrange(0, edges.len() - 1);
        assert(forall|i: int| 0 <= i < sub.len() ==> #[trigger] sub[i] == edges[i]);
        lemma_edges_measure(sub, bound);
        if sub.len() == 0 {
        }
        assert forall|i: int|
            0 <= i < edges.len() implies branches_size((#[trigger] edges[i]).1)
            <= edges_measure(edges) by {
            if i < edges.len() - 1 {
                assert(branches_size(sub[i].1) <= edges_measure(sub));
            }
        }
    }
}

/// A sub-list of the edges never has a larger measure.
pub proof fn lemma_edges_measure_prefix(edges: Seq<(TestView, Seq<BranchView>)>)
    requires
        edges.len() > 0,
    ensures
        edges_measure(edges.subrange(0, edges.len() - 1)) <= edges_measure(edges),
        branches_size(edges[edges.len() - 1].1) <= edges_measure(edges),
{
}

// ---------------------------------------------------------------------
// Flattening lemmas.
// ---------------------------------------------------------------------

/// Flattening one entry never adds weight.
pub proof fn lemma_flatten_one_size(path: Path, p: PatternView)
    ensures
        pats_size(spec_flatten_one(path, p)) <= pattern_size(p),
    decreases p,
{
    reveal_with_fuel(pats_size, 2);
    match p {
        PatternView::AppliedTag { union, arguments, .. } => {
            if union.alternatives.len() == 1 {
                if arguments.len() == 1 {
                    lemma_flatten_one_size(Path::Unbox(Box::new(path)), arguments[0].0);
                    reveal_with_fuel(args_size, 2);
                    assert(args_size(arguments.subrange(0, 0)) == 0) by {
                        assert(arguments.subrange(0, 0) =~= Seq::<
                            (PatternView, LayoutView),
                        >::empty());
                    }
                } else {
                    lemma_flatten_args_size(path, arguments);
                }
            }
        }
        _ => {}
    }
}

/// Flattening a constructor's arguments never adds weight.
pub proof fn lemma_flatten_args_size(path: Path, args: Seq<(PatternView, LayoutView)>)
    ensures
        pats_size(spec_flatten_args(path, args)) <= args_size(args),
    decreases args,
{
    if args.len() > 0 {
        let sub = args.subrange(0, args.len() - 1);
        lemma_flatten_args_size(path, sub);
        lemma_flatten_one_size(
            Path::Index { index: (args.len() - 1) as u64, path: Box::new(path) },
            args[args.len() - 1].0,
        );
        lemma_pats_size_concat(
            spec_flatten_args(path, sub),
            spec_flatten_one(
                Path::Index { index: (args.len() - 1) as u64, path: Box::new(path) },
                args[args.len() - 1].0,
            ),
        );
    }
}

/// Flattening a row never adds weight.
pub proof fn lemma_flatten_pats_size(pats: Seq<(Path, PatternView)>)
    ensures
        pats_size(spec_flatten_pats(pats)) <= pats_size(pats),
    decreases pats,
{
    if pats.len() > 0 {
        let sub = pats.subrange(0, pats.len() - 1);
        lemma_flatten_pats_size(sub);
        lemma_flatten_one_size(pats[pats.len() - 1].0, pats[pats.len() - 1].1);
        lemma_pats_size_concat(
            spec_flatten_pats(sub),
            spec_flatten_one(pats[pats.len() - 1].0, pats[pats.len() - 1].1),
        );
    }
}

/// Flattening the branch list never adds weight, and keeps its length
/// and goals.
pub proof fn lemma_flatten_all_size(bs: Seq<BranchView>)
    ensures
        branches_size(spec_flatten_all(bs)) <= branches_size(bs),
        spec_flatten_all(bs).len() == bs.len(),
    decreases bs.len(),
{
    if bs.len() > 0 {
        let sub = bs.subrange(0, bs.len() - 1);
        lemma_flatten_all_size(sub);
        assert(spec_flatten_all(bs).subrange(0, bs.len() - 1) =~= spec_flatten_all(sub));
        lemma_flatten_pats_size(bs[bs.len() - 1].patterns);
        assert(branches_size(spec_flatten_all(bs)) == branches_size(spec_flatten_all(sub))
            + branch_size(spec_flatten_all(bs)[bs.len() - 1]));
    }
}

// ---------------------------------------------------------------------
// Prefix-freeness: no row tests a position inside another of its
// positions, which keeps the first entry found at a path the only one.
// ---------------------------------------------------------------------

/// No entry of the row lies at or below another.
pub open spec fn pats_prefix_free(pats: Seq<(Path, PatternView)>) -> bool {
    forall|i: int, j: int|
        0 <= i < pats.len() && 0 <= j < pats.len() && i != j ==> !path_under(
            (#[trigger] pats[i]).0,
            (#[trigger] pats[j]).0,
        )
}

/// Every row of the list is prefix-free.
pub open spec fn branches_prefix_free(bs: Seq<BranchView>) -> bool {
    forall|i: int| 0 <= i < bs.len() ==> pats_prefix_free((#[trigger] bs[i]).patterns)
}

/// Two paths at the same depth on one chain are the same path.
pub proof fn lemma_path_under_same_depth(p: Path, q: Path)
    requires
        path_under(p, q),
        path_depth(p) == path_depth(q),
    ensures
        p == q,
    decreases p,
{
    if p != q {
        match p {
            Path::Index { index: _, path: pp } => {
                lemma_path_under_depth(*pp, q);
            }
            Path::Unbox(pp) => {
                lemma_path_under_depth(*pp, q);
            }
            Path::Empty => {}
        }
    }
}

/// Descendants of incomparable positions are incomparable.
pub proof fn lemma_incomparable_descendants(a: Path, b: Path, pa: Path, pb: Path)
    requires
        path_under(a, pa),
        path_under(b, pb),
        !path_under(pa, pb),
        !path_under(pb, pa),
    ensures
        !path_under(a, b),
{
    if path_under(a, b) {
        lemma_path_under_chain(a, b, pa);
        if path_under(b, pa) {
            lemma_path_under_chain(b, pa, pb);
        } else {
            lemma_path_under_trans(pa, b, pb);
        }
    }
}

/// Sibling positions of one value are incomparable.
pub proof fn lemma_siblings_incomparable(path: Path, i: u64, j: u64)
    requires
        i != j,
    ensures
        !path_under(
            Path::Index { index: i, path: Box::new(path) },
            Path::Index { index: j, path: Box::new(path) },
        ),
{
    let p = Path::Index { index: i, path: Box::new(path) };
    let q = Path::Index { index: j, path: Box::new(path) };
    if path_under(p, q) {
        lemma_path_under_same_depth(p, q);
    }
}

/// With a prefix-free row, the first entry found at a path is the only
/// one, so a refutable entry there is what the search finds.
pub proof fn lemma_prefix_free_first_found(path: Path, b: BranchView, j: int)
    requires
        pats_prefix_free(b.patterns),
        0 <= j < b.patterns.len(),
        b.patterns[j].0 == path,
        spec_needs_tests(b.patterns[j].1),
    ensures
        spec_test_at_path(path, b) is Some,
        spec_find_index(path, b.patterns) == j,
    decreases b.patterns.len(),
{
    lemma_find_index(path, b.patterns);
    let k = spec_find_index(path, b.patterns);
    assert(k >= 0);
    if k != j {
        assert(path_under(b.patterns[k].0, b.patterns[j].0));
    }
    lemma_pattern_test_needs(b.patterns[j].1);
}

/// Every edge of the gathered decision weighs strictly less than what
/// went in; once any test is collected, so does the fallback.
pub proof fn lemma_gather_edges_sizes(bs: Seq<BranchView>, path: Path)
    ensures
        spec_gather_edges(bs, path).0.len() == spec_tests_at_path(path, bs).len(),
        forall|i: int|
            0 <= i < spec_gather_edges(bs, path).0.len() ==> branches_size(
                (#[trigger] spec_gather_edges(bs, path).0[i]).1,
            ) < branches_size(bs),
        spec_tests_at_path(path, bs).len() > 0 ==> branches_size(spec_gather_edges(bs, path).1)
            < branches_size(bs),
        branches_size(spec_gather_edges(bs, path).1) <= branches_size(bs),
{
    let tests = spec_tests_at_path(path, bs);
    let edges = spec_gather_edges(bs, path).0;
    let fallback = spec_gather_edges(bs, path).1;
    lemma_edges_shape(path, bs, tests);
    assert forall|i: int| 0 <= i < edges.len() implies branches_size((#[trigger] edges[i]).1)
        < branches_size(bs) by {
        let t = tests[i];
        assert(tests.contains(t));
        lemma_tests_at_path_witness(path, bs, t);
        lemma_relevant_branches_size(t, path, bs);
    }
    lemma_fallback_size(path, bs);
    if tests.len() > 0 {
        assert(tests.contains(tests[0]));
        lemma_tests_at_path_witness(path, bs, tests[0]);
        let w = choose|i: int|
            0 <= i < bs.len() && spec_test_at_path(path, #[trigger] bs[i]) == Some(tests[0]);
        lemma_contributor_not_irrelevant(path, bs[w]);
        lemma_branches_size_split(bs, w);
        assert(branches_size(bs) >= 1);
    }
}

/// The recursive refinement itself: flatten, stop once the first row is
/// wholly irrefutable, otherwise pick a path, gather its edges and
/// fallback, refine each, and collapse the degenerate shapes.
pub open spec fn spec_to_decision_tree(bs: Seq<BranchView>) -> TreeView
    decreases branches_size(bs), 0nat,
    via spec_to_decision_tree_decreases
{
    let branches = spec_flatten_all(bs);
    match spec_check_for_match(branches) {
        Option::Some(goal) => TreeView::Match(goal),
        Option::None => {
            let path = spec_pick_path(branches);
            let (edges, fallback) = spec_gather_edges(branches, path);
            if edges.len() == 0 {
                TreeView::Decision { path, edges: Seq::empty(), default: None }
            } else if edges.len() == 1 && fallback.len() == 0 {
                spec_to_decision_tree(edges[0].1)
            } else if fallback.len() == 0 {
                TreeView::Decision { path, edges: spec_lower_edges(edges), default: None }
            } else {
                TreeView::Decision {
                    path,
                    edges: spec_lower_edges(edges),
                    default: Some(Box::new(spec_to_decision_tree(fallback))),
                }
            }
        }
    }
}

/// The refinement of each edge's branch list, in order.
pub open spec fn spec_lower_edges(edges: Seq<(TestView, Seq<BranchView>)>) -> Seq<
    (TestView, TreeView),
>
    decreases edges_measure(edges), edges.len(),
    via spec_lower_edges_decreases
{
    if edges.len() == 0 {
        Seq::empty()
    } else {
        spec_lower_edges(edges.subrange(0, edges.len() - 1)).push(
            (edges[edges.len() - 1].0, spec_to_decision_tree(edges[edges.len() - 1].1)),
        )
    }
}

#[via_fn]
proof fn spec_to_decision_tree_decreases(bs: Seq<BranchView>) {
    let branches = spec_flatten_all(bs);
    lemma_flatten_all_size(bs);
    let path = spec_pick_path(branches);
    lemma_gather_edges_sizes(branches, path);
    let (edges, fallback) = spec_gather_edges(branches, path);
    lemma_edges_measure(edges, branches_size(bs));
}

#[via_fn]
proof fn spec_lower_edges_decreases(edges: Seq<(TestView, Seq<BranchView>)>) {
    if edges.len() > 0 {
        lemma_edges_measure_prefix(edges);
    }
}

/// The entry point used in isolation: each raw branch becomes a row that
/// asks its whole pattern of the scrutinee root, in input order.
pub open spec fn spec_compile(raw: Seq<(PatternView, u64)>) -> TreeView {
    spec_to_decision_tree(
        Seq::new(
            raw.len(),
            |i: int| BranchView { goal: raw[i].1, patterns: seq![(Path::Empty, raw[i].0)] },
        ),
    )
}

// ---------------------------------------------------------------------
// The executable construction.
// ---------------------------------------------------------------------

/// Whether a pattern still forces a test.
pub fn needs_tests(pattern: &Pattern) -> (r: bool)
    ensures
        r == spec_needs_tests(pattern.deep_view()),
{
    match pattern {
        Pattern::Identifier(_) => false,
        Pattern::Underscore => false,
        Pattern::Shadowed(_) => false,
        Pattern::UnsupportedPattern(_) => false,
        Pattern::RecordDestructure(_, _) => false,
        _ => true,
    }
}

/// The indexed position of one constructor argument.
pub open spec fn arg_pos(path: Path, m: int) -> Path {
    Path::Index { index: m as u64, path: Box::new(path) }
}

/// Flattens one entry onto the row being rebuilt, seeing through
/// single-alternative constructors as it goes.
#[verifier::loop_isolation(false)]
#[verifier::rlimit(100)]
pub fn flatten(path_pattern: (Path, Pattern), path_patterns: &mut Vec<(Path, Pattern)>)
    ensures
        final(path_patterns).deep_view() == old(path_patterns).deep_view() + spec_flatten_one(
            path_pattern.0,
            path_pattern.1.deep_view(),
        ),
        pats_prefix_free(spec_flatten_one(path_pattern.0, path_pattern.1.deep_view())),
        forall|k: int|
            0 <= k < spec_flatten_one(path_pattern.0, path_pattern.1.deep_view()).len()
                ==> path_under(
                (#[trigger] spec_flatten_one(path_pattern.0, path_pattern.1.deep_view())[k]).0,
                path_pattern.0,
            ),
    decreases path_pattern.1,
{
    let ghost whole = spec_flatten_one(path_pattern.0, path_pattern.1.deep_view());
    let (path, pattern) = path_pattern;
    let single_alt = match &pattern {
        Pattern::AppliedTag { union, .. } => union.alternatives.len() == 1,
        _ => false,
    };
    match pattern {
        Pattern::AppliedTag { tag_name, tag_id, arguments, union } if single_alt => {
            let mut arguments = arguments;
            let ghost orig_args = arguments@;
            let ghost argsv = arguments.deep_view();
            proof {
                crate::ir::lemma_pattern_arg_views(orig_args);
                crate::ir::lemma_vec_deep_view(&arguments);
                assert(path_pattern.1.deep_view()->AppliedTag_arguments =~= argsv);
            }
            if arguments.len() == 1 {
                let pair = arguments.remove(0);
                proof {
                    assert(pair == orig_args[0]);
                    assert(pair.0.deep_view() == argsv[0].0);
                    let ghost f = path_pattern.1->AppliedTag_arguments;
                    assert(decreases_to!(path_pattern.1 => f));
                    assert(decreases_to!(f => f@));
                    assert(decreases_to!(f@ => f@[0]));
                    assert(decreases_to!(f@[0] => f@[0].0));
                    assert(f@[0].0 == pair.0);
                    assert(decreases_to!(path_pattern.1 => pair.0));
                }
                flatten((Path::Unbox(Box::new(path)), pair.0), path_patterns);
                proof {
                    reveal_with_fuel(path_under, 2);
                    assert forall|k: int| 0 <= k < whole.len() implies path_under(
                        (#[trigger] whole[k]).0,
                        path_pattern.0,
                    ) by {
                        lemma_path_under_trans(
                            whole[k].0,
                            Path::Unbox(Box::new(path)),
                            path_pattern.0,
                        );
                    }
                }
            } else {
                let ghost base = path_patterns.deep_view();
                let n = arguments.len();
                proof {
                    assert(arguments.deep_view() =~= argsv.subrange(0, n as int));
                }
                let mut i: usize = 0;
                while i < n
                    invariant
                        i + arguments@.len() == n,
                        n == argsv.len(),
                        n == orig_args.len(),
                        arguments@ =~= orig_args.subrange(i as int, n as int),
                        arguments.deep_view() =~= argsv.subrange(i as int, n as int),
                        path_patterns.deep_view() == base + spec_flatten_args(
                            path,
                            argsv.subrange(0, i as int),
                        ),
                        pats_prefix_free(spec_flatten_args(path, argsv.subrange(0, i as int))),
                        forall|k: int|
                            0 <= k < spec_flatten_args(path, argsv.subrange(0, i as int)).len()
                                ==> path_under(
                                (#[trigger] spec_flatten_args(path, argsv.subrange(0, i as int))[k]).0,
                                path,
                            ),
                        forall|k: int, m: int|
                            0 <= k < spec_flatten_args(path, argsv.subrange(0, i as int)).len()
                                && i <= m < n ==> !path_under(
                                (#[trigger] spec_flatten_args(path, argsv.subrange(0, i as int))[k]).0,
                                #[trigger] arg_pos(path, m),
                            ) && !path_under(
                                arg_pos(path, m),
                                spec_flatten_args(path, argsv.subrange(0, i as int))[k].0,
                            ),
                    decreases n - i,
                {
                    let ghost prefix = argsv.subrange(0, i as int);
                    let ghost done = spec_flatten_args(path, prefix);
                    let ghost arr_pre = arguments@;
                    let pair = arguments.remove(0);
                    proof {
                        assert(pair == arr_pre[0]);
                        crate::ir::lemma_vec_deep_view(&arguments);
                        assert(arguments@ =~= arr_pre.subrange(1, arr_pre.len() as int));
                        assert(arr_pre =~= orig_args.subrange(i as int, n as int));
                        assert(pair == orig_args[i as int]);
                        assert(pair.0.deep_view() == argsv[i as int].0);
                        assert forall|j: int| 0 <= j < arguments@.len() implies #[trigger] arguments.deep_view()[j] == argsv.subrange(i + 1, n as int)[j] by {
                            assert(arguments@[j] == orig_args[i + 1 + j]);
                            assert(arguments.deep_view()[j] == arguments@[j].deep_view());
                        }
                        assert(arguments.deep_view() =~= argsv.subrange(i + 1, n as int));
                        let ghost f = path_pattern.1->AppliedTag_arguments;
                        assert(decreases_to!(path_pattern.1 => f));
                        assert(decreases_to!(f => f@));
                        assert(decreases_to!(f@ => f@[i as int]));
                        assert(decreases_to!(f@[i as int] => f@[i as int].0));
                        assert(f@[i as int].0 == pair.0);
                        assert(decreases_to!(path_pattern.1 => pair.0));
                    }
                    let newpos = Path::Index { index: i as u64, path: Box::new(path.clone()) };
                    flatten((newpos, pair.0), path_patterns);
                    proof {
                        let prefix2 = argsv.subrange(0, i + 1);
                        let piece = spec_flatten_one(arg_pos(path, i as int), argsv[i as int].0);
                        let s2 = spec_flatten_args(path, prefix2);
                        assert(newpos == arg_pos(path, i as int));
                        assert(prefix2.subrange(0, i as int) =~= prefix);
                        assert(s2 == done + piece);
                        assert(path_patterns.deep_view() == base + (done + piece));
                        assert(base + (done + piece) =~= base + s2);
                        reveal_with_fuel(path_under, 2);
                        assert(path_under(arg_pos(path, i as int), path));
                        // every new entry sits under its argument position, hence under `path`
                        assert forall|k: int| 0 <= k < s2.len() implies path_under(
                            (#[trigger] s2[k]).0,
                            path,
                        ) by {
                            if k < done.len() {
                                assert(s2[k] == done[k]);
                            } else {
                                assert(s2[k] == piece[k - done.len()]);
                                lemma_path_under_trans(
                                    s2[k].0,
                                    arg_pos(path, i as int),
                                    path,
                                );
                            }
                        }
                        // nothing so far is comparable with any position still to come
                        assert forall|k: int, m: int|
                            0 <= k < s2.len() && i + 1 <= m < n implies !path_under(
                            (#[trigger] s2[k]).0,
                            #[trigger] arg_pos(path, m),
                        ) && !path_under(arg_pos(path, m), s2[k].0) by {
                            lemma_siblings_incomparable(path, i as u64, m as u64);
                            lemma_siblings_incomparable(path, m as u64, i as u64);
                            if k < done.len() {
                                assert(s2[k] == done[k]);
                            } else {
                                assert(s2[k] == piece[k - done.len()]);
                                let e = s2[k].0;
                                assert(path_under(e, arg_pos(path, i as int)));
                                if path_under(e, arg_pos(path, m)) {
                                    lemma_path_under_chain(
                                        e,
                                        arg_pos(path, i as int),
                                        arg_pos(path, m),
                                    );
                                }
                                if path_under(arg_pos(path, m), e) {
                                    lemma_path_under_trans(
                                        arg_pos(path, m),
                                        e,
                                        arg_pos(path, i as int),
                                    );
                                }
                            }
                        }
                        // and the whole grown row stays prefix-free
                        assert forall|k: int, m: int|
                            0 <= k < s2.len() && 0 <= m < s2.len() && k != m implies !path_under(
                            (#[trigger] s2[k]).0,
                            (#[trigger] s2[m]).0,
                        ) by {
                            if k < done.len() && m < done.len() {
                                assert(s2[k] == done[k] && s2[m] == done[m]);
                            } else if k >= done.len() && m >= done.len() {
                                assert(s2[k] == piece[k - done.len()] && s2[m] == piece[m
                                    - done.len()]);
                            } else if k < done.len() {
                                let e = s2[k].0;
                                let f = s2[m].0;
                                assert(s2[k] == done[k]);
                                assert(s2[m] == piece[m - done.len()]);
                                assert(path_under(f, arg_pos(path, i as int)));
                                if path_under(e, f) {
                                    lemma_path_under_trans(e, f, arg_pos(path, i as int));
                                }
                                if path_under(f, e) {
                                    lemma_path_under_chain(f, e, arg_pos(path, i as int));
                                }
                            } else {
                                let e = s2[m].0;
                                let f = s2[k].0;
                                assert(s2[m] == done[m]);
                                assert(s2[k] == piece[k - done.len()]);
                                assert(path_under(f, arg_pos(path, i as int)));
                                if path_under(f, e) {
                                    lemma_path_under_chain(f, e, arg_pos(path, i as int));
                                }
                                if path_under(e, f) {
                                    lemma_path_under_trans(e, f, arg_pos(path, i as int));
                                }
                            }
                        }
                    }
                    i = i + 1;
                }
                proof {
                    assert(argsv.subrange(0, n as int) =~= argsv);
                }
            }
        }
        other => {
            proof {
                reveal_with_fuel(path_under, 2);
            }
            path_patterns.push((path, other));
            proof {
                assert(path_patterns.deep_view() =~= old(path_patterns).deep_view() + whole);
            }

        }
    }
}

/// Rebuilds one branch with every entry flattened.
#[verifier::loop_isolation(false)]
pub fn flatten_patterns(branch: Branch) -> (r: Branch)
    ensures
        r.deep_view() == spec_flatten_branch(branch.deep_view()),
        pats_prefix_free(branch.deep_view().patterns) ==> pats_prefix_free(r.deep_view().patterns),
{
    let ghost bv = branch.deep_view();
    let mut result: Vec<(Path, Pattern)> = Vec::new();
    let mut patterns = branch.patterns;
    let ghost orig_pats = patterns@;
    let ghost pv = patterns.deep_view();
    proof {
        crate::ir::lemma_vec_deep_view(&patterns);
    }
    let n = patterns.len();
    proof {
        assert(patterns.deep_view() =~= pv.subrange(0, n as int));
        assert(bv.patterns == pv);
    }
    let mut i: usize = 0;
    while i < n
        invariant
            i + patterns@.len() == n,
            n == pv.len(),
            n == orig_pats.len(),
            patterns@ =~= orig_pats.subrange(i as int, n as int),
            patterns.deep_view() =~= pv.subrange(i as int, n as int),
            result.deep_view() == spec_flatten_pats(pv.subrange(0, i as int)),
            pats_prefix_free(pv) ==> pats_prefix_free(
                spec_flatten_pats(pv.subrange(0, i as int)),
            ),
            pats_prefix_free(pv) ==> forall|k: int, m: int|
                0 <= k < spec_flatten_pats(pv.subrange(0, i as int)).len() && i <= m < n
                    ==> !path_under(
                    (#[trigger] spec_flatten_pats(pv.subrange(0, i as int))[k]).0,
                    (#[trigger] pv[m]).0,
                ) && !path_under(
                    pv[m].0,
                    spec_flatten_pats(pv.subrange(0, i as int))[k].0,
                ),
        decreases n - i,
    {
        let ghost prefix = pv.subrange(0, i as int);
        let ghost done = spec_flatten_pats(prefix);
        let ghost arr_pre = patterns@;
        let entry = patterns.remove(0);
        proof {
            assert(entry == arr_pre[0]);
            crate::ir::lemma_vec_deep_view(&patterns);
            assert(arr_pre =~= orig_pats.subrange(i as int, n as int));
            assert(entry == orig_pats[i as int]);
            assert(entry.deep_view() == pv[i as int]);
            assert forall|j: int| 0 <= j < patterns@.len() implies #[trigger] patterns.deep_view()[j] == pv.subrange(i + 1 as int, n as int)[j] by {
                assert(patterns@[j] == orig_pats[i + 1 + j]);
                assert(patterns.deep_view()[j] == patterns@[j].deep_view());
            }
            assert(patterns.deep_view() =~= pv.subrange(i + 1 as int, n as int));
        }
        flatten(entry, &mut result);
        proof {
            let prefix2 = pv.subrange(0, i + 1);
            let piece = spec_flatten_one(pv[i as int].0, pv[i as int].1);
            let s2 = spec_flatten_pats(prefix2);
            assert(prefix2.subrange(0, i as int) =~= prefix);
            assert(s2 == done + piece);
            assert(result.deep_view() =~= s2);
            if pats_prefix_free(pv) {
                // nothing so far is comparable with any entry position to come
                assert forall|k: int, m: int|
                    0 <= k < s2.len() && i + 1 <= m < n implies !path_under(
                    (#[trigger] s2[k]).0,
                    (#[trigger] pv[m]).0,
                ) && !path_under(pv[m].0, s2[k].0) by {
                    assert(!path_under(pv[i as int].0, pv[m].0));
                    assert(!path_under(pv[m].0, pv[i as int].0));
                    if k < done.len() {
                        assert(s2[k] == done[k]);
                    } else {
                        assert(s2[k] == piece[k - done.len()]);
                        let e = s2[k].0;
                        assert(path_under(e, pv[i as int].0));
                        if path_under(e, pv[m].0) {
                            lemma_path_under_chain(e, pv[i as int].0, pv[m].0);
                        }
                        if path_under(pv[m].0, e) {
                            lemma_path_under_trans(pv[m].0, e, pv[i as int].0);
                        }
                    }
                }
                // and the grown row stays prefix-free
                assert forall|k: int, m: int|
                    0 <= k < s2.len() && 0 <= m < s2.len() && k != m implies !path_under(
                    (#[trigger] s2[k]).0,
                    (#[trigger] s2[m]).0,
                ) by {
                    if k < done.len() && m < done.len() {
                        assert(s2[k] == done[k] && s2[m] == done[m]);
                    } else if k >= done.len() && m >= done.len() {
                        assert(s2[k] == piece[k - done.len()] && s2[m] == piece[m - done.len()]);
                    } else if k < done.len() {
                        let e = s2[k].0;
                        let f = s2[m].0;
                        assert(s2[k] == done[k]);
                        assert(s2[m] == piece[m - done.len()]);
                        assert(path_under(f, pv[i as int].0));
                        if path_under(e, f) {
                            lemma_path_under_trans(e, f, pv[i as int].0);
                        }
                        if path_under(f, e) {
                            lemma_path_under_chain(f, e, pv[i as int].0);
                        }
                    } else {
                        let e = s2[m].0;
                        let f = s2[k].0;
                        assert(s2[m] == done[m]);
                        assert(s2[k] == piece[k - done.len()]);
                        assert(path_under(f, pv[i as int].0));
                        if path_under(f, e) {
                            lemma_path_under_chain(f, e, pv[i as int].0);
                        }
                        if path_under(e, f) {
                            lemma_path_under_trans(e, f, pv[i as int].0);
                        }
                    }
                }
            }
        }
                i = i + 1;
    }
    proof {
        assert(pv.subrange(0, n as int) =~= pv);
    }
    let r = Branch { goal: branch.goal, patterns: result };
    r
}

/// If the first branch has no more decision points we can finally take
/// that path: the match is decided, and later branches fall away.
#[verifier::loop_isolation(false)]
pub fn check_for_match(branches: &Vec<Branch>) -> (r: Option<Label>)
    ensures
        r == spec_check_for_match(branches.deep_view()),
{
    proof {
        crate::ir::lemma_vec_deep_view(branches);
    }
    if branches.len() == 0 {
        return None;
    }
    let first = &branches[0];
    proof {
        crate::ir::lemma_vec_deep_view(&first.patterns);
    }
    let ghost fv = first.deep_view();
    let n = first.patterns.len();
    let mut i: usize = 0;
    while i < n
        invariant
            0 <= i <= n == first.patterns@.len(),
            forall|j: int| 0 <= j < i ==> !spec_needs_tests((#[trigger] fv.patterns[j]).1),
        decreases n - i,
    {
        if needs_tests(&first.patterns[i].1) {
            proof {
                assert(spec_needs_tests(fv.patterns[i as int].1));
                assert(!spec_irrefutable_row(branches.deep_view()[0]));
            }
            return None;
        }
        i = i + 1;
    }
    proof {
        assert(spec_irrefutable_row(branches.deep_view()[0]));
    }
    Some(first.goal)
}

/// The test the branch contributes at `selected_path`, if any.
#[verifier::loop_isolation(false)]
pub fn test_at_path(selected_path: &Path, branch: &Branch) -> (r: Option<Test>)
    ensures
        r.deep_view() == spec_test_at_path(*selected_path, branch.deep_view()),
{
    let ghost bv = branch.deep_view();
    proof {
        crate::ir::lemma_vec_deep_view(&branch.patterns);
        lemma_find_index(*selected_path, bv.patterns);
    }
    let n = branch.patterns.len();
    let mut i: usize = 0;
    while i < n
        invariant
            0 <= i <= n == branch.patterns@.len(),
            forall|j: int| 0 <= j < i ==> (#[trigger] bv.patterns[j]).0 != *selected_path,
        decreases n - i,
    {
        if path_eq(&branch.patterns[i].0, selected_path) {
            proof {
                assert(bv.patterns[i as int].0 == *selected_path);
                assert(spec_find_index(*selected_path, bv.patterns) == i);
            }
            let pattern = &branch.patterns[i].1;
            let ghost pv = bv.patterns[i as int].1;
            return match pattern {
                Pattern::Identifier(_)
                | Pattern::RecordDestructure(_, _)
                | Pattern::Underscore
                | Pattern::Shadowed(_)
                | Pattern::UnsupportedPattern(_) => None,
                Pattern::AppliedTag { tag_name, tag_id, arguments, union } => {
                    let mut args: Vec<Pattern> = Vec::new();
                    proof {
                        crate::ir::lemma_pattern_arg_views(arguments@);
                        crate::ir::lemma_vec_deep_view(arguments);
                    }
                    let m = arguments.len();
                    let mut j: usize = 0;
                    while j < m
                        invariant
                            0 <= j <= m == arguments@.len(),
                            args@.len() == j,
                            forall|q: int| 0 <= q < j ==> #[trigger] args@[q].deep_view()
                                == pv->AppliedTag_arguments[q].0,
                        decreases m - j,
                    {
                        args.push(arguments[j].0.clone());
                        j = j + 1;
                    }
                    let t = Test::IsCtor {
                        tag_id: *tag_id,
                        tag_name: tag_name.clone(),
                        union: union.clone(),
                        arguments: args,
                    };
                    proof {
                        crate::ir::lemma_vec_deep_view(&t->IsCtor_arguments);
                        assert(t.deep_view()->IsCtor_arguments =~= Seq::new(
                            pv->AppliedTag_arguments.len(),
                            |q: int| pv->AppliedTag_arguments[q].0,
                        ));
                        assert(t.deep_view() =~= spec_pattern_test(pv)->0);
                    }
                    Some(t)
                }
                Pattern::BitLiteral(v) => Some(Test::IsBit(*v)),
                Pattern::EnumLiteral { tag_id, enum_size } => Some(
                    Test::IsByte { tag_id: *tag_id, num_alts: *enum_size as usize },
                ),
                Pattern::IntLiteral(v) => Some(Test::IsInt(*v)),
                Pattern::FloatLiteral(v) => Some(Test::IsFloat(*v)),
                Pattern::StrLiteral(v) => Some(Test::IsStr(v.clone())),
            };
        }
        i = i + 1;
    }
    proof {
        assert(spec_find_index(*selected_path, bv.patterns) < 0);
    }
    None
}

/// The deduplicated, order-preserving tests the branches put at
/// `selected_path`. The ordering of the result matters: it decides the
/// case order of the emitted switch.
#[verifier::loop_isolation(false)]
pub fn tests_at_path(selected_path: &Path, branches: &Vec<Branch>) -> (r: Vec<Test>)
    ensures
        r.deep_view() == spec_tests_at_path(*selected_path, branches.deep_view()),
{
    let ghost bsv = branches.deep_view();
    proof {
        crate::ir::lemma_vec_deep_view(branches);
    }
    let mut unique: Vec<Test> = Vec::new();
    let n = branches.len();
    let mut i: usize = 0;
    while i < n
        invariant
            0 <= i <= n == branches@.len(),
            n == bsv.len(),
            unique.deep_view() == spec_tests_at_path(*selected_path, bsv.subrange(0, i as int)),
        decreases n - i,
    {
        let ghost prefix = bsv.subrange(0, i as int);
        let ghost prev = spec_tests_at_path(*selected_path, prefix);
        let t_opt = test_at_path(selected_path, &branches[i]);
        proof {
            let prefix2 = bsv.subrange(0, i + 1);
            assert(prefix2.subrange(0, i as int) =~= prefix);
            assert(prefix2[i as int] == bsv[i as int]);
        }
        match t_opt {
            Option::Some(t) => {
                let mut seen = false;
                let m = unique.len();
                let mut j: usize = 0;
                while j < m
                    invariant
                        0 <= j <= m == unique@.len(),
                        m == unique.deep_view().len(),
                        seen ==> prev.contains(t.deep_view()),
                        !seen ==> forall|q: int|
                            0 <= q < j ==> #[trigger] unique.deep_view()[q] != t.deep_view(),
                    decreases m - j,
                {
                    if test_eq(&unique[j], &t) {
                        proof {
                            crate::ir::lemma_vec_deep_view(&unique);
                            assert(prev[j as int] == t.deep_view());
                        }
                        seen = true;
                    }
                    j = j + 1;
                }
                if !seen {
                    proof {
                        assert(!prev.contains(t.deep_view()));
                    }
                    unique.push(t);
                    proof {
                        assert(unique.deep_view() =~= prev.push(
                            spec_test_at_path(*selected_path, bsv[i as int])->0,
                        ));
                    }
                } else {
                    proof {
                        assert(unique.deep_view() == spec_tests_at_path(
                            *selected_path,
                            bsv.subrange(0, i + 1),
                        ));
                    }
                }
            }
            Option::None => {}
        }
        i = i + 1;
    }
    proof {
        assert(bsv.subrange(0, n as int) =~= bsv);
    }
    unique
}

/// Whether the last collected test closes the set.
pub fn is_complete(tests: &Vec<Test>) -> (r: bool)
    requires
        tests@.len() > 0,
    ensures
        r == spec_is_complete(tests.deep_view()),
{
    proof {
        crate::ir::lemma_vec_deep_view(tests);
    }
    let length = tests.len();
    match &tests[length - 1] {
        Test::IsCtor { union, .. } => length == union.alternatives.len(),
        Test::IsByte { num_alts, .. } => length == *num_alts,
        Test::IsBit(_) => length == 2,
        Test::IsInt(_) => false,
        Test::IsFloat(_) => false,
        Test::IsStr(_) => false,
    }
}

impl Clone for Test {
    #[verifier::loop_isolation(false)]
    fn clone(&self) -> (r: Self)
        ensures
            r.deep_view() == self.deep_view(),
    {
        match self {
            Test::IsCtor { tag_id, tag_name, union, arguments } => {
                let mut args: Vec<Pattern> = Vec::new();
                proof {
                    crate::ir::lemma_vec_deep_view(arguments);
                }
                let m = arguments.len();
                let mut j: usize = 0;
                while j < m
                    invariant
                        0 <= j <= m == arguments@.len(),
                        args@.len() == j,
                        forall|q: int| 0 <= q < j ==> #[trigger] args@[q].deep_view()
                            == arguments@[q].deep_view(),
                    decreases m - j,
                {
                    args.push(arguments[j].clone());
                    j = j + 1;
                }
                let r = Test::IsCtor {
                    tag_id: *tag_id,
                    tag_name: tag_name.clone(),
                    union: union.clone(),
                    arguments: args,
                };
                proof {
                    crate::ir::lemma_vec_deep_view(&r->IsCtor_arguments);
                    assert(r.deep_view()->IsCtor_arguments =~= self.deep_view()->IsCtor_arguments);
                }
                r
            }
            Test::IsInt(v) => Test::IsInt(*v),
            Test::IsFloat(v) => Test::IsFloat(*v),
            Test::IsStr(v) => Test::IsStr(v.clone()),
            Test::IsBit(v) => Test::IsBit(*v),
            Test::IsByte { tag_id, num_alts } => Test::IsByte {
                tag_id: *tag_id,
                num_alts: *num_alts,
            },
        }
    }
}

/// Clones the entries of `src` with positions in `from..to` onto `out`.
#[verifier::loop_isolation(false)]
fn clone_entries(
    src: &Vec<(Path, Pattern)>,
    from: usize,
    to: usize,
    out: &mut Vec<(Path, Pattern)>,
)
    requires
        from <= to <= src@.len(),
    ensures
        final(out).deep_view() == old(out).deep_view() + src.deep_view().subrange(
            from as int,
            to as int,
        ),
{
    proof {
        crate::ir::lemma_vec_deep_view(src);
    }
    let ghost base = out.deep_view();
    let mut i: usize = from;
    while i < to
        invariant
            from <= i <= to <= src@.len(),
            out.deep_view() =~= base + src.deep_view().subrange(from as int, i as int),
        decreases to - i,
    {
        let entry = &src[i];
        let ghost pre_at = out@;
        let ghost pre_dv = out.deep_view();
        proof {
            assert(forall|q: int|
                0 <= q < pre_at.len() ==> #[trigger] pre_dv[q] == pre_at[q].deep_view());
        }
        out.push((entry.0.clone(), entry.1.clone()));
        proof {
            assert(forall|q: int|
                0 <= q < out@.len() ==> #[trigger] out.deep_view()[q] == out@[q].deep_view());
            assert(out@ == pre_at.push((out@[out@.len() - 1])));
            assert(out.deep_view().len() == pre_at.len() + 1);
            assert(out.deep_view()[out@.len() - 1] == src.deep_view()[i as int]);
            assert(forall|q: int|
                0 <= q < pre_at.len() ==> #[trigger] out.deep_view()[q] == pre_dv[q]);
            assert(out.deep_view() =~= base + src.deep_view().subrange(from as int, i + 1));
        }
        i = i + 1;
    }
}

impl Clone for Branch {
    fn clone(&self) -> (r: Self)
        ensures
            r.deep_view() == self.deep_view(),
    {
        let mut patterns: Vec<(Path, Pattern)> = Vec::new();
        clone_entries(&self.patterns, 0, self.patterns.len(), &mut patterns);
        proof {
            assert(patterns.deep_view() =~= self.patterns.deep_view());
        }
        Branch { goal: self.goal, patterns }
    }
}

/// What remains of `branch` on the edge of `test`: kept verbatim when it
/// says nothing refutable at `path`, kept with the matched pattern
/// replaced by its sub-patterns when it agrees with the test, and
/// dropped otherwise.
#[verifier::loop_isolation(false)]
#[verifier::rlimit(100)]
pub fn to_relevant_branch(test: &Test, path: &Path, branch: &Branch) -> (r: Option<Branch>)
    ensures
        r.deep_view() == spec_to_relevant_branch(test.deep_view(), *path, branch.deep_view()),
        pats_prefix_free(branch.deep_view().patterns) ==> (r.deep_view() matches Some(b2)
            ==> pats_prefix_free(b2.patterns)),
{
    let ghost bv = branch.deep_view();
    let ghost tv = test.deep_view();
    proof {
        crate::ir::lemma_vec_deep_view(&branch.patterns);
        lemma_find_index(*path, bv.patterns);
    }
    let n = branch.patterns.len();
    let mut i: usize = 0;
    while i < n
        invariant
            0 <= i <= n == branch.patterns@.len(),
            forall|j: int| 0 <= j < i ==> (#[trigger] bv.patterns[j]).0 != *path,
        decreases n - i,
    {
        if path_eq(&branch.patterns[i].0, path) {
            proof {
                assert(bv.patterns[i as int].0 == *path);
                assert(spec_find_index(*path, bv.patterns) == i);
            }
            let ghost k = i as int;
            let ghost found = bv.patterns[k].1;
            let ghost start = bv.patterns.subrange(0, k);
            let ghost end = bv.patterns.subrange(k + 1, bv.patterns.len() as int);
            let pattern = &branch.patterns[i].1;
            match (pattern, test) {
                (
                    Pattern::AppliedTag { tag_name, arguments, union, .. },
                    Test::IsCtor { tag_name: test_name, .. },
                ) => {
                    if tag_name_eq(tag_name, test_name) {
                        let ghost args0 = Seq::new(
                            found->AppliedTag_arguments.len(),
                            |q: int| found->AppliedTag_arguments[q].0,
                        );
                        let ghost expansion = spec_ctor_expansion(
                            *path,
                            found->AppliedTag_union.alternatives.len() == 1,
                            args0,
                        );
                        let mut patterns: Vec<(Path, Pattern)> = Vec::new();
                        clone_entries(&branch.patterns, 0, i, &mut patterns);
                        proof {
                            assert(patterns.deep_view() =~= start);
                            crate::ir::lemma_pattern_arg_views(arguments@);
                            crate::ir::lemma_vec_deep_view(arguments);
                        }
                        if arguments.len() == 1 && union.alternatives.len() == 1 {
                            let arg = arguments[0].0.clone();
                            let ghost pre_at = patterns@;
                            let ghost pre_dv = patterns.deep_view();
                            proof {
                                assert(forall|q: int|
                                    0 <= q < pre_at.len() ==> #[trigger] pre_dv[q] == pre_at[
                                        q
                                    ].deep_view());
                            }
                            patterns.push((Path::Unbox(Box::new(path.clone())), arg));
                            proof {
                                assert(forall|q: int|
                                    0 <= q < patterns@.len() ==> #[trigger] patterns.deep_view()[q]
                                        == patterns@[q].deep_view());
                                assert(patterns.deep_view()[patterns@.len() - 1] == (
                                    Path::Unbox(Box::new(*path)),
                                    args0[0],
                                ));
                                assert(expansion =~= seq![
                                    (Path::Unbox(Box::new(*path)), args0[0]),
                                ]);
                                assert(patterns.deep_view() =~= start + expansion);
                            }
                        } else {
                            let m = arguments.len();
                            let mut j: usize = 0;
                            while j < m
                                invariant
                                    0 <= j <= m == arguments@.len(),
                                    m == args0.len(),
                                    m != 1 || found->AppliedTag_union.alternatives.len() != 1,
                                    patterns.deep_view() =~= start + expansion.subrange(
                                        0,
                                        j as int,
                                    ),
                                    expansion.len() == m,
                                    forall|q: int| 0 <= q < m ==> #[trigger] expansion[q] == (
                                        arg_pos(*path, q),
                                        args0[q],
                                    ),
                                decreases m - j,
                            {
                                let arg = arguments[j].0.clone();
                                let ghost pre_at = patterns@;
                                let ghost pre_dv = patterns.deep_view();
                                proof {
                                    assert(forall|q: int|
                                        0 <= q < pre_at.len() ==> #[trigger] pre_dv[q] == pre_at[
                                            q
                                        ].deep_view());
                                }
                                patterns.push(
                                    (
                                        Path::Index {
                                            index: j as u64,
                                            path: Box::new(path.clone()),
                                        },
                                        arg,
                                    ),
                                );
                                proof {
                                    assert(forall|q: int|
                                        0 <= q < patterns@.len()
                                            ==> #[trigger] patterns.deep_view()[q] == patterns@[
                                            q
                                        ].deep_view());
                                    assert(patterns@ == pre_at.push(patterns@[patterns@.len()
                                        - 1]));
                                    assert(patterns.deep_view().len() == pre_at.len() + 1);
                                    assert(forall|q: int|
                                        0 <= q < pre_at.len() ==> #[trigger] patterns.deep_view()[
                                            q
                                        ] == pre_dv[q]);
                                    assert(patterns.deep_view()[patterns@.len() - 1] == (
                                        arg_pos(*path, j as int),
                                        args0[j as int],
                                    ));
                                    assert(patterns.deep_view() =~= start + expansion.subrange(
                                        0,
                                        j + 1,
                                    ));
                                }
                                j = j + 1;
                            }
                            proof {
                                assert(expansion.subrange(0, m as int) =~= expansion);
                            }
                        }
                        proof {
                            assert(patterns.deep_view() =~= start + expansion);
                        }
                        clone_entries(&branch.patterns, i + 1, n, &mut patterns);
                        proof {
                            assert(patterns.deep_view() =~= (start + expansion) + end);
                            assert(patterns.deep_view() =~= start + expansion + end);
                        }
                        let r = Some(Branch { goal: branch.goal, patterns });
                        proof {
                            assert(r.deep_view() == spec_to_relevant_branch(tv, *path, bv));
                            if pats_prefix_free(bv.patterns) {
                                reveal_with_fuel(path_under, 2);
                                assert forall|q: int|
                                    0 <= q < expansion.len() implies path_under(
                                    (#[trigger] expansion[q]).0,
                                    *path,
                                ) by {
                                    if args0.len() == 1 && found->AppliedTag_union.alternatives.len()
                                        == 1 {
                                        assert(expansion[q].0 == Path::Unbox(Box::new(*path)));
                                    } else {
                                        assert(expansion[q] == (arg_pos(*path, q), args0[q]));
                                    }
                                }
                                assert forall|a: int, b: int|
                                    0 <= a < expansion.len() && 0 <= b < expansion.len() && a != b
                                    implies !path_under(
                                    (#[trigger] expansion[a]).0,
                                    (#[trigger] expansion[b]).0,
                                ) by {
                                    assert(expansion.len() == args0.len());
                                    assert(args0.len() == arguments@.len());
                                    assert(expansion[a] == (arg_pos(*path, a), args0[a]));
                                    assert(expansion[b] == (arg_pos(*path, b), args0[b]));
                                    assert(a as u64 != b as u64);
                                    lemma_siblings_incomparable(*path, a as u64, b as u64);
                                }
                                lemma_relevant_patterns_prefix_free(
                                    bv.patterns,
                                    k,
                                    *path,
                                    expansion,
                                );
                            }
                        }
                        return r;
                    } else {
                        return None;
                    }
                }
                (Pattern::StrLiteral(sv), Test::IsStr(ts)) => {
                    if *sv == *ts {
                        return keep_without_entry(branch, i);
                    } else {
                        return None;
                    }
                }
                (Pattern::StrLiteral(_), _) => {
                    return None;
                }
                (Pattern::IntLiteral(iv), Test::IsInt(ti)) => {
                    if *iv == *ti {
                        return keep_without_entry(branch, i);
                    } else {
                        return None;
                    }
                }
                (Pattern::IntLiteral(_), _) => {
                    return None;
                }
                (Pattern::FloatLiteral(fv), Test::IsFloat(tf)) => {
                    if *fv == *tf {
                        return keep_without_entry(branch, i);
                    } else {
                        return None;
                    }
                }
                (Pattern::FloatLiteral(_), _) => {
                    return None;
                }
                (Pattern::BitLiteral(pb), Test::IsBit(tb)) => {
                    if *pb == *tb {
                        return keep_without_entry(branch, i);
                    } else {
                        return None;
                    }
                }
                (Pattern::BitLiteral(_), _) => {
                    return None;
                }
                (Pattern::EnumLiteral { tag_id, .. }, Test::IsByte { tag_id: test_id, .. }) => {
                    if *tag_id == *test_id {
                        return keep_without_entry(branch, i);
                    } else {
                        return None;
                    }
                }
                (Pattern::EnumLiteral { .. }, _) => {
                    return None;
                }
                (Pattern::AppliedTag { .. }, _) => {
                    return None;
                }
                _ => {
                    return Some(branch.clone());
                }
            }
        }
        i = i + 1;
    }
    proof {
        assert(spec_find_index(*path, bv.patterns) < 0);
    }
    Some(branch.clone())
}

/// The branch with the entry at position `k` removed: what a matched
/// literal leaves behind.
#[verifier::loop_isolation(false)]
fn keep_without_entry(branch: &Branch, k: usize) -> (r: Option<Branch>)
    requires
        k < branch.patterns@.len(),
    ensures
        r.deep_view() matches Some(b2) && b2 == (BranchView {
            goal: branch.deep_view().goal,
            patterns: branch.deep_view().patterns.subrange(0, k as int)
                + branch.deep_view().patterns.subrange(
                k + 1,
                branch.deep_view().patterns.len() as int,
            ),
        }),
        pats_prefix_free(branch.deep_view().patterns) ==> pats_prefix_free(
            branch.deep_view().patterns.subrange(0, k as int) + branch.deep_view(
            ).patterns.subrange(k + 1, branch.deep_view().patterns.len() as int),
        ),
{
    proof {
        crate::ir::lemma_vec_deep_view(&branch.patterns);
    }
    let ghost pv = branch.deep_view().patterns;
    let n = branch.patterns.len();
    let mut patterns: Vec<(Path, Pattern)> = Vec::new();
    clone_entries(&branch.patterns, 0, k, &mut patterns);
    proof {
        assert(patterns.deep_view() =~= pv.subrange(0, k as int));
    }
    clone_entries(&branch.patterns, k + 1, n, &mut patterns);
    proof {
        assert(patterns.deep_view() =~= pv.subrange(0, k as int) + pv.subrange(
            k + 1,
            pv.len() as int,
        ));
        if pats_prefix_free(pv) {
            let s2 = pv.subrange(0, k as int) + pv.subrange(k + 1, pv.len() as int);
            assert forall|a: int, b: int|
                0 <= a < s2.len() && 0 <= b < s2.len() && a != b implies !path_under(
                (#[trigger] s2[a]).0,
                (#[trigger] s2[b]).0,
            ) by {
                let a0 = if a < k { a } else { a + 1 };
                let b0 = if b < k { b } else { b + 1 };
                assert(s2[a] == pv[a0] && s2[b] == pv[b0]);
            }
        }
    }
    Some(Branch { goal: branch.goal, patterns })
}

/// Replacing the entry at `k` (which sits at `path`) by expansion
/// entries below `path` keeps the row prefix-free.
proof fn lemma_relevant_patterns_prefix_free(
    pv: Seq<(Path, PatternView)>,
    k: int,
    path: Path,
    expansion: Seq<(Path, PatternView)>,
)
    requires
        pats_prefix_free(pv),
        0 <= k < pv.len(),
        pv[k].0 == path,
        forall|q: int| 0 <= q < expansion.len() ==> path_under((#[trigger] expansion[q]).0, path),
        pats_prefix_free(expansion),
    ensures
        pats_prefix_free(
            pv.subrange(0, k) + expansion + pv.subrange(k + 1, pv.len() as int),
        ),
{
    let start = pv.subrange(0, k);
    let end = pv.subrange(k + 1, pv.len() as int);
    let s2 = start + expansion + end;
    assert forall|a: int, b: int|
        0 <= a < s2.len() && 0 <= b < s2.len() && a != b implies !path_under(
        (#[trigger] s2[a]).0,
        (#[trigger] s2[b]).0,
    ) by {
        let el = expansion.len();
        let orig = |x: int| if x < k { x } else { x - el + 1 };
        let in_exp = |x: int| k <= x < k + el;
        if in_exp(a) && in_exp(b) {
            assert(s2[a] == expansion[a - k] && s2[b] == expansion[b - k]);
        } else if !in_exp(a) && !in_exp(b) {
            assert(s2[a] == pv[orig(a)] && s2[b] == pv[orig(b)]);
        } else if in_exp(a) {
            let f = s2[a].0;
            let e = s2[b].0;
            assert(s2[a] == expansion[a - k]);
            assert(s2[b] == pv[orig(b)]);
            assert(orig(b) != k);
            assert(!path_under(e, path) && !path_under(path, e));
            assert(path_under(f, path));
            if path_under(e, f) {
                lemma_path_under_trans(e, f, path);
            }
            if path_under(f, e) {
                lemma_path_under_chain(f, e, path);
            }
        } else {
            let f = s2[b].0;
            let e = s2[a].0;
            assert(s2[b] == expansion[b - k]);
            assert(s2[a] == pv[orig(a)]);
            assert(orig(a) != k);
            assert(!path_under(e, path) && !path_under(path, e));
            assert(path_under(f, path));
            if path_under(e, f) {
                lemma_path_under_trans(e, f, path);
            }
            if path_under(f, e) {
                lemma_path_under_chain(f, e, path);
            }
        }
    }
}

// ---------------------------------------------------------------------
// Lemmas feeding the executable construction.
// ---------------------------------------------------------------------

/// A branch that contributes a test makes the collected list nonempty.
pub proof fn lemma_tests_nonempty(path: Path, bs: Seq<BranchView>, i: int)
    requires
        0 <= i < bs.len(),
        spec_test_at_path(path, bs[i]) is Some,
    ensures
        spec_tests_at_path(path, bs).len() > 0,
    decreases bs.len(),
{
    let sub = bs.subrange(0, bs.len() - 1);
    if i < bs.len() - 1 {
        assert(sub[i] == bs[i]);
        lemma_tests_nonempty(path, sub, i);
    }
}

/// A branch that contributes the edge's own test stays on the edge, so
/// the edge is never empty.
pub proof fn lemma_relevant_branches_nonempty(test: TestView, path: Path, bs: Seq<BranchView>, i: int)
    requires
        0 <= i < bs.len(),
        spec_test_at_path(path, bs[i]) == Some(test),
    ensures
        spec_relevant_branches(test, path, bs).len() > 0,
    decreases bs.len(),
{
    let sub = bs.subrange(0, bs.len() - 1);
    if i < bs.len() - 1 {
        assert(sub[i] == bs[i]);
        lemma_relevant_branches_nonempty(test, path, sub, i);
    } else {
        lemma_to_relevant_branch_size(test, path, bs[i]);
    }
}

/// Tests and fallback branches come from distinct rows, so together they
/// never outnumber the rows.
pub proof fn lemma_tests_fallback_bound(path: Path, bs: Seq<BranchView>)
    ensures
        spec_tests_at_path(path, bs).len() + spec_fallback(path, bs).len() <= bs.len(),
    decreases bs.len(),
{
    if bs.len() > 0 {
        let sub = bs.subrange(0, bs.len() - 1);
        lemma_tests_fallback_bound(path, sub);
        let last = bs[bs.len() - 1];
        match spec_test_at_path(path, last) {
            Option::Some(_) => {
                lemma_contributor_not_irrelevant(path, last);
            }
            Option::None => {}
        }
    }
}

/// The refutable positions of one row all appear among its candidate
/// paths.
pub proof fn lemma_branch_choice_contains(pats: Seq<(Path, PatternView)>, j: int)
    requires
        0 <= j < pats.len(),
        spec_needs_tests(pats[j].1),
    ensures
        spec_branch_choice_paths(pats).contains(pats[j].0),
    decreases pats.len(),
{
    let sub = pats.subrange(0, pats.len() - 1);
    if j < pats.len() - 1 {
        assert(sub[j] == pats[j]);
        lemma_branch_choice_contains(sub, j);
        let prev = spec_branch_choice_paths(sub);
        let q = choose|q: int| 0 <= q < prev.len() && prev[q] == pats[j].0;
        if spec_needs_tests(pats[pats.len() - 1].1) {
            assert(spec_branch_choice_paths(pats)[q] == pats[j].0);
        }
    } else {
        let whole = spec_branch_choice_paths(pats);
        assert(whole[whole.len() - 1] == pats[j].0);
    }
}

/// Each candidate path of one row is one of its refutable positions.
pub proof fn lemma_branch_choice_witness(pats: Seq<(Path, PatternView)>, q: int)
    requires
        0 <= q < spec_branch_choice_paths(pats).len(),
    ensures
        exists|j: int|
            0 <= j < pats.len() && (#[trigger] pats[j]).0 == spec_branch_choice_paths(pats)[q]
                && spec_needs_tests(pats[j].1),
    decreases pats.len(),
{
    let sub = pats.subrange(0, pats.len() - 1);
    let prev = spec_branch_choice_paths(sub);
    if q < prev.len() {
        lemma_branch_choice_witness(sub, q);
        let j = choose|j: int|
            0 <= j < sub.len() && (#[trigger] sub[j]).0 == prev[q] && spec_needs_tests(sub[j].1);
        assert(pats[j] == sub[j]);
        assert(pats[j].0 == spec_branch_choice_paths(pats)[q] && spec_needs_tests(pats[j].1));
    } else {
        assert(spec_needs_tests(pats[pats.len() - 1].1));
        assert(pats[pats.len() - 1].0 == spec_branch_choice_paths(pats)[q]);
    }
}

/// Every refutable position of every row appears among the candidates.
pub proof fn lemma_choice_paths_contains(bs: Seq<BranchView>, i: int, j: int)
    requires
        0 <= i < bs.len(),
        0 <= j < bs[i].patterns.len(),
        spec_needs_tests(bs[i].patterns[j].1),
    ensures
        spec_choice_paths(bs).contains(bs[i].patterns[j].0),
    decreases bs.len(),
{
    let sub = bs.subrange(0, bs.len() - 1);
    let prev = spec_choice_paths(sub);
    let own = spec_branch_choice_paths(bs[bs.len() - 1].patterns);
    if i < bs.len() - 1 {
        assert(sub[i] == bs[i]);
        lemma_choice_paths_contains(sub, i, j);
        let q = choose|q: int| 0 <= q < prev.len() && prev[q] == bs[i].patterns[j].0;
        assert(spec_choice_paths(bs)[q] == bs[i].patterns[j].0);
    } else {
        lemma_branch_choice_contains(bs[i].patterns, j);
        let q = choose|q: int| 0 <= q < own.len() && own[q] == bs[i].patterns[j].0;
        assert(spec_choice_paths(bs)[prev.len() + q] == bs[i].patterns[j].0);
    }
}

/// Each candidate path is a refutable position of some row.
pub proof fn lemma_choice_paths_witness(bs: Seq<BranchView>, p: Path)
    requires
        spec_choice_paths(bs).contains(p),
    ensures
        exists|i: int, j: int|
            0 <= i < bs.len() && 0 <= j < bs[i].patterns.len() && (#[trigger] bs[i].patterns[j]).0
                == p && spec_needs_tests(bs[i].patterns[j].1),
    decreases bs.len(),
{
    let sub = bs.subrange(0, bs.len() - 1);
    let prev = spec_choice_paths(sub);
    let own = spec_branch_choice_paths(bs[bs.len() - 1].patterns);
    let q = choose|q: int| 0 <= q < spec_choice_paths(bs).len() && spec_choice_paths(bs)[q] == p;
    if q < prev.len() {
        assert(prev[q] == p);
        assert(prev.contains(p));
        lemma_choice_paths_witness(sub, p);
        let (i, j) = choose|i: int, j: int|
            0 <= i < sub.len() && 0 <= j < sub[i].patterns.len() && (#[trigger] sub[i].patterns[
                j
            ]).0 == p && spec_needs_tests(sub[i].patterns[j].1);
        assert(bs[i] == sub[i]);
        assert(0 <= i < bs.len() && 0 <= j < bs[i].patterns.len() && bs[i].patterns[j].0 == p
            && spec_needs_tests(bs[i].patterns[j].1));
    } else {
        assert(own[q - prev.len()] == p);
        lemma_branch_choice_witness(bs[bs.len() - 1].patterns, q - prev.len());
        let j = choose|j: int|
            0 <= j < bs[bs.len() - 1].patterns.len() && (#[trigger] bs[bs.len()
                - 1].patterns[j]).0 == p && spec_needs_tests(bs[bs.len() - 1].patterns[j].1);
        assert(0 <= bs.len() - 1 < bs.len() && 0 <= j < bs[bs.len() - 1].patterns.len() && bs[
            bs.len() - 1
        ].patterns[j].0 == p && spec_needs_tests(bs[bs.len() - 1].patterns[j].1));
    }
}

/// The winners under the first heuristic come from the candidates, and
/// some path always wins.
pub proof fn lemma_bests_defaults_props(bs: Seq<BranchView>, paths: Seq<Path>)
    requires
        paths.len() > 0,
    ensures
        spec_bests_defaults(bs, paths).len() > 0,
        forall|q: int|
            0 <= q < spec_bests_defaults(bs, paths).len() ==> paths.contains(
                #[trigger] spec_bests_defaults(bs, paths)[q],
            ),
    decreases paths.len(),
{
    if paths.len() == 1 {
        assert(spec_bests_defaults(bs, paths)[0] == paths[0]);
        assert(paths.contains(paths[0]));
    } else {
        let sub = paths.subrange(0, paths.len() - 1);
        lemma_bests_defaults_props(bs, sub);
        assert(forall|q: int| 0 <= q < sub.len() ==> #[trigger] sub[q] == paths[q]);
        assert forall|q: int|
            0 <= q < spec_bests_defaults(bs, paths).len() implies paths.contains(
            #[trigger] spec_bests_defaults(bs, paths)[q],
        ) by {
            let r = spec_bests_defaults(bs, paths);
            let prev = spec_bests_defaults(bs, sub);
            let prev_min = spec_min_defaults(bs, sub);
            let w = spec_small_defaults(bs, paths[paths.len() - 1]);
            if w < prev_min {
                assert(r[q] == paths[paths.len() - 1]);
            } else if w == prev_min {
                if q < prev.len() {
                    assert(r[q] == prev[q]);
                    assert(sub.contains(prev[q]));
                    let x = choose|x: int| 0 <= x < sub.len() && sub[x] == prev[q];
                    assert(paths[x] == prev[q]);
                } else {
                    assert(r[q] == paths[paths.len() - 1]);
                }
            } else {
                assert(r[q] == prev[q]);
                assert(sub.contains(prev[q]));
                let x = choose|x: int| 0 <= x < sub.len() && sub[x] == prev[q];
                assert(paths[x] == prev[q]);
            }
        }
    }
}

/// The winners under the tie-break come from the candidates, and some
/// path always wins.
pub proof fn lemma_bests_branching_props(bs: Seq<BranchView>, paths: Seq<Path>)
    requires
        paths.len() > 0,
    ensures
        spec_bests_branching(bs, paths).len() > 0,
        forall|q: int|
            0 <= q < spec_bests_branching(bs, paths).len() ==> paths.contains(
                #[trigger] spec_bests_branching(bs, paths)[q],
            ),
    decreases paths.len(),
{
    if paths.len() == 1 {
        assert(spec_bests_branching(bs, paths)[0] == paths[0]);
        assert(paths.contains(paths[0]));
    } else {
        let sub = paths.subrange(0, paths.len() - 1);
        lemma_bests_branching_props(bs, sub);
        assert(forall|q: int| 0 <= q < sub.len() ==> #[trigger] sub[q] == paths[q]);
        assert forall|q: int|
            0 <= q < spec_bests_branching(bs, paths).len() implies paths.contains(
            #[trigger] spec_bests_branching(bs, paths)[q],
        ) by {
            let r = spec_bests_branching(bs, paths);
            let prev = spec_bests_branching(bs, sub);
            let prev_min = spec_min_branching(bs, sub);
            let w = spec_small_branching_factor(bs, paths[paths.len() - 1]);
            if w < prev_min {
                assert(r[q] == paths[paths.len() - 1]);
            } else if w == prev_min {
                if q < prev.len() {
                    assert(r[q] == prev[q]);
                    assert(sub.contains(prev[q]));
                    let x = choose|x: int| 0 <= x < sub.len() && sub[x] == prev[q];
                    assert(paths[x] == prev[q]);
                } else {
                    assert(r[q] == paths[paths.len() - 1]);
                }
            } else {
                assert(r[q] == prev[q]);
                assert(sub.contains(prev[q]));
                let x = choose|x: int| 0 <= x < sub.len() && sub[x] == prev[q];
                assert(paths[x] == prev[q]);
            }
        }
    }
}

/// The picked path is one of the candidates.
pub proof fn lemma_pick_path_in_choice(bs: Seq<BranchView>)
    requires
        spec_choice_paths(bs).len() > 0,
    ensures
        spec_choice_paths(bs).contains(spec_pick_path(bs)),
{
    let all = spec_choice_paths(bs);
    lemma_bests_defaults_props(bs, all);
    let by_defaults = spec_bests_defaults(bs, all);
    if by_defaults.len() == 1 {
        assert(all.contains(by_defaults[0]));
    } else {
        lemma_bests_branching_props(bs, by_defaults);
        let by_branching = spec_bests_branching(bs, by_defaults);
        assert(by_defaults.contains(by_branching[by_branching.len() - 1]));
        let x = choose|x: int|
            0 <= x < by_defaults.len() && by_defaults[x] == by_branching[by_branching.len() - 1];
        assert(all.contains(by_defaults[x]));
    }
}

/// The shape of the refined edges: one per gathered edge, in order.
pub proof fn lemma_lower_edges_shape(edges: Seq<(TestView, Seq<BranchView>)>)
    ensures
        spec_lower_edges(edges).len() == edges.len(),
        forall|i: int| 0 <= i < edges.len() ==> #[trigger] spec_lower_edges(edges)[i] == (
            edges[i].0,
            spec_to_decision_tree(edges[i].1),
        ),
    decreases edges.len(),
{
    if edges.len() > 0 {
        let sub = edges.subrange(0, edges.len() - 1);
        lemma_lower_edges_shape(sub);
        assert forall|i: int| 0 <= i < edges.len() implies #[trigger] spec_lower_edges(edges)[i]
            == (edges[i].0, spec_to_decision_tree(edges[i].1)) by {
            if i < edges.len() - 1 {
                assert(spec_lower_edges(edges)[i] == spec_lower_edges(sub)[i]);
                assert(sub[i] == edges[i]);
            }
        }
    }
}

/// Whether `branch` ignores `selected_path`: no entry there, or only an
/// irrefutable one.
#[verifier::loop_isolation(false)]
pub fn is_irrelevant_to(selected_path: &Path, branch: &Branch) -> (r: bool)
    ensures
        r == spec_is_irrelevant_to(*selected_path, branch.deep_view()),
{
    let ghost bv = branch.deep_view();
    proof {
        crate::ir::lemma_vec_deep_view(&branch.patterns);
        lemma_find_index(*selected_path, bv.patterns);
    }
    let n = branch.patterns.len();
    let mut i: usize = 0;
    while i < n
        invariant
            0 <= i <= n == branch.patterns@.len(),
            forall|j: int| 0 <= j < i ==> (#[trigger] bv.patterns[j]).0 != *selected_path,
        decreases n - i,
    {
        if path_eq(&branch.patterns[i].0, selected_path) {
            proof {
                assert(bv.patterns[i as int].0 == *selected_path);
                assert(spec_find_index(*selected_path, bv.patterns) == i);
            }
            return !needs_tests(&branch.patterns[i].1);
        }
        i = i + 1;
    }
    proof {
        assert(spec_find_index(*selected_path, bv.patterns) < 0);
    }
    true
}

/// The branches that stay relevant on the edge of `test`, paired with
/// the test itself.
#[verifier::loop_isolation(false)]
pub fn edges_for(path: &Path, branches: &Vec<Branch>, test: Test) -> (r: (Test, Vec<Branch>))
    ensures
        r.0.deep_view() == test.deep_view(),
        r.1.deep_view() == spec_relevant_branches(test.deep_view(), *path, branches.deep_view()),
        branches_prefix_free(branches.deep_view()) ==> branches_prefix_free(r.1.deep_view()),
    decreases branches@.len(),
{
    let ghost bsv = branches.deep_view();
    let ghost tv = test.deep_view();
    proof {
        crate::ir::lemma_vec_deep_view(branches);
    }
    let mut new_branches: Vec<Branch> = Vec::new();
    let n = branches.len();
    let mut i: usize = 0;
    while i < n
        invariant
            0 <= i <= n == branches@.len(),
            n == bsv.len(),
            new_branches.deep_view() == spec_relevant_branches(tv, *path, bsv.subrange(0, i as int)),
            branches_prefix_free(bsv) ==> branches_prefix_free(new_branches.deep_view()),
        decreases n - i,
    {
        let ghost prefix = bsv.subrange(0, i as int);
        let ghost prev = spec_relevant_branches(tv, *path, prefix);
        proof {
            assert(bsv.subrange(0, i + 1).subrange(0, i as int) =~= prefix);
            assert(bsv.subrange(0, i + 1)[i as int] == bsv[i as int]);
        }
        let kept = to_relevant_branch(&test, path, &branches[i]);
        match kept {
            Option::Some(b2) => {
                let ghost pre_at = new_branches@;
                let ghost pre_dv = new_branches.deep_view();
                proof {
                    assert(forall|q: int|
                        0 <= q < pre_at.len() ==> #[trigger] pre_dv[q] == pre_at[q].deep_view());
                }
                new_branches.push(b2);
                proof {
                    assert(forall|q: int|
                        0 <= q < new_branches@.len() ==> #[trigger] new_branches.deep_view()[q]
                            == new_branches@[q].deep_view());
                    assert(new_branches@ == pre_at.push(new_branches@[new_branches@.len() - 1]));
                    assert(new_branches.deep_view().len() == pre_at.len() + 1);
                    assert(forall|q: int|
                        0 <= q < pre_at.len() ==> #[trigger] new_branches.deep_view()[q]
                            == pre_dv[q]);
                    assert(new_branches.deep_view() =~= spec_relevant_branches(
                        tv,
                        *path,
                        bsv.subrange(0, i + 1),
                    ));
                }
            }
            Option::None => {
                proof {
                    assert(new_branches.deep_view() == spec_relevant_branches(
                        tv,
                        *path,
                        bsv.subrange(0, i + 1),
                    ));
                }
            }
        }
        i = i + 1;
    }
    proof {
        assert(bsv.subrange(0, n as int) =~= bsv);
    }
    (test, new_branches)
}

/// The edges and the fallback set at `path`; a complete test set leaves
/// no fallback.
#[verifier::loop_isolation(false)]
pub fn gather_edges(branches: &Vec<Branch>, path: &Path) -> (r: (
    Vec<(Test, Vec<Branch>)>,
    Vec<Branch>,
))
    requires
        spec_tests_at_path(*path, branches.deep_view()).len() > 0,
    ensures
        r.0.deep_view() == spec_gather_edges(branches.deep_view(), *path).0,
        r.1.deep_view() == spec_gather_edges(branches.deep_view(), *path).1,
        branches_prefix_free(branches.deep_view()) ==> forall|q: int|
            0 <= q < r.0.deep_view().len() ==> branches_prefix_free(
                (#[trigger] r.0.deep_view()[q]).1,
            ),
        branches_prefix_free(branches.deep_view()) ==> branches_prefix_free(r.1.deep_view()),
{
    let ghost bsv = branches.deep_view();
    proof {
        crate::ir::lemma_vec_deep_view(branches);
    }
    let relevant_tests = tests_at_path(path, branches);
    let ghost testsv = relevant_tests.deep_view();
    proof {
        crate::ir::lemma_vec_deep_view(&relevant_tests);
        lemma_edges_shape(*path, bsv, testsv);
    }
    let check = is_complete(&relevant_tests);

    let mut all_edges: Vec<(Test, Vec<Branch>)> = Vec::new();
    let m = relevant_tests.len();
    let mut i: usize = 0;
    while i < m
        invariant
            0 <= i <= m == relevant_tests@.len(),
            m == testsv.len(),
            all_edges.deep_view() == spec_edges(*path, bsv, testsv).subrange(0, i as int),
            branches_prefix_free(bsv) ==> forall|q: int|
                0 <= q < i ==> branches_prefix_free((#[trigger] all_edges.deep_view()[q]).1),
        decreases m - i,
    {
        let edge = edges_for(path, branches, relevant_tests[i].clone());
        let ghost pre_at = all_edges@;
        let ghost pre_dv = all_edges.deep_view();
        proof {
            assert(forall|q: int|
                0 <= q < pre_at.len() ==> #[trigger] pre_dv[q] == pre_at[q].deep_view());
        }
        all_edges.push(edge);
        proof {
            assert(forall|q: int|
                0 <= q < all_edges@.len() ==> #[trigger] all_edges.deep_view()[q] == all_edges@[
                    q
                ].deep_view());
            assert(all_edges@ == pre_at.push(all_edges@[all_edges@.len() - 1]));
            assert(all_edges.deep_view().len() == pre_at.len() + 1);
            assert(forall|q: int|
                0 <= q < pre_at.len() ==> #[trigger] all_edges.deep_view()[q] == pre_dv[q]);
            assert(all_edges.deep_view()[i as int] == (
                testsv[i as int],
                spec_relevant_branches(testsv[i as int], *path, bsv),
            ));
            assert(all_edges.deep_view() =~= spec_edges(*path, bsv, testsv).subrange(0, i + 1));
        }
        i = i + 1;
    }
    proof {
        assert(spec_edges(*path, bsv, testsv).subrange(0, m as int) =~= spec_edges(
            *path,
            bsv,
            testsv,
        ));
    }

    let mut fallbacks: Vec<Branch> = Vec::new();
    if !check {
        let n = branches.len();
        let mut j: usize = 0;
        while j < n
            invariant
                0 <= j <= n == branches@.len(),
                n == bsv.len(),
                fallbacks.deep_view() == spec_fallback(*path, bsv.subrange(0, j as int)),
                branches_prefix_free(bsv) ==> branches_prefix_free(fallbacks.deep_view()),
            decreases n - j,
        {
            proof {
                assert(bsv.subrange(0, j + 1).subrange(0, j as int) =~= bsv.subrange(0, j as int));
                assert(bsv.subrange(0, j + 1)[j as int] == bsv[j as int]);
            }
            if is_irrelevant_to(path, &branches[j]) {
                let ghost pre_at = fallbacks@;
                let ghost pre_dv = fallbacks.deep_view();
                proof {
                    assert(forall|q: int|
                        0 <= q < pre_at.len() ==> #[trigger] pre_dv[q] == pre_at[q].deep_view());
                }
                fallbacks.push(branches[j].clone());
                proof {
                    assert(forall|q: int|
                        0 <= q < fallbacks@.len() ==> #[trigger] fallbacks.deep_view()[q]
                            == fallbacks@[q].deep_view());
                    assert(fallbacks@ == pre_at.push(fallbacks@[fallbacks@.len() - 1]));
                    assert(fallbacks.deep_view().len() == pre_at.len() + 1);
                    assert(forall|q: int|
                        0 <= q < pre_at.len() ==> #[trigger] fallbacks.deep_view()[q] == pre_dv[
                            q
                        ]);
                    assert(fallbacks.deep_view() =~= spec_fallback(*path, bsv.subrange(0, j + 1)));
                }
            }
            j = j + 1;
        }
        proof {
            assert(bsv.subrange(0, n as int) =~= bsv);
        }
    }
    (all_edges, fallbacks)
}

/// The first heuristic's weight: how many branches ignore the path.
#[verifier::loop_isolation(false)]
pub fn small_defaults(branches: &Vec<Branch>, path: &Path) -> (r: usize)
    ensures
        r == spec_small_defaults(branches.deep_view(), *path),
{
    let ghost bsv = branches.deep_view();
    proof {
        crate::ir::lemma_vec_deep_view(branches);
    }
    let mut count: usize = 0;
    let n = branches.len();
    let mut i: usize = 0;
    while i < n
        invariant
            0 <= i <= n == branches@.len(),
            n == bsv.len(),
            count <= i,
            count == spec_small_defaults(bsv.subrange(0, i as int), *path),
        decreases n - i,
    {
        proof {
            assert(bsv.subrange(0, i + 1).subrange(0, i as int) =~= bsv.subrange(0, i as int));
            assert(bsv.subrange(0, i + 1)[i as int] == bsv[i as int]);
        }
        if is_irrelevant_to(path, &branches[i]) {
            count = count + 1;
        }
        i = i + 1;
    }
    proof {
        assert(bsv.subrange(0, n as int) =~= bsv);
    }
    count
}

/// The second heuristic's weight: how many ways the decision at the
/// path branches, the fallback counted as one.
pub fn small_branching_factor(branches: &Vec<Branch>, path: &Path) -> (r: usize)
    requires
        spec_tests_at_path(*path, branches.deep_view()).len() > 0,
    ensures
        r == spec_small_branching_factor(branches.deep_view(), *path),
{
    let ghost bsv = branches.deep_view();
    proof {
        crate::ir::lemma_vec_deep_view(branches);
        lemma_edges_shape(*path, bsv, spec_tests_at_path(*path, bsv));
        lemma_tests_fallback_bound(*path, bsv);
    }
    let n = branches.len();
    let (edges, fallback) = gather_edges(branches, path);
    proof {
        crate::ir::lemma_vec_deep_view(&edges);
        crate::ir::lemma_vec_deep_view(&fallback);
    }
    if fallback.len() == 0 {
        edges.len()
    } else {
        proof {
            assert(fallback.deep_view().len() >= 1);
            assert(edges@.len() == spec_tests_at_path(*path, bsv).len());
            assert(edges@.len() + 1 <= n);
        }
        edges.len() + 1
    }
}

/// The candidate paths that leave the fewest branches to the fallback,
/// in encounter order.
#[verifier::loop_isolation(false)]
pub fn bests_by_small_defaults(branches: &Vec<Branch>, all_paths: &Vec<Path>) -> (r: Vec<Path>)
    requires
        all_paths@.len() > 0,
    ensures
        r@ == spec_bests_defaults(branches.deep_view(), all_paths@),
{
    let ghost bsv = branches.deep_view();
    let ghost pathsv = all_paths@;
    let mut min_weight = small_defaults(branches, &all_paths[0]);
    let mut min_paths: Vec<Path> = Vec::new();
    min_paths.push(all_paths[0].clone());
    proof {
        assert(pathsv.subrange(0, 1) =~= seq![pathsv[0]]);
        assert(min_paths@ =~= spec_bests_defaults(bsv, pathsv.subrange(0, 1)));
    }
    let n = all_paths.len();
    let mut i: usize = 1;
    while i < n
        invariant
            1 <= i <= n == all_paths@.len(),
            min_weight == spec_min_defaults(bsv, pathsv.subrange(0, i as int)),
            min_paths@ == spec_bests_defaults(bsv, pathsv.subrange(0, i as int)),
        decreases n - i,
    {
        let ghost prefix = pathsv.subrange(0, i as int);
        proof {
            assert(pathsv.subrange(0, i + 1).subrange(0, i as int) =~= prefix);
            assert(pathsv.subrange(0, i + 1)[i as int] == pathsv[i as int]);
            assert(pathsv.subrange(0, i + 1).len() >= 2);
        }
        let weight = small_defaults(branches, &all_paths[i]);
        if weight == min_weight {
            min_paths.push(all_paths[i].clone());
        } else if weight < min_weight {
            min_weight = weight;
            min_paths = Vec::new();
            min_paths.push(all_paths[i].clone());
            proof {
                assert(min_paths@ =~= seq![pathsv[i as int]]);
            }
        }
        i = i + 1;
    }
    proof {
        assert(pathsv.subrange(0, n as int) =~= pathsv);
    }
    min_paths
}

/// The candidate paths with the smallest branching factor, in encounter
/// order.
#[verifier::loop_isolation(false)]
pub fn bests_by_small_branching_factor(branches: &Vec<Branch>, all_paths: &Vec<Path>) -> (r: Vec<
    Path,
>)
    requires
        all_paths@.len() > 0,
        forall|q: int|
            0 <= q < all_paths@.len() ==> spec_tests_at_path(
                #[trigger] all_paths@[q],
                branches.deep_view(),
            ).len() > 0,
    ensures
        r@ == spec_bests_branching(branches.deep_view(), all_paths@),
{
    let ghost bsv = branches.deep_view();
    let ghost pathsv = all_paths@;
    let mut min_weight = small_branching_factor(branches, &all_paths[0]);
    let mut min_paths: Vec<Path> = Vec::new();
    min_paths.push(all_paths[0].clone());
    proof {
        assert(pathsv.subrange(0, 1) =~= seq![pathsv[0]]);
        assert(min_paths@ =~= spec_bests_branching(bsv, pathsv.subrange(0, 1)));
    }
    let n = all_paths.len();
    let mut i: usize = 1;
    while i < n
        invariant
            1 <= i <= n == all_paths@.len(),
            min_weight == spec_min_branching(bsv, pathsv.subrange(0, i as int)),
            min_paths@ == spec_bests_branching(bsv, pathsv.subrange(0, i as int)),
        decreases n - i,
    {
        let ghost prefix = pathsv.subrange(0, i as int);
        proof {
            assert(pathsv.subrange(0, i + 1).subrange(0, i as int) =~= prefix);
            assert(pathsv.subrange(0, i + 1)[i as int] == pathsv[i as int]);
            assert(pathsv.subrange(0, i + 1).len() >= 2);
        }
        let weight = small_branching_factor(branches, &all_paths[i]);
        if weight == min_weight {
            min_paths.push(all_paths[i].clone());
        } else if weight < min_weight {
            min_weight = weight;
            min_paths = Vec::new();
            min_paths.push(all_paths[i].clone());
            proof {
                assert(min_paths@ =~= seq![pathsv[i as int]]);
            }
        }
        i = i + 1;
    }
    proof {
        assert(pathsv.subrange(0, n as int) =~= pathsv);
    }
    min_paths
}

/// Picks the path the decision should test next: fewest fallback
/// branches first, smallest branching factor second, the last candidate
/// in encounter order third.
#[verifier::loop_isolation(false)]
pub fn pick_path(branches: &Vec<Branch>) -> (r: Path)
    requires
        spec_choice_paths(branches.deep_view()).len() > 0,
        branches_prefix_free(branches.deep_view()),
    ensures
        r == spec_pick_path(branches.deep_view()),
        spec_choice_paths(branches.deep_view()).contains(r),
{
    let ghost bsv = branches.deep_view();
    proof {
        crate::ir::lemma_vec_deep_view(branches);
    }
    let mut all_paths: Vec<Path> = Vec::new();
    let n = branches.len();
    let mut i: usize = 0;
    while i < n
        invariant
            0 <= i <= n == branches@.len(),
            n == bsv.len(),
            all_paths@ == spec_choice_paths(bsv.subrange(0, i as int)),
        decreases n - i,
    {
        let ghost prefix = bsv.subrange(0, i as int);
        proof {
            assert(bsv.subrange(0, i + 1).subrange(0, i as int) =~= prefix);
            assert(bsv.subrange(0, i + 1)[i as int] == bsv[i as int]);
            crate::ir::lemma_vec_deep_view(&branches@[i as int].patterns);
        }
        let ghost pv = bsv[i as int].patterns;
        let branch = &branches[i];
        let m = branch.patterns.len();
        let mut j: usize = 0;
        while j < m
            invariant
                0 <= j <= m == branch.patterns@.len(),
                m == pv.len(),
                all_paths@ == spec_choice_paths(prefix) + spec_branch_choice_paths(
                    pv.subrange(0, j as int),
                ),
            decreases m - j,
        {
            proof {
                assert(pv.subrange(0, j + 1).subrange(0, j as int) =~= pv.subrange(0, j as int));
                assert(pv.subrange(0, j + 1)[j as int] == pv[j as int]);
            }
            if needs_tests(&branch.patterns[j].1) {
                all_paths.push(branch.patterns[j].0.clone());
                proof {
                    assert(all_paths@ =~= spec_choice_paths(prefix) + spec_branch_choice_paths(
                        pv.subrange(0, j + 1),
                    ));
                }
            } else {
                proof {
                    assert(spec_branch_choice_paths(pv.subrange(0, j + 1))
                        == spec_branch_choice_paths(pv.subrange(0, j as int)));
                }
            }
            j = j + 1;
        }
        proof {
            assert(pv.subrange(0, m as int) =~= pv);
            assert(all_paths@ =~= spec_choice_paths(bsv.subrange(0, i + 1)));
        }
        i = i + 1;
    }
    proof {
        assert(bsv.subrange(0, n as int) =~= bsv);
        assert forall|q: int|
            0 <= q < all_paths@.len() implies spec_tests_at_path(
            #[trigger] all_paths@[q],
            bsv,
        ).len() > 0 by {
            assert(spec_choice_paths(bsv).contains(all_paths@[q]));
            lemma_choice_paths_witness(bsv, all_paths@[q]);
            let (wi, wj) = choose|wi: int, wj: int|
                0 <= wi < bsv.len() && 0 <= wj < bsv[wi].patterns.len() && (#[trigger] bsv[
                    wi
                ].patterns[wj]).0 == all_paths@[q] && spec_needs_tests(bsv[wi].patterns[wj].1);
            lemma_prefix_free_first_found(all_paths@[q], bsv[wi], wj);
            lemma_tests_nonempty(all_paths@[q], bsv, wi);
        }
        lemma_bests_defaults_props(bsv, all_paths@);
    }
    let by_small_defaults = bests_by_small_defaults(branches, &all_paths);
    if by_small_defaults.len() == 1 {
        let mut by_small_defaults = by_small_defaults;
        let r = by_small_defaults.remove(0);
        proof {
            lemma_pick_path_in_choice(bsv);
        }
        r
    } else {
        proof {
            assert forall|q: int|
                0 <= q < by_small_defaults@.len() implies spec_tests_at_path(
                #[trigger] by_small_defaults@[q],
                bsv,
            ).len() > 0 by {
                assert(all_paths@.contains(by_small_defaults@[q]));
                let x = choose|x: int|
                    0 <= x < all_paths@.len() && all_paths@[x] == by_small_defaults@[q];
                assert(spec_tests_at_path(all_paths@[x], bsv).len() > 0);
            }
            lemma_bests_branching_props(bsv, by_small_defaults@);
        }
        let result = bests_by_small_branching_factor(branches, &by_small_defaults);
        let mut result = result;
        let r = result.remove(result.len() - 1);
        proof {
            lemma_pick_path_in_choice(bsv);
        }
        r
    }
}

/// Builds the decision tree for a branch list: flatten, stop when the
/// first row is wholly irrefutable, otherwise pick a path, gather edges
/// and fallback, refine each, and collapse the degenerate shapes.
#[verifier::loop_isolation(false)]
#[verifier::rlimit(100)]
pub fn to_decision_tree(raw_branches: Vec<Branch>) -> (r: DecisionTree)
    requires
        raw_branches@.len() > 0,
        branches_prefix_free(raw_branches.deep_view()),
    ensures
        r.deep_view() == spec_to_decision_tree(raw_branches.deep_view()),
        spec_tree_nonempty(r.deep_view()),
        spec_irrefutable_row(
            raw_branches.deep_view()[raw_branches.deep_view().len() - 1],
        ) ==> spec_exhaustive_defaults(r.deep_view()),
    decreases branches_size(raw_branches.deep_view()),
{
    let ghost rawv = raw_branches.deep_view();
    proof {
        crate::ir::lemma_vec_deep_view(&raw_branches);
        lemma_flatten_all_size(rawv);
    }
    let ghost bsv = spec_flatten_all(rawv);
    let mut branches: Vec<Branch> = Vec::new();
    let mut raw = raw_branches;
    let n = raw.len();
    let mut i: usize = 0;
    while i < n
        invariant
            i + raw@.len() == n,
            n == rawv.len(),
            raw.deep_view() =~= rawv.subrange(i as int, n as int),
            branches.deep_view() =~= bsv.subrange(0, i as int),
            branches_prefix_free(branches.deep_view()),
        decreases n - i,
    {
        let ghost arr_pre = raw@;
        let ghost dv_pre = raw.deep_view();
        proof {
            assert(forall|q: int|
                0 <= q < arr_pre.len() ==> #[trigger] dv_pre[q] == arr_pre[q].deep_view());
        }
        let branch = raw.remove(0);
        proof {
            assert(branch == arr_pre[0]);
            assert(raw@ =~= arr_pre.subrange(1, arr_pre.len() as int));
            crate::ir::lemma_vec_deep_view(&raw);
            assert(branch.deep_view() == dv_pre[0]);
            assert(branch.deep_view() == rawv[i as int]);
            assert forall|j: int| 0 <= j < raw@.len() implies #[trigger] raw.deep_view()[j]
                == rawv.subrange(i + 1, n as int)[j] by {
                assert(raw@[j] == arr_pre[j + 1]);
                assert(raw.deep_view()[j] == raw@[j].deep_view());
                assert(arr_pre[j + 1].deep_view() == dv_pre[j + 1]);
            }
            assert(raw.deep_view() =~= rawv.subrange(i + 1, n as int));
            assert(pats_prefix_free(rawv[i as int].patterns));
        }
        let flat = flatten_patterns(branch);
        let ghost pre_at = branches@;
        let ghost pre_dv = branches.deep_view();
        proof {
            assert(forall|q: int|
                0 <= q < pre_at.len() ==> #[trigger] pre_dv[q] == pre_at[q].deep_view());
        }
        branches.push(flat);
        proof {
            assert(forall|q: int|
                0 <= q < branches@.len() ==> #[trigger] branches.deep_view()[q] == branches@[
                    q
                ].deep_view());
            assert(branches@ == pre_at.push(branches@[branches@.len() - 1]));
            assert(branches.deep_view().len() == pre_at.len() + 1);
            assert(forall|q: int|
                0 <= q < pre_at.len() ==> #[trigger] branches.deep_view()[q] == pre_dv[q]);
            assert(branches.deep_view()[i as int] == spec_flatten_branch(rawv[i as int]));
            assert(branches.deep_view() =~= bsv.subrange(0, i + 1));
        }
        i = i + 1;
    }
    proof {
        assert(bsv.subrange(0, n as int) =~= bsv);
        assert(branches.deep_view() == bsv);
        crate::ir::lemma_vec_deep_view(&branches);
        if spec_irrefutable_row(rawv[rawv.len() - 1]) {
            lemma_flatten_irrefutable_row(rawv[rawv.len() - 1]);
            assert(bsv[bsv.len() - 1] == spec_flatten_branch(rawv[rawv.len() - 1]));
            assert(spec_irrefutable_row(bsv[bsv.len() - 1]));
        }
    }
    let ghost catch_all = spec_irrefutable_row(bsv[bsv.len() - 1]);
    match check_for_match(&branches) {
        Option::Some(goal) => DecisionTree::Match(goal),
        Option::None => {
            proof {
                assert(bsv.len() == rawv.len() > 0);
                assert(!spec_irrefutable_row(bsv[0]));
                let j = choose|j: int|
                    0 <= j < bsv[0].patterns.len() && spec_needs_tests(
                        (#[trigger] bsv[0].patterns[j]).1,
                    );
                lemma_choice_paths_contains(bsv, 0, j);
                let q = choose|q: int|
                    0 <= q < spec_choice_paths(bsv).len() && spec_choice_paths(bsv)[q] == bsv[
                        0
                    ].patterns[j].0;
                assert(spec_choice_paths(bsv).len() > 0);
            }
            let path = pick_path(&branches);
            proof {
                lemma_choice_paths_witness(bsv, path);
                let (wi, wj) = choose|wi: int, wj: int|
                    0 <= wi < bsv.len() && 0 <= wj < bsv[wi].patterns.len() && (#[trigger] bsv[
                        wi
                    ].patterns[wj]).0 == path && spec_needs_tests(bsv[wi].patterns[wj].1);
                lemma_prefix_free_first_found(path, bsv[wi], wj);
                lemma_tests_nonempty(path, bsv, wi);
                lemma_gather_edges_sizes(bsv, path);
                lemma_edges_shape(path, bsv, spec_tests_at_path(path, bsv));
            }
            let (edges, fallback) = gather_edges(&branches, &path);
            let ghost ev = edges.deep_view();
            let ghost fv = fallback.deep_view();
            proof {
                crate::ir::lemma_vec_deep_view(&edges);
                crate::ir::lemma_vec_deep_view(&fallback);
                lemma_lower_edges_shape(ev);
            }
            let mut decision_edges: Vec<(Test, DecisionTree)> = Vec::new();
            let mut edges = edges;
            let m = edges.len();
            let mut j: usize = 0;
            while j < m
                invariant
                    j + edges@.len() == m,
                    m == ev.len(),
                    edges.deep_view() =~= ev.subrange(j as int, m as int),
                    decision_edges.deep_view() =~= spec_lower_edges(ev).subrange(0, j as int),
                    forall|q: int|
                        0 <= q < j ==> spec_tree_nonempty(
                            (#[trigger] decision_edges.deep_view()[q]).1,
                        ),
                    catch_all ==> forall|q: int|
                        0 <= q < j ==> spec_exhaustive_defaults(
                            (#[trigger] decision_edges.deep_view()[q]).1,
                        ),
                decreases m - j,
            {
                let ghost arr_pre = edges@;
                let ghost dv_pre = edges.deep_view();
                proof {
                    assert(forall|q: int|
                        0 <= q < arr_pre.len() ==> #[trigger] dv_pre[q] == arr_pre[q].deep_view());
                }
                let edge = edges.remove(0);
                proof {
                    assert(edge == arr_pre[0]);
                    assert(edges@ =~= arr_pre.subrange(1, arr_pre.len() as int));
                    crate::ir::lemma_vec_deep_view(&edges);
                    assert(edge.deep_view() == dv_pre[0]);
                    assert(edge.deep_view() == ev[j as int]);
                    assert forall|q: int| 0 <= q < edges@.len() implies #[trigger] edges.deep_view()[
                        q
                    ] == ev.subrange(j + 1, m as int)[q] by {
                        assert(edges@[q] == arr_pre[q + 1]);
                        assert(edges.deep_view()[q] == edges@[q].deep_view());
                        assert(arr_pre[q + 1].deep_view() == dv_pre[q + 1]);
                    }
                    assert(edges.deep_view() =~= ev.subrange(j + 1, m as int));
                    // the edge's branch list is nonempty, prefix-free and smaller
                    assert(ev[j as int] == (
                        spec_tests_at_path(path, bsv)[j as int],
                        spec_relevant_branches(spec_tests_at_path(path, bsv)[j as int], path, bsv),
                    ));
                    let t = spec_tests_at_path(path, bsv)[j as int];
                    assert(spec_tests_at_path(path, bsv).contains(t));
                    lemma_tests_at_path_witness(path, bsv, t);
                    let w = choose|w: int|
                        0 <= w < bsv.len() && spec_test_at_path(path, #[trigger] bsv[w]) == Some(t);
                    lemma_relevant_branches_nonempty(t, path, bsv, w);
                    crate::ir::lemma_vec_deep_view(&edge.1);
                    assert(edge.1@.len() > 0);
                    assert(branches_size(ev[j as int].1) < branches_size(bsv));
                    if catch_all {
                        lemma_catchall_edge(t, path, bsv);
                        let el = spec_relevant_branches(t, path, bsv);
                        assert(edge.1.deep_view() == el);
                        assert(spec_irrefutable_row(el[el.len() - 1]));
                    }
                }
                let tree = to_decision_tree(edge.1);
                let ghost pre_at = decision_edges@;
                let ghost pre_dv = decision_edges.deep_view();
                proof {
                    assert(forall|q: int|
                        0 <= q < pre_at.len() ==> #[trigger] pre_dv[q] == pre_at[q].deep_view());
                }
                decision_edges.push((edge.0, tree));
                proof {
                    assert(forall|q: int|
                        0 <= q < decision_edges@.len() ==> #[trigger] decision_edges.deep_view()[
                            q
                        ] == decision_edges@[q].deep_view());
                    assert(decision_edges@ == pre_at.push(decision_edges@[decision_edges@.len()
                        - 1]));
                    assert(decision_edges.deep_view().len() == pre_at.len() + 1);
                    assert(forall|q: int|
                        0 <= q < pre_at.len() ==> #[trigger] decision_edges.deep_view()[q]
                            == pre_dv[q]);
                    assert(decision_edges.deep_view()[j as int] == (
                        ev[j as int].0,
                        spec_to_decision_tree(ev[j as int].1),
                    ));
                    assert(decision_edges.deep_view() =~= spec_lower_edges(ev).subrange(0, j + 1));
                }
                j = j + 1;
            }
            proof {
                assert(spec_lower_edges(ev).subrange(0, m as int) =~= spec_lower_edges(ev));
                assert(decision_edges.deep_view() == spec_lower_edges(ev));
                crate::ir::lemma_vec_deep_view(&decision_edges);
                assert(m == spec_tests_at_path(path, bsv).len());
                assert(m > 0);
            }
            proof {
                if catch_all && fv.len() == 0 {
                    if !spec_is_complete(spec_tests_at_path(path, bsv)) {
                        lemma_catchall_fallback(path, bsv);
                    }
                    assert(spec_is_complete(spec_tests_at_path(path, bsv)));
                }
            }
            if fallback.len() == 0 {
                if decision_edges.len() == 1 {
                    let mut decision_edges = decision_edges;
                    let ghost dv = decision_edges.deep_view();
                    let pair = decision_edges.remove(0);
                    proof {
                        assert(pair.deep_view() == dv[0]);
                        assert(pair.1.deep_view() == spec_lower_edges(ev)[0].1);
                        assert(pair.1.deep_view() == spec_to_decision_tree(ev[0].1));
                        assert(spec_tree_nonempty(pair.1.deep_view()));
                        if catch_all {
                            assert(spec_exhaustive_defaults(dv[0].1));
                        }
                    }
                    pair.1
                } else {
                    let r = DecisionTree::Decision {
                        path,
                        edges: decision_edges,
                        default: None,
                    };
                    proof {
                        assert(tree_edge_views(r->Decision_edges@) =~= spec_lower_edges(ev)) by {
                            lemma_tree_edge_views(r->Decision_edges@);
                        }
                        lemma_tree_edges_nonempty(tree_edge_views(r->Decision_edges@));
                        assert(spec_tree_nonempty(r.deep_view()));
                        if catch_all {
                            let tedges = tree_edge_views(r->Decision_edges@);
                            let tests = spec_tests_at_path(path, bsv);
                            assert(tedges[tedges.len() - 1].0 == tests[tests.len() - 1]);
                            lemma_edges_exhaustive_defaults(tedges);
                            assert(spec_exhaustive_defaults(r.deep_view()));
                        }
                    }
                    r
                }
            } else {
                proof {
                    assert(fv.len() > 0);
                    assert(branches_size(fv) < branches_size(bsv));
                    assert(!spec_is_complete(spec_tests_at_path(path, bsv)));
                    assert(fv == spec_fallback(path, bsv));
                    if catch_all {
                        lemma_catchall_fallback(path, bsv);
                        assert(spec_irrefutable_row(fv[fv.len() - 1]));
                    }
                }
                let sub = to_decision_tree(fallback);
                let r = DecisionTree::Decision {
                    path,
                    edges: decision_edges,
                    default: Some(Box::new(sub)),
                };
                proof {
                    assert(tree_edge_views(r->Decision_edges@) =~= spec_lower_edges(ev)) by {
                        lemma_tree_edge_views(r->Decision_edges@);
                    }
                    lemma_tree_edges_nonempty(tree_edge_views(r->Decision_edges@));
                    assert(spec_tree_nonempty(r.deep_view()));
                    if catch_all {
                        let tedges = tree_edge_views(r->Decision_edges@);
                        let tests = spec_tests_at_path(path, bsv);
                        assert(tedges[tedges.len() - 1].0 == tests[tests.len() - 1]);
                        lemma_edges_exhaustive_defaults(tedges);
                        assert(spec_exhaustive_defaults(r.deep_view()));
                    }
                }
                r
            }
        }
    }
}

/// The entry point used in isolation: takes the surface branches, each
/// a pattern and the label of its body, and lowers them into a decision
/// tree whose leaves carry the labels.
#[verifier::loop_isolation(false)]
pub fn compile(raw_branches: Vec<(Pattern, Label)>) -> (r: DecisionTree)
    requires
        raw_branches@.len() > 0,
    ensures
        r.deep_view() == spec_compile(raw_branches.deep_view()),
        spec_tree_nonempty(r.deep_view()),
        !spec_needs_tests(
            raw_branches.deep_view()[raw_branches.deep_view().len() - 1].0,
        ) ==> spec_exhaustive_defaults(r.deep_view()),
{
    let ghost rawv = raw_branches.deep_view();
    proof {
        crate::ir::lemma_vec_deep_view(&raw_branches);
    }
    let ghost target = Seq::new(
        rawv.len(),
        |q: int| BranchView { goal: rawv[q].1, patterns: seq![(Path::Empty, rawv[q].0)] },
    );
    let mut formatted: Vec<Branch> = Vec::new();
    let mut raw = raw_branches;
    let n = raw.len();
    let mut i: usize = 0;
    while i < n
        invariant
            i + raw@.len() == n,
            n == rawv.len(),
            raw.deep_view() =~= rawv.subrange(i as int, n as int),
            formatted.deep_view() =~= target.subrange(0, i as int),
            branches_prefix_free(formatted.deep_view()),
        decreases n - i,
    {
        let ghost arr_pre = raw@;
        let ghost dv_pre = raw.deep_view();
        proof {
            assert(forall|q: int|
                0 <= q < arr_pre.len() ==> #[trigger] dv_pre[q] == arr_pre[q].deep_view());
        }
        let pair = raw.remove(0);
        proof {
            assert(pair == arr_pre[0]);
            assert(raw@ =~= arr_pre.subrange(1, arr_pre.len() as int));
            crate::ir::lemma_vec_deep_view(&raw);
            assert(pair.deep_view() == dv_pre[0]);
            assert(pair.deep_view() == rawv[i as int]);
            assert forall|q: int| 0 <= q < raw@.len() implies #[trigger] raw.deep_view()[q]
                == rawv.subrange(i + 1, n as int)[q] by {
                assert(raw@[q] == arr_pre[q + 1]);
                assert(raw.deep_view()[q] == raw@[q].deep_view());
                assert(arr_pre[q + 1].deep_view() == dv_pre[q + 1]);
            }
            assert(raw.deep_view() =~= rawv.subrange(i + 1, n as int));
        }
        let mut patterns: Vec<(Path, Pattern)> = Vec::new();
        patterns.push((Path::Empty, pair.0));
        let branch = Branch { goal: pair.1, patterns };
        proof {
            assert(forall|q: int|
                0 <= q < branch.patterns@.len() ==> #[trigger] branch.patterns.deep_view()[q]
                    == branch.patterns@[q].deep_view());
            assert(branch.deep_view().patterns =~= seq![(Path::Empty, rawv[i as int].0)]);
            assert(branch.deep_view() == target[i as int]);
        }
        let ghost pre_at = formatted@;
        let ghost pre_dv = formatted.deep_view();
        proof {
            assert(forall|q: int|
                0 <= q < pre_at.len() ==> #[trigger] pre_dv[q] == pre_at[q].deep_view());
        }
        formatted.push(branch);
        proof {
            assert(forall|q: int|
                0 <= q < formatted@.len() ==> #[trigger] formatted.deep_view()[q] == formatted@[
                    q
                ].deep_view());
            assert(formatted@ == pre_at.push(formatted@[formatted@.len() - 1]));
            assert(formatted.deep_view().len() == pre_at.len() + 1);
            assert(forall|q: int|
                0 <= q < pre_at.len() ==> #[trigger] formatted.deep_view()[q] == pre_dv[q]);
            assert(formatted.deep_view() =~= target.subrange(0, i + 1));
        }
        i = i + 1;
    }
    proof {
        assert(target.subrange(0, n as int) =~= target);
        assert(formatted.deep_view() == target);
        crate::ir::lemma_vec_deep_view(&formatted);
        if !spec_needs_tests(rawv[rawv.len() - 1].0) {
            assert forall|q: int|
                0 <= q < target[n - 1].patterns.len() implies !spec_needs_tests(
                (#[trigger] target[n - 1].patterns[q]).1,
            ) by {
                assert(target[n - 1].patterns[q] == (Path::Empty, rawv[n - 1].0));
            }
            assert(spec_irrefutable_row(target[n - 1]));
        }
    }
    to_decision_tree(formatted)
}

/// A tree in which every decision has at least one edge: what the
/// construction owes and the decider lowering relies on.
pub open spec fn spec_tree_nonempty(t: TreeView) -> bool
    decreases t,
{
    match t {
        TreeView::Match(_) => true,
        TreeView::Decision { edges, default, .. } => edges.len() > 0 && spec_tree_edges_nonempty(
            edges,
        ) && match default {
            Option::Some(d) => spec_tree_nonempty(*d),
            Option::None => true,
        },
    }
}

/// Every edge's subtree has the same property.
pub open spec fn spec_tree_edges_nonempty(edges: Seq<(TestView, TreeView)>) -> bool
    decreases edges,
{
    if edges.len() == 0 {
        true
    } else {
        spec_tree_edges_nonempty(edges.subrange(0, edges.len() - 1)) && spec_tree_nonempty(
            edges[edges.len() - 1].1,
        )
    }
}

/// The edge property, element by element.
pub proof fn lemma_tree_edges_nonempty(edges: Seq<(TestView, TreeView)>)
    ensures
        spec_tree_edges_nonempty(edges) ==> forall|i: int|
            0 <= i < edges.len() ==> spec_tree_nonempty((#[trigger] edges[i]).1),
        (forall|i: int| 0 <= i < edges.len() ==> spec_tree_nonempty((#[trigger] edges[i]).1))
            ==> spec_tree_edges_nonempty(edges),
    decreases edges.len(),
{
    if edges.len() > 0 {
        let sub = edges.subrange(0, edges.len() - 1);
        lemma_tree_edges_nonempty(sub);
        assert(forall|i: int| 0 <= i < sub.len() ==> #[trigger] sub[i] == edges[i]);
        if spec_tree_edges_nonempty(edges) {
            assert forall|i: int|
                0 <= i < edges.len() implies spec_tree_nonempty((#[trigger] edges[i]).1) by {
                if i < edges.len() - 1 {
                    assert(spec_tree_nonempty(sub[i].1));
                }
            }
        }
        if forall|i: int| 0 <= i < edges.len() ==> spec_tree_nonempty((#[trigger] edges[i]).1) {
            assert forall|i: int|
                0 <= i < sub.len() implies spec_tree_nonempty((#[trigger] sub[i]).1) by {
                assert(sub[i] == edges[i]);
            }
            assert(spec_tree_edges_nonempty(sub));
            assert(spec_tree_nonempty(edges[edges.len() - 1].1));
            assert(spec_tree_edges_nonempty(edges));
        }
    }
}

// ---------------------------------------------------------------------
// Exhaustiveness-driven defaults.
// ---------------------------------------------------------------------

/// The number of alternatives a test's kind admits, for the closed
/// kinds: constructors, bytes and bits. Ints, floats and strings are
/// open.
pub open spec fn spec_test_alt_count(t: TestView) -> Option<int> {
    match t {
        TestView::IsCtor { union, .. } => Some(union.alternatives.len() as int),
        TestView::IsByte { num_alts, .. } => Some(num_alts as int),
        TestView::IsBit(_) => Some(2),
        _ => None,
    }
}

/// Wherever the tree decides over a closed test kind, the default is
/// absent exactly when the distinct edges cover every alternative;
/// over an open kind a default is always present.
pub open spec fn spec_exhaustive_defaults(t: TreeView) -> bool
    decreases t,
{
    match t {
        TreeView::Match(_) => true,
        TreeView::Decision { edges, default, .. } => {
            &&& edges.len() > 0
            &&& match spec_test_alt_count(edges[edges.len() - 1].0) {
                Option::Some(n) => (default is None) <==> edges.len() == n,
                Option::None => default is Some,
            }
            &&& spec_edges_exhaustive_defaults(edges)
            &&& match default {
                Option::Some(d) => spec_exhaustive_defaults(*d),
                Option::None => true,
            }
        }
    }
}

/// The same, below every edge.
pub open spec fn spec_edges_exhaustive_defaults(edges: Seq<(TestView, TreeView)>) -> bool
    decreases edges,
{
    if edges.len() == 0 {
        true
    } else {
        spec_edges_exhaustive_defaults(edges.subrange(0, edges.len() - 1))
            && spec_exhaustive_defaults(edges[edges.len() - 1].1)
    }
}

/// The edge clause, element by element.
pub proof fn lemma_edges_exhaustive_defaults(edges: Seq<(TestView, TreeView)>)
    ensures
        spec_edges_exhaustive_defaults(edges) ==> forall|i: int|
            0 <= i < edges.len() ==> spec_exhaustive_defaults((#[trigger] edges[i]).1),
        (forall|i: int|
            0 <= i < edges.len() ==> spec_exhaustive_defaults((#[trigger] edges[i]).1))
            ==> spec_edges_exhaustive_defaults(edges),
    decreases edges.len(),
{
    if edges.len() > 0 {
        let sub = edges.subrange(0, edges.len() - 1);
        lemma_edges_exhaustive_defaults(sub);
        assert(forall|i: int| 0 <= i < sub.len() ==> #[trigger] sub[i] == edges[i]);
        if spec_edges_exhaustive_defaults(edges) {
            assert forall|i: int|
                0 <= i < edges.len() implies spec_exhaustive_defaults(
                (#[trigger] edges[i]).1,
            ) by {
                if i < edges.len() - 1 {
                    assert(spec_exhaustive_defaults(sub[i].1));
                }
            }
        }
        if forall|i: int|
            0 <= i < edges.len() ==> spec_exhaustive_defaults((#[trigger] edges[i]).1) {
            assert forall|i: int|
                0 <= i < sub.len() implies spec_exhaustive_defaults((#[trigger] sub[i]).1) by {
                assert(sub[i] == edges[i]);
            }
            assert(spec_edges_exhaustive_defaults(sub));
            assert(spec_exhaustive_defaults(edges[edges.len() - 1].1));
        }
    }
}

/// Flattening keeps a wholly irrefutable row wholly irrefutable.
pub proof fn lemma_flatten_irrefutable_row(b: BranchView)
    requires
        spec_irrefutable_row(b),
    ensures
        spec_irrefutable_row(spec_flatten_branch(b)),
{
    lemma_flatten_pats_irrefutable(b.patterns);
}

/// The row form of the same fact.
proof fn lemma_flatten_pats_irrefutable(pats: Seq<(Path, PatternView)>)
    requires
        forall|i: int| 0 <= i < pats.len() ==> !spec_needs_tests((#[trigger] pats[i]).1),
    ensures
        forall|i: int|
            0 <= i < spec_flatten_pats(pats).len() ==> !spec_needs_tests(
                (#[trigger] spec_flatten_pats(pats)[i]).1,
            ),
    decreases pats.len(),
{
    if pats.len() > 0 {
        let sub = pats.subrange(0, pats.len() - 1);
        assert(forall|i: int| 0 <= i < sub.len() ==> #[trigger] sub[i] == pats[i]);
        lemma_flatten_pats_irrefutable(sub);
        let last = pats[pats.len() - 1];
        assert(spec_flatten_one(last.0, last.1) =~= seq![(last.0, last.1)]);
        let whole = spec_flatten_pats(pats);
        assert(whole == spec_flatten_pats(sub) + spec_flatten_one(last.0, last.1));
        assert forall|i: int| 0 <= i < whole.len() implies !spec_needs_tests(
            (#[trigger] whole[i]).1,
        ) by {
            if i < spec_flatten_pats(sub).len() {
                assert(whole[i] == spec_flatten_pats(sub)[i]);
            } else {
                assert(whole[i] == (last.0, last.1));
            }
        }
    }
}

/// A wholly irrefutable row ignores every path and survives every edge
/// unchanged.
pub proof fn lemma_irrefutable_row_relevant(test: TestView, path: Path, b: BranchView)
    requires
        spec_irrefutable_row(b),
    ensures
        spec_to_relevant_branch(test, path, b) == Some(b),
        spec_is_irrelevant_to(path, b),
{
    lemma_find_index(path, b.patterns);
    let k = spec_find_index(path, b.patterns);
    if k >= 0 {
        assert(!spec_needs_tests(b.patterns[k].1));
    }
}

/// With a wholly irrefutable last row, every edge keeps it last.
pub proof fn lemma_catchall_edge(test: TestView, path: Path, bs: Seq<BranchView>)
    requires
        bs.len() > 0,
        spec_irrefutable_row(bs[bs.len() - 1]),
    ensures
        spec_relevant_branches(test, path, bs).len() > 0,
        spec_relevant_branches(test, path, bs)[spec_relevant_branches(
            test,
            path,
            bs,
        ).len() - 1] == bs[bs.len() - 1],
{
    lemma_irrefutable_row_relevant(test, path, bs[bs.len() - 1]);
}

/// With a wholly irrefutable last row, the fallback keeps it last.
pub proof fn lemma_catchall_fallback(path: Path, bs: Seq<BranchView>)
    requires
        bs.len() > 0,
        spec_irrefutable_row(bs[bs.len() - 1]),
    ensures
        spec_fallback(path, bs).len() > 0,
        spec_fallback(path, bs)[spec_fallback(path, bs).len() - 1] == bs[bs.len() - 1],
{
    lemma_irrefutable_row_relevant(TestView::IsBit(true), path, bs[bs.len() - 1]);
}

} // verus!
