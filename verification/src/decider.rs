//! Lowering of the decision tree into a decider: short-circuit chains
//! for one- and two-way decisions, fan-out switches for wider ones, and
//! the per-goal choice between inlining a body and jumping to it.

use std::collections::HashMap;

use vstd::prelude::*;

use crate::decision_tree::DecisionTree;
use crate::decision_tree::Test;
use crate::decision_tree::TestView;
use crate::decision_tree::TreeView;
use crate::decision_tree::test_eq;
use crate::decision_tree::tree_edge_views;
use crate::decision_tree::lemma_tree_edge_views;
use crate::decision_tree::spec_tree_nonempty;
use crate::ir::Expr;
use crate::ir::ExprView;
use crate::ir::Path;
use crate::ir::path_eq;
use crate::Label;

verus! {

/// A refined decision structure: a linear chain of tests that all must
/// pass, or a multi-way fan-out, with a goal of type `T` at each leaf.
#[derive(Debug)]
pub enum Decider<T> {
    Leaf(T),
    Chain { test_chain: Vec<(Path, Test)>, success: Box<Decider<T>>, failure: Box<Decider<T>> },
    FanOut { path: Path, tests: Vec<(Test, Decider<T>)>, fallback: Box<Decider<T>> },
}

#[verifier::ext_equal]
pub enum DeciderView<TV> {
    Leaf(TV),
    Chain {
        test_chain: Seq<(Path, TestView)>,
        success: Box<DeciderView<TV>>,
        failure: Box<DeciderView<TV>>,
    },
    FanOut {
        path: Path,
        tests: Seq<(TestView, DeciderView<TV>)>,
        fallback: Box<DeciderView<TV>>,
    },
}

impl<T: DeepView> DeepView for Decider<T> {
    type V = DeciderView<T::V>;

    open spec fn deep_view(&self) -> DeciderView<T::V>
        decreases self,
    {
        match self {
            Decider::Leaf(t) => DeciderView::Leaf(t.deep_view()),
            Decider::Chain { test_chain, success, failure } => DeciderView::Chain {
                test_chain: Seq::new(
                    test_chain@.len(),
                    |i: int| (test_chain@[i].0, test_chain@[i].1.deep_view()),
                ),
                success: Box::new((**success).deep_view()),
                failure: Box::new((**failure).deep_view()),
            },
            Decider::FanOut { path, tests, fallback } => DeciderView::FanOut {
                path: *path,
                tests: decider_test_views(tests@),
                fallback: Box::new((**fallback).deep_view()),
            },
        }
    }
}

/// The views of a sequence of fan-out arms.
pub open spec fn decider_test_views<T: DeepView>(tests: Seq<(Test, Decider<T>)>) -> Seq<
    (TestView, DeciderView<T::V>),
>
    decreases tests,
{
    if tests.len() == 0 {
        Seq::empty()
    } else {
        decider_test_views(tests.subrange(0, tests.len() - 1)).push(
            (tests[tests.len() - 1].0.deep_view(), tests[tests.len() - 1].1.deep_view()),
        )
    }
}

/// `decider_test_views` is the pointwise view.
pub proof fn lemma_decider_test_views<T: DeepView>(tests: Seq<(Test, Decider<T>)>)
    ensures
        decider_test_views(tests).len() == tests.len(),
        forall|i: int| 0 <= i < tests.len() ==> #[trigger] decider_test_views(tests)[i] == (
            tests[i].0.deep_view(),
            tests[i].1.deep_view(),
        ),
    decreases tests.len(),
{
    if tests.len() > 0 {
        let sub = tests.subrange(0, tests.len() - 1);
        lemma_decider_test_views(sub);
        assert(decider_test_views(tests) == decider_test_views(sub).push(
            (tests[tests.len() - 1].0.deep_view(), tests[tests.len() - 1].1.deep_view()),
        ));
        assert forall|i: int| 0 <= i < tests.len() implies #[trigger] decider_test_views(tests)[i]
            == (tests[i].0.deep_view(), tests[i].1.deep_view()) by {
            if i < tests.len() - 1 {
                assert(decider_test_views(tests)[i] == decider_test_views(sub)[i]);
                assert(sub[i] == tests[i]);
            }
        }
    }
}

/// Per goal: inline the body at its single use, or jump to the label
/// under which the body is compiled once.
#[derive(Debug)]
pub enum Choice {
    Inline(Expr),
    Jump(Label),
}

#[verifier::ext_equal]
pub enum ChoiceView {
    Inline(ExprView),
    Jump(Label),
}

impl DeepView for Choice {
    type V = ChoiceView;

    open spec fn deep_view(&self) -> ChoiceView {
        match self {
            Choice::Inline(e) => ChoiceView::Inline(e.deep_view()),
            Choice::Jump(l) => ChoiceView::Jump(*l),
        }
    }
}

impl Clone for Choice {
    fn clone(&self) -> (r: Self)
        ensures
            r.deep_view() == self.deep_view(),
    {
        match self {
            Choice::Inline(e) => Choice::Inline(e.clone()),
            Choice::Jump(l) => Choice::Jump(*l),
        }
    }
}

// ---------------------------------------------------------------------
// The mirror of the lowering, stated over views.
// ---------------------------------------------------------------------

/// The height of a tree: how deep its decisions nest.
pub open spec fn tree_height(t: TreeView) -> nat
    decreases t,
{
    match t {
        TreeView::Match(_) => 0,
        TreeView::Decision { edges, default, .. } => {
            let eh = tree_edges_height(edges);
            let dh = match default {
                Option::Some(d) => tree_height(*d),
                Option::None => 0,
            };
            1 + if eh > dh {
                eh
            } else {
                dh
            }
        }
    }
}

/// The largest height among a decision's edges.
pub open spec fn tree_edges_height(edges: Seq<(TestView, TreeView)>) -> nat
    decreases edges,
{
    if edges.len() == 0 {
        0
    } else {
        let prev = tree_edges_height(edges.subrange(0, edges.len() - 1));
        let h = tree_height(edges[edges.len() - 1].1);
        if h > prev {
            h
        } else {
            prev
        }
    }
}

/// Every edge stays below the edge-list height, and the list without
/// its last edge never rises above it.
pub proof fn lemma_tree_edges_height(edges: Seq<(TestView, TreeView)>)
    ensures
        forall|i: int|
            0 <= i < edges.len() ==> tree_height((#[trigger] edges[i]).1) <= tree_edges_height(
                edges,
            ),
        edges.len() > 0 ==> tree_edges_height(edges.subrange(0, edges.len() - 1))
            <= tree_edges_height(edges),
    decreases edges.len(),
{
    if edges.len() > 0 {
        let sub = edges.subrange(0, edges.len() - 1);
        lemma_tree_edges_height(sub);
        assert(forall|i: int| 0 <= i < sub.len() ==> #[trigger] sub[i] == edges[i]);
        assert forall|i: int|
            0 <= i < edges.len() implies tree_height((#[trigger] edges[i]).1)
            <= tree_edges_height(edges) by {
            if i < edges.len() - 1 {
                assert(tree_height(sub[i].1) <= tree_edges_height(sub));
            }
        }
    }
}

/// The lowering of a tree into a decider: one- and two-way decisions
/// become chains, wider ones fan-out switches; with no default the last
/// edge acts as the switch's fallback, the test set being exhaustive.
pub open spec fn spec_tree_to_decider(tree: TreeView) -> DeciderView<u64>
    decreases tree_height(tree), 0nat, 0nat,
    via spec_tree_to_decider_decreases
{
    match tree {
        TreeView::Match(target) => DeciderView::Leaf(target),
        TreeView::Decision { path, edges, default } => match default {
            Option::None => {
                if edges.len() == 0 {
                    DeciderView::Leaf(0)
                } else if edges.len() == 1 {
                    spec_tree_to_decider(edges[0].1)
                } else if edges.len() == 2 {
                    spec_to_chain(path, edges[0].0, edges[0].1, edges[1].1)
                } else {
                    DeciderView::FanOut {
                        path,
                        tests: spec_lower_tree_edges(edges.subrange(0, edges.len() - 1)),
                        fallback: Box::new(spec_tree_to_decider(edges[edges.len() - 1].1)),
                    }
                }
            }
            Option::Some(last) => {
                if edges.len() == 0 {
                    spec_tree_to_decider(*last)
                } else if edges.len() == 1 {
                    spec_to_chain(path, edges[0].0, edges[0].1, *last)
                } else {
                    DeciderView::FanOut {
                        path,
                        tests: spec_lower_tree_edges(edges),
                        fallback: Box::new(spec_tree_to_decider(*last)),
                    }
                }
            }
        },
    }
}

/// Builds a chain for `test` at `path`, and fuses it with the lowered
/// success branch when that is itself a chain sharing the same failure
/// continuation: the new test is prepended onto the inner chain.
pub open spec fn spec_to_chain(
    path: Path,
    test: TestView,
    success_tree: TreeView,
    failure_tree: TreeView,
) -> DeciderView<u64>
    decreases spec_chain_height(success_tree, failure_tree), 2nat, 0nat,
    via spec_to_chain_decreases
{
    let failure = spec_tree_to_decider(failure_tree);
    match spec_tree_to_decider(success_tree) {
        DeciderView::Chain { test_chain, success, failure: sub_failure } => {
            if failure == *sub_failure {
                DeciderView::Chain {
                    test_chain: seq![(path, test)] + test_chain,
                    success,
                    failure: Box::new(failure),
                }
            } else {
                DeciderView::Chain {
                    test_chain: seq![(path, test)],
                    success: Box::new(
                        DeciderView::Chain { test_chain, success, failure: sub_failure },
                    ),
                    failure: Box::new(failure),
                }
            }
        }
        success => DeciderView::Chain {
            test_chain: seq![(path, test)],
            success: Box::new(success),
            failure: Box::new(failure),
        },
    }
}

/// The larger of the two trees a chain is built from.
pub open spec fn spec_chain_height(success_tree: TreeView, failure_tree: TreeView) -> nat {
    if tree_height(success_tree) > tree_height(failure_tree) {
        tree_height(success_tree)
    } else {
        tree_height(failure_tree)
    }
}

/// The lowering of each edge, in order.
pub open spec fn spec_lower_tree_edges(edges: Seq<(TestView, TreeView)>) -> Seq<
    (TestView, DeciderView<u64>),
>
    decreases tree_edges_height(edges), 1nat, edges.len(),
    via spec_lower_tree_edges_decreases
{
    if edges.len() == 0 {
        Seq::empty()
    } else {
        spec_lower_tree_edges(edges.subrange(0, edges.len() - 1)).push(
            (edges[edges.len() - 1].0, spec_tree_to_decider(edges[edges.len() - 1].1)),
        )
    }
}

#[via_fn]
proof fn spec_tree_to_decider_decreases(tree: TreeView) {
    match tree {
        TreeView::Match(_) => {}
        TreeView::Decision { path, edges, default } => {
            lemma_tree_edges_height(edges);
            if edges.len() > 0 {
                lemma_tree_edges_height(edges.subrange(0, edges.len() - 1));
            }
        }
    }
}

#[via_fn]
proof fn spec_to_chain_decreases(path: Path, test: TestView, success_tree: TreeView, failure_tree: TreeView) {
}

#[via_fn]
proof fn spec_lower_tree_edges_decreases(edges: Seq<(TestView, TreeView)>) {
    if edges.len() > 0 {
        lemma_tree_edges_height(edges);
    }
}

// ---------------------------------------------------------------------
// The executable lowering.
// ---------------------------------------------------------------------

/// Structural equality of lowered deciders.
#[verifier::loop_isolation(false)]
pub fn decider_eq(a: &Decider<u64>, b: &Decider<u64>) -> (r: bool)
    ensures
        r == (a.deep_view() == b.deep_view()),
    decreases a,
{
    match (a, b) {
        (Decider::Leaf(x), Decider::Leaf(y)) => *x == *y,
        (
            Decider::Chain { test_chain: tc1, success: s1, failure: f1 },
            Decider::Chain { test_chain: tc2, success: s2, failure: f2 },
        ) => {
            if tc1.len() != tc2.len() {
                proof {
                    assert(a.deep_view()->Chain_test_chain.len() == tc1@.len());
                    assert(b.deep_view()->Chain_test_chain.len() == tc2@.len());
                }
                return false;
            }
            let n = tc1.len();
            let mut i: usize = 0;
            while i < n
                invariant
                    0 <= i <= n == tc1@.len() == tc2@.len(),
                    a matches Decider::Chain { test_chain: x, .. } && x == *tc1,
                    b matches Decider::Chain { test_chain: x, .. } && x == *tc2,
                    forall|j: int|
                        0 <= j < i ==> (#[trigger] tc1@[j]).0 == tc2@[j].0 && tc1@[j].1.deep_view()
                            == tc2@[j].1.deep_view(),
                decreases n - i,
            {
                let p1 = &tc1[i];
                let p2 = &tc2[i];
                if !(path_eq(&p1.0, &p2.0) && test_eq(&p1.1, &p2.1)) {
                    proof {
                        assert(a.deep_view()->Chain_test_chain[i as int] != b.deep_view()
                            ->Chain_test_chain[i as int]);
                    }
                    return false;
                }
                i = i + 1;
            }
            proof {
                assert(a.deep_view()->Chain_test_chain =~= b.deep_view()->Chain_test_chain);
            }
            decider_eq(s1, s2) && decider_eq(f1, f2)
        }
        (
            Decider::FanOut { path: p1, tests: t1, fallback: fb1 },
            Decider::FanOut { path: p2, tests: t2, fallback: fb2 },
        ) => {
            proof {
                lemma_decider_test_views(t1@);
                lemma_decider_test_views(t2@);
            }
            if !path_eq(p1, p2) {
                return false;
            }
            if t1.len() != t2.len() {
                return false;
            }
            let n = t1.len();
            let mut i: usize = 0;
            while i < n
                invariant
                    0 <= i <= n == t1@.len() == t2@.len(),
                    a matches Decider::FanOut { tests: x, .. } && x == *t1,
                    b matches Decider::FanOut { tests: x, .. } && x == *t2,
                    forall|j: int|
                        0 <= j < i ==> (#[trigger] t1@[j]).0.deep_view() == t2@[j].0.deep_view()
                            && t1@[j].1.deep_view() == t2@[j].1.deep_view(),
                decreases n - i,
            {
                let e1 = &t1[i];
                let e2 = &t2[i];
                if !(test_eq(&e1.0, &e2.0) && decider_eq(&e1.1, &e2.1)) {
                    proof {
                        assert(decider_test_views(t1@)[i as int] != decider_test_views(t2@)[
                            i as int
                        ]);
                    }
                    return false;
                }
                i = i + 1;
            }
            proof {
                assert(decider_test_views(t1@) =~= decider_test_views(t2@));
            }
            decider_eq(fb1, fb2)
        }
        _ => false,
    }
}

/// Lowers each edge of a decision, in order.
#[verifier::loop_isolation(false)]
fn lower_edges(edges: Vec<(Test, DecisionTree)>) -> (r: Vec<(Test, Decider<u64>)>)
    requires
        crate::decision_tree::spec_tree_edges_nonempty(tree_edge_views(edges@)),
    ensures
        r.deep_view() == spec_lower_tree_edges(tree_edge_views(edges@)),
    decreases tree_edges_height(tree_edge_views(edges@)), 1nat, 0nat,
{
    let ghost ev = tree_edge_views(edges@);
    proof {
        lemma_tree_edge_views(edges@);
        crate::decision_tree::lemma_tree_edges_nonempty(ev);
        lemma_tree_edges_height(ev);
    }
    let mut out: Vec<(Test, Decider<u64>)> = Vec::new();
    let mut edges = edges;
    let n = edges.len();
    let mut j: usize = 0;
    while j < n
        invariant
            j + edges@.len() == n,
            n == ev.len(),
            tree_edge_views(edges@) =~= ev.subrange(j as int, n as int),
            out.deep_view() =~= spec_lower_tree_edges(ev).subrange(0, j as int),
        decreases n - j,
    {
        let ghost arr_pre = edges@;
        let edge = edges.remove(0);
        proof {
            assert(edge == arr_pre[0]);
            assert(edges@ =~= arr_pre.subrange(1, arr_pre.len() as int));
            lemma_tree_edge_views(arr_pre);
            lemma_tree_edge_views(edges@);
            assert(tree_edge_views(arr_pre) == ev.subrange(j as int, n as int));
            assert(tree_edge_views(arr_pre)[0] == (arr_pre[0].0.deep_view(), arr_pre[
                0
            ].1.deep_view()));
            assert(ev.subrange(j as int, n as int)[0] == ev[j as int]);
            assert((edge.0.deep_view(), edge.1.deep_view()) == ev[j as int]);
            assert forall|q: int| 0 <= q < edges@.len() implies #[trigger] tree_edge_views(edges@)[
                q
            ] == ev.subrange(j + 1, n as int)[q] by {
                assert(edges@[q] == arr_pre[q + 1]);
                assert(tree_edge_views(edges@)[q] == (edges@[q].0.deep_view(), edges@[
                    q
                ].1.deep_view()));
                assert(tree_edge_views(arr_pre)[q + 1] == (arr_pre[q + 1].0.deep_view(), arr_pre[
                    q + 1
                ].1.deep_view()));
                assert(ev.subrange(j + 1, n as int)[q] == ev[j + 1 + q]);
                assert(ev[j + 1 + q] == ev.subrange(j as int, n as int)[q + 1]);
            }
            assert(tree_edge_views(edges@) =~= ev.subrange(j + 1, n as int));
            assert(spec_tree_nonempty(ev[j as int].1));
            assert(tree_height(ev[j as int].1) <= tree_edges_height(ev));
        }
        let lowered = tree_to_decider(edge.1);
        let ghost pre_at = out@;
        let ghost pre_dv = out.deep_view();
        proof {
            assert(forall|q: int|
                0 <= q < pre_at.len() ==> #[trigger] pre_dv[q] == pre_at[q].deep_view());
            lemma_lower_tree_edges_shape(ev);
        }
        out.push((edge.0, lowered));
        proof {
            assert(forall|q: int|
                0 <= q < out@.len() ==> #[trigger] out.deep_view()[q] == out@[q].deep_view());
            assert(out@ == pre_at.push(out@[out@.len() - 1]));
            assert(out.deep_view().len() == pre_at.len() + 1);
            assert(forall|q: int|
                0 <= q < pre_at.len() ==> #[trigger] out.deep_view()[q] == pre_dv[q]);
            assert(out.deep_view()[j as int] == (ev[j as int].0, spec_tree_to_decider(ev[
                j as int
            ].1)));
            assert(out.deep_view() =~= spec_lower_tree_edges(ev).subrange(0, j + 1));
        }
        j = j + 1;
    }
    proof {
        lemma_lower_tree_edges_shape(ev);
        assert(spec_lower_tree_edges(ev).subrange(0, n as int) =~= spec_lower_tree_edges(ev));
    }
    out
}

/// The shape of the lowered edges: one per edge, in order.
pub proof fn lemma_lower_tree_edges_shape(edges: Seq<(TestView, TreeView)>)
    ensures
        spec_lower_tree_edges(edges).len() == edges.len(),
        forall|i: int| 0 <= i < edges.len() ==> #[trigger] spec_lower_tree_edges(edges)[i] == (
            edges[i].0,
            spec_tree_to_decider(edges[i].1),
        ),
    decreases edges.len(),
{
    if edges.len() > 0 {
        let sub = edges.subrange(0, edges.len() - 1);
        lemma_lower_tree_edges_shape(sub);
        assert forall|i: int| 0 <= i < edges.len() implies #[trigger] spec_lower_tree_edges(
            edges,
        )[i] == (edges[i].0, spec_tree_to_decider(edges[i].1)) by {
            if i < edges.len() - 1 {
                assert(spec_lower_tree_edges(edges)[i] == spec_lower_tree_edges(sub)[i]);
                assert(sub[i] == edges[i]);
            }
        }
    }
}

/// Converts the decision tree to a decider, collapsing one- and two-way
/// decisions into chains to avoid duplicated code.
#[verifier::loop_isolation(false)]
#[verifier::rlimit(100)]
pub fn tree_to_decider(tree: DecisionTree) -> (r: Decider<u64>)
    requires
        spec_tree_nonempty(tree.deep_view()),
    ensures
        r.deep_view() == spec_tree_to_decider(tree.deep_view()),
    decreases tree_height(tree.deep_view()), 0nat, 0nat,
{
    let ghost tv = tree.deep_view();
    match tree {
        DecisionTree::Match(target) => Decider::Leaf(target),
        DecisionTree::Decision { path, edges, default } => {
            let ghost ev = tree_edge_views(edges@);
            proof {
                lemma_tree_edge_views(edges@);
                crate::decision_tree::lemma_tree_edges_nonempty(ev);
                lemma_tree_edges_height(ev);
                assert(ev.len() == edges@.len());
                assert(ev.len() > 0);
            }
            match default {
                Option::None => {
                    if edges.len() == 1 {
                        let mut edges = edges;
                        let pair = edges.remove(0);
                        proof {
                            assert((pair.0.deep_view(), pair.1.deep_view()) == ev[0]);
                            assert(tree_height(ev[0].1) <= tree_edges_height(ev));
                        }
                        tree_to_decider(pair.1)
                    } else if edges.len() == 2 {
                        let mut edges = edges;
                        let pair1 = edges.remove(1);
                        let pair0 = edges.remove(0);
                        proof {
                            assert((pair1.0.deep_view(), pair1.1.deep_view()) == ev[1]);
                            assert((pair0.0.deep_view(), pair0.1.deep_view()) == ev[0]);
                            assert(tree_height(ev[0].1) <= tree_edges_height(ev));
                            assert(tree_height(ev[1].1) <= tree_edges_height(ev));
                        }
                        to_chain(path, pair0.0, pair0.1, pair1.1)
                    } else {
                        let mut edges = edges;
                        let ghost arr_pre = edges@;
                        let last = edges.remove(edges.len() - 1);
                        proof {
                            assert(last == arr_pre[arr_pre.len() - 1]);
                            assert(edges@ =~= arr_pre.subrange(0, arr_pre.len() - 1));
                            lemma_tree_edge_views(edges@);
                            assert forall|q: int|
                                0 <= q < edges@.len() implies #[trigger] tree_edge_views(edges@)[q]
                                == ev.subrange(0, ev.len() - 1)[q] by {
                                assert(edges@[q] == arr_pre[q]);
                            }
                            assert(tree_edge_views(edges@) =~= ev.subrange(0, ev.len() - 1));
                            crate::decision_tree::lemma_tree_edges_nonempty(
                                ev.subrange(0, ev.len() - 1),
                            );
                            lemma_tree_edges_height(ev.subrange(0, ev.len() - 1));
                            assert((last.0.deep_view(), last.1.deep_view()) == ev[ev.len() - 1]);
                            assert(tree_height(ev[ev.len() - 1].1) <= tree_edges_height(ev));
                        }
                        let necessary_tests = lower_edges(edges);
                        let fallback = tree_to_decider(last.1);
                        let r = Decider::FanOut {
                            path,
                            tests: necessary_tests,
                            fallback: Box::new(fallback),
                        };
                        proof {
                            assert(decider_test_views(r->FanOut_tests@) =~= spec_lower_tree_edges(
                                ev.subrange(0, ev.len() - 1),
                            )) by {
                                lemma_decider_test_views(r->FanOut_tests@);
                                lemma_lower_tree_edges_shape(ev.subrange(0, ev.len() - 1));
                                assert(forall|q: int|
                                    0 <= q < r->FanOut_tests@.len()
                                        ==> #[trigger] r->FanOut_tests.deep_view()[q]
                                        == r->FanOut_tests@[q].deep_view());
                            }
                        }
                        r
                    }
                }
                Option::Some(d) => {
                    proof {
                        assert(spec_tree_nonempty((*d).deep_view()));
                    }
                    if edges.len() == 1 {
                        let mut edges = edges;
                        let pair = edges.remove(0);
                        proof {
                            assert((pair.0.deep_view(), pair.1.deep_view()) == ev[0]);
                            assert(tree_height(ev[0].1) <= tree_edges_height(ev));
                        }
                        to_chain(path, pair.0, pair.1, *d)
                    } else {
                        let necessary_tests = lower_edges(edges);
                        let fallback = tree_to_decider(*d);
                        let r = Decider::FanOut {
                            path,
                            tests: necessary_tests,
                            fallback: Box::new(fallback),
                        };
                        proof {
                            assert(decider_test_views(r->FanOut_tests@) =~= spec_lower_tree_edges(
                                ev,
                            )) by {
                                lemma_decider_test_views(r->FanOut_tests@);
                                lemma_lower_tree_edges_shape(ev);
                                assert(forall|q: int|
                                    0 <= q < r->FanOut_tests@.len()
                                        ==> #[trigger] r->FanOut_tests.deep_view()[q]
                                        == r->FanOut_tests@[q].deep_view());
                            }
                        }
                        r
                    }
                }
            }
        }
    }
}

/// Builds a chain for `test` at `path`, fusing it with the lowered
/// success branch when that is a chain sharing the same failure
/// continuation: the new test is prepended onto the inner chain.
#[verifier::loop_isolation(false)]
pub fn to_chain(path: Path, test: Test, success_tree: DecisionTree, failure_tree: DecisionTree) -> (r:
    Decider<u64>)
    requires
        spec_tree_nonempty(success_tree.deep_view()),
        spec_tree_nonempty(failure_tree.deep_view()),
    ensures
        r.deep_view() == spec_to_chain(
            path,
            test.deep_view(),
            success_tree.deep_view(),
            failure_tree.deep_view(),
        ),
    decreases spec_chain_height(success_tree.deep_view(), failure_tree.deep_view()), 2nat, 0nat,
{
    let failure = tree_to_decider(failure_tree);
    let lowered = tree_to_decider(success_tree);
    match lowered {
        Decider::Chain { test_chain, success, failure: sub_failure } => {
            if decider_eq(&failure, &sub_failure) {
                let ghost pre_at = test_chain@;
                let mut test_chain = test_chain;
                test_chain.insert(0, (path, test.clone()));
                let r = Decider::Chain { test_chain, success, failure: Box::new(failure) };
                proof {
                    assert(r.deep_view()->Chain_test_chain =~= seq![(path, test.deep_view())]
                        + Seq::new(
                        pre_at.len(),
                        |i: int| (pre_at[i].0, pre_at[i].1.deep_view()),
                    ));
                }
                r
            } else {
                let mut tc: Vec<(Path, Test)> = Vec::new();
                tc.push((path, test));
                let inner = Decider::Chain { test_chain, success, failure: sub_failure };
                let r = Decider::Chain {
                    test_chain: tc,
                    success: Box::new(inner),
                    failure: Box::new(failure),
                };
                proof {
                    assert(r.deep_view()->Chain_test_chain =~= seq![
                        (path, test.deep_view()),
                    ]);
                }
                r
            }
        }
        other => {
            let mut tc: Vec<(Path, Test)> = Vec::new();
            tc.push((path, test));
            let r = Decider::Chain {
                test_chain: tc,
                success: Box::new(other),
                failure: Box::new(failure),
            };
            proof {
                assert(r.deep_view()->Chain_test_chain =~= seq![(path, test.deep_view())]);
            }
            r
        }
    }
}

// ---------------------------------------------------------------------
// Choice assignment: count how often each goal is reached, inline the
// bodies used once, jump to the others.
// ---------------------------------------------------------------------

broadcast use vstd::std_specs::hash::group_hash_axioms;

/// The goal labels at the decider's leaves, in traversal order: chain
/// success before failure, fan-out fallback before the arms.
pub open spec fn spec_leaves(d: DeciderView<u64>) -> Seq<u64>
    decreases d,
{
    match d {
        DeciderView::Leaf(t) => seq![t],
        DeciderView::Chain { success, failure, .. } => spec_leaves(*success) + spec_leaves(
            *failure,
        ),
        DeciderView::FanOut { tests, fallback, .. } => spec_leaves(*fallback) + spec_arm_leaves(
            tests,
        ),
    }
}

/// The leaves of the fan-out arms, in order.
pub open spec fn spec_arm_leaves(tests: Seq<(TestView, DeciderView<u64>)>) -> Seq<u64>
    decreases tests,
{
    if tests.len() == 0 {
        Seq::empty()
    } else {
        spec_arm_leaves(tests.subrange(0, tests.len() - 1)) + spec_leaves(
            tests[tests.len() - 1].1,
        )
    }
}

/// How often a label occurs in a sequence of leaves.
pub open spec fn count_label(s: Seq<u64>, l: u64) -> nat
    decreases s,
{
    if s.len() == 0 {
        0
    } else {
        count_label(s.subrange(0, s.len() - 1), l) + if s[s.len() - 1] == l {
            1nat
        } else {
            0nat
        }
    }
}

/// Counts add over concatenation.
pub proof fn lemma_count_label_concat(a: Seq<u64>, b: Seq<u64>, l: u64)
    ensures
        count_label(a + b, l) == count_label(a, l) + count_label(b, l),
    decreases b.len(),
{
    if b.len() == 0 {
        assert(a + b =~= a);
    } else {
        let b0 = b.subrange(0, b.len() - 1);
        lemma_count_label_concat(a, b0, l);
        assert((a + b).subrange(0, (a + b).len() - 1) =~= a + b0);
        assert((a + b)[(a + b).len() - 1] == b[b.len() - 1]);
    }
}

/// A label occurs exactly when its count is positive.
pub proof fn lemma_count_label_contains(s: Seq<u64>, l: u64)
    ensures
        count_label(s, l) > 0 <==> s.contains(l),
    decreases s.len(),
{
    if s.len() > 0 {
        let sub = s.subrange(0, s.len() - 1);
        lemma_count_label_contains(sub, l);
        assert(forall|i: int| 0 <= i < sub.len() ==> #[trigger] sub[i] == s[i]);
        if s.contains(l) {
            let i = choose|i: int| 0 <= i < s.len() && s[i] == l;
            if i < s.len() - 1 {
                assert(sub[i] == l);
                assert(sub.contains(l));
            }
        }
        if count_label(s, l) > 0 && count_label(sub, l) > 0 {
            let i = choose|i: int| 0 <= i < sub.len() && sub[i] == l;
            assert(s[i] == l);
        }
    }
}

/// The count a map holds for a label, zero when absent.
pub open spec fn map_count(m: Map<u64, u64>, l: u64) -> nat {
    if m.contains_key(l) {
        m[l] as nat
    } else {
        0
    }
}

/// Walks the decider and adds each leaf's label to the running tally.
#[verifier::loop_isolation(false)]
#[verifier::rlimit(100)]
pub fn count_targets_help(decider: &Decider<u64>, targets: &mut HashMap<u64, u64>)
    requires
        forall|l: u64|
            map_count(old(targets)@, l) + count_label(
                spec_leaves(decider.deep_view()),
                l,
            ) <= u64::MAX,
        forall|l: u64| old(targets)@.contains_key(l) ==> old(targets)@[l] >= 1,
    ensures
        forall|l: u64|
            map_count(final(targets)@, l) == map_count(old(targets)@, l) + count_label(
                spec_leaves(decider.deep_view()),
                l,
            ),
        forall|l: u64| final(targets)@.contains_key(l) ==> final(targets)@[l] >= 1,
    decreases decider,
{
    let ghost dv = decider.deep_view();
    match decider {
        Decider::Leaf(target) => {
            proof {
                assert(spec_leaves(dv) =~= seq![*target]);
                assert(count_label(spec_leaves(dv), *target) == 1) by {
                    assert(spec_leaves(dv).subrange(0, 0) =~= Seq::<u64>::empty());
                    reveal_with_fuel(count_label, 2);
                }
                assert forall|l: u64| l != *target implies count_label(spec_leaves(dv), l)
                    == 0 by {
                    assert(spec_leaves(dv).subrange(0, 0) =~= Seq::<u64>::empty());
                    reveal_with_fuel(count_label, 2);
                }
                assert(spec_leaves(dv)[0] == *target);
                assert(spec_leaves(dv).contains(*target));
                assert forall|l: u64| l != *target implies !spec_leaves(dv).contains(l) by {
                    if spec_leaves(dv).contains(l) {
                        let i = choose|i: int|
                            0 <= i < spec_leaves(dv).len() && spec_leaves(dv)[i] == l;
                        assert(i == 0);
                    }
                }
            }
            proof {
                assert(vstd::std_specs::hash::obeys_key_model::<u64>());
                assert(vstd::std_specs::hash::builds_valid_hashers::<
                    std::collections::hash_map::RandomState,
                >());
            }
            let current = targets.get(target);
            match current {
                Option::None => {
                    targets.insert(*target, 1);
                    proof {
                        assert(targets@ == old(targets)@.insert(*target, 1u64));
                        assert(map_count(targets@, *target) == 1);
                        assert(forall|l: u64|
                            l != *target ==> map_count(targets@, l) == map_count(
                                old(targets)@,
                                l,
                            ));
                    }
                }
                Option::Some(c) => {
                    let c = *c;
                    proof {
                        assert(map_count(old(targets)@, *target) == c);
                    }
                    targets.insert(*target, c + 1);
                    proof {
                        assert(targets@ == old(targets)@.insert(*target, (c + 1) as u64));
                        assert(map_count(targets@, *target) == c + 1);
                        assert(forall|l: u64|
                            l != *target ==> map_count(targets@, l) == map_count(
                                old(targets)@,
                                l,
                            ));
                    }
                }
            }

        }
        Decider::Chain { success, failure, .. } => {
            proof {
                lemma_leaves_chain_split(dv);
                assert forall|l: u64| true implies map_count(targets@, l) + count_label(
                    spec_leaves((**success).deep_view()),
                    l,
                ) <= u64::MAX by {
                    lemma_count_label_concat(
                        spec_leaves((**success).deep_view()),
                        spec_leaves((**failure).deep_view()),
                        l,
                    );
                }
            }
            count_targets_help(success, targets);
            let ghost mid = targets@;
            proof {
                assert forall|l: u64| true implies map_count(targets@, l) + count_label(
                    spec_leaves((**failure).deep_view()),
                    l,
                ) <= u64::MAX by {
                    lemma_count_label_concat(
                        spec_leaves((**success).deep_view()),
                        spec_leaves((**failure).deep_view()),
                        l,
                    );
                }
            }
            count_targets_help(failure, targets);
            proof {
                assert forall|l: u64| true implies map_count(targets@, l) == map_count(
                    old(targets)@,
                    l,
                ) + count_label(spec_leaves(dv), l) by {
                    lemma_count_label_concat(
                        spec_leaves((**success).deep_view()),
                        spec_leaves((**failure).deep_view()),
                        l,
                    );
                }
            }
        }
        Decider::FanOut { tests, fallback, .. } => {
            proof {
                lemma_leaves_fanout_split(dv);
                lemma_decider_test_views(tests@);
                assert forall|l: u64| true implies map_count(targets@, l) + count_label(
                    spec_leaves((**fallback).deep_view()),
                    l,
                ) <= u64::MAX by {
                    lemma_count_label_concat(
                        spec_leaves((**fallback).deep_view()),
                        spec_arm_leaves(decider_test_views(tests@)),
                        l,
                    );
                }
            }
            count_targets_help(fallback, targets);
            let ghost base = targets@;
            let ghost arms = decider_test_views(tests@);
            let n = tests.len();
            let mut i: usize = 0;
            while i < n
                invariant
                    0 <= i <= n == tests@.len(),
                    n == arms.len(),
                    forall|l: u64|
                        map_count(targets@, l) == map_count(base, l) + count_label(
                            spec_arm_leaves(arms.subrange(0, i as int)),
                            l,
                        ),
                    forall|l: u64| #[trigger] targets@.contains_key(l) ==> targets@[l] >= 1,
                    forall|l: u64|
                        map_count(old(targets)@, l) + count_label(spec_leaves(dv), l)
                            <= u64::MAX,
                    forall|l: u64|
                        map_count(base, l) == map_count(old(targets)@, l) + count_label(
                            spec_leaves((**fallback).deep_view()),
                            l,
                        ),
                decreases n - i,
            {
                let ghost prefix = arms.subrange(0, i as int);
                proof {
                    assert(arms.subrange(0, i + 1).subrange(0, i as int) =~= prefix);
                    assert(arms.subrange(0, i + 1)[i as int] == arms[i as int]);
                    assert(arms[i as int] == (tests@[i as int].0.deep_view(), tests@[
                        i as int
                    ].1.deep_view()));
                    lemma_arm_leaves_prefix(arms, i as int);
                    assert forall|l: u64| true implies map_count(targets@, l) + count_label(
                        spec_leaves(tests@[i as int].1.deep_view()),
                        l,
                    ) <= u64::MAX by {
                        lemma_count_label_concat(
                            spec_arm_leaves(prefix),
                            spec_leaves(arms[i as int].1),
                            l,
                        );
                        lemma_count_label_concat(
                            spec_leaves((**fallback).deep_view()),
                            spec_arm_leaves(arms),
                            l,
                        );
                        lemma_count_label_suffix(arms, i as int, l);
                        assert(count_label(spec_leaves(dv), l) == count_label(
                            spec_leaves((**fallback).deep_view()),
                            l,
                        ) + count_label(spec_arm_leaves(arms), l));
                        assert(map_count(targets@, l) == map_count(old(targets)@, l)
                            + count_label(spec_leaves((**fallback).deep_view()), l)
                            + count_label(spec_arm_leaves(prefix), l));
                    }
                }
                let ghost pre_m = targets@;
                count_targets_help(&tests[i].1, targets);
                proof {
                    assert forall|l: u64| true implies map_count(targets@, l) == map_count(
                        base,
                        l,
                    ) + count_label(spec_arm_leaves(arms.subrange(0, i + 1)), l) by {
                        lemma_count_label_concat(
                            spec_arm_leaves(prefix),
                            spec_leaves(arms[i as int].1),
                            l,
                        );
                        assert(spec_arm_leaves(arms.subrange(0, i + 1)) == spec_arm_leaves(prefix)
                            + spec_leaves(arms[i as int].1));
                    }

                }
                i = i + 1;
            }
            proof {
                assert(arms.subrange(0, n as int) =~= arms);
                assert forall|l: u64| true implies map_count(targets@, l) == map_count(
                    old(targets)@,
                    l,
                ) + count_label(spec_leaves(dv), l) by {
                    lemma_count_label_concat(
                        spec_leaves((**fallback).deep_view()),
                        spec_arm_leaves(arms),
                        l,
                    );
                }
            }
        }
    }
}

/// The leaves of a chain are those of its branches, in order.
proof fn lemma_leaves_chain_split(d: DeciderView<u64>)
    requires
        d is Chain,
    ensures
        spec_leaves(d) == spec_leaves(*d->Chain_success) + spec_leaves(*d->Chain_failure),
{
}

/// The leaves of a fan-out are the fallback's, then the arms'.
proof fn lemma_leaves_fanout_split(d: DeciderView<u64>)
    requires
        d is FanOut,
    ensures
        spec_leaves(d) == spec_leaves(*d->FanOut_fallback) + spec_arm_leaves(d->FanOut_tests),
{
}

/// A membership is a membership in one of two concatenated parts.
proof fn lemma_seq_contains_concat(a: Seq<u64>, b: Seq<u64>, l: u64)
    ensures
        (a + b).contains(l) <==> (a.contains(l) || b.contains(l)),
{
    if a.contains(l) {
        let i = choose|i: int| 0 <= i < a.len() && a[i] == l;
        assert((a + b)[i] == l);
    }
    if b.contains(l) {
        let i = choose|i: int| 0 <= i < b.len() && b[i] == l;
        assert((a + b)[a.len() + i] == l);
    }
    if (a + b).contains(l) {
        let i = choose|i: int| 0 <= i < (a + b).len() && (a + b)[i] == l;
        if i < a.len() {
            assert(a[i] == l);
        } else {
            assert(b[i - a.len()] == l);
        }
    }
}

/// One arm's prefix of the arm leaves.
proof fn lemma_arm_leaves_prefix(arms: Seq<(TestView, DeciderView<u64>)>, i: int)
    requires
        0 <= i < arms.len(),
    ensures
        spec_arm_leaves(arms.subrange(0, i + 1)) == spec_arm_leaves(arms.subrange(0, i))
            + spec_leaves(arms[i].1),
{
    assert(arms.subrange(0, i + 1).subrange(0, i) =~= arms.subrange(0, i));
    assert(arms.subrange(0, i + 1)[i] == arms[i]);
}

/// What one arm adds never exceeds the whole arms' tally.
proof fn lemma_count_label_suffix(arms: Seq<(TestView, DeciderView<u64>)>, i: int, l: u64)
    requires
        0 <= i < arms.len(),
    ensures
        count_label(spec_arm_leaves(arms.subrange(0, i)), l) + count_label(
            spec_leaves(arms[i].1),
            l,
        ) <= count_label(spec_arm_leaves(arms), l),
    decreases arms.len(),
{
    if i == arms.len() - 1 {
        lemma_arm_leaves_prefix(arms, i);
        assert(arms.subrange(0, arms.len() as int) =~= arms);
        lemma_count_label_concat(
            spec_arm_leaves(arms.subrange(0, i)),
            spec_leaves(arms[i].1),
            l,
        );
    } else {
        let sub = arms.subrange(0, arms.len() - 1);
        assert(forall|q: int| 0 <= q < sub.len() ==> #[trigger] sub[q] == arms[q]);
        assert(sub.subrange(0, i) =~= arms.subrange(0, i));
        lemma_count_label_suffix(sub, i, l);
        lemma_arm_leaves_prefix(arms, arms.len() - 1);
        assert(arms.subrange(0, arms.len() as int) =~= arms);
        lemma_count_label_concat(spec_arm_leaves(sub), spec_leaves(arms[arms.len() - 1].1), l);
    }
}

/// Tallies how often each goal label appears among the decider's leaves.
pub fn count_targets(decider: &Decider<u64>) -> (r: HashMap<u64, u64>)
    requires
        forall|l: u64| count_label(spec_leaves(decider.deep_view()), l) <= u64::MAX,
    ensures
        forall|l: u64|
            r@.contains_key(l) <==> spec_leaves(decider.deep_view()).contains(l),
        forall|l: u64| map_count(r@, l) == count_label(spec_leaves(decider.deep_view()), l),
{
    let mut result: HashMap<u64, u64> = HashMap::new();
    count_targets_help(decider, &mut result);
    proof {
        assert forall|l: u64| true implies (result@.contains_key(l) <==> spec_leaves(
            decider.deep_view(),
        ).contains(l)) by {
            lemma_count_label_contains(spec_leaves(decider.deep_view()), l);
            if result@.contains_key(l) {
                assert(map_count(result@, l) >= 1);
            }
            if spec_leaves(decider.deep_view()).contains(l) {
                assert(map_count(result@, l) > 0);
            }
        }
    }
    result
}

/// Classifies one goal: a body reached once is inlined at its use, one
/// reached more often is compiled once and jumped to.
pub fn create_choices(target_counts: &HashMap<u64, u64>, target: u64, branch: Expr) -> (r: (
    (u64, Choice),
    Option<(u64, Expr)>,
))
    requires
        target_counts@.contains_key(target),
    ensures
        r.0.0 == target,
        target_counts@[target] == 1 ==> r.0.1.deep_view() == ChoiceView::Inline(
            branch.deep_view(),
        ) && r.1 is None,
        target_counts@[target] != 1 ==> r.0.1.deep_view() == ChoiceView::Jump(target) && (
        r.1.deep_view() matches Some(j) && j.0 == target && j.1 == branch.deep_view()),
{
    let count = target_counts.get(&target);
    match count {
        Option::Some(c) => {
            if *c == 1 {
                ((target, Choice::Inline(branch)), None)
            } else {
                ((target, Choice::Jump(target)), Some((target, branch)))
            }
        }
        Option::None => {
            proof {
                assert(false);
            }
            ((target, Choice::Jump(target)), None)
        }
    }
}

/// The decider with each leaf's label replaced by the goal's choice.
pub open spec fn spec_insert_choices(m: Map<u64, ChoiceView>, d: DeciderView<u64>) -> DeciderView<
    ChoiceView,
>
    decreases d,
{
    match d {
        DeciderView::Leaf(target) => DeciderView::Leaf(m[target]),
        DeciderView::Chain { test_chain, success, failure } => DeciderView::Chain {
            test_chain,
            success: Box::new(spec_insert_choices(m, *success)),
            failure: Box::new(spec_insert_choices(m, *failure)),
        },
        DeciderView::FanOut { path, tests, fallback } => DeciderView::FanOut {
            path,
            tests: spec_insert_arm_choices(m, tests),
            fallback: Box::new(spec_insert_choices(m, *fallback)),
        },
    }
}

/// The same, arm by arm.
pub open spec fn spec_insert_arm_choices(
    m: Map<u64, ChoiceView>,
    tests: Seq<(TestView, DeciderView<u64>)>,
) -> Seq<(TestView, DeciderView<ChoiceView>)>
    decreases tests,
{
    if tests.len() == 0 {
        Seq::empty()
    } else {
        spec_insert_arm_choices(m, tests.subrange(0, tests.len() - 1)).push(
            (tests[tests.len() - 1].0, spec_insert_choices(m, tests[tests.len() - 1].1)),
        )
    }
}

/// Rewrites each leaf to carry its goal's choice, keeping the chain and
/// fan-out structure.
#[verifier::loop_isolation(false)]
#[verifier::rlimit(100)]
pub fn insert_choices(choice_dict: &HashMap<u64, Choice>, decider: Decider<u64>) -> (r: Decider<
    Choice,
>)
    requires
        forall|l: u64|
            spec_leaves(decider.deep_view()).contains(l)
                ==> choice_dict.deep_view().contains_key(l),
    ensures
        r.deep_view() == spec_insert_choices(choice_dict.deep_view(), decider.deep_view()),
    decreases decider,
{
    let ghost dv = decider.deep_view();
    let ghost m = choice_dict.deep_view();
    match decider {
        Decider::Leaf(target) => {
            proof {
                assert(spec_leaves(dv) =~= seq![target]);
                assert(spec_leaves(dv)[0] == target);
                assert(spec_leaves(dv).contains(target));
            }
            proof {
                assert(vstd::relations::injective(|k: u64| k.deep_view())) by {
                    let f = |k: u64| k.deep_view();
                    assert forall|k1: u64, k2: u64| #[trigger] f(k1) == #[trigger] f(
                        k2,
                    ) implies k1 == k2 by {}
                }
                vstd::std_specs::hash::lemma_hashmap_deepview_properties(*choice_dict);
            }
            let choice = choice_dict.get(&target);
            match choice {
                Option::Some(c) => {
                    proof {
                        assert(choice_dict@.contains_key(target));
                        assert(m[target] == choice_dict@[target].deep_view());
                    }
                    Decider::Leaf(c.clone())
                }
                Option::None => {
                    proof {
                        assert(m.contains_key(target));
                        let k = choose|k: u64|
                            k.deep_view() == target && #[trigger] choice_dict@.contains_key(k);
                        assert(false);
                    }
                    Decider::Leaf(Choice::Jump(target))
                }
            }
        }
        Decider::Chain { test_chain, success, failure } => {
            proof {
                lemma_leaves_chain_split(dv);
                lemma_seq_contains_all(
                    spec_leaves((*success).deep_view()),
                    spec_leaves((*failure).deep_view()),
                );
            }
            let new_success = insert_choices(choice_dict, *success);
            let new_failure = insert_choices(choice_dict, *failure);
            let r = Decider::Chain {
                test_chain,
                success: Box::new(new_success),
                failure: Box::new(new_failure),
            };
            proof {
                assert(r.deep_view()->Chain_test_chain =~= dv->Chain_test_chain);
            }
            r
        }
        Decider::FanOut { path, tests, fallback } => {
            proof {
                lemma_leaves_fanout_split(dv);
                lemma_decider_test_views(tests@);
                lemma_seq_contains_all(
                    spec_leaves((*fallback).deep_view()),
                    spec_arm_leaves(decider_test_views(tests@)),
                );
            }
            let new_fallback = insert_choices(choice_dict, *fallback);
            let ghost arms = decider_test_views(tests@);
            let ghost orig_tests = tests@;
            let mut new_tests: Vec<(Test, Decider<Choice>)> = Vec::new();
            let mut tests = tests;
            let n = tests.len();
            proof {
                assert(decider_test_views(tests@) =~= arms.subrange(0, n as int));
            }
            let mut i: usize = 0;
            while i < n
                invariant
                    i + tests@.len() == n,
                    n == arms.len(),
                    n == orig_tests.len(),
                    tests@ =~= orig_tests.subrange(i as int, n as int),
                    decider_test_views(tests@) =~= arms.subrange(i as int, n as int),
                    decider_test_views(new_tests@) =~= spec_insert_arm_choices(m, arms).subrange(
                        0,
                        i as int,
                    ),
                    forall|l: u64| spec_arm_leaves(arms).contains(l) ==> m.contains_key(l),
                decreases n - i,
            {
                let ghost arr_pre = tests@;
                let arm = tests.remove(0);
                proof {
                    assert(arm == arr_pre[0]);
                    assert(tests@ =~= arr_pre.subrange(1, arr_pre.len() as int));
                    lemma_decider_test_views(arr_pre);
                    lemma_decider_test_views(tests@);
                    assert(decider_test_views(arr_pre) == arms.subrange(i as int, n as int));
                    assert(decider_test_views(arr_pre)[0] == (arm.0.deep_view(), arm.1.deep_view()));
                    assert((arm.0.deep_view(), arm.1.deep_view()) == arms[i as int]);
                    assert forall|q: int|
                        0 <= q < tests@.len() implies #[trigger] decider_test_views(tests@)[q]
                        == arms.subrange(i + 1, n as int)[q] by {
                        assert(tests@[q] == arr_pre[q + 1]);
                        assert(decider_test_views(tests@)[q] == (tests@[q].0.deep_view(), tests@[
                            q
                        ].1.deep_view()));
                        assert(decider_test_views(arr_pre)[q + 1] == (arr_pre[q
                            + 1].0.deep_view(), arr_pre[q + 1].1.deep_view()));
                        assert(arms.subrange(i + 1, n as int)[q] == arms[i + 1 + q]);
                        assert(arms[i + 1 + q] == arms.subrange(i as int, n as int)[q + 1]);
                    }
                    assert forall|l: u64|
                        spec_leaves(arm.1.deep_view()).contains(l) implies m.contains_key(l) by {
                        lemma_arm_contains(arms, i as int, l);
                    }
                    assert(arr_pre =~= orig_tests.subrange(i as int, n as int));
                    assert(arm == orig_tests[i as int]);
                    let ghost f = decider->FanOut_tests;
                    assert(decreases_to!(decider => f));
                    assert(decreases_to!(f => f@));
                    assert(decreases_to!(f@ => f@[i as int]));
                    assert(decreases_to!(f@[i as int] => f@[i as int].1));
                    assert(f@[i as int].1 == arm.1);
                    assert(decreases_to!(decider => arm.1));
                }
                let lowered = insert_choices(choice_dict, arm.1);
                let ghost pre_at = new_tests@;
                let ghost pre_dv = decider_test_views(new_tests@);
                proof {
                    lemma_decider_test_views(pre_at);
                    lemma_insert_arm_choices_shape(m, arms);
                }
                new_tests.push((arm.0, lowered));
                proof {
                    lemma_decider_test_views(new_tests@);
                    assert(new_tests@ == pre_at.push(new_tests@[new_tests@.len() - 1]));
                    assert(forall|q: int|
                        0 <= q < pre_at.len() ==> #[trigger] new_tests@[q] == pre_at[q]);
                    assert(decider_test_views(new_tests@)[i as int] == (
                        arms[i as int].0,
                        spec_insert_choices(m, arms[i as int].1),
                    ));
                    assert(decider_test_views(new_tests@) =~= spec_insert_arm_choices(
                        m,
                        arms,
                    ).subrange(0, i + 1));
                }
                i = i + 1;
            }
            proof {
                lemma_insert_arm_choices_shape(m, arms);
                assert(spec_insert_arm_choices(m, arms).subrange(
                    0,
                    n as int,
                ) =~= spec_insert_arm_choices(m, arms));
            }
            let r = Decider::FanOut {
                path,
                tests: new_tests,
                fallback: Box::new(new_fallback),
            };
            r
        }
    }
}

/// Membership in a concatenation, for every label at once.
proof fn lemma_seq_contains_all(a: Seq<u64>, b: Seq<u64>)
    ensures
        forall|l: u64| #[trigger] (a + b).contains(l) <==> (a.contains(l) || b.contains(l)),
        forall|l: u64| a.contains(l) ==> #[trigger] (a + b).contains(l),
        forall|l: u64| b.contains(l) ==> #[trigger] (a + b).contains(l),
{
    assert forall|l: u64| true implies (#[trigger] (a + b).contains(l) <==> (a.contains(l)
        || b.contains(l))) by {
        lemma_seq_contains_concat(a, b, l);
    }
}

/// A label of one arm is a label of the arms.
proof fn lemma_arm_contains(arms: Seq<(TestView, DeciderView<u64>)>, i: int, l: u64)
    requires
        0 <= i < arms.len(),
        spec_leaves(arms[i].1).contains(l),
    ensures
        spec_arm_leaves(arms).contains(l),
    decreases arms.len(),
{
    let sub = arms.subrange(0, arms.len() - 1);
    if i < arms.len() - 1 {
        assert(sub[i] == arms[i]);
        lemma_arm_contains(sub, i, l);
        lemma_seq_contains_concat(spec_arm_leaves(sub), spec_leaves(arms[arms.len() - 1].1), l);
    } else {
        lemma_seq_contains_concat(spec_arm_leaves(sub), spec_leaves(arms[i].1), l);
    }
}

/// The shape of the rewritten arms: one per arm, in order.
pub proof fn lemma_insert_arm_choices_shape(
    m: Map<u64, ChoiceView>,
    tests: Seq<(TestView, DeciderView<u64>)>,
)
    ensures
        spec_insert_arm_choices(m, tests).len() == tests.len(),
        forall|i: int|
            0 <= i < tests.len() ==> #[trigger] spec_insert_arm_choices(m, tests)[i] == (
                tests[i].0,
                spec_insert_choices(m, tests[i].1),
            ),
    decreases tests.len(),
{
    if tests.len() > 0 {
        let sub = tests.subrange(0, tests.len() - 1);
        lemma_insert_arm_choices_shape(m, sub);
        assert forall|i: int|
            0 <= i < tests.len() implies #[trigger] spec_insert_arm_choices(m, tests)[i] == (
            tests[i].0,
            spec_insert_choices(m, tests[i].1),
        ) by {
            if i < tests.len() - 1 {
                assert(spec_insert_arm_choices(m, tests)[i] == spec_insert_arm_choices(m, sub)[i]);
                assert(sub[i] == tests[i]);
            }
        }
    }
}

} // verus!
