use match_lowering::decider::Decider;
use match_lowering::decider::count_targets;
use match_lowering::decider::tree_to_decider;
use match_lowering::decision_tree::DecisionTree;
use match_lowering::decision_tree::Test;
use match_lowering::decision_tree::compile;
use match_lowering::ir::Ctor;
use match_lowering::ir::Env;
use match_lowering::ir::Expr;
use match_lowering::ir::Layout;
use match_lowering::ir::Builtin;
use match_lowering::ir::Path;
use match_lowering::ir::Pattern;
use match_lowering::ir::Symbol;
use match_lowering::ir::TagName;
use match_lowering::ir::Union;
use match_lowering::branching::optimize_when;

fn ctor(name: &str, tag_id: u8, arity: u64) -> Ctor {
    Ctor { name: TagName::Global(name.to_string()), tag_id, arity }
}

fn union_of(ctors: Vec<Ctor>) -> Union {
    Union { alternatives: ctors }
}

fn applied_tag(name: &str, tag_id: u8, arguments: Vec<Pattern>, union: Union) -> Pattern {
    Pattern::AppliedTag {
        tag_name: TagName::Global(name.to_string()),
        tag_id,
        arguments: arguments
            .into_iter()
            .map(|p| (p, Layout::Builtin(Builtin::Int64)))
            .collect(),
        union,
    }
}

#[test]
fn int_branches_with_catch_all_fan_out() {
    // three rows: 1, 2, and a catch-all
    let tree = compile(vec![
        (Pattern::IntLiteral(1), 0),
        (Pattern::IntLiteral(2), 1),
        (Pattern::Underscore, 2),
    ]);
    let decider = tree_to_decider(tree);
    match decider {
        Decider::FanOut { path, tests, fallback } => {
            assert!(matches!(path, Path::Empty));
            assert_eq!(tests.len(), 2);
            assert!(matches!(tests[0].0, Test::IsInt(1)));
            assert!(matches!(tests[0].1, Decider::Leaf(0)));
            assert!(matches!(tests[1].0, Test::IsInt(2)));
            assert!(matches!(tests[1].1, Decider::Leaf(1)));
            assert!(matches!(*fallback, Decider::Leaf(2)));
        }
        other => panic!("expected a fan-out, got {:?}", other),
    }
}

#[test]
fn exhaustive_bits_make_a_chain_without_default() {
    let tree = compile(vec![
        (Pattern::BitLiteral(true), 0),
        (Pattern::BitLiteral(false), 1),
    ]);
    match &tree {
        DecisionTree::Decision { edges, default, .. } => {
            assert_eq!(edges.len(), 2);
            assert!(default.is_none());
        }
        other => panic!("expected a decision, got {:?}", other),
    }
    let decider = tree_to_decider(tree);
    match decider {
        Decider::Chain { test_chain, success, failure } => {
            assert_eq!(test_chain.len(), 1);
            assert!(matches!(test_chain[0].0, Path::Empty));
            assert!(matches!(test_chain[0].1, Test::IsBit(true)));
            assert!(matches!(*success, Decider::Leaf(0)));
            assert!(matches!(*failure, Decider::Leaf(1)));
        }
        other => panic!("expected a chain, got {:?}", other),
    }
}

#[test]
fn two_constructor_union_makes_a_chain() {
    let two = || union_of(vec![ctor("Just", 0, 1), ctor("Nothing", 1, 0)]);
    let tree = compile(vec![
        (
            applied_tag("Just", 0, vec![Pattern::Identifier(Symbol::Ident(7))], two()),
            0,
        ),
        (applied_tag("Nothing", 1, vec![], two()), 1),
    ]);
    match &tree {
        DecisionTree::Decision { default, .. } => assert!(default.is_none()),
        other => panic!("expected a decision, got {:?}", other),
    }
    let decider = tree_to_decider(tree);
    match decider {
        Decider::Chain { test_chain, success, failure } => {
            assert_eq!(test_chain.len(), 1);
            assert!(matches!(test_chain[0].0, Path::Empty));
            match &test_chain[0].1 {
                Test::IsCtor { tag_name, .. } => {
                    assert!(matches!(tag_name, TagName::Global(n) if n == "Just"));
                }
                other => panic!("expected a constructor test, got {:?}", other),
            }
            assert!(matches!(*success, Decider::Leaf(0)));
            assert!(matches!(*failure, Decider::Leaf(1)));
        }
        other => panic!("expected a chain, got {:?}", other),
    }
}

#[test]
fn single_alternative_wrapper_is_unboxed() {
    let wrap = || union_of(vec![ctor("Wrap", 0, 1)]);
    let tree = compile(vec![
        (applied_tag("Wrap", 0, vec![Pattern::IntLiteral(7)], wrap()), 0),
        (Pattern::Underscore, 1),
    ]);
    let decider = tree_to_decider(tree);
    match decider {
        Decider::Chain { test_chain, success, failure } => {
            assert_eq!(test_chain.len(), 1);
            match &test_chain[0].0 {
                Path::Unbox(inner) => assert!(matches!(**inner, Path::Empty)),
                other => panic!("expected an unboxed path, got {:?}", other),
            }
            assert!(matches!(test_chain[0].1, Test::IsInt(7)));
            assert!(matches!(*success, Decider::Leaf(0)));
            assert!(matches!(*failure, Decider::Leaf(1)));
        }
        other => panic!("expected a chain, got {:?}", other),
    }
}

#[test]
fn three_constructors_fan_out_with_last_as_fallback() {
    let three = || union_of(vec![ctor("A", 0, 0), ctor("B", 1, 0), ctor("C", 2, 0)]);
    let tree = compile(vec![
        (applied_tag("A", 0, vec![], three()), 0),
        (applied_tag("B", 1, vec![], three()), 1),
        (applied_tag("C", 2, vec![], three()), 2),
    ]);
    match &tree {
        DecisionTree::Decision { edges, default, .. } => {
            assert_eq!(edges.len(), 3);
            assert!(default.is_none());
        }
        other => panic!("expected a decision, got {:?}", other),
    }
    let decider = tree_to_decider(tree);
    match decider {
        Decider::FanOut { path, tests, fallback } => {
            assert!(matches!(path, Path::Empty));
            assert_eq!(tests.len(), 2);
            assert!(matches!(tests[0].1, Decider::Leaf(0)));
            assert!(matches!(tests[1].1, Decider::Leaf(1)));
            assert!(matches!(*fallback, Decider::Leaf(2)));
        }
        other => panic!("expected a fan-out, got {:?}", other),
    }
}

#[test]
fn irrefutable_pattern_compiles_to_bare_leaf() {
    let tree = compile(vec![(Pattern::Underscore, 0)]);
    assert!(matches!(tree, DecisionTree::Match(0)));
    let decider = tree_to_decider(tree);
    assert!(matches!(decider, Decider::Leaf(0)));

    let tree = compile(vec![(Pattern::Identifier(Symbol::Ident(3)), 0)]);
    let decider = tree_to_decider(tree);
    assert!(matches!(decider, Decider::Leaf(0)));
}

#[test]
fn first_match_wins_over_later_rows() {
    // the catch-all in row one hides everything after it
    let tree = compile(vec![
        (Pattern::Underscore, 0),
        (Pattern::IntLiteral(1), 1),
    ]);
    assert!(matches!(tree, DecisionTree::Match(0)));
}

#[test]
fn counts_tally_each_goal_occurrence() {
    let tree = compile(vec![
        (Pattern::IntLiteral(1), 0),
        (Pattern::IntLiteral(2), 1),
        (Pattern::Underscore, 2),
    ]);
    let decider = tree_to_decider(tree);
    let counts = count_targets(&decider);
    assert_eq!(counts.get(&0), Some(&1));
    assert_eq!(counts.get(&1), Some(&1));
    assert_eq!(counts.get(&2), Some(&1));

    let tree = compile(vec![(Pattern::IntLiteral(1), 0), (Pattern::Underscore, 0)]);
    let decider = tree_to_decider(tree);
    let counts = count_targets(&decider);
    assert_eq!(counts.get(&0), Some(&2));
}

fn pair_of(k: i64) -> Pattern {
    // a single-alternative pair constructor whose fields both test `k`
    applied_tag(
        "Pair",
        0,
        vec![Pattern::IntLiteral(k), Pattern::IntLiteral(k)],
        union_of(vec![ctor("Pair", 0, 2)]),
    )
}

fn three_pairs_and_a_catch_all() -> Vec<(Pattern, Expr)> {
    vec![
        (pair_of(1), Expr::Int(10)),
        (pair_of(2), Expr::Int(20)),
        (pair_of(3), Expr::Int(30)),
        (Pattern::Underscore, Expr::Int(40)),
    ]
}

#[test]
fn shared_goal_becomes_jumps_and_advances_the_counter() {
    // the catch-all body is reachable from every arm and the default:
    // it is reached by jump, and the counter advances by one
    let mut env = Env { jump_counter: 0 };
    let result = optimize_when(
        &mut env,
        Symbol::Ident(1),
        Layout::Builtin(Builtin::Int64),
        Layout::Builtin(Builtin::Int64),
        three_pairs_and_a_catch_all(),
    );
    assert_eq!(env.jump_counter, 1);
    match result {
        Expr::Switch { branches, default_branch, .. } => {
            assert_eq!(branches.len(), 3);
            assert!(matches!(*default_branch, Expr::Jump(3)));
            match &branches[0].1 {
                Expr::Cond { pass, fail, .. } => {
                    assert!(matches!(**pass, Expr::Int(10)));
                    assert!(matches!(**fail, Expr::Jump(3)));
                }
                other => panic!("expected a conditional arm, got {:?}", other),
            }
        }
        other => panic!("expected a switch, got {:?}", other),
    }
}

#[test]
fn distinct_goals_are_inlined_and_leave_the_counter() {
    let mut env = Env { jump_counter: 5 };
    let result = optimize_when(
        &mut env,
        Symbol::Ident(1),
        Layout::Builtin(Builtin::Int64),
        Layout::Builtin(Builtin::Int64),
        vec![
            (Pattern::IntLiteral(1), Expr::Int(10)),
            (Pattern::Underscore, Expr::Int(20)),
        ],
    );
    // each goal is reached once: both bodies are inlined, no jumps
    assert_eq!(env.jump_counter, 5);
    match result {
        Expr::Cond { pass, fail, .. } => {
            assert!(matches!(*pass, Expr::Int(10)));
            assert!(matches!(*fail, Expr::Int(20)));
        }
        other => panic!("expected a conditional, got {:?}", other),
    }
}

#[test]
fn label_monotonicity_across_two_matches() {
    // two matches on one environment: the second match's jump labels
    // start past every label of the first
    let mut env = Env { jump_counter: 0 };
    let first = optimize_when(
        &mut env,
        Symbol::Ident(1),
        Layout::Builtin(Builtin::Int64),
        Layout::Builtin(Builtin::Int64),
        three_pairs_and_a_catch_all(),
    );
    assert_eq!(env.jump_counter, 1);
    let second = optimize_when(
        &mut env,
        Symbol::Ident(2),
        Layout::Builtin(Builtin::Int64),
        Layout::Builtin(Builtin::Int64),
        three_pairs_and_a_catch_all(),
    );
    assert_eq!(env.jump_counter, 2);
    let highest_of_first = match first {
        Expr::Switch { default_branch, .. } => match *default_branch {
            Expr::Jump(label) => label,
            other => panic!("expected a jump, got {:?}", other),
        },
        other => panic!("expected a switch, got {:?}", other),
    };
    match second {
        Expr::Switch { default_branch, .. } => match *default_branch {
            Expr::Jump(label) => assert!(label >= highest_of_first),
            other => panic!("expected a jump, got {:?}", other),
        },
        other => panic!("expected a switch, got {:?}", other),
    }
}

#[test]
fn emitted_chain_compares_the_tested_value() {
    let mut env = Env { jump_counter: 0 };
    let result = optimize_when(
        &mut env,
        Symbol::Ident(9),
        Layout::Builtin(Builtin::Int64),
        Layout::Builtin(Builtin::Int64),
        vec![
            (Pattern::IntLiteral(7), Expr::Int(1)),
            (Pattern::IntLiteral(8), Expr::Int(2)),
            (Pattern::Underscore, Expr::Int(3)),
        ],
    );
    // three distinct goals: a switch over the scrutinee with inlined arms
    match result {
        Expr::Switch { cond, branches, default_branch, .. } => {
            assert!(matches!(*cond, Expr::Load(Symbol::Ident(9))));
            assert_eq!(branches.len(), 2);
            assert_eq!(branches[0].0, 7);
            assert!(matches!(branches[0].1, Expr::Int(1)));
            assert_eq!(branches[1].0, 8);
            assert!(matches!(branches[1].1, Expr::Int(2)));
            assert!(matches!(*default_branch, Expr::Int(3)));
        }
        other => panic!("expected a switch, got {:?}", other),
    }
}

#[test]
fn string_tests_stay_in_chains() {
    let tree = compile(vec![
        (Pattern::StrLiteral("yes".to_string()), 0),
        (Pattern::Underscore, 1),
    ]);
    let decider = tree_to_decider(tree);
    match decider {
        Decider::Chain { test_chain, .. } => {
            assert!(matches!(&test_chain[0].1, Test::IsStr(s) if s == "yes"));
        }
        other => panic!("expected a chain, got {:?}", other),
    }
}

#[test]
fn enum_bytes_close_when_all_alternatives_are_seen() {
    let tree = compile(vec![
        (Pattern::EnumLiteral { tag_id: 0, enum_size: 2 }, 0),
        (Pattern::EnumLiteral { tag_id: 1, enum_size: 2 }, 1),
    ]);
    match &tree {
        DecisionTree::Decision { edges, default, .. } => {
            assert_eq!(edges.len(), 2);
            assert!(default.is_none());
        }
        other => panic!("expected a decision, got {:?}", other),
    }
}

#[test]
fn float_bits_are_matched_exactly() {
    let bits = 0x4000_0000_0000_0000u64;
    let tree = compile(vec![
        (Pattern::FloatLiteral(bits), 0),
        (Pattern::Underscore, 1),
    ]);
    let decider = tree_to_decider(tree);
    match decider {
        Decider::Chain { test_chain, .. } => {
            assert!(matches!(test_chain[0].1, Test::IsFloat(b) if b == bits));
        }
        other => panic!("expected a chain, got {:?}", other),
    }
}

#[test]
fn string_chain_emits_the_string_equality_primitive() {
    let mut env = Env { jump_counter: 0 };
    let result = optimize_when(
        &mut env,
        Symbol::Ident(4),
        Layout::Builtin(Builtin::Str),
        Layout::Builtin(Builtin::Int64),
        vec![
            (Pattern::StrLiteral("yes".to_string()), Expr::Int(1)),
            (Pattern::Underscore, Expr::Int(0)),
        ],
    );
    match result {
        Expr::Cond { cond, pass, fail, .. } => {
            match *cond {
                Expr::CallByName(Symbol::StrEq, args) => {
                    assert!(matches!(&args[0].0, Expr::Str(s) if s == "yes"));
                    assert!(matches!(args[1].0, Expr::Load(Symbol::Ident(4))));
                }
                other => panic!("expected a string comparison, got {:?}", other),
            }
            assert!(matches!(*pass, Expr::Int(1)));
            assert!(matches!(*fail, Expr::Int(0)));
        }
        other => panic!("expected a conditional, got {:?}", other),
    }
}

#[test]
fn unboxed_access_is_marked_unwrapped() {
    // matching through a single-alternative wrapper: the emitted
    // comparison reads the wrapped value with the unwrapped flag set
    let wrap = Union { alternatives: vec![ctor("Wrap", 0, 1)] };
    let mut env = Env { jump_counter: 0 };
    let result = optimize_when(
        &mut env,
        Symbol::Ident(6),
        Layout::Builtin(Builtin::Int64),
        Layout::Builtin(Builtin::Int64),
        vec![
            (applied_tag("Wrap", 0, vec![Pattern::IntLiteral(7)], wrap), Expr::Int(1)),
            (Pattern::Underscore, Expr::Int(0)),
        ],
    );
    match result {
        Expr::Cond { cond, .. } => match *cond {
            Expr::CallByName(Symbol::IntEqI64, args) => match &args[1].0 {
                Expr::Load(Symbol::Ident(6)) => {}
                other => panic!("expected the scrutinee load, got {:?}", other),
            },
            other => panic!("expected an integer comparison, got {:?}", other),
        },
        other => panic!("expected a conditional, got {:?}", other),
    }
}
