use learn_ltl::{gen_formulae, solve, solve_size, Sample, SkeletonTree, SyntaxTree};
use std::sync::Arc;

const ATOM_0: SyntaxTree = SyntaxTree::Atom(0);

const ATOM_1: SyntaxTree = SyntaxTree::Atom(1);

fn sample(width: usize, positives: Vec<Vec<Vec<bool>>>, negatives: Vec<Vec<Vec<bool>>>) -> Sample {
    Sample {
        var_names: Sample::var_names(width),
        positive_traces: positives,
        negative_traces: negatives,
    }
}

/// Checks that `found` is consistent and that no candidate of a smaller size is.
fn assert_minimal(sample: &Sample, found: &SyntaxTree) {
    assert!(sample.is_consistent(found));
    let vars = sample.vars();
    for size in 1..found.count_size() {
        for candidate in gen_formulae(size, &vars) {
            assert!(!sample.is_consistent(&candidate), "{}", candidate.to_text());
        }
    }
    assert!(gen_formulae(found.count_size(), &vars).contains(found));
}

#[test]
fn skeleton_counts() {
    assert_eq!(SkeletonTree::gen(1).len(), 1);
    assert_eq!(SkeletonTree::gen(2).len(), 2);
    assert_eq!(SkeletonTree::gen(3).len(), 6);
    assert_eq!(SkeletonTree::gen(4).len(), 22);
}

#[test]
fn leaves_take_every_variable() {
    let formulae = SkeletonTree::Leaf.gen_formulae(&[0, 2]);
    assert_eq!(formulae, vec![SyntaxTree::Atom(0), SyntaxTree::Atom(2)]);
    assert!(SkeletonTree::Leaf.gen_formulae(&[]).is_empty());
}

#[test]
fn enumerated_formulae_have_the_requested_size() {
    for size in 1..5 {
        for formula in gen_formulae(size, &[0, 1]) {
            assert_eq!(formula.count_size(), size);
        }
    }
    assert_eq!(gen_formulae(1, &[0, 1]).len(), 2);
    assert_eq!(gen_formulae(2, &[0]).len(), 4);
    assert_eq!(gen_formulae(2, &[0, 1]).len(), 14);
    assert_eq!(gen_formulae(3, &[0, 1]).len(), 186);
}

#[test]
fn pruned_forms_are_not_enumerated() {
    let two = gen_formulae(2, &[0, 1]);
    let texts: Vec<String> = two.iter().map(|f| f.to_text()).collect();
    assert!(texts.contains(&"(x0)∧(x1)".to_string()));
    assert!(!texts.contains(&"(x1)∧(x0)".to_string()));
    assert!(!texts.contains(&"(x0)→(x0)".to_string()));
    assert!(!texts.contains(&"(x0)U(x0)".to_string()));
    assert!(texts.contains(&"(x1)→(x0)".to_string()));
    let three: Vec<String> = gen_formulae(3, &[0]).iter().map(|f| f.to_text()).collect();
    for rejected in ["¬(¬(x0))", "X(¬(x0))", "G(G(x0))", "F(F(x0))", "¬(F(x0))", "X(G(x0))"] {
        assert!(!three.contains(&rejected.to_string()), "{}", rejected);
    }
    for kept in ["¬(X(x0))", "G(F(x0))", "F(G(x0))", "X(X(x0))"] {
        assert!(three.contains(&kept.to_string()), "{}", kept);
    }
}

#[test]
fn trivial_conjunction() {
    let sample = sample(
        2,
        vec![vec![vec![true, true]]],
        vec![vec![vec![false, true]], vec![vec![true, false]], vec![vec![false, false]]],
    );
    let solution = solve(&sample, false).expect("solution");
    assert_eq!(solution, SyntaxTree::And(Arc::new(ATOM_0), Arc::new(ATOM_1)));
    assert_eq!(solution.to_text(), "(x0)∧(x1)");
    assert_minimal(&sample, &solution);
}

#[test]
fn reachability_with_precondition() {
    let sample = sample(
        2,
        vec![vec![vec![true, false], vec![false, true], vec![false, false]]],
        vec![vec![vec![true, false], vec![true, false], vec![true, false]]],
    );
    let until = SyntaxTree::Until(Arc::new(ATOM_0), Arc::new(ATOM_1));
    assert!(sample.is_consistent(&until));
    let solution = solve(&sample, false).expect("solution");
    assert_eq!(solution.count_size(), 2);
    assert_minimal(&sample, &solution);
}

#[test]
fn safety() {
    let sample = sample(
        1,
        vec![vec![vec![true], vec![true], vec![true]]],
        vec![vec![vec![true], vec![false], vec![true]]],
    );
    let globally = SyntaxTree::Globally(Arc::new(ATOM_0));
    assert!(sample.is_consistent(&globally));
    let solution = solve(&sample, false).expect("solution");
    assert_eq!(solution.count_size(), 2);
    assert_minimal(&sample, &solution);
}

#[test]
fn no_solution() {
    let sample = sample(2, vec![vec![vec![true, false]]], vec![vec![vec![true, false]]]);
    assert!(!sample.is_solvable());
    assert_eq!(solve(&sample, false), None);
    assert_eq!(solve(&sample, true), None);
}

#[test]
fn disjunctive_guard() {
    let sample = sample(
        3,
        vec![vec![vec![true, false, false]], vec![vec![false, false, true]]],
        vec![vec![vec![false, false, false]], vec![vec![false, true, false]]],
    );
    let solution = solve(&sample, false).expect("solution");
    assert_eq!(solution.to_text(), "(x0)∨(x2)");
    assert_minimal(&sample, &solution);
}

#[test]
fn empty_trace_vacuity() {
    let sample = sample(1, vec![vec![]], vec![vec![vec![false]]]);
    let solution = solve(&sample, false).expect("solution");
    assert_eq!(solution, SyntaxTree::Globally(Arc::new(ATOM_0)));
    assert_minimal(&sample, &solution);
}

#[test]
fn parallel_search_has_minimum_size() {
    let sample = sample(
        2,
        vec![
            vec![vec![true, false], vec![false, true], vec![true, true]],
            vec![vec![false, false], vec![true, true]],
        ],
        vec![
            vec![vec![true, false], vec![true, false]],
            vec![vec![false, true]],
            vec![vec![true, true], vec![false, false]],
        ],
    );
    let sequential = solve(&sample, false).expect("solution");
    let parallel = solve(&sample, true).expect("solution");
    assert_eq!(parallel.count_size(), sequential.count_size());
    assert_minimal(&sample, &sequential);
    assert_minimal(&sample, &parallel);
}

#[test]
fn solve_size_reports_absence() {
    let sample = sample(
        1,
        vec![vec![vec![true], vec![true], vec![true]]],
        vec![vec![vec![true], vec![false], vec![true]]],
    );
    assert_eq!(solve_size(&sample, 1, false), None);
    assert!(solve_size(&sample, 2, false).is_some());
    assert!(solve_size(&sample, 6, true).is_some());
}

#[test]
fn hidden_variables_are_not_used() {
    let mut sample = sample(
        2,
        vec![vec![vec![true, true]], vec![vec![false, true]]],
        vec![vec![vec![true, false]]],
    );
    let solution = solve(&sample, false).expect("solution");
    assert_eq!(solution, ATOM_1);
    sample.var_names[1] = "~x1".to_string();
    assert!(!sample.is_solvable());
    assert_eq!(solve(&sample, false), None);
    sample.negative_traces = vec![vec![vec![false, true]], vec![vec![true, true], vec![true, true]]];
    sample.positive_traces = vec![vec![vec![true, false]]];
    let solution = solve(&sample, false).expect("solution");
    assert_eq!(solution.vars(), 1);
    assert_minimal(&sample, &solution);
}

#[test]
fn next_and_not_differ_on_the_empty_trace() {
    let next_not = SyntaxTree::Next(Arc::new(SyntaxTree::Not(Arc::new(ATOM_0))));
    let not_next = SyntaxTree::Not(Arc::new(SyntaxTree::Next(Arc::new(ATOM_0))));
    let empty: [Vec<bool>; 0] = [];
    assert!(!next_not.eval(&empty));
    assert!(not_next.eval(&empty));
    for trace in [vec![vec![true]], vec![vec![false], vec![true]], vec![vec![true], vec![false]]] {
        assert_eq!(next_not.eval(&trace), not_next.eval(&trace));
    }
}

#[test]
fn pruning_can_skip_the_smallest_formula() {
    let sample = sample(
        1,
        vec![
            vec![vec![true], vec![false]],
            vec![vec![false], vec![false]],
            vec![vec![true]],
            vec![vec![false]],
        ],
        vec![vec![], vec![vec![true], vec![true]], vec![vec![false], vec![true]]],
    );
    let next_not = SyntaxTree::Next(Arc::new(SyntaxTree::Not(Arc::new(ATOM_0))));
    assert!(sample.is_consistent(&next_not));
    assert_eq!(next_not.count_size(), 3);
    let solution = solve(&sample, false).expect("solution");
    assert_eq!(solution.count_size(), 4);
    assert_minimal(&sample, &solution);
}

#[test]
fn no_formula_is_enumerated_twice() {
    for size in 1..5 {
        let formulae = gen_formulae(size, &[0, 1]);
        for (i, f) in formulae.iter().enumerate() {
            for g in formulae.iter().skip(i + 1) {
                assert!(f != g, "{}", f.to_text());
            }
        }
    }
    let skeletons = SkeletonTree::gen(5);
    assert_eq!(skeletons.len(), 90);
}

#[test]
fn largest_variable_index() {
    let names = Sample::var_names(256);
    assert_eq!(names[255], "x255");
    let sample = Sample::new(256);
    assert_eq!(sample.vars().len(), 256);
    assert_eq!(sample.vars()[255], 255);
    assert_eq!(SyntaxTree::Atom(254).vars(), 255);
    assert_eq!(SyntaxTree::Atom(255).to_text(), "x255");
}
