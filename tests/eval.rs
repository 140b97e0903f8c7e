use learn_ltl::SyntaxTree;
use std::sync::Arc;

const ATOM_0: SyntaxTree = SyntaxTree::Atom(0);

const ATOM_1: SyntaxTree = SyntaxTree::Atom(1);

#[test]
fn atomic_prop() {
    let trace = [vec![true]];
    assert!(ATOM_0.eval(&trace));

    let trace = [vec![false]];
    assert!(!ATOM_0.eval(&trace));
}

#[test]
fn not() {
    let formula = SyntaxTree::Not(Arc::new(ATOM_0));

    let trace = [vec![false]];
    assert!(formula.eval(&trace));

    let trace = [vec![true]];
    assert!(!formula.eval(&trace));
}

#[test]
fn next() {
    let formula = SyntaxTree::Next(Arc::new(ATOM_0));

    let trace = [vec![false], vec![true]];
    assert!(formula.eval(&trace));

    let trace = [vec![true], vec![false]];
    assert!(!formula.eval(&trace));
}

#[test]
fn globally() {
    let formula = SyntaxTree::Globally(Arc::new(ATOM_0));

    let trace = [vec![true], vec![true], vec![true]];
    assert!(formula.eval(&trace));

    let trace: [Vec<bool>; 0] = [];
    assert!(formula.eval(&trace));

    let trace = [vec![true], vec![false], vec![true]];
    assert!(!formula.eval(&trace));
}

#[test]
fn finally() {
    let formula = SyntaxTree::Finally(Arc::new(ATOM_0));

    let trace = [vec![false], vec![false], vec![true]];
    assert!(formula.eval(&trace));

    let trace = [vec![false], vec![true], vec![false]];
    assert!(formula.eval(&trace));

    let trace = [vec![false], vec![false], vec![false]];
    assert!(!formula.eval(&trace));
}

#[test]
fn syntax_and() {
    let formula = SyntaxTree::And(Arc::new(ATOM_0), Arc::new(ATOM_1));

    let trace = [vec![true, true]];
    assert!(formula.eval(&trace));

    let trace = [vec![true, false]];
    assert!(!formula.eval(&trace));
}

#[test]
fn or() {
    let formula = SyntaxTree::Or(Arc::new(ATOM_0), Arc::new(ATOM_1));

    let trace = [vec![true, false]];
    assert!(formula.eval(&trace));

    let trace = [vec![false, false]];
    assert!(!formula.eval(&trace));
}

#[test]
fn until() {
    let formula = SyntaxTree::Until(Arc::new(ATOM_0), Arc::new(ATOM_1));

    let trace = [vec![true, false], vec![false, true], vec![false, false]];
    assert!(formula.eval(&trace));

    let trace = [vec![true, false], vec![true, false], vec![false, false]];
    assert!(!formula.eval(&trace));

    // Until is not satisfied if its right-hand-side argument never becomes true.
    let trace = [vec![true, false], vec![true, false], vec![true, false]];
    assert!(!formula.eval(&trace));

    let trace: [Vec<bool>; 0] = [];
    assert!(!formula.eval(&trace));
}

#[test]
fn implies_on_empty_trace_is_vacuous() {
    let formula = SyntaxTree::Implies(Arc::new(ATOM_0), Arc::new(ATOM_1));
    let trace: [Vec<bool>; 0] = [];
    assert!(formula.eval(&trace));
    let trace = [vec![true, false]];
    assert!(!formula.eval(&trace));
    let trace = [vec![false, false]];
    assert!(formula.eval(&trace));
}

#[test]
fn atom_and_next_fail_on_empty_trace() {
    let trace: [Vec<bool>; 0] = [];
    assert!(!ATOM_0.eval(&trace));
    assert!(!SyntaxTree::Next(Arc::new(ATOM_0)).eval(&trace));
    assert!(!SyntaxTree::Finally(Arc::new(ATOM_0)).eval(&trace));
    assert!(SyntaxTree::Not(Arc::new(ATOM_0)).eval(&trace));
}

#[test]
fn eval_is_repeatable() {
    let formula = SyntaxTree::Until(
        Arc::new(SyntaxTree::Not(Arc::new(ATOM_1))),
        Arc::new(SyntaxTree::Globally(Arc::new(ATOM_0))),
    );
    let traces = [
        vec![vec![false, false], vec![true, false], vec![true, true]],
        vec![vec![false, true], vec![true, false]],
        vec![],
    ];
    for trace in traces.iter() {
        let first = formula.eval(trace);
        for _ in 0..3 {
            assert_eq!(formula.eval(trace), first);
        }
    }
}

#[test]
fn vars_counts_highest_index() {
    let formula = SyntaxTree::Or(
        Arc::new(SyntaxTree::Atom(3)),
        Arc::new(SyntaxTree::Next(Arc::new(SyntaxTree::Atom(7)))),
    );
    assert_eq!(formula.vars(), 8);
    assert_eq!(ATOM_0.vars(), 1);
}

#[test]
fn display_parenthesises_every_operand() {
    let formula = SyntaxTree::And(
        Arc::new(ATOM_0),
        Arc::new(SyntaxTree::Globally(Arc::new(SyntaxTree::Atom(12)))),
    );
    assert_eq!(formula.to_text(), "(x0)∧(G(x12))");
    let until = SyntaxTree::Until(Arc::new(ATOM_0), Arc::new(SyntaxTree::Not(Arc::new(ATOM_1))));
    assert_eq!(until.to_text(), "(x0)U(¬(x1))");
    let implies = SyntaxTree::Implies(Arc::new(ATOM_1), Arc::new(SyntaxTree::Finally(Arc::new(ATOM_0))));
    assert_eq!(implies.to_text(), "(x1)→(F(x0))");
}

#[test]
fn print_with_names() {
    let names = vec!["door".to_string(), "alarm".to_string()];
    let formula = SyntaxTree::Or(
        Arc::new(SyntaxTree::Next(Arc::new(ATOM_0))),
        Arc::new(ATOM_1),
    );
    assert_eq!(formula.print_w_named_vars(&names), "(X(door))∨(alarm)");
}

#[test]
fn order_follows_kind_then_operands() {
    let not0 = SyntaxTree::Not(Arc::new(ATOM_0));
    assert_eq!(ATOM_0.compare(&ATOM_1), -1);
    assert_eq!(ATOM_1.compare(&ATOM_0), 1);
    assert_eq!(ATOM_1.compare(&ATOM_1), 0);
    assert_eq!(ATOM_1.compare(&not0), -1);
    let a = SyntaxTree::And(Arc::new(ATOM_0), Arc::new(ATOM_1));
    let b = SyntaxTree::And(Arc::new(ATOM_1), Arc::new(ATOM_0));
    assert_eq!(a.compare(&b), -1);
    assert!(a == a.share());
    assert!(a != b);
}
