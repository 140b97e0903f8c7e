use learn_ltl::{Sample, SyntaxTree};
use std::sync::Arc;

const ATOM_0: SyntaxTree = SyntaxTree::Atom(0);

const ATOM_1: SyntaxTree = SyntaxTree::Atom(1);

#[test]
fn trace_and() {
    let sample = Sample {
        var_names: Sample::var_names(2),
        positive_traces: vec![vec![vec![true, true]]],
        negative_traces: vec![
            vec![vec![false, true]],
            vec![vec![true, false]],
            vec![vec![false, false]],
        ],
    };

    let formula = SyntaxTree::And(Arc::new(ATOM_0), Arc::new(ATOM_1));

    assert!(sample.is_consistent(&formula));
}

#[test]
fn default_names() {
    assert_eq!(Sample::var_names(3), vec!["x0", "x1", "x2"]);
    assert_eq!(Sample::var_names(11)[10], "x10");
    let sample = Sample::new(2);
    assert_eq!(sample.var_names, vec!["x0", "x1"]);
    assert_eq!(sample.positive_traces(), 0);
    assert_eq!(sample.negative_traces(), 0);
}

#[test]
fn hidden_variables_are_skipped() {
    let sample = Sample {
        var_names: vec!["a".to_string(), "~b".to_string(), "c".to_string(), String::new()],
        positive_traces: vec![],
        negative_traces: vec![],
    };
    assert_eq!(sample.vars(), vec![0, 2, 3]);
}

#[test]
fn adding_traces() {
    let mut sample = Sample::new(1);
    assert_eq!(sample.add_positive_trace(vec![vec![true]]), Ok(()));
    assert_eq!(sample.add_positive_trace(vec![vec![true]]), Ok(()));
    assert_eq!(sample.positive_traces(), 1);
    assert_eq!(sample.add_negative_trace(vec![vec![true]]), Err(()));
    assert_eq!(sample.negative_traces(), 0);
    assert_eq!(sample.add_negative_trace(vec![vec![false]]), Ok(()));
    assert_eq!(sample.add_positive_trace(vec![vec![false]]), Err(()));
    assert_eq!(sample.positive_traces(), 1);
    assert_eq!(sample.negative_traces(), 1);
}

#[test]
fn consistency_kept_when_labels_agree() {
    let formula = SyntaxTree::Globally(Arc::new(ATOM_0));
    let mut sample = Sample::new(1);
    sample.add_positive_trace(vec![vec![true], vec![true]]).unwrap();
    sample.add_negative_trace(vec![vec![true], vec![false]]).unwrap();
    assert!(sample.is_consistent(&formula));
    let agreeing = vec![vec![true]];
    assert!(formula.eval(&agreeing));
    sample.add_positive_trace(agreeing).unwrap();
    assert!(sample.is_consistent(&formula));
    let agreeing = vec![vec![false]];
    assert!(!formula.eval(&agreeing));
    sample.add_negative_trace(agreeing).unwrap();
    assert!(sample.is_consistent(&formula));
    assert_eq!(sample.add_negative_trace(vec![vec![true]]), Err(()));
    assert!(sample.is_consistent(&formula));
}

#[test]
fn filing_drawn_traces() {
    let formula = SyntaxTree::Finally(Arc::new(ATOM_0));
    let mut sample = Sample::new(1);
    sample.file_trace(&formula, vec![vec![false], vec![true]], 1, 1);
    sample.file_trace(&formula, vec![vec![true]], 1, 1);
    sample.file_trace(&formula, vec![vec![false]], 1, 1);
    sample.file_trace(&formula, vec![vec![false], vec![false]], 1, 1);
    assert_eq!(sample.positive_traces, vec![vec![vec![false], vec![true]]]);
    assert_eq!(sample.negative_traces, vec![vec![vec![false]]]);
    assert!(sample.is_consistent(&formula));
}

#[test]
fn solvability() {
    let mut sample = Sample::new(2);
    sample.add_positive_trace(vec![vec![true, false]]).unwrap();
    sample.add_negative_trace(vec![vec![true, true]]).unwrap();
    assert!(sample.is_solvable());
    sample.var_names[1] = "~hidden".to_string();
    assert!(!sample.is_solvable());
    let mut sample = Sample::new(1);
    sample.add_positive_trace(vec![vec![true]]).unwrap();
    sample.add_negative_trace(vec![vec![true], vec![true]]).unwrap();
    assert!(sample.is_solvable());
}

#[test]
fn time_length_is_longest_trace() {
    let mut sample = Sample::new(1);
    assert_eq!(sample.time_lenght(), 0);
    sample.add_positive_trace(vec![vec![true]; 3]).unwrap();
    sample.add_negative_trace(vec![vec![false]; 5]).unwrap();
    assert_eq!(sample.time_lenght(), 5);
}

#[test]
fn sample_fields_round_trip_through_text_formats() {
    let sample = Sample {
        var_names: vec!["p".to_string(), "~q".to_string()],
        positive_traces: vec![vec![vec![true, false], vec![false, false]], vec![]],
        negative_traces: vec![vec![vec![true, true]], vec![vec![true, true]]],
    };
    let json = serde_json::to_string(&sample.positive_traces).unwrap();
    let back: Vec<Vec<Vec<bool>>> = serde_json::from_str(&json).unwrap();
    assert_eq!(back, sample.positive_traces);
    let text = ron::to_string(&sample.negative_traces).unwrap();
    let back: Vec<Vec<Vec<bool>>> = ron::from_str(&text).unwrap();
    assert_eq!(back, sample.negative_traces);
    let names = ron::to_string(&sample.var_names).unwrap();
    let back: Vec<String> = ron::from_str(&names).unwrap();
    assert_eq!(back, sample.var_names);
}
