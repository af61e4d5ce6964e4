use std::collections::HashMap;

use bfvm::analyzer::AnalysisResults;
use bfvm::analyzer::Analyzer;
use bfvm::analyzer::SimpleAnalyzer;
use bfvm::vm::Node;

fn results_from(total: u32, kinds: HashMap<&str, u32>) -> AnalysisResults {
    let mut r = AnalysisResults { total, ..AnalysisResults::default() };
    for (kind, count) in kinds {
        match kind {
            "shift" => r.shift = count,
            "inc" => r.inc = count,
            "dec" => r.dec = count,
            "mul" => r.mul = count,
            "assign" => r.assign = count,
            "scan" => r.scan = count,
            "out" => r.out = count,
            "input" => r.input = count,
            "conditional" => r.conditional = count,
            "comment" => r.comment = count,
            _ => panic!("unknown kind"),
        }
    }
    r
}

#[test]
fn it_should_return_empty_results() {
    let code = vec![];
    let analyzer = SimpleAnalyzer {};
    let result = analyzer.analyze(&code);

    assert_eq!(result, results_from(0, HashMap::new()));
}

#[test]
fn it_should_return_results_for_a_single_node() {
    let code = vec![Node::Shift(-1)];
    let analyzer = SimpleAnalyzer {};
    let result = analyzer.analyze(&code);
    let mut expected_nodes = HashMap::new();

    expected_nodes.insert("shift", 1);

    assert_eq!(result, results_from(1, expected_nodes));
}

#[test]
fn it_should_return_results_for_multiple_different_nodes() {
    let code = vec![
        Node::Shift(1),
        Node::Shift(2),
        Node::Mul(1, 2, 3, false),
        Node::Inc(1, 1, true),
    ];
    let analyzer = SimpleAnalyzer {};
    let result = analyzer.analyze(&code);
    let mut expected_nodes = HashMap::new();

    expected_nodes.insert("shift", 2);
    expected_nodes.insert("mul", 1);
    expected_nodes.insert("inc", 1);

    assert_eq!(result, results_from(4, expected_nodes));
}

#[test]
fn it_should_return_results_for_empty_conditionals() {
    let code = vec![Node::Conditional(vec![])];
    let analyzer = SimpleAnalyzer {};
    let result = analyzer.analyze(&code);
    let mut expected_nodes = HashMap::new();

    expected_nodes.insert("conditional", 1);

    assert_eq!(result, results_from(1, expected_nodes));
}

#[test]
fn it_should_return_results_for_nested_conditionals() {
    let code = vec![Node::Conditional(vec![
        Node::Shift(5),
        Node::Conditional(vec![Node::Inc(5, 2, false), Node::Shift(2)]),
    ])];
    let analyzer = SimpleAnalyzer {};
    let result = analyzer.analyze(&code);
    let mut expected_nodes = HashMap::new();

    expected_nodes.insert("conditional", 2);
    expected_nodes.insert("shift", 2);
    expected_nodes.insert("inc", 1);

    assert_eq!(result, results_from(5, expected_nodes));
}

#[test]
fn it_should_merge_counts() {
    let mut a = AnalysisResults { total: 3, shift: 2, inc: 1, ..AnalysisResults::default() };
    let b = AnalysisResults { total: 2, inc: 1, conditional: 1, ..AnalysisResults::default() };
    a.merge(&b);

    assert_eq!(
        a,
        AnalysisResults { total: 5, shift: 2, inc: 2, conditional: 1, ..AnalysisResults::default() }
    );
}
