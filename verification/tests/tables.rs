use ready_set_boole::ast::{ast_to_string, rpn_to_ast, to_nnf, ASTNode};
use ready_set_boole::conjuctive_normal_form::conjunctive_normal_form;
use ready_set_boole::negation_normal_form::negation_normal_form;
use ready_set_boole::truth_table::{
    extract_variables, generate_var_combinations, truth_table, VariableAssignment,
};

#[test]
fn test_rpn_to_ast() {
    let expression = "AB&C|";

    let ast = rpn_to_ast(expression).unwrap();
    let expected_ast = ASTNode::Or(
        Box::new(ASTNode::And(
            Box::new(ASTNode::Const('A')),
            Box::new(ASTNode::Const('B')),
        )),
        Box::new(ASTNode::Const('C')),
    );
    assert_eq!(ast, expected_ast);
}

#[test]
fn test_extract_variables() {
    let expression = "AB&C|";
    let variables = extract_variables(expression);
    let expected_vars = vec!['A', 'B', 'C'];
    assert_eq!(variables, expected_vars);
}

#[test]
fn test_parser_rejects_malformed() {
    assert!(rpn_to_ast("").is_none());
    assert!(rpn_to_ast("ABBB").is_none());
    assert!(rpn_to_ast("!AB").is_none());
    assert!(rpn_to_ast("a").is_none());
    assert!(rpn_to_ast("A1&").is_none());
    assert!(rpn_to_ast("AB^").is_none());
    assert!(rpn_to_ast("AB&&").is_none());
    assert!(rpn_to_ast("!").is_none());
}

#[test]
fn test_parse_serialize_round_trip() {
    for expression in ["A", "A!", "AB&", "AB|C&!", "AB>", "AB=", "AB&CD|&Z!="] {
        let ast = rpn_to_ast(expression).unwrap();
        let text = ast_to_string(ast);
        let again = rpn_to_ast(&text).unwrap();
        let reference = rpn_to_ast(expression).unwrap();
        assert_eq!(again, reference);
    }
    let nnf_ast = to_nnf(rpn_to_ast("AB|C&!").unwrap());
    let text = ast_to_string(nnf_ast.clone());
    assert_eq!(rpn_to_ast(&text).unwrap(), nnf_ast);
}

#[test]
fn test_variable_assignment_defaults_to_false() {
    let mut vars = VariableAssignment::new();
    assert_eq!(vars.get('A'), false);
    vars.set('A', true);
    vars.set('B', false);
    assert_eq!(vars.get('A'), true);
    assert_eq!(vars.get('B'), false);
    assert_eq!(vars.get('C'), false);
    vars.set('A', false);
    assert_eq!(vars.get('A'), false);
}

#[test]
fn test_generate_var_combinations_order() {
    let vars = vec!['A', 'B'];
    let combos = generate_var_combinations(&vars);
    assert_eq!(combos.len(), 4);
    let bits: Vec<(bool, bool)> = combos.iter().map(|c| (c.get('A'), c.get('B'))).collect();
    assert_eq!(
        bits,
        vec![
            (false, false),
            (false, true),
            (true, false),
            (true, true),
        ]
    );
}

#[test]
fn test_truth_table_of_and_or() {
    let table = truth_table("AB&C|").unwrap();
    assert_eq!(table.variables, vec!['A', 'B', 'C']);
    assert_eq!(table.rows.len(), 8);
    let expected = [false, true, false, true, false, true, true, true];
    for (i, row) in table.rows.iter().enumerate() {
        assert_eq!(row.values.len(), 3);
        for (p, v) in row.values.iter().enumerate() {
            assert_eq!(*v, (i >> (2 - p)) & 1 == 1);
        }
        assert_eq!(row.result, expected[i]);
    }
}

#[test]
fn test_truth_table_rejects_invalid() {
    assert!(truth_table("").is_none());
    assert!(truth_table("AB").is_none());
    assert!(truth_table("A!B").is_none());
}

fn results_of(expression: &str) -> (Vec<char>, Vec<bool>) {
    let table = truth_table(expression).unwrap();
    (
        table.variables,
        table.rows.iter().map(|r| r.result).collect(),
    )
}

#[test]
fn test_nnf_preserves_truth_tables() {
    for expression in [
        "AB>", "AB=", "AB&!", "AB|!", "AB|C&!", "AB>C>", "AB&CD&=", "ABC&|D>", "A!B!&C|",
        "AB&CD|&EF>|",
    ] {
        let (vars, results) = results_of(expression);
        let nnf = negation_normal_form(expression);
        let (nnf_vars, nnf_results) = results_of(&nnf);
        assert_eq!(vars, nnf_vars);
        assert_eq!(results, nnf_results);
    }
}

#[test]
fn test_cnf_preserves_truth_tables() {
    for expression in [
        "AB>", "AB=", "AB&C|", "AB|C&!", "CAB&|", "AB&CD&|", "AB|CD|&", "ABC&|D>",
        "AB&CD|&EF>|",
    ] {
        let (vars, results) = results_of(expression);
        let cnf = conjunctive_normal_form(expression);
        let (cnf_vars, cnf_results) = results_of(&cnf);
        assert_eq!(vars, cnf_vars);
        assert_eq!(results, cnf_results);
    }
}

fn is_leaf_tree(f: &ASTNode) -> bool {
    matches!(f, ASTNode::Const(_) | ASTNode::Literal(_))
}

fn is_nnf_tree(f: &ASTNode) -> bool {
    match f {
        ASTNode::Not(x) => is_leaf_tree(x),
        ASTNode::And(l, r) => is_nnf_tree(l) && is_nnf_tree(r),
        ASTNode::Or(l, r) => is_nnf_tree(l) && is_nnf_tree(r),
        other => is_leaf_tree(other),
    }
}

fn is_clause_tree(f: &ASTNode) -> bool {
    match f {
        ASTNode::Not(x) => is_leaf_tree(x),
        ASTNode::Or(l, r) => is_clause_tree(l) && is_clause_tree(r),
        other => is_leaf_tree(other),
    }
}

fn is_cnf_tree(f: &ASTNode) -> bool {
    match f {
        ASTNode::And(l, r) => is_cnf_tree(l) && is_cnf_tree(r),
        other => is_clause_tree(other),
    }
}

#[test]
fn test_nnf_output_shape() {
    for expression in ["AB>", "AB=", "AB&!", "AB|C&!", "AB&CD&=", "ABC&|D>"] {
        let nnf = negation_normal_form(expression);
        let tree = rpn_to_ast(&nnf).unwrap();
        assert!(is_nnf_tree(&tree), "not in negation normal form: {}", nnf);
    }
}

#[test]
fn test_cnf_output_shape() {
    for expression in ["AB&C|", "CAB&|", "AB|CD|&", "AB&CD&|", "AB|!C!&", "AB=C|"] {
        let cnf = conjunctive_normal_form(expression);
        let tree = rpn_to_ast(&cnf).unwrap();
        assert!(is_cnf_tree(&tree), "not in conjunctive normal form: {}", cnf);
    }
}
