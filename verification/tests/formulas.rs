use ready_set_boole::boolean_eval::eval_formula;
use ready_set_boole::conjuctive_normal_form::conjunctive_normal_form;
use ready_set_boole::negation_normal_form::negation_normal_form;

#[test]
fn eval_test_simple() {
    assert_eq!(eval_formula("0"), false);
    assert_eq!(eval_formula("1"), true);
    assert_eq!(eval_formula("0!"), true);
    assert_eq!(eval_formula("1!"), false);
    assert_eq!(eval_formula("01&"), false);
    assert_eq!(eval_formula("01|"), true);
    assert_eq!(eval_formula("01^"), true);
    assert_eq!(eval_formula("01>"), true);
    assert_eq!(eval_formula("01="), false);
    assert_eq!(eval_formula("0!1&"), true);
    assert_eq!(eval_formula("0!1|"), true);
    assert_eq!(eval_formula("0!1^"), false);
    assert_eq!(eval_formula("0!1>"), true);
    assert_eq!(eval_formula("0!1="), true);
    assert_eq!(eval_formula("0!1&0&"), false);
    assert_eq!(eval_formula("0!1&1&"), true);
    assert_eq!(eval_formula("0!1|0|"), true);
    assert_eq!(eval_formula("0!1|1|"), true);
    assert_eq!(eval_formula("0!1^0^"), false);
    assert_eq!(eval_formula("0!1^1^"), true);
    assert_eq!(eval_formula("0!1>0>"), false);
    assert_eq!(eval_formula("0!1>1>"), true);
    assert_eq!(eval_formula("0!1=0="), false);
    assert_eq!(eval_formula("0!1=1="), true);
    assert_eq!(eval_formula("0!1&0|"), true);
    assert_eq!(eval_formula("0!1|0&"), false);
    assert_eq!(eval_formula("0!1&0^"), true);
    assert_eq!(eval_formula("0!1^0&"), false);
    assert_eq!(eval_formula("0!1&0>"), false);
    assert_eq!(eval_formula("0!1>0&"), false);
    assert_eq!(eval_formula("0!1&0="), false);
}

#[test]
fn test_invalid() {
    assert_eq!(eval_formula("0!1&0"), false);
    assert_eq!(eval_formula("0!1|0"), false);
    assert_eq!(eval_formula("0!1^0"), false);
    assert_eq!(eval_formula("0!1>0"), false);
    assert_eq!(eval_formula("0!1=0"), false);
    assert_eq!(eval_formula("0!1&0!"), false);
    assert_eq!(eval_formula("0!1|0!"), false);
    assert_eq!(eval_formula("0!1^0!"), false);
    assert_eq!(eval_formula("0!1>0!"), false);
    assert_eq!(eval_formula("0!1=0!"), false);
    assert_eq!(eval_formula("0!1&0!1"), false);
    assert_eq!(eval_formula("0!1|0!1"), false);
    assert_eq!(eval_formula("0!1^0!1"), false);
    assert_eq!(eval_formula("0!1>0!1"), false);
    assert_eq!(eval_formula("0!1=0!1"), false);
}

#[test]
fn test_negation_normal_form() {
    assert_eq!(negation_normal_form("AB&!"), "A!B!|");
    assert_eq!(negation_normal_form("AB|!"), "A!B!&");
    assert_eq!(negation_normal_form("AB>"), "A!B|");
    assert_eq!(negation_normal_form("AB="), "AB&A!B!&|");
    assert_eq!(negation_normal_form("AB|C&!"), "A!B!&C!|");
}

#[test]
fn test_invalid_expression() {
    assert_eq!(negation_normal_form("ABBB"), "Invalid expression");
    assert_eq!(negation_normal_form(""), "Invalid expression");
    assert_eq!(negation_normal_form("!AB"), "Invalid expression");
}

#[test]
fn test_cnf_conversion() {
    let expression = "AB|!C!&";
    let cnf = conjunctive_normal_form(expression);
    assert_eq!(cnf, "A!B!C!&&");
}

#[test]
fn test_eval_literal_scenarios() {
    assert_eq!(eval_formula("01&1|"), true);
    assert_eq!(eval_formula("0!1&0&"), false);
}

#[test]
fn test_eval_rejects_symbolic_atoms() {
    assert_eq!(eval_formula("AB&"), false);
    assert_eq!(eval_formula("2"), false);
    assert_eq!(eval_formula(""), false);
}

#[test]
fn test_cnf_invalid_expression() {
    assert_eq!(conjunctive_normal_form("ABBB"), "Invalid expression");
    assert_eq!(conjunctive_normal_form(""), "Invalid expression");
    assert_eq!(conjunctive_normal_form("A0&"), "Invalid expression");
}

#[test]
fn test_cnf_distributes_or_over_and() {
    assert_eq!(conjunctive_normal_form("AB&C|"), "AC|BC|&");
    assert_eq!(conjunctive_normal_form("CAB&|"), "CA|CB|&");
    assert_eq!(conjunctive_normal_form("A"), "A");
    assert_eq!(conjunctive_normal_form("A!"), "A!");
}

#[test]
fn test_nnf_negated_equivalence_rule() {
    assert_eq!(negation_normal_form("AB=!"), "A!B!|AB||");
    assert_eq!(negation_normal_form("AA=!"), "A!A!|AA||");
}

#[test]
fn test_nnf_keeps_plain_connectives() {
    assert_eq!(negation_normal_form("A"), "A");
    assert_eq!(negation_normal_form("A!"), "A!");
    assert_eq!(negation_normal_form("A!!"), "A");
    assert_eq!(negation_normal_form("AB&"), "AB&");
    assert_eq!(negation_normal_form("AB|"), "AB|");
}
