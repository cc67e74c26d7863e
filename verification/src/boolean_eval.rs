use vstd::prelude::*;

use crate::ast::{
    eval, lemma_parse_run_fails_from, lemma_parse_run_grows, parse_rpn, parse_run, ASTNode,
    GrammarMode,
};

verus! {

/// Parses an evaluation-mode reverse-Polish formula: the literals `0`
/// and `1` are the only atoms, `!` negates, and `& | ^ > =` combine
/// two operands. `None` is returned on a token outside that alphabet,
/// on an operator short of operands, and when anything other than one
/// single tree is left at the end.
fn rpn_to_ast(expression: &str) -> (r: Option<ASTNode>)
    ensures
        r == parse_rpn(GrammarMode::Evaluation, expression@),
{
    let ghost s = expression@;
    let n = expression.unicode_len();
    let mut stack: Vec<ASTNode> = Vec::new();
    let mut i: usize = 0;
    while i < n
        invariant
            i <= n,
            n == s.len(),
            s == expression@,
            parse_run(GrammarMode::Evaluation, Seq::empty(), s.take(i as int)) == Some(stack@),
        decreases n - i,
    {
        let c = expression.get_char(i);
        let ghost prev = stack@;
        if c == '0' {
            stack.push(ASTNode::Literal(false));
        } else if c == '1' {
            stack.push(ASTNode::Literal(true));
        } else if c == '!' {
            match stack.pop() {
                Some(x) => stack.push(ASTNode::Not(Box::new(x))),
                None => {
                    proof {
                        lemma_parse_run_fails_from(GrammarMode::Evaluation, s, i as int, prev);
                    }
                    return None;
                },
            }
        } else if c == '&' || c == '|' || c == '^' || c == '>' || c == '=' {
            if stack.len() >= 2 {
                let right = stack.pop().unwrap();
                let left = stack.pop().unwrap();
                let node = crate::ast::binary_node_exec(c, left, right);
                stack.push(node);
            } else {
                proof {
                    lemma_parse_run_fails_from(GrammarMode::Evaluation, s, i as int, prev);
                }
                return None;
            }
        } else {
            proof {
                lemma_parse_run_fails_from(GrammarMode::Evaluation, s, i as int, prev);
            }
            return None;
        }
        proof {
            lemma_parse_run_grows(GrammarMode::Evaluation, s, i as int, prev, stack@);
        }
        i = i + 1;
    }
    proof {
        assert(s.take(n as int) =~= s);
    }
    if stack.len() == 1 {
        stack.pop()
    } else {
        None
    }
}

/// Evaluates a reverse-Polish formula over the literals `0` and `1`.
/// A string that does not parse evaluates to `false`.
pub fn eval_formula(expression: &str) -> (r: bool)
    ensures
        r == match parse_rpn(GrammarMode::Evaluation, expression@) {
            Some(f) => eval(f, Map::empty()),
            None => false,
        },
{
    match rpn_to_ast(expression) {
        Some(ast) => {
            let vars = crate::truth_table::VariableAssignment::new();
            ast.evaluate(&vars)
        },
        None => false,
    }
}

} // verus!
