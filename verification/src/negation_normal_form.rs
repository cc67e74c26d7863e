use vstd::prelude::*;
use vstd::string::StringExecFns;

use crate::ast::{ast_to_string, nnf, parse_rpn, rpn, rpn_to_ast, to_nnf, GrammarMode};

verus! {

/// Rewrites a symbolic reverse-Polish formula into negation normal
/// form and returns its text. A string that does not parse yields the
/// sentinel `"Invalid expression"` instead.
pub fn negation_normal_form(expression: &str) -> (r: String)
    ensures
        match parse_rpn(GrammarMode::Symbolic, expression@) {
            Some(f) => r@ == rpn(nnf(f)),
            None => r@ == "Invalid expression"@,
        },
{
    if let Some(ast) = rpn_to_ast(expression) {
        let nnf_ast = to_nnf(ast);
        ast_to_string(nnf_ast)
    } else {
        String::from_str("Invalid expression")
    }
}

} // verus!
