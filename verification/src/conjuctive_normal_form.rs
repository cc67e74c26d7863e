use vstd::prelude::*;
use vstd::string::StringExecFns;

use crate::ast::{
    ast_to_string, eval, is_leaf, is_nnf, nnf, parse_rpn, rpn, rpn_to_ast, size, to_nnf, wf_tree,
    ASTNode, GrammarMode,
};

verus! {

/// One full distribution pass, by the law
/// `Or(And(p, q), r) == And(Or(p, r), Or(q, r))` and its mirror image.
/// Wherever a disjunction has a conjunction directly below (the left
/// operand is looked at first), it is distributed, and the two new
/// disjunctions are distributed again before anything else, so that no
/// freshly created `And` below an `Or` is missed. An `Or` of anything
/// else is rebuilt from both branches distributed, an `And` recurses
/// into both branches, and everything else passes through unchanged.
pub open spec fn dist_or(f: ASTNode) -> ASTNode
    decreases size(f),
    via dist_or_decreases
{
    match f {
        ASTNode::Or(l, r) => match (*l, *r) {
            (ASTNode::And(l1, r1), r2) => ASTNode::And(
                Box::new(dist_or(ASTNode::Or(l1, Box::new(r2)))),
                Box::new(dist_or(ASTNode::Or(r1, Box::new(r2)))),
            ),
            (l2, ASTNode::And(l3, r3)) => ASTNode::And(
                Box::new(dist_or(ASTNode::Or(Box::new(l2), l3))),
                Box::new(dist_or(ASTNode::Or(Box::new(l2), r3))),
            ),
            (l2, r2) => ASTNode::Or(Box::new(dist_or(l2)), Box::new(dist_or(r2))),
        },
        ASTNode::And(l, r) => ASTNode::And(Box::new(dist_or(*l)), Box::new(dist_or(*r))),
        _ => f,
    }
}

#[via_fn]
proof fn dist_or_decreases(f: ASTNode) {
    reveal_with_fuel(size, 4);
}

/// Conversion of a formula in negation normal form into conjunctive
/// normal form: a conjunction recurses into both branches on its own;
/// below a disjunction both branches are converted first and the
/// disjunction is then distributed; leaves and negated leaves pass
/// through unchanged.
pub open spec fn cnf(f: ASTNode) -> ASTNode
    decreases f,
{
    match f {
        ASTNode::And(l, r) => ASTNode::And(Box::new(cnf(*l)), Box::new(cnf(*r))),
        ASTNode::Or(l, r) => dist_or(ASTNode::Or(Box::new(cnf(*l)), Box::new(cnf(*r)))),
        _ => f,
    }
}

/// Distributes disjunctions over conjunctions until no `And` is left
/// below an `Or`, returning a fresh tree; see `dist_or`.
fn distribute_or(node: ASTNode) -> (res: ASTNode)
    ensures
        res == dist_or(node),
    decreases size(node),
{
    proof {
        reveal_with_fuel(size, 4);
    }
    match node {
        ASTNode::Or(left, right) => match (*left, *right) {
            (ASTNode::And(left1, right1), right2) => {
                let left_or = ASTNode::Or(left1, Box::new(right2.dup()));
                let right_or = ASTNode::Or(right1, Box::new(right2));
                ASTNode::And(Box::new(distribute_or(left_or)), Box::new(distribute_or(right_or)))
            },
            (left2, ASTNode::And(left3, right3)) => {
                let left_or = ASTNode::Or(Box::new(left2.dup()), left3);
                let right_or = ASTNode::Or(Box::new(left2), right3);
                ASTNode::And(Box::new(distribute_or(left_or)), Box::new(distribute_or(right_or)))
            },
            (left2, right2) => ASTNode::Or(
                Box::new(distribute_or(left2)),
                Box::new(distribute_or(right2)),
            ),
        },
        ASTNode::And(left, right) => ASTNode::And(
            Box::new(distribute_or(*left)),
            Box::new(distribute_or(*right)),
        ),
        node => node,
    }
}

/// A weight under which rotating a conjunction to the right gets
/// strictly lighter although the tree keeps its size.
pub open spec fn and_weight(f: ASTNode) -> nat
    decreases f,
{
    match f {
        ASTNode::And(l, r) => 2 * and_weight(*l) + and_weight(*r) + 1,
        _ => 1,
    }
}

/// Leans every conjunction chain to the right:
/// `And(And(a, b), c)` becomes `And(a, And(b, c))`, again and again,
/// until no `And` is left as a left operand of another; everything
/// below the conjunction spine stays as it is.
pub open spec fn assoc_and(f: ASTNode) -> ASTNode
    decreases and_weight(f),
    via assoc_and_decreases
{
    match f {
        ASTNode::And(l, r) => match *l {
            ASTNode::And(l1, r1) => assoc_and(ASTNode::And(l1, Box::new(ASTNode::And(r1, r)))),
            other => ASTNode::And(Box::new(other), Box::new(assoc_and(*r))),
        },
        _ => f,
    }
}

#[via_fn]
proof fn assoc_and_decreases(f: ASTNode) {
    reveal_with_fuel(and_weight, 4);
}

/// Rotates conjunction chains to the right, returning a fresh tree;
/// see `assoc_and`.
fn rotate_and(node: ASTNode) -> (r: ASTNode)
    ensures
        r == assoc_and(node),
    decreases and_weight(node),
{
    proof {
        reveal_with_fuel(and_weight, 4);
    }
    match node {
        ASTNode::And(l, r) => match *l {
            ASTNode::And(l1, r1) => rotate_and(ASTNode::And(l1, Box::new(ASTNode::And(r1, r)))),
            other => ASTNode::And(Box::new(other), Box::new(rotate_and(*r))),
        },
        node => node,
    }
}

/// Converts a formula in negation normal form into conjunctive normal
/// form, returning a fresh tree; see `cnf`.
fn to_cnf(node: ASTNode) -> (res: ASTNode)
    ensures
        res == cnf(node),
    decreases node,
{
    match node {
        ASTNode::And(left, right) => ASTNode::And(
            Box::new(to_cnf(*left)),
            Box::new(to_cnf(*right)),
        ),
        ASTNode::Or(left, right) => distribute_or(
            ASTNode::Or(Box::new(to_cnf(*left)), Box::new(to_cnf(*right))),
        ),
        node => node,
    }
}

/// Rewrites a symbolic reverse-Polish formula into conjunctive normal
/// form — through negation normal form, then distribution, then a
/// right lean of the conjunction chain — and returns its text. A
/// string that does not parse yields the sentinel
/// `"Invalid expression"`.
pub fn conjunctive_normal_form(expression: &str) -> (r: String)
    ensures
        match parse_rpn(GrammarMode::Symbolic, expression@) {
            Some(f) => r@ == rpn(assoc_and(cnf(nnf(f)))),
            None => r@ == "Invalid expression"@,
        },
{
    if let Some(ast) = rpn_to_ast(expression) {
        let nnf_ast = to_nnf(ast);
        let cnf_ast = to_cnf(nnf_ast);
        ast_to_string(rotate_and(cnf_ast))
    } else {
        String::from_str("Invalid expression")
    }
}

/// A clause: a disjunction of leaves and negated leaves, with no
/// conjunction anywhere inside.
pub open spec fn is_clause(f: ASTNode) -> bool
    decreases f,
{
    match f {
        ASTNode::Or(l, r) => is_clause(*l) && is_clause(*r),
        ASTNode::Not(x) => is_leaf(*x),
        _ => is_leaf(f),
    }
}

/// Conjunctive normal form: a conjunction tree whose leaves are
/// clauses, so that no `And` stands anywhere below an `Or`.
pub open spec fn is_cnf(f: ASTNode) -> bool
    decreases f,
{
    match f {
        ASTNode::And(l, r) => is_cnf(*l) && is_cnf(*r),
        _ => is_clause(f),
    }
}

/// Distribution changes no truth value: under every assignment,
/// `dist_or(f)` evaluates as `f` does.
pub proof fn lemma_dist_or_preserves_eval(f: ASTNode, env: Map<char, bool>)
    ensures
        eval(dist_or(f), env) == eval(f, env),
    decreases size(f),
{
    reveal_with_fuel(size, 4);
    match f {
        ASTNode::Or(l, r) => match (*l, *r) {
            (ASTNode::And(l1, r1), r2) => {
                let left_or = ASTNode::Or(l1, Box::new(r2));
                let right_or = ASTNode::Or(r1, Box::new(r2));
                lemma_dist_or_preserves_eval(left_or, env);
                lemma_dist_or_preserves_eval(right_or, env);
                assert(eval(left_or, env) == (eval(*l1, env) || eval(r2, env)));
                assert(eval(right_or, env) == (eval(*r1, env) || eval(r2, env)));
                assert(eval(*l, env) == (eval(*l1, env) && eval(*r1, env)));
            },
            (l2, ASTNode::And(l3, r3)) => {
                let left_or = ASTNode::Or(Box::new(l2), l3);
                let right_or = ASTNode::Or(Box::new(l2), r3);
                lemma_dist_or_preserves_eval(left_or, env);
                lemma_dist_or_preserves_eval(right_or, env);
                assert(eval(left_or, env) == (eval(l2, env) || eval(*l3, env)));
                assert(eval(right_or, env) == (eval(l2, env) || eval(*r3, env)));
                assert(eval(*r, env) == (eval(*l3, env) && eval(*r3, env)));
            },
            (l2, r2) => {
                lemma_dist_or_preserves_eval(l2, env);
                lemma_dist_or_preserves_eval(r2, env);
            },
        },
        ASTNode::And(l, r) => {
            lemma_dist_or_preserves_eval(*l, env);
            lemma_dist_or_preserves_eval(*r, env);
        },
        _ => {},
    }
}

/// Distribution leaves a clause exactly as it is.
proof fn lemma_dist_or_clause(f: ASTNode)
    requires
        is_clause(f),
    ensures
        dist_or(f) == f,
    decreases f,
{
    match f {
        ASTNode::Or(l, r) => {
            assert(is_clause(*l) && is_clause(*r));
            match (*l, *r) {
                (ASTNode::And(_, _), _) => {
                    assert(is_clause(*l));
                    assert(!is_leaf(*l));
                },
                (_, ASTNode::And(_, _)) => {
                    assert(is_clause(*r));
                    assert(!is_leaf(*r));
                },
                _ => {
                    lemma_dist_or_clause(*l);
                    lemma_dist_or_clause(*r);
                },
            }
        },
        _ => {},
    }
}

/// Distributing a disjunction of two formulas in conjunctive normal
/// form yields conjunctive normal form.
proof fn lemma_dist_or_cnf(a: ASTNode, b: ASTNode)
    requires
        is_cnf(a),
        is_cnf(b),
    ensures
        is_cnf(dist_or(ASTNode::Or(Box::new(a), Box::new(b)))),
    decreases size(a) + size(b),
{
    reveal_with_fuel(size, 4);
    match a {
        ASTNode::And(x, y) => {
            lemma_dist_or_cnf(*x, b);
            lemma_dist_or_cnf(*y, b);
        },
        _ => {
            assert(is_clause(a));
            match b {
                ASTNode::And(x, y) => {
                    lemma_dist_or_cnf(a, *x);
                    lemma_dist_or_cnf(a, *y);
                },
                _ => {
                    assert(is_clause(b));
                    lemma_dist_or_clause(a);
                    lemma_dist_or_clause(b);
                    assert(is_clause(ASTNode::Or(Box::new(a), Box::new(b))));
                },
            }
        },
    }
}

/// The conversion to conjunctive normal form changes no truth value:
/// under every assignment, `cnf(f)` evaluates as `f` does.
pub proof fn lemma_cnf_preserves_eval(f: ASTNode, env: Map<char, bool>)
    ensures
        eval(cnf(f), env) == eval(f, env),
    decreases f,
{
    match f {
        ASTNode::And(l, r) => {
            lemma_cnf_preserves_eval(*l, env);
            lemma_cnf_preserves_eval(*r, env);
        },
        ASTNode::Or(l, r) => {
            lemma_cnf_preserves_eval(*l, env);
            lemma_cnf_preserves_eval(*r, env);
            let joined = ASTNode::Or(Box::new(cnf(*l)), Box::new(cnf(*r)));
            lemma_dist_or_preserves_eval(joined, env);
            assert(eval(joined, env) == (eval(cnf(*l), env) || eval(cnf(*r), env)));
        },
        _ => {},
    }
}

/// On a formula in negation normal form the conversion reaches
/// conjunctive normal form: no `And` is left below any `Or`.
pub proof fn lemma_cnf_shape(f: ASTNode)
    requires
        is_nnf(f),
    ensures
        is_cnf(cnf(f)),
    decreases f,
{
    match f {
        ASTNode::And(l, r) => {
            lemma_cnf_shape(*l);
            lemma_cnf_shape(*r);
        },
        ASTNode::Or(l, r) => {
            lemma_cnf_shape(*l);
            lemma_cnf_shape(*r);
            lemma_dist_or_cnf(cnf(*l), cnf(*r));
        },
        ASTNode::Not(x) => {
            assert(is_clause(f));
        },
        _ => {
            assert(is_clause(f));
        },
    }
}

/// The right lean of the conjunction chain changes no truth value:
/// under every assignment, `assoc_and(f)` evaluates as `f` does.
pub proof fn lemma_assoc_and_preserves_eval(f: ASTNode, env: Map<char, bool>)
    ensures
        eval(assoc_and(f), env) == eval(f, env),
    decreases and_weight(f),
{
    reveal_with_fuel(and_weight, 4);
    match f {
        ASTNode::And(l, r) => match *l {
            ASTNode::And(l1, r1) => {
                let rot = ASTNode::And(l1, Box::new(ASTNode::And(r1, r)));
                lemma_assoc_and_preserves_eval(rot, env);
                assert(eval(ASTNode::And(r1, r), env) == (eval(*r1, env) && eval(*r, env)));
                assert(eval(rot, env) == (eval(*l1, env) && (eval(*r1, env) && eval(*r, env))));
                assert(eval(*l, env) == (eval(*l1, env) && eval(*r1, env)));
            },
            _ => {
                lemma_assoc_and_preserves_eval(*r, env);
            },
        },
        _ => {},
    }
}

/// The right lean keeps conjunctive normal form.
pub proof fn lemma_assoc_and_shape(f: ASTNode)
    requires
        is_cnf(f),
    ensures
        is_cnf(assoc_and(f)),
    decreases and_weight(f),
{
    reveal_with_fuel(and_weight, 4);
    match f {
        ASTNode::And(l, r) => match *l {
            ASTNode::And(l1, r1) => {
                assert(is_cnf(*l) && is_cnf(*r));
                assert(is_cnf(*l1) && is_cnf(*r1));
                let rot = ASTNode::And(l1, Box::new(ASTNode::And(r1, r)));
                assert(is_cnf(ASTNode::And(r1, r)));
                assert(is_cnf(rot));
                lemma_assoc_and_shape(rot);
            },
            _ => {
                assert(is_cnf(*l) && is_cnf(*r));
                lemma_assoc_and_shape(*r);
            },
        },
        _ => {},
    }
}

/// The right lean keeps a tree inside its grammar.
pub proof fn lemma_assoc_and_wf(mode: GrammarMode, f: ASTNode)
    requires
        wf_tree(mode, f),
    ensures
        wf_tree(mode, assoc_and(f)),
    decreases and_weight(f),
{
    reveal_with_fuel(and_weight, 4);
    match f {
        ASTNode::And(l, r) => match *l {
            ASTNode::And(l1, r1) => {
                assert(wf_tree(mode, *l) && wf_tree(mode, *r));
                assert(wf_tree(mode, *l1) && wf_tree(mode, *r1));
                let rot = ASTNode::And(l1, Box::new(ASTNode::And(r1, r)));
                assert(wf_tree(mode, ASTNode::And(r1, r)));
                assert(wf_tree(mode, rot));
                lemma_assoc_and_wf(mode, rot);
            },
            _ => {
                assert(wf_tree(mode, *l) && wf_tree(mode, *r));
                lemma_assoc_and_wf(mode, *r);
            },
        },
        _ => {},
    }
}

/// The whole conversion — negation normal form, distribution, right
/// lean — changes no truth value on the formulas `nnf_exact` admits.
pub proof fn lemma_conversion_preserves_eval(f: ASTNode, env: Map<char, bool>)
    requires
        crate::ast::nnf_exact(f),
    ensures
        eval(assoc_and(cnf(nnf(f))), env) == eval(f, env),
{
    crate::ast::lemma_nnf_preserves_eval(f, env);
    lemma_cnf_preserves_eval(nnf(f), env);
    lemma_assoc_and_preserves_eval(cnf(nnf(f)), env);
}

/// The whole conversion of any formula without exclusive-or ends in
/// conjunctive normal form.
pub proof fn lemma_conversion_shape(f: ASTNode)
    requires
        crate::ast::xor_free(f),
    ensures
        is_cnf(assoc_and(cnf(nnf(f)))),
{
    crate::ast::lemma_nnf_shape(f);
    lemma_cnf_shape(nnf(f));
    lemma_assoc_and_shape(cnf(nnf(f)));
}

/// Round trip through the conversion: the text
/// `conjunctive_normal_form` returns for a parseable formula parses
/// back to exactly the tree it serialized.
pub proof fn lemma_cnf_text_parses_back(s: Seq<char>)
    ensures
        match parse_rpn(GrammarMode::Symbolic, s) {
            Some(f) => parse_rpn(GrammarMode::Symbolic, rpn(assoc_and(cnf(nnf(f))))) == Some(
                assoc_and(cnf(nnf(f))),
            ),
            None => true,
        },
{
    crate::ast::lemma_parse_rpn_wf(GrammarMode::Symbolic, s);
    match parse_rpn(GrammarMode::Symbolic, s) {
        Some(f) => {
            crate::ast::lemma_nnf_wf(GrammarMode::Symbolic, f);
            lemma_cnf_wf(GrammarMode::Symbolic, nnf(f));
            lemma_assoc_and_wf(GrammarMode::Symbolic, cnf(nnf(f)));
            crate::ast::lemma_parse_serialize(GrammarMode::Symbolic, assoc_and(cnf(nnf(f))));
        },
        None => {},
    }
}

/// Distribution keeps a tree inside its grammar.
proof fn lemma_dist_or_wf(mode: GrammarMode, f: ASTNode)
    requires
        wf_tree(mode, f),
    ensures
        wf_tree(mode, dist_or(f)),
    decreases size(f),
{
    reveal_with_fuel(size, 4);
    match f {
        ASTNode::Or(l, r) => match (*l, *r) {
            (ASTNode::And(l1, r1), r2) => {
                assert(wf_tree(mode, *l) && wf_tree(mode, *r));
                assert(wf_tree(mode, *l1) && wf_tree(mode, *r1));
                assert(wf_tree(mode, ASTNode::Or(l1, Box::new(r2))));
                assert(wf_tree(mode, ASTNode::Or(r1, Box::new(r2))));
                lemma_dist_or_wf(mode, ASTNode::Or(l1, Box::new(r2)));
                lemma_dist_or_wf(mode, ASTNode::Or(r1, Box::new(r2)));
            },
            (l2, ASTNode::And(l3, r3)) => {
                assert(wf_tree(mode, *l) && wf_tree(mode, *r));
                assert(wf_tree(mode, *l3) && wf_tree(mode, *r3));
                assert(wf_tree(mode, ASTNode::Or(Box::new(l2), l3)));
                assert(wf_tree(mode, ASTNode::Or(Box::new(l2), r3)));
                lemma_dist_or_wf(mode, ASTNode::Or(Box::new(l2), l3));
                lemma_dist_or_wf(mode, ASTNode::Or(Box::new(l2), r3));
            },
            (l2, r2) => {
                lemma_dist_or_wf(mode, l2);
                lemma_dist_or_wf(mode, r2);
            },
        },
        ASTNode::And(l, r) => {
            lemma_dist_or_wf(mode, *l);
            lemma_dist_or_wf(mode, *r);
        },
        _ => {},
    }
}

/// The conversion keeps a tree inside its grammar; in particular the
/// text of `cnf(f)` can be parsed back under the same mode.
pub proof fn lemma_cnf_wf(mode: GrammarMode, f: ASTNode)
    requires
        wf_tree(mode, f),
    ensures
        wf_tree(mode, cnf(f)),
    decreases f,
{
    match f {
        ASTNode::And(l, r) => {
            lemma_cnf_wf(mode, *l);
            lemma_cnf_wf(mode, *r);
        },
        ASTNode::Or(l, r) => {
            lemma_cnf_wf(mode, *l);
            lemma_cnf_wf(mode, *r);
            let joined = ASTNode::Or(Box::new(cnf(*l)), Box::new(cnf(*r)));
            assert(wf_tree(mode, joined));
            lemma_dist_or_wf(mode, joined);
        },
        _ => {},
    }
}

} // verus!
