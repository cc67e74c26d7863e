use vstd::prelude::*;

verus! {

/// Abstract syntax tree of a propositional formula in reverse-Polish
/// (postfix) notation. Two kinds of leaf exist, one per grammar mode:
/// `Const` holds a symbolic atom (a letter), `Literal` a fixed truth
/// value; a single formula never mixes the two. Every binary variant
/// owns exactly two children, so a value of this type is always a
/// finite tree.
#[derive(Debug)]
pub enum ASTNode {
    Const(char),
    Literal(bool),
    Not(Box<ASTNode>),
    And(Box<ASTNode>, Box<ASTNode>),
    Or(Box<ASTNode>, Box<ASTNode>),
    Xor(Box<ASTNode>, Box<ASTNode>),
    Implies(Box<ASTNode>, Box<ASTNode>),
    Equiv(Box<ASTNode>, Box<ASTNode>),
}

/// Truth value of a formula under an assignment of its atoms. An atom
/// absent from the assignment counts as false. The connectives carry
/// their standard two-valued meaning; `Implies` is material
/// implication and `Equiv` the biconditional.
pub open spec fn eval(f: ASTNode, env: Map<char, bool>) -> bool
    decreases f,
{
    match f {
        ASTNode::Const(c) => env.contains_key(c) && env[c],
        ASTNode::Literal(v) => v,
        ASTNode::Not(x) => !eval(*x, env),
        ASTNode::And(l, r) => eval(*l, env) && eval(*r, env),
        ASTNode::Or(l, r) => eval(*l, env) || eval(*r, env),
        ASTNode::Xor(l, r) => eval(*l, env) != eval(*r, env),
        ASTNode::Implies(l, r) => !eval(*l, env) || eval(*r, env),
        ASTNode::Equiv(l, r) => eval(*l, env) == eval(*r, env),
    }
}

/// The two reverse-Polish grammars. A symbolic formula is written over
/// the atoms `'A'` to `'Z'`; an evaluation-mode formula over the
/// literals `'0'` and `'1'`, which alone admit the exclusive-or
/// operator `'^'`. The two alphabets are kept apart so that a letter
/// and a literal can never be confused.
pub enum GrammarMode {
    Symbolic,
    Evaluation,
}

/// The reverse-Polish text of a formula: a post-order traversal that
/// writes each leaf as its character and each operator after its
/// operands.
pub open spec fn rpn(f: ASTNode) -> Seq<char>
    decreases f,
{
    match f {
        ASTNode::Const(c) => seq![c],
        ASTNode::Literal(v) => if v {
            seq!['1']
        } else {
            seq!['0']
        },
        ASTNode::Not(x) => rpn(*x) + seq!['!'],
        ASTNode::And(l, r) => rpn(*l) + rpn(*r) + seq!['&'],
        ASTNode::Or(l, r) => rpn(*l) + rpn(*r) + seq!['|'],
        ASTNode::Xor(l, r) => rpn(*l) + rpn(*r) + seq!['^'],
        ASTNode::Implies(l, r) => rpn(*l) + rpn(*r) + seq!['>'],
        ASTNode::Equiv(l, r) => rpn(*l) + rpn(*r) + seq!['='],
    }
}

/// Whether `c` is an atom token of the given grammar.
pub open spec fn is_atom(mode: GrammarMode, c: char) -> bool {
    match mode {
        GrammarMode::Symbolic => 'A' <= c && c <= 'Z',
        GrammarMode::Evaluation => c == '0' || c == '1',
    }
}

/// The leaf a single atom token parses to.
pub open spec fn atom_node(c: char) -> ASTNode {
    if c == '0' {
        ASTNode::Literal(false)
    } else if c == '1' {
        ASTNode::Literal(true)
    } else {
        ASTNode::Const(c)
    }
}

/// Whether `c` is a binary operator token of the given grammar.
pub open spec fn is_binary_op(mode: GrammarMode, c: char) -> bool {
    c == '&' || c == '|' || c == '>' || c == '=' || (mode == GrammarMode::Evaluation && c == '^')
}

/// The node a binary operator token builds from its two operands.
pub open spec fn binary_node(c: char, l: ASTNode, r: ASTNode) -> ASTNode {
    if c == '&' {
        ASTNode::And(Box::new(l), Box::new(r))
    } else if c == '|' {
        ASTNode::Or(Box::new(l), Box::new(r))
    } else if c == '^' {
        ASTNode::Xor(Box::new(l), Box::new(r))
    } else if c == '>' {
        ASTNode::Implies(Box::new(l), Box::new(r))
    } else {
        ASTNode::Equiv(Box::new(l), Box::new(r))
    }
}

/// One step of the stack parser: an atom is pushed; `'!'` replaces the
/// top of the stack by its negation; a binary operator pops the right
/// operand, then the left, and pushes the combined node. A token
/// outside the grammar, or an operator short of operands, fails.
pub open spec fn parse_step(mode: GrammarMode, stack: Seq<ASTNode>, c: char) -> Option<
    Seq<ASTNode>,
> {
    if is_atom(mode, c) {
        Some(stack.push(atom_node(c)))
    } else if c == '!' {
        if stack.len() >= 1 {
            Some(stack.drop_last().push(ASTNode::Not(Box::new(stack.last()))))
        } else {
            None
        }
    } else if is_binary_op(mode, c) {
        if stack.len() >= 2 {
            Some(
                stack.drop_last().drop_last().push(
                    binary_node(c, stack[stack.len() - 2], stack.last()),
                ),
            )
        } else {
            None
        }
    } else {
        None
    }
}

/// The stack parser run over a whole token sequence, left to right.
pub open spec fn parse_run(mode: GrammarMode, stack: Seq<ASTNode>, s: Seq<char>) -> Option<
    Seq<ASTNode>,
>
    decreases s.len(),
{
    if s.len() == 0 {
        Some(stack)
    } else {
        match parse_step(mode, stack, s[0]) {
            Some(st) => parse_run(mode, st, s.drop_first()),
            None => None,
        }
    }
}

/// What a reverse-Polish string denotes: the parse succeeds exactly
/// when every step succeeds and one single tree remains on the stack
/// at the end.
pub open spec fn parse_rpn(mode: GrammarMode, s: Seq<char>) -> Option<ASTNode> {
    match parse_run(mode, Seq::empty(), s) {
        Some(st) => if st.len() == 1 {
            Some(st[0])
        } else {
            None
        },
        None => None,
    }
}

/// The trees a grammar can produce: every leaf matches the grammar's
/// atom kind, and the exclusive-or connective occurs only in
/// evaluation mode.
pub open spec fn wf_tree(mode: GrammarMode, f: ASTNode) -> bool
    decreases f,
{
    match f {
        ASTNode::Const(c) => mode == GrammarMode::Symbolic && 'A' <= c && c <= 'Z',
        ASTNode::Literal(_) => mode == GrammarMode::Evaluation,
        ASTNode::Not(x) => wf_tree(mode, *x),
        ASTNode::And(l, r) => wf_tree(mode, *l) && wf_tree(mode, *r),
        ASTNode::Or(l, r) => wf_tree(mode, *l) && wf_tree(mode, *r),
        ASTNode::Xor(l, r) => mode == GrammarMode::Evaluation && wf_tree(mode, *l) && wf_tree(
            mode,
            *r,
        ),
        ASTNode::Implies(l, r) => wf_tree(mode, *l) && wf_tree(mode, *r),
        ASTNode::Equiv(l, r) => wf_tree(mode, *l) && wf_tree(mode, *r),
    }
}

/// Running the parser over `s1 + s2` is running it over `s1`, then
/// over `s2` from the stack `s1` left; a failure anywhere in `s1` is
/// final.
pub proof fn lemma_parse_run_concat(
    mode: GrammarMode,
    stack: Seq<ASTNode>,
    s1: Seq<char>,
    s2: Seq<char>,
)
    ensures
        parse_run(mode, stack, s1 + s2) == match parse_run(mode, stack, s1) {
            Some(st) => parse_run(mode, st, s2),
            None => None::<Seq<ASTNode>>,
        },
    decreases s1.len(),
{
    if s1.len() == 0 {
        assert(s1 + s2 =~= s2);
    } else {
        assert((s1 + s2)[0] == s1[0]);
        match parse_step(mode, stack, s1[0]) {
            Some(st) => {
                assert((s1 + s2).drop_first() =~= s1.drop_first() + s2);
                lemma_parse_run_concat(mode, st, s1.drop_first(), s2);
            },
            None => {},
        }
    }
}

impl ASTNode {
    /// A fresh tree structurally equal to this one, sharing no node
    /// with it.
    pub fn dup(&self) -> (r: ASTNode)
        ensures
            r == *self,
        decreases *self,
    {
        match self {
            ASTNode::Const(c) => ASTNode::Const(*c),
            ASTNode::Literal(v) => ASTNode::Literal(*v),
            ASTNode::Not(x) => ASTNode::Not(Box::new(x.dup())),
            ASTNode::And(l, r) => ASTNode::And(Box::new(l.dup()), Box::new(r.dup())),
            ASTNode::Or(l, r) => ASTNode::Or(Box::new(l.dup()), Box::new(r.dup())),
            ASTNode::Xor(l, r) => ASTNode::Xor(Box::new(l.dup()), Box::new(r.dup())),
            ASTNode::Implies(l, r) => ASTNode::Implies(Box::new(l.dup()), Box::new(r.dup())),
            ASTNode::Equiv(l, r) => ASTNode::Equiv(Box::new(l.dup()), Box::new(r.dup())),
        }
    }
}

impl Clone for ASTNode {
    fn clone(&self) -> (r: Self)
        ensures
            r == *self,
    {
        self.dup()
    }
}

/// Structural equality of two trees.
pub fn tree_eq(a: &ASTNode, b: &ASTNode) -> (r: bool)
    ensures
        r == (a == b),
    decreases *a,
{
    match (a, b) {
        (ASTNode::Const(x), ASTNode::Const(y)) => x == y,
        (ASTNode::Literal(x), ASTNode::Literal(y)) => x == y,
        (ASTNode::Not(x), ASTNode::Not(y)) => tree_eq(x, y),
        (ASTNode::And(a1, a2), ASTNode::And(b1, b2)) => tree_eq(a1, b1) && tree_eq(a2, b2),
        (ASTNode::Or(a1, a2), ASTNode::Or(b1, b2)) => tree_eq(a1, b1) && tree_eq(a2, b2),
        (ASTNode::Xor(a1, a2), ASTNode::Xor(b1, b2)) => tree_eq(a1, b1) && tree_eq(a2, b2),
        (ASTNode::Implies(a1, a2), ASTNode::Implies(b1, b2)) => tree_eq(a1, b1) && tree_eq(a2, b2),
        (ASTNode::Equiv(a1, a2), ASTNode::Equiv(b1, b2)) => tree_eq(a1, b1) && tree_eq(a2, b2),
        _ => false,
    }
}

impl PartialEq for ASTNode {
    fn eq(&self, other: &Self) -> (r: bool)
        ensures
            r == (self == other),
    {
        tree_eq(self, other)
    }
}

impl Eq for ASTNode {}

impl vstd::std_specs::cmp::PartialEqSpecImpl for ASTNode {
    open spec fn obeys_eq_spec() -> bool {
        true
    }

    open spec fn eq_spec(&self, other: &Self) -> bool {
        *self == *other
    }
}

/// Parses a symbolic reverse-Polish formula: letters `A` to `Z` are
/// atoms, `!` negates, and `& | > =` combine two operands. `None` is
/// returned on a token outside that alphabet, on an operator short of
/// operands, and when anything other than one single tree is left at
/// the end (which covers the empty string).
pub fn rpn_to_ast(expression: &str) -> (r: Option<ASTNode>)
    ensures
        r == parse_rpn(GrammarMode::Symbolic, expression@),
{
    let ghost s = expression@;
    let n = expression.unicode_len();
    let mut stack: Vec<ASTNode> = Vec::new();
    let mut i: usize = 0;
    while i < n
        invariant
            i <= n,
            n == s.len(),
            s == expression@,
            parse_run(GrammarMode::Symbolic, Seq::empty(), s.take(i as int)) == Some(stack@),
        decreases n - i,
    {
        let c = expression.get_char(i);
        let ghost prev = stack@;
        if 'A' <= c && c <= 'Z' {
            stack.push(ASTNode::Const(c));
        } else if c == '!' {
            match stack.pop() {
                Some(x) => stack.push(ASTNode::Not(Box::new(x))),
                None => {
                    proof {
                        lemma_parse_run_fails_from(GrammarMode::Symbolic, s, i as int, prev);
                    }
                    return None;
                },
            }
        } else if c == '&' || c == '|' || c == '>' || c == '=' {
            if stack.len() >= 2 {
                let right = stack.pop().unwrap();
                let left = stack.pop().unwrap();
                stack.push(binary_node_exec(c, left, right));
            } else {
                proof {
                    lemma_parse_run_fails_from(GrammarMode::Symbolic, s, i as int, prev);
                }
                return None;
            }
        } else {
            proof {
                lemma_parse_run_fails_from(GrammarMode::Symbolic, s, i as int, prev);
            }
            return None;
        }
        proof {
            lemma_parse_run_grows(GrammarMode::Symbolic, s, i as int, prev, stack@);
        }
        i = i + 1;
    }
    proof {
        assert(s.take(n as int) =~= s);
    }
    if stack.len() == 1 {
        stack.pop()
    } else {
        None
    }
}

/// The exec counterpart of `binary_node`.
pub(crate) fn binary_node_exec(c: char, l: ASTNode, r: ASTNode) -> (node: ASTNode)
    requires
        is_binary_op(GrammarMode::Symbolic, c) || is_binary_op(GrammarMode::Evaluation, c),
    ensures
        node == binary_node(c, l, r),
{
    if c == '&' {
        ASTNode::And(Box::new(l), Box::new(r))
    } else if c == '|' {
        ASTNode::Or(Box::new(l), Box::new(r))
    } else if c == '^' {
        ASTNode::Xor(Box::new(l), Box::new(r))
    } else if c == '>' {
        ASTNode::Implies(Box::new(l), Box::new(r))
    } else {
        ASTNode::Equiv(Box::new(l), Box::new(r))
    }
}

/// If the parser has reached the stack `stack` after `i` tokens of `s`
/// and the next step fails, the parse of all of `s` fails.
pub(crate) proof fn lemma_parse_run_fails_from(mode: GrammarMode, s: Seq<char>, i: int, stack: Seq<ASTNode>)
    requires
        0 <= i < s.len(),
        parse_run(mode, Seq::empty(), s.take(i)) == Some(stack),
        parse_step(mode, stack, s[i]) is None,
    ensures
        parse_rpn(mode, s) is None,
{
    assert(s =~= s.take(i) + s.skip(i));
    lemma_parse_run_concat(mode, Seq::empty(), s.take(i), s.skip(i));
    assert(s.skip(i)[0] == s[i]);
}

/// If the parser has reached `stack` after `i` tokens of `s` and one
/// more step turns it into `next`, then `i + 1` tokens lead to `next`.
pub(crate) proof fn lemma_parse_run_grows(
    mode: GrammarMode,
    s: Seq<char>,
    i: int,
    stack: Seq<ASTNode>,
    next: Seq<ASTNode>,
)
    requires
        0 <= i < s.len(),
        parse_run(mode, Seq::empty(), s.take(i)) == Some(stack),
        parse_step(mode, stack, s[i]) == Some(next),
    ensures
        parse_run(mode, Seq::empty(), s.take(i + 1)) == Some(next),
{
    let one = seq![s[i]];
    assert(s.take(i + 1) =~= s.take(i) + one);
    lemma_parse_run_concat(mode, Seq::empty(), s.take(i), one);
    assert(one[0] == s[i]);
    assert(one.drop_first() =~= Seq::<char>::empty());
    assert(parse_run(mode, stack, one) == parse_run(mode, next, one.drop_first()));
    assert(parse_run(mode, next, one.drop_first()) == Some(next));
}

/// Feeding the parser the text of a well-formed tree, from any stack,
/// leaves that tree pushed on the stack and goes on with the rest of
/// the input.
proof fn lemma_parse_run_rpn(mode: GrammarMode, t: ASTNode, stack: Seq<ASTNode>, rest: Seq<char>)
    requires
        wf_tree(mode, t),
    ensures
        parse_run(mode, stack, rpn(t) + rest) == parse_run(mode, stack.push(t), rest),
    decreases t,
{
    match t {
        ASTNode::Const(c) => {
            let one = seq![c];
            assert((one + rest)[0] == c);
            assert(atom_node(c) == t);
            assert(parse_step(mode, stack, c) == Some(stack.push(t)));
            assert((one + rest).drop_first() =~= rest);
        },
        ASTNode::Literal(v) => {
            let c = if v {
                '1'
            } else {
                '0'
            };
            let one = seq![c];
            assert((one + rest)[0] == c);
            assert(is_atom(mode, c));
            assert(atom_node(c) == t);
            assert(parse_step(mode, stack, c) == Some(stack.push(t)));
            assert((one + rest).drop_first() =~= rest);
        },
        ASTNode::Not(x) => {
            assert(rpn(t) + rest =~= rpn(*x) + (seq!['!'] + rest));
            lemma_parse_run_rpn(mode, *x, stack, seq!['!'] + rest);
            let st = stack.push(*x);
            assert((seq!['!'] + rest)[0] == '!');
            assert(st.drop_last() =~= stack);
            assert(parse_step(mode, st, '!') == Some(stack.push(t)));
            assert((seq!['!'] + rest).drop_first() =~= rest);
        },
        ASTNode::And(l, r)
        | ASTNode::Or(l, r)
        | ASTNode::Xor(l, r)
        | ASTNode::Implies(l, r)
        | ASTNode::Equiv(l, r) => {
            let op: char = match t {
                ASTNode::And(_, _) => '&',
                ASTNode::Or(_, _) => '|',
                ASTNode::Xor(_, _) => '^',
                ASTNode::Implies(_, _) => '>',
                _ => '=',
            };
            assert(rpn(t) == rpn(*l) + rpn(*r) + seq![op]);
            assert(is_binary_op(mode, op));
            assert(binary_node(op, *l, *r) == t);
            assert(rpn(t) + rest =~= rpn(*l) + (rpn(*r) + (seq![op] + rest)));
            lemma_parse_run_rpn(mode, *l, stack, rpn(*r) + (seq![op] + rest));
            lemma_parse_run_rpn(mode, *r, stack.push(*l), seq![op] + rest);
            let st = stack.push(*l).push(*r);
            assert((seq![op] + rest)[0] == op);
            assert(!is_atom(mode, op) && op != '!');
            assert(st.drop_last().drop_last() =~= stack);
            assert(st[st.len() - 2] == *l && st.last() == *r);
            assert(parse_step(mode, st, op) == Some(stack.push(t)));
            assert((seq![op] + rest).drop_first() =~= rest);
        },
    }
}

/// Round trip: the reverse-Polish text of any tree a grammar can
/// produce parses back, under that grammar, to the very same tree.
pub proof fn lemma_parse_serialize(mode: GrammarMode, t: ASTNode)
    requires
        wf_tree(mode, t),
    ensures
        parse_rpn(mode, rpn(t)) == Some(t),
{
    lemma_parse_run_rpn(mode, t, Seq::empty(), Seq::empty());
    assert(rpn(t) + Seq::<char>::empty() =~= rpn(t));
    let st = Seq::<ASTNode>::empty().push(t);
    assert(parse_run(mode, st, Seq::<char>::empty()) == Some(st));
    assert(st.len() == 1 && st[0] == t);
}

/// Every tree on the stack stays well-formed as the parser runs.
proof fn lemma_parse_run_wf(mode: GrammarMode, stack: Seq<ASTNode>, s: Seq<char>)
    requires
        forall|j: int| 0 <= j < stack.len() ==> wf_tree(mode, #[trigger] stack[j]),
    ensures
        match parse_run(mode, stack, s) {
            Some(st) => forall|j: int| 0 <= j < st.len() ==> wf_tree(mode, #[trigger] st[j]),
            None => true,
        },
    decreases s.len(),
{
    if s.len() > 0 {
        match parse_step(mode, stack, s[0]) {
            Some(st) => {
                assert forall|j: int| 0 <= j < st.len() implies wf_tree(mode, #[trigger] st[j]) by {
                    if is_atom(mode, s[0]) {
                        if j < st.len() - 1 {
                            assert(st[j] == stack[j]);
                        } else {
                            assert(st[j] == atom_node(s[0]));
                        }
                    } else if s[0] == '!' {
                        if j < st.len() - 1 {
                            assert(st[j] == stack[j]);
                        } else {
                            assert(wf_tree(mode, stack.last()));
                        }
                    } else {
                        if j < st.len() - 1 {
                            assert(st[j] == stack[j]);
                        } else {
                            assert(wf_tree(mode, stack[stack.len() - 2]));
                            assert(wf_tree(mode, stack.last()));
                        }
                    }
                }
                lemma_parse_run_wf(mode, st, s.drop_first());
            },
            None => {},
        }
    }
}

/// Number of nodes of a tree.
pub open spec fn size(f: ASTNode) -> nat
    decreases f,
{
    match f {
        ASTNode::Const(_) => 1,
        ASTNode::Literal(_) => 1,
        ASTNode::Not(x) => size(*x) + 1,
        ASTNode::And(l, r) => size(*l) + size(*r) + 1,
        ASTNode::Or(l, r) => size(*l) + size(*r) + 1,
        ASTNode::Xor(l, r) => size(*l) + size(*r) + 1,
        ASTNode::Implies(l, r) => size(*l) + size(*r) + 1,
        ASTNode::Equiv(l, r) => size(*l) + size(*r) + 1,
    }
}

/// A weight under which every negation-normal-form rewrite rule's
/// recursive arguments are strictly lighter, even where a rule first
/// builds a larger tree (as the rules for `Equiv` do). The transform
/// terminates because this weight shrinks at every step.
pub open spec fn nnf_measure(f: ASTNode) -> nat
    decreases f,
{
    match f {
        ASTNode::Const(_) => 1,
        ASTNode::Literal(_) => 1,
        ASTNode::Not(x) => nnf_measure(*x) + 1,
        ASTNode::And(l, r) => nnf_measure(*l) + nnf_measure(*r) + 1,
        ASTNode::Or(l, r) => nnf_measure(*l) + nnf_measure(*r) + 1,
        ASTNode::Xor(l, r) => nnf_measure(*l) + nnf_measure(*r) + 1,
        ASTNode::Implies(l, r) => nnf_measure(*l) + nnf_measure(*r) + 2,
        ASTNode::Equiv(l, r) => 2 * nnf_measure(*l) + 2 * nnf_measure(*r) + 4,
    }
}

/// The negation-normal-form rewrite: `Implies` and `Equiv` are
/// unfolded into `And`/`Or`, double negation is dropped, and a
/// negation over `And`, `Or`, `Implies` or `Equiv` is pushed towards
/// the leaves by De Morgan's laws. Leaves, negated leaves, and the
/// exclusive-or connective (which the symbolic grammar cannot produce)
/// pass through unchanged.
pub open spec fn nnf(f: ASTNode) -> ASTNode
    decreases nnf_measure(f),
    via nnf_decreases
{
    match f {
        ASTNode::Not(inner) => match *inner {
            ASTNode::Not(x) => nnf(*x),
            ASTNode::And(l, r) => ASTNode::Or(
                Box::new(nnf(ASTNode::Not(l))),
                Box::new(nnf(ASTNode::Not(r))),
            ),
            ASTNode::Or(l, r) => ASTNode::And(
                Box::new(nnf(ASTNode::Not(l))),
                Box::new(nnf(ASTNode::Not(r))),
            ),
            ASTNode::Implies(l, r) => ASTNode::And(
                Box::new(nnf(*l)),
                Box::new(nnf(ASTNode::Not(r))),
            ),
            ASTNode::Equiv(l, r) => ASTNode::Or(
                Box::new(nnf(ASTNode::Not(Box::new(ASTNode::And(l, r))))),
                Box::new(
                    nnf(
                        ASTNode::Not(
                            Box::new(
                                ASTNode::And(
                                    Box::new(ASTNode::Not(l)),
                                    Box::new(ASTNode::Not(r)),
                                ),
                            ),
                        ),
                    ),
                ),
            ),
            _ => f,
        },
        ASTNode::And(l, r) => ASTNode::And(Box::new(nnf(*l)), Box::new(nnf(*r))),
        ASTNode::Or(l, r) => ASTNode::Or(Box::new(nnf(*l)), Box::new(nnf(*r))),
        ASTNode::Implies(l, r) => ASTNode::Or(Box::new(nnf(ASTNode::Not(l))), Box::new(nnf(*r))),
        ASTNode::Equiv(l, r) => ASTNode::Or(
            Box::new(nnf(ASTNode::And(l, r))),
            Box::new(
                nnf(ASTNode::And(Box::new(ASTNode::Not(l)), Box::new(ASTNode::Not(r)))),
            ),
        ),
        _ => f,
    }
}

#[via_fn]
proof fn nnf_decreases(f: ASTNode) {
    reveal_with_fuel(nnf_measure, 5);
}

/// Rewrites a formula into negation normal form, returning a fresh
/// tree; see `nnf` for the rules applied.
pub fn to_nnf(node: ASTNode) -> (r: ASTNode)
    ensures
        r == nnf(node),
    decreases nnf_measure(node),
{
    proof {
        reveal_with_fuel(nnf_measure, 5);
    }
    match node {
        ASTNode::Not(boxed) => match *boxed {
            ASTNode::Not(inner) => to_nnf(*inner),
            ASTNode::And(left, right) => {
                let left = ASTNode::Not(left);
                let right = ASTNode::Not(right);
                ASTNode::Or(Box::new(to_nnf(left)), Box::new(to_nnf(right)))
            },
            ASTNode::Or(left, right) => {
                let left = ASTNode::Not(left);
                let right = ASTNode::Not(right);
                ASTNode::And(Box::new(to_nnf(left)), Box::new(to_nnf(right)))
            },
            ASTNode::Implies(left, right) => {
                let right = ASTNode::Not(right);
                ASTNode::And(Box::new(to_nnf(*left)), Box::new(to_nnf(right)))
            },
            ASTNode::Equiv(left, right) => {
                let not_left = ASTNode::Not(Box::new(left.dup()));
                let not_right = ASTNode::Not(Box::new(right.dup()));
                let left_and_right = ASTNode::And(left, right);
                let not_left_and_not_right = ASTNode::And(Box::new(not_left), Box::new(not_right));
                ASTNode::Or(
                    Box::new(to_nnf(ASTNode::Not(Box::new(left_and_right)))),
                    Box::new(to_nnf(ASTNode::Not(Box::new(not_left_and_not_right)))),
                )
            },
            other => ASTNode::Not(Box::new(other)),
        },
        ASTNode::And(left, right) => {
            ASTNode::And(Box::new(to_nnf(*left)), Box::new(to_nnf(*right)))
        },
        ASTNode::Or(left, right) => ASTNode::Or(Box::new(to_nnf(*left)), Box::new(to_nnf(*right))),
        ASTNode::Implies(left, right) => {
            let left = ASTNode::Not(left);
            ASTNode::Or(Box::new(to_nnf(left)), Box::new(to_nnf(*right)))
        },
        ASTNode::Equiv(left, right) => {
            let not_left = ASTNode::Not(Box::new(left.dup()));
            let not_right = ASTNode::Not(Box::new(right.dup()));
            let left_and_right = ASTNode::And(left, right);
            let not_left_and_not_right = ASTNode::And(Box::new(not_left), Box::new(not_right));
            ASTNode::Or(
                Box::new(to_nnf(left_and_right)),
                Box::new(to_nnf(not_left_and_not_right)),
            )
        },
        node => node,
    }
}

/// A leaf: a symbolic atom or a fixed truth value.
pub open spec fn is_leaf(f: ASTNode) -> bool {
    f matches ASTNode::Const(_) || f matches ASTNode::Literal(_)
}

/// Negation normal form: only `And`, `Or`, leaves, and `Not` applied
/// directly to a leaf.
pub open spec fn is_nnf(f: ASTNode) -> bool
    decreases f,
{
    match f {
        ASTNode::Const(_) => true,
        ASTNode::Literal(_) => true,
        ASTNode::Not(x) => is_leaf(*x),
        ASTNode::And(l, r) => is_nnf(*l) && is_nnf(*r),
        ASTNode::Or(l, r) => is_nnf(*l) && is_nnf(*r),
        ASTNode::Xor(_, _) => false,
        ASTNode::Implies(_, _) => false,
        ASTNode::Equiv(_, _) => false,
    }
}

/// Whether a formula is free of the exclusive-or connective, as every
/// formula of the symbolic grammar is.
pub open spec fn xor_free(f: ASTNode) -> bool
    decreases f,
{
    match f {
        ASTNode::Const(_) => true,
        ASTNode::Literal(_) => true,
        ASTNode::Not(x) => xor_free(*x),
        ASTNode::And(l, r) => xor_free(*l) && xor_free(*r),
        ASTNode::Or(l, r) => xor_free(*l) && xor_free(*r),
        ASTNode::Xor(_, _) => false,
        ASTNode::Implies(l, r) => xor_free(*l) && xor_free(*r),
        ASTNode::Equiv(l, r) => xor_free(*l) && xor_free(*r),
    }
}

/// Where the negation-normal-form rewrite is exact, in a positive
/// position: its rule for a negated `Equiv` turns `¬(a ≡ b)` into
/// `¬(a ∧ b) ∨ ¬(¬a ∧ ¬b)`, a disjunction that is always true, so the
/// rewrite keeps truth values only on formulas in which no `Equiv`
/// stands where a negation gets pushed down onto it. This predicate
/// and `nnf_exact_neg` delimit those formulas exactly, following where
/// each rule sends a pending negation.
pub open spec fn nnf_exact(f: ASTNode) -> bool
    decreases f,
{
    match f {
        ASTNode::Const(_) => true,
        ASTNode::Literal(_) => true,
        ASTNode::Not(x) => nnf_exact_neg(*x),
        ASTNode::And(l, r) => nnf_exact(*l) && nnf_exact(*r),
        ASTNode::Or(l, r) => nnf_exact(*l) && nnf_exact(*r),
        ASTNode::Xor(_, _) => true,
        ASTNode::Implies(l, r) => nnf_exact_neg(*l) && nnf_exact(*r),
        ASTNode::Equiv(l, r) => nnf_exact(*l) && nnf_exact(*r) && nnf_exact_neg(*l)
            && nnf_exact_neg(*r),
    }
}

/// Where the rewrite is exact for a formula standing under a negation
/// that is being pushed down; see `nnf_exact`.
pub open spec fn nnf_exact_neg(f: ASTNode) -> bool
    decreases f,
{
    match f {
        ASTNode::Const(_) => true,
        ASTNode::Literal(_) => true,
        ASTNode::Not(x) => nnf_exact(*x),
        ASTNode::And(l, r) => nnf_exact_neg(*l) && nnf_exact_neg(*r),
        ASTNode::Or(l, r) => nnf_exact_neg(*l) && nnf_exact_neg(*r),
        ASTNode::Xor(_, _) => true,
        ASTNode::Implies(l, r) => nnf_exact(*l) && nnf_exact_neg(*r),
        ASTNode::Equiv(_, _) => false,
    }
}

/// Whether a formula contains no `Equiv` node.
pub open spec fn equiv_free(f: ASTNode) -> bool
    decreases f,
{
    match f {
        ASTNode::Const(_) => true,
        ASTNode::Literal(_) => true,
        ASTNode::Not(x) => equiv_free(*x),
        ASTNode::And(l, r) => equiv_free(*l) && equiv_free(*r),
        ASTNode::Or(l, r) => equiv_free(*l) && equiv_free(*r),
        ASTNode::Xor(l, r) => equiv_free(*l) && equiv_free(*r),
        ASTNode::Implies(l, r) => equiv_free(*l) && equiv_free(*r),
        ASTNode::Equiv(_, _) => false,
    }
}

/// A formula without `Equiv` is one the rewrite is exact on, in either
/// position.
pub proof fn lemma_equiv_free_nnf_exact(f: ASTNode)
    requires
        equiv_free(f),
    ensures
        nnf_exact(f),
        nnf_exact_neg(f),
    decreases f,
{
    match f {
        ASTNode::Not(x) => lemma_equiv_free_nnf_exact(*x),
        ASTNode::And(l, r) => {
            lemma_equiv_free_nnf_exact(*l);
            lemma_equiv_free_nnf_exact(*r);
        },
        ASTNode::Or(l, r) => {
            lemma_equiv_free_nnf_exact(*l);
            lemma_equiv_free_nnf_exact(*r);
        },
        ASTNode::Implies(l, r) => {
            lemma_equiv_free_nnf_exact(*l);
            lemma_equiv_free_nnf_exact(*r);
        },
        _ => {},
    }
}

/// On the formulas `nnf_exact` admits, the rewrite to negation normal
/// form changes no truth value: under every assignment, `nnf(f)`
/// evaluates as `f` does.
#[verifier::rlimit(100)]
pub proof fn lemma_nnf_preserves_eval(f: ASTNode, env: Map<char, bool>)
    requires
        nnf_exact(f),
    ensures
        eval(nnf(f), env) == eval(f, env),
    decreases nnf_measure(f),
{
    reveal_with_fuel(nnf_measure, 5);
    match f {
        ASTNode::Not(inner) => {
            assert(nnf_exact_neg(*inner));
            match *inner {
                ASTNode::Not(x) => {
                    assert(eval(*inner, env) == !eval(*x, env));
                    lemma_nnf_preserves_eval(*x, env);
                },
                ASTNode::And(l, r) => {
                    assert(eval(*inner, env) == (eval(*l, env) && eval(*r, env)));
                    assert(eval(ASTNode::Not(l), env) == !eval(*l, env));
                    assert(eval(ASTNode::Not(r), env) == !eval(*r, env));
                    assert(nnf_exact(ASTNode::Not(l)));
                    assert(nnf_exact(ASTNode::Not(r)));
                    lemma_nnf_preserves_eval(ASTNode::Not(l), env);
                    lemma_nnf_preserves_eval(ASTNode::Not(r), env);
                },
                ASTNode::Or(l, r) => {
                    assert(eval(*inner, env) == (eval(*l, env) || eval(*r, env)));
                    assert(eval(ASTNode::Not(l), env) == !eval(*l, env));
                    assert(eval(ASTNode::Not(r), env) == !eval(*r, env));
                    assert(nnf_exact(ASTNode::Not(l)));
                    assert(nnf_exact(ASTNode::Not(r)));
                    lemma_nnf_preserves_eval(ASTNode::Not(l), env);
                    lemma_nnf_preserves_eval(ASTNode::Not(r), env);
                },
                ASTNode::Implies(l, r) => {
                    assert(eval(*inner, env) == (!eval(*l, env) || eval(*r, env)));
                    assert(eval(ASTNode::Not(r), env) == !eval(*r, env));
                    assert(nnf_exact(ASTNode::Not(r)));
                    lemma_nnf_preserves_eval(*l, env);
                    lemma_nnf_preserves_eval(ASTNode::Not(r), env);
                },
                ASTNode::Equiv(_, _) => {
                    assert(false);
                },
                _ => {},
            }
        },
        ASTNode::And(l, r) => {
            lemma_nnf_preserves_eval(*l, env);
            lemma_nnf_preserves_eval(*r, env);
        },
        ASTNode::Or(l, r) => {
            lemma_nnf_preserves_eval(*l, env);
            lemma_nnf_preserves_eval(*r, env);
        },
        ASTNode::Implies(l, r) => {
            assert(eval(ASTNode::Not(l), env) == !eval(*l, env));
            assert(nnf_exact(ASTNode::Not(l)));
            lemma_nnf_preserves_eval(ASTNode::Not(l), env);
            lemma_nnf_preserves_eval(*r, env);
        },
        ASTNode::Equiv(l, r) => {
            let both = ASTNode::And(l, r);
            let neither = ASTNode::And(Box::new(ASTNode::Not(l)), Box::new(ASTNode::Not(r)));
            assert(nnf_exact(ASTNode::Not(l)));
            assert(nnf_exact(ASTNode::Not(r)));
            assert(nnf_exact(both));
            assert(nnf_exact(neither));
            lemma_nnf_preserves_eval(both, env);
            lemma_nnf_preserves_eval(neither, env);
            assert(eval(ASTNode::Not(l), env) == !eval(*l, env));
            assert(eval(ASTNode::Not(r), env) == !eval(*r, env));
            assert(eval(neither, env) == (!eval(*l, env) && !eval(*r, env)));
            assert(eval(both, env) == (eval(*l, env) && eval(*r, env)));
        },
        _ => {},
    }
}

/// On a formula without exclusive-or, the rewrite reaches negation
/// normal form: no `Implies` or `Equiv` is left, and every `Not`
/// stands directly over a leaf.
#[verifier::rlimit(100)]
pub proof fn lemma_nnf_shape(f: ASTNode)
    requires
        xor_free(f),
    ensures
        is_nnf(nnf(f)),
    decreases nnf_measure(f),
{
    reveal_with_fuel(nnf_measure, 5);
    match f {
        ASTNode::Not(inner) => {
            assert(xor_free(*inner));
            match *inner {
                ASTNode::Not(x) => lemma_nnf_shape(*x),
                ASTNode::And(l, r) => {
                    assert(xor_free(ASTNode::Not(l)));
                    assert(xor_free(ASTNode::Not(r)));
                    lemma_nnf_shape(ASTNode::Not(l));
                    lemma_nnf_shape(ASTNode::Not(r));
                },
                ASTNode::Or(l, r) => {
                    assert(xor_free(ASTNode::Not(l)));
                    assert(xor_free(ASTNode::Not(r)));
                    lemma_nnf_shape(ASTNode::Not(l));
                    lemma_nnf_shape(ASTNode::Not(r));
                },
                ASTNode::Implies(l, r) => {
                    assert(xor_free(ASTNode::Not(r)));
                    lemma_nnf_shape(*l);
                    lemma_nnf_shape(ASTNode::Not(r));
                },
                ASTNode::Equiv(l, r) => {
                    let both = ASTNode::And(l, r);
                    let neither = ASTNode::And(
                        Box::new(ASTNode::Not(l)),
                        Box::new(ASTNode::Not(r)),
                    );
                    assert(xor_free(both));
                    assert(xor_free(ASTNode::Not(Box::new(both))));
                    assert(xor_free(ASTNode::Not(l)));
                    assert(xor_free(ASTNode::Not(r)));
                    assert(xor_free(neither));
                    assert(xor_free(ASTNode::Not(Box::new(neither))));
                    lemma_nnf_shape(ASTNode::Not(Box::new(both)));
                    lemma_nnf_shape(ASTNode::Not(Box::new(neither)));
                },
                _ => {},
            }
        },
        ASTNode::And(l, r) => {
            lemma_nnf_shape(*l);
            lemma_nnf_shape(*r);
        },
        ASTNode::Or(l, r) => {
            lemma_nnf_shape(*l);
            lemma_nnf_shape(*r);
        },
        ASTNode::Implies(l, r) => {
            assert(xor_free(ASTNode::Not(l)));
            lemma_nnf_shape(ASTNode::Not(l));
            lemma_nnf_shape(*r);
        },
        ASTNode::Equiv(l, r) => {
            let both = ASTNode::And(l, r);
            let neither = ASTNode::And(Box::new(ASTNode::Not(l)), Box::new(ASTNode::Not(r)));
            assert(xor_free(both));
            assert(xor_free(ASTNode::Not(l)));
            assert(xor_free(ASTNode::Not(r)));
            assert(xor_free(neither));
            lemma_nnf_shape(both);
            lemma_nnf_shape(neither);
        },
        _ => {},
    }
}

/// The rewrite keeps a tree inside its grammar; in particular the
/// text of `nnf(f)` can be parsed back under the same mode.
#[verifier::rlimit(100)]
pub proof fn lemma_nnf_wf(mode: GrammarMode, f: ASTNode)
    requires
        wf_tree(mode, f),
    ensures
        wf_tree(mode, nnf(f)),
    decreases nnf_measure(f),
{
    reveal_with_fuel(nnf_measure, 5);
    match f {
        ASTNode::Not(inner) => {
            assert(wf_tree(mode, *inner));
            match *inner {
                ASTNode::Not(x) => lemma_nnf_wf(mode, *x),
                ASTNode::And(l, r) => {
                    assert(wf_tree(mode, ASTNode::Not(l)));
                    assert(wf_tree(mode, ASTNode::Not(r)));
                    lemma_nnf_wf(mode, ASTNode::Not(l));
                    lemma_nnf_wf(mode, ASTNode::Not(r));
                },
                ASTNode::Or(l, r) => {
                    assert(wf_tree(mode, ASTNode::Not(l)));
                    assert(wf_tree(mode, ASTNode::Not(r)));
                    lemma_nnf_wf(mode, ASTNode::Not(l));
                    lemma_nnf_wf(mode, ASTNode::Not(r));
                },
                ASTNode::Implies(l, r) => {
                    assert(wf_tree(mode, ASTNode::Not(r)));
                    lemma_nnf_wf(mode, *l);
                    lemma_nnf_wf(mode, ASTNode::Not(r));
                },
                ASTNode::Equiv(l, r) => {
                    let both = ASTNode::And(l, r);
                    let neither = ASTNode::And(
                        Box::new(ASTNode::Not(l)),
                        Box::new(ASTNode::Not(r)),
                    );
                    assert(wf_tree(mode, both));
                    assert(wf_tree(mode, ASTNode::Not(Box::new(both))));
                    assert(wf_tree(mode, ASTNode::Not(l)));
                    assert(wf_tree(mode, ASTNode::Not(r)));
                    assert(wf_tree(mode, neither));
                    assert(wf_tree(mode, ASTNode::Not(Box::new(neither))));
                    lemma_nnf_wf(mode, ASTNode::Not(Box::new(both)));
                    lemma_nnf_wf(mode, ASTNode::Not(Box::new(neither)));
                },
                _ => {},
            }
        },
        ASTNode::And(l, r) => {
            lemma_nnf_wf(mode, *l);
            lemma_nnf_wf(mode, *r);
        },
        ASTNode::Or(l, r) => {
            lemma_nnf_wf(mode, *l);
            lemma_nnf_wf(mode, *r);
        },
        ASTNode::Implies(l, r) => {
            assert(wf_tree(mode, ASTNode::Not(l)));
            lemma_nnf_wf(mode, ASTNode::Not(l));
            lemma_nnf_wf(mode, *r);
        },
        ASTNode::Equiv(l, r) => {
            let both = ASTNode::And(l, r);
            let neither = ASTNode::And(Box::new(ASTNode::Not(l)), Box::new(ASTNode::Not(r)));
            assert(wf_tree(mode, both));
            assert(wf_tree(mode, ASTNode::Not(l)));
            assert(wf_tree(mode, ASTNode::Not(r)));
            assert(wf_tree(mode, neither));
            lemma_nnf_wf(mode, both);
            lemma_nnf_wf(mode, neither);
        },
        _ => {},
    }
}

/// Relies on String::push: appends the given character to the end of
/// the string.
#[verifier::external_body]
fn push_char(out: &mut String, c: char)
    ensures
        final(out)@ == old(out)@.push(c),
{
    out.push(c);
}

/// Writes the reverse-Polish text of `node` after whatever `out`
/// already holds: children first, then the node's own character.
fn write_rpn(node: &ASTNode, out: &mut String)
    ensures
        final(out)@ == old(out)@ + rpn(*node),
    decreases *node,
{
    let ghost start = out@;
    match node {
        ASTNode::Const(c) => {
            push_char(out, *c);
            assert(out@ =~= start + rpn(*node));
        },
        ASTNode::Literal(v) => {
            push_char(
                out,
                if *v {
                    '1'
                } else {
                    '0'
                },
            );
            assert(out@ =~= start + rpn(*node));
        },
        ASTNode::Not(x) => {
            write_rpn(x, out);
            push_char(out, '!');
            assert(out@ =~= start + rpn(*node));
        },
        ASTNode::And(l, r) => {
            write_rpn(l, out);
            write_rpn(r, out);
            push_char(out, '&');
            assert(out@ =~= start + rpn(*node));
        },
        ASTNode::Or(l, r) => {
            write_rpn(l, out);
            write_rpn(r, out);
            push_char(out, '|');
            assert(out@ =~= start + rpn(*node));
        },
        ASTNode::Xor(l, r) => {
            write_rpn(l, out);
            write_rpn(r, out);
            push_char(out, '^');
            assert(out@ =~= start + rpn(*node));
        },
        ASTNode::Implies(l, r) => {
            write_rpn(l, out);
            write_rpn(r, out);
            push_char(out, '>');
            assert(out@ =~= start + rpn(*node));
        },
        ASTNode::Equiv(l, r) => {
            write_rpn(l, out);
            write_rpn(r, out);
            push_char(out, '=');
            assert(out@ =~= start + rpn(*node));
        },
    }
}

/// The reverse-Polish text of a formula, by post-order traversal; the
/// parser of the formula's own grammar maps it back to the formula.
pub fn ast_to_string(node: ASTNode) -> (r: String)
    ensures
        r@ == rpn(node),
{
    let mut out = String::new();
    write_rpn(&node, &mut out);
    proof {
        assert(out@ =~= rpn(node));
    }
    out
}

/// The symbolic grammar has no token for exclusive-or, so its trees
/// are free of that connective and `lemma_nnf_shape` applies to every
/// formula the symbolic parser returns.
pub proof fn lemma_symbolic_xor_free(f: ASTNode)
    requires
        wf_tree(GrammarMode::Symbolic, f),
    ensures
        xor_free(f),
    decreases f,
{
    match f {
        ASTNode::Not(x) => lemma_symbolic_xor_free(*x),
        ASTNode::And(l, r) => {
            lemma_symbolic_xor_free(*l);
            lemma_symbolic_xor_free(*r);
        },
        ASTNode::Or(l, r) => {
            lemma_symbolic_xor_free(*l);
            lemma_symbolic_xor_free(*r);
        },
        ASTNode::Implies(l, r) => {
            lemma_symbolic_xor_free(*l);
            lemma_symbolic_xor_free(*r);
        },
        ASTNode::Equiv(l, r) => {
            lemma_symbolic_xor_free(*l);
            lemma_symbolic_xor_free(*r);
        },
        _ => {},
    }
}

/// Round trip through the rewrite: the text `negation_normal_form`
/// returns for a parseable formula parses back to exactly the tree it
/// serialized.
pub proof fn lemma_nnf_text_parses_back(s: Seq<char>)
    ensures
        match parse_rpn(GrammarMode::Symbolic, s) {
            Some(f) => parse_rpn(GrammarMode::Symbolic, rpn(nnf(f))) == Some(nnf(f)),
            None => true,
        },
{
    lemma_parse_rpn_wf(GrammarMode::Symbolic, s);
    match parse_rpn(GrammarMode::Symbolic, s) {
        Some(f) => {
            lemma_nnf_wf(GrammarMode::Symbolic, f);
            lemma_parse_serialize(GrammarMode::Symbolic, nnf(f));
        },
        None => {},
    }
}

/// Whatever the parser returns is a tree of its own grammar.
pub proof fn lemma_parse_rpn_wf(mode: GrammarMode, s: Seq<char>)
    ensures
        match parse_rpn(mode, s) {
            Some(t) => wf_tree(mode, t),
            None => true,
        },
{
    lemma_parse_run_wf(mode, Seq::empty(), s);
}

} // verus!
