use vstd::prelude::*;
use vstd::arithmetic::power2::{
    lemma2_to64, lemma_pow2_pos, lemma_pow2_strictly_increases, lemma_pow2_unfold, pow2,
};

use crate::ast::{eval, parse_rpn, ASTNode, GrammarMode};

verus! {

/// The mapping a sequence of `(atom, value)` pairs stands for: each
/// pair binds its atom, a later pair overriding an earlier one with
/// the same atom.
pub open spec fn map_of(s: Seq<(char, bool)>) -> Map<char, bool>
    decreases s.len(),
{
    if s.len() == 0 {
        Map::empty()
    } else {
        map_of(s.drop_last()).insert(s.last().0, s.last().1)
    }
}

/// An assignment of truth values to atoms, built once per truth-table
/// row and then only read. Its view is the mapping from atom to value.
pub struct VariableAssignment {
    pairs: Vec<(char, bool)>,
}

impl View for VariableAssignment {
    type V = Map<char, bool>;

    closed spec fn view(&self) -> Map<char, bool> {
        map_of(self.pairs@)
    }
}

/// A key a sequence of pairs does not bind is absent from its mapping,
/// and binding one more pair is one insertion.
proof fn lemma_map_of_last(s: Seq<(char, bool)>, c: char)
    requires
        s.len() > 0,
    ensures
        s.last().0 == c ==> map_of(s).contains_key(c) && map_of(s)[c] == s.last().1,
        s.last().0 != c ==> map_of(s).contains_key(c) == map_of(s.drop_last()).contains_key(c),
        s.last().0 != c && map_of(s.drop_last()).contains_key(c) ==> map_of(s)[c] == map_of(
            s.drop_last(),
        )[c],
{
}

impl VariableAssignment {
    /// The empty assignment: no atom is bound.
    pub fn new() -> (r: VariableAssignment)
        ensures
            r@ == Map::<char, bool>::empty(),
    {
        VariableAssignment { pairs: Vec::new() }
    }

    /// Binds `c` to `v`, overriding any earlier binding of `c`.
    pub fn set(&mut self, c: char, v: bool)
        ensures
            final(self)@ == old(self)@.insert(c, v),
    {
        self.pairs.push((c, v));
        proof {
            assert(self.pairs@.drop_last() =~= old(self).pairs@);
        }
    }

    /// The value bound to `c`; an unbound atom reads as `false`.
    pub fn get(&self, c: char) -> (r: bool)
        ensures
            r == (self@.contains_key(c) && self@[c]),
    {
        let mut i = self.pairs.len();
        proof {
            assert(self.pairs@.take(i as int) =~= self.pairs@);
        }
        while i > 0
            invariant
                i <= self.pairs.len(),
                map_of(self.pairs@).contains_key(c) == map_of(
                    self.pairs@.take(i as int),
                ).contains_key(c),
                map_of(self.pairs@.take(i as int)).contains_key(c) ==> map_of(self.pairs@)[c]
                    == map_of(self.pairs@.take(i as int))[c],
            decreases i,
        {
            i = i - 1;
            let (key, value) = self.pairs[i];
            proof {
                let pre = self.pairs@.take(i + 1);
                assert(pre.last() == self.pairs@[i as int]);
                assert(pre.drop_last() =~= self.pairs@.take(i as int));
                lemma_map_of_last(pre, c);
            }
            if key == c {
                return value;
            }
        }
        proof {
            assert(self.pairs@.take(0) =~= Seq::<(char, bool)>::empty());
        }
        false
    }
}

/// Whether `s` holds the character `c`.
fn contains_char(s: &str, c: char) -> (r: bool)
    ensures
        r == s@.contains(c),
{
    let n = s.unicode_len();
    let mut i: usize = 0;
    while i < n
        invariant
            i <= n,
            n == s@.len(),
            forall|j: int| 0 <= j < i ==> s@[j] != c,
        decreases n - i,
    {
        if s.get_char(i) == c {
            return true;
        }
        i = i + 1;
    }
    false
}

/// Two characters with the same code point are the same character.
proof fn lemma_char_code_injective(c: char, d: char)
    ensures
        (d as u32 == c as u32) ==> d == c,
{
}

/// Characters are ordered exactly as their code points are.
proof fn lemma_char_code_order(c: char, d: char)
    ensures
        ((c as u32) < (d as u32)) == (c < d),
{
}

/// The upper-case letters are the characters with code points 65
/// through 90.
proof fn lemma_letter_bounds(c: char)
    ensures
        'A' <= c <==> (c as u32) >= 65,
        c <= 'Z' <==> (c as u32) <= 90,
{
}

/// The distinct upper-case atoms occurring in `expression`, in
/// ascending order.
pub fn extract_variables(expression: &str) -> (r: Vec<char>)
    ensures
        forall|i: int, j: int| 0 <= i < j < r@.len() ==> r@[i] < r@[j],
        forall|c: char|
            #[trigger] r@.contains(c) <==> (expression@.contains(c) && 'A' <= c && c <= 'Z'),
{
    let mut variables: Vec<char> = Vec::new();
    let mut code: u8 = 65;
    proof {
        assert forall|d: char| #[trigger]
            variables@.contains(d) <==> (expression@.contains(d) && 'A' <= d && (d as u32)
                < 65u32) by {
            lemma_letter_bounds(d);
        }
    }
    while code <= 90
        invariant
            65 <= code <= 91,
            forall|i: int, j: int| 0 <= i < j < variables@.len() ==> variables@[i] < variables@[j],
            forall|i: int|
                0 <= i < variables@.len() ==> ((#[trigger] variables@[i]) as u32) < code as u32,
            forall|c: char|
                #[trigger] variables@.contains(c) <==> (expression@.contains(c) && 'A' <= c && (
                c as u32) < code as u32),
        decreases 91 - code,
    {
        proof {
            assert('A' as u32 == 65 && 'Z' as u32 == 90);
        }
        let c = code as char;
        assert(c as u32 == code as u32);
        if contains_char(expression, c) {
            let ghost old_vars = variables@;
            variables.push(c);
            proof {
                assert(variables@.last() == c);
                assert forall|i: int, j: int|
                    0 <= i < j < variables@.len() implies variables@[i] < variables@[j] by {
                    if j < old_vars.len() {
                        assert(old_vars[i] < old_vars[j]);
                    } else {
                        assert(((variables@[i]) as u32) < code as u32);
                        lemma_char_code_order(variables@[i], c);
                    }
                }
                assert forall|d: char| #[trigger]
                    variables@.contains(d) <==> (expression@.contains(d) && 'A' <= d && (d as u32)
                        < code as u32 + 1) by {
                    if variables@.contains(d) {
                        let i = choose|i: int|
                            0 <= i < variables@.len() && variables@[i] == d;
                        if i < old_vars.len() {
                            assert(old_vars.contains(d));
                        }
                    }
                    if expression@.contains(d) && 'A' <= d && (d as u32) < code as u32 + 1 {
                        if (d as u32) < code as u32 {
                            assert(old_vars.contains(d));
                            let i = choose|i: int| 0 <= i < old_vars.len() && old_vars[i] == d;
                            assert(variables@[i] == d);
                        } else {
                            assert(d as u32 == c as u32);
                            lemma_char_code_injective(c, d);
                            assert(d == c);
                        }
                    }
                }
            }
        } else {
            proof {
                assert forall|d: char| #[trigger]
                    variables@.contains(d) <==> (expression@.contains(d) && 'A' <= d && (d as u32)
                        < code as u32 + 1) by {
                    if expression@.contains(d) && 'A' <= d && (d as u32) < code as u32 + 1 {
                        if (d as u32) == code as u32 {
                            lemma_char_code_injective(c, d);
                            assert(d == c);
                        }
                    }
                }
            }
        }
        code = code + 1;
    }
    proof {
        assert forall|c: char| #[trigger]
            variables@.contains(c) <==> (expression@.contains(c) && 'A' <= c && c <= 'Z') by {
            lemma_letter_bounds(c);
        }
    }
    variables
}

/// The power of two `pow2(e)`, as a machine integer.
fn pow2_usize(e: usize) -> (r: usize)
    requires
        pow2(e as nat) <= usize::MAX,
    ensures
        r == pow2(e as nat),
{
    let mut r: usize = 1;
    let mut k: usize = 0;
    proof {
        lemma2_to64();
    }
    while k < e
        invariant
            k <= e,
            r == pow2(k as nat),
            pow2(e as nat) <= usize::MAX,
        decreases e - k,
    {
        proof {
            if k + 1 < e {
                lemma_pow2_strictly_increases((k + 1) as nat, e as nat);
            }
            lemma_pow2_unfold((k + 1) as nat);
        }
        r = r * 2;
        k = k + 1;
    }
    r
}

/// The bit row `i` of a table over `k` atoms assigns to the atom at
/// sorted position `p`, the leftmost atom taking the most significant
/// bit.
pub open spec fn row_bit(i: nat, k: nat, p: int) -> bool {
    (i / pow2((k - 1 - p) as nat)) % 2 == 1
}

/// The assignment row `i` of a table over the atoms `vars` stands for.
pub open spec fn row_env(vars: Seq<char>, i: nat) -> Map<char, bool> {
    Map::new(|c: char| vars.contains(c), |c: char| row_bit(i, vars.len(), vars.index_of(c)))
}

/// One assignment per combination of values of `variables`:
/// `pow2(k)` assignments, the one at index `i` binding the atom at
/// position `p` to `row_bit(i, k, p)`, and nothing else.
pub fn generate_var_combinations(variables: &Vec<char>) -> (r: Vec<VariableAssignment>)
    requires
        variables@.no_duplicates(),
        pow2(variables@.len()) <= usize::MAX,
    ensures
        r@.len() == pow2(variables@.len()),
        forall|i: int, c: char|
            0 <= i < r@.len() ==> (#[trigger] r@[i]@.contains_key(c) <==> variables@.contains(c)),
        forall|i: int, p: int|
            0 <= i < r@.len() && 0 <= p < variables@.len() ==> #[trigger] r@[i]@[variables@[p]]
                == row_bit(i as nat, variables@.len(), p),
{
    let num_vars = variables.len();
    let num_combinations = pow2_usize(num_vars);
    let mut combinations: Vec<VariableAssignment> = Vec::new();
    let mut combination_index: usize = 0;
    while combination_index < num_combinations
        invariant
            combination_index <= num_combinations,
            num_vars == variables@.len(),
            num_combinations == pow2(num_vars as nat),
            pow2(num_vars as nat) <= usize::MAX,
            variables@.no_duplicates(),
            combinations@.len() == combination_index,
            forall|i: int, c: char|
                0 <= i < combinations@.len() ==> (#[trigger] combinations@[i]@.contains_key(c)
                    <==> variables@.contains(c)),
            forall|i: int, p: int|
                0 <= i < combinations@.len() && 0 <= p < variables@.len()
                    ==> #[trigger] combinations@[i]@[variables@[p]] == row_bit(
                    i as nat,
                    variables@.len(),
                    p,
                ),
        decreases num_combinations - combination_index,
    {
        let mut var_values = VariableAssignment::new();
        let mut p: usize = 0;
        while p < num_vars
            invariant
                p <= num_vars,
                num_vars == variables@.len(),
                pow2(num_vars as nat) <= usize::MAX,
                variables@.no_duplicates(),
                forall|c: char|
                    #[trigger] var_values@.contains_key(c) <==> variables@.take(
                        p as int,
                    ).contains(c),
                forall|q: int|
                    0 <= q < p ==> #[trigger] var_values@[variables@[q]] == row_bit(
                        combination_index as nat,
                        variables@.len(),
                        q,
                    ),
            decreases num_vars - p,
        {
            let sh = num_vars - 1 - p;
            proof {
                lemma_pow2_strictly_increases(sh as nat, num_vars as nat);
                lemma_pow2_pos(sh as nat);
            }
            let val = (combination_index / pow2_usize(sh)) % 2 == 1;
            let ghost before = var_values@;
            var_values.set(variables[p], val);
            proof {
                assert forall|c: char| #[trigger]
                    var_values@.contains_key(c) <==> variables@.take(p + 1).contains(c) by {
                    if var_values@.contains_key(c) {
                        if c == variables@[p as int] {
                            assert(variables@.take(p + 1)[p as int] == c);
                        } else {
                            assert(before.contains_key(c));
                            let q = choose|q: int|
                                0 <= q < p && #[trigger] variables@.take(p as int)[q] == c;
                            assert(variables@.take(p + 1)[q] == c);
                        }
                    }
                    if variables@.take(p + 1).contains(c) {
                        let q = choose|q: int|
                            0 <= q < p + 1 && #[trigger] variables@.take(p + 1)[q] == c;
                        if q < p {
                            assert(variables@.take(p as int)[q] == c);
                            assert(before.contains_key(c));
                        } else {
                            assert(c == variables@[p as int]);
                        }
                    }
                }
                assert forall|q: int| 0 <= q < p + 1 implies #[trigger] var_values@[variables@[q]]
                    == row_bit(combination_index as nat, variables@.len(), q) by {
                    if q < p {
                        assert(variables@[q] != variables@[p as int]);
                    }
                }
            }
            p = p + 1;
        }
        combinations.push(var_values);
        proof {
            assert(variables@.take(num_vars as int) =~= variables@);
        }
        combination_index = combination_index + 1;
    }
    combinations
}

/// One row of a truth table: each atom's value, in ascending atom
/// order, and the formula's value under that assignment.
pub struct TruthTableRow {
    pub values: Vec<bool>,
    pub result: bool,
}

/// A full truth table: the formula's atoms in ascending order, and one
/// row per assignment in increasing combination-index order.
pub struct TruthTable {
    pub variables: Vec<char>,
    pub rows: Vec<TruthTableRow>,
}

/// What the truth table of the formula `f`, read from the text `s`,
/// must hold: the distinct upper-case atoms of `s` in ascending order;
/// `pow2(k)` rows for `k` atoms; row `i` giving the atom at position
/// `p` (most significant first) the bit `i / 2^(k-1-p) % 2`, and
/// carrying the value of `f` under exactly that assignment.
pub open spec fn is_truth_table_for(t: TruthTable, f: ASTNode, s: Seq<char>) -> bool {
    &&& (forall|i: int, j: int|
        0 <= i < j < t.variables@.len() ==> t.variables@[i] < t.variables@[j])
    &&& (forall|c: char|
        #[trigger] t.variables@.contains(c) <==> (s.contains(c) && 'A' <= c && c <= 'Z'))
    &&& t.rows@.len() == pow2(t.variables@.len())
    &&& (forall|i: int|
        0 <= i < t.rows@.len() ==> (#[trigger] t.rows@[i]).values@.len() == t.variables@.len())
    &&& (forall|i: int, p: int|
        0 <= i < t.rows@.len() && 0 <= p < t.variables@.len() ==> #[trigger] t.rows@[i].values@[p]
            == row_bit(i as nat, t.variables@.len(), p))
    &&& (forall|i: int|
        0 <= i < t.rows@.len() ==> (#[trigger] t.rows@[i]).result == eval(
            f,
            row_env(t.variables@, i as nat),
        ))
}

/// The truth table of a symbolic reverse-Polish formula: its atoms,
/// sorted ascending, and one row per assignment in increasing
/// combination-index order. A string that does not parse yields
/// `None`.
pub fn truth_table(expression: &str) -> (r: Option<TruthTable>)
    ensures
        match r {
            Some(t) => parse_rpn(GrammarMode::Symbolic, expression@) matches Some(f)
                && is_truth_table_for(t, f, expression@),
            None => parse_rpn(GrammarMode::Symbolic, expression@) is None,
        },
{
    let ast = match crate::ast::rpn_to_ast(expression) {
        Some(ast) => ast,
        None => {
            return None;
        },
    };
    let variables = extract_variables(expression);
    proof {
        assert forall|i: int, j: int|
            0 <= i < variables@.len() && 0 <= j < variables@.len() && i != j implies variables@[i]
            != variables@[j] by {
            if i < j {
                assert(variables@[i] < variables@[j]);
            } else {
                assert(variables@[j] < variables@[i]);
            }
        }
        assert forall|i: int|
            0 <= i < variables@.len() implies 'A' <= #[trigger] variables@[i] && variables@[i]
            <= 'Z' by {
            assert(variables@.contains(variables@[i]));
        }
        assert(variables@.len() <= 26) by {
            lemma_sorted_distinct_letters_bound(variables@);
        }
        if variables@.len() < 26 {
            lemma_pow2_strictly_increases(variables@.len(), 26);
        }
        assert(pow2(26) == 0x4000000) by {
            lemma2_to64();
        }
    }
    let combinations = generate_var_combinations(&variables);
    let mut rows: Vec<TruthTableRow> = Vec::new();
    let mut i: usize = 0;
    let n = combinations.len();
    while i < n
        invariant
            i <= n,
            n == combinations@.len(),
            rows@.len() == i,
            variables@.no_duplicates(),
            forall|a: int, b: int|
                0 <= a < b < variables@.len() ==> variables@[a] < variables@[b],
            forall|j: int, c: char|
                0 <= j < n ==> (#[trigger] combinations@[j]@.contains_key(c) <==> variables@.contains(
                    c,
                )),
            forall|j: int, p: int|
                0 <= j < n && 0 <= p < variables@.len() ==> #[trigger] combinations@[j]@[variables@[p]]
                    == row_bit(j as nat, variables@.len(), p),
            forall|j: int|
                0 <= j < i ==> (#[trigger] rows@[j]).values@.len() == variables@.len(),
            forall|j: int, p: int|
                0 <= j < i && 0 <= p < variables@.len() ==> #[trigger] rows@[j].values@[p]
                    == row_bit(j as nat, variables@.len(), p),
            forall|j: int|
                0 <= j < i ==> (#[trigger] rows@[j]).result == eval(
                    ast,
                    row_env(variables@, j as nat),
                ),
        decreases n - i,
    {
        let combo = &combinations[i];
        let result = ast.evaluate(combo);
        proof {
            lemma_combo_is_row_env(combinations@[i as int]@, variables@, i as nat);
        }
        let mut values: Vec<bool> = Vec::new();
        let mut p: usize = 0;
        while p < variables.len()
            invariant
                p <= variables@.len(),
                values@.len() == p,
                forall|j: int, c: char|
                    0 <= j < combinations@.len() ==> (#[trigger] combinations@[j]@.contains_key(c)
                        <==> variables@.contains(c)),
                forall|j: int, q: int|
                    0 <= j < combinations@.len() && 0 <= q < variables@.len()
                        ==> #[trigger] combinations@[j]@[variables@[q]] == row_bit(
                        j as nat,
                        variables@.len(),
                        q,
                    ),
                0 <= (i as int) < combinations@.len(),
                combo == &combinations[i as int],
                forall|q: int|
                    0 <= q < p ==> #[trigger] values@[q] == row_bit(
                        i as nat,
                        variables@.len(),
                        q,
                    ),
            decreases variables@.len() - p,
        {
            proof {
                assert(variables@.contains(variables@[p as int]));
            }
            values.push(combo.get(variables[p]));
            p = p + 1;
        }
        rows.push(TruthTableRow { values, result });
        i = i + 1;
    }
    Some(TruthTable { variables, rows })
}

/// A strictly ascending run of upper-case letters holds at most the
/// alphabet's 26.
proof fn lemma_sorted_distinct_letters_bound(vars: Seq<char>)
    requires
        forall|i: int, j: int| 0 <= i < j < vars.len() ==> vars[i] < vars[j],
        forall|i: int| 0 <= i < vars.len() ==> 'A' <= #[trigger] vars[i] && vars[i] <= 'Z',
    ensures
        vars.len() <= 26,
{
    assert forall|i: int| 0 <= i < vars.len() implies (vars[i] as u32) >= 65 + i by {
        lemma_sorted_lower_bound(vars, i);
    }
    if vars.len() > 26 {
        lemma_letter_bounds(vars[26]);
        assert((vars[26] as u32) >= 91);
    }
}

/// In a strictly ascending run of letters starting at or above `'A'`,
/// the letter at position `i` is at least `i` places up the alphabet.
proof fn lemma_sorted_lower_bound(vars: Seq<char>, i: int)
    requires
        forall|i: int, j: int| 0 <= i < j < vars.len() ==> vars[i] < vars[j],
        forall|i: int| 0 <= i < vars.len() ==> 'A' <= #[trigger] vars[i] && vars[i] <= 'Z',
        0 <= i < vars.len(),
    ensures
        (vars[i] as u32) >= 65 + i,
    decreases i,
{
    if i > 0 {
        lemma_sorted_lower_bound(vars, i - 1);
        assert(vars[i - 1] < vars[i]);
        lemma_char_code_order(vars[i - 1], vars[i]);
        lemma_letter_bounds(vars[i]);
    } else {
        lemma_letter_bounds(vars[i]);
    }
}

/// An assignment that binds exactly the atoms of `vars`, giving the
/// atom at position `p` the bit of row `i`, is the mapping `row_env`
/// names.
proof fn lemma_combo_is_row_env(m: Map<char, bool>, vars: Seq<char>, i: nat)
    requires
        vars.no_duplicates(),
        forall|c: char| #[trigger] m.contains_key(c) <==> vars.contains(c),
        forall|p: int| 0 <= p < vars.len() ==> #[trigger] m[vars[p]] == row_bit(i, vars.len(), p),
    ensures
        m == row_env(vars, i),
{
    let env = row_env(vars, i);
    assert forall|c: char| #[trigger] m.contains_key(c) implies env.contains_key(c) && m[c]
        == env[c] by {
        let p = choose|p: int| 0 <= p < vars.len() && vars[p] == c;
        assert(vars[p] == c);
        assert(env.contains_key(c));
        let q = vars.index_of(c);
        assert(vars[q] == c);
        assert(p == q);
        assert(env[c] == row_bit(i, vars.len(), q));
    }
    assert(m =~= env);
}

impl ASTNode {
    /// The truth value of this formula under the given assignment; an
    /// atom the assignment does not bind counts as `false`.
    pub fn evaluate(&self, vars: &VariableAssignment) -> (r: bool)
        ensures
            r == eval(*self, vars@),
        decreases *self,
    {
        match self {
            ASTNode::Const(c) => vars.get(*c),
            ASTNode::Literal(v) => *v,
            ASTNode::Not(x) => !x.evaluate(vars),
            ASTNode::And(l, r) => l.evaluate(vars) && r.evaluate(vars),
            ASTNode::Or(l, r) => l.evaluate(vars) || r.evaluate(vars),
            ASTNode::Xor(l, r) => l.evaluate(vars) != r.evaluate(vars),
            ASTNode::Implies(l, r) => !l.evaluate(vars) || r.evaluate(vars),
            ASTNode::Equiv(l, r) => l.evaluate(vars) == r.evaluate(vars),
        }
    }
}

} // verus!

