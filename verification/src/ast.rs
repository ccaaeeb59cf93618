//! The expression tree a parser hands to the pipeline, and the spec-level
//! vocabulary (node counts, free names, scopedness) the later stages'
//! contracts are written in.

use vstd::prelude::*;

verus! {

/// A variable occurrence: a surface name plus, once scope resolution has run,
/// the unique identity of the binder it resolves to. Before scope resolution
/// `id` is `None`; afterwards every occurrence carries `Some(_)`.
#[derive(Debug, PartialEq, Eq)]
pub struct Variable {
    pub name: String,
    pub id: Option<usize>,
}

impl Clone for Variable {
    fn clone(&self) -> (res: Self)
        ensures
            res == *self,
    {
        Variable { name: self.name.clone(), id: self.id }
    }
}

/// The identity a resolved variable carries; an unresolved occurrence maps to zero.
pub open spec fn vid(v: Variable) -> usize {
    match v.id {
        Some(i) => i,
        None => 0,
    }
}

/// The closed set of binary arithmetic operators.
#[derive(Debug, PartialEq, Eq, Clone, Copy)]
pub enum Operator {
    Add,
    Sub,
    Mul,
    Div,
}

/// The immutable expression tree: variable references, lambda abstractions,
/// applications, integer literals and binary operations.
#[derive(Debug, PartialEq, Eq)]
pub enum Expr {
    Var(Variable),
    Abs(Variable, Box<Expr>),
    App(Box<Expr>, Box<Expr>),
    Number(i64),
    BOp(Operator, Box<Expr>, Box<Expr>),
}

/// How many lambda abstractions the tree holds; scope resolution allocates
/// exactly one fresh identity per abstraction.
pub open spec fn abs_count(e: Expr) -> nat
    decreases e,
{
    match e {
        Expr::Var(_) => 0,
        Expr::Abs(_, body) => 1 + abs_count(*body),
        Expr::App(e1, e2) => abs_count(*e1) + abs_count(*e2),
        Expr::Number(_) => 0,
        Expr::BOp(_, e1, e2) => abs_count(*e1) + abs_count(*e2),
    }
}

/// How many nodes the tree holds; an upper bound for every stage's appetite
/// for fresh identities.
pub open spec fn expr_size(e: Expr) -> nat
    decreases e,
{
    match e {
        Expr::Var(_) => 1,
        Expr::Abs(_, body) => 1 + expr_size(*body),
        Expr::App(e1, e2) => 1 + expr_size(*e1) + expr_size(*e2),
        Expr::Number(_) => 1,
        Expr::BOp(_, e1, e2) => 1 + expr_size(*e1) + expr_size(*e2),
    }
}

/// The names that occur free in the tree: referenced with no enclosing
/// abstraction of the same name.
pub open spec fn free_names(e: Expr) -> Set<Seq<char>>
    decreases e,
{
    match e {
        Expr::Var(v) => Set::empty().insert(v.name@),
        Expr::Abs(v, body) => free_names(*body).remove(v.name@),
        Expr::App(e1, e2) => free_names(*e1).union(free_names(*e2)),
        Expr::Number(_) => Set::empty(),
        Expr::BOp(_, e1, e2) => free_names(*e1).union(free_names(*e2)),
    }
}

/// Every variable occurrence, binder or reference, carries an identity.
pub open spec fn resolved_expr(e: Expr) -> bool
    decreases e,
{
    match e {
        Expr::Var(v) => v.id is Some,
        Expr::Abs(v, body) => v.id is Some && resolved_expr(*body),
        Expr::App(e1, e2) => resolved_expr(*e1) && resolved_expr(*e2),
        Expr::Number(_) => true,
        Expr::BOp(_, e1, e2) => resolved_expr(*e1) && resolved_expr(*e2),
    }
}

/// The tree is resolved and every reference carries either the identity of an
/// enclosing binder or one of the identities in `bound`.
pub open spec fn scoped_expr(e: Expr, bound: Set<usize>) -> bool
    decreases e,
{
    match e {
        Expr::Var(v) => v.id is Some && bound.contains(vid(v)),
        Expr::Abs(v, body) => v.id is Some && scoped_expr(*body, bound.insert(vid(v))),
        Expr::App(e1, e2) => scoped_expr(*e1, bound) && scoped_expr(*e2, bound),
        Expr::Number(_) => true,
        Expr::BOp(_, e1, e2) => scoped_expr(*e1, bound) && scoped_expr(*e2, bound),
    }
}

/// Every identity the tree carries, binder or reference, lies below `n`.
pub open spec fn expr_ids_below(e: Expr, n: usize) -> bool
    decreases e,
{
    match e {
        Expr::Var(v) => vid(v) < n,
        Expr::Abs(v, body) => vid(v) < n && expr_ids_below(*body, n),
        Expr::App(e1, e2) => expr_ids_below(*e1, n) && expr_ids_below(*e2, n),
        Expr::Number(_) => true,
        Expr::BOp(_, e1, e2) => expr_ids_below(*e1, n) && expr_ids_below(*e2, n),
    }
}

/// The identities of the tree's binders, in left-to-right preorder.
pub open spec fn binder_ids(e: Expr) -> Seq<usize>
    decreases e,
{
    match e {
        Expr::Var(_) => Seq::empty(),
        Expr::Abs(v, body) => seq![vid(v)] + binder_ids(*body),
        Expr::App(e1, e2) => binder_ids(*e1) + binder_ids(*e2),
        Expr::Number(_) => Seq::empty(),
        Expr::BOp(_, e1, e2) => binder_ids(*e1) + binder_ids(*e2),
    }
}

/// An upper bound on a tree's identities stays an upper bound when raised.
pub proof fn lemma_expr_ids_below_mono(e: Expr, n1: usize, n2: usize)
    requires
        expr_ids_below(e, n1),
        n1 <= n2,
    ensures
        expr_ids_below(e, n2),
    decreases e,
{
    match e {
        Expr::Var(_) => {}
        Expr::Abs(_, body) => {
            lemma_expr_ids_below_mono(*body, n1, n2);
        }
        Expr::App(e1, e2) => {
            lemma_expr_ids_below_mono(*e1, n1, n2);
            lemma_expr_ids_below_mono(*e2, n1, n2);
        }
        Expr::Number(_) => {}
        Expr::BOp(_, e1, e2) => {
            lemma_expr_ids_below_mono(*e1, n1, n2);
            lemma_expr_ids_below_mono(*e2, n1, n2);
        }
    }
}


/// The decimal digit characters.
pub open spec fn dec_digit(d: nat) -> char {
    if d == 0 {
        '0'
    } else if d == 1 {
        '1'
    } else if d == 2 {
        '2'
    } else if d == 3 {
        '3'
    } else if d == 4 {
        '4'
    } else if d == 5 {
        '5'
    } else if d == 6 {
        '6'
    } else if d == 7 {
        '7'
    } else if d == 8 {
        '8'
    } else {
        '9'
    }
}

/// The decimal rendering of a natural number, most significant digit first.
pub open spec fn dec_rep(n: nat) -> Seq<char>
    decreases n,
{
    if n < 10 {
        seq![dec_digit(n)]
    } else {
        dec_rep(n / 10).push(dec_digit(n % 10))
    }
}

/// The decimal rendering of an integer, a minus sign ahead when negative.
pub open spec fn int_text(n: int) -> Seq<char> {
    if n < 0 {
        seq!['-'] + dec_rep((-n) as nat)
    } else {
        dec_rep(n as nat)
    }
}

/// How a variable renders: `name_id` once resolved, the bare name before.
pub open spec fn var_text(v: Variable) -> Seq<char> {
    match v.id {
        Some(i) => v.name@ + seq!['_'] + dec_rep(i as nat),
        None => v.name@,
    }
}

/// One decimal digit as text.
fn digit_str(d: usize) -> (r: &'static str)
    requires
        d < 10,
    ensures
        r@ == seq![dec_digit(d as nat)],
{
    proof {
        reveal_strlit("0");
        reveal_strlit("1");
        reveal_strlit("2");
        reveal_strlit("3");
        reveal_strlit("4");
        reveal_strlit("5");
        reveal_strlit("6");
        reveal_strlit("7");
        reveal_strlit("8");
        reveal_strlit("9");
    }
    let r = if d == 0 {
        "0"
    } else if d == 1 {
        "1"
    } else if d == 2 {
        "2"
    } else if d == 3 {
        "3"
    } else if d == 4 {
        "4"
    } else if d == 5 {
        "5"
    } else if d == 6 {
        "6"
    } else if d == 7 {
        "7"
    } else if d == 8 {
        "8"
    } else {
        "9"
    };
    proof {
        assert(r@ =~= seq![dec_digit(d as nat)]);
    }
    r
}

/// Renders a natural number in decimal.
pub fn usize_to_string(n: usize) -> (r: String)
    ensures
        r@ == dec_rep(n as nat),
    decreases n,
{
    if n < 10 {
        let r = digit_str(n).to_owned();
        proof {
            assert(r@ =~= dec_rep(n as nat));
        }
        r
    } else {
        let mut r = usize_to_string(n / 10);
        r.append(digit_str(n % 10));
        proof {
            assert(r@ =~= dec_rep(n as nat));
        }
        r
    }
}

/// Renders a signed integer in decimal.
pub fn i64_to_string(n: i64) -> (r: String)
    ensures
        r@ == int_text(n as int),
{
    if n >= 0 {
        let mut r = String::new();
        push_u64_decimal(&mut r, n as u64);
        proof {
            assert(r@ =~= int_text(n as int));
        }
        r
    } else {
        let mut r = String::new();
        r.append("-");
        let magnitude: u64 = ((-(n + 1)) as u64) + 1;
        push_u64_decimal(&mut r, magnitude);
        proof {
            reveal_strlit("-");
            assert(magnitude as nat == (-(n as int)) as nat);
            assert(r@ =~= int_text(n as int));
        }
        r
    }
}

/// Appends the decimal rendering of a 64-bit natural number.
fn push_u64_decimal(out: &mut String, n: u64)
    ensures
        final(out)@ == old(out)@ + dec_rep(n as nat),
    decreases n,
{
    if n < 10 {
        out.append(digit_str(n as usize));
        proof {
            assert(final(out)@ =~= old(out)@ + dec_rep(n as nat));
        }
    } else {
        push_u64_decimal(out, n / 10);
        out.append(digit_str((n % 10) as usize));
        proof {
            assert(final(out)@ =~= old(out)@ + dec_rep(n as nat));
        }
    }
}

impl Variable {
    /// The stable textual form of a variable.
    pub fn to_text(&self) -> (r: String)
        ensures
            r@ == var_text(*self),
    {
        match self.id {
            Some(i) => {
                let mut r = self.name.clone();
                r.append("_");
                let digits = usize_to_string(i);
                r.append(digits.as_str());
                proof {
                    reveal_strlit("_");
                    assert(r@ =~= var_text(*self));
                }
                r
            }
            None => self.name.clone(),
        }
    }
}

} // verus!
