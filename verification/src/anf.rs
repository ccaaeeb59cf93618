//! Administrative normal form and its two lowerings: closure conversion and
//! hoisting.
//!
//! The converter walks a scope-resolved tree and emits one named statement
//! per intermediate computation, in left-to-right evaluation order. Closure
//! conversion rewrites every nested function literal into a closed top-level
//! function plus an explicit environment tuple, and every call site into a
//! code-pointer projection followed by a call that passes the closure tuple
//! first. Hoisting lifts every function definition, however deeply nested,
//! into one flat list.
//!
//! Contracts are stated over a ghost view of the structures in which the
//! cosmetic surface names are dropped and only the integer identities, the
//! operators and the literals remain; the transformations are deterministic
//! functions of that view. The names themselves are pinned where they are
//! made - `fresh_var` fixes both fields of the variable it creates - and
//! the textual renderings below are exact over whatever names stand.

use vstd::prelude::*;
use vstd::pervasive::unreached;

use crate::ast::{
    dec_rep, expr_ids_below, expr_size, i64_to_string, int_text, scoped_expr, usize_to_string,
    var_text, vid, Expr, Operator, Variable,
};

verus! {

/// An operand: a literal, a local, or a reference to a top-level function.
/// Operands never carry side effects; only statements do.
#[derive(Debug, PartialEq, Eq)]
#[verifier::ext_equal]
pub enum Value {
    Number(i64),
    Var(Variable),
    Global(Variable),
}

impl Clone for Value {
    fn clone(&self) -> (res: Self)
        ensures
            res == *self,
    {
        match self {
            Value::Number(n) => Value::Number(*n),
            Value::Var(v) => Value::Var(v.clone()),
            Value::Global(v) => Value::Global(v.clone()),
        }
    }
}

/// One statement: each binds exactly one fresh name.
#[derive(Debug, PartialEq, Eq)]
#[verifier::ext_equal]
pub enum ANF {
    Fun(Variable, Vec<Variable>, ANFs),
    App(Variable, Variable, Vec<Value>),
    BOp(Variable, Operator, Value, Value),
    Tuple(Variable, Vec<Value>),
    Project(Variable, Variable, usize),
}

/// A straight-line computation: statements in evaluation order, then an
/// optional tail value (`None` denotes a unit result). `level` is the
/// nesting depth, used by the textual rendering.
#[derive(Debug, PartialEq, Eq)]
#[verifier::ext_equal]
pub struct ANFs {
    pub anfs: Vec<ANF>,
    pub value: Option<Value>,
    pub level: usize,
}

/// A flat program: every function definition at top level, plus a main body
/// in which no function literal remains.
#[derive(Debug, PartialEq, Eq)]
#[verifier::ext_equal]
pub struct HoistedANFs {
    pub fun_defs: Vec<(Variable, Vec<Variable>, ANFs)>,
    pub main: ANFs,
}

/// Ghost view of an operand.
#[verifier::ext_equal]
pub enum GValue {
    Num(i64),
    Local(usize),
    Global(usize),
}

/// Ghost view of a body, mutually recursive with [`GStmt`] through the
/// statement sequence.
#[verifier::ext_equal]
pub struct GBody {
    pub stmts: Seq<GStmt>,
    pub tail: Option<GValue>,
    pub level: nat,
}

/// Ghost view of a statement.
#[verifier::ext_equal]
pub enum GStmt {
    Fun(usize, Seq<usize>, GBody),
    App(usize, usize, Seq<GValue>),
    BOp(usize, Operator, GValue, GValue),
    Tuple(usize, Seq<GValue>),
    Project(usize, usize, usize),
}

pub open spec fn value_view(v: Value) -> GValue {
    match v {
        Value::Number(n) => GValue::Num(n),
        Value::Var(x) => GValue::Local(vid(x)),
        Value::Global(x) => GValue::Global(vid(x)),
    }
}

pub open spec fn values_view(vs: Seq<Value>) -> Seq<GValue> {
    vs.map_values(|v: Value| value_view(v))
}

pub open spec fn tail_view(v: Option<Value>) -> Option<GValue> {
    match v {
        Some(x) => Some(value_view(x)),
        None => None,
    }
}

pub open spec fn args_view(args: Seq<Variable>) -> Seq<usize> {
    args.map_values(|x: Variable| vid(x))
}

pub open spec fn stmt_view(a: ANF) -> GStmt
    decreases a,
{
    match a {
        ANF::Fun(v, args, body) => GStmt::Fun(vid(v), args_view(args@), body_view(body)),
        ANF::App(v, f, vs) => GStmt::App(vid(v), vid(f), values_view(vs@)),
        ANF::BOp(v, op, v1, v2) => GStmt::BOp(vid(v), op, value_view(v1), value_view(v2)),
        ANF::Tuple(v, vs) => GStmt::Tuple(vid(v), values_view(vs@)),
        ANF::Project(v, t, i) => GStmt::Project(vid(v), vid(t), i),
    }
}

pub open spec fn stmts_view(q: Seq<ANF>) -> Seq<GStmt>
    decreases q,
{
    if q.len() == 0 {
        Seq::empty()
    } else {
        seq![stmt_view(q[0])] + stmts_view(q.drop_first())
    }
}

pub open spec fn body_view(b: ANFs) -> GBody
    decreases b,
{
    GBody { stmts: stmts_view(b.anfs@), tail: tail_view(b.value), level: b.level as nat }
}

/// Viewing a statement list commutes with appending one statement.
pub proof fn lemma_stmts_view_push(q: Seq<ANF>, x: ANF)
    ensures
        stmts_view(q.push(x)) == stmts_view(q) + seq![stmt_view(x)],
    decreases q.len(),
{
    if q.len() == 0 {
        assert(q.push(x).drop_first() =~= Seq::<ANF>::empty());
        assert(q.push(x)[0] == x);
        assert(stmts_view(Seq::<ANF>::empty()) =~= Seq::<GStmt>::empty());
        assert(stmts_view(q.push(x)) =~= stmts_view(q) + seq![stmt_view(x)]);
    } else {
        assert(q.push(x).drop_first() =~= q.drop_first().push(x));
        lemma_stmts_view_push(q.drop_first(), x);
        assert(stmts_view(q.push(x)) =~= stmts_view(q) + seq![stmt_view(x)]);
    }
}

/// A view has the same length, statement by statement.
pub proof fn lemma_stmts_view_len(q: Seq<ANF>)
    ensures
        stmts_view(q).len() == q.len(),
        forall|i: int| 0 <= i < q.len() ==> stmts_view(q)[i] == stmt_view(#[trigger] q[i]),
    decreases q,
{
    if q.len() > 0 {
        lemma_stmts_view_len(q.drop_first());
        assert forall|i: int| 0 <= i < q.len() implies stmts_view(q)[i] == stmt_view(
            #[trigger] q[i],
        ) by {
            if i > 0 {
                assert(q.drop_first()[i - 1] == q[i]);
                assert(stmts_view(q.drop_first())[i - 1] == stmt_view(q.drop_first()[i - 1]));
            }
        }
    }
}

/// The callee position of every application is something that linearizes to
/// a named value: anything but an integer literal.
pub open spec fn no_literal_callee(e: Expr) -> bool
    decreases e,
{
    match e {
        Expr::Var(_) => true,
        Expr::Abs(_, body) => no_literal_callee(*body),
        Expr::App(e1, e2) => !(*e1 is Number) && no_literal_callee(*e1) && no_literal_callee(
            *e2,
        ),
        Expr::Number(_) => true,
        Expr::BOp(_, e1, e2) => no_literal_callee(*e1) && no_literal_callee(*e2),
    }
}

/// What the converter emits for a tree, as a function of the fresh-name
/// counter and the nesting level: the statements appended, the tail value,
/// and the counter afterwards.
pub open spec fn convert_model(e: Expr, c: nat, level: nat) -> (Seq<GStmt>, GValue, nat)
    decreases e,
{
    match e {
        Expr::Var(v) => (Seq::empty(), GValue::Local(vid(v)), c),
        Expr::Number(n) => (Seq::empty(), GValue::Num(n), c),
        Expr::Abs(v, body) => {
            let inner = convert_model(*body, c + 1, level + 1);
            (
                seq![
                    GStmt::Fun(
                        c as usize,
                        seq![vid(v)],
                        GBody { stmts: inner.0, tail: Some(inner.1), level: level + 1 },
                    ),
                ],
                GValue::Local(c as usize),
                inner.2,
            )
        }
        Expr::App(e1, e2) => {
            let r1 = convert_model(*e1, c, level);
            let r2 = convert_model(*e2, r1.2, level);
            match r1.1 {
                GValue::Local(f) => (
                    r1.0 + r2.0 + seq![GStmt::App(r2.2 as usize, f, seq![r2.1])],
                    GValue::Local(r2.2 as usize),
                    r2.2 + 1,
                ),
                _ => (r1.0 + r2.0, r1.1, r2.2),
            }
        }
        Expr::BOp(op, e1, e2) => {
            let r1 = convert_model(*e1, c, level);
            let r2 = convert_model(*e2, r1.2, level);
            (
                r1.0 + r2.0 + seq![GStmt::BOp(r2.2 as usize, op, r1.1, r2.1)],
                GValue::Local(r2.2 as usize),
                r2.2 + 1,
            )
        }
    }
}

/// Every linearized tree but a bare literal ends in a local name; in
/// particular every callee does.
pub proof fn lemma_convert_model_value(e: Expr, c: nat, level: nat)
    requires
        no_literal_callee(e),
    ensures
        !(e is Number) ==> convert_model(e, c, level).1 is Local,
        e is Number ==> convert_model(e, c, level).1 is Num,
    decreases e,
{
    match e {
        Expr::App(e1, _) => {
            lemma_convert_model_value(*e1, c, level);
        }
        _ => {}
    }
}

/// The fresh-name counter never moves backwards and consumes at most one
/// name per tree node.
pub proof fn lemma_convert_model_counter(e: Expr, c: nat, level: nat)
    ensures
        c <= convert_model(e, c, level).2 <= c + expr_size(e),
    decreases e,
{
    match e {
        Expr::Var(_) => {}
        Expr::Number(_) => {}
        Expr::Abs(_, body) => {
            lemma_convert_model_counter(*body, c + 1, level + 1);
        }
        Expr::App(e1, e2) => {
            lemma_convert_model_counter(*e1, c, level);
            lemma_convert_model_counter(*e2, convert_model(*e1, c, level).2, level);
        }
        Expr::BOp(_, e1, e2) => {
            lemma_convert_model_counter(*e1, c, level);
            lemma_convert_model_counter(*e2, convert_model(*e1, c, level).2, level);
        }
    }
}

/// Converter state: one fresh-name counter, shared across the whole
/// conversion and seeded past every identity scope resolution handed out.
#[derive(Debug, PartialEq, Eq)]
pub struct ANFConverter {
    pub next_var: usize,
}

impl ANFConverter {
    pub fn new(next_var: usize) -> (r: Self)
        ensures
            r.next_var == next_var,
    {
        Self { next_var }
    }

    /// A fresh variable: the given surface name, the next identity.
    fn fresh_var(&mut self, name: &str) -> (r: Variable)
        requires
            old(self).next_var < usize::MAX,
        ensures
            r.name@ == name@,
            r.id == Some(old(self).next_var),
            vid(r) == old(self).next_var,
            final(self).next_var == old(self).next_var + 1,
    {
        let var = Variable { name: name.to_owned(), id: Some(self.next_var) };
        self.next_var = self.next_var + 1;
        var
    }

    /// Linearizes a tree into `anfs`: emits the statements of `expr` in
    /// left-to-right evaluation order after the statements already there, and
    /// leaves the tree's value as the tail.
    pub fn convert(&mut self, expr: Expr, anfs: &mut ANFs)
        requires
            no_literal_callee(expr),
            old(self).next_var + expr_size(expr) <= usize::MAX,
            old(anfs).level + expr_size(expr) <= usize::MAX,
        ensures
            ({
                let m = convert_model(
                    expr,
                    old(self).next_var as nat,
                    old(anfs).level as nat,
                );
                &&& final(self).next_var as nat == m.2
                &&& stmts_view(final(anfs).anfs@) == stmts_view(old(anfs).anfs@) + m.0
                &&& tail_view(final(anfs).value) == Some(m.1)
                &&& final(anfs).level == old(anfs).level
            }),
        decreases expr,
    {
        match expr {
            Expr::Var(var) => {
                anfs.value = Some(Value::Var(var));
                proof {
                    assert(stmts_view(anfs.anfs@) =~= stmts_view(anfs.anfs@)
                        + Seq::<GStmt>::empty());
                }
            }
            Expr::Abs(var, expr) => {
                let f = self.fresh_var("f");
                let mut anf = ANFs { anfs: Vec::new(), value: None, level: anfs.level + 1 };
                self.convert(*expr, &mut anf);
                let ghost pre = anfs.anfs@;
                let mut params: Vec<Variable> = Vec::new();
                params.push(var);
                let stmt = ANF::Fun(f.clone(), params, anf);
                let ghost gstmt = stmt;
                anfs.anfs.push(stmt);
                anfs.value = Some(Value::Var(f));
                proof {
                    let m = convert_model(
                        Expr::Abs(var, expr),
                        old(self).next_var as nat,
                        old(anfs).level as nat,
                    );
                    lemma_stmts_view_push(pre, gstmt);
                    assert(args_view(gstmt->Fun_1@) =~= seq![vid(var)]);
                    assert(stmts_view(gstmt->Fun_2.anfs@) =~= Seq::<GStmt>::empty()
                        + convert_model(
                        *expr,
                        old(self).next_var as nat + 1,
                        old(anfs).level as nat + 1,
                    ).0);
                    assert(stmt_view(gstmt) =~= m.0[0]);
                    assert(stmts_view(anfs.anfs@) =~= stmts_view(pre) + m.0);
                }
            }
            Expr::App(expr1, expr2) => {
                proof {
                    lemma_convert_model_counter(*expr1, self.next_var as nat, anfs.level as nat);
                }
                let ghost pre = anfs.anfs@;
                let ghost c0 = self.next_var as nat;
                let ghost lvl = anfs.level as nat;
                self.convert(*expr1, anfs);
                let f = match &anfs.value {
                    Some(Value::Var(fv)) => fv.clone(),
                    _ => {
                        proof {
                            lemma_convert_model_value(*expr1, c0, lvl);
                        }
                        unreached()
                    }
                };
                self.convert(*expr2, anfs);
                let x = match &anfs.value {
                    Some(xv) => xv.clone(),
                    None => unreached(),
                };
                proof {
                    lemma_convert_model_counter(*expr2, convert_model(*expr1, c0, lvl).2, lvl);
                }
                let y = self.fresh_var("y");
                let ghost mid = anfs.anfs@;
                let mut call_args: Vec<Value> = Vec::new();
                call_args.push(x);
                let stmt = ANF::App(y.clone(), f, call_args);
                let ghost gstmt = stmt;
                anfs.anfs.push(stmt);
                anfs.value = Some(Value::Var(y));
                proof {
                    let r1 = convert_model(*expr1, c0, lvl);
                    let r2 = convert_model(*expr2, r1.2, lvl);
                    lemma_stmts_view_push(mid, gstmt);
                    assert(values_view(gstmt->App_2@) =~= seq![r2.1]);
                    assert(stmt_view(gstmt) =~= GStmt::App(
                        r2.2 as usize,
                        r1.1->Local_0,
                        seq![r2.1],
                    ));
                    let m = convert_model(Expr::App(expr1, expr2), c0, lvl);
                    assert(stmts_view(anfs.anfs@) =~= stmts_view(pre) + m.0);
                }
            }
            Expr::Number(n) => {
                anfs.value = Some(Value::Number(n));
                proof {
                    assert(stmts_view(anfs.anfs@) =~= stmts_view(anfs.anfs@)
                        + Seq::<GStmt>::empty());
                }
            }
            Expr::BOp(op, expr1, expr2) => {
                proof {
                    lemma_convert_model_counter(*expr1, self.next_var as nat, anfs.level as nat);
                }
                let ghost pre = anfs.anfs@;
                let ghost c0 = self.next_var as nat;
                let ghost lvl = anfs.level as nat;
                self.convert(*expr1, anfs);
                let x = match &anfs.value {
                    Some(xv) => xv.clone(),
                    None => unreached(),
                };
                self.convert(*expr2, anfs);
                let y = match &anfs.value {
                    Some(yv) => yv.clone(),
                    None => unreached(),
                };
                proof {
                    lemma_convert_model_counter(*expr2, convert_model(*expr1, c0, lvl).2, lvl);
                }
                let z = self.fresh_var("z");
                let ghost mid = anfs.anfs@;
                let stmt = ANF::BOp(z.clone(), op, x, y);
                let ghost gstmt = stmt;
                anfs.anfs.push(stmt);
                anfs.value = Some(Value::Var(z));
                proof {
                    let r1 = convert_model(*expr1, c0, lvl);
                    let r2 = convert_model(*expr2, r1.2, lvl);
                    lemma_stmts_view_push(mid, gstmt);
                    assert(stmt_view(gstmt) =~= GStmt::BOp(r2.2 as usize, op, r1.1, r2.1));
                    let m = convert_model(Expr::BOp(op, expr1, expr2), c0, lvl);
                    assert(stmts_view(anfs.anfs@) =~= stmts_view(pre) + m.0);
                }
            }
        }
    }
}


/// The set of identities a sequence holds.
pub open spec fn idset(q: Seq<usize>) -> Set<usize>
    decreases q.len(),
{
    if q.len() == 0 {
        Set::empty()
    } else {
        idset(q.drop_last()).insert(q.last())
    }
}

/// Membership in the identity set is membership in the sequence.
pub proof fn lemma_idset_contains(q: Seq<usize>, x: usize)
    ensures
        idset(q).contains(x) <==> q.contains(x),
    decreases q.len(),
{
    if q.len() > 0 {
        lemma_idset_contains(q.drop_last(), x);
        if q.contains(x) {
            let j = choose|j: int| 0 <= j < q.len() && q[j] == x;
            if j < q.len() - 1 {
                assert(q.drop_last()[j] == x);
            }
        }
        if q.drop_last().contains(x) {
            let j = choose|j: int|
                0 <= j < q.drop_last().len() && q.drop_last()[j] == x;
            assert(q[j] == x);
        }
    }
}

/// Appending one identity inserts it into the set.
pub proof fn lemma_idset_push(q: Seq<usize>, x: usize)
    ensures
        idset(q.push(x)) == idset(q).insert(x),
{
    assert(q.push(x).drop_last() =~= q);
    assert(idset(q.push(x)) =~= idset(q).insert(x));
}

/// Viewing a variable list commutes with appending.
pub proof fn lemma_args_view_concat(a: Seq<Variable>, b: Seq<Variable>)
    ensures
        args_view(a + b) == args_view(a) + args_view(b),
{
    assert(args_view(a + b) =~= args_view(a) + args_view(b));
}

/// A list split at the front.
pub proof fn lemma_idset_front(q: Seq<usize>)
    requires
        q.len() > 0,
    ensures
        idset(q) == idset(q.drop_first()).insert(q[0]),
{
    assert forall|x: usize| idset(q).contains(x) implies idset(q.drop_first()).insert(
        q[0],
    ).contains(x) by {
        lemma_idset_contains(q, x);
        let j = choose|j: int| 0 <= j < q.len() && q[j] == x;
        if j > 0 {
            assert(q.drop_first()[j - 1] == x);
            lemma_idset_contains(q.drop_first(), x);
        }
    }
    assert forall|x: usize| idset(q.drop_first()).insert(q[0]).contains(x) implies idset(
        q,
    ).contains(x) by {
        lemma_idset_contains(q, x);
        if x != q[0] {
            lemma_idset_contains(q.drop_first(), x);
            let j = choose|j: int| 0 <= j < q.drop_first().len() && q.drop_first()[j] == x;
            assert(q[j + 1] == x);
        }
    }
    assert(idset(q) =~= idset(q.drop_first()).insert(q[0]));
}

/// The same identities with later repeats dropped: the first occurrence of
/// each is kept, everything already in `seen` is dropped outright.
pub open spec fn dedup_ids(q: Seq<usize>, seen: Set<usize>) -> Seq<usize>
    decreases q.len(),
{
    if q.len() == 0 {
        Seq::empty()
    } else if seen.contains(q[0]) {
        dedup_ids(q.drop_first(), seen)
    } else {
        seq![q[0]] + dedup_ids(q.drop_first(), seen.insert(q[0]))
    }
}

pub open spec fn dedup_first(q: Seq<usize>) -> Seq<usize> {
    dedup_ids(q, Set::empty())
}

/// One more identity lands at the end unless already seen or present.
pub proof fn lemma_dedup_snoc(q: Seq<usize>, x: usize, seen: Set<usize>)
    ensures
        dedup_ids(q.push(x), seen) == dedup_ids(q, seen) + (if seen.union(idset(q)).contains(
            x,
        ) {
            Seq::<usize>::empty()
        } else {
            seq![x]
        }),
    decreases q.len(),
{
    if q.len() == 0 {
        assert(q.push(x).drop_first() =~= Seq::<usize>::empty());
        assert(q.push(x)[0] == x);
        assert(idset(q) =~= Set::<usize>::empty());
        assert(dedup_ids(Seq::<usize>::empty(), seen) =~= Seq::<usize>::empty());
        assert(dedup_ids(Seq::<usize>::empty(), seen.insert(x)) =~= Seq::<usize>::empty());
        assert(dedup_ids(q.push(x), seen) =~= dedup_ids(q, seen) + (if seen.union(
            idset(q),
        ).contains(x) {
            Seq::<usize>::empty()
        } else {
            seq![x]
        }));
    } else {
        assert(q.push(x).drop_first() =~= q.drop_first().push(x));
        assert(q.push(x)[0] == q[0]);
        lemma_idset_front(q);
        if seen.contains(q[0]) {
            lemma_dedup_snoc(q.drop_first(), x, seen);
            assert(seen.union(idset(q.drop_first())) =~= seen.union(idset(q)));
            assert(dedup_ids(q.push(x), seen) =~= dedup_ids(q, seen) + (if seen.union(
                idset(q),
            ).contains(x) {
                Seq::<usize>::empty()
            } else {
                seq![x]
            }));
        } else {
            lemma_dedup_snoc(q.drop_first(), x, seen.insert(q[0]));
            assert(seen.insert(q[0]).union(idset(q.drop_first())) =~= seen.union(idset(q)));
            assert(dedup_ids(q.push(x), seen) =~= dedup_ids(q, seen) + (if seen.union(
                idset(q),
            ).contains(x) {
                Seq::<usize>::empty()
            } else {
                seq![x]
            }));
        }
    }
}

/// Deduplication keeps exactly the identities that were present and unseen.
pub proof fn lemma_dedup_contains(q: Seq<usize>, seen: Set<usize>, x: usize)
    ensures
        dedup_ids(q, seen).contains(x) <==> (q.contains(x) && !seen.contains(x)),
    decreases q.len(),
{
    if q.len() == 0 {
    } else if seen.contains(q[0]) {
        lemma_dedup_contains(q.drop_first(), seen, x);
        if q.contains(x) && !seen.contains(x) {
            let j = choose|j: int| 0 <= j < q.len() && q[j] == x;
            assert(j > 0);
            assert(q.drop_first()[j - 1] == x);
        }
        if q.drop_first().contains(x) {
            let j = choose|j: int|
                0 <= j < q.drop_first().len() && q.drop_first()[j] == x;
            assert(q[j + 1] == x);
        }
    } else {
        lemma_dedup_contains(q.drop_first(), seen.insert(q[0]), x);
        let d = dedup_ids(q, seen);
        let dr = dedup_ids(q.drop_first(), seen.insert(q[0]));
        assert(d == seq![q[0]] + dr);
        if d.contains(x) {
            let j = choose|j: int| 0 <= j < d.len() && d[j] == x;
            if j == 0 {
                assert(x == q[0]);
                assert(q[0] == q[0] && q.contains(q[0]));
            } else {
                assert(dr[j - 1] == x);
                assert(dr.contains(x));
                let j2 = choose|j2: int|
                    0 <= j2 < q.drop_first().len() && q.drop_first()[j2] == x;
                assert(q[j2 + 1] == x);
            }
        }
        if q.contains(x) && !seen.contains(x) {
            if x == q[0] {
                assert(d[0] == x);
            } else {
                let j = choose|j: int| 0 <= j < q.len() && q[j] == x;
                assert(j > 0);
                assert(q.drop_first()[j - 1] == x);
                assert(dr.contains(x));
                let j2 = choose|j2: int| 0 <= j2 < dr.len() && dr[j2] == x;
                assert(d[j2 + 1] == x);
            }
        }
    }
}

/// The deduplicated list repeats nothing and avoids everything seen.
pub proof fn lemma_dedup_no_dup(q: Seq<usize>, seen: Set<usize>)
    ensures
        forall|i: int, j: int|
            0 <= i < j < dedup_ids(q, seen).len() ==> #[trigger] dedup_ids(q, seen)[i]
                != #[trigger] dedup_ids(q, seen)[j],
        forall|i: int|
            0 <= i < dedup_ids(q, seen).len() ==> !seen.contains(
                #[trigger] dedup_ids(q, seen)[i],
            ),
    decreases q.len(),
{
    if q.len() == 0 {
    } else if seen.contains(q[0]) {
        lemma_dedup_no_dup(q.drop_first(), seen);
        let d = dedup_ids(q, seen);
        let dr = dedup_ids(q.drop_first(), seen);
        assert(d == dr);
        assert forall|i: int, j: int| 0 <= i < j < d.len() implies #[trigger] d[i]
            != #[trigger] d[j] by {
            assert(d[i] == dr[i] && d[j] == dr[j]);
        }
        assert forall|i: int| 0 <= i < d.len() implies !seen.contains(#[trigger] d[i]) by {
            assert(d[i] == dr[i]);
        }
    } else {
        lemma_dedup_no_dup(q.drop_first(), seen.insert(q[0]));
        let d = dedup_ids(q, seen);
        let dr = dedup_ids(q.drop_first(), seen.insert(q[0]));
        assert(d == seq![q[0]] + dr);
        assert(d[0] == q[0]);
        assert forall|i: int, j: int| 0 <= i < j < d.len() implies #[trigger] d[i]
            != #[trigger] d[j] by {
            if i == 0 {
                assert(d[j] == dr[j - 1]);
                assert(!seen.insert(q[0]).contains(dr[j - 1]));
            } else {
                assert(d[i] == dr[i - 1] && d[j] == dr[j - 1]);
                assert(dr[i - 1] != dr[j - 1]);
            }
        }
        assert forall|i: int| 0 <= i < d.len() implies !seen.contains(#[trigger] d[i]) by {
            if i > 0 {
                assert(d[i] == dr[i - 1]);
                assert(!seen.insert(q[0]).contains(dr[i - 1]));
            } else {
                assert(d[0] == q[0]);
            }
        }
    }
}

/// The identity a statement binds.
pub open spec fn gtarget(s: GStmt) -> usize {
    match s {
        GStmt::Fun(t, _, _) => t,
        GStmt::App(t, _, _) => t,
        GStmt::BOp(t, _, _, _) => t,
        GStmt::Tuple(t, _) => t,
        GStmt::Project(t, _, _) => t,
    }
}

/// The free occurrences of a single operand, given the identities in force.
pub open spec fn gfv_val(v: GValue, b: Set<usize>) -> Seq<usize> {
    match v {
        GValue::Local(i) => if b.contains(i) {
            Seq::empty()
        } else {
            seq![i]
        },
        _ => Seq::empty(),
    }
}

pub open spec fn gfv_vals(vs: Seq<GValue>, b: Set<usize>) -> Seq<usize>
    decreases vs.len(),
{
    if vs.len() == 0 {
        Seq::empty()
    } else {
        gfv_val(vs[0], b) + gfv_vals(vs.drop_first(), b)
    }
}

/// One more operand extends the free list at the end.
pub proof fn lemma_gfv_vals_snoc(vs: Seq<GValue>, x: GValue, b: Set<usize>)
    ensures
        gfv_vals(vs.push(x), b) == gfv_vals(vs, b) + gfv_val(x, b),
    decreases vs.len(),
{
    if vs.len() == 0 {
        assert(vs.push(x).drop_first() =~= Seq::<GValue>::empty());
        assert(vs.push(x)[0] == x);
        assert(gfv_vals(Seq::<GValue>::empty(), b) =~= Seq::<usize>::empty());
        assert(gfv_vals(vs.push(x), b) =~= gfv_vals(vs, b) + gfv_val(x, b));
    } else {
        assert(vs.push(x).drop_first() =~= vs.drop_first().push(x));
        lemma_gfv_vals_snoc(vs.drop_first(), x, b);
        assert(gfv_vals(vs.push(x), b) =~= gfv_vals(vs, b) + gfv_val(x, b));
    }
}

pub open spec fn gfv_tail(t: Option<GValue>, b: Set<usize>) -> Seq<usize> {
    match t {
        Some(v) => gfv_val(v, b),
        None => Seq::empty(),
    }
}

/// The identities in force after a statement list: the starting set plus
/// every statement's own binding.
pub open spec fn bound_after(q: Seq<GStmt>, b: Set<usize>) -> Set<usize>
    decreases q.len(),
{
    if q.len() == 0 {
        b
    } else {
        bound_after(q.drop_first(), b.insert(gtarget(q[0])))
    }
}

/// The free occurrences of one statement's operands, its own binding already
/// in force; a nested function's body is walked with its parameters bound.
pub open spec fn gfv_stmt_refs(s: GStmt, b: Set<usize>) -> Seq<usize>
    decreases s,
{
    match s {
        GStmt::Fun(_, args, body) => gfv_body(body, b.union(idset(args))),
        GStmt::App(_, f, vs) => (if b.contains(f) {
            Seq::empty()
        } else {
            seq![f]
        }) + gfv_vals(vs, b),
        GStmt::BOp(_, _, v1, v2) => gfv_val(v1, b) + gfv_val(v2, b),
        GStmt::Tuple(_, vs) => gfv_vals(vs, b),
        GStmt::Project(_, t, _) => if b.contains(t) {
            Seq::empty()
        } else {
            seq![t]
        },
    }
}

pub open spec fn gfv_seq(q: Seq<GStmt>, b: Set<usize>) -> Seq<usize>
    decreases q,
{
    if q.len() == 0 {
        Seq::empty()
    } else {
        let b2 = b.insert(gtarget(q[0]));
        gfv_stmt_refs(q[0], b2) + gfv_seq(q.drop_first(), b2)
    }
}

/// The free occurrences of a whole body: its statements in order, then the
/// tail against everything bound by then.
pub open spec fn gfv_body(body: GBody, b: Set<usize>) -> Seq<usize>
    decreases body,
{
    gfv_seq(body.stmts, b) + gfv_tail(body.tail, bound_after(body.stmts, b))
}

/// Processing one more statement extends the free list and the bound set at
/// the end.
pub proof fn lemma_gfv_seq_snoc(q: Seq<GStmt>, x: GStmt, b: Set<usize>)
    ensures
        gfv_seq(q.push(x), b) == gfv_seq(q, b) + gfv_stmt_refs(
            x,
            bound_after(q, b).insert(gtarget(x)),
        ),
        bound_after(q.push(x), b) == bound_after(q, b).insert(gtarget(x)),
    decreases q.len(),
{
    if q.len() == 0 {
        assert(q.push(x).drop_first() =~= Seq::<GStmt>::empty());
        assert(q.push(x)[0] == x);
        assert(gfv_seq(Seq::<GStmt>::empty(), b.insert(gtarget(x))) =~= Seq::<usize>::empty());
        assert(bound_after(Seq::<GStmt>::empty(), b.insert(gtarget(x))) =~= b.insert(
            gtarget(x),
        ));
        assert(gfv_seq(q.push(x), b) =~= gfv_seq(q, b) + gfv_stmt_refs(
            x,
            bound_after(q, b).insert(gtarget(x)),
        ));
    } else {
        assert(q.push(x).drop_first() =~= q.drop_first().push(x));
        lemma_gfv_seq_snoc(q.drop_first(), x, b.insert(gtarget(q[0])));
        assert(gfv_seq(q.push(x), b) =~= gfv_seq(q, b) + gfv_stmt_refs(
            x,
            bound_after(q, b).insert(gtarget(x)),
        ));
        assert(bound_after(q.push(x), b) =~= bound_after(q, b).insert(gtarget(x)));
    }
}

/// Only function literals, calls and arithmetic: what the linearizer emits
/// and what closure conversion expects, with no record statements yet.
pub open spec fn gpre_cc_stmt(s: GStmt) -> bool
    decreases s,
{
    match s {
        GStmt::Fun(_, _, body) => gpre_cc_seq(body.stmts),
        GStmt::App(_, _, _) => true,
        GStmt::BOp(_, _, _, _) => true,
        GStmt::Tuple(_, _) => false,
        GStmt::Project(_, _, _) => false,
    }
}

pub open spec fn gpre_cc_seq(q: Seq<GStmt>) -> bool
    decreases q,
{
    if q.len() == 0 {
        true
    } else {
        gpre_cc_stmt(q[0]) && gpre_cc_seq(q.drop_first())
    }
}

/// Every statement of a well-formed list is well formed.
pub proof fn lemma_gpre_cc_index(q: Seq<GStmt>, i: int)
    requires
        gpre_cc_seq(q),
        0 <= i < q.len(),
    ensures
        gpre_cc_stmt(q[i]),
    decreases q.len(),
{
    if i > 0 {
        lemma_gpre_cc_index(q.drop_first(), i - 1);
        assert(q.drop_first()[i - 1] == q[i]);
    }
}

/// Reads the identity a variable carries; an unresolved one reads as zero.
fn var_id(v: &Variable) -> (r: usize)
    ensures
        r == vid(*v),
{
    match v.id {
        Some(i) => i,
        None => 0,
    }
}

/// Whether an identity is among those in force.
pub(crate) fn contains_id(v: &Vec<usize>, x: usize) -> (r: bool)
    ensures
        r == idset(v@).contains(x),
{
    let mut k: usize = 0;
    while k < v.len()
        invariant
            k <= v.len(),
            forall|j: int| 0 <= j < k ==> v@[j] != x,
        decreases v.len() - k,
    {
        if v[k] == x {
            proof {
                lemma_idset_contains(v@, x);
                assert(v@.contains(x));
            }
            return true;
        }
        k = k + 1;
    }
    proof {
        lemma_idset_contains(v@, x);
        assert(!v@.contains(x));
    }
    false
}

/// A plain copy of a list of identities.
fn clone_ids(v: &Vec<usize>) -> (r: Vec<usize>)
    ensures
        r@ == v@,
{
    let mut r: Vec<usize> = Vec::new();
    let mut k: usize = 0;
    while k < v.len()
        invariant
            k <= v.len(),
            r@ == v@.take(k as int),
        decreases v.len() - k,
    {
        r.push(v[k]);
        proof {
            assert(v@.take(k as int).push(v@[k as int]) =~= v@.take(k as int + 1));
        }
        k = k + 1;
    }
    proof {
        assert(v@.take(v@.len() as int) =~= v@);
    }
    r
}

/// Appends the variable under an operand to `free` when it is not in force.
fn push_val_if_free(v: &Value, bound: &Vec<usize>, free: &mut Vec<Variable>)
    ensures
        args_view(final(free)@) == args_view(old(free)@) + gfv_val(
            value_view(*v),
            idset(bound@),
        ),
{
    let ghost pre = free@;
    match v {
        Value::Var(x) => {
            if !contains_id(bound, var_id(x)) {
                free.push(x.clone());
                proof {
                    lemma_args_view_concat(pre, seq![*x]);
                    assert(pre.push(*x) =~= pre + seq![*x]);
                    assert(args_view(seq![*x]) =~= seq![vid(*x)]);
                }
            }
        }
        _ => {}
    }
    proof {
        assert(args_view(free@) =~= args_view(pre) + gfv_val(value_view(*v), idset(bound@)));
    }
}

/// Appends every free variable among a list of operands, in order.
fn push_vals_free(vs: &Vec<Value>, bound: &Vec<usize>, free: &mut Vec<Variable>)
    ensures
        args_view(final(free)@) == args_view(old(free)@) + gfv_vals(
            values_view(vs@),
            idset(bound@),
        ),
{
    let ghost gvs = values_view(vs@);
    let mut k: usize = 0;
    proof {
        assert(gvs.take(0) =~= Seq::<GValue>::empty());
        assert(args_view(free@) =~= args_view(old(free)@) + gfv_vals(
            gvs.take(0),
            idset(bound@),
        ));
    }
    while k < vs.len()
        invariant
            k <= vs.len(),
            gvs == values_view(vs@),
            gvs.len() == vs@.len(),
            args_view(free@) == args_view(old(free)@) + gfv_vals(
                gvs.take(k as int),
                idset(bound@),
            ),
        decreases vs.len() - k,
    {
        proof {
            assert(gvs[k as int] == value_view(vs@[k as int]));
            assert(gvs.take(k as int + 1) =~= gvs.take(k as int).push(gvs[k as int]));
            lemma_gfv_vals_snoc(gvs.take(k as int), gvs[k as int], idset(bound@));
        }
        push_val_if_free(&vs[k], bound, free);
        k = k + 1;
    }
    proof {
        assert(gvs.take(vs@.len() as int) =~= gvs);
    }
}

impl ANFs {
    /// Every reading of a variable that neither `bound_vars` nor an earlier
    /// binding of the body itself accounts for, one entry per occurrence;
    /// `bound_vars` also receives the body's own top-level bindings.
    fn free_occurrences(&self, bound_vars: &mut Vec<usize>) -> (r: Vec<Variable>)
        requires
            gpre_cc_seq(stmts_view(self.anfs@)),
        ensures
            args_view(r@) == gfv_body(body_view(*self), idset(old(bound_vars)@)),
            idset(final(bound_vars)@) == bound_after(
                stmts_view(self.anfs@),
                idset(old(bound_vars)@),
            ),
        decreases *self,
    {
        let ghost gq = stmts_view(self.anfs@);
        let ghost b0 = idset(old(bound_vars)@);
        proof {
            lemma_stmts_view_len(self.anfs@);
        }
        let mut free: Vec<Variable> = Vec::new();
        let mut i: usize = 0;
        proof {
            assert(gq.take(0) =~= Seq::<GStmt>::empty());
            assert(args_view(free@) =~= gfv_seq(gq.take(0), b0));
        }
        while i < self.anfs.len()
            invariant
                i <= self.anfs.len(),
                gpre_cc_seq(gq),
                gq == stmts_view(self.anfs@),
                b0 == idset(old(bound_vars)@),
                gq.len() == self.anfs@.len(),
                forall|j: int|
                    0 <= j < self.anfs@.len() ==> gq[j] == stmt_view(
                        #[trigger] self.anfs@[j],
                    ),
                args_view(free@) == gfv_seq(gq.take(i as int), b0),
                idset(bound_vars@) == bound_after(gq.take(i as int), b0),
            decreases self.anfs.len() - i,
        {
            let ghost prefix = gq.take(i as int);
            let ghost gs = gq[i as int];
            let ghost b_here = bound_after(prefix, b0).insert(gtarget(gs));
            proof {
                assert(gq.take(i as int + 1) =~= prefix.push(gs));
                lemma_gfv_seq_snoc(prefix, gs, b0);
                lemma_gpre_cc_index(gq, i as int);
            }
            match &self.anfs[i] {
                ANF::Fun(var, args, body) => {
                    let ghost pre_bound = bound_vars@;
                    bound_vars.push(var_id(var));
                    proof {
                        lemma_idset_push(pre_bound, vid(*var));
                    }
                    let mut inner = clone_ids(bound_vars);
                    let ghost gargs = args_view(args@);
                    let mut k: usize = 0;
                    proof {
                        assert(gargs.take(0) =~= Seq::<usize>::empty());
                        assert(idset(inner@) =~= b_here.union(idset(gargs.take(0))));
                    }
                    while k < args.len()
                        invariant
                            k <= args.len(),
                            gargs == args_view(args@),
                            gargs.len() == args@.len(),
                            idset(inner@) == b_here.union(idset(gargs.take(k as int))),
                        decreases args.len() - k,
                    {
                        let ghost pre_inner = inner@;
                        inner.push(var_id(&args[k]));
                        proof {
                            assert(gargs[k as int] == vid(args@[k as int]));
                            lemma_idset_push(pre_inner, vid(args@[k as int]));
                            assert(gargs.take(k as int + 1) =~= gargs.take(k as int).push(
                                gargs[k as int],
                            ));
                            lemma_idset_push(gargs.take(k as int), gargs[k as int]);
                            assert(idset(inner@) =~= b_here.union(idset(gargs.take(
                                k as int + 1,
                            ))));
                        }
                        k = k + 1;
                    }
                    proof {
                        assert(gargs.take(args@.len() as int) =~= gargs);
                        assert(decreases_to!(*self => *body));
                    }
                    let mut sub = body.free_occurrences(&mut inner);
                    let ghost pre_free = free@;
                    free.append(&mut sub);
                    proof {
                        lemma_args_view_concat(pre_free, sub@);
                        assert(args_view(free@) =~= gfv_seq(gq.take(i as int + 1), b0));
                    }
                }
                ANF::App(var, func, args) => {
                    let ghost pre_bound = bound_vars@;
                    bound_vars.push(var_id(var));
                    proof {
                        lemma_idset_push(pre_bound, vid(*var));
                    }
                    let ghost pre_free = free@;
                    if !contains_id(bound_vars, var_id(func)) {
                        free.push(func.clone());
                        proof {
                            lemma_args_view_concat(pre_free, seq![*func]);
                            assert(pre_free.push(*func) =~= pre_free + seq![*func]);
                            assert(args_view(seq![*func]) =~= seq![vid(*func)]);
                        }
                    }
                    let ghost mid_free = free@;
                    push_vals_free(args, bound_vars, &mut free);
                    proof {
                        assert(args_view(free@) =~= gfv_seq(gq.take(i as int + 1), b0));
                    }
                }
                ANF::BOp(var, _, v1, v2) => {
                    let ghost pre_bound = bound_vars@;
                    bound_vars.push(var_id(var));
                    proof {
                        lemma_idset_push(pre_bound, vid(*var));
                    }
                    push_val_if_free(v1, bound_vars, &mut free);
                    push_val_if_free(v2, bound_vars, &mut free);
                    proof {
                        assert(args_view(free@) =~= gfv_seq(gq.take(i as int + 1), b0));
                    }
                }
                _ => {
                    proof {
                        assert(false);
                    }
                }
            }
            i = i + 1;
        }
        proof {
            assert(gq.take(self.anfs@.len() as int) =~= gq);
        }
        match &self.value {
            Some(v) => {
                push_val_if_free(v, bound_vars, &mut free);
            }
            None => {}
        }
        free
    }

    /// The variables the body reads that neither `bound_vars` nor an earlier
    /// binding of the body itself accounts for, in first-occurrence order
    /// with repeats dropped: the positions of this list fix the closure
    /// record's layout and the projection indices, so each captured identity
    /// appears exactly once and is bound exactly once. `bound_vars` also
    /// receives the body's own top-level bindings.
    fn free_vars(&self, bound_vars: &mut Vec<usize>) -> (r: Vec<Variable>)
        requires
            gpre_cc_seq(stmts_view(self.anfs@)),
        ensures
            args_view(r@) == dedup_first(
                gfv_body(body_view(*self), idset(old(bound_vars)@)),
            ),
            idset(final(bound_vars)@) == bound_after(
                stmts_view(self.anfs@),
                idset(old(bound_vars)@),
            ),
    {
        let occ = self.free_occurrences(bound_vars);
        let ghost gocc = args_view(occ@);
        let mut out: Vec<Variable> = Vec::new();
        let mut outids: Vec<usize> = Vec::new();
        let mut i: usize = 0;
        proof {
            assert(gocc.take(0) =~= Seq::<usize>::empty());
            assert(dedup_ids(Seq::<usize>::empty(), Set::<usize>::empty()) =~= Seq::<
                usize,
            >::empty());
            assert(idset(Seq::<usize>::empty()) =~= Set::<usize>::empty());
            assert(args_view(out@) =~= dedup_ids(gocc.take(0), Set::empty()));
            assert(idset(outids@) =~= idset(gocc.take(0)));
        }
        while i < occ.len()
            invariant
                i <= occ.len(),
                gocc == args_view(occ@),
                gocc.len() == occ@.len(),
                args_view(out@) == dedup_ids(gocc.take(i as int), Set::empty()),
                idset(outids@) == idset(gocc.take(i as int)),
            decreases occ.len() - i,
        {
            let id = var_id(&occ[i]);
            proof {
                assert(gocc[i as int] == vid(occ@[i as int]));
                assert(gocc.take(i as int).push(gocc[i as int]) =~= gocc.take(i as int + 1));
                lemma_dedup_snoc(gocc.take(i as int), gocc[i as int], Set::empty());
                lemma_idset_push(gocc.take(i as int), gocc[i as int]);
                assert(Set::<usize>::empty().union(idset(gocc.take(i as int))) =~= idset(
                    gocc.take(i as int),
                ));
            }
            if !contains_id(&outids, id) {
                let ghost pre_out = out@;
                out.push(occ[i].clone());
                let ghost pre_ids = outids@;
                outids.push(id);
                proof {
                    lemma_args_view_concat(pre_out, seq![occ@[i as int]]);
                    assert(pre_out.push(occ@[i as int]) =~= pre_out + seq![occ@[i as int]]);
                    assert(args_view(seq![occ@[i as int]]) =~= seq![vid(occ@[i as int])]);
                    lemma_idset_push(pre_ids, id);
                    assert(args_view(out@) =~= dedup_ids(gocc.take(i as int + 1), Set::empty()));
                    assert(idset(outids@) =~= idset(gocc.take(i as int + 1)));
                }
            } else {
                proof {
                    assert(args_view(out@) =~= dedup_ids(gocc.take(i as int + 1), Set::empty()));
                    assert(idset(outids@) =~= idset(gocc.take(i as int + 1)));
                }
            }
            i = i + 1;
        }
        proof {
            assert(gocc.take(occ@.len() as int) =~= gocc);
        }
        out
    }
}


/// The statement budget of a list: how many fresh names closure conversion
/// could need, and the measure its recursion shrinks.
pub open spec fn gsize_stmt(s: GStmt) -> nat
    decreases s,
{
    match s {
        GStmt::Fun(_, _, body) => 2 + gsize_seq(body.stmts),
        _ => 1,
    }
}

pub open spec fn gsize_seq(q: Seq<GStmt>) -> nat
    decreases q,
{
    if q.len() == 0 {
        0
    } else {
        gsize_stmt(q[0]) + gsize_seq(q.drop_first())
    }
}

/// What closure conversion emits for a statement list, as a function of the
/// fresh-name counter: for each function literal, a lifted closed function
/// (its free variables re-bound by projections from a fresh environment
/// parameter) and the closure record that replaces it; for each call, a
/// code-pointer projection and the rewritten call; everything else as it
/// was.
pub open spec fn cc_seq_model(q: Seq<GStmt>, c: nat) -> (Seq<GStmt>, nat)
    decreases q,
{
    if q.len() == 0 {
        (Seq::empty(), c)
    } else {
        match q[0] {
            GStmt::Fun(name, args, body) => {
                let env = c as usize;
                let newfun = (c + 1) as usize;
                let fv = dedup_first(gfv_body(body, idset(args)));
                let inner = cc_seq_model(body.stmts, c + 2);
                let n = fv.len();
                let projs = Seq::new(
                    n,
                    |j: int| GStmt::Project(fv[n - 1 - j], env, (n - j) as usize),
                );
                let funstmt = GStmt::Fun(
                    newfun,
                    seq![env] + args,
                    GBody { stmts: projs + inner.0, tail: body.tail, level: body.level },
                );
                let tuple = GStmt::Tuple(
                    name,
                    seq![GValue::Global(newfun)] + fv.map_values(|i: usize| GValue::Local(i)),
                );
                let rest = cc_seq_model(q.drop_first(), inner.1);
                (seq![funstmt, tuple] + rest.0, rest.1)
            }
            GStmt::App(res, f, vs) => {
                let ptr = c as usize;
                let rest = cc_seq_model(q.drop_first(), c + 1);
                (
                    seq![
                        GStmt::Project(ptr, f, 0),
                        GStmt::App(res, ptr, seq![GValue::Local(f)] + vs),
                    ] + rest.0,
                    rest.1,
                )
            }
            _ => {
                let rest = cc_seq_model(q.drop_first(), c);
                (seq![q[0]] + rest.0, rest.1)
            }
        }
    }
}

/// Closure conversion of a body: its statements converted, tail and level
/// untouched.
pub open spec fn cc_body_model(body: GBody, c: nat) -> (GBody, nat) {
    let inner = cc_seq_model(body.stmts, c);
    (GBody { stmts: inner.0, tail: body.tail, level: body.level }, inner.1)
}

/// Closure conversion consumes at most the statement budget in fresh names.
pub proof fn lemma_cc_model_counter(q: Seq<GStmt>, c: nat)
    ensures
        c <= cc_seq_model(q, c).1 <= c + gsize_seq(q),
    decreases q,
{
    if q.len() > 0 {
        assert(gsize_seq(q) == gsize_stmt(q[0]) + gsize_seq(q.drop_first()));
        match q[0] {
            GStmt::Fun(_, _, body) => {
                assert(gsize_stmt(q[0]) == 2 + gsize_seq(body.stmts));
                lemma_cc_model_counter(body.stmts, c + 2);
                lemma_cc_model_counter(q.drop_first(), cc_seq_model(body.stmts, c + 2).1);
            }
            GStmt::App(_, _, _) => {
                assert(gsize_stmt(q[0]) == 1);
                lemma_cc_model_counter(q.drop_first(), c + 1);
            }
            _ => {
                assert(gsize_stmt(q[0]) >= 1);
                lemma_cc_model_counter(q.drop_first(), c);
            }
        }
    }
}

/// The view of a singleton list.
proof fn lemma_stmts_view_one(a: ANF)
    ensures
        stmts_view(seq![a]) == seq![stmt_view(a)],
{
    assert(seq![a][0] == a);
    assert(seq![a].drop_first() =~= Seq::<ANF>::empty());
    assert(stmts_view(Seq::<ANF>::empty()) =~= Seq::<GStmt>::empty());
    assert(stmts_view(seq![a]) =~= seq![stmt_view(a)]);
}

/// The view of a two-statement list.
proof fn lemma_stmts_view_two(a: ANF, b: ANF)
    ensures
        stmts_view(seq![a, b]) == seq![stmt_view(a), stmt_view(b)],
{
    lemma_stmts_view_one(b);
    assert(seq![a, b][0] == a);
    assert(seq![a, b].drop_first() =~= seq![b]);
    assert(stmts_view(seq![a, b]) =~= seq![stmt_view(a), stmt_view(b)]);
}

/// One unfolding of the model on a statement it passes through unchanged.
proof fn lemma_cc_step_other(q: Seq<GStmt>, c: nat)
    requires
        q.len() > 0,
        !(q[0] is Fun),
        !(q[0] is App),
    ensures
        cc_seq_model(q, c).0 == seq![q[0]] + cc_seq_model(q.drop_first(), c).0,
        cc_seq_model(q, c).1 == cc_seq_model(q.drop_first(), c).1,
{
}

/// One unfolding of the model on a call.
proof fn lemma_cc_step_app(q: Seq<GStmt>, c: nat)
    requires
        q.len() > 0,
        q[0] is App,
    ensures
        cc_seq_model(q, c).0 == seq![
            GStmt::Project(c as usize, q[0]->App_1, 0),
            GStmt::App(q[0]->App_0, c as usize, seq![GValue::Local(q[0]->App_1)] + q[0]->App_2),
        ] + cc_seq_model(q.drop_first(), c + 1).0,
        cc_seq_model(q, c).1 == cc_seq_model(q.drop_first(), c + 1).1,
{
}

/// One unfolding of the model on a function literal.
proof fn lemma_cc_step_fun(q: Seq<GStmt>, c: nat)
    requires
        q.len() > 0,
        q[0] is Fun,
    ensures
        ({
            let body = q[0]->Fun_2;
            let args = q[0]->Fun_1;
            let fv = dedup_first(gfv_body(body, idset(args)));
            let inner = cc_seq_model(body.stmts, c + 2);
            let n = fv.len();
            &&& cc_seq_model(q, c).0 == seq![
                GStmt::Fun(
                    (c + 1) as usize,
                    seq![c as usize] + args,
                    GBody {
                        stmts: Seq::new(
                            n,
                            |j: int| GStmt::Project(fv[n - 1 - j], c as usize, (n - j)
                                as usize),
                        ) + inner.0,
                        tail: body.tail,
                        level: body.level,
                    },
                ),
                GStmt::Tuple(
                    q[0]->Fun_0,
                    seq![GValue::Global((c + 1) as usize)] + fv.map_values(
                        |i: usize| GValue::Local(i),
                    ),
                ),
            ] + cc_seq_model(q.drop_first(), inner.1).0
            &&& cc_seq_model(q, c).1 == cc_seq_model(q.drop_first(), inner.1).1
        }),
{
    let body = q[0]->Fun_2;
    let args = q[0]->Fun_1;
    let fv = dedup_first(gfv_body(body, idset(args)));
    let inner = cc_seq_model(body.stmts, c + 2);
    let n = fv.len();
    assert(Seq::new(n, |j: int| GStmt::Project(fv[n - 1 - j], c as usize, (n - j) as usize))
        =~= Seq::new(n, |j: int| GStmt::Project(fv[n - 1 - j], c as usize, (n - j) as usize)));
    assert(cc_seq_model(q, c).0 =~~= seq![
        GStmt::Fun(
            (c + 1) as usize,
            seq![c as usize] + args,
            GBody {
                stmts: Seq::new(
                    n,
                    |j: int| GStmt::Project(fv[n - 1 - j], c as usize, (n - j) as usize),
                ) + inner.0,
                tail: body.tail,
                level: body.level,
            },
        ),
        GStmt::Tuple(
            q[0]->Fun_0,
            seq![GValue::Global((c + 1) as usize)] + fv.map_values(|i: usize| GValue::Local(i)),
        ),
    ] + cc_seq_model(q.drop_first(), inner.1).0);
}

/// Viewing a statement list commutes with concatenation.
pub proof fn lemma_stmts_view_concat(a: Seq<ANF>, b: Seq<ANF>)
    ensures
        stmts_view(a + b) == stmts_view(a) + stmts_view(b),
    decreases a.len(),
{
    if a.len() == 0 {
        assert(a + b =~= b);
        assert(stmts_view(a) =~= Seq::<GStmt>::empty());
        assert(stmts_view(a + b) =~= stmts_view(a) + stmts_view(b));
    } else {
        assert((a + b).drop_first() =~= a.drop_first() + b);
        assert((a + b)[0] == a[0]);
        lemma_stmts_view_concat(a.drop_first(), b);
        assert(stmts_view(a + b) =~= stmts_view(a) + stmts_view(b));
    }
}

impl ANFConverter {
    /// Closure-converts one statement list, threading the fresh-name counter
    /// exactly as [`cc_seq_model`] describes.
    #[verifier::rlimit(100)]
    #[verifier::spinoff_prover]
    fn cc_stmts(&mut self, stmts: Vec<ANF>) -> (r: Vec<ANF>)
        requires
            gpre_cc_seq(stmts_view(stmts@)),
            old(self).next_var + gsize_seq(stmts_view(stmts@)) <= usize::MAX,
        ensures
            ({
                let m = cc_seq_model(stmts_view(stmts@), old(self).next_var as nat);
                stmts_view(r@) == m.0 && final(self).next_var as nat == m.1
            }),
        decreases gsize_seq(stmts_view(stmts@)),
    {
        let ghost gq = stmts_view(stmts@);
        proof {
            lemma_stmts_view_len(stmts@);
        }
        let mut stmts = stmts;
        if stmts.len() == 0 {
            let r: Vec<ANF> = Vec::new();
            proof {
                assert(stmts_view(r@) =~= cc_seq_model(gq, old(self).next_var as nat).0);
            }
            return r;
        }
        let ghost q_full = stmts@;
        let s = stmts.remove(0);
        proof {
            assert(stmts@ =~= q_full.drop_first());
            assert(stmts_view(stmts@) =~= gq.drop_first());
            assert(stmt_view(s) == gq[0]);
            lemma_gpre_cc_index(gq, 0);
        }
        let ghost c0 = self.next_var as nat;
        match s {
            ANF::Fun(var, args, funbody) => {
                let ghost gbody = body_view(funbody);
                let ghost gargs = args_view(args@);
                proof {
                    assert(gq[0] is Fun);
                    assert(gq[0]->Fun_0 == vid(var));
                    assert(gq[0]->Fun_1 == gargs);
                    assert(gq[0]->Fun_2 == gbody);
                    assert(gsize_seq(gq) == gsize_stmt(gq[0]) + gsize_seq(gq.drop_first()));
                    assert(gsize_stmt(gq[0]) == 2 + gsize_seq(gbody.stmts));
                }
                let env_var = self.fresh_var("env");
                let new_funname = self.fresh_var(var.name.as_str());
                let mut seed: Vec<usize> = Vec::new();
                let mut k: usize = 0;
                proof {
                    assert(seed@ =~= gargs.take(0));
                }
                while k < args.len()
                    invariant
                        k <= args.len(),
                        gargs == args_view(args@),
                        gargs.len() == args@.len(),
                        seed@ == gargs.take(k as int),
                    decreases args.len() - k,
                {
                    seed.push(var_id(&args[k]));
                    proof {
                        assert(gargs[k as int] == vid(args@[k as int]));
                        assert(gargs.take(k as int).push(gargs[k as int]) =~= gargs.take(
                            k as int + 1,
                        ));
                    }
                    k = k + 1;
                }
                proof {
                    assert(gargs.take(args@.len() as int) =~= gargs);
                }
                let free_list = funbody.free_vars(&mut seed);
                let ghost gfv = args_view(free_list@);
                proof {
                    lemma_cc_model_counter(gbody.stmts, c0 + 2);
                    assert(stmts_view(funbody.anfs@) == gbody.stmts);
                    assert(gsize_seq(gbody.stmts) + 1 < gsize_seq(gq));
                    assert(self.next_var + gsize_seq(gbody.stmts) <= usize::MAX);
                }
                let ccbody = self.closure_conversion(funbody);
                let mut newbody_stmts: Vec<ANF> = Vec::new();
                let n = free_list.len();
                let ghost envid = vid(env_var);
                let mut k2: usize = 0;
                proof {
                    assert(stmts_view(newbody_stmts@) =~= Seq::new(
                        0nat,
                        |j: int| GStmt::Project(gfv[n - 1 - j], envid, (n - j) as usize),
                    ));
                }
                while k2 < n
                    invariant
                        k2 <= n,
                        n == free_list@.len(),
                        gfv == args_view(free_list@),
                        gfv.len() == n,
                        envid == vid(env_var),
                        stmts_view(newbody_stmts@) == Seq::new(
                            k2 as nat,
                            |j: int| GStmt::Project(gfv[n - 1 - j], envid, (n - j) as usize),
                        ),
                    decreases n - k2,
                {
                    let ghost pre = newbody_stmts@;
                    let stmt = ANF::Project(
                        free_list[n - 1 - k2].clone(),
                        env_var.clone(),
                        n - k2,
                    );
                    let ghost gstmt = stmt;
                    newbody_stmts.push(stmt);
                    proof {
                        lemma_stmts_view_push(pre, gstmt);
                        assert(gfv[n - 1 - k2] == vid(free_list@[n - 1 - k2]));
                        assert(stmt_view(gstmt) == GStmt::Project(
                            gfv[n - 1 - k2],
                            envid,
                            (n - k2) as usize,
                        ));
                        assert(stmts_view(newbody_stmts@) =~= Seq::new(
                            (k2 + 1) as nat,
                            |j: int| GStmt::Project(gfv[n - 1 - j], envid, (n - j) as usize),
                        ));
                    }
                    k2 = k2 + 1;
                }
                let mut ccb = ccbody;
                let ghost projseq = newbody_stmts@;
                let ghost ccbseq = ccb.anfs@;
                newbody_stmts.append(&mut ccb.anfs);
                proof {
                    lemma_stmts_view_concat(projseq, ccbseq);
                }
                let newbody = ANFs { anfs: newbody_stmts, value: ccb.value, level: ccb.level };
                let mut new_args = args;
                new_args.insert(0, env_var);
                proof {
                    assert(args_view(new_args@) =~= seq![envid] + gargs);
                }
                let funstmt = ANF::Fun(new_funname.clone(), new_args, newbody);
                let ghost gfunstmt = funstmt;
                let ghost newfunid = vid(new_funname);
                let mut closure_vals: Vec<Value> = Vec::new();
                closure_vals.push(Value::Global(new_funname));
                let mut k3: usize = 0;
                proof {
                    assert(values_view(closure_vals@) =~= seq![GValue::Global(newfunid)]
                        + Seq::new(0nat, |j: int| GValue::Local(gfv[j])));
                }
                while k3 < n
                    invariant
                        k3 <= n,
                        n == free_list@.len(),
                        gfv == args_view(free_list@),
                        gfv.len() == n,
                        values_view(closure_vals@) == seq![GValue::Global(newfunid)]
                            + Seq::new(k3 as nat, |j: int| GValue::Local(gfv[j])),
                    decreases n - k3,
                {
                    let ghost prev = closure_vals@;
                    closure_vals.push(Value::Var(free_list[k3].clone()));
                    proof {
                        assert(gfv[k3 as int] == vid(free_list@[k3 as int]));
                        assert(closure_vals@ == prev.push(Value::Var(free_list@[k3 as int])));
                        assert(values_view(closure_vals@) =~= values_view(prev).push(
                            GValue::Local(gfv[k3 as int]),
                        ));
                        assert(values_view(closure_vals@) =~= seq![GValue::Global(newfunid)]
                            + Seq::new((k3 + 1) as nat, |j: int| GValue::Local(gfv[j])));
                    }
                    k3 = k3 + 1;
                }
                let tuplestmt = ANF::Tuple(var, closure_vals);
                let ghost gtuplestmt = tuplestmt;
                proof {
                    assert(gsize_seq(gq.drop_first()) < gsize_seq(gq));
                    assert(self.next_var + gsize_seq(stmts_view(stmts@)) <= usize::MAX);
                }
                let mut rest = self.cc_stmts(stmts);
                let ghost grest = rest@;
                let mut out: Vec<ANF> = Vec::new();
                out.push(funstmt);
                out.push(tuplestmt);
                out.append(&mut rest);
                proof {
                    lemma_cc_step_fun(gq, c0);
                    let fv = dedup_first(gfv_body(gbody, idset(gargs)));
                    let inner = cc_seq_model(gbody.stmts, c0 + 2);
                    let nn = fv.len();
                    assert(gfv == fv);
                    assert(nn == n);
                    // the lifted function matches the model's
                    assert(stmts_view(gfunstmt->Fun_2.anfs@) =~= Seq::new(
                        n as nat,
                        |j: int| GStmt::Project(gfv[n - 1 - j], envid, (n - j) as usize),
                    ) + inner.0);
                    assert(Seq::new(
                        n as nat,
                        |j: int| GStmt::Project(gfv[n - 1 - j], envid, (n - j) as usize),
                    ) =~= Seq::new(nn, |j: int| GStmt::Project(fv[nn - 1 - j], c0 as usize, (nn
                        - j) as usize)));
                    assert(body_view(gfunstmt->Fun_2) =~= GBody {
                        stmts: Seq::new(
                            nn,
                            |j: int| GStmt::Project(fv[nn - 1 - j], c0 as usize, (nn - j)
                                as usize),
                        ) + inner.0,
                        tail: gbody.tail,
                        level: gbody.level,
                    });
                    assert(stmt_view(gfunstmt) =~= GStmt::Fun(
                        (c0 + 1) as usize,
                        seq![c0 as usize] + gargs,
                        body_view(gfunstmt->Fun_2),
                    ));
                    // the closure record matches the model's
                    assert(Seq::new(nn, |j: int| GValue::Local(gfv[j])) =~= fv.map_values(
                        |i: usize| GValue::Local(i),
                    ));
                    assert(stmt_view(gtuplestmt) =~= GStmt::Tuple(
                        vid(var),
                        seq![GValue::Global((c0 + 1) as usize)] + fv.map_values(
                            |i: usize| GValue::Local(i),
                        ),
                    ));
                    // assemble
                    assert(out@ =~= seq![gfunstmt, gtuplestmt] + grest);
                    lemma_stmts_view_concat(seq![gfunstmt, gtuplestmt], grest);
                    lemma_stmts_view_two(gfunstmt, gtuplestmt);
                    assert(stmts_view(grest) == cc_seq_model(gq.drop_first(), inner.1).0);
                    assert(stmts_view(out@) =~~= cc_seq_model(gq, c0).0);
                }
                out
            }
            ANF::App(var, func_var, args) => {
                proof {
                    assert(gq[0] is App);
                    assert(gsize_seq(gq) == gsize_stmt(gq[0]) + gsize_seq(gq.drop_first()));
                    assert(gsize_stmt(gq[0]) == 1);
                }
                let ptr = self.fresh_var(func_var.name.as_str());
                let ghost gargs_vals = values_view(args@);
                let proj = ANF::Project(ptr.clone(), func_var.clone(), 0);
                let ghost gproj = proj;
                let mut new_args = args;
                new_args.insert(0, Value::Var(func_var));
                let app = ANF::App(var, ptr, new_args);
                let ghost gapp = app;
                proof {
                    assert(gsize_seq(gq.drop_first()) < gsize_seq(gq));
                    assert(self.next_var + gsize_seq(stmts_view(stmts@)) <= usize::MAX);
                }
                let mut rest = self.cc_stmts(stmts);
                let ghost grest = rest@;
                let mut out: Vec<ANF> = Vec::new();
                out.push(proj);
                out.push(app);
                out.append(&mut rest);
                proof {
                    lemma_cc_step_app(gq, c0);
                    assert(values_view(gapp->App_2@) =~= seq![GValue::Local(gq[0]->App_1)]
                        + gq[0]->App_2);
                    assert(stmt_view(gproj) =~= GStmt::Project(c0 as usize, gq[0]->App_1, 0));
                    assert(stmt_view(gapp) =~= GStmt::App(
                        gq[0]->App_0,
                        c0 as usize,
                        seq![GValue::Local(gq[0]->App_1)] + gq[0]->App_2,
                    ));
                    assert(out@ =~= seq![gproj, gapp] + grest);
                    lemma_stmts_view_concat(seq![gproj, gapp], grest);
                    lemma_stmts_view_two(gproj, gapp);
                    assert(stmts_view(grest) == cc_seq_model(gq.drop_first(), c0 + 1).0);
                    assert(stmts_view(out@) =~= seq![
                        GStmt::Project(c0 as usize, gq[0]->App_1, 0),
                        GStmt::App(gq[0]->App_0, c0 as usize, seq![GValue::Local(gq[0]->App_1)]
                            + gq[0]->App_2),
                    ] + cc_seq_model(gq.drop_first(), c0 + 1).0);
                }
                out
            }
            ANF::BOp(var, op, v1, v2) => {
                proof {
                    assert(gq[0] is BOp);
                    assert(gsize_seq(gq) == gsize_stmt(gq[0]) + gsize_seq(gq.drop_first()));
                    assert(gsize_stmt(gq[0]) == 1);
                    assert(gsize_seq(gq.drop_first()) < gsize_seq(gq));
                }
                let kept = ANF::BOp(var, op, v1, v2);
                let ghost gkept = kept;
                let mut rest = self.cc_stmts(stmts);
                let ghost grest = rest@;
                let mut out: Vec<ANF> = Vec::new();
                out.push(kept);
                out.append(&mut rest);
                proof {
                    lemma_cc_step_other(gq, c0);
                    assert(stmt_view(gkept) == gq[0]);
                    assert(out@ =~= seq![gkept] + grest);
                    lemma_stmts_view_concat(seq![gkept], grest);
                    lemma_stmts_view_one(gkept);
                    assert(stmts_view(grest) == cc_seq_model(gq.drop_first(), c0).0);
                    assert(stmts_view(out@) =~= seq![gq[0]] + cc_seq_model(
                        gq.drop_first(),
                        c0,
                    ).0);
                }
                out
            }
            _ => unreached(),
        }
    }

    /// Rewrites every function literal of the sequence, and of every nested
    /// body, into a closed lifted function plus an explicit closure record,
    /// and every call into a code-pointer projection followed by a call that
    /// passes the closure record first.
    pub fn closure_conversion(&mut self, anfs: ANFs) -> (r: ANFs)
        requires
            gpre_cc_seq(stmts_view(anfs.anfs@)),
            old(self).next_var + gsize_seq(stmts_view(anfs.anfs@)) <= usize::MAX,
        ensures
            ({
                let m = cc_body_model(body_view(anfs), old(self).next_var as nat);
                body_view(r) == m.0 && final(self).next_var as nat == m.1
            }),
        decreases gsize_seq(stmts_view(anfs.anfs@)) + 1,
    {
        let ANFs { anfs: stmts, value, level } = anfs;
        let new_stmts = self.cc_stmts(stmts);
        let r = ANFs { anfs: new_stmts, value, level };
        proof {
            assert(body_view(r) =~= cc_body_model(body_view(anfs), old(self).next_var as nat).0);
        }
        r
    }
}


/// Ghost view of one hoisted function definition.
pub open spec fn def_view(d: (Variable, Vec<Variable>, ANFs)) -> (usize, Seq<usize>, GBody) {
    (vid(d.0), args_view(d.1@), body_view(d.2))
}

pub open spec fn defs_view(q: Seq<(Variable, Vec<Variable>, ANFs)>) -> Seq<
    (usize, Seq<usize>, GBody),
>
    decreases q,
{
    if q.len() == 0 {
        Seq::empty()
    } else {
        seq![def_view(q[0])] + defs_view(q.drop_first())
    }
}

/// Viewing a definition list commutes with appending one definition.
pub proof fn lemma_defs_view_push(q: Seq<(Variable, Vec<Variable>, ANFs)>, x: (
    Variable,
    Vec<Variable>,
    ANFs,
))
    ensures
        defs_view(q.push(x)) == defs_view(q) + seq![def_view(x)],
    decreases q.len(),
{
    if q.len() == 0 {
        assert(q.push(x).drop_first() =~= Seq::<(Variable, Vec<Variable>, ANFs)>::empty());
        assert(q.push(x)[0] == x);
        assert(defs_view(Seq::<(Variable, Vec<Variable>, ANFs)>::empty()) =~= Seq::<
            (usize, Seq<usize>, GBody),
        >::empty());
        assert(defs_view(q.push(x)) =~= defs_view(q) + seq![def_view(x)]);
    } else {
        assert(q.push(x).drop_first() =~= q.drop_first().push(x));
        lemma_defs_view_push(q.drop_first(), x);
        assert(defs_view(q.push(x)) =~= defs_view(q) + seq![def_view(x)]);
    }
}

/// Viewing a definition list commutes with concatenation.
pub proof fn lemma_defs_view_concat(
    a: Seq<(Variable, Vec<Variable>, ANFs)>,
    b: Seq<(Variable, Vec<Variable>, ANFs)>,
)
    ensures
        defs_view(a + b) == defs_view(a) + defs_view(b),
    decreases a.len(),
{
    if a.len() == 0 {
        assert(a + b =~= b);
        assert(defs_view(a) =~= Seq::<(usize, Seq<usize>, GBody)>::empty());
        assert(defs_view(a + b) =~= defs_view(a) + defs_view(b));
    } else {
        assert((a + b).drop_first() =~= a.drop_first() + b);
        assert((a + b)[0] == a[0]);
        lemma_defs_view_concat(a.drop_first(), b);
        assert(defs_view(a + b) =~= defs_view(a) + defs_view(b));
    }
}

/// What hoisting collects from a statement list: the flat definitions, in
/// innermost-first encounter order with each body stripped of its function
/// literals and renumbered to depth one, and the statements that stay.
pub open spec fn hoist_seq_model(q: Seq<GStmt>) -> (Seq<(usize, Seq<usize>, GBody)>, Seq<GStmt>)
    decreases q,
{
    if q.len() == 0 {
        (Seq::empty(), Seq::empty())
    } else {
        match q[0] {
            GStmt::Fun(t, args, body) => {
                let inner = hoist_seq_model(body.stmts);
                let rest = hoist_seq_model(q.drop_first());
                (
                    inner.0 + seq![
                        (t, args, GBody { stmts: inner.1, tail: body.tail, level: 1 }),
                    ] + rest.0,
                    rest.1,
                )
            }
            _ => {
                let rest = hoist_seq_model(q.drop_first());
                (rest.0, seq![q[0]] + rest.1)
            }
        }
    }
}

/// One unfolding of the hoisting model on a function literal.
proof fn lemma_hoist_step_fun(q: Seq<GStmt>)
    requires
        q.len() > 0,
        q[0] is Fun,
    ensures
        ({
            let inner = hoist_seq_model(q[0]->Fun_2.stmts);
            let rest = hoist_seq_model(q.drop_first());
            &&& hoist_seq_model(q).0 == inner.0 + seq![
                (
                    q[0]->Fun_0,
                    q[0]->Fun_1,
                    GBody { stmts: inner.1, tail: q[0]->Fun_2.tail, level: 1 },
                ),
            ] + rest.0
            &&& hoist_seq_model(q).1 == rest.1
        }),
{
}

/// One unfolding of the hoisting model on any other statement.
proof fn lemma_hoist_step_other(q: Seq<GStmt>)
    requires
        q.len() > 0,
        !(q[0] is Fun),
    ensures
        hoist_seq_model(q).0 == hoist_seq_model(q.drop_first()).0,
        hoist_seq_model(q).1 == seq![q[0]] + hoist_seq_model(q.drop_first()).1,
{
}

impl ANFConverter {
    /// Hoists every function literal out of one statement list: definitions
    /// are collected innermost first onto `defs`, and what remains of the
    /// list is returned.
    fn hoist_stmts(&mut self, stmts: Vec<ANF>, defs: Vec<(Variable, Vec<Variable>, ANFs)>) -> (r:
        (Vec<(Variable, Vec<Variable>, ANFs)>, Vec<ANF>))
        ensures
            ({
                let m = hoist_seq_model(stmts_view(stmts@));
                &&& defs_view(r.0@) == defs_view(defs@) + m.0
                &&& stmts_view(r.1@) == m.1
                &&& *final(self) == *old(self)
            }),
        decreases gsize_seq(stmts_view(stmts@)),
    {
        let ghost gq = stmts_view(stmts@);
        proof {
            lemma_stmts_view_len(stmts@);
        }
        let mut stmts = stmts;
        let mut defs = defs;
        if stmts.len() == 0 {
            let r: Vec<ANF> = Vec::new();
            proof {
                assert(defs_view(defs@) =~= defs_view(defs@) + hoist_seq_model(gq).0);
                assert(stmts_view(r@) =~= hoist_seq_model(gq).1);
            }
            return (defs, r);
        }
        let ghost q_full = stmts@;
        let s = stmts.remove(0);
        proof {
            assert(stmts@ =~= q_full.drop_first());
            assert(stmts_view(stmts@) =~= gq.drop_first());
            assert(stmt_view(s) == gq[0]);
            assert(gsize_seq(gq) == gsize_stmt(gq[0]) + gsize_seq(gq.drop_first()));
        }
        match s {
            ANF::Fun(var, args, body) => {
                let ghost gbody = body_view(body);
                proof {
                    assert(gq[0] is Fun);
                    assert(gq[0]->Fun_2 == gbody);
                    assert(gsize_stmt(gq[0]) == 2 + gsize_seq(gbody.stmts));
                    assert(stmts_view(body.anfs@) == gbody.stmts);
                    assert(gsize_seq(gbody.stmts) < gsize_seq(gq));
                }
                let body_value = body.value;
                let (defs2, filtered) = self.hoist_stmts(body.anfs, defs);
                let mut defs2 = defs2;
                let ghost pre_defs = defs2@;
                let newdef = (var, args, ANFs { anfs: filtered, value: body_value, level: 1 });
                let ghost gnewdef = newdef;
                defs2.push(newdef);
                proof {
                    lemma_defs_view_push(pre_defs, gnewdef);
                    assert(gsize_seq(gq.drop_first()) < gsize_seq(gq));
                }
                let (defs3, rest) = self.hoist_stmts(stmts, defs2);
                proof {
                    lemma_hoist_step_fun(gq);
                    let inner = hoist_seq_model(gbody.stmts);
                    assert(def_view(gnewdef) =~= (
                        gq[0]->Fun_0,
                        gq[0]->Fun_1,
                        GBody { stmts: inner.1, tail: gbody.tail, level: 1 },
                    ));
                    assert(defs_view(defs3@) =~= defs_view(defs@) + hoist_seq_model(gq).0);
                }
                (defs3, rest)
            }
            other => {
                let ghost gother = other;
                proof {
                    assert(!(gq[0] is Fun));
                    assert(gsize_seq(gq.drop_first()) < gsize_seq(gq));
                }
                let (defs2, rest) = self.hoist_stmts(stmts, defs);
                let ghost grest = rest@;
                let mut out: Vec<ANF> = Vec::new();
                out.push(other);
                let mut rest = rest;
                out.append(&mut rest);
                proof {
                    lemma_hoist_step_other(gq);
                    lemma_stmts_view_one(gother);
                    assert(out@ =~= seq![gother] + grest);
                    lemma_stmts_view_concat(seq![gother], grest);
                    assert(stmts_view(out@) =~= hoist_seq_model(gq).1);
                }
                (defs2, out)
            }
        }
    }

    /// Lifts every function definition, however deeply nested, onto the flat
    /// list of `hoisted_anfs`, innermost first in encounter order; when the
    /// sequence is the top level (depth zero) its remaining statements and
    /// tail become the main body, in their original order.
    pub fn hoisting(&mut self, anfs: ANFs, hoisted_anfs: &mut HoistedANFs)
        ensures
            ({
                let m = hoist_seq_model(stmts_view(anfs.anfs@));
                &&& defs_view(final(hoisted_anfs).fun_defs@) == defs_view(
                    old(hoisted_anfs).fun_defs@,
                ) + m.0
                &&& *final(self) == *old(self)
                &&& final(hoisted_anfs).main.level == old(hoisted_anfs).main.level
                &&& (anfs.level == 0 ==> stmts_view(final(hoisted_anfs).main.anfs@)
                    == stmts_view(old(hoisted_anfs).main.anfs@) + m.1
                    && final(hoisted_anfs).main.value == anfs.value)
                &&& (anfs.level != 0 ==> final(hoisted_anfs).main == old(hoisted_anfs).main)
            }),
    {
        let top = anfs.level == 0;
        let ANFs { anfs: stmts, value, level } = anfs;
        let fresh_defs: Vec<(Variable, Vec<Variable>, ANFs)> = Vec::new();
        let (mut new_defs, filtered) = self.hoist_stmts(stmts, fresh_defs);
        let ghost gnew = new_defs@;
        let ghost pre_defs = hoisted_anfs.fun_defs@;
        hoisted_anfs.fun_defs.append(&mut new_defs);
        proof {
            lemma_defs_view_concat(pre_defs, gnew);
            assert(defs_view(Seq::<(Variable, Vec<Variable>, ANFs)>::empty()) =~= Seq::<
                (usize, Seq<usize>, GBody),
            >::empty());
            assert(defs_view(hoisted_anfs.fun_defs@) =~= defs_view(pre_defs)
                + hoist_seq_model(stmts_view(anfs.anfs@)).0);
        }
        if top {
            let mut filtered = filtered;
            let ghost pre_main = hoisted_anfs.main.anfs@;
            let ghost gfiltered = filtered@;
            hoisted_anfs.main.anfs.append(&mut filtered);
            hoisted_anfs.main.value = value;
            proof {
                lemma_stmts_view_concat(pre_main, gfiltered);
                assert(stmts_view(hoisted_anfs.main.anfs@) =~= stmts_view(pre_main)
                    + hoist_seq_model(stmts_view(anfs.anfs@)).1);
            }
        }
    }
}


// ---------------------------------------------------------------------------
// Laws of the three lowerings.
// ---------------------------------------------------------------------------

/// Every identity a statement binds, the bindings inside nested function
/// bodies included, in order of appearance.
pub open spec fn gtargets_stmt(s: GStmt) -> Seq<usize>
    decreases s,
{
    match s {
        GStmt::Fun(t, _, body) => seq![t] + gtargets_seq(body.stmts),
        _ => seq![gtarget(s)],
    }
}

pub open spec fn gtargets_seq(q: Seq<GStmt>) -> Seq<usize>
    decreases q,
{
    if q.len() == 0 {
        Seq::empty()
    } else {
        gtargets_stmt(q[0]) + gtargets_seq(q.drop_first())
    }
}

/// Deep targets distribute over concatenation.
pub proof fn lemma_gtargets_concat(a: Seq<GStmt>, b: Seq<GStmt>)
    ensures
        gtargets_seq(a + b) == gtargets_seq(a) + gtargets_seq(b),
    decreases a.len(),
{
    if a.len() == 0 {
        assert(a + b =~= b);
        assert(gtargets_seq(a) =~= Seq::<usize>::empty());
        assert(gtargets_seq(a + b) =~= gtargets_seq(a) + gtargets_seq(b));
    } else {
        assert((a + b).drop_first() =~= a.drop_first() + b);
        assert((a + b)[0] == a[0]);
        lemma_gtargets_concat(a.drop_first(), b);
        assert(gtargets_seq(a + b) =~= gtargets_seq(a) + gtargets_seq(b));
    }
}

/// Deep targets of a singleton list.
proof fn lemma_gtargets_one(x: GStmt)
    ensures
        gtargets_seq(seq![x]) == gtargets_stmt(x),
{
    assert(seq![x][0] == x);
    assert(seq![x].drop_first() =~= Seq::<GStmt>::empty());
    assert(gtargets_seq(Seq::<GStmt>::empty()) =~= Seq::<usize>::empty());
    assert(gtargets_seq(seq![x]) =~= gtargets_stmt(x));
}

/// The linearizer binds exactly the identities `c, c + 1, ...` in order, one
/// per emitted statement, nested function bodies included.
pub proof fn lemma_convert_targets(e: Expr, c: nat, level: nat)
    requires
        c + expr_size(e) <= usize::MAX,
    ensures
        ({
            let m = convert_model(e, c, level);
            let ts = gtargets_seq(m.0);
            &&& ts.len() == m.2 - c
            &&& forall|k: int| 0 <= k < ts.len() ==> (#[trigger] ts[k]) as nat == c + k
        }),
    decreases e,
{
    lemma_convert_model_counter(e, c, level);
    match e {
        Expr::Var(_) => {
            assert(gtargets_seq(Seq::<GStmt>::empty()) =~= Seq::<usize>::empty());
        }
        Expr::Number(_) => {
            assert(gtargets_seq(Seq::<GStmt>::empty()) =~= Seq::<usize>::empty());
        }
        Expr::Abs(_, body) => {
            lemma_convert_model_counter(*body, c + 1, level + 1);
            lemma_convert_targets(*body, c + 1, level + 1);
            let inner = convert_model(*body, c + 1, level + 1);
            let m = convert_model(e, c, level);
            lemma_gtargets_one(m.0[0]);
            assert(m.0 =~= seq![m.0[0]]);
            assert(gtargets_seq(m.0) =~= seq![c as usize] + gtargets_seq(inner.0));
        }
        Expr::App(e1, e2) => {
            let r1 = convert_model(*e1, c, level);
            lemma_convert_model_counter(*e1, c, level);
            lemma_convert_targets(*e1, c, level);
            let r2 = convert_model(*e2, r1.2, level);
            lemma_convert_model_counter(*e2, r1.2, level);
            lemma_convert_targets(*e2, r1.2, level);
            let m = convert_model(e, c, level);
            match r1.1 {
                GValue::Local(f) => {
                    let appst = GStmt::App(r2.2 as usize, f, seq![r2.1]);
                    lemma_gtargets_concat(r1.0 + r2.0, seq![appst]);
                    lemma_gtargets_concat(r1.0, r2.0);
                    lemma_gtargets_one(appst);
                    assert(gtargets_seq(m.0) =~= gtargets_seq(r1.0) + gtargets_seq(r2.0)
                        + seq![r2.2 as usize]);
                }
                _ => {
                    lemma_gtargets_concat(r1.0, r2.0);
                }
            }
        }
        Expr::BOp(op, e1, e2) => {
            let r1 = convert_model(*e1, c, level);
            lemma_convert_model_counter(*e1, c, level);
            lemma_convert_targets(*e1, c, level);
            let r2 = convert_model(*e2, r1.2, level);
            lemma_convert_model_counter(*e2, r1.2, level);
            lemma_convert_targets(*e2, r1.2, level);
            let m = convert_model(e, c, level);
            let bopst = GStmt::BOp(r2.2 as usize, op, r1.1, r2.1);
            lemma_gtargets_concat(r1.0 + r2.0, seq![bopst]);
            lemma_gtargets_concat(r1.0, r2.0);
            lemma_gtargets_one(bopst);
            assert(gtargets_seq(m.0) =~= gtargets_seq(r1.0) + gtargets_seq(r2.0)
                + seq![r2.2 as usize]);
        }
    }
}

/// Static single assignment: over a whole linearized program, every bound
/// name is the binding target of exactly one statement. The targets are the
/// consecutive fresh identities, so no two statements, however nested, bind
/// the same one.
pub proof fn lemma_convert_single_assignment(e: Expr, c: nat, level: nat)
    requires
        c + expr_size(e) <= usize::MAX,
    ensures
        ({
            let ts = gtargets_seq(convert_model(e, c, level).0);
            forall|k1: int, k2: int| 0 <= k1 < k2 < ts.len() ==> #[trigger] ts[k1]
                != #[trigger] ts[k2]
        }),
{
    lemma_convert_targets(e, c, level);
}

/// No function literal survives hoisting: neither in a lifted definition's
/// body nor among the statements that stay behind.
pub open spec fn gflat_seq(q: Seq<GStmt>) -> bool {
    forall|i: int| 0 <= i < q.len() ==> !((#[trigger] q[i]) is Fun)
}

pub proof fn lemma_hoisting_flat(q: Seq<GStmt>)
    ensures
        gflat_seq(hoist_seq_model(q).1),
        forall|i: int|
            0 <= i < hoist_seq_model(q).0.len() ==> gflat_seq(
                (#[trigger] hoist_seq_model(q).0[i]).2.stmts,
            ),
    decreases q,
{
    if q.len() > 0 {
        let rest = hoist_seq_model(q.drop_first());
        match q[0] {
            GStmt::Fun(t, args, body) => {
                lemma_hoisting_flat(body.stmts);
                lemma_hoisting_flat(q.drop_first());
                let inner = hoist_seq_model(body.stmts);
                let def = (t, args, GBody { stmts: inner.1, tail: body.tail, level: 1nat });
                let defs = inner.0 + seq![def] + rest.0;
                assert forall|i: int| 0 <= i < defs.len() implies gflat_seq(
                    (#[trigger] defs[i]).2.stmts,
                ) by {
                    if i < inner.0.len() {
                        assert(defs[i] == inner.0[i]);
                    } else if i == inner.0.len() {
                        assert(defs[i] == def);
                    } else {
                        assert(defs[i] == rest.0[i - inner.0.len() - 1]);
                    }
                }
                assert(hoist_seq_model(q).0 == defs);
            }
            _ => {
                lemma_hoisting_flat(q.drop_first());
                let stay = seq![q[0]] + rest.1;
                assert forall|i: int| 0 <= i < stay.len() implies !((#[trigger] stay[i])
                    is Fun) by {
                    if i > 0 {
                        assert(stay[i] == rest.1[i - 1]);
                    }
                }
            }
        }
    }
}

/// Nothing the free-variable walk reports is in the set it was told is
/// bound. Since the walk threads every statement's own binding into the set
/// used for everything after it, a name bound by an earlier statement of the
/// same body is never reported free, and a function's own parameters, seeded
/// into the set, never are either.
pub proof fn lemma_free_vars_exclude_vals(vs: Seq<GValue>, b: Set<usize>)
    ensures
        forall|x: usize| #[trigger] gfv_vals(vs, b).contains(x) ==> !b.contains(x),
    decreases vs.len(),
{
    if vs.len() > 0 {
        lemma_free_vars_exclude_vals(vs.drop_first(), b);
        assert forall|x: usize| #[trigger] gfv_vals(vs, b).contains(x) implies !b.contains(
            x,
        ) by {
            let k = choose|k: int| 0 <= k < gfv_vals(vs, b).len() && gfv_vals(vs, b)[k] == x;
            if k < gfv_val(vs[0], b).len() {
                assert(gfv_val(vs[0], b)[k] == x);
            } else {
                assert(gfv_vals(vs.drop_first(), b)[k - gfv_val(vs[0], b).len()] == x);
                assert(gfv_vals(vs.drop_first(), b).contains(x));
            }
        }
    }
}

pub proof fn lemma_free_vars_exclude_seq(q: Seq<GStmt>, b: Set<usize>)
    ensures
        forall|x: usize| #[trigger] gfv_seq(q, b).contains(x) ==> !b.contains(x),
    decreases q, 1nat,
{
    if q.len() > 0 {
        let b2 = b.insert(gtarget(q[0]));
        lemma_free_vars_exclude_stmt(q[0], b2);
        lemma_free_vars_exclude_seq(q.drop_first(), b2);
        assert forall|x: usize| #[trigger] gfv_seq(q, b).contains(x) implies !b.contains(x) by {
            let k = choose|k: int| 0 <= k < gfv_seq(q, b).len() && gfv_seq(q, b)[k] == x;
            if k < gfv_stmt_refs(q[0], b2).len() {
                assert(gfv_stmt_refs(q[0], b2)[k] == x);
                assert(gfv_stmt_refs(q[0], b2).contains(x));
            } else {
                assert(gfv_seq(q.drop_first(), b2)[k - gfv_stmt_refs(q[0], b2).len()] == x);
                assert(gfv_seq(q.drop_first(), b2).contains(x));
            }
        }
    }
}

pub proof fn lemma_free_vars_exclude_stmt(s: GStmt, b: Set<usize>)
    ensures
        forall|x: usize| #[trigger] gfv_stmt_refs(s, b).contains(x) ==> !b.contains(x),
    decreases s, 1nat,
{
    match s {
        GStmt::Fun(_, args, body) => {
            lemma_free_vars_exclude_body(body, b.union(idset(args)));
            assert forall|x: usize| #[trigger] gfv_stmt_refs(s, b).contains(x) implies !b
                .contains(x) by {
                assert(gfv_body(body, b.union(idset(args))).contains(x));
            }
        }
        GStmt::App(_, f, vs) => {
            lemma_free_vars_exclude_vals(vs, b);
            assert forall|x: usize| #[trigger] gfv_stmt_refs(s, b).contains(x) implies !b
                .contains(x) by {
                let k = choose|k: int|
                    0 <= k < gfv_stmt_refs(s, b).len() && gfv_stmt_refs(s, b)[k] == x;
                let head = if b.contains(f) {
                    Seq::<usize>::empty()
                } else {
                    seq![f]
                };
                if k < head.len() {
                    assert(x == f && !b.contains(f));
                } else {
                    assert(gfv_vals(vs, b)[k - head.len()] == x);
                    assert(gfv_vals(vs, b).contains(x));
                }
            }
        }
        GStmt::BOp(_, _, v1, v2) => {
            assert forall|x: usize| #[trigger] gfv_stmt_refs(s, b).contains(x) implies !b
                .contains(x) by {
                let k = choose|k: int|
                    0 <= k < gfv_stmt_refs(s, b).len() && gfv_stmt_refs(s, b)[k] == x;
                if k < gfv_val(v1, b).len() {
                    assert(gfv_val(v1, b)[k] == x);
                } else {
                    assert(gfv_val(v2, b)[k - gfv_val(v1, b).len()] == x);
                }
            }
        }
        GStmt::Tuple(_, vs) => {
            lemma_free_vars_exclude_vals(vs, b);
        }
        GStmt::Project(_, _, _) => {
        }
    }
}

pub proof fn lemma_free_vars_exclude_body(body: GBody, b: Set<usize>)
    ensures
        forall|x: usize| #[trigger] gfv_body(body, b).contains(x) ==> !b.contains(x),
    decreases body, 2nat,
{
    lemma_free_vars_exclude_seq(body.stmts, b);
    let after = bound_after(body.stmts, b);
    lemma_bound_after_grows(body.stmts, b);
    assert forall|x: usize| #[trigger] gfv_body(body, b).contains(x) implies !b.contains(x) by {
        let k = choose|k: int| 0 <= k < gfv_body(body, b).len() && gfv_body(body, b)[k] == x;
        if k < gfv_seq(body.stmts, b).len() {
            assert(gfv_seq(body.stmts, b)[k] == x);
            assert(gfv_seq(body.stmts, b).contains(x));
        } else {
            assert(gfv_tail(body.tail, after)[k - gfv_seq(body.stmts, b).len()] == x);
            assert(!after.contains(x));
        }
    }
}

/// Everything bound before stays bound after.
pub proof fn lemma_bound_after_grows(q: Seq<GStmt>, b: Set<usize>)
    ensures
        b.subset_of(bound_after(q, b)),
    decreases q.len(),
{
    if q.len() > 0 {
        lemma_bound_after_grows(q.drop_first(), b.insert(gtarget(q[0])));
    }
}

/// Widening the bound set only removes free occurrences: what stays free
/// was already free before, and is not in the added set.
pub proof fn lemma_gfv_union_vals(vs: Seq<GValue>, b: Set<usize>, s: Set<usize>)
    ensures
        forall|x: usize| #[trigger] gfv_vals(vs, b.union(s)).contains(x) ==> gfv_vals(
            vs,
            b,
        ).contains(x) && !s.contains(x),
    decreases vs.len(),
{
    if vs.len() > 0 {
        lemma_gfv_union_vals(vs.drop_first(), b, s);
        assert forall|x: usize| #[trigger] gfv_vals(vs, b.union(s)).contains(x) implies gfv_vals(
            vs,
            b,
        ).contains(x) && !s.contains(x) by {
            let k = choose|k: int|
                0 <= k < gfv_vals(vs, b.union(s)).len() && gfv_vals(vs, b.union(s))[k] == x;
            if k < gfv_val(vs[0], b.union(s)).len() {
                assert(gfv_val(vs[0], b.union(s))[k] == x);
                assert(gfv_val(vs[0], b).contains(x));
            } else {
                assert(gfv_vals(vs.drop_first(), b.union(s))[k - gfv_val(
                    vs[0],
                    b.union(s),
                ).len()] == x);
                assert(gfv_vals(vs.drop_first(), b.union(s)).contains(x));
                assert(gfv_vals(vs.drop_first(), b).contains(x));
            }
            lemma_gfv_contains_concat(gfv_val(vs[0], b), gfv_vals(vs.drop_first(), b), x);
        }
    }
}

/// Membership in a concatenation, from membership in a part.
proof fn lemma_gfv_contains_concat(a: Seq<usize>, bb: Seq<usize>, x: usize)
    ensures
        a.contains(x) ==> (a + bb).contains(x),
        bb.contains(x) ==> (a + bb).contains(x),
{
    if a.contains(x) {
        let k = choose|k: int| 0 <= k < a.len() && a[k] == x;
        assert((a + bb)[k] == x);
    }
    if bb.contains(x) {
        let k = choose|k: int| 0 <= k < bb.len() && bb[k] == x;
        assert((a + bb)[a.len() + k] == x);
    }
}

pub proof fn lemma_gfv_union_stmt(st: GStmt, b: Set<usize>, s: Set<usize>)
    ensures
        forall|x: usize| #[trigger] gfv_stmt_refs(st, b.union(s)).contains(x)
            ==> gfv_stmt_refs(st, b).contains(x) && !s.contains(x),
    decreases st, 1nat,
{
    match st {
        GStmt::Fun(_, args, body) => {
            assert(b.union(s).union(idset(args)) =~= b.union(idset(args)).union(s));
            lemma_gfv_union_body(body, b.union(idset(args)), s);
            assert forall|x: usize| #[trigger] gfv_stmt_refs(st, b.union(s)).contains(x)
                implies gfv_stmt_refs(st, b).contains(x) && !s.contains(x) by {
                assert(gfv_body(body, b.union(s).union(idset(args))).contains(x));
                assert(gfv_body(body, b.union(idset(args)).union(s)).contains(x));
                assert(gfv_body(body, b.union(idset(args))).contains(x));
            }
        }
        GStmt::App(_, f, vs) => {
            lemma_gfv_union_vals(vs, b, s);
            assert forall|x: usize| #[trigger] gfv_stmt_refs(st, b.union(s)).contains(x)
                implies gfv_stmt_refs(st, b).contains(x) && !s.contains(x) by {
                let hu = if b.union(s).contains(f) {
                    Seq::<usize>::empty()
                } else {
                    seq![f]
                };
                let hb = if b.contains(f) {
                    Seq::<usize>::empty()
                } else {
                    seq![f]
                };
                let k = choose|k: int|
                    0 <= k < gfv_stmt_refs(st, b.union(s)).len() && gfv_stmt_refs(
                        st,
                        b.union(s),
                    )[k] == x;
                if k < hu.len() {
                    assert(x == f && !b.union(s).contains(f));
                    assert(hb.contains(x));
                } else {
                    assert(gfv_vals(vs, b.union(s))[k - hu.len()] == x);
                    assert(gfv_vals(vs, b.union(s)).contains(x));
                    assert(gfv_vals(vs, b).contains(x));
                }
                if hb.len() > 0 {
                    assert(hb[0] == f);
                }
                lemma_gfv_contains_concat(hb, gfv_vals(vs, b), x);
            }
        }
        GStmt::BOp(_, _, v1, v2) => {
            assert forall|x: usize| #[trigger] gfv_stmt_refs(st, b.union(s)).contains(x)
                implies gfv_stmt_refs(st, b).contains(x) && !s.contains(x) by {
                let k = choose|k: int|
                    0 <= k < gfv_stmt_refs(st, b.union(s)).len() && gfv_stmt_refs(
                        st,
                        b.union(s),
                    )[k] == x;
                if k < gfv_val(v1, b.union(s)).len() {
                    assert(gfv_val(v1, b.union(s))[k] == x);
                    assert(gfv_val(v1, b).contains(x));
                } else {
                    assert(gfv_val(v2, b.union(s))[k - gfv_val(v1, b.union(s)).len()] == x);
                    assert(gfv_val(v2, b).contains(x));
                }
                lemma_gfv_contains_concat(gfv_val(v1, b), gfv_val(v2, b), x);
            }
        }
        GStmt::Tuple(_, vs) => {
            lemma_gfv_union_vals(vs, b, s);
        }
        GStmt::Project(_, t, _) => {
            assert forall|x: usize| #[trigger] gfv_stmt_refs(st, b.union(s)).contains(x)
                implies gfv_stmt_refs(st, b).contains(x) && !s.contains(x) by {
                assert(x == t && !b.union(s).contains(t));
                assert(gfv_stmt_refs(st, b) == seq![t]);
                assert(seq![t][0] == t);
            }
        }
    }
}

pub proof fn lemma_gfv_union_seq(q: Seq<GStmt>, b: Set<usize>, s: Set<usize>)
    ensures
        forall|x: usize| #[trigger] gfv_seq(q, b.union(s)).contains(x) ==> gfv_seq(
            q,
            b,
        ).contains(x) && !s.contains(x),
    decreases q, 2nat,
{
    if q.len() > 0 {
        let t = gtarget(q[0]);
        assert(b.union(s).insert(t) =~= b.insert(t).union(s));
        lemma_gfv_union_stmt(q[0], b.insert(t), s);
        lemma_gfv_union_seq(q.drop_first(), b.insert(t), s);
        assert forall|x: usize| #[trigger] gfv_seq(q, b.union(s)).contains(x) implies gfv_seq(
            q,
            b,
        ).contains(x) && !s.contains(x) by {
            let k = choose|k: int|
                0 <= k < gfv_seq(q, b.union(s)).len() && gfv_seq(q, b.union(s))[k] == x;
            if k < gfv_stmt_refs(q[0], b.union(s).insert(t)).len() {
                assert(gfv_stmt_refs(q[0], b.union(s).insert(t))[k] == x);
                assert(gfv_stmt_refs(q[0], b.insert(t).union(s)).contains(x));
                assert(gfv_stmt_refs(q[0], b.insert(t)).contains(x));
            } else {
                assert(gfv_seq(q.drop_first(), b.union(s).insert(t))[k - gfv_stmt_refs(
                    q[0],
                    b.union(s).insert(t),
                ).len()] == x);
                assert(gfv_seq(q.drop_first(), b.insert(t).union(s)).contains(x));
                assert(gfv_seq(q.drop_first(), b.insert(t)).contains(x));
            }
            lemma_gfv_contains_concat(
                gfv_stmt_refs(q[0], b.insert(t)),
                gfv_seq(q.drop_first(), b.insert(t)),
                x,
            );
        }
    }
}

pub proof fn lemma_gfv_union_body(body: GBody, b: Set<usize>, s: Set<usize>)
    ensures
        forall|x: usize| #[trigger] gfv_body(body, b.union(s)).contains(x) ==> gfv_body(
            body,
            b,
        ).contains(x) && !s.contains(x),
    decreases body, 3nat,
{
    lemma_gfv_union_seq(body.stmts, b, s);
    lemma_bound_after_union(body.stmts, b, s);
    assert forall|x: usize| #[trigger] gfv_body(body, b.union(s)).contains(x) implies gfv_body(
        body,
        b,
    ).contains(x) && !s.contains(x) by {
        let k = choose|k: int|
            0 <= k < gfv_body(body, b.union(s)).len() && gfv_body(body, b.union(s))[k] == x;
        if k < gfv_seq(body.stmts, b.union(s)).len() {
            assert(gfv_seq(body.stmts, b.union(s))[k] == x);
            assert(gfv_seq(body.stmts, b.union(s)).contains(x));
            assert(gfv_seq(body.stmts, b).contains(x));
        } else {
            assert(gfv_tail(body.tail, bound_after(body.stmts, b.union(s)))[k - gfv_seq(
                body.stmts,
                b.union(s),
            ).len()] == x);
            match body.tail {
                Some(v) => {
                    assert(gfv_val(v, bound_after(body.stmts, b).union(s)).contains(x));
                    assert(gfv_val(v, bound_after(body.stmts, b)).contains(x));
                }
                None => {}
            }
        }
        lemma_gfv_contains_concat(
            gfv_seq(body.stmts, b),
            gfv_tail(body.tail, bound_after(body.stmts, b)),
            x,
        );
    }
}

/// Widening the base of the running bound set widens the result the same way.
proof fn lemma_bound_after_union(q: Seq<GStmt>, b: Set<usize>, s: Set<usize>)
    ensures
        bound_after(q, b.union(s)) == bound_after(q, b).union(s),
    decreases q.len(),
{
    if q.len() == 0 {
        assert(bound_after(q, b.union(s)) =~= bound_after(q, b).union(s));
    } else {
        let t = gtarget(q[0]);
        assert(b.union(s).insert(t) =~= b.insert(t).union(s));
        lemma_bound_after_union(q.drop_first(), b.insert(t), s);
    }
}

/// Closedness of closure conversion's rewriting, at the heart: once a body's
/// computed free variables are all bound - which is exactly what the
/// prepended environment projections do - the body has no free variable left
/// at all.
pub proof fn lemma_free_vars_close(body: GBody, b: Set<usize>)
    ensures
        gfv_body(body, b.union(idset(gfv_body(body, b)))) == Seq::<usize>::empty(),
{
    let s = idset(gfv_body(body, b));
    lemma_gfv_union_body(body, b, s);
    let res = gfv_body(body, b.union(s));
    if res.len() > 0 {
        let x = res[0];
        assert(res.contains(x));
        assert(gfv_body(body, b).contains(x) && !s.contains(x));
        lemma_idset_contains(gfv_body(body, b), x);
    }
    assert(res =~= Seq::<usize>::empty());
}


/// An operand in scope: a local reference names an identity in force.
pub open spec fn gok_val(v: GValue, b: Set<usize>) -> bool {
    match v {
        GValue::Local(i) => b.contains(i),
        _ => true,
    }
}

/// Well-scopedness: every reference names the ambient set or a statement
/// bound strictly earlier at its level, and a nested function's body sees
/// its parameters on top.
pub open spec fn gwscoped_stmt(s: GStmt, b: Set<usize>) -> bool
    decreases s,
{
    match s {
        GStmt::Fun(_, args, body) => gwscoped_body(body, b.union(idset(args))),
        GStmt::App(_, f, vs) => b.contains(f) && (forall|k: int|
            0 <= k < vs.len() ==> gok_val(#[trigger] vs[k], b)),
        GStmt::BOp(_, _, v1, v2) => gok_val(v1, b) && gok_val(v2, b),
        GStmt::Tuple(_, vs) => forall|k: int| 0 <= k < vs.len() ==> gok_val(#[trigger] vs[k], b),
        GStmt::Project(_, t, _) => b.contains(t),
    }
}

pub open spec fn gwscoped_seq(q: Seq<GStmt>, b: Set<usize>) -> bool
    decreases q,
{
    if q.len() == 0 {
        true
    } else {
        gwscoped_stmt(q[0], b) && gwscoped_seq(q.drop_first(), b.insert(gtarget(q[0])))
    }
}

pub open spec fn gwscoped_body(body: GBody, b: Set<usize>) -> bool
    decreases body,
{
    gwscoped_seq(body.stmts, b) && (match body.tail {
        Some(v) => gok_val(v, bound_after(body.stmts, b)),
        None => true,
    })
}

/// Well-scopedness is monotone in the identities in force.
pub proof fn lemma_gwscoped_mono_stmt(s: GStmt, b1: Set<usize>, b2: Set<usize>)
    requires
        gwscoped_stmt(s, b1),
        b1.subset_of(b2),
    ensures
        gwscoped_stmt(s, b2),
    decreases s,
{
    match s {
        GStmt::Fun(_, args, body) => {
            assert(b1.union(idset(args)).subset_of(b2.union(idset(args))));
            lemma_gwscoped_mono_body(body, b1.union(idset(args)), b2.union(idset(args)));
        }
        _ => {}
    }
}

pub proof fn lemma_gwscoped_mono_seq(q: Seq<GStmt>, b1: Set<usize>, b2: Set<usize>)
    requires
        gwscoped_seq(q, b1),
        b1.subset_of(b2),
    ensures
        gwscoped_seq(q, b2),
    decreases q,
{
    if q.len() > 0 {
        lemma_gwscoped_mono_stmt(q[0], b1, b2);
        assert(b1.insert(gtarget(q[0])).subset_of(b2.insert(gtarget(q[0]))));
        lemma_gwscoped_mono_seq(q.drop_first(), b1.insert(gtarget(q[0])), b2.insert(
            gtarget(q[0]),
        ));
    }
}

pub proof fn lemma_gwscoped_mono_body(body: GBody, b1: Set<usize>, b2: Set<usize>)
    requires
        gwscoped_body(body, b1),
        b1.subset_of(b2),
    ensures
        gwscoped_body(body, b2),
    decreases body,
{
    lemma_gwscoped_mono_seq(body.stmts, b1, b2);
    lemma_bound_after_union(body.stmts, b1, b2.difference(b1));
    assert(b1.union(b2.difference(b1)) =~= b2);
    assert(bound_after(body.stmts, b1).subset_of(bound_after(body.stmts, b2)));
}

/// The identities in force compose over concatenation.
pub proof fn lemma_bound_after_concat(q1: Seq<GStmt>, q2: Seq<GStmt>, b: Set<usize>)
    ensures
        bound_after(q1 + q2, b) == bound_after(q2, bound_after(q1, b)),
    decreases q1.len(),
{
    if q1.len() == 0 {
        assert(q1 + q2 =~= q2);
    } else {
        assert((q1 + q2).drop_first() =~= q1.drop_first() + q2);
        assert((q1 + q2)[0] == q1[0]);
        lemma_bound_after_concat(q1.drop_first(), q2, b.insert(gtarget(q1[0])));
    }
}

/// Well-scoped pieces concatenate, the second against what the first bound.
pub proof fn lemma_gwscoped_concat(q1: Seq<GStmt>, q2: Seq<GStmt>, b: Set<usize>)
    requires
        gwscoped_seq(q1, b),
        gwscoped_seq(q2, bound_after(q1, b)),
    ensures
        gwscoped_seq(q1 + q2, b),
    decreases q1.len(),
{
    if q1.len() == 0 {
        assert(q1 + q2 =~= q2);
    } else {
        assert((q1 + q2).drop_first() =~= q1.drop_first() + q2);
        assert((q1 + q2)[0] == q1[0]);
        lemma_gwscoped_concat(q1.drop_first(), q2, b.insert(gtarget(q1[0])));
    }
}

/// A well-scoped body has no free variable at all: scope resolution,
/// linearization and closure conversion together leave nothing unaccounted.
pub proof fn lemma_gwscoped_fv_empty_vals(vs: Seq<GValue>, b0: Set<usize>, b: Set<usize>)
    requires
        forall|k: int| 0 <= k < vs.len() ==> gok_val(#[trigger] vs[k], b0),
        b0.subset_of(b),
    ensures
        gfv_vals(vs, b).len() == 0,
    decreases vs.len(),
{
    if vs.len() > 0 {
        assert(gok_val(vs[0], b0));
        assert forall|k: int| 0 <= k < vs.drop_first().len() implies gok_val(
            #[trigger] vs.drop_first()[k],
            b0,
        ) by {
            assert(vs.drop_first()[k] == vs[k + 1]);
        }
        lemma_gwscoped_fv_empty_vals(vs.drop_first(), b0, b);
    }
}

pub proof fn lemma_gwscoped_fv_empty_stmt(s: GStmt, b0: Set<usize>, b: Set<usize>)
    requires
        gwscoped_stmt(s, b0),
        b0.subset_of(b),
    ensures
        gfv_stmt_refs(s, b).len() == 0,
    decreases s, 1nat,
{
    match s {
        GStmt::Fun(_, args, body) => {
            assert(b0.union(idset(args)).subset_of(b.union(idset(args))));
            lemma_gwscoped_fv_empty_body(body, b0.union(idset(args)), b.union(idset(args)));
        }
        GStmt::App(_, f, vs) => {
            lemma_gwscoped_fv_empty_vals(vs, b0, b);
        }
        GStmt::BOp(_, _, _, _) => {}
        GStmt::Tuple(_, vs) => {
            lemma_gwscoped_fv_empty_vals(vs, b0, b);
        }
        GStmt::Project(_, _, _) => {}
    }
}

pub proof fn lemma_gwscoped_fv_empty_seq(q: Seq<GStmt>, b0: Set<usize>, b: Set<usize>)
    requires
        gwscoped_seq(q, b0),
        b0.subset_of(b),
    ensures
        gfv_seq(q, b).len() == 0,
    decreases q, 2nat,
{
    if q.len() > 0 {
        let t = gtarget(q[0]);
        assert(b0.subset_of(b.insert(t)));
        lemma_gwscoped_fv_empty_stmt(q[0], b0, b.insert(t));
        assert(b0.insert(t).subset_of(b.insert(t)));
        lemma_gwscoped_fv_empty_seq(q.drop_first(), b0.insert(t), b.insert(t));
    }
}

pub proof fn lemma_gwscoped_fv_empty_body(body: GBody, b0: Set<usize>, b: Set<usize>)
    requires
        gwscoped_body(body, b0),
        b0.subset_of(b),
    ensures
        gfv_body(body, b).len() == 0,
    decreases body, 3nat,
{
    lemma_gwscoped_fv_empty_seq(body.stmts, b0, b);
    lemma_bound_after_union(body.stmts, b0, b.difference(b0));
    assert(b0.union(b.difference(b0)) =~= b);
    assert(bound_after(body.stmts, b0).subset_of(bound_after(body.stmts, b)));
    match body.tail {
        Some(v) => {
            assert(gok_val(v, bound_after(body.stmts, b0)));
            assert(gfv_tail(body.tail, bound_after(body.stmts, b)).len() == 0);
        }
        None => {}
    }
}

/// The linearizer's output is well scoped: with a scope-resolved tree whose
/// identities lie below the fresh-name counter, every emitted reference
/// names either the ambient set or an earlier statement's binding, and the
/// tail value is in force at the end.
pub proof fn lemma_convert_wscoped(e: Expr, c: nat, level: nat, b: Set<usize>)
    requires
        no_literal_callee(e),
        scoped_expr(e, b),
        c + expr_size(e) <= usize::MAX,
        expr_ids_below(e, c as usize),
        forall|x: usize| b.contains(x) ==> x < c,
    ensures
        ({
            let m = convert_model(e, c, level);
            &&& gwscoped_seq(m.0, b)
            &&& gok_val(m.1, bound_after(m.0, b))
        }),
    decreases e,
{
    lemma_convert_model_counter(e, c, level);
    match e {
        Expr::Var(_) => {}
        Expr::Number(_) => {}
        Expr::Abs(v, body) => {
            let b2 = b.insert(vid(v));
            assert forall|x: usize| b2.contains(x) implies x < c + 1 by {}
            crate::ast::lemma_expr_ids_below_mono(*body, c as usize, (c + 1) as usize);
            lemma_convert_wscoped(*body, c + 1, level + 1, b2);
            let inner = convert_model(*body, c + 1, level + 1);
            let m = convert_model(e, c, level);
            let fstmt = GStmt::Fun(
                c as usize,
                seq![vid(v)],
                GBody { stmts: inner.0, tail: Some(inner.1), level: level + 1 },
            );
            assert(m.0 =~= seq![fstmt]);
            assert(seq![vid(v)].drop_last() =~= Seq::<usize>::empty());
            assert(idset(Seq::<usize>::empty()) =~= Set::<usize>::empty());
            assert(idset(seq![vid(v)]) =~= Set::<usize>::empty().insert(vid(v)));
            assert(b.union(idset(seq![vid(v)])) =~= b2);
            assert(gwscoped_body(
                GBody { stmts: inner.0, tail: Some(inner.1), level: level + 1 },
                b2,
            ));
            assert(gwscoped_stmt(fstmt, b));
            assert(m.0[0] == fstmt);
            assert(m.0.drop_first() =~= Seq::<GStmt>::empty());
            assert(gwscoped_seq(Seq::<GStmt>::empty(), b.insert(c as usize)));
            assert(gwscoped_seq(m.0, b));
            assert(gtarget(fstmt) == c as usize);
            assert(bound_after(Seq::<GStmt>::empty(), b.insert(c as usize)) =~= b.insert(
                c as usize,
            ));
            assert(bound_after(m.0, b) =~= b.insert(c as usize));
        }
        Expr::App(e1, e2) => {
            let r1 = convert_model(*e1, c, level);
            lemma_convert_model_counter(*e1, c, level);
            lemma_convert_wscoped(*e1, c, level, b);
            assert forall|x: usize| b.contains(x) implies x < r1.2 by {}
            crate::ast::lemma_expr_ids_below_mono(*e2, c as usize, r1.2 as usize);
            lemma_convert_wscoped(*e2, r1.2, level, b);
            let r2 = convert_model(*e2, r1.2, level);
            lemma_convert_model_counter(*e2, r1.2, level);
            let m = convert_model(e, c, level);
            lemma_convert_model_value(*e1, c, level);
            let f = r1.1->Local_0;
            let y = r2.2 as usize;
            let appst = GStmt::App(y, f, seq![r2.1]);
            let b1 = bound_after(r1.0, b);
            let b2 = bound_after(r2.0, b1);
            lemma_bound_after_grows(r1.0, b);
            lemma_gwscoped_mono_seq(r2.0, b, b1);
            // the call references the callee and the argument, both in force
            lemma_bound_after_grows(r2.0, b1);
            lemma_bound_after_union(r2.0, b, b1.difference(b));
            assert(b.union(b1.difference(b)) =~= b1);
            assert(bound_after(r2.0, b).subset_of(b2));
            assert(gok_val(r2.1, b2));
            assert(b1.subset_of(b2));
            assert(gwscoped_stmt(appst, b2)) by {
                assert forall|k: int| 0 <= k < seq![r2.1].len() implies gok_val(
                    #[trigger] seq![r2.1][k],
                    b2,
                ) by {
                    assert(seq![r2.1][0] == r2.1);
                }
            }
            assert(seq![appst].drop_first() =~= Seq::<GStmt>::empty());
            assert(seq![appst][0] == appst);
            assert(gtarget(appst) == y);
            assert(gwscoped_seq(Seq::<GStmt>::empty(), b2.insert(y)));
            assert(gwscoped_seq(seq![appst], b2));
            lemma_bound_after_concat(r1.0, r2.0, b);
            lemma_gwscoped_concat(r2.0, seq![appst], b1);
            lemma_gwscoped_concat(r1.0, r2.0 + seq![appst], b);
            assert(r1.0 + (r2.0 + seq![appst]) =~= m.0);
            lemma_bound_after_concat(r2.0, seq![appst], b1);
            lemma_bound_after_concat(r1.0, r2.0 + seq![appst], b);
            assert(bound_after(Seq::<GStmt>::empty(), b2.insert(y)) =~= b2.insert(y));
            assert(bound_after(seq![appst], b2) =~= b2.insert(y));
            assert(bound_after(m.0, b) =~= b2.insert(y));
        }
        Expr::BOp(op, e1, e2) => {
            let r1 = convert_model(*e1, c, level);
            lemma_convert_model_counter(*e1, c, level);
            lemma_convert_wscoped(*e1, c, level, b);
            assert forall|x: usize| b.contains(x) implies x < r1.2 by {}
            crate::ast::lemma_expr_ids_below_mono(*e2, c as usize, r1.2 as usize);
            lemma_convert_wscoped(*e2, r1.2, level, b);
            let r2 = convert_model(*e2, r1.2, level);
            lemma_convert_model_counter(*e2, r1.2, level);
            let m = convert_model(e, c, level);
            let z = r2.2 as usize;
            let bopst = GStmt::BOp(z, op, r1.1, r2.1);
            let b1 = bound_after(r1.0, b);
            let b2 = bound_after(r2.0, b1);
            lemma_bound_after_grows(r1.0, b);
            lemma_gwscoped_mono_seq(r2.0, b, b1);
            lemma_bound_after_grows(r2.0, b1);
            lemma_bound_after_union(r2.0, b, b1.difference(b));
            assert(b.union(b1.difference(b)) =~= b1);
            assert(bound_after(r2.0, b).subset_of(b2));
            assert(gok_val(r2.1, b2));
            assert(b1.subset_of(b2));
            assert(gok_val(r1.1, b2));
            assert(gwscoped_stmt(bopst, b2));
            assert(seq![bopst].drop_first() =~= Seq::<GStmt>::empty());
            assert(seq![bopst][0] == bopst);
            assert(gtarget(bopst) == z);
            assert(gwscoped_seq(Seq::<GStmt>::empty(), b2.insert(z)));
            assert(gwscoped_seq(seq![bopst], b2));
            lemma_bound_after_concat(r1.0, r2.0, b);
            lemma_gwscoped_concat(r2.0, seq![bopst], b1);
            lemma_gwscoped_concat(r1.0, r2.0 + seq![bopst], b);
            assert(r1.0 + (r2.0 + seq![bopst]) =~= m.0);
            lemma_bound_after_concat(r2.0, seq![bopst], b1);
            lemma_bound_after_concat(r1.0, r2.0 + seq![bopst], b);
            assert(bound_after(Seq::<GStmt>::empty(), b2.insert(z)) =~= b2.insert(z));
            assert(bound_after(seq![bopst], b2) =~= b2.insert(z));
            assert(bound_after(m.0, b) =~= b2.insert(z));
        }
    }
}



/// A scope-resolved closed tree linearizes to a sequence with no free
/// variable at all: every reference is a parameter of an enclosing function
/// literal or an earlier statement's binding.
pub proof fn lemma_convert_no_free_vars(e: Expr, c: nat, level: nat)
    requires
        no_literal_callee(e),
        scoped_expr(e, Set::empty()),
        c + expr_size(e) <= usize::MAX,
        expr_ids_below(e, c as usize),
    ensures
        gfv_seq(convert_model(e, c, level).0, Set::empty()).len() == 0,
{
    lemma_convert_wscoped(e, c, level, Set::empty());
    lemma_gwscoped_fv_empty_seq(
        convert_model(e, c, level).0,
        Set::empty(),
        Set::empty(),
    );
}


/// In a well-scoped list, whatever the free-variable walk reports under any
/// seed comes from the ambient scope or the seed itself.
pub proof fn lemma_gfv_scope_vals(vs: Seq<GValue>, x: Set<usize>, z: Set<usize>)
    requires
        forall|k: int| 0 <= k < vs.len() ==> gok_val(#[trigger] vs[k], x),
    ensures
        forall|a: usize| #[trigger] gfv_vals(vs, z).contains(a) ==> x.union(z).contains(a),
    decreases vs.len(),
{
    if vs.len() > 0 {
        assert forall|k: int| 0 <= k < vs.drop_first().len() implies gok_val(
            #[trigger] vs.drop_first()[k],
            x,
        ) by {
            assert(vs.drop_first()[k] == vs[k + 1]);
        }
        lemma_gfv_scope_vals(vs.drop_first(), x, z);
        assert forall|a: usize| #[trigger] gfv_vals(vs, z).contains(a) implies x.union(
            z,
        ).contains(a) by {
            let k = choose|k: int| 0 <= k < gfv_vals(vs, z).len() && gfv_vals(vs, z)[k] == a;
            if k < gfv_val(vs[0], z).len() {
                assert(gfv_val(vs[0], z)[k] == a);
                assert(gok_val(vs[0], x));
            } else {
                assert(gfv_vals(vs.drop_first(), z)[k - gfv_val(vs[0], z).len()] == a);
                assert(gfv_vals(vs.drop_first(), z).contains(a));
            }
        }
    }
}

pub proof fn lemma_gfv_scope_stmt(s: GStmt, x: Set<usize>, z: Set<usize>)
    requires
        gwscoped_stmt(s, x),
    ensures
        forall|a: usize| #[trigger] gfv_stmt_refs(s, z).contains(a) ==> x.union(z).contains(a),
    decreases s, 1nat,
{
    match s {
        GStmt::Fun(_, args, body) => {
            lemma_gfv_scope_body(body, x.union(idset(args)), z.union(idset(args)));
            lemma_free_vars_exclude_body(body, z.union(idset(args)));
            assert forall|a: usize| #[trigger] gfv_stmt_refs(s, z).contains(a) implies x.union(
                z,
            ).contains(a) by {
                assert(gfv_body(body, z.union(idset(args))).contains(a));
            }
        }
        GStmt::App(_, f, vs) => {
            lemma_gfv_scope_vals(vs, x, z);
            assert forall|a: usize| #[trigger] gfv_stmt_refs(s, z).contains(a) implies x.union(
                z,
            ).contains(a) by {
                let head = if z.contains(f) {
                    Seq::<usize>::empty()
                } else {
                    seq![f]
                };
                let k = choose|k: int|
                    0 <= k < gfv_stmt_refs(s, z).len() && gfv_stmt_refs(s, z)[k] == a;
                if k < head.len() {
                    assert(a == f);
                } else {
                    assert(gfv_vals(vs, z)[k - head.len()] == a);
                    assert(gfv_vals(vs, z).contains(a));
                }
            }
        }
        GStmt::BOp(_, _, v1, v2) => {
            assert forall|a: usize| #[trigger] gfv_stmt_refs(s, z).contains(a) implies x.union(
                z,
            ).contains(a) by {
                let k = choose|k: int|
                    0 <= k < gfv_stmt_refs(s, z).len() && gfv_stmt_refs(s, z)[k] == a;
                if k < gfv_val(v1, z).len() {
                    assert(gfv_val(v1, z)[k] == a);
                } else {
                    assert(gfv_val(v2, z)[k - gfv_val(v1, z).len()] == a);
                }
            }
        }
        GStmt::Tuple(_, vs) => {
            lemma_gfv_scope_vals(vs, x, z);
        }
        GStmt::Project(_, t, _) => {
            assert forall|a: usize| #[trigger] gfv_stmt_refs(s, z).contains(a) implies x.union(
                z,
            ).contains(a) by {
                assert(a == t);
            }
        }
    }
}

pub proof fn lemma_gfv_scope_seq(q: Seq<GStmt>, x: Set<usize>, z: Set<usize>)
    requires
        gwscoped_seq(q, x),
    ensures
        forall|a: usize| #[trigger] gfv_seq(q, z).contains(a) ==> x.union(z).contains(a),
    decreases q, 2nat,
{
    if q.len() > 0 {
        let t = gtarget(q[0]);
        lemma_gfv_scope_stmt(q[0], x, z.insert(t));
        lemma_free_vars_exclude_stmt(q[0], z.insert(t));
        lemma_gfv_scope_seq(q.drop_first(), x.insert(t), z.insert(t));
        lemma_free_vars_exclude_seq(q.drop_first(), z.insert(t));
        assert forall|a: usize| #[trigger] gfv_seq(q, z).contains(a) implies x.union(z).contains(
            a,
        ) by {
            let k = choose|k: int| 0 <= k < gfv_seq(q, z).len() && gfv_seq(q, z)[k] == a;
            if k < gfv_stmt_refs(q[0], z.insert(t)).len() {
                assert(gfv_stmt_refs(q[0], z.insert(t))[k] == a);
                assert(gfv_stmt_refs(q[0], z.insert(t)).contains(a));
            } else {
                assert(gfv_seq(q.drop_first(), z.insert(t))[k - gfv_stmt_refs(
                    q[0],
                    z.insert(t),
                ).len()] == a);
                assert(gfv_seq(q.drop_first(), z.insert(t)).contains(a));
            }
        }
    }
}

pub proof fn lemma_gfv_scope_body(body: GBody, x: Set<usize>, z: Set<usize>)
    requires
        gwscoped_body(body, x),
    ensures
        forall|a: usize| #[trigger] gfv_body(body, z).contains(a) ==> x.union(z).contains(a),
    decreases body, 3nat,
{
    lemma_gfv_scope_seq(body.stmts, x, z);
    lemma_bound_after_union(body.stmts, Set::empty(), x);
    lemma_bound_after_union(body.stmts, Set::empty(), z);
    assert(Set::<usize>::empty().union(x) =~= x);
    assert(Set::<usize>::empty().union(z) =~= z);
    assert forall|a: usize| #[trigger] gfv_body(body, z).contains(a) implies x.union(z).contains(
        a,
    ) by {
        let k = choose|k: int| 0 <= k < gfv_body(body, z).len() && gfv_body(body, z)[k] == a;
        if k < gfv_seq(body.stmts, z).len() {
            assert(gfv_seq(body.stmts, z)[k] == a);
            assert(gfv_seq(body.stmts, z).contains(a));
        } else {
            assert(gfv_tail(body.tail, bound_after(body.stmts, z))[k - gfv_seq(
                body.stmts,
                z,
            ).len()] == a);
            match body.tail {
                Some(v) => {
                    assert(gok_val(v, bound_after(body.stmts, x)));
                    assert(!bound_after(body.stmts, z).contains(a));
                    assert(bound_after(body.stmts, x) =~= bound_after(
                        body.stmts,
                        Set::empty(),
                    ).union(x));
                    assert(bound_after(body.stmts, z) =~= bound_after(
                        body.stmts,
                        Set::empty(),
                    ).union(z));
                }
                None => {}
            }
        }
    }
}

/// A free occurrence survives widening of the seed by identities it is not
/// among: the walk reports it either way.
pub proof fn lemma_gfv_persist_vals(vs: Seq<GValue>, z: Set<usize>, s2: Set<usize>)
    ensures
        forall|a: usize|
            #[trigger] gfv_vals(vs, z).contains(a) && !s2.contains(a) ==> gfv_vals(
                vs,
                z.union(s2),
            ).contains(a),
    decreases vs.len(),
{
    if vs.len() > 0 {
        lemma_gfv_persist_vals(vs.drop_first(), z, s2);
        assert forall|a: usize|
            #[trigger] gfv_vals(vs, z).contains(a) && !s2.contains(a) implies gfv_vals(
            vs,
            z.union(s2),
        ).contains(a) by {
            let k = choose|k: int| 0 <= k < gfv_vals(vs, z).len() && gfv_vals(vs, z)[k] == a;
            if k < gfv_val(vs[0], z).len() {
                assert(gfv_val(vs[0], z)[k] == a);
                assert(gfv_val(vs[0], z.union(s2))[0] == a);
                assert(gfv_val(vs[0], z.union(s2)).contains(a));
            } else {
                assert(gfv_vals(vs.drop_first(), z)[k - gfv_val(vs[0], z).len()] == a);
                assert(gfv_vals(vs.drop_first(), z).contains(a));
                assert(gfv_vals(vs.drop_first(), z.union(s2)).contains(a));
            }
            lemma_gfv_contains_concat(
                gfv_val(vs[0], z.union(s2)),
                gfv_vals(vs.drop_first(), z.union(s2)),
                a,
            );
        }
    }
}

pub proof fn lemma_gfv_persist_stmt(st: GStmt, z: Set<usize>, s2: Set<usize>)
    ensures
        forall|a: usize|
            #[trigger] gfv_stmt_refs(st, z).contains(a) && !s2.contains(a)
                ==> gfv_stmt_refs(st, z.union(s2)).contains(a),
    decreases st, 1nat,
{
    match st {
        GStmt::Fun(_, args, body) => {
            assert(z.union(s2).union(idset(args)) =~= z.union(idset(args)).union(s2));
            lemma_gfv_persist_body(body, z.union(idset(args)), s2);
            assert forall|a: usize|
                #[trigger] gfv_stmt_refs(st, z).contains(a) && !s2.contains(a)
                    implies gfv_stmt_refs(st, z.union(s2)).contains(a) by {
                assert(gfv_body(body, z.union(idset(args))).contains(a));
                assert(gfv_body(body, z.union(idset(args)).union(s2)).contains(a));
            }
        }
        GStmt::App(_, f, vs) => {
            lemma_gfv_persist_vals(vs, z, s2);
            assert forall|a: usize|
                #[trigger] gfv_stmt_refs(st, z).contains(a) && !s2.contains(a)
                    implies gfv_stmt_refs(st, z.union(s2)).contains(a) by {
                let hz = if z.contains(f) {
                    Seq::<usize>::empty()
                } else {
                    seq![f]
                };
                let hu = if z.union(s2).contains(f) {
                    Seq::<usize>::empty()
                } else {
                    seq![f]
                };
                let k = choose|k: int|
                    0 <= k < gfv_stmt_refs(st, z).len() && gfv_stmt_refs(st, z)[k] == a;
                if k < hz.len() {
                    assert(a == f && !z.contains(f));
                    assert(hu[0] == f);
                    assert(hu.contains(a));
                } else {
                    assert(gfv_vals(vs, z)[k - hz.len()] == a);
                    assert(gfv_vals(vs, z).contains(a));
                    assert(gfv_vals(vs, z.union(s2)).contains(a));
                }
                lemma_gfv_contains_concat(hu, gfv_vals(vs, z.union(s2)), a);
            }
        }
        GStmt::BOp(_, _, v1, v2) => {
            assert forall|a: usize|
                #[trigger] gfv_stmt_refs(st, z).contains(a) && !s2.contains(a)
                    implies gfv_stmt_refs(st, z.union(s2)).contains(a) by {
                let k = choose|k: int|
                    0 <= k < gfv_stmt_refs(st, z).len() && gfv_stmt_refs(st, z)[k] == a;
                if k < gfv_val(v1, z).len() {
                    assert(gfv_val(v1, z)[k] == a);
                    assert(gfv_val(v1, z.union(s2))[0] == a);
                    assert(gfv_val(v1, z.union(s2)).contains(a));
                } else {
                    assert(gfv_val(v2, z)[k - gfv_val(v1, z).len()] == a);
                    assert(gfv_val(v2, z.union(s2))[0] == a);
                    assert(gfv_val(v2, z.union(s2)).contains(a));
                }
                lemma_gfv_contains_concat(gfv_val(v1, z.union(s2)), gfv_val(v2, z.union(s2)), a);
            }
        }
        GStmt::Tuple(_, vs) => {
            lemma_gfv_persist_vals(vs, z, s2);
        }
        GStmt::Project(_, t, _) => {
            assert forall|a: usize|
                #[trigger] gfv_stmt_refs(st, z).contains(a) && !s2.contains(a)
                    implies gfv_stmt_refs(st, z.union(s2)).contains(a) by {
                assert(a == t && !z.contains(t));
                assert(gfv_stmt_refs(st, z.union(s2)) == seq![t]);
                assert(seq![t][0] == t);
            }
        }
    }
}

pub proof fn lemma_gfv_persist_seq(q: Seq<GStmt>, z: Set<usize>, s2: Set<usize>)
    ensures
        forall|a: usize|
            #[trigger] gfv_seq(q, z).contains(a) && !s2.contains(a) ==> gfv_seq(
                q,
                z.union(s2),
            ).contains(a),
    decreases q, 2nat,
{
    if q.len() > 0 {
        let t = gtarget(q[0]);
        assert(z.union(s2).insert(t) =~= z.insert(t).union(s2));
        lemma_gfv_persist_stmt(q[0], z.insert(t), s2);
        lemma_gfv_persist_seq(q.drop_first(), z.insert(t), s2);
        assert forall|a: usize|
            #[trigger] gfv_seq(q, z).contains(a) && !s2.contains(a) implies gfv_seq(
            q,
            z.union(s2),
        ).contains(a) by {
            let k = choose|k: int| 0 <= k < gfv_seq(q, z).len() && gfv_seq(q, z)[k] == a;
            if k < gfv_stmt_refs(q[0], z.insert(t)).len() {
                assert(gfv_stmt_refs(q[0], z.insert(t))[k] == a);
                assert(gfv_stmt_refs(q[0], z.insert(t)).contains(a));
                assert(gfv_stmt_refs(q[0], z.insert(t).union(s2)).contains(a));
                assert(gfv_stmt_refs(q[0], z.union(s2).insert(t)).contains(a));
            } else {
                assert(gfv_seq(q.drop_first(), z.insert(t))[k - gfv_stmt_refs(
                    q[0],
                    z.insert(t),
                ).len()] == a);
                assert(gfv_seq(q.drop_first(), z.insert(t)).contains(a));
                assert(gfv_seq(q.drop_first(), z.insert(t).union(s2)).contains(a));
                assert(gfv_seq(q.drop_first(), z.union(s2).insert(t)).contains(a));
            }
            lemma_gfv_contains_concat(
                gfv_stmt_refs(q[0], z.union(s2).insert(t)),
                gfv_seq(q.drop_first(), z.union(s2).insert(t)),
                a,
            );
        }
    }
}

pub proof fn lemma_gfv_persist_body(body: GBody, z: Set<usize>, s2: Set<usize>)
    ensures
        forall|a: usize|
            #[trigger] gfv_body(body, z).contains(a) && !s2.contains(a) ==> gfv_body(
                body,
                z.union(s2),
            ).contains(a),
    decreases body, 3nat,
{
    lemma_gfv_persist_seq(body.stmts, z, s2);
    lemma_bound_after_union(body.stmts, z, s2);
    assert forall|a: usize|
        #[trigger] gfv_body(body, z).contains(a) && !s2.contains(a) implies gfv_body(
        body,
        z.union(s2),
    ).contains(a) by {
        let k = choose|k: int| 0 <= k < gfv_body(body, z).len() && gfv_body(body, z)[k] == a;
        if k < gfv_seq(body.stmts, z).len() {
            assert(gfv_seq(body.stmts, z)[k] == a);
            assert(gfv_seq(body.stmts, z).contains(a));
            assert(gfv_seq(body.stmts, z.union(s2)).contains(a));
        } else {
            assert(gfv_tail(body.tail, bound_after(body.stmts, z))[k - gfv_seq(
                body.stmts,
                z,
            ).len()] == a);
            match body.tail {
                Some(v) => {
                    assert(gfv_val(v, bound_after(body.stmts, z))[0] == a);
                    assert(gfv_val(v, bound_after(body.stmts, z.union(s2)))[0] == a);
                    assert(gfv_val(v, bound_after(body.stmts, z.union(s2))).contains(a));
                }
                None => {}
            }
        }
        lemma_gfv_contains_concat(
            gfv_seq(body.stmts, z.union(s2)),
            gfv_tail(body.tail, bound_after(body.stmts, z.union(s2))),
            a,
        );
    }
}


/// Every identity of the list lies below `n`.
pub open spec fn gids_all_below(ids: Seq<usize>, n: nat) -> bool {
    forall|k: int| 0 <= k < ids.len() ==> ((#[trigger] ids[k]) as nat) < n
}

/// Every parameter of every function literal, however nested, lies below `n`.
pub open spec fn gargs_below_stmt(s: GStmt, n: nat) -> bool
    decreases s,
{
    match s {
        GStmt::Fun(_, args, body) => gids_all_below(args, n) && gargs_below_seq(body.stmts, n),
        _ => true,
    }
}

pub open spec fn gargs_below_seq(q: Seq<GStmt>, n: nat) -> bool
    decreases q,
{
    if q.len() == 0 {
        true
    } else {
        gargs_below_stmt(q[0], n) && gargs_below_seq(q.drop_first(), n)
    }
}

/// Parameter bounds concatenate.
pub proof fn lemma_gargs_below_concat(a: Seq<GStmt>, b: Seq<GStmt>, n: nat)
    requires
        gargs_below_seq(a, n),
        gargs_below_seq(b, n),
    ensures
        gargs_below_seq(a + b, n),
    decreases a.len(),
{
    if a.len() == 0 {
        assert(a + b =~= b);
    } else {
        assert((a + b).drop_first() =~= a.drop_first() + b);
        assert((a + b)[0] == a[0]);
        lemma_gargs_below_concat(a.drop_first(), b, n);
    }
}

/// The linearizer's function parameters come from the source tree alone, so
/// any bound on the tree's identities bounds them too.
pub proof fn lemma_convert_args_below(e: Expr, c: nat, level: nat, n: nat)
    requires
        n <= usize::MAX,
        expr_ids_below(e, n as usize),
        c + expr_size(e) <= usize::MAX,
    ensures
        gargs_below_seq(convert_model(e, c, level).0, n),
    decreases e,
{
    assert(gargs_below_seq(Seq::<GStmt>::empty(), n));
    match e {
        Expr::Var(_) => {}
        Expr::Number(_) => {}
        Expr::Abs(v, body) => {
            lemma_convert_args_below(*body, c + 1, level + 1, n);
            let inner = convert_model(*body, c + 1, level + 1);
            let m = convert_model(e, c, level);
            let fstmt = m.0[0];
            assert(m.0.drop_first() =~= Seq::<GStmt>::empty());
            assert forall|k: int| 0 <= k < seq![vid(v)].len() implies ((#[trigger] seq![
                vid(v),
            ][k]) as nat) < n by {
                assert(seq![vid(v)][0] == vid(v));
            }
            assert(gids_all_below(seq![vid(v)], n));
            assert(gargs_below_stmt(fstmt, n));
            assert(gargs_below_seq(Seq::<GStmt>::empty(), n));
            assert(gargs_below_seq(m.0, n));
        }
        Expr::App(e1, e2) => {
            let r1 = convert_model(*e1, c, level);
            lemma_convert_model_counter(*e1, c, level);
            lemma_convert_args_below(*e1, c, level, n);
            lemma_convert_args_below(*e2, r1.2, level, n);
            let r2 = convert_model(*e2, r1.2, level);
            let m = convert_model(e, c, level);
            match r1.1 {
                GValue::Local(f) => {
                    let appst = GStmt::App(r2.2 as usize, f, seq![r2.1]);
                    assert(seq![appst].drop_first() =~= Seq::<GStmt>::empty());
                    assert(seq![appst][0] == appst);
                    assert(gargs_below_seq(Seq::<GStmt>::empty(), n));
                    assert(gargs_below_stmt(appst, n));
                    assert(gargs_below_seq(seq![appst], n));
                    lemma_gargs_below_concat(r1.0, r2.0, n);
                    lemma_gargs_below_concat(r1.0 + r2.0, seq![appst], n);
                }
                _ => {
                    lemma_gargs_below_concat(r1.0, r2.0, n);
                }
            }
        }
        Expr::BOp(op, e1, e2) => {
            let r1 = convert_model(*e1, c, level);
            lemma_convert_model_counter(*e1, c, level);
            lemma_convert_args_below(*e1, c, level, n);
            lemma_convert_args_below(*e2, r1.2, level, n);
            let r2 = convert_model(*e2, r1.2, level);
            let m = convert_model(e, c, level);
            let bopst = GStmt::BOp(r2.2 as usize, op, r1.1, r2.1);
            assert(seq![bopst].drop_first() =~= Seq::<GStmt>::empty());
            assert(seq![bopst][0] == bopst);
            assert(gargs_below_seq(Seq::<GStmt>::empty(), n));
            assert(gargs_below_stmt(bopst, n));
            assert(gargs_below_seq(seq![bopst], n));
            lemma_gargs_below_concat(r1.0, r2.0, n);
            lemma_gargs_below_concat(r1.0 + r2.0, seq![bopst], n);
        }
    }
}



/// Parameter bounds only loosen.
pub proof fn lemma_gargs_below_mono(q: Seq<GStmt>, n1: nat, n2: nat)
    requires
        gargs_below_seq(q, n1),
        n1 <= n2,
    ensures
        gargs_below_seq(q, n2),
    decreases q, 1nat,
{
    if q.len() > 0 {
        lemma_gargs_below_mono_stmt(q[0], n1, n2);
        lemma_gargs_below_mono(q.drop_first(), n1, n2);
    }
}

proof fn lemma_gargs_below_mono_stmt(s: GStmt, n1: nat, n2: nat)
    requires
        gargs_below_stmt(s, n1),
        n1 <= n2,
    ensures
        gargs_below_stmt(s, n2),
    decreases s, 2nat,
{
    match s {
        GStmt::Fun(_, _, body) => {
            lemma_gargs_below_mono(body.stmts, n1, n2);
        }
        _ => {}
    }
}

/// A local operand not in force appears among the free occurrences.
proof fn lemma_gfv_vals_member(vs: Seq<GValue>, z: Set<usize>, k: int)
    requires
        0 <= k < vs.len(),
        vs[k] is Local,
        !z.contains(vs[k]->Local_0),
    ensures
        gfv_vals(vs, z).contains(vs[k]->Local_0),
    decreases vs.len(),
{
    let a = vs[k]->Local_0;
    if k == 0 {
        assert(gfv_val(vs[0], z)[0] == a);
        assert(gfv_val(vs[0], z).contains(a));
    } else {
        assert(vs.drop_first()[k - 1] == vs[k]);
        lemma_gfv_vals_member(vs.drop_first(), z, k - 1);
    }
    lemma_gfv_contains_concat(gfv_val(vs[0], z), gfv_vals(vs.drop_first(), z), a);
}

/// Re-basing well-scopedness onto a chosen seed: a list that is well scoped
/// over any ambient set below the target watermark is also well scoped over
/// the seed together with its own free variables under that seed. This is
/// what lets a lifted function keep only its parameters: everything else it
/// reads is among its computed free variables.
pub proof fn lemma_rebase_seq(q: Seq<GStmt>, bb: Set<usize>, cw: nat, sd: Set<usize>)
    requires
        gwscoped_seq(q, bb),
        gargs_below_seq(q, cw),
        cw + gtargets_seq(q).len() <= usize::MAX,
        forall|k: int|
            0 <= k < gtargets_seq(q).len() ==> ((#[trigger] gtargets_seq(q)[k]) as nat) == cw
                + k,
        forall|a: usize| bb.contains(a) ==> (a as nat) < cw,
        forall|a: usize| sd.contains(a) ==> (a as nat) < cw,
    ensures
        gwscoped_seq(q, sd.union(idset(gfv_seq(q, sd)))),
    decreases q, 1nat,
{
    if q.len() > 0 {
        let t = gtarget(q[0]);
        assert(gwscoped_stmt(q[0], bb));
        assert(gwscoped_seq(q.drop_first(), bb.insert(t)));
        assert(gargs_below_stmt(q[0], cw));
        assert(gargs_below_seq(q.drop_first(), cw));
        let ts = gtargets_seq(q);
        let ts0 = gtargets_stmt(q[0]);
        let fseq = gfv_seq(q, sd);
        let ff = idset(fseq);
        let goal = sd.union(ff);
        let z1 = sd.insert(t);
        let contribution = gfv_stmt_refs(q[0], z1);
        assert(ts == ts0 + gtargets_seq(q.drop_first()));
        assert(ts0[0] == t) by {
            match q[0] {
                GStmt::Fun(_, _, _) => {
                    assert(ts0 == seq![t] + gtargets_seq(q[0]->Fun_2.stmts));
                    assert(seq![t][0] == t);
                }
                _ => {
                    assert(ts0 == seq![gtarget(q[0])]);
                }
            }
        }
        assert(ts[0] == ts0[0]);
        assert((t as nat) == cw);
        lemma_idset_contains(fseq, t);
        // membership in the whole list from membership in the head's part
        assert forall|a: usize| contribution.contains(a) implies ff.contains(a) by {
            lemma_gfv_contains_concat(contribution, gfv_seq(q.drop_first(), z1), a);
            lemma_idset_contains(fseq, a);
        }
        // the head statement, re-scoped
        match q[0] {
            GStmt::Fun(tt, args2, body2) => {
                let nbody = gtargets_seq(body2.stmts).len();
                assert(ts0 == seq![t] + gtargets_seq(body2.stmts));
                assert forall|k: int|
                    0 <= k < nbody implies ((#[trigger] gtargets_seq(body2.stmts)[k]) as nat)
                        == (cw + 1) + k by {
                    assert(ts[1 + k] == gtargets_seq(body2.stmts)[k]);
                }
                let sd2 = sd.union(idset(args2));
                assert(gargs_below_stmt(q[0], cw));
                assert(gids_all_below(args2, cw));
                assert forall|a: usize| idset(args2).contains(a) implies (a as nat) < cw by {
                    lemma_idset_contains(args2, a);
                    let j = choose|j: int| 0 <= j < args2.len() && args2[j] == a;
                    assert(((args2[j]) as nat) < cw);
                }
                assert forall|a: usize| bb.union(idset(args2)).contains(a) implies (a as nat)
                    < cw + 1 by {}
                assert forall|a: usize| sd2.contains(a) implies (a as nat) < cw + 1 by {}
                lemma_gargs_below_mono(body2.stmts, cw, cw + 1);
                lemma_rebase_body(body2, bb.union(idset(args2)), cw + 1, sd2);
                let f2 = idset(gfv_body(body2, sd2));
                // free variables of the body under the plain seed persist when
                // the head's own fresh name joins the seed: nothing in the
                // body mentions it
                lemma_gfv_scope_body(body2, bb.union(idset(args2)), sd2);
                lemma_gfv_persist_body(body2, sd2, Set::empty().insert(t));
                assert(sd2.union(Set::empty().insert(t)) =~= z1.union(idset(args2)));
                assert forall|a: usize| f2.contains(a) implies goal.union(idset(
                    args2,
                )).contains(a) by {
                    lemma_idset_contains(gfv_body(body2, sd2), a);
                    assert(gfv_body(body2, sd2).contains(a));
                    assert(bb.union(idset(args2)).union(sd2).contains(a));
                    assert((a as nat) < cw + 1);
                    if !idset(args2).contains(a) && !sd.contains(a) {
                        assert((a as nat) < cw);
                        assert(a != t);
                        assert(!Set::empty().insert(t).contains(a));
                        assert(gfv_body(body2, sd2.union(Set::empty().insert(t))).contains(a));
                        assert(gfv_body(body2, z1.union(idset(args2))).contains(a));
                        assert(contribution.contains(a));
                    }
                }
                lemma_gwscoped_mono_body(
                    body2,
                    sd2.union(f2),
                    goal.union(idset(args2)),
                );
                assert(gwscoped_stmt(q[0], goal));
            }
            GStmt::App(res, f, vs) => {
                assert(bb.contains(f));
                assert((f as nat) < cw);
                assert(f != t);
                if !sd.contains(f) {
                    let head = if z1.contains(f) {
                        Seq::<usize>::empty()
                    } else {
                        seq![f]
                    };
                    assert(head[0] == f);
                    assert(head.contains(f));
                    lemma_gfv_contains_concat(head, gfv_vals(vs, z1), f);
                    assert(contribution.contains(f));
                }
                assert(goal.contains(f) || sd.contains(f));
                assert forall|k: int| 0 <= k < vs.len() implies gok_val(
                    #[trigger] vs[k],
                    goal,
                ) by {
                    match vs[k] {
                        GValue::Local(i) => {
                            assert(bb.contains(i));
                            assert(i != t);
                            if !sd.contains(i) {
                                lemma_gfv_vals_member(vs, z1, k);
                                let head = if z1.contains(f) {
                                    Seq::<usize>::empty()
                                } else {
                                    seq![f]
                                };
                                lemma_gfv_contains_concat(head, gfv_vals(vs, z1), i);
                            }
                        }
                        _ => {}
                    }
                }
                assert(gwscoped_stmt(q[0], goal));
            }
            GStmt::BOp(res, _, v1, v2) => {
                assert forall|a: usize|
                    (v1 is Local && a == v1->Local_0) || (v2 is Local && a == v2->Local_0)
                        implies goal.contains(a) || sd.contains(a) by {
                    assert(bb.contains(a));
                    assert(a != t);
                    if !sd.contains(a) {
                        if v1 is Local && a == v1->Local_0 {
                            assert(gfv_val(v1, z1)[0] == a);
                            assert(gfv_val(v1, z1).contains(a));
                        } else {
                            assert(gfv_val(v2, z1)[0] == a);
                            assert(gfv_val(v2, z1).contains(a));
                        }
                        lemma_gfv_contains_concat(gfv_val(v1, z1), gfv_val(v2, z1), a);
                    }
                }
                assert(gwscoped_stmt(q[0], goal));
            }
            GStmt::Tuple(res, vs) => {
                assert forall|k: int| 0 <= k < vs.len() implies gok_val(
                    #[trigger] vs[k],
                    goal,
                ) by {
                    match vs[k] {
                        GValue::Local(i) => {
                            assert(bb.contains(i));
                            assert(i != t);
                            if !sd.contains(i) {
                                lemma_gfv_vals_member(vs, z1, k);
                            }
                        }
                        _ => {}
                    }
                }
                assert(gwscoped_stmt(q[0], goal));
            }
            GStmt::Project(res, tp, _) => {
                assert(bb.contains(tp));
                assert(tp != t);
                if !sd.contains(tp) {
                    assert(contribution == seq![tp]);
                    assert(seq![tp][0] == tp);
                    assert(contribution.contains(tp));
                }
                assert(gwscoped_stmt(q[0], goal));
            }
        }
        // the rest, re-scoped one binding later
        let nn0 = ts0.len();
        assert forall|k: int|
            0 <= k < gtargets_seq(q.drop_first()).len() implies ((#[trigger] gtargets_seq(
            q.drop_first(),
        )[k]) as nat) == (cw + nn0) + k by {
            assert(ts[nn0 + k] == gtargets_seq(q.drop_first())[k]);
        }
        assert forall|a: usize| bb.insert(t).contains(a) implies (a as nat) < cw + nn0 by {
            assert(nn0 >= 1) by {
                match q[0] {
                    GStmt::Fun(_, _, _) => {
                        assert(ts0 == seq![t] + gtargets_seq(q[0]->Fun_2.stmts));
                    }
                    _ => {}
                }
            }
        }
        assert forall|a: usize| z1.contains(a) implies (a as nat) < cw + nn0 by {
            assert(nn0 >= 1) by {
                match q[0] {
                    GStmt::Fun(_, _, _) => {
                        assert(ts0 == seq![t] + gtargets_seq(q[0]->Fun_2.stmts));
                    }
                    _ => {}
                }
            }
        }
        lemma_gargs_below_mono(q.drop_first(), cw, cw + nn0);
        lemma_rebase_seq(q.drop_first(), bb.insert(t), cw + nn0, z1);
        let frest = idset(gfv_seq(q.drop_first(), z1));
        assert forall|a: usize| z1.union(frest).contains(a) implies goal.insert(t).contains(
            a,
        ) by {
            if frest.contains(a) {
                lemma_idset_contains(gfv_seq(q.drop_first(), z1), a);
                lemma_gfv_contains_concat(contribution, gfv_seq(q.drop_first(), z1), a);
                lemma_idset_contains(fseq, a);
            }
        }
        lemma_gwscoped_mono_seq(q.drop_first(), z1.union(frest), goal.insert(t));
    }
}

pub proof fn lemma_rebase_body(body: GBody, bb: Set<usize>, cw: nat, sd: Set<usize>)
    requires
        gwscoped_body(body, bb),
        gargs_below_seq(body.stmts, cw),
        cw + gtargets_seq(body.stmts).len() <= usize::MAX,
        forall|k: int|
            0 <= k < gtargets_seq(body.stmts).len() ==> ((#[trigger] gtargets_seq(
                body.stmts,
            )[k]) as nat) == cw + k,
        forall|a: usize| bb.contains(a) ==> (a as nat) < cw,
        forall|a: usize| sd.contains(a) ==> (a as nat) < cw,
    ensures
        gwscoped_body(body, sd.union(idset(gfv_body(body, sd)))),
    decreases body, 2nat,
{
    lemma_rebase_seq(body.stmts, bb, cw, sd);
    let fbody = idset(gfv_body(body, sd));
    let fseq = idset(gfv_seq(body.stmts, sd));
    assert forall|a: usize| fseq.contains(a) implies fbody.contains(a) by {
        lemma_idset_contains(gfv_seq(body.stmts, sd), a);
        lemma_gfv_contains_concat(
            gfv_seq(body.stmts, sd),
            gfv_tail(body.tail, bound_after(body.stmts, sd)),
            a,
        );
        lemma_idset_contains(gfv_body(body, sd), a);
    }
    lemma_gwscoped_mono_seq(body.stmts, sd.union(fseq), sd.union(fbody));
    // the tail value is in force at the end
    match body.tail {
        Some(v) => {
            match v {
                GValue::Local(i) => {
                    lemma_bound_after_union(body.stmts, Set::empty(), bb);
                    lemma_bound_after_union(body.stmts, Set::empty(), sd);
                    lemma_bound_after_union(body.stmts, Set::empty(), sd.union(fbody));
                    assert(Set::<usize>::empty().union(bb) =~= bb);
                    assert(Set::<usize>::empty().union(sd) =~= sd);
                    assert(Set::<usize>::empty().union(sd.union(fbody)) =~= sd.union(fbody));
                    let tset = bound_after(body.stmts, Set::empty());
                    assert(bound_after(body.stmts, bb).contains(i));
                    if !tset.contains(i) {
                        assert(bb.contains(i));
                        if !sd.contains(i) {
                            assert(!bound_after(body.stmts, sd).contains(i));
                            assert(gfv_tail(body.tail, bound_after(body.stmts, sd))[0] == i);
                            assert(gfv_tail(
                                body.tail,
                                bound_after(body.stmts, sd),
                            ).contains(i));
                            lemma_gfv_contains_concat(
                                gfv_seq(body.stmts, sd),
                                gfv_tail(body.tail, bound_after(body.stmts, sd)),
                                i,
                            );
                            lemma_idset_contains(gfv_body(body, sd), i);
                        }
                    }
                    assert(bound_after(body.stmts, sd.union(fbody)).contains(i));
                }
                _ => {}
            }
        }
        None => {}
    }
}


/// Every function literal of the list, however nested, is closed: its body
/// has no free variable beyond its own parameters.
pub open spec fn gfuns_closed_stmt(s: GStmt) -> bool
    decreases s,
{
    match s {
        GStmt::Fun(_, args, body) => gfv_body(body, idset(args)).len() == 0
            && gfuns_closed_seq(body.stmts),
        _ => true,
    }
}

pub open spec fn gfuns_closed_seq(q: Seq<GStmt>) -> bool
    decreases q,
{
    if q.len() == 0 {
        true
    } else {
        gfuns_closed_stmt(q[0]) && gfuns_closed_seq(q.drop_first())
    }
}

pub proof fn lemma_gfuns_closed_concat(a: Seq<GStmt>, b: Seq<GStmt>)
    requires
        gfuns_closed_seq(a),
        gfuns_closed_seq(b),
    ensures
        gfuns_closed_seq(a + b),
    decreases a.len(),
{
    if a.len() == 0 {
        assert(a + b =~= b);
    } else {
        assert((a + b).drop_first() =~= a.drop_first() + b);
        assert((a + b)[0] == a[0]);
        lemma_gfuns_closed_concat(a.drop_first(), b);
    }
}

/// Whatever a list bound stays bound once the list is closure-converted:
/// every original binding target survives the rewriting.
pub proof fn lemma_cc_bound_super(q: Seq<GStmt>, c: nat, x: Set<usize>)
    ensures
        bound_after(q, x).subset_of(bound_after(cc_seq_model(q, c).0, x)),
    decreases q,
{
    if q.len() > 0 {
        let t = gtarget(q[0]);
        match q[0] {
            GStmt::Fun(name, args, body) => {
                let inner = cc_seq_model(body.stmts, c + 2);
                let rest = cc_seq_model(q.drop_first(), inner.1);
                let m = cc_seq_model(q, c);
                lemma_cc_bound_super(q.drop_first(), inner.1, x.insert(t));
                let funstmt = m.0[0];
                let tuple = m.0[1];
                assert(m.0 =~= seq![funstmt, tuple] + rest.0);
                lemma_bound_after_concat(seq![funstmt, tuple], rest.0, x);
                assert(seq![funstmt, tuple].drop_first() =~= seq![tuple]);
                assert(seq![tuple].drop_first() =~= Seq::<GStmt>::empty());
                assert(seq![funstmt, tuple][0] == funstmt);
                assert(seq![tuple][0] == tuple);
                assert(gtarget(tuple) == name);
                assert(bound_after(
                    Seq::<GStmt>::empty(),
                    x.insert(gtarget(funstmt)).insert(name),
                ) =~= x.insert(gtarget(funstmt)).insert(name));
                assert(bound_after(seq![tuple], x.insert(gtarget(funstmt))) =~= x.insert(
                    gtarget(funstmt),
                ).insert(name));
                assert(bound_after(seq![funstmt, tuple], x) =~= x.insert(
                    gtarget(funstmt),
                ).insert(name));
                lemma_bound_after_union(
                    rest.0,
                    x.insert(t),
                    Set::empty().insert(gtarget(funstmt)),
                );
                assert(x.insert(gtarget(funstmt)).insert(name) =~= x.insert(t).union(
                    Set::empty().insert(gtarget(funstmt)),
                ));
                assert forall|a: usize| bound_after(q, x).contains(a) implies bound_after(
                    m.0,
                    x,
                ).contains(a) by {
                    assert(bound_after(q.drop_first(), x.insert(t)).contains(a));
                    assert(bound_after(rest.0, x.insert(t)).contains(a));
                }
            }
            GStmt::App(res, f, vs) => {
                let rest = cc_seq_model(q.drop_first(), c + 1);
                let m = cc_seq_model(q, c);
                lemma_cc_bound_super(q.drop_first(), c + 1, x.insert(t));
                let proj = m.0[0];
                let app = m.0[1];
                assert(m.0 =~= seq![proj, app] + rest.0);
                lemma_bound_after_concat(seq![proj, app], rest.0, x);
                assert(seq![proj, app].drop_first() =~= seq![app]);
                assert(seq![app].drop_first() =~= Seq::<GStmt>::empty());
                assert(seq![proj, app][0] == proj);
                assert(seq![app][0] == app);
                assert(gtarget(app) == res);
                assert(bound_after(
                    Seq::<GStmt>::empty(),
                    x.insert(gtarget(proj)).insert(res),
                ) =~= x.insert(gtarget(proj)).insert(res));
                assert(bound_after(seq![app], x.insert(gtarget(proj))) =~= x.insert(
                    gtarget(proj),
                ).insert(res));
                assert(bound_after(seq![proj, app], x) =~= x.insert(gtarget(proj)).insert(res));
                lemma_bound_after_union(
                    rest.0,
                    x.insert(t),
                    Set::empty().insert(gtarget(proj)),
                );
                assert(x.insert(gtarget(proj)).insert(res) =~= x.insert(t).union(
                    Set::empty().insert(gtarget(proj)),
                ));
                assert forall|a: usize| bound_after(q, x).contains(a) implies bound_after(
                    m.0,
                    x,
                ).contains(a) by {
                    assert(bound_after(q.drop_first(), x.insert(t)).contains(a));
                    assert(bound_after(rest.0, x.insert(t)).contains(a));
                }
            }
            _ => {
                let rest = cc_seq_model(q.drop_first(), c);
                let m = cc_seq_model(q, c);
                lemma_cc_bound_super(q.drop_first(), c, x.insert(t));
                assert(m.0 =~= seq![q[0]] + rest.0);
                lemma_bound_after_concat(seq![q[0]], rest.0, x);
                assert(seq![q[0]].drop_first() =~= Seq::<GStmt>::empty());
                assert(seq![q[0]][0] == q[0]);
                assert(bound_after(Seq::<GStmt>::empty(), x.insert(t)) =~= x.insert(t));
                assert(bound_after(seq![q[0]], x) =~= x.insert(t));
            }
        }
    }
}

/// A run of projections out of one record in force is well scoped.
proof fn lemma_projects_wscoped(q: Seq<GStmt>, base: Set<usize>)
    requires
        forall|i: int|
            0 <= i < q.len() ==> (#[trigger] q[i]) is Project && base.contains(
                q[i]->Project_1,
            ),
    ensures
        gwscoped_seq(q, base),
    decreases q,
{
    if q.len() > 0 {
        assert(q[0] is Project && base.contains(q[0]->Project_1));
        assert(gwscoped_stmt(q[0], base));
        assert forall|i: int|
            0 <= i < q.drop_first().len() implies (#[trigger] q.drop_first()[i]) is Project
                && base.insert(gtarget(q[0])).contains(q.drop_first()[i]->Project_1) by {
            assert(q.drop_first()[i] == q[i + 1]);
        }
        lemma_projects_wscoped(q.drop_first(), base.insert(gtarget(q[0])));
    }
}

/// Every binding of a list is in force after it.
proof fn lemma_bound_after_has_targets(q: Seq<GStmt>, x: Set<usize>, i: int)
    requires
        0 <= i < q.len(),
    ensures
        bound_after(q, x).contains(gtarget(q[i])),
    decreases q.len(),
{
    if i == 0 {
        lemma_bound_after_grows(q.drop_first(), x.insert(gtarget(q[0])));
    } else {
        assert(q.drop_first()[i - 1] == q[i]);
        lemma_bound_after_has_targets(q.drop_first(), x.insert(gtarget(q[0])), i - 1);
    }
}

/// Identity sets concatenate.
pub proof fn lemma_idset_concat(a: Seq<usize>, b: Seq<usize>)
    ensures
        idset(a + b) == idset(a).union(idset(b)),
    decreases b.len(),
{
    if b.len() == 0 {
        assert(a + b =~= a);
        assert(idset(Seq::<usize>::empty()) =~= Set::<usize>::empty());
        assert(idset(a + b) =~= idset(a).union(idset(b)));
    } else {
        assert((a + b).drop_last() =~= a + b.drop_last());
        assert((a + b).last() == b.last());
        lemma_idset_concat(a, b.drop_last());
        assert(idset(a + b) =~= idset(a).union(idset(b)));
    }
}

/// The linearizer emits no record statements: everything is a function
/// literal, a call or arithmetic.
pub proof fn lemma_convert_pre_cc(e: Expr, c: nat, level: nat)
    ensures
        gpre_cc_seq(convert_model(e, c, level).0),
    decreases e,
{
    assert(gpre_cc_seq(Seq::<GStmt>::empty()));
    match e {
        Expr::Var(_) => {}
        Expr::Number(_) => {}
        Expr::Abs(v, body) => {
            lemma_convert_pre_cc(*body, c + 1, level + 1);
            let m = convert_model(e, c, level);
            assert(m.0.drop_first() =~= Seq::<GStmt>::empty());
            assert(gpre_cc_stmt(m.0[0]));
        }
        Expr::App(e1, e2) => {
            let r1 = convert_model(*e1, c, level);
            lemma_convert_pre_cc(*e1, c, level);
            lemma_convert_pre_cc(*e2, r1.2, level);
            let r2 = convert_model(*e2, r1.2, level);
            match r1.1 {
                GValue::Local(f) => {
                    let appst = GStmt::App(r2.2 as usize, f, seq![r2.1]);
                    assert(seq![appst].drop_first() =~= Seq::<GStmt>::empty());
                    assert(seq![appst][0] == appst);
                    assert(gpre_cc_stmt(appst));
                    assert(gpre_cc_seq(seq![appst]));
                    lemma_gpre_cc_concat(r1.0, r2.0);
                    lemma_gpre_cc_concat(r1.0 + r2.0, seq![appst]);
                }
                _ => {
                    lemma_gpre_cc_concat(r1.0, r2.0);
                }
            }
        }
        Expr::BOp(op, e1, e2) => {
            let r1 = convert_model(*e1, c, level);
            lemma_convert_pre_cc(*e1, c, level);
            lemma_convert_pre_cc(*e2, r1.2, level);
            let r2 = convert_model(*e2, r1.2, level);
            let bopst = GStmt::BOp(r2.2 as usize, op, r1.1, r2.1);
            assert(seq![bopst].drop_first() =~= Seq::<GStmt>::empty());
            assert(seq![bopst][0] == bopst);
            assert(gpre_cc_stmt(bopst));
            assert(gpre_cc_seq(seq![bopst]));
            lemma_gpre_cc_concat(r1.0, r2.0);
            lemma_gpre_cc_concat(r1.0 + r2.0, seq![bopst]);
        }
    }
}

proof fn lemma_gpre_cc_concat(a: Seq<GStmt>, b: Seq<GStmt>)
    requires
        gpre_cc_seq(a),
        gpre_cc_seq(b),
    ensures
        gpre_cc_seq(a + b),
    decreases a.len(),
{
    if a.len() == 0 {
        assert(a + b =~= b);
    } else {
        assert((a + b).drop_first() =~= a.drop_first() + b);
        assert((a + b)[0] == a[0]);
        lemma_gpre_cc_concat(a.drop_first(), b);
    }
}


/// Closure conversion closedness: on a well-scoped list whose bindings are
/// the consecutive fresh identities past everything in scope - exactly what
/// the linearizer emits - the conversion returns a list that is well scoped
/// over the same ambient set, in which every function literal, at any
/// depth, is closed: each lifted body reads only its own parameters and the
/// record fields its prepended projections bound.
pub proof fn lemma_cc_all_closed(q: Seq<GStmt>, bb: Set<usize>, cw: nat, c: nat)
    requires
        gpre_cc_seq(q),
        gwscoped_seq(q, bb),
        gargs_below_seq(q, cw),
        cw + gtargets_seq(q).len() <= c,
        c + gsize_seq(q) <= usize::MAX,
        forall|k: int|
            0 <= k < gtargets_seq(q).len() ==> ((#[trigger] gtargets_seq(q)[k]) as nat) == cw
                + k,
        forall|a: usize| bb.contains(a) ==> (a as nat) < cw,
    ensures
        gwscoped_seq(cc_seq_model(q, c).0, bb),
        gfuns_closed_seq(cc_seq_model(q, c).0),
    decreases q, 1nat,
{
    if q.len() == 0 {
        assert(gwscoped_seq(cc_seq_model(q, c).0, bb));
        assert(gfuns_closed_seq(cc_seq_model(q, c).0));
    } else {
        assert(gpre_cc_stmt(q[0])) by {
            assert(gpre_cc_seq(q));
        }
        match q[0] {
            GStmt::Fun(_, _, _) => {
                lemma_cc_fun_case(q, bb, cw, c);
            }
            GStmt::App(_, _, _) => {
                lemma_cc_app_case(q, bb, cw, c);
            }
            GStmt::BOp(_, _, _, _) => {
                lemma_cc_bop_case(q, bb, cw, c);
            }
            _ => {
                assert(false);
            }
        }
    }
}

#[verifier::rlimit(100)]
#[verifier::spinoff_prover]
proof fn lemma_cc_fun_case(q: Seq<GStmt>, bb: Set<usize>, cw: nat, c: nat)
    requires
        gpre_cc_seq(q),
        gwscoped_seq(q, bb),
        gargs_below_seq(q, cw),
        cw + gtargets_seq(q).len() <= c,
        c + gsize_seq(q) <= usize::MAX,
        forall|k: int|
            0 <= k < gtargets_seq(q).len() ==> ((#[trigger] gtargets_seq(q)[k]) as nat) == cw
                + k,
        forall|a: usize| bb.contains(a) ==> (a as nat) < cw,
        q.len() > 0,
        q[0] is Fun,
    ensures
        gwscoped_seq(cc_seq_model(q, c).0, bb),
        gfuns_closed_seq(cc_seq_model(q, c).0),
    decreases q, 0nat,
{
    let t = gtarget(q[0]);
    assert(gpre_cc_stmt(q[0]));
    assert(gpre_cc_seq(q.drop_first()));
    assert(gwscoped_stmt(q[0], bb));
    assert(gwscoped_seq(q.drop_first(), bb.insert(t)));
    assert(gargs_below_stmt(q[0], cw));
    assert(gargs_below_seq(q.drop_first(), cw));
    let ts = gtargets_seq(q);
    let ts0 = gtargets_stmt(q[0]);
    assert(ts == ts0 + gtargets_seq(q.drop_first()));
    assert(gsize_seq(q) == gsize_stmt(q[0]) + gsize_seq(q.drop_first()));
    let name = q[0]->Fun_0;
    let args2 = q[0]->Fun_1;
    let body2 = q[0]->Fun_2;
    assert(gsize_stmt(q[0]) == 2 + gsize_seq(body2.stmts));
    let bts = gtargets_seq(body2.stmts);
    let nbody = bts.len();
    assert(ts0 == seq![t] + bts);
    assert(seq![t][0] == t);
    assert(ts[0] == t);
    assert((t as nat) == cw);
    assert forall|k: int|
        0 <= k < nbody implies ((#[trigger] bts[k]) as nat) == (cw + 1) + k by {
        assert(ts[1 + k] == bts[k]);
    }
    // parameters lie below the watermark
    assert(gids_all_below(args2, cw));
    assert forall|a: usize| idset(args2).contains(a) implies (a as nat) < cw by {
        lemma_idset_contains(args2, a);
        let j = choose|j: int| 0 <= j < args2.len() && args2[j] == a;
        assert(((args2[j]) as nat) < cw);
    }
    // the body, re-scoped onto its parameters and free variables; the
    // closure record lists each captured identity once
    let argset = idset(args2);
    let rawfv = gfv_body(body2, argset);
    let fvlist = dedup_first(rawfv);
    let fvset = idset(fvlist);
    assert forall|a: usize| fvset.contains(a) <==> idset(rawfv).contains(a) by {
        lemma_idset_contains(fvlist, a);
        lemma_idset_contains(rawfv, a);
        lemma_dedup_contains(rawfv, Set::empty(), a);
    }
    assert(fvset =~= idset(rawfv));
    let af = argset.union(fvset);
    lemma_gargs_below_mono(body2.stmts, cw, cw + 1);
    assert forall|a: usize| bb.union(argset).contains(a) implies (a as nat) < cw
        + 1 by {}
    assert forall|a: usize| argset.contains(a) implies (a as nat) < cw + 1 by {}
    lemma_rebase_body(body2, bb.union(argset), cw + 1, argset);
    // the free variables come from the ambient scope
    lemma_gfv_scope_body(body2, bb.union(argset), argset);
    lemma_free_vars_exclude_body(body2, argset);
    assert forall|a: usize| fvset.contains(a) implies bb.contains(a) && (a as nat)
        < cw by {
        lemma_idset_contains(rawfv, a);
        assert(rawfv.contains(a));
        assert(bb.union(argset).union(argset).contains(a));
        assert(!argset.contains(a));
    }
    assert forall|a: usize| af.contains(a) implies (a as nat) < cw + 1 by {}
    // closure-convert the body against that scope
    let inner = cc_seq_model(body2.stmts, c + 2);
    lemma_cc_model_counter(body2.stmts, c + 2);
    lemma_cc_all_closed(body2.stmts, af, cw + 1, c + 2);
    // the rewritten body, behind its projections, is closed
    let env = c as usize;
    let newfun = (c + 1) as usize;
    let n = fvlist.len();
    let projs = Seq::new(
        n,
        |j: int| GStmt::Project(fvlist[n - 1 - j], env, (n - j) as usize),
    );
    let newgbody = GBody {
        stmts: projs + inner.0,
        tail: body2.tail,
        level: body2.level,
    };
    let newargs = seq![env] + args2;
    lemma_idset_concat(seq![env], args2);
    assert(seq![env].drop_last() =~= Seq::<usize>::empty());
    assert(idset(Seq::<usize>::empty()) =~= Set::<usize>::empty());
    assert(idset(seq![env]) =~= Set::<usize>::empty().insert(env));
    let base = idset(newargs);
    assert(base =~= argset.insert(env));
    assert forall|i: int|
        0 <= i < projs.len() implies (#[trigger] projs[i]) is Project
            && base.contains(projs[i]->Project_1) by {}
    lemma_projects_wscoped(projs, base);
    // everything the projections bind is in force for the body
    assert forall|a: usize| af.contains(a) implies bound_after(
        projs,
        base,
    ).contains(a) by {
        if argset.contains(a) {
            lemma_bound_after_grows(projs, base);
        } else {
            assert(fvset.contains(a));
            lemma_idset_contains(fvlist, a);
            let j = choose|j: int| 0 <= j < fvlist.len() && fvlist[j] == a;
            assert(projs[n - 1 - j] == GStmt::Project(
                fvlist[j],
                env,
                (n - (n - 1 - j)) as usize,
            ));
            assert(gtarget(projs[n - 1 - j]) == a);
            lemma_bound_after_has_targets(projs, base, n - 1 - j);
        }
    }
    lemma_gwscoped_mono_seq(inner.0, af, bound_after(projs, base));
    lemma_gwscoped_concat(projs, inner.0, base);
    // the tail value survives: old bindings survive conversion
    match body2.tail {
        Some(v) => {
            match v {
                GValue::Local(i) => {
                    assert(gok_val(v, bound_after(body2.stmts, af)));
                    lemma_bound_after_union(body2.stmts, Set::empty(), af);
                    assert(Set::<usize>::empty().union(af) =~= af);
                    let tset = bound_after(body2.stmts, Set::empty());
                    if tset.contains(i) {
                        lemma_cc_bound_super(body2.stmts, c + 2, Set::empty());
                        assert(bound_after(inner.0, Set::empty()).contains(i));
                        lemma_bound_after_concat(projs, inner.0, base);
                        lemma_bound_after_union(
                            inner.0,
                            Set::empty(),
                            bound_after(projs, base),
                        );
                        assert(Set::<usize>::empty().union(bound_after(
                            projs,
                            base,
                        )) =~= bound_after(projs, base));
                        assert(bound_after(newgbody.stmts, base).contains(i));
                    } else {
                        assert(af.contains(i));
                        assert(bound_after(projs, base).contains(i));
                        lemma_bound_after_concat(projs, inner.0, base);
                        lemma_bound_after_grows(
                            inner.0,
                            bound_after(projs, base),
                        );
                        assert(bound_after(newgbody.stmts, base).contains(i));
                    }
                }
                _ => {}
            }
        }
        None => {}
    }
    assert(gwscoped_body(newgbody, base));
    lemma_gwscoped_fv_empty_body(newgbody, base, base);
    // the emitted function and record are well scoped outside
    let funstmt = GStmt::Fun(newfun, newargs, newgbody);
    lemma_gwscoped_mono_body(newgbody, base, bb.union(base));
    assert(gwscoped_stmt(funstmt, bb));
    let tuplevals = seq![GValue::Global(newfun)] + fvlist.map_values(
        |i: usize| GValue::Local(i),
    );
    let tuplestmt = GStmt::Tuple(name, tuplevals);
    assert forall|k: int| 0 <= k < tuplevals.len() implies gok_val(
        #[trigger] tuplevals[k],
        bb.insert(newfun),
    ) by {
        if k > 0 {
            assert(tuplevals[k] == fvlist.map_values(|i: usize| GValue::Local(i))[k
                - 1]);
            assert(tuplevals[k] == GValue::Local(fvlist[k - 1]));
            lemma_idset_contains(fvlist, fvlist[k - 1]);
            assert(fvset.contains(fvlist[k - 1]));
        }
    }
    assert(gwscoped_stmt(tuplestmt, bb.insert(newfun)));
    // the rest, past this binding
    let nrest = gtargets_seq(q.drop_first()).len();
    assert forall|k: int|
        0 <= k < nrest implies ((#[trigger] gtargets_seq(q.drop_first())[k]) as nat)
            == (cw + 1 + nbody) + k by {
        assert(ts[(1 + nbody) + k] == gtargets_seq(q.drop_first())[k]);
    }
    assert forall|a: usize| bb.insert(name).contains(a) implies (a as nat) < cw + 1
        + nbody by {}
    lemma_gargs_below_mono(q.drop_first(), cw, cw + 1 + nbody);
    lemma_cc_all_closed(q.drop_first(), bb.insert(name), cw + 1 + nbody, inner.1);
    let rest = cc_seq_model(q.drop_first(), inner.1);
    let m = cc_seq_model(q, c);
    assert(m.0 == seq![funstmt, tuplestmt] + rest.0);
    // assemble scopedness and closedness of the whole output
    assert(seq![funstmt, tuplestmt].drop_first() =~= seq![tuplestmt]);
    assert(seq![tuplestmt].drop_first() =~= Seq::<GStmt>::empty());
    assert(seq![funstmt, tuplestmt][0] == funstmt);
    assert(seq![tuplestmt][0] == tuplestmt);
    assert(gwscoped_seq(Seq::<GStmt>::empty(), bb.insert(newfun).insert(name)));
    assert(gwscoped_seq(seq![tuplestmt], bb.insert(newfun)));
    assert(gwscoped_seq(seq![funstmt, tuplestmt], bb));
    assert(bound_after(
        Seq::<GStmt>::empty(),
        bb.insert(newfun).insert(name),
    ) =~= bb.insert(newfun).insert(name));
    assert(bound_after(seq![tuplestmt], bb.insert(newfun)) =~= bb.insert(
        newfun,
    ).insert(name));
    assert(bound_after(seq![funstmt, tuplestmt], bb) =~= bb.insert(newfun).insert(
        name,
    ));
    lemma_gwscoped_mono_seq(
        rest.0,
        bb.insert(name),
        bb.insert(newfun).insert(name),
    );
    lemma_gwscoped_concat(seq![funstmt, tuplestmt], rest.0, bb);
    assert(gwscoped_seq(m.0, bb));
    // closedness
    assert(gfv_body(newgbody, idset(newargs)).len() == 0);
    assert(gfuns_closed_seq(projs + inner.0)) by {
        assert forall|i: int| 0 <= i < projs.len() implies gfuns_closed_stmt(
            #[trigger] projs[i],
        ) by {}
        lemma_projs_closed(projs);
        lemma_gfuns_closed_concat(projs, inner.0);
    }
    assert(gfuns_closed_stmt(funstmt));
    assert(gfuns_closed_stmt(tuplestmt));
    assert(gfuns_closed_seq(Seq::<GStmt>::empty()));
    assert(gfuns_closed_seq(seq![tuplestmt]));
    assert(gfuns_closed_seq(seq![funstmt, tuplestmt]));
    lemma_gfuns_closed_concat(seq![funstmt, tuplestmt], rest.0);
    assert(gfuns_closed_seq(m.0));
}

#[verifier::rlimit(100)]
#[verifier::spinoff_prover]
proof fn lemma_cc_app_case(q: Seq<GStmt>, bb: Set<usize>, cw: nat, c: nat)
    requires
        gpre_cc_seq(q),
        gwscoped_seq(q, bb),
        gargs_below_seq(q, cw),
        cw + gtargets_seq(q).len() <= c,
        c + gsize_seq(q) <= usize::MAX,
        forall|k: int|
            0 <= k < gtargets_seq(q).len() ==> ((#[trigger] gtargets_seq(q)[k]) as nat) == cw
                + k,
        forall|a: usize| bb.contains(a) ==> (a as nat) < cw,
        q.len() > 0,
        q[0] is App,
    ensures
        gwscoped_seq(cc_seq_model(q, c).0, bb),
        gfuns_closed_seq(cc_seq_model(q, c).0),
    decreases q, 0nat,
{
    let t = gtarget(q[0]);
    assert(gpre_cc_stmt(q[0]));
    assert(gpre_cc_seq(q.drop_first()));
    assert(gwscoped_stmt(q[0], bb));
    assert(gwscoped_seq(q.drop_first(), bb.insert(t)));
    assert(gargs_below_stmt(q[0], cw));
    assert(gargs_below_seq(q.drop_first(), cw));
    let ts = gtargets_seq(q);
    let ts0 = gtargets_stmt(q[0]);
    assert(ts == ts0 + gtargets_seq(q.drop_first()));
    assert(gsize_seq(q) == gsize_stmt(q[0]) + gsize_seq(q.drop_first()));
    let res = q[0]->App_0;
    let f = q[0]->App_1;
    let vs = q[0]->App_2;
    assert(gsize_stmt(q[0]) == 1);
    assert(ts0 == seq![t]);
    assert(seq![t][0] == t);
    assert(ts[0] == t);
    assert((t as nat) == cw);
    let ptr = c as usize;
    let proj = GStmt::Project(ptr, f, 0);
    let appst = GStmt::App(res, ptr, seq![GValue::Local(f)] + vs);
    let nrest = gtargets_seq(q.drop_first()).len();
    assert forall|k: int|
        0 <= k < nrest implies ((#[trigger] gtargets_seq(q.drop_first())[k]) as nat)
            == (cw + 1) + k by {
        assert(ts[1 + k] == gtargets_seq(q.drop_first())[k]);
    }
    assert forall|a: usize| bb.insert(res).contains(a) implies (a as nat) < cw
        + 1 by {}
    lemma_gargs_below_mono(q.drop_first(), cw, cw + 1);
    lemma_cc_all_closed(q.drop_first(), bb.insert(res), cw + 1, c + 1);
    let rest = cc_seq_model(q.drop_first(), c + 1);
    let m = cc_seq_model(q, c);
    assert(m.0 == seq![proj, appst] + rest.0);
    assert(gwscoped_stmt(proj, bb));
    assert forall|k: int|
        0 <= k < (seq![GValue::Local(f)] + vs).len() implies gok_val(
        #[trigger] (seq![GValue::Local(f)] + vs)[k],
        bb.insert(ptr),
    ) by {
        if k == 0 {
            assert((seq![GValue::Local(f)] + vs)[0] == GValue::Local(f));
        } else {
            assert((seq![GValue::Local(f)] + vs)[k] == vs[k - 1]);
            assert(gok_val(vs[k - 1], bb));
        }
    }
    assert(gwscoped_stmt(appst, bb.insert(ptr)));
    assert(seq![proj, appst].drop_first() =~= seq![appst]);
    assert(seq![appst].drop_first() =~= Seq::<GStmt>::empty());
    assert(seq![proj, appst][0] == proj);
    assert(seq![appst][0] == appst);
    assert(gwscoped_seq(Seq::<GStmt>::empty(), bb.insert(ptr).insert(res)));
    assert(gwscoped_seq(seq![appst], bb.insert(ptr)));
    assert(gwscoped_seq(seq![proj, appst], bb));
    assert(bound_after(Seq::<GStmt>::empty(), bb.insert(ptr).insert(res))
        =~= bb.insert(ptr).insert(res));
    assert(bound_after(seq![appst], bb.insert(ptr)) =~= bb.insert(ptr).insert(res));
    assert(bound_after(seq![proj, appst], bb) =~= bb.insert(ptr).insert(res));
    lemma_gwscoped_mono_seq(rest.0, bb.insert(res), bb.insert(ptr).insert(res));
    lemma_gwscoped_concat(seq![proj, appst], rest.0, bb);
    assert(gwscoped_seq(m.0, bb));
    assert(gfuns_closed_stmt(proj));
    assert(gfuns_closed_stmt(appst));
    assert(gfuns_closed_seq(Seq::<GStmt>::empty()));
    assert(gfuns_closed_seq(seq![appst]));
    assert(gfuns_closed_seq(seq![proj, appst]));
    lemma_gfuns_closed_concat(seq![proj, appst], rest.0);
    assert(gfuns_closed_seq(m.0));
}

#[verifier::rlimit(100)]
#[verifier::spinoff_prover]
proof fn lemma_cc_bop_case(q: Seq<GStmt>, bb: Set<usize>, cw: nat, c: nat)
    requires
        gpre_cc_seq(q),
        gwscoped_seq(q, bb),
        gargs_below_seq(q, cw),
        cw + gtargets_seq(q).len() <= c,
        c + gsize_seq(q) <= usize::MAX,
        forall|k: int|
            0 <= k < gtargets_seq(q).len() ==> ((#[trigger] gtargets_seq(q)[k]) as nat) == cw
                + k,
        forall|a: usize| bb.contains(a) ==> (a as nat) < cw,
        q.len() > 0,
        q[0] is BOp,
    ensures
        gwscoped_seq(cc_seq_model(q, c).0, bb),
        gfuns_closed_seq(cc_seq_model(q, c).0),
    decreases q, 0nat,
{
    let t = gtarget(q[0]);
    assert(gpre_cc_stmt(q[0]));
    assert(gpre_cc_seq(q.drop_first()));
    assert(gwscoped_stmt(q[0], bb));
    assert(gwscoped_seq(q.drop_first(), bb.insert(t)));
    assert(gargs_below_stmt(q[0], cw));
    assert(gargs_below_seq(q.drop_first(), cw));
    let ts = gtargets_seq(q);
    let ts0 = gtargets_stmt(q[0]);
    assert(ts == ts0 + gtargets_seq(q.drop_first()));
    assert(gsize_seq(q) == gsize_stmt(q[0]) + gsize_seq(q.drop_first()));
    let res = q[0]->BOp_0;
    assert(gsize_stmt(q[0]) == 1);
    assert(ts0 == seq![t]);
    assert(seq![t][0] == t);
    assert(ts[0] == t);
    assert((t as nat) == cw);
    let nrest = gtargets_seq(q.drop_first()).len();
    assert forall|k: int|
        0 <= k < nrest implies ((#[trigger] gtargets_seq(q.drop_first())[k]) as nat)
            == (cw + 1) + k by {
        assert(ts[1 + k] == gtargets_seq(q.drop_first())[k]);
    }
    assert forall|a: usize| bb.insert(res).contains(a) implies (a as nat) < cw
        + 1 by {}
    lemma_gargs_below_mono(q.drop_first(), cw, cw + 1);
    lemma_cc_all_closed(q.drop_first(), bb.insert(res), cw + 1, c);
    let rest = cc_seq_model(q.drop_first(), c);
    let m = cc_seq_model(q, c);
    assert(m.0 == seq![q[0]] + rest.0);
    assert(seq![q[0]].drop_first() =~= Seq::<GStmt>::empty());
    assert(seq![q[0]][0] == q[0]);
    assert(gwscoped_seq(Seq::<GStmt>::empty(), bb.insert(res)));
    assert(gwscoped_seq(seq![q[0]], bb));
    assert(bound_after(Seq::<GStmt>::empty(), bb.insert(res)) =~= bb.insert(res));
    assert(bound_after(seq![q[0]], bb) =~= bb.insert(res));
    lemma_gwscoped_concat(seq![q[0]], rest.0, bb);
    assert(gwscoped_seq(m.0, bb));
    assert(gfuns_closed_stmt(q[0]));
    assert(gfuns_closed_seq(Seq::<GStmt>::empty()));
    assert(gfuns_closed_seq(seq![q[0]]));
    lemma_gfuns_closed_concat(seq![q[0]], rest.0);
    assert(gfuns_closed_seq(m.0));
}

/// Projections define no functions, so they are trivially closed.
proof fn lemma_projs_closed(q: Seq<GStmt>)
    requires
        forall|i: int| 0 <= i < q.len() ==> !((#[trigger] q[i]) is Fun),
    ensures
        gfuns_closed_seq(q),
    decreases q,
{
    if q.len() > 0 {
        assert(gfuns_closed_stmt(q[0]));
        assert forall|i: int| 0 <= i < q.drop_first().len() implies !((#[trigger] q.drop_first(
        )[i]) is Fun) by {
            assert(q.drop_first()[i] == q[i + 1]);
        }
        lemma_projs_closed(q.drop_first());
    }
}


/// Closure conversion closedness, end to end: linearize any closed
/// scope-resolved tree, closure-convert the result with any counter past
/// the linearizer's, and every function definition produced, at any depth,
/// is closed - and the whole output is well scoped from an empty scope.
pub proof fn lemma_pipeline_closures_closed(e: Expr, c: nat, level: nat, c2: nat)
    requires
        no_literal_callee(e),
        scoped_expr(e, Set::empty()),
        expr_ids_below(e, c as usize),
        c + expr_size(e) <= usize::MAX,
        convert_model(e, c, level).2 <= c2,
        c2 + gsize_seq(convert_model(e, c, level).0) <= usize::MAX,
    ensures
        gfuns_closed_seq(cc_seq_model(convert_model(e, c, level).0, c2).0),
        gwscoped_seq(cc_seq_model(convert_model(e, c, level).0, c2).0, Set::empty()),
{
    let m = convert_model(e, c, level);
    lemma_convert_pre_cc(e, c, level);
    lemma_convert_wscoped(e, c, level, Set::empty());
    lemma_convert_args_below(e, c, level, c);
    lemma_convert_targets(e, c, level);
    lemma_convert_model_counter(e, c, level);
    assert(gtargets_seq(m.0).len() == m.2 - c);
    lemma_cc_all_closed(m.0, Set::empty(), c, c2);
}


/// The captured identities of a lifted function are pairwise distinct: the
/// projections closure conversion prepends, and the capture slots of the
/// closure record, bind each free variable exactly once, so the rewriting
/// adds no duplicate binding.
pub proof fn lemma_captures_single_assignment(body: GBody, b: Set<usize>)
    ensures
        ({
            let fv = dedup_first(gfv_body(body, b));
            forall|i: int, j: int| 0 <= i < j < fv.len() ==> #[trigger] fv[i] != #[trigger] fv[j]
        }),
{
    lemma_dedup_no_dup(gfv_body(body, b), Set::empty());
}


/// How an operand renders: a literal in decimal, a local as `name_id`, a
/// top-level function with an `@` ahead.
pub open spec fn value_text(v: Value) -> Seq<char> {
    match v {
        Value::Number(n) => int_text(n as int),
        Value::Var(x) => var_text(x),
        Value::Global(x) => "@"@ + var_text(x),
    }
}

/// Operands from position `k` on, separated by commas.
pub open spec fn values_text_from(vs: Seq<Value>, k: nat) -> Seq<char>
    decreases vs.len() - k,
{
    if k >= vs.len() {
        Seq::empty()
    } else if k + 1 == vs.len() {
        value_text(vs[k as int])
    } else {
        value_text(vs[k as int]) + ", "@ + values_text_from(vs, k + 1)
    }
}

/// Parameters from position `k` on, separated by commas.
pub open spec fn params_text_from(args: Seq<Variable>, k: nat) -> Seq<char>
    decreases args.len() - k,
{
    if k >= args.len() {
        Seq::empty()
    } else if k + 1 == args.len() {
        var_text(args[k as int])
    } else {
        var_text(args[k as int]) + ", "@ + params_text_from(args, k + 1)
    }
}

/// Two spaces per nesting level.
pub open spec fn indent_text(level: nat) -> Seq<char>
    decreases level,
{
    if level == 0 {
        Seq::empty()
    } else {
        indent_text((level - 1) as nat) + "  "@
    }
}

/// The operator between two rendered operands.
pub open spec fn op_text(op: Operator) -> Seq<char> {
    match op {
        Operator::Add => " + "@,
        Operator::Sub => " - "@,
        Operator::Mul => " * "@,
        Operator::Div => " / "@,
    }
}

/// How one statement renders.
pub open spec fn stmt_text(a: ANF) -> Seq<char>
    decreases a, 0nat,
{
    match a {
        ANF::Fun(v, args, body) => var_text(v) + "("@ + params_text_from(args@, 0) + ") = "@
            + body_text(body),
        ANF::App(v, f, vs) => var_text(v) + " = "@ + var_text(f) + "("@ + values_text_from(
            vs@,
            0,
        ) + ")"@,
        ANF::BOp(v, op, a1, a2) => var_text(v) + " = "@ + value_text(a1) + op_text(op)
            + value_text(a2),
        ANF::Tuple(v, vs) => var_text(v) + " = ("@ + values_text_from(vs@, 0) + ")"@,
        ANF::Project(v, t, i) => var_text(v) + " = "@ + var_text(t) + "["@ + dec_rep(i as nat)
            + "]"@,
    }
}

/// Statements from position `k` on, one indented `let ... in` line each.
pub open spec fn stmts_text_from(q: Seq<ANF>, k: nat, level: nat) -> Seq<char>
    decreases q, q.len() - k,
{
    if k >= q.len() {
        Seq::empty()
    } else {
        indent_text(level) + "let "@ + stmt_text(q[k as int]) + " in\n"@ + stmts_text_from(
            q,
            k + 1,
            level,
        )
    }
}

/// How a whole body renders: spec 6's let-form, a line per statement and
/// the tail value - or `return ()` for an absent one - at the end.
pub open spec fn body_text(b: ANFs) -> Seq<char>
    decreases b, 0nat,
{
    (if b.anfs@.len() != 0 {
        "\n"@
    } else {
        Seq::empty()
    }) + stmts_text_from(b.anfs@, 0, b.level as nat) + indent_text(b.level as nat) + (
    match b.value {
        Some(v) => value_text(v),
        None => "return ()"@,
    })
}

/// Definitions from position `k` on, each a `let name(params) = body` block.
pub open spec fn defs_text_from(defs: Seq<(Variable, Vec<Variable>, ANFs)>, k: nat) -> Seq<
    char,
>
    decreases defs.len() - k,
{
    if k >= defs.len() {
        Seq::empty()
    } else {
        "let "@ + var_text(defs[k as int].0) + "("@ + params_text_from(defs[k as int].1@, 0)
            + ") ="@ + body_text(defs[k as int].2) + "\n\n"@ + defs_text_from(defs, k + 1)
    }
}

/// How a whole hoisted program renders: every definition, then main.
pub open spec fn program_text(h: HoistedANFs) -> Seq<char> {
    defs_text_from(h.fun_defs@, 0) + "let main() ="@ + body_text(h.main)
}

/// Renders one operand.
fn value_to_text(v: &Value) -> (r: String)
    ensures
        r@ == value_text(*v),
{
    match v {
        Value::Number(n) => i64_to_string(*n),
        Value::Var(x) => x.to_text(),
        Value::Global(x) => {
            let mut s = String::new();
            s.append("@");
            let name = x.to_text();
            s.append(name.as_str());
            s
        }
    }
}

/// Renders the operands from position `k` on.
fn values_join(vs: &Vec<Value>, k: usize) -> (r: String)
    requires
        k <= vs@.len(),
    ensures
        r@ == values_text_from(vs@, k as nat),
    decreases vs@.len() - k,
{
    if k >= vs.len() {
        String::new()
    } else if k + 1 == vs.len() {
        value_to_text(&vs[k])
    } else {
        let mut s = value_to_text(&vs[k]);
        s.append(", ");
        let rest = values_join(vs, k + 1);
        s.append(rest.as_str());
        s
    }
}

/// Renders the parameters from position `k` on.
fn params_join(args: &Vec<Variable>, k: usize) -> (r: String)
    requires
        k <= args@.len(),
    ensures
        r@ == params_text_from(args@, k as nat),
    decreases args@.len() - k,
{
    if k >= args.len() {
        String::new()
    } else if k + 1 == args.len() {
        args[k].to_text()
    } else {
        let mut s = args[k].to_text();
        s.append(", ");
        let rest = params_join(args, k + 1);
        s.append(rest.as_str());
        s
    }
}

/// Renders the indentation of one nesting level.
fn indent_string(level: usize) -> (r: String)
    ensures
        r@ == indent_text(level as nat),
    decreases level,
{
    if level == 0 {
        String::new()
    } else {
        let mut s = indent_string(level - 1);
        s.append("  ");
        s
    }
}

impl ANF {
    /// The stable textual form of one statement.
    pub fn to_text(&self) -> (r: String)
        ensures
            r@ == stmt_text(*self),
        decreases self, 0nat,
    {
        match self {
            ANF::Fun(v, args, body) => {
                let mut s = v.to_text();
                s.append("(");
                let ps = params_join(args, 0);
                s.append(ps.as_str());
                s.append(") = ");
                let bt = body.to_text();
                s.append(bt.as_str());
                s
            }
            ANF::App(v, f, vs) => {
                let mut s = v.to_text();
                s.append(" = ");
                let ft = f.to_text();
                s.append(ft.as_str());
                s.append("(");
                let at = values_join(vs, 0);
                s.append(at.as_str());
                s.append(")");
                s
            }
            ANF::BOp(v, op, a1, a2) => {
                let mut s = v.to_text();
                s.append(" = ");
                let l = value_to_text(a1);
                s.append(l.as_str());
                match op {
                    Operator::Add => s.append(" + "),
                    Operator::Sub => s.append(" - "),
                    Operator::Mul => s.append(" * "),
                    Operator::Div => s.append(" / "),
                }
                let rr = value_to_text(a2);
                s.append(rr.as_str());
                s
            }
            ANF::Tuple(v, vs) => {
                let mut s = v.to_text();
                s.append(" = (");
                let at = values_join(vs, 0);
                s.append(at.as_str());
                s.append(")");
                s
            }
            ANF::Project(v, t, i) => {
                let mut s = v.to_text();
                s.append(" = ");
                let tt = t.to_text();
                s.append(tt.as_str());
                s.append("[");
                let it = usize_to_string(*i);
                s.append(it.as_str());
                s.append("]");
                s
            }
        }
    }
}

/// Renders the statements from position `k` on, one line each.
fn stmts_join(q: &Vec<ANF>, k: usize, level: usize) -> (r: String)
    requires
        k <= q@.len(),
    ensures
        r@ == stmts_text_from(q@, k as nat, level as nat),
    decreases q@, q@.len() - k,
{
    if k >= q.len() {
        String::new()
    } else {
        proof {
            assert(decreases_to!(q@ => q@[k as int]));
        }
        let mut s = indent_string(level);
        s.append("let ");
        let st = q[k].to_text();
        s.append(st.as_str());
        s.append(" in\n");
        let rest = stmts_join(q, k + 1, level);
        s.append(rest.as_str());
        s
    }
}

impl ANFs {
    /// The stable textual form of a body: spec 6's diagnostic let-form.
    /// Where the sequence is empty of arguments or statements the rendering
    /// degrades gracefully rather than failing.
    pub fn to_text(&self) -> (r: String)
        ensures
            r@ == body_text(*self),
        decreases self, 0nat,
    {
        let mut s = String::new();
        if self.anfs.len() != 0 {
            s.append("\n");
        }
        let st = stmts_join(&self.anfs, 0, self.level);
        s.append(st.as_str());
        let ind = indent_string(self.level);
        s.append(ind.as_str());
        match &self.value {
            Some(v) => {
                let vt = value_to_text(v);
                s.append(vt.as_str());
            }
            None => {
                s.append("return ()");
            }
        }
        s
    }
}

/// Renders the definitions from position `k` on.
fn defs_join(defs: &Vec<(Variable, Vec<Variable>, ANFs)>, k: usize) -> (r: String)
    requires
        k <= defs@.len(),
    ensures
        r@ == defs_text_from(defs@, k as nat),
    decreases defs@.len() - k,
{
    if k >= defs.len() {
        String::new()
    } else {
        let mut s = String::new();
        s.append("let ");
        let nt = defs[k].0.to_text();
        s.append(nt.as_str());
        s.append("(");
        let ps = params_join(&defs[k].1, 0);
        s.append(ps.as_str());
        s.append(") =");
        let bt = defs[k].2.to_text();
        s.append(bt.as_str());
        s.append("\n\n");
        let rest = defs_join(defs, k + 1);
        s.append(rest.as_str());
        s
    }
}

impl HoistedANFs {
    /// The stable textual form of a whole hoisted program: each definition
    /// as `let name(params) = body`, then main.
    pub fn to_text(&self) -> (r: String)
        ensures
            r@ == program_text(*self),
    {
        let mut s = defs_join(&self.fun_defs, 0);
        s.append("let main() =");
        let mt = self.main.to_text();
        s.append(mt.as_str());
        s
    }
}

} // verus!
