//! Hindley-Milner style type inference with destructive unification.
//!
//! Type variables live in an arena of write-once slots addressed by integer
//! id; `unify` resolves both sides and either compares them or writes the
//! other side into an unresolved slot, and `simplify` follows resolved-slot
//! chains. A ghost stamp per slot records bind order; every slot's contents
//! mention only type variables bound strictly later, which is what makes
//! chain-following terminate. An occurs check keeps a slot from being bound
//! to a type mentioning itself, the one way the write-once discipline could
//! have produced a cycle; on such an input unification reports a mismatch.

use vstd::prelude::*;

use crate::ast::{expr_ids_below, resolved_expr, vid, Expr};

verus! {

/// A type: the integer base type, a function type, or a type variable naming
/// an arena slot.
#[derive(Debug, PartialEq, Eq)]
#[verifier::ext_equal]
pub enum Type {
    Int,
    Arrow(Box<Type>, Box<Type>),
    TVar(usize),
}

impl Clone for Type {
    fn clone(&self) -> (res: Self)
        ensures
            res == *self,
        decreases self,
    {
        match self {
            Type::Int => Type::Int,
            Type::Arrow(t1, t2) => Type::Arrow(Box::new((**t1).clone()), Box::new((**t2).clone())),
            Type::TVar(n) => Type::TVar(*n),
        }
    }
}

/// Every type variable of `t` names a slot below `n`.
pub open spec fn type_wf(t: Type, n: nat) -> bool
    decreases t,
{
    match t {
        Type::Int => true,
        Type::Arrow(t1, t2) => type_wf(*t1, n) && type_wf(*t2, n),
        Type::TVar(j) => j < n,
    }
}

/// The type variables `t` mentions.
pub open spec fn tvars(t: Type) -> Set<usize>
    decreases t,
{
    match t {
        Type::Int => Set::empty(),
        Type::Arrow(t1, t2) => tvars(*t1).union(tvars(*t2)),
        Type::TVar(j) => Set::empty().insert(j),
    }
}

/// Structural size of a type.
pub open spec fn type_size(t: Type) -> nat
    decreases t,
{
    match t {
        Type::Int => 1,
        Type::Arrow(t1, t2) => 1 + type_size(*t1) + type_size(*t2),
        Type::TVar(_) => 1,
    }
}

/// No type variable of `t` names a slot that is already resolved: `t` is in
/// fully simplified form with respect to `slots`.
pub open spec fn unbound_only(slots: Seq<Option<Type>>, t: Type) -> bool
    decreases t,
{
    match t {
        Type::Int => true,
        Type::Arrow(t1, t2) => unbound_only(slots, *t1) && unbound_only(slots, *t2),
        Type::TVar(j) => j < slots.len() ==> slots[j as int] is None,
    }
}

/// How many slots are still unresolved.
pub open spec fn unbound_count(slots: Seq<Option<Type>>) -> nat
    decreases slots.len(),
{
    if slots.len() == 0 {
        0
    } else {
        unbound_count(slots.drop_last()) + (if slots.last() is None {
            1nat
        } else {
            0nat
        })
    }
}

/// The arena invariant: stamps cover the slots, and a resolved slot's
/// contents are well formed and mention only type variables that are either
/// still unresolved or were resolved strictly later.
pub open spec fn arena_inv(slots: Seq<Option<Type>>, stamp: Seq<nat>, sctr: nat) -> bool {
    &&& stamp.len() == slots.len()
    &&& forall|j: int|
        #![trigger slots[j]]
        0 <= j < slots.len() && slots[j] is Some ==> {
            let t = slots[j]->0;
            &&& stamp[j] < sctr
            &&& type_wf(t, slots.len() as nat)
            &&& forall|k: usize|
                #[trigger] tvars(t).contains(k) ==> k < slots.len() && (slots[k as int] is Some
                    ==> stamp[k as int] > stamp[j])
        }
}

/// The bind-order rank of a type: how far from the latest stamp its earliest
/// bound type variable is. Chain-following strictly shrinks it.
pub open spec fn rank(slots: Seq<Option<Type>>, stamp: Seq<nat>, sctr: nat, t: Type) -> nat
    decreases t,
{
    match t {
        Type::Int => 0,
        Type::Arrow(t1, t2) => {
            let r1 = rank(slots, stamp, sctr, *t1);
            let r2 = rank(slots, stamp, sctr, *t2);
            if r1 >= r2 {
                r1
            } else {
                r2
            }
        }
        Type::TVar(j) => if j < slots.len() && slots[j as int] is Some {
            (sctr - stamp[j as int]) as nat
        } else {
            0
        },
    }
}

/// A well-formed type's variables all lie below the arena size.
proof fn lemma_tvars_below(t: Type, n: nat)
    requires
        type_wf(t, n),
    ensures
        forall|k: usize| #[trigger] tvars(t).contains(k) ==> k < n,
    decreases t,
{
    match t {
        Type::Int => {}
        Type::Arrow(t1, t2) => {
            lemma_tvars_below(*t1, n);
            lemma_tvars_below(*t2, n);
            assert forall|k: usize| #[trigger] tvars(t).contains(k) implies k < n by {
                if tvars(*t1).contains(k) {
                } else {
                    assert(tvars(*t2).contains(k));
                }
            }
        }
        Type::TVar(_) => {}
    }
}

/// A fully simplified type's variables all name unresolved slots.
proof fn lemma_unbound_only_tvars(slots: Seq<Option<Type>>, t: Type)
    requires
        unbound_only(slots, t),
    ensures
        forall|k: usize|
            #[trigger] tvars(t).contains(k) && k < slots.len() ==> slots[k as int] is None,
    decreases t,
{
    match t {
        Type::Int => {}
        Type::Arrow(t1, t2) => {
            lemma_unbound_only_tvars(slots, *t1);
            lemma_unbound_only_tvars(slots, *t2);
            assert forall|k: usize|
                #[trigger] tvars(t).contains(k) && k < slots.len() implies slots[k as int]
                is None by {
                if tvars(*t1).contains(k) {
                } else {
                    assert(tvars(*t2).contains(k));
                }
            }
        }
        Type::TVar(_) => {}
    }
}

/// A bound on the rank contribution of every type variable bounds the rank.
proof fn lemma_rank_le(slots: Seq<Option<Type>>, stamp: Seq<nat>, sctr: nat, t: Type, b: nat)
    requires
        forall|k: usize| #[trigger]
            tvars(t).contains(k) ==> k < slots.len() && (slots[k as int] is Some ==> (sctr
                - stamp[k as int]) as nat <= b),
    ensures
        rank(slots, stamp, sctr, t) <= b,
    decreases t,
{
    match t {
        Type::Int => {}
        Type::Arrow(t1, t2) => {
            assert forall|k: usize| #[trigger] tvars(*t1).contains(k) implies k < slots.len()
                && (slots[k as int] is Some ==> (sctr - stamp[k as int]) as nat <= b) by {
                assert(tvars(t).contains(k));
            }
            assert forall|k: usize| #[trigger] tvars(*t2).contains(k) implies k < slots.len()
                && (slots[k as int] is Some ==> (sctr - stamp[k as int]) as nat <= b) by {
                assert(tvars(t).contains(k));
            }
            lemma_rank_le(slots, stamp, sctr, *t1, b);
            lemma_rank_le(slots, stamp, sctr, *t2, b);
        }
        Type::TVar(j) => {
            assert(tvars(t).contains(j));
        }
    }
}

/// Under the arena invariant, a resolved slot's contents rank strictly below
/// the slot's own type variable.
proof fn lemma_contents_rank(slots: Seq<Option<Type>>, stamp: Seq<nat>, sctr: nat, j: usize)
    requires
        arena_inv(slots, stamp, sctr),
        j < slots.len(),
        slots[j as int] is Some,
    ensures
        rank(slots, stamp, sctr, slots[j as int]->0) < rank(
            slots,
            stamp,
            sctr,
            Type::TVar(j),
        ),
{
    let t = slots[j as int]->0;
    assert forall|k: usize| #[trigger] tvars(t).contains(k) implies k < slots.len() && (slots[k
        as int] is Some ==> (sctr - stamp[k as int]) as nat <= (sctr - stamp[j as int] - 1)
        as nat) by {
        assert(tvars(t).contains(k));
    }
    lemma_rank_le(slots, stamp, sctr, t, (sctr - stamp[j as int] - 1) as nat);
}

/// The full resolution of a type: every resolved-slot chain followed to its
/// end, inside arrows as well. Defined whenever the arena invariant holds.
pub open spec fn resolve(slots: Seq<Option<Type>>, stamp: Seq<nat>, sctr: nat, t: Type) -> Type
    decreases rank(slots, stamp, sctr, t), type_size(t),
        when arena_inv(slots, stamp, sctr) && type_wf(t, slots.len() as nat)
        via resolve_decreases
{
    match t {
        Type::Int => Type::Int,
        Type::Arrow(t1, t2) => Type::Arrow(
            Box::new(resolve(slots, stamp, sctr, *t1)),
            Box::new(resolve(slots, stamp, sctr, *t2)),
        ),
        Type::TVar(j) => if slots[j as int] is Some {
            resolve(slots, stamp, sctr, slots[j as int]->0)
        } else {
            Type::TVar(j)
        },
    }
}

#[via_fn]
proof fn resolve_decreases(slots: Seq<Option<Type>>, stamp: Seq<nat>, sctr: nat, t: Type) {
    match t {
        Type::Int => {}
        Type::Arrow(_, _) => {}
        Type::TVar(j) => {
            if j < slots.len() && slots[j as int] is Some {
                lemma_contents_rank(slots, stamp, sctr, j);
            }
        }
    }
}

/// Resolution lands in fully simplified, well-formed form.
proof fn lemma_resolve_props(slots: Seq<Option<Type>>, stamp: Seq<nat>, sctr: nat, t: Type)
    requires
        arena_inv(slots, stamp, sctr),
        type_wf(t, slots.len() as nat),
    ensures
        unbound_only(slots, resolve(slots, stamp, sctr, t)),
        type_wf(resolve(slots, stamp, sctr, t), slots.len() as nat),
    decreases rank(slots, stamp, sctr, t), type_size(t),
{
    match t {
        Type::Int => {}
        Type::Arrow(t1, t2) => {
            lemma_resolve_props(slots, stamp, sctr, *t1);
            lemma_resolve_props(slots, stamp, sctr, *t2);
        }
        Type::TVar(j) => {
            if slots[j as int] is Some {
                lemma_contents_rank(slots, stamp, sctr, j);
                lemma_resolve_props(slots, stamp, sctr, slots[j as int]->0);
            }
        }
    }
}

/// A fully simplified type resolves to itself.
proof fn lemma_resolve_fixed(slots: Seq<Option<Type>>, stamp: Seq<nat>, sctr: nat, t: Type)
    requires
        arena_inv(slots, stamp, sctr),
        type_wf(t, slots.len() as nat),
        unbound_only(slots, t),
    ensures
        resolve(slots, stamp, sctr, t) == t,
    decreases t,
{
    match t {
        Type::Int => {}
        Type::Arrow(t1, t2) => {
            lemma_resolve_fixed(slots, stamp, sctr, *t1);
            lemma_resolve_fixed(slots, stamp, sctr, *t2);
        }
        Type::TVar(_) => {}
    }
}

/// A well-formedness bound stays valid when the arena grows.
proof fn lemma_type_wf_mono(t: Type, n1: nat, n2: nat)
    requires
        type_wf(t, n1),
        n1 <= n2,
    ensures
        type_wf(t, n2),
    decreases t,
{
    match t {
        Type::Int => {}
        Type::Arrow(t1, t2) => {
            lemma_type_wf_mono(*t1, n1, n2);
            lemma_type_wf_mono(*t2, n1, n2);
        }
        Type::TVar(_) => {}
    }
}

/// One arena state evolves into another: slots are only added or resolved,
/// and a slot once resolved keeps its contents and its stamp. This is the
/// write-once discipline.
pub open spec fn evolves(
    slots1: Seq<Option<Type>>,
    stamp1: Seq<nat>,
    slots2: Seq<Option<Type>>,
    stamp2: Seq<nat>,
) -> bool {
    &&& slots1.len() <= slots2.len()
    &&& forall|j: int|
        #![trigger slots1[j]]
        0 <= j < slots1.len() && slots1[j] is Some ==> slots2[j] == slots1[j] && stamp2[j]
            == stamp1[j]
}

/// Resolving under a later state factors through resolving under an earlier
/// one: later writes only refine what an earlier resolution left unresolved.
proof fn lemma_resolve_extend(
    slots1: Seq<Option<Type>>,
    stamp1: Seq<nat>,
    sctr1: nat,
    slots2: Seq<Option<Type>>,
    stamp2: Seq<nat>,
    sctr2: nat,
    t: Type,
)
    requires
        arena_inv(slots1, stamp1, sctr1),
        arena_inv(slots2, stamp2, sctr2),
        evolves(slots1, stamp1, slots2, stamp2),
        type_wf(t, slots1.len() as nat),
    ensures
        resolve(slots2, stamp2, sctr2, t) == resolve(
            slots2,
            stamp2,
            sctr2,
            resolve(slots1, stamp1, sctr1, t),
        ),
    decreases rank(slots1, stamp1, sctr1, t), type_size(t),
{
    lemma_type_wf_mono(t, slots1.len() as nat, slots2.len() as nat);
    match t {
        Type::Int => {}
        Type::Arrow(t1, t2) => {
            lemma_resolve_extend(slots1, stamp1, sctr1, slots2, stamp2, sctr2, *t1);
            lemma_resolve_extend(slots1, stamp1, sctr1, slots2, stamp2, sctr2, *t2);
            lemma_resolve_props(slots1, stamp1, sctr1, *t1);
            lemma_resolve_props(slots1, stamp1, sctr1, *t2);
            lemma_type_wf_mono(
                resolve(slots1, stamp1, sctr1, *t1),
                slots1.len() as nat,
                slots2.len() as nat,
            );
            lemma_type_wf_mono(
                resolve(slots1, stamp1, sctr1, *t2),
                slots1.len() as nat,
                slots2.len() as nat,
            );
        }
        Type::TVar(j) => {
            if slots1[j as int] is Some {
                lemma_contents_rank(slots1, stamp1, sctr1, j);
                lemma_resolve_extend(
                    slots1,
                    stamp1,
                    sctr1,
                    slots2,
                    stamp2,
                    sctr2,
                    slots1[j as int]->0,
                );
            }
        }
    }
}

/// The type a tree has under a fixed assignment `g` of one type per
/// identity, if any: the standard simply-typed rules, syntax-directed, with
/// literals and arithmetic at the integer type. Monomorphic typing is
/// deterministic, so the judgment is a function.
pub open spec fn type_of(g: Seq<Type>, e: Expr) -> Option<Type>
    decreases e,
{
    match e {
        Expr::Var(v) => if v.id is Some && vid(v) < g.len() {
            Some(g[vid(v) as int])
        } else {
            None
        },
        Expr::Abs(v, body) => if v.id is Some && vid(v) < g.len() {
            match type_of(g, *body) {
                Some(tb) => Some(Type::Arrow(Box::new(g[vid(v) as int]), Box::new(tb))),
                None => None,
            }
        } else {
            None
        },
        Expr::App(e1, e2) => match (type_of(g, *e1), type_of(g, *e2)) {
            (Some(tf), Some(ta)) => match tf {
                Type::Arrow(td, tr) => if *td == ta {
                    Some(*tr)
                } else {
                    None
                },
                _ => None,
            },
            _ => None,
        },
        Expr::Number(_) => Some(Type::Int),
        Expr::BOp(_, e1, e2) => if type_of(g, *e1) == Some(Type::Int) && type_of(g, *e2)
            == Some(Type::Int) {
            Some(Type::Int)
        } else {
            None
        },
    }
}

/// The assignment an arena state denotes: each identity's fully resolved type.
pub open spec fn arena_assignment(slots: Seq<Option<Type>>, stamp: Seq<nat>, sctr: nat) -> Seq<
    Type,
> {
    Seq::new(slots.len(), |i: int| resolve(slots, stamp, sctr, Type::TVar(i as usize)))
}

/// Under an arena assignment, the type of a tree is well formed.
proof fn lemma_type_of_wf(slots: Seq<Option<Type>>, stamp: Seq<nat>, sctr: nat, e: Expr)
    requires
        arena_inv(slots, stamp, sctr),
    ensures
        type_of(arena_assignment(slots, stamp, sctr), e) matches Some(t) ==> type_wf(
            t,
            slots.len() as nat,
        ),
    decreases e,
{
    let g = arena_assignment(slots, stamp, sctr);
    match e {
        Expr::Var(v) => {
            if v.id is Some && vid(v) < g.len() {
                lemma_resolve_props(slots, stamp, sctr, Type::TVar(vid(v)));
            }
        }
        Expr::Abs(v, body) => {
            if v.id is Some && vid(v) < g.len() {
                lemma_resolve_props(slots, stamp, sctr, Type::TVar(vid(v)));
                lemma_type_of_wf(slots, stamp, sctr, *body);
            }
        }
        Expr::App(e1, e2) => {
            lemma_type_of_wf(slots, stamp, sctr, *e1);
            lemma_type_of_wf(slots, stamp, sctr, *e2);
        }
        Expr::Number(_) => {}
        Expr::BOp(_, _, _) => {}
    }
}

/// A typing survives further unification: under the later state's assignment
/// the tree's type is the earlier type, further resolved.
proof fn lemma_type_of_extend(
    slots1: Seq<Option<Type>>,
    stamp1: Seq<nat>,
    sctr1: nat,
    slots2: Seq<Option<Type>>,
    stamp2: Seq<nat>,
    sctr2: nat,
    e: Expr,
    t: Type,
)
    requires
        arena_inv(slots1, stamp1, sctr1),
        arena_inv(slots2, stamp2, sctr2),
        evolves(slots1, stamp1, slots2, stamp2),
        type_of(arena_assignment(slots1, stamp1, sctr1), e) == Some(t),
    ensures
        type_of(arena_assignment(slots2, stamp2, sctr2), e) == Some(
            resolve(slots2, stamp2, sctr2, t),
        ),
    decreases e,
{
    let g1 = arena_assignment(slots1, stamp1, sctr1);
    let g2 = arena_assignment(slots2, stamp2, sctr2);
    lemma_type_of_wf(slots1, stamp1, sctr1, e);
    lemma_type_wf_mono(t, slots1.len() as nat, slots2.len() as nat);
    match e {
        Expr::Var(v) => {
            let i = vid(v);
            lemma_resolve_extend(slots1, stamp1, sctr1, slots2, stamp2, sctr2, Type::TVar(i));
            assert(g1[i as int] == resolve(slots1, stamp1, sctr1, Type::TVar(i)));
            assert(g2[i as int] == resolve(slots2, stamp2, sctr2, Type::TVar(i)));
            assert(resolve(slots2, stamp2, sctr2, t) == g2[i as int]);
        }
        Expr::Abs(v, body) => {
            let i = vid(v);
            let tb = type_of(g1, *body)->0;
            lemma_resolve_extend(slots1, stamp1, sctr1, slots2, stamp2, sctr2, Type::TVar(i));
            lemma_type_of_extend(slots1, stamp1, sctr1, slots2, stamp2, sctr2, *body, tb);
            lemma_type_of_wf(slots1, stamp1, sctr1, *body);
            assert(t == Type::Arrow(Box::new(g1[i as int]), Box::new(tb)));
            assert(type_wf(t, slots2.len() as nat));
            assert(resolve(slots2, stamp2, sctr2, t) =~= Type::Arrow(
                Box::new(resolve(slots2, stamp2, sctr2, g1[i as int])),
                Box::new(resolve(slots2, stamp2, sctr2, tb)),
            ));
            assert(resolve(slots2, stamp2, sctr2, g1[i as int]) == g2[i as int]);
            assert(type_of(g2, e) == Some(resolve(slots2, stamp2, sctr2, t)));
        }
        Expr::App(e1, e2) => {
            let tf = type_of(g1, *e1)->0;
            let ta = type_of(g1, *e2)->0;
            lemma_type_of_wf(slots1, stamp1, sctr1, *e1);
            lemma_type_of_wf(slots1, stamp1, sctr1, *e2);
            lemma_type_of_extend(slots1, stamp1, sctr1, slots2, stamp2, sctr2, *e1, tf);
            lemma_type_of_extend(slots1, stamp1, sctr1, slots2, stamp2, sctr2, *e2, ta);
            let td = tf->Arrow_0;
            let tr = tf->Arrow_1;
            assert(*td == ta && t == *tr);
            assert(type_wf(tf, slots2.len() as nat)) by {
                lemma_type_wf_mono(tf, slots1.len() as nat, slots2.len() as nat);
            }
            assert(resolve(slots2, stamp2, sctr2, tf) =~= Type::Arrow(
                Box::new(resolve(slots2, stamp2, sctr2, *td)),
                Box::new(resolve(slots2, stamp2, sctr2, *tr)),
            ));
            assert(type_of(g2, e) == Some(resolve(slots2, stamp2, sctr2, t)));
        }
        Expr::Number(_) => {}
        Expr::BOp(_, e1, e2) => {
            lemma_type_of_extend(slots1, stamp1, sctr1, slots2, stamp2, sctr2, *e1, Type::Int);
            lemma_type_of_extend(slots1, stamp1, sctr1, slots2, stamp2, sctr2, *e2, Type::Int);
        }
    }
}

/// One arena state, bundled: the slots, their ghost bind stamps, and the
/// bind counter.
pub struct ArenaSnap {
    pub slots: Seq<Option<Type>>,
    pub stamp: Seq<nat>,
    pub sctr: nat,
}

/// The arena state an inference value holds.
pub open spec fn arena_of(ti: TypeInfer) -> ArenaSnap {
    ArenaSnap { slots: ti.slots@, stamp: ti.stamp@, sctr: ti.sctr@ }
}

/// The state after resolving slot `j` to `t`.
pub open spec fn bind_step(pre: ArenaSnap, j: usize, t: Type) -> ArenaSnap {
    ArenaSnap {
        slots: pre.slots.update(j as int, Some(t)),
        stamp: pre.stamp.update(j as int, pre.sctr),
        sctr: pre.sctr + 1,
    }
}

/// The recursion tree one unification run follows; where two component runs
/// chain, the arena state between them is recorded. A structurally
/// decreasing witness of this shape pins the algorithm's whole behavior.
pub enum UTrace {
    Leaf,
    ArrowFail(Box<UTrace>),
    ArrowThen(ArenaSnap, Box<UTrace>, Box<UTrace>),
}

/// `tr` derives one unification step from `pre` on `(t1, t2)`, returning `r`
/// and leaving `post`: equal bases succeed and write nothing, arrows chain
/// their components (stopping at a failed first component), a type variable
/// against anything else resolves to it unless the occurs check fires, and
/// a base against an arrow fails. Exactly the algorithm of `unify`.
pub open spec fn unify_ok(
    tr: UTrace,
    pre: ArenaSnap,
    t1: Type,
    t2: Type,
    r: bool,
    post: ArenaSnap,
) -> bool
    decreases tr,
{
    let t1s = resolve(pre.slots, pre.stamp, pre.sctr, t1);
    let t2s = resolve(pre.slots, pre.stamp, pre.sctr, t2);
    match (t1s, t2s) {
        (Type::Int, Type::Int) => tr is Leaf && r && post == pre,
        (Type::Arrow(a1, b1), Type::Arrow(a2, b2)) => match tr {
            UTrace::Leaf => false,
            UTrace::ArrowFail(sub) => !r && unify_ok(*sub, pre, *a1, *a2, false, post),
            UTrace::ArrowThen(mid, sub1, sub2) => unify_ok(*sub1, pre, *a1, *a2, true, mid)
                && unify_ok(*sub2, mid, *b1, *b2, r, post),
        },
        (Type::TVar(n1), Type::TVar(n2)) => tr is Leaf && (if n1 == n2 {
            r && post == pre
        } else {
            r && post == bind_step(pre, n1, t2s)
        }),
        (Type::TVar(n), _) => tr is Leaf && (if tvars(t2s).contains(n) {
            !r && post == pre
        } else {
            r && post == bind_step(pre, n, t2s)
        }),
        (_, Type::TVar(n)) => tr is Leaf && (if tvars(t1s).contains(n) {
            !r && post == pre
        } else {
            r && post == bind_step(pre, n, t1s)
        }),
        (_, _) => tr is Leaf && !r && post == pre,
    }
}

/// The recursion tree one inference run follows, the intermediate states
/// and types between its legs recorded.
pub enum ITrace {
    Leaf,
    AbsStep(Box<ITrace>),
    AppFail1(Box<ITrace>),
    AppFail2(Type, ArenaSnap, nat, Box<ITrace>, Box<ITrace>),
    AppRun(Type, ArenaSnap, nat, Box<ITrace>, Type, ArenaSnap, nat, Box<ITrace>, Box<UTrace>),
    BOpFail1(Box<ITrace>),
    BOpFail2(Type, ArenaSnap, nat, Box<ITrace>, Box<ITrace>),
    BOpUnifyFail(
        Type,
        ArenaSnap,
        nat,
        Box<ITrace>,
        Type,
        ArenaSnap,
        nat,
        Box<ITrace>,
        Box<UTrace>,
    ),
    BOpRun(
        Type,
        ArenaSnap,
        nat,
        Box<ITrace>,
        Type,
        ArenaSnap,
        nat,
        Box<ITrace>,
        Box<UTrace>,
        ArenaSnap,
        Box<UTrace>,
    ),
}

/// `tr` derives one inference run from `(pre, nxt0)` on `e`, returning `r`
/// and leaving `(post, nxt1)`: a reference reads its identity's variable, a
/// literal is the base type, an abstraction wraps its body's type in an
/// arrow over its parameter's variable, an application allocates exactly
/// one fresh variable and unifies the callee's type against an arrow onto
/// it, arithmetic unifies both operands with the base type, and each leg's
/// failure aborts with the state it reached. Exactly the syntax-directed
/// algorithm of `type_infer`.
pub open spec fn infer_ok(
    tr: ITrace,
    pre: ArenaSnap,
    nxt0: nat,
    e: Expr,
    r: Option<Type>,
    post: ArenaSnap,
    nxt1: nat,
) -> bool
    decreases tr,
{
    match e {
        Expr::Var(v) => tr is Leaf && post == pre && nxt1 == nxt0 && (match v.id {
            Some(i) => r == Some(Type::TVar(i)),
            None => r is None,
        }),
        Expr::Number(_) => tr is Leaf && post == pre && nxt1 == nxt0 && r == Some(Type::Int),
        Expr::Abs(v, body) => match v.id {
            None => tr is Leaf && post == pre && nxt1 == nxt0 && r is None,
            Some(i) => match tr {
                ITrace::AbsStep(sub) => match r {
                    None => infer_ok(*sub, pre, nxt0, *body, None, post, nxt1),
                    Some(t) => t matches Type::Arrow(d, c) && *d == Type::TVar(i) && infer_ok(
                        *sub,
                        pre,
                        nxt0,
                        *body,
                        Some(*c),
                        post,
                        nxt1,
                    ),
                },
                _ => false,
            },
        },
        Expr::App(e1, e2) => match tr {
            ITrace::AppFail1(sub1) => r is None && infer_ok(
                *sub1,
                pre,
                nxt0,
                *e1,
                None,
                post,
                nxt1,
            ),
            ITrace::AppFail2(ta1, m1, n1, sub1, sub2) => r is None && infer_ok(
                *sub1,
                pre,
                nxt0,
                *e1,
                Some(ta1),
                m1,
                n1,
            ) && infer_ok(*sub2, m1, n1, *e2, None, post, nxt1),
            ITrace::AppRun(ta1, m1, n1, sub1, ta2, m2, n2, sub2, ub) => {
                let pushed = ArenaSnap {
                    slots: m2.slots.push(None),
                    stamp: m2.stamp.push(0nat),
                    sctr: m2.sctr,
                };
                let ret = Type::TVar(n2 as usize);
                let arrow = Type::Arrow(Box::new(ta2), Box::new(ret));
                &&& infer_ok(*sub1, pre, nxt0, *e1, Some(ta1), m1, n1)
                &&& infer_ok(*sub2, m1, n1, *e2, Some(ta2), m2, n2)
                &&& nxt1 == n2 + 1
                &&& match r {
                    Some(t) => t == ret && unify_ok(*ub, pushed, ta1, arrow, true, post),
                    None => unify_ok(*ub, pushed, ta1, arrow, false, post),
                }
            },
            _ => false,
        },
        Expr::BOp(_, e1, e2) => match tr {
            ITrace::BOpFail1(sub1) => r is None && infer_ok(
                *sub1,
                pre,
                nxt0,
                *e1,
                None,
                post,
                nxt1,
            ),
            ITrace::BOpFail2(ta1, m1, n1, sub1, sub2) => r is None && infer_ok(
                *sub1,
                pre,
                nxt0,
                *e1,
                Some(ta1),
                m1,
                n1,
            ) && infer_ok(*sub2, m1, n1, *e2, None, post, nxt1),
            ITrace::BOpUnifyFail(ta1, m1, n1, sub1, ta2, m2, n2, sub2, u1) => {
                &&& r is None
                &&& infer_ok(*sub1, pre, nxt0, *e1, Some(ta1), m1, n1)
                &&& infer_ok(*sub2, m1, n1, *e2, Some(ta2), m2, n2)
                &&& nxt1 == n2
                &&& unify_ok(*u1, m2, ta1, Type::Int, false, post)
            },
            ITrace::BOpRun(ta1, m1, n1, sub1, ta2, m2, n2, sub2, u1, m3, u2) => {
                &&& infer_ok(*sub1, pre, nxt0, *e1, Some(ta1), m1, n1)
                &&& infer_ok(*sub2, m1, n1, *e2, Some(ta2), m2, n2)
                &&& nxt1 == n2
                &&& unify_ok(*u1, m2, ta1, Type::Int, true, m3)
                &&& match r {
                    Some(t) => t == Type::Int && unify_ok(*u2, m3, ta2, Type::Int, true, post),
                    None => unify_ok(*u2, m3, ta2, Type::Int, false, post),
                }
            },
            _ => false,
        },
    }
}

/// Two unification derivations from the same state on the same pair agree:
/// the relation is a function of its input, so together with the existence
/// the contract provides, the result and the final arena are pinned
/// uniquely.
pub proof fn lemma_unify_ok_deterministic(
    tr1: UTrace,
    tr2: UTrace,
    pre: ArenaSnap,
    t1: Type,
    t2: Type,
    r1: bool,
    post1: ArenaSnap,
    r2: bool,
    post2: ArenaSnap,
)
    requires
        unify_ok(tr1, pre, t1, t2, r1, post1),
        unify_ok(tr2, pre, t1, t2, r2, post2),
    ensures
        r1 == r2,
        post1 == post2,
    decreases tr1,
{
    let t1s = resolve(pre.slots, pre.stamp, pre.sctr, t1);
    let t2s = resolve(pre.slots, pre.stamp, pre.sctr, t2);
    match (t1s, t2s) {
        (Type::Arrow(a1, b1), Type::Arrow(a2, b2)) => {
            match (tr1, tr2) {
                (UTrace::ArrowFail(s1), UTrace::ArrowFail(s2)) => {
                    lemma_unify_ok_deterministic(
                        *s1, *s2, pre, *a1, *a2, false, post1, false, post2,
                    );
                }
                (UTrace::ArrowFail(s1), UTrace::ArrowThen(m2, x2, _)) => {
                    lemma_unify_ok_deterministic(
                        *s1, *x2, pre, *a1, *a2, false, post1, true, m2,
                    );
                }
                (UTrace::ArrowThen(m1, x1, y1), UTrace::ArrowFail(s2)) => {
                    lemma_unify_ok_deterministic(
                        *x1, *s2, pre, *a1, *a2, true, m1, false, post2,
                    );
                }
                (UTrace::ArrowThen(m1, x1, y1), UTrace::ArrowThen(m2, x2, y2)) => {
                    lemma_unify_ok_deterministic(*x1, *x2, pre, *a1, *a2, true, m1, true, m2);
                    lemma_unify_ok_deterministic(
                        *y1, *y2, m1, *b1, *b2, r1, post1, r2, post2,
                    );
                }
                _ => {}
            }
        }
        _ => {}
    }
}

/// Two inference derivations from the same state on the same tree agree:
/// with the existence the contract provides, the result, the final arena
/// and the final counter are functions of the input.
pub proof fn lemma_infer_ok_deterministic(
    tr1: ITrace,
    tr2: ITrace,
    pre: ArenaSnap,
    nxt0: nat,
    e: Expr,
    r1: Option<Type>,
    post1: ArenaSnap,
    n1: nat,
    r2: Option<Type>,
    post2: ArenaSnap,
    n2: nat,
)
    requires
        infer_ok(tr1, pre, nxt0, e, r1, post1, n1),
        infer_ok(tr2, pre, nxt0, e, r2, post2, n2),
    ensures
        r1 == r2,
        post1 == post2,
        n1 == n2,
    decreases tr1,
{
    match e {
        Expr::Var(_) => {}
        Expr::Number(_) => {}
        Expr::Abs(v, body) => {
            match v.id {
                None => {}
                Some(i) => {
                    let s1 = tr1->AbsStep_0;
                    let s2 = tr2->AbsStep_0;
                    let br1 = match r1 {
                        None => None,
                        Some(t) => Some(*t->Arrow_1),
                    };
                    let br2 = match r2 {
                        None => None,
                        Some(t) => Some(*t->Arrow_1),
                    };
                    lemma_infer_ok_deterministic(
                        *s1, *s2, pre, nxt0, *body, br1, post1, n1, br2, post2, n2,
                    );
                    match (r1, r2) {
                        (Some(t1v), Some(t2v)) => {
                            assert(t1v =~= t2v);
                        }
                        _ => {}
                    }
                }
            }
        }
        Expr::App(e1, e2) => {
            match (tr1, tr2) {
                (ITrace::AppFail1(x1), ITrace::AppFail1(x2)) => {
                    lemma_infer_ok_deterministic(
                        *x1, *x2, pre, nxt0, *e1, None, post1, n1, None, post2, n2,
                    );
                }
                (ITrace::AppFail1(x1), ITrace::AppFail2(tb, mb, nb, x2, _)) => {
                    lemma_infer_ok_deterministic(
                        *x1, *x2, pre, nxt0, *e1, None, post1, n1, Some(tb), mb, nb,
                    );
                }
                (ITrace::AppFail1(x1), ITrace::AppRun(tb, mb, nb, x2, _, _, _, _, _)) => {
                    lemma_infer_ok_deterministic(
                        *x1, *x2, pre, nxt0, *e1, None, post1, n1, Some(tb), mb, nb,
                    );
                }
                (ITrace::AppFail2(ta, ma, na, x1, _), ITrace::AppFail1(x2)) => {
                    lemma_infer_ok_deterministic(
                        *x1, *x2, pre, nxt0, *e1, Some(ta), ma, na, None, post2, n2,
                    );
                }
                (ITrace::AppRun(ta, ma, na, x1, _, _, _, _, _), ITrace::AppFail1(x2)) => {
                    lemma_infer_ok_deterministic(
                        *x1, *x2, pre, nxt0, *e1, Some(ta), ma, na, None, post2, n2,
                    );
                }
                (
                    ITrace::AppFail2(ta, ma, na, x1, y1),
                    ITrace::AppFail2(tb, mb, nb, x2, y2),
                ) => {
                    lemma_infer_ok_deterministic(
                        *x1, *x2, pre, nxt0, *e1, Some(ta), ma, na, Some(tb), mb, nb,
                    );
                    lemma_infer_ok_deterministic(
                        *y1, *y2, ma, na, *e2, None, post1, n1, None, post2, n2,
                    );
                }
                (
                    ITrace::AppFail2(ta, ma, na, x1, y1),
                    ITrace::AppRun(tb, mb, nb, x2, tc, mc, nc, y2, _),
                ) => {
                    lemma_infer_ok_deterministic(
                        *x1, *x2, pre, nxt0, *e1, Some(ta), ma, na, Some(tb), mb, nb,
                    );
                    lemma_infer_ok_deterministic(
                        *y1, *y2, ma, na, *e2, None, post1, n1, Some(tc), mc, nc,
                    );
                }
                (
                    ITrace::AppRun(ta, ma, na, x1, tc, mc, nc, y1, _),
                    ITrace::AppFail2(tb, mb, nb, x2, y2),
                ) => {
                    lemma_infer_ok_deterministic(
                        *x1, *x2, pre, nxt0, *e1, Some(ta), ma, na, Some(tb), mb, nb,
                    );
                    lemma_infer_ok_deterministic(
                        *y1, *y2, ma, na, *e2, Some(tc), mc, nc, None, post2, n2,
                    );
                }
                (
                    ITrace::AppRun(ta, ma, na, x1, tc, mc, nc, y1, u1),
                    ITrace::AppRun(tb, mb, nb, x2, td, md, nd, y2, u2),
                ) => {
                    lemma_infer_ok_deterministic(
                        *x1, *x2, pre, nxt0, *e1, Some(ta), ma, na, Some(tb), mb, nb,
                    );
                    lemma_infer_ok_deterministic(
                        *y1, *y2, ma, na, *e2, Some(tc), mc, nc, Some(td), md, nd,
                    );
                    let pushed = ArenaSnap {
                        slots: mc.slots.push(None),
                        stamp: mc.stamp.push(0nat),
                        sctr: mc.sctr,
                    };
                    let arrow = Type::Arrow(
                        Box::new(tc),
                        Box::new(Type::TVar(nc as usize)),
                    );
                    let rb1 = r1 is Some;
                    let rb2 = r2 is Some;
                    lemma_unify_ok_deterministic(
                        *u1, *u2, pushed, ta, arrow, rb1, post1, rb2, post2,
                    );
                }
                _ => {}
            }
        }
        Expr::BOp(_, e1, e2) => {
            match (tr1, tr2) {
                (ITrace::BOpFail1(x1), ITrace::BOpFail1(x2)) => {
                    lemma_infer_ok_deterministic(
                        *x1, *x2, pre, nxt0, *e1, None, post1, n1, None, post2, n2,
                    );
                }
                (ITrace::BOpFail1(x1), ITrace::BOpFail2(tb, mb, nb, x2, _)) => {
                    lemma_infer_ok_deterministic(
                        *x1, *x2, pre, nxt0, *e1, None, post1, n1, Some(tb), mb, nb,
                    );
                }
                (
                    ITrace::BOpFail1(x1),
                    ITrace::BOpUnifyFail(tb, mb, nb, x2, _, _, _, _, _),
                ) => {
                    lemma_infer_ok_deterministic(
                        *x1, *x2, pre, nxt0, *e1, None, post1, n1, Some(tb), mb, nb,
                    );
                }
                (
                    ITrace::BOpFail1(x1),
                    ITrace::BOpRun(tb, mb, nb, x2, _, _, _, _, _, _, _),
                ) => {
                    lemma_infer_ok_deterministic(
                        *x1, *x2, pre, nxt0, *e1, None, post1, n1, Some(tb), mb, nb,
                    );
                }
                (ITrace::BOpFail2(ta, ma, na, x1, _), ITrace::BOpFail1(x2)) => {
                    lemma_infer_ok_deterministic(
                        *x1, *x2, pre, nxt0, *e1, Some(ta), ma, na, None, post2, n2,
                    );
                }
                (
                    ITrace::BOpUnifyFail(ta, ma, na, x1, _, _, _, _, _),
                    ITrace::BOpFail1(x2),
                ) => {
                    lemma_infer_ok_deterministic(
                        *x1, *x2, pre, nxt0, *e1, Some(ta), ma, na, None, post2, n2,
                    );
                }
                (
                    ITrace::BOpRun(ta, ma, na, x1, _, _, _, _, _, _, _),
                    ITrace::BOpFail1(x2),
                ) => {
                    lemma_infer_ok_deterministic(
                        *x1, *x2, pre, nxt0, *e1, Some(ta), ma, na, None, post2, n2,
                    );
                }
                (
                    ITrace::BOpFail2(ta, ma, na, x1, y1),
                    ITrace::BOpFail2(tb, mb, nb, x2, y2),
                ) => {
                    lemma_infer_ok_deterministic(
                        *x1, *x2, pre, nxt0, *e1, Some(ta), ma, na, Some(tb), mb, nb,
                    );
                    lemma_infer_ok_deterministic(
                        *y1, *y2, ma, na, *e2, None, post1, n1, None, post2, n2,
                    );
                }
                (
                    ITrace::BOpFail2(ta, ma, na, x1, y1),
                    ITrace::BOpUnifyFail(tb, mb, nb, x2, tc, mc, nc, y2, _),
                ) => {
                    lemma_infer_ok_deterministic(
                        *x1, *x2, pre, nxt0, *e1, Some(ta), ma, na, Some(tb), mb, nb,
                    );
                    lemma_infer_ok_deterministic(
                        *y1, *y2, ma, na, *e2, None, post1, n1, Some(tc), mc, nc,
                    );
                }
                (
                    ITrace::BOpFail2(ta, ma, na, x1, y1),
                    ITrace::BOpRun(tb, mb, nb, x2, tc, mc, nc, y2, _, _, _),
                ) => {
                    lemma_infer_ok_deterministic(
                        *x1, *x2, pre, nxt0, *e1, Some(ta), ma, na, Some(tb), mb, nb,
                    );
                    lemma_infer_ok_deterministic(
                        *y1, *y2, ma, na, *e2, None, post1, n1, Some(tc), mc, nc,
                    );
                }
                (
                    ITrace::BOpUnifyFail(ta, ma, na, x1, tc, mc, nc, y1, _),
                    ITrace::BOpFail2(tb, mb, nb, x2, y2),
                ) => {
                    lemma_infer_ok_deterministic(
                        *x1, *x2, pre, nxt0, *e1, Some(ta), ma, na, Some(tb), mb, nb,
                    );
                    lemma_infer_ok_deterministic(
                        *y1, *y2, ma, na, *e2, Some(tc), mc, nc, None, post2, n2,
                    );
                }
                (
                    ITrace::BOpRun(ta, ma, na, x1, tc, mc, nc, y1, _, _, _),
                    ITrace::BOpFail2(tb, mb, nb, x2, y2),
                ) => {
                    lemma_infer_ok_deterministic(
                        *x1, *x2, pre, nxt0, *e1, Some(ta), ma, na, Some(tb), mb, nb,
                    );
                    lemma_infer_ok_deterministic(
                        *y1, *y2, ma, na, *e2, Some(tc), mc, nc, None, post2, n2,
                    );
                }
                (
                    ITrace::BOpUnifyFail(ta, ma, na, x1, tc, mc, nc, y1, u1),
                    ITrace::BOpUnifyFail(tb, mb, nb, x2, td, md, nd, y2, u2),
                ) => {
                    lemma_infer_ok_deterministic(
                        *x1, *x2, pre, nxt0, *e1, Some(ta), ma, na, Some(tb), mb, nb,
                    );
                    lemma_infer_ok_deterministic(
                        *y1, *y2, ma, na, *e2, Some(tc), mc, nc, Some(td), md, nd,
                    );
                    lemma_unify_ok_deterministic(
                        *u1, *u2, mc, ta, Type::Int, false, post1, false, post2,
                    );
                }
                (
                    ITrace::BOpUnifyFail(ta, ma, na, x1, tc, mc, nc, y1, u1),
                    ITrace::BOpRun(tb, mb, nb, x2, td, md, nd, y2, u2, m3b, _),
                ) => {
                    lemma_infer_ok_deterministic(
                        *x1, *x2, pre, nxt0, *e1, Some(ta), ma, na, Some(tb), mb, nb,
                    );
                    lemma_infer_ok_deterministic(
                        *y1, *y2, ma, na, *e2, Some(tc), mc, nc, Some(td), md, nd,
                    );
                    lemma_unify_ok_deterministic(
                        *u1, *u2, mc, ta, Type::Int, false, post1, true, m3b,
                    );
                }
                (
                    ITrace::BOpRun(ta, ma, na, x1, tc, mc, nc, y1, u1, m3a, _),
                    ITrace::BOpUnifyFail(tb, mb, nb, x2, td, md, nd, y2, u2),
                ) => {
                    lemma_infer_ok_deterministic(
                        *x1, *x2, pre, nxt0, *e1, Some(ta), ma, na, Some(tb), mb, nb,
                    );
                    lemma_infer_ok_deterministic(
                        *y1, *y2, ma, na, *e2, Some(tc), mc, nc, Some(td), md, nd,
                    );
                    lemma_unify_ok_deterministic(
                        *u1, *u2, mc, ta, Type::Int, true, m3a, false, post2,
                    );
                }
                (
                    ITrace::BOpRun(ta, ma, na, x1, tc, mc, nc, y1, u1, m3a, w1),
                    ITrace::BOpRun(tb, mb, nb, x2, td, md, nd, y2, u2, m3b, w2),
                ) => {
                    lemma_infer_ok_deterministic(
                        *x1, *x2, pre, nxt0, *e1, Some(ta), ma, na, Some(tb), mb, nb,
                    );
                    lemma_infer_ok_deterministic(
                        *y1, *y2, ma, na, *e2, Some(tc), mc, nc, Some(td), md, nd,
                    );
                    lemma_unify_ok_deterministic(
                        *u1, *u2, mc, ta, Type::Int, true, m3a, true, m3b,
                    );
                    let rb1 = r1 is Some;
                    let rb2 = r2 is Some;
                    lemma_unify_ok_deterministic(
                        *w1, *w2, m3a, tc, Type::Int, rb1, post1, rb2, post2,
                    );
                }
                _ => {}
            }
        }
    }
}

/// Inference state: the fresh type-variable counter, one type per identity
/// (identity `i` is typed by the variable in slot `i`), and the arena of
/// write-once unification slots.
pub struct TypeInfer {
    pub next_tvar: usize,
    pub env: Vec<Type>,
    pub slots: Vec<Option<Type>>,
    pub stamp: Ghost<Seq<nat>>,
    pub sctr: Ghost<nat>,
}

impl TypeInfer {
    /// The arena's slots.
    pub open spec fn slots_view(&self) -> Seq<Option<Type>> {
        self.slots@
    }

    /// The inference state is well formed: the arena invariant holds and the
    /// identity table maps `i` to type variable `i`.
    pub open spec fn wf(&self) -> bool {
        &&& arena_inv(self.slots@, self.stamp@, self.sctr@)
        &&& self.slots@.len() == self.next_tvar
        &&& self.env@.len() == self.next_tvar
        &&& forall|i: int| 0 <= i < self.env@.len() ==> self.env@[i] == Type::TVar(i as usize)
    }

    /// The full resolution of a type under this state.
    pub open spec fn resolved_of(&self, t: Type) -> Type {
        resolve(self.slots@, self.stamp@, self.sctr@, t)
    }

    /// The assignment of a fully resolved type to each identity.
    pub open spec fn assignment(&self) -> Seq<Type> {
        arena_assignment(self.slots@, self.stamp@, self.sctr@)
    }

    /// This state refines `pre`: everything `pre` had resolved stays resolved
    /// the same way.
    pub open spec fn extends(&self, pre: TypeInfer) -> bool {
        evolves(pre.slots@, pre.stamp@, self.slots@, self.stamp@)
    }

    /// Nothing in the arena moved at all.
    pub open spec fn same_arena(&self, pre: TypeInfer) -> bool {
        self.slots@ == pre.slots@ && self.stamp@ == pre.stamp@ && self.sctr@ == pre.sctr@
    }

    /// One table with a fresh unresolved type variable per identity of the
    /// scope-resolved tree.
    pub fn new(next_tvar: usize) -> (r: Self)
        ensures
            r.wf(),
            r.next_tvar == next_tvar,
            unbound_count(r.slots_view()) == r.slots_view().len() == next_tvar,
    {
        let mut env: Vec<Type> = Vec::new();
        let mut slots: Vec<Option<Type>> = Vec::new();
        let mut n: usize = 0;
        while n < next_tvar
            invariant
                n <= next_tvar,
                env@.len() == n,
                slots@.len() == n,
                forall|i: int| 0 <= i < n ==> env@[i] == Type::TVar(i as usize),
                forall|i: int| 0 <= i < n ==> slots@[i] is None,
                unbound_count(slots@) == n,
            decreases next_tvar - n,
        {
            let ghost pre_slots = slots@;
            env.push(Type::TVar(n));
            slots.push(None);
            proof {
                assert(slots@.drop_last() =~= pre_slots);
            }
            n = n + 1;
        }
        let r = TypeInfer {
            next_tvar,
            env,
            slots,
            stamp: Ghost(Seq::new(next_tvar as nat, |i: int| 0nat)),
            sctr: Ghost(0nat),
        };
        r
    }

    /// Allocates a fresh unresolved type variable.
    fn new_tvar(&mut self) -> (t: Type)
        requires
            old(self).wf(),
            old(self).next_tvar < usize::MAX,
        ensures
            final(self).wf(),
            t == Type::TVar(old(self).next_tvar),
            final(self).next_tvar == old(self).next_tvar + 1,
            final(self).extends(*old(self)),
            final(self).slots_view() == old(self).slots_view().push(None::<Type>),
            final(self).env@ == old(self).env@.push(t),
            final(self).stamp@ == old(self).stamp@.push(0nat),
            final(self).sctr@ == old(self).sctr@,
            unbound_count(final(self).slots_view()) == unbound_count(old(self).slots_view())
                + 1,
    {
        let t = Type::TVar(self.next_tvar);
        let t2 = Type::TVar(self.next_tvar);
        self.env.push(t2);
        self.slots.push(None);
        self.stamp = Ghost(self.stamp@.push(0nat));
        self.next_tvar = self.next_tvar + 1;
        proof {
            let slots = self.slots@;
            assert(slots.drop_last() =~= old(self).slots@);
            assert forall|j: int|
                #![trigger slots[j]]
                0 <= j < slots.len() && slots[j] is Some implies {
                let ct = slots[j]->0;
                &&& self.stamp@[j] < self.sctr@
                &&& type_wf(ct, slots.len() as nat)
                &&& forall|k: usize|
                    #[trigger] tvars(ct).contains(k) ==> k < slots.len() && (slots[k as int]
                        is Some ==> self.stamp@[k as int] > self.stamp@[j])
            } by {
                assert(slots[j] == old(self).slots@[j]);
                let ct = slots[j]->0;
                lemma_type_wf_mono(ct, old(self).slots@.len() as nat, slots.len() as nat);
            }
        }
        t
    }

    /// Resolves `j` to `t`, unless `t` mentions `j` itself: binding it anyway
    /// is the one way a resolved-slot cycle could arise, so that case is
    /// reported as a failure instead.
    fn bind(&mut self, j: usize, t: Type) -> (r: bool)
        requires
            old(self).wf(),
            j < old(self).next_tvar,
            old(self).slots_view()[j as int] is None,
            unbound_only(old(self).slots_view(), t),
            type_wf(t, old(self).next_tvar as nat),
        ensures
            final(self).wf(),
            final(self).next_tvar == old(self).next_tvar,
            final(self).env@ == old(self).env@,
            final(self).extends(*old(self)),
            r == !tvars(t).contains(j),
            !r ==> final(self).same_arena(*old(self)),
            r ==> unbound_count(final(self).slots_view()) < unbound_count(
                old(self).slots_view(),
            ),
            r ==> final(self).resolved_of(Type::TVar(j)) == final(self).resolved_of(t),
            r ==> final(self).slots@ == old(self).slots@.update(j as int, Some(t))
                && final(self).stamp@ == old(self).stamp@.update(j as int, old(self).sctr@)
                && final(self).sctr@ == old(self).sctr@ + 1,
    {
        if occurs(j, &t) {
            return false;
        }
        let ghost pre_slots = self.slots@;
        let ghost pre_stamp = self.stamp@;
        let ghost pre_sctr = self.sctr@;
        let ghost tg = t;
        self.slots[j] = Some(t);
        self.stamp = Ghost(self.stamp@.update(j as int, self.sctr@));
        self.sctr = Ghost(self.sctr@ + 1);
        proof {
            let slots = self.slots@;
            let stamp = self.stamp@;
            let sctr = self.sctr@;
            lemma_tvars_below(tg, slots.len() as nat);
            lemma_unbound_only_tvars(pre_slots, tg);
            assert forall|j2: int|
                #![trigger slots[j2]]
                0 <= j2 < slots.len() && slots[j2] is Some implies {
                let ct = slots[j2]->0;
                &&& stamp[j2] < sctr
                &&& type_wf(ct, slots.len() as nat)
                &&& forall|k: usize|
                    #[trigger] tvars(ct).contains(k) ==> k < slots.len() && (slots[k as int]
                        is Some ==> stamp[k as int] > stamp[j2])
            } by {
                let ct = slots[j2]->0;
                if j2 == j {
                    assert(ct == tg);
                    assert forall|k: usize| #[trigger] tvars(ct).contains(k) implies k
                        < slots.len() && (slots[k as int] is Some ==> stamp[k as int]
                        > stamp[j2]) by {
                        assert(k != j);
                        assert(pre_slots[k as int] is None);
                    }
                } else {
                    assert(slots[j2] == pre_slots[j2]);
                    let ct2 = pre_slots[j2]->0;
                    assert forall|k: usize| #[trigger] tvars(ct2).contains(k) implies k
                        < slots.len() && (slots[k as int] is Some ==> stamp[k as int]
                        > stamp[j2]) by {
                        if k == j {
                            assert(stamp[k as int] == pre_sctr);
                            assert(pre_stamp[j2] < pre_sctr);
                        }
                    }
                }
            }
            lemma_unbound_count_bind(pre_slots, j as int, tg);
            assert(resolve(slots, stamp, sctr, Type::TVar(j)) == resolve(slots, stamp, sctr, tg));
        }
        true
    }

    /// Resolves both sides and makes them equal: equal bases succeed, arrows
    /// unify componentwise, a type variable against anything else is resolved
    /// to it on the spot. On success both sides have the same full
    /// resolution; on failure slots written by earlier component successes
    /// stay written.
    pub fn unify(&mut self, t1: &Type, t2: &Type) -> (r: bool)
        requires
            old(self).wf(),
            type_wf(*t1, old(self).next_tvar as nat),
            type_wf(*t2, old(self).next_tvar as nat),
        ensures
            final(self).wf(),
            final(self).next_tvar == old(self).next_tvar,
            final(self).env@ == old(self).env@,
            final(self).extends(*old(self)),
            final(self).same_arena(*old(self)) || unbound_count(final(self).slots_view())
                < unbound_count(old(self).slots_view()),
            r ==> final(self).resolved_of(*t1) == final(self).resolved_of(*t2),
            old(self).resolved_of(*t1) == old(self).resolved_of(*t2) ==> r
                && final(self).same_arena(*old(self)),
            ((old(self).resolved_of(*t1) is Int && old(self).resolved_of(*t2) is Arrow) || (
            old(self).resolved_of(*t1) is Arrow && old(self).resolved_of(*t2) is Int)) ==> !r,
            exists|tr: UTrace|
                unify_ok(
                    tr,
                    arena_of(*old(self)),
                    *t1,
                    *t2,
                    r,
                    arena_of(*final(self)),
                ),
        decreases unbound_count(old(self).slots_view()),
            type_size(old(self).resolved_of(*t1)) + type_size(old(self).resolved_of(*t2)),
    {
        let t1s = t1.simplify(self);
        let t2s = t2.simplify(self);
        proof {
            lemma_resolve_props(self.slots@, self.stamp@, self.sctr@, *t1);
            lemma_resolve_props(self.slots@, self.stamp@, self.sctr@, *t2);
        }
        match (t1s, t2s) {
            (Type::Int, Type::Int) => {
                proof {
                    assert(unify_ok(
                        UTrace::Leaf,
                        arena_of(*old(self)),
                        *t1,
                        *t2,
                        true,
                        arena_of(*self),
                    ));
                }
                true
            }
            (Type::Arrow(t11, t12), Type::Arrow(t21, t22)) => {
                let ghost s0 = *self;
                proof {
                    lemma_resolve_fixed(self.slots@, self.stamp@, self.sctr@, *t11);
                    lemma_resolve_fixed(self.slots@, self.stamp@, self.sctr@, *t21);
                }
                let r1 = self.unify(&t11, &t21);
                if r1 {
                    let ghost s1 = *self;
                    proof {
                        if self.same_arena(s0) {
                            lemma_resolve_fixed(self.slots@, self.stamp@, self.sctr@, *t12);
                            lemma_resolve_fixed(self.slots@, self.stamp@, self.sctr@, *t22);
                        }
                    }
                    let r2 = self.unify(&t12, &t22);
                    proof {
                        if r2 {
                            let sl = self.slots@;
                            let st = self.stamp@;
                            let sc = self.sctr@;
                            lemma_evolves_trans(s0, s1, *self);
                            lemma_resolve_extend(
                                s0.slots@, s0.stamp@, s0.sctr@, sl, st, sc, *t1,
                            );
                            lemma_resolve_extend(
                                s0.slots@, s0.stamp@, s0.sctr@, sl, st, sc, *t2,
                            );
                            lemma_resolve_extend(
                                s1.slots@, s1.stamp@, s1.sctr@, sl, st, sc, *t11,
                            );
                            lemma_resolve_extend(
                                s1.slots@, s1.stamp@, s1.sctr@, sl, st, sc, *t21,
                            );
                            lemma_resolve_extend(
                                s0.slots@, s0.stamp@, s0.sctr@, s1.slots@, s1.stamp@, s1.sctr@,
                                *t11,
                            );
                            lemma_resolve_extend(
                                s0.slots@, s0.stamp@, s0.sctr@, s1.slots@, s1.stamp@, s1.sctr@,
                                *t21,
                            );
                        }
                        let tr1 = choose|tr: UTrace|
                            unify_ok(tr, arena_of(s0), *t11, *t21, true, arena_of(s1));
                        let tr2 = choose|tr: UTrace|
                            unify_ok(tr, arena_of(s1), *t12, *t22, r2, arena_of(*self));
                        let trw = UTrace::ArrowThen(
                            arena_of(s1),
                            Box::new(tr1),
                            Box::new(tr2),
                        );
                        assert(unify_ok(trw, arena_of(s0), *t1, *t2, r2, arena_of(*self)));
                    }
                    r2
                } else {
                    proof {
                        let tr1 = choose|tr: UTrace|
                            unify_ok(tr, arena_of(s0), *t11, *t21, false, arena_of(*self));
                        let trw = UTrace::ArrowFail(Box::new(tr1));
                        assert(unify_ok(trw, arena_of(s0), *t1, *t2, false, arena_of(*self)));
                    }
                    false
                }
            }
            (Type::TVar(n1), Type::TVar(n2)) if n1 == n2 => {
                proof {
                    assert(unify_ok(
                        UTrace::Leaf,
                        arena_of(*old(self)),
                        *t1,
                        *t2,
                        true,
                        arena_of(*self),
                    ));
                }
                true
            }
            (Type::TVar(n1), other) => {
                let ghost s0 = *self;
                let ghost otg = other;
                let rb = self.bind(n1, other);
                proof {
                    if rb {
                        let sl = self.slots@;
                        let st = self.stamp@;
                        let sc = self.sctr@;
                        lemma_resolve_extend(s0.slots@, s0.stamp@, s0.sctr@, sl, st, sc, *t1);
                        lemma_resolve_extend(s0.slots@, s0.stamp@, s0.sctr@, sl, st, sc, *t2);
                        assert(arena_of(*self) == bind_step(arena_of(s0), n1, otg));
                    }
                    assert(unify_ok(
                        UTrace::Leaf,
                        arena_of(s0),
                        *t1,
                        *t2,
                        rb,
                        arena_of(*self),
                    ));
                }
                rb
            }
            (other, Type::TVar(n2)) => {
                let ghost s0 = *self;
                let ghost otg = other;
                let rb = self.bind(n2, other);
                proof {
                    if rb {
                        let sl = self.slots@;
                        let st = self.stamp@;
                        let sc = self.sctr@;
                        lemma_resolve_extend(s0.slots@, s0.stamp@, s0.sctr@, sl, st, sc, *t1);
                        lemma_resolve_extend(s0.slots@, s0.stamp@, s0.sctr@, sl, st, sc, *t2);
                        assert(arena_of(*self) == bind_step(arena_of(s0), n2, otg));
                    }
                    assert(unify_ok(
                        UTrace::Leaf,
                        arena_of(s0),
                        *t1,
                        *t2,
                        rb,
                        arena_of(*self),
                    ));
                }
                rb
            }
            (_, _) => {
                proof {
                    assert(unify_ok(
                        UTrace::Leaf,
                        arena_of(*old(self)),
                        *t1,
                        *t2,
                        false,
                        arena_of(*self),
                    ));
                }
                false
            }
        }
    }

    /// Syntax-directed inference over a scope-resolved tree. On success the
    /// returned type, fully resolved under the final state, is exactly the
    /// type the tree has under the final assignment: inference is sound.
    /// The walk itself is pinned by [`infer_ok`]: the result and the final
    /// state are the ones the syntax-directed algorithm computes.
    pub fn type_infer(&mut self, expr: &Expr) -> (r: Option<Type>)
        requires
            old(self).wf(),
            resolved_expr(*expr),
            expr_ids_below(*expr, old(self).next_tvar),
            old(self).next_tvar + crate::ast::expr_size(*expr) <= usize::MAX,
        ensures
            final(self).wf(),
            final(self).next_tvar >= old(self).next_tvar,
            final(self).next_tvar <= old(self).next_tvar + crate::ast::expr_size(*expr),
            final(self).extends(*old(self)),
            r matches Some(t) ==> type_wf(t, final(self).next_tvar as nat) && type_of(
                final(self).assignment(),
                *expr,
            ) == Some(final(self).resolved_of(t)),
            exists|tr: ITrace|
                infer_ok(
                    tr,
                    arena_of(*old(self)),
                    old(self).next_tvar as nat,
                    *expr,
                    r,
                    arena_of(*final(self)),
                    final(self).next_tvar as nat,
                ),
        decreases expr,
    {
        match expr {
            Expr::Var(var) => {
                let i = match var.id {
                    Some(i) => i,
                    None => {
                        proof {
                            assert(infer_ok(
                                ITrace::Leaf,
                                arena_of(*old(self)),
                                old(self).next_tvar as nat,
                                *expr,
                                None::<Type>,
                                arena_of(*self),
                                self.next_tvar as nat,
                            ));
                        }
                        return None;
                    }
                };
                let t = self.env[i].clone();
                proof {
                    assert(t == Type::TVar(i));
                    assert(self.resolved_of(t) == self.assignment()[i as int]);
                    assert(type_of(self.assignment(), *expr) == Some(self.resolved_of(t)));
                    assert(infer_ok(
                        ITrace::Leaf,
                        arena_of(*old(self)),
                        old(self).next_tvar as nat,
                        *expr,
                        Some(t),
                        arena_of(*self),
                        self.next_tvar as nat,
                    ));
                }
                Some(t)
            }
            Expr::Abs(var, body) => {
                let ghost s0 = *self;
                let i = match var.id {
                    Some(i) => i,
                    None => {
                        proof {
                            assert(infer_ok(
                                ITrace::Leaf,
                                arena_of(s0),
                                s0.next_tvar as nat,
                                *expr,
                                None::<Type>,
                                arena_of(*self),
                                self.next_tvar as nat,
                            ));
                        }
                        return None;
                    }
                };
                let t = self.env[i].clone();
                let t2 = match self.type_infer(body) {
                    Some(t2) => t2,
                    None => {
                        proof {
                            let sub = choose|tr: ITrace|
                                infer_ok(
                                    tr,
                                    arena_of(s0),
                                    s0.next_tvar as nat,
                                    **body,
                                    None::<Type>,
                                    arena_of(*self),
                                    self.next_tvar as nat,
                                );
                            assert(infer_ok(
                                ITrace::AbsStep(Box::new(sub)),
                                arena_of(s0),
                                s0.next_tvar as nat,
                                *expr,
                                None::<Type>,
                                arena_of(*self),
                                self.next_tvar as nat,
                            ));
                        }
                        return None;
                    }
                };
                proof {
                    assert(t == Type::TVar(i));
                    assert(i < self.next_tvar);
                    assert(arena_inv(self.slots@, self.stamp@, self.sctr@));
                    assert(self.slots@.len() == self.next_tvar);
                    assert(type_wf(t2, self.next_tvar as nat));
                    assert(type_wf(t, self.next_tvar as nat));
                    assert(type_wf(
                        Type::Arrow(Box::new(t), Box::new(t2)),
                        self.slots@.len() as nat,
                    ));
                    let tr = self.resolved_of(Type::Arrow(Box::new(t), Box::new(t2)));
                    assert(tr =~= Type::Arrow(
                        Box::new(self.resolved_of(t)),
                        Box::new(self.resolved_of(t2)),
                    ));
                    assert(self.resolved_of(t) == self.assignment()[i as int]);
                    assert(type_of(self.assignment(), *expr) == Some(tr));
                    let sub = choose|trc: ITrace|
                        infer_ok(
                            trc,
                            arena_of(s0),
                            s0.next_tvar as nat,
                            **body,
                            Some(t2),
                            arena_of(*self),
                            self.next_tvar as nat,
                        );
                    assert(infer_ok(
                        ITrace::AbsStep(Box::new(sub)),
                        arena_of(s0),
                        s0.next_tvar as nat,
                        *expr,
                        Some(Type::Arrow(Box::new(t), Box::new(t2))),
                        arena_of(*self),
                        self.next_tvar as nat,
                    ));
                }
                Some(Type::Arrow(Box::new(t), Box::new(t2)))
            }
            Expr::App(e1, e2) => {
                let ghost s0 = *self;
                let ta1 = match self.type_infer(e1) {
                    Some(t) => t,
                    None => {
                        proof {
                            let sub1 = choose|trc: ITrace|
                                infer_ok(
                                    trc,
                                    arena_of(s0),
                                    s0.next_tvar as nat,
                                    **e1,
                                    None::<Type>,
                                    arena_of(*self),
                                    self.next_tvar as nat,
                                );
                            assert(infer_ok(
                                ITrace::AppFail1(Box::new(sub1)),
                                arena_of(s0),
                                s0.next_tvar as nat,
                                *expr,
                                None::<Type>,
                                arena_of(*self),
                                self.next_tvar as nat,
                            ));
                        }
                        return None;
                    }
                };
                let ghost s1 = *self;
                proof {
                    crate::ast::lemma_expr_ids_below_mono(**e2, s0.next_tvar, s1.next_tvar);
                }
                let ta2 = match self.type_infer(e2) {
                    Some(t) => t,
                    None => {
                        proof {
                            lemma_evolves_trans(s0, s1, *self);
                            let sub1 = choose|trc: ITrace|
                                infer_ok(
                                    trc,
                                    arena_of(s0),
                                    s0.next_tvar as nat,
                                    **e1,
                                    Some(ta1),
                                    arena_of(s1),
                                    s1.next_tvar as nat,
                                );
                            let sub2 = choose|trc: ITrace|
                                infer_ok(
                                    trc,
                                    arena_of(s1),
                                    s1.next_tvar as nat,
                                    **e2,
                                    None::<Type>,
                                    arena_of(*self),
                                    self.next_tvar as nat,
                                );
                            assert(infer_ok(
                                ITrace::AppFail2(
                                    ta1,
                                    arena_of(s1),
                                    s1.next_tvar as nat,
                                    Box::new(sub1),
                                    Box::new(sub2),
                                ),
                                arena_of(s0),
                                s0.next_tvar as nat,
                                *expr,
                                None::<Type>,
                                arena_of(*self),
                                self.next_tvar as nat,
                            ));
                        }
                        return None;
                    }
                };
                let ghost s2 = *self;
                let ret = self.new_tvar();
                let ghost s3 = *self;
                let arr = Type::Arrow(Box::new(ta2.clone()), Box::new(ret.clone()));
                proof {
                    lemma_evolves_trans(s1, s2, s3);
                    lemma_evolves_trans(s0, s1, s3);
                    lemma_type_wf_mono(ta1, s1.next_tvar as nat, s3.next_tvar as nat);
                    lemma_type_wf_mono(ta2, s2.next_tvar as nat, s3.next_tvar as nat);
                    assert(ret == Type::TVar(s2.next_tvar));
                    assert(type_wf(ret, s3.next_tvar as nat));
                    assert(arr =~= Type::Arrow(Box::new(ta2), Box::new(ret)));
                    assert(type_wf(arr, s3.next_tvar as nat));
                }
                let r1 = self.unify(&ta1, &arr);
                proof {
                    lemma_evolves_trans(s0, s3, *self);
                    lemma_evolves_trans(s1, s3, *self);
                    lemma_evolves_trans(s2, s3, *self);
                }
                if r1 {
                    proof {
                        let sl = self.slots@;
                        let st = self.stamp@;
                        let sc = self.sctr@;
                        lemma_resolve_props(s1.slots@, s1.stamp@, s1.sctr@, ta1);
                        lemma_type_of_extend(
                            s1.slots@, s1.stamp@, s1.sctr@, sl, st, sc, **e1,
                            s1.resolved_of(ta1),
                        );
                        lemma_resolve_extend(s1.slots@, s1.stamp@, s1.sctr@, sl, st, sc, ta1);
                        lemma_resolve_props(s2.slots@, s2.stamp@, s2.sctr@, ta2);
                        lemma_type_of_extend(
                            s2.slots@, s2.stamp@, s2.sctr@, sl, st, sc, **e2,
                            s2.resolved_of(ta2),
                        );
                        lemma_resolve_extend(s2.slots@, s2.stamp@, s2.sctr@, sl, st, sc, ta2);
                        lemma_type_wf_mono(ta2, s2.next_tvar as nat, sl.len() as nat);
                        lemma_resolve_props(sl, st, sc, ta2);
                        assert(type_wf(arr, sl.len() as nat));
                        let rta2 = self.resolved_of(ta2);
                        let rret = self.resolved_of(ret);
                        assert(self.resolved_of(arr) =~= Type::Arrow(
                            Box::new(rta2),
                            Box::new(rret),
                        ));
                        assert(self.resolved_of(ta1) == self.resolved_of(arr));
                        assert(type_of(self.assignment(), **e1) == Some(
                            Type::Arrow(Box::new(rta2), Box::new(rret)),
                        ));
                        assert(type_of(self.assignment(), **e2) == Some(rta2));
                        assert(type_of(self.assignment(), *expr) == Some(rret));
                        app_run_witness(s0, s1, s2, s3, *self, ta1, ta2, arr, **e1, **e2, *expr, r1, Some(ret));
                    }
                    Some(ret)
                } else {
                    proof {
                        app_run_witness(s0, s1, s2, s3, *self, ta1, ta2, arr, **e1, **e2, *expr, r1, None);
                    }
                    None
                }
            }
            Expr::Number(_) => {
                proof {
                    assert(infer_ok(
                        ITrace::Leaf,
                        arena_of(*old(self)),
                        old(self).next_tvar as nat,
                        *expr,
                        Some(Type::Int),
                        arena_of(*self),
                        self.next_tvar as nat,
                    ));
                }
                Some(Type::Int)
            }
            Expr::BOp(_, e1, e2) => {
                let ghost s0 = *self;
                let ta1 = match self.type_infer(e1) {
                    Some(t) => t,
                    None => {
                        proof {
                            let sub1 = choose|trc: ITrace|
                                infer_ok(
                                    trc,
                                    arena_of(s0),
                                    s0.next_tvar as nat,
                                    **e1,
                                    None::<Type>,
                                    arena_of(*self),
                                    self.next_tvar as nat,
                                );
                            assert(infer_ok(
                                ITrace::BOpFail1(Box::new(sub1)),
                                arena_of(s0),
                                s0.next_tvar as nat,
                                *expr,
                                None::<Type>,
                                arena_of(*self),
                                self.next_tvar as nat,
                            ));
                        }
                        return None;
                    }
                };
                let ghost s1 = *self;
                proof {
                    crate::ast::lemma_expr_ids_below_mono(**e2, s0.next_tvar, s1.next_tvar);
                }
                let ta2 = match self.type_infer(e2) {
                    Some(t) => t,
                    None => {
                        proof {
                            lemma_evolves_trans(s0, s1, *self);
                            let sub1 = choose|trc: ITrace|
                                infer_ok(
                                    trc,
                                    arena_of(s0),
                                    s0.next_tvar as nat,
                                    **e1,
                                    Some(ta1),
                                    arena_of(s1),
                                    s1.next_tvar as nat,
                                );
                            let sub2 = choose|trc: ITrace|
                                infer_ok(
                                    trc,
                                    arena_of(s1),
                                    s1.next_tvar as nat,
                                    **e2,
                                    None::<Type>,
                                    arena_of(*self),
                                    self.next_tvar as nat,
                                );
                            assert(infer_ok(
                                ITrace::BOpFail2(
                                    ta1,
                                    arena_of(s1),
                                    s1.next_tvar as nat,
                                    Box::new(sub1),
                                    Box::new(sub2),
                                ),
                                arena_of(s0),
                                s0.next_tvar as nat,
                                *expr,
                                None::<Type>,
                                arena_of(*self),
                                self.next_tvar as nat,
                            ));
                        }
                        return None;
                    }
                };
                let ghost s2 = *self;
                proof {
                    lemma_evolves_trans(s0, s1, s2);
                    lemma_type_wf_mono(ta1, s1.next_tvar as nat, s2.next_tvar as nat);
                }
                let r1 = self.unify(&ta1, &Type::Int);
                let ghost s3 = *self;
                proof {
                    lemma_evolves_trans(s0, s2, s3);
                    lemma_evolves_trans(s1, s2, s3);
                }
                if r1 {
                    let r2 = self.unify(&ta2, &Type::Int);
                    proof {
                        lemma_evolves_trans(s0, s3, *self);
                        lemma_evolves_trans(s1, s3, *self);
                        lemma_evolves_trans(s2, s3, *self);
                    }
                    if r2 {
                        proof {
                            let sl = self.slots@;
                            let st = self.stamp@;
                            let sc = self.sctr@;
                            lemma_resolve_props(s1.slots@, s1.stamp@, s1.sctr@, ta1);
                            lemma_type_of_extend(
                                s1.slots@, s1.stamp@, s1.sctr@, sl, st, sc, **e1,
                                s1.resolved_of(ta1),
                            );
                            lemma_resolve_extend(
                                s1.slots@, s1.stamp@, s1.sctr@, sl, st, sc, ta1,
                            );
                            lemma_resolve_props(s2.slots@, s2.stamp@, s2.sctr@, ta2);
                            lemma_type_of_extend(
                                s2.slots@, s2.stamp@, s2.sctr@, sl, st, sc, **e2,
                                s2.resolved_of(ta2),
                            );
                            lemma_resolve_extend(
                                s2.slots@, s2.stamp@, s2.sctr@, sl, st, sc, ta2,
                            );
                            lemma_resolve_extend(
                                s3.slots@, s3.stamp@, s3.sctr@, sl, st, sc, ta1,
                            );
                            assert(type_of(self.assignment(), **e1) == Some(Type::Int));
                            assert(type_of(self.assignment(), **e2) == Some(Type::Int));
                            assert(type_of(self.assignment(), *expr) == Some(Type::Int));
                            bop_run_witness(
                                s0, s1, s2, s3, *self, ta1, ta2, **e1, **e2, *expr, r1, r2,
                                Some(Type::Int),
                            );
                        }
                        Some(Type::Int)
                    } else {
                        proof {
                            bop_run_witness(
                                s0, s1, s2, s3, *self, ta1, ta2, **e1, **e2, *expr, r1, r2,
                                None,
                            );
                        }
                        None
                    }
                } else {
                    proof {
                        bop_run_witness(
                            s0, s1, s2, s3, *self, ta1, ta2, **e1, **e2, *expr, r1, false,
                            None,
                        );
                    }
                    None
                }
            }
        }
    }
}

/// Packages the legs of one application-inference run into its derivation.
proof fn app_run_witness(
    s0: TypeInfer,
    s1: TypeInfer,
    s2: TypeInfer,
    s3: TypeInfer,
    sf: TypeInfer,
    ta1: Type,
    ta2: Type,
    arr: Type,
    e1: Expr,
    e2: Expr,
    e: Expr,
    r1: bool,
    r: Option<Type>,
)
    requires
        e is App,
        *(e->App_0) == e1,
        *(e->App_1) == e2,
        exists|trc: ITrace|
            infer_ok(
                trc,
                arena_of(s0),
                s0.next_tvar as nat,
                e1,
                Some(ta1),
                arena_of(s1),
                s1.next_tvar as nat,
            ),
        exists|trc: ITrace|
            infer_ok(
                trc,
                arena_of(s1),
                s1.next_tvar as nat,
                e2,
                Some(ta2),
                arena_of(s2),
                s2.next_tvar as nat,
            ),
        s3.slots@ == s2.slots@.push(None::<Type>),
        s3.stamp@ == s2.stamp@.push(0nat),
        s3.sctr@ == s2.sctr@,
        s3.next_tvar == s2.next_tvar + 1,
        sf.next_tvar == s3.next_tvar,
        arr == Type::Arrow(Box::new(ta2), Box::new(Type::TVar(s2.next_tvar))),
        exists|tru: UTrace| unify_ok(tru, arena_of(s3), ta1, arr, r1, arena_of(sf)),
        r == (if r1 {
            Some(Type::TVar(s2.next_tvar))
        } else {
            None::<Type>
        }),
    ensures
        exists|trc: ITrace|
            infer_ok(
                trc,
                arena_of(s0),
                s0.next_tvar as nat,
                e,
                r,
                arena_of(sf),
                sf.next_tvar as nat,
            ),
{
    let sub1 = choose|trc: ITrace|
        infer_ok(
            trc,
            arena_of(s0),
            s0.next_tvar as nat,
            e1,
            Some(ta1),
            arena_of(s1),
            s1.next_tvar as nat,
        );
    let sub2 = choose|trc: ITrace|
        infer_ok(
            trc,
            arena_of(s1),
            s1.next_tvar as nat,
            e2,
            Some(ta2),
            arena_of(s2),
            s2.next_tvar as nat,
        );
    let ub = choose|tru: UTrace| unify_ok(tru, arena_of(s3), ta1, arr, r1, arena_of(sf));
    let trc = ITrace::AppRun(
        ta1,
        arena_of(s1),
        s1.next_tvar as nat,
        Box::new(sub1),
        ta2,
        arena_of(s2),
        s2.next_tvar as nat,
        Box::new(sub2),
        Box::new(ub),
    );
    assert(ArenaSnap {
        slots: arena_of(s2).slots.push(None),
        stamp: arena_of(s2).stamp.push(0nat),
        sctr: arena_of(s2).sctr,
    } == arena_of(s3));
    assert(infer_ok(
        trc,
        arena_of(s0),
        s0.next_tvar as nat,
        e,
        r,
        arena_of(sf),
        sf.next_tvar as nat,
    ));
}

/// Packages the legs of one arithmetic-inference run into its derivation.
proof fn bop_run_witness(
    s0: TypeInfer,
    s1: TypeInfer,
    s2: TypeInfer,
    s3: TypeInfer,
    sf: TypeInfer,
    ta1: Type,
    ta2: Type,
    e1: Expr,
    e2: Expr,
    e: Expr,
    r1: bool,
    r2: bool,
    r: Option<Type>,
)
    requires
        e is BOp,
        *(e->BOp_1) == e1,
        *(e->BOp_2) == e2,
        exists|trc: ITrace|
            infer_ok(
                trc,
                arena_of(s0),
                s0.next_tvar as nat,
                e1,
                Some(ta1),
                arena_of(s1),
                s1.next_tvar as nat,
            ),
        exists|trc: ITrace|
            infer_ok(
                trc,
                arena_of(s1),
                s1.next_tvar as nat,
                e2,
                Some(ta2),
                arena_of(s2),
                s2.next_tvar as nat,
            ),
        sf.next_tvar == s2.next_tvar,
        exists|tru: UTrace| unify_ok(tru, arena_of(s2), ta1, Type::Int, r1, arena_of(s3)),
        r1 ==> exists|tru: UTrace|
            unify_ok(tru, arena_of(s3), ta2, Type::Int, r2, arena_of(sf)),
        !r1 ==> arena_of(sf) == arena_of(s3),
        r == (if r1 && r2 {
            Some(Type::Int)
        } else {
            None::<Type>
        }),
    ensures
        exists|trc: ITrace|
            infer_ok(
                trc,
                arena_of(s0),
                s0.next_tvar as nat,
                e,
                r,
                arena_of(sf),
                sf.next_tvar as nat,
            ),
{
    let sub1 = choose|trc: ITrace|
        infer_ok(
            trc,
            arena_of(s0),
            s0.next_tvar as nat,
            e1,
            Some(ta1),
            arena_of(s1),
            s1.next_tvar as nat,
        );
    let sub2 = choose|trc: ITrace|
        infer_ok(
            trc,
            arena_of(s1),
            s1.next_tvar as nat,
            e2,
            Some(ta2),
            arena_of(s2),
            s2.next_tvar as nat,
        );
    let u1 = choose|tru: UTrace| unify_ok(tru, arena_of(s2), ta1, Type::Int, r1, arena_of(s3));
    if r1 {
        let u2 = choose|tru: UTrace|
            unify_ok(tru, arena_of(s3), ta2, Type::Int, r2, arena_of(sf));
        let trc = ITrace::BOpRun(
            ta1,
            arena_of(s1),
            s1.next_tvar as nat,
            Box::new(sub1),
            ta2,
            arena_of(s2),
            s2.next_tvar as nat,
            Box::new(sub2),
            Box::new(u1),
            arena_of(s3),
            Box::new(u2),
        );
        assert(infer_ok(
            trc,
            arena_of(s0),
            s0.next_tvar as nat,
            e,
            r,
            arena_of(sf),
            sf.next_tvar as nat,
        ));
    } else {
        let trc = ITrace::BOpUnifyFail(
            ta1,
            arena_of(s1),
            s1.next_tvar as nat,
            Box::new(sub1),
            ta2,
            arena_of(s2),
            s2.next_tvar as nat,
            Box::new(sub2),
            Box::new(u1),
        );
        assert(infer_ok(
            trc,
            arena_of(s0),
            s0.next_tvar as nat,
            e,
            r,
            arena_of(sf),
            sf.next_tvar as nat,
        ));
    }
}

/// Arena evolution is transitive.
proof fn lemma_evolves_trans(s0: TypeInfer, s1: TypeInfer, s2: TypeInfer)
    requires
        s1.extends(s0),
        s2.extends(s1),
    ensures
        s2.extends(s0),
{
}

/// Resolving one slot leaves one fewer unresolved.
proof fn lemma_unbound_count_bind(slots: Seq<Option<Type>>, j: int, t: Type)
    requires
        0 <= j < slots.len(),
        slots[j] is None,
    ensures
        unbound_count(slots.update(j, Some(t))) + 1 == unbound_count(slots),
    decreases slots.len(),
{
    let upd = slots.update(j, Some(t));
    if j == slots.len() - 1 {
        assert(upd.drop_last() =~= slots.drop_last());
    } else {
        assert(upd.drop_last() =~= slots.drop_last().update(j, Some(t)));
        lemma_unbound_count_bind(slots.drop_last(), j, t);
    }
}

/// Whether `t` mentions type variable `j`: the occurs check.
fn occurs(j: usize, t: &Type) -> (r: bool)
    ensures
        r == tvars(*t).contains(j),
    decreases t,
{
    match t {
        Type::Int => false,
        Type::Arrow(t1, t2) => occurs(j, t1) || occurs(j, t2),
        Type::TVar(n) => *n == j,
    }
}

impl Type {
    /// Follows resolved-slot chains, inside arrows too, returning the full
    /// resolution of this type under the inference state.
    pub fn simplify(&self, ti: &TypeInfer) -> (r: Type)
        requires
            ti.wf(),
            type_wf(*self, ti.next_tvar as nat),
        ensures
            r == ti.resolved_of(*self),
            unbound_only(ti.slots_view(), r),
            type_wf(r, ti.next_tvar as nat),
        decreases rank(ti.slots_view(), ti.stamp@, ti.sctr@, *self), type_size(*self),
    {
        let r = match self {
            Type::Int => Type::Int,
            Type::Arrow(t1, t2) => Type::Arrow(
                Box::new(t1.simplify(ti)),
                Box::new(t2.simplify(ti)),
            ),
            Type::TVar(n) => {
                match &ti.slots[*n] {
                    Some(t) => {
                        proof {
                            lemma_contents_rank(ti.slots@, ti.stamp@, ti.sctr@, *n);
                        }
                        t.simplify(ti)
                    }
                    None => Type::TVar(*n),
                }
            }
        };
        proof {
            lemma_resolve_props(ti.slots@, ti.stamp@, ti.sctr@, *self);
        }
        r
    }

    /// The type each node of an inferred tree ended up with, fully resolved:
    /// the lookup later stages and diagnostics use.
    pub fn get_type(ti: &TypeInfer, expr: &Expr) -> (r: Option<Type>)
        requires
            ti.wf(),
        ensures
            r == get_type_model(ti.slots_view(), ti.stamp@, ti.sctr@, *expr),
        decreases expr,
    {
        match expr {
            Expr::Var(var) => {
                match var.id {
                    Some(i) => {
                        if i < ti.env.len() {
                            let t = ti.env[i].clone();
                            Some(t.simplify(ti))
                        } else {
                            None
                        }
                    }
                    None => None,
                }
            }
            Expr::Abs(var, body) => {
                match var.id {
                    Some(i) => {
                        if i < ti.env.len() {
                            let t = ti.env[i].clone();
                            let t1 = t.simplify(ti);
                            match Self::get_type(ti, body) {
                                Some(t2) => Some(Type::Arrow(Box::new(t1), Box::new(t2))),
                                None => None,
                            }
                        } else {
                            None
                        }
                    }
                    None => None,
                }
            }
            Expr::App(e1, _) => {
                match Self::get_type(ti, e1) {
                    Some(t1) => match t1 {
                        Type::Arrow(t11, t12) => {
                            proof {
                                lemma_get_type_resolved(
                                    ti.slots@, ti.stamp@, ti.sctr@, **e1,
                                );
                                lemma_resolve_fixed(ti.slots@, ti.stamp@, ti.sctr@, *t12);
                            }
                            Some((*t12).simplify(ti))
                        }
                        _ => None,
                    },
                    None => None,
                }
            }
            Expr::Number(_) => Some(Type::Int),
            Expr::BOp(_, _, _) => Some(Type::Int),
        }
    }
}

/// What `get_type` looks up, as a function of the arena state and the tree.
pub open spec fn get_type_model(
    slots: Seq<Option<Type>>,
    stamp: Seq<nat>,
    sctr: nat,
    e: Expr,
) -> Option<Type>
    decreases e,
{
    match e {
        Expr::Var(v) => if v.id is Some && vid(v) < slots.len() {
            Some(resolve(slots, stamp, sctr, Type::TVar(vid(v))))
        } else {
            None
        },
        Expr::Abs(v, body) => if v.id is Some && vid(v) < slots.len() {
            match get_type_model(slots, stamp, sctr, *body) {
                Some(t2) => Some(
                    Type::Arrow(
                        Box::new(resolve(slots, stamp, sctr, Type::TVar(vid(v)))),
                        Box::new(t2),
                    ),
                ),
                None => None,
            }
        } else {
            None
        },
        Expr::App(e1, _) => match get_type_model(slots, stamp, sctr, *e1) {
            Some(t1) => match t1 {
                Type::Arrow(_, t12) => Some(*t12),
                _ => None,
            },
            None => None,
        },
        Expr::Number(_) => Some(Type::Int),
        Expr::BOp(_, _, _) => Some(Type::Int),
    }
}

/// The lookup only ever returns fully simplified, well-formed types.
proof fn lemma_get_type_resolved(
    slots: Seq<Option<Type>>,
    stamp: Seq<nat>,
    sctr: nat,
    e: Expr,
)
    requires
        arena_inv(slots, stamp, sctr),
    ensures
        get_type_model(slots, stamp, sctr, e) matches Some(t) ==> unbound_only(slots, t)
            && type_wf(t, slots.len() as nat),
    decreases e,
{
    match e {
        Expr::Var(v) => {
            if v.id is Some && vid(v) < slots.len() {
                lemma_resolve_props(slots, stamp, sctr, Type::TVar(vid(v)));
            }
        }
        Expr::Abs(v, body) => {
            if v.id is Some && vid(v) < slots.len() {
                lemma_resolve_props(slots, stamp, sctr, Type::TVar(vid(v)));
                lemma_get_type_resolved(slots, stamp, sctr, *body);
            }
        }
        Expr::App(e1, _) => {
            lemma_get_type_resolved(slots, stamp, sctr, *e1);
        }
        Expr::Number(_) => {}
        Expr::BOp(_, _, _) => {}
    }
}

} // verus!
