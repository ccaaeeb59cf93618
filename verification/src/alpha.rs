//! Scope resolution: every binder receives a globally unique identity from a
//! single monotonically increasing counter, every reference is stamped with
//! the identity of the innermost enclosing binder of its name, and a
//! reference with no enclosing binder makes the whole conversion fail.

use vstd::prelude::*;

use crate::ast::{
    abs_count, binder_ids, expr_ids_below, free_names, lemma_expr_ids_below_mono, resolved_expr,
    scoped_expr, Expr, Variable,
};

verus! {

/// The association from names in force to their identities, innermost last.
#[derive(Debug)]
struct AlphaConvMap {
    entries: Vec<(String, usize)>,
}

/// The identity the innermost entry of `env` gives to `name`, if any entry
/// carries that name.
pub open spec fn lookup_name(env: Seq<(Seq<char>, usize)>, name: Seq<char>) -> Option<usize>
    decreases env.len(),
{
    if env.len() == 0 {
        None
    } else if env.last().0 == name {
        Some(env.last().1)
    } else {
        lookup_name(env.drop_last(), name)
    }
}

/// The set of names that `env` holds.
pub open spec fn names_in(env: Seq<(Seq<char>, usize)>) -> Set<Seq<char>>
    decreases env.len(),
{
    if env.len() == 0 {
        Set::empty()
    } else {
        names_in(env.drop_last()).insert(env.last().0)
    }
}

/// The set of identities that `env` holds.
pub open spec fn ids_in(env: Seq<(Seq<char>, usize)>) -> Set<usize>
    decreases env.len(),
{
    if env.len() == 0 {
        Set::empty()
    } else {
        ids_in(env.drop_last()).insert(env.last().1)
    }
}

/// A lookup succeeds exactly when the environment holds the name.
pub proof fn lemma_lookup_names(env: Seq<(Seq<char>, usize)>, name: Seq<char>)
    ensures
        lookup_name(env, name) is Some <==> names_in(env).contains(name),
    decreases env.len(),
{
    if env.len() > 0 {
        lemma_lookup_names(env.drop_last(), name);
    }
}

/// A successful lookup returns one of the environment's identities.
pub proof fn lemma_lookup_ids(env: Seq<(Seq<char>, usize)>, name: Seq<char>)
    ensures
        lookup_name(env, name) matches Some(i) ==> ids_in(env).contains(i),
    decreases env.len(),
{
    if env.len() > 0 {
        lemma_lookup_ids(env.drop_last(), name);
    }
}

impl AlphaConvMap {
    spec fn view_seq(&self) -> Seq<(Seq<char>, usize)> {
        self.entries@.map_values(|p: (String, usize)| (p.0@, p.1))
    }

    /// Innermost-first search for a name, the standard lexical shadowing rule.
    fn search(&self, value: &String) -> (r: Option<usize>)
        ensures
            r == lookup_name(self.view_seq(), value@),
    {
        let mut k = self.entries.len();
        proof {
            assert(self.view_seq().take(k as int) =~= self.view_seq());
        }
        while k > 0
            invariant
                k <= self.entries.len(),
                lookup_name(self.view_seq(), value@) == lookup_name(
                    self.view_seq().take(k as int),
                    value@,
                ),
            decreases k,
        {
            k = k - 1;
            if self.entries[k].0 == *value {
                assert(self.view_seq().take(k as int + 1).last() == self.view_seq()[k as int]);
                return Some(self.entries[k].1);
            }
            proof {
                let view = self.view_seq();
                assert(view.take(k as int + 1).last() == view[k as int]);
                assert(view.take(k as int + 1).drop_last() =~= view.take(k as int));
            }
        }
        None
    }
}

/// What scope resolution returns, as a function of the names in force, the
/// counter, and the tree: the converted tree (or `None` on an unbound
/// reference) and the counter after the walk.
pub open spec fn alpha_model(env: Seq<(Seq<char>, usize)>, ctr: nat, e: Expr) -> (
    Option<Expr>,
    nat,
)
    decreases e,
{
    match e {
        Expr::Var(v) => (
            match lookup_name(env, v.name@) {
                Some(i) => Some(Expr::Var(Variable { name: v.name, id: Some(i) })),
                None => None,
            },
            ctr,
        ),
        Expr::Abs(v, body) => {
            let inner = alpha_model(env.push((v.name@, ctr as usize)), ctr + 1, *body);
            (
                match inner.0 {
                    Some(b2) => Some(
                        Expr::Abs(
                            Variable { name: v.name, id: Some(ctr as usize) },
                            Box::new(b2),
                        ),
                    ),
                    None => None,
                },
                inner.1,
            )
        }
        Expr::App(e1, e2) => {
            let r1 = alpha_model(env, ctr, *e1);
            match r1.0 {
                None => (None, r1.1),
                Some(a1) => {
                    let r2 = alpha_model(env, r1.1, *e2);
                    match r2.0 {
                        None => (None, r2.1),
                        Some(a2) => (Some(Expr::App(Box::new(a1), Box::new(a2))), r2.1),
                    }
                }
            }
        }
        Expr::Number(n) => (Some(Expr::Number(n)), ctr),
        Expr::BOp(op, e1, e2) => {
            let r1 = alpha_model(env, ctr, *e1);
            match r1.0 {
                None => (None, r1.1),
                Some(a1) => {
                    let r2 = alpha_model(env, r1.1, *e2);
                    match r2.0 {
                        None => (None, r2.1),
                        Some(a2) => (Some(Expr::BOp(op, Box::new(a1), Box::new(a2))), r2.1),
                    }
                }
            }
        }
    }
}

/// Scope resolution state: the names in force and the shared fresh-identity
/// counter, advanced once per binder and never rewound.
#[derive(Debug)]
pub struct AlphaConvEnv {
    map: AlphaConvMap,
    id: usize,
}

impl AlphaConvEnv {
    /// The names in force, innermost last.
    pub closed spec fn scope(&self) -> Seq<(Seq<char>, usize)> {
        self.map.view_seq()
    }

    /// The next identity the counter will hand out.
    pub closed spec fn counter(&self) -> usize {
        self.id
    }

    /// An empty scope with the counter at zero.
    pub fn new() -> (r: AlphaConvEnv)
        ensures
            r.scope() == Seq::<(Seq<char>, usize)>::empty(),
            r.counter() == 0,
    {
        let r = AlphaConvEnv { map: AlphaConvMap { entries: Vec::new() }, id: 0 };
        proof {
            assert(r.scope() =~= Seq::<(Seq<char>, usize)>::empty());
        }
        r
    }

    /// How many distinct identities have been allocated so far; after a whole
    /// tree is converted this seeds the type inferencer's slot table.
    pub fn id(&self) -> (r: usize)
        ensures
            r == self.counter(),
    {
        self.id
    }

    /// Hands out the next identity and advances the counter.
    fn get_new_id(&mut self) -> (r: usize)
        requires
            old(self).id < usize::MAX,
        ensures
            r == old(self).id,
            final(self).id == old(self).id + 1,
            final(self).map == old(self).map,
    {
        let new_id = self.id;
        self.id = self.id + 1;
        new_id
    }

    /// Pushes a binder's name with a fresh identity; the extension is undone
    /// by `drop_variable` when the binder's body has been walked.
    fn add_variable(&mut self, var_name: String) -> (r: usize)
        requires
            old(self).id < usize::MAX,
        ensures
            r == old(self).id,
            final(self).id == old(self).id + 1,
            final(self).scope() == old(self).scope().push((var_name@, r)),
    {
        let new_id = self.get_new_id();
        let ghost pre = self.map.view_seq();
        let ghost entry = (var_name, new_id);
        self.map.entries.push((var_name, new_id));
        proof {
            assert(self.map.view_seq() =~= pre.push((entry.0@, new_id)));
        }
        new_id
    }

    /// Removes the innermost name.
    fn drop_variable(&mut self)
        requires
            old(self).scope().len() > 0,
        ensures
            final(self).id == old(self).id,
            final(self).scope() == old(self).scope().drop_last(),
    {
        let ghost pre = self.map.view_seq();
        let _ = self.map.entries.pop();
        proof {
            assert(self.map.view_seq() =~= pre.drop_last());
        }
    }

    /// Resolves every reference in `expr` to the identity of its innermost
    /// enclosing binder (or an entry already in scope), stamping each binder
    /// with a fresh identity; returns `None` exactly on an unbound reference.
    pub fn alpha_conversion(&mut self, expr: Expr) -> (r: Option<Expr>)
        requires
            old(self).counter() + abs_count(expr) <= usize::MAX,
        ensures
            final(self).scope() == old(self).scope(),
            ({
                let m = alpha_model(old(self).scope(), old(self).counter() as nat, expr);
                r == m.0 && final(self).counter() as nat == m.1
            }),
        decreases expr,
    {
        match expr {
            Expr::Var(var) => {
                match self.map.search(&var.name) {
                    Some(found) => Some(Expr::Var(Variable { name: var.name, id: Some(found) })),
                    None => None,
                }
            }
            Expr::Abs(var, body) => {
                let new_id = self.add_variable(var.name.clone());
                let body2 = self.alpha_conversion(*body);
                self.drop_variable();
                match body2 {
                    Some(b) => Some(
                        Expr::Abs(Variable { name: var.name, id: Some(new_id) }, Box::new(b)),
                    ),
                    None => None,
                }
            }
            Expr::App(e1, e2) => {
                proof {
                    lemma_alpha_counter(self.scope(), self.counter() as nat, *e1);
                }
                match self.alpha_conversion(*e1) {
                    None => None,
                    Some(a1) => match self.alpha_conversion(*e2) {
                        None => None,
                        Some(a2) => Some(Expr::App(Box::new(a1), Box::new(a2))),
                    },
                }
            }
            Expr::Number(n) => Some(Expr::Number(n)),
            Expr::BOp(op, e1, e2) => {
                proof {
                    lemma_alpha_counter(self.scope(), self.counter() as nat, *e1);
                }
                match self.alpha_conversion(*e1) {
                    None => None,
                    Some(a1) => match self.alpha_conversion(*e2) {
                        None => None,
                        Some(a2) => Some(Expr::BOp(op, Box::new(a1), Box::new(a2))),
                    },
                }
            }
        }
    }
}

/// The conversion consumes no identities on failure paths beyond those of the
/// subtrees it walked, and on success exactly one per abstraction.
pub proof fn lemma_alpha_counter(env: Seq<(Seq<char>, usize)>, ctr: nat, e: Expr)
    ensures
        ctr <= alpha_model(env, ctr, e).1 <= ctr + abs_count(e),
        alpha_model(env, ctr, e).0 is Some ==> alpha_model(env, ctr, e).1 == ctr + abs_count(e),
    decreases e,
{
    match e {
        Expr::Var(_) => {}
        Expr::Abs(v, body) => {
            lemma_alpha_counter(env.push((v.name@, ctr as usize)), ctr + 1, *body);
        }
        Expr::App(e1, e2) => {
            lemma_alpha_counter(env, ctr, *e1);
            let r1 = alpha_model(env, ctr, *e1);
            if r1.0 is Some {
                lemma_alpha_counter(env, r1.1, *e2);
            }
        }
        Expr::Number(_) => {}
        Expr::BOp(_, e1, e2) => {
            lemma_alpha_counter(env, ctr, *e1);
            let r1 = alpha_model(env, ctr, *e1);
            if r1.0 is Some {
                lemma_alpha_counter(env, r1.1, *e2);
            }
        }
    }
}

/// Totality and unbound detection: the conversion succeeds exactly when every
/// free name of the tree is in scope.
pub proof fn lemma_alpha_total(env: Seq<(Seq<char>, usize)>, ctr: nat, e: Expr)
    ensures
        alpha_model(env, ctr, e).0 is Some <==> free_names(e).subset_of(names_in(env)),
    decreases e,
{
    match e {
        Expr::Var(v) => {
            lemma_lookup_names(env, v.name@);
        }
        Expr::Abs(v, body) => {
            let env2 = env.push((v.name@, ctr as usize));
            lemma_alpha_total(env2, ctr + 1, *body);
            assert(env2.drop_last() =~= env);
            assert(names_in(env2) == names_in(env).insert(v.name@));
        }
        Expr::App(e1, e2) => {
            lemma_alpha_total(env, ctr, *e1);
            let r1 = alpha_model(env, ctr, *e1);
            if r1.0 is Some {
                lemma_alpha_total(env, r1.1, *e2);
            } else {
                assert(!free_names(*e1).subset_of(names_in(env)));
            }
        }
        Expr::Number(_) => {}
        Expr::BOp(_, e1, e2) => {
            lemma_alpha_total(env, ctr, *e1);
            let r1 = alpha_model(env, ctr, *e1);
            if r1.0 is Some {
                lemma_alpha_total(env, r1.1, *e2);
            } else {
                assert(!free_names(*e1).subset_of(names_in(env)));
            }
        }
    }
}

/// The shape of a successful conversion: the tree is fully resolved, every
/// reference points at an enclosing binder or an entry of the starting scope,
/// the binders carry the identities `ctr, ctr + 1, ...` in preorder (one per
/// abstraction, so all distinct), and every identity lies below the final
/// counter.
pub proof fn lemma_alpha_resolution(env: Seq<(Seq<char>, usize)>, ctr: nat, e: Expr)
    requires
        alpha_model(env, ctr, e).0 is Some,
        ctr + abs_count(e) <= usize::MAX,
        forall|k: int| 0 <= k < env.len() ==> (#[trigger] env[k].1) < ctr,
    ensures
        ({
            let r = alpha_model(env, ctr, e).0->0;
            let c2 = alpha_model(env, ctr, e).1;
            &&& resolved_expr(r)
            &&& scoped_expr(r, ids_in(env))
            &&& binder_ids(r).len() == abs_count(e)
            &&& forall|k: int| 0 <= k < abs_count(e) ==> (#[trigger] binder_ids(r)[k]) == ctr + k
            &&& expr_ids_below(r, c2 as usize)
        }),
    decreases e,
{
    lemma_alpha_counter(env, ctr, e);
    match e {
        Expr::Var(v) => {
            lemma_lookup_ids(env, v.name@);
            lemma_ids_in_below(env, ctr, v.name@);
        }
        Expr::Abs(v, body) => {
            let env2 = env.push((v.name@, ctr as usize));
            assert(env2.drop_last() =~= env);
            assert forall|k: int| 0 <= k < env2.len() implies (#[trigger] env2[k].1) < ctr + 1 by {
                if k < env.len() {
                    assert(env2[k] == env[k]);
                }
            }
            lemma_alpha_resolution(env2, ctr + 1, *body);
            let rb = alpha_model(env2, ctr + 1, *body).0->0;
            let r = alpha_model(env, ctr, e).0->0;
            assert(ids_in(env2) == ids_in(env).insert(ctr as usize));
            assert(scoped_expr(r, ids_in(env)));
            assert(binder_ids(r) =~= seq![ctr as usize] + binder_ids(rb));
        }
        Expr::App(e1, e2) => {
            lemma_alpha_counter(env, ctr, *e1);
            let r1 = alpha_model(env, ctr, *e1);
            lemma_alpha_resolution(env, ctr, *e1);
            assert forall|k: int| 0 <= k < env.len() implies (#[trigger] env[k].1) < r1.1 by {}
            lemma_alpha_resolution(env, r1.1, *e2);
            let r2 = alpha_model(env, r1.1, *e2);
            let a1 = r1.0->0;
            let a2 = r2.0->0;
            lemma_expr_ids_below_mono(a1, r1.1 as usize, r2.1 as usize);
            let r = alpha_model(env, ctr, e).0->0;
            assert(binder_ids(r) =~= binder_ids(a1) + binder_ids(a2));
        }
        Expr::Number(_) => {}
        Expr::BOp(_, e1, e2) => {
            lemma_alpha_counter(env, ctr, *e1);
            let r1 = alpha_model(env, ctr, *e1);
            lemma_alpha_resolution(env, ctr, *e1);
            lemma_alpha_resolution(env, r1.1, *e2);
            let r2 = alpha_model(env, r1.1, *e2);
            let a1 = r1.0->0;
            let a2 = r2.0->0;
            lemma_expr_ids_below_mono(a1, r1.1 as usize, r2.1 as usize);
            let r = alpha_model(env, ctr, e).0->0;
            assert(binder_ids(r) =~= binder_ids(a1) + binder_ids(a2));
        }
    }
}

/// Identities in an environment whose entries all lie below `ctr` resolve
/// below `ctr`.
proof fn lemma_ids_in_below(env: Seq<(Seq<char>, usize)>, ctr: nat, name: Seq<char>)
    requires
        forall|k: int| 0 <= k < env.len() ==> (#[trigger] env[k].1) < ctr,
    ensures
        lookup_name(env, name) matches Some(i) ==> i < ctr,
    decreases env.len(),
{
    if env.len() > 0 {
        lemma_ids_in_below(env.drop_last(), ctr, name);
    }
}


/// Totality of scope resolution, from an empty scope: a tree without free
/// names converts, every occurrence in the result carries an identity, the
/// binders receive exactly the identities `0, 1, ...` - as many as the tree
/// has abstractions, all distinct - and every reference resolves to one of
/// them.
pub proof fn lemma_alpha_conversion_total(e: Expr)
    requires
        free_names(e) =~= Set::<Seq<char>>::empty(),
        abs_count(e) <= usize::MAX,
    ensures
        ({
            let m = alpha_model(Seq::empty(), 0, e);
            &&& m.0 is Some
            &&& m.1 == abs_count(e)
            &&& resolved_expr(m.0->0)
            &&& binder_ids(m.0->0).len() == abs_count(e)
            &&& (forall|k: int|
                0 <= k < abs_count(e) ==> (#[trigger] binder_ids(m.0->0)[k]) as nat == k)
            &&& expr_ids_below(m.0->0, abs_count(e) as usize)
            &&& scoped_expr(m.0->0, Set::empty())
        }),
{
    let env = Seq::<(Seq<char>, usize)>::empty();
    lemma_alpha_total(env, 0, e);
    assert(names_in(env) =~= Set::<Seq<char>>::empty());
    assert(free_names(e).subset_of(names_in(env)));
    lemma_alpha_resolution(env, 0, e);
    assert(ids_in(env) =~= Set::<usize>::empty());
    lemma_alpha_counter(env, 0, e);
}

} // verus!
