//! A WebAssembly text backend for hoisted programs: every function becomes a
//! `func` entry compiled against one shared indirect-call type, closure
//! records live in linear memory behind a bump-allocated stack pointer, and
//! top-level functions are dispatched through one funcref table.
//!
//! The emitted text is pinned down exactly: `compile` appends precisely the
//! rendering that [`wat_program`] describes, so the output is stable and
//! deterministic. Unlike the values the pipeline's stages compute, the text
//! here depends on the surface names too, so these contracts are stated over
//! the full structures rather than their ghost views.

use vstd::prelude::*;
use vstd::pervasive::unreached;

use crate::anf::{contains_id, idset, lemma_idset_push, ANFs, HoistedANFs, Value, ANF};
use crate::ast::{dec_rep, int_text, usize_to_string, var_text, vid, Operator, Variable};

verus! {

/// The table index a function identity was assigned, if any: the last entry
/// wins, as in the map the entries were inserted into one by one.
pub open spec fn lookup_fun(table: Seq<(usize, u32)>, id: usize) -> Option<u32>
    decreases table.len(),
{
    if table.len() == 0 {
        None
    } else if table.last().0 == id {
        Some(table.last().1)
    } else {
        lookup_fun(table.drop_last(), id)
    }
}

/// The table a definition list induces: each function's identity, in order.
pub open spec fn table_of(defs: Seq<(Variable, Vec<Variable>, ANFs)>) -> Seq<(usize, u32)> {
    Seq::new(defs.len(), |i: int| (vid(defs[i].0), i as u32))
}

/// The code pushing one operand onto the wasm stack.
pub open spec fn wat_value(v: Value, table: Seq<(usize, u32)>) -> Seq<char> {
    match v {
        Value::Number(n) => "i32.const "@ + int_text(n as int) + "\n"@,
        Value::Var(x) => "local.get $"@ + var_text(x) + "\n"@,
        Value::Global(x) => "i32.const "@ + dec_rep(
            (match lookup_fun(table, vid(x)) {
                Some(i) => i,
                None => 0,
            }) as nat,
        ) + "\n"@,
    }
}

pub open spec fn wat_values(vs: Seq<Value>, table: Seq<(usize, u32)>) -> Seq<char>
    decreases vs.len(),
{
    if vs.len() == 0 {
        Seq::empty()
    } else {
        wat_value(vs[0], table) + wat_values(vs.drop_first(), table)
    }
}

/// The stores filling one record's fields, from field `k` on.
pub open spec fn wat_stores(vs: Seq<Value>, table: Seq<(usize, u32)>, k: nat) -> Seq<char>
    decreases vs.len() - k,
{
    if k >= vs.len() {
        Seq::empty()
    } else {
        "global.get $stack_pointer\n"@ + wat_value(vs[k as int], table) + "i32.store offset="@
            + dec_rep(4 * k) + "\n"@ + wat_stores(vs, table, k + 1)
    }
}

/// The instruction of one arithmetic operator.
pub open spec fn wat_op(op: Operator) -> Seq<char> {
    match op {
        Operator::Add => "i32.add\n"@,
        Operator::Sub => "i32.sub\n"@,
        Operator::Mul => "i32.mul\n"@,
        Operator::Div => "i32.div_s\n"@,
    }
}

/// The code of one statement.
pub open spec fn wat_stmt(a: ANF, table: Seq<(usize, u32)>) -> Seq<char> {
    match a {
        ANF::Fun(_, _, _) => Seq::empty(),
        ANF::App(var, func, args) => wat_values(args@, table)
            + "(call_indirect (type $t) (local.get $"@ + var_text(func) + "))\n"@
            + "local.set $"@ + var_text(var) + "\n"@,
        ANF::BOp(var, op, v1, v2) => wat_value(v1, table) + wat_value(v2, table) + wat_op(op)
            + "local.set $"@ + var_text(var) + "\n"@,
        ANF::Tuple(var, vs) => wat_stores(vs@, table, 0) + "global.get $stack_pointer\n"@
            + "local.set $"@ + var_text(var) + "\n"@ + "global.get $stack_pointer\n"@
            + "i32.const "@ + dec_rep(4 * vs@.len()) + "\n"@ + "i32.add\n"@
            + "global.set $stack_pointer\n"@,
        ANF::Project(var, tuple, index) => "local.get $"@ + var_text(tuple) + "\n"@
            + "i32.load offset="@ + dec_rep(4 * index as nat) + "\n"@ + "local.set $"@
            + var_text(var) + "\n"@,
    }
}

pub open spec fn wat_stmts(q: Seq<ANF>, table: Seq<(usize, u32)>) -> Seq<char>
    decreases q.len(),
{
    if q.len() == 0 {
        Seq::empty()
    } else {
        wat_stmt(q[0], table) + wat_stmts(q.drop_first(), table)
    }
}

/// The variable a statement binds.
pub open spec fn target_var(a: ANF) -> Variable {
    match a {
        ANF::Fun(v, _, _) => v,
        ANF::App(v, _, _) => v,
        ANF::BOp(v, _, _, _) => v,
        ANF::Tuple(v, _) => v,
        ANF::Project(v, _, _) => v,
    }
}

/// The local declarations a body needs: one per bound identity, first
/// binding first.
pub open spec fn local_vars(q: Seq<ANF>, seen: Set<usize>) -> Seq<Variable>
    decreases q.len(),
{
    if q.len() == 0 {
        Seq::empty()
    } else {
        let v = target_var(q[0]);
        if seen.contains(vid(v)) {
            local_vars(q.drop_first(), seen)
        } else {
            seq![v] + local_vars(q.drop_first(), seen.insert(vid(v)))
        }
    }
}

pub open spec fn wat_params(args: Seq<Variable>) -> Seq<char>
    decreases args.len(),
{
    if args.len() == 0 {
        Seq::empty()
    } else {
        "(param $"@ + var_text(args[0]) + " i32) "@ + wat_params(args.drop_first())
    }
}

pub open spec fn wat_locals(vs: Seq<Variable>) -> Seq<char>
    decreases vs.len(),
{
    if vs.len() == 0 {
        Seq::empty()
    } else {
        "(local $"@ + var_text(vs[0]) + " i32) "@ + wat_locals(vs.drop_first())
    }
}

/// The full text of one compiled function.
pub open spec fn wat_fun(
    name: Seq<char>,
    args: Seq<Variable>,
    body: ANFs,
    table: Seq<(usize, u32)>,
) -> Seq<char> {
    "(func $"@ + name + " "@ + wat_params(args) + "(result i32)\n"@ + wat_locals(
        local_vars(body.anfs@, Set::empty()),
    ) + "\n"@ + wat_stmts(body.anfs@, table) + wat_value(body.value->0, table) + ")\n"@
}

/// The entries of the funcref table, each ` $name`.
pub open spec fn wat_elem_names(defs: Seq<(Variable, Vec<Variable>, ANFs)>) -> Seq<char>
    decreases defs.len(),
{
    if defs.len() == 0 {
        Seq::empty()
    } else {
        " $"@ + var_text(defs[0].0) + wat_elem_names(defs.drop_first())
    }
}

pub open spec fn wat_funs(
    defs: Seq<(Variable, Vec<Variable>, ANFs)>,
    table: Seq<(usize, u32)>,
) -> Seq<char>
    decreases defs.len(),
{
    if defs.len() == 0 {
        Seq::empty()
    } else {
        wat_fun(var_text(defs[0].0), defs[0].1@, defs[0].2, table) + wat_funs(
            defs.drop_first(),
            table,
        )
    }
}

/// The full module text of a hoisted program.
pub open spec fn wat_program(h: HoistedANFs) -> Seq<char> {
    let table = table_of(h.fun_defs@);
    "(module\n"@ + "(memory 1)\n"@ + "(global $stack_pointer (mut i32) (i32.const 0))\n"@
        + "(table "@ + dec_rep(h.fun_defs@.len()) + " funcref)\n"@ + "(elem (i32.const 0)"@
        + wat_elem_names(h.fun_defs@) + ")\n"@
        + "(type $t (func (param i32 i32) (result i32)))\n"@ + wat_funs(h.fun_defs@, table)
        + wat_fun("_start"@, Seq::empty(), h.main, table) + "(export \"_start\" (func $_start))\n"@
        + ")\n"@
}

/// One operand is compilable: a global reference must be in the table.
pub open spec fn val_ok(v: Value, table: Seq<(usize, u32)>) -> bool {
    match v {
        Value::Global(x) => lookup_fun(table, vid(x)) is Some,
        _ => true,
    }
}

pub open spec fn vals_ok(vs: Seq<Value>, table: Seq<(usize, u32)>) -> bool {
    forall|k: int| 0 <= k < vs.len() ==> val_ok(#[trigger] vs[k], table)
}

/// One statement is compilable: no function literal is left, globals are in
/// the table, and record offsets fit the machine.
pub open spec fn stmt_ok(a: ANF, table: Seq<(usize, u32)>) -> bool {
    match a {
        ANF::Fun(_, _, _) => false,
        ANF::App(_, _, args) => vals_ok(args@, table),
        ANF::BOp(_, _, v1, v2) => val_ok(v1, table) && val_ok(v2, table),
        ANF::Tuple(_, vs) => vals_ok(vs@, table) && 4 * vs@.len() <= usize::MAX,
        ANF::Project(_, _, index) => 4 * index as nat <= usize::MAX,
    }
}

pub open spec fn stmts_ok(q: Seq<ANF>, table: Seq<(usize, u32)>) -> bool {
    forall|k: int| 0 <= k < q.len() ==> stmt_ok(#[trigger] q[k], table)
}

/// A whole body is compilable, its tail value included. A body without a
/// tail value is left out: the original backend fails on one, so rather
/// than inventing an output for it the precondition excludes it - the
/// pipeline never produces such a body.
pub open spec fn body_ok(body: ANFs, table: Seq<(usize, u32)>) -> bool {
    &&& stmts_ok(body.anfs@, table)
    &&& body.value matches Some(v) && val_ok(v, table)
}

/// The backend: the text grown so far, and the funcref table index each
/// top-level function received.
pub struct WasmCompiler {
    pub program: String,
    pub fun_table: Vec<(usize, u32)>,
}

impl WasmCompiler {
    /// An empty module text and an empty function table.
    pub fn new() -> (r: Self)
        ensures
            r.program@ == Seq::<char>::empty(),
            r.fun_table@ == Seq::<(usize, u32)>::empty(),
    {
        Self { program: String::new(), fun_table: Vec::new() }
    }

    /// Appends one line of text.
    fn append_line(&mut self, line: &str)
        ensures
            final(self).program@ == old(self).program@ + line@ + "\n"@,
            final(self).fun_table == old(self).fun_table,
    {
        self.program.append(line);
        self.program.append("\n");
        proof {
            assert(self.program@ =~= old(self).program@ + line@ + "\n"@);
        }
    }

    /// Appends a fragment of text.
    fn append(&mut self, text: &str)
        ensures
            final(self).program@ == old(self).program@ + text@,
            final(self).fun_table == old(self).fun_table,
    {
        self.program.append(text);
    }

    /// The index the table gives a function identity.
    fn find_fun(&self, id: usize) -> (r: Option<u32>)
        ensures
            r == lookup_fun(self.fun_table@, id),
    {
        let mut k = self.fun_table.len();
        proof {
            assert(self.fun_table@.take(k as int) =~= self.fun_table@);
        }
        while k > 0
            invariant
                k <= self.fun_table.len(),
                lookup_fun(self.fun_table@, id) == lookup_fun(
                    self.fun_table@.take(k as int),
                    id,
                ),
            decreases k,
        {
            k = k - 1;
            if self.fun_table[k].0 == id {
                assert(self.fun_table@.take(k as int + 1).last() == self.fun_table@[k as int]);
                return Some(self.fun_table[k].1);
            }
            proof {
                let view = self.fun_table@;
                assert(view.take(k as int + 1).last() == view[k as int]);
                assert(view.take(k as int + 1).drop_last() =~= view.take(k as int));
            }
        }
        None
    }

    /// Emits the code pushing one operand.
    fn compile_value(&mut self, value: &Value)
        requires
            val_ok(*value, old(self).fun_table@),
        ensures
            final(self).program@ == old(self).program@ + wat_value(
                *value,
                old(self).fun_table@,
            ),
            final(self).fun_table == old(self).fun_table,
    {
        match value {
            Value::Number(n) => {
                self.append("i32.const ");
                let digits = crate::ast::i64_to_string(*n);
                self.append(digits.as_str());
                self.append_line("");
                proof {
                    reveal_strlit("");
                    assert(self.program@ =~= old(self).program@ + wat_value(
                        *value,
                        old(self).fun_table@,
                    ));
                }
            }
            Value::Var(x) => {
                self.append("local.get $");
                let name = x.to_text();
                self.append(name.as_str());
                self.append_line("");
                proof {
                    reveal_strlit("");
                    assert(self.program@ =~= old(self).program@ + wat_value(
                        *value,
                        old(self).fun_table@,
                    ));
                }
            }
            Value::Global(x) => {
                let index = match self.find_fun(var_id_of(x)) {
                    Some(i) => i,
                    None => unreached(),
                };
                self.append("i32.const ");
                let digits = usize_to_string(index as usize);
                self.append(digits.as_str());
                self.append_line("");
                proof {
                    reveal_strlit("");
                    assert(index as nat == (match lookup_fun(old(self).fun_table@, vid(*x)) {
                        Some(i) => i,
                        None => 0u32,
                    }) as nat);
                    assert(self.program@ =~= old(self).program@ + wat_value(
                        *value,
                        old(self).fun_table@,
                    ));
                }
            }
        }
    }

    /// Emits the code of one statement: arguments pushed left to right, an
    /// indirect call through the shared type for an application, arithmetic
    /// on the wasm stack, bump allocation and stores for a record, an
    /// indexed load for a projection.
    #[verifier::rlimit(100)]
    #[verifier::spinoff_prover]
    fn compile_anf(&mut self, anf: &ANF)
        requires
            stmt_ok(*anf, old(self).fun_table@),
        ensures
            final(self).program@ == old(self).program@ + wat_stmt(*anf, old(self).fun_table@),
            final(self).fun_table == old(self).fun_table,
    {
        match anf {
            ANF::Fun(_, _, _) => unreached(),
            ANF::App(var, func, args) => {
                let ghost table = self.fun_table@;
                let ghost gargs = args@;
                let mut k: usize = 0;
                proof {
                    assert(gargs.take(0) =~= Seq::<Value>::empty());
                    assert(self.program@ =~= old(self).program@ + wat_values(
                        gargs.take(0),
                        table,
                    ));
                }
                while k < args.len()
                    invariant
                        k <= args.len(),
                        gargs == args@,
                        vals_ok(gargs, table),
                        self.fun_table@ == table,
                        self.fun_table == old(self).fun_table,
                        self.program@ == old(self).program@ + wat_values(
                            gargs.take(k as int),
                            table,
                        ),
                    decreases args.len() - k,
                {
                    self.compile_value(&args[k]);
                    proof {
                        lemma_wat_values_snoc(gargs.take(k as int), gargs[k as int], table);
                        assert(gargs.take(k as int).push(gargs[k as int]) =~= gargs.take(
                            k as int + 1,
                        ));
                    }
                    k = k + 1;
                }
                proof {
                    assert(gargs.take(args@.len() as int) =~= gargs);
                }
                self.append("(call_indirect (type $t) (local.get $");
                let name = func.to_text();
                self.append(name.as_str());
                self.append_line("))");
                self.append("local.set $");
                let tname = var.to_text();
                self.append(tname.as_str());
                self.append_line("");
                proof {
                    reveal_strlit("");
                    reveal_strlit("\n");
                    reveal_strlit("))");
                    reveal_strlit("))\n");
                    assert("))"@ + "\n"@ =~= "))\n"@);
                    assert(self.program@ =~= old(self).program@ + wat_stmt(*anf, table));
                }
            }
            ANF::BOp(var, op, v1, v2) => {
                let ghost table = self.fun_table@;
                self.compile_value(v1);
                self.compile_value(v2);
                match op {
                    Operator::Add => self.append_line("i32.add"),
                    Operator::Sub => self.append_line("i32.sub"),
                    Operator::Mul => self.append_line("i32.mul"),
                    Operator::Div => self.append_line("i32.div_s"),
                }
                self.append("local.set $");
                let tname = var.to_text();
                self.append(tname.as_str());
                self.append_line("");
                proof {
                    reveal_strlit("");
                    reveal_strlit("\n");
                    reveal_strlit("i32.add");
                    reveal_strlit("i32.add\n");
                    reveal_strlit("i32.sub");
                    reveal_strlit("i32.sub\n");
                    reveal_strlit("i32.mul");
                    reveal_strlit("i32.mul\n");
                    reveal_strlit("i32.div_s");
                    reveal_strlit("i32.div_s\n");
                    assert("i32.add"@ + "\n"@ =~= "i32.add\n"@);
                    assert("i32.sub"@ + "\n"@ =~= "i32.sub\n"@);
                    assert("i32.mul"@ + "\n"@ =~= "i32.mul\n"@);
                    assert("i32.div_s"@ + "\n"@ =~= "i32.div_s\n"@);
                    assert(self.program@ =~= old(self).program@ + wat_stmt(*anf, table));
                }
            }
            ANF::Tuple(var, vs) => {
                let ghost table = self.fun_table@;
                let ghost gvs = vs@;
                let n = vs.len();
                let mut k: usize = 0;
                proof {
                    assert(self.program@ =~= old(self).program@ + Seq::<char>::empty());
                }
                while k < n
                    invariant
                        k <= n,
                        n == vs@.len(),
                        gvs == vs@,
                        vals_ok(gvs, table),
                        4 * gvs.len() <= usize::MAX,
                        self.fun_table@ == table,
                        self.fun_table == old(self).fun_table,
                        self.program@ + wat_stores(gvs, table, k as nat) == old(
                            self,
                        ).program@ + wat_stores(gvs, table, 0),
                    decreases n - k,
                {
                    self.append_line("global.get $stack_pointer");
                    self.compile_value(&vs[k]);
                    self.append("i32.store offset=");
                    let digits = usize_to_string(4 * k);
                    self.append(digits.as_str());
                    self.append_line("");
                    proof {
                        reveal_strlit("");
                        reveal_strlit("\n");
                        reveal_strlit("global.get $stack_pointer");
                        reveal_strlit("global.get $stack_pointer\n");
                        assert("global.get $stack_pointer"@ + "\n"@
                            =~= "global.get $stack_pointer\n"@);
                        assert(self.program@ + wat_stores(gvs, table, k as nat + 1) =~= old(
                            self,
                        ).program@ + wat_stores(gvs, table, 0));
                    }
                    k = k + 1;
                }
                proof {
                    assert(wat_stores(gvs, table, n as nat) =~= Seq::<char>::empty());
                    assert(self.program@ =~= old(self).program@ + wat_stores(gvs, table, 0));
                }
                self.append_line("global.get $stack_pointer");
                self.append("local.set $");
                let tname = var.to_text();
                self.append(tname.as_str());
                self.append_line("");
                self.append_line("global.get $stack_pointer");
                self.append("i32.const ");
                let size = usize_to_string(4 * n);
                self.append(size.as_str());
                self.append_line("");
                self.append_line("i32.add");
                self.append_line("global.set $stack_pointer");
                proof {
                    reveal_strlit("");
                    reveal_strlit("\n");
                    reveal_strlit("global.get $stack_pointer");
                    reveal_strlit("global.get $stack_pointer\n");
                    reveal_strlit("i32.add");
                    reveal_strlit("i32.add\n");
                    reveal_strlit("global.set $stack_pointer");
                    reveal_strlit("global.set $stack_pointer\n");
                    assert("global.get $stack_pointer"@ + "\n"@
                        =~= "global.get $stack_pointer\n"@);
                    assert("i32.add"@ + "\n"@ =~= "i32.add\n"@);
                    assert("global.set $stack_pointer"@ + "\n"@
                        =~= "global.set $stack_pointer\n"@);
                    assert(self.program@ =~= old(self).program@ + wat_stmt(*anf, table));
                }
            }
            ANF::Project(var, tuple, index) => {
                let ghost table = self.fun_table@;
                self.append("local.get $");
                let tuptext = tuple.to_text();
                self.append(tuptext.as_str());
                self.append_line("");
                self.append("i32.load offset=");
                let digits = usize_to_string(4 * *index);
                self.append(digits.as_str());
                self.append_line("");
                self.append("local.set $");
                let tname = var.to_text();
                self.append(tname.as_str());
                self.append_line("");
                proof {
                    reveal_strlit("");
                    assert(self.program@ =~= old(self).program@ + wat_stmt(*anf, table));
                }
            }
        }
    }
}

/// Reads the identity of a variable, zero when unresolved.
fn var_id_of(v: &Variable) -> (r: usize)
    ensures
        r == vid(*v),
{
    match v.id {
        Some(i) => i,
        None => 0,
    }
}

/// One more operand extends the emitted values at the end.
proof fn lemma_wat_values_snoc(vs: Seq<Value>, x: Value, table: Seq<(usize, u32)>)
    ensures
        wat_values(vs.push(x), table) == wat_values(vs, table) + wat_value(x, table),
    decreases vs.len(),
{
    if vs.len() == 0 {
        assert(vs.push(x).drop_first() =~= Seq::<Value>::empty());
        assert(vs.push(x)[0] == x);
        assert(wat_values(Seq::<Value>::empty(), table) =~= Seq::<char>::empty());
        assert(wat_values(vs.push(x), table) =~= wat_values(vs, table) + wat_value(x, table));
    } else {
        assert(vs.push(x).drop_first() =~= vs.drop_first().push(x));
        lemma_wat_values_snoc(vs.drop_first(), x, table);
        assert(wat_values(vs.push(x), table) =~= wat_values(vs, table) + wat_value(x, table));
    }
}


/// The identities seen once a statement list's targets have been recorded.
pub open spec fn vids_after(q: Seq<ANF>, seen: Set<usize>) -> Set<usize>
    decreases q.len(),
{
    if q.len() == 0 {
        seen
    } else {
        vids_after(q.drop_first(), seen.insert(vid(target_var(q[0]))))
    }
}

/// One more statement extends the locals, unless its identity was declared.
proof fn lemma_local_vars_snoc(q: Seq<ANF>, x: ANF, seen: Set<usize>)
    ensures
        local_vars(q.push(x), seen) == local_vars(q, seen) + (if vids_after(q, seen).contains(
            vid(target_var(x)),
        ) {
            Seq::<Variable>::empty()
        } else {
            seq![target_var(x)]
        }),
        vids_after(q.push(x), seen) == vids_after(q, seen).insert(vid(target_var(x))),
    decreases q.len(),
{
    if q.len() == 0 {
        assert(q.push(x).drop_first() =~= Seq::<ANF>::empty());
        assert(q.push(x)[0] == x);
        assert(local_vars(Seq::<ANF>::empty(), seen.insert(vid(target_var(x)))) =~= Seq::<
            Variable,
        >::empty());
        assert(local_vars(Seq::<ANF>::empty(), seen) =~= Seq::<Variable>::empty());
        assert(vids_after(Seq::<ANF>::empty(), seen.insert(vid(target_var(x)))) =~= seen.insert(
            vid(target_var(x)),
        ));
        assert(vids_after(Seq::<ANF>::empty(), seen) =~= seen);
        assert(local_vars(q.push(x), seen) =~= local_vars(q, seen) + (if vids_after(
            q,
            seen,
        ).contains(vid(target_var(x))) {
            Seq::<Variable>::empty()
        } else {
            seq![target_var(x)]
        }));
        assert(vids_after(q.push(x), seen) =~= vids_after(q, seen).insert(vid(target_var(x))));
    } else {
        assert(q.push(x).drop_first() =~= q.drop_first().push(x));
        let v0 = target_var(q[0]);
        if seen.contains(vid(v0)) {
            lemma_local_vars_snoc(q.drop_first(), x, seen);
            assert(seen.insert(vid(v0)) =~= seen);
        } else {
            lemma_local_vars_snoc(q.drop_first(), x, seen.insert(vid(v0)));
            assert(local_vars(q.push(x), seen) =~= local_vars(q, seen) + (if vids_after(
                q,
                seen,
            ).contains(vid(target_var(x))) {
                Seq::<Variable>::empty()
            } else {
                seq![target_var(x)]
            }));
        }
    }
}

/// One more local extends the declaration text at the end.
proof fn lemma_wat_locals_snoc(vs: Seq<Variable>, x: Variable)
    ensures
        wat_locals(vs.push(x)) == wat_locals(vs) + "(local $"@ + var_text(x) + " i32) "@,
    decreases vs.len(),
{
    if vs.len() == 0 {
        assert(vs.push(x).drop_first() =~= Seq::<Variable>::empty());
        assert(vs.push(x)[0] == x);
        assert(wat_locals(Seq::<Variable>::empty()) =~= Seq::<char>::empty());
        assert(wat_locals(vs.push(x)) =~= wat_locals(vs) + "(local $"@ + var_text(x)
            + " i32) "@);
    } else {
        assert(vs.push(x).drop_first() =~= vs.drop_first().push(x));
        lemma_wat_locals_snoc(vs.drop_first(), x);
        assert(wat_locals(vs.push(x)) =~= wat_locals(vs) + "(local $"@ + var_text(x)
            + " i32) "@);
    }
}

/// One more parameter extends the parameter text at the end.
proof fn lemma_wat_params_snoc(vs: Seq<Variable>, x: Variable)
    ensures
        wat_params(vs.push(x)) == wat_params(vs) + "(param $"@ + var_text(x) + " i32) "@,
    decreases vs.len(),
{
    if vs.len() == 0 {
        assert(vs.push(x).drop_first() =~= Seq::<Variable>::empty());
        assert(vs.push(x)[0] == x);
        assert(wat_params(Seq::<Variable>::empty()) =~= Seq::<char>::empty());
        assert(wat_params(vs.push(x)) =~= wat_params(vs) + "(param $"@ + var_text(x)
            + " i32) "@);
    } else {
        assert(vs.push(x).drop_first() =~= vs.drop_first().push(x));
        lemma_wat_params_snoc(vs.drop_first(), x);
        assert(wat_params(vs.push(x)) =~= wat_params(vs) + "(param $"@ + var_text(x)
            + " i32) "@);
    }
}

/// One more statement extends the emitted code at the end.
proof fn lemma_wat_stmts_snoc(q: Seq<ANF>, x: ANF, table: Seq<(usize, u32)>)
    ensures
        wat_stmts(q.push(x), table) == wat_stmts(q, table) + wat_stmt(x, table),
    decreases q.len(),
{
    if q.len() == 0 {
        assert(q.push(x).drop_first() =~= Seq::<ANF>::empty());
        assert(q.push(x)[0] == x);
        assert(wat_stmts(Seq::<ANF>::empty(), table) =~= Seq::<char>::empty());
        assert(wat_stmts(q.push(x), table) =~= wat_stmts(q, table) + wat_stmt(x, table));
    } else {
        assert(q.push(x).drop_first() =~= q.drop_first().push(x));
        lemma_wat_stmts_snoc(q.drop_first(), x, table);
        assert(wat_stmts(q.push(x), table) =~= wat_stmts(q, table) + wat_stmt(x, table));
    }
}

/// One more definition extends the table-entry text at the end.
proof fn lemma_wat_elem_names_snoc(defs: Seq<(Variable, Vec<Variable>, ANFs)>, x: (
    Variable,
    Vec<Variable>,
    ANFs,
))
    ensures
        wat_elem_names(defs.push(x)) == wat_elem_names(defs) + " $"@ + var_text(x.0),
    decreases defs.len(),
{
    if defs.len() == 0 {
        assert(defs.push(x).drop_first() =~= Seq::<(Variable, Vec<Variable>, ANFs)>::empty());
        assert(defs.push(x)[0] == x);
        assert(wat_elem_names(Seq::<(Variable, Vec<Variable>, ANFs)>::empty()) =~= Seq::<
            char,
        >::empty());
        assert(wat_elem_names(defs.push(x)) =~= wat_elem_names(defs) + " $"@ + var_text(x.0));
    } else {
        assert(defs.push(x).drop_first() =~= defs.drop_first().push(x));
        lemma_wat_elem_names_snoc(defs.drop_first(), x);
        assert(wat_elem_names(defs.push(x)) =~= wat_elem_names(defs) + " $"@ + var_text(x.0));
    }
}

/// One more definition extends the compiled functions at the end.
proof fn lemma_wat_funs_snoc(
    defs: Seq<(Variable, Vec<Variable>, ANFs)>,
    x: (Variable, Vec<Variable>, ANFs),
    table: Seq<(usize, u32)>,
)
    ensures
        wat_funs(defs.push(x), table) == wat_funs(defs, table) + wat_fun(
            var_text(x.0),
            x.1@,
            x.2,
            table,
        ),
    decreases defs.len(),
{
    if defs.len() == 0 {
        assert(defs.push(x).drop_first() =~= Seq::<(Variable, Vec<Variable>, ANFs)>::empty());
        assert(defs.push(x)[0] == x);
        assert(wat_funs(Seq::<(Variable, Vec<Variable>, ANFs)>::empty(), table) =~= Seq::<
            char,
        >::empty());
        assert(wat_funs(defs.push(x), table) =~= wat_funs(defs, table) + wat_fun(
            var_text(x.0),
            x.1@,
            x.2,
            table,
        ));
    } else {
        assert(defs.push(x).drop_first() =~= defs.drop_first().push(x));
        lemma_wat_funs_snoc(defs.drop_first(), x, table);
        assert(wat_funs(defs.push(x), table) =~= wat_funs(defs, table) + wat_fun(
            var_text(x.0),
            x.1@,
            x.2,
            table,
        ));
    }
}

/// The whole program is compilable: every body against the table its
/// definition list induces.
pub open spec fn program_ok(h: HoistedANFs) -> bool {
    &&& h.fun_defs@.len() <= u32::MAX
    &&& forall|i: int|
        0 <= i < h.fun_defs@.len() ==> body_ok((#[trigger] h.fun_defs@[i]).2, table_of(
            h.fun_defs@,
        ))
    &&& body_ok(h.main, table_of(h.fun_defs@))
}

impl WasmCompiler {
    /// Emits one function: the header with one parameter per argument, one
    /// local per identity the body binds, the body's statements, the tail
    /// value, and the closing parenthesis.
    #[verifier::rlimit(100)]
    #[verifier::spinoff_prover]
    fn compile_fun(&mut self, fun_name: &str, args: Vec<Variable>, body: &ANFs)
        requires
            body_ok(*body, old(self).fun_table@),
        ensures
            final(self).program@ == old(self).program@ + wat_fun(
                fun_name@,
                args@,
                *body,
                old(self).fun_table@,
            ),
            final(self).fun_table == old(self).fun_table,
    {
        let ghost table = self.fun_table@;
        let ghost gargs = args@;
        self.append("(func $");
        self.append(fun_name);
        self.append(" ");
        let mut k: usize = 0;
        let ghost header = old(self).program@ + "(func $"@ + fun_name@ + " "@;
        proof {
            assert(gargs.take(0) =~= Seq::<Variable>::empty());
            assert(wat_params(Seq::<Variable>::empty()) =~= Seq::<char>::empty());
            assert(self.program@ =~= header + wat_params(gargs.take(0)));
        }
        while k < args.len()
            invariant
                k <= args.len(),
                gargs == args@,
                self.fun_table == old(self).fun_table,
                self.fun_table@ == table,
                self.program@ == header + wat_params(gargs.take(k as int)),
            decreases args.len() - k,
        {
            self.append("(param $");
            let name = args[k].to_text();
            self.append(name.as_str());
            self.append(" i32) ");
            proof {
                lemma_wat_params_snoc(gargs.take(k as int), gargs[k as int]);
                assert(gargs.take(k as int).push(gargs[k as int]) =~= gargs.take(k as int + 1));
                assert(self.program@ =~= header + wat_params(gargs.take(k as int + 1)));
            }
            k = k + 1;
        }
        proof {
            assert(gargs.take(args@.len() as int) =~= gargs);
        }
        self.append("(result i32)\n");
        let ghost gq = body.anfs@;
        let ghost header2 = header + wat_params(gargs) + "(result i32)\n"@;
        let mut seen: Vec<usize> = Vec::new();
        let mut i: usize = 0;
        proof {
            assert(gq.take(0) =~= Seq::<ANF>::empty());
            assert(local_vars(Seq::<ANF>::empty(), Set::<usize>::empty()) =~= Seq::<
                Variable,
            >::empty());
            assert(wat_locals(Seq::<Variable>::empty()) =~= Seq::<char>::empty());
            assert(idset(Seq::<usize>::empty()) =~= Set::<usize>::empty());
            assert(vids_after(Seq::<ANF>::empty(), Set::<usize>::empty()) =~= Set::<
                usize,
            >::empty());
            assert(self.program@ =~= header2 + wat_locals(
                local_vars(gq.take(0), Set::empty()),
            ));
        }
        while i < body.anfs.len()
            invariant
                i <= body.anfs.len(),
                gq == body.anfs@,
                self.fun_table == old(self).fun_table,
                self.fun_table@ == table,
                self.program@ == header2 + wat_locals(
                    local_vars(gq.take(i as int), Set::empty()),
                ),
                idset(seen@) == vids_after(gq.take(i as int), Set::empty()),
            decreases body.anfs.len() - i,
        {
            let ghost prefix = gq.take(i as int);
            proof {
                assert(prefix.push(gq[i as int]) =~= gq.take(i as int + 1));
                lemma_local_vars_snoc(prefix, gq[i as int], Set::empty());
                lemma_wat_locals_snoc(
                    local_vars(prefix, Set::empty()),
                    target_var(gq[i as int]),
                );
            }
            let v = match &body.anfs[i] {
                ANF::Fun(v, _, _) => v,
                ANF::App(v, _, _) => v,
                ANF::BOp(v, _, _, _) => v,
                ANF::Tuple(v, _) => v,
                ANF::Project(v, _, _) => v,
            };
            proof {
                assert(*v == target_var(gq[i as int]));
            }
            let id = var_id_of(v);
            if !contains_id(&seen, id) {
                self.append("(local $");
                let name = v.to_text();
                self.append(name.as_str());
                self.append(" i32) ");
                let ghost pre_seen = seen@;
                seen.push(id);
                proof {
                    lemma_idset_push(pre_seen, id);
                }
            }
            proof {
                let t = target_var(gq[i as int]);
                if vids_after(prefix, Set::empty()).contains(vid(t)) {
                    assert(local_vars(gq.take(i as int + 1), Set::empty()) =~= local_vars(
                        prefix,
                        Set::empty(),
                    ));
                    assert(vids_after(gq.take(i as int + 1), Set::empty()) =~= vids_after(
                        prefix,
                        Set::empty(),
                    ));
                } else {
                    assert(local_vars(prefix, Set::empty()).push(t) =~= local_vars(
                        prefix,
                        Set::empty(),
                    ) + seq![t]);
                    assert(local_vars(gq.take(i as int + 1), Set::empty()) =~= local_vars(
                        prefix,
                        Set::empty(),
                    ).push(t));
                }
                assert(self.program@ =~= header2 + wat_locals(
                    local_vars(gq.take(i as int + 1), Set::empty()),
                ));
            }
            i = i + 1;
        }
        proof {
            assert(gq.take(body.anfs@.len() as int) =~= gq);
        }
        self.append("\n");
        let ghost header3 = header2 + wat_locals(local_vars(gq, Set::empty())) + "\n"@;
        let mut j: usize = 0;
        proof {
            assert(gq.take(0) =~= Seq::<ANF>::empty());
            assert(wat_stmts(Seq::<ANF>::empty(), table) =~= Seq::<char>::empty());
            assert(self.program@ =~= header3 + wat_stmts(gq.take(0), table));
        }
        while j < body.anfs.len()
            invariant
                j <= body.anfs.len(),
                gq == body.anfs@,
                stmts_ok(gq, table),
                self.fun_table == old(self).fun_table,
                self.fun_table@ == table,
                self.program@ == header3 + wat_stmts(gq.take(j as int), table),
            decreases body.anfs.len() - j,
        {
            self.compile_anf(&body.anfs[j]);
            proof {
                lemma_wat_stmts_snoc(gq.take(j as int), gq[j as int], table);
                assert(gq.take(j as int).push(gq[j as int]) =~= gq.take(j as int + 1));
                assert(self.program@ =~= header3 + wat_stmts(gq.take(j as int + 1), table));
            }
            j = j + 1;
        }
        proof {
            assert(gq.take(body.anfs@.len() as int) =~= gq);
        }
        match &body.value {
            Some(v) => {
                self.compile_value(v);
            }
            None => unreached(),
        }
        self.append(")\n");
        proof {
            assert(self.program@ =~= old(self).program@ + wat_fun(
                fun_name@,
                args@,
                *body,
                table,
            ));
        }
    }

    /// Emits the funcref table and its element segment, and records the
    /// index each top-level function received.
    fn generate_fun_table(&mut self, hoisted_anfs: &HoistedANFs)
        requires
            old(self).fun_table@ == Seq::<(usize, u32)>::empty(),
            hoisted_anfs.fun_defs@.len() <= u32::MAX,
        ensures
            final(self).fun_table@ == table_of(hoisted_anfs.fun_defs@),
            final(self).program@ == old(self).program@ + "(table "@ + dec_rep(
                hoisted_anfs.fun_defs@.len(),
            ) + " funcref)\n"@ + "(elem (i32.const 0)"@ + wat_elem_names(
                hoisted_anfs.fun_defs@,
            ) + ")\n"@,
    {
        let ghost gdefs = hoisted_anfs.fun_defs@;
        self.append("(table ");
        let count = usize_to_string(hoisted_anfs.fun_defs.len());
        self.append(count.as_str());
        self.append(" funcref)\n");
        self.append("(elem (i32.const 0)");
        let ghost header = old(self).program@ + "(table "@ + dec_rep(gdefs.len())
            + " funcref)\n"@ + "(elem (i32.const 0)"@;
        let mut i: usize = 0;
        proof {
            assert(gdefs.take(0) =~= Seq::<(Variable, Vec<Variable>, ANFs)>::empty());
            assert(wat_elem_names(Seq::<(Variable, Vec<Variable>, ANFs)>::empty()) =~= Seq::<
                char,
            >::empty());
            assert(self.program@ =~= header + wat_elem_names(gdefs.take(0)));
            assert(self.fun_table@ =~= Seq::new(0nat, |j: int| (vid(gdefs[j].0), j as u32)));
        }
        while i < hoisted_anfs.fun_defs.len()
            invariant
                i <= hoisted_anfs.fun_defs.len(),
                gdefs == hoisted_anfs.fun_defs@,
                gdefs.len() <= u32::MAX,
                self.program@ == header + wat_elem_names(gdefs.take(i as int)),
                self.fun_table@ == Seq::new(i as nat, |j: int| (vid(gdefs[j].0), j as u32)),
            decreases hoisted_anfs.fun_defs.len() - i,
        {
            self.append(" $");
            let name = hoisted_anfs.fun_defs[i].0.to_text();
            self.append(name.as_str());
            let id = var_id_of(&hoisted_anfs.fun_defs[i].0);
            self.fun_table.push((id, i as u32));
            proof {
                lemma_wat_elem_names_snoc(gdefs.take(i as int), gdefs[i as int]);
                assert(gdefs.take(i as int).push(gdefs[i as int]) =~= gdefs.take(i as int + 1));
                assert(self.program@ =~= header + wat_elem_names(gdefs.take(i as int + 1)));
                assert(self.fun_table@ =~= Seq::new(
                    (i + 1) as nat,
                    |j: int| (vid(gdefs[j].0), j as u32),
                ));
            }
            i = i + 1;
        }
        proof {
            assert(gdefs.take(hoisted_anfs.fun_defs@.len() as int) =~= gdefs);
            assert(self.fun_table@ =~= table_of(gdefs));
        }
        self.append(")\n");
    }

    /// Emits the whole module: memory, the bump-allocation pointer, the
    /// funcref table, the shared call type, one `func` per definition, the
    /// main body as the exported `_start`, and the closing parenthesis. The
    /// emitted text is exactly [`wat_program`] of the input.
    #[verifier::rlimit(100)]
    #[verifier::spinoff_prover]
    pub fn compile(&mut self, hoisted_anfs: HoistedANFs)
        requires
            old(self).fun_table@ == Seq::<(usize, u32)>::empty(),
            program_ok(hoisted_anfs),
        ensures
            final(self).fun_table@ == table_of(hoisted_anfs.fun_defs@),
            final(self).program@ == old(self).program@ + wat_program(hoisted_anfs),
    {
        let ghost gdefs = hoisted_anfs.fun_defs@;
        let ghost table = table_of(gdefs);
        self.append("(module\n");
        self.append("(memory 1)\n");
        self.append("(global $stack_pointer (mut i32) (i32.const 0))\n");
        self.generate_fun_table(&hoisted_anfs);
        self.append("(type $t (func (param i32 i32) (result i32)))\n");
        let ghost header = old(self).program@ + "(module\n"@ + "(memory 1)\n"@
            + "(global $stack_pointer (mut i32) (i32.const 0))\n"@ + "(table "@ + dec_rep(
            gdefs.len(),
        ) + " funcref)\n"@ + "(elem (i32.const 0)"@ + wat_elem_names(gdefs) + ")\n"@
            + "(type $t (func (param i32 i32) (result i32)))\n"@;
        let HoistedANFs { fun_defs, main } = hoisted_anfs;
        let mut fun_defs = fun_defs;
        let ghost mut i: int = 0;
        proof {
            assert(gdefs.take(0) =~= Seq::<(Variable, Vec<Variable>, ANFs)>::empty());
            assert(wat_funs(Seq::<(Variable, Vec<Variable>, ANFs)>::empty(), table) =~= Seq::<
                char,
            >::empty());
            assert(self.program@ =~= header + wat_funs(gdefs.take(0), table));
            assert(fun_defs@ =~= gdefs.skip(0));
        }
        while fun_defs.len() > 0
            invariant
                0 <= i <= gdefs.len(),
                fun_defs@ == gdefs.skip(i),
                self.fun_table@ == table,
                forall|k: int| 0 <= k < gdefs.len() ==> body_ok((#[trigger] gdefs[k]).2, table),
                self.program@ == header + wat_funs(gdefs.take(i), table),
            decreases fun_defs.len(),
        {
            let ghost pre = fun_defs@;
            proof {
                assert(gdefs.skip(i).len() == gdefs.len() - i);
                assert(i < gdefs.len());
            }
            let (fun_name, fargs, fbody) = fun_defs.remove(0);
            proof {
                assert(pre[0] == gdefs[i]);
                assert(fun_defs@ =~= gdefs.skip(i + 1));
                assert(body_ok(fbody, table));
            }
            let name = fun_name.to_text();
            self.compile_fun(name.as_str(), fargs, &fbody);
            proof {
                lemma_wat_funs_snoc(gdefs.take(i), gdefs[i], table);
                assert(gdefs.take(i).push(gdefs[i]) =~= gdefs.take(i + 1));
                assert(self.program@ =~= header + wat_funs(gdefs.take(i + 1), table));
                i = i + 1;
            }
        }
        proof {
            assert(gdefs.take(gdefs.len() as int) =~= gdefs);
            assert(gdefs.skip(i).len() == 0);
            assert(i == gdefs.len());
        }
        let start_args: Vec<Variable> = Vec::new();
        self.compile_fun("_start", start_args, &main);
        self.append("(export \"_start\" (func $_start))\n");
        self.append(")\n");
        proof {
            reveal_strlit("_start");
            assert(self.program@ =~= old(self).program@ + wat_program(hoisted_anfs));
        }
    }
}

} // verus!
