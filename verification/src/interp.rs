//! Tree-walking interpreter: runs a program on the runtime.
//!
//! The AP/MP costs apply only inside a `tour`. Reading a variable declared outside the
//! current `tour` costs 1 MP the first time in the turn and is free afterwards (conditions
//! read for free). Calling a bot checks its cooldown, evaluates the arguments, spends its
//! effective cost when inside a `tour`, records the cast (which may ban the account), puts
//! the bot on cooldown and runs its body instantly, outside any budget.
//!
//! Integer arithmetic wraps around on overflow. Every loop iteration and every bot call
//! uses one unit of a depth budget, so that a run always ends.

use vstd::prelude::*;
use crate::ast::{
    exprs_size, exprs_v, expr_size, fields_init_v, fields_size, lemma_exprs_size_index, lemma_exprs_v,
    lemma_fields_init_v, lemma_fields_size_index, lemma_stmts_size_index, lemma_stmts_v, stmt_size, stmts_size,
    block_size, AssignOp, BinOp, Block, BlockV, Bot, BotV, Expr, ExprKind, ExprKindV, ExprV, Item, ItemV, Program,
    ProgramV, Stmt, StmtV, UnOp, VariantV, FieldV, PanoV, PersoV,
};
use crate::config::Config;
use crate::patch::{layout, layout_tags, pin_error};
use crate::runtime::{
    available_turn, cooldowns_set, recorded, sat_add64, ActionId, Fault, Runtime, RuntimeView,
};
use crate::sema::{bot_cost, cost_map, effective_costs, find_bot, items_v, names_v, pragma_config, pragma_config_x, quoted, CostTable};
use crate::text::{debug_str, decimal, digits_of, int_text, nat_text, owned, push_text, str_debug, string_eq, string_is};

verus! {

// ------------------------------------------------------------------ values

/// Runtime value.
#[derive(Debug)]
pub enum Value {
    Int(i64),
    Bool(bool),
    Str(String),
    /// Instance of a `perso`: its fields and their values, each field once.
    Struct(Vec<(String, Value)>),
    /// `afk_total`, the unit value.
    Unit,
}

pub enum ValueV {
    Int(i64),
    Bool(bool),
    Str(Seq<char>),
    Struct(Seq<(Seq<char>, ValueV)>),
    Unit,
}

pub open spec fn value_v(v: Value) -> ValueV
    decreases v,
{
    match v {
        Value::Int(n) => ValueV::Int(n),
        Value::Bool(b) => ValueV::Bool(b),
        Value::Str(s) => ValueV::Str(s@),
        Value::Struct(f) => ValueV::Struct(fields_vv(f@)),
        Value::Unit => ValueV::Unit,
    }
}

pub open spec fn fields_vv(s: Seq<(String, Value)>) -> Seq<(Seq<char>, ValueV)>
    decreases s,
{
    if s.len() == 0 {
        Seq::empty()
    } else {
        fields_vv(s.drop_last()).push((s.last().0@, value_v(s.last().1)))
    }
}

impl View for Value {
    type V = ValueV;

    open spec fn view(&self) -> ValueV {
        value_v(*self)
    }
}

/// Runtime error.
#[derive(Debug)]
pub enum RunError {
    /// Budget overrun.
    Fault(Fault),
    /// Suspicion reached the ban threshold: « compte banni ».
    Banni,
    /// A bot cast while on cooldown: « sort en cooldown ».
    Cooldown,
    /// Any other error (undefined variable, type, …).
    Msg(String),
}

pub enum RunErrorV {
    Fault(Fault),
    Banni,
    Cooldown,
    Msg(Seq<char>),
}

impl View for RunError {
    type V = RunErrorV;

    open spec fn view(&self) -> RunErrorV {
        match self {
            RunError::Fault(f) => RunErrorV::Fault(*f),
            RunError::Banni => RunErrorV::Banni,
            RunError::Cooldown => RunErrorV::Cooldown,
            RunError::Msg(m) => RunErrorV::Msg(m@),
        }
    }
}

/// The text `{:?}` gives of a value, as the derived `Debug` of `Value` writes it: the
/// variant's name and its payload. A `perso` instance shows its fields as a map,
/// `{"name": value, ...}`, in field order.
pub open spec fn value_text(v: ValueV) -> Seq<char>
    decreases v,
{
    match v {
        ValueV::Int(n) => "Int("@ + decimal(n as int) + ")"@,
        ValueV::Bool(b) => if b { "Bool(true)"@ } else { "Bool(false)"@ },
        ValueV::Str(s) => "Str("@ + str_debug(s) + ")"@,
        ValueV::Struct(fs) => "Struct({"@ + fields_text(fs) + "})"@,
        ValueV::Unit => "Unit"@,
    }
}

/// The entries of a map of fields, `"name": value`, separated by `, `.
pub open spec fn fields_text(fs: Seq<(Seq<char>, ValueV)>) -> Seq<char>
    decreases fs,
{
    if fs.len() == 0 {
        Seq::empty()
    } else {
        let entry = str_debug(fs.last().0) + ": "@ + value_text(fs.last().1);
        if fs.len() == 1 {
            entry
        } else {
            fields_text(fs.drop_last()) + ", "@ + entry
        }
    }
}

/// Renders a value as `{:?}` does.
fn value_text_x(v: &Value) -> (s: String)
    ensures
        s@ == value_text(v@),
    decreases value_size(v@),
{
    match v {
        Value::Int(n) => {
            let mut s = owned("Int(");
            let t = int_text(*n);
            push_text(&mut s, t.as_str());
            push_text(&mut s, ")");
            s
        },
        Value::Bool(b) => {
            if *b {
                owned("Bool(true)")
            } else {
                owned("Bool(false)")
            }
        },
        Value::Str(x) => {
            let mut s = owned("Str(");
            let t = debug_str(x.as_str());
            push_text(&mut s, t.as_str());
            push_text(&mut s, ")");
            s
        },
        Value::Unit => owned("Unit"),
        Value::Struct(fs) => {
            let ghost xv = fields_vv(fs@);
            proof {
                lemma_fields_vv(fs@);
                assert(xv.take(0) =~= Seq::<(Seq<char>, ValueV)>::empty());
            }
            let mut body = String::new();
            let mut i: usize = 0;
            while i < fs.len()
                invariant
                    xv == fields_vv(fs@),
                    v@ == ValueV::Struct(xv),
                    xv.len() == fs@.len(),
                    forall|j: int| 0 <= j < fs@.len() ==> #[trigger] xv[j] == (fs@[j].0@, value_v(fs@[j].1)),
                    i <= fs@.len(),
                    body@ == fields_text(xv.take(i as int)),
                decreases fs.len() - i,
            {
                proof {
                    lemma_vfields_size_index(xv, i as int);
                }
                let mut e = debug_str(fs[i].0.as_str());
                push_text(&mut e, ": ");
                let t = value_text_x(&fs[i].1);
                push_text(&mut e, t.as_str());
                if i > 0 {
                    push_text(&mut body, ", ");
                }
                push_text(&mut body, e.as_str());
                proof {
                    assert(xv.take(i + 1).drop_last() =~= xv.take(i as int));
                    assert(xv.take(i + 1).last() == xv[i as int]);
                }
                i += 1;
            }
            proof {
                assert(xv.take(i as int) =~= xv);
            }
            let mut s = owned("Struct({");
            push_text(&mut s, body.as_str());
            push_text(&mut s, "})");
            s
        },
    }
}

/// The integer a value holds.
pub open spec fn as_int(v: ValueV) -> Result<i64, RunErrorV> {
    match v {
        ValueV::Int(n) => Ok(n),
        _ => Err(RunErrorV::Msg("entier attendu, eu "@ + value_text(v))),
    }
}

/// The truth a value holds; an integer is true when it is not 0.
pub open spec fn as_bool(v: ValueV) -> Result<bool, RunErrorV> {
    match v {
        ValueV::Bool(b) => Ok(b),
        ValueV::Int(n) => Ok(n != 0),
        _ => Err(RunErrorV::Msg("booléen attendu, eu "@ + value_text(v))),
    }
}

/// What `up` shows of a value.
pub open spec fn display(v: ValueV) -> Seq<char> {
    match v {
        ValueV::Str(s) => s,
        ValueV::Int(n) => decimal(n as int),
        ValueV::Bool(b) => if b { "legit"@ } else { "cheat"@ },
        ValueV::Struct(_) => "<perso>"@,
        ValueV::Unit => "afk_total"@,
    }
}

/// The value of a field of a record (its fields are distinct).
pub open spec fn field_get(f: Seq<(Seq<char>, ValueV)>, k: Seq<char>) -> Option<ValueV>
    decreases f.len(),
{
    if f.len() == 0 {
        None
    } else if f.last().0 == k {
        Some(f.last().1)
    } else {
        field_get(f.drop_last(), k)
    }
}

/// A record with field `k` set to `v`: replaced in place when present, added last otherwise.
pub open spec fn field_set(f: Seq<(Seq<char>, ValueV)>, k: Seq<char>, v: ValueV) -> Seq<(Seq<char>, ValueV)> {
    if exists|i: int| 0 <= i < f.len() && #[trigger] f[i].0 == k {
        let i = choose|i: int| 0 <= i < f.len() && #[trigger] f[i].0 == k;
        f.update(i, (k, v))
    } else {
        f.push((k, v))
    }
}

/// Equality of values; records are equal when they hold the same fields with equal values.
pub open spec fn value_eq(a: ValueV, b: ValueV) -> bool
    decreases a,
{
    match (a, b) {
        (ValueV::Int(x), ValueV::Int(y)) => x == y,
        (ValueV::Bool(x), ValueV::Bool(y)) => x == y,
        (ValueV::Str(x), ValueV::Str(y)) => x == y,
        (ValueV::Unit, ValueV::Unit) => true,
        (ValueV::Struct(x), ValueV::Struct(y)) => x.len() == y.len() && forall|i: int|
            #![trigger x[i]]
            0 <= i < x.len() ==> exists|j: int|
                #![trigger y[j]]
                0 <= j < y.len() && y[j].0 == x[i].0 && value_eq(x[i].1, y[j].1),
        _ => false,
    }
}

/// Truncating division (`/` of Rust), wrapping `i64::MIN / -1` around.
pub open spec fn div_trunc(a: i64, b: i64) -> i64 {
    let q: int = if (a >= 0) == (b > 0) || a == 0 {
        (if a >= 0 { a as int } else { -(a as int) }) / (if b >= 0 { b as int } else { -(b as int) })
    } else {
        -((if a >= 0 { a as int } else { -(a as int) }) / (if b >= 0 { b as int } else { -(b as int) }))
    };
    if q > i64::MAX { i64::MIN } else { q as i64 }
}

// ------------------------------------------------------------------ state of a run

/// What a run keeps between steps: the runtime, the scopes, the ids of the variables whose
/// MP was paid (by position), and the bounds of each random draw so far.
pub struct St {
    pub rt: RuntimeView,
    pub env: Seq<Map<Seq<char>, ValueV>>,
    pub pm_ids: Seq<Seq<char>>,
    pub rolls: Seq<(i64, i64)>,
}

/// How the current code runs: inside a `tour` or not, from which scope the `tour` starts,
/// and whether reads are free (conditions).
#[derive(Clone, Copy)]
pub struct Mode {
    pub in_tour: bool,
    pub tour_base: usize,
    pub perception: bool,
}

/// Static data of a run: the program's items, the configuration.
pub struct Ctx {
    pub items: Seq<ItemV>,
    pub cfg: Config,
}

pub enum Flow {
    Normal,
    Return(ValueV),
}

/// Message when the depth budget runs out.
pub open spec fn exhausted() -> RunErrorV {
    RunErrorV::Msg("exécution interrompue : profondeur maximale atteinte"@)
}

/// Index of the innermost scope that binds `name`.
pub open spec fn scope_of(env: Seq<Map<Seq<char>, ValueV>>, name: Seq<char>) -> Option<nat>
    decreases env.len(),
{
    if env.len() == 0 {
        None
    } else if env.last().contains_key(name) {
        Some((env.len() - 1) as nat)
    } else {
        scope_of(env.drop_last(), name)
    }
}

/// Position of a name among the MP ids (its id), or the next id for a new name.
pub open spec fn pm_index(ids: Seq<Seq<char>>, name: Seq<char>) -> nat {
    if exists|i: int| 0 <= i < ids.len() && #[trigger] ids[i] == name {
        (choose|i: int| 0 <= i < ids.len() && #[trigger] ids[i] == name && forall|j: int| 0 <= j < i ==> ids[j] != name) as nat
    } else {
        ids.len()
    }
}

pub open spec fn pm_ids_after(ids: Seq<Seq<char>>, name: Seq<char>) -> Seq<Seq<char>> {
    if ids.contains(name) { ids } else { ids.push(name) }
}

/// MP charge of reaching variable `id`: paid once per turn.
pub open spec fn touch(rt: RuntimeView, id: u64) -> (RuntimeView, Result<(), Fault>) {
    if rt.touched.contains(id) {
        (rt, Ok(()))
    } else if rt.pm >= 1 {
        (RuntimeView { pm: (rt.pm - 1) as i64, touched: rt.touched.push(id), ..rt }, Ok(()))
    } else {
        (rt, Err(Fault::PmInsuffisant { demande: 1, restant: rt.pm }))
    }
}

/// Message of the panic a division by a zero delay bucket raises.
pub open spec fn div_zero_text() -> Seq<char> {
    "attempt to divide by zero"@
}

/// Message of the panic an AP subtraction past `i64::MAX` raises.
pub open spec fn sub_overflow_text() -> Seq<char> {
    "attempt to subtract with overflow"@
}

/// Message of the panic reading argument `len` of a call with `len` arguments raises.
pub open spec fn index_text(len: nat) -> Seq<char> {
    "index out of bounds: the len is "@ + digits_of(len) + " but the index is "@ + digits_of(len)
}

/// The run stops where the original panics: a delay bucket of width 0 when an action is
/// recorded, AP that no longer fit in an `i64`, or `rand`/`butin` with fewer than two
/// arguments.
pub open spec fn is_panic(e: RunErrorV) -> bool {
    ||| e == RunErrorV::Msg(div_zero_text())
    ||| e == RunErrorV::Msg(sub_overflow_text())
    ||| e == RunErrorV::Msg(index_text(0))
    ||| e == RunErrorV::Msg(index_text(1))
}

/// The message of reading argument `len` of a call with `len` arguments.
fn index_message(len: usize) -> (m: String)
    requires
        len <= 1,
    ensures
        m@ == index_text(len as nat),
{
    let mut m = owned("index out of bounds: the len is ");
    let t = nat_text(len as u64);
    push_text(&mut m, t.as_str());
    push_text(&mut m, " but the index is ");
    push_text(&mut m, t.as_str());
    m
}

/// AP charge; a negative charge gives AP back, and stops the run when they no longer fit.
pub open spec fn spend(rt: RuntimeView, n: i64) -> (RuntimeView, Result<(), RunErrorV>) {
    if n <= rt.pa {
        if rt.pa - n > i64::MAX {
            (rt, Err(RunErrorV::Msg(sub_overflow_text())))
        } else {
            (RuntimeView { pa: (rt.pa - n) as i64, ..rt }, Ok(()))
        }
    } else {
        (rt, Err(RunErrorV::Fault(Fault::PaInsuffisant { demande: n, restant: rt.pa })))
    }
}

/// Whether a runtime is banned.
pub open spec fn banned(rt: RuntimeView) -> bool {
    rt.suspicion >= rt.cfg.seuil_ban
}

pub open spec fn afk_rt(rt: RuntimeView, ms: i64) -> RuntimeView {
    let d: u64 = if ms > 0 { ms as u64 } else { 0 };
    recorded(RuntimeView { clock_ms: sat_add64(rt.clock_ms, d), pending_ms: sat_add64(rt.pending_ms, d), ..rt }, ActionId::Afk)
}

pub open spec fn up_rt(rt: RuntimeView, msg: Seq<char>) -> RuntimeView {
    RuntimeView { pending_ms: 0, ..recorded(RuntimeView { out: rt.out.push(msg), ..rt }, ActionId::Up) }
}

pub open spec fn act_rt(rt: RuntimeView, name: Seq<char>) -> RuntimeView {
    RuntimeView { pending_ms: 0, ..recorded(rt, ActionId::Bot(name)) }
}

pub open spec fn cd_ready(rt: RuntimeView, name: Seq<char>) -> bool {
    rt.turn >= available_turn(rt.cooldowns, name)
}

pub open spec fn cooldown_rt(rt: RuntimeView, name: Seq<char>, cd: Option<i64>) -> RuntimeView {
    let c: u64 = match cd {
        Some(c) => if c > 0 { c as u64 } else { 0 },
        None => 0,
    };
    RuntimeView { cooldowns: cooldowns_set(rt.cooldowns, name, sat_add64(rt.turn, c)), ..rt }
}

/// Each name paired with its tag.
pub open spec fn zip_tags(names: Seq<Seq<char>>, tags: Seq<i64>) -> Seq<(Seq<char>, i64)> {
    Seq::new(names.len(), |i: int| (names[i], tags[i]))
}

/// Tags of every `pano` variant and `perso` field after the patch drift, one entry per
/// declaration, in program order.
pub open spec fn tag_table(items: Seq<ItemV>, seed: u64) -> Seq<(Seq<char>, Seq<(Seq<char>, i64)>)>
    decreases items.len(),
{
    if items.len() == 0 {
        Seq::empty()
    } else {
        let t = tag_table(items.drop_last(), seed);
        match items.last() {
            ItemV::Pano(p) => t.push((p.name, zip_tags(p.variants.map_values(|v: VariantV| v.name),
                layout_tags(p.variants.map_values(|v: VariantV| v.pin), seed)))),
            ItemV::Perso(p) => t.push((p.name, zip_tags(p.fields.map_values(|x: FieldV| x.name),
                layout_tags(p.fields.map_values(|x: FieldV| x.pin), seed)))),
            _ => t,
        }
    }
}

/// The last entry of a table under a name.
pub open spec fn entry_of(t: Seq<(Seq<char>, Seq<(Seq<char>, i64)>)>, name: Seq<char>) -> Option<Seq<(Seq<char>, i64)>>
    decreases t.len(),
{
    if t.len() == 0 {
        None
    } else if t.last().0 == name {
        Some(t.last().1)
    } else {
        entry_of(t.drop_last(), name)
    }
}

/// The tag of the last pair under a name.
pub open spec fn pair_of(s: Seq<(Seq<char>, i64)>, m: Seq<char>) -> Option<i64>
    decreases s.len(),
{
    if s.len() == 0 {
        None
    } else if s.last().0 == m {
        Some(s.last().1)
    } else {
        pair_of(s.drop_last(), m)
    }
}

/// Tag of `Left.member`: the last declaration named `Left` decides.
pub open spec fn tag_of(ctx: Ctx, left: Seq<char>, member: Seq<char>) -> Option<i64> {
    match entry_of(tag_table(ctx.items, ctx.cfg.patch_seed), left) {
        Some(e) => pair_of(e, member),
        None => None,
    }
}

/// The `i`-th draw of the run.
pub open spec fn draw(d: Seq<i64>, i: nat) -> i64 {
    if i < d.len() { d[i as int] } else { 0 }
}

pub open spec fn with_rt(st: St, rt: RuntimeView) -> St {
    St { rt, ..st }
}

// ------------------------------------------------------------------ semantics

/// Reads a variable: charges 1 MP, once per turn, for a variable outside the current
/// `tour` read outside a condition.
pub open spec fn read_var(mode: Mode, st: St, name: Seq<char>) -> (St, Result<ValueV, RunErrorV>) {
    match scope_of(st.env, name) {
        None => (st, Err(RunErrorV::Msg("variable indéfinie "@ + quoted(name)))),
        Some(i) => {
            let v = st.env[i as int][name];
            if mode.in_tour && !mode.perception && i < mode.tour_base {
                let id = pm_index(st.pm_ids, name);
                let ids = pm_ids_after(st.pm_ids, name);
                let (rt, r) = touch(st.rt, id as u64);
                match r {
                    Ok(_) => (St { rt, pm_ids: ids, ..st }, Ok(v)),
                    Err(f) => (St { rt, pm_ids: ids, ..st }, Err(RunErrorV::Fault(f))),
                }
            } else {
                (st, Ok(v))
            }
        },
    }
}

/// Writes an existing variable in the innermost scope that binds it.
pub open spec fn write_var(st: St, name: Seq<char>, v: ValueV) -> (St, Result<(), RunErrorV>) {
    match scope_of(st.env, name) {
        None => (st, Err(RunErrorV::Msg("variable indéfinie "@ + quoted(name)))),
        Some(i) => (St { env: st.env.update(i as int, st.env[i as int].insert(name, v)), ..st }, Ok(())),
    }
}

/// Binds a name in the innermost scope.
pub open spec fn bind(st: St, name: Seq<char>, v: ValueV) -> St {
    if st.env.len() == 0 {
        st
    } else {
        St { env: st.env.update(st.env.len() - 1, st.env.last().insert(name, v)), ..st }
    }
}

pub open spec fn int_op(op: BinOp, a: i64, b: i64) -> ValueV {
    match op {
        BinOp::Add => ValueV::Int(a.wrapping_add(b)),
        BinOp::Sub => ValueV::Int(a.wrapping_sub(b)),
        BinOp::Mul => ValueV::Int(a.wrapping_mul(b)),
        BinOp::Lt => ValueV::Bool(a < b),
        BinOp::Le => ValueV::Bool(a <= b),
        BinOp::Gt => ValueV::Bool(a > b),
        _ => ValueV::Bool(a >= b),
    }
}

/// Operator applied to two evaluated operands (every operator but `et`/`ou`).
pub open spec fn apply_binary(op: BinOp, l: ValueV, r: ValueV) -> Result<ValueV, RunErrorV> {
    if op == BinOp::Eq {
        Ok(ValueV::Bool(value_eq(l, r)))
    } else if op == BinOp::Ne {
        Ok(ValueV::Bool(!value_eq(l, r)))
    } else if op == BinOp::Div {
        match as_int(r) {
            Err(e) => Err(e),
            Ok(d) => if d == 0 {
                Err(RunErrorV::Msg("division par zéro"@))
            } else {
                match as_int(l) {
                    Err(e) => Err(e),
                    Ok(a) => Ok(ValueV::Int(div_trunc(a, d))),
                }
            },
        }
    } else {
        match as_int(l) {
            Err(e) => Err(e),
            Ok(a) => match as_int(r) {
                Err(e) => Err(e),
                Ok(b) => Ok(int_op(op, a, b)),
            },
        }
    }
}

/// Two integer literals joined by an operator.
pub open spec fn int_pair(op: BinOp, a: i64, b: i64, line: u32, col: u32) -> ExprV {
    ExprV {
        kind: ExprKindV::Binary(
            op,
            Box::new(ExprV { kind: ExprKindV::Int(a), line, col }),
            Box::new(ExprV { kind: ExprKindV::Int(b), line, col }),
        ),
        line,
        col,
    }
}

/// On integers, each comparison is true exactly when the two integers stand in the
/// relation it names (`<`, `<=`, `>`, `>=`, `==`, `!=`), and `+`, `-`, `*` give the exact
/// result whenever it fits in an `i64` (`+` and `-` wrap around otherwise); evaluating
/// them touches no state.
pub proof fn lemma_eval_int_operators(ctx: Ctx, d: Seq<i64>, mode: Mode, st: St, op: BinOp, a: i64, b: i64, line: u32, col: u32, f: nat)
    ensures
        ({
            let r = eval(ctx, d, mode, st, int_pair(op, a, b, line, col), f);
            &&& r.0 == st
            &&& op == BinOp::Lt ==> r.1 == Ok::<ValueV, RunErrorV>(ValueV::Bool(a < b))
            &&& op == BinOp::Le ==> r.1 == Ok::<ValueV, RunErrorV>(ValueV::Bool(a <= b))
            &&& op == BinOp::Gt ==> r.1 == Ok::<ValueV, RunErrorV>(ValueV::Bool(a > b))
            &&& op == BinOp::Ge ==> r.1 == Ok::<ValueV, RunErrorV>(ValueV::Bool(a >= b))
            &&& op == BinOp::Eq ==> r.1 == Ok::<ValueV, RunErrorV>(ValueV::Bool(a == b))
            &&& op == BinOp::Ne ==> r.1 == Ok::<ValueV, RunErrorV>(ValueV::Bool(a != b))
            &&& op == BinOp::Add && i64::MIN <= a + b <= i64::MAX
                ==> r.1 == Ok::<ValueV, RunErrorV>(ValueV::Int((a + b) as i64))
            &&& op == BinOp::Sub && i64::MIN <= a - b <= i64::MAX
                ==> r.1 == Ok::<ValueV, RunErrorV>(ValueV::Int((a - b) as i64))
            &&& op == BinOp::Mul && i64::MIN <= a * b <= i64::MAX
                ==> r.1 == Ok::<ValueV, RunErrorV>(ValueV::Int((a * b) as i64))
            &&& op == BinOp::Add && a + b > i64::MAX
                ==> r.1 == Ok::<ValueV, RunErrorV>(ValueV::Int((a + b - 0x1_0000_0000_0000_0000) as i64))
            &&& op == BinOp::Add && a + b < i64::MIN
                ==> r.1 == Ok::<ValueV, RunErrorV>(ValueV::Int((a + b + 0x1_0000_0000_0000_0000) as i64))
            &&& op == BinOp::Sub && a - b > i64::MAX
                ==> r.1 == Ok::<ValueV, RunErrorV>(ValueV::Int((a - b - 0x1_0000_0000_0000_0000) as i64))
            &&& op == BinOp::Sub && a - b < i64::MIN
                ==> r.1 == Ok::<ValueV, RunErrorV>(ValueV::Int((a - b + 0x1_0000_0000_0000_0000) as i64))
        }),
{
    let e = int_pair(op, a, b, line, col);
    let l = ExprV { kind: ExprKindV::Int(a), line, col };
    let rr = ExprV { kind: ExprKindV::Int(b), line, col };
    assert(eval(ctx, d, mode, st, l, f) == (st, Ok::<ValueV, RunErrorV>(ValueV::Int(a))));
    assert(eval(ctx, d, mode, st, rr, f) == (st, Ok::<ValueV, RunErrorV>(ValueV::Int(b))));
    if op == BinOp::Eq || op == BinOp::Ne {
        assert(value_eq(ValueV::Int(a), ValueV::Int(b)) == (a == b));
    }
}

/// Two truth literals joined by an operator.
pub open spec fn bool_pair(op: BinOp, a: bool, b: bool, line: u32, col: u32) -> ExprV {
    ExprV {
        kind: ExprKindV::Binary(
            op,
            Box::new(ExprV { kind: ExprKindV::Bool(a), line, col }),
            Box::new(ExprV { kind: ExprKindV::Bool(b), line, col }),
        ),
        line,
        col,
    }
}

/// An operator applied to one literal.
pub open spec fn unary_of(op: UnOp, x: ExprKindV, line: u32, col: u32) -> ExprV {
    ExprV { kind: ExprKindV::Unary(op, Box::new(ExprV { kind: x, line, col })), line, col }
}

/// `et` and `ou` on truth values are conjunction and disjunction, `pas` is negation, `-`
/// negates an integer, and `/` divides rounding toward zero, refusing a zero divisor.
pub proof fn lemma_eval_logic_and_division(ctx: Ctx, d: Seq<i64>, mode: Mode, st: St, a: i64, b: i64, x: bool, y: bool, line: u32, col: u32, f: nat)
    ensures
        eval(ctx, d, mode, st, bool_pair(BinOp::And, x, y, line, col), f) == (st, Ok::<ValueV, RunErrorV>(ValueV::Bool(x && y))),
        eval(ctx, d, mode, st, bool_pair(BinOp::Or, x, y, line, col), f) == (st, Ok::<ValueV, RunErrorV>(ValueV::Bool(x || y))),
        eval(ctx, d, mode, st, unary_of(UnOp::Not, ExprKindV::Bool(x), line, col), f) == (st, Ok::<ValueV, RunErrorV>(ValueV::Bool(!x))),
        a > i64::MIN ==> eval(ctx, d, mode, st, unary_of(UnOp::Neg, ExprKindV::Int(a), line, col), f)
            == (st, Ok::<ValueV, RunErrorV>(ValueV::Int((-a) as i64))),
        b == 0 ==> eval(ctx, d, mode, st, int_pair(BinOp::Div, a, b, line, col), f)
            == (st, Err::<ValueV, RunErrorV>(RunErrorV::Msg("division par zéro"@))),
        a >= 0 && b > 0 ==> eval(ctx, d, mode, st, int_pair(BinOp::Div, a, b, line, col), f)
            == (st, Ok::<ValueV, RunErrorV>(ValueV::Int(((a as int) / (b as int)) as i64))),
        a < 0 && a > i64::MIN && b > 0 ==> eval(ctx, d, mode, st, int_pair(BinOp::Div, a, b, line, col), f)
            == (st, Ok::<ValueV, RunErrorV>(ValueV::Int((-((-(a as int)) / (b as int))) as i64))),
{
    let ia = ExprV { kind: ExprKindV::Int(a), line, col };
    let ib = ExprV { kind: ExprKindV::Int(b), line, col };
    let bx = ExprV { kind: ExprKindV::Bool(x), line, col };
    let by = ExprV { kind: ExprKindV::Bool(y), line, col };
    assert(eval(ctx, d, mode, st, ia, f) == (st, Ok::<ValueV, RunErrorV>(ValueV::Int(a))));
    assert(eval(ctx, d, mode, st, ib, f) == (st, Ok::<ValueV, RunErrorV>(ValueV::Int(b))));
    assert(eval(ctx, d, mode, st, bx, f) == (st, Ok::<ValueV, RunErrorV>(ValueV::Bool(x))));
    assert(eval(ctx, d, mode, st, by, f) == (st, Ok::<ValueV, RunErrorV>(ValueV::Bool(y))));
    if a >= 0 && b > 0 {
        let ai: int = a as int;
        let bi: int = b as int;
        assert(ai / bi <= ai) by (nonlinear_arith)
            requires ai >= 0, bi > 0;
    }
    if a < 0 && a > i64::MIN && b > 0 {
        let ai: int = -(a as int);
        let bi: int = b as int;
        assert(ai / bi <= ai) by (nonlinear_arith)
            requires ai > 0, bi > 0;
    }
}

/// `q` is `a / b` rounded toward zero: the remainder `a - q * b` is smaller than the
/// divisor in size and has the sign of `a`, or is zero.
pub open spec fn rounds_to_zero(a: i64, b: i64, q: i64) -> bool {
    let rem = a - q * b;
    &&& (if rem >= 0 { rem } else { -rem }) < (if b >= 0 { b as int } else { -b })
    &&& (rem == 0 || (rem > 0) == (a > 0))
}

/// `/` on integers rounds toward zero: for a non-zero divisor (but for `i64::MIN / -1`,
/// which does not fit) the quotient `q` leaves a remainder `a - q * b` smaller than the
/// divisor in size and of the sign of `a` (or zero).
pub proof fn lemma_eval_division_rounds_to_zero(ctx: Ctx, d: Seq<i64>, mode: Mode, st: St, a: i64, b: i64, line: u32, col: u32, f: nat)
    requires
        b != 0,
        !(a == i64::MIN && b == -1),
    ensures
        exists|q: i64| #[trigger] rounds_to_zero(a, b, q)
            && eval(ctx, d, mode, st, int_pair(BinOp::Div, a, b, line, col), f) == (st, Ok::<ValueV, RunErrorV>(ValueV::Int(q))),
{
    let ia = ExprV { kind: ExprKindV::Int(a), line, col };
    let ib = ExprV { kind: ExprKindV::Int(b), line, col };
    assert(eval(ctx, d, mode, st, ia, f) == (st, Ok::<ValueV, RunErrorV>(ValueV::Int(a))));
    assert(eval(ctx, d, mode, st, ib, f) == (st, Ok::<ValueV, RunErrorV>(ValueV::Int(b))));
    let aa: int = if a >= 0 { a as int } else { -(a as int) };
    let bb: int = if b >= 0 { b as int } else { -(b as int) };
    let qq: int = aa / bb;
    let rr: int = aa % bb;
    assert(aa == qq * bb + rr && 0 <= rr < bb && 0 <= qq <= aa) by (nonlinear_arith)
        requires aa >= 0, bb > 0, qq == aa / bb, rr == aa % bb;
    let q = div_trunc(a, b);
    if (a >= 0) == (b > 0) || a == 0 {
        if a == i64::MIN {
            assert(bb >= 2);
            assert(qq <= 0x4000_0000_0000_0000) by (nonlinear_arith)
                requires aa == 0x8000_0000_0000_0000, bb >= 2, qq == aa / bb;
        }
        assert(qq <= i64::MAX);
        assert(q as int == qq);
        if a >= 0 && b > 0 {
            assert(a - q * b == rr) by (nonlinear_arith)
                requires a as int == aa, b as int == bb, q as int == qq, aa == qq * bb + rr;
        } else if a == 0 {
            assert(qq == 0);
            assert(a - q * b == 0) by (nonlinear_arith)
                requires a == 0, q as int == 0;
        } else {
            assert(a - q * b == -rr) by (nonlinear_arith)
                requires a as int == -aa, b as int == -bb, q as int == qq, aa == qq * bb + rr;
        }
    } else {
        assert(q as int == -qq);
        if a > 0 {
            assert(a - q * b == rr) by (nonlinear_arith)
                requires a as int == aa, b as int == -bb, q as int == -qq, aa == qq * bb + rr;
        } else {
            assert(a - q * b == -rr) by (nonlinear_arith)
                requires a as int == -aa, b as int == bb, q as int == -qq, aa == qq * bb + rr;
        }
    }
    assert(eval(ctx, d, mode, st, int_pair(BinOp::Div, a, b, line, col), f) == (st, Ok::<ValueV, RunErrorV>(ValueV::Int(q))));
    assert(rounds_to_zero(a, b, q));
}

/// Evaluates an expression.
pub open spec fn eval(ctx: Ctx, d: Seq<i64>, mode: Mode, st: St, e: ExprV, f: nat) -> (St, Result<ValueV, RunErrorV>)
    decreases f, expr_size(e), 1int,
{
    match e.kind {
        ExprKindV::Int(n) => (st, Ok(ValueV::Int(n))),
        ExprKindV::Bool(b) => (st, Ok(ValueV::Bool(b))),
        ExprKindV::Str(s) => (st, Ok(ValueV::Str(s))),
        ExprKindV::Pa => (st, Ok(ValueV::Int(st.rt.pa))),
        ExprKindV::Pm => (st, Ok(ValueV::Int(st.rt.pm))),
        ExprKindV::Suspicion => (st, Ok(ValueV::Int(st.rt.suspicion as i64))),
        ExprKindV::Var(name) => read_var(mode, st, name),
        ExprKindV::Unary(op, x) => {
            let (s1, r) = eval(ctx, d, mode, st, *x, f);
            match r {
                Err(err) => (s1, Err(err)),
                Ok(v) => match op {
                    UnOp::Neg => match as_int(v) {
                        Err(err) => (s1, Err(err)),
                        Ok(n) => (s1, Ok(ValueV::Int(0i64.wrapping_sub(n)))),
                    },
                    UnOp::Not => match as_bool(v) {
                        Err(err) => (s1, Err(err)),
                        Ok(b) => (s1, Ok(ValueV::Bool(!b))),
                    },
                },
            }
        },
        ExprKindV::Binary(op, l, r) => {
            let (s1, r1) = eval(ctx, d, mode, st, *l, f);
            match r1 {
                Err(err) => (s1, Err(err)),
                Ok(a) => {
                    if op == BinOp::And || op == BinOp::Or {
                        match as_bool(a) {
                            Err(err) => (s1, Err(err)),
                            Ok(x) => if (op == BinOp::And && !x) || (op == BinOp::Or && x) {
                                (s1, Ok(ValueV::Bool(x)))
                            } else {
                                let (s2, r2) = eval(ctx, d, mode, s1, *r, f);
                                match r2 {
                                    Err(err) => (s2, Err(err)),
                                    Ok(b) => match as_bool(b) {
                                        Err(err) => (s2, Err(err)),
                                        Ok(y) => (s2, Ok(ValueV::Bool(y))),
                                    },
                                }
                            },
                        }
                    } else {
                        let (s2, r2) = eval(ctx, d, mode, s1, *r, f);
                        match r2 {
                            Err(err) => (s2, Err(err)),
                            Ok(b) => (s2, apply_binary(op, a, b)),
                        }
                    }
                },
            }
        },
        ExprKindV::Call(name, args) => eval_call(ctx, d, mode, st, name, args, f),
        ExprKindV::Path(left, member) => {
            if scope_of(st.env, left) is Some {
                let (s1, r) = read_var(mode, st, left);
                match r {
                    Err(err) => (s1, Err(err)),
                    Ok(ValueV::Struct(m)) => match field_get(m, member) {
                        Some(v) => (s1, Ok(v)),
                        None => (s1, Err(RunErrorV::Msg("champ inconnu « "@ + left + "."@ + member + " »"@))),
                    },
                    Ok(_) => (s1, Err(RunErrorV::Msg(quoted(left) + " n'est pas un perso"@))),
                }
            } else {
                match tag_of(ctx, left, member) {
                    Some(t) => (st, Ok(ValueV::Int(t))),
                    None => (st, Err(RunErrorV::Msg("« "@ + left + "."@ + member + " » inconnu"@))),
                }
            }
        },
        ExprKindV::Struct(_, fields) => {
            let (s1, r) = eval_fields(ctx, d, mode, st, fields, f);
            match r {
                Err(err) => (s1, Err(err)),
                Ok(m) => (s1, Ok(ValueV::Struct(m))),
            }
        },
    }
}

/// Evaluates the values of a record construction in order, each field set in turn.
pub open spec fn eval_fields(ctx: Ctx, d: Seq<i64>, mode: Mode, st: St, s: Seq<(Seq<char>, ExprV)>, f: nat)
    -> (St, Result<Seq<(Seq<char>, ValueV)>, RunErrorV>)
    decreases f, fields_size(s), 0int,
{
    if s.len() == 0 {
        (st, Ok(Seq::empty()))
    } else {
        let (s1, r1) = eval_fields(ctx, d, mode, st, s.drop_last(), f);
        match r1 {
            Err(err) => (s1, Err(err)),
            Ok(m) => {
                let (s2, r2) = eval(ctx, d, mode, s1, s.last().1, f);
                match r2 {
                    Err(err) => (s2, Err(err)),
                    Ok(v) => (s2, Ok(field_set(m, s.last().0, v))),
                }
            },
        }
    }
}

/// Evaluates call arguments in order.
pub open spec fn eval_args(ctx: Ctx, d: Seq<i64>, mode: Mode, st: St, s: Seq<ExprV>, f: nat)
    -> (St, Result<Seq<ValueV>, RunErrorV>)
    decreases f, exprs_size(s), 0int,
{
    if s.len() == 0 {
        (st, Ok(Seq::empty()))
    } else {
        let (s1, r1) = eval_args(ctx, d, mode, st, s.drop_last(), f);
        match r1 {
            Err(err) => (s1, Err(err)),
            Ok(vs) => {
                let (s2, r2) = eval(ctx, d, mode, s1, s.last(), f);
                match r2 {
                    Err(err) => (s2, Err(err)),
                    Ok(v) => (s2, Ok(vs.push(v))),
                }
            },
        }
    }
}

/// A call: `rand`/`butin` draw, `cd_pret` asks the cooldown, anything else casts a bot.
pub open spec fn eval_call(ctx: Ctx, d: Seq<i64>, mode: Mode, st: St, name: Seq<char>, args: Seq<ExprV>, f: nat)
    -> (St, Result<ValueV, RunErrorV>)
    decreases f, exprs_size(args), 2int,
{
    if name == "rand"@ || name == "butin"@ {
        if args.len() == 0 {
            (st, Err(RunErrorV::Msg(index_text(0))))
        } else {
            proof {
                lemma_exprs_size_index(args, 0);
            }
            let (s1, r1) = eval(ctx, d, mode, st, args[0], f);
            match r1 {
                Err(err) => (s1, Err(err)),
                Ok(va) => match as_int(va) {
                    Err(err) => (s1, Err(err)),
                    Ok(a) => if args.len() == 1 {
                        (s1, Err(RunErrorV::Msg(index_text(1))))
                    } else {
                        proof {
                            lemma_exprs_size_index(args, 1);
                        }
                        let (s2, r2) = eval(ctx, d, mode, s1, args[1], f);
                        match r2 {
                            Err(err) => (s2, Err(err)),
                            Ok(vb) => match as_int(vb) {
                                Err(err) => (s2, Err(err)),
                                Ok(b) => (St { rolls: s2.rolls.push((a, b)), ..s2 }, Ok(ValueV::Int(draw(d, s2.rolls.len())))),
                            },
                        }
                    },
                },
            }
        }
    } else if name == "cd_pret"@ {
        if args.len() > 0 && args[0].kind is Var {
            (st, Ok(ValueV::Bool(cd_ready(st.rt, args[0].kind->Var_0))))
        } else {
            (st, Err(RunErrorV::Msg("cd_pret attend un nom de bot"@)))
        }
    } else {
        match find_bot(ctx.items, name) {
            None => (st, Err(RunErrorV::Msg("bot inconnu "@ + quoted(name)))),
            Some(b) => if !cd_ready(st.rt, name) {
                (st, Err(RunErrorV::Cooldown))
            } else {
                let (s1, r1) = eval_args(ctx, d, mode, st, args, f);
                match r1 {
                    Err(err) => (s1, Err(err)),
                    Ok(vs) => {
                        let (rt2, r2) = if mode.in_tour { spend(s1.rt, bot_cost(ctx.items, ctx.cfg, name)) } else { (s1.rt, Ok(())) };
                        match r2 {
                            Err(err) => (with_rt(s1, rt2), Err(err)),
                            Ok(_) => if rt2.cfg.bucket_ms == 0 {
                                (with_rt(s1, rt2), Err(RunErrorV::Msg(div_zero_text())))
                            } else {
                                let rt3 = act_rt(rt2, name);
                                if banned(rt3) {
                                    (with_rt(s1, rt3), Err(RunErrorV::Banni))
                                } else if f == 0 {
                                    (with_rt(s1, cooldown_rt(rt3, name, b.cd)), Err(exhausted()))
                                } else {
                                    call_bot(ctx, d, mode, with_rt(s1, cooldown_rt(rt3, name, b.cd)), b, vs, (f - 1) as nat)
                                }
                            },
                        }
                    },
                }
            },
        }
    }
}

/// Scope of a call: each parameter bound to its argument (the shorter list wins).
pub open spec fn param_scope(b: BotV, vs: Seq<ValueV>) -> Map<Seq<char>, ValueV>
    decreases vs.len(),
{
    if vs.len() == 0 {
        Map::empty()
    } else if vs.len() > b.params.len() {
        param_scope(b, vs.take(b.params.len() as int))
    } else {
        param_scope(b, vs.drop_last()).insert(b.params[vs.len() - 1].name, vs.last())
    }
}

/// Runs a bot's body in a fresh environment holding its parameters, outside any `tour`.
pub open spec fn call_bot(ctx: Ctx, d: Seq<i64>, mode: Mode, st: St, b: BotV, vs: Seq<ValueV>, f: nat)
    -> (St, Result<ValueV, RunErrorV>)
    decreases f, block_size(b.body) + 1, 0int,
{
    let inner = Mode { in_tour: false, ..mode };
    let (s1, r) = exec_block(ctx, d, inner, St { env: seq![param_scope(b, vs)], ..st }, b.body, f);
    let s2 = St { env: st.env, ..s1 };
    match r {
        Err(err) => (s2, Err(err)),
        Ok(Flow::Return(v)) => (s2, Ok(v)),
        Ok(Flow::Normal) => (s2, Ok(ValueV::Unit)),
    }
}

/// Runs a block in a fresh scope.
pub open spec fn exec_block(ctx: Ctx, d: Seq<i64>, mode: Mode, st: St, b: BlockV, f: nat) -> (St, Result<Flow, RunErrorV>)
    decreases f, block_size(b), 0int,
{
    let (s1, r) = exec_stmts(ctx, d, mode, St { env: st.env.push(Map::empty()), ..st }, b.stmts, f);
    (St { env: s1.env.drop_last(), ..s1 }, r)
}

/// Runs statements in order until one returns or fails.
pub open spec fn exec_stmts(ctx: Ctx, d: Seq<i64>, mode: Mode, st: St, s: Seq<StmtV>, f: nat) -> (St, Result<Flow, RunErrorV>)
    decreases f, stmts_size(s), 0int,
{
    if s.len() == 0 {
        (st, Ok(Flow::Normal))
    } else {
        let (s1, r1) = exec_stmts(ctx, d, mode, st, s.drop_last(), f);
        match r1 {
            Ok(Flow::Normal) => exec_stmt(ctx, d, mode, s1, s.last(), f),
            _ => (s1, r1),
        }
    }
}

/// Evaluates a condition: its reads are free.
pub open spec fn eval_cond(ctx: Ctx, d: Seq<i64>, mode: Mode, st: St, e: ExprV, f: nat) -> (St, Result<bool, RunErrorV>)
    decreases f, expr_size(e), 2int,
{
    let (s1, r) = eval(ctx, d, Mode { perception: true, ..mode }, st, e, f);
    match r {
        Err(err) => (s1, Err(err)),
        Ok(v) => (s1, as_bool(v)),
    }
}

/// `farm cond { body }`: one unit of depth per iteration.
pub open spec fn farm_loop(ctx: Ctx, d: Seq<i64>, mode: Mode, st: St, cond: ExprV, body: BlockV, f: nat)
    -> (St, Result<Flow, RunErrorV>)
    decreases f, expr_size(cond) + block_size(body), 0int,
{
    if f == 0 {
        (st, Err(exhausted()))
    } else {
        let (s1, c) = eval_cond(ctx, d, mode, st, cond, (f - 1) as nat);
        match c {
            Err(err) => (s1, Err(err)),
            Ok(false) => (s1, Ok(Flow::Normal)),
            Ok(true) => {
                let (s2, r) = exec_block(ctx, d, mode, s1, body, (f - 1) as nat);
                match r {
                    Ok(Flow::Normal) => farm_loop(ctx, d, mode, s2, cond, body, (f - 1) as nat),
                    _ => (s2, r),
                }
            },
        }
    }
}

/// `grind var de i a hi { body }`: the body runs with `var` bound to `i`, then `i + 1`, …
/// up to `hi` included; one unit of depth per iteration.
pub open spec fn grind_loop(ctx: Ctx, d: Seq<i64>, mode: Mode, st: St, var: Seq<char>, i: i64, hi: i64, body: BlockV, f: nat)
    -> (St, Result<Flow, RunErrorV>)
    decreases f, block_size(body), 0int,
{
    if i > hi {
        (st, Ok(Flow::Normal))
    } else if f == 0 {
        (st, Err(exhausted()))
    } else {
        let scope = Map::<Seq<char>, ValueV>::empty().insert(var, ValueV::Int(i));
        let (s1, r) = exec_block(ctx, d, mode, St { env: st.env.push(scope), ..st }, body, (f - 1) as nat);
        let s2 = St { env: s1.env.drop_last(), ..s1 };
        match r {
            Ok(Flow::Normal) => if i == hi {
                (s2, Ok(Flow::Normal))
            } else {
                grind_loop(ctx, d, mode, s2, var, (i + 1) as i64, hi, body, (f - 1) as nat)
            },
            _ => (s2, r),
        }
    }
}

/// Runs a statement.
pub open spec fn exec_stmt(ctx: Ctx, d: Seq<i64>, mode: Mode, st: St, s: StmtV, f: nat) -> (St, Result<Flow, RunErrorV>)
    decreases f, stmt_size(s), 3int,
{
    match s {
        StmtV::Loot { name, value, .. } => decl_stmt(ctx, d, mode, st, name, value, f),
        StmtV::Ban { name, value, .. } => decl_stmt(ctx, d, mode, st, name, value, f),
        StmtV::Assign { name, op, value, .. } => {
            let (s1, r) = eval(ctx, d, mode, st, value, f);
            match r {
                Err(err) => (s1, Err(err)),
                Ok(rhs) => {
                    let (s2, nv) = if op == AssignOp::Replace {
                        (s1, Ok(rhs))
                    } else {
                        let (s2, cur) = read_var(mode, s1, name);
                        match cur {
                            Err(err) => (s2, Err(err)),
                            Ok(c) => match as_int(c) {
                                Err(err) => (s2, Err(err)),
                                Ok(a) => match as_int(rhs) {
                                    Err(err) => (s2, Err(err)),
                                    Ok(b) => (s2, Ok(ValueV::Int(if op == AssignOp::Add { a.wrapping_add(b) } else { a.wrapping_sub(b) }))),
                                },
                            },
                        }
                    };
                    match nv {
                        Err(err) => (s2, Err(err)),
                        Ok(v) => {
                            let (rt3, c) = if mode.in_tour { spend(s2.rt, s2.rt.cfg.assign_pa) } else { (s2.rt, Ok(())) };
                            match c {
                                Err(err) => (with_rt(s2, rt3), Err(err)),
                                Ok(_) => {
                                    let (s4, w) = write_var(with_rt(s2, rt3), name, v);
                                    match w {
                                        Err(err) => (s4, Err(err)),
                                        Ok(_) => (s4, Ok(Flow::Normal)),
                                    }
                                },
                            }
                        },
                    }
                },
            }
        },
        StmtV::Tour(b) => {
            let rt = RuntimeView { pa: st.rt.cfg.max_pa, pm: st.rt.cfg.max_pm, touched: Seq::empty(), ..st.rt };
            exec_block(ctx, d, Mode { in_tour: true, tour_base: st.env.len() as usize, perception: mode.perception }, with_rt(st, rt), b, f)
        },
        StmtV::Passer => (with_rt(st, RuntimeView { turn: sat_add64(st.rt.turn, 1), ..st.rt }), Ok(Flow::Normal)),
        StmtV::Farm { cond, body } => farm_loop(ctx, d, mode, st, cond, body, f),
        StmtV::Grind { var, from, to, body } => {
            let (s1, r1) = eval(ctx, d, mode, st, from, f);
            match r1 {
                Err(err) => (s1, Err(err)),
                Ok(a) => match as_int(a) {
                    Err(err) => (s1, Err(err)),
                    Ok(lo) => {
                        let (s2, r2) = eval(ctx, d, mode, s1, to, f);
                        match r2 {
                            Err(err) => (s2, Err(err)),
                            Ok(b) => match as_int(b) {
                                Err(err) => (s2, Err(err)),
                                Ok(hi) => grind_loop(ctx, d, mode, s2, var, lo, hi, body, f),
                            },
                        }
                    },
                },
            }
        },
        StmtV::Detect { cond, then_branch, else_branch } => {
            let (s1, c) = eval_cond(ctx, d, mode, st, cond, f);
            match c {
                Err(err) => (s1, Err(err)),
                Ok(true) => exec_block(ctx, d, mode, s1, then_branch, f),
                Ok(false) => match else_branch {
                    Some(b) => exec_block(ctx, d, mode, s1, b, f),
                    None => (s1, Ok(Flow::Normal)),
                },
            }
        },
        StmtV::Gg(None) => (st, Ok(Flow::Return(ValueV::Unit))),
        StmtV::Gg(Some(e)) => {
            let (s1, r) = eval(ctx, d, mode, st, e, f);
            match r {
                Err(err) => (s1, Err(err)),
                Ok(v) => (s1, Ok(Flow::Return(v))),
            }
        },
        StmtV::Up(e) => {
            let (s1, r) = eval(ctx, d, mode, st, e, f);
            match r {
                Err(err) => (s1, Err(err)),
                Ok(v) => {
                    let (rt2, c) = if mode.in_tour { spend(s1.rt, s1.rt.cfg.up_pa) } else { (s1.rt, Ok(())) };
                    match c {
                        Err(err) => (with_rt(s1, rt2), Err(err)),
                        Ok(_) => if rt2.cfg.bucket_ms == 0 {
                            (with_rt(s1, rt2), Err(RunErrorV::Msg(div_zero_text())))
                        } else {
                            let rt3 = up_rt(rt2, display(v));
                            (with_rt(s1, rt3), if banned(rt3) { Err(RunErrorV::Banni) } else { Ok(Flow::Normal) })
                        },
                    }
                },
            }
        },
        StmtV::Afk(e) => {
            let (s1, r) = eval(ctx, d, mode, st, e, f);
            match r {
                Err(err) => (s1, Err(err)),
                Ok(v) => match as_int(v) {
                    Err(err) => (s1, Err(err)),
                    Ok(ms) => if s1.rt.cfg.bucket_ms == 0 {
                        (s1, Err(RunErrorV::Msg(div_zero_text())))
                    } else {
                        let rt2 = afk_rt(s1.rt, ms);
                        (with_rt(s1, rt2), if banned(rt2) { Err(RunErrorV::Banni) } else { Ok(Flow::Normal) })
                    },
                },
            }
        },
        StmtV::Expr(e) => {
            let (s1, r) = eval(ctx, d, mode, st, e, f);
            match r {
                Err(err) => (s1, Err(err)),
                Ok(_) => (s1, Ok(Flow::Normal)),
            }
        },
    }
}

/// `loot`/`ban`: evaluates, pays an assignment inside a `tour`, binds in the innermost scope.
pub open spec fn decl_stmt(ctx: Ctx, d: Seq<i64>, mode: Mode, st: St, name: Seq<char>, value: ExprV, f: nat)
    -> (St, Result<Flow, RunErrorV>)
    decreases f, expr_size(value) + 1, 0int,
{
    let (s1, r) = eval(ctx, d, mode, st, value, f);
    match r {
        Err(err) => (s1, Err(err)),
        Ok(v) => {
            let (rt2, c) = if mode.in_tour { spend(s1.rt, s1.rt.cfg.assign_pa) } else { (s1.rt, Ok(())) };
            match c {
                Err(err) => (with_rt(s1, rt2), Err(err)),
                Ok(_) => (bind(with_rt(s1, rt2), name, v), Ok(Flow::Normal)),
            }
        },
    }
}

// ------------------------------------------------------------------ code: values

pub open spec fn value_size(v: ValueV) -> nat
    decreases v,
{
    match v {
        ValueV::Struct(f) => 1 + vfields_size(f),
        _ => 1,
    }
}

pub open spec fn vfields_size(f: Seq<(Seq<char>, ValueV)>) -> nat
    decreases f,
{
    if f.len() == 0 {
        0
    } else {
        vfields_size(f.drop_last()) + value_size(f.last().1) + 1
    }
}

proof fn lemma_vfields_size_index(f: Seq<(Seq<char>, ValueV)>, i: int)
    requires
        0 <= i < f.len(),
    ensures
        value_size(f[i].1) < vfields_size(f),
    decreases f.len(),
{
    if i < f.len() - 1 {
        lemma_vfields_size_index(f.drop_last(), i);
        assert(f.drop_last()[i] == f[i]);
    }
}

proof fn lemma_fields_vv(s: Seq<(String, Value)>)
    ensures
        fields_vv(s).len() == s.len(),
        forall|i: int| 0 <= i < s.len() ==> #[trigger] fields_vv(s)[i] == (s[i].0@, value_v(s[i].1)),
    decreases s.len(),
{
    if s.len() > 0 {
        lemma_fields_vv(s.drop_last());
    }
}

/// A copy of a value.
fn copy_value(v: &Value) -> (r: Value)
    ensures
        r@ == v@,
    decreases value_size(v@),
{
    match v {
        Value::Int(n) => Value::Int(*n),
        Value::Bool(b) => Value::Bool(*b),
        Value::Str(s) => Value::Str(s.clone()),
        Value::Unit => Value::Unit,
        Value::Struct(fields) => {
            proof {
                lemma_fields_vv(fields@);
            }
            let mut out: Vec<(String, Value)> = Vec::new();
            let mut i: usize = 0;
            while i < fields.len()
                invariant
                    v@ == ValueV::Struct(fields_vv(fields@)),
                    fields_vv(fields@).len() == fields@.len(),
                    forall|j: int| 0 <= j < fields@.len() ==> #[trigger] fields_vv(fields@)[j] == (fields@[j].0@, value_v(fields@[j].1)),
                    i <= fields@.len(),
                    fields_vv(out@) == fields_vv(fields@).take(i as int),
                decreases fields.len() - i,
            {
                proof {
                    lemma_vfields_size_index(fields_vv(fields@), i as int);
                }
                let c = copy_value(&fields[i].1);
                let ghost prev = out@;
                out.push((fields[i].0.clone(), c));
                proof {
                    assert(out@.drop_last() =~= prev);
                    assert(fields_vv(out@) =~= fields_vv(fields@).take(i + 1));
                }
                i += 1;
            }
            proof {
                assert(fields_vv(fields@).take(i as int) =~= fields_vv(fields@));
            }
            Value::Struct(out)
        },
    }
}

#[verifier::spinoff_prover]
fn value_eq_x(a: &Value, b: &Value) -> (r: bool)
    ensures
        r == value_eq(a@, b@),
    decreases value_size(a@),
{
    match (a, b) {
        (Value::Int(x), Value::Int(y)) => *x == *y,
        (Value::Bool(x), Value::Bool(y)) => *x == *y,
        (Value::Str(x), Value::Str(y)) => string_eq(x, y),
        (Value::Unit, Value::Unit) => true,
        (Value::Struct(x), Value::Struct(y)) => {
            let ghost xv = fields_vv(x@);
            let ghost yv = fields_vv(y@);
            proof {
                lemma_fields_vv(x@);
                lemma_fields_vv(y@);
            }
            if x.len() != y.len() {
                return false;
            }
            let mut i: usize = 0;
            while i < x.len()
                invariant
                    xv == fields_vv(x@),
                    yv == fields_vv(y@),
                    a@ == ValueV::Struct(xv),
                    b@ == ValueV::Struct(yv),
                    xv.len() == x@.len(),
                    yv.len() == y@.len(),
                    x@.len() == y@.len(),
                    forall|j: int| 0 <= j < x@.len() ==> #[trigger] xv[j] == (x@[j].0@, value_v(x@[j].1)),
                    forall|j: int| 0 <= j < y@.len() ==> #[trigger] yv[j] == (y@[j].0@, value_v(y@[j].1)),
                    i <= x@.len(),
                    forall|k: int| #![trigger xv[k]] 0 <= k < i ==> exists|j: int| #![trigger yv[j]] 0 <= j < yv.len() && yv[j].0 == xv[k].0 && value_eq(xv[k].1, yv[j].1),
                decreases x.len() - i,
            {
                proof {
                    lemma_vfields_size_index(xv, i as int);
                }
                let mut found = false;
                let mut j: usize = 0;
                while j < y.len()
                    invariant
                        xv == fields_vv(x@),
                        yv == fields_vv(y@),
                        i < x@.len(),
                        xv.len() == x@.len(),
                        yv.len() == y@.len(),
                        forall|q: int| 0 <= q < x@.len() ==> #[trigger] xv[q] == (x@[q].0@, value_v(x@[q].1)),
                        forall|q: int| 0 <= q < y@.len() ==> #[trigger] yv[q] == (y@[q].0@, value_v(y@[q].1)),
                        value_size(xv[i as int].1) < value_size(a@),
                        j <= y@.len(),
                        found ==> exists|q: int| #![trigger yv[q]] 0 <= q < yv.len() && yv[q].0 == xv[i as int].0 && value_eq(xv[i as int].1, yv[q].1),
                        !found ==> forall|q: int| 0 <= q < j ==> !(yv[q].0 == xv[i as int].0 && value_eq(xv[i as int].1, yv[q].1)),
                    decreases y.len() - j,
                {
                    if !found && string_eq(&x[i].0, &y[j].0) && value_eq_x(&x[i].1, &y[j].1) {
                        found = true;
                        proof {
                            assert(yv[j as int].0 == xv[i as int].0);
                        }
                    }
                    j += 1;
                }
                if !found {
                    proof {
                        assert(!(exists|q: int| #![trigger yv[q]] 0 <= q < yv.len() && yv[q].0 == xv[i as int].0 && value_eq(xv[i as int].1, yv[q].1)));
                        assert(xv[i as int] == x@[i as int]@ || true);
                    }
                    return false;
                }
                i += 1;
            }
            true
        },
        _ => false,
    }
}

fn as_int_x(v: &Value) -> (r: Result<i64, RunError>)
    ensures
        match r {
            Ok(n) => as_int(v@) == Ok::<i64, RunErrorV>(n),
            Err(e) => as_int(v@) == Err::<i64, RunErrorV>(e@),
        },
{
    match v {
        Value::Int(n) => Ok(*n),
        _ => {
            let mut m = owned("entier attendu, eu ");
            let t = value_text_x(v);
            push_text(&mut m, t.as_str());
            Err(RunError::Msg(m))
        },
    }
}

fn as_bool_x(v: &Value) -> (r: Result<bool, RunError>)
    ensures
        match r {
            Ok(b) => as_bool(v@) == Ok::<bool, RunErrorV>(b),
            Err(e) => as_bool(v@) == Err::<bool, RunErrorV>(e@),
        },
{
    match v {
        Value::Bool(b) => Ok(*b),
        Value::Int(n) => Ok(*n != 0),
        _ => {
            let mut m = owned("booléen attendu, eu ");
            let t = value_text_x(v);
            push_text(&mut m, t.as_str());
            Err(RunError::Msg(m))
        },
    }
}

fn display_x(v: &Value) -> (s: String)
    ensures
        s@ == display(v@),
{
    match v {
        Value::Str(s) => s.clone(),
        Value::Int(n) => int_text(*n),
        Value::Bool(b) => if *b { owned("legit") } else { owned("cheat") },
        Value::Struct(_) => owned("<perso>"),
        Value::Unit => owned("afk_total"),
    }
}

fn div_trunc_x(a: i64, b: i64) -> (q: i64)
    requires
        b != 0,
    ensures
        q == div_trunc(a, b),
{
    let ua: u64 = if a >= 0 { a as u64 } else if a == i64::MIN { 9223372036854775808u64 } else { (-a) as u64 };
    let ub: u64 = if b >= 0 { b as u64 } else if b == i64::MIN { 9223372036854775808u64 } else { (-b) as u64 };
    let m: u64 = ua / ub;
    proof {
        assert(ua as int == (if a >= 0 { a as int } else { -(a as int) }));
        assert(ub as int == (if b >= 0 { b as int } else { -(b as int) }));
    }
    if (a >= 0) == (b > 0) || a == 0 {
        if m > 9223372036854775807u64 { i64::MIN } else { m as i64 }
    } else {
        proof {
            assert(m <= 9223372036854775808u64) by (nonlinear_arith)
                requires
                    ua <= 9223372036854775808u64,
                    ub >= 1,
                    m == ua / ub,
            ;
        }
        if m == 9223372036854775808u64 { i64::MIN } else { -(m as i64) }
    }
}

// ------------------------------------------------------------------ well-formed calls


/// A bot that a name designates is one of the program's bots.
proof fn lemma_find_bot_in(items: Seq<ItemV>, name: Seq<char>)
    requires
        find_bot(items, name) is Some,
    ensures
        exists|i: int| 0 <= i < items.len() && #[trigger] items[i] == ItemV::Bot(find_bot(items, name)->0),
    decreases items.len(),
{
    if items.last() is Bot && items.last()->Bot_0.name == name {
        assert(items[items.len() - 1] == ItemV::Bot(find_bot(items, name)->0));
    } else {
        lemma_find_bot_in(items.drop_last(), name);
        let i = choose|i: int| 0 <= i < items.drop_last().len() && #[trigger] items.drop_last()[i] == ItemV::Bot(find_bot(items.drop_last(), name)->0);
        assert(items[i] == items.drop_last()[i]);
    }
}

// ------------------------------------------------------------------ a whole run

/// The configuration of a run: the pragmas, the seed of the environment when the program
/// sets none, the patch seed of the environment when given.
pub open spec fn run_config(p: ProgramV, seed: Option<u64>, patch_seed: Option<u64>) -> Config {
    let c = pragma_config(p.pragmas);
    let c1 = if c.seed is None { Config { seed, ..c } } else { c };
    match patch_seed {
        Some(ps) => Config { patch_seed: ps, ..c1 },
        None => c1,
    }
}

/// The first `pano`/`perso` whose pins are wrong, as a message.
pub open spec fn setup_error(items: Seq<ItemV>) -> Option<Seq<char>>
    decreases items.len(),
{
    if items.len() == 0 {
        None
    } else {
        match setup_error(items.drop_last()) {
            Some(m) => Some(m),
            None => match items.last() {
                ItemV::Pano(p) => match pin_error(p.variants.map_values(|v: VariantV| v.pin), 0) {
                    Some(m) => Some("pano "@ + quoted(p.name) + " : "@ + m),
                    None => None,
                },
                ItemV::Perso(p) => match pin_error(p.fields.map_values(|x: FieldV| x.pin), 0) {
                    Some(m) => Some("perso "@ + quoted(p.name) + " : "@ + m),
                    None => None,
                },
                _ => None,
            },
        }
    }
}

/// The entry point: the last `connexion` block.
pub open spec fn find_connexion(items: Seq<ItemV>) -> Option<BlockV>
    decreases items.len(),
{
    if items.len() == 0 {
        None
    } else {
        match items.last() {
            ItemV::Connexion(b) => Some(b),
            _ => find_connexion(items.drop_last()),
        }
    }
}

/// A fresh runtime.
pub open spec fn init_rt(cfg: Config) -> RuntimeView {
    RuntimeView {
        cfg,
        pa: cfg.max_pa,
        pm: cfg.max_pm,
        suspicion: 0,
        clock_ms: 0,
        turn: 0,
        pending_ms: 0,
        window: Seq::empty(),
        cooldowns: Seq::empty(),
        touched: Seq::empty(),
        out: Seq::empty(),
    }
}

/// Depth budget of a run.
pub open spec fn run_fuel() -> nat {
    u64::MAX as nat
}

/// A run: the state it ends in and its result, the `i`-th random draw being `d[i]`.
pub open spec fn run_spec(p: ProgramV, seed: Option<u64>, patch_seed: Option<u64>, d: Seq<i64>) -> (St, Result<(), RunErrorV>) {
    let cfg = run_config(p, seed, patch_seed);
    let st = St { rt: init_rt(cfg), env: Seq::empty(), pm_ids: Seq::empty(), rolls: Seq::empty() };
    match setup_error(p.items) {
        Some(m) => (st, Err(RunErrorV::Msg(m))),
        None => match find_connexion(p.items) {
            None => (st, Err(RunErrorV::Msg("aucune connexion (point d'entrée)"@))),
            Some(b) => {
                let (s1, r) = exec_block(Ctx { items: p.items, cfg }, d, Mode { in_tour: false, tour_base: 0, perception: false }, st, b, run_fuel());
                (s1, match r {
                    Ok(_) => Ok(()),
                    Err(e) => Err(e),
                })
            },
        },
    }
}

/// Each draw lies between the bounds it was asked for.
pub open spec fn draws_fit(d: Seq<i64>, rolls: Seq<(i64, i64)>) -> bool {
    rolls.len() <= d.len() && forall|i: int| 0 <= i < rolls.len() ==> {
        let (a, b) = #[trigger] rolls[i];
        (a <= b ==> a <= d[i] <= b) && (b < a ==> b <= d[i] <= a)
    }
}

// ------------------------------------------------------------------ code: machine state

pub open spec fn vscope_map(s: Seq<(String, Value)>) -> Map<Seq<char>, ValueV>
    decreases s.len(),
{
    if s.len() == 0 {
        Map::empty()
    } else {
        vscope_map(s.drop_last()).insert(s.last().0@, s.last().1@)
    }
}

pub open spec fn env_v(e: Seq<Vec<(String, Value)>>) -> Seq<Map<Seq<char>, ValueV>> {
    e.map_values(|s: Vec<(String, Value)>| vscope_map(s@))
}

pub open spec fn rv(r: Result<Value, RunError>) -> Result<ValueV, RunErrorV> {
    match r {
        Ok(v) => Ok(v@),
        Err(e) => Err(e@),
    }
}

/// The draws made so far are the first draws of `d`.
pub open spec fn agrees(log: Seq<i64>, d: Seq<i64>) -> bool {
    log.len() <= d.len() && d.take(log.len() as int) == log
}

pub open spec fn extends(l2: Seq<i64>, l1: Seq<i64>) -> bool {
    l1.len() <= l2.len() && l2.take(l1.len() as int) == l1
}

proof fn lemma_agrees(l1: Seq<i64>, l2: Seq<i64>, d: Seq<i64>)
    requires
        extends(l2, l1),
        agrees(l2, d),
    ensures
        agrees(l1, d),
{
    assert(d.take(l1.len() as int) =~= l2.take(l1.len() as int));
}

proof fn lemma_extends_trans(l1: Seq<i64>, l2: Seq<i64>, l3: Seq<i64>)
    requires
        extends(l2, l1),
        extends(l3, l2),
    ensures
        extends(l3, l1),
{
    assert(l3.take(l1.len() as int) =~= l2.take(l1.len() as int));
}

/// Control flow of a statement, as the code carries it.
pub enum XFlow {
    Normal,
    Return(Value),
}

pub open spec fn fv(r: Result<XFlow, RunError>) -> Result<Flow, RunErrorV> {
    match r {
        Ok(XFlow::Normal) => Ok(Flow::Normal),
        Ok(XFlow::Return(v)) => Ok(Flow::Return(v@)),
        Err(e) => Err(e@),
    }
}

/// What a run computes once: its configuration, the effective bot costs, the tags.
pub struct Tables {
    cfg: Config,
    costs: CostTable,
    tags: Vec<(String, Vec<(String, i64)>)>,
}

pub open spec fn tags_v(t: Seq<(String, Vec<(String, i64)>)>) -> Seq<(Seq<char>, Seq<(Seq<char>, i64)>)> {
    t.map_values(|e: (String, Vec<(String, i64)>)| (e.0@, e.1@.map_values(|q: (String, i64)| (q.0@, q.1))))
}

impl Tables {
    pub closed spec fn ok(&self, items: Seq<ItemV>) -> bool {
        &&& self.costs@ == cost_map(items, self.cfg)
        &&& tags_v(self.tags@) == tag_table(items, self.cfg.patch_seed)
    }

    pub closed spec fn config(&self) -> Config {
        self.cfg
    }
}

pub open spec fn ctx_of(items: Seq<ItemV>, cfg: Config) -> Ctx {
    Ctx { items, cfg }
}

/// Interpreter: the runtime and the lexical environment.
pub struct Interp {
    rt: Runtime,
    env: Vec<Vec<(String, Value)>>,
    pm_ids: Vec<String>,
    rolls: Ghost<Seq<(i64, i64)>>,
    draws: Ghost<Seq<i64>>,
}

impl Interp {
    pub closed spec fn st(&self) -> St {
        St { rt: self.rt@, env: env_v(self.env@), pm_ids: names_v(self.pm_ids@), rolls: self.rolls@ }
    }

    pub closed spec fn log(&self) -> Seq<i64> {
        self.draws@
    }

    pub closed spec fn wf(&self, cfg: Config) -> bool {
        &&& self.draws@.len() == self.rolls@.len()
        &&& draws_fit(self.draws@, self.rolls@)
        &&& self.rt@.cfg == cfg
        &&& names_v(self.pm_ids@).no_duplicates()
    }
}

proof fn lemma_vscope_last(s: Seq<(String, Value)>, k: Seq<char>, j: int)
    requires
        0 <= j < s.len(),
        s[j].0@ == k,
        forall|q: int| j < q < s.len() ==> (#[trigger] s[q]).0@ != k,
    ensures
        vscope_map(s).contains_key(k),
        vscope_map(s)[k] == s[j].1@,
    decreases s.len(),
{
    if j < s.len() - 1 {
        lemma_vscope_last(s.drop_last(), k, j);
        assert(s.drop_last()[j] == s[j]);
        assert(s[s.len() - 1].0@ != k);
    }
}

proof fn lemma_vscope_none(s: Seq<(String, Value)>, k: Seq<char>)
    requires
        forall|q: int| 0 <= q < s.len() ==> (#[trigger] s[q]).0@ != k,
    ensures
        !vscope_map(s).contains_key(k),
    decreases s.len(),
{
    if s.len() > 0 {
        assert(s[s.len() - 1].0@ != k);
        lemma_vscope_none(s.drop_last(), k);
    }
}

proof fn lemma_vscope_update(s: Seq<(String, Value)>, j: int, x: (String, Value))
    requires
        0 <= j < s.len(),
        s[j].0@ == x.0@,
        forall|q: int| j < q < s.len() ==> (#[trigger] s[q]).0@ != x.0@,
    ensures
        vscope_map(s.update(j, x)) == vscope_map(s).insert(x.0@, x.1@),
    decreases s.len(),
{
    let u = s.update(j, x);
    if j == s.len() - 1 {
        assert(u.drop_last() =~= s.drop_last());
        assert(vscope_map(u) =~= vscope_map(s).insert(x.0@, x.1@));
    } else {
        assert(s[s.len() - 1].0@ != x.0@);
        lemma_vscope_update(s.drop_last(), j, x);
        assert(u.drop_last() =~= s.drop_last().update(j, x));
        assert(vscope_map(u) =~= vscope_map(s).insert(x.0@, x.1@));
    }
}

proof fn lemma_vscope_push(s: Seq<(String, Value)>, x: (String, Value))
    ensures
        vscope_map(s.push(x)) == vscope_map(s).insert(x.0@, x.1@),
{
    assert(s.push(x).drop_last() =~= s);
}

/// Index of the last binding of `name` in a scope.
fn last_key(s: &Vec<(String, Value)>, name: &String) -> (r: Option<usize>)
    ensures
        match r {
            Some(j) => j < s@.len() && s@[j as int].0@ == name@
                && forall|q: int| j < q < s@.len() ==> (#[trigger] s@[q]).0@ != name@,
            None => forall|q: int| 0 <= q < s@.len() ==> (#[trigger] s@[q]).0@ != name@,
        },
{
    let mut k = s.len();
    while k > 0
        invariant
            k <= s@.len(),
            forall|q: int| k <= q < s@.len() ==> (#[trigger] s@[q]).0@ != name@,
        decreases k,
    {
        if string_eq(&s[k - 1].0, name) {
            return Some(k - 1);
        }
        k -= 1;
    }
    None
}

impl Interp {
    /// Innermost scope binding `name`, and the position of the binding in it.
    fn find_var(&self, name: &String) -> (r: Option<(usize, usize)>)
        ensures
            match r {
                Some((i, j)) => {
                    &&& scope_of(env_v(self.env@), name@) == Some(i as nat)
                    &&& i < self.env@.len()
                    &&& j < self.env@[i as int]@.len()
                    &&& self.env@[i as int]@[j as int].0@ == name@
                    &&& forall|q: int| j < q < self.env@[i as int]@.len() ==> (#[trigger] self.env@[i as int]@[q]).0@ != name@
                    &&& vscope_map(self.env@[i as int]@)[name@] == self.env@[i as int]@[j as int].1@
                },
                None => scope_of(env_v(self.env@), name@) is None,
            },
    {
        let mut k = self.env.len();
        proof {
            assert(env_v(self.env@).take(k as int) =~= env_v(self.env@));
        }
        while k > 0
            invariant
                k <= self.env@.len(),
                scope_of(env_v(self.env@), name@) == scope_of(env_v(self.env@).take(k as int), name@),
            decreases k,
        {
            let i = k - 1;
            proof {
                assert(env_v(self.env@).take(k as int).drop_last() =~= env_v(self.env@).take(i as int));
            }
            match last_key(&self.env[i], name) {
                Some(j) => {
                    proof {
                        lemma_vscope_last(self.env@[i as int]@, name@, j as int);
                    }
                    return Some((i, j));
                },
                None => {
                    proof {
                        lemma_vscope_none(self.env@[i as int]@, name@);
                    }
                },
            }
            k = i;
        }
        None
    }

    fn pm_id(&mut self, name: &String) -> (id: u64)
        requires
            names_v(old(self).pm_ids@).no_duplicates(),
        ensures
            id == pm_index(names_v(old(self).pm_ids@), name@) as u64,
            names_v(final(self).pm_ids@) == pm_ids_after(names_v(old(self).pm_ids@), name@),
            names_v(final(self).pm_ids@).no_duplicates(),
            final(self).rt == old(self).rt,
            final(self).env == old(self).env,
            final(self).rolls == old(self).rolls,
            final(self).draws == old(self).draws,
    {
        let ghost ids = names_v(self.pm_ids@);
        let mut i: usize = 0;
        while i < self.pm_ids.len()
            invariant
                ids == names_v(self.pm_ids@),
                ids.no_duplicates(),
                i <= ids.len(),
                forall|j: int| 0 <= j < i ==> ids[j] != name@,
            decreases self.pm_ids.len() - i,
        {
            if string_eq(&self.pm_ids[i], name) {
                proof {
                    assert(ids[i as int] == name@);
                    assert(ids.contains(name@));
                    let c = choose|q: int| 0 <= q < ids.len() && #[trigger] ids[q] == name@ && forall|j: int| 0 <= j < q ==> ids[j] != name@;
                    assert(c == i) by {
                        if c < i {
                            assert(ids[c] != name@);
                        } else if c > i {
                            assert(ids[i as int] != name@);
                        }
                    }
                }
                return i as u64;
            }
            i += 1;
        }
        proof {
            assert(!ids.contains(name@));
        }
        let n = self.pm_ids.len();
        self.pm_ids.push(name.clone());
        proof {
            assert(names_v(self.pm_ids@) =~= ids.push(name@));
            assert(!(exists|q: int| 0 <= q < ids.len() && #[trigger] ids[q] == name@));
        }
        n as u64
    }

    /// Reads a variable (see `read_var`).
    fn read_var_x(&mut self, mode: Mode, name: &String, Ghost(cfg): Ghost<Config>) -> (r: Result<Value, RunError>)
        requires
            old(self).wf(cfg),
        ensures
            final(self).wf(cfg),
            final(self).env@.len() == old(self).env@.len(),
            final(self).log() == old(self).log(),
            (final(self).st(), rv(r)) == read_var(mode, old(self).st(), name@),
    {
        match self.find_var(name) {
            None => {
                let mut m = owned("variable indéfinie ");
                let q = crate::sema::quoted_x(name.as_str());
                push_text(&mut m, q.as_str());
                Err(RunError::Msg(m))
            },
            Some((i, j)) => {
                if mode.in_tour && !mode.perception && i < mode.tour_base {
                    let id = self.pm_id(name);
                    match self.rt.pm_touch(id) {
                        Ok(_) => {},
                        Err(f) => {
                            return Err(RunError::Fault(f));
                        },
                    }
                }
                let v = copy_value(&self.env[i][j].1);
                Ok(v)
            },
        }
    }
}

// ------------------------------------------------------------------ code: expressions

proof fn lemma_extends_refl(l: Seq<i64>)
    ensures
        extends(l, l),
{
    assert(l.take(l.len() as int) =~= l);
}

fn apply_binary_x(op: BinOp, l: &Value, r: &Value) -> (res: Result<Value, RunError>)
    requires
        op != BinOp::And,
        op != BinOp::Or,
    ensures
        rv(res) == apply_binary(op, l@, r@),
{
    match op {
        BinOp::Eq => Ok(Value::Bool(value_eq_x(l, r))),
        BinOp::Ne => Ok(Value::Bool(!value_eq_x(l, r))),
        BinOp::Div => {
            let d = match as_int_x(r) {
                Ok(d) => d,
                Err(e) => return Err(e),
            };
            if d == 0 {
                return Err(RunError::Msg(owned("division par zéro")));
            }
            let a = match as_int_x(l) {
                Ok(a) => a,
                Err(e) => return Err(e),
            };
            Ok(Value::Int(div_trunc_x(a, d)))
        },
        _ => {
            let a = match as_int_x(l) {
                Ok(a) => a,
                Err(e) => return Err(e),
            };
            let b = match as_int_x(r) {
                Ok(b) => b,
                Err(e) => return Err(e),
            };
            match op {
                BinOp::Add => Ok(Value::Int(a.wrapping_add(b))),
                BinOp::Sub => Ok(Value::Int(a.wrapping_sub(b))),
                BinOp::Mul => Ok(Value::Int(a.wrapping_mul(b))),
                BinOp::Lt => Ok(Value::Bool(a < b)),
                BinOp::Le => Ok(Value::Bool(a <= b)),
                BinOp::Gt => Ok(Value::Bool(a > b)),
                _ => Ok(Value::Bool(a >= b)),
            }
        },
    }
}

/// Value of the last field named `k` of a record.
fn field_get_x(f: &Vec<(String, Value)>, k: &String) -> (r: Option<Value>)
    ensures
        match r {
            Some(v) => field_get(fields_vv(f@), k@) == Some(v@),
            None => field_get(fields_vv(f@), k@) is None,
        },
{
    proof {
        lemma_fields_vv(f@);
    }
    let ghost fv = fields_vv(f@);
    let mut i = f.len();
    proof {
        assert(fv.take(i as int) =~= fv);
    }
    while i > 0
        invariant
            fv == fields_vv(f@),
            fv.len() == f@.len(),
            forall|j: int| 0 <= j < f@.len() ==> #[trigger] fv[j] == (f@[j].0@, f@[j].1@),
            i <= f@.len(),
            field_get(fv, k@) == field_get(fv.take(i as int), k@),
        decreases i,
    {
        proof {
            assert(fv.take(i as int).drop_last() =~= fv.take(i - 1));
        }
        if string_eq(&f[i - 1].0, k) {
            return Some(copy_value(&f[i - 1].1));
        }
        i -= 1;
    }
    None
}

/// Sets a field of a record being built (its fields stay distinct).
fn field_set_x(f: &mut Vec<(String, Value)>, k: &String, v: Value)
    requires
        forall|i: int, j: int| 0 <= i < j < old(f)@.len() ==> (#[trigger] old(f)@[i]).0@ != (#[trigger] old(f)@[j]).0@,
    ensures
        fields_vv(final(f)@) == field_set(fields_vv(old(f)@), k@, v@),
        forall|i: int, j: int| 0 <= i < j < final(f)@.len() ==> (#[trigger] final(f)@[i]).0@ != (#[trigger] final(f)@[j]).0@,
{
    proof {
        lemma_fields_vv(f@);
    }
    let ghost fv = fields_vv(f@);
    let ghost vv = v@;
    let ghost f0 = f@;
    let mut i: usize = 0;
    while i < f.len()
        invariant_except_break
            f@ == f0,
            i <= f0.len(),
            forall|j: int| 0 <= j < i ==> (#[trigger] f0[j]).0@ != k@,
        ensures
            f@ == f0,
            i <= f0.len(),
            forall|j: int| 0 <= j < i ==> (#[trigger] f0[j]).0@ != k@,
            i < f0.len() ==> f0[i as int].0@ == k@,
        decreases f.len() - i,
    {
        if string_eq(&f[i].0, k) {
            break;
        }
        i += 1;
    }
    if i < f.len() {
        let ghost x = (*k, v);
        f.set(i, (k.clone(), v));
        proof {
            assert forall|q: int| 0 <= q < fv.len() && #[trigger] fv[q].0 == k@ implies q == i by {
                assert(fv[q].0 == f0[q].0@);
                if q < i {
                    assert(f0[q].0@ != k@);
                } else if q > i {
                    assert(f0[i as int].0@ != f0[q].0@);
                }
            }
            assert(fv[i as int].0 == k@);
            lemma_fields_vv(f@);
            assert(fields_vv(f@) =~= fv.update(i as int, (k@, vv)));
            assert forall|p: int, q: int| 0 <= p < q < f@.len() implies (#[trigger] f@[p]).0@ != (#[trigger] f@[q]).0@ by {
                assert(f0[p].0@ != f0[q].0@);
            }
        }
    } else {
        f.push((k.clone(), v));
        proof {
            lemma_fields_vv(f@);
            assert forall|q: int| 0 <= q < fv.len() implies #[trigger] fv[q].0 != k@ by {
                assert(fv[q].0 == f0[q].0@);
            }
            assert(fields_vv(f@) =~= fv.push((k@, vv)));
        }
    }
}

/// Tag of `left.member` in the table of tags.
pub(crate) fn tag_get(t: &Vec<(String, Vec<(String, i64)>)>, left: &String, member: &String) -> (r: Option<i64>)
    ensures
        r == (match entry_of(tags_v(t@), left@) {
            Some(e) => pair_of(e, member@),
            None => None,
        }),
{
    let ghost tv = tags_v(t@);
    let mut i = t.len();
    proof {
        assert(tv.take(i as int) =~= tv);
    }
    while i > 0
        invariant
            tv == tags_v(t@),
            i <= t@.len(),
            entry_of(tv, left@) == entry_of(tv.take(i as int), left@),
        decreases i,
    {
        proof {
            assert(tv.take(i as int).drop_last() =~= tv.take(i - 1));
        }
        if string_eq(&t[i - 1].0, left) {
            let pairs = &t[i - 1].1;
            let ghost pv = pairs@.map_values(|q: (String, i64)| (q.0@, q.1));
            proof {
                assert(tv[i - 1] == (t@[i - 1].0@, pv));
                assert(tv.take(i as int).last() == tv[i - 1]);
                assert(entry_of(tv, left@) == Some(pv));
            }
            let mut j = pairs.len();
            proof {
                assert(pv.take(j as int) =~= pv);
            }
            while j > 0
                invariant
                    pv == pairs@.map_values(|q: (String, i64)| (q.0@, q.1)),
                    tv == tags_v(t@),
                    entry_of(tv, left@) == Some(pv),
                    j <= pairs@.len(),
                    pair_of(pv, member@) == pair_of(pv.take(j as int), member@),
                decreases j,
            {
                proof {
                    assert(pv.take(j as int).drop_last() =~= pv.take(j - 1));
                }
                if string_eq(&pairs[j - 1].0, member) {
                    proof {
                        assert(pv[j - 1] == (pairs@[j - 1].0@, pairs@[j - 1].1));
                        assert(pv.take(j as int).last() == pv[j - 1]);
                    }
                    return Some(pairs[j - 1].1);
                }
                j -= 1;
            }
            return None;
        }
        i -= 1;
    }
    None
}

impl Interp {
    fn eval_x(&mut self, items: &Vec<Item>, tb: &Tables, mode: Mode, e: &Expr, fuel: u64) -> (r: Result<Value, RunError>)
        requires
            old(self).wf(tb.config()),
            tb.ok(items_v(items@)),
        ensures
            final(self).wf(tb.config()),
            final(self).env@.len() == old(self).env@.len(),
            extends(final(self).log(), old(self).log()),
            forall|d: Seq<i64>| #[trigger] agrees(final(self).log(), d)
                ==> eval(ctx_of(items_v(items@), tb.config()), d, mode, old(self).st(), e@, fuel as nat) == (final(self).st(), rv(r)),
        decreases fuel, expr_size(e@), 3int,
    {
        proof {
            lemma_extends_refl(self.log());
        }
        match &e.kind {
            ExprKind::Int(n) => Ok(Value::Int(*n)),
            ExprKind::Bool(b) => Ok(Value::Bool(*b)),
            ExprKind::Str(s) => Ok(Value::Str(s.clone())),
            ExprKind::Pa => Ok(Value::Int(self.rt.pa())),
            ExprKind::Pm => Ok(Value::Int(self.rt.pm())),
            ExprKind::Suspicion => Ok(Value::Int(self.rt.suspicion() as i64)),
            ExprKind::Var(name) => self.read_var_x(mode, name, Ghost(tb.config())),
            ExprKind::Unary(op, x) => {
                let r = self.eval_x(items, tb, mode, x, fuel);
                match r {
                    Err(err) => Err(err),
                    Ok(v) => match op {
                        UnOp::Neg => match as_int_x(&v) {
                            Ok(n) => Ok(Value::Int(0i64.wrapping_sub(n))),
                            Err(err) => Err(err),
                        },
                        UnOp::Not => match as_bool_x(&v) {
                            Ok(b) => Ok(Value::Bool(!b)),
                            Err(err) => Err(err),
                        },
                    },
                }
            },
            ExprKind::Binary(..) => self.eval_binary_x(items, tb, mode, e, fuel),
            ExprKind::Call(..) => self.eval_call_x(items, tb, mode, e, fuel),
            ExprKind::Path(..) => self.eval_path_x(items, tb, mode, e, fuel),
            ExprKind::Struct(..) => self.eval_struct_x(items, tb, mode, e, fuel),
        }
    }

    #[verifier::spinoff_prover]
    #[verifier::rlimit(60)]
    fn eval_binary_x(&mut self, items: &Vec<Item>, tb: &Tables, mode: Mode, e: &Expr, fuel: u64) -> (r: Result<Value, RunError>)
        requires
            old(self).wf(tb.config()),
            tb.ok(items_v(items@)),
            e@.kind is Binary,
        ensures
            final(self).wf(tb.config()),
            final(self).env@.len() == old(self).env@.len(),
            extends(final(self).log(), old(self).log()),
            forall|d: Seq<i64>| #[trigger] agrees(final(self).log(), d)
                ==> eval(ctx_of(items_v(items@), tb.config()), d, mode, old(self).st(), e@, fuel as nat) == (final(self).st(), rv(r)),
        decreases fuel, expr_size(e@), 2int,
    {
        let ghost c = ctx_of(items_v(items@), tb.config());
        let ghost st0 = self.st();
        let ghost l0 = self.log();
        match &e.kind {
            ExprKind::Binary(op, l, rr) => {
                let a = self.eval_x(items, tb, mode, l, fuel);
                let ghost l1 = self.log();
                let ghost st1 = self.st();
                let va = match a {
                    Err(err) => return Err(err),
                    Ok(va) => va,
                };
                let short = match op {
                    BinOp::And | BinOp::Or => true,
                    _ => false,
                };
                if short {
                    let x = match as_bool_x(&va) {
                        Err(err) => return Err(err),
                        Ok(x) => x,
                    };
                    let is_and = match op {
                        BinOp::And => true,
                        _ => false,
                    };
                    if (is_and && !x) || (!is_and && x) {
                        return Ok(Value::Bool(x));
                    }
                    let b = self.eval_x(items, tb, mode, rr, fuel);
                    let res = match b {
                        Err(err) => Err(err),
                        Ok(vb) => match as_bool_x(&vb) {
                            Err(err) => Err(err),
                            Ok(y) => Ok(Value::Bool(y)),
                        },
                    };
                    proof {
                        lemma_extends_trans(l0, l1, self.log());
                        assert forall|d: Seq<i64>| #[trigger] agrees(self.log(), d) implies
                            eval(c, d, mode, st0, e@, fuel as nat) == (self.st(), rv(res)) by {
                            lemma_agrees(l1, self.log(), d);
                        }
                    }
                    res
                } else {
                    let b = self.eval_x(items, tb, mode, rr, fuel);
                    let res = match b {
                        Err(err) => Err(err),
                        Ok(vb) => apply_binary_x(*op, &va, &vb),
                    };
                    proof {
                        lemma_extends_trans(l0, l1, self.log());
                        assert forall|d: Seq<i64>| #[trigger] agrees(self.log(), d) implies
                            eval(c, d, mode, st0, e@, fuel as nat) == (self.st(), rv(res)) by {
                            lemma_agrees(l1, self.log(), d);
                        }
                    }
                    res
                }
            },
            _ => Err(RunError::Banni),
        }
    }

    fn eval_args_x(&mut self, items: &Vec<Item>, tb: &Tables, mode: Mode, args: &Vec<Expr>, fuel: u64) -> (r: Result<Vec<Value>, RunError>)
        requires
            old(self).wf(tb.config()),
            tb.ok(items_v(items@)),
        ensures
            final(self).wf(tb.config()),
            final(self).env@.len() == old(self).env@.len(),
            extends(final(self).log(), old(self).log()),
            forall|d: Seq<i64>| #[trigger] agrees(final(self).log(), d)
                ==> eval_args(ctx_of(items_v(items@), tb.config()), d, mode, old(self).st(), exprs_v(args@), fuel as nat) == (final(self).st(), match r {
                    Ok(vs) => Ok(vs@.map_values(|v: Value| v@)),
                    Err(e) => Err(e@),
                }),
        decreases fuel, exprs_size(exprs_v(args@)), 1int,
    {
        let ghost c = ctx_of(items_v(items@), tb.config());
        let ghost st0 = self.st();
        let ghost l0 = self.log();
        let ghost a = exprs_v(args@);
        proof {
            lemma_exprs_v(args@);
            lemma_extends_refl(l0);
        }
        let mut vals: Vec<Value> = Vec::new();
        let mut i: usize = 0;
        proof {
            assert(a.take(0) =~= Seq::<ExprV>::empty());
            assert(vals@.map_values(|v: Value| v@) =~= Seq::<ValueV>::empty());
        }
        while i < args.len()
            invariant
                a == exprs_v(args@),
                a.len() == args@.len(),
                forall|j: int| 0 <= j < a.len() ==> #[trigger] a[j] == args@[j]@,
                i <= a.len(),
                self.wf(tb.config()),
                tb.ok(items_v(items@)),
                c == ctx_of(items_v(items@), tb.config()),
                self.env@.len() == old(self).env@.len(),
                extends(self.log(), l0),
                l0 == old(self).log(),
                st0 == old(self).st(),
                forall|d: Seq<i64>| #[trigger] agrees(self.log(), d)
                    ==> eval_args(c, d, mode, st0, a.take(i as int), fuel as nat) == (self.st(), Ok::<Seq<ValueV>, RunErrorV>(vals@.map_values(|v: Value| v@))),
            decreases a.len() - i,
        {
            proof {
                lemma_exprs_size_index(a, i as int);
                assert(a.take(i + 1).drop_last() =~= a.take(i as int));
                assert(a.take(i + 1).last() == a[i as int]);
            }
            let ghost li = self.log();
            let ghost vi = vals@.map_values(|v: Value| v@);
            let r = self.eval_x(items, tb, mode, &args[i], fuel);
            match r {
                Err(err) => {
                    proof {
                        lemma_extends_trans(l0, li, self.log());
                        assert forall|d: Seq<i64>| #[trigger] agrees(self.log(), d) implies
                            eval_args(c, d, mode, st0, a, fuel as nat) == (self.st(), Err::<Seq<ValueV>, RunErrorV>(err@)) by {
                            lemma_agrees(li, self.log(), d);
                            lemma_eval_args_err(c, d, mode, st0, a, fuel as nat, i as int);
                        }
                    }
                    return Err(err);
                },
                Ok(v) => {
                    vals.push(v);
                    proof {
                        lemma_extends_trans(l0, li, self.log());
                        assert(vals@.map_values(|v: Value| v@) =~= vi.push(vals@.last()@));
                        assert forall|d: Seq<i64>| #[trigger] agrees(self.log(), d) implies
                            eval_args(c, d, mode, st0, a.take(i + 1), fuel as nat) == (self.st(), Ok::<Seq<ValueV>, RunErrorV>(vals@.map_values(|v: Value| v@))) by {
                            lemma_agrees(li, self.log(), d);
                        }
                    }
                },
            }
            i += 1;
        }
        proof {
            assert(a.take(i as int) =~= a);
        }
        Ok(vals)
    }
}

/// An error while evaluating argument `i` is the error of the whole list.
proof fn lemma_eval_args_err(c: Ctx, d: Seq<i64>, mode: Mode, st0: St, a: Seq<ExprV>, f: nat, i: int)
    requires
        0 <= i < a.len(),
        eval_args(c, d, mode, st0, a.take(i + 1), f).1 is Err,
    ensures
        eval_args(c, d, mode, st0, a, f) == eval_args(c, d, mode, st0, a.take(i + 1), f),
    decreases a.len() - i,
{
    if i + 1 < a.len() {
        assert(a.drop_last().take(i + 1) =~= a.take(i + 1));
        lemma_eval_args_err(c, d, mode, st0, a.drop_last(), f, i);
    } else {
        assert(a.take(i + 1) =~= a);
    }
}

impl Interp {
    /// Charges `n` AP, as `spend` describes.
    fn spend_x(&mut self, n: i64, Ghost(cfg): Ghost<Config>) -> (r: Result<(), RunError>)
        requires
            old(self).wf(cfg),
        ensures
            final(self).wf(cfg),
            final(self).env@ == old(self).env@,
            final(self).log() == old(self).log(),
            final(self).st() == with_rt(old(self).st(), spend(old(self).rt@, n).0),
            match r {
                Ok(_) => spend(old(self).rt@, n).1 is Ok,
                Err(e) => spend(old(self).rt@, n).1 == Err::<(), RunErrorV>(e@),
            },
    {
        let pa = self.rt.pa();
        if n <= pa && n < 0 && pa > i64::MAX + n {
            return Err(RunError::Msg(owned("attempt to subtract with overflow")));
        }
        match self.rt.spend_pa(n) {
            Ok(_) => Ok(()),
            Err(f) => Err(RunError::Fault(f)),
        }
    }

    #[verifier::spinoff_prover]
    #[verifier::rlimit(80)]
    fn eval_call_x(&mut self, items: &Vec<Item>, tb: &Tables, mode: Mode, e: &Expr, fuel: u64) -> (r: Result<Value, RunError>)
        requires
            old(self).wf(tb.config()),
            tb.ok(items_v(items@)),
            e@.kind is Call,
        ensures
            final(self).wf(tb.config()),
            final(self).env@.len() == old(self).env@.len(),
            extends(final(self).log(), old(self).log()),
            forall|d: Seq<i64>| #[trigger] agrees(final(self).log(), d)
                ==> eval_call(ctx_of(items_v(items@), tb.config()), d, mode, old(self).st(), e@.kind->Call_0, e@.kind->Call_1, fuel as nat) == (final(self).st(), rv(r)),
        decreases fuel, expr_size(e@), 2int,
    {
        let ghost c = ctx_of(items_v(items@), tb.config());
        let ghost st0 = self.st();
        let ghost l0 = self.log();
        proof {
            lemma_extends_refl(l0);
        }
        match &e.kind {
            ExprKind::Call(name, args) => {
                let ghost a = exprs_v(args@);
                proof {
                    lemma_exprs_v(args@);
                }
                if string_is(name, "rand") || string_is(name, "butin") {
                    if args.len() == 0 {
                        return Err(RunError::Msg(index_message(0)));
                    }
                    proof {
                        lemma_exprs_size_index(a, 0);
                    }
                    let ra = self.eval_x(items, tb, mode, &args[0], fuel);
                    let ghost l1 = self.log();
                    let va = match ra {
                        Err(err) => return Err(err),
                        Ok(v) => v,
                    };
                    let x = match as_int_x(&va) {
                        Err(err) => return Err(err),
                        Ok(x) => x,
                    };
                    if args.len() == 1 {
                        return Err(RunError::Msg(index_message(1)));
                    }
                    proof {
                        lemma_exprs_size_index(a, 1);
                    }
                    let rb = self.eval_x(items, tb, mode, &args[1], fuel);
                    let ghost l2 = self.log();
                    let vb = match rb {
                        Err(err) => {
                            proof {
                                lemma_extends_trans(l0, l1, l2);
                                assert forall|d: Seq<i64>| #[trigger] agrees(self.log(), d) implies
                                    eval_call(c, d, mode, st0, e@.kind->Call_0, e@.kind->Call_1, fuel as nat) == (self.st(), rv(Err::<Value, RunError>(err))) by {
                                    lemma_agrees(l1, l2, d);
                                }
                            }
                            return Err(err);
                        },
                        Ok(v) => v,
                    };
                    let y = match as_int_x(&vb) {
                        Err(err) => {
                            proof {
                                lemma_extends_trans(l0, l1, l2);
                                assert forall|d: Seq<i64>| #[trigger] agrees(self.log(), d) implies
                                    eval_call(c, d, mode, st0, e@.kind->Call_0, e@.kind->Call_1, fuel as nat) == (self.st(), rv(Err::<Value, RunError>(err))) by {
                                    lemma_agrees(l1, l2, d);
                                }
                            }
                            return Err(err);
                        },
                        Ok(y) => y,
                    };
                    let ghost st2 = self.st();
                    let v = self.rt.rand(x, y);
                    self.rolls = Ghost(self.rolls@.push((x, y)));
                    self.draws = Ghost(self.draws@.push(v));
                    proof {
                        lemma_extends_trans(l0, l1, l2);
                        assert(l2.push(v).take(l2.len() as int) =~= l2);
                        lemma_extends_trans(l0, l2, self.log());
                        assert forall|i: int| 0 <= i < self.rolls@.len() implies {
                            let (p, q) = #[trigger] self.rolls@[i];
                            (p <= q ==> p <= self.draws@[i] <= q) && (q < p ==> q <= self.draws@[i] <= p)
                        } by {
                            if i < self.rolls@.len() - 1 {
                                assert(self.rolls@[i] == st2.rolls[i]);
                            }
                        }
                        assert forall|d: Seq<i64>| #[trigger] agrees(self.log(), d) implies
                            eval_call(c, d, mode, st0, e@.kind->Call_0, e@.kind->Call_1, fuel as nat) == (self.st(), rv(Ok::<Value, RunError>(Value::Int(v)))) by {
                            lemma_agrees(l2, self.log(), d);
                            lemma_agrees(l1, l2, d);
                            assert(d.take(self.log().len() as int)[l2.len() as int] == v);
                            assert(draw(d, st2.rolls.len()) == v);
                        }
                    }
                    Ok(Value::Int(v))
                } else if string_is(name, "cd_pret") {
                    if args.len() > 0 {
                        match &args[0].kind {
                            ExprKind::Var(b) => Ok(Value::Bool(self.rt.cd_pret(b))),
                            _ => Err(RunError::Msg(owned("cd_pret attend un nom de bot"))),
                        }
                    } else {
                        Err(RunError::Msg(owned("cd_pret attend un nom de bot")))
                    }
                } else {
                    let b = match crate::sema::find_bot_x(items, name) {
                        None => {
                            let mut m = owned("bot inconnu ");
                            let q = crate::sema::quoted_x(name.as_str());
                            push_text(&mut m, q.as_str());
                            return Err(RunError::Msg(m));
                        },
                        Some(b) => b,
                    };
                    if !self.rt.cd_pret(name) {
                        return Err(RunError::Cooldown);
                    }
                    let rargs = self.eval_args_x(items, tb, mode, args, fuel);
                    let ghost l1 = self.log();
                    let vals = match rargs {
                        Err(err) => return Err(err),
                        Ok(vs) => vs,
                    };
                    if mode.in_tour {
                        let cost = tb.costs.cost_or_zero(name);
                        match self.spend_x(cost, Ghost(tb.config())) {
                            Ok(_) => {},
                            Err(err) => return Err(err),
                        }
                    }
                    if self.rt.config().bucket_ms == 0 {
                        return Err(RunError::Msg(owned("attempt to divide by zero")));
                    }
                    match self.rt.act_bot(name) {
                        Ok(_) => {},
                        Err(_) => return Err(RunError::Banni),
                    }
                    let cd: u64 = match b.cd {
                        Some(x) => if x > 0 { x as u64 } else { 0 },
                        None => 0,
                    };
                    self.rt.set_cooldown(name, cd);
                    if fuel == 0 {
                        return Err(RunError::Msg(owned("exécution interrompue : profondeur maximale atteinte")));
                    }
                    proof {
                        lemma_find_bot_in(items_v(items@), name@);
                        let k = choose|k: int| 0 <= k < items_v(items@).len() && #[trigger] items_v(items@)[k] == ItemV::Bot(find_bot(items_v(items@), name@)->0);
                        assert(items_v(items@)[k] is Bot);
                    }
                    let ghost st2 = self.st();
                    let res = self.call_bot_x(items, tb, mode, b, vals, fuel - 1);
                    proof {
                        lemma_extends_trans(l0, l1, self.log());
                        assert forall|d: Seq<i64>| #[trigger] agrees(self.log(), d) implies
                            eval_call(c, d, mode, st0, e@.kind->Call_0, e@.kind->Call_1, fuel as nat) == (self.st(), rv(res)) by {
                            lemma_agrees(l1, self.log(), d);
                        }
                    }
                    res
                }
            },
            _ => Err(RunError::Banni),
        }
    }

    #[verifier::spinoff_prover]
    #[verifier::rlimit(60)]
    fn eval_path_x(&mut self, items: &Vec<Item>, tb: &Tables, mode: Mode, e: &Expr, fuel: u64) -> (r: Result<Value, RunError>)
        requires
            old(self).wf(tb.config()),
            tb.ok(items_v(items@)),
            e@.kind is Path,
        ensures
            final(self).wf(tb.config()),
            final(self).env@.len() == old(self).env@.len(),
            extends(final(self).log(), old(self).log()),
            forall|d: Seq<i64>| #[trigger] agrees(final(self).log(), d)
                ==> eval(ctx_of(items_v(items@), tb.config()), d, mode, old(self).st(), e@, fuel as nat) == (final(self).st(), rv(r)),
    {
        proof {
            lemma_extends_refl(self.log());
        }
        match &e.kind {
            ExprKind::Path(left, member) => {
                if self.find_var(left).is_some() {
                    let r = self.read_var_x(mode, left, Ghost(tb.config()));
                    match r {
                        Err(err) => Err(err),
                        Ok(v) => match v {
                            Value::Struct(fields) => {
                                proof {
                                    assert(v@ == ValueV::Struct(fields_vv(fields@)));
                                }
                                match field_get_x(&fields, member) {
                                    Some(x) => Ok(x),
                                    None => {
                                        let mut m = owned("champ inconnu « ");
                                        push_text(&mut m, left.as_str());
                                        push_text(&mut m, ".");
                                        push_text(&mut m, member.as_str());
                                        push_text(&mut m, " »");
                                        Err(RunError::Msg(m))
                                    },
                                }
                            },
                            _ => {
                                let mut m = crate::sema::quoted_x(left.as_str());
                                push_text(&mut m, " n'est pas un perso");
                                Err(RunError::Msg(m))
                            },
                        },
                    }
                } else {
                    match tag_get(&tb.tags, left, member) {
                        Some(t) => Ok(Value::Int(t)),
                        None => {
                            let mut m = owned("« ");
                            push_text(&mut m, left.as_str());
                            push_text(&mut m, ".");
                            push_text(&mut m, member.as_str());
                            push_text(&mut m, " » inconnu");
                            Err(RunError::Msg(m))
                        },
                    }
                }
            },
            _ => Err(RunError::Banni),
        }
    }

    #[verifier::spinoff_prover]
    #[verifier::rlimit(60)]
    fn eval_struct_x(&mut self, items: &Vec<Item>, tb: &Tables, mode: Mode, e: &Expr, fuel: u64) -> (r: Result<Value, RunError>)
        requires
            old(self).wf(tb.config()),
            tb.ok(items_v(items@)),
            e@.kind is Struct,
        ensures
            final(self).wf(tb.config()),
            final(self).env@.len() == old(self).env@.len(),
            extends(final(self).log(), old(self).log()),
            forall|d: Seq<i64>| #[trigger] agrees(final(self).log(), d)
                ==> eval(ctx_of(items_v(items@), tb.config()), d, mode, old(self).st(), e@, fuel as nat) == (final(self).st(), rv(r)),
        decreases fuel, expr_size(e@), 2int,
    {
        let ghost c = ctx_of(items_v(items@), tb.config());
        let ghost st0 = self.st();
        let ghost l0 = self.log();
        proof {
            lemma_extends_refl(l0);
        }
        match &e.kind {
            ExprKind::Struct(_, fields) => {
                let ghost a = fields_init_v(fields@);
                proof {
                    lemma_fields_init_v(fields@);
                }
                let mut acc: Vec<(String, Value)> = Vec::new();
                let mut i: usize = 0;
                proof {
                    assert(a.take(0) =~= Seq::<(Seq<char>, ExprV)>::empty());
                    assert(fields_vv(acc@) =~= Seq::<(Seq<char>, ValueV)>::empty());
                }
                while i < fields.len()
                    invariant
                        a == fields_init_v(fields@),
                        a.len() == fields@.len(),
                        forall|j: int| 0 <= j < a.len() ==> #[trigger] a[j] == (fields@[j].name@, fields@[j].value@),
                        e@.kind is Struct,
                        e@.kind->Struct_1 == a,
                        expr_size(e@) == 1 + fields_size(a),
                        i <= a.len(),
                        self.wf(tb.config()),
                        tb.ok(items_v(items@)),
                        c == ctx_of(items_v(items@), tb.config()),
                        self.env@.len() == old(self).env@.len(),
                        extends(self.log(), l0),
                        l0 == old(self).log(),
                        st0 == old(self).st(),
                        forall|x: int, y: int| 0 <= x < y < acc@.len() ==> (#[trigger] acc@[x]).0@ != (#[trigger] acc@[y]).0@,
                        forall|d: Seq<i64>| #[trigger] agrees(self.log(), d)
                            ==> eval_fields(c, d, mode, st0, a.take(i as int), fuel as nat) == (self.st(), Ok::<Seq<(Seq<char>, ValueV)>, RunErrorV>(fields_vv(acc@))),
                    decreases a.len() - i,
                {
                    proof {
                        lemma_fields_size_index(a, i as int);
                        assert(a.take(i + 1).drop_last() =~= a.take(i as int));
                        assert(a.take(i + 1).last() == a[i as int]);
                    }
                    let ghost li = self.log();
                    let ghost acc0 = fields_vv(acc@);
                    let r = self.eval_x(items, tb, mode, &fields[i].value, fuel);
                    match r {
                        Err(err) => {
                            proof {
                                lemma_extends_trans(l0, li, self.log());
                                assert forall|d: Seq<i64>| #[trigger] agrees(self.log(), d) implies
                                    eval(c, d, mode, st0, e@, fuel as nat) == (self.st(), rv(Err::<Value, RunError>(err))) by {
                                    lemma_agrees(li, self.log(), d);
                                    lemma_eval_fields_err(c, d, mode, st0, a, fuel as nat, i as int);
                                }
                            }
                            return Err(err);
                        },
                        Ok(v) => {
                            let ghost vv = v@;
                            field_set_x(&mut acc, &fields[i].name, v);
                            proof {
                                lemma_extends_trans(l0, li, self.log());
                                assert forall|d: Seq<i64>| #[trigger] agrees(self.log(), d) implies
                                    eval_fields(c, d, mode, st0, a.take(i + 1), fuel as nat) == (self.st(), Ok::<Seq<(Seq<char>, ValueV)>, RunErrorV>(fields_vv(acc@))) by {
                                    lemma_agrees(li, self.log(), d);
                                }
                            }
                        },
                    }
                    i += 1;
                }
                proof {
                    assert(a.take(i as int) =~= a);
                }
                let res = Value::Struct(acc);
                proof {
                    assert(res@ == ValueV::Struct(fields_vv(acc@)));
                }
                Ok(res)
            },
            _ => Err(RunError::Banni),
        }
    }
}

/// An error while evaluating field `i` is the error of the whole construction.
proof fn lemma_eval_fields_err(c: Ctx, d: Seq<i64>, mode: Mode, st0: St, a: Seq<(Seq<char>, ExprV)>, f: nat, i: int)
    requires
        0 <= i < a.len(),
        eval_fields(c, d, mode, st0, a.take(i + 1), f).1 is Err,
    ensures
        eval_fields(c, d, mode, st0, a, f) == eval_fields(c, d, mode, st0, a.take(i + 1), f),
    decreases a.len() - i,
{
    if i + 1 < a.len() {
        assert(a.drop_last().take(i + 1) =~= a.take(i + 1));
        lemma_eval_fields_err(c, d, mode, st0, a.drop_last(), f, i);
    } else {
        assert(a.take(i + 1) =~= a);
    }
}

// ------------------------------------------------------------------ code: statements

impl Interp {
    fn bind_x(&mut self, name: &String, v: Value, Ghost(cfg): Ghost<Config>)
        requires
            old(self).wf(cfg),
        ensures
            final(self).wf(cfg),
            final(self).env@.len() == old(self).env@.len(),
            final(self).log() == old(self).log(),
            final(self).st() == bind(old(self).st(), name@, v@),
    {
        let n = self.env.len();
        if n == 0 {
            return;
        }
        let ghost sc = self.env@[n - 1]@;
        let ghost x = (*name, v);
        match last_key(&self.env[n - 1], name) {
            Some(j) => {
                self.env[n - 1].set(j, (name.clone(), v));
                proof {
                    lemma_vscope_update(sc, j as int, x);
                }
            },
            None => {
                self.env[n - 1].push((name.clone(), v));
                proof {
                    lemma_vscope_push(sc, x);
                }
            },
        }
        proof {
            assert(env_v(self.env@) =~= env_v(old(self).env@).update(n - 1, env_v(old(self).env@).last().insert(name@, x.1@)));
        }
    }

    fn write_var_x(&mut self, name: &String, v: Value, Ghost(cfg): Ghost<Config>) -> (r: Result<(), RunError>)
        requires
            old(self).wf(cfg),
        ensures
            final(self).wf(cfg),
            final(self).env@.len() == old(self).env@.len(),
            final(self).log() == old(self).log(),
            (final(self).st(), match r {
                Ok(_) => Ok::<(), RunErrorV>(()),
                Err(e) => Err(e@),
            }) == write_var(old(self).st(), name@, v@),
    {
        match self.find_var(name) {
            None => {
                let mut m = owned("variable indéfinie ");
                let q = crate::sema::quoted_x(name.as_str());
                push_text(&mut m, q.as_str());
                Err(RunError::Msg(m))
            },
            Some((i, j)) => {
                let ghost sc = self.env@[i as int]@;
                let ghost x = (*name, v);
                self.env[i].set(j, (name.clone(), v));
                proof {
                    lemma_vscope_update(sc, j as int, x);
                    assert(env_v(self.env@) =~= env_v(old(self).env@).update(i as int, env_v(old(self).env@)[i as int].insert(name@, x.1@)));
                }
                Ok(())
            },
        }
    }

    fn eval_cond_x(&mut self, items: &Vec<Item>, tb: &Tables, mode: Mode, e: &Expr, fuel: u64) -> (r: Result<bool, RunError>)
        requires
            old(self).wf(tb.config()),
            tb.ok(items_v(items@)),
        ensures
            final(self).wf(tb.config()),
            final(self).env@.len() == old(self).env@.len(),
            extends(final(self).log(), old(self).log()),
            forall|d: Seq<i64>| #[trigger] agrees(final(self).log(), d)
                ==> eval_cond(ctx_of(items_v(items@), tb.config()), d, mode, old(self).st(), e@, fuel as nat) == (final(self).st(), match r {
                    Ok(b) => Ok::<bool, RunErrorV>(b),
                    Err(e) => Err(e@),
                }),
        decreases fuel, expr_size(e@), 4int,
    {
        let m = Mode { in_tour: mode.in_tour, tour_base: mode.tour_base, perception: true };
        proof {
            assert(m == Mode { perception: true, ..mode });
        }
        let r = self.eval_x(items, tb, m, e, fuel);
        match r {
            Err(err) => Err(err),
            Ok(v) => as_bool_x(&v),
        }
    }

    fn exec_block_x(&mut self, items: &Vec<Item>, tb: &Tables, mode: Mode, b: &Block, fuel: u64) -> (r: Result<XFlow, RunError>)
        requires
            old(self).wf(tb.config()),
            tb.ok(items_v(items@)),
        ensures
            final(self).wf(tb.config()),
            final(self).env@.len() == old(self).env@.len(),
            extends(final(self).log(), old(self).log()),
            forall|d: Seq<i64>| #[trigger] agrees(final(self).log(), d)
                ==> exec_block(ctx_of(items_v(items@), tb.config()), d, mode, old(self).st(), b@, fuel as nat) == (final(self).st(), fv(r)),
        decreases fuel, block_size(b@), 1int,
    {
        let ghost st0 = self.st();
        self.env.push(Vec::new());
        proof {
            assert(vscope_map(Seq::<(String, Value)>::empty()) =~= Map::<Seq<char>, ValueV>::empty());
            assert(self.st() == St { env: st0.env.push(Map::empty()), ..st0 }) by {
                assert(env_v(self.env@) =~= st0.env.push(Map::empty()));
            }
        }
        let r = self.exec_stmts_x(items, tb, mode, b, fuel);
        let ghost st1 = self.st();
        let _ = self.env.pop();
        proof {
            assert(self.st() == St { env: st1.env.drop_last(), ..st1 }) by {
                assert(env_v(self.env@) =~= st1.env.drop_last());
            }
        }
        r
    }

    #[verifier::spinoff_prover]
    #[verifier::rlimit(80)]
    fn exec_stmts_x(&mut self, items: &Vec<Item>, tb: &Tables, mode: Mode, b: &Block, fuel: u64) -> (r: Result<XFlow, RunError>)
        requires
            old(self).wf(tb.config()),
            tb.ok(items_v(items@)),
        ensures
            final(self).wf(tb.config()),
            final(self).env@.len() == old(self).env@.len(),
            extends(final(self).log(), old(self).log()),
            forall|d: Seq<i64>| #[trigger] agrees(final(self).log(), d)
                ==> exec_stmts(ctx_of(items_v(items@), tb.config()), d, mode, old(self).st(), b@.stmts, fuel as nat) == (final(self).st(), fv(r)),
        decreases fuel, stmts_size(b@.stmts), 0int,
    {
        let ghost c = ctx_of(items_v(items@), tb.config());
        let ghost st0 = self.st();
        let ghost l0 = self.log();
        proof {
            lemma_extends_refl(l0);
        }
        let ghost s = b@.stmts;
        proof {
            lemma_stmts_v(b.stmts@);
            assert(s.take(0) =~= Seq::<StmtV>::empty());
        }
        let mut i: usize = 0;
        while i < b.stmts.len()
            invariant
                s == b@.stmts,
                s.len() == b.stmts@.len(),
                forall|j: int| 0 <= j < s.len() ==> #[trigger] s[j] == b.stmts@[j]@,
                i <= s.len(),
                self.wf(tb.config()),
                tb.ok(items_v(items@)),
                c == ctx_of(items_v(items@), tb.config()),
                self.env@.len() == old(self).env@.len(),
                extends(self.log(), l0),
                l0 == old(self).log(),
                st0 == old(self).st(),
                forall|d: Seq<i64>| #[trigger] agrees(self.log(), d)
                    ==> exec_stmts(c, d, mode, st0, s.take(i as int), fuel as nat) == (self.st(), Ok::<Flow, RunErrorV>(Flow::Normal)),
            decreases s.len() - i,
        {
            proof {
                lemma_stmts_size_index(s, i as int);
                assert(s.take(i + 1).drop_last() =~= s.take(i as int));
            }
            let ghost li = self.log();
            let r = self.exec_stmt_x(items, tb, mode, &b.stmts[i], fuel);
            proof {
                lemma_extends_trans(l0, li, self.log());
                assert forall|d: Seq<i64>| #[trigger] agrees(self.log(), d) implies
                    exec_stmts(c, d, mode, st0, s.take(i + 1), fuel as nat) == (self.st(), fv(r)) by {
                    lemma_agrees(li, self.log(), d);
                }
            }
            match r {
                Ok(XFlow::Normal) => {},
                _ => {
                    proof {
                        assert forall|d: Seq<i64>| #[trigger] agrees(self.log(), d) implies
                            exec_stmts(c, d, mode, st0, s, fuel as nat) == (self.st(), fv(r)) by {
                            lemma_exec_stmts_stop(c, d, mode, st0, s, fuel as nat, i as int);
                        }
                    }
                    return r;
                },
            }
            i += 1;
        }
        proof {
            assert(s.take(i as int) =~= s);
        }
        Ok(XFlow::Normal)
    }

    fn exec_stmt_x(&mut self, items: &Vec<Item>, tb: &Tables, mode: Mode, s: &Stmt, fuel: u64) -> (r: Result<XFlow, RunError>)
        requires
            old(self).wf(tb.config()),
            tb.ok(items_v(items@)),
        ensures
            final(self).wf(tb.config()),
            final(self).env@.len() == old(self).env@.len(),
            extends(final(self).log(), old(self).log()),
            forall|d: Seq<i64>| #[trigger] agrees(final(self).log(), d)
                ==> exec_stmt(ctx_of(items_v(items@), tb.config()), d, mode, old(self).st(), s@, fuel as nat) == (final(self).st(), fv(r)),
        decreases fuel, stmt_size(s@), 3int,
    {
        proof {
            lemma_extends_refl(self.log());
        }
        match s {
            Stmt::Loot { name, value, .. } | Stmt::Ban { name, value, .. } => self.decl_x(items, tb, mode, name, value, fuel),
            Stmt::Assign { .. } => self.assign_x(items, tb, mode, s, fuel),
            Stmt::Tour(_) => self.tour_x(items, tb, mode, s, fuel),
            Stmt::Passer => {
                self.rt.end_turn();
                Ok(XFlow::Normal)
            },
            Stmt::Farm { .. } => self.farm_x(items, tb, mode, s, fuel),
            Stmt::Grind { .. } => self.grind_x(items, tb, mode, s, fuel),
            Stmt::Detect { .. } => self.detect_x(items, tb, mode, s, fuel),
            Stmt::Gg(opt) => match opt {
                None => Ok(XFlow::Return(Value::Unit)),
                Some(e) => {
                    let r = self.eval_x(items, tb, mode, e, fuel);
                    match r {
                        Err(err) => Err(err),
                        Ok(v) => Ok(XFlow::Return(v)),
                    }
                },
            },
            Stmt::Up(_) => self.up_x(items, tb, mode, s, fuel),
            Stmt::Afk(_) => self.afk_x(items, tb, mode, s, fuel),
            Stmt::Expr(e) => {
                let r = self.eval_x(items, tb, mode, e, fuel);
                match r {
                    Err(err) => Err(err),
                    Ok(_) => Ok(XFlow::Normal),
                }
            },
        }
    }

    fn decl_x(&mut self, items: &Vec<Item>, tb: &Tables, mode: Mode, name: &String, value: &Expr, fuel: u64) -> (r: Result<XFlow, RunError>)
        requires
            old(self).wf(tb.config()),
            tb.ok(items_v(items@)),
        ensures
            final(self).wf(tb.config()),
            final(self).env@.len() == old(self).env@.len(),
            extends(final(self).log(), old(self).log()),
            forall|d: Seq<i64>| #[trigger] agrees(final(self).log(), d)
                ==> decl_stmt(ctx_of(items_v(items@), tb.config()), d, mode, old(self).st(), name@, value@, fuel as nat) == (final(self).st(), fv(r)),
        decreases fuel, expr_size(value@) + 1, 2int,
    {
        proof {
            lemma_extends_refl(self.log());
        }
        let r = self.eval_x(items, tb, mode, value, fuel);
        let v = match r {
            Err(err) => return Err(err),
            Ok(v) => v,
        };
        if mode.in_tour {
            let n = self.rt.assign_pa();
            match self.spend_x(n, Ghost(tb.config())) {
                Ok(_) => {},
                Err(err) => return Err(err),
            }
        }
        self.bind_x(name, v, Ghost(tb.config()));
        Ok(XFlow::Normal)
    }

    #[verifier::spinoff_prover]
    #[verifier::rlimit(60)]
    fn assign_x(&mut self, items: &Vec<Item>, tb: &Tables, mode: Mode, s: &Stmt, fuel: u64) -> (r: Result<XFlow, RunError>)
        requires
            old(self).wf(tb.config()),
            tb.ok(items_v(items@)),
            s@ is Assign,
        ensures
            final(self).wf(tb.config()),
            final(self).env@.len() == old(self).env@.len(),
            extends(final(self).log(), old(self).log()),
            forall|d: Seq<i64>| #[trigger] agrees(final(self).log(), d)
                ==> exec_stmt(ctx_of(items_v(items@), tb.config()), d, mode, old(self).st(), s@, fuel as nat) == (final(self).st(), fv(r)),
        decreases fuel, stmt_size(s@), 2int,
    {
        proof {
            lemma_extends_refl(self.log());
        }
        match s {
            Stmt::Assign { name, op, value, .. } => {
                let r = self.eval_x(items, tb, mode, value, fuel);
                let rhs = match r {
                    Err(err) => return Err(err),
                    Ok(v) => v,
                };
                let newv = match op {
                    AssignOp::Replace => rhs,
                    _ => {
                        let cur = match self.read_var_x(mode, name, Ghost(tb.config())) {
                            Err(err) => return Err(err),
                            Ok(c) => c,
                        };
                        let a = match as_int_x(&cur) {
                            Err(err) => return Err(err),
                            Ok(a) => a,
                        };
                        let b = match as_int_x(&rhs) {
                            Err(err) => return Err(err),
                            Ok(b) => b,
                        };
                        match op {
                            AssignOp::Add => Value::Int(a.wrapping_add(b)),
                            _ => Value::Int(a.wrapping_sub(b)),
                        }
                    },
                };
                if mode.in_tour {
                    let n = self.rt.assign_pa();
                    match self.spend_x(n, Ghost(tb.config())) {
                        Ok(_) => {},
                        Err(err) => return Err(err),
                    }
                }
                match self.write_var_x(name, newv, Ghost(tb.config())) {
                    Err(err) => Err(err),
                    Ok(_) => Ok(XFlow::Normal),
                }
            },
            _ => Err(RunError::Banni),
        }
    }

    fn tour_x(&mut self, items: &Vec<Item>, tb: &Tables, mode: Mode, s: &Stmt, fuel: u64) -> (r: Result<XFlow, RunError>)
        requires
            old(self).wf(tb.config()),
            tb.ok(items_v(items@)),
            s@ is Tour,
        ensures
            final(self).wf(tb.config()),
            final(self).env@.len() == old(self).env@.len(),
            extends(final(self).log(), old(self).log()),
            forall|d: Seq<i64>| #[trigger] agrees(final(self).log(), d)
                ==> exec_stmt(ctx_of(items_v(items@), tb.config()), d, mode, old(self).st(), s@, fuel as nat) == (final(self).st(), fv(r)),
        decreases fuel, stmt_size(s@), 2int,
    {
        match s {
            Stmt::Tour(b) => {
                self.rt.start_turn();
                let m = Mode { in_tour: true, tour_base: self.env.len(), perception: mode.perception };
                self.exec_block_x(items, tb, m, b, fuel)
            },
            _ => Err(RunError::Banni),
        }
    }

    #[verifier::spinoff_prover]
    #[verifier::rlimit(60)]
    fn farm_x(&mut self, items: &Vec<Item>, tb: &Tables, mode: Mode, s: &Stmt, fuel: u64) -> (r: Result<XFlow, RunError>)
        requires
            old(self).wf(tb.config()),
            tb.ok(items_v(items@)),
            s@ is Farm,
        ensures
            final(self).wf(tb.config()),
            final(self).env@.len() == old(self).env@.len(),
            extends(final(self).log(), old(self).log()),
            forall|d: Seq<i64>| #[trigger] agrees(final(self).log(), d)
                ==> exec_stmt(ctx_of(items_v(items@), tb.config()), d, mode, old(self).st(), s@, fuel as nat) == (final(self).st(), fv(r)),
        decreases fuel, stmt_size(s@), 2int,
    {
        let ghost c = ctx_of(items_v(items@), tb.config());
        let ghost st0 = self.st();
        let ghost l0 = self.log();
        proof {
            lemma_extends_refl(l0);
        }
        match s {
            Stmt::Farm { cond, body } => {
                let mut f = fuel;
                loop
                    invariant
                        f <= fuel,
                        s@ == (StmtV::Farm { cond: cond@, body: body@ }),
                        self.wf(tb.config()),
                        tb.ok(items_v(items@)),
                        c == ctx_of(items_v(items@), tb.config()),
                        self.env@.len() == old(self).env@.len(),
                        extends(self.log(), l0),
                        l0 == old(self).log(),
                        st0 == old(self).st(),
                        forall|d: Seq<i64>| #[trigger] agrees(self.log(), d)
                            ==> farm_loop(c, d, mode, st0, cond@, body@, fuel as nat) == farm_loop(c, d, mode, self.st(), cond@, body@, f as nat),
                    decreases f,
                {
                    if f == 0 {
                        return Err(RunError::Msg(owned("exécution interrompue : profondeur maximale atteinte")));
                    }
                    let ghost li = self.log();
                    let ghost sti = self.st();
                    let rc = self.eval_cond_x(items, tb, mode, cond, f - 1);
                    let ghost lc = self.log();
                    let cnd = match rc {
                        Err(err) => {
                    proof {
                        lemma_extends_trans(l0, li, self.log());
                        assert forall|d: Seq<i64>| #[trigger] agrees(self.log(), d) implies
                            exec_stmt(c, d, mode, st0, s@, fuel as nat) == (self.st(), fv(Err::<XFlow, RunError>(err))) by {
                            lemma_agrees(li, self.log(), d);
                                
                        }
                    }
                            return Err(err);
                        },
                        Ok(b) => b,
                    };
                    if !cnd {
                    proof {
                        lemma_extends_trans(l0, li, self.log());
                        assert forall|d: Seq<i64>| #[trigger] agrees(self.log(), d) implies
                            exec_stmt(c, d, mode, st0, s@, fuel as nat) == (self.st(), fv(Ok::<XFlow, RunError>(XFlow::Normal))) by {
                            lemma_agrees(li, self.log(), d);
                        }
                    }
                        return Ok(XFlow::Normal);
                    }
                    let rb = self.exec_block_x(items, tb, mode, body, f - 1);
                    match rb {
                        Ok(XFlow::Normal) => {},
                        _ => {
                            proof {
                                lemma_extends_trans(l0, li, lc);
                                lemma_extends_trans(l0, lc, self.log());
                                lemma_extends_trans(li, lc, self.log());
                                assert forall|d: Seq<i64>| #[trigger] agrees(self.log(), d) implies
                                    exec_stmt(c, d, mode, st0, s@, fuel as nat) == (self.st(), fv(rb)) by {
                                    lemma_agrees(lc, self.log(), d);
                                    lemma_agrees(li, self.log(), d);
                                }
                            }
                            return rb;
                        },
                    }
                    proof {
                        lemma_extends_trans(l0, li, lc);
                        lemma_extends_trans(l0, lc, self.log());
                        lemma_extends_trans(li, lc, self.log());
                        assert forall|d: Seq<i64>| #[trigger] agrees(self.log(), d) implies
                            farm_loop(c, d, mode, st0, cond@, body@, fuel as nat) == farm_loop(c, d, mode, self.st(), cond@, body@, (f - 1) as nat) by {
                            lemma_agrees(lc, self.log(), d);
                            lemma_agrees(li, self.log(), d);
                        }
                    }
                    f = f - 1;
                }
            },
            _ => Err(RunError::Banni),
        }
    }

    #[verifier::spinoff_prover]
    #[verifier::rlimit(80)]
    fn grind_x(&mut self, items: &Vec<Item>, tb: &Tables, mode: Mode, s: &Stmt, fuel: u64) -> (r: Result<XFlow, RunError>)
        requires
            old(self).wf(tb.config()),
            tb.ok(items_v(items@)),
            s@ is Grind,
        ensures
            final(self).wf(tb.config()),
            final(self).env@.len() == old(self).env@.len(),
            extends(final(self).log(), old(self).log()),
            forall|d: Seq<i64>| #[trigger] agrees(final(self).log(), d)
                ==> exec_stmt(ctx_of(items_v(items@), tb.config()), d, mode, old(self).st(), s@, fuel as nat) == (final(self).st(), fv(r)),
        decreases fuel, stmt_size(s@), 2int,
    {
        let ghost c = ctx_of(items_v(items@), tb.config());
        let ghost st0 = self.st();
        let ghost l0 = self.log();
        proof {
            lemma_extends_refl(l0);
        }
        match s {
            Stmt::Grind { var, from, to, body } => {
                let ra = self.eval_x(items, tb, mode, from, fuel);
                let ghost l1 = self.log();
                let va = match ra {
                    Err(err) => return Err(err),
                    Ok(v) => v,
                };
                let lo = match as_int_x(&va) {
                    Err(err) => return Err(err),
                    Ok(x) => x,
                };
                let rb = self.eval_x(items, tb, mode, to, fuel);
                let vb = match rb {
                    Err(err) => {
                    proof {
                        lemma_extends_trans(l0, l1, self.log());
                        assert forall|d: Seq<i64>| #[trigger] agrees(self.log(), d) implies
                            exec_stmt(c, d, mode, st0, s@, fuel as nat) == (self.st(), fv(Err::<XFlow, RunError>(err))) by {
                            lemma_agrees(l1, self.log(), d);
                        }
                    }
                        return Err(err);
                    },
                    Ok(v) => v,
                };
                let hi = match as_int_x(&vb) {
                    Err(err) => {
                    proof {
                        lemma_extends_trans(l0, l1, self.log());
                        assert forall|d: Seq<i64>| #[trigger] agrees(self.log(), d) implies
                            exec_stmt(c, d, mode, st0, s@, fuel as nat) == (self.st(), fv(Err::<XFlow, RunError>(err))) by {
                            lemma_agrees(l1, self.log(), d);
                        }
                    }
                        return Err(err);
                    },
                    Ok(x) => x,
                };
                proof {
                    lemma_extends_trans(l0, l1, self.log());
                    assert forall|d: Seq<i64>| #[trigger] agrees(self.log(), d) implies
                        exec_stmt(c, d, mode, st0, s@, fuel as nat) == grind_loop(c, d, mode, self.st(), var@, lo, hi, body@, fuel as nat) by {
                        lemma_agrees(l1, self.log(), d);
                    }
                }
                let mut i = lo;
                let mut f = fuel;
                loop
                    invariant
                        f <= fuel,
                        s@ == (StmtV::Grind { var: var@, from: from@, to: to@, body: body@ }),
                        self.wf(tb.config()),
                        tb.ok(items_v(items@)),
                        c == ctx_of(items_v(items@), tb.config()),
                        self.env@.len() == old(self).env@.len(),
                        extends(self.log(), l0),
                        l0 == old(self).log(),
                        st0 == old(self).st(),
                        forall|d: Seq<i64>| #[trigger] agrees(self.log(), d)
                            ==> exec_stmt(c, d, mode, st0, s@, fuel as nat) == grind_loop(c, d, mode, self.st(), var@, i, hi, body@, f as nat),
                    decreases f,
                {
                    if i > hi {
                        return Ok(XFlow::Normal);
                    }
                    if f == 0 {
                        return Err(RunError::Msg(owned("exécution interrompue : profondeur maximale atteinte")));
                    }
                    let ghost li = self.log();
                    let ghost sti = self.st();
                    let mut scope: Vec<(String, Value)> = Vec::new();
                    scope.push((var.clone(), Value::Int(i)));
                    self.env.push(scope);
                    proof {
                        assert(vscope_map(scope@) =~= Map::<Seq<char>, ValueV>::empty().insert(var@, ValueV::Int(i))) by {
                            assert(scope@.drop_last() =~= Seq::<(String, Value)>::empty());
                            assert(vscope_map(Seq::<(String, Value)>::empty()) =~= Map::<Seq<char>, ValueV>::empty());
                        }
                        assert(self.st() == St { env: sti.env.push(Map::<Seq<char>, ValueV>::empty().insert(var@, ValueV::Int(i))), ..sti }) by {
                            assert(env_v(self.env@) =~= sti.env.push(Map::<Seq<char>, ValueV>::empty().insert(var@, ValueV::Int(i))));
                        }
                    }
                    let r = self.exec_block_x(items, tb, mode, body, f - 1);
                    let ghost st1 = self.st();
                    let _ = self.env.pop();
                    proof {
                        assert(self.st() == St { env: st1.env.drop_last(), ..st1 }) by {
                            assert(env_v(self.env@) =~= st1.env.drop_last());
                        }
                        lemma_extends_trans(l0, li, self.log());
                    }
                    match r {
                        Ok(XFlow::Normal) => {},
                        _ => {
                    proof {
                        lemma_extends_trans(l0, li, self.log());
                        assert forall|d: Seq<i64>| #[trigger] agrees(self.log(), d) implies
                            exec_stmt(c, d, mode, st0, s@, fuel as nat) == (self.st(), fv(r)) by {
                            lemma_agrees(li, self.log(), d);
                        }
                    }
                            return r;
                        },
                    }
                    if i == hi {
                    proof {
                        lemma_extends_trans(l0, li, self.log());
                        assert forall|d: Seq<i64>| #[trigger] agrees(self.log(), d) implies
                            exec_stmt(c, d, mode, st0, s@, fuel as nat) == (self.st(), fv(Ok::<XFlow, RunError>(XFlow::Normal))) by {
                            lemma_agrees(li, self.log(), d);
                        }
                    }
                        return Ok(XFlow::Normal);
                    }
                    proof {
                        lemma_extends_trans(l0, li, self.log());
                        assert forall|d: Seq<i64>| #[trigger] agrees(self.log(), d) implies
                            exec_stmt(c, d, mode, st0, s@, fuel as nat) == grind_loop(c, d, mode, self.st(), var@, (i + 1) as i64, hi, body@, (f - 1) as nat) by {
                            lemma_agrees(li, self.log(), d);
                        }
                    }
                    i = i + 1;
                    f = f - 1;
                }
            },
            _ => Err(RunError::Banni),
        }
    }

    #[verifier::spinoff_prover]
    #[verifier::rlimit(80)]
    fn detect_x(&mut self, items: &Vec<Item>, tb: &Tables, mode: Mode, s: &Stmt, fuel: u64) -> (r: Result<XFlow, RunError>)
        requires
            old(self).wf(tb.config()),
            tb.ok(items_v(items@)),
            s@ is Detect,
        ensures
            final(self).wf(tb.config()),
            final(self).env@.len() == old(self).env@.len(),
            extends(final(self).log(), old(self).log()),
            forall|d: Seq<i64>| #[trigger] agrees(final(self).log(), d)
                ==> exec_stmt(ctx_of(items_v(items@), tb.config()), d, mode, old(self).st(), s@, fuel as nat) == (final(self).st(), fv(r)),
        decreases fuel, stmt_size(s@), 2int,
    {
        let ghost c = ctx_of(items_v(items@), tb.config());
        let ghost st0 = self.st();
        let ghost l0 = self.log();
        proof {
            lemma_extends_refl(l0);
        }
        match s {
            Stmt::Detect { cond, then_branch, else_branch } => {
                let rc = self.eval_cond_x(items, tb, mode, cond, fuel);
                let ghost l1 = self.log();
                proof {
                    lemma_extends_refl(l1);
                }
                let cnd = match rc {
                    Err(err) => return Err(err),
                    Ok(b) => b,
                };
                let r = if cnd {
                    self.exec_block_x(items, tb, mode, then_branch, fuel)
                } else {
                    match else_branch {
                        Some(eb) => self.exec_block_x(items, tb, mode, eb, fuel),
                        None => Ok(XFlow::Normal),
                    }
                };
                proof {
                        lemma_extends_trans(l0, l1, self.log());
                        assert forall|d: Seq<i64>| #[trigger] agrees(self.log(), d) implies
                            exec_stmt(c, d, mode, st0, s@, fuel as nat) == (self.st(), fv(r)) by {
                            lemma_agrees(l1, self.log(), d);
                        }
                }
                r
            },
            _ => Err(RunError::Banni),
        }
    }

    fn up_x(&mut self, items: &Vec<Item>, tb: &Tables, mode: Mode, s: &Stmt, fuel: u64) -> (r: Result<XFlow, RunError>)
        requires
            old(self).wf(tb.config()),
            tb.ok(items_v(items@)),
            s@ is Up,
        ensures
            final(self).wf(tb.config()),
            final(self).env@.len() == old(self).env@.len(),
            extends(final(self).log(), old(self).log()),
            forall|d: Seq<i64>| #[trigger] agrees(final(self).log(), d)
                ==> exec_stmt(ctx_of(items_v(items@), tb.config()), d, mode, old(self).st(), s@, fuel as nat) == (final(self).st(), fv(r)),
        decreases fuel, stmt_size(s@), 2int,
    {
        proof {
            lemma_extends_refl(self.log());
        }
        match s {
            Stmt::Up(e) => {
                let r = self.eval_x(items, tb, mode, e, fuel);
                let v = match r {
                    Err(err) => return Err(err),
                    Ok(v) => v,
                };
                if mode.in_tour {
                    let n = self.rt.up_pa();
                    match self.spend_x(n, Ghost(tb.config())) {
                        Ok(_) => {},
                        Err(err) => return Err(err),
                    }
                }
                if self.rt.config().bucket_ms == 0 {
                    return Err(RunError::Msg(owned("attempt to divide by zero")));
                }
                let text = display_x(&v);
                match self.rt.up(text) {
                    Ok(_) => Ok(XFlow::Normal),
                    Err(_) => Err(RunError::Banni),
                }
            },
            _ => Err(RunError::Banni),
        }
    }

    fn afk_x(&mut self, items: &Vec<Item>, tb: &Tables, mode: Mode, s: &Stmt, fuel: u64) -> (r: Result<XFlow, RunError>)
        requires
            old(self).wf(tb.config()),
            tb.ok(items_v(items@)),
            s@ is Afk,
        ensures
            final(self).wf(tb.config()),
            final(self).env@.len() == old(self).env@.len(),
            extends(final(self).log(), old(self).log()),
            forall|d: Seq<i64>| #[trigger] agrees(final(self).log(), d)
                ==> exec_stmt(ctx_of(items_v(items@), tb.config()), d, mode, old(self).st(), s@, fuel as nat) == (final(self).st(), fv(r)),
        decreases fuel, stmt_size(s@), 2int,
    {
        proof {
            lemma_extends_refl(self.log());
        }
        match s {
            Stmt::Afk(e) => {
                let r = self.eval_x(items, tb, mode, e, fuel);
                let v = match r {
                    Err(err) => return Err(err),
                    Ok(v) => v,
                };
                let ms = match as_int_x(&v) {
                    Err(err) => return Err(err),
                    Ok(ms) => ms,
                };
                if self.rt.config().bucket_ms == 0 {
                    return Err(RunError::Msg(owned("attempt to divide by zero")));
                }
                match self.rt.afk(ms) {
                    Ok(_) => Ok(XFlow::Normal),
                    Err(_) => Err(RunError::Banni),
                }
            },
            _ => Err(RunError::Banni),
        }
    }

    fn call_bot_x(&mut self, items: &Vec<Item>, tb: &Tables, mode: Mode, b: &Bot, vals: Vec<Value>, fuel: u64) -> (r: Result<Value, RunError>)
        requires
            old(self).wf(tb.config()),
            tb.ok(items_v(items@)),
        ensures
            final(self).wf(tb.config()),
            final(self).env@.len() == old(self).env@.len(),
            extends(final(self).log(), old(self).log()),
            forall|d: Seq<i64>| #[trigger] agrees(final(self).log(), d)
                ==> call_bot(ctx_of(items_v(items@), tb.config()), d, mode, old(self).st(), b@, vals@.map_values(|v: Value| v@), fuel as nat) == (final(self).st(), rv(r)),
        decreases fuel, block_size(b@.body) + 1, 0int,
    {
        let ghost st0 = self.st();
        let ghost vs = vals@.map_values(|v: Value| v@);
        let mut scope: Vec<(String, Value)> = Vec::new();
        let mut k: usize = 0;
        proof {
            assert(vscope_map(scope@) =~= param_scope(b@, vs.take(0)));
        }
        while k < b.params.len() && k < vals.len()
            invariant
                vs == vals@.map_values(|v: Value| v@),
                b@.params.len() == b.params@.len(),
                k <= b.params@.len(),
                k <= vals@.len(),
                vscope_map(scope@) == param_scope(b@, vs.take(k as int)),
            decreases b.params.len() - k,
        {
            let ghost prev = scope@;
            scope.push((b.params[k].name.clone(), copy_value(&vals[k])));
            proof {
                assert(scope@.drop_last() =~= prev);
                assert(vs.take(k + 1).drop_last() =~= vs.take(k as int));
                assert(b@.params[k as int] == b.params@[k as int]@);
            }
            k += 1;
        }
        proof {
            if vs.len() <= b@.params.len() {
                assert(vs.take(k as int) =~= vs);
            } else {
                assert(vs.take(b@.params.len() as int) =~= vs.take(k as int));
            }
        }
        let mut saved: Vec<Vec<(String, Value)>> = Vec::new();
        saved.push(scope);
        std::mem::swap(&mut self.env, &mut saved);
        proof {
            assert(env_v(self.env@) =~= seq![param_scope(b@, vs)]);
        }
        let inner = Mode { in_tour: false, tour_base: mode.tour_base, perception: mode.perception };
        proof {
            assert(inner == Mode { in_tour: false, ..mode });
        }
        let r = self.exec_block_x(items, tb, inner, &b.body, fuel);
        std::mem::swap(&mut self.env, &mut saved);
        match r {
            Err(err) => Err(err),
            Ok(XFlow::Return(v)) => Ok(v),
            Ok(XFlow::Normal) => Ok(Value::Unit),
        }
    }
}

/// A statement that does not continue normally ends the list.
proof fn lemma_exec_stmts_stop(c: Ctx, d: Seq<i64>, mode: Mode, st0: St, s: Seq<StmtV>, f: nat, i: int)
    requires
        0 <= i < s.len(),
        !(exec_stmts(c, d, mode, st0, s.take(i + 1), f).1 == Ok::<Flow, RunErrorV>(Flow::Normal)),
    ensures
        exec_stmts(c, d, mode, st0, s, f) == exec_stmts(c, d, mode, st0, s.take(i + 1), f),
    decreases s.len() - i,
{
    if i + 1 < s.len() {
        assert(s.drop_last().take(i + 1) =~= s.take(i + 1));
        lemma_exec_stmts_stop(c, d, mode, st0, s.drop_last(), f, i);
    } else {
        assert(s.take(i + 1) =~= s);
    }
}

// ------------------------------------------------------------------ code: a whole run

/// Outcome of a run: its result and the messages `up` showed, in order.
pub struct Outcome {
    pub result: Result<(), RunError>,
    pub output: Vec<String>,
}

pub open spec fn unit_v(r: Result<(), RunError>) -> Result<(), RunErrorV> {
    match r {
        Ok(_) => Ok(()),
        Err(e) => Err(e@),
    }
}

/// Every `pano` and `perso` has fewer entries than `i64::MAX`.
pub open spec fn decls_fit(items: Seq<ItemV>) -> bool {
    forall|i: int| 0 <= i < items.len() ==> match #[trigger] items[i] {
        ItemV::Pano(p) => p.variants.len() <= i64::MAX,
        ItemV::Perso(p) => p.fields.len() <= i64::MAX,
        _ => true,
    }
}

fn zip_names_tags(names: Vec<String>, tags: &Vec<i64>) -> (r: Vec<(String, i64)>)
    requires
        names@.len() == tags@.len(),
    ensures
        r@.map_values(|q: (String, i64)| (q.0@, q.1)) == zip_tags(names@.map_values(|n: String| n@), tags@),
{
    let mut r: Vec<(String, i64)> = Vec::new();
    let mut i: usize = 0;
    while i < names.len()
        invariant
            names@.len() == tags@.len(),
            i <= names@.len(),
            r@.len() == i,
            forall|j: int| 0 <= j < i ==> (#[trigger] r@[j]).0@ == names@[j]@ && r@[j].1 == tags@[j],
        decreases names.len() - i,
    {
        r.push((names[i].clone(), tags[i]));
        i += 1;
    }
    proof {
        assert(r@.map_values(|q: (String, i64)| (q.0@, q.1)) =~= zip_tags(names@.map_values(|n: String| n@), tags@));
    }
    r
}

fn variant_names(p: &crate::ast::Pano) -> (r: Vec<String>)
    ensures
        r@.map_values(|n: String| n@) == p@.variants.map_values(|v: VariantV| v.name),
        r@.len() == p.variants@.len(),
{
    let mut r: Vec<String> = Vec::new();
    let mut i: usize = 0;
    while i < p.variants.len()
        invariant
            i <= p.variants@.len(),
            r@.len() == i,
            forall|j: int| 0 <= j < i ==> (#[trigger] r@[j])@ == p.variants@[j].name@,
        decreases p.variants.len() - i,
    {
        r.push(p.variants[i].name.clone());
        i += 1;
    }
    proof {
        assert(r@.map_values(|n: String| n@) =~= p@.variants.map_values(|v: VariantV| v.name));
    }
    r
}

fn field_names(p: &crate::ast::Perso) -> (r: Vec<String>)
    ensures
        r@.map_values(|n: String| n@) == p@.fields.map_values(|x: FieldV| x.name),
        r@.len() == p.fields@.len(),
{
    let mut r: Vec<String> = Vec::new();
    let mut i: usize = 0;
    while i < p.fields.len()
        invariant
            i <= p.fields@.len(),
            r@.len() == i,
            forall|j: int| 0 <= j < i ==> (#[trigger] r@[j])@ == p.fields@[j].name@,
        decreases p.fields.len() - i,
    {
        r.push(p.fields[i].name.clone());
        i += 1;
    }
    proof {
        assert(r@.map_values(|n: String| n@) =~= p@.fields.map_values(|x: FieldV| x.name));
    }
    r
}

/// The entry point: the last `connexion` block.
pub(crate) fn connexion_x(items: &Vec<Item>) -> (r: Option<&Block>)
    ensures
        match r {
            Some(b) => find_connexion(items_v(items@)) == Some(b@),
            None => find_connexion(items_v(items@)) is None,
        },
{
    let ghost iv = items_v(items@);
    let mut conn: Option<&Block> = None;
    let mut i: usize = 0;
    while i < items.len()
        invariant
            iv == items_v(items@),
            i <= items@.len(),
            match conn {
                Some(b) => find_connexion(iv.take(i as int)) == Some(b@),
                None => find_connexion(iv.take(i as int)) is None,
            },
        decreases items.len() - i,
    {
        proof {
            assert(iv.take(i + 1).drop_last() =~= iv.take(i as int));
            assert(iv.take(i + 1).last() == items@[i as int]@);
        }
        match &items[i] {
            Item::Connexion(b) => {
                conn = Some(b);
            },
            _ => {},
        }
        i += 1;
    }
    proof {
        assert(iv.take(i as int) =~= iv);
    }
    conn
}

/// The tags of every `pano` and `perso` after patch drift, or the message of the first bad pin.
pub(crate) fn tags_x(items: &Vec<Item>, seed: u64) -> (r: Result<Vec<(String, Vec<(String, i64)>)>, String>)
    requires
        decls_fit(items_v(items@)),
    ensures
        match r {
            Ok(t) => setup_error(items_v(items@)) is None && tags_v(t@) == tag_table(items_v(items@), seed),
            Err(m) => setup_error(items_v(items@)) == Some(m@),
        },
{
    let ghost iv = items_v(items@);
    let mut tags: Vec<(String, Vec<(String, i64)>)> = Vec::new();
    let mut i: usize = 0;
    proof {
        assert(tags_v(tags@) =~= tag_table(iv.take(0), seed));
    }
    while i < items.len()
        invariant
            iv == items_v(items@),
            decls_fit(iv),
            i <= items@.len(),
            setup_error(iv.take(i as int)) is None,
            tags_v(tags@) == tag_table(iv.take(i as int), seed),
        decreases items.len() - i,
    {
        proof {
            assert(iv.take(i + 1).drop_last() =~= iv.take(i as int));
            assert(iv.take(i + 1).last() == items@[i as int]@);
            assert(iv[i as int] == items@[i as int]@);
        }
        match &items[i] {
            Item::Pano(p) => {
                let pins = crate::sema::pins_of_variants(p);
                match layout(pins.as_slice(), seed) {
                    Err(e) => {
                        let mut m = owned("pano ");
                        let q = crate::sema::quoted_x(p.name.as_str());
                        push_text(&mut m, q.as_str());
                        push_text(&mut m, " : ");
                        push_text(&mut m, e.as_str());
                        proof {
                            lemma_setup_error_prefix(iv, i as int + 1);
                        }
                        return Err(m);
                    },
                    Ok(t) => {
                        let names = variant_names(p);
                        let pairs = zip_names_tags(names, &t);
                        tags.push((p.name.clone(), pairs));
                    },
                }
            },
            Item::Perso(p) => {
                let pins = crate::sema::pins_of_fields(p);
                match layout(pins.as_slice(), seed) {
                    Err(e) => {
                        let mut m = owned("perso ");
                        let q = crate::sema::quoted_x(p.name.as_str());
                        push_text(&mut m, q.as_str());
                        push_text(&mut m, " : ");
                        push_text(&mut m, e.as_str());
                        proof {
                            lemma_setup_error_prefix(iv, i as int + 1);
                        }
                        return Err(m);
                    },
                    Ok(t) => {
                        let names = field_names(p);
                        let pairs = zip_names_tags(names, &t);
                        tags.push((p.name.clone(), pairs));
                    },
                }
            },
            _ => {},
        }
        proof {
            assert(tags_v(tags@) =~= tag_table(iv.take(i + 1), seed));
        }
        i += 1;
    }
    proof {
        assert(iv.take(i as int) =~= iv);
    }
    Ok(tags)
}

/// Whether no sequence of draws leads the run to a place where the original panics.
pub open spec fn never_panics(p: ProgramV, seed: Option<u64>, patch_seed: Option<u64>) -> bool {
    forall|d: Seq<i64>| #[trigger] draws_fit(d, run_spec(p, seed, patch_seed, d).0.rolls)
        ==> !(run_spec(p, seed, patch_seed, d).1 matches Err(e) && is_panic(e))
}

/// Runs a program from its last `connexion` block.
///
/// The RNG seed is the program's `#seed`, else `seed` (the environment's); the patch seed
/// is `patch_seed` when given. The `pano`/`perso` pins are checked first (the first bad one
/// stops the run), then the program runs until it ends, fails or gets banned. Each random
/// draw lies between its bounds; otherwise the run is the one `run_spec` describes. Runs on
/// which the original panics are left out; `run_checked` takes them.
pub fn run(program: &Program, seed: Option<u64>, patch_seed: Option<u64>) -> (o: Outcome)
    requires
        decls_fit(program@.items),
        never_panics(program@, seed, patch_seed),
    ensures
        exists|d: Seq<i64>| {
            let (st, r) = #[trigger] run_spec(program@, seed, patch_seed, d);
            &&& draws_fit(d, st.rolls)
            &&& unit_v(o.result) == r
            &&& o.output@.map_values(|s: String| s@) == st.rt.out
        },
        !(o.result is Err && is_panic(unit_v(o.result)->Err_0)),
{
    run_any(program, seed, patch_seed)
}

#[verifier::spinoff_prover]
#[verifier::rlimit(80)]
fn run_any(program: &Program, seed: Option<u64>, patch_seed: Option<u64>) -> (o: Outcome)
    requires
        decls_fit(program@.items),
    ensures
        exists|d: Seq<i64>| {
            let (st, r) = #[trigger] run_spec(program@, seed, patch_seed, d);
            &&& draws_fit(d, st.rolls)
            &&& unit_v(o.result) == r
            &&& o.output@.map_values(|s: String| s@) == st.rt.out
        },
{
    let items = &program.items;
    let ghost iv = program@.items;
    proof {
        assert(iv == items_v(items@));
        assert(program@.pragmas == program.pragmas@.map_values(|p: crate::ast::Pragma| p@));
    }
    let mut cfg = pragma_config_x(&program.pragmas);
    if cfg.seed.is_none() {
        cfg.seed = seed;
    }
    match patch_seed {
        Some(ps) => {
            cfg.patch_seed = ps;
        },
        None => {},
    }
    proof {
        assert(cfg == run_config(program@, seed, patch_seed));
        crate::sema::lemma_pragma_prices(program@.pragmas);
    }
    let ghost st0 = St { rt: init_rt(cfg), env: Seq::empty(), pm_ids: Seq::empty(), rolls: Seq::empty() };
    let tags = match tags_x(items, cfg.patch_seed) {
        Err(m) => {
            proof {
                assert(init_rt(cfg).out =~= Seq::<Seq<char>>::empty());
                let d = Seq::<i64>::empty();
                assert(draws_fit(d, run_spec(program@, seed, patch_seed, d).0.rolls));
            }
            return Outcome { result: Err(RunError::Msg(m)), output: Vec::new() };
        },
        Ok(t) => t,
    };
    let conn = connexion_x(items);
    let blk = match conn {
        None => {
            proof {
                assert(init_rt(cfg).out =~= Seq::<Seq<char>>::empty());
                let d = Seq::<i64>::empty();
                assert(draws_fit(d, run_spec(program@, seed, patch_seed, d).0.rolls));
            }
            return Outcome { result: Err(RunError::Msg(owned("aucune connexion (point d'entrée)"))), output: Vec::new() };
        },
        Some(b) => b,
    };
    let costs = effective_costs(program, &cfg);
    let tb = Tables { cfg, costs, tags };
    proof {
        assert(tb.ok(iv));
        lemma_connexion_in(iv);
        let k = choose|k: int| 0 <= k < iv.len() && #[trigger] iv[k] == ItemV::Connexion(find_connexion(iv)->0);
        assert(iv[k] is Connexion);
    }
    let mut it = Interp {
        rt: Runtime::new(cfg),
        env: Vec::new(),
        pm_ids: Vec::new(),
        rolls: Ghost(Seq::empty()),
        draws: Ghost(Seq::empty()),
    };
    proof {
        assert(it.rt@ == init_rt(cfg)) by {
            assert(it.rt@.window =~= Seq::empty());
            assert(it.rt@.cooldowns =~= Seq::empty());
            assert(it.rt@.touched =~= Seq::empty());
            assert(it.rt@.out =~= Seq::empty());
        }
        assert(it.st() == st0) by {
            assert(env_v(it.env@) =~= Seq::empty());
            assert(names_v(it.pm_ids@) =~= Seq::empty());
        }
        assert(names_v(it.pm_ids@) =~= Seq::empty());
    }
    let mode = Mode { in_tour: false, tour_base: 0, perception: false };
    let r = it.exec_block_x(items, &tb, mode, blk, u64::MAX);
    let result = match r {
        Ok(_) => Ok(()),
        Err(e) => Err(e),
    };
    let ghost fin = it.st();
    let ghost d = it.log();
    proof {
        assert(d.take(d.len() as int) =~= d);
        assert(agrees(d, d));
    }
    let output = it.rt.into_output();
    proof {
        assert(run_spec(program@, seed, patch_seed, d).0 == fin);
        assert(draws_fit(d, run_spec(program@, seed, patch_seed, d).0.rolls));
    }
    Outcome { result, output }
}

/// Once a prefix holds a bad pin, the whole program does, with the same message.
proof fn lemma_setup_error_prefix(items: Seq<ItemV>, k: int)
    requires
        0 < k <= items.len(),
        setup_error(items.take(k)) is Some,
    ensures
        setup_error(items) == setup_error(items.take(k)),
    decreases items.len() - k,
{
    if k < items.len() {
        assert(items.drop_last().take(k) =~= items.take(k));
        lemma_setup_error_prefix(items.drop_last(), k);
    } else {
        assert(items.take(k) =~= items);
    }
}

/// The entry point is one of the program's `connexion` blocks.
proof fn lemma_connexion_in(items: Seq<ItemV>)
    requires
        find_connexion(items) is Some,
    ensures
        exists|k: int| 0 <= k < items.len() && #[trigger] items[k] == ItemV::Connexion(find_connexion(items)->0),
    decreases items.len(),
{
    if items.last() is Connexion {
        assert(items[items.len() - 1] == ItemV::Connexion(find_connexion(items)->0));
    } else {
        lemma_connexion_in(items.drop_last());
        let k = choose|k: int| 0 <= k < items.drop_last().len() && #[trigger] items.drop_last()[k] == ItemV::Connexion(find_connexion(items.drop_last())->0);
        assert(items[k] == items.drop_last()[k]);
    }
}

/// Rendering of a run error.
pub open spec fn run_error_text(e: RunErrorV) -> Seq<char> {
    match e {
        RunErrorV::Fault(f) => crate::runtime::fault_text(f),
        RunErrorV::Banni => "compte banni"@,
        RunErrorV::Cooldown => "sort en cooldown"@,
        RunErrorV::Msg(m) => m,
    }
}

impl RunError {
    /// Renders the error (« compte banni », « sort en cooldown », …).
    pub fn message(&self) -> (s: String)
        ensures
            s@ == run_error_text(self@),
    {
        match self {
            RunError::Fault(f) => f.message(),
            RunError::Banni => owned("compte banni"),
            RunError::Cooldown => owned("sort en cooldown"),
            RunError::Msg(m) => m.clone(),
        }
    }
}

// ------------------------------------------------------------------ checked runs

/// Whether a run error is where the original panics (see `is_panic`).
pub fn is_panic_x(e: &RunError) -> (b: bool)
    ensures
        b == is_panic(e@),
{
    proof {
        lemma_panic_texts();
    }
    match e {
        RunError::Msg(m) => {
            string_is(m, "attempt to divide by zero") || string_is(m, "attempt to subtract with overflow")
                || string_is(m, "index out of bounds: the len is 0 but the index is 0")
                || string_is(m, "index out of bounds: the len is 1 but the index is 1")
        },
        _ => false,
    }
}

proof fn lemma_panic_texts()
    ensures
        index_text(0) == "index out of bounds: the len is 0 but the index is 0"@,
        index_text(1) == "index out of bounds: the len is 1 but the index is 1"@,
{
    reveal_strlit("index out of bounds: the len is ");
    reveal_strlit(" but the index is ");
    reveal_strlit("index out of bounds: the len is 0 but the index is 0");
    reveal_strlit("index out of bounds: the len is 1 but the index is 1");
    assert(digits_of(0) =~= seq!['0']);
    assert(digits_of(1) =~= seq!['1']);
    assert(index_text(0) =~= "index out of bounds: the len is 0 but the index is 0"@);
    assert(index_text(1) =~= "index out of bounds: the len is 1 but the index is 1"@);
}

/// Every `pano`/`perso` of the program is small enough for its tags.
fn decls_fit_x(items: &Vec<Item>) -> (b: bool)
    ensures
        b == decls_fit(items_v(items@)),
{
    let ghost iv = items_v(items@);
    let mut i: usize = 0;
    while i < items.len()
        invariant
            iv == items_v(items@),
            iv.len() == items@.len(),
            i <= items@.len(),
            forall|j: int| 0 <= j < i ==> match #[trigger] iv[j] {
                ItemV::Pano(p) => p.variants.len() <= i64::MAX,
                ItemV::Perso(p) => p.fields.len() <= i64::MAX,
                _ => true,
            },
        decreases items.len() - i,
    {
        proof {
            assert(iv[i as int] == items@[i as int]@);
        }
        let ok = match &items[i] {
            Item::Pano(p) => (p.variants.len() as u64) <= (i64::MAX as u64),
            Item::Perso(p) => (p.fields.len() as u64) <= (i64::MAX as u64),
            _ => true,
        };
        if !ok {
            proof {
                assert(!match iv[i as int] {
                    ItemV::Pano(p) => p.variants.len() <= i64::MAX,
                    ItemV::Perso(p) => p.fields.len() <= i64::MAX,
                    _ => true,
                });
            }
            return false;
        }
        i += 1;
    }
    true
}

/// Runs any program whose `pano`/`perso` sizes fit; `None` otherwise. Where the original
/// panics (see `is_panic`), the run ends there with the panic's message as its error.
pub fn run_checked(program: &Program, seed: Option<u64>, patch_seed: Option<u64>) -> (o: Option<Outcome>)
    ensures
        o is None <==> !decls_fit(program@.items),
        match o {
            Some(out) => exists|d: Seq<i64>| {
                let (st, r) = #[trigger] run_spec(program@, seed, patch_seed, d);
                &&& draws_fit(d, st.rolls)
                &&& unit_v(out.result) == r
                &&& out.output@.map_values(|s: String| s@) == st.rt.out
            },
            None => true,
        },
{
    proof {
        assert(program@.items == items_v(program.items@));
    }
    if !decls_fit_x(&program.items) {
        return None;
    }
    Some(run_any(program, seed, patch_seed))
}

} // verus!
