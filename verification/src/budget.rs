//! The static budget check agrees with the runtime: a `tour` whose cost `cdc check` can
//! compute, and finds within the AP budget, never runs out of AP when it runs.

use vstd::prelude::*;
use crate::ast::{
    block_size, expr_size, exprs_size, fields_size, lemma_exprs_size_index, stmt_size, stmts_size, BlockV,
    ExprKindV, ExprV, ItemV, StmtV,
};
use crate::interp::{
    call_bot, decl_stmt, eval, eval_args, eval_call, eval_cond, eval_fields, exec_block, exec_stmt,
    exec_stmts, farm_loop, grind_loop, pm_ids_after, pm_index, touch, Ctx, Mode, St, RunErrorV, ValueV,
};
use crate::layers::{quiet_expr, quiet_exprs, quiet_fields};
use crate::runtime::Fault;
use crate::sema::{
    bot_cost, cost_map, declared_costs_nonneg, expr_pa, expr_reads, exprs_pa, exprs_reads, find_bot, is_builtin,
    lemma_bot_cost_nonneg, lemma_find_bot_member, max64, sat, stmt_pa, stmt_reads, stmts_dynamic, stmts_pa,
    stmts_reads,
};

verus! {

// ------------------------------------------------------------------ conditions

/// Whether a result is an AP overrun.
pub open spec fn pa_fault<T>(r: Result<T, RunErrorV>) -> bool {
    match r {
        Err(RunErrorV::Fault(Fault::PaInsuffisant { .. })) => true,
        _ => false,
    }
}

/// Whether a result is an MP overrun.
pub open spec fn pm_fault<T>(r: Result<T, RunErrorV>) -> bool {
    match r {
        Err(RunErrorV::Fault(Fault::PmInsuffisant { .. })) => true,
        _ => false,
    }
}

/// No `tour` anywhere in the statements, loops and branches included.
pub open spec fn no_tour_stmts(s: Seq<StmtV>) -> bool
    decreases stmts_size(s), 0int,
{
    if s.len() == 0 { true } else { no_tour_stmts(s.drop_last()) && no_tour_stmt(s.last()) }
}

pub open spec fn no_tour_stmt(s: StmtV) -> bool
    decreases stmt_size(s), 1int,
{
    match s {
        StmtV::Tour(_) => false,
        StmtV::Farm { body, .. } => no_tour_stmts(body.stmts),
        StmtV::Grind { body, .. } => no_tour_stmts(body.stmts),
        StmtV::Detect { then_branch, else_branch, .. } => no_tour_stmts(then_branch.stmts) && match else_branch {
            Some(b) => no_tour_stmts(b.stmts),
            None => true,
        },
        _ => true,
    }
}

/// No bot body opens a `tour` (a `tour` inside a bot would refill the budget of the caller's).
pub open spec fn bots_tour_free(items: Seq<ItemV>) -> bool {
    forall|i: int| 0 <= i < items.len() ==> match #[trigger] items[i] {
        ItemV::Bot(b) => no_tour_stmts(b.body.stmts),
        _ => true,
    }
}

/// Every record literal of the expression casts no bot: the static cost of a literal is 0.
pub open spec fn priced_expr(e: ExprV) -> bool
    decreases expr_size(e), 1int,
{
    match e.kind {
        ExprKindV::Unary(_, x) => priced_expr(*x),
        ExprKindV::Binary(_, l, r) => priced_expr(*l) && priced_expr(*r),
        ExprKindV::Call(_, args) => priced_exprs(args),
        ExprKindV::Struct(_, fields) => quiet_fields(fields),
        _ => true,
    }
}

pub open spec fn priced_exprs(s: Seq<ExprV>) -> bool
    decreases exprs_size(s), 0int,
{
    if s.len() == 0 { true } else { priced_exprs(s.drop_last()) && priced_expr(s.last()) }
}

pub open spec fn priced_stmts(s: Seq<StmtV>) -> bool
    decreases stmts_size(s), 0int,
{
    if s.len() == 0 { true } else { priced_stmts(s.drop_last()) && priced_stmt(s.last()) }
}

pub open spec fn priced_stmt(s: StmtV) -> bool
    decreases stmt_size(s), 1int,
{
    match s {
        StmtV::Loot { value, .. } => priced_expr(value),
        StmtV::Ban { value, .. } => priced_expr(value),
        StmtV::Assign { value, .. } => priced_expr(value),
        StmtV::Detect { cond, then_branch, else_branch } => priced_expr(cond) && priced_stmts(then_branch.stmts)
            && match else_branch {
            Some(b) => priced_stmts(b.stmts),
            None => true,
        },
        StmtV::Gg(opt) => match opt {
            Some(e) => priced_expr(e),
            None => true,
        },
        StmtV::Up(e) => priced_expr(e),
        StmtV::Afk(e) => priced_expr(e),
        StmtV::Expr(e) => priced_expr(e),
        _ => true,
    }
}

/// A run step outside any `tour`: the budget (AP, MP, variables reached) is untouched and
/// never overrun, the configuration stays.
pub open spec fn keeps_pa<T>(before: St, after: (St, Result<T, RunErrorV>)) -> bool {
    &&& after.0.rt.pa == before.rt.pa
    &&& after.0.rt.pm == before.rt.pm
    &&& after.0.rt.touched == before.rt.touched
    &&& after.0.pm_ids == before.pm_ids
    &&& after.0.rt.cfg == before.rt.cfg
    &&& !pa_fault(after.1)
    &&& !pm_fault(after.1)
}

/// The program's bots run outside any `tour`.
pub open spec fn calls_out(ctx: Ctx) -> bool {
    bots_tour_free(ctx.items)
}

// ------------------------------------------------------------------ outside a tour

proof fn lemma_out_eval(ctx: Ctx, d: Seq<i64>, mode: Mode, st: St, e: ExprV, f: nat)
    requires
        !mode.in_tour,
        calls_out(ctx),
    ensures
        keeps_pa(st, eval(ctx, d, mode, st, e, f)),
    decreases f, expr_size(e), 1int,
{
    match e.kind {
        ExprKindV::Unary(_, x) => {
            lemma_out_eval(ctx, d, mode, st, *x, f);
        },
        ExprKindV::Binary(_, l, r) => {
            lemma_out_eval(ctx, d, mode, st, *l, f);
            let s1 = eval(ctx, d, mode, st, *l, f).0;
            lemma_out_eval(ctx, d, mode, s1, *r, f);
        },
        ExprKindV::Call(name, args) => {
            lemma_out_call(ctx, d, mode, st, name, args, f);
        },
        ExprKindV::Struct(_, fields) => {
            lemma_out_fields(ctx, d, mode, st, fields, f);
        },
        _ => {},
    }
}

proof fn lemma_out_fields(ctx: Ctx, d: Seq<i64>, mode: Mode, st: St, s: Seq<(Seq<char>, ExprV)>, f: nat)
    requires
        !mode.in_tour,
        calls_out(ctx),
    ensures
        keeps_pa(st, eval_fields(ctx, d, mode, st, s, f)),
    decreases f, fields_size(s), 0int,
{
    if s.len() > 0 {
        lemma_out_fields(ctx, d, mode, st, s.drop_last(), f);
        let s1 = eval_fields(ctx, d, mode, st, s.drop_last(), f).0;
        lemma_out_eval(ctx, d, mode, s1, s.last().1, f);
    }
}

proof fn lemma_out_args(ctx: Ctx, d: Seq<i64>, mode: Mode, st: St, s: Seq<ExprV>, f: nat)
    requires
        !mode.in_tour,
        calls_out(ctx),
    ensures
        keeps_pa(st, eval_args(ctx, d, mode, st, s, f)),
    decreases f, exprs_size(s), 0int,
{
    if s.len() > 0 {
        lemma_out_args(ctx, d, mode, st, s.drop_last(), f);
        let s1 = eval_args(ctx, d, mode, st, s.drop_last(), f).0;
        lemma_out_eval(ctx, d, mode, s1, s.last(), f);
    }
}

proof fn lemma_out_call(ctx: Ctx, d: Seq<i64>, mode: Mode, st: St, name: Seq<char>, args: Seq<ExprV>, f: nat)
    requires
        !mode.in_tour,
        calls_out(ctx),
    ensures
        keeps_pa(st, eval_call(ctx, d, mode, st, name, args, f)),
    decreases f, exprs_size(args), 2int,
{
    if name == "rand"@ || name == "butin"@ {
        if args.len() >= 1 {
            lemma_exprs_size_index(args, 0);
            lemma_out_eval(ctx, d, mode, st, args[0], f);
            if args.len() >= 2 {
                lemma_exprs_size_index(args, 1);
                let s1 = eval(ctx, d, mode, st, args[0], f).0;
                lemma_out_eval(ctx, d, mode, s1, args[1], f);
            }
        }
    } else if name == "cd_pret"@ {
    } else {
        match find_bot(ctx.items, name) {
            None => {},
            Some(b) => {
                lemma_out_args(ctx, d, mode, st, args, f);
                let (s1, r1) = eval_args(ctx, d, mode, st, args, f);
                match r1 {
                    Ok(vs) => {
                        if f > 0 {
                            lemma_find_bot_member(ctx.items, name);
                            let i = choose|i: int| 0 <= i < ctx.items.len() && #[trigger] ctx.items[i] == ItemV::Bot(find_bot(ctx.items, name)->0);
                            assert(ctx.items[i] == ItemV::Bot(b));
                            let rt3 = crate::interp::act_rt(s1.rt, name);
                            let s2 = crate::interp::with_rt(s1, crate::interp::cooldown_rt(rt3, name, b.cd));
                            lemma_out_bot(ctx, d, mode, s2, b, vs, (f - 1) as nat);
                        }
                    },
                    Err(_) => {},
                }
            },
        }
    }
}

proof fn lemma_out_bot(ctx: Ctx, d: Seq<i64>, mode: Mode, st: St, b: crate::ast::BotV, vs: Seq<ValueV>, f: nat)
    requires
        calls_out(ctx),
        no_tour_stmts(b.body.stmts),
    ensures
        keeps_pa(st, call_bot(ctx, d, mode, st, b, vs, f)),
    decreases f, block_size(b.body) + 1, 0int,
{
    let inner = Mode { in_tour: false, ..mode };
    lemma_out_block(ctx, d, inner, St { env: seq![crate::interp::param_scope(b, vs)], ..st }, b.body, f);
}

proof fn lemma_out_cond(ctx: Ctx, d: Seq<i64>, mode: Mode, st: St, e: ExprV, f: nat)
    requires
        !mode.in_tour,
        calls_out(ctx),
    ensures
        keeps_pa(st, eval_cond(ctx, d, mode, st, e, f)),
    decreases f, expr_size(e), 2int,
{
    lemma_out_eval(ctx, d, Mode { perception: true, ..mode }, st, e, f);
}

proof fn lemma_out_block(ctx: Ctx, d: Seq<i64>, mode: Mode, st: St, b: BlockV, f: nat)
    requires
        !mode.in_tour,
        calls_out(ctx),
        no_tour_stmts(b.stmts),
    ensures
        keeps_pa(st, exec_block(ctx, d, mode, st, b, f)),
    decreases f, block_size(b), 0int,
{
    lemma_out_stmts(ctx, d, mode, St { env: st.env.push(Map::empty()), ..st }, b.stmts, f);
}

proof fn lemma_out_stmts(ctx: Ctx, d: Seq<i64>, mode: Mode, st: St, s: Seq<StmtV>, f: nat)
    requires
        !mode.in_tour,
        calls_out(ctx),
        no_tour_stmts(s),
    ensures
        keeps_pa(st, exec_stmts(ctx, d, mode, st, s, f)),
    decreases f, stmts_size(s), 0int,
{
    if s.len() > 0 {
        lemma_out_stmts(ctx, d, mode, st, s.drop_last(), f);
        let s1 = exec_stmts(ctx, d, mode, st, s.drop_last(), f).0;
        lemma_out_stmt(ctx, d, mode, s1, s.last(), f);
    }
}

proof fn lemma_out_farm(ctx: Ctx, d: Seq<i64>, mode: Mode, st: St, cond: ExprV, body: BlockV, f: nat)
    requires
        !mode.in_tour,
        calls_out(ctx),
        no_tour_stmts(body.stmts),
    ensures
        keeps_pa(st, farm_loop(ctx, d, mode, st, cond, body, f)),
    decreases f, expr_size(cond) + block_size(body), 0int,
{
    if f > 0 {
        let g = (f - 1) as nat;
        lemma_out_cond(ctx, d, mode, st, cond, g);
        let s1 = eval_cond(ctx, d, mode, st, cond, g).0;
        lemma_out_block(ctx, d, mode, s1, body, g);
        let s2 = exec_block(ctx, d, mode, s1, body, g).0;
        lemma_out_farm(ctx, d, mode, s2, cond, body, g);
    }
}

proof fn lemma_out_grind(ctx: Ctx, d: Seq<i64>, mode: Mode, st: St, var: Seq<char>, i: i64, hi: i64, body: BlockV, f: nat)
    requires
        !mode.in_tour,
        calls_out(ctx),
        no_tour_stmts(body.stmts),
    ensures
        keeps_pa(st, grind_loop(ctx, d, mode, st, var, i, hi, body, f)),
    decreases f, block_size(body), 0int,
{
    if i <= hi && f > 0 {
        let g = (f - 1) as nat;
        let scope = Map::<Seq<char>, ValueV>::empty().insert(var, ValueV::Int(i));
        let s0 = St { env: st.env.push(scope), ..st };
        lemma_out_block(ctx, d, mode, s0, body, g);
        let s1 = exec_block(ctx, d, mode, s0, body, g).0;
        let s2 = St { env: s1.env.drop_last(), ..s1 };
        if i < hi {
            lemma_out_grind(ctx, d, mode, s2, var, (i + 1) as i64, hi, body, g);
        }
    }
}

proof fn lemma_out_stmt(ctx: Ctx, d: Seq<i64>, mode: Mode, st: St, s: StmtV, f: nat)
    requires
        !mode.in_tour,
        calls_out(ctx),
        no_tour_stmt(s),
    ensures
        keeps_pa(st, exec_stmt(ctx, d, mode, st, s, f)),
    decreases f, stmt_size(s), 3int,
{
    match s {
        StmtV::Loot { value, .. } => {
            lemma_out_eval(ctx, d, mode, st, value, f);
        },
        StmtV::Ban { value, .. } => {
            lemma_out_eval(ctx, d, mode, st, value, f);
        },
        StmtV::Assign { value, .. } => {
            lemma_out_eval(ctx, d, mode, st, value, f);
        },
        StmtV::Farm { cond, body } => {
            lemma_out_farm(ctx, d, mode, st, cond, body, f);
        },
        StmtV::Grind { var, from, to, body } => {
            lemma_out_eval(ctx, d, mode, st, from, f);
            let (s1, ra) = eval(ctx, d, mode, st, from, f);
            lemma_out_eval(ctx, d, mode, s1, to, f);
            let (s2, rb) = eval(ctx, d, mode, s1, to, f);
            match (ra, rb) {
                (Ok(a), Ok(b)) => match (crate::interp::as_int(a), crate::interp::as_int(b)) {
                    (Ok(lo), Ok(hi)) => {
                        lemma_out_grind(ctx, d, mode, s2, var, lo, hi, body, f);
                    },
                    _ => {},
                },
                _ => {},
            }
        },
        StmtV::Detect { cond, then_branch, else_branch } => {
            lemma_out_cond(ctx, d, mode, st, cond, f);
            let s1 = eval_cond(ctx, d, mode, st, cond, f).0;
            lemma_out_block(ctx, d, mode, s1, then_branch, f);
            match else_branch {
                Some(b) => {
                    lemma_out_block(ctx, d, mode, s1, b, f);
                },
                None => {},
            }
        },
        StmtV::Gg(Some(e)) => {
            lemma_out_eval(ctx, d, mode, st, e, f);
        },
        StmtV::Up(e) => {
            lemma_out_eval(ctx, d, mode, st, e, f);
        },
        StmtV::Afk(e) => {
            lemma_out_eval(ctx, d, mode, st, e, f);
        },
        StmtV::Expr(e) => {
            lemma_out_eval(ctx, d, mode, st, e, f);
        },
        _ => {},
    }
}

// ------------------------------------------------------------------ static costs

/// Costs the runtime charges: declared costs and configured prices are not negative.
pub open spec fn prices_ok(ctx: Ctx) -> bool {
    &&& declared_costs_nonneg(ctx.items)
    &&& ctx.cfg.assign_pa >= 0
    &&& ctx.cfg.up_pa >= 0
}

pub open spec fn eff_of(ctx: Ctx) -> Map<Seq<char>, i64> {
    cost_map(ctx.items, ctx.cfg)
}

pub open spec fn eff_nonneg(eff: Map<Seq<char>, i64>) -> bool {
    forall|n: Seq<char>| #[trigger] eff.contains_key(n) ==> eff[n] >= 0
}

/// Static AP of the bot part of a call.
pub open spec fn call_here(eff: Map<Seq<char>, i64>, name: Seq<char>) -> i64 {
    if is_builtin(name) { 0 } else if eff.contains_key(name) { eff[name] } else { 0 }
}

proof fn lemma_eff_nonneg(ctx: Ctx)
    requires
        prices_ok(ctx),
    ensures
        eff_nonneg(eff_of(ctx)),
{
    assert forall|n: Seq<char>| #[trigger] eff_of(ctx).contains_key(n) implies eff_of(ctx)[n] >= 0 by {
        lemma_bot_cost_nonneg(ctx.items, ctx.cfg, Seq::empty(), n);
    }
}

proof fn lemma_expr_pa_nonneg(eff: Map<Seq<char>, i64>, e: ExprV)
    requires
        eff_nonneg(eff),
    ensures
        expr_pa(eff, e) >= 0,
    decreases expr_size(e), 1int,
{
    match e.kind {
        ExprKindV::Unary(_, x) => {
            lemma_expr_pa_nonneg(eff, *x);
        },
        ExprKindV::Binary(_, l, r) => {
            lemma_expr_pa_nonneg(eff, *l);
            lemma_expr_pa_nonneg(eff, *r);
        },
        ExprKindV::Call(_, args) => {
            lemma_exprs_pa_nonneg(eff, args);
        },
        _ => {},
    }
}

proof fn lemma_exprs_pa_nonneg(eff: Map<Seq<char>, i64>, s: Seq<ExprV>)
    requires
        eff_nonneg(eff),
    ensures
        exprs_pa(eff, s) >= 0,
    decreases exprs_size(s), 0int,
{
    if s.len() > 0 {
        lemma_exprs_pa_nonneg(eff, s.drop_last());
        lemma_expr_pa_nonneg(eff, s.last());
    }
}

proof fn lemma_stmts_pa_nonneg(eff: Map<Seq<char>, i64>, cfg: crate::config::Config, s: Seq<StmtV>)
    requires
        eff_nonneg(eff),
        cfg.assign_pa >= 0,
        cfg.up_pa >= 0,
    ensures
        stmts_pa(eff, cfg, s) >= 0,
    decreases stmts_size(s), 0int,
{
    if s.len() > 0 {
        lemma_stmts_pa_nonneg(eff, cfg, s.drop_last());
        lemma_stmt_pa_nonneg(eff, cfg, s.last());
    }
}

proof fn lemma_stmt_pa_nonneg(eff: Map<Seq<char>, i64>, cfg: crate::config::Config, s: StmtV)
    requires
        eff_nonneg(eff),
        cfg.assign_pa >= 0,
        cfg.up_pa >= 0,
    ensures
        stmt_pa(eff, cfg, s) >= 0,
    decreases stmt_size(s), 1int,
{
    match s {
        StmtV::Loot { value, .. } => lemma_expr_pa_nonneg(eff, value),
        StmtV::Ban { value, .. } => lemma_expr_pa_nonneg(eff, value),
        StmtV::Assign { value, .. } => lemma_expr_pa_nonneg(eff, value),
        StmtV::Up(e) => lemma_expr_pa_nonneg(eff, e),
        StmtV::Afk(e) => lemma_expr_pa_nonneg(eff, e),
        StmtV::Expr(e) => lemma_expr_pa_nonneg(eff, e),
        StmtV::Gg(Some(e)) => lemma_expr_pa_nonneg(eff, e),
        StmtV::Detect { cond, then_branch, else_branch } => {
            lemma_expr_pa_nonneg(eff, cond);
            lemma_stmts_pa_nonneg(eff, cfg, then_branch.stmts);
            match else_branch {
                Some(b) => lemma_stmts_pa_nonneg(eff, cfg, b.stmts),
                None => {},
            }
        },
        _ => {},
    }
}

/// A quiet expression costs nothing statically and has no record literal that casts a bot.
proof fn lemma_quiet_free(eff: Map<Seq<char>, i64>, e: ExprV)
    requires
        quiet_expr(e),
    ensures
        expr_pa(eff, e) == 0,
        priced_expr(e),
    decreases expr_size(e), 1int,
{
    match e.kind {
        ExprKindV::Unary(_, x) => {
            lemma_quiet_free(eff, *x);
        },
        ExprKindV::Binary(_, l, r) => {
            lemma_quiet_free(eff, *l);
            lemma_quiet_free(eff, *r);
        },
        ExprKindV::Call(_, args) => {
            lemma_quiet_free_all(eff, args);
        },
        _ => {},
    }
}

proof fn lemma_quiet_free_all(eff: Map<Seq<char>, i64>, s: Seq<ExprV>)
    requires
        quiet_exprs(s),
    ensures
        exprs_pa(eff, s) == 0,
        priced_exprs(s),
    decreases exprs_size(s), 0int,
{
    if s.len() > 0 {
        lemma_quiet_free_all(eff, s.drop_last());
        lemma_quiet_free(eff, s.last());
    }
}

proof fn lemma_quiet_fields_index(s: Seq<(Seq<char>, ExprV)>, i: int)
    requires
        quiet_fields(s),
        0 <= i < s.len(),
    ensures
        quiet_expr(s[i].1),
    decreases s.len(),
{
    if i < s.len() - 1 {
        lemma_quiet_fields_index(s.drop_last(), i);
        assert(s.drop_last()[i] == s[i]);
    }
}

proof fn lemma_priced_index(s: Seq<ExprV>, i: int)
    requires
        priced_exprs(s),
        0 <= i < s.len(),
    ensures
        priced_expr(s[i]),
    decreases s.len(),
{
    if i < s.len() - 1 {
        lemma_priced_index(s.drop_last(), i);
        assert(s.drop_last()[i] == s[i]);
    }
}

/// The static cost of the first two arguments is part of the cost of the list.
proof fn lemma_first_two(eff: Map<Seq<char>, i64>, s: Seq<ExprV>)
    requires
        eff_nonneg(eff),
        s.len() >= 2,
        exprs_pa(eff, s) < i64::MAX,
    ensures
        expr_pa(eff, s[0]) + expr_pa(eff, s[1]) <= exprs_pa(eff, s),
    decreases s.len(),
{
    lemma_exprs_pa_nonneg(eff, s.drop_last());
    lemma_expr_pa_nonneg(eff, s.last());
    assert(exprs_pa(eff, s) == sat(exprs_pa(eff, s.drop_last()), expr_pa(eff, s.last())));
    if s.len() == 2 {
        let t = s.drop_last();
        assert(t.drop_last() =~= Seq::<ExprV>::empty());
        assert(exprs_pa(eff, t.drop_last()) == 0);
        assert(t.last() == s[0]);
        assert(s.last() == s[1]);
        lemma_expr_pa_nonneg(eff, s[0]);
        assert(exprs_pa(eff, t) == sat(0, expr_pa(eff, s[0])));
    } else {
        lemma_first_two(eff, s.drop_last());
        assert(s.drop_last()[0] == s[0]);
        assert(s.drop_last()[1] == s[1]);
    }
}

// ------------------------------------------------------------------ inside a tour

/// A run step inside a `tour` that charges at most `c` AP: no overrun, the AP only go down
/// and by no more than `c`, the configuration stays.
pub open spec fn within<T>(before: St, after: (St, Result<T, RunErrorV>), c: i64) -> bool {
    &&& after.0.rt.pa <= before.rt.pa
    &&& after.0.rt.pa >= before.rt.pa - c
    &&& after.0.rt.cfg == before.rt.cfg
    &&& !pa_fault(after.1)
}

pub open spec fn in_ok(ctx: Ctx, mode: Mode, st: St) -> bool {
    &&& mode.in_tour
    &&& calls_out(ctx)
    &&& prices_ok(ctx)
    &&& st.rt.cfg == ctx.cfg
    &&& st.rt.pa < i64::MAX
}

proof fn lemma_in_eval(ctx: Ctx, d: Seq<i64>, mode: Mode, st: St, e: ExprV, f: nat)
    requires
        in_ok(ctx, mode, st),
        priced_expr(e),
        expr_pa(eff_of(ctx), e) <= st.rt.pa,
    ensures
        within(st, eval(ctx, d, mode, st, e, f), expr_pa(eff_of(ctx), e)),
    decreases f, expr_size(e), 1int,
{
    let eff = eff_of(ctx);
    lemma_eff_nonneg(ctx);
    match e.kind {
        ExprKindV::Unary(_, x) => {
            lemma_in_eval(ctx, d, mode, st, *x, f);
        },
        ExprKindV::Binary(_, l, r) => {
            lemma_expr_pa_nonneg(eff, *l);
            lemma_expr_pa_nonneg(eff, *r);
            lemma_in_eval(ctx, d, mode, st, *l, f);
            let s1 = eval(ctx, d, mode, st, *l, f).0;
            lemma_in_eval(ctx, d, mode, s1, *r, f);
        },
        ExprKindV::Call(name, args) => {
            lemma_in_call(ctx, d, mode, st, name, args, f);
        },
        ExprKindV::Struct(_, fields) => {
            lemma_in_fields(ctx, d, mode, st, fields, f);
        },
        _ => {},
    }
}

proof fn lemma_in_fields(ctx: Ctx, d: Seq<i64>, mode: Mode, st: St, s: Seq<(Seq<char>, ExprV)>, f: nat)
    requires
        in_ok(ctx, mode, st),
        quiet_fields(s),
        0 <= st.rt.pa,
    ensures
        within(st, eval_fields(ctx, d, mode, st, s, f), 0),
    decreases f, fields_size(s), 0int,
{
    if s.len() > 0 {
        lemma_in_fields(ctx, d, mode, st, s.drop_last(), f);
        let s1 = eval_fields(ctx, d, mode, st, s.drop_last(), f).0;
        lemma_quiet_fields_index(s, s.len() - 1);
        lemma_quiet_free(eff_of(ctx), s.last().1);
        lemma_in_eval(ctx, d, mode, s1, s.last().1, f);
    }
}

proof fn lemma_in_args(ctx: Ctx, d: Seq<i64>, mode: Mode, st: St, s: Seq<ExprV>, f: nat)
    requires
        in_ok(ctx, mode, st),
        priced_exprs(s),
        exprs_pa(eff_of(ctx), s) <= st.rt.pa,
    ensures
        within(st, eval_args(ctx, d, mode, st, s, f), exprs_pa(eff_of(ctx), s)),
    decreases f, exprs_size(s), 0int,
{
    if s.len() > 0 {
        let eff = eff_of(ctx);
        lemma_eff_nonneg(ctx);
        lemma_exprs_pa_nonneg(eff, s.drop_last());
        lemma_expr_pa_nonneg(eff, s.last());
        lemma_in_args(ctx, d, mode, st, s.drop_last(), f);
        let s1 = eval_args(ctx, d, mode, st, s.drop_last(), f).0;
        lemma_in_eval(ctx, d, mode, s1, s.last(), f);
    }
}

proof fn lemma_in_call(ctx: Ctx, d: Seq<i64>, mode: Mode, st: St, name: Seq<char>, args: Seq<ExprV>, f: nat)
    requires
        in_ok(ctx, mode, st),
        priced_exprs(args),
        sat(call_here(eff_of(ctx), name), exprs_pa(eff_of(ctx), args)) <= st.rt.pa,
    ensures
        within(st, eval_call(ctx, d, mode, st, name, args, f), sat(call_here(eff_of(ctx), name), exprs_pa(eff_of(ctx), args))),
    decreases f, exprs_size(args), 2int,
{
    let eff = eff_of(ctx);
    lemma_eff_nonneg(ctx);
    lemma_exprs_pa_nonneg(eff, args);
    if name == "rand"@ || name == "butin"@ {
        if args.len() >= 2 {
            lemma_exprs_size_index(args, 0);
            lemma_exprs_size_index(args, 1);
            lemma_priced_index(args, 0);
            lemma_priced_index(args, 1);
            lemma_first_two(eff, args);
            lemma_expr_pa_nonneg(eff, args[0]);
            lemma_expr_pa_nonneg(eff, args[1]);
            lemma_in_eval(ctx, d, mode, st, args[0], f);
            let s1 = eval(ctx, d, mode, st, args[0], f).0;
            lemma_in_eval(ctx, d, mode, s1, args[1], f);
        } else if args.len() == 1 {
            lemma_exprs_size_index(args, 0);
            lemma_priced_index(args, 0);
            lemma_expr_pa_nonneg(eff, args[0]);
            let t = args.drop_last();
            assert(t =~= Seq::<ExprV>::empty());
            assert(exprs_pa(eff, t) == 0);
            assert(args.last() == args[0]);
            assert(exprs_pa(eff, args) == sat(exprs_pa(eff, t), expr_pa(eff, args[0])));
            lemma_in_eval(ctx, d, mode, st, args[0], f);
        }
    } else if name == "cd_pret"@ {
    } else {
        match find_bot(ctx.items, name) {
            None => {},
            Some(b) => {
                lemma_bot_cost_nonneg(ctx.items, ctx.cfg, Seq::empty(), name);
                assert(eff.contains_key(name));
                lemma_in_args(ctx, d, mode, st, args, f);
                let (s1, r1) = eval_args(ctx, d, mode, st, args, f);
                match r1 {
                    Ok(vs) => {
                        let (rt2, r2) = crate::interp::spend(s1.rt, bot_cost(ctx.items, ctx.cfg, name));
                        if f > 0 && r2 is Ok {
                            lemma_find_bot_member(ctx.items, name);
                            let i = choose|i: int| 0 <= i < ctx.items.len() && #[trigger] ctx.items[i] == ItemV::Bot(find_bot(ctx.items, name)->0);
                            assert(ctx.items[i] == ItemV::Bot(b));
                            let rt3 = crate::interp::act_rt(rt2, name);
                            let s2 = crate::interp::with_rt(s1, crate::interp::cooldown_rt(rt3, name, b.cd));
                            lemma_out_bot(ctx, d, mode, s2, b, vs, (f - 1) as nat);
                        }
                    },
                    Err(_) => {},
                }
            },
        }
    }
}

proof fn lemma_in_cond(ctx: Ctx, d: Seq<i64>, mode: Mode, st: St, e: ExprV, f: nat)
    requires
        in_ok(ctx, mode, st),
        priced_expr(e),
        expr_pa(eff_of(ctx), e) <= st.rt.pa,
    ensures
        within(st, eval_cond(ctx, d, mode, st, e, f), expr_pa(eff_of(ctx), e)),
    decreases f, expr_size(e), 2int,
{
    lemma_in_eval(ctx, d, Mode { perception: true, ..mode }, st, e, f);
}

proof fn lemma_in_block(ctx: Ctx, d: Seq<i64>, mode: Mode, st: St, b: BlockV, f: nat)
    requires
        in_ok(ctx, mode, st),
        !stmts_dynamic(b.stmts),
        priced_stmts(b.stmts),
        stmts_pa(eff_of(ctx), ctx.cfg, b.stmts) <= st.rt.pa,
    ensures
        within(st, exec_block(ctx, d, mode, st, b, f), stmts_pa(eff_of(ctx), ctx.cfg, b.stmts)),
    decreases f, block_size(b), 0int,
{
    lemma_in_stmts(ctx, d, mode, St { env: st.env.push(Map::empty()), ..st }, b.stmts, f);
}

proof fn lemma_in_stmts(ctx: Ctx, d: Seq<i64>, mode: Mode, st: St, s: Seq<StmtV>, f: nat)
    requires
        in_ok(ctx, mode, st),
        !stmts_dynamic(s),
        priced_stmts(s),
        stmts_pa(eff_of(ctx), ctx.cfg, s) <= st.rt.pa,
    ensures
        within(st, exec_stmts(ctx, d, mode, st, s, f), stmts_pa(eff_of(ctx), ctx.cfg, s)),
    decreases f, stmts_size(s), 0int,
{
    if s.len() > 0 {
        let eff = eff_of(ctx);
        lemma_eff_nonneg(ctx);
        lemma_stmts_pa_nonneg(eff, ctx.cfg, s.drop_last());
        lemma_stmt_pa_nonneg(eff, ctx.cfg, s.last());
        lemma_in_stmts(ctx, d, mode, st, s.drop_last(), f);
        let s1 = exec_stmts(ctx, d, mode, st, s.drop_last(), f).0;
        lemma_in_stmt(ctx, d, mode, s1, s.last(), f);
    }
}

proof fn lemma_in_stmt(ctx: Ctx, d: Seq<i64>, mode: Mode, st: St, s: StmtV, f: nat)
    requires
        in_ok(ctx, mode, st),
        !crate::sema::stmt_dynamic(s),
        priced_stmt(s),
        stmt_pa(eff_of(ctx), ctx.cfg, s) <= st.rt.pa,
    ensures
        within(st, exec_stmt(ctx, d, mode, st, s, f), stmt_pa(eff_of(ctx), ctx.cfg, s)),
    decreases f, stmt_size(s), 3int,
{
    let eff = eff_of(ctx);
    lemma_eff_nonneg(ctx);
    match s {
        StmtV::Loot { name, value, .. } => {
            lemma_expr_pa_nonneg(eff, value);
            lemma_in_eval(ctx, d, mode, st, value, f);
        },
        StmtV::Ban { name, value, .. } => {
            lemma_expr_pa_nonneg(eff, value);
            lemma_in_eval(ctx, d, mode, st, value, f);
        },
        StmtV::Assign { value, .. } => {
            lemma_expr_pa_nonneg(eff, value);
            lemma_in_eval(ctx, d, mode, st, value, f);
        },
        StmtV::Detect { cond, then_branch, else_branch } => {
            lemma_expr_pa_nonneg(eff, cond);
            lemma_stmts_pa_nonneg(eff, ctx.cfg, then_branch.stmts);
            lemma_in_cond(ctx, d, mode, st, cond, f);
            let s1 = eval_cond(ctx, d, mode, st, cond, f).0;
            lemma_in_block(ctx, d, mode, s1, then_branch, f);
            match else_branch {
                Some(b) => {
                    lemma_stmts_pa_nonneg(eff, ctx.cfg, b.stmts);
                    lemma_in_block(ctx, d, mode, s1, b, f);
                },
                None => {},
            }
        },
        StmtV::Gg(Some(e)) => {
            lemma_in_eval(ctx, d, mode, st, e, f);
        },
        StmtV::Up(e) => {
            lemma_expr_pa_nonneg(eff, e);
            lemma_in_eval(ctx, d, mode, st, e, f);
        },
        StmtV::Afk(e) => {
            lemma_in_eval(ctx, d, mode, st, e, f);
        },
        StmtV::Expr(e) => {
            lemma_in_eval(ctx, d, mode, st, e, f);
        },
        _ => {},
    }
}

// ------------------------------------------------------------------ law

/// What the static check accepts, the runtime honours: a `tour` whose cost is static (no loop,
/// no nested `tour`) and within the AP budget (`cdc check` raises no E-PA for it) never stops
/// with `PaInsuffisant` when it runs.
///
/// The runtime charges exactly what the check counts when the bots run outside any `tour`,
/// when record literals cast no bot (the check gives them no cost), and when the budget
/// leaves room for the saturated sums the check computes.
pub proof fn lemma_static_tour_within_budget(ctx: Ctx, d: Seq<i64>, mode: Mode, st: St, b: BlockV, f: nat)
    requires
        !stmts_dynamic(b.stmts),
        priced_stmts(b.stmts),
        stmts_pa(cost_map(ctx.items, ctx.cfg), ctx.cfg, b.stmts) <= ctx.cfg.max_pa,
        ctx.cfg.max_pa < i64::MAX,
        st.rt.cfg == ctx.cfg,
        bots_tour_free(ctx.items),
        declared_costs_nonneg(ctx.items),
        ctx.cfg.assign_pa >= 0,
        ctx.cfg.up_pa >= 0,
    ensures
        !pa_fault(exec_stmt(ctx, d, mode, st, StmtV::Tour(b), f).1),
{
    let rt = crate::runtime::RuntimeView { pa: st.rt.cfg.max_pa, pm: st.rt.cfg.max_pm, touched: Seq::empty(), ..st.rt };
    let m = Mode { in_tour: true, tour_base: st.env.len() as usize, perception: mode.perception };
    lemma_in_block(ctx, d, m, St { rt, ..st }, b, f);
}

// ------------------------------------------------------------------ MP inside a tour

/// Every name an expression mentions: the variables it reads and the left side of its paths.
pub open spec fn names_in(e: ExprV) -> Set<Seq<char>>
    decreases expr_size(e), 1int,
{
    match e.kind {
        ExprKindV::Var(n) => set![n],
        ExprKindV::Path(left, _) => set![left],
        ExprKindV::Unary(_, x) => names_in(*x),
        ExprKindV::Binary(_, l, r) => names_in(*l).union(names_in(*r)),
        ExprKindV::Call(_, args) => names_in_all(args),
        ExprKindV::Struct(_, fields) => names_in_fields(fields),
        _ => Set::empty(),
    }
}

pub open spec fn names_in_all(s: Seq<ExprV>) -> Set<Seq<char>>
    decreases exprs_size(s), 0int,
{
    if s.len() == 0 { Set::empty() } else { names_in_all(s.drop_last()).union(names_in(s.last())) }
}

pub open spec fn names_in_fields(s: Seq<(Seq<char>, ExprV)>) -> Set<Seq<char>>
    decreases fields_size(s), 0int,
{
    if s.len() == 0 { Set::empty() } else { names_in_fields(s.drop_last()).union(names_in(s.last().1)) }
}

/// Names an expression may reach that the static MP count does not see: the left side of a
/// path (a record variable or a `pano`/`perso`) and whatever a record literal mentions.
pub open spec fn hidden(e: ExprV) -> Set<Seq<char>>
    decreases expr_size(e), 1int,
{
    match e.kind {
        ExprKindV::Path(left, _) => set![left],
        ExprKindV::Unary(_, x) => hidden(*x),
        ExprKindV::Binary(_, l, r) => hidden(*l).union(hidden(*r)),
        ExprKindV::Call(_, args) => hidden_all(args),
        ExprKindV::Struct(_, fields) => names_in_fields(fields),
        _ => Set::empty(),
    }
}

pub open spec fn hidden_all(s: Seq<ExprV>) -> Set<Seq<char>>
    decreases exprs_size(s), 0int,
{
    if s.len() == 0 { Set::empty() } else { hidden_all(s.drop_last()).union(hidden(s.last())) }
}

pub open spec fn hidden_stmts(s: Seq<StmtV>) -> Set<Seq<char>>
    decreases stmts_size(s), 0int,
{
    if s.len() == 0 { Set::empty() } else { hidden_stmts(s.drop_last()).union(hidden_stmt(s.last())) }
}

pub open spec fn hidden_stmt(s: StmtV) -> Set<Seq<char>>
    decreases stmt_size(s), 1int,
{
    match s {
        StmtV::Loot { value, .. } => hidden(value),
        StmtV::Ban { value, .. } => hidden(value),
        StmtV::Assign { value, .. } => hidden(value),
        StmtV::Detect { cond, then_branch, else_branch } => hidden(cond).union(hidden_stmts(then_branch.stmts))
            .union(match else_branch {
            Some(b) => hidden_stmts(b.stmts),
            None => Set::empty(),
        }),
        StmtV::Gg(Some(e)) => hidden(e),
        StmtV::Up(e) => hidden(e),
        StmtV::Afk(e) => hidden(e),
        StmtV::Expr(e) => hidden(e),
        _ => Set::empty(),
    }
}

/// MP accounting of a state inside a `tour` whose static reads are `r`: the variables
/// reached so far are distinct names of `r`, one MP each.
pub open spec fn mp_counts(st: St, r: Set<Seq<char>>) -> bool {
    &&& st.pm_ids.no_duplicates()
    &&& st.rt.touched.no_duplicates()
    &&& forall|k: int| 0 <= k < st.rt.touched.len() ==> (#[trigger] st.rt.touched[k]) < st.pm_ids.len()
        && r.contains(st.pm_ids[st.rt.touched[k] as int])
    &&& st.rt.pm == st.rt.cfg.max_pm - st.rt.touched.len()
    &&& st.pm_ids.len() + st.rt.pm < u64::MAX
    &&& r.finite()
    &&& r.len() <= st.rt.cfg.max_pm
}

/// The names of `k` are bound in no scope below `base` (outside the current `tour`).
pub open spec fn outside_free(st: St, base: nat, k: Set<Seq<char>>) -> bool {
    &&& st.env.len() >= base
    &&& forall|i: int, n: Seq<char>| 0 <= i < base && #[trigger] k.contains(n) ==> !(#[trigger] st.env[i]).contains_key(n)
}

pub open spec fn mp_ok(ctx: Ctx, mode: Mode, st: St, r: Set<Seq<char>>, k: Set<Seq<char>>) -> bool {
    &&& mode.in_tour
    &&& calls_out(ctx)
    &&& mp_counts(st, r)
    &&& outside_free(st, mode.tour_base as nat, k)
}

/// A run step inside a `tour`: no MP overrun, the accounting and the outside scopes kept.
pub open spec fn mp_step<T>(mode: Mode, before: St, after: (St, Result<T, RunErrorV>), r: Set<Seq<char>>, k: Set<Seq<char>>) -> bool {
    &&& !pm_fault(after.1)
    &&& mp_counts(after.0, r)
    &&& outside_free(after.0, mode.tour_base as nat, k)
    &&& after.0.env.len() == before.env.len()
    &&& after.0.rt.cfg == before.rt.cfg
}

/// Reaching a name of `r` for the first time in the `tour` always finds an MP left.
proof fn lemma_touch_ok(st: St, name: Seq<char>, r: Set<Seq<char>>)
    requires
        mp_counts(st, r),
        r.contains(name),
    ensures
        touch(st.rt, pm_index(st.pm_ids, name) as u64).1 is Ok,
        mp_counts(St { rt: touch(st.rt, pm_index(st.pm_ids, name) as u64).0, pm_ids: pm_ids_after(st.pm_ids, name), ..st }, r),
{
    let ids = st.pm_ids;
    let t = st.rt.touched;
    let id = pm_index(ids, name);
    let ids2 = pm_ids_after(ids, name);
    lemma_touched_bound(st, r);
    if ids.contains(name) {
        let w = choose|i: int| 0 <= i < ids.len() && ids[i] == name;
        assert(forall|j: int| 0 <= j < w ==> ids[j] != name);
        assert(id == w) by {
            let c = choose|i: int| 0 <= i < ids.len() && #[trigger] ids[i] == name && forall|j: int| 0 <= j < i ==> ids[j] != name;
            assert(ids[c] == name);
        }
        assert(ids2 == ids);
    } else {
        assert(id == ids.len());
        assert(ids2 == ids.push(name));
        assert(ids2.no_duplicates());
        assert(ids2[id as int] == name);
    }
    assert(id < ids2.len() && ids2[id as int] == name);
    assert(forall|k: int| 0 <= k < t.len() ==> t[k] < ids.len() && ids2[t[k] as int] == ids[t[k] as int]);
    if t.contains(id as u64) {
        assert(ids.contains(name)) by {
            if !ids.contains(name) {
                let a = choose|a: int| 0 <= a < t.len() && t[a] == id as u64;
                assert(t[a] < ids.len());
            }
        }
        assert(ids2 == ids);
    } else {
        let names = t.map_values(|x: u64| ids[x as int]);
        assert(names.no_duplicates()) by {
            assert forall|a: int, b: int| 0 <= a < names.len() && 0 <= b < names.len() && a != b implies names[a] != names[b] by {
                assert(t[a] != t[b]);
            }
        }
        assert(!names.contains(name)) by {
            if names.contains(name) {
                let a = choose|a: int| 0 <= a < names.len() && names[a] == name;
                assert(ids[t[a] as int] == name);
                assert(ids.contains(name));
                let w = choose|i: int| 0 <= i < ids.len() && ids[i] == name;
                assert(w == t[a] as int);
                assert(id == t[a]);
                assert(t.contains(id as u64));
            }
        }
        let all = names.push(name);
        assert(all.no_duplicates());
        all.unique_seq_to_set();
        assert(all.to_set().subset_of(r)) by {
            assert forall|n: Seq<char>| all.to_set().contains(n) implies r.contains(n) by {
                let a = choose|a: int| 0 <= a < all.len() && all[a] == n;
                if a < names.len() {
                    assert(all[a] == names[a]);
                }
            }
        }
        vstd::set_lib::lemma_len_subset(all.to_set(), r);
        assert(st.rt.pm >= 1);
        let t2 = t.push(id as u64);
        assert(t2.no_duplicates());
    }
}

/// The variables reached are distinct names of `r`: at most `|r|` of them.
proof fn lemma_touched_bound(st: St, r: Set<Seq<char>>)
    requires
        mp_counts(st, r),
    ensures
        st.rt.touched.len() <= r.len(),
        st.rt.pm >= 0,
        st.pm_ids.len() < u64::MAX,
{
    let ids = st.pm_ids;
    let t = st.rt.touched;
    let names = t.map_values(|x: u64| ids[x as int]);
    assert(names.no_duplicates()) by {
        assert forall|a: int, b: int| 0 <= a < names.len() && 0 <= b < names.len() && a != b implies names[a] != names[b] by {
            assert(t[a] != t[b]);
        }
    }
    names.unique_seq_to_set();
    assert(names.to_set().subset_of(r)) by {
        assert forall|n: Seq<char>| names.to_set().contains(n) implies r.contains(n) by {
            let a = choose|a: int| 0 <= a < names.len() && names[a] == n;
            assert(r.contains(ids[t[a] as int]));
        }
    }
    vstd::set_lib::lemma_len_subset(names.to_set(), r);
}

proof fn lemma_mp_read(ctx: Ctx, mode: Mode, st: St, name: Seq<char>, r: Set<Seq<char>>, k: Set<Seq<char>>)
    requires
        mp_ok(ctx, mode, st, r, k),
        mode.perception || r.contains(name) || k.contains(name),
    ensures
        mp_step(mode, st, crate::interp::read_var(mode, st, name), r, k),
{
    match crate::interp::scope_of(st.env, name) {
        None => {},
        Some(i) => {
            if mode.in_tour && !mode.perception && i < mode.tour_base {
                lemma_scope_of_bound(st.env, name);
                if k.contains(name) {
                    assert(!st.env[i as int].contains_key(name));
                    assert(false);
                }
                lemma_touch_ok(st, name, r);
            }
        },
    }
}

proof fn lemma_scope_of_bound(env: Seq<Map<Seq<char>, ValueV>>, name: Seq<char>)
    requires
        crate::interp::scope_of(env, name) is Some,
    ensures
        crate::interp::scope_of(env, name)->0 < env.len(),
        env[crate::interp::scope_of(env, name)->0 as int].contains_key(name),
    decreases env.len(),
{
    if !env.last().contains_key(name) {
        lemma_scope_of_bound(env.drop_last(), name);
    }
}

// ------------------------------------------------------------------ MP: set facts

proof fn lemma_subset_trans(a: Set<Seq<char>>, b: Set<Seq<char>>, c: Set<Seq<char>>)
    requires
        a.subset_of(b),
        b.subset_of(c),
    ensures
        a.subset_of(c),
{
    assert forall|x: Seq<char>| a.contains(x) implies c.contains(x) by {
        assert(b.contains(x));
    }
}

proof fn lemma_reads_in_names(e: ExprV, l: Set<Seq<char>>)
    ensures
        expr_reads(e, l).subset_of(names_in(e)),
        hidden(e).subset_of(names_in(e)),
    decreases expr_size(e), 1int,
{
    match e.kind {
        ExprKindV::Unary(_, x) => lemma_reads_in_names(*x, l),
        ExprKindV::Binary(_, a, b) => {
            lemma_reads_in_names(*a, l);
            lemma_reads_in_names(*b, l);
        },
        ExprKindV::Call(_, args) => lemma_reads_in_names_all(args, l),
        _ => {},
    }
}

proof fn lemma_reads_in_names_all(s: Seq<ExprV>, l: Set<Seq<char>>)
    ensures
        exprs_reads(s, l).subset_of(names_in_all(s)),
        hidden_all(s).subset_of(names_in_all(s)),
    decreases exprs_size(s), 0int,
{
    if s.len() > 0 {
        lemma_reads_in_names_all(s.drop_last(), l);
        lemma_reads_in_names(s.last(), l);
    }
}

proof fn lemma_reads_index(s: Seq<ExprV>, l: Set<Seq<char>>, i: int)
    requires
        0 <= i < s.len(),
    ensures
        expr_reads(s[i], l).subset_of(exprs_reads(s, l)),
        hidden(s[i]).subset_of(hidden_all(s)),
    decreases s.len(),
{
    if i < s.len() - 1 {
        lemma_reads_index(s.drop_last(), l, i);
        assert(s.drop_last()[i] == s[i]);
    }
}

proof fn lemma_reads_finite(e: ExprV, l: Set<Seq<char>>)
    ensures
        expr_reads(e, l).finite(),
    decreases expr_size(e), 1int,
{
    match e.kind {
        ExprKindV::Unary(_, x) => lemma_reads_finite(*x, l),
        ExprKindV::Binary(_, a, b) => {
            lemma_reads_finite(*a, l);
            lemma_reads_finite(*b, l);
        },
        ExprKindV::Call(_, args) => lemma_reads_finite_all(args, l),
        _ => {},
    }
}

proof fn lemma_reads_finite_all(s: Seq<ExprV>, l: Set<Seq<char>>)
    ensures
        exprs_reads(s, l).finite(),
    decreases exprs_size(s), 0int,
{
    if s.len() > 0 {
        lemma_reads_finite_all(s.drop_last(), l);
        lemma_reads_finite(s.last(), l);
    }
}

proof fn lemma_stmts_reads_finite(s: Seq<StmtV>, l: Set<Seq<char>>)
    ensures
        stmts_reads(s, l).finite(),
    decreases stmts_size(s), 0int,
{
    if s.len() > 0 {
        lemma_stmts_reads_finite(s.drop_last(), l);
        lemma_stmt_reads_finite(s.last(), l);
    }
}

proof fn lemma_stmt_reads_finite(s: StmtV, l: Set<Seq<char>>)
    ensures
        stmt_reads(s, l).finite(),
    decreases stmt_size(s), 1int,
{
    match s {
        StmtV::Loot { value, .. } => lemma_reads_finite(value, l),
        StmtV::Ban { value, .. } => lemma_reads_finite(value, l),
        StmtV::Assign { value, .. } => lemma_reads_finite(value, l),
        StmtV::Up(e) => lemma_reads_finite(e, l),
        StmtV::Afk(e) => lemma_reads_finite(e, l),
        StmtV::Expr(e) => lemma_reads_finite(e, l),
        StmtV::Gg(Some(e)) => lemma_reads_finite(e, l),
        StmtV::Detect { then_branch, else_branch, .. } => {
            lemma_stmts_reads_finite(then_branch.stmts, l);
            match else_branch {
                Some(b) => lemma_stmts_reads_finite(b.stmts, l),
                None => {},
            }
        },
        _ => {},
    }
}

// ------------------------------------------------------------------ MP: runs inside a tour

/// The conditions of an expression read inside a `tour`: outside a condition, every name it
/// reads is counted (`r`) or bound in the `tour` only (`k`), and so is every name it reaches
/// through a path or a record literal.
pub open spec fn reads_ok(mode: Mode, e: ExprV, r: Set<Seq<char>>, k: Set<Seq<char>>, l: Set<Seq<char>>) -> bool {
    mode.perception || (expr_reads(e, l).subset_of(r.union(k)) && hidden(e).subset_of(k))
}

proof fn lemma_mp_eval(ctx: Ctx, d: Seq<i64>, mode: Mode, st: St, e: ExprV, f: nat, r: Set<Seq<char>>, k: Set<Seq<char>>, l: Set<Seq<char>>)
    requires
        mp_ok(ctx, mode, st, r, k),
        l.subset_of(k),
        reads_ok(mode, e, r, k, l),
    ensures
        mp_step(mode, st, eval(ctx, d, mode, st, e, f), r, k),
    decreases f, expr_size(e), 1int,
{
    match e.kind {
        ExprKindV::Var(n) => {
            if !mode.perception {
                if l.contains(n) {
                    assert(k.contains(n));
                } else {
                    assert(expr_reads(e, l).contains(n));
                    assert(r.union(k).contains(n));
                }
            }
            lemma_mp_read(ctx, mode, st, n, r, k);
        },
        ExprKindV::Unary(_, x) => {
            lemma_mp_eval(ctx, d, mode, st, *x, f, r, k, l);
        },
        ExprKindV::Binary(_, a, b) => {
            lemma_mp_eval(ctx, d, mode, st, *a, f, r, k, l);
            let s1 = eval(ctx, d, mode, st, *a, f).0;
            lemma_mp_eval(ctx, d, mode, s1, *b, f, r, k, l);
        },
        ExprKindV::Call(name, args) => {
            lemma_mp_call(ctx, d, mode, st, name, args, f, r, k, l);
        },
        ExprKindV::Path(left, _) => {
            if crate::interp::scope_of(st.env, left) is Some {
                lemma_mp_read(ctx, mode, st, left, r, k);
            }
        },
        ExprKindV::Struct(_, fields) => {
            lemma_mp_fields(ctx, d, mode, st, fields, f, r, k);
        },
        _ => {},
    }
}

proof fn lemma_mp_fields(ctx: Ctx, d: Seq<i64>, mode: Mode, st: St, s: Seq<(Seq<char>, ExprV)>, f: nat, r: Set<Seq<char>>, k: Set<Seq<char>>)
    requires
        mp_ok(ctx, mode, st, r, k),
        mode.perception || names_in_fields(s).subset_of(k),
    ensures
        mp_step(mode, st, eval_fields(ctx, d, mode, st, s, f), r, k),
    decreases f, fields_size(s), 0int,
{
    if s.len() > 0 {
        lemma_mp_fields(ctx, d, mode, st, s.drop_last(), f, r, k);
        let s1 = eval_fields(ctx, d, mode, st, s.drop_last(), f).0;
        lemma_reads_in_names(s.last().1, Set::empty());
        lemma_mp_eval(ctx, d, mode, s1, s.last().1, f, r, k, Set::empty());
    }
}

proof fn lemma_mp_args(ctx: Ctx, d: Seq<i64>, mode: Mode, st: St, s: Seq<ExprV>, f: nat, r: Set<Seq<char>>, k: Set<Seq<char>>, l: Set<Seq<char>>)
    requires
        mp_ok(ctx, mode, st, r, k),
        l.subset_of(k),
        mode.perception || (exprs_reads(s, l).subset_of(r.union(k)) && hidden_all(s).subset_of(k)),
    ensures
        mp_step(mode, st, eval_args(ctx, d, mode, st, s, f), r, k),
    decreases f, exprs_size(s), 0int,
{
    if s.len() > 0 {
        lemma_mp_args(ctx, d, mode, st, s.drop_last(), f, r, k, l);
        let s1 = eval_args(ctx, d, mode, st, s.drop_last(), f).0;
        lemma_mp_eval(ctx, d, mode, s1, s.last(), f, r, k, l);
    }
}

proof fn lemma_mp_call(ctx: Ctx, d: Seq<i64>, mode: Mode, st: St, name: Seq<char>, args: Seq<ExprV>, f: nat, r: Set<Seq<char>>, k: Set<Seq<char>>, l: Set<Seq<char>>)
    requires
        mp_ok(ctx, mode, st, r, k),
        l.subset_of(k),
        mode.perception || ((name == "cd_pret"@ || exprs_reads(args, l).subset_of(r.union(k))) && hidden_all(args).subset_of(k)),
    ensures
        mp_step(mode, st, eval_call(ctx, d, mode, st, name, args, f), r, k),
    decreases f, exprs_size(args), 2int,
{
    if name == "rand"@ || name == "butin"@ {
        reveal_strlit("rand");
        reveal_strlit("butin");
        reveal_strlit("cd_pret");
        assert(name != "cd_pret"@);
        if args.len() >= 2 {
            lemma_exprs_size_index(args, 0);
            lemma_exprs_size_index(args, 1);
            lemma_reads_index(args, l, 0);
            lemma_reads_index(args, l, 1);
            if !mode.perception {
                lemma_subset_trans(expr_reads(args[0], l), exprs_reads(args, l), r.union(k));
                lemma_subset_trans(expr_reads(args[1], l), exprs_reads(args, l), r.union(k));
                lemma_subset_trans(hidden(args[0]), hidden_all(args), k);
                lemma_subset_trans(hidden(args[1]), hidden_all(args), k);
            }
            lemma_mp_eval(ctx, d, mode, st, args[0], f, r, k, l);
            let s1 = eval(ctx, d, mode, st, args[0], f).0;
            lemma_mp_eval(ctx, d, mode, s1, args[1], f, r, k, l);
        } else if args.len() == 1 {
            lemma_exprs_size_index(args, 0);
            lemma_reads_index(args, l, 0);
            if !mode.perception {
                lemma_subset_trans(expr_reads(args[0], l), exprs_reads(args, l), r.union(k));
                lemma_subset_trans(hidden(args[0]), hidden_all(args), k);
            }
            lemma_mp_eval(ctx, d, mode, st, args[0], f, r, k, l);
        }
    } else if name == "cd_pret"@ {
    } else {
        match find_bot(ctx.items, name) {
            None => {},
            Some(b) => {
                lemma_mp_args(ctx, d, mode, st, args, f, r, k, l);
                let (s1, r1) = eval_args(ctx, d, mode, st, args, f);
                match r1 {
                    Ok(vs) => {
                        let (rt2, r2) = if mode.in_tour {
                            crate::interp::spend(s1.rt, bot_cost(ctx.items, ctx.cfg, name))
                        } else {
                            (s1.rt, Ok(()))
                        };
                        if f > 0 && r2 is Ok {
                            lemma_find_bot_member(ctx.items, name);
                            let i = choose|i: int| 0 <= i < ctx.items.len() && #[trigger] ctx.items[i] == ItemV::Bot(find_bot(ctx.items, name)->0);
                            assert(ctx.items[i] == ItemV::Bot(b));
                            let rt3 = crate::interp::act_rt(rt2, name);
                            let s2 = crate::interp::with_rt(s1, crate::interp::cooldown_rt(rt3, name, b.cd));
                            lemma_out_bot(ctx, d, mode, s2, b, vs, (f - 1) as nat);
                        }
                    },
                    Err(_) => {},
                }
            },
        }
    }
}

proof fn lemma_mp_cond(ctx: Ctx, d: Seq<i64>, mode: Mode, st: St, e: ExprV, f: nat, r: Set<Seq<char>>, k: Set<Seq<char>>, l: Set<Seq<char>>)
    requires
        mp_ok(ctx, mode, st, r, k),
        l.subset_of(k),
    ensures
        mp_step(mode, st, eval_cond(ctx, d, mode, st, e, f), r, k),
    decreases f, expr_size(e), 2int,
{
    lemma_mp_eval(ctx, d, Mode { perception: true, ..mode }, st, e, f, r, k, l);
}

/// The conditions of statements run inside a `tour` (see `reads_ok`).
pub open spec fn stmts_ok(s: Seq<StmtV>, r: Set<Seq<char>>, k: Set<Seq<char>>, l: Set<Seq<char>>) -> bool {
    &&& !stmts_dynamic(s)
    &&& crate::sema::stmts_reads(s, l).subset_of(r.union(k))
    &&& hidden_stmts(s).subset_of(k)
    &&& l.subset_of(k)
}

proof fn lemma_mp_block(ctx: Ctx, d: Seq<i64>, mode: Mode, st: St, b: BlockV, f: nat, r: Set<Seq<char>>, k: Set<Seq<char>>, l: Set<Seq<char>>)
    requires
        mp_ok(ctx, mode, st, r, k),
        stmts_ok(b.stmts, r, k, l),
    ensures
        mp_step(mode, st, exec_block(ctx, d, mode, st, b, f), r, k),
    decreases f, block_size(b), 0int,
{
    let s0 = St { env: st.env.push(Map::empty()), ..st };
    assert(outside_free(s0, mode.tour_base as nat, k)) by {
        assert forall|i: int, n: Seq<char>| 0 <= i < mode.tour_base && #[trigger] k.contains(n) implies !(#[trigger] s0.env[i]).contains_key(n) by {
            assert(s0.env[i] == st.env[i]);
        }
    }
    lemma_mp_stmts(ctx, d, mode, s0, b.stmts, f, r, k, l);
    let s1 = exec_stmts(ctx, d, mode, s0, b.stmts, f).0;
    let s2 = St { env: s1.env.drop_last(), ..s1 };
    assert(outside_free(s2, mode.tour_base as nat, k)) by {
        assert forall|i: int, n: Seq<char>| 0 <= i < mode.tour_base && #[trigger] k.contains(n) implies !(#[trigger] s2.env[i]).contains_key(n) by {
            assert(s2.env[i] == s1.env[i]);
        }
    }
}

proof fn lemma_mp_stmts(ctx: Ctx, d: Seq<i64>, mode: Mode, st: St, s: Seq<StmtV>, f: nat, r: Set<Seq<char>>, k: Set<Seq<char>>, l: Set<Seq<char>>)
    requires
        mp_ok(ctx, mode, st, r, k),
        stmts_ok(s, r, k, l),
        st.env.len() > mode.tour_base,
    ensures
        mp_step(mode, st, exec_stmts(ctx, d, mode, st, s, f), r, k),
    decreases f, stmts_size(s), 0int,
{
    if s.len() > 0 {
        lemma_mp_stmts(ctx, d, mode, st, s.drop_last(), f, r, k, l);
        let s1 = exec_stmts(ctx, d, mode, st, s.drop_last(), f).0;
        lemma_mp_stmt(ctx, d, mode, s1, s.last(), f, r, k, l);
    }
}

proof fn lemma_mp_bind(mode: Mode, st: St, name: Seq<char>, v: ValueV, k: Set<Seq<char>>)
    requires
        outside_free(st, mode.tour_base as nat, k),
        st.env.len() > mode.tour_base,
    ensures
        outside_free(crate::interp::bind(st, name, v), mode.tour_base as nat, k),
        crate::interp::bind(st, name, v).env.len() == st.env.len(),
{
    let s2 = crate::interp::bind(st, name, v);
    assert forall|i: int, n: Seq<char>| 0 <= i < mode.tour_base && #[trigger] k.contains(n) implies !(#[trigger] s2.env[i]).contains_key(n) by {
        assert(s2.env[i] == st.env[i]);
    }
}

proof fn lemma_mp_write(mode: Mode, st: St, name: Seq<char>, v: ValueV, k: Set<Seq<char>>)
    requires
        outside_free(st, mode.tour_base as nat, k),
    ensures
        outside_free(crate::interp::write_var(st, name, v).0, mode.tour_base as nat, k),
        crate::interp::write_var(st, name, v).0.env.len() == st.env.len(),
{
    match crate::interp::scope_of(st.env, name) {
        None => {},
        Some(j) => {
            lemma_scope_of_bound(st.env, name);
            let s2 = crate::interp::write_var(st, name, v).0;
            assert forall|i: int, n: Seq<char>| 0 <= i < mode.tour_base && #[trigger] k.contains(n) implies !(#[trigger] s2.env[i]).contains_key(n) by {
                if i == j {
                    assert(n != name);
                } else {
                    assert(s2.env[i] == st.env[i]);
                }
            }
        },
    }
}

proof fn lemma_mp_decl(ctx: Ctx, d: Seq<i64>, mode: Mode, st: St, name: Seq<char>, value: ExprV, f: nat, r: Set<Seq<char>>, k: Set<Seq<char>>, l: Set<Seq<char>>)
    requires
        mp_ok(ctx, mode, st, r, k),
        expr_reads(value, l).subset_of(r.union(k)),
        hidden(value).subset_of(k),
        l.subset_of(k),
        st.env.len() > mode.tour_base,
    ensures
        mp_step(mode, st, decl_stmt(ctx, d, mode, st, name, value, f), r, k),
    decreases f, expr_size(value) + 1, 0int,
{
    lemma_mp_eval(ctx, d, mode, st, value, f, r, k, l);
    let s1 = eval(ctx, d, mode, st, value, f);
    match s1.1 {
        Ok(v) => {
            let rt2 = if mode.in_tour { crate::interp::spend(s1.0.rt, s1.0.rt.cfg.assign_pa).0 } else { s1.0.rt };
            lemma_mp_bind(mode, crate::interp::with_rt(s1.0, rt2), name, v, k);
        },
        Err(_) => {},
    }
}

proof fn lemma_mp_assign(ctx: Ctx, d: Seq<i64>, mode: Mode, st: St, name: Seq<char>, op: crate::ast::AssignOp, value: ExprV, f: nat, r: Set<Seq<char>>, k: Set<Seq<char>>, l: Set<Seq<char>>)
    requires
        mp_ok(ctx, mode, st, r, k),
        stmt_reads(StmtV::Assign { name, op, value, line: 0, col: 0 }, l).subset_of(r.union(k)),
        hidden(value).subset_of(k),
        l.subset_of(k),
    ensures
        ({
            let out = exec_stmt(ctx, d, mode, st, StmtV::Assign { name, op, value, line: 0, col: 0 }, f);
            mp_step(mode, st, out, r, k)
        }),
    decreases f, expr_size(value) + 1, 0int,
{
    let reads = stmt_reads(StmtV::Assign { name, op, value, line: 0, col: 0 }, l);
    assert(expr_reads(value, l).subset_of(reads));
    lemma_subset_trans(expr_reads(value, l), reads, r.union(k));
    lemma_mp_eval(ctx, d, mode, st, value, f, r, k, l);
    let (s1, rv) = eval(ctx, d, mode, st, value, f);
    match rv {
        Ok(rhs) => {
            if op != crate::ast::AssignOp::Replace {
                if !l.contains(name) {
                    assert(reads.contains(name));
                }
                lemma_mp_read(ctx, mode, s1, name, r, k);
            }
            let s2 = if op == crate::ast::AssignOp::Replace { s1 } else { crate::interp::read_var(mode, s1, name).0 };
            let rt3 = if mode.in_tour { crate::interp::spend(s2.rt, s2.rt.cfg.assign_pa).0 } else { s2.rt };
            assert forall|v: ValueV| #[trigger] crate::interp::write_var(crate::interp::with_rt(s2, rt3), name, v).0.env.len() == s2.env.len()
                && outside_free(crate::interp::write_var(crate::interp::with_rt(s2, rt3), name, v).0, mode.tour_base as nat, k) by {
                lemma_mp_write(mode, crate::interp::with_rt(s2, rt3), name, v, k);
            }
        },
        Err(_) => {},
    }
}

proof fn lemma_mp_stmt(ctx: Ctx, d: Seq<i64>, mode: Mode, st: St, s: StmtV, f: nat, r: Set<Seq<char>>, k: Set<Seq<char>>, l: Set<Seq<char>>)
    requires
        mp_ok(ctx, mode, st, r, k),
        !crate::sema::stmt_dynamic(s),
        stmt_reads(s, l).subset_of(r.union(k)),
        hidden_stmt(s).subset_of(k),
        l.subset_of(k),
        st.env.len() > mode.tour_base,
    ensures
        mp_step(mode, st, exec_stmt(ctx, d, mode, st, s, f), r, k),
    decreases f, stmt_size(s), 3int,
{
    match s {
        StmtV::Loot { name, value, .. } => {
            lemma_mp_decl(ctx, d, mode, st, name, value, f, r, k, l);
        },
        StmtV::Ban { name, value, .. } => {
            lemma_mp_decl(ctx, d, mode, st, name, value, f, r, k, l);
        },
        StmtV::Assign { name, op, value, .. } => {
            lemma_mp_assign(ctx, d, mode, st, name, op, value, f, r, k, l);
        },
        StmtV::Detect { cond, then_branch, else_branch } => {
            lemma_mp_cond(ctx, d, mode, st, cond, f, r, k, l);
            let s1 = eval_cond(ctx, d, mode, st, cond, f).0;
            lemma_mp_block(ctx, d, mode, s1, then_branch, f, r, k, l);
            match else_branch {
                Some(b) => {
                    lemma_mp_block(ctx, d, mode, s1, b, f, r, k, l);
                },
                None => {},
            }
        },
        StmtV::Gg(Some(e)) => {
            lemma_mp_eval(ctx, d, mode, st, e, f, r, k, l);
        },
        StmtV::Up(e) => {
            lemma_mp_eval(ctx, d, mode, st, e, f, r, k, l);
        },
        StmtV::Afk(e) => {
            lemma_mp_eval(ctx, d, mode, st, e, f, r, k, l);
        },
        StmtV::Expr(e) => {
            lemma_mp_eval(ctx, d, mode, st, e, f, r, k, l);
        },
        _ => {},
    }
}

// ------------------------------------------------------------------ law

/// What the static check accepts, the runtime honours, for MP too: a `tour` whose cost is
/// static and that reads no more outside variables than the MP budget (`cdc check` raises no
/// E-PM for it) never stops with `PmInsuffisant` when it runs.
///
/// The check counts the distinct variables declared outside the `tour` that it reads outside
/// conditions; the runtime charges each such variable once. They agree when the names the
/// `tour` declares, and those it reaches through a path or a record literal (which the check
/// does not count), are not bound outside it, and when the bots run outside any `tour`.
pub proof fn lemma_static_tour_within_mp(ctx: Ctx, d: Seq<i64>, mode: Mode, st: St, b: BlockV, f: nat)
    requires
        !stmts_dynamic(b.stmts),
        crate::sema::tour_pm(b.stmts).len() <= ctx.cfg.max_pm,
        st.rt.cfg == ctx.cfg,
        bots_tour_free(ctx.items),
        st.pm_ids.no_duplicates(),
        st.pm_ids.len() + ctx.cfg.max_pm < u64::MAX,
        forall|i: int, n: Seq<char>| 0 <= i < st.env.len()
            && (crate::sema::stmts_locals(b.stmts).contains(n) || hidden_stmts(b.stmts).contains(n))
            ==> !(#[trigger] st.env[i].contains_key(n)),
    ensures
        !pm_fault(exec_stmt(ctx, d, mode, st, StmtV::Tour(b), f).1),
{
    let l = crate::sema::stmts_locals(b.stmts);
    let k = l.union(hidden_stmts(b.stmts));
    let r = crate::sema::tour_pm(b.stmts);
    lemma_stmts_reads_finite(b.stmts, l);
    let rt = crate::runtime::RuntimeView { pa: st.rt.cfg.max_pa, pm: st.rt.cfg.max_pm, touched: Seq::empty(), ..st.rt };
    let m = Mode { in_tour: true, tour_base: st.env.len() as usize, perception: mode.perception };
    let s0 = St { rt, ..st };
    assert(mp_counts(s0, r));
    assert(outside_free(s0, m.tour_base as nat, k)) by {
        assert forall|i: int, n: Seq<char>| 0 <= i < m.tour_base && #[trigger] k.contains(n) implies !(#[trigger] s0.env[i]).contains_key(n) by {
            assert(l.contains(n) || hidden_stmts(b.stmts).contains(n));
        }
    }
    lemma_mp_block(ctx, d, m, s0, b, f, r, k, l);
}

} // verus!
