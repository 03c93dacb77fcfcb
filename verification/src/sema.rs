//! Semantic analysis: effective AP cost of each `bot`, static AP/MP budget of each `tour`,
//! name resolution and light typing.
//!
//! The budget check only applies to a `tour` whose cost can be computed statically (no loop
//! and no nested `tour`); dynamic costs are left to the runtime.
//!
//! Sums of costs saturate at the bounds of `i64` instead of overflowing.

use vstd::prelude::*;
use crate::ast::{
    block_size, expr_size, exprs_size, exprs_v, fields_init_v, fields_size, lemma_exprs_size_index,
    lemma_exprs_v, lemma_fields_init_v, lemma_fields_size_index, lemma_stmts_size_index, lemma_stmts_v,
    stmt_size, stmts_size, Block, BlockV, BotV, Expr, ExprKind, ExprKindV, ExprV, Item, ItemV, Program,
    Stmt, StmtV, Bot, AssignOp, Pragma, PragmaV, TypeV, PanoV, PersoV, BinOp, UnOp,
    ParamV, VariantV, FieldV, ProgramV, Pano, Perso, Type,
};
use crate::patch::pin_error;
use crate::config::{config_after, default_config, Config};
use crate::text::{decimal, digits_of, chars_of, int_text, nat_text, owned, push_text, string_eq, string_is};

verus! {

// ------------------------------------------------------------------ arithmetic

/// `x` clamped to the range of `i64`.
pub open spec fn clamp(x: int) -> i64 {
    if x > i64::MAX {
        i64::MAX
    } else if x < i64::MIN {
        i64::MIN
    } else {
        x as i64
    }
}

/// Saturating sum.
pub open spec fn sat(a: i64, b: i64) -> i64 {
    clamp(a + b)
}

pub open spec fn max64(a: i64, b: i64) -> i64 {
    if a >= b { a } else { b }
}

fn sat_add(a: i64, b: i64) -> (r: i64)
    ensures
        r == sat(a, b),
{
    if b > 0 && a > i64::MAX - b {
        i64::MAX
    } else if b < 0 && a < i64::MIN - b {
        i64::MIN
    } else {
        a + b
    }
}

// ------------------------------------------------------------------ bots of a program

pub open spec fn items_v(items: Seq<Item>) -> Seq<ItemV> {
    items.map_values(|i: Item| i@)
}

pub open spec fn names_v(v: Seq<String>) -> Seq<Seq<char>> {
    v.map_values(|s: String| s@)
}

/// Number of `bot` items.
pub open spec fn bot_count(items: Seq<ItemV>) -> nat
    decreases items.len(),
{
    if items.len() == 0 {
        0
    } else {
        bot_count(items.drop_last()) + if items.last() is Bot { 1nat } else { 0nat }
    }
}

/// The `bot` a name designates: the last one declared with that name.
pub open spec fn find_bot(items: Seq<ItemV>, name: Seq<char>) -> Option<BotV>
    decreases items.len(),
{
    if items.len() == 0 {
        None
    } else {
        match items.last() {
            ItemV::Bot(b) => if b.name == name { Some(b) } else { find_bot(items.drop_last(), name) },
            _ => find_bot(items.drop_last(), name),
        }
    }
}

/// Calls to these names are builtins, not bots.
pub open spec fn is_builtin(name: Seq<char>) -> bool {
    name == "rand"@ || name == "butin"@ || name == "cd_pret"@
}

// ------------------------------------------------------------------ effective costs

/// Effective AP cost of the bot `name`, while the bots of `vis` are being costed: the
/// declared `coute N pa`, else the cost of its body. A call back into a bot being costed
/// contributes 0, and so does an unknown name.
pub open spec fn bot_cost_in(items: Seq<ItemV>, cfg: Config, vis: Seq<Seq<char>>, name: Seq<char>) -> i64
    decreases bot_count(items) - vis.len(), 0int,
{
    match find_bot(items, name) {
        None => 0,
        Some(b) => match b.cost_pa {
            Some(c) => c,
            None => {
                if vis.contains(name) || vis.len() >= bot_count(items) {
                    0
                } else {
                    stmts_cost(items, cfg, vis.push(name), b.body.stmts)
                }
            },
        },
    }
}

/// Cost of a sequence of statements: their sum.
pub open spec fn stmts_cost(items: Seq<ItemV>, cfg: Config, vis: Seq<Seq<char>>, s: Seq<StmtV>) -> i64
    decreases bot_count(items) - vis.len(), stmts_size(s),
{
    if s.len() == 0 {
        0
    } else {
        sat(stmts_cost(items, cfg, vis, s.drop_last()), stmt_cost(items, cfg, vis, s.last()))
    }
}

/// Cost of a statement: assignments and `up` cost their configured price plus their
/// expression; loops and `tour` cost their body once; `detect` costs its condition and its
/// dearer branch.
pub open spec fn stmt_cost(items: Seq<ItemV>, cfg: Config, vis: Seq<Seq<char>>, s: StmtV) -> i64
    decreases bot_count(items) - vis.len(), stmt_size(s),
{
    match s {
        StmtV::Loot { value, .. } => sat(cfg.assign_pa, expr_cost(items, cfg, vis, value)),
        StmtV::Ban { value, .. } => sat(cfg.assign_pa, expr_cost(items, cfg, vis, value)),
        StmtV::Assign { value, .. } => sat(cfg.assign_pa, expr_cost(items, cfg, vis, value)),
        StmtV::Up(e) => sat(cfg.up_pa, expr_cost(items, cfg, vis, e)),
        StmtV::Afk(e) => expr_cost(items, cfg, vis, e),
        StmtV::Expr(e) => expr_cost(items, cfg, vis, e),
        StmtV::Gg(Some(e)) => expr_cost(items, cfg, vis, e),
        StmtV::Gg(None) => 0,
        StmtV::Passer => 0,
        StmtV::Tour(b) => stmts_cost(items, cfg, vis, b.stmts),
        StmtV::Farm { body, .. } => stmts_cost(items, cfg, vis, body.stmts),
        StmtV::Grind { body, .. } => stmts_cost(items, cfg, vis, body.stmts),
        StmtV::Detect { cond, then_branch, else_branch } => {
            let e = match else_branch {
                Some(b) => stmts_cost(items, cfg, vis, b.stmts),
                None => 0,
            };
            sat(expr_cost(items, cfg, vis, cond), max64(stmts_cost(items, cfg, vis, then_branch.stmts), e))
        },
    }
}

/// Cost of an expression: the effective costs of the bots it calls.
pub open spec fn expr_cost(items: Seq<ItemV>, cfg: Config, vis: Seq<Seq<char>>, e: ExprV) -> i64
    decreases bot_count(items) - vis.len(), expr_size(e),
{
    match e.kind {
        ExprKindV::Unary(_, x) => expr_cost(items, cfg, vis, *x),
        ExprKindV::Binary(_, l, r) => sat(expr_cost(items, cfg, vis, *l), expr_cost(items, cfg, vis, *r)),
        ExprKindV::Call(name, args) => {
            let here = if is_builtin(name) { 0 } else { bot_cost_in(items, cfg, vis, name) };
            sat(here, exprs_cost(items, cfg, vis, args))
        },
        ExprKindV::Struct(_, fields) => fields_cost(items, cfg, vis, fields),
        _ => 0,
    }
}

pub open spec fn exprs_cost(items: Seq<ItemV>, cfg: Config, vis: Seq<Seq<char>>, s: Seq<ExprV>) -> i64
    decreases bot_count(items) - vis.len(), exprs_size(s),
{
    if s.len() == 0 {
        0
    } else {
        sat(exprs_cost(items, cfg, vis, s.drop_last()), expr_cost(items, cfg, vis, s.last()))
    }
}

pub open spec fn fields_cost(items: Seq<ItemV>, cfg: Config, vis: Seq<Seq<char>>, s: Seq<(Seq<char>, ExprV)>) -> i64
    decreases bot_count(items) - vis.len(), fields_size(s),
{
    if s.len() == 0 {
        0
    } else {
        sat(fields_cost(items, cfg, vis, s.drop_last()), expr_cost(items, cfg, vis, s.last().1))
    }
}

/// Effective AP cost of the bot `name` in a program.
pub open spec fn bot_cost(items: Seq<ItemV>, cfg: Config, name: Seq<char>) -> i64 {
    bot_cost_in(items, cfg, Seq::empty(), name)
}

/// Effective cost of every bot of a program, by name.
pub open spec fn cost_map(items: Seq<ItemV>, cfg: Config) -> Map<Seq<char>, i64> {
    Map::new(|n: Seq<char>| find_bot(items, n) is Some, |n: Seq<char>| bot_cost(items, cfg, n))
}

/// Table of effective costs, by bot name.
pub struct CostTable {
    entries: Vec<(String, i64)>,
}

pub open spec fn table_lookup(s: Seq<(String, i64)>, name: Seq<char>) -> Option<i64>
    decreases s.len(),
{
    if s.len() == 0 {
        None
    } else if s.last().0@ == name {
        Some(s.last().1)
    } else {
        table_lookup(s.drop_last(), name)
    }
}

impl View for CostTable {
    type V = Map<Seq<char>, i64>;

    closed spec fn view(&self) -> Map<Seq<char>, i64> {
        Map::new(
            |n: Seq<char>| table_lookup(self.entries@, n) is Some,
            |n: Seq<char>| table_lookup(self.entries@, n)->0,
        )
    }
}

impl CostTable {
    /// Effective cost of the bot `name`, if the program declares one.
    pub fn get(&self, name: &str) -> (r: Option<i64>)
        ensures
            r == (if self@.contains_key(name@) { Some(self@[name@]) } else { None::<i64> }),
    {
        let mut i = self.entries.len();
        proof {
            assert(self.entries@.take(i as int) =~= self.entries@);
        }
        while i > 0
            invariant
                i <= self.entries@.len(),
                table_lookup(self.entries@, name@) == table_lookup(self.entries@.take(i as int), name@),
            decreases i,
        {
            let k = i - 1;
            proof {
                assert(self.entries@.take(i as int).drop_last() =~= self.entries@.take(k as int));
            }
            if crate::text::str_is(self.entries[k].0.as_str(), name) {
                return Some(self.entries[k].1);
            }
            i = k;
        }
        None
    }

    /// Effective cost of `name`, 0 for a name that is not a bot.
    pub(crate) fn cost_or_zero(&self, name: &String) -> (c: i64)
        ensures
            c == (if self@.contains_key(name@) { self@[name@] } else { 0 }),
    {
        match self.get(name.as_str()) {
            Some(c) => c,
            None => 0,
        }
    }
}

/// A name that some `bot` item carries designates a bot.
pub(crate) proof fn lemma_find_bot_some(items: Seq<ItemV>, i: int)
    requires
        0 <= i < items.len(),
        items[i] is Bot,
    ensures
        find_bot(items, items[i]->Bot_0.name) is Some,
    decreases items.len(),
{
    if i < items.len() - 1 {
        lemma_find_bot_some(items.drop_last(), i);
        assert(items.drop_last()[i] == items[i]);
    }
}

fn count_bots(items: &Vec<Item>) -> (n: usize)
    ensures
        n == bot_count(items_v(items@)),
{
    let mut n: usize = 0;
    let mut i: usize = 0;
    while i < items.len()
        invariant
            i <= items@.len(),
            n == bot_count(items_v(items@.take(i as int))),
            n <= i,
        decreases items.len() - i,
    {
        proof {
            assert(items_v(items@.take(i + 1)).drop_last() =~= items_v(items@.take(i as int)));
        }
        if let Item::Bot(_) = &items[i] {
            n += 1;
        }
        i += 1;
    }
    proof {
        assert(items@.take(i as int) =~= items@);
    }
    n
}

pub(crate) fn find_bot_x<'a>(items: &'a Vec<Item>, name: &String) -> (r: Option<&'a Bot>)
    ensures
        match r {
            Some(b) => find_bot(items_v(items@), name@) == Some(b@),
            None => find_bot(items_v(items@), name@) is None,
        },
{
    let mut i = items.len();
    proof {
        assert(items@.take(i as int) =~= items@);
    }
    while i > 0
        invariant
            i <= items@.len(),
            find_bot(items_v(items@), name@) == find_bot(items_v(items@.take(i as int)), name@),
        decreases i,
    {
        let k = i - 1;
        proof {
            assert(items_v(items@.take(i as int)).drop_last() =~= items_v(items@.take(k as int)));
        }
        if let Item::Bot(b) = &items[k] {
            if string_eq(&b.name, name) {
                return Some(b);
            }
        }
        i = k;
    }
    None
}

fn contains_name(v: &Vec<String>, name: &String) -> (r: bool)
    ensures
        r == names_v(v@).contains(name@),
{
    let mut i: usize = 0;
    while i < v.len()
        invariant
            i <= v@.len(),
            forall|j: int| 0 <= j < i ==> v@[j]@ != name@,
        decreases v.len() - i,
    {
        if string_eq(&v[i], name) {
            proof {
                assert(names_v(v@)[i as int] == name@);
            }
            return true;
        }
        i += 1;
    }
    proof {
        if names_v(v@).contains(name@) {
            let j = choose|j: int| 0 <= j < names_v(v@).len() && names_v(v@)[j] == name@;
            assert(v@[j]@ == name@);
        }
    }
    false
}

fn builtin_x(name: &String) -> (r: bool)
    ensures
        r == is_builtin(name@),
{
    string_is(name, "rand") || string_is(name, "butin") || string_is(name, "cd_pret")
}

fn cost_bot(items: &Vec<Item>, nb: usize, cfg: &Config, vis: &Vec<String>, name: &String) -> (c: i64)
    requires
        nb == bot_count(items_v(items@)),
    ensures
        c == bot_cost_in(items_v(items@), *cfg, names_v(vis@), name@),
    decreases bot_count(items_v(items@)) - vis@.len(), 0int,
{
    match find_bot_x(items, name) {
        None => 0,
        Some(b) => match b.cost_pa {
            Some(c) => c,
            None => {
                if contains_name(vis, name) || vis.len() >= nb {
                    0
                } else {
                    let mut v2 = vis.clone();
                    v2.push(name.clone());
                    proof {
                        assert(names_v(v2@) =~= names_v(vis@).push(name@)) by {
                            assert forall|j: int| 0 <= j < vis@.len() implies v2@[j] == vis@[j] by {
                                assert(cloned::<String>(vis@[j], v2@[j]));
                            }
                        }
                    }
                    cost_block(items, nb, cfg, &v2, &b.body)
                }
            },
        },
    }
}

fn cost_block(items: &Vec<Item>, nb: usize, cfg: &Config, vis: &Vec<String>, b: &Block) -> (c: i64)
    requires
        nb == bot_count(items_v(items@)),
    ensures
        c == stmts_cost(items_v(items@), *cfg, names_v(vis@), b@.stmts),
    decreases bot_count(items_v(items@)) - vis@.len(), stmts_size(b@.stmts),
{
    let ghost iv = items_v(items@);
    let ghost s = b@.stmts;
    proof {
        lemma_stmts_v(b.stmts@);
    }
    let mut acc: i64 = 0;
    let mut i: usize = 0;
    while i < b.stmts.len()
        invariant
            nb == bot_count(iv),
            iv == items_v(items@),
            s == b@.stmts,
            s.len() == b.stmts@.len(),
            forall|j: int| 0 <= j < s.len() ==> #[trigger] s[j] == b.stmts@[j]@,
            i <= s.len(),
            acc == stmts_cost(iv, *cfg, names_v(vis@), s.take(i as int)),
        decreases s.len() - i,
    {
        proof {
            lemma_stmts_size_index(s, i as int);
            assert(s.take(i + 1).drop_last() =~= s.take(i as int));
        }
        let c = cost_stmt(items, nb, cfg, vis, &b.stmts[i]);
        acc = sat_add(acc, c);
        i += 1;
    }
    proof {
        assert(s.take(i as int) =~= s);
    }
    acc
}

fn cost_stmt(items: &Vec<Item>, nb: usize, cfg: &Config, vis: &Vec<String>, s: &Stmt) -> (c: i64)
    requires
        nb == bot_count(items_v(items@)),
    ensures
        c == stmt_cost(items_v(items@), *cfg, names_v(vis@), s@),
    decreases bot_count(items_v(items@)) - vis@.len(), stmt_size(s@),
{
    match s {
        Stmt::Loot { value, .. } | Stmt::Ban { value, .. } | Stmt::Assign { value, .. } => {
            let c = cost_expr(items, nb, cfg, vis, value);
            sat_add(cfg.assign_pa, c)
        },
        Stmt::Up(e) => {
            let c = cost_expr(items, nb, cfg, vis, e);
            sat_add(cfg.up_pa, c)
        },
        Stmt::Afk(e) | Stmt::Expr(e) | Stmt::Gg(Some(e)) => cost_expr(items, nb, cfg, vis, e),
        Stmt::Gg(None) | Stmt::Passer => 0,
        Stmt::Tour(blk) => cost_block(items, nb, cfg, vis, blk),
        Stmt::Farm { body, .. } => cost_block(items, nb, cfg, vis, body),
        Stmt::Grind { body, .. } => cost_block(items, nb, cfg, vis, body),
        Stmt::Detect { cond, then_branch, else_branch } => {
            let e = match else_branch {
                Some(b) => cost_block(items, nb, cfg, vis, b),
                None => 0,
            };
            let t = cost_block(items, nb, cfg, vis, then_branch);
            let m = if t >= e { t } else { e };
            let c = cost_expr(items, nb, cfg, vis, cond);
            sat_add(c, m)
        },
    }
}

fn cost_expr(items: &Vec<Item>, nb: usize, cfg: &Config, vis: &Vec<String>, e: &Expr) -> (c: i64)
    requires
        nb == bot_count(items_v(items@)),
    ensures
        c == expr_cost(items_v(items@), *cfg, names_v(vis@), e@),
    decreases bot_count(items_v(items@)) - vis@.len(), expr_size(e@),
{
    match &e.kind {
        ExprKind::Unary(_, x) => cost_expr(items, nb, cfg, vis, x),
        ExprKind::Binary(_, l, r) => {
            let a = cost_expr(items, nb, cfg, vis, l);
            let b = cost_expr(items, nb, cfg, vis, r);
            sat_add(a, b)
        },
        ExprKind::Call(name, args) => {
            let here = if builtin_x(name) { 0 } else { cost_bot(items, nb, cfg, vis, name) };
            let ghost a = exprs_v(args@);
            proof {
                lemma_exprs_v(args@);
            }
            let mut acc: i64 = 0;
            let mut i: usize = 0;
            while i < args.len()
                invariant
                    nb == bot_count(items_v(items@)),
                    a == exprs_v(args@),
                    e@.kind == ExprKindV::Call(name@, a),
                    a.len() == args@.len(),
                    forall|j: int| 0 <= j < a.len() ==> #[trigger] a[j] == args@[j]@,
                    i <= a.len(),
                    acc == exprs_cost(items_v(items@), *cfg, names_v(vis@), a.take(i as int)),
                decreases a.len() - i,
            {
                proof {
                    lemma_exprs_size_index(a, i as int);
                    assert(a.take(i + 1).drop_last() =~= a.take(i as int));
                }
                let c = cost_expr(items, nb, cfg, vis, &args[i]);
                acc = sat_add(acc, c);
                i += 1;
            }
            proof {
                assert(a.take(i as int) =~= a);
            }
            sat_add(here, acc)
        },
        ExprKind::Struct(_, fields) => {
            let ghost a = fields_init_v(fields@);
            proof {
                lemma_fields_init_v(fields@);
            }
            let mut acc: i64 = 0;
            let mut i: usize = 0;
            while i < fields.len()
                invariant
                    nb == bot_count(items_v(items@)),
                    a == fields_init_v(fields@),
                    a.len() == fields@.len(),
                    forall|j: int| 0 <= j < a.len() ==> #[trigger] a[j] == (fields@[j].name@, fields@[j].value@),
                    expr_size(e@) == 1 + fields_size(a),
                    i <= a.len(),
                    acc == fields_cost(items_v(items@), *cfg, names_v(vis@), a.take(i as int)),
                decreases a.len() - i,
            {
                proof {
                    lemma_fields_size_index(a, i as int);
                    assert(a.take(i + 1).drop_last() =~= a.take(i as int));
                }
                let c = cost_expr(items, nb, cfg, vis, &fields[i].value);
                acc = sat_add(acc, c);
                i += 1;
            }
            proof {
                assert(a.take(i as int) =~= a);
            }
            acc
        },
        _ => 0,
    }
}

/// Effective AP cost of every `bot` of the program.
///
/// A declared `coute N pa` wins (a cost the game imposes); otherwise the cost is the sum of
/// the operations of the body (assignments, `up`, nested bot calls…), the dearer branch of
/// each `detect`. A call cycle contributes 0.
pub fn effective_costs(program: &Program, cfg: &Config) -> (t: CostTable)
    ensures
        t@ == cost_map(program@.items, *cfg),
{
    let items = &program.items;
    let ghost iv = items_v(items@);
    proof {
        assert(iv == program@.items);
    }
    let nb = count_bots(items);
    let mut entries: Vec<(String, i64)> = Vec::new();
    let vis: Vec<String> = Vec::new();
    let mut i: usize = 0;
    while i < items.len()
        invariant
            iv == items_v(items@),
            nb == bot_count(iv),
            vis@.len() == 0,
            i <= items@.len(),
            forall|n: Seq<char>| #[trigger] table_lookup(entries@, n) == (match find_bot(items_v(items@.take(i as int)), n) {
                Some(_) => Some(bot_cost(iv, *cfg, n)),
                None => None::<i64>,
            }),
        decreases items.len() - i,
    {
        proof {
            assert(items_v(items@.take(i + 1)).drop_last() =~= items_v(items@.take(i as int)));
            assert(names_v(vis@) =~= Seq::<Seq<char>>::empty());
        }
        let ghost old_entries = entries@;
        if let Item::Bot(b) = &items[i] {
            let c = cost_bot(items, nb, cfg, &vis, &b.name);
            entries.push((b.name.clone(), c));
            proof {
                assert(entries@.drop_last() =~= old_entries);
                assert forall|n: Seq<char>| #[trigger] table_lookup(entries@, n) == (match find_bot(items_v(items@.take(i + 1)), n) {
                    Some(_) => Some(bot_cost(iv, *cfg, n)),
                    None => None::<i64>,
                }) by {
                    assert(items_v(items@.take(i + 1)).last() == ItemV::Bot(b@));
                    assert(table_lookup(old_entries, n) == (match find_bot(items_v(items@.take(i as int)), n) {
                        Some(_) => Some(bot_cost(iv, *cfg, n)),
                        None => None::<i64>,
                    }));
                }
            }
        } else {
            proof {
                assert forall|n: Seq<char>| #[trigger] table_lookup(entries@, n) == (match find_bot(items_v(items@.take(i + 1)), n) {
                    Some(_) => Some(bot_cost(iv, *cfg, n)),
                    None => None::<i64>,
                }) by {
                    assert(!(items_v(items@.take(i + 1)).last() is Bot));
                    assert(table_lookup(old_entries, n) == (match find_bot(items_v(items@.take(i as int)), n) {
                        Some(_) => Some(bot_cost(iv, *cfg, n)),
                        None => None::<i64>,
                    }));
                }
            }
        }
        i += 1;
    }
    proof {
        assert(items@.take(i as int) =~= items@);
    }
    let t = CostTable { entries };
    proof {
        assert(t@ =~= cost_map(program@.items, *cfg));
    }
    t
}

// ------------------------------------------------------------------ shape of a tour

/// A statement list whose cost is dynamic: it holds a loop or a nested `tour`, possibly
/// inside a `detect`.
pub open spec fn stmts_dynamic(s: Seq<StmtV>) -> bool
    decreases stmts_size(s),
{
    if s.len() == 0 {
        false
    } else {
        stmts_dynamic(s.drop_last()) || stmt_dynamic(s.last())
    }
}

pub open spec fn stmt_dynamic(s: StmtV) -> bool
    decreases stmt_size(s),
{
    match s {
        StmtV::Farm { .. } => true,
        StmtV::Grind { .. } => true,
        StmtV::Tour(_) => true,
        StmtV::Detect { then_branch, else_branch, .. } => stmts_dynamic(then_branch.stmts) || match else_branch {
            Some(b) => stmts_dynamic(b.stmts),
            None => false,
        },
        _ => false,
    }
}

/// Names declared (`loot`/`ban`) anywhere in a statement list, `detect` branches included.
pub open spec fn stmts_locals(s: Seq<StmtV>) -> Set<Seq<char>>
    decreases stmts_size(s),
{
    if s.len() == 0 {
        Set::empty()
    } else {
        stmts_locals(s.drop_last()).union(stmt_locals(s.last()))
    }
}

pub open spec fn stmt_locals(s: StmtV) -> Set<Seq<char>>
    decreases stmt_size(s),
{
    match s {
        StmtV::Loot { name, .. } => set![name],
        StmtV::Ban { name, .. } => set![name],
        StmtV::Detect { then_branch, else_branch, .. } => stmts_locals(then_branch.stmts).union(match else_branch {
            Some(b) => stmts_locals(b.stmts),
            None => Set::empty(),
        }),
        _ => Set::empty(),
    }
}

/// Variables outside `locals` read by an expression. The argument of `cd_pret` names a
/// bot and is no read; record constructions and paths read nothing.
pub open spec fn expr_reads(e: ExprV, locals: Set<Seq<char>>) -> Set<Seq<char>>
    decreases expr_size(e),
{
    match e.kind {
        ExprKindV::Var(n) => if locals.contains(n) { Set::empty() } else { set![n] },
        ExprKindV::Unary(_, x) => expr_reads(*x, locals),
        ExprKindV::Binary(_, l, r) => expr_reads(*l, locals).union(expr_reads(*r, locals)),
        ExprKindV::Call(name, args) => if name == "cd_pret"@ { Set::empty() } else { exprs_reads(args, locals) },
        _ => Set::empty(),
    }
}

pub open spec fn exprs_reads(s: Seq<ExprV>, locals: Set<Seq<char>>) -> Set<Seq<char>>
    decreases exprs_size(s),
{
    if s.len() == 0 {
        Set::empty()
    } else {
        exprs_reads(s.drop_last(), locals).union(expr_reads(s.last(), locals))
    }
}

/// Variables outside `locals` read by a statement list outside conditions. A compound
/// assignment (`+=`, `-=`) reads its target.
pub open spec fn stmts_reads(s: Seq<StmtV>, locals: Set<Seq<char>>) -> Set<Seq<char>>
    decreases stmts_size(s),
{
    if s.len() == 0 {
        Set::empty()
    } else {
        stmts_reads(s.drop_last(), locals).union(stmt_reads(s.last(), locals))
    }
}

pub open spec fn stmt_reads(s: StmtV, locals: Set<Seq<char>>) -> Set<Seq<char>>
    decreases stmt_size(s),
{
    match s {
        StmtV::Loot { value, .. } => expr_reads(value, locals),
        StmtV::Ban { value, .. } => expr_reads(value, locals),
        StmtV::Assign { name, op, value, .. } => {
            let target = if op != AssignOp::Replace && !locals.contains(name) { set![name] } else { Set::empty() };
            target.union(expr_reads(value, locals))
        },
        StmtV::Up(e) => expr_reads(e, locals),
        StmtV::Afk(e) => expr_reads(e, locals),
        StmtV::Expr(e) => expr_reads(e, locals),
        StmtV::Gg(Some(e)) => expr_reads(e, locals),
        StmtV::Detect { then_branch, else_branch, .. } => stmts_reads(then_branch.stmts, locals).union(match else_branch {
            Some(b) => stmts_reads(b.stmts, locals),
            None => Set::empty(),
        }),
        _ => Set::empty(),
    }
}

/// MP a static `tour` needs: the distinct outside variables its body reads.
pub open spec fn tour_pm(body: Seq<StmtV>) -> Set<Seq<char>> {
    stmts_reads(body, stmts_locals(body))
}

/// AP of an expression inside a `tour`: the effective costs of the bots it calls.
pub open spec fn expr_pa(eff: Map<Seq<char>, i64>, e: ExprV) -> i64
    decreases expr_size(e),
{
    match e.kind {
        ExprKindV::Unary(_, x) => expr_pa(eff, *x),
        ExprKindV::Binary(_, l, r) => sat(expr_pa(eff, *l), expr_pa(eff, *r)),
        ExprKindV::Call(name, args) => {
            let here = if is_builtin(name) { 0 } else if eff.contains_key(name) { eff[name] } else { 0 };
            sat(here, exprs_pa(eff, args))
        },
        _ => 0,
    }
}

pub open spec fn exprs_pa(eff: Map<Seq<char>, i64>, s: Seq<ExprV>) -> i64
    decreases exprs_size(s),
{
    if s.len() == 0 {
        0
    } else {
        sat(exprs_pa(eff, s.drop_last()), expr_pa(eff, s.last()))
    }
}

/// AP of a loop-free statement list (dearer branch of each `detect`).
pub open spec fn stmts_pa(eff: Map<Seq<char>, i64>, cfg: Config, s: Seq<StmtV>) -> i64
    decreases stmts_size(s),
{
    if s.len() == 0 {
        0
    } else {
        sat(stmts_pa(eff, cfg, s.drop_last()), stmt_pa(eff, cfg, s.last()))
    }
}

pub open spec fn stmt_pa(eff: Map<Seq<char>, i64>, cfg: Config, s: StmtV) -> i64
    decreases stmt_size(s),
{
    match s {
        StmtV::Loot { value, .. } => sat(cfg.assign_pa, expr_pa(eff, value)),
        StmtV::Ban { value, .. } => sat(cfg.assign_pa, expr_pa(eff, value)),
        StmtV::Assign { value, .. } => sat(cfg.assign_pa, expr_pa(eff, value)),
        StmtV::Up(e) => sat(cfg.up_pa, expr_pa(eff, e)),
        StmtV::Afk(e) => expr_pa(eff, e),
        StmtV::Expr(e) => expr_pa(eff, e),
        StmtV::Gg(Some(e)) => expr_pa(eff, e),
        StmtV::Detect { cond, then_branch, else_branch } => {
            let e = match else_branch {
                Some(b) => stmts_pa(eff, cfg, b.stmts),
                None => 0,
            };
            sat(expr_pa(eff, cond), max64(stmts_pa(eff, cfg, then_branch.stmts), e))
        },
        _ => 0,
    }
}

/// Source position of a statement, where it has one.
pub open spec fn stmt_pos(s: StmtV) -> Option<(u32, u32)> {
    match s {
        StmtV::Assign { line, col, .. } => Some((line, col)),
        StmtV::Loot { value, .. } => Some((value.line, value.col)),
        StmtV::Ban { value, .. } => Some((value.line, value.col)),
        StmtV::Up(e) => Some((e.line, e.col)),
        StmtV::Afk(e) => Some((e.line, e.col)),
        StmtV::Expr(e) => Some((e.line, e.col)),
        StmtV::Gg(Some(e)) => Some((e.line, e.col)),
        StmtV::Detect { cond, .. } => Some((cond.line, cond.col)),
        StmtV::Farm { cond, .. } => Some((cond.line, cond.col)),
        _ => None,
    }
}

/// Position of the first statement of a list that has one.
pub open spec fn first_pos(s: Seq<StmtV>) -> Option<(u32, u32)>
    decreases s.len(),
{
    if s.len() == 0 {
        None
    } else {
        match first_pos(s.drop_last()) {
            Some(p) => Some(p),
            None => stmt_pos(s.last()),
        }
    }
}

/// Where a diagnostic about a `tour` body points: its first positioned statement, else 1:1.
pub open spec fn tour_pos(s: Seq<StmtV>) -> (u32, u32) {
    match first_pos(s) {
        Some(p) => p,
        None => (1, 1),
    }
}

// ------------------------------------------------------------------ code for a tour

fn stmts_of_block(b: &Block) -> (r: Ghost<Seq<StmtV>>)
    ensures
        r@ == b@.stmts,
        r@.len() == b.stmts@.len(),
        forall|j: int| 0 <= j < r@.len() ==> #[trigger] r@[j] == b.stmts@[j]@,
{
    proof {
        lemma_stmts_v(b.stmts@);
    }
    Ghost(b@.stmts)
}

/// `true` when the block holds a loop or a nested `tour` (its cost is dynamic).
fn contains_dynamic(b: &Block) -> (r: bool)
    ensures
        r == stmts_dynamic(b@.stmts),
    decreases stmts_size(b@.stmts),
{
    let Ghost(s) = stmts_of_block(b);
    let mut i: usize = 0;
    while i < b.stmts.len()
        invariant
            s == b@.stmts,
            s.len() == b.stmts@.len(),
            forall|j: int| 0 <= j < s.len() ==> #[trigger] s[j] == b.stmts@[j]@,
            i <= s.len(),
            !stmts_dynamic(s.take(i as int)),
        decreases s.len() - i,
    {
        proof {
            lemma_stmts_size_index(s, i as int);
            assert(s.take(i + 1).drop_last() =~= s.take(i as int));
        }
        let here = match &b.stmts[i] {
            Stmt::Farm { .. } | Stmt::Grind { .. } | Stmt::Tour(_) => true,
            Stmt::Detect { then_branch, else_branch, .. } => {
                if contains_dynamic(then_branch) {
                    true
                } else {
                    match else_branch {
                        Some(eb) => contains_dynamic(eb),
                        None => false,
                    }
                }
            },
            _ => false,
        };
        assert(here == stmt_dynamic(s[i as int]));
        if here {
            proof {
                lemma_dynamic_prefix(s, i as int + 1);
            }
            return true;
        }
        i += 1;
    }
    proof {
        assert(s.take(i as int) =~= s);
    }
    false
}

proof fn lemma_dynamic_prefix(s: Seq<StmtV>, k: int)
    requires
        0 < k <= s.len(),
        stmt_dynamic(s[k - 1]),
    ensures
        stmts_dynamic(s),
    decreases s.len(),
{
    if k < s.len() {
        lemma_dynamic_prefix(s.drop_last(), k);
    }
}

proof fn lemma_names_push(v: Seq<String>, x: String)
    ensures
        names_v(v.push(x)) == names_v(v).push(x@),
        names_v(v.push(x)).to_set() == names_v(v).to_set().insert(x@),
{
    assert(names_v(v.push(x)) =~= names_v(v).push(x@));
    names_v(v).lemma_push_to_set_commute(x@);
}

/// Adds a name to a list of distinct names, unless it is there already.
fn insert_name(out: &mut Vec<String>, name: &String)
    requires
        names_v(old(out)@).no_duplicates(),
    ensures
        names_v(final(out)@).no_duplicates(),
        names_v(final(out)@).to_set() == names_v(old(out)@).to_set().insert(name@),
{
    if !contains_name(out, name) {
        proof {
            lemma_names_push(out@, *name);
        }
        out.push(name.clone());
    } else {
        proof {
            assert(names_v(out@).to_set() =~= names_v(out@).to_set().insert(name@));
        }
    }
}

/// Names declared (`loot`/`ban`) anywhere in the block, `detect` branches included.
fn collect_locals(b: &Block, out: &mut Vec<String>)
    ensures
        names_v(final(out)@).to_set() == names_v(old(out)@).to_set().union(stmts_locals(b@.stmts)),
    decreases stmts_size(b@.stmts),
{
    let Ghost(s) = stmts_of_block(b);
    let ghost start = names_v(out@).to_set();
    let mut i: usize = 0;
    proof {
        assert(start.union(stmts_locals(s.take(0))) =~= start);
    }
    while i < b.stmts.len()
        invariant
            s == b@.stmts,
            s.len() == b.stmts@.len(),
            forall|j: int| 0 <= j < s.len() ==> #[trigger] s[j] == b.stmts@[j]@,
            i <= s.len(),
            names_v(out@).to_set() == start.union(stmts_locals(s.take(i as int))),
        decreases s.len() - i,
    {
        proof {
            lemma_stmts_size_index(s, i as int);
            assert(s.take(i + 1).drop_last() =~= s.take(i as int));
        }
        let ghost before = names_v(out@).to_set();
        match &b.stmts[i] {
            Stmt::Loot { name, .. } | Stmt::Ban { name, .. } => {
                proof {
                    lemma_names_push(out@, *name);
                }
                out.push(name.clone());
            },
            Stmt::Detect { then_branch, else_branch, .. } => {
                collect_locals(then_branch, out);
                match else_branch {
                    Some(eb) => collect_locals(eb, out),
                    None => {},
                }
            },
            _ => {},
        }
        proof {
            assert(names_v(out@).to_set() =~= before.union(stmt_locals(s[i as int])));
            assert(start.union(stmts_locals(s.take(i + 1))) =~= start.union(stmts_locals(s.take(i as int))).union(stmt_locals(s[i as int])));
        }
        i += 1;
    }
    proof {
        assert(s.take(i as int) =~= s);
    }
}

/// Outside variables read by an expression (see `expr_reads`).
fn collect_expr_reads(e: &Expr, locals: &Vec<String>, out: &mut Vec<String>)
    requires
        names_v(old(out)@).no_duplicates(),
    ensures
        names_v(final(out)@).no_duplicates(),
        names_v(final(out)@).to_set() == names_v(old(out)@).to_set().union(expr_reads(e@, names_v(locals@).to_set())),
    decreases expr_size(e@),
{
    let ghost loc = names_v(locals@).to_set();
    match &e.kind {
        ExprKind::Var(name) => {
            if !contains_name(locals, name) {
                insert_name(out, name);
                proof {
                    assert(names_v(out@).to_set() =~= names_v(old(out)@).to_set().union(set![name@]));
                }
            } else {
                proof {
                    assert(names_v(old(out)@).to_set().union(Set::empty()) =~= names_v(old(out)@).to_set());
                }
            }
        },
        ExprKind::Unary(_, x) => collect_expr_reads(x, locals, out),
        ExprKind::Binary(_, l, r) => {
            collect_expr_reads(l, locals, out);
            collect_expr_reads(r, locals, out);
            proof {
                assert(names_v(out@).to_set() =~= names_v(old(out)@).to_set().union(expr_reads(e@, loc)));
            }
        },
        ExprKind::Call(name, args) => {
            if !string_is(name, "cd_pret") {
                let ghost a = exprs_v(args@);
                proof {
                    lemma_exprs_v(args@);
                    assert(names_v(old(out)@).to_set().union(exprs_reads(a.take(0), loc)) =~= names_v(old(out)@).to_set());
                }
                let mut i: usize = 0;
                while i < args.len()
                    invariant
                        a == exprs_v(args@),
                        e@.kind == ExprKindV::Call(name@, a),
                        a.len() == args@.len(),
                        forall|j: int| 0 <= j < a.len() ==> #[trigger] a[j] == args@[j]@,
                        i <= a.len(),
                        loc == names_v(locals@).to_set(),
                        names_v(out@).no_duplicates(),
                        names_v(out@).to_set() == names_v(old(out)@).to_set().union(exprs_reads(a.take(i as int), loc)),
                    decreases a.len() - i,
                {
                    proof {
                        lemma_exprs_size_index(a, i as int);
                        assert(a.take(i + 1).drop_last() =~= a.take(i as int));
                    }
                    collect_expr_reads(&args[i], locals, out);
                    proof {
                        assert(names_v(old(out)@).to_set().union(exprs_reads(a.take(i + 1), loc)) =~=
                            names_v(old(out)@).to_set().union(exprs_reads(a.take(i as int), loc)).union(expr_reads(a[i as int], loc)));
                    }
                    i += 1;
                }
                proof {
                    assert(a.take(i as int) =~= a);
                }
            } else {
                proof {
                    assert(names_v(old(out)@).to_set().union(Set::empty()) =~= names_v(old(out)@).to_set());
                }
            }
        },
        _ => {
            proof {
                assert(names_v(old(out)@).to_set().union(Set::empty()) =~= names_v(old(out)@).to_set());
            }
        },
    }
}

/// Outside variables a block reads outside conditions (see `stmts_reads`).
fn block_external_reads(b: &Block, locals: &Vec<String>, out: &mut Vec<String>)
    requires
        names_v(old(out)@).no_duplicates(),
    ensures
        names_v(final(out)@).no_duplicates(),
        names_v(final(out)@).to_set() == names_v(old(out)@).to_set().union(stmts_reads(b@.stmts, names_v(locals@).to_set())),
    decreases stmts_size(b@.stmts),
{
    let Ghost(s) = stmts_of_block(b);
    let ghost loc = names_v(locals@).to_set();
    let ghost start = names_v(out@).to_set();
    let mut i: usize = 0;
    proof {
        assert(start.union(stmts_reads(s.take(0), loc)) =~= start);
    }
    while i < b.stmts.len()
        invariant
            s == b@.stmts,
            s.len() == b.stmts@.len(),
            forall|j: int| 0 <= j < s.len() ==> #[trigger] s[j] == b.stmts@[j]@,
            i <= s.len(),
            loc == names_v(locals@).to_set(),
            names_v(out@).no_duplicates(),
            names_v(out@).to_set() == start.union(stmts_reads(s.take(i as int), loc)),
        decreases s.len() - i,
    {
        proof {
            lemma_stmts_size_index(s, i as int);
            assert(s.take(i + 1).drop_last() =~= s.take(i as int));
        }
        let ghost before = names_v(out@).to_set();
        match &b.stmts[i] {
            Stmt::Loot { value, .. } | Stmt::Ban { value, .. } => collect_expr_reads(value, locals, out),
            Stmt::Assign { name, value, op, .. } => {
                let compound = match op {
                    AssignOp::Replace => false,
                    _ => true,
                };
                if compound && !contains_name(locals, name) {
                    insert_name(out, name);
                }
                collect_expr_reads(value, locals, out);
            },
            Stmt::Up(e) | Stmt::Afk(e) | Stmt::Expr(e) | Stmt::Gg(Some(e)) => collect_expr_reads(e, locals, out),
            Stmt::Detect { then_branch, else_branch, .. } => {
                block_external_reads(then_branch, locals, out);
                match else_branch {
                    Some(eb) => block_external_reads(eb, locals, out),
                    None => {},
                }
            },
            _ => {},
        }
        proof {
            assert(names_v(out@).to_set() =~= before.union(stmt_reads(s[i as int], loc)));
            assert(start.union(stmts_reads(s.take(i + 1), loc)) =~= start.union(stmts_reads(s.take(i as int), loc)).union(stmt_reads(s[i as int], loc)));
        }
        i += 1;
    }
    proof {
        assert(s.take(i as int) =~= s);
    }
}

/// MP of a static `tour` body: the number of distinct outside variables it reads.
fn tour_pm_x(b: &Block) -> (pm: i64)
    ensures
        pm == tour_pm(b@.stmts).len() as i64,
{
    let mut locals: Vec<String> = Vec::new();
    proof {
        assert(names_v(locals@).to_set() =~= Set::<Seq<char>>::empty());
    }
    collect_locals(b, &mut locals);
    proof {
        assert(Set::<Seq<char>>::empty().union(stmts_locals(b@.stmts)) =~= stmts_locals(b@.stmts));
    }
    let mut ext: Vec<String> = Vec::new();
    proof {
        assert(names_v(ext@) =~= Seq::<Seq<char>>::empty());
    }
    block_external_reads(b, &locals, &mut ext);
    proof {
        assert(Set::<Seq<char>>::empty().union(tour_pm(b@.stmts)) =~= tour_pm(b@.stmts));
        assert(names_v(ext@).len() == ext@.len());
        names_v(ext@).unique_seq_to_set();
    }
    ext.len() as i64
}

fn expr_pa_x(e: &Expr, eff: &CostTable) -> (c: i64)
    ensures
        c == expr_pa(eff@, e@),
    decreases expr_size(e@),
{
    match &e.kind {
        ExprKind::Unary(_, x) => expr_pa_x(x, eff),
        ExprKind::Binary(_, l, r) => {
            let a = expr_pa_x(l, eff);
            let b = expr_pa_x(r, eff);
            sat_add(a, b)
        },
        ExprKind::Call(name, args) => {
            let here = if builtin_x(name) { 0 } else { eff.cost_or_zero(name) };
            let ghost a = exprs_v(args@);
            proof {
                lemma_exprs_v(args@);
            }
            let mut acc: i64 = 0;
            let mut i: usize = 0;
            while i < args.len()
                invariant
                    a == exprs_v(args@),
                    e@.kind == ExprKindV::Call(name@, a),
                    a.len() == args@.len(),
                    forall|j: int| 0 <= j < a.len() ==> #[trigger] a[j] == args@[j]@,
                    i <= a.len(),
                    acc == exprs_pa(eff@, a.take(i as int)),
                decreases a.len() - i,
            {
                proof {
                    lemma_exprs_size_index(a, i as int);
                    assert(a.take(i + 1).drop_last() =~= a.take(i as int));
                }
                let c = expr_pa_x(&args[i], eff);
                acc = sat_add(acc, c);
                i += 1;
            }
            proof {
                assert(a.take(i as int) =~= a);
            }
            sat_add(here, acc)
        },
        _ => 0,
    }
}

/// AP of a loop-free block, dearer branch of each `detect`.
fn block_pa(b: &Block, eff: &CostTable, cfg: &Config) -> (c: i64)
    ensures
        c == stmts_pa(eff@, *cfg, b@.stmts),
    decreases stmts_size(b@.stmts),
{
    let Ghost(s) = stmts_of_block(b);
    let mut acc: i64 = 0;
    let mut i: usize = 0;
    while i < b.stmts.len()
        invariant
            s == b@.stmts,
            s.len() == b.stmts@.len(),
            forall|j: int| 0 <= j < s.len() ==> #[trigger] s[j] == b.stmts@[j]@,
            i <= s.len(),
            acc == stmts_pa(eff@, *cfg, s.take(i as int)),
        decreases s.len() - i,
    {
        proof {
            lemma_stmts_size_index(s, i as int);
            assert(s.take(i + 1).drop_last() =~= s.take(i as int));
        }
        let c = match &b.stmts[i] {
            Stmt::Loot { value, .. } | Stmt::Ban { value, .. } | Stmt::Assign { value, .. } => {
                let x = expr_pa_x(value, eff);
                sat_add(cfg.assign_pa, x)
            },
            Stmt::Up(e) => {
                let x = expr_pa_x(e, eff);
                sat_add(cfg.up_pa, x)
            },
            Stmt::Afk(e) | Stmt::Expr(e) | Stmt::Gg(Some(e)) => expr_pa_x(e, eff),
            Stmt::Detect { cond, then_branch, else_branch } => {
                let e = match else_branch {
                    Some(eb) => block_pa(eb, eff, cfg),
                    None => 0,
                };
                let t = block_pa(then_branch, eff, cfg);
                let m = if t >= e { t } else { e };
                let x = expr_pa_x(cond, eff);
                sat_add(x, m)
            },
            _ => 0,
        };
        assert(c == stmt_pa(eff@, *cfg, s[i as int]));
        acc = sat_add(acc, c);
        i += 1;
    }
    proof {
        assert(s.take(i as int) =~= s);
    }
    acc
}

/// Position of the first statement of the block that has one (where a diagnostic about
/// the `tour` points).
fn first_pos_x(b: &Block) -> (r: Option<(u32, u32)>)
    ensures
        r == first_pos(b@.stmts),
{
    let Ghost(s) = stmts_of_block(b);
    let mut i: usize = 0;
    while i < b.stmts.len()
        invariant
            s == b@.stmts,
            s.len() == b.stmts@.len(),
            forall|j: int| 0 <= j < s.len() ==> #[trigger] s[j] == b.stmts@[j]@,
            i <= s.len(),
            first_pos(s.take(i as int)) is None,
        decreases s.len() - i,
    {
        proof {
            assert(s.take(i + 1).drop_last() =~= s.take(i as int));
        }
        let p = match &b.stmts[i] {
            Stmt::Assign { line, col, .. } => Some((*line, *col)),
            Stmt::Loot { value, .. } | Stmt::Ban { value, .. } | Stmt::Up(value) | Stmt::Afk(value)
            | Stmt::Expr(value) | Stmt::Gg(Some(value)) => Some((value.line, value.col)),
            Stmt::Detect { cond, .. } | Stmt::Farm { cond, .. } => Some((cond.line, cond.col)),
            _ => None,
        };
        if p.is_some() {
            proof {
                lemma_first_pos_prefix(s, i as int + 1);
            }
            return p;
        }
        i += 1;
    }
    proof {
        assert(s.take(i as int) =~= s);
    }
    None
}

proof fn lemma_first_pos_prefix(s: Seq<StmtV>, k: int)
    requires
        0 < k <= s.len(),
        first_pos(s.take(k - 1)) is None,
        stmt_pos(s[k - 1]) is Some,
    ensures
        first_pos(s) == stmt_pos(s[k - 1]),
    decreases s.len(),
{
    if k < s.len() {
        assert(s.drop_last().take(k - 1) =~= s.take(k - 1));
        lemma_first_pos_prefix(s.drop_last(), k);
    } else {
        assert(s.take(k - 1) =~= s.drop_last());
    }
}

// ------------------------------------------------------------------ cost report

/// Effective cost of a `bot`.
#[derive(Debug, Clone, PartialEq, Eq)]
pub struct BotCost {
    pub name: String,
    pub cost: i64,
    /// `true` when `coute` is declared, `false` when the cost is derived from the body.
    pub declared: bool,
}

pub struct BotCostV {
    pub name: Seq<char>,
    pub cost: i64,
    pub declared: bool,
}

impl View for BotCost {
    type V = BotCostV;

    open spec fn view(&self) -> BotCostV {
        BotCostV { name: self.name@, cost: self.cost, declared: self.declared }
    }
}

/// Budget use of a `tour`.
#[derive(Debug, Clone, Copy, PartialEq, Eq)]
pub struct TourCost {
    pub line: u32,
    pub col: u32,
    pub pa: i64,
    pub pm: i64,
    /// `true` when the cost is dynamic (loop or nested `tour`): `pa` and `pm` are then 0.
    pub dynamic: bool,
}

/// Cost report of a program.
#[derive(Debug, Clone, PartialEq, Eq)]
pub struct CostReport {
    pub bots: Vec<BotCost>,
    pub tours: Vec<TourCost>,
    pub max_pa: i64,
    pub max_pm: i64,
}

pub struct CostReportV {
    pub bots: Seq<BotCostV>,
    pub tours: Seq<TourCost>,
    pub max_pa: i64,
    pub max_pm: i64,
}

impl View for CostReport {
    type V = CostReportV;

    open spec fn view(&self) -> CostReportV {
        CostReportV {
            bots: self.bots@.map_values(|b: BotCost| b@),
            tours: self.tours@,
            max_pa: self.max_pa,
            max_pm: self.max_pm,
        }
    }
}

/// Budget use of a `tour` whose body is `body`.
pub open spec fn tour_cost(eff: Map<Seq<char>, i64>, cfg: Config, body: Seq<StmtV>) -> TourCost {
    let dynamic = stmts_dynamic(body);
    TourCost {
        line: tour_pos(body).0,
        col: tour_pos(body).1,
        pa: if dynamic { 0 } else { stmts_pa(eff, cfg, body) },
        pm: if dynamic { 0 } else { tour_pm(body).len() as i64 },
        dynamic,
    }
}

/// The `tour`s of a statement list, in order, looking into loops and `detect` branches
/// (not into a `tour`'s own body).
pub open spec fn stmts_tours(eff: Map<Seq<char>, i64>, cfg: Config, s: Seq<StmtV>) -> Seq<TourCost>
    decreases stmts_size(s),
{
    if s.len() == 0 {
        Seq::empty()
    } else {
        stmts_tours(eff, cfg, s.drop_last()) + stmt_tours(eff, cfg, s.last())
    }
}

pub open spec fn stmt_tours(eff: Map<Seq<char>, i64>, cfg: Config, s: StmtV) -> Seq<TourCost>
    decreases stmt_size(s),
{
    match s {
        StmtV::Tour(b) => seq![tour_cost(eff, cfg, b.stmts)],
        StmtV::Farm { body, .. } => stmts_tours(eff, cfg, body.stmts),
        StmtV::Grind { body, .. } => stmts_tours(eff, cfg, body.stmts),
        StmtV::Detect { then_branch, else_branch, .. } => stmts_tours(eff, cfg, then_branch.stmts) + match else_branch {
            Some(b) => stmts_tours(eff, cfg, b.stmts),
            None => Seq::empty(),
        },
        _ => Seq::empty(),
    }
}

/// The `tour`s of the `connexion` blocks and bot bodies, in program order.
pub open spec fn items_tours(eff: Map<Seq<char>, i64>, cfg: Config, items: Seq<ItemV>) -> Seq<TourCost>
    decreases items.len(),
{
    if items.len() == 0 {
        Seq::empty()
    } else {
        items_tours(eff, cfg, items.drop_last()) + match items.last() {
            ItemV::Connexion(b) => stmts_tours(eff, cfg, b.stmts),
            ItemV::Bot(b) => stmts_tours(eff, cfg, b.body.stmts),
            _ => Seq::empty(),
        }
    }
}

/// One entry per `bot` item of `items`, in program order, costed in the program `all`.
pub open spec fn bot_entries(all: Seq<ItemV>, cfg: Config, items: Seq<ItemV>) -> Seq<BotCostV>
    decreases items.len(),
{
    if items.len() == 0 {
        Seq::empty()
    } else {
        let rest = bot_entries(all, cfg, items.drop_last());
        match items.last() {
            ItemV::Bot(b) => rest.push(BotCostV { name: b.name, cost: bot_cost(all, cfg, b.name), declared: b.cost_pa is Some }),
            _ => rest,
        }
    }
}

/// `a` sorts before or with `b`: the order of `String`, code point by code point.
pub open spec fn name_le(a: Seq<char>, b: Seq<char>) -> bool
    decreases a.len(),
{
    if a.len() == 0 {
        true
    } else if b.len() == 0 {
        false
    } else if a[0] != b[0] {
        (a[0] as u32) < (b[0] as u32)
    } else {
        name_le(a.drop_first(), b.drop_first())
    }
}

/// `x` inserted into a sorted list after every entry whose name sorts with or before it.
pub open spec fn sorted_insert(s: Seq<BotCostV>, x: BotCostV) -> Seq<BotCostV>
    decreases s.len(),
{
    if s.len() == 0 {
        seq![x]
    } else if name_le(s.last().name, x.name) {
        s.push(x)
    } else {
        sorted_insert(s.drop_last(), x).push(s.last())
    }
}

/// Stable sort by name.
pub open spec fn sort_by_name(s: Seq<BotCostV>) -> Seq<BotCostV>
    decreases s.len(),
{
    if s.len() == 0 {
        Seq::empty()
    } else {
        sorted_insert(sort_by_name(s.drop_last()), s.last())
    }
}

/// Neighbouring entries are in name order.
pub open spec fn sorted_by_name(s: Seq<BotCostV>) -> bool {
    forall|i: int| 0 <= i < s.len() - 1 ==> name_le(#[trigger] s[i].name, s[i + 1].name)
}

proof fn lemma_char_code(x: char, y: char)
    requires
        x != y,
    ensures
        (x as u32) != (y as u32),
{
    assert(x as int == (x as u32) as int);
    assert(y as int == (y as u32) as int);
}

pub(crate) proof fn lemma_name_le_total(a: Seq<char>, b: Seq<char>)
    ensures
        name_le(a, b) || name_le(b, a),
    decreases a.len(),
{
    if a.len() > 0 && b.len() > 0 {
        if a[0] == b[0] {
            lemma_name_le_total(a.drop_first(), b.drop_first());
        } else {
            lemma_char_code(a[0], b[0]);
        }
    }
}

/// The last entry after inserting `x` is `x` or the list's own last entry.
proof fn lemma_sorted_insert_last(s: Seq<BotCostV>, x: BotCostV)
    ensures
        sorted_insert(s, x).len() == s.len() + 1,
        sorted_insert(s, x).last() == x || (s.len() > 0 && sorted_insert(s, x).last() == s.last()),
    decreases s.len(),
{
    if s.len() > 0 && !name_le(s.last().name, x.name) {
        lemma_sorted_insert_last(s.drop_last(), x);
    }
}

/// Inserting into a list in name order keeps it in name order and adds exactly `x`.
proof fn lemma_sorted_insert_sorted(s: Seq<BotCostV>, x: BotCostV)
    requires
        sorted_by_name(s),
    ensures
        sorted_by_name(sorted_insert(s, x)),
        sorted_insert(s, x).to_multiset() == s.to_multiset().insert(x),
    decreases s.len(),
{
    broadcast use vstd::seq_lib::group_to_multiset_ensures;
    if s.len() == 0 {
        assert(seq![x] =~= Seq::<BotCostV>::empty().push(x));
    } else if name_le(s.last().name, x.name) {
    } else {
        let t = s.drop_last();
        assert(sorted_by_name(t)) by {
            assert forall|i: int| 0 <= i < t.len() - 1 implies name_le(#[trigger] t[i].name, t[i + 1].name) by {
                assert(t[i] == s[i] && t[i + 1] == s[i + 1]);
            }
        }
        lemma_sorted_insert_sorted(t, x);
        lemma_sorted_insert_last(t, x);
        let r = sorted_insert(t, x);
        lemma_name_le_total(s.last().name, x.name);
        if r.last() != x {
            assert(s[s.len() - 2] == t.last());
            assert(name_le(s[s.len() - 2].name, s[s.len() - 1].name));
        }
        assert(name_le(r.last().name, s.last().name));
        let q = r.push(s.last());
        assert forall|i: int| 0 <= i < q.len() - 1 implies name_le(#[trigger] q[i].name, q[i + 1].name) by {
            if i < r.len() - 1 {
                assert(q[i] == r[i] && q[i + 1] == r[i + 1]);
            } else {
                assert(q[i] == r.last() && q[i + 1] == s.last());
            }
        }
        assert(s =~= t.push(s.last()));
        assert(t.to_multiset().insert(x).insert(s.last()) =~= t.to_multiset().insert(s.last()).insert(x));
    }
}

/// Sorting by name gives a list in name order holding the same entries, each as often.
proof fn lemma_sort_by_name(s: Seq<BotCostV>)
    ensures
        sorted_by_name(sort_by_name(s)),
        sort_by_name(s).to_multiset() == s.to_multiset(),
    decreases s.len(),
{
    broadcast use vstd::seq_lib::group_to_multiset_ensures;
    if s.len() > 0 {
        lemma_sort_by_name(s.drop_last());
        lemma_sorted_insert_sorted(sort_by_name(s.drop_last()), s.last());
        assert(s =~= s.drop_last().push(s.last()));
    }
}

/// The names of a list of report entries, in order.
pub open spec fn names_of(s: Seq<BotCostV>) -> Seq<Seq<char>> {
    s.map_values(|b: BotCostV| b.name)
}

/// The names of the program's `bot` items, in program order.
pub open spec fn bot_item_names(items: Seq<ItemV>) -> Seq<Seq<char>>
    decreases items.len(),
{
    if items.len() == 0 {
        Seq::empty()
    } else {
        let r = bot_item_names(items.drop_last());
        match items.last() {
            ItemV::Bot(b) => r.push(b.name),
            _ => r,
        }
    }
}

proof fn lemma_entry_names_push(s: Seq<BotCostV>, x: BotCostV)
    ensures
        names_of(s.push(x)) == names_of(s).push(x.name),
{
    assert(names_of(s.push(x)) =~= names_of(s).push(x.name));
}

proof fn lemma_sorted_insert_names(s: Seq<BotCostV>, x: BotCostV)
    ensures
        names_of(sorted_insert(s, x)).to_multiset() == names_of(s).to_multiset().insert(x.name),
    decreases s.len(),
{
    broadcast use vstd::seq_lib::group_to_multiset_ensures;
    if s.len() == 0 {
        lemma_entry_names_push(s, x);
        assert(seq![x] =~= s.push(x));
    } else if name_le(s.last().name, x.name) {
        lemma_entry_names_push(s, x);
    } else {
        let t = s.drop_last();
        lemma_sorted_insert_names(t, x);
        lemma_entry_names_push(sorted_insert(t, x), s.last());
        lemma_entry_names_push(t, s.last());
        assert(s =~= t.push(s.last()));
        assert(names_of(t).to_multiset().insert(x.name).insert(s.last().name)
            =~= names_of(t).to_multiset().insert(s.last().name).insert(x.name));
    }
}

proof fn lemma_sort_names(s: Seq<BotCostV>)
    ensures
        names_of(sort_by_name(s)).to_multiset() == names_of(s).to_multiset(),
    decreases s.len(),
{
    broadcast use vstd::seq_lib::group_to_multiset_ensures;
    if s.len() > 0 {
        lemma_sort_names(s.drop_last());
        lemma_sorted_insert_names(sort_by_name(s.drop_last()), s.last());
        lemma_entry_names_push(s.drop_last(), s.last());
        assert(s =~= s.drop_last().push(s.last()));
    }
}

/// Each entry of `bot_entries` is a `bot` item of the program, costed by its name in the
/// whole program, and its names are those of the `bot` items.
proof fn lemma_bot_entries(all: Seq<ItemV>, cfg: Config, items: Seq<ItemV>)
    requires
        items.len() <= all.len(),
        forall|j: int| 0 <= j < items.len() ==> items[j] == all[j],
    ensures
        names_of(bot_entries(all, cfg, items)) == bot_item_names(items),
        forall|k: int| 0 <= k < bot_entries(all, cfg, items).len() ==> {
            let e = #[trigger] bot_entries(all, cfg, items)[k];
            &&& e.cost == bot_cost(all, cfg, e.name)
            &&& exists|j: int| 0 <= j < all.len() && all[j] is Bot && #[trigger] all[j]->Bot_0.name == e.name
                && e.declared == (all[j]->Bot_0.cost_pa is Some)
        },
    decreases items.len(),
{
    if items.len() > 0 {
        let t = items.drop_last();
        lemma_bot_entries(all, cfg, t);
        let r = bot_entries(all, cfg, t);
        match items.last() {
            ItemV::Bot(b) => {
                let x = BotCostV { name: b.name, cost: bot_cost(all, cfg, b.name), declared: b.cost_pa is Some };
                lemma_entry_names_push(r, x);
                let q = items.len() - 1;
                assert(all[q] == items.last());
                assert forall|k: int| 0 <= k < r.push(x).len() implies {
                    let e = #[trigger] r.push(x)[k];
                    &&& e.cost == bot_cost(all, cfg, e.name)
                    &&& exists|j: int| 0 <= j < all.len() && all[j] is Bot && #[trigger] all[j]->Bot_0.name == e.name
                        && e.declared == (all[j]->Bot_0.cost_pa is Some)
                } by {
                    if k < r.len() {
                        assert(r.push(x)[k] == r[k]);
                    } else {
                        assert(r.push(x)[k] == x);
                        assert(all[q]->Bot_0.name == x.name);
                    }
                }
            },
            _ => {},
        }
    }
}

/// The cost report lists the program's bots in name order: its names are those of the
/// `bot` items, each as often; each entry carries the effective cost of its name (what
/// `effective_costs` gives) and whether a `bot` item of that name declares its cost; the
/// budgets are those of the configuration.
pub proof fn lemma_cost_report_sorted(items: Seq<ItemV>, cfg: Config)
    ensures
        sorted_by_name(report_of(items, cfg).bots),
        report_of(items, cfg).bots.to_multiset() == bot_entries(items, cfg, items).to_multiset(),
        names_of(report_of(items, cfg).bots).to_multiset() == bot_item_names(items).to_multiset(),
        forall|k: int| 0 <= k < report_of(items, cfg).bots.len() ==> {
            let e = #[trigger] report_of(items, cfg).bots[k];
            &&& cost_map(items, cfg).contains_key(e.name)
            &&& e.cost == cost_map(items, cfg)[e.name]
            &&& exists|j: int| 0 <= j < items.len() && items[j] is Bot && #[trigger] items[j]->Bot_0.name == e.name
                && e.declared == (items[j]->Bot_0.cost_pa is Some)
        },
        report_of(items, cfg).max_pa == cfg.max_pa,
        report_of(items, cfg).max_pm == cfg.max_pm,
{
    broadcast use vstd::seq_lib::group_to_multiset_ensures;
    let entries = bot_entries(items, cfg, items);
    let bots = report_of(items, cfg).bots;
    lemma_sort_by_name(entries);
    lemma_sort_names(entries);
    lemma_bot_entries(items, cfg, items);
    assert forall|k: int| 0 <= k < bots.len() implies {
        let e = #[trigger] bots[k];
        &&& cost_map(items, cfg).contains_key(e.name)
        &&& e.cost == cost_map(items, cfg)[e.name]
        &&& exists|j: int| 0 <= j < items.len() && items[j] is Bot && #[trigger] items[j]->Bot_0.name == e.name
            && e.declared == (items[j]->Bot_0.cost_pa is Some)
    } by {
        let e = bots[k];
        assert(bots.contains(e));
        assert(bots.to_multiset().count(e) > 0);
        assert(entries.contains(e));
        let q = choose|q: int| 0 <= q < entries.len() && entries[q] == e;
        assert(entries[q] == e);
        let j = choose|j: int| 0 <= j < items.len() && items[j] is Bot && #[trigger] items[j]->Bot_0.name == e.name
            && e.declared == (items[j]->Bot_0.cost_pa is Some);
        lemma_find_bot_some(items, j);
    }
}

/// The cost report of a program under a configuration: its bots sorted by name with their
/// effective cost, and the budget use of each `tour`.
pub open spec fn report_of(items: Seq<ItemV>, cfg: Config) -> CostReportV {
    CostReportV {
        bots: sort_by_name(bot_entries(items, cfg, items)),
        tours: items_tours(cost_map(items, cfg), cfg, items),
        max_pa: cfg.max_pa,
        max_pm: cfg.max_pm,
    }
}

/// The configuration the header pragmas give, unknown keys ignored.
pub open spec fn pragma_config(pragmas: Seq<PragmaV>) -> Config
    decreases pragmas.len(),
{
    if pragmas.len() == 0 {
        default_config()
    } else {
        let c = pragma_config(pragmas.drop_last());
        match config_after(c, pragmas.last().key, pragmas.last().value) {
            Some(c2) => c2,
            None => c,
        }
    }
}

fn tour_cost_x(body: &Block, eff: &CostTable, cfg: &Config) -> (t: TourCost)
    ensures
        t == tour_cost(eff@, *cfg, body@.stmts),
{
    let (line, col) = match first_pos_x(body) {
        Some(p) => p,
        None => (1, 1),
    };
    let dynamic = contains_dynamic(body);
    let (pa, pm) = if dynamic {
        (0, 0)
    } else {
        let pa = block_pa(body, eff, cfg);
        let pm = tour_pm_x(body);
        (pa, pm)
    };
    TourCost { line, col, pa, pm, dynamic }
}

fn collect_tours(b: &Block, eff: &CostTable, cfg: &Config, out: &mut Vec<TourCost>)
    ensures
        final(out)@ == old(out)@ + stmts_tours(eff@, *cfg, b@.stmts),
    decreases stmts_size(b@.stmts),
{
    let Ghost(s) = stmts_of_block(b);
    let ghost start = out@;
    let mut i: usize = 0;
    proof {
        assert(start + stmts_tours(eff@, *cfg, s.take(0)) =~= start);
    }
    while i < b.stmts.len()
        invariant
            s == b@.stmts,
            s.len() == b.stmts@.len(),
            forall|j: int| 0 <= j < s.len() ==> #[trigger] s[j] == b.stmts@[j]@,
            i <= s.len(),
            out@ == start + stmts_tours(eff@, *cfg, s.take(i as int)),
        decreases s.len() - i,
    {
        proof {
            lemma_stmts_size_index(s, i as int);
            assert(s.take(i + 1).drop_last() =~= s.take(i as int));
        }
        let ghost before = out@;
        match &b.stmts[i] {
            Stmt::Tour(body) => {
                let t = tour_cost_x(body, eff, cfg);
                out.push(t);
            },
            Stmt::Farm { body, .. } | Stmt::Grind { body, .. } => collect_tours(body, eff, cfg, out),
            Stmt::Detect { then_branch, else_branch, .. } => {
                collect_tours(then_branch, eff, cfg, out);
                match else_branch {
                    Some(eb) => collect_tours(eb, eff, cfg, out),
                    None => {},
                }
            },
            _ => {},
        }
        proof {
            assert(out@ =~= before + stmt_tours(eff@, *cfg, s[i as int]));
            assert(start + stmts_tours(eff@, *cfg, s.take(i + 1)) =~= (start + stmts_tours(eff@, *cfg, s.take(i as int))) + stmt_tours(eff@, *cfg, s[i as int]));
        }
        i += 1;
    }
    proof {
        assert(s.take(i as int) =~= s);
    }
}

pub(crate) fn name_le_x(a: &String, b: &String) -> (r: bool)
    ensures
        r == name_le(a@, b@),
{
    let x = chars_of(a.as_str());
    let y = chars_of(b.as_str());
    let mut i: usize = 0;
    proof {
        assert(x@.skip(0) =~= x@);
        assert(y@.skip(0) =~= y@);
    }
    while i < x.len()
        invariant
            x@ == a@,
            y@ == b@,
            i <= x@.len(),
            i <= y@.len(),
            x@.take(i as int) == y@.take(i as int),
            name_le(a@, b@) == name_le(x@.skip(i as int), y@.skip(i as int)),
        decreases x.len() - i,
    {
        proof {
            assert(x@.skip(i as int).drop_first() =~= x@.skip(i + 1));
        }
        if i >= y.len() {
            return false;
        }
        proof {
            assert(y@.skip(i as int).drop_first() =~= y@.skip(i + 1));
            assert(x@.skip(i as int)[0] == x@[i as int]);
            assert(y@.skip(i as int)[0] == y@[i as int]);
        }
        if x[i] != y[i] {
            return (x[i] as u32) < (y[i] as u32);
        }
        proof {
            assert(x@.take(i + 1) =~= x@.take(i as int).push(x@[i as int]));
            assert(y@.take(i + 1) =~= y@.take(i as int).push(y@[i as int]));
        }
        i += 1;
    }
    true
}

proof fn lemma_sorted_insert_at(s: Seq<BotCostV>, x: BotCostV, j: int)
    requires
        0 <= j <= s.len(),
        forall|k: int| j <= k < s.len() ==> !name_le(#[trigger] s[k].name, x.name),
        j == 0 || name_le(s[j - 1].name, x.name),
    ensures
        sorted_insert(s, x) == s.take(j).push(x) + s.skip(j),
    decreases s.len(),
{
    if s.len() == 0 {
        assert(s.take(j).push(x) + s.skip(j) =~= seq![x]);
    } else if j == s.len() {
        assert(s.take(j).push(x) + s.skip(j) =~= s.push(x));
    } else {
        lemma_sorted_insert_at(s.drop_last(), x, j);
        assert(s.take(j).push(x) + s.skip(j) =~= (s.drop_last().take(j).push(x) + s.drop_last().skip(j)).push(s.last()));
    }
}

/// Inserts `x` into a list sorted by name, after the entries whose name sorts with or
/// before its own (so that equal names keep their order).
fn insert_by_name(out: &mut Vec<BotCost>, x: BotCost)
    ensures
        final(out)@.map_values(|b: BotCost| b@) == sorted_insert(old(out)@.map_values(|b: BotCost| b@), x@),
{
    let ghost s = out@.map_values(|b: BotCost| b@);
    let mut j = out.len();
    while j > 0
        invariant_except_break
            s == out@.map_values(|b: BotCost| b@),
            j <= s.len(),
            forall|k: int| j <= k < s.len() ==> !name_le(#[trigger] s[k].name, x@.name),
        ensures
            s == out@.map_values(|b: BotCost| b@),
            j <= s.len(),
            forall|k: int| j <= k < s.len() ==> !name_le(#[trigger] s[k].name, x@.name),
            j == 0 || name_le(s[j - 1].name, x@.name),
        decreases j,
    {
        if name_le_x(&out[j - 1].name, &x.name) {
            break;
        }
        j -= 1;
    }
    proof {
        lemma_sorted_insert_at(s, x@, j as int);
    }
    out.insert(j, x);
    proof {
        assert(out@.map_values(|b: BotCost| b@) =~= s.take(j as int).push(x@) + s.skip(j as int));
    }
}

/// Cost report: effective cost of every `bot` (sorted by name) and AP/MP use of every
/// `tour`.
pub fn cost_report(program: &Program, cfg: &Config) -> (r: CostReport)
    ensures
        r@ == report_of(program@.items, *cfg),
{
    let eff = effective_costs(program, cfg);
    let items = &program.items;
    let ghost iv = program@.items;
    proof {
        assert(iv == items_v(items@));
    }
    let mut bots: Vec<BotCost> = Vec::new();
    let mut tours: Vec<TourCost> = Vec::new();
    let mut i: usize = 0;
    while i < items.len()
        invariant
            iv == items_v(items@),
            eff@ == cost_map(iv, *cfg),
            i <= items@.len(),
            bots@.map_values(|b: BotCost| b@) == sort_by_name(bot_entries(iv, *cfg, iv.take(i as int))),
            tours@ == items_tours(eff@, *cfg, iv.take(i as int)),
        decreases items.len() - i,
    {
        proof {
            assert(iv.take(i + 1).drop_last() =~= iv.take(i as int));
            assert(iv.take(i + 1).last() == items@[i as int]@);
        }
        let ghost before_b = bots@;
        let ghost before_t = tours@;
        match &items[i] {
            Item::Bot(b) => {
                let cost = eff.cost_or_zero(&b.name);
                proof {
                    lemma_find_bot_some(iv, i as int);
                    assert(iv[i as int] == ItemV::Bot(b@));
                }
                let entry = BotCost { name: b.name.clone(), cost, declared: b.cost_pa.is_some() };
                proof {
                    let e = BotCostV { name: b@.name, cost: bot_cost(iv, *cfg, b@.name), declared: b@.cost_pa is Some };
                    assert(entry@ == e);
                    assert(bot_entries(iv, *cfg, iv.take(i + 1)) == bot_entries(iv, *cfg, iv.take(i as int)).push(e));
                    assert(sort_by_name(bot_entries(iv, *cfg, iv.take(i as int)).push(e))
                        == sorted_insert(sort_by_name(bot_entries(iv, *cfg, iv.take(i as int))), e)) by {
                        assert(bot_entries(iv, *cfg, iv.take(i as int)).push(e).drop_last() =~= bot_entries(iv, *cfg, iv.take(i as int)));
                    }
                }
                insert_by_name(&mut bots, entry);
                collect_tours(&b.body, &eff, cfg, &mut tours);
            },
            Item::Connexion(blk) => {
                collect_tours(blk, &eff, cfg, &mut tours);
                proof {
                    assert(bot_entries(iv, *cfg, iv.take(i + 1)) == bot_entries(iv, *cfg, iv.take(i as int)));
                }
            },
            _ => {
                proof {
                    assert(bot_entries(iv, *cfg, iv.take(i + 1)) == bot_entries(iv, *cfg, iv.take(i as int)));
                    assert(tours@ =~= items_tours(eff@, *cfg, iv.take(i + 1)));
                }
            },
        }
        i += 1;
    }
    proof {
        assert(iv.take(i as int) =~= iv);
    }
    CostReport { bots, tours, max_pa: cfg.max_pa, max_pm: cfg.max_pm }
}

/// The configuration the pragmas of a program give.
pub fn pragma_config_x(pragmas: &Vec<Pragma>) -> (cfg: Config)
    ensures
        cfg == pragma_config(pragmas@.map_values(|p: Pragma| p@)),
{
    let ghost pv = pragmas@.map_values(|p: Pragma| p@);
    let mut cfg = Config::default();
    let mut i: usize = 0;
    while i < pragmas.len()
        invariant
            pv == pragmas@.map_values(|p: Pragma| p@),
            i <= pragmas@.len(),
            cfg == pragma_config(pv.take(i as int)),
        decreases pragmas.len() - i,
    {
        proof {
            assert(pv.take(i + 1).drop_last() =~= pv.take(i as int));
        }
        let _ = cfg.apply(pragmas[i].key.as_str(), pragmas[i].value);
        i += 1;
    }
    proof {
        assert(pv.take(i as int) =~= pv);
    }
    cfg
}

/// Cost report under the configuration the program's own pragmas give.
pub fn report(program: &Program) -> (r: CostReport)
    ensures
        r@ == report_of(program@.items, pragma_config(program@.pragmas)),
{
    let cfg = pragma_config_x(&program.pragmas);
    cost_report(program, &cfg)
}

// ------------------------------------------------------------------ checking: model

/// Inferred type: the types of the language, and `Unknown` that never raises an error.
#[derive(Debug, Clone, Copy, PartialEq, Eq, Structural)]
pub enum Ty {
    Kamas,
    Flag,
    Txt,
    AfkTotal,
    Unknown,
}

/// What a scope knows of a variable.
#[derive(Debug, Clone, Copy)]
pub struct VarInfo {
    pub ty: Ty,
    pub is_const: bool,
}

/// Located semantic diagnostic, with an optional code (`E-PA`, `E-PM`).
#[derive(Debug, Clone, PartialEq, Eq)]
pub struct SemaError {
    pub code: Option<&'static str>,
    pub msg: String,
    pub line: u32,
    pub col: u32,
}

pub struct SemaErrorV {
    pub code: Option<Seq<char>>,
    pub msg: Seq<char>,
    pub line: u32,
    pub col: u32,
}

impl View for SemaError {
    type V = SemaErrorV;

    open spec fn view(&self) -> SemaErrorV {
        SemaErrorV {
            code: match self.code {
                Some(c) => Some(c@),
                None => None,
            },
            msg: self.msg@,
            line: self.line,
            col: self.col,
        }
    }
}

pub open spec fn errs_v(s: Seq<SemaError>) -> Seq<SemaErrorV> {
    s.map_values(|e: SemaError| e@)
}

/// A diagnostic without code.
pub open spec fn diag(msg: Seq<char>, line: u32, col: u32) -> SemaErrorV {
    SemaErrorV { code: None, msg, line, col }
}

/// A name between French quotes.
pub open spec fn quoted(name: Seq<char>) -> Seq<char> {
    "« "@ + name + " »"@
}

pub open spec fn ty_of(t: TypeV) -> Ty {
    match t {
        TypeV::Kamas => Ty::Kamas,
        TypeV::Flag => Ty::Flag,
        TypeV::Txt => Ty::Txt,
        TypeV::AfkTotal => Ty::AfkTotal,
        TypeV::Named(_) => Ty::Unknown,
    }
}

/// Return type of a bot: `afk_total` when it declares none.
pub open spec fn ret_ty(b: BotV) -> Ty {
    match b.ret {
        Some(t) => ty_of(t),
        None => Ty::AfkTotal,
    }
}

/// An error when a known type differs from the wanted one.
pub open spec fn require(got: Ty, want: Ty, line: u32, col: u32, msg: Seq<char>) -> Seq<SemaErrorV> {
    if got != Ty::Unknown && got != want {
        seq![diag(msg, line, col)]
    } else {
        seq![]
    }
}

/// An error when a known type is not `kamas`.
pub open spec fn kamas_check(t: Ty, line: u32, col: u32) -> Seq<SemaErrorV> {
    if t != Ty::Kamas && t != Ty::Unknown {
        seq![diag("valeur kamas attendue"@, line, col)]
    } else {
        seq![]
    }
}

/// Innermost binding of a name in a stack of scopes.
pub open spec fn lookup(sc: Seq<Map<Seq<char>, VarInfo>>, n: Seq<char>) -> Option<VarInfo>
    decreases sc.len(),
{
    if sc.len() == 0 {
        None
    } else if sc.last().contains_key(n) {
        Some(sc.last()[n])
    } else {
        lookup(sc.drop_last(), n)
    }
}

/// Binds a name in the innermost scope.
pub open spec fn declare(sc: Seq<Map<Seq<char>, VarInfo>>, n: Seq<char>, vi: VarInfo) -> Seq<Map<Seq<char>, VarInfo>> {
    if sc.len() == 0 {
        sc
    } else {
        sc.update(sc.len() - 1, sc.last().insert(n, vi))
    }
}

/// The `pano` a name designates: the last one declared with that name.
pub open spec fn find_pano(items: Seq<ItemV>, name: Seq<char>) -> Option<PanoV>
    decreases items.len(),
{
    if items.len() == 0 {
        None
    } else {
        match items.last() {
            ItemV::Pano(p) => if p.name == name { Some(p) } else { find_pano(items.drop_last(), name) },
            _ => find_pano(items.drop_last(), name),
        }
    }
}

/// The `perso` a name designates: the last one declared with that name.
pub open spec fn find_perso(items: Seq<ItemV>, name: Seq<char>) -> Option<PersoV>
    decreases items.len(),
{
    if items.len() == 0 {
        None
    } else {
        match items.last() {
            ItemV::Perso(p) => if p.name == name { Some(p) } else { find_perso(items.drop_last(), name) },
            _ => find_perso(items.drop_last(), name),
        }
    }
}

pub open spec fn has_variant(p: PanoV, m: Seq<char>) -> bool {
    exists|i: int| 0 <= i < p.variants.len() && #[trigger] p.variants[i].name == m
}

pub open spec fn has_field(p: PersoV, m: Seq<char>) -> bool {
    exists|i: int| 0 <= i < p.fields.len() && #[trigger] p.fields[i].name == m
}

pub open spec fn is_arith(op: BinOp) -> bool {
    op == BinOp::Add || op == BinOp::Sub || op == BinOp::Mul || op == BinOp::Div
}

pub open spec fn is_ordering(op: BinOp) -> bool {
    op == BinOp::Lt || op == BinOp::Le || op == BinOp::Gt || op == BinOp::Ge
}

/// Diagnostics and type of an expression, in the scopes `sc`.
pub open spec fn infer(items: Seq<ItemV>, sc: Seq<Map<Seq<char>, VarInfo>>, e: ExprV) -> (Seq<SemaErrorV>, Ty)
    decreases expr_size(e),
{
    match e.kind {
        ExprKindV::Int(_) => (seq![], Ty::Kamas),
        ExprKindV::Bool(_) => (seq![], Ty::Flag),
        ExprKindV::Str(_) => (seq![], Ty::Txt),
        ExprKindV::Pa => (seq![], Ty::Kamas),
        ExprKindV::Pm => (seq![], Ty::Kamas),
        ExprKindV::Suspicion => (seq![], Ty::Kamas),
        ExprKindV::Var(n) => match lookup(sc, n) {
            Some(vi) => (seq![], vi.ty),
            None => (seq![diag("variable indéfinie "@ + quoted(n), e.line, e.col)], Ty::Unknown),
        },
        ExprKindV::Unary(op, x) => {
            let r = infer(items, sc, *x);
            match op {
                UnOp::Neg => (r.0 + require(r.1, Ty::Kamas, x.line, x.col, "négation sur non-kamas"@), Ty::Kamas),
                UnOp::Not => (r.0 + require(r.1, Ty::Flag, x.line, x.col, "« pas » sur non-flag"@), Ty::Flag),
            }
        },
        ExprKindV::Binary(op, l, r) => {
            let a = infer(items, sc, *l);
            let b = infer(items, sc, *r);
            if is_arith(op) {
                (a.0 + b.0 + require(a.1, Ty::Kamas, l.line, l.col, "opérande arithmétique non-kamas"@)
                    + require(b.1, Ty::Kamas, r.line, r.col, "opérande arithmétique non-kamas"@), Ty::Kamas)
            } else if is_ordering(op) {
                (a.0 + b.0 + require(a.1, Ty::Kamas, l.line, l.col, "comparaison sur non-kamas"@)
                    + require(b.1, Ty::Kamas, r.line, r.col, "comparaison sur non-kamas"@), Ty::Flag)
            } else if op == BinOp::Eq || op == BinOp::Ne {
                (a.0 + b.0, Ty::Flag)
            } else {
                (a.0 + b.0 + require(a.1, Ty::Flag, l.line, l.col, "opérande booléen non-flag"@)
                    + require(b.1, Ty::Flag, r.line, r.col, "opérande booléen non-flag"@), Ty::Flag)
            }
        },
        ExprKindV::Call(name, args) => {
            if name == "rand"@ || name == "butin"@ {
                ((if args.len() != 2 { seq![diag(quoted(name) + " attend 2 arguments"@, e.line, e.col)] } else { seq![] })
                    + expect_kamas_all(items, sc, args), Ty::Kamas)
            } else if name == "cd_pret"@ {
                (if args.len() > 0 && (args[0].kind matches ExprKindV::Var(b) && find_bot(items, b) is Some) {
                    seq![]
                } else {
                    seq![diag("« cd_pret » attend un nom de bot"@, e.line, e.col)]
                }, Ty::Flag)
            } else {
                match find_bot(items, name) {
                    None => (seq![diag("bot inconnu "@ + quoted(name), e.line, e.col)], Ty::Unknown),
                    Some(b) => ((if args.len() != b.params.len() {
                        seq![diag(quoted(name) + " attend "@ + digits_of(b.params.len()) + " argument(s), reçu "@ + digits_of(args.len()), e.line, e.col)]
                    } else {
                        seq![]
                    }) + infer_all(items, sc, args), ret_ty(b)),
                }
            }
        },
        ExprKindV::Path(left, member) => match find_pano(items, left) {
            Some(p) => (if has_variant(p, member) {
                seq![]
            } else {
                seq![diag("variant "@ + quoted(member) + " inconnu dans pano "@ + quoted(left), e.line, e.col)]
            }, Ty::Kamas),
            None => match find_perso(items, left) {
                Some(p) => (if has_field(p, member) {
                    seq![]
                } else {
                    seq![diag("champ "@ + quoted(member) + " inconnu dans perso "@ + quoted(left), e.line, e.col)]
                }, Ty::Kamas),
                None => if lookup(sc, left) is Some {
                    (seq![], Ty::Unknown)
                } else {
                    (seq![diag(quoted(left) + " n'est ni un pano, ni un perso, ni une variable"@, e.line, e.col)], Ty::Unknown)
                },
            },
        },
        ExprKindV::Struct(ty, fields) => ((match find_perso(items, ty) {
            Some(p) => field_name_errs(p, ty, fields, e.line, e.col),
            None => seq![diag("perso "@ + quoted(ty) + " inconnu"@, e.line, e.col)],
        }) + fields_infer(items, sc, fields), Ty::Unknown),
    }
}

/// Typing of the operators: `-x` is `kamas` and `pas x` is `flag`; `+ - * /` give
/// `kamas`; `< <= > >=`, `==`, `!=`, `et` and `ou` give `flag`. An operand of the type
/// the operator expects adds no diagnostic to its own, and a unary operand of another
/// known type adds exactly one.
pub proof fn lemma_infer_operators(items: Seq<ItemV>, sc: Seq<Map<Seq<char>, VarInfo>>, op: BinOp, x: ExprV, y: ExprV, line: u32, col: u32)
    ensures
        ({
            let e = ExprV { kind: ExprKindV::Unary(UnOp::Neg, Box::new(x)), line, col };
            let tx = infer(items, sc, x);
            &&& infer(items, sc, e).1 == Ty::Kamas
            &&& tx.1 == Ty::Kamas ==> infer(items, sc, e).0 == tx.0
            &&& tx.1 != Ty::Kamas && tx.1 != Ty::Unknown ==> infer(items, sc, e).0.len() == tx.0.len() + 1
        }),
        ({
            let e = ExprV { kind: ExprKindV::Unary(UnOp::Not, Box::new(x)), line, col };
            let tx = infer(items, sc, x);
            &&& infer(items, sc, e).1 == Ty::Flag
            &&& tx.1 == Ty::Flag ==> infer(items, sc, e).0 == tx.0
            &&& tx.1 != Ty::Flag && tx.1 != Ty::Unknown ==> infer(items, sc, e).0.len() == tx.0.len() + 1
        }),
        ({
            let e = ExprV { kind: ExprKindV::Binary(op, Box::new(x), Box::new(y)), line, col };
            let tx = infer(items, sc, x);
            let ty = infer(items, sc, y);
            let arith = op == BinOp::Add || op == BinOp::Sub || op == BinOp::Mul || op == BinOp::Div;
            let order = op == BinOp::Lt || op == BinOp::Le || op == BinOp::Gt || op == BinOp::Ge;
            &&& arith ==> infer(items, sc, e).1 == Ty::Kamas
            &&& !arith ==> infer(items, sc, e).1 == Ty::Flag
            &&& (arith || order) && tx.1 == Ty::Kamas && ty.1 == Ty::Kamas ==> infer(items, sc, e).0 == tx.0 + ty.0
            &&& (op == BinOp::And || op == BinOp::Or) && tx.1 == Ty::Flag && ty.1 == Ty::Flag
                ==> infer(items, sc, e).0 == tx.0 + ty.0
            &&& (op == BinOp::Eq || op == BinOp::Ne) ==> infer(items, sc, e).0 == tx.0 + ty.0
        }),
{
    let tx = infer(items, sc, x);
    let ty = infer(items, sc, y);
    assert(tx.0 + Seq::<SemaErrorV>::empty() =~= tx.0);
    assert(tx.0 + ty.0 + Seq::<SemaErrorV>::empty() + Seq::<SemaErrorV>::empty() =~= tx.0 + ty.0);
}

/// Diagnostics of a list of expressions, in order.
pub open spec fn infer_all(items: Seq<ItemV>, sc: Seq<Map<Seq<char>, VarInfo>>, s: Seq<ExprV>) -> Seq<SemaErrorV>
    decreases exprs_size(s),
{
    if s.len() == 0 {
        seq![]
    } else {
        infer_all(items, sc, s.drop_last()) + infer(items, sc, s.last()).0
    }
}

/// Diagnostics of a list of expressions that must each be `kamas`.
pub open spec fn expect_kamas_all(items: Seq<ItemV>, sc: Seq<Map<Seq<char>, VarInfo>>, s: Seq<ExprV>) -> Seq<SemaErrorV>
    decreases exprs_size(s),
{
    if s.len() == 0 {
        seq![]
    } else {
        expect_kamas_all(items, sc, s.drop_last()) + infer(items, sc, s.last()).0
            + kamas_check(infer(items, sc, s.last()).1, s.last().line, s.last().col)
    }
}

/// Diagnostics of the values of a record construction.
pub open spec fn fields_infer(items: Seq<ItemV>, sc: Seq<Map<Seq<char>, VarInfo>>, s: Seq<(Seq<char>, ExprV)>) -> Seq<SemaErrorV>
    decreases fields_size(s),
{
    if s.len() == 0 {
        seq![]
    } else {
        fields_infer(items, sc, s.drop_last()) + infer(items, sc, s.last().1).0
    }
}

/// An error for each field of a record construction that the `perso` does not declare.
pub open spec fn field_name_errs(p: PersoV, ty: Seq<char>, s: Seq<(Seq<char>, ExprV)>, line: u32, col: u32) -> Seq<SemaErrorV>
    decreases s.len(),
{
    if s.len() == 0 {
        seq![]
    } else {
        field_name_errs(p, ty, s.drop_last(), line, col) + if has_field(p, s.last().0) {
            seq![]
        } else {
            seq![diag("champ "@ + quoted(s.last().0) + " inconnu dans perso "@ + quoted(ty), line, col)]
        }
    }
}

/// Diagnostics of an expression that must be `kamas`.
pub open spec fn expect_kamas(items: Seq<ItemV>, sc: Seq<Map<Seq<char>, VarInfo>>, e: ExprV) -> Seq<SemaErrorV> {
    infer(items, sc, e).0 + kamas_check(infer(items, sc, e).1, e.line, e.col)
}

/// Diagnostics of a condition (`flag`, or `kamas` read as non-zero).
pub open spec fn expect_cond(items: Seq<ItemV>, sc: Seq<Map<Seq<char>, VarInfo>>, e: ExprV) -> Seq<SemaErrorV> {
    let t = infer(items, sc, e).1;
    infer(items, sc, e).0 + if t != Ty::Flag && t != Ty::Kamas && t != Ty::Unknown {
        seq![diag("condition non booléenne"@, e.line, e.col)]
    } else {
        seq![]
    }
}

/// Budget diagnostics of a `tour` body whose cost is static: AP over `max_pa` (`E-PA`),
/// distinct outside variables read over `max_pm` (`E-PM`).
pub open spec fn budget_errs(items: Seq<ItemV>, cfg: Config, body: Seq<StmtV>) -> Seq<SemaErrorV> {
    if stmts_dynamic(body) {
        seq![]
    } else {
        let pos = tour_pos(body);
        let pa = stmts_pa(cost_map(items, cfg), cfg, body);
        let pm = tour_pm(body).len() as i64;
        (if pa > cfg.max_pa {
            seq![SemaErrorV {
                code: Some("E-PA"@),
                msg: "tour trop gourmand — "@ + decimal(pa as int) + " PA demandés, budget max "@ + decimal(cfg.max_pa as int),
                line: pos.0,
                col: pos.1,
            }]
        } else {
            seq![]
        }) + (if pm > cfg.max_pm {
            seq![SemaErrorV {
                code: Some("E-PM"@),
                msg: "tour trop gourmand — "@ + decimal(pm as int) + " PM demandés, budget max "@ + decimal(cfg.max_pm as int),
                line: pos.0,
                col: pos.1,
            }]
        } else {
            seq![]
        })
    }
}

/// Scopes after a statement, and its diagnostics.
pub open spec fn check_stmt(items: Seq<ItemV>, cfg: Config, sc: Seq<Map<Seq<char>, VarInfo>>, s: StmtV)
    -> (Seq<Map<Seq<char>, VarInfo>>, Seq<SemaErrorV>)
    decreases stmt_size(s),
{
    match s {
        StmtV::Loot { name, ty, value } => {
            let r = infer(items, sc, value);
            let t = match ty {
                Some(t) => ty_of(t),
                None => r.1,
            };
            (declare(sc, name, VarInfo { ty: t, is_const: false }), r.0)
        },
        StmtV::Ban { name, ty, value } => {
            let r = infer(items, sc, value);
            let t = match ty {
                Some(t) => ty_of(t),
                None => r.1,
            };
            (declare(sc, name, VarInfo { ty: t, is_const: true }), r.0)
        },
        StmtV::Assign { name, value, line, col, .. } => {
            let target = match lookup(sc, name) {
                None => seq![diag("variable indéfinie "@ + quoted(name), line, col)],
                Some(vi) => if vi.is_const {
                    seq![diag("affectation d'une constante "@ + quoted(name), line, col)]
                } else {
                    seq![]
                },
            };
            (sc, target + infer(items, sc, value).0)
        },
        StmtV::Tour(b) => (sc, budget_errs(items, cfg, b.stmts) + check_block(items, cfg, sc, b)),
        StmtV::Passer => (sc, seq![]),
        StmtV::Farm { cond, body } => (sc, expect_cond(items, sc, cond) + check_block(items, cfg, sc, body)),
        StmtV::Grind { var, from, to, body } => (sc, expect_kamas(items, sc, from) + expect_kamas(items, sc, to)
            + check_stmts(items, cfg, sc.push(Map::empty().insert(var, VarInfo { ty: Ty::Kamas, is_const: true })), body.stmts).1),
        StmtV::Detect { cond, then_branch, else_branch } => (sc, expect_cond(items, sc, cond)
            + check_block(items, cfg, sc, then_branch) + match else_branch {
            Some(b) => check_block(items, cfg, sc, b),
            None => seq![],
        }),
        StmtV::Gg(Some(e)) => (sc, infer(items, sc, e).0),
        StmtV::Gg(None) => (sc, seq![]),
        StmtV::Up(e) => {
            let r = infer(items, sc, e);
            (sc, r.0 + if r.1 != Ty::Txt && r.1 != Ty::Unknown {
                seq![diag("« up » attend une valeur txt"@, e.line, e.col)]
            } else {
                seq![]
            })
        },
        StmtV::Afk(e) => (sc, expect_kamas(items, sc, e)),
        StmtV::Expr(e) => (sc, infer(items, sc, e).0),
    }
}

/// Scopes after a statement list, and its diagnostics in order.
pub open spec fn check_stmts(items: Seq<ItemV>, cfg: Config, sc: Seq<Map<Seq<char>, VarInfo>>, s: Seq<StmtV>)
    -> (Seq<Map<Seq<char>, VarInfo>>, Seq<SemaErrorV>)
    decreases stmts_size(s),
{
    if s.len() == 0 {
        (sc, seq![])
    } else {
        let a = check_stmts(items, cfg, sc, s.drop_last());
        let b = check_stmt(items, cfg, a.0, s.last());
        (b.0, a.1 + b.1)
    }
}

/// Diagnostics of a block, checked in a fresh scope.
pub open spec fn check_block(items: Seq<ItemV>, cfg: Config, sc: Seq<Map<Seq<char>, VarInfo>>, b: BlockV) -> Seq<SemaErrorV>
    decreases block_size(b),
{
    check_stmts(items, cfg, sc.push(Map::empty()), b.stmts).1
}

/// Scope of a bot's parameters.
pub open spec fn params_scope(params: Seq<ParamV>) -> Map<Seq<char>, VarInfo>
    decreases params.len(),
{
    if params.len() == 0 {
        Map::empty()
    } else {
        params_scope(params.drop_last()).insert(params.last().name, VarInfo { ty: ty_of(params.last().ty), is_const: false })
    }
}

/// Diagnostics of a bot: its body, in the scope of its parameters.
pub open spec fn check_bot(items: Seq<ItemV>, cfg: Config, b: BotV) -> Seq<SemaErrorV> {
    check_block(items, cfg, seq![Map::empty(), params_scope(b.params)], b.body)
}

/// Pin diagnostics of the `pano` and `perso` declarations, in program order.
pub open spec fn pin_errs(items: Seq<ItemV>) -> Seq<SemaErrorV>
    decreases items.len(),
{
    if items.len() == 0 {
        seq![]
    } else {
        pin_errs(items.drop_last()) + match items.last() {
            ItemV::Pano(p) => match pin_error(p.variants.map_values(|v: VariantV| v.pin), 0) {
                Some(m) => seq![diag("pano "@ + quoted(p.name) + " : "@ + m, p.line, p.col)],
                None => seq![],
            },
            ItemV::Perso(p) => match pin_error(p.fields.map_values(|f: FieldV| f.pin), 0) {
                Some(m) => seq![diag("perso "@ + quoted(p.name) + " : "@ + m, p.line, p.col)],
                None => seq![],
            },
            _ => seq![],
        }
    }
}

/// Diagnostics of the bots and `connexion` blocks of `items`, in program order.
pub open spec fn item_errs(all: Seq<ItemV>, cfg: Config, items: Seq<ItemV>) -> Seq<SemaErrorV>
    decreases items.len(),
{
    if items.len() == 0 {
        seq![]
    } else {
        item_errs(all, cfg, items.drop_last()) + match items.last() {
            ItemV::Bot(b) => check_bot(all, cfg, b),
            ItemV::Connexion(blk) => check_block(all, cfg, seq![Map::empty()], blk),
            _ => seq![],
        }
    }
}

pub open spec fn has_connexion(items: Seq<ItemV>) -> bool {
    exists|i: int| 0 <= i < items.len() && #[trigger] items[i] is Connexion
}

/// Every diagnostic of a program, in the order the analysis finds them: pins, then the
/// bots and `connexion` blocks, then a missing entry point.
pub open spec fn check_errors(p: ProgramV) -> Seq<SemaErrorV> {
    let cfg = pragma_config(p.pragmas);
    pin_errs(p.items) + item_errs(p.items, cfg, p.items) + if has_connexion(p.items) {
        seq![]
    } else {
        seq![diag("aucune connexion (point d'entrée)"@, 1, 1)]
    }
}

// ------------------------------------------------------------------ checking: scopes and tables

pub open spec fn scope_map(s: Seq<(String, VarInfo)>) -> Map<Seq<char>, VarInfo>
    decreases s.len(),
{
    if s.len() == 0 {
        Map::empty()
    } else {
        scope_map(s.drop_last()).insert(s.last().0@, s.last().1)
    }
}

pub open spec fn scopes_v(v: Seq<Vec<(String, VarInfo)>>) -> Seq<Map<Seq<char>, VarInfo>> {
    v.map_values(|s: Vec<(String, VarInfo)>| scope_map(s@))
}

fn scope_get(s: &Vec<(String, VarInfo)>, name: &String) -> (r: Option<VarInfo>)
    ensures
        r == (if scope_map(s@).contains_key(name@) { Some(scope_map(s@)[name@]) } else { None::<VarInfo> }),
{
    let mut i = s.len();
    proof {
        assert(s@.take(i as int) =~= s@);
    }
    while i > 0
        invariant
            i <= s@.len(),
            scope_map(s@).contains_key(name@) == scope_map(s@.take(i as int)).contains_key(name@),
            scope_map(s@).contains_key(name@) ==> scope_map(s@)[name@] == scope_map(s@.take(i as int))[name@],
        decreases i,
    {
        let k = i - 1;
        proof {
            assert(s@.take(i as int).drop_last() =~= s@.take(k as int));
        }
        if string_eq(&s[k].0, name) {
            return Some(s[k].1);
        }
        i = k;
    }
    None
}

fn lookup_x(sc: &Vec<Vec<(String, VarInfo)>>, name: &String) -> (r: Option<VarInfo>)
    ensures
        r == lookup(scopes_v(sc@), name@),
{
    let mut k = sc.len();
    proof {
        assert(sc@.take(k as int) =~= sc@);
    }
    while k > 0
        invariant
            k <= sc@.len(),
            lookup(scopes_v(sc@), name@) == lookup(scopes_v(sc@.take(k as int)), name@),
        decreases k,
    {
        let j = k - 1;
        proof {
            assert(scopes_v(sc@.take(k as int)).drop_last() =~= scopes_v(sc@.take(j as int)));
        }
        match scope_get(&sc[j], name) {
            Some(vi) => return Some(vi),
            None => {},
        }
        k = j;
    }
    None
}

fn find_pano_x<'a>(items: &'a Vec<Item>, name: &String) -> (r: Option<&'a Pano>)
    ensures
        match r {
            Some(p) => find_pano(items_v(items@), name@) == Some(p@),
            None => find_pano(items_v(items@), name@) is None,
        },
{
    let mut i = items.len();
    proof {
        assert(items@.take(i as int) =~= items@);
    }
    while i > 0
        invariant
            i <= items@.len(),
            find_pano(items_v(items@), name@) == find_pano(items_v(items@.take(i as int)), name@),
        decreases i,
    {
        let k = i - 1;
        proof {
            assert(items_v(items@.take(i as int)).drop_last() =~= items_v(items@.take(k as int)));
        }
        if let Item::Pano(p) = &items[k] {
            if string_eq(&p.name, name) {
                return Some(p);
            }
        }
        i = k;
    }
    None
}

fn find_perso_x<'a>(items: &'a Vec<Item>, name: &String) -> (r: Option<&'a Perso>)
    ensures
        match r {
            Some(p) => find_perso(items_v(items@), name@) == Some(p@),
            None => find_perso(items_v(items@), name@) is None,
        },
{
    let mut i = items.len();
    proof {
        assert(items@.take(i as int) =~= items@);
    }
    while i > 0
        invariant
            i <= items@.len(),
            find_perso(items_v(items@), name@) == find_perso(items_v(items@.take(i as int)), name@),
        decreases i,
    {
        let k = i - 1;
        proof {
            assert(items_v(items@.take(i as int)).drop_last() =~= items_v(items@.take(k as int)));
        }
        if let Item::Perso(p) = &items[k] {
            if string_eq(&p.name, name) {
                return Some(p);
            }
        }
        i = k;
    }
    None
}

fn pano_has(p: &Pano, m: &String) -> (r: bool)
    ensures
        r == has_variant(p@, m@),
{
    let mut i: usize = 0;
    while i < p.variants.len()
        invariant
            i <= p.variants@.len(),
            forall|j: int| 0 <= j < i ==> p@.variants[j].name != m@,
        decreases p.variants.len() - i,
    {
        if string_eq(&p.variants[i].name, m) {
            proof {
                assert(p@.variants[i as int].name == m@);
            }
            return true;
        }
        i += 1;
    }
    false
}

fn perso_has(p: &Perso, m: &String) -> (r: bool)
    ensures
        r == has_field(p@, m@),
{
    let mut i: usize = 0;
    while i < p.fields.len()
        invariant
            i <= p.fields@.len(),
            forall|j: int| 0 <= j < i ==> p@.fields[j].name != m@,
        decreases p.fields.len() - i,
    {
        if string_eq(&p.fields[i].name, m) {
            proof {
                assert(p@.fields[i as int].name == m@);
            }
            return true;
        }
        i += 1;
    }
    false
}

fn ty_of_x(t: &Type) -> (r: Ty)
    ensures
        r == ty_of(t@),
{
    match t {
        Type::Kamas => Ty::Kamas,
        Type::Flag => Ty::Flag,
        Type::Txt => Ty::Txt,
        Type::AfkTotal => Ty::AfkTotal,
        Type::Named(_) => Ty::Unknown,
    }
}

pub(crate) fn quoted_x(name: &str) -> (r: String)
    ensures
        r@ == quoted(name@),
{
    let mut r = owned("« ");
    push_text(&mut r, name);
    push_text(&mut r, " »");
    r
}

fn push_quoted(s: &mut String, name: &str)
    ensures
        final(s)@ == old(s)@ + quoted(name@),
{
    let q = quoted_x(name);
    push_text(s, q.as_str());
}

fn add_diag(errs: &mut Vec<SemaError>, msg: String, line: u32, col: u32)
    ensures
        errs_v(final(errs)@) == errs_v(old(errs)@).push(diag(msg@, line, col)),
{
    let e = SemaError { code: None, msg, line, col };
    errs.push(e);
    proof {
        assert(errs_v(errs@) =~= errs_v(old(errs)@).push(diag(msg@, line, col)));
    }
}

fn require_x(errs: &mut Vec<SemaError>, got: Ty, want: Ty, line: u32, col: u32, msg: &str)
    ensures
        errs_v(final(errs)@) == errs_v(old(errs)@) + require(got, want, line, col, msg@),
{
    if got != Ty::Unknown && got != want {
        add_diag(errs, owned(msg), line, col);
        proof {
            assert(errs_v(old(errs)@).push(diag(msg@, line, col)) =~= errs_v(old(errs)@) + require(got, want, line, col, msg@));
        }
    } else {
        proof {
            assert(errs_v(old(errs)@) =~= errs_v(old(errs)@) + require(got, want, line, col, msg@));
        }
    }
}

fn kamas_check_x(errs: &mut Vec<SemaError>, t: Ty, line: u32, col: u32)
    ensures
        errs_v(final(errs)@) == errs_v(old(errs)@) + kamas_check(t, line, col),
{
    if t != Ty::Kamas && t != Ty::Unknown {
        add_diag(errs, owned("valeur kamas attendue"), line, col);
        proof {
            assert(errs_v(old(errs)@).push(diag("valeur kamas attendue"@, line, col)) =~= errs_v(old(errs)@) + kamas_check(t, line, col));
        }
    } else {
        proof {
            assert(errs_v(old(errs)@) =~= errs_v(old(errs)@) + kamas_check(t, line, col));
        }
    }
}

// ------------------------------------------------------------------ checking: expressions

#[verifier::spinoff_prover]
#[verifier::rlimit(40)]
fn infer_x(items: &Vec<Item>, sc: &Vec<Vec<(String, VarInfo)>>, e: &Expr, errs: &mut Vec<SemaError>) -> (t: Ty)
    ensures
        errs_v(final(errs)@) == errs_v(old(errs)@) + infer(items_v(items@), scopes_v(sc@), e@).0,
        t == infer(items_v(items@), scopes_v(sc@), e@).1,
    decreases expr_size(e@), 1int,
{
    let ghost iv = items_v(items@);
    let ghost scv = scopes_v(sc@);
    let ghost start = errs_v(errs@);
    match &e.kind {
        ExprKind::Int(_) => {
            proof { assert(start =~= start + Seq::<SemaErrorV>::empty()); }
            Ty::Kamas
        },
        ExprKind::Bool(_) => {
            proof { assert(start =~= start + Seq::<SemaErrorV>::empty()); }
            Ty::Flag
        },
        ExprKind::Str(_) => {
            proof { assert(start =~= start + Seq::<SemaErrorV>::empty()); }
            Ty::Txt
        },
        ExprKind::Pa | ExprKind::Pm | ExprKind::Suspicion => {
            proof { assert(start =~= start + Seq::<SemaErrorV>::empty()); }
            Ty::Kamas
        },
        ExprKind::Var(name) => match lookup_x(sc, name) {
            Some(vi) => {
                proof { assert(start =~= start + Seq::<SemaErrorV>::empty()); }
                vi.ty
            },
            None => {
                let mut m = owned("variable indéfinie ");
                push_quoted(&mut m, name.as_str());
                add_diag(errs, m, e.line, e.col);
                proof { assert(errs_v(errs@) =~= start + infer(iv, scv, e@).0); }
                Ty::Unknown
            },
        },
        ExprKind::Unary(..) => infer_unary_x(items, sc, e, errs),
        ExprKind::Binary(..) => infer_binary_x(items, sc, e, errs),
        ExprKind::Call(..) => infer_call_x(items, sc, e, errs),
        ExprKind::Path(..) => infer_path_x(items, sc, e, errs),
        ExprKind::Struct(..) => infer_struct_x(items, sc, e, errs),
    }
}

fn infer_unary_x(items: &Vec<Item>, sc: &Vec<Vec<(String, VarInfo)>>, e: &Expr, errs: &mut Vec<SemaError>) -> (t: Ty)
    requires
        e@.kind is Unary,
    ensures
        errs_v(final(errs)@) == errs_v(old(errs)@) + infer(items_v(items@), scopes_v(sc@), e@).0,
        t == infer(items_v(items@), scopes_v(sc@), e@).1,
    decreases expr_size(e@), 0int,
{
    let ghost iv = items_v(items@);
    let ghost scv = scopes_v(sc@);
    let ghost start = errs_v(errs@);
    match &e.kind {
        ExprKind::Unary(op, x) => {
            let t = infer_x(items, sc, x, errs);
            match op {
                UnOp::Neg => {
                    require_x(errs, t, Ty::Kamas, x.line, x.col, "négation sur non-kamas");
                    proof { assert(errs_v(errs@) =~= start + infer(iv, scv, e@).0); }
                    Ty::Kamas
                },
                UnOp::Not => {
                    require_x(errs, t, Ty::Flag, x.line, x.col, "« pas » sur non-flag");
                    proof { assert(errs_v(errs@) =~= start + infer(iv, scv, e@).0); }
                    Ty::Flag
                },
            }
        },
        _ => {
            proof { assert(false); }
            Ty::Unknown
        },
    }
}

fn infer_binary_x(items: &Vec<Item>, sc: &Vec<Vec<(String, VarInfo)>>, e: &Expr, errs: &mut Vec<SemaError>) -> (t: Ty)
    requires
        e@.kind is Binary,
    ensures
        errs_v(final(errs)@) == errs_v(old(errs)@) + infer(items_v(items@), scopes_v(sc@), e@).0,
        t == infer(items_v(items@), scopes_v(sc@), e@).1,
    decreases expr_size(e@), 0int,
{
    let ghost iv = items_v(items@);
    let ghost scv = scopes_v(sc@);
    let ghost start = errs_v(errs@);
    match &e.kind {
        ExprKind::Binary(op, l, r) => {
            let lt = infer_x(items, sc, l, errs);
            let rt = infer_x(items, sc, r, errs);
            match op {
                BinOp::Add | BinOp::Sub | BinOp::Mul | BinOp::Div => {
                    require_x(errs, lt, Ty::Kamas, l.line, l.col, "opérande arithmétique non-kamas");
                    require_x(errs, rt, Ty::Kamas, r.line, r.col, "opérande arithmétique non-kamas");
                    proof { assert(errs_v(errs@) =~= start + infer(iv, scv, e@).0); }
                    Ty::Kamas
                },
                BinOp::Lt | BinOp::Le | BinOp::Gt | BinOp::Ge => {
                    require_x(errs, lt, Ty::Kamas, l.line, l.col, "comparaison sur non-kamas");
                    require_x(errs, rt, Ty::Kamas, r.line, r.col, "comparaison sur non-kamas");
                    proof { assert(errs_v(errs@) =~= start + infer(iv, scv, e@).0); }
                    Ty::Flag
                },
                BinOp::Eq | BinOp::Ne => {
                    proof { assert(errs_v(errs@) =~= start + infer(iv, scv, e@).0); }
                    Ty::Flag
                },
                BinOp::And | BinOp::Or => {
                    require_x(errs, lt, Ty::Flag, l.line, l.col, "opérande booléen non-flag");
                    require_x(errs, rt, Ty::Flag, r.line, r.col, "opérande booléen non-flag");
                    proof { assert(errs_v(errs@) =~= start + infer(iv, scv, e@).0); }
                    Ty::Flag
                },
            }
        },
        _ => {
            proof { assert(false); }
            Ty::Unknown
        },
    }
}

fn infer_call_x(items: &Vec<Item>, sc: &Vec<Vec<(String, VarInfo)>>, e: &Expr, errs: &mut Vec<SemaError>) -> (t: Ty)
    requires
        e@.kind is Call,
    ensures
        errs_v(final(errs)@) == errs_v(old(errs)@) + infer(items_v(items@), scopes_v(sc@), e@).0,
        t == infer(items_v(items@), scopes_v(sc@), e@).1,
    decreases expr_size(e@), 0int,
{
    let ghost iv = items_v(items@);
    let ghost scv = scopes_v(sc@);
    let ghost start = errs_v(errs@);
    match &e.kind {
        ExprKind::Call(name, args) => {
            let ghost a = exprs_v(args@);
            proof {
                lemma_exprs_v(args@);
            }
            if string_is(name, "rand") || string_is(name, "butin") {
                if args.len() != 2 {
                    let mut m = quoted_x(name.as_str());
                    push_text(&mut m, " attend 2 arguments");
                    add_diag(errs, m, e.line, e.col);
                }
                let ghost mid = errs_v(errs@);
                let mut i: usize = 0;
                proof { assert(mid =~= mid + expect_kamas_all(iv, scv, a.take(0))); }
                while i < args.len()
                    invariant
                        iv == items_v(items@),
                        scv == scopes_v(sc@),
                        a == exprs_v(args@),
                        e@.kind == ExprKindV::Call(name@, a),
                        a.len() == args@.len(),
                        forall|j: int| 0 <= j < a.len() ==> #[trigger] a[j] == args@[j]@,
                        i <= a.len(),
                        errs_v(errs@) == mid + expect_kamas_all(iv, scv, a.take(i as int)),
                    decreases a.len() - i,
                {
                    proof {
                        lemma_exprs_size_index(a, i as int);
                        assert(a.take(i + 1).drop_last() =~= a.take(i as int));
                    }
                    let t = infer_x(items, sc, &args[i], errs);
                    kamas_check_x(errs, t, args[i].line, args[i].col);
                    proof {
                        assert(mid + expect_kamas_all(iv, scv, a.take(i + 1)) =~= mid + expect_kamas_all(iv, scv, a.take(i as int))
                            + infer(iv, scv, a[i as int]).0 + kamas_check(t, a[i as int].line, a[i as int].col));
                    }
                    i += 1;
                }
                proof {
                    assert(a.take(i as int) =~= a);
                    assert(errs_v(errs@) =~= start + infer(iv, scv, e@).0);
                }
                Ty::Kamas
            } else if string_is(name, "cd_pret") {
                let ok = if args.len() > 0 {
                    match &args[0].kind {
                        ExprKind::Var(b) => find_bot_x(items, b).is_some(),
                        _ => false,
                    }
                } else {
                    false
                };
                if !ok {
                    add_diag(errs, owned("« cd_pret » attend un nom de bot"), e.line, e.col);
                }
                proof { assert(errs_v(errs@) =~= start + infer(iv, scv, e@).0); }
                Ty::Flag
            } else {
                match find_bot_x(items, name) {
                    None => {
                        let mut m = owned("bot inconnu ");
                        push_quoted(&mut m, name.as_str());
                        add_diag(errs, m, e.line, e.col);
                        proof { assert(errs_v(errs@) =~= start + infer(iv, scv, e@).0); }
                        Ty::Unknown
                    },
                    Some(b) => {
                        if args.len() != b.params.len() {
                            let mut m = quoted_x(name.as_str());
                            push_text(&mut m, " attend ");
                            let k = nat_text(b.params.len() as u64);
                            push_text(&mut m, k.as_str());
                            push_text(&mut m, " argument(s), reçu ");
                            let g = nat_text(args.len() as u64);
                            push_text(&mut m, g.as_str());
                            add_diag(errs, m, e.line, e.col);
                        }
                        let ghost mid = errs_v(errs@);
                        let mut i: usize = 0;
                        proof { assert(mid =~= mid + infer_all(iv, scv, a.take(0))); }
                        while i < args.len()
                            invariant
                                iv == items_v(items@),
                                scv == scopes_v(sc@),
                                a == exprs_v(args@),
                                e@.kind == ExprKindV::Call(name@, a),
                                a.len() == args@.len(),
                                forall|j: int| 0 <= j < a.len() ==> #[trigger] a[j] == args@[j]@,
                                i <= a.len(),
                                errs_v(errs@) == mid + infer_all(iv, scv, a.take(i as int)),
                            decreases a.len() - i,
                        {
                            proof {
                                lemma_exprs_size_index(a, i as int);
                                assert(a.take(i + 1).drop_last() =~= a.take(i as int));
                            }
                            let _ = infer_x(items, sc, &args[i], errs);
                            proof {
                                assert(mid + infer_all(iv, scv, a.take(i + 1)) =~= mid + infer_all(iv, scv, a.take(i as int))
                                    + infer(iv, scv, a[i as int]).0);
                            }
                            i += 1;
                        }
                        proof {
                            assert(a.take(i as int) =~= a);
                            assert(errs_v(errs@) =~= start + infer(iv, scv, e@).0);
                        }
                        match &b.ret {
                            Some(t) => ty_of_x(t),
                            None => Ty::AfkTotal,
                        }
                    },
                }
            }
        },
        _ => Ty::Unknown,
    }
}

fn infer_path_x(items: &Vec<Item>, sc: &Vec<Vec<(String, VarInfo)>>, e: &Expr, errs: &mut Vec<SemaError>) -> (t: Ty)
    requires
        e@.kind is Path,
    ensures
        errs_v(final(errs)@) == errs_v(old(errs)@) + infer(items_v(items@), scopes_v(sc@), e@).0,
        t == infer(items_v(items@), scopes_v(sc@), e@).1,
    decreases expr_size(e@), 0int,
{
    let ghost iv = items_v(items@);
    let ghost scv = scopes_v(sc@);
    let ghost start = errs_v(errs@);
    match &e.kind {
        ExprKind::Path(left, member) => match find_pano_x(items, left) {
            Some(p) => {
                if !pano_has(p, member) {
                    let mut m = owned("variant ");
                    push_quoted(&mut m, member.as_str());
                    push_text(&mut m, " inconnu dans pano ");
                    push_quoted(&mut m, left.as_str());
                    add_diag(errs, m, e.line, e.col);
                }
                proof { assert(errs_v(errs@) =~= start + infer(iv, scv, e@).0); }
                Ty::Kamas
            },
            None => match find_perso_x(items, left) {
                Some(p) => {
                    if !perso_has(p, member) {
                        let mut m = owned("champ ");
                        push_quoted(&mut m, member.as_str());
                        push_text(&mut m, " inconnu dans perso ");
                        push_quoted(&mut m, left.as_str());
                        add_diag(errs, m, e.line, e.col);
                    }
                    proof { assert(errs_v(errs@) =~= start + infer(iv, scv, e@).0); }
                    Ty::Kamas
                },
                None => {
                    if lookup_x(sc, left).is_none() {
                        let mut m = quoted_x(left.as_str());
                        push_text(&mut m, " n'est ni un pano, ni un perso, ni une variable");
                        add_diag(errs, m, e.line, e.col);
                    }
                    proof { assert(errs_v(errs@) =~= start + infer(iv, scv, e@).0); }
                    Ty::Unknown
                },
            },
        },
        _ => Ty::Unknown,
    }
}

fn infer_struct_x(items: &Vec<Item>, sc: &Vec<Vec<(String, VarInfo)>>, e: &Expr, errs: &mut Vec<SemaError>) -> (t: Ty)
    requires
        e@.kind is Struct,
    ensures
        errs_v(final(errs)@) == errs_v(old(errs)@) + infer(items_v(items@), scopes_v(sc@), e@).0,
        t == infer(items_v(items@), scopes_v(sc@), e@).1,
    decreases expr_size(e@), 0int,
{
    let ghost iv = items_v(items@);
    let ghost scv = scopes_v(sc@);
    let ghost start = errs_v(errs@);
    match &e.kind {
        ExprKind::Struct(ty, fields) => {
            let ghost a = fields_init_v(fields@);
            proof {
                lemma_fields_init_v(fields@);
            }
            match find_perso_x(items, ty) {
                Some(p) => {
                    let mut i: usize = 0;
                    proof { assert(start =~= start + field_name_errs(p@, ty@, a.take(0), e.line, e.col)); }
                    while i < fields.len()
                        invariant
                            a == fields_init_v(fields@),
                            a.len() == fields@.len(),
                            forall|j: int| 0 <= j < a.len() ==> #[trigger] a[j] == (fields@[j].name@, fields@[j].value@),
                            i <= a.len(),
                            errs_v(errs@) == start + field_name_errs(p@, ty@, a.take(i as int), e.line, e.col),
                        decreases a.len() - i,
                    {
                        proof {
                            assert(a.take(i + 1).drop_last() =~= a.take(i as int));
                        }
                        let ghost before = errs_v(errs@);
                        if !perso_has(p, &fields[i].name) {
                            let mut m = owned("champ ");
                            push_quoted(&mut m, fields[i].name.as_str());
                            push_text(&mut m, " inconnu dans perso ");
                            push_quoted(&mut m, ty.as_str());
                            add_diag(errs, m, e.line, e.col);
                        }
                        proof {
                            assert(start + field_name_errs(p@, ty@, a.take(i + 1), e.line, e.col) =~=
                                (start + field_name_errs(p@, ty@, a.take(i as int), e.line, e.col)) + (if has_field(p@, a[i as int].0) {
                                    seq![]
                                } else {
                                    seq![diag("champ "@ + quoted(a[i as int].0) + " inconnu dans perso "@ + quoted(ty@), e.line, e.col)]
                                }));
                            assert(errs_v(errs@) =~= before + (if has_field(p@, a[i as int].0) {
                                    seq![]
                                } else {
                                    seq![diag("champ "@ + quoted(a[i as int].0) + " inconnu dans perso "@ + quoted(ty@), e.line, e.col)]
                                }));
                        }
                        i += 1;
                    }
                    proof {
                        assert(a.take(i as int) =~= a);
                    }
                },
                None => {
                    let mut m = owned("perso ");
                    push_quoted(&mut m, ty.as_str());
                    push_text(&mut m, " inconnu");
                    add_diag(errs, m, e.line, e.col);
                },
            }
            let ghost mid = errs_v(errs@);
            let mut i: usize = 0;
            proof { assert(mid =~= mid + fields_infer(iv, scv, a.take(0))); }
            while i < fields.len()
                invariant
                    iv == items_v(items@),
                    scv == scopes_v(sc@),
                    a == fields_init_v(fields@),
                    e@.kind == ExprKindV::Struct(ty@, a),
                    a.len() == fields@.len(),
                    forall|j: int| 0 <= j < a.len() ==> #[trigger] a[j] == (fields@[j].name@, fields@[j].value@),
                    i <= a.len(),
                    errs_v(errs@) == mid + fields_infer(iv, scv, a.take(i as int)),
                decreases a.len() - i,
            {
                proof {
                    lemma_fields_size_index(a, i as int);
                    assert(a.take(i + 1).drop_last() =~= a.take(i as int));
                }
                let _ = infer_x(items, sc, &fields[i].value, errs);
                proof {
                    assert(mid + fields_infer(iv, scv, a.take(i + 1)) =~= mid + fields_infer(iv, scv, a.take(i as int))
                        + infer(iv, scv, a[i as int].1).0);
                }
                i += 1;
            }
            proof {
                assert(a.take(i as int) =~= a);
                assert(errs_v(errs@) =~= start + infer(iv, scv, e@).0);
            }
            Ty::Unknown
        },
        _ => Ty::Unknown,
    }
}

// ------------------------------------------------------------------ checking: statements

fn declare_x(sc: &mut Vec<Vec<(String, VarInfo)>>, name: &String, vi: VarInfo)
    requires
        old(sc)@.len() > 0,
    ensures
        final(sc)@.len() == old(sc)@.len(),
        forall|k: int| 0 <= k < old(sc)@.len() - 1 ==> final(sc)@[k] == old(sc)@[k],
        scopes_v(final(sc)@) == declare(scopes_v(old(sc)@), name@, vi),
{
    let mut top = sc.pop().unwrap();
    top.push((name.clone(), vi));
    sc.push(top);
    proof {
        assert(top@.drop_last() =~= old(sc)@.last()@);
        assert(scopes_v(sc@) =~= declare(scopes_v(old(sc)@), name@, vi));
    }
}

fn expect_kamas_x(items: &Vec<Item>, sc: &Vec<Vec<(String, VarInfo)>>, e: &Expr, errs: &mut Vec<SemaError>)
    ensures
        errs_v(final(errs)@) == errs_v(old(errs)@) + expect_kamas(items_v(items@), scopes_v(sc@), e@),
{
    let t = infer_x(items, sc, e, errs);
    kamas_check_x(errs, t, e.line, e.col);
    proof {
        assert(errs_v(errs@) =~= errs_v(old(errs)@) + expect_kamas(items_v(items@), scopes_v(sc@), e@));
    }
}

fn expect_cond_x(items: &Vec<Item>, sc: &Vec<Vec<(String, VarInfo)>>, e: &Expr, errs: &mut Vec<SemaError>)
    ensures
        errs_v(final(errs)@) == errs_v(old(errs)@) + expect_cond(items_v(items@), scopes_v(sc@), e@),
{
    let t = infer_x(items, sc, e, errs);
    let ghost mid = errs_v(errs@);
    if t != Ty::Flag && t != Ty::Kamas && t != Ty::Unknown {
        add_diag(errs, owned("condition non booléenne"), e.line, e.col);
    }
    proof {
        assert(errs_v(errs@) =~= errs_v(old(errs)@) + expect_cond(items_v(items@), scopes_v(sc@), e@));
    }
}

fn budget_diag(errs: &mut Vec<SemaError>, code: &'static str, amount: i64, unit: &str, max: i64, line: u32, col: u32)
    ensures
        errs_v(final(errs)@) == errs_v(old(errs)@).push(SemaErrorV {
            code: Some(code@),
            msg: "tour trop gourmand — "@ + decimal(amount as int) + unit@ + decimal(max as int),
            line,
            col,
        }),
{
    let mut m = owned("tour trop gourmand — ");
    let a = int_text(amount);
    push_text(&mut m, a.as_str());
    push_text(&mut m, unit);
    let b = int_text(max);
    push_text(&mut m, b.as_str());
    errs.push(SemaError { code: Some(code), msg: m, line, col });
    proof {
        assert(errs_v(errs@) =~= errs_v(old(errs)@).push(errs@.last()@));
    }
}

/// Static budget check of a `tour` body (nothing when its cost is dynamic).
fn analyze_budget(items: &Vec<Item>, cfg: &Config, eff: &CostTable, body: &Block, errs: &mut Vec<SemaError>)
    requires
        eff@ == cost_map(items_v(items@), *cfg),
    ensures
        errs_v(final(errs)@) == errs_v(old(errs)@) + budget_errs(items_v(items@), *cfg, body@.stmts),
{
    if contains_dynamic(body) {
        proof {
            assert(errs_v(errs@) =~= errs_v(old(errs)@) + budget_errs(items_v(items@), *cfg, body@.stmts));
        }
        return;
    }
    let (line, col) = match first_pos_x(body) {
        Some(p) => p,
        None => (1, 1),
    };
    let pa = block_pa(body, eff, cfg);
    if pa > cfg.max_pa {
        budget_diag(errs, "E-PA", pa, " PA demandés, budget max ", cfg.max_pa, line, col);
    }
    let pm = tour_pm_x(body);
    if pm > cfg.max_pm {
        budget_diag(errs, "E-PM", pm, " PM demandés, budget max ", cfg.max_pm, line, col);
    }
    proof {
        assert(errs_v(errs@) =~= errs_v(old(errs)@) + budget_errs(items_v(items@), *cfg, body@.stmts));
    }
}

fn check_block_x(items: &Vec<Item>, cfg: &Config, eff: &CostTable, sc: &mut Vec<Vec<(String, VarInfo)>>, b: &Block, errs: &mut Vec<SemaError>)
    requires
        eff@ == cost_map(items_v(items@), *cfg),
    ensures
        final(sc)@ == old(sc)@,
        errs_v(final(errs)@) == errs_v(old(errs)@) + check_block(items_v(items@), *cfg, scopes_v(old(sc)@), b@),
    decreases block_size(b@), 1int,
{
    let ghost sc0 = sc@;
    sc.push(Vec::new());
    proof {
        assert(scopes_v(sc@) =~= scopes_v(sc0).push(Map::empty()));
    }
    check_stmts_x(items, cfg, eff, sc, b, errs);
    let _ = sc.pop();
    proof {
        assert(sc@ =~= sc0);
    }
}

#[verifier::spinoff_prover]
#[verifier::rlimit(40)]
fn check_stmts_x(items: &Vec<Item>, cfg: &Config, eff: &CostTable, sc: &mut Vec<Vec<(String, VarInfo)>>, b: &Block, errs: &mut Vec<SemaError>)
    requires
        eff@ == cost_map(items_v(items@), *cfg),
        old(sc)@.len() > 0,
    ensures
        final(sc)@.len() == old(sc)@.len(),
        forall|k: int| 0 <= k < old(sc)@.len() - 1 ==> final(sc)@[k] == old(sc)@[k],
        scopes_v(final(sc)@) == check_stmts(items_v(items@), *cfg, scopes_v(old(sc)@), b@.stmts).0,
        errs_v(final(errs)@) == errs_v(old(errs)@) + check_stmts(items_v(items@), *cfg, scopes_v(old(sc)@), b@.stmts).1,
    decreases stmts_size(b@.stmts), 1int,
{
    let Ghost(s) = stmts_of_block(b);
    let ghost iv = items_v(items@);
    let ghost sc0 = sc@;
    let ghost start = errs_v(errs@);
    let mut i: usize = 0;
    proof {
        assert(start =~= start + check_stmts(iv, *cfg, scopes_v(sc0), s.take(0)).1);
        assert(s.take(0) =~= Seq::<StmtV>::empty());
    }
    while i < b.stmts.len()
        invariant
            s == b@.stmts,
            s.len() == b.stmts@.len(),
            forall|j: int| 0 <= j < s.len() ==> #[trigger] s[j] == b.stmts@[j]@,
            i <= s.len(),
            iv == items_v(items@),
            eff@ == cost_map(iv, *cfg),
            sc@.len() == sc0.len(),
            sc0.len() > 0,
            forall|k: int| 0 <= k < sc0.len() - 1 ==> sc@[k] == sc0[k],
            scopes_v(sc@) == check_stmts(iv, *cfg, scopes_v(sc0), s.take(i as int)).0,
            errs_v(errs@) == start + check_stmts(iv, *cfg, scopes_v(sc0), s.take(i as int)).1,
        decreases s.len() - i,
    {
        proof {
            lemma_stmts_size_index(s, i as int);
            assert(s.take(i + 1).drop_last() =~= s.take(i as int));
        }
        let ghost before = errs_v(errs@);
        let ghost scb = sc@;
        check_stmt_x(items, cfg, eff, sc, &b.stmts[i], errs);
        proof {
            assert(start + check_stmts(iv, *cfg, scopes_v(sc0), s.take(i + 1)).1 =~=
                before + check_stmt(iv, *cfg, scopes_v(scb), s[i as int]).1);
        }
        i += 1;
    }
    proof {
        assert(s.take(i as int) =~= s);
    }
}

fn check_stmt_x(items: &Vec<Item>, cfg: &Config, eff: &CostTable, sc: &mut Vec<Vec<(String, VarInfo)>>, s: &Stmt, errs: &mut Vec<SemaError>)
    requires
        eff@ == cost_map(items_v(items@), *cfg),
        old(sc)@.len() > 0,
    ensures
        final(sc)@.len() == old(sc)@.len(),
        forall|k: int| 0 <= k < old(sc)@.len() - 1 ==> final(sc)@[k] == old(sc)@[k],
        scopes_v(final(sc)@) == check_stmt(items_v(items@), *cfg, scopes_v(old(sc)@), s@).0,
        errs_v(final(errs)@) == errs_v(old(errs)@) + check_stmt(items_v(items@), *cfg, scopes_v(old(sc)@), s@).1,
    decreases stmt_size(s@), 1int,
{
    match s {
        Stmt::Loot { .. } | Stmt::Ban { .. } => check_decl_x(items, cfg, eff, sc, s, errs),
        Stmt::Assign { .. } => check_assign_x(items, cfg, eff, sc, s, errs),
        Stmt::Grind { .. } => check_grind_x(items, cfg, eff, sc, s, errs),
        Stmt::Tour(_) => check_tour_x(items, cfg, eff, sc, s, errs),
        Stmt::Farm { .. } => check_farm_x(items, cfg, eff, sc, s, errs),
        Stmt::Detect { .. } => check_detect_x(items, cfg, eff, sc, s, errs),
        _ => check_simple_x(items, cfg, eff, sc, s, errs),
    }
}

#[verifier::spinoff_prover]
#[verifier::rlimit(60)]
fn check_decl_x(items: &Vec<Item>, cfg: &Config, eff: &CostTable, sc: &mut Vec<Vec<(String, VarInfo)>>, s: &Stmt, errs: &mut Vec<SemaError>)
    requires
        eff@ == cost_map(items_v(items@), *cfg),
        old(sc)@.len() > 0,
        s@ is Loot || s@ is Ban,
    ensures
        final(sc)@.len() == old(sc)@.len(),
        forall|k: int| 0 <= k < old(sc)@.len() - 1 ==> final(sc)@[k] == old(sc)@[k],
        scopes_v(final(sc)@) == check_stmt(items_v(items@), *cfg, scopes_v(old(sc)@), s@).0,
        errs_v(final(errs)@) == errs_v(old(errs)@) + check_stmt(items_v(items@), *cfg, scopes_v(old(sc)@), s@).1,
    decreases stmt_size(s@), 0int,
{
    let ghost iv = items_v(items@);
    let ghost sc0 = sc@;
    let ghost start = errs_v(errs@);
    match s {
        Stmt::Loot { name, ty, value } | Stmt::Ban { name, ty, value } => {
            let t = infer_x(items, sc, value, errs);
            let d = match ty {
                Some(x) => ty_of_x(x),
                None => t,
            };
            let is_const = match s {
                Stmt::Ban { .. } => true,
                _ => false,
            };
            declare_x(sc, name, VarInfo { ty: d, is_const });
        },
        _ => {},
    }
}

#[verifier::spinoff_prover]
#[verifier::rlimit(60)]
fn check_assign_x(items: &Vec<Item>, cfg: &Config, eff: &CostTable, sc: &mut Vec<Vec<(String, VarInfo)>>, s: &Stmt, errs: &mut Vec<SemaError>)
    requires
        eff@ == cost_map(items_v(items@), *cfg),
        old(sc)@.len() > 0,
        s@ is Assign,
    ensures
        final(sc)@.len() == old(sc)@.len(),
        forall|k: int| 0 <= k < old(sc)@.len() - 1 ==> final(sc)@[k] == old(sc)@[k],
        scopes_v(final(sc)@) == check_stmt(items_v(items@), *cfg, scopes_v(old(sc)@), s@).0,
        errs_v(final(errs)@) == errs_v(old(errs)@) + check_stmt(items_v(items@), *cfg, scopes_v(old(sc)@), s@).1,
    decreases stmt_size(s@), 0int,
{
    let ghost iv = items_v(items@);
    let ghost sc0 = sc@;
    let ghost start = errs_v(errs@);
    match s {
        Stmt::Assign { name, value, line, col, .. } => {
            match lookup_x(sc, name) {
                None => {
                    let mut m = owned("variable indéfinie ");
                    push_quoted(&mut m, name.as_str());
                    add_diag(errs, m, *line, *col);
                },
                Some(vi) => {
                    if vi.is_const {
                        let mut m = owned("affectation d'une constante ");
                        push_quoted(&mut m, name.as_str());
                        add_diag(errs, m, *line, *col);
                    }
                },
            }
            let _ = infer_x(items, sc, value, errs);
            proof {
                assert(errs_v(errs@) =~= start + check_stmt(iv, *cfg, scopes_v(sc0), s@).1);
            }
        },
        _ => {},
    }
}

#[verifier::spinoff_prover]
#[verifier::rlimit(60)]
fn check_grind_x(items: &Vec<Item>, cfg: &Config, eff: &CostTable, sc: &mut Vec<Vec<(String, VarInfo)>>, s: &Stmt, errs: &mut Vec<SemaError>)
    requires
        eff@ == cost_map(items_v(items@), *cfg),
        old(sc)@.len() > 0,
        s@ is Grind,
    ensures
        final(sc)@.len() == old(sc)@.len(),
        forall|k: int| 0 <= k < old(sc)@.len() - 1 ==> final(sc)@[k] == old(sc)@[k],
        scopes_v(final(sc)@) == check_stmt(items_v(items@), *cfg, scopes_v(old(sc)@), s@).0,
        errs_v(final(errs)@) == errs_v(old(errs)@) + check_stmt(items_v(items@), *cfg, scopes_v(old(sc)@), s@).1,
    decreases stmt_size(s@), 0int,
{
    let ghost iv = items_v(items@);
    let ghost sc0 = sc@;
    let ghost start = errs_v(errs@);
    match s {
        Stmt::Grind { var, from, to, body } => {
            expect_kamas_x(items, sc, from, errs);
            expect_kamas_x(items, sc, to, errs);
            let mut scope: Vec<(String, VarInfo)> = Vec::new();
            scope.push((var.clone(), VarInfo { ty: Ty::Kamas, is_const: true }));
            sc.push(scope);
            proof {
                assert(scope_map(scope@) =~= Map::<Seq<char>, VarInfo>::empty().insert(var@, VarInfo { ty: Ty::Kamas, is_const: true })) by {
                    assert(scope@.drop_last() =~= Seq::<(String, VarInfo)>::empty());
                    assert(scope_map(Seq::<(String, VarInfo)>::empty()) =~= Map::<Seq<char>, VarInfo>::empty());
                    assert(scope@.last().0@ == var@);
                }
                assert(scopes_v(sc@) =~= scopes_v(sc0).push(Map::empty().insert(var@, VarInfo { ty: Ty::Kamas, is_const: true })));
            }
            check_stmts_x(items, cfg, eff, sc, body, errs);
            let _ = sc.pop();
            proof {
                assert(sc@ =~= sc0);
                assert(errs_v(errs@) =~= start + check_stmt(iv, *cfg, scopes_v(sc0), s@).1);
            }
        },
        _ => {},
    }
}

#[verifier::spinoff_prover]
#[verifier::rlimit(60)]
fn check_tour_x(items: &Vec<Item>, cfg: &Config, eff: &CostTable, sc: &mut Vec<Vec<(String, VarInfo)>>, s: &Stmt, errs: &mut Vec<SemaError>)
    requires
        eff@ == cost_map(items_v(items@), *cfg),
        old(sc)@.len() > 0,
        s@ is Tour,
    ensures
        final(sc)@.len() == old(sc)@.len(),
        forall|k: int| 0 <= k < old(sc)@.len() - 1 ==> final(sc)@[k] == old(sc)@[k],
        scopes_v(final(sc)@) == check_stmt(items_v(items@), *cfg, scopes_v(old(sc)@), s@).0,
        errs_v(final(errs)@) == errs_v(old(errs)@) + check_stmt(items_v(items@), *cfg, scopes_v(old(sc)@), s@).1,
    decreases stmt_size(s@), 0int,
{
    let ghost iv = items_v(items@);
    let ghost sc0 = sc@;
    let ghost start = errs_v(errs@);
    match s {
        Stmt::Tour(blk) => {
            analyze_budget(items, cfg, eff, blk, errs);
            check_block_x(items, cfg, eff, sc, blk, errs);
            proof {
                assert(errs_v(errs@) =~= start + check_stmt(iv, *cfg, scopes_v(sc0), s@).1);
            }
        },
        _ => {},
    }
}

#[verifier::spinoff_prover]
#[verifier::rlimit(60)]
fn check_farm_x(items: &Vec<Item>, cfg: &Config, eff: &CostTable, sc: &mut Vec<Vec<(String, VarInfo)>>, s: &Stmt, errs: &mut Vec<SemaError>)
    requires
        eff@ == cost_map(items_v(items@), *cfg),
        old(sc)@.len() > 0,
        s@ is Farm,
    ensures
        final(sc)@.len() == old(sc)@.len(),
        forall|k: int| 0 <= k < old(sc)@.len() - 1 ==> final(sc)@[k] == old(sc)@[k],
        scopes_v(final(sc)@) == check_stmt(items_v(items@), *cfg, scopes_v(old(sc)@), s@).0,
        errs_v(final(errs)@) == errs_v(old(errs)@) + check_stmt(items_v(items@), *cfg, scopes_v(old(sc)@), s@).1,
    decreases stmt_size(s@), 0int,
{
    let ghost iv = items_v(items@);
    let ghost sc0 = sc@;
    let ghost start = errs_v(errs@);
    match s {
        Stmt::Farm { cond, body } => {
            expect_cond_x(items, sc, cond, errs);
            check_block_x(items, cfg, eff, sc, body, errs);
            proof {
                assert(errs_v(errs@) =~= start + check_stmt(iv, *cfg, scopes_v(sc0), s@).1);
            }
        },
        _ => {},
    }
}

#[verifier::spinoff_prover]
#[verifier::rlimit(60)]
fn check_detect_x(items: &Vec<Item>, cfg: &Config, eff: &CostTable, sc: &mut Vec<Vec<(String, VarInfo)>>, s: &Stmt, errs: &mut Vec<SemaError>)
    requires
        eff@ == cost_map(items_v(items@), *cfg),
        old(sc)@.len() > 0,
        s@ is Detect,
    ensures
        final(sc)@.len() == old(sc)@.len(),
        forall|k: int| 0 <= k < old(sc)@.len() - 1 ==> final(sc)@[k] == old(sc)@[k],
        scopes_v(final(sc)@) == check_stmt(items_v(items@), *cfg, scopes_v(old(sc)@), s@).0,
        errs_v(final(errs)@) == errs_v(old(errs)@) + check_stmt(items_v(items@), *cfg, scopes_v(old(sc)@), s@).1,
    decreases stmt_size(s@), 0int,
{
    let ghost iv = items_v(items@);
    let ghost sc0 = sc@;
    let ghost start = errs_v(errs@);
    match s {
        Stmt::Detect { cond, then_branch, else_branch } => {
            expect_cond_x(items, sc, cond, errs);
            check_block_x(items, cfg, eff, sc, then_branch, errs);
            match else_branch {
                Some(eb) => check_block_x(items, cfg, eff, sc, eb, errs),
                None => {},
            }
            proof {
                assert(errs_v(errs@) =~= start + check_stmt(iv, *cfg, scopes_v(sc0), s@).1);
            }
        },
        _ => {},
    }
}

#[verifier::spinoff_prover]
#[verifier::rlimit(60)]
fn check_simple_x(items: &Vec<Item>, cfg: &Config, eff: &CostTable, sc: &mut Vec<Vec<(String, VarInfo)>>, s: &Stmt, errs: &mut Vec<SemaError>)
    requires
        eff@ == cost_map(items_v(items@), *cfg),
        old(sc)@.len() > 0,
        s@ is Passer || s@ is Gg || s@ is Up || s@ is Afk || s@ is Expr,
    ensures
        final(sc)@.len() == old(sc)@.len(),
        forall|k: int| 0 <= k < old(sc)@.len() - 1 ==> final(sc)@[k] == old(sc)@[k],
        scopes_v(final(sc)@) == check_stmt(items_v(items@), *cfg, scopes_v(old(sc)@), s@).0,
        errs_v(final(errs)@) == errs_v(old(errs)@) + check_stmt(items_v(items@), *cfg, scopes_v(old(sc)@), s@).1,
    decreases stmt_size(s@), 0int,
{
    let ghost iv = items_v(items@);
    let ghost sc0 = sc@;
    let ghost start = errs_v(errs@);
    match s {
        Stmt::Passer => {
            proof {
                assert(errs_v(errs@) =~= start + check_stmt(iv, *cfg, scopes_v(sc0), s@).1);
            }
        },
        Stmt::Gg(opt) => {
            match opt {
                Some(e) => {
                    let _ = infer_x(items, sc, e, errs);
                },
                None => {},
            }
            proof {
                assert(errs_v(errs@) =~= start + check_stmt(iv, *cfg, scopes_v(sc0), s@).1);
            }
        },
        Stmt::Up(e) => {
            let t = infer_x(items, sc, e, errs);
            if t != Ty::Txt && t != Ty::Unknown {
                add_diag(errs, owned("« up » attend une valeur txt"), e.line, e.col);
            }
            proof {
                assert(errs_v(errs@) =~= start + check_stmt(iv, *cfg, scopes_v(sc0), s@).1);
            }
        },
        Stmt::Afk(e) => {
            expect_kamas_x(items, sc, e, errs);
        },
        Stmt::Expr(e) => {
            let _ = infer_x(items, sc, e, errs);
        },
        _ => {},
    }
}

fn check_bot_x(items: &Vec<Item>, cfg: &Config, eff: &CostTable, b: &Bot, errs: &mut Vec<SemaError>)
    requires
        eff@ == cost_map(items_v(items@), *cfg),
    ensures
        errs_v(final(errs)@) == errs_v(old(errs)@) + check_bot(items_v(items@), *cfg, b@),
{
    let ghost pv = b@.params;
    let mut params: Vec<(String, VarInfo)> = Vec::new();
    let mut i: usize = 0;
    while i < b.params.len()
        invariant
            pv == b@.params,
            pv.len() == b.params@.len(),
            i <= pv.len(),
            scope_map(params@) == params_scope(pv.take(i as int)),
        decreases b.params.len() - i,
    {
        proof {
            assert(pv.take(i + 1).drop_last() =~= pv.take(i as int));
            assert(pv[i as int] == b.params@[i as int]@);
        }
        let t = ty_of_x(&b.params[i].ty);
        let ghost prev = params@;
        params.push((b.params[i].name.clone(), VarInfo { ty: t, is_const: false }));
        proof {
            assert(params@.drop_last() =~= prev);
        }
        i += 1;
    }
    proof {
        assert(pv.take(i as int) =~= pv);
    }
    let mut sc: Vec<Vec<(String, VarInfo)>> = Vec::new();
    sc.push(Vec::new());
    sc.push(params);
    proof {
        assert(scopes_v(sc@) =~= seq![Map::empty(), params_scope(pv)]);
    }
    check_block_x(items, cfg, eff, &mut sc, &b.body, errs);
}

pub(crate) fn pins_of_variants(p: &Pano) -> (pins: Vec<Option<i64>>)
    ensures
        pins@ == p@.variants.map_values(|v: VariantV| v.pin),
        pins@.len() == p.variants@.len(),
{
    let mut pins: Vec<Option<i64>> = Vec::new();
    let mut i: usize = 0;
    while i < p.variants.len()
        invariant
            i <= p.variants@.len(),
            pins@.len() == i,
            forall|j: int| 0 <= j < i ==> #[trigger] pins@[j] == p.variants@[j].pin,
        decreases p.variants.len() - i,
    {
        pins.push(p.variants[i].pin);
        i += 1;
    }
    proof {
        assert(pins@ =~= p@.variants.map_values(|v: VariantV| v.pin));
    }
    pins
}

pub(crate) fn pins_of_fields(p: &Perso) -> (pins: Vec<Option<i64>>)
    ensures
        pins@ == p@.fields.map_values(|f: FieldV| f.pin),
        pins@.len() == p.fields@.len(),
{
    let mut pins: Vec<Option<i64>> = Vec::new();
    let mut i: usize = 0;
    while i < p.fields.len()
        invariant
            i <= p.fields@.len(),
            pins@.len() == i,
            forall|j: int| 0 <= j < i ==> #[trigger] pins@[j] == p.fields@[j].pin,
        decreases p.fields.len() - i,
    {
        pins.push(p.fields[i].pin);
        i += 1;
    }
    proof {
        assert(pins@ =~= p@.fields.map_values(|f: FieldV| f.pin));
    }
    pins
}

/// Full analysis of a program: every diagnostic, in order (none means a valid program).
#[verifier::spinoff_prover]
#[verifier::rlimit(40)]
pub fn check(program: &Program) -> (errs: Vec<SemaError>)
    ensures
        errs_v(errs@) == check_errors(program@),
{
    let cfg = pragma_config_x(&program.pragmas);
    let eff = effective_costs(program, &cfg);
    let items = &program.items;
    let ghost iv = program@.items;
    proof {
        assert(iv == items_v(items@));
        assert(program@.pragmas == program.pragmas@.map_values(|p: Pragma| p@));
    }
    let mut errs: Vec<SemaError> = Vec::new();
    let mut i: usize = 0;
    proof {
        assert(errs_v(errs@) =~= pin_errs(iv.take(0)));
    }
    while i < items.len()
        invariant
            iv == items_v(items@),
            i <= items@.len(),
            errs_v(errs@) == pin_errs(iv.take(i as int)),
        decreases items.len() - i,
    {
        proof {
            assert(iv.take(i + 1).drop_last() =~= iv.take(i as int));
            assert(iv.take(i + 1).last() == items@[i as int]@);
        }
        let ghost before = errs_v(errs@);
        match &items[i] {
            Item::Pano(p) => {
                let pins = pins_of_variants(p);
                match crate::patch::pin_conflict(pins.as_slice()) {
                    Some(e) => {
                        let mut m = owned("pano ");
                        push_quoted(&mut m, p.name.as_str());
                        push_text(&mut m, " : ");
                        push_text(&mut m, e.as_str());
                        add_diag(&mut errs, m, p.line, p.col);
                    },
                    None => {},
                }
            },
            Item::Perso(p) => {
                let pins = pins_of_fields(p);
                match crate::patch::pin_conflict(pins.as_slice()) {
                    Some(e) => {
                        let mut m = owned("perso ");
                        push_quoted(&mut m, p.name.as_str());
                        push_text(&mut m, " : ");
                        push_text(&mut m, e.as_str());
                        add_diag(&mut errs, m, p.line, p.col);
                    },
                    None => {},
                }
            },
            _ => {},
        }
        proof {
            assert(errs_v(errs@) =~= pin_errs(iv.take(i + 1)));
        }
        i += 1;
    }
    proof {
        assert(iv.take(i as int) =~= iv);
    }
    let ghost mid = errs_v(errs@);
    let mut sc: Vec<Vec<(String, VarInfo)>> = Vec::new();
    sc.push(Vec::new());
    proof {
        assert(scopes_v(sc@) =~= seq![Map::<Seq<char>, VarInfo>::empty()]);
    }
    let mut has_connexion_x = false;
    let mut i: usize = 0;
    proof {
        assert(mid =~= mid + item_errs(iv, cfg, iv.take(0)));
    }
    while i < items.len()
        invariant
            iv == items_v(items@),
            eff@ == cost_map(iv, cfg),
            i <= items@.len(),
            scopes_v(sc@) == seq![Map::<Seq<char>, VarInfo>::empty()],
            errs_v(errs@) == mid + item_errs(iv, cfg, iv.take(i as int)),
            has_connexion_x == has_connexion(iv.take(i as int)),
        decreases items.len() - i,
    {
        proof {
            assert(iv.take(i + 1).drop_last() =~= iv.take(i as int));
            assert(iv.take(i + 1).last() == items@[i as int]@);
        }
        let ghost before = errs_v(errs@);
        match &items[i] {
            Item::Bot(b) => check_bot_x(items, &cfg, &eff, b, &mut errs),
            Item::Connexion(blk) => {
                has_connexion_x = true;
                check_block_x(items, &cfg, &eff, &mut sc, blk, &mut errs);
            },
            _ => {},
        }
        proof {
            assert(mid + item_errs(iv, cfg, iv.take(i + 1)) =~= before + match iv.take(i + 1).last() {
                ItemV::Bot(b) => check_bot(iv, cfg, b),
                ItemV::Connexion(blk) => check_block(iv, cfg, seq![Map::empty()], blk),
                _ => seq![],
            });
            if has_connexion(iv.take(i + 1)) && !(iv.take(i + 1).last() is Connexion) {
                let k = choose|k: int| 0 <= k < iv.take(i + 1).len() && #[trigger] iv.take(i + 1)[k] is Connexion;
                assert(iv.take(i as int)[k] is Connexion);
            }
            if has_connexion(iv.take(i as int)) {
                let k = choose|k: int| 0 <= k < iv.take(i as int).len() && #[trigger] iv.take(i as int)[k] is Connexion;
                assert(iv.take(i + 1)[k] is Connexion);
            }
            if iv.take(i + 1).last() is Connexion {
                assert(iv.take(i + 1)[i as int] is Connexion);
            }
        }
        i += 1;
    }
    proof {
        assert(iv.take(i as int) =~= iv);
    }
    if !has_connexion_x {
        add_diag(&mut errs, owned("aucune connexion (point d'entrée)"), 1, 1);
    }
    proof {
        assert(errs_v(errs@) =~= check_errors(program@));
    }
    errs
}

// ------------------------------------------------------------------ costs are never negative

/// Every declared cost of the program is non-negative.
pub open spec fn declared_costs_nonneg(items: Seq<ItemV>) -> bool {
    forall|i: int| 0 <= i < items.len() ==> match #[trigger] items[i] {
        ItemV::Bot(b) => match b.cost_pa {
            Some(c) => c >= 0,
            None => true,
        },
        _ => true,
    }
}

pub(crate) proof fn lemma_find_bot_member(items: Seq<ItemV>, name: Seq<char>)
    requires
        find_bot(items, name) is Some,
    ensures
        exists|i: int| 0 <= i < items.len() && #[trigger] items[i] == ItemV::Bot(find_bot(items, name)->0),
    decreases items.len(),
{
    if items.last() is Bot && items.last()->Bot_0.name == name {
        assert(items[items.len() - 1] == ItemV::Bot(find_bot(items, name)->0));
    } else {
        lemma_find_bot_member(items.drop_last(), name);
        let i = choose|i: int| 0 <= i < items.drop_last().len() && #[trigger] items.drop_last()[i] == ItemV::Bot(find_bot(items.drop_last(), name)->0);
        assert(items[i] == items.drop_last()[i]);
    }
}

/// The names of the program's `bot` items.
pub open spec fn bot_names(items: Seq<ItemV>) -> Set<Seq<char>> {
    Set::new(|n: Seq<char>| exists|i: int| 0 <= i < items.len() && #[trigger] items[i] is Bot && items[i]->Bot_0.name == n)
}

/// Some bot of the program has the name `name` exactly when `find_bot` finds one.
proof fn lemma_find_bot_named(items: Seq<ItemV>, name: Seq<char>)
    ensures
        find_bot(items, name) is Some <==> bot_names(items).contains(name),
    decreases items.len(),
{
    if items.len() > 0 {
        let t = items.drop_last();
        lemma_find_bot_named(t, name);
        if bot_names(t).contains(name) {
            let i = choose|i: int| 0 <= i < t.len() && #[trigger] t[i] is Bot && t[i]->Bot_0.name == name;
            assert(items[i] == t[i]);
        }
        if bot_names(items).contains(name) {
            let i = choose|i: int| 0 <= i < items.len() && #[trigger] items[i] is Bot && items[i]->Bot_0.name == name;
            if i < items.len() - 1 {
                assert(items[i] == t[i]);
            }
        }
    }
}

/// `effective_costs` gives one cost for each bot name of the program and no other, and a
/// bot whose cost is declared costs what it declares (the last definition of a name is
/// the one in force). The table is a function of the program and the configuration, so
/// two computations agree.
pub proof fn lemma_effective_costs_keys(items: Seq<ItemV>, cfg: Config)
    ensures
        cost_map(items, cfg).dom() == bot_names(items),
        forall|n: Seq<char>| #[trigger] cost_map(items, cfg).contains_key(n) && find_bot(items, n)->0.cost_pa is Some
            ==> cost_map(items, cfg)[n] == find_bot(items, n)->0.cost_pa->0,
{
    assert forall|n: Seq<char>| #[trigger] cost_map(items, cfg).dom().contains(n) == bot_names(items).contains(n) by {
        lemma_find_bot_named(items, n);
    }
    assert(cost_map(items, cfg).dom() =~= bot_names(items));
}

/// With non-negative prices, a bot never costs less than nothing.
pub proof fn lemma_bot_cost_nonneg(items: Seq<ItemV>, cfg: Config, vis: Seq<Seq<char>>, name: Seq<char>)
    requires
        declared_costs_nonneg(items),
        cfg.assign_pa >= 0,
        cfg.up_pa >= 0,
    ensures
        bot_cost_in(items, cfg, vis, name) >= 0,
    decreases bot_count(items) - vis.len(), 0int,
{
    match find_bot(items, name) {
        None => {},
        Some(b) => match b.cost_pa {
            Some(c) => {
                lemma_find_bot_member(items, name);
                let i = choose|i: int| 0 <= i < items.len() && #[trigger] items[i] == ItemV::Bot(find_bot(items, name)->0);
                assert(items[i] is Bot);
            },
            None => {
                if !(vis.contains(name) || vis.len() >= bot_count(items)) {
                    lemma_stmts_cost_nonneg(items, cfg, vis.push(name), b.body.stmts);
                }
            },
        },
    }
}

proof fn lemma_stmts_cost_nonneg(items: Seq<ItemV>, cfg: Config, vis: Seq<Seq<char>>, s: Seq<StmtV>)
    requires
        declared_costs_nonneg(items),
        cfg.assign_pa >= 0,
        cfg.up_pa >= 0,
    ensures
        stmts_cost(items, cfg, vis, s) >= 0,
    decreases bot_count(items) - vis.len(), stmts_size(s),
{
    if s.len() > 0 {
        lemma_stmts_cost_nonneg(items, cfg, vis, s.drop_last());
        lemma_stmt_cost_nonneg(items, cfg, vis, s.last());
    }
}

proof fn lemma_stmt_cost_nonneg(items: Seq<ItemV>, cfg: Config, vis: Seq<Seq<char>>, s: StmtV)
    requires
        declared_costs_nonneg(items),
        cfg.assign_pa >= 0,
        cfg.up_pa >= 0,
    ensures
        stmt_cost(items, cfg, vis, s) >= 0,
    decreases bot_count(items) - vis.len(), stmt_size(s),
{
    match s {
        StmtV::Loot { value, .. } => lemma_expr_cost_nonneg(items, cfg, vis, value),
        StmtV::Ban { value, .. } => lemma_expr_cost_nonneg(items, cfg, vis, value),
        StmtV::Assign { value, .. } => lemma_expr_cost_nonneg(items, cfg, vis, value),
        StmtV::Up(e) => lemma_expr_cost_nonneg(items, cfg, vis, e),
        StmtV::Afk(e) => lemma_expr_cost_nonneg(items, cfg, vis, e),
        StmtV::Expr(e) => lemma_expr_cost_nonneg(items, cfg, vis, e),
        StmtV::Gg(Some(e)) => lemma_expr_cost_nonneg(items, cfg, vis, e),
        StmtV::Gg(None) => {},
        StmtV::Passer => {},
        StmtV::Tour(b) => lemma_stmts_cost_nonneg(items, cfg, vis, b.stmts),
        StmtV::Farm { body, .. } => lemma_stmts_cost_nonneg(items, cfg, vis, body.stmts),
        StmtV::Grind { body, .. } => lemma_stmts_cost_nonneg(items, cfg, vis, body.stmts),
        StmtV::Detect { cond, then_branch, else_branch } => {
            lemma_expr_cost_nonneg(items, cfg, vis, cond);
            lemma_stmts_cost_nonneg(items, cfg, vis, then_branch.stmts);
            match else_branch {
                Some(b) => lemma_stmts_cost_nonneg(items, cfg, vis, b.stmts),
                None => {},
            }
        },
    }
}

proof fn lemma_expr_cost_nonneg(items: Seq<ItemV>, cfg: Config, vis: Seq<Seq<char>>, e: ExprV)
    requires
        declared_costs_nonneg(items),
        cfg.assign_pa >= 0,
        cfg.up_pa >= 0,
    ensures
        expr_cost(items, cfg, vis, e) >= 0,
    decreases bot_count(items) - vis.len(), expr_size(e),
{
    match e.kind {
        ExprKindV::Unary(_, x) => lemma_expr_cost_nonneg(items, cfg, vis, *x),
        ExprKindV::Binary(_, l, r) => {
            lemma_expr_cost_nonneg(items, cfg, vis, *l);
            lemma_expr_cost_nonneg(items, cfg, vis, *r);
        },
        ExprKindV::Call(name, args) => {
            if !is_builtin(name) {
                lemma_bot_cost_nonneg(items, cfg, vis, name);
            }
            lemma_exprs_cost_nonneg(items, cfg, vis, args);
        },
        ExprKindV::Struct(_, fields) => lemma_fields_cost_nonneg(items, cfg, vis, fields),
        _ => {},
    }
}

proof fn lemma_exprs_cost_nonneg(items: Seq<ItemV>, cfg: Config, vis: Seq<Seq<char>>, s: Seq<ExprV>)
    requires
        declared_costs_nonneg(items),
        cfg.assign_pa >= 0,
        cfg.up_pa >= 0,
    ensures
        exprs_cost(items, cfg, vis, s) >= 0,
    decreases bot_count(items) - vis.len(), exprs_size(s),
{
    if s.len() > 0 {
        lemma_exprs_cost_nonneg(items, cfg, vis, s.drop_last());
        lemma_expr_cost_nonneg(items, cfg, vis, s.last());
    }
}

proof fn lemma_fields_cost_nonneg(items: Seq<ItemV>, cfg: Config, vis: Seq<Seq<char>>, s: Seq<(Seq<char>, ExprV)>)
    requires
        declared_costs_nonneg(items),
        cfg.assign_pa >= 0,
        cfg.up_pa >= 0,
    ensures
        fields_cost(items, cfg, vis, s) >= 0,
    decreases bot_count(items) - vis.len(), fields_size(s),
{
    if s.len() > 0 {
        lemma_fields_cost_nonneg(items, cfg, vis, s.drop_last());
        lemma_expr_cost_nonneg(items, cfg, vis, s.last().1);
    }
}

/// The pragmas never change the price of an assignment or of an `up`: both stay 1.
pub proof fn lemma_pragma_prices(pragmas: Seq<PragmaV>)
    ensures
        pragma_config(pragmas).assign_pa == 1,
        pragma_config(pragmas).up_pa == 1,
    decreases pragmas.len(),
{
    if pragmas.len() > 0 {
        lemma_pragma_prices(pragmas.drop_last());
    }
}

/// Rendering of a semantic diagnostic, e.g. `error[E-PA]: … (ligne 3, colonne 5)`.
pub open spec fn sema_error_text(e: SemaErrorV) -> Seq<char> {
    (match e.code {
        Some(c) => "error["@ + c + "]: "@,
        None => "error: "@,
    }) + e.msg + " (ligne "@ + decimal(e.line as int) + ", colonne "@ + decimal(e.col as int) + ")"@
}

impl SemaError {
    /// Renders the diagnostic.
    pub fn message(&self) -> (s: String)
        ensures
            s@ == sema_error_text(self@),
    {
        let mut s = match self.code {
            Some(c) => {
                let mut h = owned("error[");
                push_text(&mut h, c);
                push_text(&mut h, "]: ");
                h
            },
            None => owned("error: "),
        };
        push_text(&mut s, self.msg.as_str());
        push_text(&mut s, " (ligne ");
        let l = int_text(self.line as i64);
        push_text(&mut s, l.as_str());
        push_text(&mut s, ", colonne ");
        let c = int_text(self.col as i64);
        push_text(&mut s, c.as_str());
        push_text(&mut s, ")");
        s
    }
}

} // verus!
