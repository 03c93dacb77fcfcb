//! Analysis behind the language server, independent of the protocol: diagnostics of a source,
//! its symbols (definitions and costs), completion labels, and what hovering a word shows.

use vstd::prelude::*;
use crate::ast::{Item, ItemV, ProgramV};
use crate::lexer::{first_line, strip_cr, verify_header, HEADER};
use crate::parser::{parse, parse_spec};
use crate::sema::{
    bot_cost, check, check_errors, effective_costs, lemma_name_le_total, name_le, name_le_x, pragma_config, pragma_config_x, report,
    report_of, SemaErrorV, TourCost,
};
use crate::text::{chars_of, int_text, owned, push_text, string_eq, string_of};

verus! {

/// Positioned diagnostic (1-based line and column).
#[derive(Debug, Clone, PartialEq, Eq)]
pub struct Diag {
    pub line: u32,
    pub col: u32,
    pub msg: String,
    pub code: Option<String>,
}

pub struct DiagV {
    pub line: u32,
    pub col: u32,
    pub msg: Seq<char>,
    pub code: Option<Seq<char>>,
}

impl View for Diag {
    type V = DiagV;

    open spec fn view(&self) -> DiagV {
        DiagV {
            line: self.line,
            col: self.col,
            msg: self.msg@,
            code: match self.code {
                Some(c) => Some(c@),
                None => None,
            },
        }
    }
}

/// Analysis of a document: its diagnostics.
pub struct Analysis {
    pub diags: Vec<Diag>,
}

pub open spec fn sema_diag(d: SemaErrorV) -> DiagV {
    DiagV { line: d.line, col: d.col, msg: d.msg, code: d.code }
}

/// Diagnostics of a source: a missing header, else a syntax error, else the semantic ones.
pub open spec fn analysis_of(src: Seq<char>) -> Seq<DiagV> {
    if strip_cr(first_line(src)) != HEADER@ {
        seq![DiagV { line: 1, col: 1, msg: "candidature contributeur refusée"@, code: None }]
    } else {
        match parse_spec(src) {
            Err(e) => seq![DiagV { line: e.line, col: e.col, msg: e.msg, code: None }],
            Ok(p) => check_errors(p).map_values(|d: SemaErrorV| sema_diag(d)),
        }
    }
}

/// Analyses a source: header, then parse, then semantic checks.
pub fn analyze(src: &str) -> (a: Analysis)
    requires
        src@.len() < u32::MAX,
    ensures
        a.diags@.map_values(|d: Diag| d@) == analysis_of(src@),
{
    if verify_header(src).is_err() {
        let mut diags = Vec::new();
        diags.push(Diag { line: 1, col: 1, msg: owned("candidature contributeur refusée"), code: None });
        proof {
            assert(diags@.map_values(|d: Diag| d@) =~= analysis_of(src@));
        }
        return Analysis { diags };
    }
    match parse(src) {
        Err(e) => {
            let mut diags = Vec::new();
            diags.push(Diag { line: e.line, col: e.col, msg: e.msg, code: None });
            proof {
                assert(diags@.map_values(|d: Diag| d@) =~= analysis_of(src@));
            }
            Analysis { diags }
        },
        Ok(prog) => {
            let errs = check(&prog);
            let mut diags: Vec<Diag> = Vec::new();
            let mut i: usize = 0;
            let ghost ev = crate::sema::errs_v(errs@);
            while i < errs.len()
                invariant
                    ev == crate::sema::errs_v(errs@),
                    i <= errs@.len(),
                    diags@.len() == i,
                    forall|j: int| 0 <= j < i ==> (#[trigger] diags@[j])@ == sema_diag(ev[j]),
                decreases errs.len() - i,
            {
                let code = match errs[i].code {
                    Some(c) => Some(owned(c)),
                    None => None,
                };
                diags.push(Diag { line: errs[i].line, col: errs[i].col, msg: errs[i].msg.clone(), code });
                i += 1;
            }
            proof {
                assert(diags@.map_values(|d: Diag| d@) =~= analysis_of(src@));
            }
            Analysis { diags }
        },
    }
}

// ------------------------------------------------------------------ symbols

/// Definitions of bots: name, line, column and effective AP cost.
pub struct BotSymbols {
    entries: Vec<(String, u32, u32, i64)>,
}

/// Definitions of `pano`/`perso` types: name, line, column.
pub struct TypeSymbols {
    entries: Vec<(String, u32, u32)>,
}

pub open spec fn bot_sym_lookup(s: Seq<(String, u32, u32, i64)>, n: Seq<char>) -> Option<(u32, u32, i64)>
    decreases s.len(),
{
    if s.len() == 0 {
        None
    } else if s.last().0@ == n {
        Some((s.last().1, s.last().2, s.last().3))
    } else {
        bot_sym_lookup(s.drop_last(), n)
    }
}

pub open spec fn type_sym_lookup(s: Seq<(String, u32, u32)>, n: Seq<char>) -> Option<(u32, u32)>
    decreases s.len(),
{
    if s.len() == 0 {
        None
    } else if s.last().0@ == n {
        Some((s.last().1, s.last().2))
    } else {
        type_sym_lookup(s.drop_last(), n)
    }
}

impl BotSymbols {
    pub closed spec fn lookup(&self, n: Seq<char>) -> Option<(u32, u32, i64)> {
        bot_sym_lookup(self.entries@, n)
    }

    /// Where the bot `name` is defined, and its effective cost.
    pub fn get(&self, name: &str) -> (r: Option<(u32, u32, i64)>)
        ensures
            r == self.lookup(name@),
    {
        let mut i = self.entries.len();
        proof {
            assert(self.entries@.take(i as int) =~= self.entries@);
        }
        while i > 0
            invariant
                i <= self.entries@.len(),
                bot_sym_lookup(self.entries@, name@) == bot_sym_lookup(self.entries@.take(i as int), name@),
            decreases i,
        {
            proof {
                assert(self.entries@.take(i as int).drop_last() =~= self.entries@.take(i - 1));
            }
            if crate::text::str_is(self.entries[i - 1].0.as_str(), name) {
                return Some((self.entries[i - 1].1, self.entries[i - 1].2, self.entries[i - 1].3));
            }
            i -= 1;
        }
        None
    }
}

impl TypeSymbols {
    pub closed spec fn lookup(&self, n: Seq<char>) -> Option<(u32, u32)> {
        type_sym_lookup(self.entries@, n)
    }

    /// Where the `pano`/`perso` named `name` is defined.
    pub fn get(&self, name: &str) -> (r: Option<(u32, u32)>)
        ensures
            r == self.lookup(name@),
    {
        let mut i = self.entries.len();
        proof {
            assert(self.entries@.take(i as int) =~= self.entries@);
        }
        while i > 0
            invariant
                i <= self.entries@.len(),
                type_sym_lookup(self.entries@, name@) == type_sym_lookup(self.entries@.take(i as int), name@),
            decreases i,
        {
            proof {
                assert(self.entries@.take(i as int).drop_last() =~= self.entries@.take(i - 1));
            }
            if crate::text::str_is(self.entries[i - 1].0.as_str(), name) {
                return Some((self.entries[i - 1].1, self.entries[i - 1].2));
            }
            i -= 1;
        }
        None
    }
}

/// Symbols of a program: definitions and costs, for hover and go-to-definition.
pub struct Symbols {
    /// Bot name → (line, column of the definition, effective AP cost).
    pub bots: BotSymbols,
    /// `pano`/`perso` name → (line, column of the definition).
    pub types: TypeSymbols,
    /// Budget use of each `tour`.
    pub tours: Vec<TourCost>,
    pub max_pa: i64,
    pub max_pm: i64,
}

/// Where each bot of `items` is defined (the last definition of a name wins) and what it
/// costs in the program `all`.
pub open spec fn bot_defs(all: Seq<ItemV>, cfg: crate::config::Config, items: Seq<ItemV>, n: Seq<char>) -> Option<(u32, u32, i64)>
    decreases items.len(),
{
    if items.len() == 0 {
        None
    } else {
        match items.last() {
            ItemV::Bot(b) => if b.name == n { Some((b.line, b.col, bot_cost(all, cfg, n))) } else { bot_defs(all, cfg, items.drop_last(), n) },
            _ => bot_defs(all, cfg, items.drop_last(), n),
        }
    }
}

/// Where each `pano`/`perso` is defined (the last definition of a name wins).
pub open spec fn type_defs(items: Seq<ItemV>, n: Seq<char>) -> Option<(u32, u32)>
    decreases items.len(),
{
    if items.len() == 0 {
        None
    } else {
        match items.last() {
            ItemV::Pano(p) => if p.name == n { Some((p.line, p.col)) } else { type_defs(items.drop_last(), n) },
            ItemV::Perso(p) => if p.name == n { Some((p.line, p.col)) } else { type_defs(items.drop_last(), n) },
            _ => type_defs(items.drop_last(), n),
        }
    }
}

/// What `symbols` extracts of a parsed program.
pub open spec fn symbols_match(sy: Symbols, p: ProgramV) -> bool {
    let cfg = pragma_config(p.pragmas);
    let r = report_of(p.items, cfg);
    &&& forall|n: Seq<char>| #[trigger] sy.bots.lookup(n) == bot_defs(p.items, cfg, p.items, n)
    &&& forall|n: Seq<char>| #[trigger] sy.types.lookup(n) == type_defs(p.items, n)
    &&& sy.tours@ == r.tours
    &&& sy.max_pa == r.max_pa
    &&& sy.max_pm == r.max_pm
}

/// Symbols (definitions and costs) of a valid source; empty when it does not parse.
pub fn symbols(src: &str) -> (sy: Symbols)
    requires
        src@.len() < u32::MAX,
    ensures
        match parse_spec(src@) {
            Ok(p) => symbols_match(sy, p),
            Err(_) => {
                &&& forall|n: Seq<char>| #[trigger] sy.bots.lookup(n) is None
                &&& forall|n: Seq<char>| #[trigger] sy.types.lookup(n) is None
                &&& sy.tours@.len() == 0
                &&& sy.max_pa == 0
                &&& sy.max_pm == 0
            },
        },
{
    let prog = match parse(src) {
        Ok(p) => p,
        Err(_) => {
            let sy = Symbols {
                bots: BotSymbols { entries: Vec::new() },
                types: TypeSymbols { entries: Vec::new() },
                tours: Vec::new(),
                max_pa: 0,
                max_pm: 0,
            };
            return sy;
        },
    };
    let rep = report(&prog);
    let cfg = pragma_config_x(&prog.pragmas);
    let costs = effective_costs(&prog, &cfg);
    let items = &prog.items;
    let ghost iv = prog@.items;
    proof {
        assert(iv == crate::sema::items_v(items@));
        assert(prog@.pragmas == prog.pragmas@.map_values(|p: crate::ast::Pragma| p@));
    }
    let mut bots: Vec<(String, u32, u32, i64)> = Vec::new();
    let mut types: Vec<(String, u32, u32)> = Vec::new();
    let mut i: usize = 0;
    while i < items.len()
        invariant
            iv == crate::sema::items_v(items@),
            costs@ == crate::sema::cost_map(iv, cfg),
            i <= items@.len(),
            forall|n: Seq<char>| #[trigger] bot_sym_lookup(bots@, n) == bot_defs(iv, cfg, iv.take(i as int), n),
            forall|n: Seq<char>| #[trigger] type_sym_lookup(types@, n) == type_defs(iv.take(i as int), n),
        decreases items.len() - i,
    {
        proof {
            assert(iv.take(i + 1).drop_last() =~= iv.take(i as int));
            assert(iv.take(i + 1).last() == items@[i as int]@);
        }
        let ghost b0 = bots@;
        let ghost t0 = types@;
        match &items[i] {
            Item::Bot(b) => {
                let c = costs.cost_or_zero(&b.name);
                proof {
                    crate::sema::lemma_find_bot_some(iv, i as int);
                    assert(iv[i as int] == ItemV::Bot(b@));
                }
                bots.push((b.name.clone(), b.line, b.col, c));
                proof {
                    assert(bots@.drop_last() =~= b0);
                    assert forall|n: Seq<char>| #[trigger] bot_sym_lookup(bots@, n) == bot_defs(iv, cfg, iv.take(i + 1), n) by {
                        assert(bot_sym_lookup(b0, n) == bot_defs(iv, cfg, iv.take(i as int), n));
                    }
                    assert forall|n: Seq<char>| #[trigger] type_sym_lookup(types@, n) == type_defs(iv.take(i + 1), n) by {
                        assert(type_sym_lookup(t0, n) == type_defs(iv.take(i as int), n));
                    }
                }
            },
            Item::Pano(p) => {
                types.push((p.name.clone(), p.line, p.col));
                proof {
                    assert(types@.drop_last() =~= t0);
                    assert forall|n: Seq<char>| #[trigger] bot_sym_lookup(bots@, n) == bot_defs(iv, cfg, iv.take(i + 1), n) by {
                        assert(bot_sym_lookup(b0, n) == bot_defs(iv, cfg, iv.take(i as int), n));
                    }
                    assert forall|n: Seq<char>| #[trigger] type_sym_lookup(types@, n) == type_defs(iv.take(i + 1), n) by {
                        assert(type_sym_lookup(t0, n) == type_defs(iv.take(i as int), n));
                    }
                }
            },
            Item::Perso(p) => {
                types.push((p.name.clone(), p.line, p.col));
                proof {
                    assert(types@.drop_last() =~= t0);
                    assert forall|n: Seq<char>| #[trigger] bot_sym_lookup(bots@, n) == bot_defs(iv, cfg, iv.take(i + 1), n) by {
                        assert(bot_sym_lookup(b0, n) == bot_defs(iv, cfg, iv.take(i as int), n));
                    }
                    assert forall|n: Seq<char>| #[trigger] type_sym_lookup(types@, n) == type_defs(iv.take(i + 1), n) by {
                        assert(type_sym_lookup(t0, n) == type_defs(iv.take(i as int), n));
                    }
                }
            },
            _ => {
                proof {
                    assert forall|n: Seq<char>| #[trigger] bot_sym_lookup(bots@, n) == bot_defs(iv, cfg, iv.take(i + 1), n) by {
                        assert(bot_sym_lookup(b0, n) == bot_defs(iv, cfg, iv.take(i as int), n));
                    }
                    assert forall|n: Seq<char>| #[trigger] type_sym_lookup(types@, n) == type_defs(iv.take(i + 1), n) by {
                        assert(type_sym_lookup(t0, n) == type_defs(iv.take(i as int), n));
                    }
                }
            },
        }
        i += 1;
    }
    proof {
        assert(iv.take(i as int) =~= iv);
    }
    Symbols {
        bots: BotSymbols { entries: bots },
        types: TypeSymbols { entries: types },
        tours: rep.tours,
        max_pa: rep.max_pa,
        max_pm: rep.max_pm,
    }
}

// ------------------------------------------------------------------ completion

/// The keywords of the language.
pub open spec fn keywords() -> Seq<Seq<char>> {
    seq![
        "bot"@, "coute"@, "cd"@, "connexion"@, "serveur"@, "tour"@, "passer"@, "farm"@, "grind"@, "loot"@,
        "ban"@, "gg"@, "detect"@, "sinon"@, "et"@, "ou"@, "pas"@, "up"@, "afk"@, "pa"@, "pm"@, "suspicion"@,
        "legit"@, "cheat"@, "pano"@, "perso"@, "kamas"@, "flag"@, "txt"@,
    ]
}

/// The builtin functions.
pub open spec fn builtins() -> Seq<Seq<char>> {
    seq!["rand"@, "butin"@, "cd_pret"@]
}

/// Names a program declares: bots, and each `pano`/`perso` with its members.
pub open spec fn declared_names(items: Seq<ItemV>) -> Seq<Seq<char>>
    decreases items.len(),
{
    if items.len() == 0 {
        Seq::empty()
    } else {
        declared_names(items.drop_last()) + match items.last() {
            ItemV::Bot(b) => seq![b.name],
            ItemV::Pano(p) => seq![p.name] + p.variants.map_values(|v: crate::ast::VariantV| v.name),
            ItemV::Perso(p) => seq![p.name] + p.fields.map_values(|f: crate::ast::FieldV| f.name),
            _ => Seq::empty(),
        }
    }
}

/// The labels offered for a source, before sorting.
pub open spec fn labels_of(src: Seq<char>) -> Seq<Seq<char>> {
    keywords() + builtins() + match parse_spec(src) {
        Ok(p) => declared_names(p.items),
        Err(_) => Seq::empty(),
    }
}

/// `a` sorts strictly before `b`.
pub open spec fn name_lt(a: Seq<char>, b: Seq<char>) -> bool {
    name_le(a, b) && a != b
}

proof fn lemma_name_le_antisym(a: Seq<char>, b: Seq<char>)
    requires
        name_le(a, b),
        name_le(b, a),
    ensures
        a == b,
    decreases a.len(),
{
    if a.len() == 0 {
        assert(b.len() == 0);
        assert(a =~= b);
    } else {
        assert(b.len() > 0);
        assert(a[0] == b[0]);
        lemma_name_le_antisym(a.drop_first(), b.drop_first());
        assert(a =~= seq![a[0]] + a.drop_first());
        assert(b =~= seq![b[0]] + b.drop_first());
    }
}

proof fn lemma_name_le_trans(a: Seq<char>, b: Seq<char>, c: Seq<char>)
    requires
        name_le(a, b),
        name_le(b, c),
    ensures
        name_le(a, c),
    decreases a.len(),
{
    if a.len() > 0 && b.len() > 0 && c.len() > 0 && a[0] == b[0] && b[0] == c[0] {
        lemma_name_le_trans(a.drop_first(), b.drop_first(), c.drop_first());
    }
}

/// Inserts `x` into a strictly sorted list of labels, unless it is there.
fn insert_label(out: &mut Vec<String>, x: String)
    requires
        forall|i: int, j: int| 0 <= i < j < old(out)@.len() ==> name_lt((#[trigger] old(out)@[i])@, (#[trigger] old(out)@[j])@),
    ensures
        forall|i: int, j: int| 0 <= i < j < final(out)@.len() ==> name_lt((#[trigger] final(out)@[i])@, (#[trigger] final(out)@[j])@),
        final(out)@.map_values(|s: String| s@).to_set() == old(out)@.map_values(|s: String| s@).to_set().insert(x@),
{
    let ghost s0 = out@;
    let mut k: usize = 0;
    while k < out.len()
        invariant_except_break
            out@ == s0,
            k <= s0.len(),
            forall|j: int| 0 <= j < k ==> name_lt((#[trigger] s0[j])@, x@),
        ensures
            out@ == s0,
            k <= s0.len(),
            forall|j: int| 0 <= j < k ==> name_lt((#[trigger] s0[j])@, x@),
            k < s0.len() ==> !name_lt(s0[k as int]@, x@),
        decreases out.len() - k,
    {
        if !(name_le_x(&out[k], &x) && !string_eq(&out[k], &x)) {
            break;
        }
        k += 1;
    }
    let ghost v0 = s0.map_values(|s: String| s@);
    if k < out.len() && string_eq(&out[k], &x) {
        proof {
            assert(v0[k as int] == x@);
            assert(v0.to_set() =~= v0.to_set().insert(x@));
        }
        return;
    }
    let ghost xv = x@;
    out.insert(k, x);
    proof {
        if k < s0.len() {
            lemma_name_le_total(s0[k as int]@, xv);
        }
        assert forall|i: int, j: int| 0 <= i < j < out@.len() implies name_lt((#[trigger] out@[i])@, (#[trigger] out@[j])@) by {
            if j < k {
            } else if j == k {
                assert(out@[i] == s0[i]);
            } else if i == k {
                assert(out@[j] == s0[j - 1]);
                assert(name_lt(xv, s0[k as int]@));
                if j - 1 > k {
                    assert(name_lt(s0[k as int]@, s0[j - 1]@));
                    lemma_name_le_trans(xv, s0[k as int]@, s0[j - 1]@);
                    if xv == s0[j - 1]@ {
                        lemma_name_le_antisym(xv, s0[k as int]@);
                    }
                }
            } else if i > k {
                assert(out@[i] == s0[i - 1]);
                assert(out@[j] == s0[j - 1]);
            } else {
                assert(out@[i] == s0[i]);
                assert(out@[j] == s0[j - 1]);
                assert(name_lt(s0[i]@, xv));
                assert(name_lt(xv, s0[k as int]@));
                if j - 1 > k {
                    lemma_name_le_trans(xv, s0[k as int]@, s0[j - 1]@);
                    if xv == s0[j - 1]@ {
                        lemma_name_le_antisym(xv, s0[k as int]@);
                    }
                }
                lemma_name_le_trans(s0[i]@, xv, s0[j - 1]@);
                if s0[i]@ == s0[j - 1]@ {
                    lemma_name_le_antisym(s0[i]@, xv);
                }
            }
        }
        assert(out@.map_values(|s: String| s@) =~= v0.insert(k as int, xv));
        assert(v0.insert(k as int, xv).to_set() =~= v0.to_set().insert(xv)) by {
            assert forall|y: Seq<char>| v0.insert(k as int, xv).to_set().contains(y) implies v0.to_set().insert(xv).contains(y) by {
                let q = choose|q: int| 0 <= q < v0.insert(k as int, xv).len() && v0.insert(k as int, xv)[q] == y;
                if q < k {
                    assert(v0[q] == y);
                } else if q > k {
                    assert(v0[q - 1] == y);
                }
            }
            assert forall|y: Seq<char>| v0.to_set().insert(xv).contains(y) implies v0.insert(k as int, xv).to_set().contains(y) by {
                if y == xv {
                    assert(v0.insert(k as int, xv)[k as int] == y);
                } else {
                    let q = choose|q: int| 0 <= q < v0.len() && v0[q] == y;
                    if q < k {
                        assert(v0.insert(k as int, xv)[q] == y);
                    } else {
                        assert(v0.insert(k as int, xv)[q + 1] == y);
                    }
                }
            }
        }
    }
}

/// Completion labels: keywords, builtins and declared names (bots, `pano`/`perso` and their
/// members), sorted, each once.
#[verifier::spinoff_prover]
#[verifier::rlimit(80)]
fn collect_labels(src: &str) -> (labels: Vec<String>)
    requires
        src@.len() < u32::MAX,
    ensures
        labels@.map_values(|s: String| s@) == labels_of(src@),
{
    let mut labels: Vec<String> = Vec::new();
    labels.push(owned("bot"));
    labels.push(owned("coute"));
    labels.push(owned("cd"));
    labels.push(owned("connexion"));
    labels.push(owned("serveur"));
    labels.push(owned("tour"));
    labels.push(owned("passer"));
    labels.push(owned("farm"));
    labels.push(owned("grind"));
    labels.push(owned("loot"));
    labels.push(owned("ban"));
    labels.push(owned("gg"));
    labels.push(owned("detect"));
    labels.push(owned("sinon"));
    labels.push(owned("et"));
    labels.push(owned("ou"));
    labels.push(owned("pas"));
    labels.push(owned("up"));
    labels.push(owned("afk"));
    labels.push(owned("pa"));
    labels.push(owned("pm"));
    labels.push(owned("suspicion"));
    labels.push(owned("legit"));
    labels.push(owned("cheat"));
    labels.push(owned("pano"));
    labels.push(owned("perso"));
    labels.push(owned("kamas"));
    labels.push(owned("flag"));
    labels.push(owned("txt"));
    labels.push(owned("rand"));
    labels.push(owned("butin"));
    labels.push(owned("cd_pret"));
    proof {
        assert(labels@.map_values(|s: String| s@) =~= keywords() + builtins());
    }
    match parse(src) {
        Ok(prog) => {
            let items = &prog.items;
            let ghost iv = prog@.items;
            let ghost base = keywords() + builtins();
            proof {
                assert(iv == crate::sema::items_v(items@));
                assert(base + declared_names(iv.take(0)) =~= base);
            }
            let mut i: usize = 0;
            while i < items.len()
                invariant
                    iv == crate::sema::items_v(items@),
                    i <= items@.len(),
                    labels@.map_values(|s: String| s@) == base + declared_names(iv.take(i as int)),
                decreases items.len() - i,
            {
                proof {
                    assert(iv.take(i + 1).drop_last() =~= iv.take(i as int));
                    assert(iv.take(i + 1).last() == items@[i as int]@);
                }
                let ghost l0 = labels@.map_values(|s: String| s@);
                match &items[i] {
                    Item::Bot(b) => {
                        labels.push(b.name.clone());
                        proof {
                            assert(labels@.map_values(|s: String| s@) =~= l0 + seq![b@.name]);
                        }
                    },
                    Item::Pano(p) => {
                        labels.push(p.name.clone());
                        let mut j: usize = 0;
                        while j < p.variants.len()
                            invariant
                                j <= p.variants@.len(),
                                labels@.map_values(|s: String| s@) == l0 + seq![p@.name] + p@.variants.map_values(|v: crate::ast::VariantV| v.name).take(j as int),
                            decreases p.variants.len() - j,
                        {
                            let ghost l1 = labels@.map_values(|s: String| s@);
                            labels.push(p.variants[j].name.clone());
                            proof {
                                assert(p@.variants.map_values(|v: crate::ast::VariantV| v.name).take(j + 1) =~=
                                    p@.variants.map_values(|v: crate::ast::VariantV| v.name).take(j as int).push(p.variants@[j as int].name@));
                                assert(labels@.map_values(|s: String| s@) =~= l1.push(p.variants@[j as int].name@));
                            }
                            j += 1;
                        }
                        proof {
                            assert(p@.variants.map_values(|v: crate::ast::VariantV| v.name).take(j as int) =~= p@.variants.map_values(|v: crate::ast::VariantV| v.name));
                        }
                    },
                    Item::Perso(p) => {
                        labels.push(p.name.clone());
                        let mut j: usize = 0;
                        while j < p.fields.len()
                            invariant
                                j <= p.fields@.len(),
                                labels@.map_values(|s: String| s@) == l0 + seq![p@.name] + p@.fields.map_values(|f: crate::ast::FieldV| f.name).take(j as int),
                            decreases p.fields.len() - j,
                        {
                            let ghost l1 = labels@.map_values(|s: String| s@);
                            labels.push(p.fields[j].name.clone());
                            proof {
                                assert(p@.fields.map_values(|f: crate::ast::FieldV| f.name).take(j + 1) =~=
                                    p@.fields.map_values(|f: crate::ast::FieldV| f.name).take(j as int).push(p.fields@[j as int].name@));
                                assert(labels@.map_values(|s: String| s@) =~= l1.push(p.fields@[j as int].name@));
                            }
                            j += 1;
                        }
                        proof {
                            assert(p@.fields.map_values(|f: crate::ast::FieldV| f.name).take(j as int) =~= p@.fields.map_values(|f: crate::ast::FieldV| f.name));
                        }
                    },
                    _ => {},
                }
                proof {
                    assert(labels@.map_values(|s: String| s@) =~= base + declared_names(iv.take(i + 1)));
                }
                i += 1;
            }
            proof {
                assert(iv.take(i as int) =~= iv);
            }
        },
        Err(_) => {},
    }
    proof {
        assert(labels@.map_values(|s: String| s@) =~= labels_of(src@));
    }
    labels
}

#[verifier::spinoff_prover]
#[verifier::rlimit(60)]
pub fn completion_labels(src: &str) -> (out: Vec<String>)
    requires
        src@.len() < u32::MAX,
    ensures
        forall|i: int, j: int| 0 <= i < j < out@.len() ==> name_lt((#[trigger] out@[i])@, (#[trigger] out@[j])@),
        out@.map_values(|s: String| s@).to_set() == labels_of(src@).to_set(),
{
    let labels = collect_labels(src);
    let ghost lv = labels@.map_values(|s: String| s@);
    let mut out: Vec<String> = Vec::new();
    let mut i: usize = 0;
    proof {
        assert(out@.map_values(|s: String| s@).to_set() =~= lv.take(0).to_set());
    }
    while i < labels.len()
        invariant
            lv == labels@.map_values(|s: String| s@),
            i <= labels@.len(),
            forall|a: int, b: int| 0 <= a < b < out@.len() ==> name_lt((#[trigger] out@[a])@, (#[trigger] out@[b])@),
            out@.map_values(|s: String| s@).to_set() == lv.take(i as int).to_set(),
        decreases labels.len() - i,
    {
        insert_label(&mut out, labels[i].clone());
        proof {
            assert(lv.take(i + 1) =~= lv.take(i as int).push(lv[i as int]));
            lv.take(i as int).lemma_push_to_set_commute(lv[i as int]);
        }
        i += 1;
    }
    proof {
        assert(lv.take(i as int) =~= lv);
    }
    out
}

// ------------------------------------------------------------------ words, hover, definitions

/// Whether a character is alphanumeric in the sense of Unicode.
pub uninterp spec fn alnum(c: char) -> bool;

/// `char::is_alphanumeric`; the contract names its answer, a function of the character.
#[verifier::external_body]
fn is_alphanumeric(c: char) -> (r: bool)
    ensures
        r == alnum(c),
{
    c.is_alphanumeric()
}

/// A character of an identifier.
pub open spec fn is_id(c: char) -> bool {
    alnum(c) || c == '_'
}

fn is_id_x(c: char) -> (r: bool)
    ensures
        r == is_id(c),
{
    is_alphanumeric(c) || c == '_'
}

/// Index of the first line feed, or the length when there is none.
pub open spec fn first_nl(t: Seq<char>) -> nat
    decreases t.len(),
{
    if t.len() == 0 || t[0] == '\n' {
        0
    } else {
        1 + first_nl(t.drop_first())
    }
}

/// The lines of a text as `str::lines` gives them: split at `\n`, a `\r` right before the
/// `\n` dropped, no empty last line after a final `\n`.
pub open spec fn lines_of(t: Seq<char>) -> Seq<Seq<char>>
    decreases t.len(),
{
    if t.len() == 0 {
        Seq::empty()
    } else {
        let i = first_nl(t) as int;
        if i >= t.len() {
            seq![t]
        } else {
            let line = if i > 0 && t[i - 1] == '\r' { t.take(i - 1) } else { t.take(i) };
            seq![line] + lines_of(t.skip(i + 1))
        }
    }
}

/// Start of the identifier run that ends at `k`.
pub open spec fn left_end(line: Seq<char>, k: int) -> int
    decreases k,
{
    if k > 0 && k <= line.len() && is_id(line[k - 1]) { left_end(line, k - 1) } else { k }
}

/// End of the identifier run that starts at `k`.
pub open spec fn right_end(line: Seq<char>, k: int) -> int
    decreases line.len() - k,
{
    if 0 <= k < line.len() && is_id(line[k]) { right_end(line, k + 1) } else { k }
}

/// The identifier under column `c` of a line, if any.
pub open spec fn word_in(line: Seq<char>, c: int) -> Option<Seq<char>> {
    let k = if c < line.len() { c } else { line.len() as int };
    let s = left_end(line, k);
    let e = right_end(line, k);
    if s == e { None } else { Some(line.subrange(s, e)) }
}

/// The identifier under a position (0-based line and column) of a text, if any.
pub open spec fn word_at_spec(text: Seq<char>, line: u32, col: u32) -> Option<Seq<char>> {
    if line < lines_of(text).len() { word_in(lines_of(text)[line as int], col as int) } else { None }
}

proof fn lemma_first_nl(t: Seq<char>, m: int)
    requires
        0 <= m <= t.len(),
        forall|j: int| 0 <= j < m ==> t[j] != '\n',
        m == t.len() || t[m] == '\n',
    ensures
        first_nl(t) == m,
    decreases m,
{
    if m > 0 {
        lemma_first_nl(t.drop_first(), m - 1);
    }
}

/// The lines of a text.
fn lines_x(text: &str) -> (ls: Vec<Vec<char>>)
    ensures
        ls@.map_values(|l: Vec<char>| l@) == lines_of(text@),
{
    let t = chars_of(text);
    let mut out: Vec<Vec<char>> = Vec::new();
    let mut pos: usize = 0;
    proof {
        assert(t@.skip(0) =~= t@);
        assert(out@.map_values(|l: Vec<char>| l@) + lines_of(t@.skip(0)) =~= lines_of(t@));
    }
    while pos < t.len()
        invariant
            t@ == text@,
            pos <= t@.len(),
            out@.map_values(|l: Vec<char>| l@) + lines_of(t@.skip(pos as int)) == lines_of(t@),
        decreases t.len() - pos,
    {
        let ghost rest = t@.skip(pos as int);
        let mut i = pos;
        while i < t.len() && t[i] != '\n'
            invariant
                pos <= i <= t@.len(),
                forall|j: int| pos <= j < i ==> t@[j] != '\n',
            decreases t.len() - i,
        {
            i += 1;
        }
        proof {
            assert forall|j: int| 0 <= j < i - pos implies rest[j] != '\n' by {
                assert(rest[j] == t@[pos + j]);
            }
            lemma_first_nl(rest, i - pos);
        }
        let end = if i < t.len() && i > pos && t[i - 1] == '\r' { i - 1 } else { i };
        let mut line: Vec<char> = Vec::new();
        let mut k = pos;
        while k < end
            invariant
                pos <= k <= end,
                end <= t@.len(),
                line@ == t@.subrange(pos as int, k as int),
            decreases end - k,
        {
            line.push(t[k]);
            proof {
                assert(line@ =~= t@.subrange(pos as int, k + 1));
            }
            k += 1;
        }
        let ghost before = out@.map_values(|l: Vec<char>| l@);
        out.push(line);
        proof {
            assert(out@.map_values(|l: Vec<char>| l@) =~= before.push(t@.subrange(pos as int, end as int)));
            if i < t.len() {
                assert(rest.skip(i - pos + 1) =~= t@.skip(i + 1));
                if i > pos && t@[i - 1] == '\r' {
                    assert(rest.take(i - pos - 1) =~= t@.subrange(pos as int, end as int));
                } else {
                    assert(rest.take(i - pos) =~= t@.subrange(pos as int, end as int));
                }
                assert(lines_of(rest) =~= seq![t@.subrange(pos as int, end as int)] + lines_of(t@.skip(i + 1)));
                assert(out@.map_values(|l: Vec<char>| l@) + lines_of(t@.skip(i + 1)) =~= lines_of(t@));
            } else {
                assert(rest =~= t@.subrange(pos as int, end as int));
                assert(lines_of(rest) =~= seq![rest]);
                assert(t@.skip(t@.len() as int) =~= Seq::<char>::empty());
                assert(out@.map_values(|l: Vec<char>| l@) + lines_of(t@.skip(t@.len() as int)) =~= lines_of(t@));
            }
        }
        if i < t.len() {
            pos = i + 1;
        } else {
            pos = t.len();
        }
    }
    proof {
        assert(t@.skip(pos as int) =~= Seq::<char>::empty());
        assert(out@.map_values(|l: Vec<char>| l@) =~= lines_of(t@));
    }
    out
}

/// The identifier under a position (0-based line and column) of a text, if any.
pub fn word_at(text: &str, line: u32, col: u32) -> (w: Option<String>)
    ensures
        match w {
            Some(s) => word_at_spec(text@, line, col) == Some(s@),
            None => word_at_spec(text@, line, col) is None,
        },
{
    let ls = lines_x(text);
    if line as usize >= ls.len() {
        return None;
    }
    let chars = &ls[line as usize];
    let ghost l = chars@;
    proof {
        assert(l == lines_of(text@)[line as int]);
    }
    let k = if (col as usize) < chars.len() { col as usize } else { chars.len() };
    let mut s = k;
    while s > 0 && is_id_x(chars[s - 1])
        invariant
            s <= k <= l.len(),
            l == chars@,
            left_end(l, k as int) == left_end(l, s as int),
        decreases s,
    {
        s -= 1;
    }
    let mut e = k;
    while e < chars.len() && is_id_x(chars[e])
        invariant
            k <= e <= l.len(),
            l == chars@,
            right_end(l, k as int) == right_end(l, e as int),
        decreases chars.len() - e,
    {
        e += 1;
    }
    if s == e {
        return None;
    }
    let mut v: Vec<char> = Vec::new();
    let mut q = s;
    while q < e
        invariant
            s <= q <= e,
            e <= l.len(),
            l == chars@,
            v@ == l.subrange(s as int, q as int),
        decreases e - q,
    {
        v.push(chars[q]);
        proof {
            assert(v@ =~= l.subrange(s as int, q + 1));
        }
        q += 1;
    }
    Some(string_of(v.as_slice()))
}

/// The first `tour` at or after line `cur` with the smallest line (the first of equals).
pub open spec fn next_tour(tours: Seq<TourCost>, cur: int) -> Option<TourCost>
    decreases tours.len(),
{
    if tours.len() == 0 {
        None
    } else {
        let b = next_tour(tours.drop_last(), cur);
        let x = tours.last();
        if x.line < cur {
            b
        } else {
            match b {
                None => Some(x),
                Some(y) => if x.line < y.line { Some(x) } else { Some(y) },
            }
        }
    }
}

/// What hovering a word shows: the cost of a bot and whether it fits in a turn, or the
/// budget use of the next `tour` for the keyword `tour` (`line` is 0-based).
pub open spec fn hover_of(bot: Option<(u32, u32, i64)>, tours: Seq<TourCost>, max_pa: i64, max_pm: i64, word: Seq<char>, line: u32) -> Option<Seq<char>> {
    match bot {
        Some((_, _, cost)) => {
            let mark = if cost <= max_pa { "✅"@ } else { "❌ (dépasse le budget d'un tour : max "@ + crate::text::decimal(max_pa as int) + " PA)"@ };
            Some("**bot `"@ + word + "`** — coût **"@ + crate::text::decimal(cost as int) + " PA** "@ + mark)
        },
        None => if word == "tour"@ {
            match next_tour(tours, line + 1) {
                Some(t) => if t.dynamic {
                    Some("**tour** — coût **dynamique** (boucle/tour imbriqué → vérifié au runtime)"@)
                } else {
                    let mark = if t.pa <= max_pa && t.pm <= max_pm { "✅"@ } else { "❌ dépasse le budget"@ };
                    Some("**tour** — **"@ + crate::text::decimal(t.pa as int) + "/"@ + crate::text::decimal(max_pa as int)
                        + " PA** · **"@ + crate::text::decimal(t.pm as int) + "/"@ + crate::text::decimal(max_pm as int) + " PM** "@ + mark)
                },
                None => None,
            }
        } else {
            None
        },
    }
}

fn next_tour_x(tours: &Vec<TourCost>, cur: u64) -> (r: Option<TourCost>)
    ensures
        r == next_tour(tours@, cur as int),
{
    let mut best: Option<TourCost> = None;
    let mut i: usize = 0;
    while i < tours.len()
        invariant
            i <= tours@.len(),
            best == next_tour(tours@.take(i as int), cur as int),
        decreases tours.len() - i,
    {
        proof {
            assert(tours@.take(i + 1).drop_last() =~= tours@.take(i as int));
        }
        let x = tours[i];
        if (x.line as u64) >= cur {
            best = match best {
                None => Some(x),
                Some(y) => if x.line < y.line { Some(x) } else { Some(y) },
            };
        }
        i += 1;
    }
    proof {
        assert(tours@.take(i as int) =~= tours@);
    }
    best
}

/// Hover text of a word at a line (0-based) of a document with these symbols.
pub fn hover_text(sy: &Symbols, word: &String, line: u32) -> (h: Option<String>)
    ensures
        match h {
            Some(s) => hover_of(sy.bots.lookup(word@), sy.tours@, sy.max_pa, sy.max_pm, word@, line) == Some(s@),
            None => hover_of(sy.bots.lookup(word@), sy.tours@, sy.max_pa, sy.max_pm, word@, line) is None,
        },
{
    match sy.bots.get(word.as_str()) {
        Some((_, _, cost)) => {
            let mark = if cost <= sy.max_pa {
                owned("✅")
            } else {
                let mut m = owned("❌ (dépasse le budget d'un tour : max ");
                let t = int_text(sy.max_pa);
                push_text(&mut m, t.as_str());
                push_text(&mut m, " PA)");
                m
            };
            let mut s = owned("**bot `");
            push_text(&mut s, word.as_str());
            push_text(&mut s, "`** — coût **");
            let c = int_text(cost);
            push_text(&mut s, c.as_str());
            push_text(&mut s, " PA** ");
            push_text(&mut s, mark.as_str());
            Some(s)
        },
        None => {
            if !crate::text::string_is(word, "tour") {
                return None;
            }
            match next_tour_x(&sy.tours, line as u64 + 1) {
                None => None,
                Some(t) => {
                    if t.dynamic {
                        Some(owned("**tour** — coût **dynamique** (boucle/tour imbriqué → vérifié au runtime)"))
                    } else {
                        let mark = if t.pa <= sy.max_pa && t.pm <= sy.max_pm { owned("✅") } else { owned("❌ dépasse le budget") };
                        let mut s = owned("**tour** — **");
                        let a = int_text(t.pa);
                        push_text(&mut s, a.as_str());
                        push_text(&mut s, "/");
                        let b = int_text(sy.max_pa);
                        push_text(&mut s, b.as_str());
                        push_text(&mut s, " PA** · **");
                        let c = int_text(t.pm);
                        push_text(&mut s, c.as_str());
                        push_text(&mut s, "/");
                        let d = int_text(sy.max_pm);
                        push_text(&mut s, d.as_str());
                        push_text(&mut s, " PM** ");
                        push_text(&mut s, mark.as_str());
                        Some(s)
                    }
                },
            }
        },
    }
}

/// Where a word is defined: a bot first, else a `pano`/`perso`.
pub fn definition(sy: &Symbols, word: &String) -> (r: Option<(u32, u32)>)
    ensures
        r == (match sy.bots.lookup(word@) {
            Some((l, c, _)) => Some((l, c)),
            None => sy.types.lookup(word@),
        }),
{
    match sy.bots.get(word.as_str()) {
        Some((l, c, _)) => Some((l, c)),
        None => sy.types.get(word.as_str()),
    }
}

} // verus!
