//! Syntax tree of cadernislang, with an abstract view of each node (names as character
//! sequences, lists as sequences) in which the contracts of the front end are stated.

use vstd::prelude::*;

verus! {

/// Whole program: header pragmas, then top-level items.
#[derive(Debug)]
pub struct Program {
    pub pragmas: Vec<Pragma>,
    pub items: Vec<Item>,
}

/// Header pragma `#key value`, e.g. `#max_pa 8`.
#[derive(Debug, Clone)]
pub struct Pragma {
    pub key: String,
    pub value: i64,
    pub line: u32,
    pub col: u32,
}

/// Top-level item.
#[derive(Debug)]
pub enum Item {
    /// `serveur IDENT`: a namespace with no effect.
    Serveur(String),
    /// Declaration of a `bot` (a spell).
    Bot(Bot),
    /// `connexion { … }`: the entry point.
    Connexion(Block),
    /// `pano Name { [@N] Variant, … }`: an enumeration whose tags drift.
    Pano(Pano),
    /// `perso Name { [@N] field : type, … }`: a record whose field tags drift.
    Perso(Perso),
}

/// Enumeration declaration.
#[derive(Debug, Clone)]
pub struct Pano {
    pub name: String,
    pub variants: Vec<Variant>,
    pub line: u32,
    pub col: u32,
}

/// Variant of a `pano`: name and optional pinned tag (`@N`).
#[derive(Debug, Clone)]
pub struct Variant {
    pub name: String,
    pub pin: Option<i64>,
}

/// Record declaration.
#[derive(Debug, Clone)]
pub struct Perso {
    pub name: String,
    pub fields: Vec<Field>,
    pub line: u32,
    pub col: u32,
}

/// Field of a `perso`: name, type and optional pinned tag (`@N`).
#[derive(Debug, Clone)]
pub struct Field {
    pub name: String,
    pub ty: Type,
    pub pin: Option<i64>,
}

/// `bot f(params) [: type] [, coute N pa] [, cd M] { … }`.
#[derive(Debug)]
pub struct Bot {
    pub name: String,
    pub params: Vec<Param>,
    pub ret: Option<Type>,
    /// Declared AP cost (`coute N pa`); when absent the cost is derived from the body.
    pub cost_pa: Option<i64>,
    /// Cooldown in turns (`cd M`); absent means none.
    pub cd: Option<i64>,
    pub body: Block,
    pub line: u32,
    pub col: u32,
}

/// Formal parameter `IDENT : type`.
#[derive(Debug, Clone)]
pub struct Param {
    pub name: String,
    pub ty: Type,
}

/// Types of the language. An unknown name becomes [`Type::Named`].
#[derive(Debug, Clone)]
pub enum Type {
    Kamas,
    Flag,
    Txt,
    AfkTotal,
    Named(String),
}

/// Block `{ stmt* }`.
#[derive(Debug)]
pub struct Block {
    pub stmts: Vec<Stmt>,
}

/// Assignment operator.
#[derive(Debug, Clone, Copy, PartialEq, Eq)]
pub enum AssignOp {
    /// `=` (plain replacement)
    Replace,
    /// `+=`
    Add,
    /// `-=`
    Sub,
}

/// Statement.
#[derive(Debug)]
pub enum Stmt {
    /// `loot IDENT [: type] = expr`: mutable variable.
    Loot { name: String, ty: Option<Type>, value: Expr },
    /// `ban IDENT [: type] = expr`: constant.
    Ban { name: String, ty: Option<Type>, value: Expr },
    /// `IDENT (= | += | -=) expr`.
    Assign { name: String, op: AssignOp, value: Expr, line: u32, col: u32 },
    /// `tour { … }`.
    Tour(Block),
    /// `passer`.
    Passer,
    /// `farm cond { … }`: while loop.
    Farm { cond: Expr, body: Block },
    /// `grind IDENT de A a B { … }`: bounded loop, both bounds included.
    Grind { var: String, from: Expr, to: Expr, body: Block },
    /// `detect cond { … } [sinon { … }]`.
    Detect { cond: Expr, then_branch: Block, else_branch: Option<Block> },
    /// `gg [expr]`: return.
    Gg(Option<Expr>),
    /// `up expr`: observable action.
    Up(Expr),
    /// `afk expr`: advances the virtual clock; observable action.
    Afk(Expr),
    /// Expression used as a statement (e.g. a bot call).
    Expr(Expr),
}

/// Unary operator.
#[derive(Debug, Clone, Copy, PartialEq, Eq)]
pub enum UnOp {
    /// arithmetic `-`.
    Neg,
    /// `pas` (boolean negation).
    Not,
}

/// Binary operator.
#[derive(Debug, Clone, Copy, PartialEq, Eq)]
pub enum BinOp {
    Add,
    Sub,
    Mul,
    Div,
    Lt,
    Le,
    Gt,
    Ge,
    Eq,
    Ne,
    And,
    Or,
}

/// Expression with its source position.
#[derive(Debug)]
pub struct Expr {
    pub kind: ExprKind,
    pub line: u32,
    pub col: u32,
}

/// Shape of an expression.
#[derive(Debug)]
pub enum ExprKind {
    Int(i64),
    /// `legit` (true) / `cheat` (false).
    Bool(bool),
    Str(String),
    Var(String),
    /// Read-only runtime pseudo-variables.
    Pa,
    Pm,
    Suspicion,
    Unary(UnOp, Box<Expr>),
    Binary(BinOp, Box<Expr>, Box<Expr>),
    /// Call `f(args)`: builtin (`rand`/`butin`/`cd_pret`) or bot.
    Call(String, Vec<Expr>),
    /// `Left.member`: a `pano` variant tag, a `perso` field tag, or a field of a variable.
    Path(String, String),
    /// `Perso { field: expr, … }`: record construction.
    Struct(String, Vec<FieldInit>),
}

/// `field: expr` inside a record construction.
#[derive(Debug)]
pub struct FieldInit {
    pub name: String,
    pub value: Expr,
}

// ------------------------------------------------------------------ abstract view

pub enum TypeV {
    Kamas,
    Flag,
    Txt,
    AfkTotal,
    Named(Seq<char>),
}

pub enum ExprKindV {
    Int(i64),
    Bool(bool),
    Str(Seq<char>),
    Var(Seq<char>),
    Pa,
    Pm,
    Suspicion,
    Unary(UnOp, Box<ExprV>),
    Binary(BinOp, Box<ExprV>, Box<ExprV>),
    Call(Seq<char>, Seq<ExprV>),
    Path(Seq<char>, Seq<char>),
    Struct(Seq<char>, Seq<(Seq<char>, ExprV)>),
}

pub struct ExprV {
    pub kind: ExprKindV,
    pub line: u32,
    pub col: u32,
}

pub struct BlockV {
    pub stmts: Seq<StmtV>,
}

pub enum StmtV {
    Loot { name: Seq<char>, ty: Option<TypeV>, value: ExprV },
    Ban { name: Seq<char>, ty: Option<TypeV>, value: ExprV },
    Assign { name: Seq<char>, op: AssignOp, value: ExprV, line: u32, col: u32 },
    Tour(BlockV),
    Passer,
    Farm { cond: ExprV, body: BlockV },
    Grind { var: Seq<char>, from: ExprV, to: ExprV, body: BlockV },
    Detect { cond: ExprV, then_branch: BlockV, else_branch: Option<BlockV> },
    Gg(Option<ExprV>),
    Up(ExprV),
    Afk(ExprV),
    Expr(ExprV),
}

pub struct ParamV {
    pub name: Seq<char>,
    pub ty: TypeV,
}

pub struct BotV {
    pub name: Seq<char>,
    pub params: Seq<ParamV>,
    pub ret: Option<TypeV>,
    pub cost_pa: Option<i64>,
    pub cd: Option<i64>,
    pub body: BlockV,
    pub line: u32,
    pub col: u32,
}

pub struct VariantV {
    pub name: Seq<char>,
    pub pin: Option<i64>,
}

pub struct PanoV {
    pub name: Seq<char>,
    pub variants: Seq<VariantV>,
    pub line: u32,
    pub col: u32,
}

pub struct FieldV {
    pub name: Seq<char>,
    pub ty: TypeV,
    pub pin: Option<i64>,
}

pub struct PersoV {
    pub name: Seq<char>,
    pub fields: Seq<FieldV>,
    pub line: u32,
    pub col: u32,
}

pub enum ItemV {
    Serveur(Seq<char>),
    Bot(BotV),
    Connexion(BlockV),
    Pano(PanoV),
    Perso(PersoV),
}

pub struct PragmaV {
    pub key: Seq<char>,
    pub value: i64,
    pub line: u32,
    pub col: u32,
}

pub struct ProgramV {
    pub pragmas: Seq<PragmaV>,
    pub items: Seq<ItemV>,
}

impl View for Type {
    type V = TypeV;

    open spec fn view(&self) -> TypeV {
        match self {
            Type::Kamas => TypeV::Kamas,
            Type::Flag => TypeV::Flag,
            Type::Txt => TypeV::Txt,
            Type::AfkTotal => TypeV::AfkTotal,
            Type::Named(n) => TypeV::Named(n@),
        }
    }
}

pub open spec fn opt_type_v(t: Option<Type>) -> Option<TypeV> {
    match t {
        Some(t) => Some(t@),
        None => None,
    }
}

pub open spec fn expr_v(e: Expr) -> ExprV
    decreases e,
{
    ExprV { kind: kind_v(e.kind), line: e.line, col: e.col }
}

pub open spec fn kind_v(k: ExprKind) -> ExprKindV
    decreases k,
{
    match k {
        ExprKind::Int(n) => ExprKindV::Int(n),
        ExprKind::Bool(b) => ExprKindV::Bool(b),
        ExprKind::Str(s) => ExprKindV::Str(s@),
        ExprKind::Var(s) => ExprKindV::Var(s@),
        ExprKind::Pa => ExprKindV::Pa,
        ExprKind::Pm => ExprKindV::Pm,
        ExprKind::Suspicion => ExprKindV::Suspicion,
        ExprKind::Unary(op, x) => ExprKindV::Unary(op, Box::new(expr_v(*x))),
        ExprKind::Binary(op, l, r) => ExprKindV::Binary(op, Box::new(expr_v(*l)), Box::new(expr_v(*r))),
        ExprKind::Call(f, args) => ExprKindV::Call(f@, exprs_v(args@)),
        ExprKind::Path(a, b) => ExprKindV::Path(a@, b@),
        ExprKind::Struct(n, fields) => ExprKindV::Struct(n@, fields_init_v(fields@)),
    }
}

pub open spec fn exprs_v(s: Seq<Expr>) -> Seq<ExprV>
    decreases s,
{
    if s.len() == 0 {
        Seq::empty()
    } else {
        exprs_v(s.drop_last()).push(expr_v(s.last()))
    }
}

pub open spec fn fields_init_v(s: Seq<FieldInit>) -> Seq<(Seq<char>, ExprV)>
    decreases s,
{
    if s.len() == 0 {
        Seq::empty()
    } else {
        fields_init_v(s.drop_last()).push((s.last().name@, expr_v(s.last().value)))
    }
}

pub open spec fn stmt_v(s: Stmt) -> StmtV
    decreases s,
{
    match s {
        Stmt::Loot { name, ty, value } => StmtV::Loot { name: name@, ty: opt_type_v(ty), value: expr_v(value) },
        Stmt::Ban { name, ty, value } => StmtV::Ban { name: name@, ty: opt_type_v(ty), value: expr_v(value) },
        Stmt::Assign { name, op, value, line, col } => StmtV::Assign { name: name@, op, value: expr_v(value), line, col },
        Stmt::Tour(b) => StmtV::Tour(block_v(b)),
        Stmt::Passer => StmtV::Passer,
        Stmt::Farm { cond, body } => StmtV::Farm { cond: expr_v(cond), body: block_v(body) },
        Stmt::Grind { var, from, to, body } => StmtV::Grind { var: var@, from: expr_v(from), to: expr_v(to), body: block_v(body) },
        Stmt::Detect { cond, then_branch, else_branch } => StmtV::Detect {
            cond: expr_v(cond),
            then_branch: block_v(then_branch),
            else_branch: match else_branch { Some(b) => Some(block_v(b)), None => None },
        },
        Stmt::Gg(e) => StmtV::Gg(match e { Some(e) => Some(expr_v(e)), None => None }),
        Stmt::Up(e) => StmtV::Up(expr_v(e)),
        Stmt::Afk(e) => StmtV::Afk(expr_v(e)),
        Stmt::Expr(e) => StmtV::Expr(expr_v(e)),
    }
}

pub open spec fn stmts_v(s: Seq<Stmt>) -> Seq<StmtV>
    decreases s,
{
    if s.len() == 0 {
        Seq::empty()
    } else {
        stmts_v(s.drop_last()).push(stmt_v(s.last()))
    }
}

pub open spec fn block_v(b: Block) -> BlockV
    decreases b,
{
    BlockV { stmts: stmts_v(b.stmts@) }
}

impl View for Expr {
    type V = ExprV;

    open spec fn view(&self) -> ExprV {
        expr_v(*self)
    }
}

impl View for Stmt {
    type V = StmtV;

    open spec fn view(&self) -> StmtV {
        stmt_v(*self)
    }
}

impl View for Block {
    type V = BlockV;

    open spec fn view(&self) -> BlockV {
        block_v(*self)
    }
}

impl View for Param {
    type V = ParamV;

    open spec fn view(&self) -> ParamV {
        ParamV { name: self.name@, ty: self.ty@ }
    }
}

impl View for Bot {
    type V = BotV;

    open spec fn view(&self) -> BotV {
        BotV {
            name: self.name@,
            params: self.params@.map_values(|p: Param| p@),
            ret: opt_type_v(self.ret),
            cost_pa: self.cost_pa,
            cd: self.cd,
            body: self.body@,
            line: self.line,
            col: self.col,
        }
    }
}

impl View for Variant {
    type V = VariantV;

    open spec fn view(&self) -> VariantV {
        VariantV { name: self.name@, pin: self.pin }
    }
}

impl View for Pano {
    type V = PanoV;

    open spec fn view(&self) -> PanoV {
        PanoV { name: self.name@, variants: self.variants@.map_values(|v: Variant| v@), line: self.line, col: self.col }
    }
}

impl View for Field {
    type V = FieldV;

    open spec fn view(&self) -> FieldV {
        FieldV { name: self.name@, ty: self.ty@, pin: self.pin }
    }
}

impl View for Perso {
    type V = PersoV;

    open spec fn view(&self) -> PersoV {
        PersoV { name: self.name@, fields: self.fields@.map_values(|f: Field| f@), line: self.line, col: self.col }
    }
}

impl View for Item {
    type V = ItemV;

    open spec fn view(&self) -> ItemV {
        match self {
            Item::Serveur(n) => ItemV::Serveur(n@),
            Item::Bot(b) => ItemV::Bot(b@),
            Item::Connexion(b) => ItemV::Connexion(b@),
            Item::Pano(p) => ItemV::Pano(p@),
            Item::Perso(p) => ItemV::Perso(p@),
        }
    }
}

impl View for Pragma {
    type V = PragmaV;

    open spec fn view(&self) -> PragmaV {
        PragmaV { key: self.key@, value: self.value, line: self.line, col: self.col }
    }
}

impl View for Program {
    type V = ProgramV;

    open spec fn view(&self) -> ProgramV {
        ProgramV {
            pragmas: self.pragmas@.map_values(|p: Pragma| p@),
            items: self.items@.map_values(|i: Item| i@),
        }
    }
}

// ------------------------------------------------------------------ sizes

/// Number of nodes of an expression (every node counts at least one).
pub open spec fn expr_size(e: ExprV) -> nat
    decreases e,
{
    1 + kind_size(e.kind)
}

pub open spec fn kind_size(k: ExprKindV) -> nat
    decreases k,
{
    match k {
        ExprKindV::Unary(_, x) => expr_size(*x),
        ExprKindV::Binary(_, l, r) => expr_size(*l) + expr_size(*r),
        ExprKindV::Call(_, args) => exprs_size(args),
        ExprKindV::Struct(_, fields) => fields_size(fields),
        _ => 0,
    }
}

pub open spec fn exprs_size(s: Seq<ExprV>) -> nat
    decreases s,
{
    if s.len() == 0 {
        0
    } else {
        exprs_size(s.drop_last()) + expr_size(s.last()) + 1
    }
}

pub open spec fn fields_size(s: Seq<(Seq<char>, ExprV)>) -> nat
    decreases s,
{
    if s.len() == 0 {
        0
    } else {
        fields_size(s.drop_last()) + expr_size(s.last().1) + 1
    }
}

/// Number of nodes of a statement, its expressions and blocks included.
pub open spec fn stmt_size(s: StmtV) -> nat
    decreases s,
{
    1 + match s {
        StmtV::Loot { value, .. } => expr_size(value),
        StmtV::Ban { value, .. } => expr_size(value),
        StmtV::Assign { value, .. } => expr_size(value),
        StmtV::Tour(b) => block_size(b),
        StmtV::Passer => 0,
        StmtV::Farm { cond, body } => expr_size(cond) + block_size(body),
        StmtV::Grind { from, to, body, .. } => expr_size(from) + expr_size(to) + block_size(body),
        StmtV::Detect { cond, then_branch, else_branch } => expr_size(cond) + block_size(then_branch)
            + match else_branch {
            Some(b) => block_size(b),
            None => 0,
        },
        StmtV::Gg(e) => match e {
            Some(e) => expr_size(e),
            None => 0,
        },
        StmtV::Up(e) => expr_size(e),
        StmtV::Afk(e) => expr_size(e),
        StmtV::Expr(e) => expr_size(e),
    }
}

pub open spec fn stmts_size(s: Seq<StmtV>) -> nat
    decreases s,
{
    if s.len() == 0 {
        0
    } else {
        stmts_size(s.drop_last()) + stmt_size(s.last()) + 1
    }
}

pub open spec fn block_size(b: BlockV) -> nat
    decreases b,
{
    1 + stmts_size(b.stmts)
}

pub proof fn lemma_exprs_size_index(s: Seq<ExprV>, i: int)
    requires
        0 <= i < s.len(),
    ensures
        expr_size(s[i]) < exprs_size(s),
        exprs_size(s.take(i)) < exprs_size(s),
    decreases s.len(),
{
    if i < s.len() - 1 {
        lemma_exprs_size_index(s.drop_last(), i);
        assert(s.drop_last()[i] == s[i]);
        assert(s.drop_last().take(i) =~= s.take(i));
    } else {
        assert(s.take(i) =~= s.drop_last());
    }
}

pub proof fn lemma_fields_size_index(s: Seq<(Seq<char>, ExprV)>, i: int)
    requires
        0 <= i < s.len(),
    ensures
        expr_size(s[i].1) < fields_size(s),
        fields_size(s.take(i)) < fields_size(s),
    decreases s.len(),
{
    if i < s.len() - 1 {
        lemma_fields_size_index(s.drop_last(), i);
        assert(s.drop_last()[i] == s[i]);
        assert(s.drop_last().take(i) =~= s.take(i));
    } else {
        assert(s.take(i) =~= s.drop_last());
    }
}

pub proof fn lemma_stmts_size_index(s: Seq<StmtV>, i: int)
    requires
        0 <= i < s.len(),
    ensures
        stmt_size(s[i]) < stmts_size(s),
        stmts_size(s.take(i)) < stmts_size(s),
    decreases s.len(),
{
    if i < s.len() - 1 {
        lemma_stmts_size_index(s.drop_last(), i);
        assert(s.drop_last()[i] == s[i]);
        assert(s.drop_last().take(i) =~= s.take(i));
    } else {
        assert(s.take(i) =~= s.drop_last());
    }
}

// ------------------------------------------------------------------ views of lists

pub proof fn lemma_exprs_v(s: Seq<Expr>)
    ensures
        exprs_v(s).len() == s.len(),
        forall|i: int| 0 <= i < s.len() ==> #[trigger] exprs_v(s)[i] == expr_v(s[i]),
    decreases s.len(),
{
    if s.len() > 0 {
        lemma_exprs_v(s.drop_last());
    }
}

pub proof fn lemma_fields_init_v(s: Seq<FieldInit>)
    ensures
        fields_init_v(s).len() == s.len(),
        forall|i: int| 0 <= i < s.len() ==> #[trigger] fields_init_v(s)[i] == (s[i].name@, expr_v(s[i].value)),
    decreases s.len(),
{
    if s.len() > 0 {
        lemma_fields_init_v(s.drop_last());
    }
}

pub proof fn lemma_stmts_v(s: Seq<Stmt>)
    ensures
        stmts_v(s).len() == s.len(),
        forall|i: int| 0 <= i < s.len() ==> #[trigger] stmts_v(s)[i] == stmt_v(s[i]),
    decreases s.len(),
{
    if s.len() > 0 {
        lemma_stmts_v(s.drop_last());
    }
}

} // verus!
