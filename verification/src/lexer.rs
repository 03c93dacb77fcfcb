//! Lexical front end: check of the mandatory header line, then tokenization.

use vstd::prelude::*;
use crate::text::{chars_of, same_chars, string_of};

verus! {

/// Mandatory first line of every source file.
pub const HEADER: &'static str = "// gg wp";

/// The first line of a source: the text before the first `\n`.
pub open spec fn first_line(s: Seq<char>) -> Seq<char>
    decreases s.len(),
{
    if s.len() == 0 || s[0] == '\n' {
        Seq::empty()
    } else {
        seq![s[0]] + first_line(s.drop_first())
    }
}

/// A line without its trailing carriage returns.
pub open spec fn strip_cr(s: Seq<char>) -> Seq<char>
    decreases s.len(),
{
    if s.len() > 0 && s.last() == '\r' {
        strip_cr(s.drop_last())
    } else {
        s
    }
}

/// Line 1 of the source is not exactly `// gg wp`.
#[derive(Debug, Clone, Copy, PartialEq, Eq)]
pub struct HeaderError;

proof fn lemma_first_line_take(s: Seq<char>, k: int)
    requires
        0 <= k <= s.len(),
        forall|j: int| 0 <= j < k ==> s[j] != '\n',
        k == s.len() || s[k] == '\n',
    ensures
        first_line(s) == s.take(k),
    decreases k,
{
    if k > 0 {
        lemma_first_line_take(s.drop_first(), k - 1);
        assert(seq![s[0]] + s.drop_first().take(k - 1) =~= s.take(k));
    } else {
        assert(s.take(0) =~= Seq::<char>::empty());
    }
}

/// Checks that line 1 of the source is exactly `// gg wp` (trailing `\r` tolerated, for
/// CRLF files). Anything else is refused.
pub fn verify_header(source: &str) -> (r: Result<(), HeaderError>)
    ensures
        r is Ok <==> strip_cr(first_line(source@)) == HEADER@,
{
    let s = chars_of(source);
    let mut k: usize = 0;
    while k < s.len() && s[k] != '\n'
        invariant
            k <= s.len(),
            forall|j: int| 0 <= j < k ==> s@[j] != '\n',
        decreases s.len() - k,
    {
        k += 1;
    }
    proof {
        lemma_first_line_take(s@, k as int);
    }
    let mut end = k;
    while end > 0 && s[end - 1] == '\r'
        invariant
            end <= k <= s.len(),
            strip_cr(s@.take(k as int)) == strip_cr(s@.take(end as int)),
        decreases end,
    {
        assert(s@.take(end as int).drop_last() =~= s@.take(end - 1));
        end -= 1;
    }
    proof {
        assert(strip_cr(s@.take(end as int)) == s@.take(end as int));
    }
    let h = chars_of(HEADER);
    if same_chars(&s.as_slice()[0..end], h.as_slice()) {
        Ok(())
    } else {
        Err(HeaderError)
    }
}

/// A lexical token. Comments and blanks are trivia and produce none.
#[derive(Debug, Clone, PartialEq)]
pub enum Token {
    // keywords (reserved); `pa` also ends `coute N pa`
    Bot,
    Coute,
    Cd,
    Connexion,
    Serveur,
    Tour,
    Passer,
    Farm,
    Grind,
    Loot,
    Ban,
    Gg,
    Detect,
    Sinon,
    Et,
    Ou,
    Pas,
    Up,
    Afk,
    Pa,
    Pm,
    Suspicion,
    Legit,
    Cheat,
    // punctuation
    LParen,
    RParen,
    LBrace,
    RBrace,
    Comma,
    Colon,
    Hash,
    Dot,
    At,
    // operators
    PlusEq,
    MinusEq,
    EqEq,
    NotEq,
    Le,
    Ge,
    Eq,
    Lt,
    Gt,
    Plus,
    Minus,
    Star,
    Slash,
    // literals and identifiers
    Int(i64),
    Str(String),
    Ident(String),
}

/// Abstract token: identifier and string payloads as character sequences.
pub enum TokenV {
    Bot,
    Coute,
    Cd,
    Connexion,
    Serveur,
    Tour,
    Passer,
    Farm,
    Grind,
    Loot,
    Ban,
    Gg,
    Detect,
    Sinon,
    Et,
    Ou,
    Pas,
    Up,
    Afk,
    Pa,
    Pm,
    Suspicion,
    Legit,
    Cheat,
    LParen,
    RParen,
    LBrace,
    RBrace,
    Comma,
    Colon,
    Hash,
    Dot,
    At,
    PlusEq,
    MinusEq,
    EqEq,
    NotEq,
    Le,
    Ge,
    Eq,
    Lt,
    Gt,
    Plus,
    Minus,
    Star,
    Slash,
    Int(i64),
    Str(Seq<char>),
    Ident(Seq<char>),
}

impl View for Token {
    type V = TokenV;

    open spec fn view(&self) -> TokenV {
        match self {
            Token::Bot => TokenV::Bot,
            Token::Coute => TokenV::Coute,
            Token::Cd => TokenV::Cd,
            Token::Connexion => TokenV::Connexion,
            Token::Serveur => TokenV::Serveur,
            Token::Tour => TokenV::Tour,
            Token::Passer => TokenV::Passer,
            Token::Farm => TokenV::Farm,
            Token::Grind => TokenV::Grind,
            Token::Loot => TokenV::Loot,
            Token::Ban => TokenV::Ban,
            Token::Gg => TokenV::Gg,
            Token::Detect => TokenV::Detect,
            Token::Sinon => TokenV::Sinon,
            Token::Et => TokenV::Et,
            Token::Ou => TokenV::Ou,
            Token::Pas => TokenV::Pas,
            Token::Up => TokenV::Up,
            Token::Afk => TokenV::Afk,
            Token::Pa => TokenV::Pa,
            Token::Pm => TokenV::Pm,
            Token::Suspicion => TokenV::Suspicion,
            Token::Legit => TokenV::Legit,
            Token::Cheat => TokenV::Cheat,
            Token::LParen => TokenV::LParen,
            Token::RParen => TokenV::RParen,
            Token::LBrace => TokenV::LBrace,
            Token::RBrace => TokenV::RBrace,
            Token::Comma => TokenV::Comma,
            Token::Colon => TokenV::Colon,
            Token::Hash => TokenV::Hash,
            Token::Dot => TokenV::Dot,
            Token::At => TokenV::At,
            Token::PlusEq => TokenV::PlusEq,
            Token::MinusEq => TokenV::MinusEq,
            Token::EqEq => TokenV::EqEq,
            Token::NotEq => TokenV::NotEq,
            Token::Le => TokenV::Le,
            Token::Ge => TokenV::Ge,
            Token::Eq => TokenV::Eq,
            Token::Lt => TokenV::Lt,
            Token::Gt => TokenV::Gt,
            Token::Plus => TokenV::Plus,
            Token::Minus => TokenV::Minus,
            Token::Star => TokenV::Star,
            Token::Slash => TokenV::Slash,
            Token::Int(n) => TokenV::Int(*n),
            Token::Str(s) => TokenV::Str(s@),
            Token::Ident(s) => TokenV::Ident(s@),
        }
    }
}

/// The keyword spelled by a word, if any.
pub open spec fn keyword_spec(w: Seq<char>) -> Option<TokenV> {
    if w == seq!['b', 'o', 't'] {
        Some(TokenV::Bot)
    } else if w == seq!['c', 'o', 'u', 't', 'e'] {
        Some(TokenV::Coute)
    } else if w == seq!['c', 'd'] {
        Some(TokenV::Cd)
    } else if w == seq!['c', 'o', 'n', 'n', 'e', 'x', 'i', 'o', 'n'] {
        Some(TokenV::Connexion)
    } else if w == seq!['s', 'e', 'r', 'v', 'e', 'u', 'r'] {
        Some(TokenV::Serveur)
    } else if w == seq!['t', 'o', 'u', 'r'] {
        Some(TokenV::Tour)
    } else if w == seq!['p', 'a', 's', 's', 'e', 'r'] {
        Some(TokenV::Passer)
    } else if w == seq!['f', 'a', 'r', 'm'] {
        Some(TokenV::Farm)
    } else if w == seq!['g', 'r', 'i', 'n', 'd'] {
        Some(TokenV::Grind)
    } else if w == seq!['l', 'o', 'o', 't'] {
        Some(TokenV::Loot)
    } else if w == seq!['b', 'a', 'n'] {
        Some(TokenV::Ban)
    } else if w == seq!['g', 'g'] {
        Some(TokenV::Gg)
    } else if w == seq!['d', 'e', 't', 'e', 'c', 't'] {
        Some(TokenV::Detect)
    } else if w == seq!['s', 'i', 'n', 'o', 'n'] {
        Some(TokenV::Sinon)
    } else if w == seq!['e', 't'] {
        Some(TokenV::Et)
    } else if w == seq!['o', 'u'] {
        Some(TokenV::Ou)
    } else if w == seq!['p', 'a', 's'] {
        Some(TokenV::Pas)
    } else if w == seq!['u', 'p'] {
        Some(TokenV::Up)
    } else if w == seq!['a', 'f', 'k'] {
        Some(TokenV::Afk)
    } else if w == seq!['p', 'a'] {
        Some(TokenV::Pa)
    } else if w == seq!['p', 'm'] {
        Some(TokenV::Pm)
    } else if w == seq!['s', 'u', 's', 'p', 'i', 'c', 'i', 'o', 'n'] {
        Some(TokenV::Suspicion)
    } else if w == seq!['l', 'e', 'g', 'i', 't'] {
        Some(TokenV::Legit)
    } else if w == seq!['c', 'h', 'e', 'a', 't'] {
        Some(TokenV::Cheat)
    } else {
        None
    }
}

fn keyword(w: &[char]) -> (r: Option<Token>)
    ensures
        match r { Some(t) => keyword_spec(w@) == Some(t@), None => keyword_spec(w@) is None },
{
    if same_chars(w, &['b', 'o', 't']) {
        Some(Token::Bot)
    } else if same_chars(w, &['c', 'o', 'u', 't', 'e']) {
        Some(Token::Coute)
    } else if same_chars(w, &['c', 'd']) {
        Some(Token::Cd)
    } else if same_chars(w, &['c', 'o', 'n', 'n', 'e', 'x', 'i', 'o', 'n']) {
        Some(Token::Connexion)
    } else if same_chars(w, &['s', 'e', 'r', 'v', 'e', 'u', 'r']) {
        Some(Token::Serveur)
    } else if same_chars(w, &['t', 'o', 'u', 'r']) {
        Some(Token::Tour)
    } else if same_chars(w, &['p', 'a', 's', 's', 'e', 'r']) {
        Some(Token::Passer)
    } else if same_chars(w, &['f', 'a', 'r', 'm']) {
        Some(Token::Farm)
    } else if same_chars(w, &['g', 'r', 'i', 'n', 'd']) {
        Some(Token::Grind)
    } else if same_chars(w, &['l', 'o', 'o', 't']) {
        Some(Token::Loot)
    } else if same_chars(w, &['b', 'a', 'n']) {
        Some(Token::Ban)
    } else if same_chars(w, &['g', 'g']) {
        Some(Token::Gg)
    } else if same_chars(w, &['d', 'e', 't', 'e', 'c', 't']) {
        Some(Token::Detect)
    } else if same_chars(w, &['s', 'i', 'n', 'o', 'n']) {
        Some(Token::Sinon)
    } else if same_chars(w, &['e', 't']) {
        Some(Token::Et)
    } else if same_chars(w, &['o', 'u']) {
        Some(Token::Ou)
    } else if same_chars(w, &['p', 'a', 's']) {
        Some(Token::Pas)
    } else if same_chars(w, &['u', 'p']) {
        Some(Token::Up)
    } else if same_chars(w, &['a', 'f', 'k']) {
        Some(Token::Afk)
    } else if same_chars(w, &['p', 'a']) {
        Some(Token::Pa)
    } else if same_chars(w, &['p', 'm']) {
        Some(Token::Pm)
    } else if same_chars(w, &['s', 'u', 's', 'p', 'i', 'c', 'i', 'o', 'n']) {
        Some(Token::Suspicion)
    } else if same_chars(w, &['l', 'e', 'g', 'i', 't']) {
        Some(Token::Legit)
    } else if same_chars(w, &['c', 'h', 'e', 'a', 't']) {
        Some(Token::Cheat)
    } else {
        None
    }
}

/// Punctuation or operator starting at `i`, longest first, with its length.
pub open spec fn symbol_spec(s: Seq<char>, i: int) -> Option<(TokenV, nat)> {
    let c = s[i];
    let next = if i + 1 < s.len() { s[i + 1] } else { ' ' };
    if i + 1 < s.len() && c == '+' && next == '=' {
        Some((TokenV::PlusEq, 2))
    } else if i + 1 < s.len() && c == '-' && next == '=' {
        Some((TokenV::MinusEq, 2))
    } else if i + 1 < s.len() && c == '=' && next == '=' {
        Some((TokenV::EqEq, 2))
    } else if i + 1 < s.len() && c == '!' && next == '=' {
        Some((TokenV::NotEq, 2))
    } else if i + 1 < s.len() && c == '<' && next == '=' {
        Some((TokenV::Le, 2))
    } else if i + 1 < s.len() && c == '>' && next == '=' {
        Some((TokenV::Ge, 2))
    } else if c == '(' {
        Some((TokenV::LParen, 1))
    } else if c == ')' {
        Some((TokenV::RParen, 1))
    } else if c == '{' {
        Some((TokenV::LBrace, 1))
    } else if c == '}' {
        Some((TokenV::RBrace, 1))
    } else if c == ',' {
        Some((TokenV::Comma, 1))
    } else if c == ':' {
        Some((TokenV::Colon, 1))
    } else if c == '#' {
        Some((TokenV::Hash, 1))
    } else if c == '.' {
        Some((TokenV::Dot, 1))
    } else if c == '@' {
        Some((TokenV::At, 1))
    } else if c == '=' {
        Some((TokenV::Eq, 1))
    } else if c == '<' {
        Some((TokenV::Lt, 1))
    } else if c == '>' {
        Some((TokenV::Gt, 1))
    } else if c == '+' {
        Some((TokenV::Plus, 1))
    } else if c == '-' {
        Some((TokenV::Minus, 1))
    } else if c == '*' {
        Some((TokenV::Star, 1))
    } else if c == '/' {
        Some((TokenV::Slash, 1))
    } else {
        None
    }
}

fn symbol(s: &[char], i: usize) -> (r: Option<(Token, usize)>)
    requires
        i < s.len(),
    ensures
        match r { Some((t, n)) => symbol_spec(s@, i as int) == Some((t@, n as nat)), None => symbol_spec(s@, i as int) is None },
{
    let c = s[i];
    let next = if i + 1 < s.len() { s[i + 1] } else { ' ' };
    if i + 1 < s.len() && c == '+' && next == '=' {
        Some((Token::PlusEq, 2))
    } else if i + 1 < s.len() && c == '-' && next == '=' {
        Some((Token::MinusEq, 2))
    } else if i + 1 < s.len() && c == '=' && next == '=' {
        Some((Token::EqEq, 2))
    } else if i + 1 < s.len() && c == '!' && next == '=' {
        Some((Token::NotEq, 2))
    } else if i + 1 < s.len() && c == '<' && next == '=' {
        Some((Token::Le, 2))
    } else if i + 1 < s.len() && c == '>' && next == '=' {
        Some((Token::Ge, 2))
    } else if c == '(' {
        Some((Token::LParen, 1))
    } else if c == ')' {
        Some((Token::RParen, 1))
    } else if c == '{' {
        Some((Token::LBrace, 1))
    } else if c == '}' {
        Some((Token::RBrace, 1))
    } else if c == ',' {
        Some((Token::Comma, 1))
    } else if c == ':' {
        Some((Token::Colon, 1))
    } else if c == '#' {
        Some((Token::Hash, 1))
    } else if c == '.' {
        Some((Token::Dot, 1))
    } else if c == '@' {
        Some((Token::At, 1))
    } else if c == '=' {
        Some((Token::Eq, 1))
    } else if c == '<' {
        Some((Token::Lt, 1))
    } else if c == '>' {
        Some((Token::Gt, 1))
    } else if c == '+' {
        Some((Token::Plus, 1))
    } else if c == '-' {
        Some((Token::Minus, 1))
    } else if c == '*' {
        Some((Token::Star, 1))
    } else if c == '/' {
        Some((Token::Slash, 1))
    } else {
        None
    }
}

/// Variant code of a token, payload ignored (two tokens of one variant share a code).
pub open spec fn code_v(t: TokenV) -> u8 {
    match t {
        TokenV::Bot => 0,
        TokenV::Coute => 1,
        TokenV::Cd => 2,
        TokenV::Connexion => 3,
        TokenV::Serveur => 4,
        TokenV::Tour => 5,
        TokenV::Passer => 6,
        TokenV::Farm => 7,
        TokenV::Grind => 8,
        TokenV::Loot => 9,
        TokenV::Ban => 10,
        TokenV::Gg => 11,
        TokenV::Detect => 12,
        TokenV::Sinon => 13,
        TokenV::Et => 14,
        TokenV::Ou => 15,
        TokenV::Pas => 16,
        TokenV::Up => 17,
        TokenV::Afk => 18,
        TokenV::Pa => 19,
        TokenV::Pm => 20,
        TokenV::Suspicion => 21,
        TokenV::Legit => 22,
        TokenV::Cheat => 23,
        TokenV::LParen => 24,
        TokenV::RParen => 25,
        TokenV::LBrace => 26,
        TokenV::RBrace => 27,
        TokenV::Comma => 28,
        TokenV::Colon => 29,
        TokenV::Hash => 30,
        TokenV::Dot => 31,
        TokenV::At => 32,
        TokenV::PlusEq => 33,
        TokenV::MinusEq => 34,
        TokenV::EqEq => 35,
        TokenV::NotEq => 36,
        TokenV::Le => 37,
        TokenV::Ge => 38,
        TokenV::Eq => 39,
        TokenV::Lt => 40,
        TokenV::Gt => 41,
        TokenV::Plus => 42,
        TokenV::Minus => 43,
        TokenV::Star => 44,
        TokenV::Slash => 45,
        TokenV::Int(_) => 46,
        TokenV::Str(_) => 47,
        TokenV::Ident(_) => 48,
    }
}

/// Variant code of a token.
pub fn code(t: &Token) -> (r: u8)
    ensures
        r == code_v(t@),
{
    match t {
        Token::Bot => 0,
        Token::Coute => 1,
        Token::Cd => 2,
        Token::Connexion => 3,
        Token::Serveur => 4,
        Token::Tour => 5,
        Token::Passer => 6,
        Token::Farm => 7,
        Token::Grind => 8,
        Token::Loot => 9,
        Token::Ban => 10,
        Token::Gg => 11,
        Token::Detect => 12,
        Token::Sinon => 13,
        Token::Et => 14,
        Token::Ou => 15,
        Token::Pas => 16,
        Token::Up => 17,
        Token::Afk => 18,
        Token::Pa => 19,
        Token::Pm => 20,
        Token::Suspicion => 21,
        Token::Legit => 22,
        Token::Cheat => 23,
        Token::LParen => 24,
        Token::RParen => 25,
        Token::LBrace => 26,
        Token::RBrace => 27,
        Token::Comma => 28,
        Token::Colon => 29,
        Token::Hash => 30,
        Token::Dot => 31,
        Token::At => 32,
        Token::PlusEq => 33,
        Token::MinusEq => 34,
        Token::EqEq => 35,
        Token::NotEq => 36,
        Token::Le => 37,
        Token::Ge => 38,
        Token::Eq => 39,
        Token::Lt => 40,
        Token::Gt => 41,
        Token::Plus => 42,
        Token::Minus => 43,
        Token::Star => 44,
        Token::Slash => 45,
        Token::Int(_) => 46,
        Token::Str(_) => 47,
        Token::Ident(_) => 48,
    }
}

// ------------------------------------------------------------------ character classes

pub open spec fn is_blank(c: char) -> bool {
    c == ' ' || c == '\t' || c == '\r' || c == '\n' || c == '\x0c'
}

pub open spec fn is_digit(c: char) -> bool {
    '0' <= c <= '9'
}

pub open spec fn ident_start(c: char) -> bool {
    ('a' <= c <= 'z') || ('A' <= c <= 'Z') || c == '_'
}

pub open spec fn ident_char(c: char) -> bool {
    ident_start(c) || is_digit(c)
}

pub open spec fn int_char(c: char) -> bool {
    is_digit(c) || c == '_'
}

pub open spec fn not_newline(c: char) -> bool {
    c != '\n'
}

/// End of the longest run of characters satisfying `p` starting at `i`.
pub open spec fn run_end(s: Seq<char>, i: int, p: spec_fn(char) -> bool) -> int
    decreases s.len() - i,
{
    if 0 <= i < s.len() && p(s[i]) {
        run_end(s, i + 1, p)
    } else {
        i
    }
}

pub proof fn lemma_run_end(s: Seq<char>, i: int, p: spec_fn(char) -> bool)
    requires
        0 <= i <= s.len(),
    ensures
        i <= run_end(s, i, p) <= s.len(),
        forall|k: int| i <= k < run_end(s, i, p) ==> p(#[trigger] s[k]),
        run_end(s, i, p) == s.len() || !p(s[run_end(s, i, p)]),
    decreases s.len() - i,
{
    if i < s.len() && p(s[i]) {
        lemma_run_end(s, i + 1, p);
    }
}

/// First index at or after `i` that is not blank or inside a `//` comment.
pub open spec fn skip_trivia(s: Seq<char>, i: int) -> int
    decreases s.len() - i,
{
    if i < 0 || i >= s.len() {
        i
    } else if is_blank(s[i]) {
        skip_trivia(s, i + 1)
    } else if s[i] == '/' && i + 1 < s.len() && s[i + 1] == '/' {
        proof {
            lemma_run_end(s, i + 2, |c: char| not_newline(c));
        }
        skip_trivia(s, run_end(s, i + 2, |c: char| not_newline(c)))
    } else {
        i
    }
}

pub proof fn lemma_skip_trivia(s: Seq<char>, i: int)
    requires
        0 <= i <= s.len(),
    ensures
        i <= skip_trivia(s, i) <= s.len(),
    decreases s.len() - i,
{
    if i < s.len() {
        if is_blank(s[i]) {
            lemma_skip_trivia(s, i + 1);
        } else if s[i] == '/' && i + 1 < s.len() && s[i + 1] == '/' {
            lemma_run_end(s, i + 2, |c: char| not_newline(c));
            lemma_skip_trivia(s, run_end(s, i + 2, |c: char| not_newline(c)));
        }
    }
}

/// Index of the quote closing a string literal whose content starts at `k`.
pub open spec fn string_close(s: Seq<char>, k: int) -> Option<int>
    decreases s.len() - k,
{
    if k < 0 || k >= s.len() {
        None
    } else if s[k] == '"' {
        Some(k)
    } else if s[k] == '\\' {
        if k + 1 < s.len() && s[k + 1] != '\n' {
            string_close(s, k + 2)
        } else {
            None
        }
    } else {
        string_close(s, k + 1)
    }
}

pub proof fn lemma_string_close(s: Seq<char>, k: int)
    requires
        0 <= k,
    ensures
        string_close(s, k) matches Some(e) ==> k <= e < s.len() && s[e] == '"',
    decreases s.len() - k,
{
    if 0 <= k < s.len() && s[k] != '"' {
        if s[k] == '\\' {
            if k + 1 < s.len() && s[k + 1] != '\n' {
                lemma_string_close(s, k + 2);
            }
        } else {
            lemma_string_close(s, k + 1);
        }
    }
}

/// Character denoted by the escape `\c`.
pub open spec fn escaped(c: char) -> char {
    if c == 'n' { '\n' } else if c == 't' { '\t' } else { c }
}

/// Content of a string literal with its escapes `\" \\ \n \t` resolved; any other escaped
/// character stands for itself.
pub open spec fn unescape(t: Seq<char>) -> Seq<char>
    decreases t.len(),
{
    if t.len() == 0 {
        Seq::empty()
    } else if t[0] == '\\' {
        if t.len() >= 2 {
            seq![escaped(t[1])] + unescape(t.skip(2))
        } else {
            Seq::empty()
        }
    } else {
        seq![t[0]] + unescape(t.skip(1))
    }
}

/// Resolving the escapes of a literal's content: `\t` is the tab (U+0009), `\n` the line
/// feed (U+000A), `\"` a quote, `\\` a backslash, and any other escaped character
/// stands for itself; a character other than a backslash stands for itself.
pub proof fn lemma_unescape_escapes(rest: Seq<char>, c: char)
    ensures
        unescape(seq!['\\', 't'] + rest) == seq!['\u{9}'] + unescape(rest),
        unescape(seq!['\\', 't'] + rest)[0] as u32 == 9,
        unescape(seq!['\\', 'n'] + rest) == seq!['\u{a}'] + unescape(rest),
        unescape(seq!['\\', 'n'] + rest)[0] as u32 == 10,
        unescape(seq!['\\', '"'] + rest) == seq!['"'] + unescape(rest),
        unescape(seq!['\\', '\\'] + rest) == seq!['\\'] + unescape(rest),
        c != 'n' && c != 't' ==> unescape(seq!['\\', c] + rest) == seq![c] + unescape(rest),
        c != '\\' ==> unescape(seq![c] + rest) == seq![c] + unescape(rest),
{
    assert((seq!['\\', 't'] + rest).skip(2) =~= rest);
    assert((seq!['\\', 'n'] + rest).skip(2) =~= rest);
    assert((seq!['\\', '"'] + rest).skip(2) =~= rest);
    assert((seq!['\\', '\\'] + rest).skip(2) =~= rest);
    assert((seq!['\\', c] + rest).skip(2) =~= rest);
    assert((seq![c] + rest).skip(1) =~= rest);
    assert(('\u{9}' as u32) == 9);
    assert(('\u{a}' as u32) == 10);
}

/// A content with no backslash is its own value.
pub proof fn lemma_unescape_plain(t: Seq<char>)
    requires
        forall|i: int| 0 <= i < t.len() ==> t[i] != '\\',
    ensures
        unescape(t) == t,
    decreases t.len(),
{
    if t.len() > 0 {
        lemma_unescape_plain(t.skip(1));
        assert(t =~= seq![t[0]] + t.skip(1));
    }
}

/// Value of an integer literal, underscores ignored.
pub open spec fn int_value(d: Seq<char>) -> int
    decreases d.len(),
{
    if d.len() == 0 {
        0
    } else if d.last() == '_' {
        int_value(d.drop_last())
    } else {
        int_value(d.drop_last()) * 10 + (d.last() as int - '0' as int)
    }
}

proof fn lemma_int_value_nonneg(d: Seq<char>)
    requires
        forall|j: int| 0 <= j < d.len() ==> int_char(#[trigger] d[j]),
    ensures
        0 <= int_value(d),
    decreases d.len(),
{
    if d.len() > 0 {
        lemma_int_value_nonneg(d.drop_last());
    }
}

proof fn lemma_int_value_monotone(d: Seq<char>, k: int)
    requires
        0 <= k <= d.len(),
        forall|j: int| 0 <= j < d.len() ==> int_char(#[trigger] d[j]),
    ensures
        0 <= int_value(d.take(k)) <= int_value(d),
    decreases d.len(),
{
    if k == d.len() {
        assert(d.take(k) =~= d);
        lemma_int_value_nonneg(d);
    } else {
        lemma_int_value_monotone(d.drop_last(), k);
        assert(d.drop_last().take(k) =~= d.take(k));
        lemma_int_value_nonneg(d.drop_last());
    }
}

/// The token starting at `i` (a non-trivia position) and its length, longest match first;
/// `None` when no token starts there.
pub open spec fn token_spec(s: Seq<char>, i: int) -> Option<(TokenV, nat)> {
    let c = s[i];
    if ident_start(c) {
        let e = run_end(s, i, |c: char| ident_char(c));
        let w = s.subrange(i, e);
        match keyword_spec(w) {
            Some(k) => Some((k, (e - i) as nat)),
            None => Some((TokenV::Ident(w), (e - i) as nat)),
        }
    } else if is_digit(c) {
        let e = run_end(s, i, |c: char| int_char(c));
        let v = int_value(s.subrange(i, e));
        if v <= i64::MAX {
            Some((TokenV::Int(v as i64), (e - i) as nat))
        } else {
            None
        }
    } else if c == '"' {
        match string_close(s, i + 1) {
            Some(k) => Some((TokenV::Str(unescape(s.subrange(i + 1, k))), (k + 1 - i) as nat)),
            None => None,
        }
    } else {
        symbol_spec(s, i)
    }
}

pub proof fn lemma_token_len(s: Seq<char>, i: int)
    requires
        0 <= i < s.len(),
    ensures
        token_spec(s, i) matches Some((_, n)) ==> 1 <= n && i + n <= s.len(),
{
    let c = s[i];
    if ident_start(c) {
        lemma_run_end(s, i, |c: char| ident_char(c));
    } else if is_digit(c) {
        lemma_run_end(s, i, |c: char| int_char(c));
    } else if c == '"' {
        lemma_string_close(s, i + 1);
    }
}

/// Line and column (1-based) of the character at index `i`.
pub open spec fn pos_at(s: Seq<char>, i: int) -> (nat, nat)
    decreases i,
{
    if i <= 0 {
        (1, 1)
    } else {
        let (l, c) = pos_at(s, i - 1);
        if s[i - 1] == '\n' { (l + 1, 1) } else { (l, c + 1) }
    }
}

proof fn lemma_pos_bound(s: Seq<char>, i: int)
    requires
        0 <= i,
    ensures
        1 <= pos_at(s, i).0 <= i + 1,
        1 <= pos_at(s, i).1 <= i + 1,
    decreases i,
{
    if i > 0 {
        lemma_pos_bound(s, i - 1);
    }
}

/// Token with its source position (1-based).
#[derive(Debug, Clone, PartialEq)]
pub struct Spanned {
    pub tok: Token,
    pub line: u32,
    pub col: u32,
}

pub struct SpannedV {
    pub tok: TokenV,
    pub line: u32,
    pub col: u32,
}

impl View for Spanned {
    type V = SpannedV;

    open spec fn view(&self) -> SpannedV {
        SpannedV { tok: self.tok@, line: self.line, col: self.col }
    }
}

/// A character where no token starts.
#[derive(Debug, Clone, Copy, PartialEq, Eq)]
pub struct LexError {
    pub line: u32,
    pub col: u32,
}

/// Tokens of `s` from index `i` on, or the position of the first character where no token
/// starts.
pub open spec fn lex_from(s: Seq<char>, i: int) -> Result<Seq<SpannedV>, (nat, nat)>
    decreases s.len() - i,
{
    if i < 0 || i > s.len() {
        Ok(Seq::empty())
    } else {
        let j = skip_trivia(s, i);
        if j >= s.len() {
            Ok(Seq::empty())
        } else {
            proof {
                lemma_skip_trivia(s, i);
                lemma_token_len(s, j);
            }
            match token_spec(s, j) {
                None => Err(pos_at(s, j)),
                Some((t, n)) => match lex_from(s, j + n) {
                    Ok(rest) => Ok(seq![SpannedV { tok: t, line: pos_at(s, j).0 as u32, col: pos_at(s, j).1 as u32 }] + rest),
                    Err(e) => Err(e),
                },
            }
        }
    }
}

/// Tokens of a whole source.
pub open spec fn tokens_of(src: Seq<char>) -> Result<Seq<SpannedV>, (nat, nat)> {
    lex_from(src, 0)
}

// ------------------------------------------------------------------ executable scanner

fn is_blank_c(c: char) -> (r: bool)
    ensures
        r == is_blank(c),
{
    c == ' ' || c == '\t' || c == '\r' || c == '\n' || c == '\x0c'
}

fn is_digit_c(c: char) -> (r: bool)
    ensures
        r == is_digit(c),
{
    '0' <= c && c <= '9'
}

fn ident_start_c(c: char) -> (r: bool)
    ensures
        r == ident_start(c),
{
    ('a' <= c && c <= 'z') || ('A' <= c && c <= 'Z') || c == '_'
}

fn ident_char_c(c: char) -> (r: bool)
    ensures
        r == ident_char(c),
{
    ident_start_c(c) || is_digit_c(c)
}

/// Line and column advanced over `s[from..to]`.
fn advance(s: &[char], from: usize, to: usize, line: u64, col: u64) -> (r: (u64, u64))
    requires
        from <= to <= s.len(),
        s.len() < u32::MAX,
        (line as nat, col as nat) == pos_at(s@, from as int),
    ensures
        (r.0 as nat, r.1 as nat) == pos_at(s@, to as int),
{
    let mut k = from;
    let mut l = line;
    let mut c = col;
    while k < to
        invariant
            from <= k <= to <= s.len(),
            s.len() < u32::MAX,
            (l as nat, c as nat) == pos_at(s@, k as int),
        decreases to - k,
    {
        proof {
            lemma_pos_bound(s@, k as int);
        }
        if s[k] == '\n' {
            l = l + 1;
            c = 1;
        } else {
            c = c + 1;
        }
        k += 1;
    }
    (l, c)
}

fn skip_trivia_x(s: &[char], i: usize) -> (r: usize)
    requires
        i <= s.len(),
    ensures
        r as int == skip_trivia(s@, i as int),
{
    let mut k = i;
    while k < s.len()
        invariant
            i <= k <= s.len(),
            skip_trivia(s@, k as int) == skip_trivia(s@, i as int),
        decreases s.len() - k,
    {
        if is_blank_c(s[k]) {
            k += 1;
        } else if s[k] == '/' && k + 1 < s.len() && s[k + 1] == '/' {
            let mut e = k + 2;
            while e < s.len() && s[e] != '\n'
                invariant
                    k + 2 <= e <= s.len(),
                    run_end(s@, e as int, |c: char| not_newline(c))
                        == run_end(s@, k + 2, |c: char| not_newline(c)),
                decreases s.len() - e,
            {
                e += 1;
            }
            k = e;
        } else {
            return k;
        }
    }
    k
}

fn run_ident(s: &[char], i: usize) -> (e: usize)
    requires
        i <= s.len(),
    ensures
        e as int == run_end(s@, i as int, |c: char| ident_char(c)),
{
    let mut e = i;
    while e < s.len() && ident_char_c(s[e])
        invariant
            i <= e <= s.len(),
            run_end(s@, e as int, |c: char| ident_char(c)) == run_end(s@, i as int, |c: char| ident_char(c)),
        decreases s.len() - e,
    {
        e += 1;
    }
    e
}

fn run_int(s: &[char], i: usize) -> (e: usize)
    requires
        i <= s.len(),
    ensures
        e as int == run_end(s@, i as int, |c: char| int_char(c)),
{
    let mut e = i;
    while e < s.len() && (is_digit_c(s[e]) || s[e] == '_')
        invariant
            i <= e <= s.len(),
            run_end(s@, e as int, |c: char| int_char(c)) == run_end(s@, i as int, |c: char| int_char(c)),
        decreases s.len() - e,
    {
        e += 1;
    }
    e
}

/// Value of the integer literal `s[i..e]`, or `None` when it exceeds `i64::MAX`.
fn int_literal(s: &[char], i: usize, e: usize) -> (r: Option<i64>)
    requires
        i <= e <= s.len(),
        forall|k: int| i <= k < e ==> int_char(#[trigger] s@[k]),
    ensures
        match r {
            Some(v) => v as int == int_value(s@.subrange(i as int, e as int)),
            None => int_value(s@.subrange(i as int, e as int)) > i64::MAX,
        },
{
    let ghost d = s@.subrange(i as int, e as int);
    assert forall|j: int| 0 <= j < d.len() implies int_char(#[trigger] d[j]) by {
        assert(d[j] == s@[i + j]);
    }
    let mut v: i64 = 0;
    let mut k = i;
    assert(d.take(0) =~= Seq::<char>::empty());
    while k < e
        invariant
            i <= k <= e <= s.len(),
            d == s@.subrange(i as int, e as int),
            forall|j: int| 0 <= j < d.len() ==> int_char(#[trigger] d[j]),
            v as int == int_value(d.take(k - i)),
        decreases e - k,
    {
        let c = s[k];
        let ghost p = d.take(k - i + 1);
        assert(p.drop_last() =~= d.take(k - i));
        assert(p.last() == c);
        if c != '_' {
            let digit = (c as u32 - '0' as u32) as i64;
            match v.checked_mul(10) {
                Some(m) => match m.checked_add(digit) {
                    Some(n) => {
                        v = n;
                    },
                    None => {
                        proof {
                            lemma_int_value_monotone(d, k - i + 1);
                        }
                        return None;
                    },
                },
                None => {
                    proof {
                        lemma_int_value_monotone(d, k - i + 1);
                    }
                    return None;
                },
            }
        }
        k += 1;
    }
    proof {
        assert(d.take(e - i) =~= d);
    }
    Some(v)
}

fn escaped_c(c: char) -> (r: char)
    ensures
        r == escaped(c),
{
    if c == 'n' { '\n' } else if c == 't' { '\t' } else { c }
}

/// Resolves the escapes of the literal content `s[a..b]`.
fn unescape_x(s: &[char], a: usize, b: usize) -> (r: Vec<char>)
    requires
        a <= b <= s.len(),
    ensures
        r@ == unescape(s@.subrange(a as int, b as int)),
{
    let ghost t = s@.subrange(a as int, b as int);
    let mut out: Vec<char> = Vec::new();
    let mut k = a;
    assert(t.skip(0) =~= t);
    while k < b
        invariant
            a <= k <= b <= s.len(),
            t == s@.subrange(a as int, b as int),
            out@ + unescape(t.skip(k - a)) == unescape(t),
        decreases b - k,
    {
        let ghost rest = t.skip(k - a);
        assert(rest[0] == s@[k as int]);
        if s[k] == '\\' {
            if k + 1 < b {
                assert(rest[1] == s@[k + 1]);
                assert(rest.skip(2) =~= t.skip(k + 2 - a));
                out.push(escaped_c(s[k + 1]));
                proof {
                    assert(out@ + unescape(t.skip(k + 2 - a)) =~= out@.drop_last() + unescape(rest));
                }
                k += 2;
            } else {
                proof {
                    assert(unescape(rest) =~= Seq::<char>::empty());
                    assert(t.skip(b - a) =~= Seq::<char>::empty());
                }
                k = b;
            }
        } else {
            assert(rest.skip(1) =~= t.skip(k + 1 - a));
            out.push(s[k]);
            proof {
                assert(out@ + unescape(t.skip(k + 1 - a)) =~= out@.drop_last() + unescape(rest));
            }
            k += 1;
        }
    }
    proof {
        assert(t.skip(b - a) =~= Seq::<char>::empty());
        assert(out@ + Seq::<char>::empty() =~= out@);
    }
    out
}

fn string_close_x(s: &[char], k0: usize) -> (r: Option<usize>)
    requires
        k0 <= s.len(),
    ensures
        match r {
            Some(k) => string_close(s@, k0 as int) == Some(k as int),
            None => string_close(s@, k0 as int) is None,
        },
{
    let mut k = k0;
    while k < s.len()
        invariant
            k0 <= k,
            string_close(s@, k as int) == string_close(s@, k0 as int),
        decreases s.len() - k,
    {
        if s[k] == '"' {
            return Some(k);
        } else if s[k] == '\\' {
            if k + 1 < s.len() && s[k + 1] != '\n' {
                k += 2;
            } else {
                return None;
            }
        } else {
            k += 1;
        }
    }
    None
}

/// The token starting at `i`, with its length.
fn token_at(s: &[char], i: usize) -> (r: Option<(Token, usize)>)
    requires
        i < s.len(),
    ensures
        match r {
            Some((t, n)) => token_spec(s@, i as int) == Some((t@, n as nat)),
            None => token_spec(s@, i as int) is None,
        },
{
    let c = s[i];
    if ident_start_c(c) {
        let e = run_ident(s, i);
        proof {
            lemma_run_end(s@, i as int, |c: char| ident_char(c));
        }
        let w = &s[i..e];
        assert(w@ == s@.subrange(i as int, e as int));
        match keyword(w) {
            Some(k) => Some((k, e - i)),
            None => Some((Token::Ident(string_of(w)), e - i)),
        }
    } else if is_digit_c(c) {
        let e = run_int(s, i);
        proof {
            lemma_run_end(s@, i as int, |c: char| int_char(c));
        }
        match int_literal(s, i, e) {
            Some(v) => Some((Token::Int(v), e - i)),
            None => None,
        }
    } else if c == '"' {
        match string_close_x(s, i + 1) {
            Some(k) => {
                proof {
                    lemma_string_close(s@, i + 1);
                }
                let body = unescape_x(s, i + 1, k);
                Some((Token::Str(string_of(body.as_slice())), k + 1 - i))
            },
            None => None,
        }
    } else {
        symbol(s, i)
    }
}

/// Tokenizes a whole source (the header line is an ordinary comment).
///
/// # Errors
/// [`LexError`] at the first character where no token starts.
pub fn tokenize(src: &str) -> (r: Result<Vec<Spanned>, LexError>)
    requires
        src@.len() < u32::MAX,
    ensures
        match r {
            Ok(v) => tokens_of(src@) == Ok::<Seq<SpannedV>, (nat, nat)>(v@.map_values(|x: Spanned| x@)),
            Err(e) => tokens_of(src@) == Err::<Seq<SpannedV>, (nat, nat)>((e.line as nat, e.col as nat)),
        },
{
    let chars = chars_of(src);
    let s = chars.as_slice();
    let mut out: Vec<Spanned> = Vec::new();
    let mut i: usize = 0;
    let mut line: u64 = 1;
    let mut col: u64 = 1;
    while i < s.len()
        invariant
            i <= s.len(),
            s@ == src@,
            s.len() < u32::MAX,
            (line as nat, col as nat) == pos_at(s@, i as int),
            tokens_of(s@) == match lex_from(s@, i as int) {
                Ok(rest) => Ok(out@.map_values(|x: Spanned| x@) + rest),
                Err(e) => Err::<Seq<SpannedV>, (nat, nat)>(e),
            },
        decreases s.len() - i,
    {
        let j = skip_trivia_x(s, i);
        proof {
            lemma_skip_trivia(s@, i as int);
        }
        let (l, c) = advance(s, i, j, line, col);
        proof {
            lemma_pos_bound(s@, j as int);
        }
        if j >= s.len() {
            proof {
                assert(lex_from(s@, j as int) == Ok::<Seq<SpannedV>, (nat, nat)>(Seq::empty()));
                assert(out@.map_values(|x: Spanned| x@) + Seq::<SpannedV>::empty() =~= out@.map_values(|x: Spanned| x@));
            }
            return Ok(out);
        }
        proof {
            lemma_token_len(s@, j as int);
        }
        match token_at(s, j) {
            None => {
                return Err(LexError { line: l as u32, col: c as u32 });
            },
            Some((tok, n)) => {
                let ghost tv = tok@;
                let sp = Spanned { tok, line: l as u32, col: c as u32 };
                let ghost old_out = out@.map_values(|x: Spanned| x@);
                out.push(sp);
                proof {
                    assert(out@.map_values(|x: Spanned| x@) =~= old_out.push(sp@));
                    match lex_from(s@, j + n) {
                        Ok(rest) => {
                            assert(old_out + (seq![sp@] + rest) =~= old_out.push(sp@) + rest);
                        },
                        Err(e) => {},
                    }
                }
                let (l2, c2) = advance(s, j, j + n, l, c);
                line = l2;
                col = c2;
                i = j + n;
            },
        }
    }
    proof {
        assert(lex_from(s@, i as int) == Ok::<Seq<SpannedV>, (nat, nat)>(Seq::empty()));
        assert(out@.map_values(|x: Spanned| x@) + Seq::<SpannedV>::empty() =~= out@.map_values(|x: Spanned| x@));
    }
    Ok(out)
}

} // verus!
