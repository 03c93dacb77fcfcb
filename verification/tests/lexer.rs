use cadernis::lexer::{tokenize, verify_header, HeaderError, LexError, Token};

#[test]
fn header_valide() {
    assert!(verify_header("// gg wp\nconnexion {}\n").is_ok());
}

#[test]
fn header_valide_crlf() {
    assert!(verify_header("// gg wp\r\nconnexion {}\r\n").is_ok());
}

#[test]
fn header_absent() {
    assert_eq!(verify_header("connexion {}\n"), Err(HeaderError));
}

#[test]
fn header_presque_bon() {
    assert_eq!(verify_header("//gg wp\n"), Err(HeaderError));
    assert_eq!(verify_header("// GG WP\n"), Err(HeaderError));
}

#[test]
fn source_vide() {
    assert_eq!(verify_header(""), Err(HeaderError));
}

#[test]
fn underscores_dans_entiers() {
    let toks = tokenize("// gg wp\n1_000_000").unwrap();
    assert_eq!(toks.last().unwrap().tok, Token::Int(1_000_000));
}

#[test]
fn mots_cles_vs_identifiants() {
    let toks = tokenize("// gg wp\nbot total").unwrap();
    assert_eq!(toks[0].tok, Token::Bot);
    assert_eq!(toks[1].tok, Token::Ident("total".to_string()));
}

#[test]
fn operateurs_longest_match() {
    let toks = tokenize("// gg wp\n<= < += =").unwrap();
    let kinds: Vec<_> = toks.into_iter().map(|s| s.tok).collect();
    assert_eq!(kinds, vec![Token::Le, Token::Lt, Token::PlusEq, Token::Eq]);
}

#[test]
fn commentaires_ignores_et_position() {
    let toks = tokenize("// gg wp\n// note\npasser").unwrap();
    assert_eq!(toks.len(), 1);
    assert_eq!(toks[0].tok, Token::Passer);
    assert_eq!(toks[0].line, 3);
}

#[test]
fn chaine_avec_echappement() {
    let toks = tokenize("// gg wp\n\"a\\nb\"").unwrap();
    assert_eq!(toks.last().unwrap().tok, Token::Str("a\nb".to_string()));
}

#[test]
fn caractere_invalide() {
    assert!(tokenize("// gg wp\n%").is_err());
}

#[test]
fn position_du_caractere_invalide() {
    assert_eq!(tokenize("// gg wp\nloot x = %"), Err(LexError { line: 2, col: 10 }));
}

#[test]
fn entete_seule_sans_jeton() {
    assert_eq!(tokenize("// gg wp\n").unwrap().len(), 0);
}

#[test]
fn colonnes_des_jetons() {
    let toks = tokenize("// gg wp\nloot  total").unwrap();
    assert_eq!(toks[0].col, 1);
    assert_eq!(toks[1].col, 7);
    assert_eq!(toks[1].line, 2);
}

#[test]
fn pragma_et_epinglage() {
    let toks = tokenize("// gg wp\n#seed 42 @2").unwrap();
    let kinds: Vec<_> = toks.into_iter().map(|s| s.tok).collect();
    assert_eq!(kinds, vec![Token::Hash, Token::Ident("seed".to_string()), Token::Int(42), Token::At, Token::Int(2)]);
}
