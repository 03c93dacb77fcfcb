use cadernis::lsp::{analyze, completion_labels, definition, hover_text, symbols, word_at};

const DOPEULS: &str = "// gg wp
serveur incarnam

bot tuer_dopeul() : kamas, coute 4 pa, cd 2 {
    gg butin(50, 200)
}

connexion {
    loot total : kamas = 0

    farm total < 1_000_000 et suspicion < 80 {
        tour {
            detect pa >= 4 et cd_pret(tuer_dopeul) {
                total += tuer_dopeul()
            } sinon {
                afk rand(2000, 5000)
            }
        }
        passer
    }

    detect total >= 1_000_000 {
        up \"objectif atteint gg\"
    } sinon {
        up \"compte banni rip\"
    }
}
";

const TROP_GOURMAND: &str = "// gg wp
connexion {
    loot x = 0
    tour {
        x = 1
        x = 2
        x = 3
        x = 4
        x = 5
        x = 6
        x = 7
    }
    passer
}
";

#[test]
fn analyse_golden_sans_diag() {
    assert!(analyze(DOPEULS).diags.is_empty());
}

#[test]
fn symboles_golden() {
    let sy = symbols(DOPEULS);
    assert_eq!(sy.bots.get("tuer_dopeul").map(|(_, _, c)| c), Some(4));
    assert_eq!(sy.tours.len(), 1);
    assert_eq!(sy.tours[0].pa, 5);
}

#[test]
fn analyse_sans_entete() {
    let a = analyze("connexion {}");
    assert!(a.diags.iter().any(|d| d.msg.contains("candidature")));
}

#[test]
fn analyse_e_pa() {
    let a = analyze(TROP_GOURMAND);
    assert!(a.diags.iter().any(|d| d.code.as_deref() == Some("E-PA")));
}

#[test]
fn completions_incluent_keywords_et_bots() {
    let c = completion_labels("// gg wp\nbot frappe() {}\nconnexion {}");
    assert!(c.contains(&"detect".to_string()));
    assert!(c.contains(&"butin".to_string()));
    assert!(c.contains(&"frappe".to_string()));
}

#[test]
fn completions_triees_sans_doublon() {
    let c = completion_labels("// gg wp\nbot detect() {}\nconnexion {}");
    for w in c.windows(2) {
        assert!(w[0] < w[1]);
    }
    assert_eq!(c.iter().filter(|l| l.as_str() == "detect").count(), 1);
}

#[test]
fn analyse_erreur_de_syntaxe_localisee() {
    let a = analyze("// gg wp\nconnexion");
    assert_eq!(a.diags.len(), 1);
    assert_eq!(a.diags[0].line, 2);
    assert_eq!(a.diags[0].code, None);
}

#[test]
fn mot_sous_le_curseur() {
    let text = "// gg wp\nbot tuer_dopeul() {}";
    assert_eq!(word_at(text, 1, 6), Some("tuer_dopeul".to_string()));
    assert_eq!(word_at(text, 1, 4), Some("tuer_dopeul".to_string()));
    assert_eq!(word_at(text, 1, 3), Some("bot".to_string()));
    assert_eq!(word_at(text, 1, 17), None);
    assert_eq!(word_at(text, 5, 0), None);
    assert_eq!(word_at(text, 1, 200), None);
}

#[test]
fn survol_d_un_bot_et_d_un_tour() {
    let sy = symbols(DOPEULS);
    assert_eq!(
        hover_text(&sy, &"tuer_dopeul".to_string(), 0),
        Some("**bot `tuer_dopeul`** — coût **4 PA** ✅".to_string())
    );
    assert_eq!(
        hover_text(&sy, &"tour".to_string(), 11),
        Some("**tour** — **5/6 PA** · **1/3 PM** ✅".to_string())
    );
    assert_eq!(hover_text(&sy, &"tour".to_string(), 13), None);
    assert_eq!(hover_text(&sy, &"total".to_string(), 9), None);
}

#[test]
fn survol_d_un_tour_trop_gourmand() {
    let sy = symbols(TROP_GOURMAND);
    assert_eq!(
        hover_text(&sy, &"tour".to_string(), 3),
        Some("**tour** — **7/6 PA** · **0/3 PM** ❌ dépasse le budget".to_string())
    );
}

#[test]
fn definition_d_un_bot_et_d_un_pano() {
    let src = "// gg wp\nbot frappe() {}\npano Etat { A, B }\nconnexion {}";
    let sy = symbols(src);
    assert_eq!(definition(&sy, &"frappe".to_string()), Some((2, 1)));
    assert_eq!(definition(&sy, &"Etat".to_string()), Some((3, 1)));
    assert_eq!(definition(&sy, &"rien".to_string()), None);
}

#[test]
fn mot_avec_lettres_accentuees() {
    let text = "// gg wp\nloot été = 1";
    assert_eq!(word_at(text, 1, 6), Some("été".to_string()));
    assert_eq!(word_at(text, 1, 9), None);
}
