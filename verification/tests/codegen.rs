use cadernis::codegen::{emit_ir, RUNTIME_DECLS};
use cadernis::parser::parse;

fn ir(src: &str) -> Result<String, String> {
    let prog = parse(src).expect("parse");
    emit_ir(&prog, 0)
}

const MAIN_HEAD: &str = "define i32 @main() {\nentry:\n  call void @cdc_rt_banner()\n  %rt = call ptr @cdc_rt_new(i64 0, i64 0)\n";
const MAIN_TAIL: &str = "  br label %exit\nexit:\n  call void @cdc_rt_free(ptr %rt)\n  ret i32 0\n}\n";

#[test]
fn ir_d_un_up() {
    let out = ir("// gg wp\nconnexion { up \"a\" }").unwrap();
    let expected = format!(
        "{RUNTIME_DECLS}{MAIN_HEAD}  call void @cdc_rt_up(ptr %rt, ptr @s0, i64 1)\n{MAIN_TAIL}@s0 = private unnamed_addr constant [1 x i8] c\"\\61\"\n"
    );
    assert_eq!(out, expected);
}

#[test]
fn ir_d_un_bot_et_de_son_appel() {
    let out = ir("// gg wp\nbot f(n : kamas) : kamas { gg n + 1 }\nconnexion { loot x = f(2) }").unwrap();
    let bot = "define i64 @\"cdl_bot_f\"(ptr %rt, i64 %p0) {\nentry:\n  %v0 = alloca i64\n  store i64 %p0, ptr %v0\n  %t1 = load i64, ptr %v0\n  %t2 = add i64 %t1, 1\n  ret i64 %t2\n}\n\n";
    let main = "  call void @cdc_rt_guard_cd(ptr %rt, ptr @s0, i64 1)\n  call void @cdc_rt_act_bot(ptr %rt, ptr @s0, i64 1)\n  call void @cdc_rt_set_cooldown(ptr %rt, ptr @s0, i64 1, i64 0)\n  %t3 = call i64 @\"cdl_bot_f\"(ptr %rt, i64 2)\n  %v4 = alloca i64\n  store i64 %t3, ptr %v4\n";
    let expected = format!(
        "{RUNTIME_DECLS}{bot}{MAIN_HEAD}{main}{MAIN_TAIL}@s0 = private unnamed_addr constant [1 x i8] c\"\\66\"\n"
    );
    assert_eq!(out, expected);
}

#[test]
fn ir_tour_debite_le_budget() {
    let out = ir("// gg wp\nconnexion {\n loot x = 0\n tour { x += 1 }\n passer\n}").unwrap();
    let body = "  %v0 = alloca i64\n  store i64 0, ptr %v0\n  call void @cdc_rt_start_turn(ptr %rt)\n  call void @cdc_rt_pm_touch(ptr %rt, i64 0)\n  %t1 = load i64, ptr %v0\n  %t2 = add i64 %t1, 1\n  call void @cdc_rt_spend_assign(ptr %rt)\n  store i64 %t2, ptr %v0\n  call void @cdc_rt_end_turn(ptr %rt)\n";
    assert_eq!(out, format!("{RUNTIME_DECLS}{MAIN_HEAD}{body}{MAIN_TAIL}"));
}

#[test]
fn ir_detect_et_condition_gratuite() {
    let out = ir("// gg wp\nconnexion {\n loot x = 0\n tour { detect x < 3 { afk 10 } }\n}").unwrap();
    let body = "  %v0 = alloca i64\n  store i64 0, ptr %v0\n  call void @cdc_rt_start_turn(ptr %rt)\n  %t1 = load i64, ptr %v0\n  %t2 = icmp slt i64 %t1, 3\n  %t3 = zext i1 %t2 to i64\n  %t4 = icmp ne i64 %t3, 0\n  br i1 %t4, label %L5, label %L6\nL5:\n  call void @cdc_rt_afk(ptr %rt, i64 10)\n  br label %L7\nL6:\n  br label %L7\nL7:\n";
    assert_eq!(out, format!("{RUNTIME_DECLS}{MAIN_HEAD}{body}{MAIN_TAIL}"));
}

#[test]
fn ir_chaine_utf8() {
    let out = ir("// gg wp\nconnexion { up \"é\" }").unwrap();
    assert!(out.contains("call void @cdc_rt_up(ptr %rt, ptr @s0, i64 2)"));
    assert!(out.ends_with("@s0 = private unnamed_addr constant [2 x i8] c\"\\C3\\A9\"\n"));
}

#[test]
fn ir_seed_du_programme() {
    let out = ir("// gg wp\n#seed 42\nconnexion {}").unwrap();
    assert!(out.contains("%rt = call ptr @cdc_rt_new(i64 1, i64 42)\n"));
}

#[test]
fn ir_tag_de_pano_selon_le_patch() {
    let src = "// gg wp\npano Etat { A, @0 B }\nconnexion { afk Etat.B }";
    let out = ir(src).unwrap();
    assert!(out.contains("call void @cdc_rt_afk(ptr %rt, i64 0)"));
}

#[test]
fn construction_perso_rejetee() {
    let e = ir("// gg wp\nperso H { a : kamas }\nconnexion { loot h = H { a: 1 } }").unwrap_err();
    assert!(e.contains("backend natif"));
}

#[test]
fn up_non_litteral_rejete() {
    let e = ir("// gg wp\nconnexion { up 3 }").unwrap_err();
    assert_eq!(e, "« up » n'accepte qu'un littéral chaîne dans le backend natif");
}

#[test]
fn sans_connexion_rejete() {
    assert_eq!(ir("// gg wp\nbot f() {}").unwrap_err(), "aucune connexion (point d'entrée)");
}

#[test]
fn epinglage_invalide_rejete() {
    assert_eq!(
        ir("// gg wp\npano P { @3 A }\nconnexion {}").unwrap_err(),
        "pano « P » : tag épinglé @3 hors plage 0..1 (variant #0)"
    );
}

#[test]
fn gg_dans_connexion_sort() {
    let out = ir("// gg wp\nconnexion { gg }").unwrap();
    assert_eq!(
        out,
        format!("{RUNTIME_DECLS}{MAIN_HEAD}  br label %exit\nexit:\n  call void @cdc_rt_free(ptr %rt)\n  ret i32 0\n}}\n")
    );
}

#[test]
fn golden_compile_en_ir() {
    let src = "// gg wp
serveur incarnam

bot tuer_dopeul() : kamas, coute 4 pa, cd 2 {
    gg butin(50, 200)
}

connexion {
    loot total : kamas = 0

    farm total < 1_000_000 et suspicion < 80 {
        tour {
            detect pa >= 4 et cd_pret(tuer_dopeul) {
                total += tuer_dopeul()
            } sinon {
                afk rand(2000, 5000)
            }
        }
        passer
    }

    detect total >= 1_000_000 {
        up \"objectif atteint gg\"
    } sinon {
        up \"compte banni rip\"
    }
}
";
    let out = ir(src).unwrap();
    assert!(out.contains("define i64 @\"cdl_bot_tuer_dopeul\"(ptr %rt) {"));
    assert!(out.contains("call i64 @cdc_rt_butin(ptr %rt, i64 50, i64 200)"));
    assert!(out.contains("call void @cdc_rt_spend_pa(ptr %rt, i64 4)"));
    assert!(out.contains("call void @cdc_rt_set_cooldown(ptr %rt, ptr @s1, i64 11, i64 2)"));
    assert!(out.contains("call i64 @cdc_rt_rand(ptr %rt, i64 2000, i64 5000)"));
    assert!(out.contains("@s2 = private unnamed_addr constant [19 x i8] c\"\\6F\\62\\6A"));
}
