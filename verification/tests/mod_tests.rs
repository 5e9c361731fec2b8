use editor_lib::export::{
    escape, export_result, install_notes, pak_entry_name, pak_file_name, plan_export, rewrite,
    sanitize, ExportRequest, PassiveEdit, Rule, SkillEdit,
};
use editor_lib::import::{diff, has_xml_extension, import_file, rel_from_path, ImportResult};

const SKILL_FILE: &str = "Skills/NewSkills/Player/Player_Lac.xml";
const PASSIVE_FILE: &str = "Gameplay/Passive/PST/Effects.xml";

const SKILL_XML: &str = r#"<Skills><Skill UID="Lac_variant_1"><Cooldown Value="1.5" Other="x"/></Skill><Skill UID="Lac_variant_2"><Cooldown Value="3"/></Skill></Skills>"#;

const PASSIVE_XML: &str = r#"<Root>
  <Spell Name="node1">
    <EIM Name="eim1"><Semantics Value="5" Chance="10"/></EIM>
    <EIM Name="eim2"><Semantics Value="6"/></EIM>
  </Spell>
</Root>"#;

fn skill_rule(uid: &str, element: &str, attr: &str, value: &str) -> Rule {
    Rule::Skill {
        uid: uid.to_string(),
        element: element.to_string(),
        attr: attr.to_string(),
        value: value.to_string(),
    }
}

fn passive_rule(node: &str, eim: &str, attr: &str, value: &str) -> Rule {
    Rule::Passive {
        node: node.to_string(),
        eim: eim.to_string(),
        attr: attr.to_string(),
        value: value.to_string(),
    }
}

#[test]
fn mod_names() {
    assert_eq!(sanitize("My Cool Mod!"), "My_Cool_Mod");
    assert_eq!(sanitize("__a-b__"), "a-b");
    assert_eq!(sanitize("!!!"), "MyWolcenMod");
    assert_eq!(sanitize(""), "MyWolcenMod");
    assert_eq!(sanitize("Mod é 2"), "Mod_é_2");
    assert_eq!(sanitize(" My Mod! "), "My_Mod");
    assert_eq!(sanitize("a/b\\c.d:e f"), "a_b_c_d_e_f");
    assert_eq!(sanitize(&sanitize("  x  y  ")), sanitize("  x  y  "));
    assert_eq!(pak_file_name("M"), "zzz_M.pak");
    assert_eq!(pak_entry_name("Skills/a.xml"), "Umbra/Skills/a.xml");
}

#[test]
fn attribute_escaping() {
    assert_eq!(escape(r#"a<b>&'""#), "a&lt;b&gt;&amp;&apos;&quot;");
    assert_eq!(escape("plain"), "plain");
}

#[test]
fn rewrite_skill_rule() {
    let rules = vec![skill_rule("Lac_variant_1", "Cooldown", "Value", "2")];
    match rewrite(SKILL_XML, &rules) {
        Ok((text, n)) => {
            assert_eq!(n, 1);
            assert_eq!(
                text,
                r#"<Skills><Skill UID="Lac_variant_1"><Cooldown Value="2" Other="x"/></Skill><Skill UID="Lac_variant_2"><Cooldown Value="3"/></Skill></Skills>"#
            );
        },
        Err(e) => panic!("rewrite failed: {}", e.message),
    }
}

#[test]
fn rewrite_without_rules_keeps_text() {
    match rewrite(PASSIVE_XML, &Vec::new()) {
        Ok((text, n)) => {
            assert_eq!(n, 0);
            assert_eq!(text, PASSIVE_XML);
        },
        Err(_) => panic!("rewrite failed"),
    }
}

#[test]
fn rewrite_passive_rule_escapes_value() {
    let rules = vec![passive_rule("node1", "eim1", "Chance", "a<b"), passive_rule("node1", "eim9", "Value", "1")];
    match rewrite(PASSIVE_XML, &rules) {
        Ok((text, n)) => {
            assert_eq!(n, 1);
            assert!(text.contains(r#"<Semantics Value="5" Chance="a&lt;b"/>"#));
            assert!(text.contains(r#"<Semantics Value="6"/>"#));
        },
        Err(_) => panic!("rewrite failed"),
    }
}

#[test]
fn rewrite_refuses_malformed_xml() {
    assert!(rewrite("<a></b>", &Vec::new()).is_err());
}

#[test]
fn export_plan_groups_files() {
    let req = ExportRequest {
        mod_name: "Test Mod".to_string(),
        skill_edits: vec![
            SkillEdit {
                file: "b.xml".to_string(),
                uid: "u1".to_string(),
                element: "E".to_string(),
                attr: "A".to_string(),
                value: "1".to_string(),
            },
            SkillEdit {
                file: "a.xml".to_string(),
                uid: "u2".to_string(),
                element: "E".to_string(),
                attr: "A".to_string(),
                value: "2".to_string(),
            },
        ],
        passive_edits: vec![PassiveEdit {
            file: "b.xml".to_string(),
            node: "n".to_string(),
            eim: "e".to_string(),
            attr: "A".to_string(),
            value: "3".to_string(),
        }],
    };
    let plan = plan_export(req);
    assert_eq!(plan.mod_name, "Test_Mod");
    assert_eq!(plan.files.len(), 2);
    assert_eq!(plan.files[0].file, "a.xml");
    assert_eq!(plan.files[0].rules.len(), 1);
    assert_eq!(plan.files[1].file, "b.xml");
    assert_eq!(plan.files[1].rules.len(), 2);
    assert!(matches!(&plan.files[1].rules[0], Rule::Skill { uid, .. } if uid == "u1"));
    assert!(matches!(&plan.files[1].rules[1], Rule::Passive { node, .. } if node == "n"));
    let r = export_result("p.pak".to_string(), "dir".to_string(), &plan, &vec![1, 4]);
    assert_eq!(r.pak, "p.pak");
    assert_eq!(r.folder, "dir");
    assert_eq!(r.files, 2);
    assert_eq!(r.changes, 5);
    let capped = export_result(String::new(), String::new(), &plan, &vec![usize::MAX, 1]);
    assert_eq!(capped.changes, usize::MAX);
}

#[test]
fn install_notes_text() {
    let t = install_notes("M", 2, 7);
    assert_eq!(
        t,
        "Wolcen mod: M\r\n\r\nInstall (pick ONE):\r\n\r\nA) LOOSE FILES (Nexus style, recommended): copy the \"Umbra\" folder into\r\n   <Wolcen>\\Game\\   (you'll get <Wolcen>\\Game\\Umbra\\Skills\\...)\r\n\r\nB) PAK: copy \"zzz_M.pak\" into <Wolcen>\\Game\\\r\n\r\nUninstall: delete the files you copied (A) or the pak (B).\r\nFiles changed: 2  |  Attribute edits: 7\r\n"
    );
}

#[test]
fn diff_finds_skill_edit() {
    let modx = SKILL_XML.replace("Value=\"1.5\"", "Value=\"2\"").replace("Other=\"x\"", "Other=\"y\"");
    let mut out = ImportResult::new();
    assert!(diff(SKILL_XML, &modx, &SKILL_FILE.to_string(), &mut out));
    assert_eq!(out.skill_edits.len(), 1);
    let e = &out.skill_edits[0];
    assert_eq!(e.file, SKILL_FILE);
    assert_eq!(e.uid, "Lac_variant_1");
    assert_eq!(e.element, "Cooldown");
    assert_eq!(e.attr, "Value");
    assert_eq!(e.value, "2");
    assert_eq!(out.total(), 1);
}

#[test]
fn diff_of_identical_files_is_empty() {
    let mut out = ImportResult::new();
    assert!(diff(PASSIVE_XML, PASSIVE_XML, &PASSIVE_FILE.to_string(), &mut out));
    assert_eq!(out.total(), 0);
}

#[test]
fn diff_finds_passive_and_player_edits() {
    let modx = PASSIVE_XML.replace("Value=\"6\"", "Value=\"6.5\"");
    let mut out = ImportResult::new();
    assert!(diff(PASSIVE_XML, &modx, &PASSIVE_FILE.to_string(), &mut out));
    assert_eq!(out.passive_edits.len(), 1);
    let p = &out.passive_edits[0];
    assert_eq!(p.node, "node1");
    assert_eq!(p.eim, "eim2");
    assert_eq!(p.attr, "Value");
    assert_eq!(p.value, "6.5");

    let orig = "<CharacterSheet><PlayerStats><Health Base=\"100\"/></PlayerStats></CharacterSheet>";
    let modp = orig.replace("100", "150");
    let mut out = ImportResult::new();
    assert!(diff(orig, &modp, &"CharacterSheets/Player/DefaultSheet.xml".to_string(), &mut out));
    assert_eq!(out.player_edits.len(), 1);
    assert_eq!(out.player_edits[0].element, "Health");
    assert_eq!(out.player_edits[0].value, "150");
}

#[test]
fn diff_stops_where_structure_diverges() {
    let orig = "<a><b X=\"1\"/><c Y=\"1\"/></a>";
    let modx = "<a><b X=\"2\"></b><c Y=\"2\"/></a>";
    let mut out = ImportResult::new();
    assert!(diff(orig, modx, &"CharacterSheets/Player/DefaultSheet.xml".to_string(), &mut out));
    assert_eq!(out.total(), 0);
}

#[test]
fn diff_reports_read_errors() {
    let mut out = ImportResult::new();
    assert!(!diff("<a X=\"1\"></b>", "<a X=\"2\"></b>", &"CharacterSheets/Player/DefaultSheet.xml".to_string(), &mut out));
}

#[test]
fn import_counts_and_skips() {
    let mut out = ImportResult::new();
    import_file(&mut out, "x/Missing.xml".to_string(), None, Some("<a/>"));
    assert_eq!(out.skipped, vec!["x/Missing.xml"]);
    assert_eq!(out.files, 0);
    let modx = SKILL_XML.replace("Value=\"3\"", "Value=\"4\"");
    import_file(&mut out, SKILL_FILE.to_string(), Some(SKILL_XML), Some(&modx));
    assert_eq!(out.files, 1);
    assert_eq!(out.skill_edits.len(), 1);
    assert_eq!(out.skill_edits[0].uid, "Lac_variant_2");
    import_file(&mut out, SKILL_FILE.to_string(), Some(SKILL_XML), Some(SKILL_XML));
    assert_eq!(out.files, 1);
    import_file(&mut out, SKILL_FILE.to_string(), Some(SKILL_XML), None);
    assert_eq!(out.files, 1);
}

#[test]
fn export_then_import_round_trip() {
    let rules = vec![
        skill_rule("Lac_variant_1", "Cooldown", "Value", "0.75"),
        skill_rule("Lac_variant_2", "Cooldown", "Value", "3"),
    ];
    let (text, n) = match rewrite(SKILL_XML, &rules) {
        Ok(r) => r,
        Err(_) => panic!("rewrite failed"),
    };
    assert_eq!(n, 2);
    let mut out = ImportResult::new();
    import_file(&mut out, SKILL_FILE.to_string(), Some(SKILL_XML), Some(&text));
    assert_eq!(out.files, 1);
    assert_eq!(out.skill_edits.len(), 1);
    let e = &out.skill_edits[0];
    assert_eq!((e.uid.as_str(), e.element.as_str(), e.attr.as_str(), e.value.as_str()), ("Lac_variant_1", "Cooldown", "Value", "0.75"));
}

#[test]
fn mod_paths() {
    let comps: Vec<String> = ["C:", "mods", "M", "umbra", "Skills", "a.xml"].iter().map(|s| s.to_string()).collect();
    assert_eq!(rel_from_path(&comps), Some("Skills/a.xml".to_string()));
    let none: Vec<String> = ["C:", "mods", "Umbra"].iter().map(|s| s.to_string()).collect();
    assert_eq!(rel_from_path(&none), None);
    let other: Vec<String> = ["x", "y.xml"].iter().map(|s| s.to_string()).collect();
    assert_eq!(rel_from_path(&other), None);
    assert!(has_xml_extension("a.xml"));
    assert!(!has_xml_extension("a.XML"));
    assert!(!has_xml_extension(".xml"));
    assert!(!has_xml_extension("xml"));
    assert!(has_xml_extension("a.b.xml"));
}
