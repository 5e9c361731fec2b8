use editor_lib::localization::{load_active_skills, load_eim, load_passive_skills, Strings};
use editor_lib::passives::{get_section, list_sections, section_file, split_unlock};
use editor_lib::player::get_player_stats;
use editor_lib::skills::{
    get_skill, internal_from_file, is_presentational, list_skills, parse_variants, skill_file,
    variant_number, SkillError,
};

const SHEET: &str = r#"<?xml version="1.0"?>
<Workbook xmlns="urn:schemas-microsoft-com:office:spreadsheet" xmlns:ss="urn:schemas-microsoft-com:office:spreadsheet">
 <Worksheet ss:Name="Sheet1">
  <Table>
   <Row><Cell><Data ss:Type="String">ui_AST_Laceration</Data></Cell><Cell><Data ss:Type="String">Bleeding Edge</Data></Cell></Row>
   <Row><Cell><Data>ui_Variant_Laceration_variant_2</Data></Cell><Cell><Data>Open Wounds</Data></Cell></Row>
   <Row><Cell><Data>ui_Variant_Laceration_variant_2_desc</Data></Cell><Cell><Data>More &amp; more</Data></Cell></Row>
   <Row><Cell><Data></Data></Cell><Cell><Data>no key</Data></Cell></Row>
   <Row><Cell><Data>only_key</Data></Cell></Row>
   <Row><Cell><Data>ui_AST_Aether</Data></Cell><Cell><Data>first</Data></Cell></Row>
   <Row><Cell><Data>ui_AST_Aether</Data></Cell><Cell><Data>Aether Blast</Data></Cell></Row>
  </Table>
 </Worksheet>
</Workbook>"#;

const SKILL: &str = r#"<Skills>
  <Skill UID="Laceration">
    <Damage Base="10"/>
  </Skill>
  <Skill UID="Laceration_variant_2">
    <BaseDamageMultiplier AdditionalMultiplierFactorPerAilmentStack="0.05" MaxAdditionalMultiplierFactorFromAilmentStacks="2" Name="x"/>
    <HUD Icon="3"/>
    <Damage_Conversion Percent="50">
      <Inner Value="7"/>
    </Damage_Conversion>
  </Skill>
  <Skill UID="Laceration_variant_1">
    <Cooldown Value="1.5"/>
  </Skill>
</Skills>"#;

fn strings() -> Strings {
    match load_active_skills(SHEET) {
        Ok(s) => s,
        Err(e) => panic!("sheet should parse: {}", e.message),
    }
}

#[test]
fn sheet_rows_map_keys() {
    let s = strings();
    assert_eq!(s.get("ui_AST_Laceration"), Some("Bleeding Edge"));
    assert_eq!(s.get("ui_Variant_Laceration_variant_2_desc"), Some("More & more"));
    assert_eq!(s.get("only_key"), None);
    assert_eq!(s.get(""), None);
    assert_eq!(s.get("ui_AST_Aether"), Some("Aether Blast"));
}

#[test]
fn at_prefix_is_ignored() {
    let s = strings();
    assert_eq!(s.get("@ui_AST_Laceration"), Some("Bleeding Edge"));
    assert_eq!(s.get("@@ui_AST_Laceration"), None);
    assert_eq!(s.get_or("@missing", "fallback"), "fallback");
    assert_eq!(s.get_or("ui_AST_Laceration", "fallback"), "Bleeding Edge");
}

#[test]
fn optional_sheets() {
    match load_passive_skills(None) {
        Ok(s) => assert_eq!(s.get("anything"), None),
        Err(_) => panic!("a missing sheet gives empty strings"),
    }
    match load_eim(Some(SHEET)) {
        Ok(s) => assert_eq!(s.get("ui_AST_Laceration"), Some("Bleeding Edge")),
        Err(_) => panic!("sheet should parse"),
    }
    assert!(load_active_skills("<Row><Data>a</Row>").is_err());
    assert!(load_passive_skills(Some("<a></b>")).is_err());
    assert!(Strings::new().get("x").is_none());
}

#[test]
fn skill_names() {
    assert_eq!(internal_from_file("Player_Laceration"), "Laceration");
    assert_eq!(internal_from_file("Other"), "Other");
    assert_eq!(variant_number("Laceration_variant_11"), Some(11));
    assert_eq!(variant_number("Laceration_variant_x"), None);
    assert_eq!(variant_number("7"), Some(7));
    assert_eq!(variant_number("a_variant_+5"), Some(5));
    assert_eq!(variant_number("a_variant_4294967295"), Some(4294967295));
    assert_eq!(variant_number("a_variant_4294967296"), None);
    assert_eq!(variant_number("a_variant_"), None);
    assert_eq!(variant_number("a_variant_+"), None);
    assert_eq!(variant_number("a_variant_-1"), None);
    assert!(is_presentational(&"ParticleList".to_string()));
    assert!(!is_presentational(&"Damage".to_string()));
    assert_eq!(skill_file("Laceration"), "Skills/NewSkills/Player/Player_Laceration.xml");
}

#[test]
fn skill_detail() {
    let s = strings();
    let d = match get_skill("Laceration", SKILL, &s) {
        Ok(d) => d,
        Err(e) => panic!("skill should parse: {}", e.message()),
    };
    assert_eq!(d.internal_name, "Laceration");
    assert_eq!(d.display_name, "Bleeding Edge");
    assert_eq!(d.file, "Skills/NewSkills/Player/Player_Laceration.xml");
    assert_eq!(d.variants.len(), 2);
    let v1 = &d.variants[0];
    assert_eq!(v1.uid, "Laceration_variant_1");
    assert_eq!(v1.number, Some(1));
    assert_eq!(v1.name, "");
    assert_eq!(v1.fields.len(), 1);
    assert_eq!(v1.fields[0].element, "Cooldown");
    assert_eq!(v1.fields[0].attr, "Value");
    assert_eq!(v1.fields[0].value, "1.5");
    let v2 = &d.variants[1];
    assert_eq!(v2.uid, "Laceration_variant_2");
    assert_eq!(v2.name, "Open Wounds");
    assert_eq!(v2.description, "More & more");
    let fields: Vec<(String, String, String)> = v2
        .fields
        .iter()
        .map(|f| (f.element.clone(), f.attr.clone(), f.value.clone()))
        .collect();
    assert_eq!(
        fields,
        vec![
            (
                "BaseDamageMultiplier".to_string(),
                "AdditionalMultiplierFactorPerAilmentStack".to_string(),
                "0.05".to_string()
            ),
            (
                "BaseDamageMultiplier".to_string(),
                "MaxAdditionalMultiplierFactorFromAilmentStacks".to_string(),
                "2".to_string()
            ),
            ("Damage_Conversion".to_string(), "Percent".to_string(), "50".to_string()),
        ]
    );
}

#[test]
fn skill_errors() {
    let s = strings();
    match get_skill("Laceration", "", &s) {
        Err(e) => {
            assert!(matches!(e, SkillError::EmptySkillFile(_)));
            assert_eq!(e.message(), "empty skill file: Skills/NewSkills/Player/Player_Laceration.xml");
        },
        Ok(_) => panic!("an empty file is refused"),
    }
    match get_skill("Laceration", "<Skill UID=\"a_variant_1\"></Other>", &s) {
        Err(e) => assert!(matches!(e, SkillError::Xml(_))),
        Ok(_) => panic!("malformed XML is refused"),
    }
}

#[test]
fn skill_display_falls_back_to_internal_name() {
    let s = Strings::new();
    match get_skill("Zeal", "<Skill UID=\"Zeal_variant_3\"><A B=\"inf\"/></Skill>", &s) {
        Ok(d) => {
            assert_eq!(d.display_name, "Zeal");
            assert_eq!(d.variants.len(), 1);
            assert_eq!(d.variants[0].fields[0].value, "inf");
        },
        Err(_) => panic!("skill should parse"),
    }
}

#[test]
fn skill_listing_sorted_by_display_name() {
    let s = strings();
    let names = vec![
        "Player_Laceration.xml".to_string(),
        "Player_Zeal.xml".to_string(),
        "readme.txt".to_string(),
        "Player_Aether.xml".to_string(),
        "Player_apex.xml".to_string(),
    ];
    let out = list_skills(&names, &s);
    let got: Vec<(String, String, String)> = out
        .iter()
        .map(|x| (x.internal_name.clone(), x.display_name.clone(), x.file.clone()))
        .collect();
    assert_eq!(
        got,
        vec![
            (
                "Aether".to_string(),
                "Aether Blast".to_string(),
                "Skills/NewSkills/Player/Player_Aether.xml".to_string()
            ),
            ("apex".to_string(), "apex".to_string(), "Skills/NewSkills/Player/Player_apex.xml".to_string()),
            (
                "Laceration".to_string(),
                "Bleeding Edge".to_string(),
                "Skills/NewSkills/Player/Player_Laceration.xml".to_string()
            ),
            ("Zeal".to_string(), "Zeal".to_string(), "Skills/NewSkills/Player/Player_Zeal.xml".to_string()),
        ]
    );
}

const TREE: &str = r#"<MagicEffects>
<Tree UIName="@ui_Tree_Melee">
  <Skill Name="melee_begin" Rarity="2" Angle="0.25" Pos="0.1" Unlock="a,b,,c"/>
  <Skill Name="" Rarity="3"/>
  <Skill Name="melee_2" Rarity="x" Angle="wide" Unlock=""></Skill>
</Tree>
</MagicEffects>"#;

#[test]
fn passive_section() {
    let sec = match get_section("Melee", TREE) {
        Ok(s) => s,
        Err(e) => panic!("tree should parse: {}", e.message),
    };
    assert_eq!(sec.name, "Melee");
    assert_eq!(sec.ui_name, "@ui_Tree_Melee");
    assert_eq!(sec.nodes.len(), 2);
    let a = &sec.nodes[0];
    assert_eq!(a.name, "melee_begin");
    assert_eq!(a.rarity, 2);
    assert_eq!(a.angle, "0.25");
    assert_eq!(a.pos, "0.1");
    assert_eq!(a.unlock, vec!["a", "b", "c"]);
    let b = &sec.nodes[1];
    assert_eq!(b.name, "melee_2");
    assert_eq!(b.rarity, 1);
    assert_eq!(b.angle, "0.5");
    assert_eq!(b.pos, "0.5");
    assert!(b.unlock.is_empty());
    assert!(get_section("Melee", "<Tree></Skill>").is_err());
}

#[test]
fn passive_helpers() {
    assert_eq!(section_file("Melee"), "Skills/Trees/PassiveSkills/Melee_tree.xml");
    assert_eq!(split_unlock(",x,,y,"), vec!["x", "y"]);
    assert!(split_unlock("").is_empty());
}

#[test]
fn section_listing_sorted() {
    let names = vec![
        "Melee_tree.xml".to_string(),
        "Arcane_tree.xml".to_string(),
        "notes.txt".to_string(),
        "x_tree.xml_tree.xml".to_string(),
    ];
    let out = list_sections(&names);
    let got: Vec<(String, String)> = out.iter().map(|s| (s.name.clone(), s.file.clone())).collect();
    assert_eq!(
        got,
        vec![
            ("Arcane".to_string(), "Skills/Trees/PassiveSkills/Arcane_tree.xml".to_string()),
            ("Melee".to_string(), "Skills/Trees/PassiveSkills/Melee_tree.xml".to_string()),
            ("x".to_string(), "Skills/Trees/PassiveSkills/x_tree.xml_tree.xml".to_string()),
        ]
    );
}

const SHEET_XML: &str = r#"<CharacterSheet>
 <PlayerStats>
   <Progression Level="1"/>
   <Health Base="100" Regen="2.5" Name="hp"/>
   <Empty Foo="bar"/>
   <Resource Max="50">
      <Nested Value="3"/>
   </Resource>
 </PlayerStats>
 <Other X="1"/>
</CharacterSheet>"#;

#[test]
fn player_stats() {
    let st = match get_player_stats(SHEET_XML) {
        Ok(s) => s,
        Err(e) => panic!("sheet should parse: {}", e.message),
    };
    assert_eq!(st.file, "CharacterSheets/Player/DefaultSheet.xml");
    let got: Vec<(String, Vec<(String, String)>)> = st
        .groups
        .iter()
        .map(|g| (g.element.clone(), g.fields.iter().map(|f| (f.attr.clone(), f.value.clone())).collect()))
        .collect();
    assert_eq!(
        got,
        vec![
            (
                "Health".to_string(),
                vec![("Base".to_string(), "100".to_string()), ("Regen".to_string(), "2.5".to_string())]
            ),
            ("Resource".to_string(), vec![("Max".to_string(), "50".to_string())]),
        ]
    );
    assert!(get_player_stats("<PlayerStats><a></b></PlayerStats>").is_err());
}

#[test]
fn variant_closes_at_its_end_tag() {
    let xml = r#"<Skills><Skill UID="p_variant_1"></Skill><Other V="5"/></Skills>"#;
    match parse_variants(xml, "P", &Strings::new()) {
        Ok(vs) => {
            assert_eq!(vs.len(), 1);
            assert_eq!(vs[0].uid, "p_variant_1");
            assert_eq!(vs[0].number, Some(1));
            assert_eq!(vs[0].name, "");
            assert_eq!(vs[0].description, "");
            assert!(vs[0].fields.is_empty());
        },
        Err(_) => panic!("skill file should parse"),
    }
}

#[test]
fn empty_variant_tag_has_no_fields() {
    let xml = r#"<Skills><Skill UID="p_variant_2"/><Other V="5"/><Skill UID="p_variant_3"><A B="1"/></Skill></Skills>"#;
    match parse_variants(xml, "P", &Strings::new()) {
        Ok(vs) => {
            assert_eq!(vs.len(), 2);
            assert_eq!(vs[0].uid, "p_variant_2");
            assert!(vs[0].fields.is_empty());
            assert_eq!(vs[1].uid, "p_variant_3");
            assert_eq!(vs[1].fields.len(), 1);
            assert_eq!(vs[1].fields[0].value, "1");
        },
        Err(_) => panic!("skill file should parse"),
    }
}
