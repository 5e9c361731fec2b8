use editor_lib::decode::{
    decode_step, is_cryxml, rel_windows, DecodeAction, DecodeError, DecodeEvent,
};
use editor_lib::paths::{win_join, Config};
use editor_lib::setup::{
    check_game_dir, get_state, library_in_line, lines_of, steam_candidates, SetupError,
};

#[test]
fn dev_config_defaults() {
    let c = Config::dev(None, None);
    assert_eq!(c.game_dir, r"D:\SteamLibrary\steamapps\common\Wolcen");
    assert_eq!(c.tools_bin, r"E:\Desenvolvimento\WolcenModding\tools\WolcenExtractor\bin");
    assert_eq!(c.extracted_umbra, r"E:\Desenvolvimento\WolcenModding\extracted\Umbra\Umbra");
    assert_eq!(c.localization_dir, r"E:\Desenvolvimento\WolcenModding\extracted\localization_en");
    assert_eq!(c.cache_dir, r"E:\Desenvolvimento\WolcenModding\editor\.cache");
    assert_eq!(c.mods_dir, r"E:\Desenvolvimento\WolcenModding\mods");
}

#[test]
fn dev_config_settings() {
    let c = Config::dev(Some(r"C:\ws\".to_string()), Some(r"G:\Games\Wolcen".to_string()));
    assert_eq!(c.game_dir, r"G:\Games\Wolcen");
    assert_eq!(c.tools_bin, r"C:\ws\tools\WolcenExtractor\bin");
    assert_eq!(c.mods_dir, r"C:\ws\mods");
}

#[test]
fn dev_config_blank_settings_fall_back() {
    let c = Config::dev(Some(" \u{3000}\u{a0}\n".to_string()), Some(String::new()));
    assert_eq!(c.game_dir, r"D:\SteamLibrary\steamapps\common\Wolcen");
    assert_eq!(c.mods_dir, r"E:\Desenvolvimento\WolcenModding\mods");
}

#[test]
fn join_rules() {
    assert_eq!(win_join("", "a"), "a");
    assert_eq!(win_join("C:", "x"), "C:x");
    assert_eq!(win_join("a/", "b"), "a/b");
    assert_eq!(win_join(r"a\", "b"), r"a\b");
    assert_eq!(win_join("a", r"b\c"), r"a\b\c");
}

#[test]
fn state_reports_game_dir() {
    let mut c = Config::dev(None, None);
    let s = get_state(&c, true, Some("X".to_string()), false);
    assert_eq!(s.game_dir, Some(r"D:\SteamLibrary\steamapps\common\Wolcen".to_string()));
    assert!(s.prepared);
    assert_eq!(s.detected, Some("X".to_string()));
    assert!(!s.tools_ok);
    c.game_dir = String::new();
    let s = get_state(&c, false, None, true);
    assert_eq!(s.game_dir, None);
    assert!(s.tools_ok);
}

#[test]
fn text_lines() {
    assert_eq!(lines_of("a\r\nb\n\nc\r"), vec!["a", "b", "", "c\r"]);
    assert_eq!(lines_of("x\n"), vec!["x"]);
    assert_eq!(lines_of(""), Vec::<String>::new());
    assert_eq!(lines_of("one"), vec!["one"]);
}

#[test]
fn vdf_library_lines() {
    assert_eq!(
        library_in_line("\t\t\"path\"\t\t\"D:\\\\SteamLibrary\""),
        Some(r"D:\SteamLibrary".to_string())
    );
    assert_eq!(
        library_in_line("\"PATH\" \"E:\\\\Games\\\\Steam\"  "),
        Some(r"E:\Games\Steam".to_string())
    );
    assert_eq!(library_in_line("\t\t\"label\"\t\t\"\""), None);
    assert_eq!(library_in_line("\"path\"   "), Some("path".to_string()));
}

#[test]
fn steam_search_order() {
    let vdf = "\"libraryfolders\"\n{\n\t\"0\"\n\t{\n\t\t\"path\"\t\t\"D:\\\\Games\\\\Steam\"\n\t}\n}\n";
    let c = steam_candidates(&vec![vdf.to_string()]);
    assert_eq!(
        c,
        vec![
            r"C:\Program Files (x86)\Steam\steamapps\common\Wolcen",
            r"C:\Program Files\Steam\steamapps\common\Wolcen",
            r"D:\Games\Steam\steamapps\common\Wolcen",
            r"C:\SteamLibrary\steamapps\common\Wolcen",
            r"D:\SteamLibrary\steamapps\common\Wolcen",
            r"E:\SteamLibrary\steamapps\common\Wolcen",
            r"F:\SteamLibrary\steamapps\common\Wolcen",
            r"G:\SteamLibrary\steamapps\common\Wolcen",
        ]
    );
    assert_eq!(steam_candidates(&Vec::new()).len(), 7);
}

#[test]
fn game_dir_checks() {
    match check_game_dir("", true) {
        Err(e) => assert_eq!(e.message(), "No Wolcen folder set."),
        Ok(()) => panic!("an empty folder is refused"),
    }
    match check_game_dir(r"C:\x", false) {
        Err(e) => assert_eq!(
            e.message(),
            "That folder doesn't look like a Wolcen install (no Game\\Umbra.pak)."
        ),
        Ok(()) => panic!("a folder without the game is refused"),
    }
    assert!(check_game_dir(r"C:\x", true).is_ok());
}

#[test]
fn setup_messages() {
    assert_eq!(
        SetupError::ToolMissing(r"C:\t\PakDecrypt.exe".to_string()).message(),
        r"bundled PakDecrypt.exe not found (C:\t\PakDecrypt.exe)"
    );
    assert_eq!(SetupError::PakMissing("u.pak".to_string()).message(), "pak not found: u.pak");
    assert_eq!(
        SetupError::NoDecryptOutput("Umbra.pak".to_string()).message(),
        "decryption produced no output for Umbra.pak — the Microsoft Visual C++ 2015-2019 x86 runtime may be missing."
    );
    assert_eq!(
        SetupError::Incomplete.message(),
        "Setup finished but expected files are missing."
    );
}

#[test]
fn cryxml_magic() {
    assert!(is_cryxml(b"CryXmlB"));
    assert!(!is_cryxml(b"CryXml"));
    assert!(!is_cryxml(b"<?xml v"));
    assert!(!is_cryxml(b""));
}

#[test]
fn windows_relative_paths() {
    assert_eq!(rel_windows("Skills/NewSkills/Player/Player_X.xml"), r"Skills\NewSkills\Player\Player_X.xml");
    assert_eq!(rel_windows("plain"), "plain");
}

#[test]
fn decode_decisions() {
    assert!(matches!(decode_step(&DecodeEvent::CacheFound(true)), DecodeAction::ReadCache));
    assert!(matches!(decode_step(&DecodeEvent::CacheFound(false)), DecodeAction::CheckSource));
    assert!(matches!(decode_step(&DecodeEvent::SourceFound(false)), DecodeAction::SourceMissing));
    assert!(matches!(decode_step(&DecodeEvent::SourceFound(true)), DecodeAction::ReadHead));
    assert!(matches!(decode_step(&DecodeEvent::HeadRead(false)), DecodeAction::CopyPlain));
    assert!(matches!(decode_step(&DecodeEvent::HeadRead(true)), DecodeAction::RunConverter));
    assert!(matches!(decode_step(&DecodeEvent::RawFound(false)), DecodeAction::NoOutput));
    assert!(matches!(decode_step(&DecodeEvent::RawFound(true)), DecodeAction::KeepConverted));
}

#[test]
fn decode_messages() {
    assert_eq!(
        DecodeError::SourceMissing(r"C:\u\a.xml".to_string()).message(),
        r"source not found: C:\u\a.xml"
    );
    assert_eq!(
        DecodeError::NoOutput { source: "a.xml".to_string(), status: Some(-1) }.message(),
        "DataForge2 produced no output for a.xml (status Some(-1))"
    );
    assert_eq!(
        DecodeError::NoOutput { source: "a.xml".to_string(), status: Some(3) }.message(),
        "DataForge2 produced no output for a.xml (status Some(3))"
    );
    assert_eq!(
        DecodeError::NoOutput { source: "a.xml".to_string(), status: Some(i32::MIN) }.message(),
        "DataForge2 produced no output for a.xml (status Some(-2147483648))"
    );
    assert_eq!(
        DecodeError::NoOutput { source: "a.xml".to_string(), status: Some(1234567890) }.message(),
        "DataForge2 produced no output for a.xml (status Some(1234567890))"
    );
    assert_eq!(
        DecodeError::NoOutput { source: "a.xml".to_string(), status: None }.message(),
        "DataForge2 produced no output for a.xml (status None)"
    );
    assert_eq!(
        DecodeError::LocalizationMissing("l.xml".to_string()).message(),
        "localization file not found: l.xml"
    );
}
