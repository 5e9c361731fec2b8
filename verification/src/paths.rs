//! The filesystem locations the editor works with, as Windows path texts.

use vstd::prelude::*;

use crate::text::{blank, is_blank, push_char, to_chars};

verus! {

/// A path separator on Windows.
pub open spec fn is_separator(c: char) -> bool {
    c == '\\' || c == '/'
}

/// A bare drive such as `D:`, to which a relative path is appended directly.
pub open spec fn is_bare_drive(s: Seq<char>) -> bool {
    &&& s.len() == 2
    &&& s[1] == ':'
    &&& (('a' <= s[0] && s[0] <= 'z') || ('A' <= s[0] && s[0] <= 'Z'))
}

/// `rel` (a relative path) appended to `base`, with one `\` between them
/// unless `base` is empty, already ends in a separator, or is a bare drive.
pub open spec fn joined(base: Seq<char>, rel: Seq<char>) -> Seq<char> {
    if base.len() == 0 || is_separator(base.last()) || is_bare_drive(base) {
        base + rel
    } else {
        base + seq!['\\'] + rel
    }
}

/// Appends the relative path `rel` to `base`.
pub fn win_join(base: &str, rel: &str) -> (s: String)
    ensures
        s@ == joined(base@, rel@),
{
    let b = to_chars(base);
    let r = to_chars(rel);
    let n = b.len();
    let direct = n == 0 || b[n - 1] == '\\' || b[n - 1] == '/' || (n == 2 && b[1] == ':' && (
    ('a' <= b[0] && b[0] <= 'z') || ('A' <= b[0] && b[0] <= 'Z')));
    let mut s = String::from_str(base);
    if !direct {
        push_char(&mut s, '\\');
    }
    let ghost before = s@;
    let mut i: usize = 0;
    while i < r.len()
        invariant
            r@ == rel@,
            i <= r@.len(),
            s@ == before + r@.take(i as int),
        decreases r@.len() - i,
    {
        push_char(&mut s, r[i]);
        i = i + 1;
        assert(r@.take(i as int) == r@.take(i - 1).push(r@[i - 1]));
    }
    assert(r@.take(i as int) == r@);
    proof {
        if direct {
            assert(before == base@);
        } else {
            assert(before == base@ + seq!['\\']);
        }
    }
    s
}

/// A setting given in the environment, or `default` where it is absent or
/// blank.
pub open spec fn setting_or(given: Option<String>, default: Seq<char>) -> Seq<char> {
    match given {
        Some(v) => if is_blank(v@) {
            default
        } else {
            v@
        },
        None => default,
    }
}

fn setting(given: Option<String>, default: &str) -> (s: String)
    ensures
        s@ == setting_or(given, default@),
{
    match given {
        Some(v) => if blank(v.as_str()) {
            String::from_str(default)
        } else {
            v
        },
        None => String::from_str(default),
    }
}

/// The workspace used where none is given.
pub open spec fn default_workspace() -> Seq<char> {
    "E:\\Desenvolvimento\\WolcenModding"@
}

/// The Wolcen install used where none is given.
pub open spec fn default_game_dir() -> Seq<char> {
    "D:\\SteamLibrary\\steamapps\\common\\Wolcen"@
}

/// Resolved filesystem locations the core needs, as path texts.
pub struct Config {
    /// Wolcen install root (contains `Game\`, `win_x64\`, ...).
    pub game_dir: String,
    /// Folder with the keydumper, PakDecrypt and DataForge2 programs.
    pub tools_bin: String,
    /// Already-extracted (still CryXML) Umbra data root: `...\Umbra\Umbra`.
    pub extracted_umbra: String,
    /// Extracted English localization folder.
    pub localization_dir: String,
    /// Where decoded plain XML is cached.
    pub cache_dir: String,
    /// Where exported mods are written.
    pub mods_dir: String,
}

impl Config {
    /// The development layout: everything under the workspace (the
    /// `WOLCEN_WORKSPACE` setting, `workspace`), and the game where the
    /// `WOLCEN_GAME_DIR` setting (`game_dir`) says.
    pub fn dev(workspace: Option<String>, game_dir: Option<String>) -> (c: Config)
        ensures
            c.game_dir@ == setting_or(game_dir, default_game_dir()),
            c.tools_bin@ == joined(
                setting_or(workspace, default_workspace()),
                "tools\\WolcenExtractor\\bin"@,
            ),
            c.extracted_umbra@ == joined(
                setting_or(workspace, default_workspace()),
                "extracted\\Umbra\\Umbra"@,
            ),
            c.localization_dir@ == joined(
                setting_or(workspace, default_workspace()),
                "extracted\\localization_en"@,
            ),
            c.cache_dir@ == joined(setting_or(workspace, default_workspace()), "editor\\.cache"@),
            c.mods_dir@ == joined(setting_or(workspace, default_workspace()), "mods"@),
    {
        let base = setting(workspace, "E:\\Desenvolvimento\\WolcenModding");
        let game = setting(game_dir, "D:\\SteamLibrary\\steamapps\\common\\Wolcen");
        Config {
            game_dir: game,
            tools_bin: win_join(base.as_str(), "tools\\WolcenExtractor\\bin"),
            extracted_umbra: win_join(base.as_str(), "extracted\\Umbra\\Umbra"),
            localization_dir: win_join(base.as_str(), "extracted\\localization_en"),
            cache_dir: win_join(base.as_str(), "editor\\.cache"),
            mods_dir: win_join(base.as_str(), "mods"),
        }
    }
}

} // verus!
