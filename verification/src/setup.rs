//! First-run state: where the game is, and the checks before preparing data.

use vstd::prelude::*;

use crate::paths::{joined, win_join, Config};
use crate::text::{
    blank, concat, contains_text, is_blank, last_occurrence_exec, lowercase, pieces, push_char,
    split_on, to_chars, to_lowercase,
};

verus! {

/// What the front end shows before anything is loaded.
pub struct AppState {
    pub game_dir: Option<String>,
    pub prepared: bool,
    pub detected: Option<String>,
    pub tools_ok: bool,
}

/// The state reported for `cfg`: no game folder where its path is empty; the
/// other facts as they were found on disk.
pub fn get_state(cfg: &Config, prepared: bool, detected: Option<String>, tools_ok: bool) -> (s:
    AppState)
    ensures
        s.game_dir is None <==> cfg.game_dir@.len() == 0,
        s.game_dir matches Some(g) ==> g@ == cfg.game_dir@,
        s.prepared == prepared,
        s.detected == detected,
        s.tools_ok == tools_ok,
{
    let game_dir = if cfg.game_dir.as_str().is_empty() {
        None
    } else {
        Some(cfg.game_dir.clone())
    };
    AppState { game_dir, prepared, detected, tools_ok }
}

/// A line without the `\r` of a `\r\n` ending.
pub open spec fn without_cr(l: Seq<char>) -> Seq<char> {
    if l.len() > 0 && l.last() == '\r' {
        l.drop_last()
    } else {
        l
    }
}

/// The lines of `s` (`str::lines`): split at `\n`, a `\r` before a `\n`
/// dropped, and no empty line after a final line ending.
pub open spec fn text_lines(s: Seq<char>) -> Seq<Seq<char>> {
    let p = pieces(s, '\n');
    let body = p.drop_last().map_values(|l: Seq<char>| without_cr(l));
    if p.last().len() == 0 {
        body
    } else {
        body.push(p.last())
    }
}

/// The last of `ps` that is not blank.
pub open spec fn last_filled(ps: Seq<Seq<char>>) -> Option<Seq<char>>
    decreases ps.len(),
{
    if ps.len() == 0 {
        None
    } else if !is_blank(ps.last()) {
        Some(ps.last())
    } else {
        last_filled(ps.drop_last())
    }
}

/// `s` with each doubled backslash, read left to right, made single.
pub open spec fn single_backslashes(s: Seq<char>) -> Seq<char>
    decreases s.len(),
{
    if s.len() == 0 {
        s
    } else if s.len() >= 2 && s[0] == '\\' && s[1] == '\\' {
        seq!['\\'] + single_backslashes(s.skip(2))
    } else {
        seq![s[0]] + single_backslashes(s.skip(1))
    }
}

/// The Steam library folder that a line of `libraryfolders.vdf` names: on a
/// line with a `"path"` key, the last quoted piece that is not blank, with
/// its escaped backslashes undone.
pub open spec fn library_of_line(line: Seq<char>) -> Option<Seq<char>> {
    if contains_text(lowercase(line), "\"path\""@) {
        match last_filled(pieces(line, '"')) {
            Some(p) => Some(single_backslashes(p)),
            None => None,
        }
    } else {
        None
    }
}

/// The library folders named by `lines`, in order.
pub open spec fn libraries(lines: Seq<Seq<char>>) -> Seq<Seq<char>>
    decreases lines.len(),
{
    if lines.len() == 0 {
        Seq::empty()
    } else {
        let rest = libraries(lines.drop_last());
        match library_of_line(lines.last()) {
            Some(p) => rest.push(p),
            None => rest,
        }
    }
}

/// Where Wolcen sits inside a Steam library folder.
pub open spec fn wolcen_under(base: Seq<char>) -> Seq<char> {
    joined(base, "steamapps\\common\\Wolcen"@)
}

/// The default Steam folders.
pub open spec fn steam_roots() -> Seq<Seq<char>> {
    seq!["C:\\Program Files (x86)\\Steam"@, "C:\\Program Files\\Steam"@]
}

/// A `SteamLibrary` folder at the root of a drive.
pub open spec fn drive_candidate(d: char) -> Seq<char> {
    seq![d] + ":\\SteamLibrary\\steamapps\\common\\Wolcen"@
}

/// The drives searched for a `SteamLibrary` folder.
pub open spec fn searched_drives() -> Seq<char> {
    seq!['C', 'D', 'E', 'F', 'G']
}

/// The install candidates named by the library files `vdfs`, in order.
pub open spec fn vdf_candidates(vdfs: Seq<Seq<char>>) -> Seq<Seq<char>>
    decreases vdfs.len(),
{
    if vdfs.len() == 0 {
        Seq::empty()
    } else {
        vdf_candidates(vdfs.drop_last()) + libraries(text_lines(vdfs.last())).map_values(
            |b: Seq<char>| wolcen_under(b),
        )
    }
}

/// Every place a Wolcen install is looked for, in the order of the search:
/// the default Steam folders, the libraries of the `libraryfolders.vdf` files
/// that could be read (`vdfs`), then a `SteamLibrary` on each drive.
pub open spec fn install_candidates(vdfs: Seq<Seq<char>>) -> Seq<Seq<char>> {
    steam_roots().map_values(|b: Seq<char>| wolcen_under(b)) + vdf_candidates(vdfs)
        + searched_drives().map_values(|d: char| drive_candidate(d))
}

/// The lines of `s`.
pub fn lines_of(s: &str) -> (out: Vec<String>)
    ensures
        out.deep_view() == text_lines(s@),
{
    let ps = split_on(s, '\n');
    let ghost p = pieces(s@, '\n');
    assert(p.len() > 0) by {
        crate::text::lemma_pieces_nonempty(s@, '\n');
    }
    let mut out: Vec<String> = Vec::new();
    let mut i: usize = 0;
    assert(ps@.len() == ps.deep_view().len());
    while i < ps.len() - 1
        invariant
            ps.deep_view() == p,
            ps@.len() == p.len(),
            p.len() > 0,
            i < p.len(),
            out.deep_view() == p.take(i as int).map_values(|l: Seq<char>| without_cr(l)),
        decreases p.len() - i,
    {
        let chars = to_chars(ps[i].as_str());
        let n = chars.len();
        let line = if n > 0 && chars[n - 1] == '\r' {
            crate::text::from_char_range(&chars, 0, n - 1)
        } else {
            ps[i].clone()
        };
        proof {
            if n > 0 {
                assert(chars@.subrange(0, n - 1) == chars@.drop_last());
            }
        }
        let ghost before = out.deep_view();
        out.push(line);
        assert(out.deep_view() =~= before.push(without_cr(p[i as int])));
        i = i + 1;
        assert(p.take(i as int) == p.take(i - 1).push(p[i - 1]));
        assert(p.take(i as int).map_values(|l: Seq<char>| without_cr(l)) =~= p.take(i - 1).map_values(
            |l: Seq<char>| without_cr(l),
        ).push(without_cr(p[i - 1])));
    }
    assert(p.take(i as int) == p.drop_last());
    let last = &ps[ps.len() - 1];
    if !last.as_str().is_empty() {
        let ghost before = out.deep_view();
        out.push(last.clone());
        assert(out.deep_view() =~= before.push(p.last()));
    }
    out
}

fn last_filled_exec(ps: &Vec<String>) -> (r: Option<String>)
    ensures
        match r {
            Some(x) => last_filled(ps.deep_view()) == Some(x@),
            None => last_filled(ps.deep_view()) is None,
        },
{
    let mut n: usize = ps.len();
    assert(ps.deep_view().take(n as int) =~= ps.deep_view());
    while n > 0
        invariant
            n <= ps@.len(),
            last_filled(ps.deep_view()) == last_filled(ps.deep_view().take(n as int)),
        decreases n,
    {
        let ghost t = ps.deep_view().take(n as int);
        assert(t.last() == ps[n - 1]@);
        assert(t.drop_last() == ps.deep_view().take(n - 1));
        if !blank(ps[n - 1].as_str()) {
            return Some(ps[n - 1].clone());
        }
        n = n - 1;
    }
    None
}

fn single_backslashes_exec(s: &str) -> (r: String)
    ensures
        r@ == single_backslashes(s@),
{
    let chars = to_chars(s);
    let mut out = String::new();
    let mut i: usize = 0;
    assert(chars@.skip(0) =~= chars@);
    while i < chars.len()
        invariant
            chars@ == s@,
            i <= chars@.len(),
            out@ + single_backslashes(chars@.skip(i as int)) == single_backslashes(s@),
        decreases chars@.len() - i,
    {
        let ghost rest = chars@.skip(i as int);
        if i + 1 < chars.len() && chars[i] == '\\' && chars[i + 1] == '\\' {
            assert(rest.skip(2) == chars@.skip(i + 2));
            push_char(&mut out, '\\');
            i = i + 2;
        } else {
            assert(rest.skip(1) == chars@.skip(i + 1));
            push_char(&mut out, chars[i]);
            i = i + 1;
        }
    }
    assert(chars@.skip(i as int).len() == 0);
    out
}

/// The Steam library folder that one line of `libraryfolders.vdf` names.
pub fn library_in_line(line: &str) -> (r: Option<String>)
    ensures
        match r {
            Some(p) => library_of_line(line@) == Some(p@),
            None => library_of_line(line@) is None,
        },
{
    let lower = to_chars(to_lowercase(line).as_str());
    let key = to_chars("\"path\"");
    if last_occurrence_exec(&lower, &key).is_none() {
        return None;
    }
    let ps = split_on(line, '"');
    match last_filled_exec(&ps) {
        Some(p) => Some(single_backslashes_exec(p.as_str())),
        None => None,
    }
}

fn wolcen_in(base: &str) -> (s: String)
    ensures
        s@ == wolcen_under(base@),
{
    win_join(base, "steamapps\\common\\Wolcen")
}

fn push_vdf_candidates(out: &mut Vec<String>, vdf: &str)
    ensures
        final(out).deep_view() == old(out).deep_view() + libraries(text_lines(vdf@)).map_values(
            |b: Seq<char>| wolcen_under(b),
        ),
{
    let lines = lines_of(vdf);
    let ghost start = out.deep_view();
    let mut i: usize = 0;
    while i < lines.len()
        invariant
            lines.deep_view() == text_lines(vdf@),
            i <= lines@.len(),
            out.deep_view() == start + libraries(lines.deep_view().take(i as int)).map_values(
                |b: Seq<char>| wolcen_under(b),
            ),
        decreases lines@.len() - i,
    {
        let ghost t = lines.deep_view().take(i + 1);
        assert(t.drop_last() == lines.deep_view().take(i as int));
        assert(t.last() == lines[i as int]@);
        let ghost before = out.deep_view();
        let ghost prev = libraries(lines.deep_view().take(i as int));
        match library_in_line(lines[i].as_str()) {
            Some(lib) => {
                out.push(wolcen_in(lib.as_str()));
                assert(out.deep_view() =~= before.push(wolcen_under(lib@)));
                assert(prev.push(lib@).map_values(|b: Seq<char>| wolcen_under(b)) =~= prev.map_values(
                    |b: Seq<char>| wolcen_under(b),
                ).push(wolcen_under(lib@)));
            },
            None => {},
        }
        i = i + 1;
    }
    assert(lines.deep_view().take(i as int) == lines.deep_view());
}

/// Every place a Wolcen install is looked for, given the contents of the
/// `libraryfolders.vdf` files that could be read, in order.
pub fn steam_candidates(vdfs: &Vec<String>) -> (out: Vec<String>)
    ensures
        out.deep_view() == install_candidates(vdfs.deep_view()),
{
    let mut out: Vec<String> = Vec::new();
    out.push(wolcen_in("C:\\Program Files (x86)\\Steam"));
    out.push(wolcen_in("C:\\Program Files\\Steam"));
    let ghost roots = out.deep_view();
    assert(roots =~= steam_roots().map_values(|b: Seq<char>| wolcen_under(b)));
    let mut i: usize = 0;
    while i < vdfs.len()
        invariant
            i <= vdfs@.len(),
            out.deep_view() == roots + vdf_candidates(vdfs.deep_view().take(i as int)),
        decreases vdfs@.len() - i,
    {
        let ghost t = vdfs.deep_view().take(i + 1);
        assert(t.drop_last() == vdfs.deep_view().take(i as int));
        assert(t.last() == vdfs[i as int]@);
        push_vdf_candidates(&mut out, vdfs[i].as_str());
        i = i + 1;
    }
    assert(vdfs.deep_view().take(i as int) == vdfs.deep_view());
    let ghost mid = out.deep_view();
    let drives = ['C', 'D', 'E', 'F', 'G'];
    let mut j: usize = 0;
    while j < 5
        invariant
            j <= 5,
            drives@ == searched_drives(),
            out.deep_view() == mid + drives@.take(j as int).map_values(|d: char| drive_candidate(d)),
        decreases 5 - j,
    {
        let mut c = String::new();
        push_char(&mut c, drives[j]);
        let c = concat(c.as_str(), ":\\SteamLibrary\\steamapps\\common\\Wolcen");
        let ghost before = out.deep_view();
        out.push(c);
        j = j + 1;
        assert(drives@.take(j as int) == drives@.take(j - 1).push(drives@[j - 1]));
        assert(out.deep_view() =~= before.push(drive_candidate(drives@[j - 1])));
        assert(drives@.take(j as int).map_values(|d: char| drive_candidate(d)) =~= drives@.take(
            j - 1,
        ).map_values(|d: char| drive_candidate(d)).push(drive_candidate(drives@[j - 1])));
    }
    assert(drives@.take(5) == drives@);
    out
}

proof fn lemma_libraries_prefix(lines: Seq<Seq<char>>, n: int)
    requires
        0 <= n <= lines.len(),
    ensures
        libraries(lines.take(n)).len() <= libraries(lines).len(),
        libraries(lines).take(libraries(lines.take(n)).len() as int) == libraries(lines.take(n)),
    decreases lines.len(),
{
    if n == lines.len() {
        assert(lines.take(n) == lines);
        assert(libraries(lines).take(libraries(lines).len() as int) == libraries(lines));
    } else {
        let p = lines.drop_last();
        assert(lines.take(n) == p.take(n));
        lemma_libraries_prefix(p, n);
        let lp = libraries(p);
        let m = libraries(p.take(n)).len() as int;
        let l = libraries(lines);
        assert(l.take(m) == lp.take(m)) by {
            match library_of_line(lines.last()) {
                Some(x) => {
                    assert(l == lp.push(x));
                },
                None => {},
            }
        }
    }
}

/// Where a library line's library stands in the libraries of the lines.
proof fn lemma_library_position(lines: Seq<Seq<char>>, k: int)
    requires
        0 <= k < lines.len(),
        library_of_line(lines[k]) is Some,
    ensures
        libraries(lines.take(k)).len() < libraries(lines).len(),
        libraries(lines)[libraries(lines.take(k)).len() as int] == library_of_line(lines[k])->0,
        libraries(lines.take(k + 1)).len() == libraries(lines.take(k)).len() + 1,
{
    let t = lines.take(k + 1);
    assert(t.drop_last() == lines.take(k));
    assert(t.last() == lines[k]);
    lemma_libraries_prefix(lines, k + 1);
    let pos = libraries(lines.take(k)).len() as int;
    assert(libraries(t)[pos] == library_of_line(lines[k])->0);
    assert(libraries(lines).take(libraries(t).len() as int)[pos] == libraries(lines)[pos]);
}

proof fn lemma_vdf_prefix(vdfs: Seq<Seq<char>>, n: int)
    requires
        0 <= n <= vdfs.len(),
    ensures
        vdf_candidates(vdfs.take(n)).len() <= vdf_candidates(vdfs).len(),
        vdf_candidates(vdfs).take(vdf_candidates(vdfs.take(n)).len() as int) == vdf_candidates(vdfs.take(n)),
    decreases vdfs.len(),
{
    if n == vdfs.len() {
        assert(vdfs.take(n) == vdfs);
        assert(vdf_candidates(vdfs).take(vdf_candidates(vdfs).len() as int) == vdf_candidates(vdfs));
    } else {
        let p = vdfs.drop_last();
        assert(vdfs.take(n) == p.take(n));
        lemma_vdf_prefix(p, n);
        let m = vdf_candidates(p.take(n)).len() as int;
        assert(vdf_candidates(vdfs).take(m) == vdf_candidates(p).take(m));
    }
}

/// The candidate index of the library named by line `k` of file `t`.
proof fn lemma_candidate_at(vdfs: Seq<Seq<char>>, t: int, k: int) -> (a: int)
    requires
        0 <= t < vdfs.len(),
        0 <= k < text_lines(vdfs[t]).len(),
        library_of_line(text_lines(vdfs[t])[k]) is Some,
    ensures
        0 <= a < install_candidates(vdfs).len(),
        install_candidates(vdfs)[a] == wolcen_under(library_of_line(text_lines(vdfs[t])[k])->0),
        a == 2 + vdf_candidates(vdfs.take(t)).len() + libraries(text_lines(vdfs[t]).take(k)).len(),
{
    let lines = text_lines(vdfs[t]);
    lemma_library_position(lines, k);
    let pos = libraries(lines.take(k)).len() as int;
    let pre = vdf_candidates(vdfs.take(t));
    let q = vdfs.take(t + 1);
    assert(q.drop_last() == vdfs.take(t));
    assert(q.last() == vdfs[t]);
    let block = libraries(lines).map_values(|b: Seq<char>| wolcen_under(b));
    assert(vdf_candidates(q) == pre + block);
    lemma_vdf_prefix(vdfs, t + 1);
    let v = vdf_candidates(vdfs);
    assert(v.take(vdf_candidates(q).len() as int)[pre.len() + pos] == v[pre.len() + pos]);
    assert(v[pre.len() + pos] == block[pos]);
    let roots = steam_roots().map_values(|b: Seq<char>| wolcen_under(b));
    let drives = searched_drives().map_values(|d: char| drive_candidate(d));
    let c = install_candidates(vdfs);
    assert(c == roots + v + drives);
    assert(c[2 + pre.len() + pos] == v[pre.len() + pos]);
    2 + pre.len() + pos
}

/// Every Steam library a `libraryfolders.vdf` names is searched, in the order
/// of its lines: for each line naming a library, that library's Wolcen folder
/// is among the install candidates, and of two such lines the earlier one's
/// folder comes earlier.
pub proof fn law_every_library_searched(vdfs: Seq<Seq<char>>)
    ensures
        forall|t: int, k: int|
            0 <= t < vdfs.len() && 0 <= k < text_lines(vdfs[t]).len() && library_of_line(
                #[trigger] text_lines(vdfs[t])[k],
            ) is Some ==> install_candidates(vdfs).contains(
                wolcen_under(library_of_line(text_lines(vdfs[t])[k])->0),
            ),
        forall|t: int, k1: int, k2: int|
            0 <= t < vdfs.len() && 0 <= k1 < k2 < text_lines(vdfs[t]).len() && library_of_line(
                #[trigger] text_lines(vdfs[t])[k1],
            ) is Some && library_of_line(#[trigger] text_lines(vdfs[t])[k2]) is Some ==> exists|a: int, b: int|
                0 <= a < b < install_candidates(vdfs).len() && install_candidates(vdfs)[a] == wolcen_under(
                    library_of_line(text_lines(vdfs[t])[k1])->0,
                ) && install_candidates(vdfs)[b] == wolcen_under(
                    library_of_line(text_lines(vdfs[t])[k2])->0,
                ),
{
    let c = install_candidates(vdfs);
    assert forall|t: int, k: int|
        0 <= t < vdfs.len() && 0 <= k < text_lines(vdfs[t]).len() && library_of_line(
            #[trigger] text_lines(vdfs[t])[k],
        ) is Some implies c.contains(wolcen_under(library_of_line(text_lines(vdfs[t])[k])->0)) by {
        let a = lemma_candidate_at(vdfs, t, k);
        assert(c[a] == wolcen_under(library_of_line(text_lines(vdfs[t])[k])->0));
    }
    assert forall|t: int, k1: int, k2: int|
        0 <= t < vdfs.len() && 0 <= k1 < k2 < text_lines(vdfs[t]).len() && library_of_line(
            #[trigger] text_lines(vdfs[t])[k1],
        ) is Some && library_of_line(#[trigger] text_lines(vdfs[t])[k2]) is Some implies exists|a: int, b: int|
            0 <= a < b < c.len() && c[a] == wolcen_under(library_of_line(text_lines(vdfs[t])[k1])->0)
                && c[b] == wolcen_under(library_of_line(text_lines(vdfs[t])[k2])->0) by {
        let lines = text_lines(vdfs[t]);
        let a = lemma_candidate_at(vdfs, t, k1);
        let b = lemma_candidate_at(vdfs, t, k2);
        lemma_library_position(lines, k1);
        let l2 = lines.take(k2);
        assert(l2.take(k1 + 1) == lines.take(k1 + 1));
        lemma_libraries_prefix(l2, k1 + 1);
        assert(a < b);
    }
}

/// Why preparing the game data stopped.
pub enum SetupError {
    /// No Wolcen folder was chosen.
    NoGameDir,
    /// The chosen folder holds no Wolcen install.
    NotWolcen,
    /// The bundled decryption tool is missing (its path).
    ToolMissing(String),
    /// The pak to decrypt is missing (its path).
    PakMissing(String),
    /// Decryption wrote nothing for the pak (its file name).
    NoDecryptOutput(String),
    /// The expected files are missing after setup.
    Incomplete,
}

/// The text shown for each setup error.
pub open spec fn setup_message(e: SetupError) -> Seq<char> {
    match e {
        SetupError::NoGameDir => "No Wolcen folder set."@,
        SetupError::NotWolcen => "That folder doesn't look like a Wolcen install (no Game\\Umbra.pak)."@,
        SetupError::ToolMissing(p) => "bundled PakDecrypt.exe not found ("@ + p@ + ")"@,
        SetupError::PakMissing(p) => "pak not found: "@ + p@,
        SetupError::NoDecryptOutput(f) => "decryption produced no output for "@ + f@
            + " — the Microsoft Visual C++ 2015-2019 x86 runtime may be missing."@,
        SetupError::Incomplete => "Setup finished but expected files are missing."@,
    }
}

impl SetupError {
    /// The text shown for this error.
    pub fn message(&self) -> (m: String)
        ensures
            m@ == setup_message(*self),
    {
        match self {
            SetupError::NoGameDir => String::from_str("No Wolcen folder set."),
            SetupError::NotWolcen => String::from_str(
                "That folder doesn't look like a Wolcen install (no Game\\Umbra.pak).",
            ),
            SetupError::ToolMissing(p) => {
                let a = concat("bundled PakDecrypt.exe not found (", p.as_str());
                concat(a.as_str(), ")")
            },
            SetupError::PakMissing(p) => concat("pak not found: ", p.as_str()),
            SetupError::NoDecryptOutput(f) => {
                let a = concat("decryption produced no output for ", f.as_str());
                concat(
                    a.as_str(),
                    " — the Microsoft Visual C++ 2015-2019 x86 runtime may be missing.",
                )
            },
            SetupError::Incomplete => String::from_str(
                "Setup finished but expected files are missing.",
            ),
        }
    }
}

/// The checks before preparing data: a game folder must be set, and it must
/// look like a Wolcen install.
pub fn check_game_dir(game_dir: &str, looks_like_wolcen: bool) -> (r: Result<(), SetupError>)
    ensures
        game_dir@.len() == 0 ==> r matches Err(SetupError::NoGameDir),
        game_dir@.len() > 0 && !looks_like_wolcen ==> r matches Err(SetupError::NotWolcen),
        game_dir@.len() > 0 && looks_like_wolcen ==> r is Ok,
{
    if game_dir.is_empty() {
        return Err(SetupError::NoGameDir);
    }
    if !looks_like_wolcen {
        return Err(SetupError::NotWolcen);
    }
    Ok(())
}

} // verus!
