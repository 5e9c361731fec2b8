//! Localization sheets: SpreadsheetML files whose rows map an internal key to
//! its English text.

use vstd::prelude::*;

use crate::xml::{
    is_text, local_name, local_part, read_document, xml_document, EventView, XmlError, XmlEvent,
};

verus! {

/// Localization strings: internal key -> English text.
pub struct Strings {
    /// Rows in the order they were read; a later row for a key wins.
    entries: Vec<(String, String)>,
}

/// The text the last entry for `key` gives.
pub open spec fn lookup(entries: Seq<(Seq<char>, Seq<char>)>, key: Seq<char>) -> Option<Seq<char>>
    decreases entries.len(),
{
    if entries.len() == 0 {
        None
    } else if entries.last().0 == key {
        Some(entries.last().1)
    } else {
        lookup(entries.drop_last(), key)
    }
}

/// The map a sequence of entries stands for, a later entry for a key winning.
pub open spec fn entries_map(entries: Seq<(Seq<char>, Seq<char>)>) -> Map<Seq<char>, Seq<char>> {
    Map::new(|k: Seq<char>| lookup(entries, k) is Some, |k: Seq<char>| lookup(entries, k)->0)
}

impl View for Strings {
    type V = Map<Seq<char>, Seq<char>>;

    closed spec fn view(&self) -> Map<Seq<char>, Seq<char>> {
        entries_map(self.entries.deep_view())
    }
}

/// The key a lookup uses: the key without one leading `@`.
pub open spec fn lookup_key(key: Seq<char>) -> Seq<char> {
    if key.len() > 0 && key[0] == '@' {
        key.drop_first()
    } else {
        key
    }
}

/// What `Strings::get` gives for `key` in `m`.
pub open spec fn get_spec(m: Map<Seq<char>, Seq<char>>, key: Seq<char>) -> Option<Seq<char>> {
    if m.contains_key(lookup_key(key)) {
        Some(m[lookup_key(key)])
    } else {
        None
    }
}

/// A key written with the `@` that game data puts before it finds the same
/// text as the bare key.
pub proof fn law_at_prefix_ignored(m: Map<Seq<char>, Seq<char>>, key: Seq<char>)
    requires
        !(key.len() > 0 && key[0] == '@'),
    ensures
        get_spec(m, seq!['@'] + key) == get_spec(m, key),
{
    assert((seq!['@'] + key).drop_first() == key);
}

/// The state of a pass over a sheet.
pub struct SheetState {
    pub in_data: bool,
    pub buf: Seq<char>,
    pub row: Seq<Seq<char>>,
    pub entries: Seq<(Seq<char>, Seq<char>)>,
}

pub open spec fn sheet_start() -> SheetState {
    SheetState { in_data: false, buf: Seq::empty(), row: Seq::empty(), entries: Seq::empty() }
}

/// One event of the pass: a `Row` starts a row, the text of each `Data` cell
/// is collected, and a finished row with at least two cells and a non-empty
/// first cell maps its first cell to its second.
pub open spec fn sheet_step(s: SheetState, e: EventView) -> SheetState {
    match e {
        EventView::Start(el) => {
            if local_part(el.name) == "Row"@ {
                SheetState { row: Seq::empty(), ..s }
            } else if local_part(el.name) == "Data"@ {
                SheetState { in_data: true, buf: Seq::empty(), ..s }
            } else {
                s
            }
        },
        EventView::Text(_, t) => {
            if s.in_data {
                SheetState { buf: s.buf + t, ..s }
            } else {
                s
            }
        },
        EventView::End(n) => {
            if local_part(n) == "Data"@ {
                SheetState { in_data: false, row: s.row.push(s.buf), ..s }
            } else if local_part(n) == "Row"@ {
                if s.row.len() >= 2 && s.row[0].len() > 0 {
                    SheetState { entries: s.entries.push((s.row[0], s.row[1])), ..s }
                } else {
                    s
                }
            } else {
                s
            }
        },
        _ => s,
    }
}

pub open spec fn sheet_run(events: Seq<EventView>) -> SheetState
    decreases events.len(),
{
    if events.len() == 0 {
        sheet_start()
    } else {
        sheet_step(sheet_run(events.drop_last()), events.last())
    }
}

/// The strings a sheet with these events defines.
pub open spec fn sheet_map(events: Seq<EventView>) -> Map<Seq<char>, Seq<char>> {
    entries_map(sheet_run(events).entries)
}

impl Strings {
    /// No strings.
    pub fn new() -> (s: Strings)
        ensures
            s@ == Map::<Seq<char>, Seq<char>>::empty(),
    {
        let s = Strings { entries: Vec::new() };
        assert(s@ =~= Map::<Seq<char>, Seq<char>>::empty());
        s
    }

    /// The text for `key` (a leading `@`, as keys appear in references, is
    /// ignored).
    pub fn get(&self, key: &str) -> (r: Option<&str>)
        ensures
            match r {
                Some(t) => get_spec(self@, key@) == Some(t@),
                None => get_spec(self@, key@) is None,
            },
    {
        let chars = crate::text::to_chars(key);
        let k = if chars.len() > 0 && chars[0] == '@' {
            crate::text::from_char_range(&chars, 1, chars.len())
        } else {
            crate::text::from_chars(&chars)
        };
        assert(k@ == lookup_key(key@)) by {
            if chars@.len() > 0 && chars@[0] == '@' {
                assert(chars@.subrange(1, chars@.len() as int) == key@.drop_first());
            }
        }
        let ghost entries = self.entries.deep_view();
        let mut i = self.entries.len();
        assert(entries.take(i as int) == entries);
        while i > 0
            invariant
                entries == self.entries.deep_view(),
                k@ == lookup_key(key@),
                i <= entries.len(),
                lookup(entries, k@) == lookup(entries.take(i as int), k@),
            decreases i,
        {
            assert(entries.take(i as int).last() == entries[i - 1]);
            assert(entries.take(i as int).drop_last() == entries.take(i - 1));
            if self.entries[i - 1].0.eq(&k) {
                assert(entries[i - 1] == (self.entries@[i - 1].0@, self.entries@[i - 1].1@));
                assert(lookup(entries.take(i as int), k@) == Some(entries[i - 1].1));
                assert(lookup(entries, k@) == Some(entries[i - 1].1));
                assert(self@.contains_key(k@));
                return Some(self.entries[i - 1].1.as_str());
            }
            i = i - 1;
        }
        None
    }

    /// The text for `key`, or `fallback` where there is none.
    pub fn get_or<'a>(&'a self, key: &'a str, fallback: &'a str) -> (r: &'a str)
        ensures
            r@ == match get_spec(self@, key@) {
                Some(t) => t,
                None => fallback@,
            },
    {
        match self.get(key) {
            Some(t) => t,
            None => fallback,
        }
    }
}

/// The strings a sheet with these events defines.
pub fn sheet_strings(events: &Vec<XmlEvent>) -> (s: Strings)
    ensures
        s@ == sheet_map(events.deep_view()),
{
    let ghost evs = events.deep_view();
    let mut in_data = false;
    let mut buf = String::new();
    let mut row: Vec<String> = Vec::new();
    let mut entries: Vec<(String, String)> = Vec::new();
    let mut i: usize = 0;
    assert(evs.take(0) =~= Seq::<EventView>::empty());
    assert(row.deep_view() =~= Seq::<Seq<char>>::empty());
    assert(entries.deep_view() =~= Seq::<(Seq<char>, Seq<char>)>::empty());
    while i < events.len()
        invariant
            evs == events.deep_view(),
            i <= evs.len(),
            sheet_run(evs.take(i as int)) == (SheetState {
                in_data,
                buf: buf@,
                row: row.deep_view(),
                entries: entries.deep_view(),
            }),
        decreases evs.len() - i,
    {
        assert(evs.take(i + 1).drop_last() == evs.take(i as int));
        let ghost before = row.deep_view();
        let ghost before_entries = entries.deep_view();
        match &events[i] {
            XmlEvent::Start(el) => {
                let l = local_name(&el.name);
                if is_text(&l, "Row") {
                    row = Vec::new();
                    assert(row.deep_view() =~= Seq::<Seq<char>>::empty());
                } else if is_text(&l, "Data") {
                    in_data = true;
                    buf = String::new();
                }
            },
            XmlEvent::Text(_, t) => {
                if in_data {
                    buf.append(t.as_str());
                }
            },
            XmlEvent::End(n) => {
                let l = local_name(n);
                if is_text(&l, "Data") {
                    in_data = false;
                    row.push(buf.clone());
                    assert(row.deep_view() =~= before.push(buf@));
                } else if is_text(&l, "Row") {
                    if row.len() >= 2 && !row[0].as_str().is_empty() {
                        entries.push((row[0].clone(), row[1].clone()));
                        assert(entries.deep_view() =~= before_entries.push((before[0], before[1])));
                    }
                }
            },
            _ => {},
        }
        i = i + 1;
    }
    assert(evs.take(evs.len() as int) == evs);
    Strings { entries }
}

/// The strings of a sheet.
fn parse_sheet(xml: &str) -> (res: Result<Strings, XmlError>)
    ensures
        match res {
            Ok(s) => xml_document(xml@) matches Some(evs) && s@ == sheet_map(evs),
            Err(_) => xml_document(xml@) is None,
        },
{
    let events = read_document(xml)?;
    Ok(sheet_strings(&events))
}

/// The active-skills strings (skill and variant names and descriptions) of
/// the sheet `text_ui_Activeskills.xml`.
pub fn load_active_skills(sheet: &str) -> (res: Result<Strings, XmlError>)
    ensures
        match res {
            Ok(s) => xml_document(sheet@) matches Some(evs) && s@ == sheet_map(evs),
            Err(_) => xml_document(sheet@) is None,
        },
{
    parse_sheet(sheet)
}

/// The passive-skills strings (section and node names) of the sheet
/// `text_ui_passiveskills.xml`; no strings where the sheet could not be read.
pub fn load_passive_skills(sheet: Option<&str>) -> (res: Result<Strings, XmlError>)
    ensures
        match sheet {
            None => res matches Ok(s) && s@ == Map::<Seq<char>, Seq<char>>::empty(),
            Some(x) => match res {
                Ok(s) => xml_document(x@) matches Some(evs) && s@ == sheet_map(evs),
                Err(_) => xml_document(x@) is None,
            },
        },
{
    match sheet {
        Some(x) => parse_sheet(x),
        None => Ok(Strings::new()),
    }
}

/// The magic-effect descriptions of the sheet `text_ui_EIM.xml`; no strings
/// where the sheet could not be read.
pub fn load_eim(sheet: Option<&str>) -> (res: Result<Strings, XmlError>)
    ensures
        match sheet {
            None => res matches Ok(s) && s@ == Map::<Seq<char>, Seq<char>>::empty(),
            Some(x) => match res {
                Ok(s) => xml_document(x@) matches Some(evs) && s@ == sheet_map(evs),
                Err(_) => xml_document(x@) is None,
            },
        },
{
    match sheet {
        Some(x) => parse_sheet(x),
        None => Ok(Strings::new()),
    }
}

} // verus!
