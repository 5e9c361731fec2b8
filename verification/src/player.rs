//! The editable base player stats of the character sheet.

use vstd::prelude::*;

use crate::text::{is_float_literal, is_float_text};
use crate::xml::{
    is_text, local_name, local_part, read_document, xml_document, ElementView, EventView,
    XmlElement, XmlError, XmlEvent,
};

verus! {

/// The character sheet, relative to the Umbra root.
pub open spec fn player_sheet() -> Seq<char> {
    "CharacterSheets/Player/DefaultSheet.xml"@
}

pub struct PlayerField {
    pub attr: String,
    /// The number as written in the sheet (text that parses as an `f64`).
    pub value: String,
}

pub struct StatGroup {
    pub element: String,
    pub fields: Vec<PlayerField>,
}

pub struct PlayerStats {
    pub file: String,
    pub groups: Vec<StatGroup>,
}

impl DeepView for PlayerField {
    type V = (Seq<char>, Seq<char>);

    open spec fn deep_view(&self) -> (Seq<char>, Seq<char>) {
        (self.attr@, self.value@)
    }
}

impl DeepView for StatGroup {
    type V = (Seq<char>, Seq<(Seq<char>, Seq<char>)>);

    open spec fn deep_view(&self) -> (Seq<char>, Seq<(Seq<char>, Seq<char>)>) {
        (self.element@, self.fields.deep_view())
    }
}

/// The attributes whose values are numbers.
pub open spec fn numeric_attrs(attrs: Seq<(Seq<char>, Seq<char>)>) -> Seq<(Seq<char>, Seq<char>)>
    decreases attrs.len(),
{
    if attrs.len() == 0 {
        Seq::empty()
    } else if is_float_literal(attrs.last().1) {
        numeric_attrs(attrs.drop_last()).push(attrs.last())
    } else {
        numeric_attrs(attrs.drop_last())
    }
}

/// The stat group of a direct child of `<PlayerStats>`: its numeric
/// attributes, unless it is the `Progression` element (character level and
/// experience) or has none.
pub open spec fn group_of(lname: Seq<char>, el: ElementView) -> Option<(Seq<char>, Seq<(Seq<char>, Seq<char>)>)> {
    if lname == "Progression"@ || numeric_attrs(el.attrs).len() == 0 {
        None
    } else {
        Some((lname, numeric_attrs(el.attrs)))
    }
}

pub struct StatScan {
    pub stack: Seq<Seq<char>>,
    pub groups: Seq<(Seq<char>, Seq<(Seq<char>, Seq<char>)>)>,
}

pub open spec fn under_player_stats(stack: Seq<Seq<char>>) -> bool {
    stack.len() > 0 && stack.last() == "PlayerStats"@
}

pub open spec fn add_group(s: StatScan, el: ElementView) -> StatScan {
    let l = local_part(el.name);
    if under_player_stats(s.stack) {
        match group_of(l, el) {
            Some(g) => StatScan { groups: s.groups.push(g), ..s },
            None => s,
        }
    } else {
        s
    }
}

pub open spec fn stat_step(s: StatScan, e: EventView) -> StatScan {
    match e {
        EventView::Start(el) => {
            let t = add_group(s, el);
            StatScan { stack: t.stack.push(local_part(el.name)), ..t }
        },
        EventView::Empty(el) => add_group(s, el),
        EventView::End(_) => StatScan {
            stack: if s.stack.len() > 0 {
                s.stack.drop_last()
            } else {
                s.stack
            },
            ..s
        },
        _ => s,
    }
}

pub open spec fn stat_run(events: Seq<EventView>) -> StatScan
    decreases events.len(),
{
    if events.len() == 0 {
        StatScan { stack: Seq::empty(), groups: Seq::empty() }
    } else {
        stat_step(stat_run(events.drop_last()), events.last())
    }
}

/// The stat group of a direct child of `<PlayerStats>`, if it makes one.
fn group_from(el: &XmlElement, lname: &String) -> (g: Option<StatGroup>)
    ensures
        g.deep_view() == group_of(lname@, el.deep_view()),
{
    if is_text(lname, "Progression") {
        return None;
    }
    let ghost attrs = el.attrs.deep_view();
    let mut fields: Vec<PlayerField> = Vec::new();
    let mut i: usize = 0;
    assert(attrs.take(0) =~= Seq::<(Seq<char>, Seq<char>)>::empty());
    assert(fields.deep_view() =~= Seq::<(Seq<char>, Seq<char>)>::empty());
    while i < el.attrs.len()
        invariant
            attrs == el.attrs.deep_view(),
            i <= attrs.len(),
            fields.deep_view() == numeric_attrs(attrs.take(i as int)),
        decreases attrs.len() - i,
    {
        assert(attrs.take(i + 1).drop_last() == attrs.take(i as int));
        let a = &el.attrs[i];
        if is_float_text(a.value.as_str()) {
            let ghost before = fields.deep_view();
            fields.push(PlayerField { attr: a.key.clone(), value: a.value.clone() });
            assert(fields.deep_view() =~= before.push((a.key@, a.value@)));
        }
        i = i + 1;
    }
    assert(attrs.take(attrs.len() as int) == attrs);
    if fields.len() == 0 {
        return None;
    }
    Some(StatGroup { element: lname.clone(), fields })
}

/// The editable base player stats (direct children of `<PlayerStats>`) of
/// the character sheet's XML.
pub fn get_player_stats(xml: &str) -> (res: Result<PlayerStats, XmlError>)
    ensures
        match res {
            Ok(p) => xml_document(xml@) matches Some(evs) && p.file@ == player_sheet()
                && p.groups.deep_view() == stat_run(evs).groups,
            Err(_) => xml_document(xml@) is None,
        },
{
    let events = read_document(xml)?;
    let ghost evs = events.deep_view();
    let mut stack: Vec<String> = Vec::new();
    let mut groups: Vec<StatGroup> = Vec::new();
    let mut i: usize = 0;
    assert(evs.take(0) =~= Seq::<EventView>::empty());
    assert(stack.deep_view() =~= Seq::<Seq<char>>::empty());
    assert(groups.deep_view() =~= Seq::<(Seq<char>, Seq<(Seq<char>, Seq<char>)>)>::empty());
    while i < events.len()
        invariant
            evs == events.deep_view(),
            i <= evs.len(),
            stat_run(evs.take(i as int)) == (StatScan { stack: stack.deep_view(), groups: groups.deep_view() }),
        decreases evs.len() - i,
    {
        assert(evs.take(i + 1).drop_last() == evs.take(i as int));
        let ghost gbefore = groups.deep_view();
        let ghost sbefore = stack.deep_view();
        match &events[i] {
            XmlEvent::Start(el) => {
                let l = local_name(&el.name);
                if stack.len() > 0 && is_text(&stack[stack.len() - 1], "PlayerStats") {
                    match group_from(el, &l) {
                        Some(g) => {
                            groups.push(g);
                            assert(groups.deep_view() =~= gbefore.push(g.deep_view()));
                        },
                        None => {},
                    }
                }
                stack.push(l);
                assert(stack.deep_view() =~= sbefore.push(l@));
            },
            XmlEvent::Empty(el) => {
                let l = local_name(&el.name);
                if stack.len() > 0 && is_text(&stack[stack.len() - 1], "PlayerStats") {
                    match group_from(el, &l) {
                        Some(g) => {
                            groups.push(g);
                            assert(groups.deep_view() =~= gbefore.push(g.deep_view()));
                        },
                        None => {},
                    }
                }
            },
            XmlEvent::End(_) => {
                if stack.len() > 0 {
                    stack.pop();
                    assert(stack.deep_view() =~= sbefore.drop_last());
                }
            },
            _ => {},
        }
        i = i + 1;
    }
    assert(evs.take(evs.len() as int) == evs);
    Ok(PlayerStats { file: String::from_str("CharacterSheets/Player/DefaultSheet.xml"), groups })
}

} // verus!
