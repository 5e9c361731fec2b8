//! Passive skill trees: the sections of the tree and the nodes of each.

use vstd::prelude::*;

use crate::order::{
    insert_index, law_stable_sort_permutes, law_stable_sort_sorted, lemma_text_le_total,
    lemma_text_le_transitive, sorted_by, stable_sort, take_first, text_le, text_leq,
};
use crate::text::{
    concat, ends_with, ends_with_exec, from_char_range, is_float_literal, is_float_text, parse_u32,
    parse_u32_spec, push_char, to_chars,
};
use crate::xml::{
    attr_value, attribute, is_text, local_name, local_part, read_document, xml_document,
    ElementView, EventView, XmlElement, XmlError, XmlEvent,
};

verus! {

/// Where the passive tree files live, relative to the extracted Umbra root.
pub open spec fn passive_trees_dir() -> Seq<char> {
    "Skills/Trees/PassiveSkills"@
}

pub struct PassiveNode {
    pub name: String,
    pub rarity: u32,
    /// 0..1 within the section; drives radial layout (number text).
    pub angle: String,
    /// 0..1 along the spoke; drives radial layout (number text).
    pub pos: String,
    /// Connected node names (graph edges) — includes ring anchors like "begin".
    pub unlock: Vec<String>,
}

pub struct PassiveSection {
    pub name: String,
    pub ui_name: String,
    pub nodes: Vec<PassiveNode>,
}

pub struct SectionSummary {
    pub name: String,
    pub file: String,
}

pub struct PassiveNodeView {
    pub name: Seq<char>,
    pub rarity: u32,
    pub angle: Seq<char>,
    pub pos: Seq<char>,
    pub unlock: Seq<Seq<char>>,
}

impl DeepView for PassiveNode {
    type V = PassiveNodeView;

    open spec fn deep_view(&self) -> PassiveNodeView {
        PassiveNodeView {
            name: self.name@,
            rarity: self.rarity,
            angle: self.angle@,
            pos: self.pos@,
            unlock: self.unlock.deep_view(),
        }
    }
}

impl DeepView for SectionSummary {
    type V = (Seq<char>, Seq<char>);

    open spec fn deep_view(&self) -> (Seq<char>, Seq<char>) {
        (self.name@, self.file@)
    }
}

/// The pieces of `s` between commas (`str::split(',')`).
pub open spec fn comma_pieces(s: Seq<char>) -> Seq<Seq<char>>
    decreases s.len(),
{
    if s.len() == 0 {
        seq![Seq::empty()]
    } else {
        let p = comma_pieces(s.drop_last());
        if s.last() == ',' {
            p.push(Seq::empty())
        } else {
            p.update(p.len() - 1, p.last().push(s.last()))
        }
    }
}

/// The non-empty texts among `pieces`, in order.
pub open spec fn non_empty(pieces: Seq<Seq<char>>) -> Seq<Seq<char>>
    decreases pieces.len(),
{
    if pieces.len() == 0 {
        Seq::empty()
    } else if pieces.last().len() == 0 {
        non_empty(pieces.drop_last())
    } else {
        non_empty(pieces.drop_last()).push(pieces.last())
    }
}

/// The node names of an `Unlock` list: its comma-separated non-empty pieces.
pub open spec fn unlock_list(s: Seq<char>) -> Seq<Seq<char>> {
    non_empty(comma_pieces(s))
}

/// A number attribute's text, or the default where it is missing or not a
/// number.
pub open spec fn number_or(v: Option<Seq<char>>, default: Seq<char>) -> Seq<char> {
    match v {
        Some(t) => if is_float_literal(t) {
            t
        } else {
            default
        },
        None => default,
    }
}

/// The node a `<Skill>` of a tree describes, where it has a name.
pub open spec fn node_of(el: ElementView) -> Option<PassiveNodeView> {
    let name = match attr_value(el.attrs, "Name"@) {
        Some(n) => n,
        None => Seq::empty(),
    };
    if name.len() == 0 {
        None
    } else {
        Some(
            PassiveNodeView {
                name,
                rarity: match attr_value(el.attrs, "Rarity"@) {
                    Some(r) => match parse_u32_spec(r) {
                        Some(n) => n,
                        None => 1,
                    },
                    None => 1,
                },
                angle: number_or(attr_value(el.attrs, "Angle"@), "0.5"@),
                pos: number_or(attr_value(el.attrs, "Pos"@), "0.5"@),
                unlock: unlock_list(
                    match attr_value(el.attrs, "Unlock"@) {
                        Some(u) => u,
                        None => Seq::empty(),
                    },
                ),
            },
        )
    }
}

pub struct TreeScan {
    pub ui_name: Seq<char>,
    pub nodes: Seq<PassiveNodeView>,
}

/// One event of a tree file: a `<Tree>` gives the section's UI name, a
/// named `<Skill>` a node.
pub open spec fn tree_step(s: TreeScan, el: ElementView) -> TreeScan {
    let l = local_part(el.name);
    if l == "Tree"@ {
        TreeScan {
            ui_name: match attr_value(el.attrs, "UIName"@) {
                Some(u) => u,
                None => Seq::empty(),
            },
            ..s
        }
    } else if l == "Skill"@ {
        match node_of(el) {
            Some(n) => TreeScan { nodes: s.nodes.push(n), ..s },
            None => s,
        }
    } else {
        s
    }
}

pub open spec fn tree_run(events: Seq<EventView>) -> TreeScan
    decreases events.len(),
{
    if events.len() == 0 {
        TreeScan { ui_name: Seq::empty(), nodes: Seq::empty() }
    } else {
        let s = tree_run(events.drop_last());
        match events.last() {
            EventView::Start(el) => tree_step(s, el),
            EventView::Empty(el) => tree_step(s, el),
            _ => s,
        }
    }
}

/// The node names of an `Unlock` list.
pub fn split_unlock(s: &str) -> (out: Vec<String>)
    ensures
        out.deep_view() == unlock_list(s@),
{
    let chars = to_chars(s);
    let mut out: Vec<String> = Vec::new();
    let mut cur = String::new();
    let mut i: usize = 0;
    assert(chars@.take(0) =~= Seq::<char>::empty());
    assert(out.deep_view() =~= Seq::<Seq<char>>::empty());
    while i < chars.len()
        invariant
            chars@ == s@,
            i <= chars@.len(),
            comma_pieces(chars@.take(i as int)).len() > 0,
            cur@ == comma_pieces(chars@.take(i as int)).last(),
            out.deep_view() == non_empty(comma_pieces(chars@.take(i as int)).drop_last()),
        decreases chars@.len() - i,
    {
        let ghost p = comma_pieces(chars@.take(i as int));
        assert(chars@.take(i + 1).drop_last() == chars@.take(i as int));
        assert(chars@.take(i + 1).last() == chars@[i as int]);
        if chars[i] == ',' {
            let ghost before = out.deep_view();
            assert(p.push(Seq::<char>::empty()).drop_last() == p);
            assert(p == p.drop_last().push(p.last()));
            if !cur.as_str().is_empty() {
                out.push(cur);
                assert(out.deep_view() =~= before.push(p.last()));
            }
            cur = String::new();
        } else {
            push_char(&mut cur, chars[i]);
            assert(p.update(p.len() - 1, p.last().push(chars@[i as int])).drop_last() =~= p.drop_last());
        }
        i = i + 1;
    }
    let ghost p = comma_pieces(chars@);
    assert(chars@.take(i as int) == chars@);
    assert(p == p.drop_last().push(p.last()));
    if !cur.as_str().is_empty() {
        let ghost before = out.deep_view();
        out.push(cur);
        assert(out.deep_view() =~= before.push(p.last()));
    }
    out
}

/// A number attribute's text, or the default.
fn number_text(v: Option<String>, default: &str) -> (t: String)
    ensures
        t@ == number_or(v.deep_view(), default@),
{
    match v {
        Some(t) => if is_float_text(t.as_str()) {
            t
        } else {
            String::from_str(default)
        },
        None => String::from_str(default),
    }
}

/// The node a `<Skill>` of a tree describes, where it has a name.
fn node_from(el: &XmlElement) -> (n: Option<PassiveNode>)
    ensures
        n.deep_view() == node_of(el.deep_view()),
{
    let name = match attribute(el, "Name") {
        Some(n) => n,
        None => String::new(),
    };
    if name.as_str().is_empty() {
        return None;
    }
    let rarity = match attribute(el, "Rarity") {
        Some(r) => match parse_u32(r.as_str()) {
            Some(n) => n,
            None => 1,
        },
        None => 1,
    };
    let angle = number_text(attribute(el, "Angle"), "0.5");
    let pos = number_text(attribute(el, "Pos"), "0.5");
    let unlock_text = match attribute(el, "Unlock") {
        Some(u) => u,
        None => String::new(),
    };
    let unlock = split_unlock(unlock_text.as_str());
    Some(PassiveNode { name, rarity, angle, pos, unlock })
}

/// The file of a section, relative to the Umbra root.
pub fn section_file(section: &str) -> (f: String)
    ensures
        f@ == passive_trees_dir() + "/"@ + section@ + "_tree.xml"@,
{
    let a = concat("Skills/Trees/PassiveSkills", "/");
    let b = concat(a.as_str(), section);
    concat(b.as_str(), "_tree.xml")
}

/// A section of the tree from its file's XML: its UI name (from the last
/// `<Tree>`) and its named nodes in file order.
pub fn get_section(section: &str, xml: &str) -> (res: Result<PassiveSection, XmlError>)
    ensures
        match res {
            Ok(s) => xml_document(xml@) matches Some(evs) && s.name@ == section@ && s.ui_name@
                == tree_run(evs).ui_name && s.nodes.deep_view() == tree_run(evs).nodes,
            Err(_) => xml_document(xml@) is None,
        },
{
    let events = read_document(xml)?;
    let ghost evs = events.deep_view();
    let mut ui_name = String::new();
    let mut nodes: Vec<PassiveNode> = Vec::new();
    let mut i: usize = 0;
    assert(evs.take(0) =~= Seq::<EventView>::empty());
    assert(nodes.deep_view() =~= Seq::<PassiveNodeView>::empty());
    while i < events.len()
        invariant
            evs == events.deep_view(),
            i <= evs.len(),
            tree_run(evs.take(i as int)) == (TreeScan { ui_name: ui_name@, nodes: nodes.deep_view() }),
        decreases evs.len() - i,
    {
        assert(evs.take(i + 1).drop_last() == evs.take(i as int));
        let el = match &events[i] {
            XmlEvent::Start(el) => Some(el),
            XmlEvent::Empty(el) => Some(el),
            _ => None,
        };
        match el {
            Some(el) => {
                let l = local_name(&el.name);
                if is_text(&l, "Tree") {
                    ui_name = match attribute(el, "UIName") {
                        Some(u) => u,
                        None => String::new(),
                    };
                } else if is_text(&l, "Skill") {
                    match node_from(el) {
                        Some(n) => {
                            let ghost before = nodes.deep_view();
                            nodes.push(n);
                            assert(nodes.deep_view() =~= before.push(n.deep_view()));
                        },
                        None => {},
                    }
                }
            },
            None => {},
        }
        i = i + 1;
    }
    assert(evs.take(evs.len() as int) == evs);
    Ok(PassiveSection { name: String::from_str(section), ui_name, nodes })
}

/// The text without every trailing copy of `p` (`str::trim_end_matches`).
pub open spec fn trim_end_matches(s: Seq<char>, p: Seq<char>) -> Seq<char>
    decreases s.len(),
{
    if p.len() > 0 && ends_with(s, p) {
        trim_end_matches(s.take(s.len() - p.len()), p)
    } else {
        s
    }
}

/// The section summaries of the entry names of the tree directory, in the
/// order they were listed.
pub open spec fn sections_of(names: Seq<Seq<char>>) -> Seq<(Seq<char>, Seq<char>)>
    decreases names.len(),
{
    if names.len() == 0 {
        Seq::empty()
    } else {
        let rest = sections_of(names.drop_last());
        if ends_with(names.last(), "_tree.xml"@) {
            rest.push(
                (
                    trim_end_matches(names.last(), "_tree.xml"@),
                    passive_trees_dir() + "/"@ + names.last(),
                ),
            )
        } else {
            rest
        }
    }
}

pub open spec fn section_le(a: (Seq<char>, Seq<char>), b: (Seq<char>, Seq<char>)) -> bool {
    text_le(a.0, b.0)
}

/// The name without every trailing `_tree.xml`.
fn trim_tree_suffix(name: &String) -> (r: String)
    ensures
        r@ == trim_end_matches(name@, "_tree.xml"@),
{
    let chars = to_chars(name.as_str());
    let suffix = to_chars("_tree.xml");
    proof {
        reveal_strlit("_tree.xml");
    }
    let mut end = chars.len();
    assert(chars@.take(end as int) == chars@);
    loop
        invariant
            end <= chars@.len(),
            suffix@ == "_tree.xml"@,
            trim_end_matches(name@, "_tree.xml"@) == trim_end_matches(chars@.take(end as int), "_tree.xml"@),
            chars@ == name@,
        decreases end,
    {
        let part = from_char_range(&chars, 0, end);
        let pc = to_chars(part.as_str());
        assert(pc@ == chars@.take(end as int));
        proof {
            reveal_strlit("_tree.xml");
        }
        if ends_with_exec(&pc, &suffix) {
            assert(chars@.take(end as int).take(end - 9) == chars@.take(end - 9));
            end = end - 9;
        } else {
            return part;
        }
    }
}

/// The passive tree sections among the entry names of the tree directory
/// (as listed), ordered by name.
pub fn list_sections(names: &Vec<String>) -> (out: Vec<SectionSummary>)
    ensures
        out.deep_view() == stable_sort(
            sections_of(names.deep_view()),
            |a: (Seq<char>, Seq<char>), b: (Seq<char>, Seq<char>)| section_le(a, b),
        ),
{
    let ghost nv = names.deep_view();
    let suffix = to_chars("_tree.xml");
    let mut found: Vec<SectionSummary> = Vec::new();
    let mut i: usize = 0;
    assert(nv.take(0) =~= Seq::<Seq<char>>::empty());
    assert(found.deep_view() =~= Seq::<(Seq<char>, Seq<char>)>::empty());
    while i < names.len()
        invariant
            nv == names.deep_view(),
            suffix@ == "_tree.xml"@,
            i <= nv.len(),
            found.deep_view() == sections_of(nv.take(i as int)),
        decreases nv.len() - i,
    {
        assert(nv.take(i + 1).drop_last() == nv.take(i as int));
        let chars = to_chars(names[i].as_str());
        if ends_with_exec(&chars, &suffix) {
            let name = trim_tree_suffix(&names[i]);
            let dir = concat("Skills/Trees/PassiveSkills", "/");
            let file = concat(dir.as_str(), names[i].as_str());
            let ghost before = found.deep_view();
            let s = SectionSummary { name, file };
            found.push(s);
            assert(found.deep_view() =~= before.push(s.deep_view()));
        }
        i = i + 1;
    }
    assert(nv.take(nv.len() as int) == nv);
    sort_sections(found)
}

/// Where a stable insertion by name places `x` among `out`.
fn section_insert_index(out: &Vec<SectionSummary>, x: &SectionSummary) -> (p: usize)
    ensures
        p == insert_index(
            out.deep_view(),
            x.deep_view(),
            |a: (Seq<char>, Seq<char>), b: (Seq<char>, Seq<char>)| section_le(a, b),
        ),
        p <= out@.len(),
{
    let ghost le = |a: (Seq<char>, Seq<char>), b: (Seq<char>, Seq<char>)| section_le(a, b);
    let ghost sorted = out.deep_view();
    let mut p = out.len();
    assert(sorted.take(p as int) == sorted);
    while p > 0 && !text_leq(&out[p - 1].name, &x.name)
        invariant
            p <= sorted.len(),
            sorted == out.deep_view(),
            le == (|a: (Seq<char>, Seq<char>), b: (Seq<char>, Seq<char>)| section_le(a, b)),
            insert_index(sorted, x.deep_view(), le) == insert_index(
                sorted.take(p as int),
                x.deep_view(),
                le,
            ),
        decreases p,
    {
        assert(sorted.take(p as int).last() == sorted[p - 1]);
        assert(sorted.take(p as int).drop_last() == sorted.take(p - 1));
        p = p - 1;
    }
    proof {
        if p > 0 {
            assert(sorted.take(p as int).last() == sorted[p - 1]);
        }
    }
    p
}

/// The summaries ordered by name, equal names keeping their order.
fn sort_sections(items: Vec<SectionSummary>) -> (out: Vec<SectionSummary>)
    ensures
        out.deep_view() == stable_sort(
            items.deep_view(),
            |a: (Seq<char>, Seq<char>), b: (Seq<char>, Seq<char>)| section_le(a, b),
        ),
{
    let ghost orig = items.deep_view();
    let ghost le = |a: (Seq<char>, Seq<char>), b: (Seq<char>, Seq<char>)| section_le(a, b);
    let total = items.len();
    let mut rest = items;
    let mut out: Vec<SectionSummary> = Vec::new();
    let mut k: usize = 0;
    assert(orig.take(0) =~= Seq::<(Seq<char>, Seq<char>)>::empty());
    assert(out.deep_view() =~= Seq::<(Seq<char>, Seq<char>)>::empty());
    assert(rest.deep_view() == orig.skip(0));
    while rest.len() > 0
        invariant
            k <= orig.len() == total,
            rest.deep_view() == orig.skip(k as int),
            out.deep_view() == stable_sort(orig.take(k as int), le),
            le == (|a: (Seq<char>, Seq<char>), b: (Seq<char>, Seq<char>)| section_le(a, b)),
        decreases rest.len(),
    {
        let ghost rv = rest.deep_view();
        assert(k < orig.len()) by {
            assert(rv.len() == orig.len() - k);
        }
        let x = take_first(&mut rest);
        assert(x.deep_view() == orig[k as int]) by {
            assert(rv[0] == orig.skip(k as int)[0]);
        }
        assert(rest.deep_view() =~= orig.skip(k + 1));
        let ghost sorted = out.deep_view();
        let p = section_insert_index(&out, &x);
        let ghost xv = x.deep_view();
        out.insert(p, x);
        assert(out.deep_view() =~= sorted.insert(p as int, xv));
        assert(orig.take(k + 1).drop_last() == orig.take(k as int));
        k = k + 1;
    }
    assert(orig.take(k as int) == orig);
    out
}

/// A section listing is sorted by section name and lists each tree file's
/// section (same entries, same number of times).
pub proof fn law_section_listing_sorted(names: Seq<Seq<char>>)
    ensures
        sorted_by(
            stable_sort(sections_of(names), |a: (Seq<char>, Seq<char>), b: (Seq<char>, Seq<char>)| section_le(a, b)),
            |a: (Seq<char>, Seq<char>), b: (Seq<char>, Seq<char>)| section_le(a, b),
        ),
        stable_sort(sections_of(names), |a: (Seq<char>, Seq<char>), b: (Seq<char>, Seq<char>)| section_le(a, b)).to_multiset()
            == sections_of(names).to_multiset(),
{
    let le = |a: (Seq<char>, Seq<char>), b: (Seq<char>, Seq<char>)| section_le(a, b);
    assert forall|a: (Seq<char>, Seq<char>), b: (Seq<char>, Seq<char>)| #[trigger] le(a, b) || le(b, a) by {
        lemma_text_le_total(a.0, b.0);
    }
    assert forall|a: (Seq<char>, Seq<char>), b: (Seq<char>, Seq<char>), c: (Seq<char>, Seq<char>)| #[trigger] le(a, b) && #[trigger] le(b, c) implies le(a, c) by {
        lemma_text_le_transitive(a.0, b.0, c.0);
    }
    law_stable_sort_sorted(sections_of(names), le);
    law_stable_sort_permutes(sections_of(names), le);
}

/// Sections ordered as a section listing orders them.
pub open spec fn by_section_name(s: Seq<(Seq<char>, Seq<char>)>) -> Seq<(Seq<char>, Seq<char>)> {
    stable_sort(s, |a: (Seq<char>, Seq<char>), b: (Seq<char>, Seq<char>)| section_le(a, b))
}

/// A section listing is in text order of section name.
pub proof fn law_section_listing_by_name(names: Seq<Seq<char>>)
    ensures
        forall|i: int, j: int|
            0 <= i < j < by_section_name(sections_of(names)).len() ==> text_le(
                (#[trigger] by_section_name(sections_of(names))[i]).0,
                (#[trigger] by_section_name(sections_of(names))[j]).0,
            ),
{
    law_section_listing_sorted(names);
    let l = by_section_name(sections_of(names));
    assert forall|i: int, j: int| 0 <= i < j < l.len() implies text_le(
        (#[trigger] l[i]).0,
        (#[trigger] l[j]).0,
    ) by {
        assert(section_le(l[i], l[j]));
    }
}

} // verus!
