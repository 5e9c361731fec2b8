//! Exporting a mod: the edits grouped by file, each file rewritten with its
//! edits applied, and the install notes.

use vstd::prelude::*;

use crate::order::text_le;
use crate::order::{
    insert_index, law_stable_sort_permutes, law_stable_sort_sorted, lemma_text_le_total,
    lemma_text_le_transitive, sorted_by, stable_sort, take_first, text_leq,
};
use crate::text::{alphanumeric, concat, decimal, is_alphanumeric, push_char, to_chars, usize_text};
use crate::xml::{
    attr_value, attribute, is_text, local_name, local_part, read_document, xml_document,
    ElementView, EventView, XmlElement, XmlError, XmlEvent,
};

verus! {

/// A change to one attribute of a perk's effect element.
pub struct SkillEdit {
    pub file: String,
    pub uid: String,
    pub element: String,
    pub attr: String,
    /// The new value, as the text to write.
    pub value: String,
}

/// A change to one attribute of a passive node's effect.
pub struct PassiveEdit {
    pub file: String,
    pub node: String,
    pub eim: String,
    pub attr: String,
    /// The new value, as the text to write.
    pub value: String,
}

pub struct ExportRequest {
    pub mod_name: String,
    pub skill_edits: Vec<SkillEdit>,
    pub passive_edits: Vec<PassiveEdit>,
}

pub struct ExportResult {
    pub pak: String,
    pub folder: String,
    pub files: usize,
    pub changes: usize,
}

/// A single attribute change scoped to a context inside a file.
pub enum Rule {
    /// Set `attr` on element `element` inside `<Skill UID=uid>`.
    Skill { uid: String, element: String, attr: String, value: String },
    /// Set `attr` on `<Semantics>` inside `<Spell Name=node><EIM Name=eim>`.
    Passive { node: String, eim: String, attr: String, value: String },
}

pub enum RuleView {
    Skill { uid: Seq<char>, element: Seq<char>, attr: Seq<char>, value: Seq<char> },
    Passive { node: Seq<char>, eim: Seq<char>, attr: Seq<char>, value: Seq<char> },
}

impl DeepView for Rule {
    type V = RuleView;

    open spec fn deep_view(&self) -> RuleView {
        match self {
            Rule::Skill { uid, element, attr, value } => RuleView::Skill {
                uid: uid@,
                element: element@,
                attr: attr@,
                value: value@,
            },
            Rule::Passive { node, eim, attr, value } => RuleView::Passive {
                node: node@,
                eim: eim@,
                attr: attr@,
                value: value@,
            },
        }
    }
}

/// An open element on the way through a file: its local name and the key
/// that names it (`UID` of a `Skill`, `Name` of a `Spell` or `EIM`).
pub type Frame = (Seq<char>, Option<Seq<char>>);

/// The context an element stands in.
pub struct Ctx {
    pub skill_uid: Option<Seq<char>>,
    pub spell: Option<Seq<char>>,
    pub eim: Option<Seq<char>>,
}

/// The key that names an element of the context.
pub open spec fn key_attr_of(lname: Seq<char>, el: ElementView) -> Option<Seq<char>> {
    if lname == "Skill"@ {
        attr_value(el.attrs, "UID"@)
    } else if lname == "Spell"@ || lname == "EIM"@ {
        attr_value(el.attrs, "Name"@)
    } else {
        None
    }
}

/// The key of the innermost open element called `name` that has one.
pub open spec fn innermost_key(stack: Seq<Frame>, name: Seq<char>) -> Option<Seq<char>>
    decreases stack.len(),
{
    if stack.len() == 0 {
        None
    } else if stack.last().0 == name && stack.last().1 is Some {
        stack.last().1
    } else {
        innermost_key(stack.drop_last(), name)
    }
}

pub open spec fn ctx_of(stack: Seq<Frame>) -> Ctx {
    Ctx {
        skill_uid: innermost_key(stack, "Skill"@),
        spell: innermost_key(stack, "Spell"@),
        eim: innermost_key(stack, "EIM"@),
    }
}

/// The change a rule makes to an element with local name `lname` in `ctx`.
pub open spec fn rule_target(lname: Seq<char>, ctx: Ctx, r: RuleView) -> Option<(Seq<char>, Seq<char>)> {
    match r {
        RuleView::Skill { uid, element, attr, value } => if lname == element && ctx.skill_uid
            == Some(uid) {
            Some((attr, value))
        } else {
            None
        },
        RuleView::Passive { node, eim, attr, value } => if lname == "Semantics"@ && ctx.spell
            == Some(node) && ctx.eim == Some(eim) {
            Some((attr, value))
        } else {
            None
        },
    }
}

/// Which (attr -> value) changes apply to this element in this context, in
/// rule order.
pub open spec fn targets(lname: Seq<char>, ctx: Ctx, rules: Seq<RuleView>) -> Seq<(Seq<char>, Seq<char>)>
    decreases rules.len(),
{
    if rules.len() == 0 {
        Seq::empty()
    } else {
        let rest = targets(lname, ctx, rules.drop_last());
        match rule_target(lname, ctx, rules.last()) {
            Some(c) => rest.push(c),
            None => rest,
        }
    }
}

/// The value of the first change for `key`.
pub open spec fn change_for(changes: Seq<(Seq<char>, Seq<char>)>, key: Seq<char>) -> Option<Seq<char>>
    decreases changes.len(),
{
    if changes.len() == 0 {
        None
    } else if changes[0].0 == key {
        Some(changes[0].1)
    } else {
        change_for(changes.drop_first(), key)
    }
}

/// quick-xml's escaping of one character of an attribute value.
pub open spec fn escape_char(c: char) -> Seq<char> {
    if c == '<' {
        "&lt;"@
    } else if c == '>' {
        "&gt;"@
    } else if c == '&' {
        "&amp;"@
    } else if c == '\'' {
        "&apos;"@
    } else if c == '"' {
        "&quot;"@
    } else {
        seq![c]
    }
}

/// `quick_xml::escape::escape`: `<`, `>`, `&`, `'` and `"` replaced by
/// their entities.
pub open spec fn xml_escape(s: Seq<char>) -> Seq<char>
    decreases s.len(),
{
    if s.len() == 0 {
        Seq::empty()
    } else {
        xml_escape(s.drop_last()) + escape_char(s.last())
    }
}

/// The text `BytesStart::push_attribute` appends for one attribute.
pub open spec fn attr_text(key: Seq<char>, value: Seq<char>) -> Seq<char> {
    " "@ + key + "=\""@ + xml_escape(value) + "\""@
}

/// The attributes written back, each with its change applied.
pub open spec fn rebuilt_attrs(attrs: Seq<(Seq<char>, Seq<char>)>, changes: Seq<(Seq<char>, Seq<char>)>) -> Seq<char>
    decreases attrs.len(),
{
    if attrs.len() == 0 {
        Seq::empty()
    } else {
        let v = match change_for(changes, attrs.last().0) {
            Some(nv) => nv,
            None => attrs.last().1,
        };
        rebuilt_attrs(attrs.drop_last(), changes) + attr_text(attrs.last().0, v)
    }
}

/// How many attributes have a change.
pub open spec fn changed_count(attrs: Seq<(Seq<char>, Seq<char>)>, changes: Seq<(Seq<char>, Seq<char>)>) -> nat
    decreases attrs.len(),
{
    if attrs.len() == 0 {
        0
    } else {
        changed_count(attrs.drop_last(), changes) + if change_for(changes, attrs.last().0) is Some {
            1nat
        } else {
            0nat
        }
    }
}

/// The content a tag is written with: unchanged where no change targets it,
/// else rebuilt from its name and attributes with the changes applied.
pub open spec fn tag_content(el: ElementView, changes: Seq<(Seq<char>, Seq<char>)>) -> Seq<char> {
    if changes.len() == 0 {
        el.content
    } else {
        el.name + rebuilt_attrs(el.attrs, changes)
    }
}

pub open spec fn tag_changes(el: ElementView, changes: Seq<(Seq<char>, Seq<char>)>) -> nat {
    if changes.len() == 0 {
        0
    } else {
        changed_count(el.attrs, changes)
    }
}

/// The state of a rewrite: the text written so far, the attribute changes
/// applied, and the open elements.
pub struct RewriteState {
    pub out: Seq<char>,
    pub applied: nat,
    pub stack: Seq<Frame>,
}

pub open spec fn rewrite_step(s: RewriteState, e: EventView, rules: Seq<RuleView>) -> RewriteState {
    match e {
        EventView::Start(el) => {
            let l = local_part(el.name);
            let ch = targets(l, ctx_of(s.stack), rules);
            RewriteState {
                out: s.out + "<"@ + tag_content(el, ch) + ">"@,
                applied: s.applied + tag_changes(el, ch),
                stack: s.stack.push((l, key_attr_of(l, el))),
            }
        },
        EventView::Empty(el) => {
            let l = local_part(el.name);
            let ch = targets(l, ctx_of(s.stack), rules);
            RewriteState {
                out: s.out + "<"@ + tag_content(el, ch) + "/>"@,
                applied: s.applied + tag_changes(el, ch),
                stack: s.stack,
            }
        },
        EventView::End(n) => RewriteState {
            out: s.out + "</"@ + n + ">"@,
            stack: if s.stack.len() > 0 {
                s.stack.drop_last()
            } else {
                s.stack
            },
            ..s
        },
        EventView::Text(raw, _) => RewriteState { out: s.out + raw, ..s },
        EventView::Other(m) => RewriteState { out: s.out + m, ..s },
    }
}

pub open spec fn rewrite_run(events: Seq<EventView>, rules: Seq<RuleView>) -> RewriteState
    decreases events.len(),
{
    if events.len() == 0 {
        RewriteState { out: Seq::empty(), applied: 0, stack: Seq::empty() }
    } else {
        rewrite_step(rewrite_run(events.drop_last(), rules), events.last(), rules)
    }
}

/// A count that stops at `usize::MAX`.
pub open spec fn capped(n: nat) -> usize {
    if n <= usize::MAX {
        n as usize
    } else {
        usize::MAX
    }
}

fn add_capped(a: usize, b: usize) -> (r: usize)
    ensures
        r == capped((a + b) as nat),
{
    if a > usize::MAX - b {
        usize::MAX
    } else {
        a + b
    }
}

/// Escapes an attribute value as quick-xml does.
pub fn escape(s: &str) -> (r: String)
    ensures
        r@ == xml_escape(s@),
{
    let chars = to_chars(s);
    let mut r = String::new();
    let mut i: usize = 0;
    assert(chars@.take(0) =~= Seq::<char>::empty());
    while i < chars.len()
        invariant
            i <= chars@.len(),
            chars@ == s@,
            r@ == xml_escape(chars@.take(i as int)),
        decreases chars@.len() - i,
    {
        assert(chars@.take(i + 1).drop_last() == chars@.take(i as int));
        let c = chars[i];
        if c == '<' {
            r.append("&lt;");
        } else if c == '>' {
            r.append("&gt;");
        } else if c == '&' {
            r.append("&amp;");
        } else if c == '\'' {
            r.append("&apos;");
        } else if c == '"' {
            r.append("&quot;");
        } else {
            push_char(&mut r, c);
            assert(seq![c] == escape_char(c));
        }
        i = i + 1;
    }
    assert(chars@.take(chars@.len() as int) == chars@);
    r
}

/// The key that names an element of the context.
pub(crate) fn key_of(lname: &String, el: &XmlElement) -> (k: Option<String>)
    ensures
        k.deep_view() == key_attr_of(lname@, el.deep_view()),
{
    if is_text(lname, "Skill") {
        attribute(el, "UID")
    } else if is_text(lname, "Spell") || is_text(lname, "EIM") {
        attribute(el, "Name")
    } else {
        None
    }
}

pub open spec fn frames_view(stack: Seq<(String, Option<String>)>) -> Seq<Frame> {
    Seq::new(stack.len(), |i: int| (stack[i].0@, stack[i].1.deep_view()))
}

/// The key of the innermost open element called `name` that has one.
pub(crate) fn innermost(stack: &Vec<(String, Option<String>)>, name: &str) -> (k: Option<String>)
    ensures
        k.deep_view() == innermost_key(frames_view(stack@), name@),
{
    let ghost frames = frames_view(stack@);
    let mut i = stack.len();
    assert(frames.take(i as int) == frames);
    while i > 0
        invariant
            frames == frames_view(stack@),
            i <= frames.len(),
            innermost_key(frames, name@) == innermost_key(frames.take(i as int), name@),
        decreases i,
    {
        assert(frames.take(i as int).last() == frames[i - 1]);
        assert(frames.take(i as int).drop_last() == frames.take(i - 1));
        if is_text(&stack[i - 1].0, name) {
            match &stack[i - 1].1 {
                Some(k) => {
                    return Some(k.clone());
                },
                None => {},
            }
        }
        i = i - 1;
    }
    None
}

/// The change a rule makes here, if any.
fn rule_change(lname: &String, uid: &Option<String>, spell: &Option<String>, eim: &Option<String>, r: &Rule) -> (c: Option<(String, String)>)
    ensures
        c.deep_view() == rule_target(
            lname@,
            Ctx { skill_uid: uid.deep_view(), spell: spell.deep_view(), eim: eim.deep_view() },
            r.deep_view(),
        ),
{
    match r {
        Rule::Skill { uid: ruid, element, attr, value } => {
            let hit = lname.eq(element) && match uid {
                Some(u) => u.eq(ruid),
                None => false,
            };
            if hit {
                Some((attr.clone(), value.clone()))
            } else {
                None
            }
        },
        Rule::Passive { node, eim: reim, attr, value } => {
            let hit = is_text(lname, "Semantics") && match spell {
                Some(s) => s.eq(node),
                None => false,
            } && match eim {
                Some(e) => e.eq(reim),
                None => false,
            };
            if hit {
                Some((attr.clone(), value.clone()))
            } else {
                None
            }
        },
    }
}

/// Which (attr -> value) changes apply to an element in the context of
/// `stack`.
fn targets_of(lname: &String, stack: &Vec<(String, Option<String>)>, rules: &Vec<Rule>) -> (out: Vec<(String, String)>)
    ensures
        out.deep_view() == targets(lname@, ctx_of(frames_view(stack@)), rules.deep_view()),
{
    let uid = innermost(stack, "Skill");
    let spell = innermost(stack, "Spell");
    let eim = innermost(stack, "EIM");
    let ghost ctx = ctx_of(frames_view(stack@));
    assert(ctx == Ctx { skill_uid: uid.deep_view(), spell: spell.deep_view(), eim: eim.deep_view() });
    let ghost rs = rules.deep_view();
    let mut out: Vec<(String, String)> = Vec::new();
    let mut i: usize = 0;
    assert(rs.take(0) =~= Seq::<RuleView>::empty());
    assert(out.deep_view() =~= Seq::<(Seq<char>, Seq<char>)>::empty());
    while i < rules.len()
        invariant
            rs == rules.deep_view(),
            ctx == (Ctx { skill_uid: uid.deep_view(), spell: spell.deep_view(), eim: eim.deep_view() }),
            i <= rs.len(),
            out.deep_view() == targets(lname@, ctx, rs.take(i as int)),
        decreases rs.len() - i,
    {
        assert(rs.take(i + 1).drop_last() == rs.take(i as int));
        let ghost before = out.deep_view();
        match rule_change(lname, &uid, &spell, &eim, &rules[i]) {
            Some(c) => {
                out.push(c);
                assert(out.deep_view() =~= before.push(out@.last().deep_view()));
            },
            None => {},
        }
        i = i + 1;
    }
    assert(rs.take(rs.len() as int) == rs);
    out
}

/// The value of the first change for `key`.
fn find_change(changes: &Vec<(String, String)>, key: &String) -> (v: Option<String>)
    ensures
        v.deep_view() == change_for(changes.deep_view(), key@),
{
    let ghost cs = changes.deep_view();
    let mut i: usize = 0;
    assert(cs.skip(0) == cs);
    while i < changes.len()
        invariant
            cs == changes.deep_view(),
            i <= cs.len(),
            change_for(cs, key@) == change_for(cs.skip(i as int), key@),
        decreases cs.len() - i,
    {
        assert(cs.skip(i as int)[0] == cs[i as int]);
        assert(cs.skip(i as int).drop_first() == cs.skip(i + 1));
        if changes[i].0.eq(key) {
            return Some(changes[i].1.clone());
        }
        i = i + 1;
    }
    None
}

/// The content of a tag with the changes applied, and how many attributes
/// changed (`BytesStart::new` with the name, then `push_attribute` for each
/// attribute, its value replaced where a change names it).
fn modify(el: &XmlElement, changes: &Vec<(String, String)>) -> (r: (String, usize))
    ensures
        r.0@ == tag_content(el.deep_view(), changes.deep_view()),
        r.1 == capped(tag_changes(el.deep_view(), changes.deep_view())),
{
    if changes.len() == 0 {
        return (el.content.clone(), 0);
    }
    let ghost attrs = el.attrs.deep_view();
    let ghost cs = changes.deep_view();
    let mut content = el.name.clone();
    let mut applied: usize = 0;
    let mut i: usize = 0;
    assert(attrs.take(0) =~= Seq::<(Seq<char>, Seq<char>)>::empty());
    while i < el.attrs.len()
        invariant
            attrs == el.attrs.deep_view(),
            cs == changes.deep_view(),
            i <= attrs.len(),
            content@ == el.name@ + rebuilt_attrs(attrs.take(i as int), cs),
            applied == capped(changed_count(attrs.take(i as int), cs)),
        decreases attrs.len() - i,
    {
        assert(attrs.take(i + 1).drop_last() == attrs.take(i as int));
        let a = &el.attrs[i];
        let v = match find_change(changes, &a.key) {
            Some(nv) => {
                applied = add_capped(applied, 1);
                nv
            },
            None => a.value.clone(),
        };
        let ev = escape(v.as_str());
        content.append(" ");
        content.append(a.key.as_str());
        content.append("=\"");
        content.append(ev.as_str());
        content.append("\"");
        i = i + 1;
    }
    assert(attrs.take(attrs.len() as int) == attrs);
    (content, applied)
}

/// Rewrites the events of a file with the rules applied: the text the
/// writer produces and the number of attribute changes applied.
pub fn rewrite_events(events: &Vec<XmlEvent>, rules: &Vec<Rule>) -> (r: (String, usize))
    ensures
        r.0@ == rewrite_run(events.deep_view(), rules.deep_view()).out,
        r.1 == capped(rewrite_run(events.deep_view(), rules.deep_view()).applied),
{
    let ghost evs = events.deep_view();
    let ghost rs = rules.deep_view();
    let mut out = String::new();
    let mut applied: usize = 0;
    let mut stack: Vec<(String, Option<String>)> = Vec::new();
    let mut i: usize = 0;
    assert(evs.take(0) =~= Seq::<EventView>::empty());
    assert(frames_view(stack@) =~= Seq::<Frame>::empty());
    while i < events.len()
        invariant
            evs == events.deep_view(),
            rs == rules.deep_view(),
            i <= evs.len(),
            rewrite_run(evs.take(i as int), rs).out == out@,
            capped(rewrite_run(evs.take(i as int), rs).applied) == applied,
            rewrite_run(evs.take(i as int), rs).stack == frames_view(stack@),
        decreases evs.len() - i,
    {
        assert(evs.take(i + 1).drop_last() == evs.take(i as int));
        let ghost prev = rewrite_run(evs.take(i as int), rs);
        match &events[i] {
            XmlEvent::Start(el) => {
                let l = local_name(&el.name);
                let ch = targets_of(&l, &stack, rules);
                let (content, n) = modify(el, &ch);
                out.append("<");
                out.append(content.as_str());
                out.append(">");
                applied = add_capped(applied, n);
                let k = key_of(&l, el);
                let ghost before = stack@;
                stack.push((l, k));
                assert(frames_view(stack@) =~= frames_view(before).push((l@, k.deep_view())));
            },
            XmlEvent::Empty(el) => {
                let l = local_name(&el.name);
                let ch = targets_of(&l, &stack, rules);
                let (content, n) = modify(el, &ch);
                out.append("<");
                out.append(content.as_str());
                out.append("/>");
                applied = add_capped(applied, n);
            },
            XmlEvent::End(n) => {
                let ghost before = stack@;
                if stack.len() > 0 {
                    stack.pop();
                    assert(frames_view(stack@) =~= frames_view(before).drop_last());
                }
                out.append("</");
                out.append(n.as_str());
                out.append(">");
            },
            XmlEvent::Text(raw, _) => {
                out.append(raw.as_str());
            },
            XmlEvent::Other(m) => {
                out.append(m.as_str());
            },
        }
        i = i + 1;
    }
    assert(evs.take(evs.len() as int) == evs);
    (out, applied)
}

/// Applies all rules for one file to its decoded XML, returning the new XML
/// and the number of attribute changes applied.
pub fn rewrite(xml: &str, rules: &Vec<Rule>) -> (res: Result<(String, usize), XmlError>)
    ensures
        match res {
            Ok((text, n)) => xml_document(xml@) matches Some(evs) && text@ == rewrite_run(
                evs,
                rules.deep_view(),
            ).out && n == capped(rewrite_run(evs, rules.deep_view()).applied),
            Err(_) => xml_document(xml@) is None,
        },
{
    let events = read_document(xml)?;
    Ok(rewrite_events(&events, rules))
}

} // verus!

verus! {

/// An ASCII letter or digit (these are alphanumeric).
pub open spec fn is_ascii_alnum(c: char) -> bool {
    ('a' <= c && c <= 'z') || ('A' <= c && c <= 'Z') || ('0' <= c && c <= '9')
}

/// A mod-name character kept as is (a letter, a digit, `_` or `-`); any
/// other becomes `_`. Among ASCII characters the letters and digits are the
/// alphanumeric ones.
pub open spec fn name_char(c: char) -> char {
    if c <= '\x7f' {
        if is_ascii_alnum(c) || c == '_' || c == '-' {
            c
        } else {
            '_'
        }
    } else if alphanumeric(c) {
        c
    } else {
        '_'
    }
}

/// The text without its leading `_`s.
pub open spec fn trim_start_underscores(s: Seq<char>) -> Seq<char>
    decreases s.len(),
{
    if s.len() > 0 && s[0] == '_' {
        trim_start_underscores(s.drop_first())
    } else {
        s
    }
}

/// The text without its trailing `_`s.
pub open spec fn trim_end_underscores(s: Seq<char>) -> Seq<char>
    decreases s.len(),
{
    if s.len() > 0 && s.last() == '_' {
        trim_end_underscores(s.drop_last())
    } else {
        s
    }
}

/// A mod name fit for a folder name: characters other than letters, digits,
/// `_` and `-` become `_`, `_`s at either end are dropped, and an empty name
/// becomes "MyWolcenMod".
pub open spec fn sanitized(name: Seq<char>) -> Seq<char> {
    let s = trim_end_underscores(trim_start_underscores(name.map_values(|c: char| name_char(c))));
    if s.len() == 0 {
        "MyWolcenMod"@
    } else {
        s
    }
}

/// The mod name, made fit for a folder name.
pub fn sanitize(name: &str) -> (r: String)
    ensures
        r@ == sanitized(name@),
{
    let chars = to_chars(name);
    let ghost mapped = name@.map_values(|c: char| name_char(c));
    let mut m: Vec<char> = Vec::new();
    let mut i: usize = 0;
    while i < chars.len()
        invariant
            chars@ == name@,
            mapped == name@.map_values(|c: char| name_char(c)),
            i <= chars@.len(),
            m@ == mapped.take(i as int),
        decreases chars@.len() - i,
    {
        let c = chars[i];
        let k = if is_alphanumeric(c) || c == '_' || c == '-' {
            c
        } else {
            '_'
        };
        m.push(k);
        assert(m@ =~= mapped.take(i + 1));
        i = i + 1;
    }
    assert(mapped.take(mapped.len() as int) == mapped);
    let mut lo: usize = 0;
    assert(m@.skip(0) == m@);
    while lo < m.len() && m[lo] == '_'
        invariant
            lo <= m@.len(),
            trim_start_underscores(m@) == trim_start_underscores(m@.skip(lo as int)),
        decreases m@.len() - lo,
    {
        assert(m@.skip(lo as int).drop_first() == m@.skip(lo + 1));
        lo = lo + 1;
    }
    let mut hi: usize = m.len();
    assert(m@.subrange(lo as int, hi as int) == m@.skip(lo as int));
    while hi > lo && m[hi - 1] == '_'
        invariant
            lo <= hi <= m@.len(),
            trim_end_underscores(trim_start_underscores(m@)) == trim_end_underscores(
                m@.subrange(lo as int, hi as int),
            ),
            trim_start_underscores(m@) == trim_start_underscores(m@.skip(lo as int)),
        decreases hi,
    {
        assert(m@.subrange(lo as int, hi as int).drop_last() == m@.subrange(lo as int, hi - 1));
        hi = hi - 1;
    }
    proof {
        if lo < m@.len() {
            assert(m@.skip(lo as int)[0] != '_');
        } else {
            assert(m@.skip(lo as int).len() == 0);
        }
        if hi > lo {
            assert(m@.subrange(lo as int, hi as int).last() != '_');
        }
    }
    if hi == lo {
        proof {
            reveal_strlit("MyWolcenMod");
        }
        String::from_str("MyWolcenMod")
    } else {
        crate::text::from_char_range(&m, lo, hi)
    }
}

/// A name fit for a folder: not empty, made of letters, digits, `_` and `-`
/// only, and with no `_` at either end.
pub open spec fn is_clean_name(s: Seq<char>) -> bool {
    &&& s.len() > 0
    &&& forall|i: int| 0 <= i < s.len() ==> name_char(#[trigger] s[i]) == s[i]
    &&& s[0] != '_'
    &&& s.last() != '_'
}

proof fn lemma_trim_start(s: Seq<char>)
    ensures
        trim_start_underscores(s) == s.skip(s.len() - trim_start_underscores(s).len()),
        trim_start_underscores(s).len() <= s.len(),
        trim_start_underscores(s).len() > 0 ==> trim_start_underscores(s)[0] != '_',
    decreases s.len(),
{
    if s.len() > 0 && s[0] == '_' {
        lemma_trim_start(s.drop_first());
        let t = trim_start_underscores(s);
        assert(s.drop_first().skip(s.drop_first().len() - t.len()) == s.skip(s.len() - t.len()));
    } else {
        assert(s.skip(0) == s);
    }
}

proof fn lemma_trim_end(s: Seq<char>)
    ensures
        trim_end_underscores(s) == s.take(trim_end_underscores(s).len() as int),
        trim_end_underscores(s).len() <= s.len(),
        trim_end_underscores(s).len() > 0 ==> trim_end_underscores(s).last() != '_',
    decreases s.len(),
{
    if s.len() > 0 && s.last() == '_' {
        lemma_trim_end(s.drop_last());
        let t = trim_end_underscores(s);
        assert(s.drop_last().take(t.len() as int) == s.take(t.len() as int));
    } else {
        assert(s.take(s.len() as int) == s);
    }
}

/// A sanitized mod name is fit for a folder.
pub proof fn law_sanitized_is_clean(name: Seq<char>)
    ensures
        is_clean_name(sanitized(name)),
{
    let m = name.map_values(|c: char| name_char(c));
    let a = trim_start_underscores(m);
    let b = trim_end_underscores(a);
    lemma_trim_start(m);
    lemma_trim_end(a);
    if b.len() == 0 {
        reveal_strlit("MyWolcenMod");
        let d = "MyWolcenMod"@;
        assert forall|i: int| 0 <= i < d.len() implies name_char(#[trigger] d[i]) == d[i] by {
            assert(is_ascii_alnum(d[i]));
        }
    } else {
        let k = m.len() - a.len();
        assert forall|i: int| 0 <= i < b.len() implies name_char(#[trigger] b[i]) == b[i] by {
            assert(b[i] == a[i]);
            assert(a[i] == m[k + i]);
            assert(m[k + i] == name_char(name[k + i]));
        }
        assert(b[0] == a[0]);
    }
}

/// A name already fit for a folder is kept as it is.
pub proof fn law_clean_name_kept(s: Seq<char>)
    requires
        is_clean_name(s),
    ensures
        sanitized(s) == s,
{
    let m = s.map_values(|c: char| name_char(c));
    assert(m =~= s);
    assert(trim_start_underscores(s) == s);
    assert(trim_end_underscores(s) == s);
}

/// A sanitized mod name is safe as a folder name: every ASCII character of
/// it is a letter, a digit, `_` or `-`, so no `/`, `\\`, `.`, `:` or space
/// reaches it, and every other character is alphanumeric.
pub proof fn law_sanitized_folder_safe(name: Seq<char>)
    ensures
        forall|i: int|
            0 <= i < sanitized(name).len() ==> {
                let c = #[trigger] sanitized(name)[i];
                &&& c <= '\x7f' ==> (is_ascii_alnum(c) || c == '_' || c == '-')
                &&& c > '\x7f' ==> alphanumeric(c)
                &&& c != '/' && c != '\\' && c != '.' && c != ':' && c != ' '
            },
{
    law_sanitized_is_clean(name);
    let s = sanitized(name);
    assert forall|i: int| 0 <= i < s.len() implies {
        let c = #[trigger] s[i];
        &&& c <= '\x7f' ==> (is_ascii_alnum(c) || c == '_' || c == '-')
        &&& c > '\x7f' ==> alphanumeric(c)
        &&& c != '/' && c != '\\' && c != '.' && c != ':' && c != ' '
    } by {
        assert(name_char(s[i]) == s[i]);
    }
}

proof fn lemma_trim_all_underscores(s: Seq<char>)
    requires
        forall|i: int| 0 <= i < s.len() ==> s[i] == '_',
    ensures
        trim_start_underscores(s).len() == 0,
    decreases s.len(),
{
    if s.len() > 0 {
        let r = s.drop_first();
        assert forall|i: int| 0 <= i < r.len() implies r[i] == '_' by {
            assert(r[i] == s[i + 1]);
        }
        lemma_trim_all_underscores(r);
    }
}

/// A name with no letter, digit or `-` (every character of it becomes `_`)
/// gets the default name.
pub proof fn law_sanitize_fallback(name: Seq<char>)
    requires
        forall|i: int| 0 <= i < name.len() ==> name_char(#[trigger] name[i]) == '_',
    ensures
        sanitized(name) == "MyWolcenMod"@,
{
    let m = name.map_values(|c: char| name_char(c));
    assert forall|i: int| 0 <= i < m.len() implies m[i] == '_' by {
        assert(name_char(name[i]) == '_');
    }
    lemma_trim_all_underscores(m);
}

/// Sanitizing twice gives what sanitizing once gives.
pub proof fn law_sanitize_idempotent(name: Seq<char>)
    ensures
        sanitized(sanitized(name)) == sanitized(name),
{
    law_sanitized_is_clean(name);
    law_clean_name_kept(sanitized(name));
}

/// The edits of a request as (file, rule) pairs: the skill edits, then the
/// passive edits, each in request order.
pub open spec fn edit_rules(skill: Seq<SkillEditView>, passive: Seq<PassiveEditView>) -> Seq<(Seq<char>, RuleView)> {
    skill.map_values(|e: SkillEditView| skill_rule(e)) + passive.map_values(
        |e: PassiveEditView| passive_rule(e),
    )
}

pub struct SkillEditView {
    pub file: Seq<char>,
    pub uid: Seq<char>,
    pub element: Seq<char>,
    pub attr: Seq<char>,
    pub value: Seq<char>,
}

pub struct PassiveEditView {
    pub file: Seq<char>,
    pub node: Seq<char>,
    pub eim: Seq<char>,
    pub attr: Seq<char>,
    pub value: Seq<char>,
}

impl DeepView for SkillEdit {
    type V = SkillEditView;

    open spec fn deep_view(&self) -> SkillEditView {
        SkillEditView { file: self.file@, uid: self.uid@, element: self.element@, attr: self.attr@, value: self.value@ }
    }
}

impl DeepView for PassiveEdit {
    type V = PassiveEditView;

    open spec fn deep_view(&self) -> PassiveEditView {
        PassiveEditView { file: self.file@, node: self.node@, eim: self.eim@, attr: self.attr@, value: self.value@ }
    }
}

/// The distinct files of the pairs, in order of first appearance.
pub open spec fn files_in_order(pairs: Seq<(Seq<char>, RuleView)>) -> Seq<Seq<char>>
    decreases pairs.len(),
{
    if pairs.len() == 0 {
        Seq::empty()
    } else {
        let rest = files_in_order(pairs.drop_last());
        if rest.contains(pairs.last().0) {
            rest
        } else {
            rest.push(pairs.last().0)
        }
    }
}

/// The rules for one file, in order.
pub open spec fn rules_for(pairs: Seq<(Seq<char>, RuleView)>, file: Seq<char>) -> Seq<RuleView>
    decreases pairs.len(),
{
    if pairs.len() == 0 {
        Seq::empty()
    } else {
        let rest = rules_for(pairs.drop_last(), file);
        if pairs.last().0 == file {
            rest.push(pairs.last().1)
        } else {
            rest
        }
    }
}

/// One file of the export and the rules applied to it.
pub struct FileRules {
    pub file: String,
    pub rules: Vec<Rule>,
}

impl DeepView for FileRules {
    type V = (Seq<char>, Seq<RuleView>);

    open spec fn deep_view(&self) -> (Seq<char>, Seq<RuleView>) {
        (self.file@, self.rules.deep_view())
    }
}

pub open spec fn file_le(a: (Seq<char>, Seq<RuleView>), b: (Seq<char>, Seq<RuleView>)) -> bool {
    text_le(a.0, b.0)
}

/// The files of an export with their rules, in text order of file.
pub open spec fn grouped(pairs: Seq<(Seq<char>, RuleView)>) -> Seq<(Seq<char>, Seq<RuleView>)> {
    stable_sort(
        files_in_order(pairs).map_values(|f: Seq<char>| (f, rules_for(pairs, f))),
        |a: (Seq<char>, Seq<RuleView>), b: (Seq<char>, Seq<RuleView>)| file_le(a, b),
    )
}

/// What an export writes: the mod's (folder) name and the files to rewrite.
pub struct ExportPlan {
    pub mod_name: String,
    pub files: Vec<FileRules>,
}

pub open spec fn skill_rule(e: SkillEditView) -> (Seq<char>, RuleView) {
    (e.file, RuleView::Skill { uid: e.uid, element: e.element, attr: e.attr, value: e.value })
}

pub open spec fn passive_rule(e: PassiveEditView) -> (Seq<char>, RuleView) {
    (e.file, RuleView::Passive { node: e.node, eim: e.eim, attr: e.attr, value: e.value })
}

/// The skill edits as (file, rule) pairs.
fn skill_pairs(edits: Vec<SkillEdit>) -> (out: Vec<(String, Rule)>)
    ensures
        out.deep_view() == edits.deep_view().map_values(|e: SkillEditView| skill_rule(e)),
{
    let ghost sv = edits.deep_view();
    let mut out: Vec<(String, Rule)> = Vec::new();
    let mut rest = edits;
    let mut k: usize = 0;
    let total = rest.len();
    assert(out.deep_view() =~= sv.take(0).map_values(|e: SkillEditView| skill_rule(e)));
    assert(rest.deep_view() == sv.skip(0));
    while rest.len() > 0
        invariant
            k <= sv.len() == total,
            rest.deep_view() == sv.skip(k as int),
            out.deep_view() == sv.take(k as int).map_values(|e: SkillEditView| skill_rule(e)),
        decreases rest.len(),
    {
        let ghost rv = rest.deep_view();
        assert(k < sv.len()) by {
            assert(rv.len() == sv.len() - k);
        }
        let e = take_first(&mut rest);
        assert(e.deep_view() == sv[k as int]) by {
            assert(rv[0] == sv.skip(k as int)[0]);
        }
        assert(rest.deep_view() =~= sv.skip(k + 1));
        let ghost before = out.deep_view();
        out.push((e.file, Rule::Skill { uid: e.uid, element: e.element, attr: e.attr, value: e.value }));
        assert(out.deep_view() =~= sv.take(k + 1).map_values(|e: SkillEditView| skill_rule(e))) by {
            assert(out.deep_view() =~= before.push(out@.last().deep_view()));
        }
        k = k + 1;
    }
    assert(sv.take(k as int) == sv);
    out
}

/// The passive edits as (file, rule) pairs.
fn passive_pairs(edits: Vec<PassiveEdit>) -> (out: Vec<(String, Rule)>)
    ensures
        out.deep_view() == edits.deep_view().map_values(|e: PassiveEditView| passive_rule(e)),
{
    let ghost sv = edits.deep_view();
    let mut out: Vec<(String, Rule)> = Vec::new();
    let mut rest = edits;
    let mut k: usize = 0;
    let total = rest.len();
    assert(out.deep_view() =~= sv.take(0).map_values(|e: PassiveEditView| passive_rule(e)));
    assert(rest.deep_view() == sv.skip(0));
    while rest.len() > 0
        invariant
            k <= sv.len() == total,
            rest.deep_view() == sv.skip(k as int),
            out.deep_view() == sv.take(k as int).map_values(|e: PassiveEditView| passive_rule(e)),
        decreases rest.len(),
    {
        let ghost rv = rest.deep_view();
        assert(k < sv.len()) by {
            assert(rv.len() == sv.len() - k);
        }
        let e = take_first(&mut rest);
        assert(e.deep_view() == sv[k as int]) by {
            assert(rv[0] == sv.skip(k as int)[0]);
        }
        assert(rest.deep_view() =~= sv.skip(k + 1));
        let ghost before = out.deep_view();
        out.push((e.file, Rule::Passive { node: e.node, eim: e.eim, attr: e.attr, value: e.value }));
        assert(out.deep_view() =~= sv.take(k + 1).map_values(|e: PassiveEditView| passive_rule(e))) by {
            assert(out.deep_view() =~= before.push(out@.last().deep_view()));
        }
        k = k + 1;
    }
    assert(sv.take(k as int) == sv);
    out
}

/// The edits of a request as (file, rule) pairs.
fn edit_pairs(skill_edits: Vec<SkillEdit>, passive_edits: Vec<PassiveEdit>) -> (out: Vec<(String, Rule)>)
    ensures
        out.deep_view() == edit_rules(skill_edits.deep_view(), passive_edits.deep_view()),
{
    let mut out = skill_pairs(skill_edits);
    let mut second = passive_pairs(passive_edits);
    let ghost a = out.deep_view();
    let ghost b = second.deep_view();
    let ghost ra = out@;
    let ghost rb = second@;
    out.append(&mut second);
    assert(out@ == ra + rb);
    assert(out.deep_view() =~= a + b);
    out
}

} // verus!

verus! {

/// Every file of the pairs appears once in `files_in_order`, and a file that
/// does not appear has no rules.
pub proof fn lemma_files_in_order(pairs: Seq<(Seq<char>, RuleView)>)
    ensures
        forall|i: int, j: int|
            0 <= i < j < files_in_order(pairs).len() ==> files_in_order(pairs)[i]
                != files_in_order(pairs)[j],
        forall|f: Seq<char>| !files_in_order(pairs).contains(f) ==> rules_for(pairs, f) == Seq::<RuleView>::empty(),
        forall|i: int| 0 <= i < pairs.len() ==> files_in_order(pairs).contains(#[trigger] pairs[i].0),
    decreases pairs.len(),
{
    if pairs.len() > 0 {
        let rest = pairs.drop_last();
        lemma_files_in_order(rest);
        let fr = files_in_order(rest);
        let fp = files_in_order(pairs);
        if fr.contains(pairs.last().0) {
            assert(fp == fr);
        } else {
            assert(fp == fr.push(pairs.last().0));
            assert(fp[fp.len() - 1] == pairs.last().0);
        }
        assert(fp.contains(pairs.last().0));
        assert forall|x: Seq<char>| fr.contains(x) implies fp.contains(x) by {
            let w = choose|w: int| 0 <= w < fr.len() && fr[w] == x;
            assert(fp[w] == x);
        }
        assert forall|i: int| 0 <= i < pairs.len() implies fp.contains(#[trigger] pairs[i].0) by {
            if i < pairs.len() - 1 {
                assert(rest[i] == pairs[i]);
                assert(fr.contains(pairs[i].0));
                let w = choose|w: int| 0 <= w < fr.len() && fr[w] == pairs[i].0;
                if !fr.contains(pairs.last().0) {
                    assert(fp[w] == pairs[i].0);
                }
            } else {
                if !fr.contains(pairs.last().0) {
                    assert(fp[fp.len() - 1] == pairs.last().0);
                }
            }
        }
        assert forall|f: Seq<char>| !fp.contains(f) implies rules_for(pairs, f) == Seq::<RuleView>::empty() by {
            assert(!fr.contains(f));
            assert(rules_for(rest, f) == Seq::<RuleView>::empty());
            assert(pairs.last().0 != f);
        }
    }
}

/// Every file that appears in the pairs has rules.
proof fn lemma_files_have_rules(pairs: Seq<(Seq<char>, RuleView)>, f: Seq<char>)
    requires
        files_in_order(pairs).contains(f),
    ensures
        rules_for(pairs, f).len() > 0,
    decreases pairs.len(),
{
    if pairs.len() > 0 && pairs.last().0 != f {
        let fr = files_in_order(pairs.drop_last());
        if !fr.contains(pairs.last().0) {
            let w = choose|w: int| 0 <= w < files_in_order(pairs).len() && files_in_order(pairs)[w] == f;
            assert(w < fr.len());
            assert(fr[w] == f);
        }
        lemma_files_have_rules(pairs.drop_last(), f);
    }
}

/// An export plan rewrites each edited file once, in text order of file name,
/// with all the edits made to it, and no file without edits.
pub proof fn law_export_plan_groups(pairs: Seq<(Seq<char>, RuleView)>)
    ensures
        sorted_by(
            grouped(pairs),
            |a: (Seq<char>, Seq<RuleView>), b: (Seq<char>, Seq<RuleView>)| file_le(a, b),
        ),
        forall|i: int, j: int|
            0 <= i < j < grouped(pairs).len() ==> #[trigger] grouped(pairs)[i].0
                != #[trigger] grouped(pairs)[j].0,
        forall|j: int|
            0 <= j < grouped(pairs).len() ==> (#[trigger] grouped(pairs)[j]).1 == rules_for(
                pairs,
                grouped(pairs)[j].0,
            ) && grouped(pairs)[j].1.len() > 0,
        forall|i: int|
            0 <= i < pairs.len() ==> exists|j: int|
                0 <= j < grouped(pairs).len() && #[trigger] grouped(pairs)[j].0 == (
                #[trigger] pairs[i]).0,
{
    broadcast use vstd::seq_lib::group_to_multiset_ensures;

    let le = |a: (Seq<char>, Seq<RuleView>), b: (Seq<char>, Seq<RuleView>)| file_le(a, b);
    assert forall|a: (Seq<char>, Seq<RuleView>), b: (Seq<char>, Seq<RuleView>)| #[trigger] le(a, b) || le(b, a) by {
        lemma_text_le_total(a.0, b.0);
    }
    assert forall|
        a: (Seq<char>, Seq<RuleView>),
        b: (Seq<char>, Seq<RuleView>),
        c: (Seq<char>, Seq<RuleView>),
    | #[trigger] le(a, b) && #[trigger] le(b, c) implies le(a, c) by {
        lemma_text_le_transitive(a.0, b.0, c.0);
    }
    let files = files_in_order(pairs);
    let base = files.map_values(|f: Seq<char>| (f, rules_for(pairs, f)));
    let g = grouped(pairs);
    law_stable_sort_sorted(base, le);
    law_stable_sort_permutes(base, le);
    lemma_files_in_order(pairs);
    assert(base.no_duplicates()) by {
        assert forall|i: int, j: int| 0 <= i < base.len() && 0 <= j < base.len() && i != j implies base[i] != base[j] by {
            if i < j {
                assert(files[i] != files[j]);
            } else {
                assert(files[j] != files[i]);
            }
        }
    }
    base.lemma_multiset_has_no_duplicates();
    g.lemma_multiset_has_no_duplicates_conv();
    assert(g.to_multiset() == base.to_multiset());
    assert forall|j: int| 0 <= j < g.len() implies base.contains(#[trigger] g[j]) by {
        assert(g.contains(g[j]));
        assert(g.to_multiset().count(g[j]) > 0);
        assert(base.to_multiset().count(g[j]) > 0);
    }
    assert forall|j: int| 0 <= j < g.len() implies (#[trigger] g[j]).1 == rules_for(pairs, g[j].0) && g[j].1.len() > 0 by {
        assert(base.contains(g[j]));
        let k = choose|k: int| 0 <= k < base.len() && base[k] == g[j];
        assert(files.contains(files[k]));
        lemma_files_have_rules(pairs, files[k]);
    }
    assert forall|i: int, j: int| 0 <= i < j < g.len() implies #[trigger] g[i].0 != #[trigger] g[j].0 by {
        assert(base.contains(g[i]) && base.contains(g[j]));
        if g[i].0 == g[j].0 {
            assert(g[i] == g[j]);
        }
    }
    assert forall|i: int| 0 <= i < pairs.len() implies exists|j: int|
        0 <= j < g.len() && #[trigger] g[j].0 == (#[trigger] pairs[i]).0 by {
        assert(files.contains(pairs[i].0));
        let k = choose|k: int| 0 <= k < files.len() && files[k] == pairs[i].0;
        assert(base[k] == (pairs[i].0, rules_for(pairs, pairs[i].0)));
        assert(base.contains(base[k]));
        assert(base.to_multiset().count(base[k]) > 0);
        assert(g.to_multiset().count(base[k]) > 0);
        assert(g.contains(base[k]));
        let j = choose|j: int| 0 <= j < g.len() && g[j] == base[k];
        assert(g[j].0 == pairs[i].0);
    }
}

proof fn lemma_rules_for_has(pairs: Seq<(Seq<char>, RuleView)>, i: int)
    requires
        0 <= i < pairs.len(),
    ensures
        rules_for(pairs, pairs[i].0).contains(pairs[i].1),
    decreases pairs.len(),
{
    let f = pairs[i].0;
    if i == pairs.len() - 1 {
        let r = rules_for(pairs, f);
        assert(r[r.len() - 1] == pairs[i].1);
    } else {
        let p = pairs.drop_last();
        assert(p[i] == pairs[i]);
        lemma_rules_for_has(p, i);
        let rp = rules_for(p, f);
        let w = choose|w: int| 0 <= w < rp.len() && rp[w] == pairs[i].1;
        assert(rules_for(pairs, f)[w] == pairs[i].1);
    }
}

/// The pair a rule for `f` comes from.
spec fn from_pair(pairs: Seq<(Seq<char>, RuleView)>, f: Seq<char>, r: RuleView) -> bool {
    exists|i: int| 0 <= i < pairs.len() && #[trigger] pairs[i] == (f, r)
}

proof fn lemma_rules_for_from(pairs: Seq<(Seq<char>, RuleView)>, f: Seq<char>)
    ensures
        forall|k: int| 0 <= k < rules_for(pairs, f).len() ==> from_pair(pairs, f, #[trigger] rules_for(pairs, f)[k]),
    decreases pairs.len(),
{
    if pairs.len() > 0 {
        let p = pairs.drop_last();
        lemma_rules_for_from(p, f);
        let rp = rules_for(p, f);
        let r = rules_for(pairs, f);
        assert forall|k: int| 0 <= k < r.len() implies from_pair(pairs, f, #[trigger] r[k]) by {
            if k < rp.len() {
                assert(r[k] == rp[k]);
                assert(from_pair(p, f, rp[k]));
                let i = choose|i: int| 0 <= i < p.len() && #[trigger] p[i] == (f, rp[k]);
                assert(pairs[i] == p[i]);
            } else {
                assert(pairs[pairs.len() - 1] == (f, r[k]));
            }
        }
    }
}

/// Skill edit `i` reaches its file's rules unchanged: as a skill rule with
/// the edit's UID, element, attribute and value.
pub open spec fn skill_edit_kept(skill: Seq<SkillEditView>, passive: Seq<PassiveEditView>, i: int) -> bool {
    exists|j: int|
        0 <= j < grouped(edit_rules(skill, passive)).len() && (#[trigger] grouped(edit_rules(skill, passive))[j]).0
            == skill[i].file && grouped(edit_rules(skill, passive))[j].1.contains(
            RuleView::Skill {
                uid: skill[i].uid,
                element: skill[i].element,
                attr: skill[i].attr,
                value: skill[i].value,
            },
        )
}

/// Passive edit `i` reaches its file's rules unchanged: as a passive rule
/// with the edit's node, EIM, attribute and value.
pub open spec fn passive_edit_kept(skill: Seq<SkillEditView>, passive: Seq<PassiveEditView>, i: int) -> bool {
    exists|j: int|
        0 <= j < grouped(edit_rules(skill, passive)).len() && (#[trigger] grouped(edit_rules(skill, passive))[j]).0
            == passive[i].file && grouped(edit_rules(skill, passive))[j].1.contains(
            RuleView::Passive {
                node: passive[i].node,
                eim: passive[i].eim,
                attr: passive[i].attr,
                value: passive[i].value,
            },
        )
}

proof fn lemma_plan_has_skill_edits(skill: Seq<SkillEditView>, passive: Seq<PassiveEditView>)
    ensures
        forall|i: int| 0 <= i < skill.len() ==> skill_edit_kept(skill, passive, i),
{
    let pairs = edit_rules(skill, passive);
    let g = grouped(pairs);
    let n = skill.len();
    law_export_plan_groups(pairs);
    assert forall|i: int| 0 <= i < n implies pairs[i] == skill_rule(skill[i]) by {}
    assert forall|i: int| 0 <= i < passive.len() implies pairs[n + i] == passive_rule(passive[i]) by {}
    assert forall|i: int| 0 <= i < n implies skill_edit_kept(skill, passive, i) by {
        assert(pairs[i] == skill_rule(skill[i]));
        let j = choose|j: int| 0 <= j < g.len() && #[trigger] g[j].0 == (#[trigger] pairs[i]).0;
        lemma_rules_for_has(pairs, i);
        assert(g[j].1 == rules_for(pairs, g[j].0));
        assert(g[j].1.contains(pairs[i].1));
    }
}

proof fn lemma_plan_has_passive_edits(skill: Seq<SkillEditView>, passive: Seq<PassiveEditView>)
    ensures
        forall|i: int| 0 <= i < passive.len() ==> passive_edit_kept(skill, passive, i),
{
    let pairs = edit_rules(skill, passive);
    let g = grouped(pairs);
    let n = skill.len();
    law_export_plan_groups(pairs);
    assert forall|i: int| 0 <= i < n implies pairs[i] == skill_rule(skill[i]) by {}
    assert forall|i: int| 0 <= i < passive.len() implies pairs[n + i] == passive_rule(passive[i]) by {}
    assert forall|i: int| 0 <= i < passive.len() implies passive_edit_kept(skill, passive, i) by {
        assert(pairs[n + i] == passive_rule(passive[i]));
        let j = choose|j: int| 0 <= j < g.len() && #[trigger] g[j].0 == (#[trigger] pairs[n + i]).0;
        lemma_rules_for_has(pairs, n + i);
        assert(g[j].1 == rules_for(pairs, g[j].0));
        assert(g[j].1.contains(pairs[n + i].1));
    }
}

proof fn lemma_plan_rules_are_edits(skill: Seq<SkillEditView>, passive: Seq<PassiveEditView>)
    ensures
        forall|j: int, k: int|
            0 <= j < grouped(edit_rules(skill, passive)).len() && 0 <= k < grouped(
                edit_rules(skill, passive),
            )[j].1.len() ==> {
                let f = grouped(edit_rules(skill, passive))[j].0;
                let r = #[trigger] grouped(edit_rules(skill, passive))[j].1[k];
                ||| exists|i: int|
                    0 <= i < skill.len() && skill[i].file == f && r == (RuleView::Skill {
                        uid: skill[i].uid,
                        element: skill[i].element,
                        attr: skill[i].attr,
                        value: skill[i].value,
                    })
                ||| exists|i: int|
                    0 <= i < passive.len() && passive[i].file == f && r == (RuleView::Passive {
                        node: passive[i].node,
                        eim: passive[i].eim,
                        attr: passive[i].attr,
                        value: passive[i].value,
                    })
            },
{
    let pairs = edit_rules(skill, passive);
    let g = grouped(pairs);
    let n = skill.len();
    law_export_plan_groups(pairs);
    assert forall|i: int| 0 <= i < n implies pairs[i] == skill_rule(skill[i]) by {}
    assert forall|i: int| 0 <= i < passive.len() implies pairs[n + i] == passive_rule(passive[i]) by {}
    assert forall|j: int, k: int| 0 <= j < g.len() && 0 <= k < g[j].1.len() implies {
        let f = g[j].0;
        let r = #[trigger] g[j].1[k];
        ||| exists|i: int|
            0 <= i < skill.len() && skill[i].file == f && r == (RuleView::Skill {
                uid: skill[i].uid,
                element: skill[i].element,
                attr: skill[i].attr,
                value: skill[i].value,
            })
        ||| exists|i: int|
            0 <= i < passive.len() && passive[i].file == f && r == (RuleView::Passive {
                node: passive[i].node,
                eim: passive[i].eim,
                attr: passive[i].attr,
                value: passive[i].value,
            })
    } by {
        let f = g[j].0;
        assert(g[j].1 == rules_for(pairs, f));
        lemma_rules_for_from(pairs, f);
        assert(from_pair(pairs, f, rules_for(pairs, f)[k]));
        let i = choose|i: int| 0 <= i < pairs.len() && #[trigger] pairs[i] == (f, rules_for(pairs, f)[k]);
        if i < n {
            assert(pairs[i] == skill_rule(skill[i]));
        } else {
            assert(pairs[n + (i - n)] == passive_rule(passive[i - n]));
        }
    }
}

/// An export plan carries every edit of the request, as it was made, to its
/// file: each skill edit appears among its file's rules as a skill rule with
/// the edit's UID, element, attribute and value, and each passive edit as a
/// passive rule with the edit's node, EIM, attribute and value. And every rule
/// of a file is one of the edits made to that file.
pub proof fn law_plan_keeps_edits(skill: Seq<SkillEditView>, passive: Seq<PassiveEditView>)
    ensures
        forall|i: int| 0 <= i < skill.len() ==> skill_edit_kept(skill, passive, i),
        forall|i: int| 0 <= i < passive.len() ==> passive_edit_kept(skill, passive, i),
        forall|j: int, k: int|
            0 <= j < grouped(edit_rules(skill, passive)).len() && 0 <= k < grouped(
                edit_rules(skill, passive),
            )[j].1.len() ==> {
                let f = grouped(edit_rules(skill, passive))[j].0;
                let r = #[trigger] grouped(edit_rules(skill, passive))[j].1[k];
                ||| exists|i: int|
                    0 <= i < skill.len() && skill[i].file == f && r == (RuleView::Skill {
                        uid: skill[i].uid,
                        element: skill[i].element,
                        attr: skill[i].attr,
                        value: skill[i].value,
                    })
                ||| exists|i: int|
                    0 <= i < passive.len() && passive[i].file == f && r == (RuleView::Passive {
                        node: passive[i].node,
                        eim: passive[i].eim,
                        attr: passive[i].attr,
                        value: passive[i].value,
                    })
            },
{
    lemma_plan_has_skill_edits(skill, passive);
    lemma_plan_has_passive_edits(skill, passive);
    lemma_plan_rules_are_edits(skill, passive);
}

/// The (file, rules) groups of the pairs, files in order of first
/// appearance.
fn group_pairs(pairs: Vec<(String, Rule)>) -> (out: Vec<FileRules>)
    ensures
        out.deep_view() == files_in_order(pairs.deep_view()).map_values(
            |f: Seq<char>| (f, rules_for(pairs.deep_view(), f)),
        ),
{
    let ghost pv = pairs.deep_view();
    let mut out: Vec<FileRules> = Vec::new();
    let mut rest = pairs;
    let mut k: usize = 0;
    let total = rest.len();
    assert(pv.take(0) =~= Seq::<(Seq<char>, RuleView)>::empty());
    assert(out.deep_view() =~= files_in_order(pv.take(0)).map_values(
        |f: Seq<char>| (f, rules_for(pv.take(0), f)),
    ));
    assert(rest.deep_view() == pv.skip(0));
    while rest.len() > 0
        invariant
            k <= pv.len() == total,
            rest.deep_view() == pv.skip(k as int),
            out.deep_view() == files_in_order(pv.take(k as int)).map_values(
                |f: Seq<char>| (f, rules_for(pv.take(k as int), f)),
            ),
        decreases rest.len(),
    {
        let ghost rv = rest.deep_view();
        assert(k < pv.len()) by {
            assert(rv.len() == pv.len() - k);
        }
        let (file, rule) = take_first(&mut rest);
        assert((file@, rule.deep_view()) == pv[k as int]) by {
            assert(rv[0] == pv.skip(k as int)[0]);
        }
        assert(rest.deep_view() =~= pv.skip(k + 1));
        let ghost prev = pv.take(k as int);
        let ghost next = pv.take(k + 1);
        assert(next.drop_last() == prev);
        assert(next.last() == (file@, rule.deep_view()));
        proof {
            lemma_files_in_order(prev);
        }
        let ghost fio = files_in_order(prev);
        let ghost before = out.deep_view();
        assert(forall|f: Seq<char>| #[trigger] rules_for(next, f) == if f == file@ {
            rules_for(prev, f).push(rule.deep_view())
        } else {
            rules_for(prev, f)
        });
        let mut j: usize = 0;
        while j < out.len() && !out[j].file.eq(&file)
            invariant
                j <= out@.len(),
                before == out.deep_view(),
                forall|i: int| 0 <= i < j ==> out@[i].file@ != file@,
            decreases out@.len() - j,
        {
            j = j + 1;
        }
        assert(out.deep_view().len() == fio.len());
        if j < out.len() {
            let ghost old_out = out@;
            assert(out.deep_view()[j as int] == (fio[j as int], rules_for(prev, fio[j as int])));
            assert(fio[j as int] == file@);
            assert(fio.contains(file@));
            assert(files_in_order(next) == fio);
            out[j].rules.push(rule);
            assert forall|i: int| 0 <= i < out@.len() implies #[trigger] out.deep_view()[i]
                == files_in_order(next).map_values(|f: Seq<char>| (f, rules_for(next, f)))[i] by {
                assert(before[i] == (fio[i], rules_for(prev, fio[i])));
                if i != j {
                    assert(out@[i] == old_out[i]);
                    assert(fio[i] != fio[j as int]);
                    assert(out.deep_view()[i] == before[i]);
                    assert(rules_for(next, fio[i]) == rules_for(prev, fio[i]));
                } else {
                    assert(out@[i].rules.deep_view() =~= old_out[i].rules.deep_view().push(rule.deep_view()));
                    assert(old_out[i].rules.deep_view() == before[i].1);
                    assert(rules_for(next, fio[i]) == rules_for(prev, fio[i]).push(rule.deep_view()));
                }
            }
            assert(out.deep_view() =~= files_in_order(next).map_values(
                |f: Seq<char>| (f, rules_for(next, f)),
            ));
        } else {
            assert(!fio.contains(file@)) by {
                if fio.contains(file@) {
                    let w = choose|w: int| 0 <= w < fio.len() && fio[w] == file@;
                    assert(out.deep_view()[w].0 == fio[w]);
                }
            }
            assert(rules_for(prev, file@) == Seq::<RuleView>::empty());
            let mut rules: Vec<Rule> = Vec::new();
            rules.push(rule);
            let ghost old_out = out@;
            let ghost fv = file@;
            assert(files_in_order(next) == fio.push(fv));
            out.push(FileRules { file, rules });
            assert forall|i: int| 0 <= i < out@.len() implies #[trigger] out.deep_view()[i]
                == files_in_order(next).map_values(|f: Seq<char>| (f, rules_for(next, f)))[i] by {
                if i < old_out.len() {
                    assert(before[i] == (fio[i], rules_for(prev, fio[i])));
                    assert(out@[i] == old_out[i]);
                    assert(fio[i] != file@);
                    assert(out.deep_view()[i] == before[i]);
                    assert(rules_for(next, fio[i]) == rules_for(prev, fio[i]));
                    assert(files_in_order(next)[i] == fio[i]);
                } else {
                    assert(out@[i].rules.deep_view() =~= seq![rule.deep_view()]);
                    assert(rules_for(next, fv) =~= seq![rule.deep_view()]);
                    assert(files_in_order(next)[i] == fv);
                }
            }
            assert(out.deep_view() =~= files_in_order(next).map_values(
                |f: Seq<char>| (f, rules_for(next, f)),
            ));
        }
        k = k + 1;
    }
    assert(pv.take(k as int) == pv);
    out
}

/// Where a stable insertion by file places `x` among `out`.
fn group_insert_index(out: &Vec<FileRules>, x: &FileRules) -> (p: usize)
    ensures
        p == insert_index(
            out.deep_view(),
            x.deep_view(),
            |a: (Seq<char>, Seq<RuleView>), b: (Seq<char>, Seq<RuleView>)| file_le(a, b),
        ),
        p <= out@.len(),
{
    let ghost le = |a: (Seq<char>, Seq<RuleView>), b: (Seq<char>, Seq<RuleView>)| file_le(a, b);
    let ghost sorted = out.deep_view();
    let mut p = out.len();
    assert(sorted.take(p as int) == sorted);
    while p > 0 && !text_leq(&out[p - 1].file, &x.file)
        invariant
            p <= sorted.len(),
            sorted == out.deep_view(),
            le == (|a: (Seq<char>, Seq<RuleView>), b: (Seq<char>, Seq<RuleView>)| file_le(a, b)),
            insert_index(sorted, x.deep_view(), le) == insert_index(
                sorted.take(p as int),
                x.deep_view(),
                le,
            ),
        decreases p,
    {
        assert(sorted.take(p as int).last() == sorted[p - 1]);
        assert(sorted.take(p as int).drop_last() == sorted.take(p - 1));
        p = p - 1;
    }
    proof {
        if p > 0 {
            assert(sorted.take(p as int).last() == sorted[p - 1]);
        }
    }
    p
}

/// The groups ordered by file in text order, equal files keeping their order.
fn sort_groups(items: Vec<FileRules>) -> (out: Vec<FileRules>)
    ensures
        out.deep_view() == stable_sort(
            items.deep_view(),
            |a: (Seq<char>, Seq<RuleView>), b: (Seq<char>, Seq<RuleView>)| file_le(a, b),
        ),
{
    let ghost orig = items.deep_view();
    let ghost le = |a: (Seq<char>, Seq<RuleView>), b: (Seq<char>, Seq<RuleView>)| file_le(a, b);
    let total = items.len();
    let mut rest = items;
    let mut out: Vec<FileRules> = Vec::new();
    let mut k: usize = 0;
    assert(orig.take(0) =~= Seq::<(Seq<char>, Seq<RuleView>)>::empty());
    assert(out.deep_view() =~= Seq::<(Seq<char>, Seq<RuleView>)>::empty());
    assert(rest.deep_view() == orig.skip(0));
    while rest.len() > 0
        invariant
            k <= orig.len() == total,
            rest.deep_view() == orig.skip(k as int),
            out.deep_view() == stable_sort(orig.take(k as int), le),
            le == (|a: (Seq<char>, Seq<RuleView>), b: (Seq<char>, Seq<RuleView>)| file_le(a, b)),
        decreases rest.len(),
    {
        let ghost rv = rest.deep_view();
        assert(k < orig.len()) by {
            assert(rv.len() == orig.len() - k);
        }
        let x = take_first(&mut rest);
        assert(x.deep_view() == orig[k as int]) by {
            assert(rv[0] == orig.skip(k as int)[0]);
        }
        assert(rest.deep_view() =~= orig.skip(k + 1));
        let ghost sorted = out.deep_view();
        let p = group_insert_index(&out, &x);
        let ghost xv = x.deep_view();
        out.insert(p, x);
        assert(out.deep_view() =~= sorted.insert(p as int, xv));
        assert(orig.take(k + 1).drop_last() == orig.take(k as int));
        k = k + 1;
    }
    assert(orig.take(k as int) == orig);
    out
}

/// The plan of an export: the mod name made fit for a folder name, and each
/// edited file (in text order, each once) with its edits as rules (skill
/// edits, then passive edits, each in request order).
pub fn plan_export(req: ExportRequest) -> (plan: ExportPlan)
    ensures
        plan.mod_name@ == sanitized(req.mod_name@),
        plan.files.deep_view() == grouped(
            edit_rules(req.skill_edits.deep_view(), req.passive_edits.deep_view()),
        ),
{
    let mod_name = sanitize(req.mod_name.as_str());
    let pairs = edit_pairs(req.skill_edits, req.passive_edits);
    let files = sort_groups(group_pairs(pairs));
    ExportPlan { mod_name, files }
}

/// The sum of the counts.
pub open spec fn count_total(counts: Seq<usize>) -> nat
    decreases counts.len(),
{
    if counts.len() == 0 {
        0
    } else {
        count_total(counts.drop_last()) + counts.last() as nat
    }
}

/// What an export reports: the pak and folder it wrote, how many files of the
/// plan it rewrote, and how many attribute changes it applied in all
/// (`applied` holds each file's count; the total stops at `usize::MAX`).
pub fn export_result(pak: String, folder: String, plan: &ExportPlan, applied: &Vec<usize>) -> (r:
    ExportResult)
    ensures
        r.pak@ == pak@,
        r.folder@ == folder@,
        r.files == plan.files@.len(),
        r.changes == capped(count_total(applied@)),
{
    let mut total: usize = 0;
    let mut i: usize = 0;
    while i < applied.len()
        invariant
            i <= applied@.len(),
            total == capped(count_total(applied@.take(i as int))),
        decreases applied@.len() - i,
    {
        assert(applied@.take(i + 1).drop_last() == applied@.take(i as int));
        total = add_capped(total, applied[i]);
        i = i + 1;
    }
    assert(applied@.take(i as int) == applied@);
    ExportResult { pak, folder, files: plan.files.len(), changes: total }
}

/// The name of the mod's pak: `zzz_<mod>.pak`.
pub fn pak_file_name(mod_name: &str) -> (s: String)
    ensures
        s@ == "zzz_"@ + mod_name@ + ".pak"@,
{
    let a = concat("zzz_", mod_name);
    concat(a.as_str(), ".pak")
}

/// The pak entry of a file: `Umbra/<file>`.
pub fn pak_entry_name(file: &str) -> (s: String)
    ensures
        s@ == "Umbra/"@ + file@,
{
    concat("Umbra/", file)
}

/// The install notes written next to an exported mod.
pub open spec fn install_notes_text(mod_name: Seq<char>, files: nat, changes: nat) -> Seq<char> {
    "Wolcen mod: "@ + mod_name + "\r\n\r\nInstall (pick ONE):\r\n\r\nA) LOOSE FILES (Nexus style, recommended): copy the \"Umbra\" folder into\r\n   <Wolcen>\\Game\\   (you'll get <Wolcen>\\Game\\Umbra\\Skills\\...)\r\n\r\nB) PAK: copy \"zzz_"@
        + mod_name + ".pak\" into <Wolcen>\\Game\\\r\n\r\nUninstall: delete the files you copied (A) or the pak (B).\r\nFiles changed: "@
        + decimal(files) + "  |  Attribute edits: "@ + decimal(changes) + "\r\n"@
}

/// The install notes written next to an exported mod.
pub fn install_notes(mod_name: &str, files: usize, changes: usize) -> (s: String)
    ensures
        s@ == install_notes_text(mod_name@, files as nat, changes as nat),
{
    let mut s = String::from_str("Wolcen mod: ");
    s.append(mod_name);
    s.append("\r\n\r\nInstall (pick ONE):\r\n\r\nA) LOOSE FILES (Nexus style, recommended): copy the \"Umbra\" folder into\r\n   <Wolcen>\\Game\\   (you'll get <Wolcen>\\Game\\Umbra\\Skills\\...)\r\n\r\nB) PAK: copy \"zzz_");
    s.append(mod_name);
    s.append(".pak\" into <Wolcen>\\Game\\\r\n\r\nUninstall: delete the files you copied (A) or the pak (B).\r\nFiles changed: ");
    s.append(usize_text(files).as_str());
    s.append("  |  Attribute edits: ");
    s.append(usize_text(changes).as_str());
    s.append("\r\n");
    s
}

} // verus!
