//! What importing an exported mod gives back: the events an export writes,
//! and the edits that comparing them with the original finds.

use vstd::prelude::*;

use crate::export::{
    Ctx, change_for, changed_count, ctx_of, key_attr_of, rebuilt_attrs, rewrite_run, rule_target,
    tag_changes, tag_content, targets, Frame, RuleView,
};
use crate::import::{
    compared, diff_fails, diff_found, diff_run, last_value, recorded, same_kind, steps_from,
    structural, DiffState, Found,
};
use crate::text::is_float_literal;
use crate::xml::{
    attr_value, element_keyed, events_read, keys_distinct, local_part, well_keyed, xml_document,
    xml_reads, ElementView, EventView,
};

verus! {

/// The attributes with the changes applied.
pub open spec fn changed_attrs(
    attrs: Seq<(Seq<char>, Seq<char>)>,
    changes: Seq<(Seq<char>, Seq<char>)>,
) -> Seq<(Seq<char>, Seq<char>)> {
    attrs.map_values(
        |a: (Seq<char>, Seq<char>)|
            (
                a.0,
                match change_for(changes, a.0) {
                    Some(v) => v,
                    None => a.1,
                },
            ),
    )
}

/// An element as an export writes it: the tag text it is written with, and
/// its attributes with the changes applied.
pub open spec fn exported_element(el: ElementView, changes: Seq<(Seq<char>, Seq<char>)>) -> ElementView {
    ElementView {
        content: tag_content(el, changes),
        name: el.name,
        attrs: changed_attrs(el.attrs, changes),
    }
}

/// The events an export has written so far, and the open elements of the
/// original.
pub struct ExportState {
    pub events: Seq<EventView>,
    pub stack: Seq<Frame>,
}

pub open spec fn export_step(s: ExportState, e: EventView, rules: Seq<RuleView>) -> ExportState {
    match e {
        EventView::Start(el) => {
            let l = local_part(el.name);
            let ch = targets(l, ctx_of(s.stack), rules);
            ExportState {
                events: s.events.push(EventView::Start(exported_element(el, ch))),
                stack: s.stack.push((l, key_attr_of(l, el))),
            }
        },
        EventView::Empty(el) => {
            let l = local_part(el.name);
            let ch = targets(l, ctx_of(s.stack), rules);
            ExportState { events: s.events.push(EventView::Empty(exported_element(el, ch))), ..s }
        },
        EventView::End(_) => ExportState {
            events: s.events.push(e),
            stack: if s.stack.len() > 0 {
                s.stack.drop_last()
            } else {
                s.stack
            },
        },
        _ => ExportState { events: s.events.push(e), ..s },
    }
}

pub open spec fn export_run(events: Seq<EventView>, rules: Seq<RuleView>) -> ExportState
    decreases events.len(),
{
    if events.len() == 0 {
        ExportState { events: Seq::empty(), stack: Seq::empty() }
    } else {
        export_step(export_run(events.drop_last(), rules), events.last(), rules)
    }
}

/// The events of a file as an export writes it: each start and empty tag
/// with the changes the rules make to it in its context, everything else as
/// it was.
pub open spec fn exported_events(events: Seq<EventView>, rules: Seq<RuleView>) -> Seq<EventView> {
    export_run(events, rules).events
}

/// The text one event is written as.
pub open spec fn written(e: EventView) -> Seq<char> {
    match e {
        EventView::Start(el) => "<"@ + el.content + ">"@,
        EventView::Empty(el) => "<"@ + el.content + "/>"@,
        EventView::End(n) => "</"@ + n + ">"@,
        EventView::Text(raw, _) => raw,
        EventView::Other(m) => m,
    }
}

/// The text the events are written as, one after the other.
pub open spec fn written_all(events: Seq<EventView>) -> Seq<char>
    decreases events.len(),
{
    if events.len() == 0 {
        Seq::empty()
    } else {
        written_all(events.drop_last()) + written(events.last())
    }
}

/// What importing finds in one exported element, on top of `f`: for each of
/// its attributes in order whose value the changes replaced by a different
/// number, the edit recorded for it.
pub open spec fn element_edits(
    f: Found,
    attrs: Seq<(Seq<char>, Seq<char>)>,
    changes: Seq<(Seq<char>, Seq<char>)>,
    lname: Seq<char>,
    stack: Seq<Frame>,
    rel: Seq<char>,
) -> Found
    decreases attrs.len(),
{
    if attrs.len() == 0 {
        f
    } else {
        let g = element_edits(f, attrs.drop_last(), changes, lname, stack, rel);
        match change_for(changes, attrs.last().0) {
            Some(w) => if w != attrs.last().1 && is_float_literal(w) {
                recorded(g, attrs.last().0, w, lname, stack, rel)
            } else {
                g
            },
            None => g,
        }
    }
}

pub open spec fn reimport_step(s: DiffState, e: EventView, rules: Seq<RuleView>, rel: Seq<char>) -> DiffState {
    match e {
        EventView::Start(el) => {
            let l = local_part(el.name);
            let ch = targets(l, ctx_of(s.stack), rules);
            DiffState {
                found: element_edits(s.found, el.attrs, ch, l, s.stack, rel),
                stack: s.stack.push((l, key_attr_of(l, el))),
            }
        },
        EventView::Empty(el) => {
            let l = local_part(el.name);
            let ch = targets(l, ctx_of(s.stack), rules);
            DiffState { found: element_edits(s.found, el.attrs, ch, l, s.stack, rel), ..s }
        },
        EventView::End(_) => DiffState {
            stack: if s.stack.len() > 0 {
                s.stack.drop_last()
            } else {
                s.stack
            },
            ..s
        },
        _ => s,
    }
}

pub open spec fn reimport_run(events: Seq<EventView>, rules: Seq<RuleView>, rel: Seq<char>, f: Found) -> DiffState
    decreases events.len(),
{
    if events.len() == 0 {
        DiffState { found: f, stack: Seq::empty() }
    } else {
        reimport_step(reimport_run(events.drop_last(), rules, rel, f), events.last(), rules, rel)
    }
}

/// The edits that importing the export of a file with these events finds,
/// on top of `f`: in document order, one for each attribute that the rules
/// changed to a different number.
pub open spec fn reimported(events: Seq<EventView>, rules: Seq<RuleView>, rel: Seq<char>, f: Found) -> Found {
    reimport_run(events, rules, rel, f).found
}

/// A start, empty or end tag.
pub open spec fn is_tag(e: EventView) -> bool {
    e is Start || e is Empty || e is End
}

/// No rule changes a key that names a context element (the `UID` of a
/// `Skill`, the `Name` of a `Spell` or `EIM`).
pub open spec fn keeps_context_keys(rules: Seq<RuleView>) -> bool {
    forall|i: int|
        0 <= i < rules.len() ==> match #[trigger] rules[i] {
            RuleView::Skill { element, attr, .. } => !(element == "Skill"@ && attr == "UID"@) && !((
            element == "Spell"@ || element == "EIM"@) && attr == "Name"@),
            RuleView::Passive { .. } => true,
        }
}

} // verus!

verus! {

/// With distinct keys, the last value for an attribute's key is its own.
proof fn lemma_last_value_distinct(all: Seq<(Seq<char>, Seq<char>)>, i: int)
    requires
        keys_distinct(all),
        0 <= i < all.len(),
    ensures
        last_value(all, all[i].0) == Some(all[i].1),
    decreases all.len(),
{
    if i < all.len() - 1 {
        assert(all[i].0 != all[all.len() - 1].0);
        let r = all.drop_last();
        assert forall|a: int, b: int| 0 <= a < b < r.len() implies #[trigger] r[a].0 != #[trigger] r[b].0 by {
            assert(r[a] == all[a] && r[b] == all[b]);
            assert(all[a].0 != all[b].0);
        }
        assert(r[i] == all[i]);
        lemma_last_value_distinct(r, i);
    }
}

/// Comparing an element with its exported form finds its `element_edits`.
proof fn lemma_element_compared(
    f: Found,
    all: Seq<(Seq<char>, Seq<char>)>,
    ch: Seq<(Seq<char>, Seq<char>)>,
    l: Seq<char>,
    st: Seq<Frame>,
    rel: Seq<char>,
    k: int,
)
    requires
        keys_distinct(all),
        0 <= k <= all.len(),
    ensures
        compared(f, all, changed_attrs(all.take(k), ch), l, st, rel) == element_edits(
            f,
            all.take(k),
            ch,
            l,
            st,
            rel,
        ),
    decreases k,
{
    if k > 0 {
        lemma_element_compared(f, all, ch, l, st, rel, k - 1);
        let t = all.take(k);
        assert(t.drop_last() == all.take(k - 1));
        assert(changed_attrs(t, ch).drop_last() =~= changed_attrs(all.take(k - 1), ch));
        assert(t.last() == all[k - 1]);
        lemma_last_value_distinct(all, k - 1);
    }
}

/// A change for `key` exists only where some change has that key.
proof fn lemma_change_for_absent(changes: Seq<(Seq<char>, Seq<char>)>, key: Seq<char>)
    requires
        forall|i: int| 0 <= i < changes.len() ==> (#[trigger] changes[i]).0 != key,
    ensures
        change_for(changes, key) is None,
    decreases changes.len(),
{
    if changes.len() > 0 {
        assert(changes[0].0 != key);
        let r = changes.drop_first();
        assert forall|i: int| 0 <= i < r.len() implies (#[trigger] r[i]).0 != key by {
            assert(r[i] == changes[i + 1]);
        }
        lemma_change_for_absent(r, key);
    }
}

/// Whether a rule changes `key` on an element with local name `l` in `ctx`.
spec fn changes_key(l: Seq<char>, ctx: crate::export::Ctx, r: RuleView, key: Seq<char>) -> bool {
    match rule_target(l, ctx, r) {
        Some(c) => c.0 == key,
        None => false,
    }
}

/// The changes of the rules come from the rules.
proof fn lemma_targets_keys(l: Seq<char>, ctx: crate::export::Ctx, rules: Seq<RuleView>, key: Seq<char>)
    requires
        forall|j: int| 0 <= j < rules.len() ==> !changes_key(l, ctx, #[trigger] rules[j], key),
    ensures
        forall|i: int|
            0 <= i < targets(l, ctx, rules).len() ==> (#[trigger] targets(l, ctx, rules)[i]).0 != key,
    decreases rules.len(),
{
    if rules.len() > 0 {
        let r = rules.drop_last();
        assert forall|j: int| 0 <= j < r.len() implies !changes_key(l, ctx, #[trigger] r[j], key) by {
            assert(r[j] == rules[j]);
        }
        lemma_targets_keys(l, ctx, r, key);
        assert(!changes_key(l, ctx, rules[rules.len() - 1], key));
        let t = targets(l, ctx, rules);
        let rest = targets(l, ctx, r);
        assert forall|i: int| 0 <= i < t.len() implies (#[trigger] t[i]).0 != key by {
            if i < rest.len() {
                assert(t[i] == rest[i]);
            }
        }
    }
}

/// Attributes whose key no change names keep their value.
proof fn lemma_attr_value_kept(
    attrs: Seq<(Seq<char>, Seq<char>)>,
    ch: Seq<(Seq<char>, Seq<char>)>,
    key: Seq<char>,
)
    requires
        change_for(ch, key) is None,
    ensures
        attr_value(changed_attrs(attrs, ch), key) == attr_value(attrs, key),
    decreases attrs.len(),
{
    if attrs.len() > 0 {
        assert(changed_attrs(attrs, ch).drop_first() =~= changed_attrs(attrs.drop_first(), ch));
        lemma_attr_value_kept(attrs.drop_first(), ch, key);
    }
}

/// The export keeps the keys that name context elements.
proof fn lemma_key_kept(el: ElementView, l: Seq<char>, ctx: crate::export::Ctx, rules: Seq<RuleView>)
    requires
        keeps_context_keys(rules),
    ensures
        key_attr_of(l, exported_element(el, targets(l, ctx, rules))) == key_attr_of(l, el),
{
    reveal_strlit("Skill");
    reveal_strlit("Spell");
    reveal_strlit("EIM");
    reveal_strlit("Semantics");
    reveal_strlit("UID");
    reveal_strlit("Name");
    let ch = targets(l, ctx, rules);
    if l == "Skill"@ {
        assert forall|j: int| 0 <= j < rules.len() implies !changes_key(
            l,
            ctx,
            #[trigger] rules[j],
            "UID"@,
        ) by {
            match rules[j] {
                RuleView::Skill { element, attr, .. } => {},
                RuleView::Passive { .. } => {
                    assert("Semantics"@.len() == 9);
                    assert(l.len() != 9);
                },
            }
        }
        lemma_targets_keys(l, ctx, rules, "UID"@);
        lemma_change_for_absent(ch, "UID"@);
        lemma_attr_value_kept(el.attrs, ch, "UID"@);
    } else if l == "Spell"@ || l == "EIM"@ {
        assert forall|j: int| 0 <= j < rules.len() implies !changes_key(
            l,
            ctx,
            #[trigger] rules[j],
            "Name"@,
        ) by {
            match rules[j] {
                RuleView::Skill { element, attr, .. } => {},
                RuleView::Passive { .. } => {
                    assert("Semantics"@.len() == 9);
                    assert(l.len() != 9);
                },
            }
        }
        lemma_targets_keys(l, ctx, rules, "Name"@);
        lemma_change_for_absent(ch, "Name"@);
        lemma_attr_value_kept(el.attrs, ch, "Name"@);
    }
}

} // verus!

verus! {

proof fn lemma_structural_tags(evs: Seq<EventView>)
    ensures
        forall|i: int| 0 <= i < structural(evs).len() ==> is_tag(#[trigger] structural(evs)[i]),
        well_keyed(evs) ==> well_keyed(structural(evs)),
    decreases evs.len(),
{
    if evs.len() > 0 {
        let p = evs.drop_last();
        lemma_structural_tags(p);
        let sp = structural(p);
        let s = structural(evs);
        assert forall|i: int| 0 <= i < s.len() implies is_tag(#[trigger] s[i]) by {
            if i < sp.len() {
                assert(s[i] == sp[i]);
            }
        }
        if well_keyed(evs) {
            assert forall|i: int| 0 <= i < p.len() implies element_keyed(#[trigger] p[i]) by {
                assert(p[i] == evs[i]);
            }
            assert forall|i: int| 0 <= i < s.len() implies element_keyed(#[trigger] s[i]) by {
                if i < sp.len() {
                    assert(s[i] == sp[i]);
                } else {
                    assert(element_keyed(evs[evs.len() - 1]));
                }
            }
        }
    }
}

proof fn lemma_export_structural(evs: Seq<EventView>, rules: Seq<RuleView>)
    ensures
        structural(export_run(evs, rules).events) == export_run(structural(evs), rules).events,
        export_run(evs, rules).stack == export_run(structural(evs), rules).stack,
    decreases evs.len(),
{
    if evs.len() > 0 {
        let p = evs.drop_last();
        let e = evs.last();
        lemma_export_structural(p, rules);
        let a = export_run(p, rules);
        let b = export_step(a, e, rules);
        let x = b.events.last();
        assert(b.events == a.events.push(x));
        assert(b.events.drop_last() == a.events);
        let sp = structural(p);
        if is_tag(e) {
            assert(structural(evs) == sp.push(e));
            assert(structural(evs).drop_last() == sp);
        } else {
            assert(structural(evs) == sp);
        }
    }
}

proof fn lemma_reimport_structural(evs: Seq<EventView>, rules: Seq<RuleView>, rel: Seq<char>, f: Found)
    ensures
        reimport_run(evs, rules, rel, f) == reimport_run(structural(evs), rules, rel, f),
    decreases evs.len(),
{
    if evs.len() > 0 {
        let p = evs.drop_last();
        lemma_reimport_structural(p, rules, rel, f);
        let sp = structural(p);
        if is_tag(evs.last()) {
            assert(structural(evs) == sp.push(evs.last()));
            assert(structural(evs).drop_last() == sp);
        } else {
            assert(structural(evs) == sp);
        }
    }
}

proof fn lemma_export_len(s: Seq<EventView>, rules: Seq<RuleView>)
    ensures
        export_run(s, rules).events.len() == s.len(),
    decreases s.len(),
{
    if s.len() > 0 {
        lemma_export_len(s.drop_last(), rules);
    }
}

proof fn lemma_export_prefix(s: Seq<EventView>, rules: Seq<RuleView>, n: int)
    requires
        0 <= n <= s.len(),
    ensures
        export_run(s.take(n), rules).events == export_run(s, rules).events.take(n),
    decreases s.len(),
{
    lemma_export_len(s, rules);
    if n == s.len() {
        assert(s.take(n) == s);
        assert(export_run(s, rules).events.take(n) == export_run(s, rules).events);
    } else {
        let p = s.drop_last();
        assert(s.take(n) == p.take(n));
        lemma_export_prefix(p, rules, n);
        lemma_export_len(p, rules);
        let a = export_run(p, rules);
        let b = export_step(a, s.last(), rules);
        assert(b.events == a.events.push(b.events.last()));
        assert(b.events.take(n) == a.events.take(n));
    }
}

proof fn lemma_export_kinds(s: Seq<EventView>, rules: Seq<RuleView>)
    requires
        forall|i: int| 0 <= i < s.len() ==> is_tag(#[trigger] s[i]),
    ensures
        forall|i: int|
            0 <= i < s.len() ==> same_kind(#[trigger] s[i], export_run(s, rules).events[i]),
    decreases s.len(),
{
    lemma_export_len(s, rules);
    if s.len() > 0 {
        let p = s.drop_last();
        assert forall|i: int| 0 <= i < p.len() implies is_tag(#[trigger] p[i]) by {
            assert(p[i] == s[i]);
        }
        lemma_export_kinds(p, rules);
        lemma_export_len(p, rules);
        let a = export_run(p, rules);
        let b = export_step(a, s.last(), rules);
        assert(b.events == a.events.push(b.events.last()));
        assert forall|i: int| 0 <= i < s.len() implies same_kind(
            #[trigger] s[i],
            export_run(s, rules).events[i],
        ) by {
            if i < p.len() {
                assert(s[i] == p[i]);
                assert(b.events[i] == a.events[i]);
            } else {
                assert(is_tag(s[s.len() - 1]));
            }
        }
    }
}

proof fn lemma_steps(s: Seq<EventView>, m: Seq<EventView>, k: nat)
    requires
        m.len() == s.len(),
        forall|i: int| 0 <= i < s.len() ==> same_kind(#[trigger] s[i], m[i]),
        k <= s.len(),
    ensures
        steps_from(s, m, k) == s.len(),
    decreases s.len() - k,
{
    if k < s.len() {
        assert(same_kind(s[k as int], m[k as int]));
        lemma_steps(s, m, k + 1);
    }
}

proof fn lemma_walk(s: Seq<EventView>, rules: Seq<RuleView>, rel: Seq<char>, f: Found, n: int)
    requires
        0 <= n <= s.len(),
        well_keyed(s),
        keeps_context_keys(rules),
    ensures
        diff_run(s, export_run(s, rules).events, n as nat, rel, f) == reimport_run(
            s.take(n),
            rules,
            rel,
            f,
        ),
        reimport_run(s.take(n), rules, rel, f).stack == export_run(s.take(n), rules).stack,
    decreases n,
{
    if n == 0 {
        assert(s.take(0) == Seq::<EventView>::empty());
    } else {
        lemma_walk(s, rules, rel, f, n - 1);
        let m = export_run(s, rules).events;
        lemma_export_len(s, rules);
        lemma_export_prefix(s, rules, n);
        let p = s.take(n - 1);
        assert(s.take(n).drop_last() == p);
        assert(s.take(n).last() == s[n - 1]);
        let ee = export_run(p, rules);
        let r = reimport_run(p, rules, rel, f);
        let b = export_step(ee, s[n - 1], rules);
        assert(export_run(s.take(n), rules) == b);
        assert(m[n - 1] == m.take(n)[n - 1]);
        assert(m[n - 1] == b.events.last());
        let e = s[n - 1];
        assert(element_keyed(e));
        match e {
            EventView::Start(o) => {
                let l = local_part(o.name);
                let ch = targets(l, ctx_of(ee.stack), rules);
                lemma_element_compared(r.found, o.attrs, ch, l, r.stack, rel, o.attrs.len() as int);
                assert(o.attrs.take(o.attrs.len() as int) == o.attrs);
                lemma_key_kept(o, l, ctx_of(ee.stack), rules);
            },
            EventView::Empty(o) => {
                let l = local_part(o.name);
                let ch = targets(l, ctx_of(ee.stack), rules);
                lemma_element_compared(r.found, o.attrs, ch, l, r.stack, rel, o.attrs.len() as int);
                assert(o.attrs.take(o.attrs.len() as int) == o.attrs);
            },
            _ => {},
        }
    }
}

/// Importing a mod recovers what its export changed: where the original file
/// reads to its end, its elements have distinct attribute keys (as every
/// document the library reads has: `read_document` and `read_until_error`
/// ensure it, quick-xml refusing a repeated key), the rules
/// leave the keys that name skills, spells and EIMs alone, and the modded file
/// reads back as the events the export wrote, comparing the two stops on no
/// error and finds exactly, in document order, one edit for each attribute
/// that the export changed to a different number (of the kind the file's place
/// calls for, where its context names the skill or node).
pub proof fn law_import_recovers_export(
    orig: Seq<char>,
    modx: Seq<char>,
    rules: Seq<RuleView>,
    rel: Seq<char>,
    f: Found,
)
    requires
        xml_document(orig) is Some,
        xml_document(modx) == Some(exported_events(xml_document(orig)->0, rules)),
        well_keyed(xml_document(orig)->0),
        keeps_context_keys(rules),
    ensures
        !diff_fails(orig, modx),
        diff_found(orig, modx, rel, f) == reimported(xml_document(orig)->0, rules, rel, f),
{
    let evs = xml_document(orig)->0;
    assert(events_read(xml_reads(orig)) == evs);
    assert(events_read(xml_reads(modx)) == exported_events(evs, rules));
    let so = structural(evs);
    lemma_export_structural(evs, rules);
    let sm = export_run(so, rules).events;
    assert(structural(events_read(xml_reads(modx))) == sm);
    lemma_structural_tags(evs);
    lemma_export_len(so, rules);
    lemma_export_kinds(so, rules);
    lemma_steps(so, sm, 0);
    lemma_walk(so, rules, rel, f, so.len() as int);
    assert(so.take(so.len() as int) == so);
    lemma_reimport_structural(evs, rules, rel, f);
}

/// What an export writes for a file is its exported events, written one after
/// the other: tags that no rule touches exactly as they were read, changed
/// tags rebuilt, and all other markup and text unchanged.
pub proof fn law_export_writes_exported_events(events: Seq<EventView>, rules: Seq<RuleView>)
    ensures
        rewrite_run(events, rules).out == written_all(exported_events(events, rules)),
        rewrite_run(events, rules).stack == export_run(events, rules).stack,
    decreases events.len(),
{
    if events.len() > 0 {
        let p = events.drop_last();
        law_export_writes_exported_events(p, rules);
        let a = export_run(p, rules);
        let b = export_step(a, events.last(), rules);
        assert(b.events.drop_last() == a.events);
    }
}

proof fn lemma_export_no_rules(events: Seq<EventView>)
    ensures
        exported_events(events, Seq::empty()) == events,
    decreases events.len(),
{
    if events.len() > 0 {
        lemma_export_no_rules(events.drop_last());
        let a = export_run(events.drop_last(), Seq::empty());
        match events.last() {
            EventView::Start(el) => {
                assert(changed_attrs(el.attrs, Seq::empty()) =~= el.attrs);
            },
            EventView::Empty(el) => {
                assert(changed_attrs(el.attrs, Seq::empty()) =~= el.attrs);
            },
            _ => {},
        }
        assert(events.drop_last().push(events.last()) == events);
    }
}

proof fn lemma_element_edits_none(
    f: Found,
    attrs: Seq<(Seq<char>, Seq<char>)>,
    l: Seq<char>,
    st: Seq<Frame>,
    rel: Seq<char>,
)
    ensures
        element_edits(f, attrs, Seq::empty(), l, st, rel) == f,
    decreases attrs.len(),
{
    if attrs.len() > 0 {
        lemma_element_edits_none(f, attrs.drop_last(), l, st, rel);
    }
}

proof fn lemma_reimport_no_rules(events: Seq<EventView>, rel: Seq<char>, f: Found)
    ensures
        reimport_run(events, Seq::empty(), rel, f).found == f,
    decreases events.len(),
{
    if events.len() > 0 {
        lemma_reimport_no_rules(events.drop_last(), rel, f);
        let r = reimport_run(events.drop_last(), Seq::empty(), rel, f);
        match events.last() {
            EventView::Start(el) => {
                lemma_element_edits_none(f, el.attrs, local_part(el.name), r.stack, rel);
            },
            EventView::Empty(el) => {
                lemma_element_edits_none(f, el.attrs, local_part(el.name), r.stack, rel);
            },
            _ => {},
        }
    }
}

/// A mod file identical to the original yields no edits: where the file
/// reads to its end and its elements have distinct attribute keys (as every
/// document the library reads has), comparing
/// it with itself stops on no error and finds nothing.
pub proof fn law_unchanged_file_yields_nothing(doc: Seq<char>, rel: Seq<char>, f: Found)
    requires
        xml_document(doc) is Some,
        well_keyed(xml_document(doc)->0),
    ensures
        !diff_fails(doc, doc),
        diff_found(doc, doc, rel, f) == f,
{
    let evs = xml_document(doc)->0;
    let none = Seq::<RuleView>::empty();
    lemma_export_no_rules(evs);
    assert(keeps_context_keys(none));
    law_import_recovers_export(doc, doc, none, rel, f);
    lemma_reimport_no_rules(evs, rel, f);
}

proof fn lemma_rebuilt_again(attrs: Seq<(Seq<char>, Seq<char>)>, ch: Seq<(Seq<char>, Seq<char>)>)
    ensures
        rebuilt_attrs(changed_attrs(attrs, ch), ch) == rebuilt_attrs(attrs, ch),
        changed_count(changed_attrs(attrs, ch), ch) == changed_count(attrs, ch),
    decreases attrs.len(),
{
    if attrs.len() > 0 {
        lemma_rebuilt_again(attrs.drop_last(), ch);
        assert(changed_attrs(attrs, ch).drop_last() =~= changed_attrs(attrs.drop_last(), ch));
    }
}

/// Tags written again are written as the first time.
proof fn lemma_tag_again(el: ElementView, ch: Seq<(Seq<char>, Seq<char>)>)
    ensures
        tag_content(exported_element(el, ch), ch) == tag_content(el, ch),
        tag_changes(exported_element(el, ch), ch) == tag_changes(el, ch),
{
    lemma_rebuilt_again(el.attrs, ch);
}

/// Rewriting the exported events of a file with the same rules writes the
/// same text, counts the same changes, and goes through the same open
/// elements, where the rules leave the keys that name skills, spells and EIMs
/// alone.
pub proof fn law_rewrite_exported_again(events: Seq<EventView>, rules: Seq<RuleView>)
    requires
        keeps_context_keys(rules),
    ensures
        rewrite_run(exported_events(events, rules), rules).out == rewrite_run(events, rules).out,
        rewrite_run(exported_events(events, rules), rules).applied == rewrite_run(events, rules).applied,
        rewrite_run(exported_events(events, rules), rules).stack == rewrite_run(events, rules).stack,
    decreases events.len(),
{
    if events.len() > 0 {
        let p = events.drop_last();
        law_rewrite_exported_again(p, rules);
        law_export_writes_exported_events(p, rules);
        let a = export_run(p, rules);
        let b = export_step(a, events.last(), rules);
        assert(b.events.drop_last() == a.events);
        match events.last() {
            EventView::Start(el) => {
                let l = local_part(el.name);
                let ch = targets(l, ctx_of(a.stack), rules);
                lemma_tag_again(el, ch);
                lemma_key_kept(el, l, ctx_of(a.stack), rules);
            },
            EventView::Empty(el) => {
                let l = local_part(el.name);
                let ch = targets(l, ctx_of(a.stack), rules);
                lemma_tag_again(el, ch);
            },
            _ => {},
        }
    }
}

/// Applying the same rules to what an export wrote changes nothing: where the
/// original file reads to its end, the written file reads back as the events
/// the export wrote, and the rules leave the keys that name skills, spells and
/// EIMs alone, rewriting the written file gives back its own text and the same
/// count of changes.
pub proof fn law_rewrite_output_again(orig: Seq<char>, written_text: Seq<char>, rules: Seq<RuleView>)
    requires
        xml_document(orig) is Some,
        written_text == rewrite_run(xml_document(orig)->0, rules).out,
        xml_document(written_text) == Some(exported_events(xml_document(orig)->0, rules)),
        keeps_context_keys(rules),
    ensures
        rewrite_run(xml_document(written_text)->0, rules).out == written_text,
        rewrite_run(xml_document(written_text)->0, rules).applied == rewrite_run(
            xml_document(orig)->0,
            rules,
        ).applied,
{
    law_rewrite_exported_again(xml_document(orig)->0, rules);
}

proof fn lemma_no_rules_count(events: Seq<EventView>)
    ensures
        rewrite_run(events, Seq::empty()).applied == 0,
    decreases events.len(),
{
    if events.len() > 0 {
        lemma_no_rules_count(events.drop_last());
    }
}

/// Rewriting with no rules writes every event back exactly as it was read
/// (its exported events are its events) and counts no change.
pub proof fn law_no_rules_writes_events_back(events: Seq<EventView>)
    ensures
        exported_events(events, Seq::empty()) == events,
        rewrite_run(events, Seq::empty()).out == written_all(events),
        rewrite_run(events, Seq::empty()).applied == 0,
{
    lemma_export_no_rules(events);
    law_export_writes_exported_events(events, Seq::empty());
    lemma_no_rules_count(events);
}

/// Whether a rule applies to an element with local name `l` standing in
/// context `c`: a skill rule to an element of its name inside the `Skill`
/// whose `UID` is its uid; a passive rule to a `Semantics` inside the `Spell`
/// named its node and the `EIM` named its eim (the innermost of each).
pub open spec fn applies_at(r: RuleView, l: Seq<char>, c: Ctx) -> bool {
    match r {
        RuleView::Skill { uid, element, .. } => l == element && c.skill_uid == Some(uid),
        RuleView::Passive { node, eim, .. } => l == "Semantics"@ && c.spell == Some(node) && c.eim
            == Some(eim),
    }
}

/// The value the first rule, in order, that applies here sets for `key`.
pub open spec fn first_set(rules: Seq<RuleView>, l: Seq<char>, c: Ctx, key: Seq<char>) -> Option<Seq<char>>
    decreases rules.len(),
{
    if rules.len() == 0 {
        None
    } else {
        match first_set(rules.drop_last(), l, c, key) {
            Some(v) => Some(v),
            None => {
                let (a, v) = match rules.last() {
                    RuleView::Skill { attr, value, .. } => (attr, value),
                    RuleView::Passive { attr, value, .. } => (attr, value),
                };
                if applies_at(rules.last(), l, c) && a == key {
                    Some(v)
                } else {
                    None
                }
            },
        }
    }
}

/// How many of the attributes some rule that applies here sets.
pub open spec fn attrs_set(attrs: Seq<(Seq<char>, Seq<char>)>, rules: Seq<RuleView>, l: Seq<char>, c: Ctx) -> nat
    decreases attrs.len(),
{
    if attrs.len() == 0 {
        0
    } else {
        attrs_set(attrs.drop_last(), rules, l, c) + if first_set(rules, l, c, attrs.last().0) is Some {
            1nat
        } else {
            0nat
        }
    }
}

/// How many attributes of the file's elements some rule sets, each element in
/// the context of its open elements.
pub open spec fn attributes_set(events: Seq<EventView>, rules: Seq<RuleView>) -> nat
    decreases events.len(),
{
    if events.len() == 0 {
        0
    } else {
        let c = ctx_of(export_run(events.drop_last(), rules).stack);
        attributes_set(events.drop_last(), rules) + match events.last() {
            EventView::Start(el) => attrs_set(el.attrs, rules, local_part(el.name), c),
            EventView::Empty(el) => attrs_set(el.attrs, rules, local_part(el.name), c),
            _ => 0nat,
        }
    }
}

proof fn lemma_change_for_push(s: Seq<(Seq<char>, Seq<char>)>, x: (Seq<char>, Seq<char>), key: Seq<char>)
    ensures
        change_for(s.push(x), key) == match change_for(s, key) {
            Some(v) => Some(v),
            None => if x.0 == key {
                Some(x.1)
            } else {
                None
            },
        },
    decreases s.len(),
{
    if s.len() > 0 {
        assert(s.push(x)[0] == s[0]);
        assert(s.push(x).drop_first() == s.drop_first().push(x));
        lemma_change_for_push(s.drop_first(), x, key);
    } else {
        let t = s.push(x);
        assert(t[0] == x);
        assert(t.drop_first() =~= Seq::<(Seq<char>, Seq<char>)>::empty());
        assert(change_for(t.drop_first(), key) is None);
        assert(change_for(s, key) is None);
    }
}

/// The change the targets make to a key is what the first applying rule sets.
proof fn lemma_targets_first(l: Seq<char>, c: Ctx, rules: Seq<RuleView>, key: Seq<char>)
    ensures
        change_for(targets(l, c, rules), key) == first_set(rules, l, c, key),
    decreases rules.len(),
{
    if rules.len() > 0 {
        lemma_targets_first(l, c, rules.drop_last(), key);
        let rest = targets(l, c, rules.drop_last());
        match rule_target(l, c, rules.last()) {
            Some(x) => {
                lemma_change_for_push(rest, x, key);
            },
            None => {},
        }
    }
}

proof fn lemma_changed_count_set(attrs: Seq<(Seq<char>, Seq<char>)>, l: Seq<char>, c: Ctx, rules: Seq<RuleView>)
    ensures
        tag_changes(ElementView { content: Seq::empty(), name: Seq::empty(), attrs }, targets(l, c, rules))
            == attrs_set(attrs, rules, l, c),
    decreases attrs.len(),
{
    let ch = targets(l, c, rules);
    if attrs.len() > 0 {
        lemma_changed_count_set(attrs.drop_last(), l, c, rules);
        lemma_targets_first(l, c, rules, attrs.last().0);
        if ch.len() == 0 {
            assert(change_for(ch, attrs.last().0) is None);
        }
    }
}

proof fn lemma_count_run(events: Seq<EventView>, rules: Seq<RuleView>)
    ensures
        rewrite_run(events, rules).applied == attributes_set(events, rules),
    decreases events.len(),
{
    if events.len() > 0 {
        let p = events.drop_last();
        lemma_count_run(p, rules);
        law_export_writes_exported_events(p, rules);
        let c = ctx_of(export_run(p, rules).stack);
        match events.last() {
            EventView::Start(el) => {
                lemma_changed_count_set(el.attrs, local_part(el.name), c, rules);
            },
            EventView::Empty(el) => {
                lemma_changed_count_set(el.attrs, local_part(el.name), c, rules);
            },
            _ => {},
        }
    }
}

/// What the export makes of one element in context `c`.
proof fn lemma_exported_element_set(el: ElementView, l: Seq<char>, c: Ctx, rules: Seq<RuleView>)
    ensures
        exported_element(el, targets(l, c, rules)).attrs.len() == el.attrs.len(),
        forall|j: int|
            0 <= j < el.attrs.len() ==> #[trigger] exported_element(el, targets(l, c, rules)).attrs[j]
                == (
                el.attrs[j].0,
                match first_set(rules, l, c, el.attrs[j].0) {
                    Some(v) => v,
                    None => el.attrs[j].1,
                },
            ),
        (forall|k: int| 0 <= k < rules.len() ==> !applies_at(#[trigger] rules[k], l, c)) ==> exported_element(
            el,
            targets(l, c, rules),
        ) == el,
{
    let ch = targets(l, c, rules);
    let x = exported_element(el, ch);
    assert forall|j: int| 0 <= j < el.attrs.len() implies #[trigger] x.attrs[j] == (
        el.attrs[j].0,
        match first_set(rules, l, c, el.attrs[j].0) {
            Some(v) => v,
            None => el.attrs[j].1,
        },
    ) by {
        lemma_targets_first(l, c, rules, el.attrs[j].0);
    }
    if forall|k: int| 0 <= k < rules.len() ==> !applies_at(#[trigger] rules[k], l, c) {
        lemma_no_applying_rule(l, c, rules);
        assert(x.attrs =~= el.attrs);
    }
}

proof fn lemma_no_applying_rule(l: Seq<char>, c: Ctx, rules: Seq<RuleView>)
    requires
        forall|k: int| 0 <= k < rules.len() ==> !applies_at(#[trigger] rules[k], l, c),
    ensures
        targets(l, c, rules).len() == 0,
    decreases rules.len(),
{
    if rules.len() > 0 {
        let p = rules.drop_last();
        assert forall|k: int| 0 <= k < p.len() implies !applies_at(#[trigger] p[k], l, c) by {
            assert(p[k] == rules[k]);
        }
        lemma_no_applying_rule(l, c, p);
        assert(!applies_at(rules[rules.len() - 1], l, c));
    }
}

/// Each rule changes only the elements in its own context. An element of a
/// file, in the context of its open elements (innermost `Skill` UID,
/// innermost `Spell` and `EIM` names), is exported with each attribute set to
/// the value of the first rule that applies there and names it, and every
/// other attribute as it was; an element that no rule applies to, and every
/// other event, is exported exactly as it was read. The changes an export
/// counts are the attributes so set.
pub proof fn law_rules_apply_in_their_context(events: Seq<EventView>, rules: Seq<RuleView>)
    ensures
        exported_events(events, rules).len() == events.len(),
        forall|i: int|
            0 <= i < events.len() ==> {
                let c = ctx_of(export_run(events.take(i), rules).stack);
                let x = #[trigger] exported_events(events, rules)[i];
                match events[i] {
                    EventView::Start(el) => x is Start && {
                        let l = local_part(el.name);
                        let y = x->Start_0;
                        &&& y.name == el.name
                        &&& y.attrs.len() == el.attrs.len()
                        &&& forall|j: int|
                            0 <= j < el.attrs.len() ==> #[trigger] y.attrs[j] == (
                                el.attrs[j].0,
                                match first_set(rules, l, c, el.attrs[j].0) {
                                    Some(v) => v,
                                    None => el.attrs[j].1,
                                },
                            )
                        &&& (forall|k: int| 0 <= k < rules.len() ==> !applies_at(#[trigger] rules[k], l, c))
                            ==> x == events[i]
                    },
                    EventView::Empty(el) => x is Empty && {
                        let l = local_part(el.name);
                        let y = x->Empty_0;
                        &&& y.name == el.name
                        &&& y.attrs.len() == el.attrs.len()
                        &&& forall|j: int|
                            0 <= j < el.attrs.len() ==> #[trigger] y.attrs[j] == (
                                el.attrs[j].0,
                                match first_set(rules, l, c, el.attrs[j].0) {
                                    Some(v) => v,
                                    None => el.attrs[j].1,
                                },
                            )
                        &&& (forall|k: int| 0 <= k < rules.len() ==> !applies_at(#[trigger] rules[k], l, c))
                            ==> x == events[i]
                    },
                    _ => x == events[i],
                }
            },
        rewrite_run(events, rules).applied == attributes_set(events, rules),
{
    lemma_export_len(events, rules);
    lemma_count_run(events, rules);
    assert forall|i: int| 0 <= i < events.len() implies {
        let c = ctx_of(export_run(events.take(i), rules).stack);
        let x = #[trigger] exported_events(events, rules)[i];
        match events[i] {
            EventView::Start(el) => x is Start && {
                let l = local_part(el.name);
                let y = x->Start_0;
                &&& y.name == el.name
                &&& y.attrs.len() == el.attrs.len()
                &&& forall|j: int|
                    0 <= j < el.attrs.len() ==> #[trigger] y.attrs[j] == (
                        el.attrs[j].0,
                        match first_set(rules, l, c, el.attrs[j].0) {
                            Some(v) => v,
                            None => el.attrs[j].1,
                        },
                    )
                &&& (forall|k: int| 0 <= k < rules.len() ==> !applies_at(#[trigger] rules[k], l, c))
                    ==> x == events[i]
            },
            EventView::Empty(el) => x is Empty && {
                let l = local_part(el.name);
                let y = x->Empty_0;
                &&& y.name == el.name
                &&& y.attrs.len() == el.attrs.len()
                &&& forall|j: int|
                    0 <= j < el.attrs.len() ==> #[trigger] y.attrs[j] == (
                        el.attrs[j].0,
                        match first_set(rules, l, c, el.attrs[j].0) {
                            Some(v) => v,
                            None => el.attrs[j].1,
                        },
                    )
                &&& (forall|k: int| 0 <= k < rules.len() ==> !applies_at(#[trigger] rules[k], l, c))
                    ==> x == events[i]
            },
            _ => x == events[i],
        }
    } by {
        lemma_export_prefix(events, rules, i + 1);
        let t = events.take(i + 1);
        assert(t.drop_last() == events.take(i));
        assert(t.last() == events[i]);
        let a = export_run(events.take(i), rules);
        let m = exported_events(events, rules);
        assert(m[i] == m.take(i + 1)[i]);
        assert(m[i] == export_step(a, events[i], rules).events.last());
        let c = ctx_of(a.stack);
        match events[i] {
            EventView::Start(el) => {
                lemma_exported_element_set(el, local_part(el.name), c, rules);
            },
            EventView::Empty(el) => {
                lemma_exported_element_set(el, local_part(el.name), c, rules);
            },
            _ => {},
        }
    }
}

} // verus!
