//! Importing a mod: each modded file is compared with the original game file
//! to reconstruct the edits it makes.

use vstd::prelude::*;

use crate::export::{ctx_of, frames_view, innermost, key_attr_of, key_of, Frame};
use crate::order::take_first;
use crate::text::{
    contains_text, ends_with, ends_with_exec, eq_ignore_ascii_case, is_float_literal, is_float_text,
    last_occurrence, last_occurrence_exec, to_chars, ascii_lower,
};
use crate::xml::{
    events_read, is_text, local_name, local_part, read_until_error, xml_reads, EventView, XmlAttr,
    XmlElement, XmlEvent,
};

verus! {

pub struct SkillEditOut {
    pub file: String,
    pub uid: String,
    pub element: String,
    pub attr: String,
    /// The modded value (text that parses as an `f64`).
    pub value: String,
}

pub struct PassiveEditOut {
    pub file: String,
    pub node: String,
    pub eim: String,
    pub attr: String,
    pub value: String,
}

pub struct PlayerEditOut {
    pub file: String,
    pub element: String,
    pub attr: String,
    pub value: String,
}

pub struct ImportResult {
    pub skill_edits: Vec<SkillEditOut>,
    pub passive_edits: Vec<PassiveEditOut>,
    pub player_edits: Vec<PlayerEditOut>,
    pub files: usize,
    /// Files in the mod that couldn't be matched to the original data (skipped).
    pub skipped: Vec<String>,
}

pub struct SkillEditOutView {
    pub file: Seq<char>,
    pub uid: Seq<char>,
    pub element: Seq<char>,
    pub attr: Seq<char>,
    pub value: Seq<char>,
}

pub struct PassiveEditOutView {
    pub file: Seq<char>,
    pub node: Seq<char>,
    pub eim: Seq<char>,
    pub attr: Seq<char>,
    pub value: Seq<char>,
}

pub struct PlayerEditOutView {
    pub file: Seq<char>,
    pub element: Seq<char>,
    pub attr: Seq<char>,
    pub value: Seq<char>,
}

impl DeepView for SkillEditOut {
    type V = SkillEditOutView;

    open spec fn deep_view(&self) -> SkillEditOutView {
        SkillEditOutView {
            file: self.file@,
            uid: self.uid@,
            element: self.element@,
            attr: self.attr@,
            value: self.value@,
        }
    }
}

impl DeepView for PassiveEditOut {
    type V = PassiveEditOutView;

    open spec fn deep_view(&self) -> PassiveEditOutView {
        PassiveEditOutView {
            file: self.file@,
            node: self.node@,
            eim: self.eim@,
            attr: self.attr@,
            value: self.value@,
        }
    }
}

impl DeepView for PlayerEditOut {
    type V = PlayerEditOutView;

    open spec fn deep_view(&self) -> PlayerEditOutView {
        PlayerEditOutView { file: self.file@, element: self.element@, attr: self.attr@, value: self.value@ }
    }
}

/// The edits found so far.
pub struct Found {
    pub skill: Seq<SkillEditOutView>,
    pub passive: Seq<PassiveEditOutView>,
    pub player: Seq<PlayerEditOutView>,
}

impl ImportResult {
    pub open spec fn found(&self) -> Found {
        Found {
            skill: self.skill_edits.deep_view(),
            passive: self.passive_edits.deep_view(),
            player: self.player_edits.deep_view(),
        }
    }

    /// An empty result.
    pub fn new() -> (r: ImportResult)
        ensures
            r.found() == (Found { skill: Seq::empty(), passive: Seq::empty(), player: Seq::empty() }),
            r.files == 0,
            r.skipped@.len() == 0,
    {
        let r = ImportResult {
            skill_edits: Vec::new(),
            passive_edits: Vec::new(),
            player_edits: Vec::new(),
            files: 0,
            skipped: Vec::new(),
        };
        assert(r.found().skill =~= Seq::empty());
        assert(r.found().passive =~= Seq::empty());
        assert(r.found().player =~= Seq::empty());
        r
    }

    /// The number of edits found (stopping at `usize::MAX`).
    pub fn total(&self) -> (n: usize)
        ensures
            n == crate::export::capped(
                self.skill_edits@.len() + self.passive_edits@.len() + self.player_edits@.len(),
            ),
    {
        let a = self.skill_edits.len();
        let b = self.passive_edits.len();
        let c = self.player_edits.len();
        if a > usize::MAX - b {
            usize::MAX
        } else if a + b > usize::MAX - c {
            usize::MAX
        } else {
            a + b + c
        }
    }
}

/// The value of the last attribute with this key, which is what comparing
/// an element looks up for it.
pub open spec fn last_value(attrs: Seq<(Seq<char>, Seq<char>)>, key: Seq<char>) -> Option<Seq<char>>
    decreases attrs.len(),
{
    if attrs.len() == 0 {
        None
    } else if attrs.last().0 == key {
        Some(attrs.last().1)
    } else {
        last_value(attrs.drop_last(), key)
    }
}

/// The edit recorded for a changed attribute `key` with its new `value`: of
/// the kind the file's place in the data calls for, where the element's
/// context gives what that kind needs.
pub open spec fn recorded(
    f: Found,
    key: Seq<char>,
    value: Seq<char>,
    lname: Seq<char>,
    stack: Seq<Frame>,
    rel: Seq<char>,
) -> Found {
    let ctx = ctx_of(stack);
    if contains_text(rel, "/NewSkills/Player/"@) {
        match ctx.skill_uid {
            Some(uid) => Found {
                skill: f.skill.push(
                    SkillEditOutView { file: rel, uid, element: lname, attr: key, value },
                ),
                ..f
            },
            None => f,
        }
    } else if contains_text(rel, "/Passive/PST/"@) {
        if lname == "Semantics"@ && ctx.spell is Some && ctx.eim is Some {
            Found {
                passive: f.passive.push(
                    PassiveEditOutView {
                        file: rel,
                        node: ctx.spell->0,
                        eim: ctx.eim->0,
                        attr: key,
                        value,
                    },
                ),
                ..f
            }
        } else {
            f
        }
    } else if ends_with(rel, "DefaultSheet.xml"@) {
        Found {
            player: f.player.push(PlayerEditOutView { file: rel, element: lname, attr: key, value }),
            ..f
        }
    } else {
        f
    }
}

/// What one attribute of a modded element contributes: nothing where its
/// value equals the original's or is not a number, else the edit recorded
/// for it.
pub open spec fn attr_found(
    f: Found,
    orig_attrs: Seq<(Seq<char>, Seq<char>)>,
    key: Seq<char>,
    value: Seq<char>,
    lname: Seq<char>,
    stack: Seq<Frame>,
    rel: Seq<char>,
) -> Found {
    if last_value(orig_attrs, key) == Some(value) || !is_float_literal(value) {
        f
    } else {
        recorded(f, key, value, lname, stack, rel)
    }
}

/// What comparing a modded element with its original contributes, attribute
/// by attribute in the modded element's order.
pub open spec fn compared(
    f: Found,
    orig_attrs: Seq<(Seq<char>, Seq<char>)>,
    mod_attrs: Seq<(Seq<char>, Seq<char>)>,
    lname: Seq<char>,
    stack: Seq<Frame>,
    rel: Seq<char>,
) -> Found
    decreases mod_attrs.len(),
{
    if mod_attrs.len() == 0 {
        f
    } else {
        attr_found(
            compared(f, orig_attrs, mod_attrs.drop_last(), lname, stack, rel),
            orig_attrs,
            mod_attrs.last().0,
            mod_attrs.last().1,
            lname,
            stack,
            rel,
        )
    }
}

/// The start, empty and end tags among the events.
pub open spec fn structural(events: Seq<EventView>) -> Seq<EventView>
    decreases events.len(),
{
    if events.len() == 0 {
        Seq::empty()
    } else {
        let rest = structural(events.drop_last());
        match events.last() {
            EventView::Start(_) | EventView::Empty(_) | EventView::End(_) => rest.push(events.last()),
            _ => rest,
        }
    }
}

/// Two structural events the comparison walks in step.
pub open spec fn same_kind(a: EventView, b: EventView) -> bool {
    match (a, b) {
        (EventView::Start(_), EventView::Start(_)) => true,
        (EventView::Empty(_), EventView::Empty(_)) => true,
        (EventView::End(_), EventView::End(_)) => true,
        _ => false,
    }
}

/// How many structural events the two files share in step, from `k` on.
pub open spec fn steps_from(so: Seq<EventView>, sm: Seq<EventView>, k: nat) -> nat
    decreases so.len() - k,
{
    if k < so.len() && k < sm.len() && same_kind(so[k as int], sm[k as int]) {
        steps_from(so, sm, k + 1)
    } else {
        k
    }
}

pub struct DiffState {
    pub found: Found,
    pub stack: Seq<Frame>,
}

pub open spec fn diff_step(s: DiffState, eo: EventView, em: EventView, rel: Seq<char>) -> DiffState {
    match (eo, em) {
        (EventView::Start(o), EventView::Start(m)) => {
            let l = local_part(m.name);
            DiffState {
                found: compared(s.found, o.attrs, m.attrs, l, s.stack, rel),
                stack: s.stack.push((l, key_attr_of(l, m))),
            }
        },
        (EventView::Empty(o), EventView::Empty(m)) => {
            let l = local_part(m.name);
            DiffState { found: compared(s.found, o.attrs, m.attrs, l, s.stack, rel), ..s }
        },
        (EventView::End(_), EventView::End(_)) => DiffState {
            stack: if s.stack.len() > 0 {
                s.stack.drop_last()
            } else {
                s.stack
            },
            ..s
        },
        _ => s,
    }
}

/// The state after the first `n` steps of the walk.
pub open spec fn diff_run(so: Seq<EventView>, sm: Seq<EventView>, n: nat, rel: Seq<char>, f: Found) -> DiffState
    decreases n,
{
    if n == 0 {
        DiffState { found: f, stack: Seq::empty() }
    } else {
        diff_step(diff_run(so, sm, (n - 1) as nat, rel, f), so[n - 1], sm[n - 1], rel)
    }
}

/// The edits the walk over two files finds, on top of `f`.
pub open spec fn diff_found(orig: Seq<char>, modx: Seq<char>, rel: Seq<char>, f: Found) -> Found {
    let so = structural(events_read(xml_reads(orig)));
    let sm = structural(events_read(xml_reads(modx)));
    diff_run(so, sm, steps_from(so, sm, 0), rel, f).found
}

/// Whether the walk stops on a read error: the original, or else the modded
/// file, failed where the walk needed its next structural event.
pub open spec fn diff_fails(orig: Seq<char>, modx: Seq<char>) -> bool {
    let so = structural(events_read(xml_reads(orig)));
    let sm = structural(events_read(xml_reads(modx)));
    let n = steps_from(so, sm, 0);
    (n == so.len() && xml_reads(orig).last() is None) || (n == sm.len() && xml_reads(modx).last()
        is None)
}

/// The structural events, in order.
fn structural_events(events: Vec<XmlEvent>) -> (out: Vec<XmlEvent>)
    ensures
        out.deep_view() == structural(events.deep_view()),
{
    let ghost orig = events.deep_view();
    let total = events.len();
    let mut rest = events;
    let mut out: Vec<XmlEvent> = Vec::new();
    let mut k: usize = 0;
    assert(orig.take(0) =~= Seq::<EventView>::empty());
    assert(out.deep_view() =~= Seq::<EventView>::empty());
    assert(rest.deep_view() == orig.skip(0));
    while rest.len() > 0
        invariant
            k <= orig.len() == total,
            rest.deep_view() == orig.skip(k as int),
            out.deep_view() == structural(orig.take(k as int)),
        decreases rest.len(),
    {
        let ghost rv = rest.deep_view();
        assert(k < orig.len()) by {
            assert(rv.len() == orig.len() - k);
        }
        let e = take_first(&mut rest);
        assert(e.deep_view() == orig[k as int]) by {
            assert(rv[0] == orig.skip(k as int)[0]);
        }
        assert(rest.deep_view() =~= orig.skip(k + 1));
        assert(orig.take(k + 1).drop_last() == orig.take(k as int));
        let ghost before = out.deep_view();
        let keep = match &e {
            XmlEvent::Start(_) | XmlEvent::Empty(_) | XmlEvent::End(_) => true,
            _ => false,
        };
        if keep {
            out.push(e);
            assert(out.deep_view() =~= before.push(orig[k as int]));
        }
        k = k + 1;
    }
    assert(orig.take(k as int) == orig);
    out
}

/// The value of the last attribute with this key.
fn last_value_of<'a>(attrs: &'a Vec<XmlAttr>, key: &String) -> (v: Option<&'a String>)
    ensures
        match v {
            Some(s) => last_value(attrs.deep_view(), key@) == Some(s@),
            None => last_value(attrs.deep_view(), key@) is None,
        },
{
    let ghost av = attrs.deep_view();
    let mut i = attrs.len();
    assert(av.take(i as int) == av);
    while i > 0
        invariant
            av == attrs.deep_view(),
            i <= av.len(),
            last_value(av, key@) == last_value(av.take(i as int), key@),
        decreases i,
    {
        assert(av.take(i as int).last() == av[i - 1]);
        assert(av.take(i as int).drop_last() == av.take(i - 1));
        if attrs[i - 1].key.eq(key) {
            return Some(&attrs[i - 1].value);
        }
        i = i - 1;
    }
    None
}

/// Adds what one attribute of a modded element contributes.
fn add_attr_edit(
    out: &mut ImportResult,
    orig_attrs: &Vec<XmlAttr>,
    a: &XmlAttr,
    lname: &String,
    stack: &Vec<(String, Option<String>)>,
    rel: &String,
    in_skills: bool,
    in_passives: bool,
    in_player: bool,
)
    requires
        in_skills == contains_text(rel@, "/NewSkills/Player/"@),
        in_passives == contains_text(rel@, "/Passive/PST/"@),
        in_player == ends_with(rel@, "DefaultSheet.xml"@),
    ensures
        final(out).found() == attr_found(
            old(out).found(),
            orig_attrs.deep_view(),
            a.key@,
            a.value@,
            lname@,
            frames_view(stack@),
            rel@,
        ),
        final(out).files == old(out).files,
        final(out).skipped == old(out).skipped,
{
    let unchanged = match last_value_of(orig_attrs, &a.key) {
        Some(ov) => ov.eq(&a.value),
        None => false,
    };
    if unchanged || !is_float_text(a.value.as_str()) {
        return;
    }
    let ghost f = old(out).found();
    if in_skills {
        match innermost(stack, "Skill") {
            Some(uid) => {
                out.skill_edits.push(
                    SkillEditOut {
                        file: rel.clone(),
                        uid,
                        element: lname.clone(),
                        attr: a.key.clone(),
                        value: a.value.clone(),
                    },
                );
                assert(out.found().skill =~= f.skill.push(out.skill_edits@.last().deep_view()));
            },
            None => {},
        }
    } else if in_passives {
        if is_text(lname, "Semantics") {
            let spell = innermost(stack, "Spell");
            let eim = innermost(stack, "EIM");
            match (spell, eim) {
                (Some(node), Some(eim)) => {
                    out.passive_edits.push(
                        PassiveEditOut {
                            file: rel.clone(),
                            node,
                            eim,
                            attr: a.key.clone(),
                            value: a.value.clone(),
                        },
                    );
                    assert(out.found().passive =~= f.passive.push(
                        out.passive_edits@.last().deep_view(),
                    ));
                },
                _ => {},
            }
        }
    } else if in_player {
        out.player_edits.push(
            PlayerEditOut {
                file: rel.clone(),
                element: lname.clone(),
                attr: a.key.clone(),
                value: a.value.clone(),
            },
        );
        assert(out.found().player =~= f.player.push(out.player_edits@.last().deep_view()));
    }
}

/// Adds the edits a modded element makes to its original.
fn compare(
    oe: &XmlElement,
    me: &XmlElement,
    lname: &String,
    stack: &Vec<(String, Option<String>)>,
    rel: &String,
    out: &mut ImportResult,
)
    ensures
        final(out).found() == compared(
            old(out).found(),
            oe.attrs.deep_view(),
            me.attrs.deep_view(),
            lname@,
            frames_view(stack@),
            rel@,
        ),
        final(out).files == old(out).files,
        final(out).skipped == old(out).skipped,
{
    let rc = to_chars(rel.as_str());
    let in_skills = last_occurrence_exec(&rc, &to_chars("/NewSkills/Player/")).is_some();
    let in_passives = last_occurrence_exec(&rc, &to_chars("/Passive/PST/")).is_some();
    let in_player = ends_with_exec(&rc, &to_chars("DefaultSheet.xml"));
    let ghost mv = me.attrs.deep_view();
    let ghost f0 = out.found();
    let mut i: usize = 0;
    assert(mv.take(0) =~= Seq::<(Seq<char>, Seq<char>)>::empty());
    while i < me.attrs.len()
        invariant
            mv == me.attrs.deep_view(),
            i <= mv.len(),
            in_skills == contains_text(rel@, "/NewSkills/Player/"@),
            in_passives == contains_text(rel@, "/Passive/PST/"@),
            in_player == ends_with(rel@, "DefaultSheet.xml"@),
            out.found() == compared(
                f0,
                oe.attrs.deep_view(),
                mv.take(i as int),
                lname@,
                frames_view(stack@),
                rel@,
            ),
            out.files == old(out).files,
            out.skipped == old(out).skipped,
            f0 == old(out).found(),
        decreases mv.len() - i,
    {
        assert(mv.take(i + 1).drop_last() == mv.take(i as int));
        add_attr_edit(out, &oe.attrs, &me.attrs[i], lname, stack, rel, in_skills, in_passives, in_player);
        i = i + 1;
    }
    assert(mv.take(mv.len() as int) == mv);
}

/// Walks a modded file and its original in step over their structural
/// events, adding the edits found; fails where a read the walk needs fails
/// (the edits found before stay).
pub fn diff(orig: &str, modx: &str, rel: &String, out: &mut ImportResult) -> (ok: bool)
    ensures
        final(out).found() == diff_found(orig@, modx@, rel@, old(out).found()),
        ok == !diff_fails(orig@, modx@),
        final(out).files == old(out).files,
        final(out).skipped == old(out).skipped,
{
    let (oevs, ofail) = read_until_error(orig);
    let (mevs, mfail) = read_until_error(modx);
    let so = structural_events(oevs);
    let sm = structural_events(mevs);
    let ghost sov = so.deep_view();
    let ghost smv = sm.deep_view();
    let ghost f0 = out.found();
    let mut stack: Vec<(String, Option<String>)> = Vec::new();
    let mut k: usize = 0;
    assert(frames_view(stack@) =~= Seq::<Frame>::empty());
    while k < so.len() && k < sm.len() && same_kind_exec(&so[k], &sm[k])
        invariant
            sov == so.deep_view(),
            smv == sm.deep_view(),
            k <= sov.len() && k <= smv.len(),
            steps_from(sov, smv, 0) == steps_from(sov, smv, k as nat),
            diff_run(sov, smv, k as nat, rel@, f0) == (DiffState {
                found: out.found(),
                stack: frames_view(stack@),
            }),
            out.files == old(out).files,
            out.skipped == old(out).skipped,
            f0 == old(out).found(),
        decreases sov.len() - k,
    {
        match (&so[k], &sm[k]) {
            (XmlEvent::Start(oe), XmlEvent::Start(me)) => {
                let l = local_name(&me.name);
                compare(oe, me, &l, &stack, rel, out);
                let key = key_of(&l, me);
                let ghost before = stack@;
                stack.push((l, key));
                assert(frames_view(stack@) =~= frames_view(before).push((l@, key.deep_view())));
            },
            (XmlEvent::Empty(oe), XmlEvent::Empty(me)) => {
                let l = local_name(&me.name);
                compare(oe, me, &l, &stack, rel, out);
            },
            _ => {
                let ghost before = stack@;
                if stack.len() > 0 {
                    stack.pop();
                    assert(frames_view(stack@) =~= frames_view(before).drop_last());
                }
            },
        }
        k = k + 1;
    }
    !((k == so.len() && ofail) || (k == sm.len() && mfail))
}

fn same_kind_exec(a: &XmlEvent, b: &XmlEvent) -> (r: bool)
    ensures
        r == same_kind(a.deep_view(), b.deep_view()),
{
    match (a, b) {
        (XmlEvent::Start(_), XmlEvent::Start(_)) => true,
        (XmlEvent::Empty(_), XmlEvent::Empty(_)) => true,
        (XmlEvent::End(_), XmlEvent::End(_)) => true,
        _ => false,
    }
}

/// What importing one modded file adds: a file whose original could not be
/// read is skipped; one that could not itself be read adds nothing; else its
/// edits are added, and it counts as a changed file where the walk ended
/// without a read error and found edits.
pub fn import_file(out: &mut ImportResult, rel: String, orig: Option<&str>, modx: Option<&str>)
    ensures
        orig is None ==> {
            &&& final(out).found() == old(out).found()
            &&& final(out).files == old(out).files
            &&& final(out).skipped@ == old(out).skipped@.push(rel)
        },
        orig is Some && modx is None ==> *final(out) == *old(out),
        orig is Some && modx is Some ==> {
            let f = diff_found(orig->0@, modx->0@, rel@, old(out).found());
            &&& final(out).found() == f
            &&& final(out).skipped == old(out).skipped
            &&& final(out).files == if !diff_fails(orig->0@, modx->0@) && crate::export::capped(
                f.skill.len() + f.passive.len() + f.player.len(),
            ) > crate::export::capped(
                old(out).skill_edits@.len() + old(out).passive_edits@.len()
                    + old(out).player_edits@.len(),
            ) {
                crate::export::capped((old(out).files + 1) as nat)
            } else {
                old(out).files
            }
        },
{
    match orig {
        None => {
            out.skipped.push(rel);
        },
        Some(o) => match modx {
            None => {},
            Some(m) => {
                let before = out.total();
                let ok = diff(o, m, &rel, out);
                let after = out.total();
                if ok && after > before {
                    out.files = if out.files == usize::MAX {
                        usize::MAX
                    } else {
                        out.files + 1
                    };
                }
            },
        },
    }
}

} // verus!

verus! {

/// The index of the first component that is `Umbra` ignoring ASCII case.
pub open spec fn umbra_index(comps: Seq<Seq<char>>) -> Option<int>
    decreases comps.len(),
{
    if comps.len() == 0 {
        None
    } else if eq_ignore_ascii_case(comps[0], "Umbra"@) {
        Some(0)
    } else {
        match umbra_index(comps.drop_first()) {
            Some(i) => Some(i + 1),
            None => None,
        }
    }
}

/// The parts joined with `/`.
pub open spec fn join_slash(parts: Seq<Seq<char>>) -> Seq<char>
    decreases parts.len(),
{
    if parts.len() == 0 {
        Seq::empty()
    } else if parts.len() == 1 {
        parts[0]
    } else {
        join_slash(parts.drop_last()) + "/"@ + parts.last()
    }
}

/// The path under the pak's `Umbra/` root of a file with these path
/// components (e.g. `Skills/NewSkills/Player/Foo.xml`).
pub open spec fn rel_of(comps: Seq<Seq<char>>) -> Option<Seq<char>> {
    match umbra_index(comps) {
        Some(i) => {
            let r = join_slash(comps.skip(i + 1));
            if r.len() == 0 {
                None
            } else {
                Some(r)
            }
        },
        None => None,
    }
}

/// The extension of a file name (`Path::extension`): what follows its last
/// `.`, where that `.` is not its first character; `..` has none.
pub open spec fn file_extension(name: Seq<char>) -> Option<Seq<char>> {
    if name == ".."@ {
        None
    } else {
        match last_occurrence(name, "."@) {
            Some(i) => if i > 0 {
                Some(name.skip(i + 1))
            } else {
                None
            },
            None => None,
        }
    }
}

/// The path under `Umbra/` of a file with these path components, where
/// there is one.
pub fn rel_from_path(comps: &Vec<String>) -> (r: Option<String>)
    ensures
        r.deep_view() == rel_of(comps.deep_view()),
{
    let ghost cv = comps.deep_view();
    let mut i: usize = 0;
    assert(cv.skip(0) == cv);
    while i < comps.len() && !umbra_name(&comps[i])
        invariant
            cv == comps.deep_view(),
            i <= cv.len(),
            umbra_index(cv) == match umbra_index(cv.skip(i as int)) {
                Some(j) => Some(j + i),
                None => None,
            },
        decreases cv.len() - i,
    {
        assert(cv.skip(i as int).drop_first() == cv.skip(i + 1));
        i = i + 1;
    }
    if i == comps.len() {
        assert(cv.skip(i as int).len() == 0);
        return None;
    }
    assert(cv.skip(i as int)[0] == cv[i as int]);
    let ghost parts = cv.skip(i + 1);
    let mut rel = String::new();
    let mut j = i + 1;
    assert(parts.take(0) =~= Seq::<Seq<char>>::empty());
    while j < comps.len()
        invariant
            cv == comps.deep_view(),
            i < j <= cv.len(),
            parts == cv.skip(i + 1),
            rel@ == join_slash(parts.take(j - i - 1)),
        decreases cv.len() - j,
    {
        assert(parts.take(j - i).drop_last() == parts.take(j - i - 1));
        assert(parts.take(j - i).last() == cv[j as int]);
        if j > i + 1 {
            rel.append("/");
        } else {
            assert(parts.take(j - i - 1).len() == 0);
        }
        rel.append(comps[j].as_str());
        j = j + 1;
    }
    assert(parts.take(j - i - 1) == parts);
    if rel.as_str().is_empty() {
        None
    } else {
        Some(rel)
    }
}

/// Whether a path component is `Umbra` ignoring ASCII case.
fn umbra_name(c: &String) -> (b: bool)
    ensures
        b == eq_ignore_ascii_case(c@, "Umbra"@),
{
    let chars = to_chars(c.as_str());
    crate::text::word_ignoring_case(&chars, "Umbra")
}

/// Whether a file name has the extension `xml`.
pub fn has_xml_extension(name: &str) -> (b: bool)
    ensures
        b == (file_extension(name@) == Some("xml"@)),
{
    let chars = to_chars(name);
    let dotdot = to_chars("..");
    let dot = to_chars(".");
    let xml = to_chars("xml");
    proof {
        reveal_strlit("..");
        reveal_strlit(".");
        reveal_strlit("xml");
    }
    if chars.len() == 2 && chars[0] == '.' && chars[1] == '.' {
        assert(chars@ =~= dotdot@);
        return false;
    }
    assert(chars@ != ".."@) by {
        if chars@ == ".."@ {
            assert(chars@.len() == 2 && chars@[0] == '.' && chars@[1] == '.');
        }
    }
    match last_occurrence_exec(&chars, &dot) {
        Some(i) => {
            if i == 0 {
                return false;
            }
            let rest = crate::text::from_char_range(&chars, i + 1, chars.len());
            assert(chars@.subrange(i + 1, chars@.len() as int) == chars@.skip(i + 1));
            let rc = to_chars(rest.as_str());
            let b = rc.len() == 3 && rc[0] == 'x' && rc[1] == 'm' && rc[2] == 'l';
            assert(b == (rc@ == xml@)) by {
                if rc@ == xml@ {
                    assert(rc@[0] == 'x' && rc@[1] == 'm' && rc@[2] == 'l');
                }
                if b {
                    assert(rc@ =~= xml@);
                }
            }
            b
        },
        None => false,
    }
}

} // verus!
