//! Player active skills: the skill list and each skill's variants (perks)
//! with their editable numbers.

use vstd::prelude::*;

use crate::localization::{get_spec, Strings};
use crate::order::{
    insert_index, law_stable_sort_permutes, law_stable_sort_sorted, lemma_text_le_total,
    lemma_text_le_transitive, sorted_by, stable_sort, take_first, text_le, text_leq,
};
use crate::text::{
    after_last, concat, contains_text, decimal, ends_with, ends_with_exec, from_char_range,
    is_float_literal, is_float_text, last_occurrence_exec, lowercase, parse_u32, parse_u32_spec,
    starts_with, starts_with_exec, to_chars, to_lowercase, u32_text,
};
use crate::xml::{
    attr_value, attribute, is_text, local_name, local_part, read_document, xml_document,
    ElementView, EventView, XmlElement, XmlError, XmlEvent,
};

verus! {

/// Where the player skill files live, relative to the extracted Umbra root.
pub open spec fn player_skills_dir() -> Seq<char> {
    "Skills/NewSkills/Player"@
}

/// One editable numeric parameter of a perk (e.g. damage-per-ailment-stack).
pub struct Field {
    /// Owning effect element, e.g. "BaseDamageMultiplier".
    pub element: String,
    /// Attribute name, e.g. "AdditionalMultiplierFactorPerAilmentStack".
    pub attr: String,
    /// The number as written in the file (text that parses as an `f64`).
    pub value: String,
}

/// A perk (variant) of a skill.
pub struct Variant {
    pub uid: String,
    pub number: Option<u32>,
    pub name: String,
    pub description: String,
    pub fields: Vec<Field>,
}

pub struct SkillDetail {
    pub internal_name: String,
    pub display_name: String,
    pub file: String,
    pub variants: Vec<Variant>,
}

pub struct SkillSummary {
    pub internal_name: String,
    pub display_name: String,
    pub file: String,
}

pub struct VariantView {
    pub uid: Seq<char>,
    pub number: Option<u32>,
    pub name: Seq<char>,
    pub description: Seq<char>,
    pub fields: Seq<(Seq<char>, Seq<char>, Seq<char>)>,
}

pub struct SkillSummaryView {
    pub internal_name: Seq<char>,
    pub display_name: Seq<char>,
    pub file: Seq<char>,
}

impl DeepView for Field {
    type V = (Seq<char>, Seq<char>, Seq<char>);

    open spec fn deep_view(&self) -> (Seq<char>, Seq<char>, Seq<char>) {
        (self.element@, self.attr@, self.value@)
    }
}

impl DeepView for Variant {
    type V = VariantView;

    open spec fn deep_view(&self) -> VariantView {
        VariantView {
            uid: self.uid@,
            number: self.number,
            name: self.name@,
            description: self.description@,
            fields: self.fields.deep_view(),
        }
    }
}

impl DeepView for SkillSummary {
    type V = SkillSummaryView;

    open spec fn deep_view(&self) -> SkillSummaryView {
        SkillSummaryView {
            internal_name: self.internal_name@,
            display_name: self.display_name@,
            file: self.file@,
        }
    }
}

/// The internal name of a skill file stem: "Player_Laceration" -> "Laceration".
pub open spec fn internal_of_stem(stem: Seq<char>) -> Seq<char> {
    if starts_with(stem, "Player_"@) {
        stem.skip(7)
    } else {
        stem
    }
}

/// The text for `key`, or `fallback` where there is none.
pub open spec fn text_or(m: Map<Seq<char>, Seq<char>>, key: Seq<char>, fallback: Seq<char>) -> Seq<
    char,
> {
    match get_spec(m, key) {
        Some(t) => t,
        None => fallback,
    }
}

/// The display name of a skill: its `ui_AST_<Name>` string, or the internal
/// name where there is none.
pub open spec fn display_name_of(m: Map<Seq<char>, Seq<char>>, internal: Seq<char>) -> Seq<char> {
    text_or(m, "ui_AST_"@ + internal, internal)
}

/// The number of a variant UID: what follows its last `_variant_`, as a `u32`.
pub open spec fn variant_number_of(uid: Seq<char>) -> Option<u32> {
    parse_u32_spec(after_last(uid, "_variant_"@))
}

/// Elements that carry no editable gameplay numbers (presentation/FX/audio).
pub open spec fn presentational(name: Seq<char>) -> bool {
    name == "HUD"@ || name == "Particle"@ || name == "ParticleList"@ || name == "SoundTrigger"@
        || name == "Animation"@ || name == "Entry"@
}

/// The numeric attributes of an element, as fields of that element.
pub open spec fn numeric_fields(element: Seq<char>, attrs: Seq<(Seq<char>, Seq<char>)>) -> Seq<
    (Seq<char>, Seq<char>, Seq<char>),
>
    decreases attrs.len(),
{
    if attrs.len() == 0 {
        Seq::empty()
    } else {
        let rest = numeric_fields(element, attrs.drop_last());
        if is_float_literal(attrs.last().1) {
            rest.push((element, attrs.last().0, attrs.last().1))
        } else {
            rest
        }
    }
}

/// A variant with the numeric attributes of a (non-presentational) effect
/// element added to its fields.
pub open spec fn with_fields(v: VariantView, element: Seq<char>, attrs: Seq<(Seq<char>, Seq<char>)>) -> VariantView {
    if presentational(element) {
        v
    } else {
        VariantView { fields: v.fields + numeric_fields(element, attrs), ..v }
    }
}

/// The key of a variant's localized name.
pub open spec fn variant_name_key(internal: Seq<char>, number: Option<u32>) -> Seq<char> {
    match number {
        Some(n) => "ui_Variant_"@ + internal + "_variant_"@ + decimal(n as nat),
        None => Seq::empty(),
    }
}

/// The variant a `<Skill>` element begins: one whose `UID` contains
/// `_variant_`, named and described from the localization strings.
pub open spec fn variant_start(el: ElementView, internal: Seq<char>, m: Map<Seq<char>, Seq<char>>) -> Option<VariantView> {
    match attr_value(el.attrs, "UID"@) {
        None => None,
        Some(uid) => if !contains_text(uid, "_variant_"@) {
            None
        } else {
            let number = variant_number_of(uid);
            let key = variant_name_key(internal, number);
            Some(
                VariantView {
                    uid,
                    number,
                    name: text_or(m, key, Seq::empty()),
                    description: text_or(m, key + "_desc"@, Seq::empty()),
                    fields: Seq::empty(),
                },
            )
        },
    }
}

/// The state of a pass over a skill file.
pub struct VariantScan {
    pub done: Seq<VariantView>,
    pub current: Option<VariantView>,
    /// The name of the child container whose content is being skipped.
    pub skip: Option<Seq<char>>,
}

pub open spec fn close_current(s: VariantScan) -> Seq<VariantView> {
    match s.current {
        Some(v) => s.done.push(v),
        None => s.done,
    }
}

/// One event of the pass. A `<Skill>` closes the variant being collected and
/// may begin another, which its own end tag closes (an empty `<Skill/>` is
/// closed at once); inside a variant, each direct child element adds its
/// numeric attributes, and the content of a child with content is skipped.
pub open spec fn variant_step(s: VariantScan, e: EventView, internal: Seq<char>, m: Map<Seq<char>, Seq<char>>) -> VariantScan {
    match e {
        EventView::Start(el) => {
            let l = local_part(el.name);
            if s.skip is Some {
                s
            } else if l == "Skill"@ {
                VariantScan { done: close_current(s), current: variant_start(el, internal, m), skip: None }
            } else if s.current is Some {
                VariantScan {
                    current: Some(with_fields(s.current->0, l, el.attrs)),
                    skip: Some(l),
                    ..s
                }
            } else {
                s
            }
        },
        EventView::Empty(el) => {
            let l = local_part(el.name);
            if s.skip is Some {
                s
            } else if l == "Skill"@ {
                let started = VariantScan {
                    done: close_current(s),
                    current: variant_start(el, internal, m),
                    skip: None,
                };
                VariantScan { done: close_current(started), current: None, skip: None }
            } else if s.current is Some {
                VariantScan { current: Some(with_fields(s.current->0, l, el.attrs)), ..s }
            } else {
                s
            }
        },
        EventView::End(n) => {
            if s.skip is Some {
                if s.skip == Some(local_part(n)) {
                    VariantScan { skip: None, ..s }
                } else {
                    s
                }
            } else if local_part(n) == "Skill"@ {
                VariantScan { done: close_current(s), current: None, skip: None }
            } else {
                s
            }
        },
        _ => s,
    }
}

pub open spec fn variant_run(events: Seq<EventView>, internal: Seq<char>, m: Map<Seq<char>, Seq<char>>) -> VariantScan
    decreases events.len(),
{
    if events.len() == 0 {
        VariantScan { done: Seq::empty(), current: None, skip: None }
    } else {
        variant_step(variant_run(events.drop_last(), internal, m), events.last(), internal, m)
    }
}

/// The variants of a skill file with these events, in file order.
pub open spec fn variants_of(events: Seq<EventView>, internal: Seq<char>, m: Map<Seq<char>, Seq<char>>) -> Seq<VariantView> {
    close_current(variant_run(events, internal, m))
}

/// Variants ordered by number, unnumbered ones last.
pub open spec fn variant_key(v: VariantView) -> int {
    match v.number {
        Some(n) => n as int,
        None => u32::MAX as int,
    }
}

pub open spec fn variant_le(a: VariantView, b: VariantView) -> bool {
    variant_key(a) <= variant_key(b)
}

/// The file of a skill, relative to the Umbra root.
pub open spec fn skill_file_of(internal: Seq<char>) -> Seq<char> {
    player_skills_dir() + "/Player_"@ + internal + ".xml"@
}

/// Summaries ordered by lowercase display name.
pub open spec fn summary_le(a: SkillSummaryView, b: SkillSummaryView) -> bool {
    text_le(lowercase(a.display_name), lowercase(b.display_name))
}

/// Whether a directory entry name is a player skill file.
pub open spec fn is_skill_file_name(name: Seq<char>) -> bool {
    starts_with(name, "Player_"@) && ends_with(name, ".xml"@)
}

/// The summary of a player skill file.
pub open spec fn summary_of(name: Seq<char>, m: Map<Seq<char>, Seq<char>>) -> SkillSummaryView {
    let internal = internal_of_stem(name.take(name.len() - 4));
    SkillSummaryView {
        internal_name: internal,
        display_name: display_name_of(m, internal),
        file: player_skills_dir() + "/"@ + name,
    }
}

/// The summaries of the skill files among `names`, in the order of `names`.
pub open spec fn summaries_of(names: Seq<Seq<char>>, m: Map<Seq<char>, Seq<char>>) -> Seq<SkillSummaryView>
    decreases names.len(),
{
    if names.len() == 0 {
        Seq::empty()
    } else {
        let rest = summaries_of(names.drop_last(), m);
        if is_skill_file_name(names.last()) {
            rest.push(summary_of(names.last(), m))
        } else {
            rest
        }
    }
}

/// The internal name of a skill file stem.
pub fn internal_from_file(file_stem: &str) -> (r: String)
    ensures
        r@ == internal_of_stem(file_stem@),
{
    let chars = to_chars(file_stem);
    let prefix = to_chars("Player_");
    proof {
        reveal_strlit("Player_");
    }
    if starts_with_exec(&chars, &prefix) {
        let r = from_char_range(&chars, 7, chars.len());
        assert(chars@.subrange(7, chars@.len() as int) == chars@.skip(7));
        r
    } else {
        String::from_str(file_stem)
    }
}

/// The number of a variant UID.
pub fn variant_number(uid: &str) -> (n: Option<u32>)
    ensures
        n == variant_number_of(uid@),
{
    let chars = to_chars(uid);
    let pat = to_chars("_variant_");
    proof {
        reveal_strlit("_variant_");
    }
    let len = chars.len();
    match last_occurrence_exec(&chars, &pat) {
        Some(i) => {
            assert(i + 9 <= len);
            let rest = from_char_range(&chars, i + 9, chars.len());
            assert(chars@.subrange(i + 9, chars@.len() as int) == chars@.skip(i + 9));
            parse_u32(rest.as_str())
        },
        None => parse_u32(uid),
    }
}

/// Whether an element carries no editable gameplay numbers.
pub fn is_presentational(name: &String) -> (b: bool)
    ensures
        b == presentational(name@),
{
    is_text(name, "HUD") || is_text(name, "Particle") || is_text(name, "ParticleList")
        || is_text(name, "SoundTrigger") || is_text(name, "Animation") || is_text(name, "Entry")
}

/// Adds the numeric attributes of effect element `el` (local name `lname`)
/// to the variant's fields.
fn record_fields(el: &XmlElement, lname: &String, v: &mut Variant)
    ensures
        final(v).deep_view() == with_fields(old(v).deep_view(), lname@, el.attrs.deep_view()),
{
    if is_presentational(lname) {
        return;
    }
    let ghost attrs = el.attrs.deep_view();
    let ghost start = v.fields.deep_view();
    let mut i: usize = 0;
    while i < el.attrs.len()
        invariant
            attrs == el.attrs.deep_view(),
            i <= attrs.len(),
            !presentational(lname@),
            v.fields.deep_view() == start + numeric_fields(lname@, attrs.take(i as int)),
            v.uid@ == old(v).uid@,
            v.number == old(v).number,
            v.name@ == old(v).name@,
            v.description@ == old(v).description@,
            start == old(v).fields.deep_view(),
        decreases attrs.len() - i,
    {
        assert(attrs.take(i + 1).drop_last() == attrs.take(i as int));
        let a = &el.attrs[i];
        if is_float_text(a.value.as_str()) {
            let ghost before = v.fields.deep_view();
            v.fields.push(Field { element: lname.clone(), attr: a.key.clone(), value: a.value.clone() });
            assert(v.fields.deep_view() =~= before.push((lname@, a.key@, a.value@)));
        }
        i = i + 1;
    }
    assert(attrs.take(attrs.len() as int) == attrs);
}

/// The variant a `<Skill>` element begins, if it begins one.
fn begin_variant(el: &XmlElement, internal: &str, strings: &Strings) -> (r: Option<Variant>)
    ensures
        r.deep_view() == variant_start(el.deep_view(), internal@, strings@),
{
    let uid = match attribute(el, "UID") {
        Some(u) => u,
        None => return None,
    };
    let uc = to_chars(uid.as_str());
    let pat = to_chars("_variant_");
    if last_occurrence_exec(&uc, &pat).is_none() {
        return None;
    }
    let number = variant_number(uid.as_str());
    let name_key = match number {
        Some(n) => {
            let a = concat("ui_Variant_", internal);
            let b = concat(a.as_str(), "_variant_");
            let d = u32_text(n);
            concat(b.as_str(), d.as_str())
        },
        None => String::new(),
    };
    let name = String::from_str(strings.get_or(name_key.as_str(), ""));
    let desc_key = concat(name_key.as_str(), "_desc");
    let description = String::from_str(strings.get_or(desc_key.as_str(), ""));
    proof {
        reveal_strlit("");
    }
    let v = Variant { uid, number, name, description, fields: Vec::new() };
    assert(v.fields.deep_view() =~= Seq::<(Seq<char>, Seq<char>, Seq<char>)>::empty());
    let ghost sv = variant_start(el.deep_view(), internal@, strings@);
    assert(sv is Some);
    assert(sv->0.uid == v.uid@);
    assert(sv->0.number == v.number);
    assert(variant_name_key(internal@, number) == name_key@);
    assert(sv->0.name == v.name@);
    assert(sv->0.description == v.description@);
    Some(v)
}

/// The variants of a skill file's events, in file order.
pub fn variants_from_events(events: &Vec<XmlEvent>, internal: &str, strings: &Strings) -> (vs: Vec<Variant>)
    ensures
        vs.deep_view() == variants_of(events.deep_view(), internal@, strings@),
{
    let ghost evs = events.deep_view();
    let ghost m = strings@;
    let mut done: Vec<Variant> = Vec::new();
    let mut current: Option<Variant> = None;
    let mut skip: Option<String> = None;
    let mut i: usize = 0;
    assert(evs.take(0) =~= Seq::<EventView>::empty());
    assert(done.deep_view() =~= Seq::<VariantView>::empty());
    while i < events.len()
        invariant
            evs == events.deep_view(),
            m == strings@,
            i <= evs.len(),
            variant_run(evs.take(i as int), internal@, m) == (VariantScan {
                done: done.deep_view(),
                current: current.deep_view(),
                skip: match skip {
                    Some(s) => Some(s@),
                    None => None,
                },
            }),
        decreases evs.len() - i,
    {
        assert(evs.take(i + 1).drop_last() == evs.take(i as int));
        let ghost before = done.deep_view();
        match &events[i] {
            XmlEvent::Start(el) => {
                let l = local_name(&el.name);
                if skip.is_some() {
                } else if is_text(&l, "Skill") {
                    if let Some(v) = current.take() {
                        done.push(v);
                        assert(done.deep_view() =~= before.push(done@.last().deep_view()));
                    }
                    current = begin_variant(el, internal, strings);
                } else if current.is_some() {
                    let mut v = current.take().unwrap();
                    record_fields(el, &l, &mut v);
                    current = Some(v);
                    skip = Some(l);
                }
            },
            XmlEvent::Empty(el) => {
                let l = local_name(&el.name);
                if skip.is_some() {
                } else if is_text(&l, "Skill") {
                    if let Some(v) = current.take() {
                        done.push(v);
                        assert(done.deep_view() =~= before.push(done@.last().deep_view()));
                    }
                    let ghost middle = done.deep_view();
                    if let Some(v) = begin_variant(el, internal, strings) {
                        done.push(v);
                        assert(done.deep_view() =~= middle.push(done@.last().deep_view()));
                    }
                } else if current.is_some() {
                    let mut v = current.take().unwrap();
                    record_fields(el, &l, &mut v);
                    current = Some(v);
                }
            },
            XmlEvent::End(n) => {
                let l = local_name(n);
                match &skip {
                    Some(s) => {
                        if s.eq(&l) {
                            skip = None;
                        }
                    },
                    None => {
                        if is_text(&l, "Skill") {
                            if let Some(v) = current.take() {
                                done.push(v);
                                assert(done.deep_view() =~= before.push(done@.last().deep_view()));
                            }
                        }
                    },
                }
            },
            _ => {},
        }
        i = i + 1;
    }
    assert(evs.take(evs.len() as int) == evs);
    let ghost before = done.deep_view();
    if let Some(v) = current.take() {
        done.push(v);
        assert(done.deep_view() =~= before.push(done@.last().deep_view()));
    }
    done
}

/// The number a variant is ordered by.
fn number_key(v: &Variant) -> (k: u32)
    ensures
        k as int == variant_key(v.deep_view()),
{
    match v.number {
        Some(n) => n,
        None => u32::MAX,
    }
}

/// Places each variant in turn after the variants already placed whose
/// number is not greater: the variants ordered by number, unnumbered last,
/// equal numbers keeping file order.
pub fn sort_variants(vs: Vec<Variant>) -> (out: Vec<Variant>)
    ensures
        out.deep_view() == stable_sort(vs.deep_view(), |a: VariantView, b: VariantView| variant_le(a, b)),
{
    let ghost orig = vs.deep_view();
    let total = vs.len();
    let ghost le = |a: VariantView, b: VariantView| variant_le(a, b);
    let mut rest = vs;
    let mut out: Vec<Variant> = Vec::new();
    let mut k: usize = 0;
    assert(orig.take(0) =~= Seq::<VariantView>::empty());
    assert(out.deep_view() =~= Seq::<VariantView>::empty());
    assert(rest.deep_view() == orig.skip(0));
    while rest.len() > 0
        invariant
            k <= orig.len(),
            orig.len() == total,
            rest.deep_view() == orig.skip(k as int),
            out.deep_view() == stable_sort(orig.take(k as int), le),
            le == (|a: VariantView, b: VariantView| variant_le(a, b)),
        decreases rest.len(),
    {
        let ghost rv = rest.deep_view();
        assert(k < orig.len()) by {
            assert(rv.len() == orig.len() - k);
        }
        let x = take_first(&mut rest);
        assert(x.deep_view() == orig[k as int]) by {
            assert(rv[0] == orig.skip(k as int)[0]);
        }
        assert(rest.deep_view() =~= orig.skip(k + 1));
        let key = number_key(&x);
        let ghost sorted = out.deep_view();
        let mut p = out.len();
        assert(sorted.take(p as int) == sorted);
        while p > 0 && number_key(&out[p - 1]) > key
            invariant
                p <= sorted.len(),
                sorted == out.deep_view(),
                key as int == variant_key(x.deep_view()),
                le == (|a: VariantView, b: VariantView| variant_le(a, b)),
                insert_index(sorted, x.deep_view(), le) == insert_index(
                    sorted.take(p as int),
                    x.deep_view(),
                    le,
                ),
            decreases p,
        {
            assert(sorted.take(p as int).last() == sorted[p - 1]);
            assert(sorted.take(p as int).drop_last() == sorted.take(p - 1));
            p = p - 1;
        }
        proof {
            if p > 0 {
                assert(sorted.take(p as int).last() == sorted[p - 1]);
            }
        }
        let ghost xv = x.deep_view();
        out.insert(p, x);
        assert(out.deep_view() =~= sorted.insert(p as int, xv));
        assert(orig.take(k + 1).drop_last() == orig.take(k as int));
        k = k + 1;
    }
    assert(orig.take(k as int) == orig);
    out
}

pub enum SkillError {
    /// The skill file decoded to nothing.
    EmptySkillFile(String),
    /// The skill file is not well-formed XML.
    Xml(XmlError),
}

impl SkillError {
    /// The message the error is reported with.
    pub fn message(&self) -> (m: String)
        ensures
            m@ == match self {
                SkillError::EmptySkillFile(file) => "empty skill file: "@ + file@,
                SkillError::Xml(e) => e.message@,
            },
    {
        match self {
            SkillError::EmptySkillFile(file) => concat("empty skill file: ", file.as_str()),
            SkillError::Xml(e) => e.message.clone(),
        }
    }
}

/// The file of a skill, relative to the Umbra root.
pub fn skill_file(internal_name: &str) -> (f: String)
    ensures
        f@ == skill_file_of(internal_name@),
{
    let a = concat("Skills/NewSkills/Player", "/Player_");
    let b = concat(a.as_str(), internal_name);
    concat(b.as_str(), ".xml")
}

/// A skill's detail from its file's XML and the active-skill strings: its
/// display name, and its variants ordered by number (unnumbered last).
pub fn get_skill(internal_name: &str, xml: &str, strings: &Strings) -> (res: Result<SkillDetail, SkillError>)
    ensures
        xml@.len() == 0 ==> (res matches Err(SkillError::EmptySkillFile(f)) && f@ == skill_file_of(internal_name@)),
        xml@.len() > 0 && xml_document(xml@) is None ==> res matches Err(SkillError::Xml(_)),
        xml@.len() > 0 && xml_document(xml@) is Some ==> (res matches Ok(d) && {
            &&& d.internal_name@ == internal_name@
            &&& d.display_name@ == display_name_of(strings@, internal_name@)
            &&& d.file@ == skill_file_of(internal_name@)
            &&& d.variants.deep_view() == stable_sort(
                variants_of(xml_document(xml@)->0, internal_name@, strings@),
                |a: VariantView, b: VariantView| variant_le(a, b),
            )
        }),
{
    let file = skill_file(internal_name);
    if xml.is_empty() {
        return Err(SkillError::EmptySkillFile(file));
    }
    let key = concat("ui_AST_", internal_name);
    let display = String::from_str(strings.get_or(key.as_str(), internal_name));
    let variants = match parse_variants(xml, internal_name, strings) {
        Ok(vs) => sort_variants(vs),
        Err(e) => return Err(SkillError::Xml(e)),
    };
    Ok(SkillDetail { internal_name: String::from_str(internal_name), display_name: display, file, variants })
}

/// The summary of a player skill file name.
fn summary_from_name(name: &String, strings: &Strings) -> (s: SkillSummary)
    requires
        is_skill_file_name(name@),
    ensures
        s.deep_view() == summary_of(name@, strings@),
{
    let chars = to_chars(name.as_str());
    proof {
        reveal_strlit(".xml");
    }
    let stem = from_char_range(&chars, 0, chars.len() - 4);
    assert(chars@.subrange(0, chars@.len() - 4) == name@.take(name@.len() - 4));
    let internal = internal_from_file(stem.as_str());
    let key = concat("ui_AST_", internal.as_str());
    let display = String::from_str(strings.get_or(key.as_str(), internal.as_str()));
    let dir = concat("Skills/NewSkills/Player", "/");
    let file = concat(dir.as_str(), name.as_str());
    SkillSummary { internal_name: internal, display_name: display, file }
}

/// The player active skills among the names of the files of the player
/// skills directory (in the order they were listed), named by their
/// `ui_AST_<Name>` strings and ordered by lowercase display name.
pub fn list_skills(file_names: &Vec<String>, strings: &Strings) -> (out: Vec<SkillSummary>)
    ensures
        out.deep_view() == stable_sort(
            summaries_of(file_names.deep_view(), strings@),
            |a: SkillSummaryView, b: SkillSummaryView| summary_le(a, b),
        ),
{
    let ghost names = file_names.deep_view();
    let mut found: Vec<SkillSummary> = Vec::new();
    let mut i: usize = 0;
    let prefix = to_chars("Player_");
    let suffix = to_chars(".xml");
    assert(names.take(0) =~= Seq::<Seq<char>>::empty());
    assert(found.deep_view() =~= Seq::<SkillSummaryView>::empty());
    while i < file_names.len()
        invariant
            names == file_names.deep_view(),
            prefix@ == "Player_"@,
            suffix@ == ".xml"@,
            i <= names.len(),
            found.deep_view() == summaries_of(names.take(i as int), strings@),
        decreases names.len() - i,
    {
        assert(names.take(i + 1).drop_last() == names.take(i as int));
        let chars = to_chars(file_names[i].as_str());
        if starts_with_exec(&chars, &prefix) && ends_with_exec(&chars, &suffix) {
            let s = summary_from_name(&file_names[i], strings);
            let ghost before = found.deep_view();
            found.push(s);
            assert(found.deep_view() =~= before.push(s.deep_view()));
        }
        i = i + 1;
    }
    assert(names.take(names.len() as int) == names);
    sort_summaries(found)
}

/// The summaries ordered by lowercase display name, equal names keeping
/// their order.
fn sort_summaries(items: Vec<SkillSummary>) -> (out: Vec<SkillSummary>)
    ensures
        out.deep_view() == stable_sort(
            items.deep_view(),
            |a: SkillSummaryView, b: SkillSummaryView| summary_le(a, b),
        ),
{
    let ghost orig = items.deep_view();
    let total = items.len();
    let ghost le = |a: SkillSummaryView, b: SkillSummaryView| summary_le(a, b);
    let mut rest = items;
    let mut out: Vec<SkillSummary> = Vec::new();
    let mut keys: Vec<String> = Vec::new();
    let mut k: usize = 0;
    assert(orig.take(0) =~= Seq::<SkillSummaryView>::empty());
    assert(out.deep_view() =~= Seq::<SkillSummaryView>::empty());
    assert(rest.deep_view() == orig.skip(0));
    while rest.len() > 0
        invariant
            k <= orig.len(),
            orig.len() == total,
            rest.deep_view() == orig.skip(k as int),
            out.deep_view() == stable_sort(orig.take(k as int), le),
            keys@.len() == out@.len(),
            forall|j: int| 0 <= j < keys@.len() ==> #[trigger] keys@[j]@ == lowercase(out@[j].display_name@),
            le == (|a: SkillSummaryView, b: SkillSummaryView| summary_le(a, b)),
        decreases rest.len(),
    {
        let ghost rv = rest.deep_view();
        assert(k < orig.len()) by {
            assert(rv.len() == orig.len() - k);
        }
        let x = take_first(&mut rest);
        assert(x.deep_view() == orig[k as int]) by {
            assert(rv[0] == orig.skip(k as int)[0]);
        }
        assert(rest.deep_view() =~= orig.skip(k + 1));
        let key = to_lowercase(x.display_name.as_str());
        let ghost sorted = out.deep_view();
        let mut p = out.len();
        assert(sorted.take(p as int) == sorted);
        while p > 0 && !text_leq(&keys[p - 1], &key)
            invariant
                p <= sorted.len(),
                sorted == out.deep_view(),
                keys@.len() == out@.len(),
                forall|j: int| 0 <= j < keys@.len() ==> #[trigger] keys@[j]@ == lowercase(out@[j].display_name@),
                key@ == lowercase(x.display_name@),
                le == (|a: SkillSummaryView, b: SkillSummaryView| summary_le(a, b)),
                insert_index(sorted, x.deep_view(), le) == insert_index(
                    sorted.take(p as int),
                    x.deep_view(),
                    le,
                ),
            decreases p,
        {
            assert(sorted.take(p as int).last() == sorted[p - 1]);
            assert(sorted.take(p as int).drop_last() == sorted.take(p - 1));
            p = p - 1;
        }
        proof {
            if p > 0 {
                assert(sorted.take(p as int).last() == sorted[p - 1]);
            }
        }
        let ghost xv = x.deep_view();
        let ghost old_keys = keys@;
        let ghost old_out = out@;
        keys.insert(p, key);
        out.insert(p, x);
        assert(out.deep_view() =~= sorted.insert(p as int, xv));
        assert forall|j: int| 0 <= j < keys@.len() implies #[trigger] keys@[j]@ == lowercase(out@[j].display_name@) by {
            if j < p {
                assert(keys@[j] == old_keys[j] && out@[j] == old_out[j]);
            } else if j > p {
                assert(keys@[j] == old_keys[j - 1] && out@[j] == old_out[j - 1]);
            }
        }
        assert(orig.take(k + 1).drop_last() == orig.take(k as int));
        k = k + 1;
    }
    assert(orig.take(k as int) == orig);
    out
}

/// The variants of a skill file's XML, in file order.
pub fn parse_variants(xml: &str, internal: &str, strings: &Strings) -> (res: Result<Vec<Variant>, XmlError>)
    ensures
        match res {
            Ok(vs) => xml_document(xml@) matches Some(evs) && vs.deep_view() == variants_of(evs, internal@, strings@),
            Err(_) => xml_document(xml@) is None,
        },
{
    let events = read_document(xml)?;
    Ok(variants_from_events(&events, internal, strings))
}

/// A skill listing is sorted by lowercase display name and lists each skill
/// file's summary (same summaries, same number of times).
pub proof fn law_skill_listing_sorted(names: Seq<Seq<char>>, m: Map<Seq<char>, Seq<char>>)
    ensures
        sorted_by(
            stable_sort(summaries_of(names, m), |a: SkillSummaryView, b: SkillSummaryView| summary_le(a, b)),
            |a: SkillSummaryView, b: SkillSummaryView| summary_le(a, b),
        ),
        stable_sort(summaries_of(names, m), |a: SkillSummaryView, b: SkillSummaryView| summary_le(a, b)).to_multiset()
            == summaries_of(names, m).to_multiset(),
{
    let le = |a: SkillSummaryView, b: SkillSummaryView| summary_le(a, b);
    assert forall|a: SkillSummaryView, b: SkillSummaryView| #[trigger] le(a, b) || le(b, a) by {
        lemma_text_le_total(lowercase(a.display_name), lowercase(b.display_name));
    }
    assert forall|a: SkillSummaryView, b: SkillSummaryView, c: SkillSummaryView| #[trigger] le(a, b) && #[trigger] le(b, c) implies le(a, c) by {
        lemma_text_le_transitive(lowercase(a.display_name), lowercase(b.display_name), lowercase(c.display_name));
    }
    law_stable_sort_sorted(summaries_of(names, m), le);
    law_stable_sort_permutes(summaries_of(names, m), le);
}

/// A skill's variants are sorted by number, unnumbered ones last, and are
/// the variants of its file.
pub proof fn law_variants_sorted(vs: Seq<VariantView>)
    ensures
        sorted_by(stable_sort(vs, |a: VariantView, b: VariantView| variant_le(a, b)), |a: VariantView, b: VariantView| variant_le(a, b)),
        stable_sort(vs, |a: VariantView, b: VariantView| variant_le(a, b)).to_multiset() == vs.to_multiset(),
{
    let le = |a: VariantView, b: VariantView| variant_le(a, b);
    law_stable_sort_sorted(vs, le);
    law_stable_sort_permutes(vs, le);
}

/// Variants ordered by number, unnumbered ones last (as a skill's detail
/// lists them).
pub open spec fn by_number(vs: Seq<VariantView>) -> Seq<VariantView> {
    stable_sort(vs, |a: VariantView, b: VariantView| variant_le(a, b))
}

/// The element names that only present a skill (HUD, effects, sound,
/// animation, entries): no editable number comes from them.
spec fn fields_off_presentation(v: VariantView) -> bool {
    forall|k: int|
        0 <= k < v.fields.len() ==> {
            let e = (#[trigger] v.fields[k]).0;
            &&& e != "HUD"@
            &&& e != "Particle"@
            &&& e != "ParticleList"@
            &&& e != "SoundTrigger"@
            &&& e != "Animation"@
            &&& e != "Entry"@
        }
}

proof fn lemma_numeric_fields_element(element: Seq<char>, attrs: Seq<(Seq<char>, Seq<char>)>)
    ensures
        forall|k: int| 0 <= k < numeric_fields(element, attrs).len() ==> (#[trigger] numeric_fields(element, attrs)[k]).0 == element,
    decreases attrs.len(),
{
    if attrs.len() > 0 {
        lemma_numeric_fields_element(element, attrs.drop_last());
        let r = numeric_fields(element, attrs.drop_last());
        let n = numeric_fields(element, attrs);
        assert forall|k: int| 0 <= k < n.len() implies (#[trigger] n[k]).0 == element by {
            if k < r.len() {
                assert(n[k] == r[k]);
            }
        }
    }
}

proof fn lemma_with_fields_off(v: VariantView, element: Seq<char>, attrs: Seq<(Seq<char>, Seq<char>)>)
    requires
        fields_off_presentation(v),
    ensures
        fields_off_presentation(with_fields(v, element, attrs)),
{
    if !presentational(element) {
        lemma_numeric_fields_element(element, attrs);
        let w = with_fields(v, element, attrs);
        let nf = numeric_fields(element, attrs);
        assert forall|k: int| 0 <= k < w.fields.len() implies {
            let e = (#[trigger] w.fields[k]).0;
            &&& e != "HUD"@
            &&& e != "Particle"@
            &&& e != "ParticleList"@
            &&& e != "SoundTrigger"@
            &&& e != "Animation"@
            &&& e != "Entry"@
        } by {
            if k < v.fields.len() {
                assert(w.fields[k] == v.fields[k]);
            } else {
                assert(w.fields[k] == nf[k - v.fields.len()]);
            }
        }
    }
}

proof fn lemma_variant_start_off(el: ElementView, internal: Seq<char>, m: Map<Seq<char>, Seq<char>>)
    ensures
        variant_start(el, internal, m) matches Some(v) ==> fields_off_presentation(v),
{
}

spec fn scan_off(s: VariantScan) -> bool {
    &&& forall|i: int| 0 <= i < s.done.len() ==> fields_off_presentation(#[trigger] s.done[i])
    &&& s.current matches Some(v) ==> fields_off_presentation(v)
}

proof fn lemma_close_off(s: VariantScan)
    requires
        scan_off(s),
    ensures
        forall|i: int| 0 <= i < close_current(s).len() ==> fields_off_presentation(#[trigger] close_current(s)[i]),
{
    let c = close_current(s);
    assert forall|i: int| 0 <= i < c.len() implies fields_off_presentation(#[trigger] c[i]) by {
        if i < s.done.len() {
            assert(c[i] == s.done[i]);
        }
    }
}

proof fn lemma_scan_off(events: Seq<EventView>, internal: Seq<char>, m: Map<Seq<char>, Seq<char>>)
    ensures
        scan_off(variant_run(events, internal, m)),
    decreases events.len(),
{
    if events.len() > 0 {
        let p = events.drop_last();
        lemma_scan_off(p, internal, m);
        let s = variant_run(p, internal, m);
        lemma_close_off(s);
        match events.last() {
            EventView::Start(el) => {
                lemma_variant_start_off(el, internal, m);
                if s.current is Some {
                    lemma_with_fields_off(s.current->0, local_part(el.name), el.attrs);
                }
            },
            EventView::Empty(el) => {
                lemma_variant_start_off(el, internal, m);
                if s.current is Some {
                    lemma_with_fields_off(s.current->0, local_part(el.name), el.attrs);
                }
                let started = VariantScan {
                    done: close_current(s),
                    current: variant_start(el, internal, m),
                    skip: None,
                };
                lemma_close_off(started);
            },
            _ => {},
        }
    }
}

/// No variant offers a number of an element that only presents the skill:
/// no field of any variant read from a skill file, nor of the variants of a
/// skill's detail, belongs to a `HUD`, `Particle`, `ParticleList`,
/// `SoundTrigger`, `Animation` or `Entry` element.
pub proof fn law_no_presentational_fields(events: Seq<EventView>, internal: Seq<char>, m: Map<Seq<char>, Seq<char>>)
    ensures
        forall|i: int, k: int|
            0 <= i < variants_of(events, internal, m).len() && 0 <= k < variants_of(events, internal, m)[i].fields.len()
                ==> {
                let e = (#[trigger] variants_of(events, internal, m)[i].fields[k]).0;
                &&& e != "HUD"@
                &&& e != "Particle"@
                &&& e != "ParticleList"@
                &&& e != "SoundTrigger"@
                &&& e != "Animation"@
                &&& e != "Entry"@
            },
        forall|i: int, k: int|
            0 <= i < by_number(variants_of(events, internal, m)).len()
                && 0 <= k < by_number(variants_of(events, internal, m))[i].fields.len()
                ==> {
                let e = (#[trigger] by_number(variants_of(events, internal, m))[i].fields[k]).0;
                &&& e != "HUD"@
                &&& e != "Particle"@
                &&& e != "ParticleList"@
                &&& e != "SoundTrigger"@
                &&& e != "Animation"@
                &&& e != "Entry"@
            },
{
    broadcast use vstd::seq_lib::group_to_multiset_ensures;

    lemma_scan_off(events, internal, m);
    let vs = variants_of(events, internal, m);
    lemma_close_off(variant_run(events, internal, m));
    assert forall|i: int, k: int| 0 <= i < vs.len() && 0 <= k < vs[i].fields.len() implies {
        let e = (#[trigger] vs[i].fields[k]).0;
        &&& e != "HUD"@
        &&& e != "Particle"@
        &&& e != "ParticleList"@
        &&& e != "SoundTrigger"@
        &&& e != "Animation"@
        &&& e != "Entry"@
    } by {
        assert(fields_off_presentation(vs[i]));
    }
    let le = |a: VariantView, b: VariantView| variant_le(a, b);
    let ss = stable_sort(vs, le);
    law_stable_sort_permutes(vs, le);
    assert forall|i: int, k: int| 0 <= i < ss.len() && 0 <= k < ss[i].fields.len() implies {
        let e = (#[trigger] ss[i].fields[k]).0;
        &&& e != "HUD"@
        &&& e != "Particle"@
        &&& e != "ParticleList"@
        &&& e != "SoundTrigger"@
        &&& e != "Animation"@
        &&& e != "Entry"@
    } by {
        assert(ss.contains(ss[i]));
        assert(ss.to_multiset().count(ss[i]) > 0);
        assert(vs.to_multiset().count(ss[i]) > 0);
        assert(vs.contains(ss[i]));
        let w = choose|w: int| 0 <= w < vs.len() && vs[w] == ss[i];
        assert(fields_off_presentation(vs[w]));
    }
}

/// Summaries ordered as a skill listing orders them.
pub open spec fn by_display_name(s: Seq<SkillSummaryView>) -> Seq<SkillSummaryView> {
    stable_sort(s, |a: SkillSummaryView, b: SkillSummaryView| summary_le(a, b))
}

/// A skill listing is in the order the user reads it: each skill's
/// lowercase display name is in text order at or before the next one's,
/// whatever the internal names.
pub proof fn law_skill_listing_by_display_name(names: Seq<Seq<char>>, m: Map<Seq<char>, Seq<char>>)
    ensures
        forall|i: int, j: int|
            0 <= i < j < by_display_name(summaries_of(names, m)).len() ==> text_le(
                lowercase(#[trigger] by_display_name(summaries_of(names, m))[i].display_name),
                lowercase(#[trigger] by_display_name(summaries_of(names, m))[j].display_name),
            ),
{
    law_skill_listing_sorted(names, m);
    let l = by_display_name(summaries_of(names, m));
    assert forall|i: int, j: int| 0 <= i < j < l.len() implies text_le(
        lowercase(#[trigger] l[i].display_name),
        lowercase(#[trigger] l[j].display_name),
    ) by {
        assert(summary_le(l[i], l[j]));
    }
}

/// A skill's variants are in order of number, unnumbered ones last.
pub proof fn law_variants_by_number(vs: Seq<VariantView>)
    ensures
        forall|i: int, j: int|
            0 <= i < j < by_number(vs).len() ==> match ((#[trigger] by_number(vs)[i]).number, (#[trigger] by_number(vs)[j]).number) {
                (Some(a), Some(b)) => a <= b,
                (None, Some(b)) => b == u32::MAX,
                _ => true,
            },
{
    law_variants_sorted(vs);
    let l = by_number(vs);
    assert forall|i: int, j: int| 0 <= i < j < l.len() implies match ((#[trigger] l[i]).number, (#[trigger] l[j]).number) {
        (Some(a), Some(b)) => a <= b,
        (None, Some(b)) => b == u32::MAX,
        _ => true,
    } by {
        assert(variant_le(l[i], l[j]));
    }
}

} // verus!
