//! Turning game files into plain XML: recognising CryXML, and the decisions
//! of the decode-and-cache procedure, whose file work the caller performs.

use vstd::prelude::*;

use crate::text::{concat, decimal, to_chars, u32_text};

verus! {

/// The bytes a binary CryXML file begins with: `CryXmlB`.
pub open spec fn cryxml_magic() -> Seq<u8> {
    seq![0x43u8, 0x72u8, 0x79u8, 0x58u8, 0x6du8, 0x6cu8, 0x42u8]
}

/// Whether the first bytes read from a file (at most seven) are the CryXML
/// magic.
pub fn is_cryxml(head: &[u8]) -> (b: bool)
    ensures
        b == (head@ == cryxml_magic()),
{
    let magic: [u8; 7] = [0x43, 0x72, 0x79, 0x58, 0x6d, 0x6c, 0x42];
    assert(magic@ == cryxml_magic());
    if head.len() != 7 {
        return false;
    }
    let mut i: usize = 0;
    while i < 7
        invariant
            head@.len() == 7,
            magic@ == cryxml_magic(),
            i <= 7,
            forall|k: int| 0 <= k < i ==> head@[k] == magic@[k],
        decreases 7 - i,
    {
        if head[i] != magic[i] {
            return false;
        }
        i = i + 1;
    }
    assert(head@ =~= cryxml_magic());
    true
}

/// A path relative to the Umbra root, with Windows separators.
pub open spec fn windows_rel(rel: Seq<char>) -> Seq<char> {
    rel.map_values(|c: char| if c == '/' { '\\' } else { c })
}

/// `rel` with each `/` turned into `\`.
pub fn rel_windows(rel: &str) -> (r: String)
    ensures
        r@ == windows_rel(rel@),
{
    let chars = to_chars(rel);
    let mut out = String::new();
    let mut i: usize = 0;
    while i < chars.len()
        invariant
            chars@ == rel@,
            i <= chars@.len(),
            out@ == windows_rel(chars@.take(i as int)),
        decreases chars@.len() - i,
    {
        let c = if chars[i] == '/' {
            '\\'
        } else {
            chars[i]
        };
        crate::text::push_char(&mut out, c);
        assert(chars@.take(i + 1) == chars@.take(i as int).push(chars@[i as int]));
        i = i + 1;
        assert(windows_rel(chars@.take(i as int)) =~= windows_rel(chars@.take(i - 1)).push(c));
    }
    assert(chars@.take(i as int) == chars@);
    out
}

/// What the caller found out by its last piece of file work.
pub enum DecodeEvent {
    /// Whether the decoded file is already in the cache.
    CacheFound(bool),
    /// Whether the source file exists under the extracted Umbra root.
    SourceFound(bool),
    /// Whether the source begins with the CryXML magic.
    HeadRead(bool),
    /// Whether the converter wrote its `.raw` output.
    RawFound(bool),
}

/// The next piece of file work, or the end of the procedure.
pub enum DecodeAction {
    /// Read the cached file and return its text.
    ReadCache,
    /// Look for the source file.
    CheckSource,
    /// Create the cache folder and read the first bytes of the source.
    ReadHead,
    /// Copy the plain source into the cache and return its text.
    CopyPlain,
    /// Copy the source next to the cache entry and run the converter on it.
    RunConverter,
    /// Read the converter's output, move it into the cache, remove the copy,
    /// and return the text read.
    KeepConverted,
    /// Fail: the source does not exist.
    SourceMissing,
    /// Fail: the converter wrote nothing.
    NoOutput,
}

/// The action that follows an event. The procedure begins by looking in
/// the cache; a cached file is read as it is, a missing source is an error, a
/// plain source is copied, and a CryXML source goes through the converter.
pub fn decode_step(event: &DecodeEvent) -> (a: DecodeAction)
    ensures
        *event == DecodeEvent::CacheFound(true) ==> a is ReadCache,
        *event == DecodeEvent::CacheFound(false) ==> a is CheckSource,
        *event == DecodeEvent::SourceFound(true) ==> a is ReadHead,
        *event == DecodeEvent::SourceFound(false) ==> a is SourceMissing,
        *event == DecodeEvent::HeadRead(true) ==> a is RunConverter,
        *event == DecodeEvent::HeadRead(false) ==> a is CopyPlain,
        *event == DecodeEvent::RawFound(true) ==> a is KeepConverted,
        *event == DecodeEvent::RawFound(false) ==> a is NoOutput,
{
    match event {
        DecodeEvent::CacheFound(true) => DecodeAction::ReadCache,
        DecodeEvent::CacheFound(false) => DecodeAction::CheckSource,
        DecodeEvent::SourceFound(true) => DecodeAction::ReadHead,
        DecodeEvent::SourceFound(false) => DecodeAction::SourceMissing,
        DecodeEvent::HeadRead(true) => DecodeAction::RunConverter,
        DecodeEvent::HeadRead(false) => DecodeAction::CopyPlain,
        DecodeEvent::RawFound(true) => DecodeAction::KeepConverted,
        DecodeEvent::RawFound(false) => DecodeAction::NoOutput,
    }
}

/// The decimal text of a signed number.
pub open spec fn signed_decimal(n: int) -> Seq<char> {
    if n < 0 {
        seq!['-'] + decimal((-n) as nat)
    } else {
        decimal(n as nat)
    }
}

/// How an exit status is written in messages: `Some(code)` or `None`.
pub open spec fn status_text(code: Option<i32>) -> Seq<char> {
    match code {
        Some(n) => "Some("@ + signed_decimal(n as int) + ")"@,
        None => "None"@,
    }
}

fn signed_text(n: i32) -> (s: String)
    ensures
        s@ == signed_decimal(n as int),
{
    if n < 0 {
        let m: i64 = -(n as i64);
        let digits = u32_text(m as u32);
        proof {
            reveal_strlit("-");
        }
        concat("-", digits.as_str())
    } else {
        u32_text(n as u32)
    }
}

fn status_of(code: Option<i32>) -> (s: String)
    ensures
        s@ == status_text(code),
{
    match code {
        Some(n) => {
            let d = signed_text(n);
            let a = concat("Some(", d.as_str());
            concat(a.as_str(), ")")
        },
        None => String::from_str("None"),
    }
}

/// Why a game file could not be read.
pub enum DecodeError {
    /// The source file does not exist (its path).
    SourceMissing(String),
    /// The converter wrote nothing for the source (its path), having exited
    /// with `status`.
    NoOutput { source: String, status: Option<i32> },
    /// The localization sheet does not exist (its path).
    LocalizationMissing(String),
}

/// The text shown for each decode error.
pub open spec fn decode_message(e: DecodeError) -> Seq<char> {
    match e {
        DecodeError::SourceMissing(p) => "source not found: "@ + p@,
        DecodeError::NoOutput { source, status } => "DataForge2 produced no output for "@ + source@
            + " (status "@ + status_text(status) + ")"@,
        DecodeError::LocalizationMissing(p) => "localization file not found: "@ + p@,
    }
}

impl DecodeError {
    /// The text shown for this error.
    pub fn message(&self) -> (m: String)
        ensures
            m@ == decode_message(*self),
    {
        match self {
            DecodeError::SourceMissing(p) => concat("source not found: ", p.as_str()),
            DecodeError::NoOutput { source, status } => {
                let a = concat("DataForge2 produced no output for ", source.as_str());
                let b = concat(a.as_str(), " (status ");
                let st = status_of(*status);
                let c = concat(b.as_str(), st.as_str());
                concat(c.as_str(), ")")
            },
            DecodeError::LocalizationMissing(p) => concat(
                "localization file not found: ",
                p.as_str(),
            ),
        }
    }
}

} // verus!
