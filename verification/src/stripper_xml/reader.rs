//! Reading the attributes of a STRIPPER XML event record.
use vstd::prelude::*;
use vstd::string::StringExecFns;
use vstd::utf8::{decode_utf8, valid_utf8};
use crate::number::Real;
use crate::text::{decimal_u64, parse_decimal, text_of_bytes};

verus! {

/// STRIPPER XML Error
#[derive(Debug)]
pub enum XMLError {
    /// Missing XML tag
    NoTag,
    /// Unsupported XML tag
    BadTag(String),
    /// Missing attribute in event record
    NoEventrecordAttr(&'static str),
    /// UTF8 error
    Utf8(core::str::Utf8Error),
    /// Error parsing an integer
    ParseInt(core::num::ParseIntError),
}

/// The first tag of a STRIPPER XML event file.
#[derive(Debug)]
pub struct Eventrecord {
    /// Power of the strong coupling.
    pub alpha_s_power: u64,
    /// Name of the contribution.
    pub name: String,
    /// Number of events in the file.
    pub nevents: u64,
    /// Number of subevents in the file.
    pub nsubevents: u64,
}

/// The message of the error that is raised if no reader can be created for
/// `file` because of `err`.
pub fn create_error(file: &str, err: &str) -> (r: String)
    ensures
        r@ == "Failed to create STRIPPER XML reader for "@ + file@ + ": "@ + err@,
{
    let mut r = "Failed to create STRIPPER XML reader for ".to_owned();
    r.append(file);
    r.append(": ");
    r.append(err);
    r
}

/// The value of an attribute as text.
pub fn to_string(value: &[u8]) -> (r: Result<String, XMLError>)
    ensures
        match r {
            Ok(s) => valid_utf8(value@) && s@ == decode_utf8(value@),
            Err(XMLError::Utf8(_)) => !valid_utf8(value@),
            Err(_) => false,
        },
{
    match text_of_bytes(value) {
        Ok(s) => {
            proof {
                vstd::utf8::encode_utf8_decode_utf8(s@);
            }
            Ok(s.to_owned())
        },
        Err(e) => Err(XMLError::Utf8(e)),
    }
}

/// The value of an attribute as a number.
pub fn parse_u64(num: &[u8]) -> (r: Result<u64, XMLError>)
    ensures
        match r {
            Ok(n) => valid_utf8(num@) && decimal_u64(decode_utf8(num@)) == Some(n),
            Err(XMLError::Utf8(_)) => !valid_utf8(num@),
            Err(XMLError::ParseInt(_)) => valid_utf8(num@) && decimal_u64(decode_utf8(num@)).is_none(),
            Err(_) => false,
        },
{
    match text_of_bytes(num) {
        Ok(s) => {
            proof {
                vstd::utf8::encode_utf8_decode_utf8(s@);
            }
            match parse_decimal(s) {
                Ok(n) => Ok(n),
                Err(e) => Err(XMLError::ParseInt(e)),
            }
        },
        Err(e) => Err(XMLError::Utf8(e)),
    }
}

/// The first tag of a STRIPPER XML file.
#[derive(Debug)]
pub enum XMLTag {
    /// The normalisation of a contribution.
    Normalization {
        /// Name of the contribution.
        name: String,
        /// Cross section of the contribution.
        scale: Real,
    },
    /// A record of events.
    Eventrecord(Eventrecord),
}

/// An attribute of an XML tag.
#[derive(Debug)]
pub struct Attribute {
    /// The name of the attribute.
    pub key: Vec<u8>,
    /// The value of the attribute.
    pub value: Vec<u8>,
}

/// The bytes of a text of ASCII characters.
pub open spec fn ascii_bytes(text: Seq<char>) -> Seq<u8> {
    Seq::new(text.len(), |i: int| text[i] as u8)
}

/// Whether the bytes are those of the text.
fn bytes_are(bytes: &[u8], text: &str) -> (r: bool)
    requires
        text.is_ascii(),
    ensures
        r == (bytes@ == ascii_bytes(text@)),
{
    let expected = text.as_bytes();
    proof {
        vstd::string::is_ascii_spec_bytes(text);
        assert(expected@ =~= ascii_bytes(text@));
    }
    if bytes.len() != expected.len() {
        return false;
    }
    let mut i: usize = 0;
    while i < bytes.len()
        invariant
            i <= bytes.len(),
            bytes.len() == expected.len(),
            expected@ == ascii_bytes(text@),
            forall|k: int| 0 <= k < i ==> bytes[k] == expected[k],
        decreases bytes.len() - i,
    {
        if bytes[i] != expected[i] {
            return false;
        }
        i += 1;
    }
    assert(bytes@ =~= ascii_bytes(text@));
    true
}

/// The attributes of an event record that are read.
#[derive(Clone, Copy, Debug, PartialEq, Eq, Structural)]
pub enum AttributeKind {
    /// The name of the contribution, `name`.
    Name,
    /// The number of events, `nevents`.
    NEvents,
    /// The number of subevents, `nsubevents`.
    NSubevents,
    /// The power of the strong coupling, `as`.
    AlphaSPower,
    /// Any other attribute.
    Other,
}

/// The kind of the attribute with the name `key`.
pub open spec fn kind_of(key: Seq<u8>) -> AttributeKind {
    if key == ascii_bytes("nevents"@) {
        AttributeKind::NEvents
    } else if key == ascii_bytes("nsubevents"@) {
        AttributeKind::NSubevents
    } else if key == ascii_bytes("name"@) {
        AttributeKind::Name
    } else if key == ascii_bytes("as"@) {
        AttributeKind::AlphaSPower
    } else {
        AttributeKind::Other
    }
}

/// The kind of the attribute with the name `key`.
pub fn attribute_kind(key: &[u8]) -> (r: AttributeKind)
    ensures
        r == kind_of(key@),
{
    proof {
        reveal_strlit("nevents");
        reveal_strlit("nsubevents");
        reveal_strlit("name");
        reveal_strlit("as");
    }
    if bytes_are(key, "nevents") {
        AttributeKind::NEvents
    } else if bytes_are(key, "nsubevents") {
        AttributeKind::NSubevents
    } else if bytes_are(key, "name") {
        AttributeKind::Name
    } else if bytes_are(key, "as") {
        AttributeKind::AlphaSPower
    } else {
        AttributeKind::Other
    }
}

/// The number that the value of an attribute stands for.
pub open spec fn number_of(value: Seq<u8>) -> Option<u64> {
    if valid_utf8(value) {
        decimal_u64(decode_utf8(value))
    } else {
        None
    }
}

/// The attribute can be read: a name is valid UTF-8, and a number is a
/// decimal number.
pub open spec fn readable(a: Attribute) -> bool {
    match kind_of(a.key@) {
        AttributeKind::Name => valid_utf8(a.value@),
        AttributeKind::Other => true,
        _ => number_of(a.value@).is_some(),
    }
}

/// The value of the last attribute of the kind `kind` among the first `n`
/// attributes.
pub open spec fn last_of(attrs: Seq<Attribute>, kind: AttributeKind, n: int) -> Option<Seq<u8>>
    decreases n,
{
    if n <= 0 {
        None
    } else if kind_of(attrs[n - 1].key@) == kind {
        Some(attrs[n - 1].value@)
    } else {
        last_of(attrs, kind, n - 1)
    }
}

/// The name of the first attribute that an event record must have and that
/// is not among the attributes: `name`, `nsubevents`, `nevents` and `as` are
/// looked for in this order.
pub open spec fn first_missing(attrs: Seq<Attribute>) -> Option<Seq<char>> {
    let n = attrs.len() as int;
    if last_of(attrs, AttributeKind::Name, n).is_none() {
        Some("name"@)
    } else if last_of(attrs, AttributeKind::NSubevents, n).is_none() {
        Some("nsubevents"@)
    } else if last_of(attrs, AttributeKind::NEvents, n).is_none() {
        Some("nevents"@)
    } else if last_of(attrs, AttributeKind::AlphaSPower, n).is_none() {
        Some("as"@)
    } else {
        None
    }
}

/// The event record with the attributes `attrs`.
///
/// Where an attribute occurs more than once, its last value counts. The
/// first attribute that cannot be read is an error, and else the first
/// attribute that is missing.
pub fn eventrecord_from_attributes(attrs: &Vec<Attribute>) -> (r: Result<Eventrecord, XMLError>)
    ensures
        match r {
            Ok(record) => {
                let n = attrs.len() as int;
                &&& forall|i: int| 0 <= i < n ==> readable(#[trigger] attrs[i])
                &&& first_missing(attrs@).is_none()
                &&& record.name@ == decode_utf8(last_of(attrs@, AttributeKind::Name, n).unwrap())
                &&& Some(record.nevents) == number_of(last_of(attrs@, AttributeKind::NEvents, n).unwrap())
                &&& Some(record.nsubevents) == number_of(last_of(attrs@, AttributeKind::NSubevents, n).unwrap())
                &&& Some(record.alpha_s_power) == number_of(last_of(attrs@, AttributeKind::AlphaSPower, n).unwrap())
            },
            Err(XMLError::Utf8(_)) => exists|i: int|
                0 <= i < attrs.len() && !readable(#[trigger] attrs[i]) && !valid_utf8(attrs[i].value@) && forall|j: int|
                    0 <= j < i ==> readable(#[trigger] attrs[j]),
            Err(XMLError::ParseInt(_)) => exists|i: int|
                0 <= i < attrs.len() && !readable(#[trigger] attrs[i]) && valid_utf8(attrs[i].value@) && forall|j: int|
                    0 <= j < i ==> readable(#[trigger] attrs[j]),
            Err(XMLError::NoEventrecordAttr(which)) => (forall|i: int| 0 <= i < attrs.len() ==> readable(#[trigger] attrs[i]))
                && first_missing(attrs@) == Some(which@),
            Err(_) => false,
        },
{
    let mut name: Option<String> = None;
    let mut nevents: Option<u64> = None;
    let mut nsubevents: Option<u64> = None;
    let mut alpha_s_power: Option<u64> = None;
    let n = attrs.len();
    let mut i: usize = 0;
    while i < n
        invariant
            i <= n,
            n == attrs.len(),
            forall|j: int| 0 <= j < i ==> readable(#[trigger] attrs[j]),
            match last_of(attrs@, AttributeKind::Name, i as int) {
                Some(v) => name.is_some() && name.unwrap()@ == decode_utf8(v),
                None => name.is_none(),
            },
            nevents == match last_of(attrs@, AttributeKind::NEvents, i as int) {
                Some(v) => number_of(v),
                None => None,
            },
            nsubevents == match last_of(attrs@, AttributeKind::NSubevents, i as int) {
                Some(v) => number_of(v),
                None => None,
            },
            alpha_s_power == match last_of(attrs@, AttributeKind::AlphaSPower, i as int) {
                Some(v) => number_of(v),
                None => None,
            },
            last_of(attrs@, AttributeKind::NEvents, i as int).is_some() ==> nevents.is_some(),
            last_of(attrs@, AttributeKind::NSubevents, i as int).is_some() ==> nsubevents.is_some(),
            last_of(attrs@, AttributeKind::AlphaSPower, i as int).is_some() ==> alpha_s_power.is_some(),
        decreases n - i,
    {
        let value = attrs[i].value.as_slice();
        match attribute_kind(attrs[i].key.as_slice()) {
            AttributeKind::NEvents => {
                match parse_u64(value) {
                    Ok(v) => {
                        nevents = Some(v);
                    },
                    Err(e) => {
                        return Err(e);
                    },
                }
            },
            AttributeKind::NSubevents => {
                match parse_u64(value) {
                    Ok(v) => {
                        nsubevents = Some(v);
                    },
                    Err(e) => {
                        return Err(e);
                    },
                }
            },
            AttributeKind::Name => {
                match to_string(value) {
                    Ok(v) => {
                        name = Some(v);
                    },
                    Err(e) => {
                        return Err(e);
                    },
                }
            },
            AttributeKind::AlphaSPower => {
                match parse_u64(value) {
                    Ok(v) => {
                        alpha_s_power = Some(v);
                    },
                    Err(e) => {
                        return Err(e);
                    },
                }
            },
            AttributeKind::Other => {},
        }
        i += 1;
    }
    let name = match name {
        Some(name) => name,
        None => {
            return Err(XMLError::NoEventrecordAttr("name"));
        },
    };
    let nsubevents = match nsubevents {
        Some(nsubevents) => nsubevents,
        None => {
            return Err(XMLError::NoEventrecordAttr("nsubevents"));
        },
    };
    let nevents = match nevents {
        Some(nevents) => nevents,
        None => {
            return Err(XMLError::NoEventrecordAttr("nevents"));
        },
    };
    let alpha_s_power = match alpha_s_power {
        Some(alpha_s_power) => alpha_s_power,
        None => {
            return Err(XMLError::NoEventrecordAttr("as"));
        },
    };
    Ok(Eventrecord { alpha_s_power, name, nevents, nsubevents })
}

/// The kinds of pieces into which an XML reader splits a file.
#[derive(Clone, Copy, Debug, PartialEq, Eq, Structural)]
pub enum TokenKind {
    /// A start tag.
    Start,
    /// An end tag.
    End,
    /// An empty element tag.
    Empty,
    /// Text between tags.
    Text,
    /// A comment.
    Comment,
    /// Character data.
    CData,
    /// The XML declaration.
    Decl,
    /// A processing instruction.
    PI,
    /// A document type definition.
    DocType,
    /// The end of the file.
    Eof,
    /// What cannot be read as XML.
    Malformed,
}

/// What to do with a piece of an XML file while looking for its first tag.
#[derive(Debug)]
pub enum Scan {
    /// Go on with the next piece.
    Skip,
    /// The first tag is a normalisation, which is read from this tag on.
    Normalization,
    /// The first tag is an event record, which is read from the attributes
    /// of this tag.
    Eventrecord,
    /// The file has no usable first tag.
    Fail(XMLError),
}

/// What to do with a piece of the kind `kind` while looking for the first
/// tag of a file. For a tag, `name` is its name.
///
/// The XML declaration and text are passed over. A start tag ends the search:
/// it must be `Normalization` or `Eventrecord`. Anything else is an error.
pub fn scan_token(kind: TokenKind, name: &[u8]) -> (r: Scan)
    ensures
        match r {
            Scan::Skip => kind == TokenKind::Decl || kind == TokenKind::Text,
            Scan::Normalization => kind == TokenKind::Start && name@ == ascii_bytes("Normalization"@),
            Scan::Eventrecord => kind == TokenKind::Start && name@ == ascii_bytes("Eventrecord"@),
            Scan::Fail(XMLError::NoTag) => kind != TokenKind::Decl && kind != TokenKind::Text && kind != TokenKind::Start,
            Scan::Fail(XMLError::BadTag(tag)) => kind == TokenKind::Start && name@ != ascii_bytes("Normalization"@) && name@
                != ascii_bytes("Eventrecord"@) && valid_utf8(name@) && tag@ == decode_utf8(name@),
            Scan::Fail(XMLError::Utf8(_)) => kind == TokenKind::Start && name@ != ascii_bytes("Normalization"@) && name@
                != ascii_bytes("Eventrecord"@) && !valid_utf8(name@),
            Scan::Fail(_) => false,
        },
{
    proof {
        reveal_strlit("Normalization");
        reveal_strlit("Eventrecord");
    }
    match kind {
        TokenKind::Start => {
            if bytes_are(name, "Normalization") {
                Scan::Normalization
            } else if bytes_are(name, "Eventrecord") {
                Scan::Eventrecord
            } else {
                match to_string(name) {
                    Ok(tag) => Scan::Fail(XMLError::BadTag(tag)),
                    Err(e) => Scan::Fail(e),
                }
            }
        },
        TokenKind::Decl => Scan::Skip,
        TokenKind::Text => Scan::Skip,
        _ => Scan::Fail(XMLError::NoTag),
    }
}

/// Whether the byte is a blank: a space, a tab, a line feed, a form feed or a
/// carriage return.
pub open spec fn is_blank(b: u8) -> bool {
    b == 32 || b == 9 || b == 10 || b == 12 || b == 13
}

/// The number of blanks at the start of the bytes.
pub open spec fn leading_blanks(bytes: Seq<u8>) -> int
    decreases bytes.len(),
{
    if bytes.len() > 0 && is_blank(bytes[0]) {
        1 + leading_blanks(bytes.drop_first())
    } else {
        0
    }
}

/// The bytes without the blanks at their start.
pub fn trim_ascii_start(bytes: &[u8]) -> (r: &[u8])
    ensures
        r@ == bytes@.skip(leading_blanks(bytes@)),
        0 <= leading_blanks(bytes@) <= bytes.len(),
{
    let mut i: usize = 0;
    assert(bytes@.skip(0) =~= bytes@);
    while i < bytes.len() && (bytes[i] == 32 || bytes[i] == 9 || bytes[i] == 10 || bytes[i] == 12 || bytes[i] == 13)
        invariant
            i <= bytes.len(),
            leading_blanks(bytes@) == i + leading_blanks(bytes@.skip(i as int)),
        decreases bytes.len() - i,
    {
        proof {
            let rest = bytes@.skip(i as int);
            assert(rest[0] == bytes[i as int]);
            assert(rest.drop_first() =~= bytes@.skip(i + 1));
        }
        i += 1;
    }
    proof {
        let rest = bytes@.skip(i as int);
        if i < bytes.len() {
            assert(rest[0] == bytes[i as int]);
        }
        assert(bytes@.skip(0) =~= bytes@);
    }
    vstd::slice::slice_subrange(bytes, i, bytes.len())
}

/// What to do with a piece of an event file while reading subevents.
#[derive(Debug)]
pub enum Step {
    /// Go on with the next piece.
    Continue,
    /// A subevent starts with this tag.
    Subevent,
    /// There are no more subevents.
    Finished,
    /// A tag that is not known, with its name.
    BadTag(String),
    /// A tag whose name is not valid UTF-8.
    BadName(core::str::Utf8Error),
    /// A piece that has no place in an event file.
    BadEntry,
}

/// What to do with a piece of the kind `kind` while reading subevents. For a
/// tag, `content` is its name; for text, it is the text.
///
/// The start tag `se` starts a subevent, and the start tag `e` is passed
/// over, as are the end tags `e`, `se` and `Eventrecord`, comments, document
/// type definitions and blank text. The end of the file ends the reading.
/// Everything else is an error.
pub fn read_token(kind: TokenKind, content: &[u8]) -> (r: Step)
    ensures
        match r {
            Step::Continue => match kind {
                TokenKind::Start => content@ == ascii_bytes("e"@),
                TokenKind::End => content@ == ascii_bytes("e"@) || content@ == ascii_bytes("se"@) || content@
                    == ascii_bytes("Eventrecord"@),
                TokenKind::Comment => true,
                TokenKind::DocType => true,
                TokenKind::Text => leading_blanks(content@) == content.len(),
                _ => false,
            },
            Step::Subevent => kind == TokenKind::Start && content@ == ascii_bytes("se"@),
            Step::Finished => kind == TokenKind::Eof,
            Step::BadTag(tag) => unknown_tag(kind, content@) && valid_utf8(content@) && tag@ == decode_utf8(content@),
            Step::BadName(_) => unknown_tag(kind, content@) && !valid_utf8(content@),
            Step::BadEntry => match kind {
                TokenKind::Start => false,
                TokenKind::End => false,
                TokenKind::Comment => false,
                TokenKind::DocType => false,
                TokenKind::Eof => false,
                TokenKind::Text => leading_blanks(content@) < content.len(),
                _ => true,
            },
        },
{
    proof {
        reveal_strlit("e");
        reveal_strlit("se");
        reveal_strlit("Eventrecord");
    }
    match kind {
        TokenKind::Start => {
            if bytes_are(content, "e") {
                Step::Continue
            } else if bytes_are(content, "se") {
                Step::Subevent
            } else {
                match text_of_bytes(content) {
                    Ok(tag) => {
                        proof {
                            vstd::utf8::encode_utf8_decode_utf8(tag@);
                        }
                        Step::BadTag(tag.to_owned())
                    },
                    Err(e) => Step::BadName(e),
                }
            }
        },
        TokenKind::End => {
            if bytes_are(content, "e") || bytes_are(content, "se") || bytes_are(content, "Eventrecord") {
                Step::Continue
            } else {
                match text_of_bytes(content) {
                    Ok(tag) => {
                        proof {
                            vstd::utf8::encode_utf8_decode_utf8(tag@);
                        }
                        Step::BadTag(tag.to_owned())
                    },
                    Err(e) => Step::BadName(e),
                }
            }
        },
        TokenKind::Eof => Step::Finished,
        TokenKind::Comment => Step::Continue,
        TokenKind::DocType => Step::Continue,
        TokenKind::Text => {
            if trim_ascii_start(content).len() == 0 {
                Step::Continue
            } else {
                Step::BadEntry
            }
        },
        _ => Step::BadEntry,
    }
}

/// A start tag other than `e` and `se`, or an end tag other than `e`, `se`
/// and `Eventrecord`.
pub open spec fn unknown_tag(kind: TokenKind, name: Seq<u8>) -> bool {
    match kind {
        TokenKind::Start => name != ascii_bytes("e"@) && name != ascii_bytes("se"@),
        TokenKind::End => name != ascii_bytes("e"@) && name != ascii_bytes("se"@) && name != ascii_bytes("Eventrecord"@),
        _ => false,
    }
}

/// The bytes `needle` stand in `haystack` from the position `at` on.
pub open spec fn occurs_at(haystack: Seq<u8>, needle: Seq<u8>, at: int) -> bool {
    0 <= at && at + needle.len() <= haystack.len() && haystack.subrange(at, at + needle.len()) == needle
}

/// Calls `memchr::memmem::find`, which returns the position of the first
/// occurrence of `needle` in `haystack`.
#[verifier::external_body]
fn find_bytes(haystack: &[u8], needle: &[u8]) -> (r: Option<usize>)
    ensures
        match r {
            Some(at) => occurs_at(haystack@, needle@, at as int) && forall|i: int|
                0 <= i < at ==> !occurs_at(haystack@, needle@, i),
            None => forall|i: int| !occurs_at(haystack@, needle@, i),
        },
{
    memchr::memmem::find(haystack, needle)
}

/// Move bytes from a piece `read` of the input into `buf`, up to the first
/// occurrence of `until` in the piece. Returns how many bytes of the piece
/// were taken, and whether `until` was found.
pub fn take_until(read: &[u8], buf: &mut Vec<u8>, until: &[u8]) -> (r: (usize, bool))
    ensures
        r.0 <= read.len(),
        final(buf)@ == old(buf)@ + read@.take(r.0 as int),
        r.1 ==> occurs_at(read@, until@, r.0 as int),
        forall|i: int| 0 <= i < r.0 ==> !occurs_at(read@, until@, i),
        !r.1 ==> r.0 == read.len() && forall|i: int| !occurs_at(read@, until@, i),
{
    match find_bytes(read, until) {
        Some(pos) => {
            let part = vstd::slice::slice_subrange(read, 0, pos);
            buf.extend_from_slice(part);
            assert(part@ =~= read@.take(pos as int));
            (pos, true)
        },
        None => {
            buf.extend_from_slice(read);
            assert(read@.take(read.len() as int) =~= read@);
            (read.len(), false)
        },
    }
}

/// The scale of a contribution and the number of events that were found for
/// it.
#[derive(Debug)]
pub struct Channel {
    /// Name of the contribution.
    pub name: String,
    /// Cross section of the contribution. It is minus one as long as no
    /// normalisation was found.
    pub scale: Real,
    /// Number of events of the contribution.
    pub nevents: u64,
}

/// Bit pattern of the number minus one.
pub const MINUS_ONE_BITS: u64 = 0xBFF0_0000_0000_0000;

/// What the first tags of the input files say of the contributions.
#[derive(Debug)]
pub struct Scaling {
    channels: Vec<Channel>,
}

/// The position of the contribution with the name `name` among the first `n`
/// channels.
pub open spec fn channel_position(channels: Seq<Channel>, name: Seq<char>, n: int) -> Option<int>
    decreases n,
{
    if n <= 0 {
        None
    } else {
        match channel_position(channels, name, n - 1) {
            Some(i) => Some(i),
            None => if channels[n - 1].name@ == name {
                Some(n - 1)
            } else {
                None
            },
        }
    }
}

impl Scaling {
    /// The contributions in the order in which they were found.
    pub closed spec fn channels(&self) -> Seq<Channel> {
        self.channels@
    }

    /// The scale and the number of events of the contribution `name`, if it
    /// was found.
    pub open spec fn entry(&self, name: Seq<char>) -> Option<(Real, u64)> {
        match channel_position(self.channels(), name, self.channels().len() as int) {
            Some(i) => Some((self.channels()[i].scale, self.channels()[i].nevents)),
            None => None,
        }
    }

    /// The cross section of every contribution is a number.
    pub open spec fn wf(&self) -> bool {
        forall|i: int| 0 <= i < self.channels().len() ==> (#[trigger] self.channels()[i]).scale.wf()
    }

    /// No contribution has been found yet.
    pub fn new() -> (r: Self)
        ensures
            r.channels() == Seq::<Channel>::empty(),
            r.wf(),
    {
        Scaling { channels: Vec::new() }
    }

    /// The position of the contribution `name`.
    fn position(&self, name: &str) -> (r: Option<usize>)
        ensures
            match r {
                Some(i) => channel_position(self.channels(), name@, self.channels().len() as int) == Some(i as int) && i
                    < self.channels().len(),
                None => channel_position(self.channels(), name@, self.channels().len() as int).is_none(),
            },
    {
        let mut i: usize = 0;
        while i < self.channels.len()
            invariant
                i <= self.channels.len(),
                channel_position(self.channels(), name@, i as int).is_none(),
            decreases self.channels.len() - i,
        {
            if crate::text::same_text(self.channels[i].name.as_str(), name) {
                proof {
                    lemma_channel_found(self.channels(), name@, i as int, self.channels().len() as int);
                }
                return Some(i);
            }
            i += 1;
        }
        None
    }

    /// The factor by which the weights of the contribution `name` are
    /// scaled: its cross section divided by its number of events. There is
    /// none if the contribution was not found, and if both numbers are zero.
    pub fn factor(&self, name: &str) -> (r: Option<Real>)
        requires
            self.wf(),
        ensures
            r == match self.entry(name@) {
                Some(e) => if e.0.can_div(Real::spec_from_u64(e.1)) {
                    Some(e.0.spec_div(Real::spec_from_u64(e.1)))
                } else {
                    None
                },
                None => None,
            },
            r matches Some(f) ==> f.wf(),
    {
        match self.position(name) {
            None => None,
            Some(i) => {
                let scale = self.channels[i].scale;
                let count = Real::from_u64(self.channels[i].nevents);
                assert(self.channels()[i as int].scale.wf());
                if !scale.is_zero() || !count.is_zero() {
                    Some(scale.div(count))
                } else {
                    None
                }
            },
        }
    }

    /// Record the normalisation of the contribution `name`: its cross
    /// section is `scale`.
    pub fn add_normalization(&mut self, name: String, scale: Real)
        requires
            old(self).wf(),
            scale.wf(),
        ensures
            final(self).wf(),
            final(self).entry(name@) == Some(
                (
                    scale,
                    match old(self).entry(name@) {
                        Some(e) => e.1,
                        None => 0,
                    },
                ),
            ),
            forall|other: Seq<char>| other != name@ ==> final(self).entry(other) == old(self).entry(other),
    {
        let ghost before = self.channels@;
        match self.position(name.as_str()) {
            Some(i) => {
                self.channels[i].scale = scale;
                proof {
                    assert forall|j: int| 0 <= j < self.channels().len() implies (#[trigger] self.channels()[j]).scale.wf() by {
                        if j != i {
                            assert(self.channels()[j] == before[j]);
                        }
                    }
                    assert forall|other: Seq<char>| channel_position(self.channels(), other, before.len() as int)
                        == channel_position(before, other, before.len() as int) by {
                        lemma_channel_position_names(self.channels(), before, other, before.len() as int);
                    }
                    lemma_channel_position(before, name@, before.len() as int);
                    assert(before[i as int].name@ == name@);
                    assert forall|other: Seq<char>| other != name@ implies self.entry(other) == old(self).entry(other) by {
                        lemma_channel_position(before, other, before.len() as int);
                        lemma_channel_position_names(self.channels(), before, other, before.len() as int);
                        match channel_position(before, other, before.len() as int) {
                            Some(j) => {
                                assert(j != i);
                                assert(self.channels()[j] == before[j]);
                            },
                            None => {},
                        }
                    }
                }
            },
            None => {
                let ghost key = name@;
                self.channels.push(Channel { name, scale, nevents: 0 });
                proof {
                    let after = self.channels();
                    let len = before.len() as int;
                    assert forall|j: int| 0 <= j < after.len() implies (#[trigger] after[j]).scale.wf() by {
                        if j < len {
                            assert(after[j] == before[j]);
                        }
                    }
                    assert forall|other: Seq<char>| other != key implies self.entry(other) == old(self).entry(other) by {
                        lemma_channel_position_names(after, before, other, len);
                        lemma_channel_position(before, other, len);
                        assert(channel_position(after, other, len + 1) == channel_position(before, other, len));
                    }
                    lemma_channel_position_names(after, before, key, len);
                    assert(channel_position(after, key, len + 1) == Some(len));
                }
            },
        }
    }

    /// Record an event file of the contribution `name` with `nevents` events.
    /// Returns whether the number of events of the contribution can still be
    /// held; if not, nothing is recorded.
    pub fn add_events(&mut self, name: String, nevents: u64) -> (r: bool)
        requires
            old(self).wf(),
        ensures
            final(self).wf(),
            r == (match old(self).entry(name@) {
                Some(e) => e.1 + nevents <= u64::MAX,
                None => true,
            }),
            r ==> final(self).entry(name@) == Some(
                match old(self).entry(name@) {
                    Some(e) => (e.0, (e.1 + nevents) as u64),
                    None => (Real { bits: MINUS_ONE_BITS }, nevents),
                },
            ),
            !r ==> final(self).channels() == old(self).channels(),
            forall|other: Seq<char>| other != name@ ==> final(self).entry(other) == old(self).entry(other),
    {
        let ghost before = self.channels@;
        match self.position(name.as_str()) {
            Some(i) => {
                match self.channels[i].nevents.checked_add(nevents) {
                    Some(sum) => {
                        self.channels[i].nevents = sum;
                        proof {
                            assert forall|j: int| 0 <= j < self.channels().len() implies (#[trigger] self.channels()[j]).scale.wf() by {
                                assert(self.channels()[j].scale == before[j].scale);
                            }
                            assert forall|other: Seq<char>| channel_position(self.channels(), other, before.len() as int)
                                == channel_position(before, other, before.len() as int) by {
                                lemma_channel_position_names(self.channels(), before, other, before.len() as int);
                            }
                            lemma_channel_position(before, name@, before.len() as int);
                            assert(before[i as int].name@ == name@);
                            assert forall|other: Seq<char>| other != name@ implies self.entry(other) == old(self).entry(
                                other,
                            ) by {
                                lemma_channel_position(before, other, before.len() as int);
                                lemma_channel_position_names(self.channels(), before, other, before.len() as int);
                                match channel_position(before, other, before.len() as int) {
                                    Some(j) => {
                                        assert(j != i);
                                        assert(self.channels()[j] == before[j]);
                                    },
                                    None => {},
                                }
                            }
                        }
                        true
                    },
                    None => false,
                }
            },
            None => {
                let ghost key = name@;
                self.channels.push(Channel { name, scale: Real { bits: MINUS_ONE_BITS }, nevents });
                proof {
                    let after = self.channels();
                    let len = before.len() as int;
                    assert forall|j: int| 0 <= j < after.len() implies (#[trigger] after[j]).scale.wf() by {
                        if j < len {
                            assert(after[j] == before[j]);
                        }
                    }
                    assert forall|other: Seq<char>| other != key implies self.entry(other) == old(self).entry(other) by {
                        lemma_channel_position_names(after, before, other, len);
                        lemma_channel_position(before, other, len);
                        assert(channel_position(after, other, len + 1) == channel_position(before, other, len));
                    }
                    lemma_channel_position_names(after, before, key, len);
                    assert(channel_position(after, key, len + 1) == Some(len));
                }
                true
            },
        }
    }
}

proof fn lemma_channel_position(channels: Seq<Channel>, name: Seq<char>, n: int)
    requires
        0 <= n <= channels.len(),
    ensures
        channel_position(channels, name, n) matches Some(i) ==> 0 <= i < n && channels[i].name@ == name,
    decreases n,
{
    if n > 0 {
        lemma_channel_position(channels, name, n - 1);
    }
}

proof fn lemma_channel_found(channels: Seq<Channel>, name: Seq<char>, i: int, n: int)
    requires
        0 <= i < n <= channels.len(),
        channel_position(channels, name, i).is_none(),
        channels[i].name@ == name,
    ensures
        channel_position(channels, name, n) == Some(i),
    decreases n,
{
    if n > i + 1 {
        lemma_channel_found(channels, name, i, n - 1);
    }
}

/// The position of a contribution depends on the names of the channels only.
proof fn lemma_channel_position_names(a: Seq<Channel>, b: Seq<Channel>, name: Seq<char>, n: int)
    requires
        0 <= n <= a.len(),
        n <= b.len(),
        forall|i: int| 0 <= i < n ==> (#[trigger] a[i]).name@ == b[i].name@,
    ensures
        channel_position(a, name, n) == channel_position(b, name, n),
    decreases n,
{
    if n > 0 {
        lemma_channel_position_names(a, b, name, n - 1);
    }
}

/// What a reader of an event file knows from the first tag of the file.
#[derive(Debug)]
pub struct ReaderSettings {
    /// Name of the contribution.
    pub name: String,
    /// Power of the strong coupling.
    pub alpha_s_power: u64,
    /// The factor by which the weights are scaled.
    pub scale: Real,
    /// The number of subevents that are still to be read.
    pub rem_subevents: u64,
}

impl ReaderSettings {
    /// The settings of a reader for a file with the first tag `tag`, whose
    /// weights are scaled by `scale`.
    ///
    /// The first tag must be an event record.
    pub fn new_scaled(tag: XMLTag, scale: Real) -> (r: Result<Self, XMLError>)
        ensures
            match r {
                Ok(settings) => tag matches XMLTag::Eventrecord(record) && settings.name == record.name
                    && settings.alpha_s_power == record.alpha_s_power && settings.scale == scale
                    && settings.rem_subevents == record.nsubevents,
                Err(XMLError::BadTag(name)) => tag is Normalization && name@ == "Normalization"@,
                Err(_) => false,
            },
    {
        match tag {
            XMLTag::Normalization { .. } => Err(XMLError::BadTag("Normalization".to_owned())),
            XMLTag::Eventrecord(record) => Ok(
                ReaderSettings {
                    name: record.name,
                    alpha_s_power: record.alpha_s_power,
                    scale,
                    rem_subevents: record.nsubevents,
                },
            ),
        }
    }

    /// The settings of a reader for a file with the first tag `tag`. The
    /// weights are scaled by the factor that `scaling` has for the
    /// contribution, or else by one.
    ///
    /// The first tag must be an event record.
    pub fn with_scaling(tag: XMLTag, scaling: &Scaling) -> (r: Result<Self, XMLError>)
        requires
            scaling.wf(),
        ensures
            match r {
                Ok(settings) => tag matches XMLTag::Eventrecord(record) && settings.name == record.name
                    && settings.alpha_s_power == record.alpha_s_power && settings.rem_subevents == record.nsubevents
                    && settings.scale == (match scaling.entry(record.name@) {
                    Some(e) => if e.0.can_div(Real::spec_from_u64(e.1)) {
                        e.0.spec_div(Real::spec_from_u64(e.1))
                    } else {
                        Real::spec_one()
                    },
                    None => Real::spec_one(),
                }),
                Err(XMLError::BadTag(name)) => tag is Normalization && name@ == "Normalization"@,
                Err(_) => false,
            },
    {
        match tag {
            XMLTag::Normalization { .. } => Err(XMLError::BadTag("Normalization".to_owned())),
            XMLTag::Eventrecord(record) => {
                let scale = match scaling.factor(record.name.as_str()) {
                    Some(scale) => scale,
                    None => Real::one(),
                };
                Ok(
                    ReaderSettings {
                        name: record.name,
                        alpha_s_power: record.alpha_s_power,
                        scale,
                        rem_subevents: record.nsubevents,
                    },
                )
            },
        }
    }

    /// The weight `weight` of a subevent, scaled by the factor of the
    /// contribution. There is none if the product is no number: a weight or
    /// a factor that is no number, or zero times infinity.
    pub fn scaled(&self, weight: Real) -> (r: Option<Real>)
        ensures
            r == if weight.can_mul(self.scale) {
                Some(weight.spec_mul(self.scale))
            } else {
                None
            },
    {
        match (Real::from_bits(weight.to_bits()), Real::from_bits(self.scale.to_bits())) {
            (Some(w), Some(s)) => {
                if (w.is_zero() && !s.finite()) || (s.is_zero() && !w.finite()) {
                    None
                } else {
                    Some(w.mul(s))
                }
            },
            _ => None,
        }
    }

    /// Count a subevent as read, as far as any are left.
    pub fn count_subevent(&mut self)
        ensures
            final(self).rem_subevents == if old(self).rem_subevents > 0 {
                (old(self).rem_subevents - 1) as u64
            } else {
                0
            },
            final(self).name == old(self).name,
            final(self).alpha_s_power == old(self).alpha_s_power,
            final(self).scale == old(self).scale,
    {
        self.rem_subevents = self.rem_subevents.saturating_sub(1);
    }
}

} // verus!
