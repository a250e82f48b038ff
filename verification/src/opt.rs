//! Settings that are given as text, and their validation.
use vstd::prelude::*;
use vstd::string::StrSliceExecFns;
use vstd::string::StringExecFns;
use crate::compression::Compression;
use crate::converter::JetAlgorithm;
use crate::number::Real;
use crate::seeds::Strategy;
use crate::text::{ascii_lowercase, captures, decimal_u64, parse_decimal, regex_captures, same_text, to_ascii_lowercase};

verus! {

/// The name of a strategy that is not known.
#[derive(Debug)]
pub struct UnknownStrategy(pub String);

impl UnknownStrategy {
    /// The text that reports the error.
    pub open spec fn spec_message(&self) -> Seq<char> {
        "Unknown strategy: "@ + self.0@
    }

    /// The text that reports the error.
    pub fn message(&self) -> (r: String)
        ensures
            r@ == self.spec_message(),
    {
        let mut r = "Unknown strategy: ".to_owned();
        r.append(self.0.as_str());
        r
    }
}

/// The strategy with the given name, if there is one.
pub open spec fn strategy_named(name: Seq<char>) -> Option<Strategy> {
    if name == "Any"@ || name == "any"@ {
        Some(Strategy::Next)
    } else if name == "MostNegative"@ || name == "most_negative"@ {
        Some(Strategy::MostNegative)
    } else if name == "LeastNegative"@ || name == "least_negative"@ {
        Some(Strategy::LeastNegative)
    } else {
        None
    }
}

/// Parse the name of a seed selection strategy.
pub fn parse_strategy(s: &str) -> (r: Result<Strategy, UnknownStrategy>)
    ensures
        match r {
            Ok(strategy) => strategy_named(s@) == Some(strategy),
            Err(e) => strategy_named(s@).is_none() && e.0@ == s@,
        },
{
    if same_text(s, "Any") || same_text(s, "any") {
        Ok(Strategy::Next)
    } else if same_text(s, "MostNegative") || same_text(s, "most_negative") {
        Ok(Strategy::MostNegative)
    } else if same_text(s, "LeastNegative") || same_text(s, "least_negative") {
        Ok(Strategy::LeastNegative)
    } else {
        Err(UnknownStrategy(s.to_owned()))
    }
}

/// The name of a compression that cannot be used.
#[derive(Debug)]
pub enum ParseCompressionErr {
    /// No compression algorithm has this name.
    UnknownAlgorithm(String),
    /// The algorithm with the first name has no level with the second name.
    UnsupportedLevel(String, String),
}

/// What the name of a compression stands for.
pub enum CompressionOutcome {
    /// The compression with this name.
    Parsed(Compression),
    /// No compression algorithm has this name.
    UnknownAlgorithm(Seq<char>),
    /// The algorithm with the first name has no level with the second name.
    UnsupportedLevel(Seq<char>, Seq<char>),
}

/// The result of parsing the name of a compression, with texts as sequences
/// of characters.
pub open spec fn outcome(r: Result<Compression, ParseCompressionErr>) -> CompressionOutcome {
    match r {
        Ok(c) => CompressionOutcome::Parsed(c),
        Err(ParseCompressionErr::UnknownAlgorithm(s)) => CompressionOutcome::UnknownAlgorithm(s@),
        Err(ParseCompressionErr::UnsupportedLevel(algo, lvl)) => CompressionOutcome::UnsupportedLevel(algo@, lvl@),
    }
}

/// The level of gzip compression if none is given.
pub const GZIP_DEFAULT_LEVEL: u8 = 6;

/// The level of lz4 compression if none is given.
pub const LZ4_DEFAULT_LEVEL: u8 = 0;

/// The level of zstd compression if none is given.
pub const ZSTD_DEFAULT_LEVEL: u8 = 0;

/// The number in the name of a level: the name without its first character,
/// which is an underscore, read as a decimal number.
pub open spec fn level_of(lvl: Seq<char>) -> Option<u64> {
    if lvl.len() == 0 {
        None
    } else {
        decimal_u64(lvl.drop_first())
    }
}

/// The level of compression with the name `lvl` of the algorithm `algo`,
/// which has the levels from zero to `max`.
pub open spec fn checked_level(algo: Seq<char>, lvl: Seq<char>, max: u8) -> Result<u8, CompressionOutcome> {
    match level_of(lvl) {
        Some(n) => if n <= max {
            Ok(n as u8)
        } else {
            Err(CompressionOutcome::UnsupportedLevel(algo, lvl))
        },
        None => Err(CompressionOutcome::UnsupportedLevel(algo, lvl)),
    }
}

/// The compression with the algorithm `algo` and the level `lvl`. The text
/// `s` is the full name.
pub open spec fn spec_compression(s: Seq<char>, algo: Seq<char>, lvl: Option<Seq<char>>) -> CompressionOutcome {
    if algo == "bzip2"@ || algo == "bz2"@ {
        match lvl {
            Some(l) => CompressionOutcome::UnsupportedLevel(algo, l),
            None => CompressionOutcome::Parsed(Compression::Bzip2),
        }
    } else if algo == "gzip"@ || algo == "gz"@ {
        match lvl {
            Some(l) => match checked_level(algo, l, 9) {
                Ok(n) => CompressionOutcome::Parsed(Compression::Gzip(n)),
                Err(e) => e,
            },
            None => CompressionOutcome::Parsed(Compression::Gzip(GZIP_DEFAULT_LEVEL)),
        }
    } else if algo == "lz4"@ {
        match lvl {
            Some(l) => match checked_level(algo, l, 16) {
                Ok(n) => CompressionOutcome::Parsed(Compression::Lz4(n)),
                Err(e) => e,
            },
            None => CompressionOutcome::Parsed(Compression::Lz4(LZ4_DEFAULT_LEVEL)),
        }
    } else if algo == "zstd"@ || algo == "zstandard"@ {
        match lvl {
            Some(l) => match checked_level(algo, l, 19) {
                Ok(n) => CompressionOutcome::Parsed(Compression::Zstd(n)),
                Err(e) => e,
            },
            None => CompressionOutcome::Parsed(Compression::Zstd(ZSTD_DEFAULT_LEVEL)),
        }
    } else {
        CompressionOutcome::UnknownAlgorithm(s)
    }
}

/// The level with the name `lvl`, if it is at most `max`.
fn parse_level(algo: &str, lvl: &str, max: u8) -> (r: Result<u8, ParseCompressionErr>)
    ensures
        match r {
            Ok(n) => checked_level(algo@, lvl@, max) == Ok::<u8, CompressionOutcome>(n),
            Err(e) => checked_level(algo@, lvl@, max) == Err::<u8, CompressionOutcome>(outcome(Err(e))),
        },
{
    let len = lvl.unicode_len();
    if len > 0 {
        let digits = lvl.substring_char(1, len);
        assert(digits@ =~= lvl@.drop_first());
        match parse_decimal(digits) {
            Ok(n) => {
                if n <= max as u64 {
                    return Ok(n as u8);
                }
            },
            Err(_) => {},
        }
    }
    Err(ParseCompressionErr::UnsupportedLevel(algo.to_owned(), lvl.to_owned()))
}

/// The compression with the algorithm `algo` and the level `lvl`, which are
/// the parts of the name `s`.
///
/// The algorithms are `bzip2` or `bz2`, without levels, `gzip` or `gz` with
/// levels from 0 to 9, `lz4` with levels from 0 to 16, and `zstd` or
/// `zstandard` with levels from 0 to 19. The name of a level is an underscore
/// followed by a number.
pub fn compression_from_groups(s: &str, algo: &str, lvl: Option<&str>) -> (r: Result<Compression, ParseCompressionErr>)
    ensures
        outcome(r) == spec_compression(
            s@,
            algo@,
            match lvl {
                Some(l) => Some(l@),
                None => None,
            },
        ),
        r matches Ok(c) ==> c.wf(),
{
    if same_text(algo, "bzip2") || same_text(algo, "bz2") {
        match lvl {
            Some(l) => Err(ParseCompressionErr::UnsupportedLevel(algo.to_owned(), l.to_owned())),
            None => Ok(Compression::Bzip2),
        }
    } else if same_text(algo, "gzip") || same_text(algo, "gz") {
        match lvl {
            Some(l) => match parse_level(algo, l, 9) {
                Ok(n) => Ok(Compression::Gzip(n)),
                Err(e) => Err(e),
            },
            None => Ok(Compression::Gzip(GZIP_DEFAULT_LEVEL)),
        }
    } else if same_text(algo, "lz4") {
        match lvl {
            Some(l) => match parse_level(algo, l, 16) {
                Ok(n) => Ok(Compression::Lz4(n)),
                Err(e) => Err(e),
            },
            None => Ok(Compression::Lz4(LZ4_DEFAULT_LEVEL)),
        }
    } else if same_text(algo, "zstd") || same_text(algo, "zstandard") {
        match lvl {
            Some(l) => match parse_level(algo, l, 19) {
                Ok(n) => Ok(Compression::Zstd(n)),
                Err(e) => Err(e),
            },
            None => Ok(Compression::Zstd(ZSTD_DEFAULT_LEVEL)),
        }
    } else {
        Err(ParseCompressionErr::UnknownAlgorithm(s.to_owned()))
    }
}

/// The regular expression for the name of a compression: letters and digits
/// for the algorithm, then, if a level is given, an underscore and digits.
pub open spec fn compression_pattern() -> Seq<char> {
    r#"^(?P<algo>[[:alnum:]]+)(?P<lvl>_\d+)?$"#@
}

/// What the name `s` of a compression stands for, where `groups` is what the
/// regular expression for such names captures in the name in lower case: the
/// whole name, the algorithm, and the level.
pub open spec fn spec_parse_compr(s: Seq<char>, groups: Option<Seq<Option<Seq<char>>>>) -> CompressionOutcome {
    match groups {
        Some(g) => if g.len() == 3 && g[1].is_some() {
            spec_compression(s, g[1].unwrap(), g[2])
        } else {
            CompressionOutcome::UnknownAlgorithm(s)
        },
        None => CompressionOutcome::UnknownAlgorithm(s),
    }
}

/// Parse the name of a compression: an algorithm, and optionally a level
/// behind an underscore, as in `zstd_5`. Upper and lower case are the same.
pub fn parse_compr(s: &str) -> (r: Result<Compression, ParseCompressionErr>)
    ensures
        outcome(r) == spec_parse_compr(s@, regex_captures(compression_pattern(), ascii_lowercase(s@))),
        r matches Ok(c) ==> c.wf(),
{
    let lower_case = to_ascii_lowercase(s);
    let groups = captures(r#"^(?P<algo>[[:alnum:]]+)(?P<lvl>_\d+)?$"#, lower_case.as_str());
    match groups {
        None => Err(ParseCompressionErr::UnknownAlgorithm(s.to_owned())),
        Some(g) => {
            if g.len() != 3 {
                return Err(ParseCompressionErr::UnknownAlgorithm(s.to_owned()));
            }
            match &g[1] {
                None => Err(ParseCompressionErr::UnknownAlgorithm(s.to_owned())),
                Some(algo) => {
                    let lvl: Option<&str> = match &g[2] {
                        Some(l) => Some(l.as_str()),
                        None => None,
                    };
                    compression_from_groups(s, algo.as_str(), lvl)
                },
            }
        },
    }
}

/// Settings for the clustering of leptons with nearby photons. Either all of
/// them are set or none.
#[derive(Clone, Copy, Debug)]
pub struct LeptonDefinition {
    /// Lepton dressing algorithm.
    pub leptonalgorithm: Option<JetAlgorithm>,
    /// Lepton radius parameter.
    pub leptonradius: Option<Real>,
    /// Minimum lepton transverse momentum in GeV.
    pub leptonpt: Option<Real>,
}

/// A setting that cannot be used.
#[derive(Clone, Copy, Debug, PartialEq, Eq, Structural)]
pub enum ValidationError {
    /// Some, but not all, of the lepton settings are set.
    BadLeptonOpt,
}

impl LeptonDefinition {
    /// All three settings are set, or none is.
    pub open spec fn consistent(self) -> bool {
        self.leptonalgorithm.is_some() == self.leptonpt.is_some() && self.leptonpt.is_some()
            == self.leptonradius.is_some()
    }

    /// Check that either all lepton settings are set or none.
    pub fn validate(self) -> (r: Result<Self, ValidationError>)
        ensures
            match r {
                Ok(d) => self.consistent() && d == self,
                Err(e) => !self.consistent() && e == ValidationError::BadLeptonOpt,
            },
    {
        match (self.leptonalgorithm, self.leptonpt, self.leptonradius) {
            (Some(_), Some(_), Some(_)) => Ok(self),
            (None, None, None) => Ok(self),
            _ => Err(ValidationError::BadLeptonOpt),
        }
    }
}

} // verus!
