use cres::compression::Compression;
use cres::converter::JetAlgorithm;
use cres::number::Real;
use cres::opt::{
    compression_from_groups, parse_compr, parse_strategy, LeptonDefinition, ParseCompressionErr, ValidationError,
};
use cres::seeds::Strategy;

#[test]
fn strategies_have_two_names_each() {
    assert_eq!(parse_strategy("Any").unwrap(), Strategy::Next);
    assert_eq!(parse_strategy("any").unwrap(), Strategy::Next);
    assert_eq!(parse_strategy("MostNegative").unwrap(), Strategy::MostNegative);
    assert_eq!(parse_strategy("most_negative").unwrap(), Strategy::MostNegative);
    assert_eq!(parse_strategy("LeastNegative").unwrap(), Strategy::LeastNegative);
    assert_eq!(parse_strategy("least_negative").unwrap(), Strategy::LeastNegative);
    assert_eq!(Strategy::default(), Strategy::MostNegative);
}

#[test]
fn unknown_strategy_is_reported_with_its_name() {
    let err = parse_strategy("most negative").unwrap_err();
    assert_eq!(err.0, "most negative");
    assert_eq!(err.message(), "Unknown strategy: most negative");
    assert!(parse_strategy("ANY").is_err());
    assert!(parse_strategy("").is_err());
}

#[test]
fn compression_without_level_has_the_default_level() {
    assert_eq!(parse_compr("bzip2").unwrap(), Compression::Bzip2);
    assert_eq!(parse_compr("bz2").unwrap(), Compression::Bzip2);
    assert_eq!(parse_compr("gzip").unwrap(), Compression::Gzip(6));
    assert_eq!(parse_compr("gz").unwrap(), Compression::Gzip(6));
    assert_eq!(parse_compr("lz4").unwrap(), Compression::Lz4(0));
    assert_eq!(parse_compr("zstd").unwrap(), Compression::Zstd(0));
    assert_eq!(parse_compr("zstandard").unwrap(), Compression::Zstd(0));
}

#[test]
fn compression_names_ignore_case() {
    assert_eq!(parse_compr("GZIP_3").unwrap(), Compression::Gzip(3));
    assert_eq!(parse_compr("Zstd").unwrap(), Compression::Zstd(0));
}

#[test]
fn compression_levels_go_up_to_a_largest_level() {
    assert_eq!(parse_compr("gzip_0").unwrap(), Compression::Gzip(0));
    assert_eq!(parse_compr("gzip_9").unwrap(), Compression::Gzip(9));
    assert_eq!(parse_compr("lz4_16").unwrap(), Compression::Lz4(16));
    assert_eq!(parse_compr("zstd_19").unwrap(), Compression::Zstd(19));
    assert_eq!(parse_compr("zstd_5").unwrap(), Compression::Zstd(5));
    assert_eq!(parse_compr("zstd_005").unwrap(), Compression::Zstd(5));
}

fn unsupported(name: &str) -> (String, String) {
    match parse_compr(name) {
        Err(ParseCompressionErr::UnsupportedLevel(algo, lvl)) => (algo, lvl),
        other => panic!("{name} gave {other:?}"),
    }
}

fn unknown(name: &str) -> String {
    match parse_compr(name) {
        Err(ParseCompressionErr::UnknownAlgorithm(s)) => s,
        other => panic!("{name} gave {other:?}"),
    }
}

#[test]
fn compression_levels_beyond_the_largest_are_refused() {
    assert_eq!(unsupported("gzip_10"), ("gzip".to_string(), "_10".to_string()));
    assert_eq!(unsupported("lz4_17"), ("lz4".to_string(), "_17".to_string()));
    assert_eq!(unsupported("zstd_20"), ("zstd".to_string(), "_20".to_string()));
    assert_eq!(unsupported("bzip2_1"), ("bzip2".to_string(), "_1".to_string()));
    assert_eq!(unsupported("GZ_300"), ("gz".to_string(), "_300".to_string()));
    assert_eq!(unsupported("zstd_99999999999999999999"), ("zstd".to_string(), "_99999999999999999999".to_string()));
}

#[test]
fn unknown_compression_is_reported_as_it_was_given() {
    assert_eq!(unknown("xz"), "xz");
    assert_eq!(unknown("XZ_3"), "XZ_3");
    assert_eq!(unknown("gzip-3"), "gzip-3");
    assert_eq!(unknown("gzip_"), "gzip_");
    assert_eq!(unknown("gzip_3 "), "gzip_3 ");
    assert_eq!(unknown(""), "");
    assert_eq!(unknown("_3"), "_3");
}

#[test]
fn compression_from_its_parts() {
    assert_eq!(compression_from_groups("x", "gzip", Some("_4")).unwrap(), Compression::Gzip(4));
    assert_eq!(compression_from_groups("x", "gzip", Some("_+4")).unwrap(), Compression::Gzip(4));
    assert_eq!(compression_from_groups("x", "lz4", None).unwrap(), Compression::Lz4(0));
    match compression_from_groups("x", "gzip", Some("")) {
        Err(ParseCompressionErr::UnsupportedLevel(algo, lvl)) => assert_eq!((algo.as_str(), lvl.as_str()), ("gzip", "")),
        other => panic!("{other:?}"),
    }
    match compression_from_groups("x", "gzip", Some("_a")) {
        Err(ParseCompressionErr::UnsupportedLevel(_, lvl)) => assert_eq!(lvl, "_a"),
        other => panic!("{other:?}"),
    }
    match compression_from_groups("full name", "rar", Some("_1")) {
        Err(ParseCompressionErr::UnknownAlgorithm(s)) => assert_eq!(s, "full name"),
        other => panic!("{other:?}"),
    }
}

#[test]
fn lepton_settings_are_all_or_nothing() {
    let one = Real::from_bits(1f64.to_bits());
    let none = LeptonDefinition { leptonalgorithm: None, leptonradius: None, leptonpt: None };
    let all = LeptonDefinition { leptonalgorithm: Some(JetAlgorithm::AntiKt), leptonradius: one, leptonpt: one };
    assert!(none.validate().is_ok());
    assert!(all.validate().is_ok());
    for (algorithm, radius, pt) in [
        (true, false, false),
        (false, true, false),
        (false, false, true),
        (true, true, false),
        (true, false, true),
        (false, true, true),
    ] {
        let some = LeptonDefinition {
            leptonalgorithm: if algorithm { Some(JetAlgorithm::Kt) } else { None },
            leptonradius: if radius { one } else { None },
            leptonpt: if pt { one } else { None },
        };
        assert_eq!(some.validate().unwrap_err(), ValidationError::BadLeptonOpt);
    }
}
