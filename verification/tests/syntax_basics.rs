use globazog::syntax::anchor::{literal_of, literal_prefix};
use globazog::syntax::decode::{decode_bytes, decode_str, decode_utf16, encode_bytes, encode_utf16};
use globazog::syntax::dialect::{Alphabet, Dialect};
use globazog::syntax::path::{is_dot, is_dotdot, split_segments};
use globazog::syntax::{CaseSensitivity, Pattern, PatternSegment, Token};

fn cps(s: &str) -> Vec<u32> {
    s.chars().map(|c| c as u32).collect()
}

fn lit(s: &str) -> Vec<Token> {
    s.chars().map(|c| Token::Literal(c as u32)).collect()
}

#[test]
fn literal_of_pure_literal() {
    assert_eq!(literal_of(&lit("src")), Some(cps("src")));
}

#[test]
fn literal_of_rejects_wildcards() {
    let mut seg = lit("a");
    seg.push(Token::Star);
    assert_eq!(literal_of(&seg), None);
    assert_eq!(literal_of(&[Token::Any]), None);
    assert_eq!(literal_of(&[Token::Alt(vec![lit("a")])]), None);
}

#[test]
fn prefix_stops_at_wildcard_segment() {
    let mut star_seg = vec![Token::Star, Token::Literal('.' as u32)];
    star_seg.extend(lit("rs"));
    let pat = Pattern {
        segments: vec![
            PatternSegment::Match(lit("src")),
            PatternSegment::Match(lit("foo")),
            PatternSegment::Match(star_seg),
        ],
    };
    let (prefix, idx) = literal_prefix(&pat);
    assert_eq!(prefix, vec![cps("src"), cps("foo")]);
    assert_eq!(idx, 2);
}

#[test]
fn prefix_stops_at_double_star() {
    let pat = Pattern {
        segments: vec![
            PatternSegment::Match(lit("src")),
            PatternSegment::DoubleStar,
            PatternSegment::Match(vec![Token::Star]),
        ],
    };
    let (prefix, idx) = literal_prefix(&pat);
    assert_eq!(prefix, vec![cps("src")]);
    assert_eq!(idx, 1);
}

#[test]
fn all_literal_prefix() {
    let pat = Pattern {
        segments: vec![
            PatternSegment::Match(lit("a")),
            PatternSegment::Match(lit("b")),
        ],
    };
    let (prefix, idx) = literal_prefix(&pat);
    assert_eq!(prefix, vec![cps("a"), cps("b")]);
    assert_eq!(idx, 2);
}

#[test]
fn ascii_utf16() {
    assert_eq!(decode_utf16(&[0x41, 0x42, 0x43]), vec![0x41, 0x42, 0x43]);
}

#[test]
fn empty_inputs() {
    assert_eq!(decode_utf16(&[]), Vec::<u32>::new());
    assert_eq!(decode_bytes(&[]), Vec::<u32>::new());
    assert_eq!(decode_str(""), Vec::<u32>::new());
}

#[test]
fn utf16_surrogate_pair() {
    assert_eq!(decode_utf16(&[0xD83D, 0xDE00]), vec![0x1F600]);
}

#[test]
fn utf16_unpaired_high_surrogate_preserved() {
    assert_eq!(decode_utf16(&[0xD83D, 0x0041]), vec![0xD83D, 0x0041]);
}

#[test]
fn utf16_unpaired_high_at_end() {
    assert_eq!(decode_utf16(&[0x0041, 0xD83D]), vec![0x0041, 0xD83D]);
}

#[test]
fn utf16_lone_low_surrogate_preserved() {
    assert_eq!(decode_utf16(&[0xDE00]), vec![0xDE00]);
}

#[test]
fn utf16_bmp_nonascii() {
    assert_eq!(decode_utf16(&[0x00E9]), vec![0x00E9]);
}

#[test]
fn bytes_ascii() {
    assert_eq!(decode_bytes(b"abc"), vec![0x61, 0x62, 0x63]);
}

#[test]
fn bytes_valid_utf8_multibyte() {
    assert_eq!(decode_bytes(&[0xC3, 0xA9]), vec![0x00E9]);
}

#[test]
fn bytes_invalid_escaped() {
    assert_eq!(decode_bytes(&[0xFF]), vec![0xDCFF]);
}

#[test]
fn bytes_mixed_valid_invalid() {
    assert_eq!(decode_bytes(&[0x61, 0x80, 0x62]), vec![0x61, 0xDC80, 0x62]);
}

#[test]
fn bytes_truncated_multibyte_escaped() {
    assert_eq!(decode_bytes(&[0xC3]), vec![0xDCC3]);
}

#[test]
fn str_nonascii() {
    assert_eq!(decode_str("aé"), vec![0x61, 0x00E9]);
}

#[test]
fn utf16_round_trip_keeps_surrogates() {
    let units = [0x0041u16, 0xD83D, 0xDE00, 0xDC00, 0xD800];
    assert_eq!(encode_utf16(&decode_utf16(&units)), units.to_vec());
}

#[test]
fn bytes_round_trip_keeps_invalid_bytes() {
    let bytes = [0x61u8, 0xFF, 0xC3, 0xA9, 0xE2, 0x82];
    assert_eq!(encode_bytes(&decode_bytes(&bytes)), bytes.to_vec());
}

#[test]
fn ids_and_defaults() {
    assert_eq!(Dialect::Posix.id(), "posix");
    assert_eq!(Dialect::Win.id(), "win");
    assert_eq!(Dialect::Posix.default_case(), CaseSensitivity::Sensitive);
    assert_eq!(Dialect::Win.default_case(), CaseSensitivity::Insensitive);
    assert_eq!(Dialect::Posix.alphabet(), Alphabet::Utf8);
}

#[test]
fn resolve_bare_id() {
    assert_eq!(Dialect::resolve("posix"), Some(Dialect::Posix));
    assert_eq!(Dialect::resolve("win"), Some(Dialect::Win));
    assert_eq!(Dialect::resolve("nope"), None);
}

#[test]
fn resolve_partial_versions_bind() {
    assert_eq!(Dialect::resolve("posix@1"), Some(Dialect::Posix));
    assert_eq!(Dialect::resolve("posix@1.0"), Some(Dialect::Posix));
    assert_eq!(Dialect::resolve("posix@1.0.0"), Some(Dialect::Posix));
    assert_eq!(Dialect::resolve("win@1"), Some(Dialect::Win));
}

#[test]
fn resolve_mismatched_versions_reject() {
    assert_eq!(Dialect::resolve("posix@2"), None);
    assert_eq!(Dialect::resolve("posix@1.1"), None);
    assert_eq!(Dialect::resolve("posix@1.0.1"), None);
    assert_eq!(Dialect::resolve("posix@x"), None);
    assert_eq!(Dialect::resolve("posix@1.0.0.0"), None);
    assert_eq!(Dialect::resolve("posix@"), None);
}

#[test]
fn posix_is_supported_everywhere() {
    assert!(Dialect::Posix.is_supported());
}

fn slash(cp: u32) -> bool {
    cp == '/' as u32
}

fn owned(v: Vec<&[u32]>) -> Vec<Vec<u32>> {
    v.into_iter().map(<[u32]>::to_vec).collect()
}

#[test]
fn simple_split() {
    let p = cps("a/b/c");
    assert_eq!(owned(split_segments(&p, slash)), vec![cps("a"), cps("b"), cps("c")]);
}

#[test]
fn collapse_consecutive_separators() {
    let p = cps("a//b");
    assert_eq!(owned(split_segments(&p, slash)), vec![cps("a"), cps("b")]);
}

#[test]
fn leading_and_trailing_separators_dropped() {
    let p = cps("/a/b/");
    assert_eq!(owned(split_segments(&p, slash)), vec![cps("a"), cps("b")]);
}

#[test]
fn empty_and_all_separators() {
    assert!(split_segments(&cps(""), slash).is_empty());
    assert!(split_segments(&cps("///"), slash).is_empty());
}

#[test]
fn dot_classification() {
    assert!(is_dot(&cps(".")));
    assert!(!is_dot(&cps("..")));
    assert!(!is_dot(&cps("a")));
}

#[test]
fn dotdot_classification() {
    assert!(is_dotdot(&cps("..")));
    assert!(!is_dotdot(&cps(".")));
    assert!(!is_dotdot(&cps("...")));
}

#[test]
fn multi_separator_predicate() {
    let sep = |c: u32| c == '/' as u32 || c == '\\' as u32;
    let p = cps("a\\b/c");
    assert_eq!(owned(split_segments(&p, sep)), vec![cps("a"), cps("b"), cps("c")]);
}

#[test]
fn win_needs_a_backslash_host() {
    assert!(Dialect::Win.is_supported_on('\\'));
    assert!(!Dialect::Win.is_supported_on('/'));
    assert!(Dialect::Posix.is_supported_on('/'));
}
