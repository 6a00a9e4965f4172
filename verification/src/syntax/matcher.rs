//! Matching in 32-bit code-point space: single-segment token matching with `*` / `?`
//! / n-ary alternation, cross-segment `**`, and ordinal case folding.
use crate::syntax::{
    pat_view, path_view, segment_view, toks_view, CaseSensitivity, CodePoint, PatSegV,
    PatternSegment, Token, TokenV,
};
use vstd::prelude::*;

verus! {

/// The ordinal uppercase of a code point, from an embedded snapshot of the simple
/// uppercase table of the Basic Multilingual Plane: a lowercase (or titlecase) letter
/// with a single-code-point capital maps to that capital, except where the capital
/// would be ASCII for a non-ASCII letter (`ı`, `ſ`), which keep themselves. Every
/// other value, including surrogates and supplementary code points, maps to itself;
/// nothing is normalized.
#[verifier::opaque]
pub open spec fn upcase(cp: u32) -> u32 {
    if 0x61 <= cp <= 0x7A {
        (cp - 0x20) as u32
    } else if cp == 0xB5 {
        (cp + 0x2E7) as u32
    } else if 0xE0 <= cp <= 0xF6 {
        (cp - 0x20) as u32
    } else if 0xF8 <= cp <= 0xFE {
        (cp - 0x20) as u32
    } else if cp == 0xFF {
        (cp + 0x79) as u32
    } else if 0x101 <= cp <= 0x12F && cp % 2 == 1 {
        (cp - 0x1) as u32
    } else if 0x133 <= cp <= 0x137 && cp % 2 == 1 {
        (cp - 0x1) as u32
    } else if 0x13A <= cp <= 0x148 && cp % 2 == 0 {
        (cp - 0x1) as u32
    } else if 0x14B <= cp <= 0x177 && cp % 2 == 1 {
        (cp - 0x1) as u32
    } else if 0x17A <= cp <= 0x17E && cp % 2 == 0 {
        (cp - 0x1) as u32
    } else if cp == 0x180 {
        (cp + 0xC3) as u32
    } else if 0x183 <= cp <= 0x185 && cp % 2 == 1 {
        (cp - 0x1) as u32
    } else if cp == 0x188 {
        (cp - 0x1) as u32
    } else if cp == 0x18C {
        (cp - 0x1) as u32
    } else if cp == 0x192 {
        (cp - 0x1) as u32
    } else if cp == 0x195 {
        (cp + 0x61) as u32
    } else if cp == 0x199 {
        (cp - 0x1) as u32
    } else if cp == 0x19A {
        (cp + 0xA3) as u32
    } else if cp == 0x19E {
        (cp + 0x82) as u32
    } else if 0x1A1 <= cp <= 0x1A5 && cp % 2 == 1 {
        (cp - 0x1) as u32
    } else if cp == 0x1A8 {
        (cp - 0x1) as u32
    } else if cp == 0x1AD {
        (cp - 0x1) as u32
    } else if cp == 0x1B0 {
        (cp - 0x1) as u32
    } else if 0x1B4 <= cp <= 0x1B6 && cp % 2 == 0 {
        (cp - 0x1) as u32
    } else if cp == 0x1B9 {
        (cp - 0x1) as u32
    } else if cp == 0x1BD {
        (cp - 0x1) as u32
    } else if cp == 0x1BF {
        (cp + 0x38) as u32
    } else if cp == 0x1C5 {
        (cp - 0x1) as u32
    } else if cp == 0x1C6 {
        (cp - 0x2) as u32
    } else if cp == 0x1C8 {
        (cp - 0x1) as u32
    } else if cp == 0x1C9 {
        (cp - 0x2) as u32
    } else if cp == 0x1CB {
        (cp - 0x1) as u32
    } else if cp == 0x1CC {
        (cp - 0x2) as u32
    } else if 0x1CE <= cp <= 0x1DC && cp % 2 == 0 {
        (cp - 0x1) as u32
    } else if cp == 0x1DD {
        (cp - 0x4F) as u32
    } else if 0x1DF <= cp <= 0x1EF && cp % 2 == 1 {
        (cp - 0x1) as u32
    } else if cp == 0x1F2 {
        (cp - 0x1) as u32
    } else if cp == 0x1F3 {
        (cp - 0x2) as u32
    } else if cp == 0x1F5 {
        (cp - 0x1) as u32
    } else if 0x1F9 <= cp <= 0x21F && cp % 2 == 1 {
        (cp - 0x1) as u32
    } else if 0x223 <= cp <= 0x233 && cp % 2 == 1 {
        (cp - 0x1) as u32
    } else if cp == 0x23C {
        (cp - 0x1) as u32
    } else if 0x23F <= cp <= 0x240 {
        (cp + 0x2A3F) as u32
    } else if cp == 0x242 {
        (cp - 0x1) as u32
    } else if 0x247 <= cp <= 0x24F && cp % 2 == 1 {
        (cp - 0x1) as u32
    } else if cp == 0x250 {
        (cp + 0x2A1F) as u32
    } else if cp == 0x251 {
        (cp + 0x2A1C) as u32
    } else if cp == 0x252 {
        (cp + 0x2A1E) as u32
    } else if cp == 0x253 {
        (cp - 0xD2) as u32
    } else if cp == 0x254 {
        (cp - 0xCE) as u32
    } else if 0x256 <= cp <= 0x257 {
        (cp - 0xCD) as u32
    } else if cp == 0x259 {
        (cp - 0xCA) as u32
    } else if cp == 0x25B {
        (cp - 0xCB) as u32
    } else if cp == 0x25C {
        (cp + 0xA54F) as u32
    } else if cp == 0x260 {
        (cp - 0xCD) as u32
    } else if cp == 0x261 {
        (cp + 0xA54B) as u32
    } else if cp == 0x263 {
        (cp - 0xCF) as u32
    } else if cp == 0x265 {
        (cp + 0xA528) as u32
    } else if cp == 0x266 {
        (cp + 0xA544) as u32
    } else if cp == 0x268 {
        (cp - 0xD1) as u32
    } else if cp == 0x269 {
        (cp - 0xD3) as u32
    } else if cp == 0x26A {
        (cp + 0xA544) as u32
    } else if cp == 0x26B {
        (cp + 0x29F7) as u32
    } else if cp == 0x26C {
        (cp + 0xA541) as u32
    } else if cp == 0x26F {
        (cp - 0xD3) as u32
    } else if cp == 0x271 {
        (cp + 0x29FD) as u32
    } else if cp == 0x272 {
        (cp - 0xD5) as u32
    } else if cp == 0x275 {
        (cp - 0xD6) as u32
    } else if cp == 0x27D {
        (cp + 0x29E7) as u32
    } else if cp == 0x280 {
        (cp - 0xDA) as u32
    } else if cp == 0x282 {
        (cp + 0xA543) as u32
    } else if cp == 0x283 {
        (cp - 0xDA) as u32
    } else if cp == 0x287 {
        (cp + 0xA52A) as u32
    } else if cp == 0x288 {
        (cp - 0xDA) as u32
    } else if cp == 0x289 {
        (cp - 0x45) as u32
    } else if 0x28A <= cp <= 0x28B {
        (cp - 0xD9) as u32
    } else if cp == 0x28C {
        (cp - 0x47) as u32
    } else if cp == 0x292 {
        (cp - 0xDB) as u32
    } else if cp == 0x29D {
        (cp + 0xA515) as u32
    } else if cp == 0x29E {
        (cp + 0xA512) as u32
    } else if cp == 0x345 {
        (cp + 0x54) as u32
    } else if 0x371 <= cp <= 0x373 && cp % 2 == 1 {
        (cp - 0x1) as u32
    } else if cp == 0x377 {
        (cp - 0x1) as u32
    } else if 0x37B <= cp <= 0x37D {
        (cp + 0x82) as u32
    } else if cp == 0x3AC {
        (cp - 0x26) as u32
    } else if 0x3AD <= cp <= 0x3AF {
        (cp - 0x25) as u32
    } else if 0x3B1 <= cp <= 0x3C1 {
        (cp - 0x20) as u32
    } else if cp == 0x3C2 {
        (cp - 0x1F) as u32
    } else if 0x3C3 <= cp <= 0x3CB {
        (cp - 0x20) as u32
    } else if cp == 0x3CC {
        (cp - 0x40) as u32
    } else if 0x3CD <= cp <= 0x3CE {
        (cp - 0x3F) as u32
    } else if cp == 0x3D0 {
        (cp - 0x3E) as u32
    } else if cp == 0x3D1 {
        (cp - 0x39) as u32
    } else if cp == 0x3D5 {
        (cp - 0x2F) as u32
    } else if cp == 0x3D6 {
        (cp - 0x36) as u32
    } else if cp == 0x3D7 {
        (cp - 0x8) as u32
    } else if 0x3D9 <= cp <= 0x3EF && cp % 2 == 1 {
        (cp - 0x1) as u32
    } else if cp == 0x3F0 {
        (cp - 0x56) as u32
    } else if cp == 0x3F1 {
        (cp - 0x50) as u32
    } else if cp == 0x3F2 {
        (cp + 0x7) as u32
    } else if cp == 0x3F3 {
        (cp - 0x74) as u32
    } else if cp == 0x3F5 {
        (cp - 0x60) as u32
    } else if cp == 0x3F8 {
        (cp - 0x1) as u32
    } else if cp == 0x3FB {
        (cp - 0x1) as u32
    } else if 0x430 <= cp <= 0x44F {
        (cp - 0x20) as u32
    } else if 0x450 <= cp <= 0x45F {
        (cp - 0x50) as u32
    } else if 0x461 <= cp <= 0x481 && cp % 2 == 1 {
        (cp - 0x1) as u32
    } else if 0x48B <= cp <= 0x4BF && cp % 2 == 1 {
        (cp - 0x1) as u32
    } else if 0x4C2 <= cp <= 0x4CE && cp % 2 == 0 {
        (cp - 0x1) as u32
    } else if cp == 0x4CF {
        (cp - 0xF) as u32
    } else if 0x4D1 <= cp <= 0x52F && cp % 2 == 1 {
        (cp - 0x1) as u32
    } else if 0x561 <= cp <= 0x586 {
        (cp - 0x30) as u32
    } else if 0x10D0 <= cp <= 0x10FA {
        (cp + 0xBC0) as u32
    } else if 0x10FD <= cp <= 0x10FF {
        (cp + 0xBC0) as u32
    } else if 0x13F8 <= cp <= 0x13FD {
        (cp - 0x8) as u32
    } else if cp == 0x1C80 {
        (cp - 0x186E) as u32
    } else if cp == 0x1C81 {
        (cp - 0x186D) as u32
    } else if cp == 0x1C82 {
        (cp - 0x1864) as u32
    } else if 0x1C83 <= cp <= 0x1C84 {
        (cp - 0x1862) as u32
    } else if cp == 0x1C85 {
        (cp - 0x1863) as u32
    } else if cp == 0x1C86 {
        (cp - 0x185C) as u32
    } else if cp == 0x1C87 {
        (cp - 0x1825) as u32
    } else if cp == 0x1C88 {
        (cp + 0x89C2) as u32
    } else if cp == 0x1D79 {
        (cp + 0x8A04) as u32
    } else if cp == 0x1D7D {
        (cp + 0xEE6) as u32
    } else if cp == 0x1D8E {
        (cp + 0x8A38) as u32
    } else if 0x1E01 <= cp <= 0x1E95 && cp % 2 == 1 {
        (cp - 0x1) as u32
    } else if cp == 0x1E9B {
        (cp - 0x3B) as u32
    } else if 0x1EA1 <= cp <= 0x1EFF && cp % 2 == 1 {
        (cp - 0x1) as u32
    } else if 0x1F00 <= cp <= 0x1F07 {
        (cp + 0x8) as u32
    } else if 0x1F10 <= cp <= 0x1F15 {
        (cp + 0x8) as u32
    } else if 0x1F20 <= cp <= 0x1F27 {
        (cp + 0x8) as u32
    } else if 0x1F30 <= cp <= 0x1F37 {
        (cp + 0x8) as u32
    } else if 0x1F40 <= cp <= 0x1F45 {
        (cp + 0x8) as u32
    } else if 0x1F51 <= cp <= 0x1F57 && cp % 2 == 1 {
        (cp + 0x8) as u32
    } else if 0x1F60 <= cp <= 0x1F67 {
        (cp + 0x8) as u32
    } else if 0x1F70 <= cp <= 0x1F71 {
        (cp + 0x4A) as u32
    } else if 0x1F72 <= cp <= 0x1F75 {
        (cp + 0x56) as u32
    } else if 0x1F76 <= cp <= 0x1F77 {
        (cp + 0x64) as u32
    } else if 0x1F78 <= cp <= 0x1F79 {
        (cp + 0x80) as u32
    } else if 0x1F7A <= cp <= 0x1F7B {
        (cp + 0x70) as u32
    } else if 0x1F7C <= cp <= 0x1F7D {
        (cp + 0x7E) as u32
    } else if 0x1FB0 <= cp <= 0x1FB1 {
        (cp + 0x8) as u32
    } else if cp == 0x1FBE {
        (cp - 0x1C25) as u32
    } else if 0x1FD0 <= cp <= 0x1FD1 {
        (cp + 0x8) as u32
    } else if 0x1FE0 <= cp <= 0x1FE1 {
        (cp + 0x8) as u32
    } else if cp == 0x1FE5 {
        (cp + 0x7) as u32
    } else if cp == 0x214E {
        (cp - 0x1C) as u32
    } else if 0x2170 <= cp <= 0x217F {
        (cp - 0x10) as u32
    } else if cp == 0x2184 {
        (cp - 0x1) as u32
    } else if 0x24D0 <= cp <= 0x24E9 {
        (cp - 0x1A) as u32
    } else if 0x2C30 <= cp <= 0x2C5F {
        (cp - 0x30) as u32
    } else if cp == 0x2C61 {
        (cp - 0x1) as u32
    } else if cp == 0x2C65 {
        (cp - 0x2A2B) as u32
    } else if cp == 0x2C66 {
        (cp - 0x2A28) as u32
    } else if 0x2C68 <= cp <= 0x2C6C && cp % 2 == 0 {
        (cp - 0x1) as u32
    } else if cp == 0x2C73 {
        (cp - 0x1) as u32
    } else if cp == 0x2C76 {
        (cp - 0x1) as u32
    } else if 0x2C81 <= cp <= 0x2CE3 && cp % 2 == 1 {
        (cp - 0x1) as u32
    } else if 0x2CEC <= cp <= 0x2CEE && cp % 2 == 0 {
        (cp - 0x1) as u32
    } else if cp == 0x2CF3 {
        (cp - 0x1) as u32
    } else if 0x2D00 <= cp <= 0x2D25 {
        (cp - 0x1C60) as u32
    } else if cp == 0x2D27 {
        (cp - 0x1C60) as u32
    } else if cp == 0x2D2D {
        (cp - 0x1C60) as u32
    } else if 0xA641 <= cp <= 0xA66D && cp % 2 == 1 {
        (cp - 0x1) as u32
    } else if 0xA681 <= cp <= 0xA69B && cp % 2 == 1 {
        (cp - 0x1) as u32
    } else if 0xA723 <= cp <= 0xA72F && cp % 2 == 1 {
        (cp - 0x1) as u32
    } else if 0xA733 <= cp <= 0xA76F && cp % 2 == 1 {
        (cp - 0x1) as u32
    } else if 0xA77A <= cp <= 0xA77C && cp % 2 == 0 {
        (cp - 0x1) as u32
    } else if 0xA77F <= cp <= 0xA787 && cp % 2 == 1 {
        (cp - 0x1) as u32
    } else if cp == 0xA78C {
        (cp - 0x1) as u32
    } else if 0xA791 <= cp <= 0xA793 && cp % 2 == 1 {
        (cp - 0x1) as u32
    } else if cp == 0xA794 {
        (cp + 0x30) as u32
    } else if 0xA797 <= cp <= 0xA7A9 && cp % 2 == 1 {
        (cp - 0x1) as u32
    } else if 0xA7B5 <= cp <= 0xA7C3 && cp % 2 == 1 {
        (cp - 0x1) as u32
    } else if 0xA7C8 <= cp <= 0xA7CA && cp % 2 == 0 {
        (cp - 0x1) as u32
    } else if cp == 0xA7D1 {
        (cp - 0x1) as u32
    } else if 0xA7D7 <= cp <= 0xA7D9 && cp % 2 == 1 {
        (cp - 0x1) as u32
    } else if cp == 0xA7F6 {
        (cp - 0x1) as u32
    } else if cp == 0xAB53 {
        (cp - 0x3A0) as u32
    } else if 0xAB70 <= cp <= 0xABBF {
        (cp - 0x97D0) as u32
    } else if 0xFF41 <= cp <= 0xFF5A {
        (cp - 0x20) as u32
    } else {
        cp
    }
}

/// Whether two code points are equal under the case rule.
pub open spec fn cp_eq_spec(a: u32, b: u32, cs: CaseSensitivity) -> bool {
    match cs {
        CaseSensitivity::Sensitive => a == b,
        CaseSensitivity::Insensitive => upcase(a) == upcase(b),
    }
}


/// Under the case-insensitive rule every ASCII letter equals its other case, and two
/// different ASCII letters never are equal.
pub proof fn lemma_ascii_letters_fold(a: u32, b: u32)
    requires
        0x61 <= a <= 0x7A,
        0x61 <= b <= 0x7A,
    ensures
        cp_eq_spec(a, (a - 0x20) as u32, CaseSensitivity::Insensitive),
        cp_eq_spec((a - 0x20) as u32, a, CaseSensitivity::Insensitive),
        a != b ==> !cp_eq_spec(a, b, CaseSensitivity::Insensitive),
        a != b ==> !cp_eq_spec(a, (b - 0x20) as u32, CaseSensitivity::Insensitive),
{
    reveal(upcase);
}

/// ASCII code points other than lowercase letters fold to themselves: the
/// case-insensitive rule equates an ASCII letter only with its other case, and
/// every other ASCII character only with itself.
pub proof fn lemma_ascii_non_letters_fold_to_themselves(c: u32)
    requires
        c < 0x80,
        !(0x61 <= c <= 0x7A),
    ensures
        upcase(c) == c,
{
    reveal(upcase);
}

/// Whether the token sequence `toks` matches the whole of `input`: a literal matches
/// one equal code point, `?` any one code point, `*` any run, and an alternation any
/// run that one of its arms matches.
pub open spec fn seg_matches(toks: Seq<TokenV>, input: Seq<u32>, cs: CaseSensitivity) -> bool
    decreases toks,
{
    if toks.len() == 0 {
        input.len() == 0
    } else {
        let rest = toks.drop_first();
        match toks[0] {
            TokenV::Literal(cp) => input.len() > 0 && cp_eq_spec(cp, input[0], cs) && seg_matches(
                rest,
                input.drop_first(),
                cs,
            ),
            TokenV::Any => input.len() > 0 && seg_matches(rest, input.drop_first(), cs),
            TokenV::Star => exists|k: int|
                0 <= k <= input.len() && seg_matches(rest, #[trigger] input.skip(k), cs),
            TokenV::Alt(arms) => exists|a: int, k: int|
                #![trigger arms[a], input.skip(k)]
                0 <= a < arms.len() && 0 <= k <= input.len() && seg_matches(
                    arms[a],
                    input.take(k),
                    cs,
                ) && seg_matches(rest, input.skip(k), cs),
        }
    }
}

/// Whether a pattern-segment sequence matches a whole path: a `Match` segment matches
/// exactly one path segment, `**` any number of whole segments.
pub open spec fn path_matches(pat: Seq<PatSegV>, path: Seq<Seq<u32>>, cs: CaseSensitivity) -> bool
    decreases pat.len(),
{
    if pat.len() == 0 {
        path.len() == 0
    } else {
        match pat[0] {
            PatSegV::DoubleStar => exists|k: int|
                0 <= k <= path.len() && path_matches(pat.drop_first(), #[trigger] path.skip(k), cs),
            PatSegV::Match(seg) => path.len() > 0 && seg_matches(seg, path[0], cs) && path_matches(
                pat.drop_first(),
                path.drop_first(),
                cs,
            ),
        }
    }
}

/// Fold a code point for case-insensitive comparison (its ordinal uppercase).
pub fn fold(cp: CodePoint) -> (r: CodePoint)
    ensures
        r == upcase(cp),
{
    proof {
        reveal(upcase);
    }
    if 0x61 <= cp && cp <= 0x7A {
        cp - 0x20
    } else if cp == 0xB5 {
        cp + 0x2E7
    } else if 0xE0 <= cp && cp <= 0xF6 {
        cp - 0x20
    } else if 0xF8 <= cp && cp <= 0xFE {
        cp - 0x20
    } else if cp == 0xFF {
        cp + 0x79
    } else if 0x101 <= cp && cp <= 0x12F && cp % 2 == 1 {
        cp - 0x1
    } else if 0x133 <= cp && cp <= 0x137 && cp % 2 == 1 {
        cp - 0x1
    } else if 0x13A <= cp && cp <= 0x148 && cp % 2 == 0 {
        cp - 0x1
    } else if 0x14B <= cp && cp <= 0x177 && cp % 2 == 1 {
        cp - 0x1
    } else if 0x17A <= cp && cp <= 0x17E && cp % 2 == 0 {
        cp - 0x1
    } else if cp == 0x180 {
        cp + 0xC3
    } else if 0x183 <= cp && cp <= 0x185 && cp % 2 == 1 {
        cp - 0x1
    } else if cp == 0x188 {
        cp - 0x1
    } else if cp == 0x18C {
        cp - 0x1
    } else if cp == 0x192 {
        cp - 0x1
    } else if cp == 0x195 {
        cp + 0x61
    } else if cp == 0x199 {
        cp - 0x1
    } else if cp == 0x19A {
        cp + 0xA3
    } else if cp == 0x19E {
        cp + 0x82
    } else if 0x1A1 <= cp && cp <= 0x1A5 && cp % 2 == 1 {
        cp - 0x1
    } else if cp == 0x1A8 {
        cp - 0x1
    } else if cp == 0x1AD {
        cp - 0x1
    } else if cp == 0x1B0 {
        cp - 0x1
    } else if 0x1B4 <= cp && cp <= 0x1B6 && cp % 2 == 0 {
        cp - 0x1
    } else if cp == 0x1B9 {
        cp - 0x1
    } else if cp == 0x1BD {
        cp - 0x1
    } else if cp == 0x1BF {
        cp + 0x38
    } else if cp == 0x1C5 {
        cp - 0x1
    } else if cp == 0x1C6 {
        cp - 0x2
    } else if cp == 0x1C8 {
        cp - 0x1
    } else if cp == 0x1C9 {
        cp - 0x2
    } else if cp == 0x1CB {
        cp - 0x1
    } else if cp == 0x1CC {
        cp - 0x2
    } else if 0x1CE <= cp && cp <= 0x1DC && cp % 2 == 0 {
        cp - 0x1
    } else if cp == 0x1DD {
        cp - 0x4F
    } else if 0x1DF <= cp && cp <= 0x1EF && cp % 2 == 1 {
        cp - 0x1
    } else if cp == 0x1F2 {
        cp - 0x1
    } else if cp == 0x1F3 {
        cp - 0x2
    } else if cp == 0x1F5 {
        cp - 0x1
    } else if 0x1F9 <= cp && cp <= 0x21F && cp % 2 == 1 {
        cp - 0x1
    } else if 0x223 <= cp && cp <= 0x233 && cp % 2 == 1 {
        cp - 0x1
    } else if cp == 0x23C {
        cp - 0x1
    } else if 0x23F <= cp && cp <= 0x240 {
        cp + 0x2A3F
    } else if cp == 0x242 {
        cp - 0x1
    } else if 0x247 <= cp && cp <= 0x24F && cp % 2 == 1 {
        cp - 0x1
    } else if cp == 0x250 {
        cp + 0x2A1F
    } else if cp == 0x251 {
        cp + 0x2A1C
    } else if cp == 0x252 {
        cp + 0x2A1E
    } else if cp == 0x253 {
        cp - 0xD2
    } else if cp == 0x254 {
        cp - 0xCE
    } else if 0x256 <= cp && cp <= 0x257 {
        cp - 0xCD
    } else if cp == 0x259 {
        cp - 0xCA
    } else if cp == 0x25B {
        cp - 0xCB
    } else if cp == 0x25C {
        cp + 0xA54F
    } else if cp == 0x260 {
        cp - 0xCD
    } else if cp == 0x261 {
        cp + 0xA54B
    } else if cp == 0x263 {
        cp - 0xCF
    } else if cp == 0x265 {
        cp + 0xA528
    } else if cp == 0x266 {
        cp + 0xA544
    } else if cp == 0x268 {
        cp - 0xD1
    } else if cp == 0x269 {
        cp - 0xD3
    } else if cp == 0x26A {
        cp + 0xA544
    } else if cp == 0x26B {
        cp + 0x29F7
    } else if cp == 0x26C {
        cp + 0xA541
    } else if cp == 0x26F {
        cp - 0xD3
    } else if cp == 0x271 {
        cp + 0x29FD
    } else if cp == 0x272 {
        cp - 0xD5
    } else if cp == 0x275 {
        cp - 0xD6
    } else if cp == 0x27D {
        cp + 0x29E7
    } else if cp == 0x280 {
        cp - 0xDA
    } else if cp == 0x282 {
        cp + 0xA543
    } else if cp == 0x283 {
        cp - 0xDA
    } else if cp == 0x287 {
        cp + 0xA52A
    } else if cp == 0x288 {
        cp - 0xDA
    } else if cp == 0x289 {
        cp - 0x45
    } else if 0x28A <= cp && cp <= 0x28B {
        cp - 0xD9
    } else if cp == 0x28C {
        cp - 0x47
    } else if cp == 0x292 {
        cp - 0xDB
    } else if cp == 0x29D {
        cp + 0xA515
    } else if cp == 0x29E {
        cp + 0xA512
    } else if cp == 0x345 {
        cp + 0x54
    } else if 0x371 <= cp && cp <= 0x373 && cp % 2 == 1 {
        cp - 0x1
    } else if cp == 0x377 {
        cp - 0x1
    } else if 0x37B <= cp && cp <= 0x37D {
        cp + 0x82
    } else if cp == 0x3AC {
        cp - 0x26
    } else if 0x3AD <= cp && cp <= 0x3AF {
        cp - 0x25
    } else if 0x3B1 <= cp && cp <= 0x3C1 {
        cp - 0x20
    } else if cp == 0x3C2 {
        cp - 0x1F
    } else if 0x3C3 <= cp && cp <= 0x3CB {
        cp - 0x20
    } else if cp == 0x3CC {
        cp - 0x40
    } else if 0x3CD <= cp && cp <= 0x3CE {
        cp - 0x3F
    } else if cp == 0x3D0 {
        cp - 0x3E
    } else if cp == 0x3D1 {
        cp - 0x39
    } else if cp == 0x3D5 {
        cp - 0x2F
    } else if cp == 0x3D6 {
        cp - 0x36
    } else if cp == 0x3D7 {
        cp - 0x8
    } else if 0x3D9 <= cp && cp <= 0x3EF && cp % 2 == 1 {
        cp - 0x1
    } else if cp == 0x3F0 {
        cp - 0x56
    } else if cp == 0x3F1 {
        cp - 0x50
    } else if cp == 0x3F2 {
        cp + 0x7
    } else if cp == 0x3F3 {
        cp - 0x74
    } else if cp == 0x3F5 {
        cp - 0x60
    } else if cp == 0x3F8 {
        cp - 0x1
    } else if cp == 0x3FB {
        cp - 0x1
    } else if 0x430 <= cp && cp <= 0x44F {
        cp - 0x20
    } else if 0x450 <= cp && cp <= 0x45F {
        cp - 0x50
    } else if 0x461 <= cp && cp <= 0x481 && cp % 2 == 1 {
        cp - 0x1
    } else if 0x48B <= cp && cp <= 0x4BF && cp % 2 == 1 {
        cp - 0x1
    } else if 0x4C2 <= cp && cp <= 0x4CE && cp % 2 == 0 {
        cp - 0x1
    } else if cp == 0x4CF {
        cp - 0xF
    } else if 0x4D1 <= cp && cp <= 0x52F && cp % 2 == 1 {
        cp - 0x1
    } else if 0x561 <= cp && cp <= 0x586 {
        cp - 0x30
    } else if 0x10D0 <= cp && cp <= 0x10FA {
        cp + 0xBC0
    } else if 0x10FD <= cp && cp <= 0x10FF {
        cp + 0xBC0
    } else if 0x13F8 <= cp && cp <= 0x13FD {
        cp - 0x8
    } else if cp == 0x1C80 {
        cp - 0x186E
    } else if cp == 0x1C81 {
        cp - 0x186D
    } else if cp == 0x1C82 {
        cp - 0x1864
    } else if 0x1C83 <= cp && cp <= 0x1C84 {
        cp - 0x1862
    } else if cp == 0x1C85 {
        cp - 0x1863
    } else if cp == 0x1C86 {
        cp - 0x185C
    } else if cp == 0x1C87 {
        cp - 0x1825
    } else if cp == 0x1C88 {
        cp + 0x89C2
    } else if cp == 0x1D79 {
        cp + 0x8A04
    } else if cp == 0x1D7D {
        cp + 0xEE6
    } else if cp == 0x1D8E {
        cp + 0x8A38
    } else if 0x1E01 <= cp && cp <= 0x1E95 && cp % 2 == 1 {
        cp - 0x1
    } else if cp == 0x1E9B {
        cp - 0x3B
    } else if 0x1EA1 <= cp && cp <= 0x1EFF && cp % 2 == 1 {
        cp - 0x1
    } else if 0x1F00 <= cp && cp <= 0x1F07 {
        cp + 0x8
    } else if 0x1F10 <= cp && cp <= 0x1F15 {
        cp + 0x8
    } else if 0x1F20 <= cp && cp <= 0x1F27 {
        cp + 0x8
    } else if 0x1F30 <= cp && cp <= 0x1F37 {
        cp + 0x8
    } else if 0x1F40 <= cp && cp <= 0x1F45 {
        cp + 0x8
    } else if 0x1F51 <= cp && cp <= 0x1F57 && cp % 2 == 1 {
        cp + 0x8
    } else if 0x1F60 <= cp && cp <= 0x1F67 {
        cp + 0x8
    } else if 0x1F70 <= cp && cp <= 0x1F71 {
        cp + 0x4A
    } else if 0x1F72 <= cp && cp <= 0x1F75 {
        cp + 0x56
    } else if 0x1F76 <= cp && cp <= 0x1F77 {
        cp + 0x64
    } else if 0x1F78 <= cp && cp <= 0x1F79 {
        cp + 0x80
    } else if 0x1F7A <= cp && cp <= 0x1F7B {
        cp + 0x70
    } else if 0x1F7C <= cp && cp <= 0x1F7D {
        cp + 0x7E
    } else if 0x1FB0 <= cp && cp <= 0x1FB1 {
        cp + 0x8
    } else if cp == 0x1FBE {
        cp - 0x1C25
    } else if 0x1FD0 <= cp && cp <= 0x1FD1 {
        cp + 0x8
    } else if 0x1FE0 <= cp && cp <= 0x1FE1 {
        cp + 0x8
    } else if cp == 0x1FE5 {
        cp + 0x7
    } else if cp == 0x214E {
        cp - 0x1C
    } else if 0x2170 <= cp && cp <= 0x217F {
        cp - 0x10
    } else if cp == 0x2184 {
        cp - 0x1
    } else if 0x24D0 <= cp && cp <= 0x24E9 {
        cp - 0x1A
    } else if 0x2C30 <= cp && cp <= 0x2C5F {
        cp - 0x30
    } else if cp == 0x2C61 {
        cp - 0x1
    } else if cp == 0x2C65 {
        cp - 0x2A2B
    } else if cp == 0x2C66 {
        cp - 0x2A28
    } else if 0x2C68 <= cp && cp <= 0x2C6C && cp % 2 == 0 {
        cp - 0x1
    } else if cp == 0x2C73 {
        cp - 0x1
    } else if cp == 0x2C76 {
        cp - 0x1
    } else if 0x2C81 <= cp && cp <= 0x2CE3 && cp % 2 == 1 {
        cp - 0x1
    } else if 0x2CEC <= cp && cp <= 0x2CEE && cp % 2 == 0 {
        cp - 0x1
    } else if cp == 0x2CF3 {
        cp - 0x1
    } else if 0x2D00 <= cp && cp <= 0x2D25 {
        cp - 0x1C60
    } else if cp == 0x2D27 {
        cp - 0x1C60
    } else if cp == 0x2D2D {
        cp - 0x1C60
    } else if 0xA641 <= cp && cp <= 0xA66D && cp % 2 == 1 {
        cp - 0x1
    } else if 0xA681 <= cp && cp <= 0xA69B && cp % 2 == 1 {
        cp - 0x1
    } else if 0xA723 <= cp && cp <= 0xA72F && cp % 2 == 1 {
        cp - 0x1
    } else if 0xA733 <= cp && cp <= 0xA76F && cp % 2 == 1 {
        cp - 0x1
    } else if 0xA77A <= cp && cp <= 0xA77C && cp % 2 == 0 {
        cp - 0x1
    } else if 0xA77F <= cp && cp <= 0xA787 && cp % 2 == 1 {
        cp - 0x1
    } else if cp == 0xA78C {
        cp - 0x1
    } else if 0xA791 <= cp && cp <= 0xA793 && cp % 2 == 1 {
        cp - 0x1
    } else if cp == 0xA794 {
        cp + 0x30
    } else if 0xA797 <= cp && cp <= 0xA7A9 && cp % 2 == 1 {
        cp - 0x1
    } else if 0xA7B5 <= cp && cp <= 0xA7C3 && cp % 2 == 1 {
        cp - 0x1
    } else if 0xA7C8 <= cp && cp <= 0xA7CA && cp % 2 == 0 {
        cp - 0x1
    } else if cp == 0xA7D1 {
        cp - 0x1
    } else if 0xA7D7 <= cp && cp <= 0xA7D9 && cp % 2 == 1 {
        cp - 0x1
    } else if cp == 0xA7F6 {
        cp - 0x1
    } else if cp == 0xAB53 {
        cp - 0x3A0
    } else if 0xAB70 <= cp && cp <= 0xABBF {
        cp - 0x97D0
    } else if 0xFF41 <= cp && cp <= 0xFF5A {
        cp - 0x20
    } else {
        cp
    }
}

fn cp_eq(a: CodePoint, b: CodePoint, cs: CaseSensitivity) -> (r: bool)
    ensures
        r == cp_eq_spec(a, b, cs),
{
    match cs {
        CaseSensitivity::Sensitive => a == b,
        CaseSensitivity::Insensitive => fold(a) == fold(b),
    }
}

/// Match a single segment's tokens against one path segment's code points.
#[verifier::loop_isolation(false)]
pub fn match_segment(tokens: &[Token], input: &[CodePoint], cs: CaseSensitivity) -> (r: bool)
    ensures
        r == seg_matches(toks_view(tokens@), input@, cs),
    decreases tokens@,
{
    broadcast use vstd::seq::axiom_seq_subrange_decreases;

    let ghost tv = toks_view(tokens@);
    if tokens.len() == 0 {
        return input.len() == 0;
    }
    let n = tokens.len();
    let rest = &tokens[1..n];
    let ghost rv = toks_view(rest@);
    assert(rv =~= tv.drop_first());
    let len = input.len();
    match &tokens[0] {
        Token::Literal(cp) => {
            assert(tv[0] == TokenV::Literal(*cp));
            if len == 0 {
                return false;
            }
            if !cp_eq(*cp, input[0], cs) {
                return false;
            }
            let tail = &input[1..len];
            assert(tail@ =~= input@.drop_first());
            match_segment(rest, tail, cs)
        },
        Token::Any => {
            assert(tv[0] == TokenV::Any);
            if len == 0 {
                return false;
            }
            let tail = &input[1..len];
            assert(tail@ =~= input@.drop_first());
            match_segment(rest, tail, cs)
        },
        Token::Star => {
            assert(tv[0] == TokenV::Star);
            let mut k: usize = 0;
            loop
                invariant
                    k <= len,
                    forall|j: int| 0 <= j < k ==> !#[trigger] seg_matches(rv, input@.skip(j), cs),
                decreases len - k,
            {
                let tail = &input[k..len];
                assert(tail@ =~= input@.skip(k as int));
                if match_segment(rest, tail, cs) {
                    assert(seg_matches(tv.drop_first(), input@.skip(k as int), cs));
                    return true;
                }
                if k == len {
                    assert(forall|j: int| 0 <= j <= len ==> !seg_matches(rv, #[trigger] input@.skip(j), cs));
                    assert(!seg_matches(tv, input@, cs));
                    return false;
                }
                k += 1;
            }
        },
        Token::Alt(arms) => {
            let ghost av = match tv[0] {
                TokenV::Alt(x) => x,
                _ => Seq::empty(),
            };
            assert(av.len() == arms.len());
            let mut a: usize = 0;
            while a < arms.len()
                invariant
                    a <= arms.len(),
                    forall|x: int, j: int|
                        0 <= x < a && 0 <= j <= len ==> !(#[trigger] seg_matches(
                            av[x],
                            input@.take(j),
                            cs,
                        ) && seg_matches(rv, input@.skip(j), cs)),
                decreases arms.len() - a,
            {
                let arm = arms[a].as_slice();
                proof {
                    crate::syntax::lemma_segment_view(arms@[a as int]);
                    vstd::std_specs::vec::axiom_vec_index_decreases(*arms, a as int);
                    vstd::seq::axiom_seq_index_decreases(tokens@, 0);
                    assert(decreases_to!(tokens@ => arms@[a as int]@));
                }
                let mut k: usize = 0;
                loop
                    invariant
                        k <= len,
                        forall|x: int, j: int|
                            0 <= x < a && 0 <= j <= len ==> !(#[trigger] seg_matches(
                                av[x],
                                input@.take(j),
                                cs,
                            ) && seg_matches(rv, input@.skip(j), cs)),
                        forall|j: int|
                            0 <= j < k ==> !(#[trigger] seg_matches(av[a as int], input@.take(j), cs)
                                && seg_matches(rv, input@.skip(j), cs)),
                    decreases len - k,
                {
                    let head = &input[0..k];
                    assert(head@ =~= input@.take(k as int));
                    let tail = &input[k..len];
                    assert(tail@ =~= input@.skip(k as int));
                    if match_segment(arm, head, cs) && match_segment(rest, tail, cs) {
                        assert(seg_matches(av[a as int], input@.take(k as int), cs));
                        assert(seg_matches(tv.drop_first(), input@.skip(k as int), cs));
                        return true;
                    }
                    if k == len {
                        break;
                    }
                    k += 1;
                }
                a += 1;
            }
            assert(forall|x: int, j: int|
                #![trigger av[x], input@.skip(j)]
                0 <= x < av.len() && 0 <= j <= len ==> !(seg_matches(av[x], input@.take(j), cs)
                    && seg_matches(rv, input@.skip(j), cs)));
            assert(!seg_matches(tv, input@, cs));
            false
        },
    }
}

/// Match a compiled pattern's segments against a path (a sequence of segments); `**`
/// matches zero or more whole segments.
pub fn match_path(pattern: &[PatternSegment], path: &[&[CodePoint]], cs: CaseSensitivity) -> (r:
    bool)
    ensures
        r == path_matches(pat_view(pattern@), path_view(path@), cs),
    decreases pattern@.len(),
{
    let ghost pv = pat_view(pattern@);
    if pattern.len() == 0 {
        return path.len() == 0;
    }
    let n = pattern.len();
    let rest = &pattern[1..n];
    assert(pat_view(rest@) =~= pv.drop_first());
    assert(rest@.len() < pattern@.len());
    let len = path.len();
    match &pattern[0] {
        PatternSegment::DoubleStar => {
            assert(pv[0] == PatSegV::DoubleStar);
            let mut k: usize = 0;
            loop
                invariant
                    k <= len,
                    n >= 1,
                    pv == pat_view(pattern@),
                    pv[0] == PatSegV::DoubleStar,
                    len == path@.len(),
                    n == pattern@.len(),
                    rest@ == pattern@.subrange(1, n as int),
                    pat_view(rest@) == pat_view(pattern@).drop_first(),
                    forall|j: int|
                        0 <= j < k ==> !#[trigger] path_matches(
                            pat_view(rest@),
                            path_view(path@).skip(j),
                            cs,
                        ),
                decreases len - k,
            {
                let tail = &path[k..len];
                assert(path_view(tail@) =~= path_view(path@).skip(k as int));
                if match_path(rest, tail, cs) {
                    assert(path_matches(pv.drop_first(), path_view(path@).skip(k as int), cs));
                    return true;
                }
                if k == len {
                    assert(forall|j: int|
                        0 <= j <= len ==> !path_matches(pv.drop_first(), #[trigger] path_view(path@).skip(j), cs));
                    assert(!path_matches(pv, path_view(path@), cs));
                    return false;
                }
                k += 1;
            }
        },
        PatternSegment::Match(seg) => {
            if len == 0 {
                return false;
            }
            proof {
                crate::syntax::lemma_segment_view(*seg);
            }
            if !match_segment(seg.as_slice(), path[0], cs) {
                return false;
            }
            let tail = &path[1..len];
            assert(path_view(tail@) =~= path_view(path@).drop_first());
            match_path(rest, tail, cs)
        },
    }
}

} // verus!
