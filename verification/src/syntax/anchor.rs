//! Anchor extraction: peel the leading run of pure-literal segments from a compiled
//! pattern for use as a traversal seek target, and classify a segment as a plain
//! literal.
use crate::syntax::{pat_view, toks_view, CodePoint, PatSegV, Pattern, PatternSegment, Token, TokenV};
use vstd::prelude::*;

verus! {

/// The code points of a token sequence made only of literals, or `None` if any token
/// is `*`, `?` or an alternation.
pub open spec fn literal_of_spec(t: Seq<TokenV>) -> Option<Seq<u32>> {
    if forall|i: int| 0 <= i < t.len() ==> (#[trigger] t[i]) is Literal {
        Some(Seq::new(t.len(), |i: int| t[i]->Literal_0))
    } else {
        None
    }
}

/// The literal code points of a pattern segment, if it is a pure-literal `Match`.
pub open spec fn literal_segment_spec(s: PatSegV) -> Option<Seq<u32>> {
    match s {
        PatSegV::Match(t) => literal_of_spec(t),
        PatSegV::DoubleStar => None,
    }
}

/// The length of the leading run of pure-literal segments.
pub open spec fn literal_prefix_len(p: Seq<PatSegV>) -> int {
    if exists|i: int| 0 <= i < p.len() && literal_segment_spec(#[trigger] p[i]) is None {
        choose|i: int|
            0 <= i < p.len() && literal_segment_spec(#[trigger] p[i]) is None && forall|j: int|
                0 <= j < i ==> literal_segment_spec(#[trigger] p[j]) is Some
    } else {
        p.len() as int
    }
}

/// The views of a list of code-point vectors.
pub open spec fn cps_lists_view(v: Seq<Vec<CodePoint>>) -> Seq<Seq<u32>> {
    Seq::new(v.len(), |i: int| v[i]@)
}

/// If `seg` is composed solely of literal tokens (no `*` / `?` / alternation),
/// return its code points; otherwise `None`.
pub fn literal_of(seg: &[Token]) -> (r: Option<Vec<CodePoint>>)
    ensures
        match r {
            Some(v) => literal_of_spec(toks_view(seg@)) == Some(v@),
            None => literal_of_spec(toks_view(seg@)) is None,
        },
{
    let ghost t = toks_view(seg@);
    let mut out: Vec<CodePoint> = Vec::new();
    let mut i: usize = 0;
    while i < seg.len()
        invariant
            i <= seg@.len(),
            t == toks_view(seg@),
            out@.len() == i,
            forall|j: int| 0 <= j < i ==> (#[trigger] t[j]) is Literal && out@[j] == t[j]->Literal_0,
        decreases seg@.len() - i,
    {
        match &seg[i] {
            Token::Literal(cp) => out.push(*cp),
            _ => {
                assert(!(t[i as int] is Literal));
                return None;
            },
        }
        i += 1;
    }
    assert(out@ =~= Seq::new(t.len(), |i: int| t[i]->Literal_0));
    Some(out)
}

/// The leading literal prefix of a pattern: the maximal run of pure-literal `Match`
/// segments from the start, as code-point segments, plus the index of the first
/// segment not included (where wildcard matching resumes).
pub fn literal_prefix(pattern: &Pattern) -> (r: (Vec<Vec<CodePoint>>, usize))
    ensures
        r.1 == literal_prefix_len(pat_view(pattern.segments@)),
        cps_lists_view(r.0@) == Seq::new(
            r.1 as nat,
            |i: int| literal_segment_spec(pat_view(pattern.segments@)[i])->0,
        ),
{
    let ghost p = pat_view(pattern.segments@);
    let n = pattern.segments.len();
    let mut prefix: Vec<Vec<CodePoint>> = Vec::new();
    let mut i: usize = 0;
    while i < n
        invariant
            i <= n,
            n == pattern.segments@.len(),
            p == pat_view(pattern.segments@),
            prefix@.len() == i,
            forall|j: int| 0 <= j < i ==> literal_segment_spec(#[trigger] p[j]) is Some,
            cps_lists_view(prefix@) == Seq::new(i as nat, |j: int| literal_segment_spec(p[j])->0),
        decreases n - i,
    {
        let ghost before = cps_lists_view(prefix@);
        match &pattern.segments[i] {
            PatternSegment::Match(tokens) => {
                proof {
                    crate::syntax::lemma_segment_view(*tokens);
                }
                match literal_of(tokens.as_slice()) {
                    Some(lit) => {
                        assert(p[i as int] == PatSegV::Match(toks_view(tokens@)));
                        assert(literal_segment_spec(p[i as int]) == Some(lit@));
                        let ghost lv = lit@;
                        prefix.push(lit);
                        assert(cps_lists_view(prefix@) =~= before.push(lv));
                        assert(before.push(lv) =~= Seq::new((i + 1) as nat, |j: int| literal_segment_spec(p[j])->0));
                    },
                    None => {
                        assert(p[i as int] == PatSegV::Match(toks_view(tokens@)));
                        assert(literal_segment_spec(p[i as int]) is None);
                        return (prefix, i);
                    },
                }
            },
            PatternSegment::DoubleStar => {
                assert(literal_segment_spec(p[i as int]) is None);
                return (prefix, i);
            },
        }
        i += 1;
    }
    (prefix, n)
}

} // verus!
