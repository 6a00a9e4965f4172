//! Glob syntax: the shared segment IR, dialect front-ends and the matcher.
use vstd::prelude::*;

pub mod anchor;
pub mod decode;
pub mod dialect;
pub mod matcher;
pub mod parse;
pub mod path;
pub mod set;

verus! {

/// A code point in the matcher's 32-bit space. Unlike `char` it may hold an unpaired
/// surrogate (Windows) or a surrogate-escaped byte (Unix).
pub type CodePoint = u32;

/// The characters of a string, in order.
pub fn chars_of(s: &str) -> (r: Vec<char>)
    ensures
        r@ == s@,
{
    let mut out: Vec<char> = Vec::new();
    for c in it: s.chars()
        invariant
            out@ == it.seq().take(it.index() as int),
            it.seq() == s@,
    {
        out.push(c);
    }
    assert(out@ =~= s@);
    out
}

/// Whether matching folds case.
#[derive(Clone, Copy, Debug, PartialEq, Eq, Structural)]
pub enum CaseSensitivity {
    /// Exact code-point comparison.
    Sensitive,
    /// Case-folded comparison.
    Insensitive,
}

/// One token within a single path segment.
#[derive(Debug, PartialEq, Eq)]
pub enum Token {
    /// A literal code point.
    Literal(CodePoint),
    /// `?`: exactly one code point.
    Any,
    /// `*`: zero or more code points within the segment.
    Star,
    /// `{a,b,...}`: alternation; each arm is a token sequence.
    Alt(Vec<Segment>),
}

/// A single path segment's matcher: a sequence of tokens.
pub type Segment = Vec<Token>;

/// The mathematical model of a [`Token`]: the same shape over `Seq`.
pub enum TokenV {
    /// A literal code point.
    Literal(u32),
    /// Exactly one code point.
    Any,
    /// Zero or more code points.
    Star,
    /// Alternation over token sequences.
    Alt(Seq<Seq<TokenV>>),
}

/// The model of one token.
pub open spec fn token_view(t: Token) -> TokenV
    decreases t,
{
    match t {
        Token::Literal(c) => TokenV::Literal(c),
        Token::Any => TokenV::Any,
        Token::Star => TokenV::Star,
        Token::Alt(arms) => TokenV::Alt(
            Seq::new(
                arms.len() as nat,
                |i: int|
                    if 0 <= i < arms.len() {
                        segment_view(arms@[i])
                    } else {
                        Seq::empty()
                    },
            ),
        ),
    }
}

/// The model of a token sequence.
pub open spec fn segment_view(s: Segment) -> Seq<TokenV>
    decreases s,
{
    Seq::new(
        s.len() as nat,
        |i: int|
            if 0 <= i < s.len() {
                token_view(s@[i])
            } else {
                TokenV::Any
            },
    )
}

/// The model of a token slice.
pub open spec fn toks_view(s: Seq<Token>) -> Seq<TokenV> {
    Seq::new(s.len(), |i: int| token_view(s[i]))
}

/// A segment's model is the model of its tokens.
pub proof fn lemma_segment_view(s: Segment)
    ensures
        segment_view(s) == toks_view(s@),
{
    assert(segment_view(s) =~= toks_view(s@));
}

impl View for Token {
    type V = TokenV;

    open spec fn view(&self) -> TokenV {
        token_view(*self)
    }
}

impl Clone for Token {
    fn clone(&self) -> (res: Self)
        ensures
            res@ == self@,
    {
        clone_token(self)
    }
}

/// A deep copy of one token.
#[verifier::loop_isolation(false)]
pub fn clone_token(t: &Token) -> (res: Token)
    ensures
        res@ == t@,
    decreases t,
{
    match t {
        Token::Literal(cp) => Token::Literal(*cp),
        Token::Any => Token::Any,
        Token::Star => Token::Star,
        Token::Alt(arms) => {
            let mut out: Vec<Segment> = Vec::new();
            let mut i: usize = 0;
            while i < arms.len()
                invariant
                    i <= arms.len(),
                    out@.len() == i,
                    forall|j: int| 0 <= j < i ==> segment_view(#[trigger] out@[j]) == segment_view(arms@[j]),
                decreases arms.len() - i,
            {
                proof {
                    vstd::std_specs::vec::axiom_vec_index_decreases(*arms, i as int);
                }
                let seg = clone_segment(&arms[i]);
                out.push(seg);
                i += 1;
            }
            let res = Token::Alt(out);
            assert(res@ == t@) by {
                if let TokenV::Alt(x) = res@ { if let TokenV::Alt(y) = t@ { assert(x =~= y); } }
            }
            res
        },
    }
}

/// A deep copy of a token sequence.
pub fn clone_segment(seg: &Segment) -> (res: Segment)
    ensures
        segment_view(res) == segment_view(*seg),
    decreases seg,
{
    let mut out: Segment = Vec::new();
    let mut i: usize = 0;
    while i < seg.len()
        invariant
            i <= seg.len(),
            out@.len() == i,
            forall|j: int| 0 <= j < i ==> token_view(#[trigger] out@[j]) == token_view(seg@[j]),
        decreases seg.len() - i,
    {
        proof { vstd::std_specs::vec::axiom_vec_index_decreases(*seg, i as int); }
        let t = clone_token(&seg[i]);
        out.push(t);
        i += 1;
    }
    assert(segment_view(out) =~= segment_view(*seg));
    out
}

/// One element of a compiled pattern's segment sequence.
#[derive(Clone, Debug, PartialEq, Eq)]
pub enum PatternSegment {
    /// A segment matched against exactly one path segment.
    Match(Segment),
    /// `**`: zero or more whole path segments.
    DoubleStar,
}

/// The mathematical model of a [`PatternSegment`].
pub enum PatSegV {
    /// A segment matched against exactly one path segment.
    Match(Seq<TokenV>),
    /// Zero or more whole path segments.
    DoubleStar,
}

impl View for PatternSegment {
    type V = PatSegV;

    open spec fn view(&self) -> PatSegV {
        match self {
            PatternSegment::Match(seg) => PatSegV::Match(segment_view(*seg)),
            PatternSegment::DoubleStar => PatSegV::DoubleStar,
        }
    }
}

/// The model of a pattern-segment slice.
pub open spec fn pat_view(s: Seq<PatternSegment>) -> Seq<PatSegV> {
    Seq::new(s.len(), |i: int| s[i]@)
}

/// The model of a path given as a slice of segment slices.
pub open spec fn path_view(p: Seq<&[CodePoint]>) -> Seq<Seq<CodePoint>> {
    Seq::new(p.len(), |i: int| p[i]@)
}

/// A compiled, dialect-independent glob pattern.
#[derive(Clone, Debug, PartialEq, Eq)]
pub struct Pattern {
    /// The segment sequence, in order from the root.
    pub segments: Vec<PatternSegment>,
}

} // verus!
