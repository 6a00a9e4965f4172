//! Dialect front-ends: parse pattern text into the shared segment IR, applying
//! separator and escape rules, brace alternation, whole-segment `**`, `.`-strip and
//! `..`-reject, and anchor detection. `posix` uses `\` escapes; `win` uses `/` and
//! `\` separators with brace-doubling escapes.
use crate::error::Error;
use crate::syntax::dialect::{Alphabet, Dialect};
use crate::syntax::matcher::seg_matches;
use crate::syntax::CaseSensitivity;
use crate::syntax::{
    chars_of, pat_view, segment_view, toks_view, PatSegV, Pattern, PatternSegment, Segment,
    Token, TokenV,
};
use vstd::prelude::*;
use vstd::string::*;

verus! {

/// How a parsed pattern is rooted.
#[derive(Clone, Copy, Debug, PartialEq, Eq, Structural)]
pub enum Anchor {
    /// No leading separator: matched relative to a caller-supplied root.
    Relative,
    /// A leading separator: rooted at the filesystem / current-drive root.
    Root,
    /// `win`: a leading `X:` drive designator (upper-cased) followed by a separator.
    Drive(char),
    /// `win`: a leading `X:` with no separator after it (`C:foo`): relative to that
    /// drive's current directory, so it needs an explicit base on that drive.
    DriveRelative(char),
    /// `win`: a leading `\\`; the first two segments are server and share.
    Unc,
}

/// A parsed pattern: its anchor plus the dialect-independent segment IR.
#[derive(Clone, Debug, PartialEq, Eq)]
pub struct ParsedPattern {
    /// How the pattern is rooted.
    pub anchor: Anchor,
    /// The compiled segment sequence.
    pub pattern: Pattern,
}

/// Why a pattern text was refused.
#[derive(Clone, Copy, Debug, PartialEq, Eq, Structural)]
pub enum Fault {
    /// A `\` with nothing after it (`posix`).
    DanglingEscape,
    /// `**` inside a segment with other tokens.
    EmbeddedDoubleStar,
    /// A `..` segment.
    DotDot,
    /// A `{` whose alternation is never closed.
    Unterminated,
    /// A `{` inside an alternation.
    Nested,
    /// A character above 127 in an ASCII dialect.
    NonAscii,
    /// A `}` that closes no alternation and is not escaped.
    StrayClose,
}

/// The detail text of each refusal.
pub open spec fn fault_text(f: Fault) -> Seq<char> {
    match f {
        Fault::DanglingEscape => "dangling `\\` escape"@,
        Fault::EmbeddedDoubleStar => "`**` is only allowed as a whole path segment"@,
        Fault::DotDot => "`..` is not allowed in a pattern"@,
        Fault::Unterminated => "unterminated `{` alternation"@,
        Fault::Nested => "nested `{}` alternation is unsupported"@,
        Fault::NonAscii => "non-ASCII character in an ASCII dialect"@,
        Fault::StrayClose => "unescaped `}` outside an alternation"@,
    }
}

/// Whether `r` is the pattern error that reports `f`.
pub open spec fn reports<T>(r: Result<T, Error>, f: Fault) -> bool {
    r matches Err(Error::Pattern(m)) && m@ == fault_text(f)
}

/// Whether `c` separates path segments in dialect `d`.
pub open spec fn is_sep_spec(c: char, d: Dialect) -> bool {
    match d {
        Dialect::Posix => c == '/',
        Dialect::Win => c == '/' || c == '\\',
    }
}

/// The index just past the run of separators that starts at `i`.
pub open spec fn sep_run_end(c: Seq<char>, i: int, d: Dialect) -> int
    decreases c.len() - i,
{
    if 0 <= i < c.len() && is_sep_spec(c[i], d) {
        sep_run_end(c, i + 1, d)
    } else {
        i
    }
}

/// Whether `c` is an ASCII letter.
pub open spec fn is_ascii_alpha(c: char) -> bool {
    ('a' <= c <= 'z') || ('A' <= c <= 'Z')
}

/// The ASCII upper case of a letter.
pub open spec fn ascii_upper(c: char) -> char {
    if 'a' <= c <= 'z' {
        ((c as u32) - 32) as char
    } else {
        c
    }
}

/// The anchor a pattern text expresses, and the index where its segments start.
/// `posix`: leading separators mean `Root`. `win`: two or more leading separators
/// mean UNC, one means `Root`, a leading `X:` a drive (drive-relative when no
/// separator follows it); otherwise relative.
pub open spec fn anchor_spec(c: Seq<char>, d: Dialect) -> (Anchor, int) {
    let n = sep_run_end(c, 0, d);
    match d {
        Dialect::Posix => (if n > 0 {
            Anchor::Root
        } else {
            Anchor::Relative
        }, n),
        Dialect::Win => if n >= 2 {
            (Anchor::Unc, n)
        } else if n == 1 {
            (Anchor::Root, 1)
        } else if c.len() >= 2 && is_ascii_alpha(c[0]) && c[1] == ':' {
            if c.len() > 2 && is_sep_spec(c[2], d) {
                (Anchor::Drive(ascii_upper(c[0])), sep_run_end(c, 2, d))
            } else {
                (Anchor::DriveRelative(ascii_upper(c[0])), 2)
            }
        } else {
            (Anchor::Relative, 0)
        },
    }
}

/// `Ok(pre + s)` for `Ok(s)`, the error otherwise.
pub open spec fn prefixed<A>(pre: Seq<A>, r: Result<Seq<A>, Fault>) -> Result<Seq<A>, Fault> {
    match r {
        Ok(s) => Ok(pre + s),
        Err(e) => Err(e),
    }
}

/// The raw segments of `c` from index `i`, where `cur` is the segment being built:
/// split on unescaped separators, a run of separators counting as one; a `posix` `\`
/// keeps itself and the next char in the segment.
pub open spec fn split_raw(c: Seq<char>, i: int, cur: Seq<char>, d: Dialect) -> Result<
    Seq<Seq<char>>,
    Fault,
>
    decreases c.len() - i, 1int,
{
    if i < 0 || i >= c.len() {
        Ok(seq![cur])
    } else if d == Dialect::Posix && c[i] == '\\' {
        if i + 1 >= c.len() {
            Err(Fault::DanglingEscape)
        } else {
            split_raw(c, i + 2, cur.push('\\').push(c[i + 1]), d)
        }
    } else if is_sep_spec(c[i], d) {
        prefixed(seq![cur], split_after_seps(c, i + 1, d))
    } else {
        split_raw(c, i + 1, cur.push(c[i]), d)
    }
}

/// The raw segments after the separator run that continues at `i`.
pub open spec fn split_after_seps(c: Seq<char>, i: int, d: Dialect) -> Result<
    Seq<Seq<char>>,
    Fault,
>
    decreases c.len() - i + 1, 0int,
{
    if 0 <= i < c.len() && is_sep_spec(c[i], d) {
        split_after_seps(c, i + 1, d)
    } else if i >= c.len() {
        Ok(seq![Seq::empty()])
    } else {
        split_raw(c, i, Seq::empty(), d)
    }
}

/// `Ok(seq![t] + s)` for `Ok(s)`, the error otherwise.
pub open spec fn cons_tok(t: TokenV, r: Result<Seq<TokenV>, Fault>) -> Result<Seq<TokenV>, Fault> {
    prefixed(seq![t], r)
}

/// Parse a brace alternation body from index `i` (just past a `{`): `cur` is the arm
/// being built, `arms` the finished ones. `,` ends an arm, `}` closes the group, a
/// nested `{` is refused, two `*` in a row within an arm are refused, and the end of
/// the segment leaves it unterminated. Brace doubling is not honored here.
pub open spec fn brace_spec(
    s: Seq<char>,
    i: int,
    cur: Seq<TokenV>,
    arms: Seq<Seq<TokenV>>,
    d: Dialect,
) -> Result<(TokenV, int), Fault>
    decreases s.len() - i,
{
    if i < 0 || i >= s.len() {
        Err(Fault::Unterminated)
    } else if d == Dialect::Posix && s[i] == '\\' {
        if i + 1 >= s.len() {
            Err(Fault::DanglingEscape)
        } else {
            brace_spec(s, i + 2, cur.push(TokenV::Literal(s[i + 1] as u32)), arms, d)
        }
    } else if s[i] == '}' {
        Ok((TokenV::Alt(arms.push(cur)), i + 1))
    } else if s[i] == ',' {
        brace_spec(s, i + 1, Seq::empty(), arms.push(cur), d)
    } else if s[i] == '{' {
        Err(Fault::Nested)
    } else if s[i] == '*' {
        if cur.len() > 0 && cur.last() == TokenV::Star {
            Err(Fault::EmbeddedDoubleStar)
        } else {
            brace_spec(s, i + 1, cur.push(TokenV::Star), arms, d)
        }
    } else if s[i] == '?' {
        brace_spec(s, i + 1, cur.push(TokenV::Any), arms, d)
    } else {
        brace_spec(s, i + 1, cur.push(TokenV::Literal(s[i] as u32)), arms, d)
    }
}

/// A successful brace parse ends past where it started.
pub proof fn lemma_brace_advances(
    s: Seq<char>,
    i: int,
    cur: Seq<TokenV>,
    arms: Seq<Seq<TokenV>>,
    d: Dialect,
)
    ensures
        brace_spec(s, i, cur, arms, d) matches Ok((_, next)) ==> i < next <= s.len(),
    decreases s.len() - i,
{
    if i < 0 || i >= s.len() {
    } else if d == Dialect::Posix && s[i] == '\\' {
        if i + 1 < s.len() {
            lemma_brace_advances(s, i + 2, cur.push(TokenV::Literal(s[i + 1] as u32)), arms, d);
        }
    } else if s[i] == '}' {
    } else if s[i] == ',' {
        lemma_brace_advances(s, i + 1, Seq::empty(), arms.push(cur), d);
    } else if s[i] == '{' {
    } else if s[i] == '*' {
        if !(cur.len() > 0 && cur.last() == TokenV::Star) {
            lemma_brace_advances(s, i + 1, cur.push(TokenV::Star), arms, d);
        }
    } else if s[i] == '?' {
        lemma_brace_advances(s, i + 1, cur.push(TokenV::Any), arms, d);
    } else {
        lemma_brace_advances(s, i + 1, cur.push(TokenV::Literal(s[i] as u32)), arms, d);
    }
}

/// The tokens of one raw segment from index `i`: `*`, `?`, brace alternation, a
/// `posix` `\` escape, `win` `{{` / `}}` doubling, and literals. A `}` that is
/// neither escaped nor doubled closes nothing and is refused.
pub open spec fn tokenize_spec(s: Seq<char>, i: int, d: Dialect) -> Result<Seq<TokenV>, Fault>
    decreases s.len() - i,
{
    if i < 0 || i >= s.len() {
        Ok(Seq::empty())
    } else if d == Dialect::Posix && s[i] == '\\' {
        if i + 1 >= s.len() {
            Err(Fault::DanglingEscape)
        } else {
            cons_tok(TokenV::Literal(s[i + 1] as u32), tokenize_spec(s, i + 2, d))
        }
    } else if s[i] == '*' {
        cons_tok(TokenV::Star, tokenize_spec(s, i + 1, d))
    } else if s[i] == '?' {
        cons_tok(TokenV::Any, tokenize_spec(s, i + 1, d))
    } else if s[i] == '{' && d == Dialect::Win && i + 1 < s.len() && s[i + 1] == '{' {
        cons_tok(TokenV::Literal('{' as u32), tokenize_spec(s, i + 2, d))
    } else if s[i] == '{' {
        match brace_spec(s, i + 1, Seq::empty(), Seq::empty(), d) {
            Ok((alt, next)) => {
                proof {
                    lemma_brace_advances(s, i + 1, Seq::empty(), Seq::empty(), d);
                }
                cons_tok(alt, tokenize_spec(s, next, d))
            },
            Err(e) => Err(e),
        }
    } else if s[i] == '}' && d == Dialect::Win && i + 1 < s.len() && s[i + 1] == '}' {
        cons_tok(TokenV::Literal('}' as u32), tokenize_spec(s, i + 2, d))
    } else if s[i] == '}' {
        Err(Fault::StrayClose)
    } else {
        cons_tok(TokenV::Literal(s[i] as u32), tokenize_spec(s, i + 1, d))
    }
}

/// Whether two `*` tokens stand next to each other.
pub open spec fn has_adjacent_stars(t: Seq<TokenV>) -> bool {
    exists|j: int| 0 <= j && j + 1 < t.len() && #[trigger] t[j] == TokenV::Star && t[j + 1]
        == TokenV::Star
}

/// Classify a segment's tokens: `**` alone is a `DoubleStar`; `**` among other tokens
/// is refused; `.` is stripped (`None`); `..` is refused.
pub open spec fn classify_spec(t: Seq<TokenV>) -> Result<Option<PatSegV>, Fault> {
    if t.len() == 2 && t[0] == TokenV::Star && t[1] == TokenV::Star {
        Ok(Some(PatSegV::DoubleStar))
    } else if has_adjacent_stars(t) {
        Err(Fault::EmbeddedDoubleStar)
    } else if t == seq![TokenV::Literal('.' as u32)] {
        Ok(None)
    } else if t == seq![TokenV::Literal('.' as u32), TokenV::Literal('.' as u32)] {
        Err(Fault::DotDot)
    } else {
        Ok(Some(PatSegV::Match(t)))
    }
}

/// The pattern segment (or nothing, for `.`) one raw segment compiles to.
pub open spec fn segment_spec(raw: Seq<char>, d: Dialect) -> Result<Option<PatSegV>, Fault> {
    match tokenize_spec(raw, 0, d) {
        Ok(t) => classify_spec(t),
        Err(e) => Err(e),
    }
}

/// The pattern segments of a list of raw segments, skipping empty ones; the first
/// refusal, left to right, wins.
pub open spec fn segments_spec(raws: Seq<Seq<char>>, d: Dialect) -> Result<Seq<PatSegV>, Fault>
    decreases raws.len(),
{
    if raws.len() == 0 {
        Ok(Seq::empty())
    } else if raws[0].len() == 0 {
        segments_spec(raws.drop_first(), d)
    } else {
        match segment_spec(raws[0], d) {
            Err(e) => Err(e),
            Ok(None) => segments_spec(raws.drop_first(), d),
            Ok(Some(ps)) => prefixed(seq![ps], segments_spec(raws.drop_first(), d)),
        }
    }
}

/// `s` with every `DoubleStar` that directly follows another `DoubleStar` removed:
/// a run of consecutive `**` segments means the same as one.
pub open spec fn collapse_stars(s: Seq<PatSegV>) -> Seq<PatSegV>
    decreases s.len(),
{
    if s.len() == 0 {
        s
    } else {
        let rest = collapse_stars(s.drop_last());
        if s.len() >= 2 && s.last() == PatSegV::DoubleStar && s[s.len() - 2] == PatSegV::DoubleStar {
            rest
        } else {
            rest.push(s.last())
        }
    }
}

/// The parse of a pattern text: its anchor and segments, or the first refusal.
/// Consecutive `**` segments collapse into one.
pub open spec fn parse_spec(text: Seq<char>, d: Dialect) -> Result<(Anchor, Seq<PatSegV>), Fault> {
    let (anchor, start) = anchor_spec(text, d);
    match split_raw(text, start, Seq::empty(), d) {
        Err(e) => Err(e),
        Ok(raws) => match segments_spec(raws, d) {
            Ok(segs) => Ok((anchor, collapse_stars(segs))),
            Err(e) => Err(e),
        },
    }
}

/// The single-segment refusals: a `..` segment is refused, and so is a segment whose
/// tokens hold two `*` in a row without being exactly `**`; a `.` segment is dropped.
pub proof fn lemma_segment_refusals(raw: Seq<char>, d: Dialect)
    ensures
        raw == seq!['.', '.'] ==> segment_spec(raw, d) == Err::<Option<PatSegV>, Fault>(Fault::DotDot),
        raw == seq!['.'] ==> segment_spec(raw, d) == Ok::<Option<PatSegV>, Fault>(None),
        tokenize_spec(raw, 0, d) matches Ok(t) && has_adjacent_stars(t) && !(t.len() == 2 && t[0]
            == TokenV::Star && t[1] == TokenV::Star) ==> segment_spec(raw, d) == Err::<
            Option<PatSegV>,
            Fault,
        >(Fault::EmbeddedDoubleStar),
{
    if raw == seq!['.', '.'] {
        assert(tokenize_spec(raw, 2, d) == Ok::<Seq<TokenV>, Fault>(Seq::empty()));
        assert(tokenize_spec(raw, 1, d) == Ok::<Seq<TokenV>, Fault>(seq![TokenV::Literal('.' as u32)]))
            by {
            assert(seq![TokenV::Literal('.' as u32)] + Seq::<TokenV>::empty() =~= seq![
                TokenV::Literal('.' as u32),
            ]);
        }
        let t = seq![TokenV::Literal('.' as u32), TokenV::Literal('.' as u32)];
        assert(seq![TokenV::Literal('.' as u32)] + seq![TokenV::Literal('.' as u32)] =~= t);
        assert(tokenize_spec(raw, 0, d) == Ok::<Seq<TokenV>, Fault>(t));
        assert(!has_adjacent_stars(t));
    }
    if raw == seq!['.'] {
        assert(tokenize_spec(raw, 1, d) == Ok::<Seq<TokenV>, Fault>(Seq::empty()));
        let t = seq![TokenV::Literal('.' as u32)];
        assert(seq![TokenV::Literal('.' as u32)] + Seq::<TokenV>::empty() =~= t);
        assert(tokenize_spec(raw, 0, d) == Ok::<Seq<TokenV>, Fault>(t));
        assert(!has_adjacent_stars(t));
    }
}

/// A text whose raw segments include one that is refused is refused: the parse
/// never skips over a bad segment.
pub proof fn lemma_segments_refusal(raws: Seq<Seq<char>>, d: Dialect, k: int)
    requires
        0 <= k < raws.len(),
        raws[k].len() > 0,
        segment_spec(raws[k], d) is Err,
    ensures
        segments_spec(raws, d) is Err,
    decreases raws.len(),
{
    if k > 0 {
        assert(raws.drop_first()[k - 1] == raws[k]);
        lemma_segments_refusal(raws.drop_first(), d, k - 1);
    }
}

/// `.` segments are dropped: a raw `.` segment anywhere changes nothing.
pub proof fn lemma_dot_segment_dropped(a: Seq<Seq<char>>, b: Seq<Seq<char>>, d: Dialect)
    ensures
        segments_spec(a + seq![seq!['.']] + b, d) == segments_spec(a + b, d),
    decreases a.len(),
{
    lemma_segment_refusals(seq!['.'], d);
    let x = a + seq![seq!['.']] + b;
    if a.len() == 0 {
        assert(x.drop_first() =~= b);
        assert(a + b =~= b);
    } else {
        lemma_dot_segment_dropped(a.drop_first(), b, d);
        assert(x.drop_first() =~= a.drop_first() + seq![seq!['.']] + b);
        assert((a + b).drop_first() =~= a.drop_first() + b);
        assert(x[0] == a[0]);
        assert((a + b)[0] == a[0]);
    }
}

/// `.` segments are dropped from a whole text: two texts with the same anchor whose
/// raw segments differ only by one `.` segment parse the same (so `a/./b` parses as
/// `a/b`).
pub proof fn lemma_parse_drops_dot_segments(
    t1: Seq<char>,
    t2: Seq<char>,
    d: Dialect,
    a: Seq<Seq<char>>,
    b: Seq<Seq<char>>,
)
    requires
        anchor_spec(t1, d).0 == anchor_spec(t2, d).0,
        split_raw(t1, anchor_spec(t1, d).1, Seq::empty(), d) == Ok::<Seq<Seq<char>>, Fault>(
            a + seq![seq!['.']] + b,
        ),
        split_raw(t2, anchor_spec(t2, d).1, Seq::empty(), d) == Ok::<Seq<Seq<char>>, Fault>(a + b),
    ensures
        parse_spec(t1, d) == parse_spec(t2, d),
{
    lemma_dot_segment_dropped(a, b, d);
}

/// Whether `text` is refused by the parse: it is, whenever it splits into raw
/// segments of which one is refused on its own.
pub proof fn lemma_parse_refuses(text: Seq<char>, d: Dialect, k: int)
    requires
        split_raw(text, anchor_spec(text, d).1, Seq::empty(), d) matches Ok(raws) && 0 <= k
            < raws.len() && raws[k].len() > 0 && segment_spec(raws[k], d) is Err,
    ensures
        parse_spec(text, d) is Err,
{
    let raws = split_raw(text, anchor_spec(text, d).1, Seq::empty(), d)->Ok_0;
    lemma_segments_refusal(raws, d, k);
}

/// Whether `c` stands for itself in every dialect and position: no separator,
/// escape, wildcard, brace or drive colon.
pub open spec fn plain_char(c: char) -> bool {
    c != '/' && c != '\\' && c != '*' && c != '?' && c != '{' && c != '}' && c != ':'
}

/// Whether every char of `s` is plain.
pub open spec fn all_plain(s: Seq<char>) -> bool {
    forall|i: int| 0 <= i < s.len() ==> plain_char(#[trigger] s[i])
}

/// The code points of a text.
pub open spec fn code_points_of(s: Seq<char>) -> Seq<u32> {
    Seq::new(s.len(), |i: int| s[i] as u32)
}

/// The tokens matching exactly the chars of `s`.
pub open spec fn char_literals(s: Seq<char>) -> Seq<TokenV> {
    Seq::new(s.len(), |i: int| TokenV::Literal(s[i] as u32))
}

proof fn lemma_split_plain(c: Seq<char>, i: int, cur: Seq<char>, d: Dialect)
    requires
        0 <= i <= c.len(),
        forall|j: int| i <= j < c.len() ==> plain_char(#[trigger] c[j]) || c[j] == '?',
    ensures
        split_raw(c, i, cur, d) == Ok::<Seq<Seq<char>>, Fault>(seq![cur + c.skip(i)]),
    decreases c.len() - i,
{
    if i >= c.len() {
        assert(cur + c.skip(i) =~= cur);
    } else {
        lemma_split_plain(c, i + 1, cur.push(c[i]), d);
        assert(cur.push(c[i]) + c.skip(i + 1) =~= cur + c.skip(i));
    }
}

proof fn lemma_tokenize_plain(s: Seq<char>, i: int, j: int, d: Dialect)
    requires
        0 <= i <= j <= s.len(),
        forall|k: int| i <= k < j ==> plain_char(#[trigger] s[k]),
    ensures
        tokenize_spec(s, i, d) == prefixed(char_literals(s.subrange(i, j)), tokenize_spec(s, j, d)),
    decreases j - i,
{
    if i == j {
        lemma_prefixed_empty(tokenize_spec(s, j, d));
        assert(char_literals(s.subrange(i, j)) =~= Seq::<TokenV>::empty());
    } else {
        lemma_tokenize_plain(s, i + 1, j, d);
        lemma_prefixed_assoc(
            seq![TokenV::Literal(s[i] as u32)],
            char_literals(s.subrange(i + 1, j)),
            tokenize_spec(s, j, d),
        );
        assert(seq![TokenV::Literal(s[i] as u32)] + char_literals(s.subrange(i + 1, j))
            =~= char_literals(s.subrange(i, j)));
    }
}

proof fn lemma_literals_consume(p: Seq<char>, rest: Seq<TokenV>, input: Seq<u32>)
    ensures
        seg_matches(char_literals(p) + rest, code_points_of(p) + input, CaseSensitivity::Sensitive)
            == seg_matches(rest, input, CaseSensitivity::Sensitive),
    decreases p.len(),
{
    if p.len() == 0 {
        assert(char_literals(p) + rest =~= rest);
        assert(code_points_of(p) + input =~= input);
    } else {
        let t = char_literals(p) + rest;
        let u = code_points_of(p) + input;
        assert(t[0] == TokenV::Literal(p[0] as u32));
        assert(u[0] == p[0] as u32);
        assert(t.drop_first() =~= char_literals(p.drop_first()) + rest);
        assert(u.drop_first() =~= code_points_of(p.drop_first()) + input);
        lemma_literals_consume(p.drop_first(), rest, input);
    }
}

/// The tokens of plain characters around one `?`.
pub open spec fn question_tokens(p: Seq<char>, q: Seq<char>) -> Seq<TokenV> {
    char_literals(p) + (seq![TokenV::Any] + char_literals(q))
}

proof fn lemma_question_text_shape(p: Seq<char>, q: Seq<char>)
    requires
        all_plain(p),
        all_plain(q),
    ensures
        ({
            let c = p + seq!['?'] + q;
            &&& c[p.len() as int] == '?'
            &&& forall|k: int| 0 <= k < p.len() ==> plain_char(#[trigger] c[k])
            &&& forall|k: int| p.len() + 1 <= k < c.len() ==> plain_char(#[trigger] c[k])
            &&& forall|k: int| 0 <= k < c.len() ==> plain_char(#[trigger] c[k]) || c[k] == '?'
            &&& c.subrange(0, p.len() as int) == p
            &&& c.subrange(p.len() as int + 1, c.len() as int) == q
        }),
{
    let c = p + seq!['?'] + q;
    let n = p.len() as int;
    assert forall|k: int| 0 <= k < n implies plain_char(#[trigger] c[k]) by {
        assert(c[k] == p[k]);
    }
    assert forall|k: int| n + 1 <= k < c.len() implies plain_char(#[trigger] c[k]) by {
        assert(c[k] == q[k - n - 1]);
    }
    assert forall|k: int| 0 <= k < c.len() implies plain_char(#[trigger] c[k]) || c[k] == '?' by {
        if k < n {
            assert(c[k] == p[k]);
        } else if k > n {
            assert(c[k] == q[k - n - 1]);
        }
    }
    assert(c.subrange(0, n) =~= p);
    assert(c.subrange(n + 1, c.len() as int) =~= q);
}

proof fn lemma_question_raws(p: Seq<char>, q: Seq<char>, d: Dialect)
    requires
        all_plain(p),
        all_plain(q),
    ensures
        anchor_spec(p + seq!['?'] + q, d) == (Anchor::Relative, 0int),
        split_raw(p + seq!['?'] + q, 0, Seq::empty(), d) == Ok::<Seq<Seq<char>>, Fault>(
            seq![p + seq!['?'] + q],
        ),
{
    let c = p + seq!['?'] + q;
    lemma_question_text_shape(p, q);
    assert(!is_sep_spec(c[0], d));
    assert(sep_run_end(c, 0, d) == 0);
    if c.len() >= 2 {
        assert(c[1] != ':');
    }
    lemma_split_plain(c, 0, Seq::empty(), d);
    assert(Seq::<char>::empty() + c.skip(0) =~= c);
}

proof fn lemma_question_tokens(p: Seq<char>, q: Seq<char>, d: Dialect)
    requires
        all_plain(p),
        all_plain(q),
    ensures
        tokenize_spec(p + seq!['?'] + q, 0, d) == Ok::<Seq<TokenV>, Fault>(question_tokens(p, q)),
{
    let c = p + seq!['?'] + q;
    let n = p.len() as int;
    lemma_question_text_shape(p, q);
    lemma_tokenize_plain(c, 0, n, d);
    lemma_tokenize_plain(c, n + 1, c.len() as int, d);
    let tq = char_literals(q);
    assert(tokenize_spec(c, c.len() as int, d) == Ok::<Seq<TokenV>, Fault>(Seq::empty()));
    assert(tq + Seq::<TokenV>::empty() =~= tq);
    assert(tokenize_spec(c, n + 1, d) == Ok::<Seq<TokenV>, Fault>(tq));
    assert(tokenize_spec(c, n, d) == Ok::<Seq<TokenV>, Fault>(seq![TokenV::Any] + tq));
}

proof fn lemma_question_segment(p: Seq<char>, q: Seq<char>, d: Dialect)
    requires
        tokenize_spec(p + seq!['?'] + q, 0, d) == Ok::<Seq<TokenV>, Fault>(question_tokens(p, q)),
    ensures
        segment_spec(p + seq!['?'] + q, d) == Ok::<Option<PatSegV>, Fault>(
            Some(PatSegV::Match(question_tokens(p, q))),
        ),
{
    let t = question_tokens(p, q);
    let n = p.len() as int;
    let tq = char_literals(q);
    assert(t[n] == TokenV::Any);
    assert forall|j: int| 0 <= j < t.len() implies #[trigger] t[j] != TokenV::Star by {
        if j > n {
            assert(t[j] == tq[j - n - 1]);
        }
    }
    assert(!has_adjacent_stars(t));
    if t.len() == 1 {
        assert(t[0] == TokenV::Any);
    }
    if t.len() == 2 {
        assert(t[n] == TokenV::Any);
        assert(t != seq![TokenV::Literal('.' as u32), TokenV::Literal('.' as u32)]) by {
            if t == seq![TokenV::Literal('.' as u32), TokenV::Literal('.' as u32)] {
                assert(t[n] != TokenV::Any);
            }
        }
    }
    assert(t != seq![TokenV::Literal('.' as u32)]) by {
        if t == seq![TokenV::Literal('.' as u32)] {
            assert(t[n] != TokenV::Any);
        }
    }
}

proof fn lemma_question_matches(p: Seq<char>, q: Seq<char>, x: u32)
    ensures
        seg_matches(
            question_tokens(p, q),
            code_points_of(p) + seq![x] + code_points_of(q),
            CaseSensitivity::Sensitive,
        ),
{
    let tq = char_literals(q);
    lemma_literals_consume(p, seq![TokenV::Any] + tq, seq![x] + code_points_of(q));
    assert(code_points_of(p) + seq![x] + code_points_of(q) =~= code_points_of(p) + (seq![x]
        + code_points_of(q)));
    let tail = seq![TokenV::Any] + tq;
    assert(tail[0] == TokenV::Any);
    assert(tail.drop_first() =~= tq);
    assert((seq![x] + code_points_of(q)).drop_first() =~= code_points_of(q));
    lemma_literals_consume(q, Seq::empty(), Seq::empty());
    assert(tq + Seq::<TokenV>::empty() =~= tq);
    assert(code_points_of(q) + Seq::<u32>::empty() =~= code_points_of(q));
}

proof fn lemma_single_raw_parse(c: Seq<char>, d: Dialect, t: Seq<TokenV>)
    requires
        c.len() > 0,
        anchor_spec(c, d) == (Anchor::Relative, 0int),
        split_raw(c, 0, Seq::empty(), d) == Ok::<Seq<Seq<char>>, Fault>(seq![c]),
        segment_spec(c, d) == Ok::<Option<PatSegV>, Fault>(Some(PatSegV::Match(t))),
    ensures
        parse_spec(c, d) == Ok::<(Anchor, Seq<PatSegV>), Fault>(
            (Anchor::Relative, seq![PatSegV::Match(t)]),
        ),
{
    let raws = seq![c];
    assert(raws.len() == 1 && raws[0] == c);
    assert(raws.drop_first() =~= Seq::<Seq<char>>::empty());
    assert(segments_spec(Seq::<Seq<char>>::empty(), d) == Ok::<Seq<PatSegV>, Fault>(Seq::empty()));
    let one = seq![PatSegV::Match(t)];
    assert(one + Seq::<PatSegV>::empty() =~= one);
    assert(segments_spec(raws, d) == prefixed(one, segments_spec(raws.drop_first(), d)));
    assert(segments_spec(raws, d) == Ok::<Seq<PatSegV>, Fault>(one));
    assert(one.drop_last() =~= Seq::<PatSegV>::empty());
    assert(collapse_stars(Seq::<PatSegV>::empty()) == Seq::<PatSegV>::empty());
    assert(one.last() == PatSegV::Match(t));
    assert(Seq::<PatSegV>::empty().push(PatSegV::Match(t)) =~= one);
    assert(collapse_stars(one) == one);
}

/// An unescaped `?` is the one-code-point wildcard: a text made of plain characters
/// around one `?` parses, in either dialect, to a single relative segment that
/// matches every name with those characters around any one code point.
pub proof fn lemma_question_mark_matches_any_one(p: Seq<char>, q: Seq<char>, d: Dialect, x: u32)
    requires
        all_plain(p),
        all_plain(q),
    ensures
        match parse_spec(p + seq!['?'] + q, d) {
            Ok((a, segs)) => a == Anchor::Relative && segs.len() == 1 && match segs[0] {
                PatSegV::Match(t) => seg_matches(
                    t,
                    code_points_of(p) + seq![x] + code_points_of(q),
                    CaseSensitivity::Sensitive,
                ),
                PatSegV::DoubleStar => false,
            },
            Err(_) => false,
        },
{
    let c = p + seq!['?'] + q;
    let t = question_tokens(p, q);
    lemma_question_raws(p, q, d);
    lemma_question_tokens(p, q, d);
    lemma_question_segment(p, q, d);
    lemma_single_raw_parse(c, d, t);
    lemma_question_matches(p, q, x);
}

/// The models of a list of arms.
pub open spec fn arms_view(v: Seq<Segment>) -> Seq<Seq<TokenV>> {
    Seq::new(v.len(), |j: int| segment_view(v[j]))
}

/// The model of an optional pattern segment.
pub open spec fn opt_seg_view(o: Option<PatternSegment>) -> Option<PatSegV> {
    match o {
        Some(ps) => Some(ps@),
        None => None,
    }
}

/// The char-sequence views of a list of raw segments.
pub open spec fn raws_view(v: Seq<Vec<char>>) -> Seq<Seq<char>> {
    Seq::new(v.len(), |j: int| v[j]@)
}

proof fn lemma_prefixed_assoc<A>(a: Seq<A>, b: Seq<A>, r: Result<Seq<A>, Fault>)
    ensures
        prefixed(a, prefixed(b, r)) == prefixed(a + b, r),
{
    if let Ok(s) = r {
        assert(a + (b + s) =~= (a + b) + s);
    }
}

proof fn lemma_prefixed_empty<A>(r: Result<Seq<A>, Fault>)
    ensures
        prefixed(Seq::<A>::empty(), r) == r,
{
    if let Ok(s) = r {
        assert(Seq::<A>::empty() + s =~= s);
    }
}

/// The `Error` that reports a refusal.
fn fault_error(f: Fault) -> (e: Error)
    ensures
        reports::<()>(Err(e), f),
{
    let text = match f {
        Fault::DanglingEscape => {
            proof {
                reveal_strlit("dangling `\\` escape");
            }
            String::from_str("dangling `\\` escape")
        },
        Fault::EmbeddedDoubleStar => {
            proof {
                reveal_strlit("`**` is only allowed as a whole path segment");
            }
            String::from_str("`**` is only allowed as a whole path segment")
        },
        Fault::DotDot => {
            proof {
                reveal_strlit("`..` is not allowed in a pattern");
            }
            String::from_str("`..` is not allowed in a pattern")
        },
        Fault::Unterminated => {
            proof {
                reveal_strlit("unterminated `{` alternation");
            }
            String::from_str("unterminated `{` alternation")
        },
        Fault::Nested => {
            proof {
                reveal_strlit("nested `{}` alternation is unsupported");
            }
            String::from_str("nested `{}` alternation is unsupported")
        },
        Fault::NonAscii => {
            proof {
                reveal_strlit("non-ASCII character in an ASCII dialect");
            }
            String::from_str("non-ASCII character in an ASCII dialect")
        },
        Fault::StrayClose => {
            proof {
                reveal_strlit("unescaped `}` outside an alternation");
            }
            String::from_str("unescaped `}` outside an alternation")
        },
    };
    Error::Pattern(text)
}

fn is_sep(c: char, dialect: Dialect) -> (r: bool)
    ensures
        r == is_sep_spec(c, dialect),
{
    match dialect {
        Dialect::Posix => c == '/',
        Dialect::Win => c == '/' || c == '\\',
    }
}

/// Detect the anchor at the start of `chars` and move `i` to where the segments
/// start.
fn detect_anchor(chars: &Vec<char>, i: &mut usize, dialect: Dialect) -> (r: Anchor)
    requires
        *old(i) == 0,
    ensures
        (r, *final(i) as int) == anchor_spec(chars@, dialect),
        *final(i) <= chars@.len(),
{
    let len = chars.len();
    let mut n: usize = 0;
    while *i < len && is_sep(chars[*i], dialect)
        invariant
            *i <= len,
            n == *i,
            len == chars@.len(),
            sep_run_end(chars@, 0, dialect) == sep_run_end(chars@, *i as int, dialect),
        decreases len - *i,
    {
        n += 1;
        *i += 1;
    }
    assert(sep_run_end(chars@, 0, dialect) == n);
    match dialect {
        Dialect::Posix => {
            if n > 0 {
                Anchor::Root
            } else {
                Anchor::Relative
            }
        },
        Dialect::Win => {
            if n >= 2 {
                Anchor::Unc
            } else if n == 1 {
                Anchor::Root
            } else if len >= 2 && (('a' <= chars[0] && chars[0] <= 'z') || ('A' <= chars[0]
                && chars[0] <= 'Z')) && chars[1] == ':' {
                let c0 = chars[0];
                let letter = if 'a' <= c0 && c0 <= 'z' {
                    ((c0 as u8) - 32) as char
                } else {
                    c0
                };
                assert(letter == ascii_upper(c0));
                *i = 2;
                if !(len > 2 && is_sep(chars[2], dialect)) {
                    return Anchor::DriveRelative(letter);
                }
                while *i < len && is_sep(chars[*i], dialect)
                    invariant
                        2 <= *i <= len,
                        len == chars@.len(),
                        sep_run_end(chars@, 2, dialect) == sep_run_end(chars@, *i as int, dialect),
                    decreases len - *i,
                {
                    *i += 1;
                }
                Anchor::Drive(letter)
            } else {
                Anchor::Relative
            }
        },
    }
}

/// Parse a brace alternation body starting just after `{`; returns the `Alt` token
/// and the index just past the closing `}`. Nested braces and two `*` in a row
/// within an arm are refused, and `win` brace doubling is not honored inside an arm: `{` always starts a (refused) nested
/// group and the first `}` always closes the alternation.
fn parse_brace(seg: &Vec<char>, start: usize, dialect: Dialect) -> (r: Result<(Token, usize), Error>)
    requires
        start <= seg@.len(),
    ensures
        match brace_spec(seg@, start as int, Seq::empty(), Seq::empty(), dialect) {
            Ok((t, next)) => r matches Ok((tok, n)) && tok@ == t && n == next,
            Err(f) => reports(r, f),
        },
{
    let len = seg.len();
    let mut arms: Vec<Segment> = Vec::new();
    let mut cur: Vec<Token> = Vec::new();
    let mut i = start;
    assert(arms_view(arms@) =~= Seq::<Seq<TokenV>>::empty());
    assert(toks_view(cur@) =~= Seq::<TokenV>::empty());
    while i < len
        invariant
            i <= len,
            len == seg@.len(),
            brace_spec(seg@, start as int, Seq::empty(), Seq::empty(), dialect) == brace_spec(
                seg@,
                i as int,
                toks_view(cur@),
                arms_view(arms@),
                dialect,
            ),
        decreases len - i,
    {
        let c = seg[i];
        let ghost cv = toks_view(cur@);
        let ghost av = arms_view(arms@);
        if dialect == Dialect::Posix && c == '\\' {
            if i + 1 >= len {
                return Err(fault_error(Fault::DanglingEscape));
            }
            let n = seg[i + 1];
            cur.push(Token::Literal(n as u32));
            assert(toks_view(cur@) =~= cv.push(TokenV::Literal(n as u32)));
            i += 2;
            continue;
        }
        if c == '}' {
            proof {
                crate::syntax::lemma_segment_view(cur);
            }
            let done = cur;
            arms.push(done);
            let alt = Token::Alt(arms);
            assert(alt@ == TokenV::Alt(av.push(cv))) by {
                assert(arms_view(arms@) =~= av.push(cv));
                if let TokenV::Alt(x) = alt@ {
                    assert(x =~= arms_view(arms@));
                }
            }
            return Ok((alt, i + 1));
        } else if c == ',' {
            proof {
                crate::syntax::lemma_segment_view(cur);
            }
            let done = cur;
            arms.push(done);
            cur = Vec::new();
            assert(arms_view(arms@) =~= av.push(cv));
            assert(toks_view(cur@) =~= Seq::<TokenV>::empty());
            i += 1;
        } else if c == '{' {
            return Err(fault_error(Fault::Nested));
        } else if c == '*' {
            let nc = cur.len();
            if nc > 0 && is_star(&cur[nc - 1]) {
                assert(cv.last() == TokenV::Star);
                return Err(fault_error(Fault::EmbeddedDoubleStar));
            }
            assert(!(cv.len() > 0 && cv.last() == TokenV::Star));
            cur.push(Token::Star);
            assert(toks_view(cur@) =~= cv.push(TokenV::Star));
            i += 1;
        } else if c == '?' {
            cur.push(Token::Any);
            assert(toks_view(cur@) =~= cv.push(TokenV::Any));
            i += 1;
        } else {
            cur.push(Token::Literal(c as u32));
            assert(toks_view(cur@) =~= cv.push(TokenV::Literal(c as u32)));
            i += 1;
        }
    }
    Err(fault_error(Fault::Unterminated))
}

/// Tokenize one raw segment.
fn tokenize(seg: &Vec<char>, dialect: Dialect) -> (r: Result<Vec<Token>, Error>)
    ensures
        match tokenize_spec(seg@, 0, dialect) {
            Ok(t) => r matches Ok(toks) && toks_view(toks@) == t,
            Err(f) => reports(r, f),
        },
{
    let len = seg.len();
    let mut toks: Vec<Token> = Vec::new();
    let mut i: usize = 0;
    proof {
        assert(toks_view(toks@) =~= Seq::<TokenV>::empty());
        lemma_prefixed_empty(tokenize_spec(seg@, 0, dialect));
    }
    while i < len
        invariant
            i <= len,
            len == seg@.len(),
            tokenize_spec(seg@, 0, dialect) == prefixed(toks_view(toks@), tokenize_spec(seg@, i as int, dialect)),
        decreases len - i,
    {
        let c = seg[i];
        let ghost tv = toks_view(toks@);
        let tok: Token;
        let next: usize;
        if dialect == Dialect::Posix && c == '\\' {
            if i + 1 >= len {
                return Err(fault_error(Fault::DanglingEscape));
            }
            tok = Token::Literal(seg[i + 1] as u32);
            next = i + 2;
        } else if c == '*' {
            tok = Token::Star;
            next = i + 1;
        } else if c == '?' {
            tok = Token::Any;
            next = i + 1;
        } else if c == '{' && dialect == Dialect::Win && i + 1 < len && seg[i + 1] == '{' {
            tok = Token::Literal('{' as u32);
            next = i + 2;
        } else if c == '{' {
            proof {
                lemma_brace_advances(seg@, i + 1, Seq::empty(), Seq::empty(), dialect);
            }
            let (alt, n) = parse_brace(seg, i + 1, dialect)?;
            tok = alt;
            next = n;
        } else if c == '}' && dialect == Dialect::Win && i + 1 < len && seg[i + 1] == '}' {
            tok = Token::Literal('}' as u32);
            next = i + 2;
        } else if c == '}' {
            return Err(fault_error(Fault::StrayClose));
        } else {
            tok = Token::Literal(c as u32);
            next = i + 1;
        }
        assert(tokenize_spec(seg@, i as int, dialect) == cons_tok(tok@, tokenize_spec(seg@, next as int, dialect)));
        proof {
            lemma_prefixed_assoc(tv, seq![tok@], tokenize_spec(seg@, next as int, dialect));
        }
        toks.push(tok);
        assert(toks_view(toks@) =~= tv + seq![tok@]);
        i = next;
    }
    proof {
        if let Ok(x) = tokenize_spec(seg@, 0, dialect) {
            assert(x =~= toks_view(toks@));
        }
    }
    Ok(toks)
}

fn is_star(t: &Token) -> (r: bool)
    ensures
        r == (t@ == TokenV::Star),
{
    match t {
        Token::Star => true,
        _ => false,
    }
}

fn is_literal(t: &Token, c: u32) -> (r: bool)
    ensures
        r == (t@ == TokenV::Literal(c)),
{
    match t {
        Token::Literal(x) => *x == c,
        _ => false,
    }
}

/// Whether two `*` tokens stand next to each other in `tokens`.
fn has_star_pair(tokens: &Vec<Token>) -> (r: bool)
    ensures
        r == has_adjacent_stars(toks_view(tokens@)),
{
    let n = tokens.len();
    let ghost t = toks_view(tokens@);
    let mut j: usize = 0;
    while j < n && n - j > 1
        invariant
            j <= n,
            n == tokens@.len(),
            t == toks_view(tokens@),
            forall|k: int| 0 <= k < j && k + 1 < n ==> !(#[trigger] t[k] == TokenV::Star && t[k + 1] == TokenV::Star),
        decreases n - j,
    {
        if is_star(&tokens[j]) && is_star(&tokens[j + 1]) {
            assert(t[j as int] == TokenV::Star && t[j + 1] == TokenV::Star);
            return true;
        }
        j += 1;
    }
    false
}

/// Whether any char is above 127.
fn has_non_ascii(chars: &Vec<char>) -> (r: bool)
    ensures
        r == exists|k: int| 0 <= k < chars@.len() && (chars@[k] as u32) > 0x7F,
{
    let mut k: usize = 0;
    while k < chars.len()
        invariant
            k <= chars@.len(),
            forall|j: int| 0 <= j < k ==> (chars@[j] as u32) <= 0x7F,
        decreases chars@.len() - k,
    {
        if (chars[k] as u32) > 0x7F {
            return true;
        }
        k += 1;
    }
    false
}

/// Turn one raw segment into a `PatternSegment`, or `None` if it is a `.` to strip.
fn classify_segment(seg: &Vec<char>, dialect: Dialect) -> (r: Result<Option<PatternSegment>, Error>)
    ensures
        match segment_spec(seg@, dialect) {
            Ok(o) => r matches Ok(x) && opt_seg_view(x) == o,
            Err(f) => reports(r, f),
        },
{
    let tokens = tokenize(seg, dialect)?;
    let ghost t = toks_view(tokens@);
    let n = tokens.len();
    if n == 2 && is_star(&tokens[0]) && is_star(&tokens[1]) {
        return Ok(Some(PatternSegment::DoubleStar));
    }
    if has_star_pair(&tokens) {
        return Err(fault_error(Fault::EmbeddedDoubleStar));
    }
    assert(!has_adjacent_stars(t));
    if n == 1 && is_literal(&tokens[0], '.' as u32) {
        assert(t =~= seq![TokenV::Literal('.' as u32)]);
        return Ok(None);
    }
    if n == 2 && is_literal(&tokens[0], '.' as u32) && is_literal(&tokens[1], '.' as u32) {
        assert(t =~= seq![TokenV::Literal('.' as u32), TokenV::Literal('.' as u32)]);
        return Err(fault_error(Fault::DotDot));
    }
    proof {
        crate::syntax::lemma_segment_view(tokens);
        if t == seq![TokenV::Literal('.' as u32)] {
            assert(t[0] == TokenV::Literal('.' as u32));
        }
        if t == seq![TokenV::Literal('.' as u32), TokenV::Literal('.' as u32)] {
            assert(t[0] == TokenV::Literal('.' as u32));
            assert(t[1] == TokenV::Literal('.' as u32));
        }
    }
    Ok(Some(PatternSegment::Match(tokens)))
}

/// Compile every non-empty raw segment, in order, skipping stripped `.` segments.
#[verifier::rlimit(40)]
fn compile_segments(raw: &Vec<Vec<char>>, dialect: Dialect) -> (r: Result<Vec<PatternSegment>, Error>)
    ensures
        match segments_spec(raws_view(raw@), dialect) {
            Ok(segs) => r matches Ok(v) && pat_view(v@) == segs,
            Err(f) => reports(r, f),
        },
{
    let nraw = raw.len();
    let ghost raws = raws_view(raw@);
    let mut segments: Vec<PatternSegment> = Vec::new();
    let mut k: usize = 0;
    proof {
        assert(pat_view(segments@) =~= Seq::<PatSegV>::empty());
        assert(raws.skip(0) =~= raws);
        lemma_prefixed_empty(segments_spec(raws, dialect));
    }
    while k < nraw
        invariant
            k <= nraw,
            nraw == raw@.len(),
            raws == raws_view(raw@),
            segments_spec(raws, dialect) == prefixed(pat_view(segments@), segments_spec(raws.skip(k as int), dialect)),
        decreases nraw - k,
    {
        let ghost sv = pat_view(segments@);
        let ghost rest = raws.skip(k as int);
        proof {
            assert(rest.drop_first() =~= raws.skip(k + 1));
            assert(rest[0] == raw@[k as int]@);
        }
        if raw[k].len() == 0 {
            k += 1;
            continue;
        }
        let res = classify_segment(&raw[k], dialect);
        match res {
            Err(e) => {
                return Err(e);
            },
            Ok(Some(ps)) => {
                proof {
                    lemma_prefixed_assoc(sv, seq![ps@], segments_spec(raws.skip(k + 1), dialect));
                }
                segments.push(ps);
                assert(pat_view(segments@) =~= sv + seq![ps@]);
            },
            Ok(None) => {},
        }
        k += 1;
    }
    proof {
        assert(raws.skip(nraw as int) =~= Seq::<Seq<char>>::empty());
        if let Ok(x) = segments_spec(raws, dialect) {
            assert(x =~= pat_view(segments@));
        }
    }
    Ok(segments)
}

/// A copy of one pattern segment.
pub(crate) fn clone_pattern_segment(ps: &PatternSegment) -> (r: PatternSegment)
    ensures
        r@ == ps@,
{
    match ps {
        PatternSegment::Match(seg) => PatternSegment::Match(crate::syntax::clone_segment(seg)),
        PatternSegment::DoubleStar => PatternSegment::DoubleStar,
    }
}

fn is_double_star(ps: &PatternSegment) -> (r: bool)
    ensures
        r == (ps@ == PatSegV::DoubleStar),
{
    match ps {
        PatternSegment::DoubleStar => true,
        PatternSegment::Match(_) => false,
    }
}

/// Drop every `**` segment that directly follows another.
fn collapse_double_stars(segs: &Vec<PatternSegment>) -> (r: Vec<PatternSegment>)
    ensures
        pat_view(r@) == collapse_stars(pat_view(segs@)),
{
    let n = segs.len();
    let ghost s = pat_view(segs@);
    let mut out: Vec<PatternSegment> = Vec::new();
    let mut k: usize = 0;
    assert(pat_view(out@) =~= collapse_stars(s.take(0)));
    while k < n
        invariant
            k <= n,
            n == segs@.len(),
            s == pat_view(segs@),
            pat_view(out@) == collapse_stars(s.take(k as int)),
        decreases n - k,
    {
        let ghost ov = pat_view(out@);
        let ghost t = s.take(k + 1);
        assert(t.drop_last() =~= s.take(k as int));
        assert(t.last() == s[k as int]);
        if k > 0 && is_double_star(&segs[k]) && is_double_star(&segs[k - 1]) {
            assert(t[t.len() - 2] == s[k - 1]);
        } else {
            assert(k > 0 ==> t[t.len() - 2] == s[k - 1]);
            let c = clone_pattern_segment(&segs[k]);
            out.push(c);
            assert(pat_view(out@) =~= ov.push(s[k as int]));
        }
        k += 1;
    }
    assert(s.take(n as int) =~= s);
    out
}

/// Parse `input` in `dialect` into the segment IR.
pub fn parse(input: &str, dialect: Dialect) -> (r: Result<ParsedPattern, Error>)
    ensures
        match parse_spec(input@, dialect) {
            Ok((a, segs)) => r matches Ok(p) && p.anchor == a && pat_view(p.pattern.segments@) == segs,
            Err(f) => reports(r, f),
        },
{
    let chars = chars_of(input);
    let len = chars.len();
    match dialect.alphabet() {
        Alphabet::Ascii => {
            if has_non_ascii(&chars) {
                return Err(fault_error(Fault::NonAscii));
            }
        },
        Alphabet::Utf8 => {},
    }
    let mut i: usize = 0;
    let anchor = detect_anchor(&chars, &mut i, dialect);
    let ghost start = i as int;

    // Split the remainder into raw segments on unescaped separators, a run of
    // separators counting as one.
    let mut raw: Vec<Vec<char>> = Vec::new();
    let mut cur: Vec<char> = Vec::new();
    proof {
        assert(raws_view(raw@) =~= Seq::<Seq<char>>::empty());
        lemma_prefixed_empty(split_raw(chars@, start, Seq::empty(), dialect));
    }
    while i < len
        invariant
            i <= len,
            len == chars@.len(),
            chars@ == input@,
            (anchor, start) == anchor_spec(chars@, dialect),
            split_raw(chars@, start, Seq::empty(), dialect) == prefixed(
                raws_view(raw@),
                split_raw(chars@, i as int, cur@, dialect),
            ),
        decreases len - i,
    {
        let c = chars[i];
        if dialect == Dialect::Posix && c == '\\' {
            if i + 1 >= len {
                return Err(fault_error(Fault::DanglingEscape));
            }
            let n = chars[i + 1];
            cur.push('\\');
            cur.push(n);
            i += 2;
            continue;
        }
        if is_sep(c, dialect) {
            let ghost rv = raws_view(raw@);
            let ghost cv = cur@;
            let done = cur;
            raw.push(done);
            cur = Vec::new();
            assert(raws_view(raw@) =~= rv + seq![cv]);
            proof {
                lemma_prefixed_assoc(rv, seq![cv], split_after_seps(chars@, i + 1, dialect));
            }
            i += 1;
            let ghost first = i;
            while i < len && is_sep(chars[i], dialect)
                invariant
                    first <= i <= len,
                    len == chars@.len(),
                    split_raw(chars@, start, Seq::empty(), dialect) == prefixed(
                        raws_view(raw@),
                        split_after_seps(chars@, i as int, dialect),
                    ),
                decreases len - i,
            {
                i += 1;
            }
            assert(cur@ =~= Seq::<char>::empty());
            continue;
        }
        cur.push(c);
        i += 1;
    }
    let ghost rv = raws_view(raw@);
    let ghost cv = cur@;
    let last = cur;
    raw.push(last);
    assert(raws_view(raw@) =~= rv + seq![cv]);
    proof {
        if let Ok(x) = split_raw(chars@, start, Seq::empty(), dialect) {
            assert(x =~= raws_view(raw@));
        }
    }

    let compiled = compile_segments(&raw, dialect)?;
    let segments = collapse_double_stars(&compiled);
    Ok(ParsedPattern { anchor, pattern: Pattern { segments } })
}

} // verus!


