//! The pattern-set model: many patterns matched over one traversal, mixed dialects
//! allowed. `matches` reports which patterns matched; `should_descend` is the union
//! descend decision, driven by a sound mid-pattern viability test.
use crate::error::Error;
use crate::syntax::dialect::{default_case_spec, Dialect};
use crate::syntax::matcher::{match_segment, path_matches, seg_matches};
use crate::syntax::parse::{parse, parse_spec, reports, Anchor};
use crate::syntax::{pat_view, path_view, toks_view, CaseSensitivity, CodePoint, PatSegV, Pattern, PatternSegment};
use vstd::prelude::*;

verus! {

/// A compiled pattern within a set: its IR, source dialect, anchor, and case rule.
#[derive(Clone, Debug)]
pub struct CompiledPattern {
    /// The compiled segment IR.
    pub pattern: Pattern,
    /// How the pattern text was rooted.
    pub anchor: Anchor,
    /// The dialect the pattern was parsed with.
    pub dialect: Dialect,
    /// The effective case-sensitivity (dialect default or caller override).
    pub case: CaseSensitivity,
}

impl CompiledPattern {
    /// The model of the compiled segments.
    pub open spec fn segs(&self) -> Seq<PatSegV> {
        pat_view(self.pattern.segments@)
    }
}

/// Whether some non-empty continuation of `dir` could still match `pat`: the
/// pattern is not exhausted at `dir`'s depth, and every segment of `dir` matches the
/// pattern segment at its depth, up to the first `**`.
pub open spec fn descend_viable_spec(pat: Seq<PatSegV>, dir: Seq<Seq<u32>>, cs: CaseSensitivity) -> bool
    decreases pat.len(),
{
    if pat.len() == 0 {
        false
    } else {
        match pat[0] {
            PatSegV::DoubleStar => true,
            PatSegV::Match(seg) => if dir.len() == 0 {
                true
            } else {
                seg_matches(seg, dir[0], cs) && descend_viable_spec(pat.drop_first(), dir.drop_first(), cs)
            },
        }
    }
}

/// Viability is exact about the directory's own segments: where the pattern has no
/// `**` up to depth `i`, the directory's segment at depth `i` must match the
/// pattern's segment at that depth, so a directory that has already strayed from
/// the pattern is never viable.
pub proof fn lemma_viable_dirs_follow_pattern(pat: Seq<PatSegV>, dir: Seq<Seq<u32>>, cs: CaseSensitivity, i: int)
    requires
        descend_viable_spec(pat, dir, cs),
        0 <= i < dir.len(),
        i < pat.len(),
        forall|j: int| 0 <= j <= i ==> #[trigger] pat[j] is Match,
    ensures
        pat[i] matches PatSegV::Match(seg) && seg_matches(seg, dir[i], cs),
    decreases i,
{
    assert(pat[0] is Match);
    if i > 0 {
        assert forall|j: int| 0 <= j <= i - 1 implies #[trigger] pat.drop_first()[j] is Match by {
            assert(pat.drop_first()[j] == pat[j + 1]);
        }
        lemma_viable_dirs_follow_pattern(pat.drop_first(), dir.drop_first(), cs, i - 1);
        assert(pat.drop_first()[i - 1] == pat[i]);
        assert(dir.drop_first()[i - 1] == dir[i]);
    }
}

/// A pattern with no `**` is viable only where it still has segments below: a
/// directory at least as deep as such a pattern is never descended.
pub proof fn lemma_viable_needs_depth_left(pat: Seq<PatSegV>, dir: Seq<Seq<u32>>, cs: CaseSensitivity)
    requires
        descend_viable_spec(pat, dir, cs),
        forall|j: int| 0 <= j < pat.len() ==> #[trigger] pat[j] is Match,
    ensures
        dir.len() < pat.len(),
    decreases pat.len(),
{
    if pat.len() > 0 && dir.len() > 0 {
        assert(pat[0] is Match);
        assert forall|j: int| 0 <= j < pat.drop_first().len() implies #[trigger] pat.drop_first()[j] is Match by {
            assert(pat.drop_first()[j] == pat[j + 1]);
        }
        lemma_viable_needs_depth_left(pat.drop_first(), dir.drop_first(), cs);
    }
}

/// The viability test is sound: whenever a pattern matches some path strictly below
/// `dir`, it is viable at `dir`, so pruning on it never loses a match.
pub proof fn lemma_descend_sound(pat: Seq<PatSegV>, dir: Seq<Seq<u32>>, below: Seq<Seq<u32>>, cs: CaseSensitivity)
    requires
        below.len() > 0,
        path_matches(pat, dir + below, cs),
    ensures
        descend_viable_spec(pat, dir, cs),
    decreases pat.len(),
{
    if pat.len() == 0 {
    } else {
        match pat[0] {
            PatSegV::DoubleStar => {},
            PatSegV::Match(seg) => {
                if dir.len() > 0 {
                    assert((dir + below).drop_first() =~= dir.drop_first() + below);
                    assert((dir + below)[0] == dir[0]);
                    lemma_descend_sound(pat.drop_first(), dir.drop_first(), below, cs);
                }
            },
        }
    }
}

/// The indices `i < n`, ascending, for which `p(i)` holds.
pub open spec fn indices_where(n: nat, p: spec_fn(int) -> bool) -> Seq<usize>
    decreases n,
{
    if n == 0 {
        Seq::empty()
    } else if p(n - 1) {
        indices_where((n - 1) as nat, p).push((n - 1) as usize)
    } else {
        indices_where((n - 1) as nat, p)
    }
}

/// A set of patterns answered by a single traversal.
#[derive(Clone, Debug)]
pub struct PatternSet {
    patterns: Vec<CompiledPattern>,
}

impl View for PatternSet {
    type V = Seq<CompiledPattern>;

    closed spec fn view(&self) -> Seq<CompiledPattern> {
        self.patterns@
    }
}

/// Whether the `i`-th pattern of `ps` matches `path`.
pub open spec fn pattern_matches_at(ps: Seq<CompiledPattern>, i: int, path: Seq<Seq<u32>>) -> bool {
    path_matches(ps[i].segs(), path, ps[i].case)
}

/// Whether the `i`-th pattern of `ps` is viable below `dir`.
pub open spec fn pattern_viable_at(ps: Seq<CompiledPattern>, i: int, dir: Seq<Seq<u32>>) -> bool {
    descend_viable_spec(ps[i].segs(), dir, ps[i].case)
}

/// Whether `dir` should be descended for the patterns of `ps`: some pattern is viable.
pub open spec fn set_should_descend(ps: Seq<CompiledPattern>, dir: Seq<Seq<u32>>) -> bool {
    exists|i: int| 0 <= i < ps.len() && #[trigger] pattern_viable_at(ps, i, dir)
}

/// Whether some non-empty continuation of `dir` could match `pat`.
fn descend_viable(pat: &[PatternSegment], dir: &[&[CodePoint]], case: CaseSensitivity) -> (r: bool)
    ensures
        r == descend_viable_spec(pat_view(pat@), path_view(dir@), case),
    decreases pat@.len(),
{
    if pat.len() == 0 {
        return false;
    }
    let n = pat.len();
    let rest = &pat[1..n];
    assert(pat_view(rest@) =~= pat_view(pat@).drop_first());
    match &pat[0] {
        PatternSegment::DoubleStar => true,
        PatternSegment::Match(seg) => {
            if dir.len() == 0 {
                return true;
            }
            proof {
                crate::syntax::lemma_segment_view(*seg);
            }
            if !match_segment(seg.as_slice(), dir[0], case) {
                return false;
            }
            let m = dir.len();
            let tail = &dir[1..m];
            assert(path_view(tail@) =~= path_view(dir@).drop_first());
            descend_viable(rest, tail, case)
        },
    }
}

impl PatternSet {
    /// An empty set.
    pub fn new() -> (r: Self)
        ensures
            r@ == Seq::<CompiledPattern>::empty(),
    {
        PatternSet { patterns: Vec::new() }
    }

    /// A set built from already-compiled patterns, preserving their order so match
    /// indices align with the caller's pattern list.
    pub fn from_compiled(patterns: Vec<CompiledPattern>) -> (r: Self)
        ensures
            r@ == patterns@,
    {
        PatternSet { patterns }
    }

    /// Parse and add a pattern; returns its index in the set. `case` overrides the
    /// dialect default when `Some`. A pattern that does not parse leaves the set as
    /// it was.
    pub fn add(&mut self, input: &str, dialect: Dialect, case: Option<CaseSensitivity>) -> (r: Result<usize, Error>)
        ensures
            match parse_spec(input@, dialect) {
                Ok((a, segs)) => {
                    &&& r == Ok::<usize, Error>(old(self)@.len() as usize)
                    &&& final(self)@.len() == old(self)@.len() + 1
                    &&& final(self)@.drop_last() == old(self)@
                    &&& final(self)@.last().segs() == segs
                    &&& final(self)@.last().anchor == a
                    &&& final(self)@.last().dialect == dialect
                    &&& final(self)@.last().case == match case {
                        Some(c) => c,
                        None => default_case_spec(dialect),
                    }
                },
                Err(f) => reports(r, f) && final(self)@ == old(self)@,
            },
    {
        let parsed = parse(input, dialect)?;
        let idx = self.patterns.len();
        let c = match case {
            Some(c) => c,
            None => dialect.default_case(),
        };
        self.patterns.push(CompiledPattern { pattern: parsed.pattern, anchor: parsed.anchor, dialect, case: c });
        assert(self.patterns@.drop_last() =~= old(self).patterns@);
        Ok(idx)
    }

    /// The number of patterns in the set.
    pub fn len(&self) -> (r: usize)
        ensures
            r == self@.len(),
    {
        self.patterns.len()
    }

    /// Whether the set is empty.
    pub fn is_empty(&self) -> (r: bool)
        ensures
            r == (self@.len() == 0),
    {
        self.patterns.len() == 0
    }

    /// The compiled pattern at `index`, if any.
    pub fn get(&self, index: usize) -> (r: Option<&CompiledPattern>)
        ensures
            index < self@.len() ==> r == Some(&self@[index as int]),
            index >= self@.len() ==> r is None,
    {
        if index < self.patterns.len() {
            Some(&self.patterns[index])
        } else {
            None
        }
    }

    /// Indices, ascending, of every pattern that matches `path`.
    pub fn matches(&self, path: &[&[CodePoint]]) -> (r: Vec<usize>)
        ensures
            r@ == indices_where(self@.len(), |i: int| pattern_matches_at(self@, i, path_view(path@))),
    {
        let ghost p = |i: int| pattern_matches_at(self@, i, path_view(path@));
        let mut out: Vec<usize> = Vec::new();
        let mut i: usize = 0;
        while i < self.patterns.len()
            invariant
                i <= self@.len(),
                self@ == self.patterns@,
                p == (|i: int| pattern_matches_at(self@, i, path_view(path@))),
                out@ == indices_where(i as nat, p),
            decreases self@.len() - i,
        {
            let cp = &self.patterns[i];
            if crate::syntax::matcher::match_path(cp.pattern.segments.as_slice(), path, cp.case) {
                out.push(i);
            }
            i += 1;
        }
        out
    }

    /// Whether to descend into a directory whose path from the root is `dir`: the
    /// union across the set, so descend if any pattern could match below.
    pub fn should_descend(&self, dir: &[&[CodePoint]]) -> (r: bool)
        ensures
            r == set_should_descend(self@, path_view(dir@)),
    {
        let mut i: usize = 0;
        while i < self.patterns.len()
            invariant
                i <= self@.len(),
                self@ == self.patterns@,
                forall|j: int| 0 <= j < i ==> !#[trigger] pattern_viable_at(self@, j, path_view(dir@)),
            decreases self@.len() - i,
        {
            let cp = &self.patterns[i];
            if descend_viable(cp.pattern.segments.as_slice(), dir, cp.case) {
                assert(pattern_viable_at(self@, i as int, path_view(dir@)));
                return true;
            }
            i += 1;
        }
        false
    }

    /// Like [`should_descend`](Self::should_descend) but only over the patterns whose
    /// index `applies` accepts, so that the decision is scoped to the patterns that
    /// apply to the current root. `applies` is asked about indices in ascending order;
    /// a pattern it accepts is then tested for viability. For an `applies` whose
    /// answer is determined by its argument, the result is exactly whether some viable
    /// pattern applies.
    pub fn should_descend_where<F>(&self, dir: &[&[CodePoint]], applies: F) -> (r: bool)
        where
            F: Fn(usize) -> bool,
        requires
            forall|i: usize| #[trigger] applies.requires((i,)),
        ensures
            r ==> exists|i: int|
                0 <= i < self@.len() && #[trigger] pattern_viable_at(self@, i, path_view(dir@))
                    && applies.ensures((i as usize,), true),
            !r ==> forall|i: int|
                0 <= i < self@.len() && #[trigger] pattern_viable_at(self@, i, path_view(dir@))
                    ==> applies.ensures((i as usize,), false),
            (forall|i: usize| !(#[trigger] applies.ensures((i,), true) && applies.ensures((i,), false)))
                ==> (r <==> exists|i: int|
                0 <= i < self@.len() && #[trigger] pattern_viable_at(self@, i, path_view(dir@))
                    && applies.ensures((i as usize,), true)),
    {
        let mut i: usize = 0;
        while i < self.patterns.len()
            invariant
                i <= self@.len(),
                self@ == self.patterns@,
                forall|i: usize| #[trigger] applies.requires((i,)),
                forall|j: int|
                    0 <= j < i && #[trigger] pattern_viable_at(self@, j, path_view(dir@))
                        ==> applies.ensures((j as usize,), false),
            decreases self@.len() - i,
        {
            let a = applies(i);
            if a {
                let cp = &self.patterns[i];
                if descend_viable(cp.pattern.segments.as_slice(), dir, cp.case) {
                    assert(pattern_viable_at(self@, i as int, path_view(dir@)));
                    return true;
                }
            }
            i += 1;
        }
        false
    }
}

/// Pruning on the set never loses a match: if some pattern of the set matches a path
/// strictly below `dir`, the set's descend decision at `dir` is to descend.
pub proof fn lemma_set_descend_sound(ps: Seq<CompiledPattern>, i: int, dir: Seq<Seq<u32>>, below: Seq<Seq<u32>>)
    requires
        0 <= i < ps.len(),
        below.len() > 0,
        pattern_matches_at(ps, i, dir + below),
    ensures
        set_should_descend(ps, dir),
{
    lemma_descend_sound(ps[i].segs(), dir, below, ps[i].case);
    assert(pattern_viable_at(ps, i, dir));
}

} // verus!
