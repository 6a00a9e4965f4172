//! The public query builder: accepts roots, a base and patterns, and lowers them to
//! the core query definition (roots + root-relative patterns) that the engine walks.
//!
//! The engine does no path resolution: it evaluates each relative pattern against a
//! path relative to its physical root. This builder turns caller-facing absolute
//! patterns into that `roots x relative-patterns` form, peeling the leading literal
//! prefix of a self-rooting pattern into its root. It reads no process-global state;
//! the caller supplies roots and any base.
use crate::builder::paths::{
    canon_key, find_key, first_from, intern_spec, is_absolute_exec, is_absolute_path,
    is_ancestor, is_drive_absolute, is_host_sep, keys_of, keys_view, path_components,
    proper_prefix, root_key, root_of, root_of_exec,
};
use crate::error::Error;
use crate::predicate::{fields_bits, required_fields, Leaf, MetaMask};
use crate::syntax::anchor::{literal_of, literal_segment_spec};
use crate::syntax::decode::{lossy_char_vec, lossy_chars, string_of};
use crate::syntax::dialect::{default_case_spec, dialect_id, parts_view, Dialect};
use crate::syntax::parse::{ascii_upper, parse, parse_spec, reports, Anchor, Fault};
use crate::syntax::set::CompiledPattern;
use crate::syntax::{
    chars_of, lemma_segment_view, pat_view, toks_view, CaseSensitivity, PatSegV, Pattern,
    PatternSegment,
};
use vstd::prelude::*;
use vstd::string::*;

pub mod paths;

verus! {

/// A physical traversal seed: a concrete directory the engine opens and walks.
/// Never a pattern; all globbing is relative to it.
#[derive(Clone, Debug, PartialEq, Eq)]
pub struct Root {
    /// The seed directory path.
    pub path: String,
}

impl Root {
    /// A root at `path`.
    pub fn new(path: &str) -> (r: Root)
        ensures
            r.path@ == path@,
    {
        Root { path: String::from_str(path) }
    }
}

/// One compiled pattern plus its per-pattern emit filter. The dialect and case rule
/// live inside [`CompiledPattern`].
#[derive(Clone, Debug)]
pub struct PatternEntry {
    /// The compiled, root-relative glob.
    pub glob: CompiledPattern,
    /// The per-pattern emit conjunction (empty = pass-all).
    pub emit: Vec<Leaf>,
    /// Indices into [`Query::roots`] this pattern applies to: a relative pattern
    /// applies to every supplied root; a self-rooting pattern only to its own root.
    pub roots: Vec<usize>,
}

/// Whether the traversal follows a reparse point / symlink that resolves to a
/// directory. The default is [`Never`](Self::Never).
#[derive(Clone, Copy, Debug, PartialEq, Eq, Structural)]
pub enum FollowLinks {
    /// Never descend into a reparse-point / symlinked directory.
    Never,
    /// Descend into reparse-point / symlinked directories; loop safety comes from
    /// cycle detection.
    Always,
}

impl Default for FollowLinks {
    fn default() -> (r: FollowLinks)
        ensures
            r == FollowLinks::Never,
    {
        FollowLinks::Never
    }
}

/// Per-query execution options.
#[derive(Clone, Copy, Debug)]
pub struct Options {
    /// In-flight scan permits.
    pub permits: usize,
    /// Completion-ring capacity.
    pub ring_capacity: usize,
    /// Whether to run reparse-cycle detection.
    pub cycle_detection: bool,
    /// The reparse/symlink follow policy.
    pub follow_links: FollowLinks,
    /// The query-level case default applied when a pattern gives no override.
    pub default_case: Option<CaseSensitivity>,
    /// Confine the walk to the query roots: a followed reparse point is descended
    /// only if its target is confirmed within a root; otherwise the walk reports a
    /// `Blocked` item with `RootEscape` in its place. Only affects
    /// [`FollowLinks::Always`]; default `false`.
    pub confine_to_roots: bool,
}

/// The default options: 64 permits, a 1024-item ring, cycle detection on, links not
/// followed, no query-level case default, not confined.
pub open spec fn default_options() -> Options {
    Options {
        permits: 64,
        ring_capacity: 1024,
        cycle_detection: true,
        follow_links: FollowLinks::Never,
        default_case: None,
        confine_to_roots: false,
    }
}

impl Default for Options {
    fn default() -> (r: Options)
        ensures
            r == default_options(),
    {
        Options {
            permits: 64,
            ring_capacity: 1024,
            cycle_detection: true,
            follow_links: FollowLinks::Never,
            default_case: None,
            confine_to_roots: false,
        }
    }
}

/// The core query definition: roots + relative patterns only. This is the builder's
/// lowered output, consumed by the engine.
#[derive(Clone, Debug)]
pub struct Query {
    /// The physical seed roots.
    pub roots: Vec<Root>,
    /// The compiled patterns with their emit filters.
    pub patterns: Vec<PatternEntry>,
    /// The per-query descend conjunction.
    pub descend: Vec<Leaf>,
    /// The requested result-shape metadata.
    pub result_shape: MetaMask,
    /// Execution options.
    pub options: Options,
}

/// The union of the fields every pattern's emit filter needs.
pub open spec fn emit_bits(ps: Seq<PatternEntry>) -> u16
    decreases ps.len(),
{
    if ps.len() == 0 {
        0
    } else {
        emit_bits(ps.drop_last()) | fields_bits(ps.last().emit@)
    }
}

/// The fields a query fetches per entry: the result shape, the descend filter's
/// fields and every emit filter's fields.
pub open spec fn fetch_bits(q: Query) -> u16 {
    q.result_shape.spec_bits() | fields_bits(q.descend@) | emit_bits(q.patterns@)
}

impl Query {
    /// The engine's per-entry fetch mask: the union of every pattern's emit fields,
    /// the descend fields, and the requested result shape.
    pub fn fetch_mask(&self) -> (r: MetaMask)
        ensures
            r.spec_bits() == fetch_bits(*self),
    {
        let base = self.result_shape.union(required_fields(self.descend.as_slice()));
        let mut emits = MetaMask::empty();
        let mut i: usize = 0;
        while i < self.patterns.len()
            invariant
                i <= self.patterns@.len(),
                emits.spec_bits() == emit_bits(self.patterns@.take(i as int)),
            decreases self.patterns@.len() - i,
        {
            assert(self.patterns@.take(i + 1).drop_last() =~= self.patterns@.take(i as int));
            emits = emits.union(required_fields(self.patterns[i].emit.as_slice()));
            i += 1;
        }
        assert(self.patterns@.take(self.patterns@.len() as int) =~= self.patterns@);
        base.union(emits)
    }
}

/// A pattern awaiting lowering.
#[derive(Clone, Debug)]
struct PendingPattern {
    text: String,
    dialect: Dialect,
    emit: Vec<Leaf>,
    case: Option<CaseSensitivity>,
}

/// The model of a pattern awaiting lowering.
pub struct PendingV {
    /// The pattern text.
    pub text: Seq<char>,
    /// Its dialect.
    pub dialect: Dialect,
    /// Its emit filter.
    pub emit: Seq<Leaf>,
    /// Its case override, if any.
    pub case: Option<CaseSensitivity>,
}

spec fn pending_view(p: PendingPattern) -> PendingV {
    PendingV { text: p.text@, dialect: p.dialect, emit: p.emit@, case: p.case }
}

spec fn pendings_view(s: Seq<PendingPattern>) -> Seq<PendingV> {
    Seq::new(s.len(), |i: int| pending_view(s[i]))
}

/// The public builder. Collect roots, a base and patterns, then
/// [`build`](Self::build) to the core [`Query`].
#[derive(Clone, Debug)]
pub struct QueryBuilder {
    roots: Vec<String>,
    base: Option<String>,
    patterns: Vec<PendingPattern>,
    descend: Vec<Leaf>,
    result_shape: MetaMask,
    options: Options,
}

/// The texts of a list of strings.
pub open spec fn texts_view(s: Seq<String>) -> Seq<Seq<char>> {
    Seq::new(s.len(), |i: int| s[i]@)
}

impl QueryBuilder {
    /// The supplied roots, in order.
    pub closed spec fn root_texts(self) -> Seq<Seq<char>> {
        texts_view(self.roots@)
    }

    /// The base, if set.
    pub closed spec fn base_text(self) -> Option<Seq<char>> {
        match self.base {
            Some(b) => Some(b@),
            None => None,
        }
    }

    /// The patterns, in order.
    pub closed spec fn pending(self) -> Seq<PendingV> {
        pendings_view(self.patterns@)
    }

    /// The descend conjunction.
    pub closed spec fn descend_leaves(self) -> Seq<Leaf> {
        self.descend@
    }

    /// The requested result shape.
    pub closed spec fn shape(self) -> MetaMask {
        self.result_shape
    }

    /// The execution options.
    pub closed spec fn opts(self) -> Options {
        self.options
    }

    /// A new, empty builder.
    pub fn new() -> (r: QueryBuilder)
        ensures
            r.root_texts() == Seq::<Seq<char>>::empty(),
            r.base_text() is None,
            r.pending() == Seq::<PendingV>::empty(),
            r.descend_leaves() == Seq::<Leaf>::empty(),
            r.shape().spec_bits() == 0,
            r.opts() == default_options(),
    {
        QueryBuilder {
            roots: Vec::new(),
            base: None,
            patterns: Vec::new(),
            descend: Vec::new(),
            result_shape: MetaMask::empty(),
            options: Options::default(),
        }
    }

    /// Add a physical seed root for relative patterns.
    pub fn root(self, path: &str) -> (r: QueryBuilder)
        ensures
            r.root_texts() == self.root_texts().push(path@),
            r.base_text() == self.base_text(),
            r.pending() == self.pending(),
            r.descend_leaves() == self.descend_leaves(),
            r.shape() == self.shape(),
            r.opts() == self.opts(),
    {
        let mut b = self;
        b.roots.push(String::from_str(path));
        assert(texts_view(b.roots@) =~= texts_view(self.roots@).push(path@));
        b
    }

    /// Set the base directory used to root a leading-separator pattern that needs one.
    pub fn base(self, path: &str) -> (r: QueryBuilder)
        ensures
            r.root_texts() == self.root_texts(),
            r.base_text() == Some(path@),
            r.pending() == self.pending(),
            r.descend_leaves() == self.descend_leaves(),
            r.shape() == self.shape(),
            r.opts() == self.opts(),
    {
        let mut b = self;
        b.base = Some(String::from_str(path));
        b
    }

    /// Add a pattern with its dialect and emit filter (dialect default case).
    pub fn pattern(self, text: &str, dialect: Dialect, emit: Vec<Leaf>) -> (r: QueryBuilder)
        ensures
            r.root_texts() == self.root_texts(),
            r.base_text() == self.base_text(),
            r.pending() == self.pending().push(
                PendingV { text: text@, dialect, emit: emit@, case: None },
            ),
            r.descend_leaves() == self.descend_leaves(),
            r.shape() == self.shape(),
            r.opts() == self.opts(),
    {
        let mut b = self;
        b.patterns.push(PendingPattern { text: String::from_str(text), dialect, emit, case: None });
        assert(pendings_view(b.patterns@) =~= pendings_view(self.patterns@).push(
            PendingV { text: text@, dialect, emit: emit@, case: None },
        ));
        b
    }

    /// Add a pattern with an explicit case override.
    pub fn pattern_cased(
        self,
        text: &str,
        dialect: Dialect,
        case: CaseSensitivity,
        emit: Vec<Leaf>,
    ) -> (r: QueryBuilder)
        ensures
            r.root_texts() == self.root_texts(),
            r.base_text() == self.base_text(),
            r.pending() == self.pending().push(
                PendingV { text: text@, dialect, emit: emit@, case: Some(case) },
            ),
            r.descend_leaves() == self.descend_leaves(),
            r.shape() == self.shape(),
            r.opts() == self.opts(),
    {
        let mut b = self;
        b.patterns.push(
            PendingPattern { text: String::from_str(text), dialect, emit, case: Some(case) },
        );
        assert(pendings_view(b.patterns@) =~= pendings_view(self.patterns@).push(
            PendingV { text: text@, dialect, emit: emit@, case: Some(case) },
        ));
        b
    }

    /// Set the per-query descend conjunction.
    pub fn descend(self, leaves: Vec<Leaf>) -> (r: QueryBuilder)
        ensures
            r.root_texts() == self.root_texts(),
            r.base_text() == self.base_text(),
            r.pending() == self.pending(),
            r.descend_leaves() == leaves@,
            r.shape() == self.shape(),
            r.opts() == self.opts(),
    {
        let mut b = self;
        b.descend = leaves;
        b
    }

    /// Set the reparse/symlink follow policy.
    pub fn follow_links(self, policy: FollowLinks) -> (r: QueryBuilder)
        ensures
            r.root_texts() == self.root_texts(),
            r.base_text() == self.base_text(),
            r.pending() == self.pending(),
            r.descend_leaves() == self.descend_leaves(),
            r.shape() == self.shape(),
            r.opts() == (Options { follow_links: policy, ..self.opts() }),
    {
        let mut b = self;
        b.options.follow_links = policy;
        b
    }

    /// Confine the walk to the query roots. Only affects [`FollowLinks::Always`].
    pub fn confine_to_roots(self, confine: bool) -> (r: QueryBuilder)
        ensures
            r.root_texts() == self.root_texts(),
            r.base_text() == self.base_text(),
            r.pending() == self.pending(),
            r.descend_leaves() == self.descend_leaves(),
            r.shape() == self.shape(),
            r.opts() == (Options { confine_to_roots: confine, ..self.opts() }),
    {
        let mut b = self;
        b.options.confine_to_roots = confine;
        b
    }

    /// Set the requested result-shape metadata.
    pub fn result_shape(self, mask: MetaMask) -> (r: QueryBuilder)
        ensures
            r.root_texts() == self.root_texts(),
            r.base_text() == self.base_text(),
            r.pending() == self.pending(),
            r.descend_leaves() == self.descend_leaves(),
            r.shape() == mask,
            r.opts() == self.opts(),
    {
        let mut b = self;
        b.result_shape = mask;
        b
    }

    /// Set the execution options.
    pub fn options(self, options: Options) -> (r: QueryBuilder)
        ensures
            r.root_texts() == self.root_texts(),
            r.base_text() == self.base_text(),
            r.pending() == self.pending(),
            r.descend_leaves() == self.descend_leaves(),
            r.shape() == self.shape(),
            r.opts() == options,
    {
        let mut b = self;
        b.options = options;
        b
    }
}

impl Default for QueryBuilder {
    fn default() -> (r: QueryBuilder)
        ensures
            r.root_texts() == Seq::<Seq<char>>::empty(),
            r.base_text() is None,
            r.pending() == Seq::<PendingV>::empty(),
            r.descend_leaves() == Seq::<Leaf>::empty(),
            r.shape().spec_bits() == 0,
            r.opts() == default_options(),
    {
        QueryBuilder::new()
    }
}


/// Why lowering a query failed.
pub enum BuildFailure {
    /// The builder holds no pattern.
    NoPatterns,
    /// The ring capacity is zero.
    ZeroRing,
    /// A root is relative or has a `..` component.
    BadRoot,
    /// One supplied root lies under another.
    NestedRoots,
    /// A pattern's dialect cannot be used on this host.
    Unsupported,
    /// A pattern text was refused by its dialect.
    Parse(Fault),
    /// A UNC pattern lacks a literal server segment.
    NoServer,
    /// A UNC pattern lacks a literal share segment.
    NoShare,
    /// A leading-separator pattern was given a relative base.
    RelativeBase,
    /// A leading-separator pattern is drive-relative on this host and has no base, or
    /// a drive-relative `X:` pattern has no base on drive `X`.
    DriveRelative,
    /// A relative pattern was given with no supplied root.
    NeedsRoot,
    /// The query ended up with no root at all.
    NoRoots,
}

/// Whether `r` is the error a failure is reported as: a parse failure as that
/// fault's pattern error, root and option faults as option errors, the rest as
/// pattern errors.
pub open spec fn fails_with<T>(r: Result<T, Error>, f: BuildFailure) -> bool {
    match f {
        BuildFailure::Parse(fault) => reports(r, fault),
        BuildFailure::ZeroRing | BuildFailure::BadRoot | BuildFailure::NestedRoots => r matches Err(
            Error::Options(_),
        ),
        _ => r matches Err(Error::Pattern(_)),
    }
}

/// The separator the host joins path components with.
pub open spec fn host_sep_char(host_win: bool) -> char {
    if host_win {
        '\\'
    } else {
        '/'
    }
}

/// `c` appended to path `p` as a new component, joined by the host's separator
/// unless `p` already ends in one.
pub open spec fn push_part(p: Seq<char>, c: Seq<char>, host_win: bool) -> Seq<char> {
    if p.len() > 0 && is_host_sep(p.last(), host_win) {
        p + c
    } else {
        p + seq![host_sep_char(host_win)] + c
    }
}

/// Peel the leading literal segments from `start` into `root`, always leaving at
/// least one segment: the grown root and where the relative remainder starts.
pub open spec fn peel(root: Seq<char>, segs: Seq<PatSegV>, start: nat, host_win: bool) -> (
    Seq<char>,
    nat,
)
    decreases segs.len() - start,
{
    if start + 1 < segs.len() && literal_segment_spec(segs[start as int]) is Some {
        peel(
            push_part(root, lossy_chars(literal_segment_spec(segs[start as int])->Some_0), host_win),
            segs,
            start + 1,
            host_win,
        )
    } else {
        (root, start)
    }
}

/// The index of the first segment at or after `i` that is not a pure literal, or
/// `segs.len()` when every one is.
pub open spec fn first_nonliteral(segs: Seq<PatSegV>, i: nat) -> nat
    decreases segs.len() - i,
{
    if i >= segs.len() {
        segs.len()
    } else if literal_segment_spec(segs[i as int]) is None {
        i
    } else {
        first_nonliteral(segs, i + 1)
    }
}

/// Where peeling from `start` stops: at the first non-literal segment, but never past
/// the last segment, so at least one segment stays in the relative remainder.
pub open spec fn peel_end(segs: Seq<PatSegV>, start: nat) -> nat {
    let f = first_nonliteral(segs, start);
    let cap: nat = if start + 1 >= segs.len() {
        start
    } else {
        (segs.len() - 1) as nat
    };
    if f <= cap {
        f
    } else {
        cap
    }
}

/// `root` with the literal texts of segments `from .. to` appended in order.
pub open spec fn join_literals(root: Seq<char>, segs: Seq<PatSegV>, from: nat, to: nat, host_win: bool) -> Seq<
    char,
>
    decreases to - from,
{
    if from >= to {
        root
    } else {
        join_literals(
            push_part(root, lossy_chars(literal_segment_spec(segs[from as int])->Some_0), host_win),
            segs,
            from + 1,
            to,
            host_win,
        )
    }
}

proof fn lemma_first_nonliteral(segs: Seq<PatSegV>, i: nat)
    ensures
        i <= segs.len() ==> i <= first_nonliteral(segs, i) <= segs.len(),
        forall|j: int| i <= j < first_nonliteral(segs, i) ==> #[trigger] literal_segment_spec(segs[j]) is Some,
    decreases segs.len() - i,
{
    if i < segs.len() && literal_segment_spec(segs[i as int]) is Some {
        lemma_first_nonliteral(segs, i + 1);
    }
}

/// Peeling in closed form: from `start`, the literal segments up to [`peel_end`] are
/// joined onto the root and the remainder starts there.
pub proof fn lemma_peel_closed_form(root: Seq<char>, segs: Seq<PatSegV>, start: nat, host_win: bool)
    requires
        start <= segs.len(),
    ensures
        peel(root, segs, start, host_win) == (
            join_literals(root, segs, start, peel_end(segs, start), host_win),
            peel_end(segs, start),
        ),
        start <= peel_end(segs, start) <= segs.len(),
        segs.len() > start ==> peel_end(segs, start) < segs.len(),
    decreases segs.len() - start,
{
    lemma_first_nonliteral(segs, start);
    if start + 1 < segs.len() && literal_segment_spec(segs[start as int]) is Some {
        let r2 = push_part(root, lossy_chars(literal_segment_spec(segs[start as int])->Some_0), host_win);
        lemma_peel_closed_form(r2, segs, start + 1, host_win);
        lemma_first_nonliteral(segs, start + 1);
        assert(first_nonliteral(segs, start) == first_nonliteral(segs, start + 1));
        assert(peel_end(segs, start) == peel_end(segs, start + 1));
    }
}

/// A self-rooting pattern lowered, in closed form: its root is the anchor's root with
/// the literal segments from where the anchor's own segments end up to
/// [`peel_end`] joined on, and its relative remainder is the rest of the segments,
/// never empty when there was a segment to keep.
pub proof fn lemma_lowered_closed_form(
    anchor: Anchor,
    segs: Seq<PatSegV>,
    base: Option<Seq<char>>,
    host_win: bool,
)
    requires
        anchor_root(anchor, segs, base, host_win) is Ok,
    ensures
        ({
            let (r0, k0) = anchor_root(anchor, segs, base, host_win)->Ok_0;
            let k = peel_end(segs, k0);
            &&& k0 <= k <= segs.len()
            &&& lowered(anchor, segs, base, host_win) == Ok::<(Seq<char>, Seq<PatSegV>), BuildFailure>(
                (join_literals(r0, segs, k0, k, host_win), segs.skip(k as int)),
            )
        }),
{
    let (r0, k0) = anchor_root(anchor, segs, base, host_win)->Ok_0;
    lemma_peel_closed_form(r0, segs, k0, host_win);
}

/// The root an anchor starts from and how many segments it consumes. `host_win` is
/// whether the host is Windows, where a leading separator is relative to the current
/// drive: there it resolves against the base's own root (drive or UNC share). A
/// drive-relative `X:` pattern resolves against a base on that drive and fails
/// without one.
pub open spec fn anchor_root(
    anchor: Anchor,
    segs: Seq<PatSegV>,
    base: Option<Seq<char>>,
    host_win: bool,
) -> Result<(Seq<char>, nat), BuildFailure> {
    match anchor {
        Anchor::Root => match base {
            Some(b) => if is_absolute_path(b, host_win) {
                Ok((root_of(b, host_win), 0))
            } else {
                Err(BuildFailure::RelativeBase)
            },
            None => if host_win {
                Err(BuildFailure::DriveRelative)
            } else {
                Ok((seq!['/'], 0))
            },
        },
        Anchor::Drive(c) => Ok((seq![c, ':', '\\'], 0)),
        Anchor::DriveRelative(c) => match base {
            Some(b) => if is_drive_absolute(b) && ascii_upper(b[0]) == c {
                Ok((b, 0))
            } else {
                Err(BuildFailure::DriveRelative)
            },
            None => Err(BuildFailure::DriveRelative),
        },
        Anchor::Unc => if segs.len() < 1 || literal_segment_spec(segs[0]) is None {
            Err(BuildFailure::NoServer)
        } else if segs.len() < 2 || literal_segment_spec(segs[1]) is None {
            Err(BuildFailure::NoShare)
        } else {
            Ok(
                (
                    push_part(
                        push_part(
                            seq!['\\', '\\'],
                            lossy_chars(literal_segment_spec(segs[0])->Some_0),
                            host_win,
                        ),
                        lossy_chars(literal_segment_spec(segs[1])->Some_0),
                        host_win,
                    ),
                    2,
                ),
            )
        },
        Anchor::Relative => Ok((seq!['/'], 0)),
    }
}

/// A self-rooting pattern lowered: its physical root and its relative remainder.
pub open spec fn lowered(
    anchor: Anchor,
    segs: Seq<PatSegV>,
    base: Option<Seq<char>>,
    host_win: bool,
) -> Result<(Seq<char>, Seq<PatSegV>), BuildFailure> {
    match anchor_root(anchor, segs, base, host_win) {
        Err(f) => Err(f),
        Ok((r, s)) => {
            let (root, k) = peel(r, segs, s, host_win);
            Ok((root, segs.skip(k as int)))
        },
    }
}

fn push_part_exec(root: &mut Vec<char>, c: &Vec<char>, host_win: bool)
    ensures
        final(root)@ == push_part(old(root)@, c@, host_win),
{
    if root.len() == 0 || !(root[root.len() - 1] == '/' || (host_win && root[root.len() - 1]
        == '\\')) {
        root.push(if host_win {
            '\\'
        } else {
            '/'
        });
    }
    let mut i: usize = 0;
    let ghost start = root@;
    while i < c.len()
        invariant
            i <= c@.len(),
            root@ == start + c@.take(i as int),
        decreases c@.len() - i,
    {
        root.push(c[i]);
        i += 1;
        assert(root@ =~= start + c@.take(i as int));
    }
    assert(c@.take(c@.len() as int) =~= c@);
    assert(root@ =~= push_part(old(root)@, c@, host_win));
}

/// If segment `idx` is a pure-literal `Match`, its characters (lossy).
fn literal_segment(segments: &Vec<PatternSegment>, idx: usize) -> (r: Option<Vec<char>>)
    ensures
        idx >= segments@.len() ==> r is None,
        idx < segments@.len() ==> match literal_segment_spec(pat_view(segments@)[idx as int]) {
            Some(cps) => r matches Some(v) && v@ == lossy_chars(cps),
            None => r is None,
        },
{
    if idx >= segments.len() {
        return None;
    }
    match &segments[idx] {
        PatternSegment::Match(seg) => {
            proof {
                lemma_segment_view(*seg);
            }
            match literal_of(seg.as_slice()) {
                Some(cps) => Some(lossy_char_vec(cps.as_slice())),
                None => None,
            }
        },
        PatternSegment::DoubleStar => None,
    }
}

/// The ASCII upper case of a letter.
fn upper_letter(c: char) -> (r: char)
    ensures
        r == ascii_upper(c),
{
    if 'a' <= c && c <= 'z' {
        ((c as u8) - 32) as char
    } else {
        c
    }
}

fn pattern_error(text: &str) -> (r: Error)
    ensures
        r matches Error::Pattern(m) && m@ == text@,
{
    Error::Pattern(String::from_str(text))
}

/// Lower a self-rooting pattern: derive its physical root from the anchor, peel the
/// leading literal segment prefix into that root (always leaving one segment), and
/// return the relative remainder.
fn lower_self_rooting(
    anchor: Anchor,
    pattern: Pattern,
    base: &Option<String>,
    host_win: bool,
) -> (r: Result<(String, Pattern), Error>)
    ensures
        match lowered(
            anchor,
            pat_view(pattern.segments@),
            match base {
                Some(b) => Some(b@),
                None => None,
            },
            host_win,
        ) {
            Ok((root, rel)) => r matches Ok((s, p)) && s@ == root && pat_view(p.segments@) == rel,
            Err(f) => fails_with(r, f),
        },
{
    let ghost segs = pat_view(pattern.segments@);
    let ghost bv = match base {
        Some(b) => Some(b@),
        None => None,
    };
    let mut segments = pattern.segments;
    let mut root: Vec<char> = Vec::new();
    let mut rest_start: usize = 0;
    match anchor {
        Anchor::Root => {
            match base {
                Some(b) => {
                    let bc = chars_of(b.as_str());
                    if !is_absolute_exec(&bc, host_win) {
                        return Err(
                            pattern_error(
                                "a base for a leading-separator pattern must be an absolute path",
                            ),
                        );
                    }
                    root = root_of_exec(&bc, host_win);
                },
                None => {
                    if host_win {
                        return Err(
                            pattern_error(
                                "a leading-separator pattern is current-drive-relative here; supply an absolute base",
                            ),
                        );
                    }
                    root.push('/');
                },
            }
        },
        Anchor::Drive(c) => {
            root.push(c);
            root.push(':');
            root.push('\\');
        },
        Anchor::DriveRelative(c) => {
            let ok = match base {
                Some(b) => {
                    let bc = chars_of(b.as_str());
                    let on_drive = bc.len() >= 3 && (('a' <= bc[0] && bc[0] <= 'z') || ('A'
                        <= bc[0] && bc[0] <= 'Z')) && bc[1] == ':' && (bc[2] == '/' || bc[2]
                        == '\\') && upper_letter(bc[0]) == c;
                    if on_drive {
                        root = bc;
                    }
                    on_drive
                },
                None => false,
            };
            if !ok {
                return Err(
                    pattern_error(
                        "a drive-relative pattern needs a base on its drive; supply an absolute `.base(..)`",
                    ),
                );
            }
        },
        Anchor::Unc => {
            root.push('\\');
            root.push('\\');
            let server = match literal_segment(&segments, 0) {
                Some(v) => v,
                None => {
                    return Err(pattern_error("UNC pattern requires a literal server name"));
                },
            };
            let share = match literal_segment(&segments, 1) {
                Some(v) => v,
                None => {
                    return Err(pattern_error("UNC pattern requires a literal share name"));
                },
            };
            push_part_exec(&mut root, &server, host_win);
            push_part_exec(&mut root, &share, host_win);
            rest_start = 2;
        },
        Anchor::Relative => {
            root.push('/');
        },
    }
    assert(root@ =~= anchor_root(anchor, segs, bv, host_win)->Ok_0.0);
    loop
        invariant
            segs == pat_view(segments@),
            rest_start <= segments@.len() || rest_start == 0,
            anchor_root(anchor, segs, bv, host_win) is Ok,
            peel(root@, segs, rest_start as nat, host_win) == peel(
                anchor_root(anchor, segs, bv, host_win)->Ok_0.0,
                segs,
                anchor_root(anchor, segs, bv, host_win)->Ok_0.1,
                host_win,
            ),
        ensures
            segs == pat_view(segments@),
            rest_start <= segments@.len() || rest_start == 0,
            peel(root@, segs, rest_start as nat, host_win) == (root@, rest_start as nat),
            peel(root@, segs, rest_start as nat, host_win) == peel(
                anchor_root(anchor, segs, bv, host_win)->Ok_0.0,
                segs,
                anchor_root(anchor, segs, bv, host_win)->Ok_0.1,
                host_win,
            ),
        decreases segments@.len() - rest_start,
    {
        if rest_start >= segments.len() || rest_start + 1 >= segments.len() {
            break;
        }
        let lit = match literal_segment(&segments, rest_start) {
            Some(v) => v,
            None => {
                break;
            },
        };
        push_part_exec(&mut root, &lit, host_win);
        rest_start += 1;
    }
    let rel = segments.split_off(rest_start);
    assert(pat_view(rel@) =~= segs.skip(rest_start as int));
    Ok((string_of(root.as_slice()), Pattern { segments: rel }))
}


/// The paths of a list of roots.
pub open spec fn root_paths(rs: Seq<Root>) -> Seq<Seq<char>> {
    Seq::new(rs.len(), |i: int| rs[i].path@)
}

/// The roots after interning every supplied root in order, or `None` when one is
/// relative or climbs with `..`.
pub open spec fn supplied_roots(paths: Seq<Seq<char>>, host_win: bool) -> Option<Seq<Seq<char>>>
    decreases paths.len(),
{
    if paths.len() == 0 {
        Some(Seq::empty())
    } else {
        match supplied_roots(paths.drop_last(), host_win) {
            None => None,
            Some(rs) => if root_key(paths.last(), host_win) is None {
                None
            } else {
                Some(intern_spec(rs, paths.last(), host_win).0)
            },
        }
    }
}

/// Whether one root of the list lies strictly under another.
pub open spec fn has_nesting(rs: Seq<Seq<char>>, host_win: bool) -> bool {
    exists|i: int, j: int|
        0 <= i < rs.len() && 0 <= j < rs.len() && i != j && proper_prefix(
            #[trigger] keys_of(rs, host_win)[i],
            #[trigger] keys_of(rs, host_win)[j],
        )
}

/// The model of a lowered pattern entry.
pub struct EntryV {
    /// The relative segments.
    pub segs: Seq<PatSegV>,
    /// How the pattern text was rooted.
    pub anchor: Anchor,
    /// Its dialect.
    pub dialect: Dialect,
    /// Its effective case rule.
    pub case: CaseSensitivity,
    /// Its emit filter.
    pub emit: Seq<Leaf>,
    /// The roots it applies to.
    pub roots: Seq<usize>,
}

/// The model of a pattern entry.
pub open spec fn entry_view(e: PatternEntry) -> EntryV {
    EntryV {
        segs: e.glob.segs(),
        anchor: e.glob.anchor,
        dialect: e.glob.dialect,
        case: e.glob.case,
        emit: e.emit@,
        roots: e.roots@,
    }
}

/// The models of a list of pattern entries.
pub open spec fn entries_view(s: Seq<PatternEntry>) -> Seq<EntryV> {
    Seq::new(s.len(), |i: int| entry_view(s[i]))
}

/// The lowering state after some patterns: the roots so far, the entries so far, and
/// whether a relative pattern was seen.
pub struct StateV {
    /// The roots so far.
    pub roots: Seq<Seq<char>>,
    /// The lowered entries so far.
    pub entries: Seq<EntryV>,
    /// Whether a relative pattern was seen.
    pub has_relative: bool,
}

/// A pattern's effective case rule: its own override, else the query default, else
/// its dialect's default.
pub open spec fn case_of(p: PendingV, query_default: Option<CaseSensitivity>) -> CaseSensitivity {
    match p.case {
        Some(c) => c,
        None => match query_default {
            Some(c) => c,
            None => default_case_spec(p.dialect),
        },
    }
}

/// `0, 1, .., n - 1`.
pub open spec fn range_seq(n: nat) -> Seq<usize> {
    Seq::new(n, |i: int| i as usize)
}

/// Lower one pattern onto the state. `explicit` is the number of supplied roots,
/// which a relative pattern applies to; a self-rooting pattern applies to its own
/// interned root only.
pub open spec fn step(
    st: StateV,
    p: PendingV,
    base: Option<Seq<char>>,
    query_default: Option<CaseSensitivity>,
    host_win: bool,
    explicit: nat,
) -> Result<StateV, BuildFailure> {
    if !(p.dialect == Dialect::Posix || host_win) {
        Err(BuildFailure::Unsupported)
    } else {
        match parse_spec(p.text, p.dialect) {
            Err(f) => Err(BuildFailure::Parse(f)),
            Ok((a, segs)) => if a == Anchor::Relative {
                Ok(
                    StateV {
                        roots: st.roots,
                        entries: st.entries.push(
                            EntryV {
                                segs,
                                anchor: a,
                                dialect: p.dialect,
                                case: case_of(p, query_default),
                                emit: p.emit,
                                roots: range_seq(explicit),
                            },
                        ),
                        has_relative: true,
                    },
                )
            } else {
                match lowered(a, segs, base, host_win) {
                    Err(f) => Err(f),
                    Ok((root, rel)) => if root_key(root, host_win) is None {
                        Err(BuildFailure::BadRoot)
                    } else {
                        Ok(
                            StateV {
                                roots: intern_spec(st.roots, root, host_win).0,
                                entries: st.entries.push(
                                    EntryV {
                                        segs: rel,
                                        anchor: a,
                                        dialect: p.dialect,
                                        case: case_of(p, query_default),
                                        emit: p.emit,
                                        roots: seq![intern_spec(st.roots, root, host_win).1 as usize],
                                    },
                                ),
                                has_relative: st.has_relative,
                            },
                        )
                    },
                }
            },
        }
    }
}

/// Lower patterns in order, stopping at the first failure.
pub open spec fn steps(
    st0: StateV,
    ps: Seq<PendingV>,
    base: Option<Seq<char>>,
    query_default: Option<CaseSensitivity>,
    host_win: bool,
    explicit: nat,
) -> Result<StateV, BuildFailure>
    decreases ps.len(),
{
    if ps.len() == 0 {
        Ok(st0)
    } else {
        match steps(st0, ps.drop_last(), base, query_default, host_win, explicit) {
            Err(f) => Err(f),
            Ok(st) => step(st, ps.last(), base, query_default, host_win, explicit),
        }
    }
}

/// The state lowering starts from: the supplied roots, no entry yet.
pub open spec fn start_state(rs: Seq<Seq<char>>, host_win: bool) -> StateV {
    StateV { roots: rs, entries: Seq::empty(), has_relative: false }
}

/// What building `b` yields on a host where `host_win` tells whether the `win`
/// dialect is usable (and a leading separator is drive-relative): the lowered state,
/// or the first failure in the order the checks are made.
pub open spec fn build_outcome(b: QueryBuilder, host_win: bool) -> Result<StateV, BuildFailure> {
    if b.pending().len() == 0 {
        Err(BuildFailure::NoPatterns)
    } else if b.opts().ring_capacity == 0 {
        Err(BuildFailure::ZeroRing)
    } else {
        match supplied_roots(b.root_texts(), host_win) {
            None => Err(BuildFailure::BadRoot),
            Some(rs) => if has_nesting(rs, host_win) {
                Err(BuildFailure::NestedRoots)
            } else {
                match steps(
                    start_state(rs, host_win),
                    b.pending(),
                    b.base_text(),
                    b.opts().default_case,
                    host_win,
                    rs.len(),
                ) {
                    Err(f) => Err(f),
                    Ok(st) => if st.has_relative && rs.len() == 0 {
                        Err(BuildFailure::NeedsRoot)
                    } else if st.roots.len() == 0 {
                        Err(BuildFailure::NoRoots)
                    } else {
                        Ok(st)
                    },
                }
            },
        }
    }
}

/// Whether `q` is the query a lowered state and its builder describe.
pub open spec fn query_matches(q: Query, st: StateV, b: QueryBuilder) -> bool {
    &&& root_paths(q.roots@) == st.roots
    &&& entries_view(q.patterns@) == st.entries
    &&& q.descend@ == b.descend_leaves()
    &&& q.result_shape == b.shape()
    &&& q.options == b.opts()
}

/// Whether `r` is what building `b` yields on a host with `host_win`: the query the
/// lowered state describes, or the error its first failure is reported as.
pub open spec fn built_as(r: Result<Query, Error>, b: QueryBuilder, host_win: bool) -> bool {
    match build_outcome(b, host_win) {
        Ok(st) => r matches Ok(q) && query_matches(q, st, b),
        Err(f) => fails_with(r, f),
    }
}

proof fn lemma_supplied_none_extends(p: Seq<Seq<char>>, k: int, host_win: bool)
    requires
        0 <= k <= p.len(),
        supplied_roots(p.take(k), host_win) is None,
    ensures
        supplied_roots(p, host_win) is None,
    decreases p.len() - k,
{
    if k < p.len() {
        assert(p.take(k + 1).drop_last() =~= p.take(k));
        lemma_supplied_none_extends(p, k + 1, host_win);
    } else {
        assert(p.take(k) =~= p);
    }
}

proof fn lemma_steps_err_extends(
    st0: StateV,
    ps: Seq<PendingV>,
    base: Option<Seq<char>>,
    query_default: Option<CaseSensitivity>,
    host_win: bool,
    explicit: nat,
    k: int,
)
    requires
        0 <= k <= ps.len(),
        steps(st0, ps.take(k), base, query_default, host_win, explicit) is Err,
    ensures
        steps(st0, ps, base, query_default, host_win, explicit) == steps(
            st0,
            ps.take(k),
            base,
            query_default,
            host_win,
            explicit,
        ),
    decreases ps.len() - k,
{
    if k < ps.len() {
        assert(ps.take(k + 1).drop_last() =~= ps.take(k));
        lemma_steps_err_extends(st0, ps, base, query_default, host_win, explicit, k + 1);
    } else {
        assert(ps.take(k) =~= ps);
    }
}

/// Intern a root path into the roots list, deduping on its canonical key, and return
/// its index. A relative path, or one with `..`, is refused as an option error.
fn intern_root(roots: &mut Vec<Root>, keys: &mut Vec<Vec<Vec<char>>>, path: &str, host_win: bool) -> (r: Result<
    usize,
    Error,
>)
    requires
        keys_view(old(keys)@) == keys_of(root_paths(old(roots)@), host_win),
    ensures
        keys_view(final(keys)@) == keys_of(root_paths(final(roots)@), host_win),
        match root_key(path@, host_win) {
            None => r matches Err(Error::Options(_)) && final(roots)@ == old(roots)@,
            Some(_) => r matches Ok(i) && root_paths(final(roots)@) == intern_spec(
                root_paths(old(roots)@),
                path@, host_win,
            ).0 && i as nat == intern_spec(root_paths(old(roots)@), path@, host_win).1,
        },
{
    let key = match canon_key(path, host_win) {
        Ok(k) => k,
        Err(e) => {
            return Err(e);
        },
    };
    assert(root_key(path@, host_win) is Some);
    assert(parts_view(key@) == path_components(path@, host_win));
    match find_key(keys, &key) {
        Some(i) => {
            assert(first_from(keys_of(root_paths(roots@), host_win), path_components(path@, host_win), 0) == Some(i as nat));
            Ok(i)
        },
        None => {
            let ghost before = root_paths(roots@);
            let ghost kb = keys_view(keys@);
            keys.push(key);
            roots.push(Root::new(path));
            assert(root_paths(roots@) =~= before.push(path@));
            assert(keys_view(keys@) =~= kb.push(parts_view(key@)));
            assert(keys_view(keys@) =~= keys_of(root_paths(roots@), host_win));
            assert(first_from(keys_of(before, host_win), path_components(path@, host_win), 0) is None);
            Ok(roots.len() - 1)
        },
    }
}

fn index_range(n: usize) -> (r: Vec<usize>)
    ensures
        r@ == range_seq(n as nat),
{
    let mut v: Vec<usize> = Vec::new();
    let mut i: usize = 0;
    while i < n
        invariant
            i <= n,
            v@ == range_seq(i as nat),
        decreases n - i,
    {
        v.push(i);
        i += 1;
        assert(v@ =~= range_seq(i as nat));
    }
    v
}


/// The text of the error for a root nested under another.
pub open spec fn nested_text(outer: Seq<char>, inner: Seq<char>) -> Seq<char> {
    seq!['r', 'o', 'o', 't', ' ', '`'] + inner + "` is nested under root `"@ + outer
        + "`; supply only one"@
}

fn nested_error(outer: &Root, inner: &Root) -> (r: Error)
    ensures
        r matches Error::Options(m) && m@ == nested_text(outer.path@, inner.path@),
{
    let a = "root `";
    let b = "` is nested under root `";
    let c = "`; supply only one";
    proof {
        reveal_strlit("root `");
    }
    let mut m = String::from_str(a);
    m.append(inner.path.as_str());
    m.append(b);
    m.append(outer.path.as_str());
    m.append(c);
    assert(a@ =~= seq!['r', 'o', 'o', 't', ' ', '`']);
    assert(m@ =~= nested_text(outer.path@, inner.path@));
    Error::Options(m)
}

/// The text of the error for a dialect this host cannot use.
pub open spec fn unsupported_text(d: Dialect) -> Seq<char> {
    "dialect `"@ + dialect_id(d) + "` is not supported on this platform"@
}

fn unsupported_error(d: Dialect) -> (r: Error)
    ensures
        r matches Error::Pattern(m) && m@ == unsupported_text(d),
{
    let a = "dialect `";
    let b = "` is not supported on this platform";
    let mut m = String::from_str(a);
    m.append(d.id());
    m.append(b);
    assert(m@ =~= unsupported_text(d));
    Error::Pattern(m)
}


/// The text of an optional string.
pub open spec fn base_view(b: Option<String>) -> Option<Seq<char>> {
    match b {
        Some(x) => Some(x@),
        None => None,
    }
}

/// Intern every supplied root in order.
fn intern_supplied(texts: &Vec<String>, host_win: bool) -> (r: Result<(Vec<Root>, Vec<Vec<Vec<char>>>), Error>)
    ensures
        match supplied_roots(texts_view(texts@), host_win) {
            Some(rs) => r matches Ok((roots, keys)) && root_paths(roots@) == rs && keys_view(keys@)
                == keys_of(rs, host_win),
            None => r matches Err(Error::Options(_)),
        },
{
    let mut roots: Vec<Root> = Vec::new();
    let mut keys: Vec<Vec<Vec<char>>> = Vec::new();
    let ghost tv = texts_view(texts@);
    assert(roots@ =~= Seq::<Root>::empty());
    assert(root_paths(roots@) =~= Seq::<Seq<char>>::empty());
    assert(keys_view(keys@) =~= keys_of(root_paths(roots@), host_win));
    assert(tv.take(0) =~= Seq::<Seq<char>>::empty());
    let mut i: usize = 0;
    while i < texts.len()
        invariant
            i <= texts@.len(),
            tv == texts_view(texts@),
            keys_view(keys@) == keys_of(root_paths(roots@), host_win),
            supplied_roots(tv.take(i as int), host_win) == Some(root_paths(roots@)),
        decreases texts@.len() - i,
    {
        assert(tv.take(i + 1).drop_last() =~= tv.take(i as int));
        assert(tv.take(i + 1).last() == tv[i as int]);
        match intern_root(&mut roots, &mut keys, texts[i].as_str(), host_win) {
            Ok(_) => {},
            Err(e) => {
                proof {
                    lemma_supplied_none_extends(tv, i + 1, host_win);
                }
                return Err(e);
            },
        }
        i += 1;
    }
    assert(tv.take(texts@.len() as int) =~= tv);
    Ok((roots, keys))
}

/// Refuse a root nested under another one of the list.
fn check_nesting(roots: &Vec<Root>, keys: &Vec<Vec<Vec<char>>>, host_win: bool) -> (r: Result<(), Error>)
    requires
        keys_view(keys@) == keys_of(root_paths(roots@), host_win),
    ensures
        r is Ok <==> !has_nesting(root_paths(roots@), host_win),
        r is Err ==> r matches Err(Error::Options(_)),
{
    let ghost rs = root_paths(roots@);
    let n = roots.len();
    assert(keys@.len() == keys_view(keys@).len());
    let mut a: usize = 0;
    while a < n
        invariant
            a <= n,
            n == roots@.len(),
            n == keys@.len(),
            rs == root_paths(roots@),
            keys_view(keys@) == keys_of(rs, host_win),
            forall|x: int, y: int|
                0 <= x < a && 0 <= y < rs.len() && x != y ==> !proper_prefix(
                    #[trigger] keys_of(rs, host_win)[x],
                    #[trigger] keys_of(rs, host_win)[y],
                ),
        decreases n - a,
    {
        let mut c: usize = 0;
        while c < n
            invariant
                a < n,
                c <= n,
                n == roots@.len(),
                n == keys@.len(),
                rs == root_paths(roots@),
                keys_view(keys@) == keys_of(rs, host_win),
                forall|x: int, y: int|
                    0 <= x < a && 0 <= y < rs.len() && x != y ==> !proper_prefix(
                        #[trigger] keys_of(rs, host_win)[x],
                        #[trigger] keys_of(rs, host_win)[y],
                    ),
                forall|y: int|
                    0 <= y < c && a != y ==> !proper_prefix(
                        keys_of(rs, host_win)[a as int],
                        #[trigger] keys_of(rs, host_win)[y],
                    ),
            decreases n - c,
        {
            assert(keys_view(keys@)[a as int] == keys_of(rs, host_win)[a as int]);
            assert(keys_view(keys@)[c as int] == keys_of(rs, host_win)[c as int]);
            if a != c && is_ancestor(&keys[a], &keys[c]) {
                assert(proper_prefix(keys_of(rs, host_win)[a as int], keys_of(rs, host_win)[c as int]));
                assert(has_nesting(rs, host_win));
                return Err(nested_error(&roots[a], &roots[c]));
            }
            c += 1;
        }
        a += 1;
    }
    Ok(())
}

/// Lower one pattern onto the roots and entries.
fn lower_one(
    p: PendingPattern,
    roots: &mut Vec<Root>,
    keys: &mut Vec<Vec<Vec<char>>>,
    entries: &mut Vec<PatternEntry>,
    has_relative: &mut bool,
    base: &Option<String>,
    query_default: Option<CaseSensitivity>,
    host_win: bool,
    explicit: usize,
) -> (r: Result<(), Error>)
    requires
        keys_view(old(keys)@) == keys_of(root_paths(old(roots)@), host_win),
    ensures
        keys_view(final(keys)@) == keys_of(root_paths(final(roots)@), host_win),
        match step(
            StateV {
                roots: root_paths(old(roots)@),
                entries: entries_view(old(entries)@),
                has_relative: *old(has_relative),
            },
            pending_view(p),
            base_view(*base),
            query_default,
            host_win,
            explicit as nat,
        ) {
            Ok(st) => r is Ok && st == (StateV {
                roots: root_paths(final(roots)@),
                entries: entries_view(final(entries)@),
                has_relative: *final(has_relative),
            }),
            Err(f) => fails_with(r, f),
        },
{
    let ghost pw = pending_view(p);
    let ghost before_entries = entries_view(entries@);
    let supported = match p.dialect {
        Dialect::Posix => true,
        Dialect::Win => host_win,
    };
    if !supported {
        return Err(unsupported_error(p.dialect));
    }
    let parsed = match parse(p.text.as_str(), p.dialect) {
        Ok(x) => x,
        Err(e) => {
            return Err(e);
        },
    };
    let case = match p.case {
        Some(c) => c,
        None => match query_default {
            Some(c) => c,
            None => p.dialect.default_case(),
        },
    };
    assert(case == case_of(pw, query_default));
    match parsed.anchor {
        Anchor::Relative => {
            let idxs = index_range(explicit);
            let entry = PatternEntry {
                glob: CompiledPattern {
                    pattern: parsed.pattern,
                    anchor: Anchor::Relative,
                    dialect: p.dialect,
                    case,
                },
                emit: p.emit,
                roots: idxs,
            };
            entries.push(entry);
            *has_relative = true;
            assert(entries_view(entries@) =~= before_entries.push(entry_view(entry)));
            Ok(())
        },
        other => {
            let (root_s, rel) = match lower_self_rooting(other, parsed.pattern, base, host_win) {
                Ok(x) => x,
                Err(e) => {
                    return Err(e);
                },
            };
            let idx = match intern_root(roots, keys, root_s.as_str(), host_win) {
                Ok(x) => x,
                Err(e) => {
                    return Err(e);
                },
            };
            let mut one: Vec<usize> = Vec::new();
            one.push(idx);
            let entry = PatternEntry {
                glob: CompiledPattern { pattern: rel, anchor: other, dialect: p.dialect, case },
                emit: p.emit,
                roots: one,
            };
            entries.push(entry);
            assert(one@ =~= seq![idx]);
            assert(entries_view(entries@) =~= before_entries.push(entry_view(entry)));
            Ok(())
        },
    }
}

/// Lower every pattern in order, stopping at the first failure.
#[verifier::rlimit(40)]
fn lower_all(
    pendings: Vec<PendingPattern>,
    roots: &mut Vec<Root>,
    keys: &mut Vec<Vec<Vec<char>>>,
    base: &Option<String>,
    query_default: Option<CaseSensitivity>,
    host_win: bool,
    explicit: usize,
) -> (r: Result<(Vec<PatternEntry>, bool), Error>)
    requires
        keys_view(old(keys)@) == keys_of(root_paths(old(roots)@), host_win),
    ensures
        keys_view(final(keys)@) == keys_of(root_paths(final(roots)@), host_win),
        match steps(
            start_state(root_paths(old(roots)@), host_win),
            pendings_view(pendings@),
            base_view(*base),
            query_default,
            host_win,
            explicit as nat,
        ) {
            Ok(st) => r matches Ok((es, hr)) && st == (StateV {
                roots: root_paths(final(roots)@),
                entries: entries_view(es@),
                has_relative: hr,
            }),
            Err(f) => fails_with(r, f),
        },
{
    let ghost pv = pendings_view(pendings@);
    let ghost st0 = start_state(root_paths(roots@), host_win);
    let ghost bv = base_view(*base);
    let mut entries: Vec<PatternEntry> = Vec::new();
    let mut has_relative = false;
    let mut pend = pendings;
    let n = pend.len();
    assert(pv.take(0) =~= Seq::<PendingV>::empty());
    assert(entries_view(entries@) =~= Seq::<EntryV>::empty());
    assert(pendings_view(pend@) =~= pv.skip(0));
    let mut k: usize = 0;
    while k < n
        invariant
            k <= n,
            n == pv.len(),
            bv == base_view(*base),
            pv == pendings_view(pendings@),
            st0 == start_state(root_paths(old(roots)@), host_win),
            pendings_view(pend@) == pv.skip(k as int),
            pend@.len() == n - k,
            keys_view(keys@) == keys_of(root_paths(roots@), host_win),
            steps(st0, pv.take(k as int), bv, query_default, host_win, explicit as nat) == Ok::<
                StateV,
                BuildFailure,
            >(
                StateV {
                    roots: root_paths(roots@),
                    entries: entries_view(entries@),
                    has_relative,
                },
            ),
        decreases n - k,
    {
        let ghost st = StateV {
            roots: root_paths(roots@),
            entries: entries_view(entries@),
            has_relative,
        };
        let ghost old_pend = pend@;
        proof {
            assert(pv.take(k + 1).drop_last() =~= pv.take(k as int));
            assert(pendings_view(pend@)[0] == pv[k as int]);
        }
        let p = pend.remove(0);
        proof {
            assert forall|j: int| 0 <= j < pend@.len() implies pendings_view(pend@)[j] == pv.skip(
                k + 1,
            )[j] by {
                assert(pend@[j] == old_pend[j + 1]);
                assert(pendings_view(old_pend)[j + 1] == pv.skip(k as int)[j + 1]);
            }
            assert(pendings_view(pend@) =~= pv.skip(k + 1));
            assert(pv.take(k + 1).last() == pending_view(p));
            assert(steps(st0, pv.take(k + 1), bv, query_default, host_win, explicit as nat) == step(
                st,
                pending_view(p),
                bv,
                query_default,
                host_win,
                explicit as nat,
            ));
        }
        let ghost res = step(st, pending_view(p), bv, query_default, host_win, explicit as nat);
        match lower_one(
            p,
            roots,
            keys,
            &mut entries,
            &mut has_relative,
            base,
            query_default,
            host_win,
            explicit,
        ) {
            Ok(()) => {},
            Err(e) => {
                proof {
                    assert(res is Err);
                    let f = res->Err_0;
                    lemma_steps_err_extends(st0, pv, bv, query_default, host_win, explicit as nat, k + 1);
                    assert(steps(st0, pv, bv, query_default, host_win, explicit as nat) == Err::<
                        StateV,
                        BuildFailure,
                    >(f));
                    assert(fails_with(Err::<(), Error>(e), f));
                    match f {
                        BuildFailure::Parse(fault) => {
                            assert(reports(Err::<(Vec<PatternEntry>, bool), Error>(e), fault));
                        },
                        _ => {},
                    }
                }
                return Err(e);
            },
        }
        k += 1;
    }
    assert(pv.take(n as int) =~= pv);
    Ok((entries, has_relative))
}

impl QueryBuilder {
    /// Lower to the core [`Query`] on a host where `host_win` tells whether the `win`
    /// dialect is usable (and a leading separator is drive-relative).
    ///
    /// Relative patterns bind to the supplied roots; each self-rooting pattern
    /// contributes its own root and applies only there, so mixing absolute and
    /// relative patterns is safe.
    pub fn build_for(self, host_win: bool) -> (r: Result<Query, Error>)
        ensures
            built_as(r, self, host_win),
    {
        let ghost b = self;
        let QueryBuilder { roots: texts, base, patterns: pendings, descend, result_shape, options } =
            self;
        if pendings.len() == 0 {
            return Err(pattern_error("query has no patterns"));
        }
        if options.ring_capacity == 0 {
            return Err(Error::Options(String::from_str("ring_capacity must be non-zero")));
        }
        let (mut roots, mut keys) = match intern_supplied(&texts, host_win) {
            Ok(x) => x,
            Err(e) => {
                return Err(e);
            },
        };
        match check_nesting(&roots, &keys, host_win) {
            Ok(()) => {},
            Err(e) => {
                return Err(e);
            },
        }
        let explicit = roots.len();
        let ghost rs = root_paths(roots@);
        let (entries, has_relative) = match lower_all(
            pendings,
            &mut roots,
            &mut keys,
            &base,
            options.default_case,
            host_win,
            explicit,
        ) {
            Ok(x) => x,
            Err(e) => {
                return Err(e);
            },
        };
        if has_relative && explicit == 0 {
            return Err(pattern_error("relative pattern needs a root; call `.root(..)`"));
        }
        if roots.len() == 0 {
            return Err(pattern_error("query has no roots"));
        }
        Ok(Query { roots, patterns: entries, descend, result_shape, options })
    }

    /// Lower to the core [`Query`], compiling every pattern. The outcome is the one
    /// [`build_for`](Self::build_for) gives for this host.
    pub fn build(self) -> (r: Result<Query, Error>)
        ensures
            exists|host_win: bool| #[trigger] built_as(r, self, host_win),
    {
        let host_win = Dialect::Win.is_supported();
        let ghost b = self;
        let r = self.build_for(host_win);
        assert(built_as(r, b, host_win));
        r
    }
}


/// What every lowering state keeps: roots with valid, pairwise distinct keys; the
/// first `explicit` roots are the supplied ones; every entry names roots that
/// exist, a relative entry all supplied roots and a self-rooting entry exactly one.
pub open spec fn state_ok(st: StateV, supplied: Seq<Seq<char>>, host_win: bool) -> bool {
    &&& forall|i: int| 0 <= i < st.roots.len() ==> #[trigger] root_key(st.roots[i], host_win) is Some
    &&& forall|i: int, j: int|
        0 <= i < st.roots.len() && 0 <= j < st.roots.len() && i != j ==> #[trigger] keys_of(
            st.roots, host_win,
        )[i] != #[trigger] keys_of(st.roots, host_win)[j]
    &&& st.roots.len() >= supplied.len()
    &&& st.roots.take(supplied.len() as int) == supplied
    &&& forall|e: int, k: int|
        0 <= e < st.entries.len() && 0 <= k < st.entries[e].roots.len() ==> #[trigger] st.entries[e].roots[k]
            < st.roots.len()
    &&& forall|e: int|
        0 <= e < st.entries.len() ==> (if (#[trigger] st.entries[e]).anchor == Anchor::Relative {
            st.entries[e].roots == range_seq(supplied.len())
        } else {
            st.entries[e].roots.len() == 1
        })
}

proof fn lemma_first_from(ks: Seq<Seq<Seq<char>>>, k: Seq<Seq<char>>, i: int)
    requires
        0 <= i <= ks.len(),
    ensures
        match first_from(ks, k, i) {
            Some(j) => i <= j < ks.len() && ks[j as int] == k,
            None => forall|j: int| i <= j < ks.len() ==> ks[j] != k,
        },
    decreases ks.len() - i,
{
    if i < ks.len() && ks[i] != k {
        lemma_first_from(ks, k, i + 1);
    }
}

proof fn lemma_intern_keeps(rs: Seq<Seq<char>>, path: Seq<char>, host_win: bool)
    requires
        root_key(path, host_win) is Some,
        forall|i: int| 0 <= i < rs.len() ==> #[trigger] root_key(rs[i], host_win) is Some,
        forall|i: int, j: int|
            0 <= i < rs.len() && 0 <= j < rs.len() && i != j ==> #[trigger] keys_of(rs, host_win)[i]
                != #[trigger] keys_of(rs, host_win)[j],
    ensures
        ({
            let (rs2, idx) = intern_spec(rs, path, host_win);
            &&& idx < rs2.len()
            &&& rs2.len() >= rs.len()
            &&& rs2.take(rs.len() as int) == rs
            &&& keys_of(rs2, host_win)[idx as int] == path_components(path, host_win)
            &&& forall|i: int| 0 <= i < rs2.len() ==> #[trigger] root_key(rs2[i], host_win) is Some
            &&& forall|i: int, j: int|
                0 <= i < rs2.len() && 0 <= j < rs2.len() && i != j ==> #[trigger] keys_of(rs2, host_win)[i]
                    != #[trigger] keys_of(rs2, host_win)[j]
        }),
{
    lemma_first_from(keys_of(rs, host_win), path_components(path, host_win), 0);
    let (rs2, idx) = intern_spec(rs, path, host_win);
    assert(rs.take(rs.len() as int) =~= rs);
    if first_from(keys_of(rs, host_win), path_components(path, host_win), 0) is None {
        assert(rs2.take(rs.len() as int) =~= rs);
        assert forall|i: int, j: int|
            0 <= i < rs2.len() && 0 <= j < rs2.len() && i != j implies #[trigger] keys_of(rs2, host_win)[i]
                != #[trigger] keys_of(rs2, host_win)[j] by {
            if i < rs.len() && j < rs.len() {
                assert(keys_of(rs2, host_win)[i] == keys_of(rs, host_win)[i]);
                assert(keys_of(rs2, host_win)[j] == keys_of(rs, host_win)[j]);
            } else if i < rs.len() {
                assert(keys_of(rs2, host_win)[i] == keys_of(rs, host_win)[i]);
            } else {
                assert(keys_of(rs2, host_win)[j] == keys_of(rs, host_win)[j]);
            }
        }
        assert forall|i: int| 0 <= i < rs2.len() implies #[trigger] root_key(rs2[i], host_win) is Some by {
            if i < rs.len() {
                assert(rs2[i] == rs[i]);
            }
        }
    }
}

proof fn lemma_supplied_ok(paths: Seq<Seq<char>>, host_win: bool)
    requires
        supplied_roots(paths, host_win) is Some,
    ensures
        state_ok(start_state(supplied_roots(paths, host_win)->Some_0, host_win), supplied_roots(paths, host_win)->Some_0, host_win),
    decreases paths.len(),
{
    let rs = supplied_roots(paths, host_win)->Some_0;
    if paths.len() > 0 {
        lemma_supplied_ok(paths.drop_last(), host_win);
        lemma_intern_keeps(supplied_roots(paths.drop_last(), host_win)->Some_0, paths.last(), host_win);
    }
    assert(rs.take(rs.len() as int) =~= rs);
}

proof fn lemma_step_ok(
    st: StateV,
    p: PendingV,
    base: Option<Seq<char>>,
    query_default: Option<CaseSensitivity>,
    host_win: bool,
    supplied: Seq<Seq<char>>,
)
    requires
        state_ok(st, supplied, host_win),
        step(st, p, base, query_default, host_win, supplied.len()) is Ok,
    ensures
        state_ok(step(st, p, base, query_default, host_win, supplied.len())->Ok_0, supplied, host_win),
        step(st, p, base, query_default, host_win, supplied.len())->Ok_0.entries.len() == st.entries.len()
            + 1,
{
    let st2 = step(st, p, base, query_default, host_win, supplied.len())->Ok_0;
    let (a, segs) = parse_spec(p.text, p.dialect)->Ok_0;
    if a == Anchor::Relative {
        assert(st2.roots == st.roots);
        assert forall|e: int, k: int|
            0 <= e < st2.entries.len() && 0 <= k < st2.entries[e].roots.len() implies #[trigger] st2.entries[e].roots[k]
                < st2.roots.len() by {
            if e == st.entries.len() {
                assert(st2.entries[e].roots == range_seq(supplied.len()));
            } else {
                assert(st2.entries[e] == st.entries[e]);
            }
        }
        assert forall|e: int| 0 <= e < st2.entries.len() implies (if (#[trigger] st2.entries[e]).anchor
            == Anchor::Relative {
            st2.entries[e].roots == range_seq(supplied.len())
        } else {
            st2.entries[e].roots.len() == 1
        }) by {
            if e < st.entries.len() {
                assert(st2.entries[e] == st.entries[e]);
            }
        }
    } else {
        let (root, rel) = lowered(a, segs, base, host_win)->Ok_0;
        lemma_intern_keeps(st.roots, root, host_win);
        let (rs2, idx) = intern_spec(st.roots, root, host_win);
        assert(st2.roots == rs2);
        assert(rs2.take(supplied.len() as int) =~= rs2.take(st.roots.len() as int).take(
            supplied.len() as int,
        ));
        assert forall|e: int, k: int|
            0 <= e < st2.entries.len() && 0 <= k < st2.entries[e].roots.len() implies #[trigger] st2.entries[e].roots[k]
                < st2.roots.len() by {
            if e < st.entries.len() {
                assert(st2.entries[e] == st.entries[e]);
                assert(st.entries[e].roots[k] < st.roots.len());
            }
        }
        assert forall|e: int| 0 <= e < st2.entries.len() implies (if (#[trigger] st2.entries[e]).anchor
            == Anchor::Relative {
            st2.entries[e].roots == range_seq(supplied.len())
        } else {
            st2.entries[e].roots.len() == 1
        }) by {
            if e < st.entries.len() {
                assert(st2.entries[e] == st.entries[e]);
            }
        }
    }
}

proof fn lemma_steps_ok(
    st0: StateV,
    ps: Seq<PendingV>,
    base: Option<Seq<char>>,
    query_default: Option<CaseSensitivity>,
    host_win: bool,
    supplied: Seq<Seq<char>>,
)
    requires
        state_ok(st0, supplied, host_win),
        st0.entries.len() == 0,
        steps(st0, ps, base, query_default, host_win, supplied.len()) is Ok,
    ensures
        state_ok(steps(st0, ps, base, query_default, host_win, supplied.len())->Ok_0, supplied, host_win),
        steps(st0, ps, base, query_default, host_win, supplied.len())->Ok_0.entries.len() == ps.len(),
    decreases ps.len(),
{
    if ps.len() > 0 {
        lemma_steps_ok(st0, ps.drop_last(), base, query_default, host_win, supplied);
        let st = steps(st0, ps.drop_last(), base, query_default, host_win, supplied.len())->Ok_0;
        lemma_step_ok(st, ps.last(), base, query_default, host_win, supplied);
    }
}

/// A built query is well formed: its roots have valid, pairwise distinct keys (no
/// root is scanned twice), the supplied roots come first and none lies under
/// another, there is one entry per pattern, every entry names existing roots, a
/// relative pattern applies to every supplied root and a self-rooting pattern to
/// exactly one root.
pub proof fn lemma_build_well_formed(b: QueryBuilder, host_win: bool)
    requires
        build_outcome(b, host_win) is Ok,
    ensures
        ({
            let st = build_outcome(b, host_win)->Ok_0;
            let supplied = supplied_roots(b.root_texts(), host_win)->Some_0;
            &&& state_ok(st, supplied, host_win)
            &&& !has_nesting(supplied, host_win)
            &&& st.entries.len() == b.pending().len()
            &&& st.roots.len() > 0
        }),
{
    let supplied = supplied_roots(b.root_texts(), host_win)->Some_0;
    lemma_supplied_ok(b.root_texts(), host_win);
    lemma_steps_ok(
        start_state(supplied, host_win),
        b.pending(),
        b.base_text(),
        b.opts().default_case,
        host_win,
        supplied,
    );
}

/// A supplied root that is relative or climbs with `..` fails the build with an
/// option error, whatever else the builder holds (once it has a pattern and a
/// non-zero ring).
pub proof fn lemma_bad_supplied_root_fails(b: QueryBuilder, host_win: bool, i: int)
    requires
        b.pending().len() > 0,
        b.opts().ring_capacity != 0,
        0 <= i < b.root_texts().len(),
        root_key(b.root_texts()[i], host_win) is None,
    ensures
        build_outcome(b, host_win) == Err::<StateV, BuildFailure>(BuildFailure::BadRoot),
{
    lemma_supplied_none_at(b.root_texts(), i, host_win);
}

/// Whether lowered entry `e` is what pattern `p` lowers to against the roots `roots`:
/// its case rule, dialect and emit filter; the anchor its text parses to; for a
/// relative pattern its parsed segments, applied to every supplied root; for a
/// self-rooting one the relative remainder of its lowering, applied to exactly one
/// root, which has the key of its lowered root.
pub open spec fn entry_follows(
    e: EntryV,
    p: PendingV,
    roots: Seq<Seq<char>>,
    base: Option<Seq<char>>,
    query_default: Option<CaseSensitivity>,
    host_win: bool,
    explicit: nat,
) -> bool {
    &&& e.case == case_of(p, query_default)
    &&& e.dialect == p.dialect
    &&& e.emit == p.emit
    &&& match parse_spec(p.text, p.dialect) {
        Err(_) => false,
        Ok((a, segs)) => e.anchor == a && if a == Anchor::Relative {
            e.segs == segs && e.roots == range_seq(explicit)
        } else {
            match lowered(a, segs, base, host_win) {
                Err(_) => false,
                Ok((root, rel)) => {
                    &&& e.segs == rel
                    &&& e.roots.len() == 1
                    &&& e.roots[0] < roots.len()
                    &&& path_components(roots[e.roots[0] as int], host_win) == path_components(
                        root,
                        host_win,
                    )
                },
            }
        },
    }
}

proof fn lemma_entry_follows_extends(
    e: EntryV,
    p: PendingV,
    roots: Seq<Seq<char>>,
    roots2: Seq<Seq<char>>,
    base: Option<Seq<char>>,
    query_default: Option<CaseSensitivity>,
    host_win: bool,
    explicit: nat,
)
    requires
        entry_follows(e, p, roots, base, query_default, host_win, explicit),
        roots.len() <= roots2.len(),
        roots2.take(roots.len() as int) == roots,
    ensures
        entry_follows(e, p, roots2, base, query_default, host_win, explicit),
{
    if let Ok((a, segs)) = parse_spec(p.text, p.dialect) {
        if a != Anchor::Relative {
            assert(roots2[e.roots[0] as int] == roots2.take(roots.len() as int)[e.roots[0] as int]);
        }
    }
}

proof fn lemma_intern_index(rs: Seq<Seq<char>>, path: Seq<char>, host_win: bool)
    ensures
        ({
            let (rs2, idx) = intern_spec(rs, path, host_win);
            &&& idx < rs2.len()
            &&& rs.len() <= rs2.len()
            &&& rs2.take(rs.len() as int) == rs
            &&& path_components(rs2[idx as int], host_win) == path_components(path, host_win)
        }),
{
    lemma_first_from(keys_of(rs, host_win), path_components(path, host_win), 0);
    let (rs2, idx) = intern_spec(rs, path, host_win);
    match first_from(keys_of(rs, host_win), path_components(path, host_win), 0) {
        Some(i) => {
            assert(keys_of(rs, host_win)[i as int] == path_components(rs[i as int], host_win));
            assert(rs.take(rs.len() as int) =~= rs);
        },
        None => {
            assert(rs.push(path).take(rs.len() as int) =~= rs);
        },
    }
}

#[verifier::rlimit(60)]
proof fn lemma_steps_entries(
    st0: StateV,
    ps: Seq<PendingV>,
    base: Option<Seq<char>>,
    query_default: Option<CaseSensitivity>,
    host_win: bool,
    explicit: nat,
)
    ensures
        steps(st0, ps, base, query_default, host_win, explicit) matches Ok(st) ==> {
            &&& st.entries.len() == st0.entries.len() + ps.len()
            &&& st.entries.take(st0.entries.len() as int) == st0.entries
            &&& st0.roots.len() <= st.roots.len()
            &&& st.roots.take(st0.roots.len() as int) == st0.roots
            &&& st.roots.len() <= usize::MAX ==> forall|k: int|
                0 <= k < ps.len() ==> entry_follows(
                    #[trigger] st.entries[st0.entries.len() + k],
                    ps[k],
                    st.roots,
                    base,
                    query_default,
                    host_win,
                    explicit,
                )
        },
    decreases ps.len(),
{
    if ps.len() > 0 {
        lemma_steps_entries(st0, ps.drop_last(), base, query_default, host_win, explicit);
        if let Ok(st) = steps(st0, ps, base, query_default, host_win, explicit) {
            let prev = steps(st0, ps.drop_last(), base, query_default, host_win, explicit)->Ok_0;
            let p = ps.last();
            let (a, segs) = parse_spec(p.text, p.dialect)->Ok_0;
            if a != Anchor::Relative {
                let (root, rel) = lowered(a, segs, base, host_win)->Ok_0;
                lemma_intern_index(prev.roots, root, host_win);
            } else {
                assert(prev.roots.take(prev.roots.len() as int) =~= prev.roots);
            }
            assert(st.roots.len() >= prev.roots.len());
            assert(st.roots.take(prev.roots.len() as int) == prev.roots);
            assert(st.roots.take(st0.roots.len() as int) =~= prev.roots.take(st0.roots.len() as int));
            assert(st.entries == prev.entries.push(st.entries.last()));
            assert(st.entries.take(st0.entries.len() as int) =~= prev.entries.take(
                st0.entries.len() as int,
            ));
            assert forall|k: int| 0 <= k < ps.len() && st.roots.len() <= usize::MAX implies entry_follows(
                #[trigger] st.entries[st0.entries.len() + k],
                ps[k],
                st.roots,
                base,
                query_default,
                host_win,
                explicit,
            ) by {
                if k < ps.len() - 1 {
                    assert(ps.drop_last()[k] == ps[k]);
                    assert(st.entries[st0.entries.len() + k] == prev.entries[st0.entries.len() + k]);
                    lemma_entry_follows_extends(
                        prev.entries[st0.entries.len() + k],
                        ps[k],
                        prev.roots,
                        st.roots,
                        base,
                        query_default,
                        host_win,
                        explicit,
                    );
                } else {
                    assert(ps[k] == p);
                    let e = st.entries[st0.entries.len() + k];
                    assert(e == st.entries.last());
                    if a != Anchor::Relative {
                        let (root, rel) = lowered(a, segs, base, host_win)->Ok_0;
                        let (rs2, idx) = intern_spec(prev.roots, root, host_win);
                        assert(st.roots == rs2);
                        assert(e.roots == seq![idx as usize]);
                        assert(e.roots[0] as int == idx as int);
                    }
                }
            }
        }
    }
}

/// Each built entry follows the pattern it was added from, in call order: the same
/// dialect and emit filter, and as case rule the pattern's own override, else the
/// query-level default, else the dialect's default.
pub proof fn lemma_built_entries_follow_patterns(r: Result<Query, Error>, b: QueryBuilder, host_win: bool)
    requires
        built_as(r, b, host_win),
        r is Ok,
    ensures
        r->Ok_0.patterns@.len() == b.pending().len(),
        forall|k: int|
            0 <= k < b.pending().len() ==> {
                let g = (#[trigger] r->Ok_0.patterns@[k]).glob;
                &&& g.case == case_of(b.pending()[k], b.opts().default_case)
                &&& g.dialect == b.pending()[k].dialect
                &&& r->Ok_0.patterns@[k].emit@ == b.pending()[k].emit
            },
{
    lemma_build_binds_patterns(r, b, host_win);
    let q = r->Ok_0;
    assert forall|k: int| 0 <= k < b.pending().len() implies {
        let g = (#[trigger] q.patterns@[k]).glob;
        &&& g.case == case_of(b.pending()[k], b.opts().default_case)
        &&& g.dialect == b.pending()[k].dialect
        &&& q.patterns@[k].emit@ == b.pending()[k].emit
    } by {
        assert(entries_view(q.patterns@)[k] == entry_view(q.patterns@[k]));
    }
}

/// How a build binds roots and patterns: the roots have pairwise distinct keys and
/// start with the supplied roots, deduplicated by key in first-occurrence order,
/// none of which lies under another; there is one entry per added pattern, in call
/// order, and each follows its pattern: a relative one with its parsed segments,
/// applied to every supplied root, a self-rooting one with the remainder of its
/// lowering, applied to the one root that has its lowered root's key.
pub proof fn lemma_build_binds_patterns(r: Result<Query, Error>, b: QueryBuilder, host_win: bool)
    requires
        built_as(r, b, host_win),
        r is Ok,
    ensures
        ({
            let q = r->Ok_0;
            let roots = root_paths(q.roots@);
            let supplied = supplied_roots(b.root_texts(), host_win)->Some_0;
            &&& forall|i: int, j: int|
                0 <= i < roots.len() && 0 <= j < roots.len() && i != j ==> #[trigger] keys_of(
                    roots,
                    host_win,
                )[i] != #[trigger] keys_of(roots, host_win)[j]
            &&& roots.take(supplied.len() as int) == supplied
            &&& dedup_in_order(supplied, b.root_texts(), host_win)
            &&& !has_nesting(supplied, host_win)
            &&& q.patterns@.len() == b.pending().len()
            &&& forall|k: int|
                0 <= k < b.pending().len() ==> entry_follows(
                    #[trigger] entries_view(q.patterns@)[k],
                    b.pending()[k],
                    roots,
                    b.base_text(),
                    b.opts().default_case,
                    host_win,
                    supplied.len(),
                )
        }),
{
    let supplied = supplied_roots(b.root_texts(), host_win)->Some_0;
    lemma_build_well_formed(b, host_win);
    lemma_supplied_dedup_in_order(b.root_texts(), host_win);
    lemma_steps_entries(
        start_state(supplied, host_win),
        b.pending(),
        b.base_text(),
        b.opts().default_case,
        host_win,
        supplied.len(),
    );
    let q = r->Ok_0;
    let st = build_outcome(b, host_win)->Ok_0;
    assert(st.roots.len() == q.roots@.len());
    assert(q.roots.len() == q.roots@.len());
    assert forall|k: int| 0 <= k < b.pending().len() implies entry_follows(
        #[trigger] entries_view(q.patterns@)[k],
        b.pending()[k],
        root_paths(q.roots@),
        b.base_text(),
        b.opts().default_case,
        host_win,
        supplied.len(),
    ) by {
        assert(st.entries[0 + k] == entries_view(q.patterns@)[k]);
    }
}

/// Adding one pattern and building: the built query has one entry more than patterns
/// were added before, the earlier entries keep their order, and the last follows the
/// new pattern, with the query-level default case (else the dialect's) as its case
/// rule, its text's anchor, and, when relative, its parsed segments.
pub proof fn lemma_pattern_then_build(
    r: Result<Query, Error>,
    b: QueryBuilder,
    b2: QueryBuilder,
    p: PendingV,
    host_win: bool,
)
    requires
        b2.pending() == b.pending().push(p),
        p.case is None,
        built_as(r, b2, host_win),
        r is Ok,
    ensures
        ({
            let q = r->Ok_0;
            let n = b.pending().len() as int;
            let supplied = supplied_roots(b2.root_texts(), host_win)->Some_0;
            &&& q.patterns@.len() == n + 1
            &&& entry_follows(
                entries_view(q.patterns@)[n],
                p,
                root_paths(q.roots@),
                b2.base_text(),
                b2.opts().default_case,
                host_win,
                supplied.len(),
            )
            &&& q.patterns@[n].glob.case == match b2.opts().default_case {
                Some(c) => c,
                None => default_case_spec(p.dialect),
            }
            &&& forall|k: int|
                0 <= k < n ==> entry_follows(
                    #[trigger] entries_view(q.patterns@)[k],
                    b.pending()[k],
                    root_paths(q.roots@),
                    b2.base_text(),
                    b2.opts().default_case,
                    host_win,
                    supplied.len(),
                )
        }),
{
    lemma_build_binds_patterns(r, b2, host_win);
    let q = r->Ok_0;
    let n = b.pending().len() as int;
    assert(b2.pending()[n] == p);
    assert(entries_view(q.patterns@)[n] == entry_view(q.patterns@[n]));
    assert forall|k: int| 0 <= k < n implies entry_follows(
        #[trigger] entries_view(q.patterns@)[k],
        b.pending()[k],
        root_paths(q.roots@),
        b2.base_text(),
        b2.opts().default_case,
        host_win,
        supplied_roots(b2.root_texts(), host_win)->Some_0.len(),
    ) by {
        assert(b2.pending()[k] == b.pending()[k]);
    }
}

/// Setting `confine_to_roots` changes nothing of a build but that flag: a builder
/// that differs from another only in it builds the same roots, entries, descend
/// filter and result shape, fails the same way, and carries the flag it was given.
/// A new builder carries `false`.
pub proof fn lemma_confine_changes_only_its_flag(
    r1: Result<Query, Error>,
    r2: Result<Query, Error>,
    b: QueryBuilder,
    b2: QueryBuilder,
    c: bool,
    host_win: bool,
)
    requires
        built_as(r1, b, host_win),
        built_as(r2, b2, host_win),
        b2.root_texts() == b.root_texts(),
        b2.base_text() == b.base_text(),
        b2.pending() == b.pending(),
        b2.descend_leaves() == b.descend_leaves(),
        b2.shape() == b.shape(),
        b2.opts() == (Options { confine_to_roots: c, ..b.opts() }),
    ensures
        build_outcome(b2, host_win) == build_outcome(b, host_win),
        r1 is Ok <==> r2 is Ok,
        r2 is Ok ==> {
            &&& root_paths(r2->Ok_0.roots@) == root_paths(r1->Ok_0.roots@)
            &&& entries_view(r2->Ok_0.patterns@) == entries_view(r1->Ok_0.patterns@)
            &&& r2->Ok_0.descend@ == r1->Ok_0.descend@
            &&& r2->Ok_0.result_shape == r1->Ok_0.result_shape
            &&& r2->Ok_0.options == (Options { confine_to_roots: c, ..r1->Ok_0.options })
        },
        default_options().confine_to_roots == false,
{
    assert(build_outcome(b2, host_win) == build_outcome(b, host_win));
}

/// Whether a pattern text, where it parses, is relative (carries no anchor).
pub open spec fn parses_unanchored(p: PendingV) -> bool {
    parse_spec(p.text, p.dialect) matches Ok((a, _)) ==> a == Anchor::Relative
}

proof fn lemma_steps_unanchored(
    st0: StateV,
    ps: Seq<PendingV>,
    base: Option<Seq<char>>,
    query_default: Option<CaseSensitivity>,
    host_win: bool,
    explicit: nat,
)
    requires
        st0.roots.len() == 0,
        forall|k: int| 0 <= k < ps.len() ==> parses_unanchored(#[trigger] ps[k]),
    ensures
        match steps(st0, ps, base, query_default, host_win, explicit) {
            Ok(st) => st.roots.len() == 0 && (ps.len() > 0 ==> st.has_relative),
            Err(f) => f is Unsupported || f is Parse,
        },
    decreases ps.len(),
{
    if ps.len() > 0 {
        assert forall|k: int| 0 <= k < ps.drop_last().len() implies parses_unanchored(
            #[trigger] ps.drop_last()[k],
        ) by {
            assert(ps.drop_last()[k] == ps[k]);
        }
        lemma_steps_unanchored(st0, ps.drop_last(), base, query_default, host_win, explicit);
        assert(parses_unanchored(ps[ps.len() - 1]));
    }
}

/// The refusals of a build, each whatever else the builder holds: no pattern is a
/// pattern error; a zero ring capacity is an option error; a supplied root that is
/// relative or climbs with `..` is an option error; and with no supplied root, a
/// query whose patterns carry no anchor is a pattern error (a relative pattern needs
/// a root, and a pattern that does not parse is a pattern error too).
pub proof fn lemma_build_refusals(r: Result<Query, Error>, b: QueryBuilder, host_win: bool)
    requires
        built_as(r, b, host_win),
    ensures
        b.pending().len() == 0 ==> r matches Err(Error::Pattern(_)),
        b.pending().len() > 0 && b.opts().ring_capacity == 0 ==> r matches Err(Error::Options(_)),
        b.pending().len() > 0 && b.opts().ring_capacity != 0 && (exists|i: int|
            0 <= i < b.root_texts().len() && #[trigger] root_key(b.root_texts()[i], host_win) is None)
            ==> r matches Err(Error::Options(_)),
        b.pending().len() > 0 && b.opts().ring_capacity != 0 && b.root_texts().len() == 0 && (forall|
            k: int,
        | 0 <= k < b.pending().len() ==> parses_unanchored(#[trigger] b.pending()[k])) ==> r matches Err(
            Error::Pattern(_),
        ),
{
    if b.pending().len() > 0 && b.opts().ring_capacity != 0 {
        if exists|i: int|
            0 <= i < b.root_texts().len() && #[trigger] root_key(b.root_texts()[i], host_win) is None {
            let i = choose|i: int|
                0 <= i < b.root_texts().len() && #[trigger] root_key(b.root_texts()[i], host_win) is None;
            lemma_bad_supplied_root_fails(b, host_win, i);
        }
        if b.root_texts().len() == 0 && (forall|k: int|
            0 <= k < b.pending().len() ==> parses_unanchored(#[trigger] b.pending()[k])) {
            assert(supplied_roots(b.root_texts(), host_win) == Some(Seq::<Seq<char>>::empty()));
            lemma_steps_unanchored(
                start_state(Seq::empty(), host_win),
                b.pending(),
                b.base_text(),
                b.opts().default_case,
                host_win,
                0,
            );
            let out = steps(
                start_state(Seq::empty(), host_win),
                b.pending(),
                b.base_text(),
                b.opts().default_case,
                host_win,
                0,
            );
            if let Err(f) = out {
                if let BuildFailure::Parse(fault) = f {
                    assert(reports(r, fault));
                }
            }
        }
    }
}

/// The key a root is deduplicated by (its components on the host), named so the
/// dedup proofs can treat it as a value.
#[verifier::opaque]
pub open spec fn root_id(s: Seq<char>, host_win: bool) -> Seq<Seq<char>> {
    path_components(s, host_win)
}

/// The index of the first path in `paths` keyed `key`, or `paths.len()` when none
/// is.
pub open spec fn first_key_index(paths: Seq<Seq<char>>, key: Seq<Seq<char>>, host_win: bool) -> nat
    decreases paths.len(),
{
    if paths.len() == 0 {
        0
    } else {
        let k = first_key_index(paths.drop_last(), key, host_win);
        if k < paths.len() - 1 {
            k
        } else if root_id(paths.last(), host_win) == key {
            (paths.len() - 1) as nat
        } else {
            paths.len() as nat
        }
    }
}

/// Whether `rs` is `paths` deduplicated by key in first-occurrence order: each root
/// is the first path with its key, every path's key has a root, and the roots come
/// in the order their keys first occur.
pub open spec fn dedup_in_order(rs: Seq<Seq<char>>, paths: Seq<Seq<char>>, host_win: bool) -> bool {
    &&& forall|i: int|
        0 <= i < rs.len() ==> {
            let k = first_key_index(paths, root_id(#[trigger] rs[i], host_win), host_win);
            k < paths.len() && rs[i] == paths[k as int]
        }
    &&& forall|k: int|
        0 <= k < paths.len() ==> exists|i: int|
            0 <= i < rs.len() && root_id(#[trigger] rs[i], host_win) == root_id(#[trigger] paths[k], host_win)
    &&& forall|i: int, j: int|
        0 <= i < j < rs.len() ==> first_key_index(paths, root_id(#[trigger] rs[i], host_win), host_win)
            < first_key_index(paths, root_id(#[trigger] rs[j], host_win), host_win)
}

proof fn lemma_first_key_index(paths: Seq<Seq<char>>, key: Seq<Seq<char>>, host_win: bool)
    ensures
        first_key_index(paths, key, host_win) <= paths.len(),
        first_key_index(paths, key, host_win) < paths.len() ==> root_id(
            paths[first_key_index(paths, key, host_win) as int],
            host_win,
        ) == key,
    decreases paths.len(),
{
    if paths.len() > 0 {
        lemma_first_key_index(paths.drop_last(), key, host_win);
    }
}

proof fn lemma_first_key_index_push(
    p: Seq<Seq<char>>,
    last: Seq<char>,
    key: Seq<Seq<char>>,
    host_win: bool,
)
    ensures
        first_key_index(p.push(last), key, host_win) == if first_key_index(p, key, host_win) < p.len() {
            first_key_index(p, key, host_win)
        } else if root_id(last, host_win) == key {
            p.len()
        } else {
            p.len() + 1
        },
{
    assert(p.push(last).drop_last() =~= p);
    lemma_first_key_index(p, key, host_win);
}

proof fn lemma_dedup_found(
    p: Seq<Seq<char>>,
    last: Seq<char>,
    rs0: Seq<Seq<char>>,
    i0: int,
    host_win: bool,
)
    requires
        dedup_in_order(rs0, p, host_win),
        0 <= i0 < rs0.len(),
        root_id(rs0[i0], host_win) == root_id(last, host_win),
    ensures
        dedup_in_order(rs0, p.push(last), host_win),
{
    let paths = p.push(last);
    assert forall|i: int| 0 <= i < rs0.len() implies first_key_index(
        paths,
        root_id(#[trigger] rs0[i], host_win),
        host_win,
    ) == first_key_index(p, root_id(rs0[i], host_win), host_win) by {
        lemma_first_key_index_push(p, last, root_id(rs0[i], host_win), host_win);
    }
    assert forall|k: int| 0 <= k < paths.len() implies exists|i: int|
        0 <= i < rs0.len() && root_id(#[trigger] rs0[i], host_win) == root_id(#[trigger] paths[k], host_win) by {
        if k < p.len() {
            assert(paths[k] == p[k]);
        } else {
            assert(root_id(rs0[i0], host_win) == root_id(paths[k], host_win));
        }
    }
}

proof fn lemma_dedup_new(p: Seq<Seq<char>>, last: Seq<char>, rs0: Seq<Seq<char>>, host_win: bool)
    requires
        dedup_in_order(rs0, p, host_win),
        forall|i: int| 0 <= i < rs0.len() ==> root_id(#[trigger] rs0[i], host_win) != root_id(last, host_win),
    ensures
        dedup_in_order(rs0.push(last), p.push(last), host_win),
{
    let paths = p.push(last);
    let rs = rs0.push(last);
    let kl = root_id(last, host_win);
    lemma_first_key_index(p, kl, host_win);
    if first_key_index(p, kl, host_win) < p.len() {
        let k = first_key_index(p, kl, host_win) as int;
        let i = choose|i: int| 0 <= i < rs0.len() && root_id(#[trigger] rs0[i], host_win) == root_id(#[trigger] p[k], host_win);
        assert(false);
    }
    lemma_first_key_index_push(p, last, kl, host_win);
    assert(first_key_index(paths, kl, host_win) == p.len());
    assert forall|i: int| 0 <= i < rs0.len() implies first_key_index(
        paths,
        root_id(#[trigger] rs0[i], host_win),
        host_win,
    ) == first_key_index(p, root_id(rs0[i], host_win), host_win) by {
        lemma_first_key_index_push(p, last, root_id(rs0[i], host_win), host_win);
    }
    assert forall|i: int| 0 <= i < rs.len() implies {
        let k = first_key_index(paths, root_id(#[trigger] rs[i], host_win), host_win);
        k < paths.len() && rs[i] == paths[k as int]
    } by {
        if i < rs0.len() {
            assert(rs[i] == rs0[i]);
        }
    }
    assert forall|k: int| 0 <= k < paths.len() implies exists|i: int|
        0 <= i < rs.len() && root_id(#[trigger] rs[i], host_win) == root_id(#[trigger] paths[k], host_win) by {
        if k < p.len() {
            assert(paths[k] == p[k]);
            let i = choose|i: int| 0 <= i < rs0.len() && root_id(#[trigger] rs0[i], host_win) == root_id(#[trigger] p[k], host_win);
            assert(rs[i] == rs0[i]);
        } else {
            assert(rs[rs0.len() as int] == paths[k]);
        }
    }
    assert forall|i: int, j: int| 0 <= i < j < rs.len() implies first_key_index(
        paths,
        root_id(#[trigger] rs[i], host_win),
        host_win,
    ) < first_key_index(paths, root_id(#[trigger] rs[j], host_win), host_win) by {
        assert(rs[i] == rs0[i]);
        if j < rs0.len() {
            assert(rs[j] == rs0[j]);
        }
    }
}

/// The supplied roots are interned in call order: the result is the supplied paths
/// deduplicated by key (so `/data` and `/data/.` are one root), the first occurrence
/// kept and the order of first occurrences preserved.
pub proof fn lemma_supplied_dedup_in_order(paths: Seq<Seq<char>>, host_win: bool)
    requires
        supplied_roots(paths, host_win) is Some,
    ensures
        dedup_in_order(supplied_roots(paths, host_win)->Some_0, paths, host_win),
    decreases paths.len(),
{
    if paths.len() == 0 {
        return;
    }
    let p = paths.drop_last();
    let last = paths.last();
    let rs0 = supplied_roots(p, host_win)->Some_0;
    lemma_supplied_dedup_in_order(p, host_win);
    let kl = path_components(last, host_win);
    lemma_first_from(keys_of(rs0, host_win), kl, 0);
    assert(paths =~= p.push(last));
    match first_from(keys_of(rs0, host_win), kl, 0) {
        Some(i0) => {
            assert(keys_of(rs0, host_win)[i0 as int] == kl);
            assert(root_id(rs0[i0 as int], host_win) == root_id(last, host_win)) by {
                reveal(root_id);
            }
            lemma_dedup_found(p, last, rs0, i0 as int, host_win);
        },
        None => {
            assert forall|i: int| 0 <= i < rs0.len() implies root_id(#[trigger] rs0[i], host_win)
                != root_id(last, host_win) by {
                reveal(root_id);
                assert(keys_of(rs0, host_win)[i] == path_components(rs0[i], host_win));
            }
            lemma_dedup_new(p, last, rs0, host_win);
        },
    }
}

/// The roots of a built query start with the supplied roots, deduplicated by key in
/// first-occurrence order (roots derived from self-rooting patterns follow them).
pub proof fn lemma_built_roots_start_with_supplied(r: Result<Query, Error>, b: QueryBuilder, host_win: bool)
    requires
        built_as(r, b, host_win),
        r is Ok,
    ensures
        ({
            let supplied = supplied_roots(b.root_texts(), host_win)->Some_0;
            &&& root_paths(r->Ok_0.roots@).take(supplied.len() as int) == supplied
            &&& dedup_in_order(supplied, b.root_texts(), host_win)
        }),
{
    lemma_build_well_formed(b, host_win);
    lemma_supplied_dedup_in_order(b.root_texts(), host_win);
}

proof fn lemma_supplied_none_at(paths: Seq<Seq<char>>, i: int, host_win: bool)
    requires
        0 <= i < paths.len(),
        root_key(paths[i], host_win) is None,
    ensures
        supplied_roots(paths, host_win) is None,
    decreases paths.len(),
{
    if i < paths.len() - 1 {
        lemma_supplied_none_at(paths.drop_last(), i, host_win);
    }
}


proof fn lemma_emit_bits_cover(ps: Seq<PatternEntry>, i: int)
    requires
        0 <= i < ps.len(),
    ensures
        emit_bits(ps) & fields_bits(ps[i].emit@) == fields_bits(ps[i].emit@),
    decreases ps.len(),
{
    let rest = emit_bits(ps.drop_last());
    let last = fields_bits(ps.last().emit@);
    if i < ps.len() - 1 {
        lemma_emit_bits_cover(ps.drop_last(), i);
        assert(ps.drop_last()[i] == ps[i]);
        let x = fields_bits(ps[i].emit@);
        assert(rest & x == x ==> (rest | last) & x == x) by (bit_vector);
    } else {
        assert((rest | last) & last == last) by (bit_vector);
    }
}

/// The fetch mask covers every field that any emit filter, the descend filter or the
/// result shape needs, so no filter is ever evaluated on a field left unfetched.
pub proof fn lemma_fetch_covers_filters(q: Query)
    ensures
        fetch_bits(q) & q.result_shape.spec_bits() == q.result_shape.spec_bits(),
        fetch_bits(q) & fields_bits(q.descend@) == fields_bits(q.descend@),
        forall|i: int|
            0 <= i < q.patterns@.len() ==> fetch_bits(q) & #[trigger] fields_bits(q.patterns@[i].emit@)
                == fields_bits(q.patterns@[i].emit@),
{
    let a = q.result_shape.spec_bits();
    let b = fields_bits(q.descend@);
    let c = emit_bits(q.patterns@);
    assert((a | b | c) & a == a) by (bit_vector);
    assert((a | b | c) & b == b) by (bit_vector);
    assert forall|i: int| 0 <= i < q.patterns@.len() implies fetch_bits(q) & #[trigger] fields_bits(
        q.patterns@[i].emit@,
    ) == fields_bits(q.patterns@[i].emit@) by {
        lemma_emit_bits_cover(q.patterns@, i);
        let x = fields_bits(q.patterns@[i].emit@);
        assert(c & x == x ==> (a | b | c) & x == x) by (bit_vector);
    }
}

} // verus!
