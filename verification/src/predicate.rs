//! Declarative predicates: an AND-only vocabulary of signed / set-membership `Leaf`
//! conditions over entry metadata, a flat-conjunction evaluator, and the metadata
//! fetch mask. Name conditions reuse the single-segment matcher, so they honor the
//! same case rules.
use crate::syntax::decode::{decode_str, str_code_points};
use crate::syntax::matcher::{match_segment, seg_matches};
use crate::syntax::{segment_view, token_view, toks_view, CaseSensitivity, CodePoint, Segment, Token, TokenV};
use vstd::prelude::*;

verus! {

/// The coarse kind of a directory entry.
#[derive(Clone, Copy, Debug, PartialEq, Eq, Structural)]
pub enum EntryType {
    /// A regular file.
    File,
    /// A directory.
    Dir,
    /// Anything else (device, socket, fifo, ...).
    Other,
}

/// Which timestamp a [`Leaf::Time`] condition compares.
#[derive(Clone, Copy, Debug, PartialEq, Eq, Structural)]
pub enum TimeField {
    /// Birth / creation time.
    Btime,
    /// Last-modification time.
    Mtime,
    /// Last-access time.
    Atime,
    /// Metadata-change time.
    Ctime,
}

/// A comparison operator for numeric [`Leaf`] conditions.
#[derive(Clone, Copy, Debug, PartialEq, Eq, Structural)]
pub enum Cmp {
    /// `<`
    Lt,
    /// `<=`
    Le,
    /// `==`
    Eq,
    /// `!=`
    Ne,
    /// `>=`
    Ge,
    /// `>`
    Gt,
}

/// The truth of `a op b`.
pub open spec fn op_holds(op: Cmp, a: int, b: int) -> bool {
    match op {
        Cmp::Lt => a < b,
        Cmp::Le => a <= b,
        Cmp::Eq => a == b,
        Cmp::Ne => a != b,
        Cmp::Ge => a >= b,
        Cmp::Gt => a > b,
    }
}

impl Cmp {
    fn apply(self, a: i128, b: i128) -> (r: bool)
        ensures
            r == op_holds(self, a as int, b as int),
    {
        match self {
            Cmp::Lt => a < b,
            Cmp::Le => a <= b,
            Cmp::Eq => a == b,
            Cmp::Ne => a != b,
            Cmp::Ge => a >= b,
            Cmp::Gt => a > b,
        }
    }
}

/// Stat-tier metadata fields a predicate references, driving the engine's lazy
/// fetch. Name and depth are always available and are not tracked here.
#[derive(Clone, Copy, Debug, PartialEq, Eq, Structural)]
pub struct MetaMask {
    bits: u16,
}

impl MetaMask {
    /// File size.
    pub fn size() -> (r: MetaMask)
        ensures
            r.spec_bits() == 1,
    {
        MetaMask { bits: 1 }
    }

    /// Last-modification time.
    pub fn mtime() -> (r: MetaMask)
        ensures
            r.spec_bits() == 2,
    {
        MetaMask { bits: 2 }
    }

    /// Last-access time.
    pub fn atime() -> (r: MetaMask)
        ensures
            r.spec_bits() == 4,
    {
        MetaMask { bits: 4 }
    }

    /// Metadata-change time.
    pub fn ctime() -> (r: MetaMask)
        ensures
            r.spec_bits() == 8,
    {
        MetaMask { bits: 8 }
    }

    /// Birth / creation time.
    pub fn btime() -> (r: MetaMask)
        ensures
            r.spec_bits() == 16,
    {
        MetaMask { bits: 16 }
    }

    /// Entry type.
    pub fn entry_type() -> (r: MetaMask)
        ensures
            r.spec_bits() == 32,
    {
        MetaMask { bits: 32 }
    }

    /// Reparse-point status and tag.
    pub fn reparse() -> (r: MetaMask)
        ensures
            r.spec_bits() == 64,
    {
        MetaMask { bits: 64 }
    }

    /// Attribute bitmask.
    pub fn attrs() -> (r: MetaMask)
        ensures
            r.spec_bits() == 128,
    {
        MetaMask { bits: 128 }
    }

    /// The mask's bits.
    pub closed spec fn spec_bits(self) -> u16 {
        self.bits
    }

    /// The mask's bits.
    pub fn bits(&self) -> (r: u16)
        ensures
            r == self.spec_bits(),
    {
        self.bits
    }

    /// The empty mask.
    pub fn empty() -> (r: MetaMask)
        ensures
            r.spec_bits() == 0,
    {
        MetaMask { bits: 0 }
    }

    /// Every field.
    pub fn all() -> (r: MetaMask)
        ensures
            r.spec_bits() == 0xFF,
    {
        MetaMask { bits: 0xFF }
    }

    /// The fields of either mask.
    pub fn union(self, other: MetaMask) -> (r: MetaMask)
        ensures
            r.spec_bits() == self.spec_bits() | other.spec_bits(),
    {
        MetaMask { bits: self.bits | other.bits }
    }

    /// Whether every field of `other` is in this mask.
    pub fn contains(&self, other: MetaMask) -> (r: bool)
        ensures
            r == (self.spec_bits() & other.spec_bits() == other.spec_bits()),
    {
        self.bits & other.bits == other.bits
    }

    /// Whether the masks share a field.
    pub fn intersects(&self, other: MetaMask) -> (r: bool)
        ensures
            r == (self.spec_bits() & other.spec_bits() != 0),
    {
        self.bits & other.bits != 0
    }

    /// Whether no field is set.
    pub fn is_empty(&self) -> (r: bool)
        ensures
            r == (self.spec_bits() == 0),
    {
        self.bits == 0
    }
}

impl std::ops::BitOr for MetaMask {
    type Output = MetaMask;

    fn bitor(self, rhs: MetaMask) -> (r: MetaMask)
        ensures
            r.spec_bits() == self.spec_bits() | rhs.spec_bits(),
    {
        self.union(rhs)
    }
}

impl vstd::std_specs::ops::BitOrSpecImpl for MetaMask {
    open spec fn obeys_bitor_spec() -> bool {
        true
    }

    open spec fn bitor_req(self, rhs: MetaMask) -> bool {
        true
    }

    closed spec fn bitor_spec(self, rhs: MetaMask) -> MetaMask {
        MetaMask { bits: self.bits | rhs.bits }
    }
}

impl Default for MetaMask {
    fn default() -> (r: MetaMask)
        ensures
            r.spec_bits() == 0,
    {
        MetaMask { bits: 0 }
    }
}

/// The metadata a predicate evaluates against. `name` and `depth` are always
/// present; the remaining fields are populated only when a leaf (or the requested
/// result shape) references them.
#[derive(Clone, Copy, Debug)]
pub struct EntryMeta<'a> {
    /// The entry's own name in code-point space.
    pub name: &'a [CodePoint],
    /// Depth from the traversal root (0 = a root's direct child).
    pub depth: u32,
    /// The entry kind.
    pub entry_type: EntryType,
    /// Whether the entry is a reparse point.
    pub is_reparse: bool,
    /// The reparse tag (0 when not a reparse point).
    pub reparse_tag: u32,
    /// The attribute bitmask (Windows `FILE_ATTRIBUTE_*`; 0 on Unix).
    pub attributes: u32,
    /// File size in bytes.
    pub size: u64,
    /// Birth / creation time.
    pub btime: i64,
    /// Last-modification time.
    pub mtime: i64,
    /// Last-access time.
    pub atime: i64,
    /// Metadata-change time.
    pub ctime: i64,
}

/// The timestamp a field selects.
pub open spec fn time_spec(m: EntryMeta, f: TimeField) -> i64 {
    match f {
        TimeField::Btime => m.btime,
        TimeField::Mtime => m.mtime,
        TimeField::Atime => m.atime,
        TimeField::Ctime => m.ctime,
    }
}

impl<'a> EntryMeta<'a> {
    fn time(&self, field: TimeField) -> (r: i64)
        ensures
            r == time_spec(*self, field),
    {
        match field {
            TimeField::Btime => self.btime,
            TimeField::Mtime => self.mtime,
            TimeField::Atime => self.atime,
            TimeField::Ctime => self.ctime,
        }
    }
}

/// One signed condition over an entry's metadata. A conjunction of these is
/// evaluated with [`eval_all`].
#[derive(Clone, Debug)]
pub enum Leaf {
    /// The name matches a single-segment glob; `negate` inverts the result.
    Name {
        /// The single-segment matcher (literals / `*` / `?` / alternation).
        seg: Segment,
        /// Case rule for the comparison.
        case: CaseSensitivity,
        /// Invert the match.
        negate: bool,
    },
    /// The name matches any glob in the set; `negate` inverts (set non-membership).
    NameInSet {
        /// The alternatives to match against.
        segs: Vec<Segment>,
        /// Case rule for the comparison.
        case: CaseSensitivity,
        /// Invert to set non-membership.
        negate: bool,
    },
    /// The entry is (or, negated, is not) the given type.
    IsType {
        /// The type to test.
        ty: EntryType,
        /// Invert the test.
        negate: bool,
    },
    /// The entry is (or is not) a reparse point.
    IsReparse {
        /// Invert the test.
        negate: bool,
    },
    /// The reparse tag equals (or, negated, differs from) `tag`.
    ReparseTag {
        /// The tag to compare.
        tag: u32,
        /// Invert the test.
        negate: bool,
    },
    /// Every bit in the mask is set in the attributes.
    AttrsAllSet(u32),
    /// Every bit in the mask is clear in the attributes.
    AttrsAllClear(u32),
    /// The size compares to `value` via `op`.
    Size {
        /// The comparison operator.
        op: Cmp,
        /// The size to compare against, in bytes.
        value: u64,
    },
    /// The `field` timestamp compares to `value` via `op`.
    Time {
        /// Which timestamp to compare.
        field: TimeField,
        /// The comparison operator.
        op: Cmp,
        /// The timestamp to compare against.
        value: i64,
    },
    /// The depth compares to `value` via `op`.
    Depth {
        /// The comparison operator.
        op: Cmp,
        /// The depth to compare against.
        value: u32,
    },
}

/// The truth of one leaf for an entry.
pub open spec fn leaf_holds(leaf: Leaf, m: EntryMeta) -> bool {
    match leaf {
        Leaf::Name { seg, case, negate } => seg_matches(segment_view(seg), m.name@, case) != negate,
        Leaf::NameInSet { segs, case, negate } => (exists|i: int|
            0 <= i < segs.len() && seg_matches(segment_view(#[trigger] segs@[i]), m.name@, case))
            != negate,
        Leaf::IsType { ty, negate } => (m.entry_type == ty) != negate,
        Leaf::IsReparse { negate } => m.is_reparse != negate,
        Leaf::ReparseTag { tag, negate } => (m.reparse_tag == tag) != negate,
        Leaf::AttrsAllSet(mask) => m.attributes & mask == mask,
        Leaf::AttrsAllClear(mask) => m.attributes & mask == 0,
        Leaf::Size { op, value } => op_holds(op, m.size as int, value as int),
        Leaf::Time { field, op, value } => op_holds(op, time_spec(m, field) as int, value as int),
        Leaf::Depth { op, value } => op_holds(op, m.depth as int, value as int),
    }
}

/// The truth of a flat conjunction: every leaf holds (vacuously true when empty).
pub open spec fn all_hold(leaves: Seq<Leaf>, m: EntryMeta) -> bool {
    forall|i: int| 0 <= i < leaves.len() ==> leaf_holds(#[trigger] leaves[i], m)
}

/// The stat-tier fields one leaf needs.
pub open spec fn leaf_bits(leaf: Leaf) -> u16 {
    match leaf {
        Leaf::Name { .. } | Leaf::NameInSet { .. } | Leaf::Depth { .. } => 0,
        Leaf::IsType { .. } => 32,
        Leaf::IsReparse { .. } | Leaf::ReparseTag { .. } => 64,
        Leaf::AttrsAllSet(_) | Leaf::AttrsAllClear(_) => 128,
        Leaf::Size { .. } => 1,
        Leaf::Time { field, .. } => match field {
            TimeField::Btime => 16,
            TimeField::Mtime => 2,
            TimeField::Atime => 4,
            TimeField::Ctime => 8,
        },
    }
}

/// The union of the fields a list of leaves needs.
pub open spec fn fields_bits(leaves: Seq<Leaf>) -> u16
    decreases leaves.len(),
{
    if leaves.len() == 0 {
        0
    } else {
        fields_bits(leaves.drop_last()) | leaf_bits(leaves.last())
    }
}

/// The literal tokens of a string.
pub open spec fn lits(s: Seq<char>) -> Seq<TokenV> {
    Seq::new(s.len(), |i: int| TokenV::Literal(s[i] as u32))
}

/// The segment matching exactly the characters of `s`.
pub fn literals(s: &str) -> (r: Segment)
    ensures
        segment_view(r) == lits(s@),
{
    let cps = decode_str(s);
    let mut out: Segment = Vec::new();
    let mut i: usize = 0;
    while i < cps.len()
        invariant
            i <= cps@.len(),
            cps@ == str_code_points(s@),
            toks_view(out@) == lits(s@).take(i as int),
        decreases cps@.len() - i,
    {
        let ghost prev = out@;
        out.push(Token::Literal(cps[i]));
        assert(out@ == prev.push(Token::Literal(cps@[i as int])));
        assert(token_view(Token::Literal(cps@[i as int])) == lits(s@)[i as int]);
        assert(toks_view(out@) =~= toks_view(prev).push(lits(s@)[i as int]));
        i += 1;
        assert(toks_view(out@) =~= lits(s@).take(i as int));
    }
    proof {
        crate::syntax::lemma_segment_view(out);
    }
    assert(lits(s@).take(cps@.len() as int) =~= lits(s@));
    out
}

impl Leaf {
    /// The name equals `name` exactly.
    pub fn name_exact(name: &str, case: CaseSensitivity) -> (r: Leaf)
        ensures
            r matches Leaf::Name { seg, case: c, negate } && segment_view(seg) == lits(name@) && c
                == case && !negate,
    {
        Leaf::Name { seg: literals(name), case, negate: false }
    }

    /// The name matches a compiled single-segment glob.
    pub fn name_glob(seg: Segment, case: CaseSensitivity) -> (r: Leaf)
        ensures
            r == (Leaf::Name { seg, case, negate: false }),
    {
        Leaf::Name { seg, case, negate: false }
    }

    /// The name contains `needle` as a substring.
    pub fn name_contains(needle: &str, case: CaseSensitivity) -> (r: Leaf)
        ensures
            r matches Leaf::Name { seg, case: c, negate } && segment_view(seg) == seq![TokenV::Star]
                + lits(needle@) + seq![TokenV::Star] && c == case && !negate,
    {
        let mut seg: Segment = Vec::new();
        seg.push(Token::Star);
        let cps = decode_str(needle);
        let mut i: usize = 0;
        while i < cps.len()
            invariant
                i <= cps@.len(),
                cps@ == str_code_points(needle@),
                toks_view(seg@) == seq![TokenV::Star] + lits(needle@).take(i as int),
            decreases cps@.len() - i,
        {
            let ghost prev = seg@;
            seg.push(Token::Literal(cps[i]));
            assert(token_view(Token::Literal(cps@[i as int])) == lits(needle@)[i as int]);
            assert(toks_view(seg@) =~= toks_view(prev).push(lits(needle@)[i as int]));
            i += 1;
            assert(toks_view(seg@) =~= seq![TokenV::Star] + lits(needle@).take(i as int));
        }
        seg.push(Token::Star);
        assert(lits(needle@).take(cps@.len() as int) =~= lits(needle@));
        assert(toks_view(seg@) =~= seq![TokenV::Star] + lits(needle@) + seq![TokenV::Star]);
        proof {
            crate::syntax::lemma_segment_view(seg);
        }
        Leaf::Name { seg, case, negate: false }
    }

    /// The name has the given extension (matches `*.<ext>`).
    pub fn name_extension(ext: &str, case: CaseSensitivity) -> (r: Leaf)
        ensures
            r matches Leaf::Name { seg, case: c, negate } && segment_view(seg) == seq![
                TokenV::Star,
                TokenV::Literal('.' as u32),
            ] + lits(ext@) && c == case && !negate,
    {
        let mut seg: Segment = Vec::new();
        seg.push(Token::Star);
        seg.push(Token::Literal(0x2E));
        let cps = decode_str(ext);
        let mut i: usize = 0;
        while i < cps.len()
            invariant
                i <= cps@.len(),
                cps@ == str_code_points(ext@),
                toks_view(seg@) == seq![TokenV::Star, TokenV::Literal('.' as u32)] + lits(ext@).take(i as int),
            decreases cps@.len() - i,
        {
            let ghost prev = seg@;
            seg.push(Token::Literal(cps[i]));
            assert(token_view(Token::Literal(cps@[i as int])) == lits(ext@)[i as int]);
            assert(toks_view(seg@) =~= toks_view(prev).push(lits(ext@)[i as int]));
            i += 1;
            assert(toks_view(seg@) =~= seq![TokenV::Star, TokenV::Literal('.' as u32)] + lits(ext@).take(i as int));
        }
        assert(lits(ext@).take(cps@.len() as int) =~= lits(ext@));
        proof {
            crate::syntax::lemma_segment_view(seg);
        }
        Leaf::Name { seg, case, negate: false }
    }

    /// The name equals any of `names`.
    pub fn name_in_set(names: &[&str], case: CaseSensitivity) -> (r: Leaf)
        ensures
            r matches Leaf::NameInSet { segs, case: c, negate } && segs@.len() == names@.len() && (
            forall|i: int| 0 <= i < names@.len() ==> segment_view(#[trigger] segs@[i]) == lits(
                names@[i]@,
            )) && c == case && !negate,
    {
        let mut segs: Vec<Segment> = Vec::new();
        let mut i: usize = 0;
        while i < names.len()
            invariant
                i <= names@.len(),
                segs@.len() == i,
                forall|j: int| 0 <= j < i ==> segment_view(#[trigger] segs@[j]) == lits(names@[j]@),
            decreases names@.len() - i,
        {
            segs.push(literals(names[i]));
            i += 1;
        }
        Leaf::NameInSet { segs, case, negate: false }
    }
}

/// Evaluate a single leaf against an entry's metadata.
pub fn eval_leaf(leaf: &Leaf, meta: &EntryMeta) -> (r: bool)
    ensures
        r == leaf_holds(*leaf, *meta),
{
    match leaf {
        Leaf::Name { seg, case, negate } => {
            proof {
                crate::syntax::lemma_segment_view(*seg);
            }
            match_segment(seg.as_slice(), meta.name, *case) != *negate
        },
        Leaf::NameInSet { segs, case, negate } => {
            let mut any = false;
            let mut i: usize = 0;
            while i < segs.len()
                invariant
                    i <= segs@.len(),
                    any == exists|j: int|
                        0 <= j < i && seg_matches(segment_view(#[trigger] segs@[j]), meta.name@, *case),
                decreases segs@.len() - i,
            {
                proof {
                    crate::syntax::lemma_segment_view(segs@[i as int]);
                }
                if match_segment(segs[i].as_slice(), meta.name, *case) {
                    any = true;
                }
                i += 1;
            }
            any != *negate
        },
        Leaf::IsType { ty, negate } => (meta.entry_type == *ty) != *negate,
        Leaf::IsReparse { negate } => meta.is_reparse != *negate,
        Leaf::ReparseTag { tag, negate } => (meta.reparse_tag == *tag) != *negate,
        Leaf::AttrsAllSet(mask) => meta.attributes & *mask == *mask,
        Leaf::AttrsAllClear(mask) => meta.attributes & *mask == 0,
        Leaf::Size { op, value } => op.apply(meta.size as i128, *value as i128),
        Leaf::Time { field, op, value } => op.apply(meta.time(*field) as i128, *value as i128),
        Leaf::Depth { op, value } => op.apply(meta.depth as i128, *value as i128),
    }
}

/// Evaluate a flat conjunction: true iff every leaf holds. An empty list is
/// vacuously true.
pub fn eval_all(leaves: &[Leaf], meta: &EntryMeta) -> (r: bool)
    ensures
        r == all_hold(leaves@, *meta),
{
    let mut i: usize = 0;
    while i < leaves.len()
        invariant
            i <= leaves@.len(),
            forall|j: int| 0 <= j < i ==> leaf_holds(#[trigger] leaves@[j], *meta),
        decreases leaves@.len() - i,
    {
        if !eval_leaf(&leaves[i], meta) {
            return false;
        }
        i += 1;
    }
    true
}

fn leaf_fields(leaf: &Leaf) -> (r: MetaMask)
    ensures
        r.spec_bits() == leaf_bits(*leaf),
{
    match leaf {
        Leaf::Name { .. } | Leaf::NameInSet { .. } | Leaf::Depth { .. } => MetaMask::empty(),
        Leaf::IsType { .. } => MetaMask::entry_type(),
        Leaf::IsReparse { .. } | Leaf::ReparseTag { .. } => MetaMask::reparse(),
        Leaf::AttrsAllSet(_) | Leaf::AttrsAllClear(_) => MetaMask::attrs(),
        Leaf::Size { .. } => MetaMask::size(),
        Leaf::Time { field, .. } => match field {
            TimeField::Btime => MetaMask::btime(),
            TimeField::Mtime => MetaMask::mtime(),
            TimeField::Atime => MetaMask::atime(),
            TimeField::Ctime => MetaMask::ctime(),
        },
    }
}

/// The union of stat-tier fields referenced by a conjunction. The engine unions this
/// across every emit list, the descend list, and the requested result shape to
/// decide what to fetch per entry.
pub fn required_fields(leaves: &[Leaf]) -> (r: MetaMask)
    ensures
        r.spec_bits() == fields_bits(leaves@),
{
    let mut acc = MetaMask::empty();
    let mut i: usize = 0;
    while i < leaves.len()
        invariant
            i <= leaves@.len(),
            acc.spec_bits() == fields_bits(leaves@.take(i as int)),
        decreases leaves@.len() - i,
    {
        let f = leaf_fields(&leaves[i]);
        acc = acc.union(f);
        assert(leaves@.take(i + 1).drop_last() =~= leaves@.take(i as int));
        i += 1;
    }
    assert(leaves@.take(leaves@.len() as int) =~= leaves@);
    acc
}

/// A conjunction of two lists holds exactly when each list holds.
pub proof fn lemma_all_hold_append(a: Seq<Leaf>, b: Seq<Leaf>, m: EntryMeta)
    ensures
        all_hold(a + b, m) == (all_hold(a, m) && all_hold(b, m)),
{
    if all_hold(a, m) && all_hold(b, m) {
        assert forall|i: int| 0 <= i < (a + b).len() implies leaf_holds(#[trigger] (a + b)[i], m) by {
            if i < a.len() {
                assert((a + b)[i] == a[i]);
            } else {
                assert((a + b)[i] == b[i - a.len()]);
            }
        }
    }
    if all_hold(a + b, m) {
        assert forall|i: int| 0 <= i < a.len() implies leaf_holds(#[trigger] a[i], m) by {
            assert((a + b)[i] == a[i]);
        }
        assert forall|i: int| 0 <= i < b.len() implies leaf_holds(#[trigger] b[i], m) by {
            assert((a + b)[a.len() + i] == b[i]);
        }
    }
}

/// The fields two lists need together are the union of what each needs.
pub proof fn lemma_fields_append(a: Seq<Leaf>, b: Seq<Leaf>)
    ensures
        fields_bits(a + b) == fields_bits(a) | fields_bits(b),
    decreases b.len(),
{
    if b.len() == 0 {
        assert(a + b =~= a);
        let x = fields_bits(a);
        assert(x | 0u16 == x) by (bit_vector);
    } else {
        lemma_fields_append(a, b.drop_last());
        assert((a + b).drop_last() =~= a + b.drop_last());
        assert((a + b).last() == b.last());
        let x = fields_bits(a);
        let y = fields_bits(b.drop_last());
        let z = leaf_bits(b.last());
        assert((x | y) | z == x | (y | z)) by (bit_vector);
    }
}


/// A time condition reads the timestamp its field names, and nothing else: it holds
/// exactly when that timestamp compares to the value.
pub proof fn lemma_time_leaf_reads_its_field(op: Cmp, value: i64, m: EntryMeta)
    ensures
        leaf_holds(Leaf::Time { field: TimeField::Btime, op, value }, m) == op_holds(
            op,
            m.btime as int,
            value as int,
        ),
        leaf_holds(Leaf::Time { field: TimeField::Mtime, op, value }, m) == op_holds(
            op,
            m.mtime as int,
            value as int,
        ),
        leaf_holds(Leaf::Time { field: TimeField::Atime, op, value }, m) == op_holds(
            op,
            m.atime as int,
            value as int,
        ),
        leaf_holds(Leaf::Time { field: TimeField::Ctime, op, value }, m) == op_holds(
            op,
            m.ctime as int,
            value as int,
        ),
{
}

/// Whether two entries' metadata agree on the name and depth (always present) and on
/// every field the mask `bits` fetches: 1 size, 2 mtime, 4 atime, 8 ctime, 16 btime,
/// 32 entry type, 64 reparse flag and tag, 128 attributes.
pub open spec fn agree_on(m1: EntryMeta, m2: EntryMeta, bits: u16) -> bool {
    &&& m1.name@ == m2.name@
    &&& m1.depth == m2.depth
    &&& bits & 1 != 0 ==> m1.size == m2.size
    &&& bits & 2 != 0 ==> m1.mtime == m2.mtime
    &&& bits & 4 != 0 ==> m1.atime == m2.atime
    &&& bits & 8 != 0 ==> m1.ctime == m2.ctime
    &&& bits & 16 != 0 ==> m1.btime == m2.btime
    &&& bits & 32 != 0 ==> m1.entry_type == m2.entry_type
    &&& bits & 64 != 0 ==> m1.is_reparse == m2.is_reparse && m1.reparse_tag == m2.reparse_tag
    &&& bits & 128 != 0 ==> m1.attributes == m2.attributes
}

proof fn lemma_fields_cover(leaves: Seq<Leaf>, i: int)
    requires
        0 <= i < leaves.len(),
    ensures
        fields_bits(leaves) & leaf_bits(leaves[i]) == leaf_bits(leaves[i]),
    decreases leaves.len(),
{
    let rest = fields_bits(leaves.drop_last());
    let last = leaf_bits(leaves.last());
    if i < leaves.len() - 1 {
        lemma_fields_cover(leaves.drop_last(), i);
        assert(leaves.drop_last()[i] == leaves[i]);
        let x = leaf_bits(leaves[i]);
        assert(rest & x == x ==> (rest | last) & x == x) by (bit_vector);
    } else {
        assert((rest | last) & last == last) by (bit_vector);
    }
}

proof fn lemma_leaf_decided_by_fields(leaf: Leaf, m1: EntryMeta, m2: EntryMeta, bits: u16)
    requires
        agree_on(m1, m2, bits),
        bits & leaf_bits(leaf) == leaf_bits(leaf),
    ensures
        leaf_holds(leaf, m1) == leaf_holds(leaf, m2),
{
    assert(bits & 1u16 == 1u16 ==> bits & 1u16 != 0) by (bit_vector);
    assert(bits & 2u16 == 2u16 ==> bits & 2u16 != 0) by (bit_vector);
    assert(bits & 4u16 == 4u16 ==> bits & 4u16 != 0) by (bit_vector);
    assert(bits & 8u16 == 8u16 ==> bits & 8u16 != 0) by (bit_vector);
    assert(bits & 16u16 == 16u16 ==> bits & 16u16 != 0) by (bit_vector);
    assert(bits & 32u16 == 32u16 ==> bits & 32u16 != 0) by (bit_vector);
    assert(bits & 64u16 == 64u16 ==> bits & 64u16 != 0) by (bit_vector);
    assert(bits & 128u16 == 128u16 ==> bits & 128u16 != 0) by (bit_vector);
}

/// The fields a filter needs are enough to decide it: two entries that agree on the
/// name, the depth and every field of `fields_bits(leaves)` satisfy the conjunction
/// alike, so evaluating it on metadata fetched with that mask gives the answer the
/// full metadata would.
pub proof fn lemma_needed_fields_decide(leaves: Seq<Leaf>, m1: EntryMeta, m2: EntryMeta)
    requires
        agree_on(m1, m2, fields_bits(leaves)),
    ensures
        all_hold(leaves, m1) == all_hold(leaves, m2),
{
    assert forall|i: int| 0 <= i < leaves.len() implies leaf_holds(#[trigger] leaves[i], m1)
        == leaf_holds(leaves[i], m2) by {
        lemma_fields_cover(leaves, i);
        lemma_leaf_decided_by_fields(leaves[i], m1, m2, fields_bits(leaves));
    }
}

/// The literal tokens of a code-point sequence.
pub open spec fn lit_tokens(t: Seq<u32>) -> Seq<TokenV> {
    Seq::new(t.len(), |i: int| TokenV::Literal(t[i]))
}

/// A run of literal tokens matches (case-sensitively) exactly its own code points.
pub proof fn lemma_literal_tokens_match_exactly(t: Seq<u32>, input: Seq<u32>)
    ensures
        seg_matches(lit_tokens(t), input, CaseSensitivity::Sensitive) <==> input == t,
    decreases t.len(),
{
    if t.len() == 0 {
        if input.len() == 0 {
            assert(input =~= t);
        }
    } else {
        assert(lit_tokens(t).drop_first() =~= lit_tokens(t.drop_first()));
        assert(lit_tokens(t)[0] == TokenV::Literal(t[0]));
        lemma_literal_tokens_match_exactly(t.drop_first(), input.drop_first());
        if input.len() > 0 && input[0] == t[0] && input.drop_first() == t.drop_first() {
            assert(input =~= seq![input[0]] + input.drop_first());
            assert(t =~= seq![t[0]] + t.drop_first());
        }
    }
}

/// Literal tokens followed by a `*` match (case-sensitively) exactly the inputs that
/// start with those code points.
proof fn lemma_literal_prefix_star(t: Seq<u32>, input: Seq<u32>)
    ensures
        seg_matches(lit_tokens(t) + seq![TokenV::Star], input, CaseSensitivity::Sensitive) <==> (
        t.len() <= input.len() && input.take(t.len() as int) == t),
    decreases t.len(),
{
    let toks = lit_tokens(t) + seq![TokenV::Star];
    if t.len() == 0 {
        assert(toks =~= seq![TokenV::Star]);
        assert(toks.drop_first() =~= Seq::<TokenV>::empty());
        assert(input.skip(input.len() as int) =~= Seq::<u32>::empty());
        assert(seg_matches(toks.drop_first(), input.skip(input.len() as int), CaseSensitivity::Sensitive));
        assert(input.take(0) =~= t);
    } else {
        assert(toks.drop_first() =~= lit_tokens(t.drop_first()) + seq![TokenV::Star]);
        assert(toks[0] == TokenV::Literal(t[0]));
        lemma_literal_prefix_star(t.drop_first(), input.drop_first());
        if input.len() > 0 && t.len() <= input.len() {
            let head = input.take(t.len() as int);
            assert(input.drop_first().take((t.len() - 1) as int) =~= head.drop_first());
            if head == t {
                assert(head[0] == input[0]);
                assert(head.drop_first() == t.drop_first());
            }
            if input[0] == t[0] && head.drop_first() == t.drop_first() {
                assert(head =~= t) by {
                    assert forall|i: int| 0 <= i < t.len() implies head[i] == t[i] by {
                        if i > 0 {
                            assert(head[i] == head.drop_first()[i - 1]);
                            assert(t[i] == t.drop_first()[i - 1]);
                        }
                    }
                }
            }
        }
    }
}

/// The case-sensitive exact-name condition holds of an entry exactly when the
/// entry's name is the given text.
pub proof fn lemma_name_exact_sensitive(text: Seq<char>, name: Seq<u32>)
    ensures
        seg_matches(lits(text), name, CaseSensitivity::Sensitive) <==> name
            == crate::syntax::decode::str_code_points(text),
{
    let cps = crate::syntax::decode::str_code_points(text);
    assert(lits(text) =~= lit_tokens(cps));
    lemma_literal_tokens_match_exactly(cps, name);
}

/// The case-sensitive extension condition holds of an entry exactly when the
/// entry's name ends with `.` and the extension.
pub proof fn lemma_name_extension_sensitive(ext: Seq<char>, name: Seq<u32>)
    ensures
        seg_matches(seq![TokenV::Star, TokenV::Literal('.' as u32)] + lits(ext), name, CaseSensitivity::Sensitive)
            <==> ({
            let tail = seq!['.' as u32] + crate::syntax::decode::str_code_points(ext);
            tail.len() <= name.len() && name.skip(name.len() - tail.len()) == tail
        }),
{
    let tail = seq!['.' as u32] + crate::syntax::decode::str_code_points(ext);
    let toks = seq![TokenV::Star, TokenV::Literal('.' as u32)] + lits(ext);
    assert(toks.drop_first() =~= lit_tokens(tail));
    assert(toks[0] == TokenV::Star);
    if seg_matches(toks, name, CaseSensitivity::Sensitive) {
        let k = choose|k: int|
            0 <= k <= name.len() && seg_matches(toks.drop_first(), #[trigger] name.skip(k), CaseSensitivity::Sensitive);
        lemma_literal_tokens_match_exactly(tail, name.skip(k));
        assert(k == name.len() - tail.len());
    }
    if tail.len() <= name.len() && name.skip(name.len() - tail.len()) == tail {
        let k = name.len() - tail.len();
        lemma_literal_tokens_match_exactly(tail, name.skip(k));
        assert(seg_matches(toks.drop_first(), name.skip(k), CaseSensitivity::Sensitive));
    }
}

/// The case-sensitive substring condition holds of an entry exactly when the
/// needle occurs in the entry's name as a contiguous run.
pub proof fn lemma_name_contains_sensitive(needle: Seq<char>, name: Seq<u32>)
    ensures
        seg_matches(seq![TokenV::Star] + lits(needle) + seq![TokenV::Star], name, CaseSensitivity::Sensitive)
            <==> exists|k: int|
            0 <= k && k + needle.len() <= name.len() && #[trigger] name.subrange(k, k + needle.len())
                == crate::syntax::decode::str_code_points(needle),
{
    let t = crate::syntax::decode::str_code_points(needle);
    let toks = seq![TokenV::Star] + lits(needle) + seq![TokenV::Star];
    assert(toks.drop_first() =~= lit_tokens(t) + seq![TokenV::Star]);
    assert(toks[0] == TokenV::Star);
    if seg_matches(toks, name, CaseSensitivity::Sensitive) {
        let k = choose|k: int|
            0 <= k <= name.len() && seg_matches(toks.drop_first(), #[trigger] name.skip(k), CaseSensitivity::Sensitive);
        lemma_literal_prefix_star(t, name.skip(k));
        assert(name.subrange(k, k + needle.len()) =~= name.skip(k).take(t.len() as int));
    }
    if exists|k: int|
        0 <= k && k + needle.len() <= name.len() && #[trigger] name.subrange(k, k + needle.len()) == t {
        let k = choose|k: int|
            0 <= k && k + needle.len() <= name.len() && #[trigger] name.subrange(k, k + needle.len()) == t;
        lemma_literal_prefix_star(t, name.skip(k));
        assert(name.subrange(k, k + needle.len()) =~= name.skip(k).take(t.len() as int));
        assert(seg_matches(toks.drop_first(), name.skip(k), CaseSensitivity::Sensitive));
    }
}

} // verus!
