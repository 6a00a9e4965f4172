//! The submit/complete vocabulary: the completion-queue items, the bounded no-drop
//! completion ring they travel on, and the submission queue that steers a running
//! query. Waking and parking across threads is the caller's business; the queues
//! here are plain owned FIFOs with exact contracts.
use crate::error::EntryError;
use crate::predicate::{EntryMeta, EntryType, MetaMask};
use crate::syntax::decode::{lossy_chars, lossy_string};
use crate::syntax::set::indices_where;
use crate::syntax::CodePoint;
use crossbeam_queue::ArrayQueue;
use std::collections::VecDeque;
use vstd::prelude::*;

verus! {

/// A container identity within one query's path tree. Monotonic, non-zero.
#[derive(Clone, Copy, Debug, PartialEq, Eq, Structural, Hash, PartialOrd, Ord)]
pub struct ContainerId(pub u64);

/// A `defer-to-client` decision token. A separate id space from [`ContainerId`]
/// because a deferred entry may be vetoed and never become a container.
#[derive(Clone, Copy, Debug, PartialEq, Eq, Structural, Hash, PartialOrd, Ord)]
pub struct DecisionToken(pub u64);

/// A monotonic non-zero id allocator (one per id space per query).
#[derive(Debug)]
pub struct IdSpace {
    next: u64,
}

impl IdSpace {
    /// The id the next call hands out (0 once the counter has wrapped, when no id is
    /// left).
    pub closed spec fn upcoming(self) -> u64 {
        self.next
    }

    /// A fresh id space starting at 1.
    pub fn new() -> (r: IdSpace)
        ensures
            r.upcoming() == 1,
    {
        IdSpace { next: 1 }
    }

    /// The next raw id: the previous one plus one, never zero. The last id,
    /// `u64::MAX`, is handed out once; after it the counter wraps to 0 and no further
    /// id can be drawn.
    pub fn next_raw(&mut self) -> (r: u64)
        requires
            old(self).upcoming() != 0,
        ensures
            r == old(self).upcoming(),
            r != 0,
            final(self).upcoming() == (if r == u64::MAX {
                0
            } else {
                (r + 1) as u64
            }),
    {
        let v = self.next;
        self.next = if v == u64::MAX {
            0
        } else {
            v + 1
        };
        v
    }

    /// The next container id.
    pub fn next_container(&mut self) -> (r: ContainerId)
        requires
            old(self).upcoming() != 0,
        ensures
            r.0 == old(self).upcoming(),
            r.0 != 0,
            final(self).upcoming() == (if r.0 == u64::MAX {
                0
            } else {
                (r.0 + 1) as u64
            }),
    {
        ContainerId(self.next_raw())
    }

    /// The next decision token.
    pub fn next_decision(&mut self) -> (r: DecisionToken)
        requires
            old(self).upcoming() != 0,
        ensures
            r.0 == old(self).upcoming(),
            r.0 != 0,
            final(self).upcoming() == (if r.0 == u64::MAX {
                0
            } else {
                (r.0 + 1) as u64
            }),
    {
        DecisionToken(self.next_raw())
    }
}

impl Default for IdSpace {
    fn default() -> (r: IdSpace)
        ensures
            r.upcoming() == 1,
    {
        IdSpace::new()
    }
}

/// An owned entry name in the reversible code-point representation.
#[derive(Clone, Debug, PartialEq, Eq)]
pub struct Name {
    units: Vec<CodePoint>,
}

impl View for Name {
    type V = Seq<CodePoint>;

    closed spec fn view(&self) -> Seq<CodePoint> {
        self.units@
    }
}

impl Name {
    /// Wrap a decoded code-point sequence.
    pub fn from_code_points(units: &[CodePoint]) -> (r: Name)
        ensures
            r@ == units@,
    {
        let mut v: Vec<CodePoint> = Vec::new();
        let mut i: usize = 0;
        while i < units.len()
            invariant
                i <= units@.len(),
                v@ == units@.take(i as int),
            decreases units@.len() - i,
        {
            v.push(units[i]);
            i += 1;
            assert(v@ =~= units@.take(i as int));
        }
        assert(units@.take(units@.len() as int) =~= units@);
        Name { units: v }
    }

    /// A copy of this name.
    pub fn duplicate(&self) -> (r: Name)
        ensures
            r@ == self@,
    {
        Name::from_code_points(self.units.as_slice())
    }

    /// The name's code points.
    pub fn code_points(&self) -> (r: &[CodePoint])
        ensures
            r@ == self@,
    {
        self.units.as_slice()
    }

    /// A best-effort `String`, mapping any code point that is not a scalar value to
    /// U+FFFD.
    pub fn to_string_lossy(&self) -> (r: String)
        ensures
            r@ == lossy_chars(self@),
    {
        lossy_string(self.units.as_slice())
    }

    /// The number of code units.
    pub fn len(&self) -> (r: usize)
        ensures
            r == self@.len(),
    {
        self.units.len()
    }

    /// Whether the name is empty.
    pub fn is_empty(&self) -> (r: bool)
        ensures
            r == (self@.len() == 0),
    {
        self.units.len() == 0
    }
}

/// A [`ContainerEnter`]'s name: a named child carries its entry name, a root carries
/// its index into the submitted roots list.
#[derive(Clone, Debug, PartialEq, Eq)]
pub enum ContainerName {
    /// A scanned child directory's own name.
    Entry(Name),
    /// A root: the index into the query's roots list.
    Root(u32),
}

/// Bit `b` of word `w`.
pub open spec fn word_bit(w: u64, b: u64) -> bool {
    (w >> b) & 1u64 == 1u64
}

/// The flat bit sequence of a word list: bit `i` is bit `i % 64` of word `i / 64`.
pub open spec fn bits_of(ws: Seq<u64>) -> Seq<bool> {
    Seq::new(ws.len() * 64, |i: int| word_bit(ws[i / 64], (i % 64) as u64))
}

/// The number of `true` entries.
pub open spec fn ones(s: Seq<bool>) -> nat
    decreases s.len(),
{
    if s.len() == 0 {
        0
    } else {
        ones(s.drop_last()) + if s.last() {
            1nat
        } else {
            0nat
        }
    }
}

/// The indices of the `true` entries, ascending.
pub open spec fn set_indices(s: Seq<bool>) -> Seq<usize> {
    indices_where(s.len(), |i: int| s[i])
}

/// The number of words a mask over `n` patterns holds.
pub open spec fn words_for(n: nat) -> nat {
    if n == 0 {
        1
    } else {
        ((n + 63) / 64) as nat
    }
}

proof fn lemma_set_bit(w: u64, b: u64, c: u64)
    requires
        b < 64,
        c < 64,
    ensures
        word_bit(w | (1u64 << b), c) == (c == b || word_bit(w, c)),
{
    assert(b < 64 && c < 64 ==> (((w | (1u64 << b)) >> c) & 1u64 == 1u64) == (c == b || (w >> c)
        & 1u64 == 1u64)) by (bit_vector);
}

proof fn lemma_test_bit(w: u64, b: u64)
    requires
        b < 64,
    ensures
        (w & (1u64 << b) != 0) == word_bit(w, b),
{
    assert(b < 64 ==> ((w & (1u64 << b) != 0) == ((w >> b) & 1u64 == 1u64))) by (bit_vector);
}

proof fn lemma_zero_word(b: u64)
    requires
        b < 64,
    ensures
        !word_bit(0u64, b),
{
    assert(b < 64 ==> (0u64 >> b) & 1u64 == 0u64) by (bit_vector);
}

/// The count of set bits is the number of indices they sit at.
pub proof fn lemma_ones_is_index_count(s: Seq<bool>)
    ensures
        ones(s) == set_indices(s).len(),
    decreases s.len(),
{
    if s.len() > 0 {
        let t = s.drop_last();
        lemma_ones_is_index_count(t);
        lemma_indices_prefix(s, (s.len() - 1) as nat);
    }
}

proof fn lemma_ones_positive(s: Seq<bool>)
    ensures
        (exists|i: int| 0 <= i < s.len() && s[i]) <==> ones(s) > 0,
    decreases s.len(),
{
    if s.len() > 0 {
        let t = s.drop_last();
        lemma_ones_positive(t);
        if exists|i: int| 0 <= i < t.len() && t[i] {
            let i = choose|i: int| 0 <= i < t.len() && t[i];
            assert(s[i]);
        }
        if exists|i: int| 0 <= i < s.len() && s[i] {
            let i = choose|i: int| 0 <= i < s.len() && s[i];
            if i < s.len() - 1 {
                assert(t[i]);
            }
        }
    }
}

/// A mask's summaries agree: [`PatternMask::any`] is whether
/// [`PatternMask::count`] is positive, and `count` is the length of
/// [`PatternMask::iter`].
pub proof fn lemma_mask_summaries(s: Seq<bool>)
    ensures
        (exists|i: int| 0 <= i < s.len() && s[i]) <==> ones(s) > 0,
        ones(s) == set_indices(s).len(),
{
    lemma_ones_positive(s);
    lemma_ones_is_index_count(s);
}

proof fn lemma_indices_prefix(s: Seq<bool>, n: nat)
    requires
        n <= s.len(),
    ensures
        indices_where(n, |i: int| s[i]) == indices_where(n, |i: int| s.take(n as int)[i]),
    decreases n,
{
    if n > 0 {
        lemma_indices_prefix_gen(s, s.take(n as int), (n - 1) as nat);
    }
    if n > 0 {
        assert(s[n - 1] == s.take(n as int)[n - 1]);
    }
}

proof fn lemma_indices_prefix_gen(s: Seq<bool>, t: Seq<bool>, n: nat)
    requires
        n <= s.len(),
        n <= t.len(),
        forall|i: int| 0 <= i < n ==> s[i] == t[i],
    ensures
        indices_where(n, |i: int| s[i]) == indices_where(n, |i: int| t[i]),
    decreases n,
{
    if n > 0 {
        lemma_indices_prefix_gen(s, t, (n - 1) as nat);
    }
}

/// A growable set of matched-pattern indices. Word-backed so a query is not capped
/// at 64 patterns; sized to the pattern count at creation.
#[derive(Debug, PartialEq, Eq)]
pub struct PatternMask {
    words: Vec<u64>,
}

/// The bits after setting each index of `s` in turn, as [`PatternMask::set`] does.
pub open spec fn after_sets(v: Seq<bool>, s: Seq<usize>) -> Seq<bool>
    decreases s.len(),
{
    if s.len() == 0 {
        v
    } else {
        after_sets(v, s.drop_last()).update(s.last() as int, true)
    }
}

/// A mask's history: starting from a clear mask (as [`PatternMask::new`] gives) and
/// setting the indices of `s` in turn, an index is set exactly when it was set at
/// some point, so [`PatternMask::contains`] answers exactly that.
pub proof fn lemma_mask_history(v: Seq<bool>, s: Seq<usize>)
    requires
        v.len() <= usize::MAX,
        forall|i: int| 0 <= i < v.len() ==> !v[i],
        forall|k: int| 0 <= k < s.len() ==> s[k] < v.len(),
    ensures
        after_sets(v, s).len() == v.len(),
        forall|i: int| 0 <= i < v.len() ==> (#[trigger] after_sets(v, s)[i] <==> s.contains(i as usize)),
    decreases s.len(),
{
    if s.len() > 0 {
        let p = s.drop_last();
        assert forall|k: int| 0 <= k < p.len() implies p[k] < v.len() by {
            assert(p[k] == s[k]);
        }
        lemma_mask_history(v, p);
        assert forall|i: int| 0 <= i < v.len() implies (#[trigger] after_sets(v, s)[i] <==> s.contains(
            i as usize,
        )) by {
            if s.contains(i as usize) && i != s.last() as int {
                let k = choose|k: int| 0 <= k < s.len() && s[k] == i as usize;
                assert(k < s.len() - 1);
                assert(p[k] == i as usize);
            }
            if p.contains(i as usize) {
                let k = choose|k: int| 0 <= k < p.len() && p[k] == i as usize;
                assert(s[k] == i as usize);
            }
            if i == s.last() as int {
                assert(s[s.len() - 1] == i as usize);
            }
        }
    }
}

impl View for PatternMask {
    type V = Seq<bool>;

    closed spec fn view(&self) -> Seq<bool> {
        bits_of(self.words@)
    }
}

impl Clone for PatternMask {
    fn clone(&self) -> (r: PatternMask)
        ensures
            r@ == self@,
    {
        proof {
            use_type_invariant(self);
        }
        PatternMask { words: self.words.clone() }
    }
}

impl PatternMask {
    #[verifier::type_invariant]
    spec fn fits(self) -> bool {
        &&& self.words@.len() >= 1
        &&& self.words@.len() * 64 <= usize::MAX
    }

    /// An empty mask able to hold `num_patterns` bits (at least one word).
    pub fn new(num_patterns: usize) -> (r: PatternMask)
        requires
            num_patterns <= usize::MAX - 63,
        ensures
            r@.len() == words_for(num_patterns as nat) * 64,
            forall|i: int| 0 <= i < r@.len() ==> !r@[i],
    {
        let k: usize = if num_patterns == 0 {
            1
        } else {
            (num_patterns - 1) / 64 + 1
        };
        assert(k == words_for(num_patterns as nat));
        let mut words: Vec<u64> = Vec::new();
        let mut i: usize = 0;
        while i < k
            invariant
                i <= k,
                words@.len() == i,
                forall|j: int| 0 <= j < i ==> words@[j] == 0u64,
            decreases k - i,
        {
            words.push(0u64);
            i += 1;
        }
        let r = PatternMask { words };
        assert forall|i: int| 0 <= i < r@.len() implies !r@[i] by {
            lemma_zero_word((i % 64) as u64);
        }
        r
    }

    /// A mask over `num_patterns` with the given indices set.
    pub fn from_indices(num_patterns: usize, indices: &[usize]) -> (r: PatternMask)
        requires
            num_patterns <= usize::MAX - 63,
            forall|j: int| 0 <= j < indices@.len() ==> indices@[j] < words_for(num_patterns as nat) * 64,
        ensures
            r@.len() == words_for(num_patterns as nat) * 64,
            forall|i: int| 0 <= i < r@.len() ==> (r@[i] <==> indices@.contains(i as usize)),
    {
        let mut m = PatternMask::new(num_patterns);
        let mut k: usize = 0;
        while k < indices.len()
            invariant
                k <= indices@.len(),
                m@.len() == words_for(num_patterns as nat) * 64,
                forall|j: int| 0 <= j < indices@.len() ==> indices@[j] < words_for(num_patterns as nat) * 64,
                forall|i: int| 0 <= i < m@.len() ==> (m@[i] <==> indices@.take(k as int).contains(i as usize)),
            decreases indices@.len() - k,
        {
            let ghost before = m@;
            m.set(indices[k]);
            proof {
                let prefix = indices@.take(k as int);
                let next = indices@.take(k + 1);
                assert(next =~= prefix.push(indices@[k as int]));
                assert forall|i: int| 0 <= i < m@.len() implies (m@[i] <==> next.contains(i as usize)) by {
                    if i == indices@[k as int] as int {
                        assert(next[k as int] == i as usize);
                    } else {
                        assert(m@[i] == before[i]);
                        if next.contains(i as usize) {
                            let t = choose|t: int| 0 <= t < next.len() && next[t] == i as usize;
                            assert(t < k);
                            assert(prefix[t] == i as usize);
                        }
                        if prefix.contains(i as usize) {
                            let t = choose|t: int| 0 <= t < prefix.len() && prefix[t] == i as usize;
                            assert(next[t] == i as usize);
                        }
                    }
                }
            }
            k += 1;
        }
        assert(indices@.take(indices@.len() as int) =~= indices@);
        m
    }

    /// Set bit `index`.
    pub fn set(&mut self, index: usize)
        requires
            index < old(self)@.len(),
        ensures
            final(self)@ == old(self)@.update(index as int, true),
    {
        proof {
            use_type_invariant(&*self);
        }
        let wi = index / 64;
        let b = (index % 64) as u64;
        let w = self.words[wi];
        let ghost before = self.words@;
        let mut ws: Vec<u64> = Vec::new();
        let mut j: usize = 0;
        while j < self.words.len()
            invariant
                before == self.words@,
                j <= before.len(),
                wi < before.len(),
                b < 64,
                w == before[wi as int],
                ws@ == before.update(wi as int, w | (1u64 << b)).take(j as int),
            decreases before.len() - j,
        {
            if j == wi {
                ws.push(w | (1u64 << b));
            } else {
                ws.push(self.words[j]);
            }
            j += 1;
            assert(ws@ =~= before.update(wi as int, w | (1u64 << b)).take(j as int));
        }
        assert(ws@ =~= before.update(wi as int, w | (1u64 << b)));
        self.words = ws;
        proof {
            assert forall|i: int| 0 <= i < self@.len() implies self@[i] == bits_of(before).update(
                index as int,
                true,
            )[i] by {
                if i / 64 == wi as int {
                    lemma_set_bit(w, b, (i % 64) as u64);
                }
            }
            assert(self@ =~= bits_of(before).update(index as int, true));
        }
    }

    /// Whether bit `index` is set (`false` past the mask's width).
    pub fn contains(&self, index: usize) -> (r: bool)
        ensures
            r == (index < self@.len() && self@[index as int]),
    {
        let wi = index / 64;
        if wi < self.words.len() {
            let b = (index % 64) as u64;
            proof {
                lemma_test_bit(self.words@[wi as int], b);
            }
            self.words[wi] & (1u64 << b) != 0
        } else {
            false
        }
    }

    /// Whether any bit is set.
    pub fn any(&self) -> (r: bool)
        ensures
            r == (exists|i: int| 0 <= i < self@.len() && self@[i]),
    {
        proof {
            use_type_invariant(self);
        }
        let n = self.words.len() * 64;
        let mut i: usize = 0;
        while i < n
            invariant
                n == self@.len(),
                i <= n,
                forall|j: int| 0 <= j < i ==> !self@[j],
            decreases n - i,
        {
            if self.contains(i) {
                return true;
            }
            i += 1;
        }
        false
    }

    /// The number of set bits.
    #[verifier::rlimit(40)]
    pub fn count(&self) -> (r: usize)
        ensures
            r == ones(self@),
    {
        proof {
            use_type_invariant(self);
        }
        let n = self.words.len() * 64;
        let mut c: usize = 0;
        let mut i: usize = 0;
        while i < n
            invariant
                n == self@.len(),
                n <= usize::MAX,
                i <= n,
                c == ones(self@.take(i as int)),
                c <= i,
            decreases n - i,
        {
            assert(self@.take(i + 1).drop_last() =~= self@.take(i as int));
            if self.contains(i) {
                c += 1;
            }
            i += 1;
        }
        assert(self@.take(n as int) =~= self@);
        c
    }

    /// The set indices in ascending order.
    pub fn iter(&self) -> (r: Vec<usize>)
        ensures
            r@ == set_indices(self@),
    {
        proof {
            use_type_invariant(self);
        }
        let ghost v = self@;
        let n = self.words.len() * 64;
        let mut out: Vec<usize> = Vec::new();
        let mut i: usize = 0;
        while i < n
            invariant
                n == v.len(),
                v == self@,
                i <= n,
                out@ == indices_where(i as nat, |j: int| v[j]),
            decreases n - i,
        {
            if self.contains(i) {
                out.push(i);
            }
            i += 1;
        }
        out
    }
}

/// The owned metadata carried by a [`Match`] / [`DecisionRequest`]. `present`
/// records which stat-tier fields were actually fetched; name and depth are always
/// valid.
#[derive(Clone, Copy, Debug)]
pub struct EntryMetaOwned {
    /// Which stat-tier fields below are populated.
    pub present: MetaMask,
    /// Depth from the traversal root (0 = a root's direct child).
    pub depth: u32,
    /// The entry kind.
    pub entry_type: EntryType,
    /// Whether the entry is a reparse point.
    pub is_reparse: bool,
    /// The reparse tag (0 when not a reparse point).
    pub reparse_tag: u32,
    /// The attribute bitmask.
    pub attributes: u32,
    /// File size in bytes.
    pub size: u64,
    /// Birth / creation time.
    pub btime: i64,
    /// Last-modification time.
    pub mtime: i64,
    /// Last-access time.
    pub atime: i64,
    /// Metadata-change time.
    pub ctime: i64,
}

/// The snapshot of `m` with `present` recorded.
pub open spec fn owned_of(m: EntryMeta, present: MetaMask) -> EntryMetaOwned {
    EntryMetaOwned {
        present,
        depth: m.depth,
        entry_type: m.entry_type,
        is_reparse: m.is_reparse,
        reparse_tag: m.reparse_tag,
        attributes: m.attributes,
        size: m.size,
        btime: m.btime,
        mtime: m.mtime,
        atime: m.atime,
        ctime: m.ctime,
    }
}

/// The borrowed view of a snapshot over `name`.
pub open spec fn borrowed_of<'a>(o: EntryMetaOwned, name: &'a [CodePoint]) -> EntryMeta<'a> {
    EntryMeta {
        name,
        depth: o.depth,
        entry_type: o.entry_type,
        is_reparse: o.is_reparse,
        reparse_tag: o.reparse_tag,
        attributes: o.attributes,
        size: o.size,
        btime: o.btime,
        mtime: o.mtime,
        atime: o.atime,
        ctime: o.ctime,
    }
}

impl EntryMetaOwned {
    /// Snapshot a borrowed [`EntryMeta`], recording `present` as the fetched fields.
    pub fn from_meta(meta: &EntryMeta, present: MetaMask) -> (r: EntryMetaOwned)
        ensures
            r == owned_of(*meta, present),
    {
        EntryMetaOwned {
            present,
            depth: meta.depth,
            entry_type: meta.entry_type,
            is_reparse: meta.is_reparse,
            reparse_tag: meta.reparse_tag,
            attributes: meta.attributes,
            size: meta.size,
            btime: meta.btime,
            mtime: meta.mtime,
            atime: meta.atime,
            ctime: meta.ctime,
        }
    }

    /// Borrow this snapshot back as an [`EntryMeta`] over `name`.
    pub fn borrow<'a>(&self, name: &'a [CodePoint]) -> (r: EntryMeta<'a>)
        ensures
            r == borrowed_of(*self, name),
    {
        EntryMeta {
            name,
            depth: self.depth,
            entry_type: self.entry_type,
            is_reparse: self.is_reparse,
            reparse_tag: self.reparse_tag,
            attributes: self.attributes,
            size: self.size,
            btime: self.btime,
            mtime: self.mtime,
            atime: self.atime,
            ctime: self.ctime,
        }
    }
}

/// Snapshotting an entry's metadata and borrowing it back over the same name gives
/// the metadata it was taken from.
pub proof fn lemma_meta_round_trip<'a>(m: EntryMeta<'a>, present: MetaMask)
    ensures
        borrowed_of(owned_of(m, present), m.name) == m,
{
}

/// A directory scan begins. Emitted before `id` is ever used as a parent, so FIFO
/// delivery gives enter-before-children.
#[derive(Clone, Debug)]
pub struct ContainerEnter {
    /// This container's id.
    pub id: ContainerId,
    /// The parent container, or `None` for a root.
    pub parent: Option<ContainerId>,
    /// This container's name (entry name, or root index when `parent` is `None`).
    pub name: ContainerName,
}

/// A directory subtree is complete: its refcount reached zero. 1:1 with
/// [`ContainerEnter`], emitted as a bottom-up cascade.
#[derive(Clone, Copy, Debug)]
pub struct ContainerEnd {
    /// The container whose subtree is complete.
    pub id: ContainerId,
}

/// A matching entry, emitted at discovery during the parent's enumeration.
#[derive(Clone, Debug)]
pub struct Match {
    /// The enclosing (parent) container.
    pub container: ContainerId,
    /// The entry's name.
    pub name: Name,
    /// Which patterns matched.
    pub matched: PatternMask,
    /// The requested inline metadata.
    pub meta: EntryMetaOwned,
}

/// A per-entry / per-subtree failure surfaced on the ring rather than aborting the
/// walk. `container` is the enclosing container when known; `root` is the index of
/// the query root whose walk hit the failure, so a multi-root query can tell which
/// root could not be opened.
#[derive(Debug)]
pub struct CqError {
    /// The enclosing container, if the failure is attributable to one.
    pub container: Option<ContainerId>,
    /// The index (into the query's roots) of the root being walked, when known.
    pub root: Option<u32>,
    /// The underlying failure.
    pub error: EntryError,
}

impl CqError {
    /// A failure met while walking query root `root` (an index into the query's
    /// roots), in `container` when one is known.
    pub fn at_root(container: Option<ContainerId>, root: usize, error: EntryError) -> (r: CqError)
        requires
            root <= u32::MAX,
        ensures
            r.container == container,
            r.root == Some(root as u32),
            r.error == error,
    {
        CqError { container, root: Some(root as u32), error }
    }
}

/// Why a descent was declined.
#[derive(Clone, Copy, Debug, PartialEq, Eq, Structural)]
pub enum BlockReason {
    /// A followed link's target lies outside every query root while the query is
    /// confined to its roots (or the target could not be resolved).
    RootEscape,
}

/// A descent the walk declined, reported instead of entering the directory.
#[derive(Debug)]
pub struct Blocked {
    /// The enclosing (parent) container.
    pub container: ContainerId,
    /// The entry that was not descended into.
    pub name: Name,
    /// Why it was not descended into.
    pub reason: BlockReason,
}

/// A `defer-to-client` escalation: the client evaluates the entry on its own thread
/// and answers via [`SqOp::DecisionAnswer`] carrying `token`.
#[derive(Clone, Debug)]
pub struct DecisionRequest {
    /// The correlation token the client echoes in its answer.
    pub token: DecisionToken,
    /// The enclosing container.
    pub container: ContainerId,
    /// The entry's name.
    pub name: Name,
    /// The entry's metadata.
    pub meta: EntryMetaOwned,
}

/// Why the query is terminating.
#[derive(Clone, Copy, Debug, PartialEq, Eq, Structural)]
pub enum TerminalReason {
    /// The traversal ran to completion.
    Completed,
    /// A [`SqOp::Cancel`] was honored.
    Cancelled,
    /// The traversal was stopped by a fatal error; the causing error is delivered in
    /// a [`CqItem::Error`] that precedes this terminal.
    Failed,
}

/// The final CQ item: lands after every item already enqueued (FIFO), acknowledging
/// completion or cancellation.
#[derive(Clone, Copy, Debug)]
pub struct Terminal {
    /// Why the query ended.
    pub reason: TerminalReason,
}

/// One completion-queue item. Owned; popped by value.
#[derive(Debug)]
pub enum CqItem {
    /// A directory scan started.
    ContainerEnter(ContainerEnter),
    /// A matching entry was discovered.
    Match(Match),
    /// A directory subtree completed.
    ContainerEnd(ContainerEnd),
    /// A per-entry or per-directory failure; the walk continues past it. When it is
    /// a fatal error it is the last `Error` before a `Terminal::Failed`.
    Error(CqError),
    /// A `defer-to-client` escalation.
    DecisionRequest(DecisionRequest),
    /// A descent declined under root confinement.
    Blocked(Blocked),
    /// The terminal completion/cancellation marker.
    Terminal(Terminal),
}

/// The client's answer to a [`DecisionRequest`].
#[derive(Clone, Copy, Debug, PartialEq, Eq, Structural)]
pub enum Decision {
    /// Accept the entry (emit / descend as the query would have).
    Accept,
    /// Veto the entry.
    Reject,
}

/// A submission-queue op that steers a running query.
#[derive(Debug)]
pub enum SqOp {
    /// Cancel the running query.
    Cancel,
    /// Answer a `defer-to-client` request.
    DecisionAnswer {
        /// The token from the originating [`DecisionRequest`].
        token: DecisionToken,
        /// The client's decision.
        decision: Decision,
    },
}

/// `crossbeam_queue::ArrayQueue`, carried as an opaque bounded queue.
#[verifier::external_type_specification]
#[verifier::external_body]
#[verifier::reject_recursive_types(T)]
pub struct ExArrayQueue<T>(ArrayQueue<T>);

/// The items an `ArrayQueue` of completion items holds, oldest first.
pub uninterp spec fn queued(q: ArrayQueue<CqItem>) -> Seq<CqItem>;

/// The capacity an `ArrayQueue` of completion items was made with.
pub uninterp spec fn queue_bound(q: ArrayQueue<CqItem>) -> nat;

/// `ArrayQueue::new`: an empty queue of capacity `cap`. The crate panics on a zero
/// capacity and on one whose lap size overflows, which `requires` leaves out.
#[verifier::external_body]
fn queue_new(cap: usize) -> (q: ArrayQueue<CqItem>)
    requires
        0 < cap <= usize::MAX / 2,
    ensures
        queued(q) == Seq::<CqItem>::empty(),
        queue_bound(q) == cap,
{
    ArrayQueue::new(cap)
}

/// `ArrayQueue::push_mut`: with room, the item joins the back; when full it comes
/// back in `Err` and the queue is unchanged.
#[verifier::external_body]
fn queue_push(q: &mut ArrayQueue<CqItem>, item: CqItem) -> (r: Result<(), CqItem>)
    requires
        queued(*old(q)).len() <= queue_bound(*old(q)),
    ensures
        queue_bound(*final(q)) == queue_bound(*old(q)),
        queued(*old(q)).len() < queue_bound(*old(q)) ==> r is Ok && queued(*final(q)) == queued(
            *old(q),
        ).push(item),
        queued(*old(q)).len() == queue_bound(*old(q)) ==> (r matches Err(back) && back == item)
            && queued(*final(q)) == queued(*old(q)),
    no_unwind
{
    q.push_mut(item)
}

/// `ArrayQueue::pop_mut`: the oldest item, or `None` when empty.
#[verifier::external_body]
fn queue_pop(q: &mut ArrayQueue<CqItem>) -> (r: Option<CqItem>)
    ensures
        queue_bound(*final(q)) == queue_bound(*old(q)),
        queued(*old(q)).len() == 0 ==> r is None && queued(*final(q)) == queued(*old(q)),
        queued(*old(q)).len() > 0 ==> r == Some(queued(*old(q))[0]) && queued(*final(q)) == queued(
            *old(q),
        ).drop_first(),
    no_unwind
{
    q.pop_mut()
}

/// `ArrayQueue::len`: the number of queued items.
#[verifier::external_body]
fn queue_len(q: &ArrayQueue<CqItem>) -> (r: usize)
    ensures
        r == queued(*q).len(),
{
    q.len()
}

/// `ArrayQueue::capacity`: the capacity it was made with.
#[verifier::external_body]
fn queue_capacity(q: &ArrayQueue<CqItem>) -> (r: usize)
    ensures
        r == queue_bound(*q),
{
    q.capacity()
}

/// The bounded, no-drop completion ring: a FIFO of owned [`CqItem`]s that hands a
/// pushed item back instead of dropping it when full.
#[derive(Debug)]
pub struct CompletionRing {
    queue: ArrayQueue<CqItem>,
}

impl CompletionRing {
    #[verifier::type_invariant]
    spec fn bounded(self) -> bool {
        &&& 0 < queue_bound(self.queue) <= usize::MAX / 2
        &&& queued(self.queue).len() <= queue_bound(self.queue)
    }

    /// The queued items, oldest first.
    pub closed spec fn items(self) -> Seq<CqItem> {
        queued(self.queue)
    }

    /// The ring's fixed capacity.
    pub closed spec fn bound(self) -> nat {
        queue_bound(self.queue)
    }

    /// A ring holding up to `capacity` items (which must be non-zero).
    pub fn with_capacity(capacity: usize) -> (r: CompletionRing)
        requires
            0 < capacity <= usize::MAX / 2,
        ensures
            r.items() == Seq::<CqItem>::empty(),
            r.bound() == capacity,
    {
        CompletionRing { queue: queue_new(capacity) }
    }

    /// The ring's fixed capacity.
    pub fn capacity(&self) -> (r: usize)
        ensures
            r == self.bound(),
            0 < r <= usize::MAX / 2,
    {
        proof {
            use_type_invariant(self);
        }
        queue_capacity(&self.queue)
    }

    /// The current number of queued items.
    pub fn len(&self) -> (r: usize)
        ensures
            r == self.items().len(),
            r <= self.bound(),
    {
        proof {
            use_type_invariant(self);
        }
        queue_len(&self.queue)
    }

    /// Whether the ring is empty.
    pub fn is_empty(&self) -> (r: bool)
        ensures
            r == (self.items().len() == 0),
    {
        queue_len(&self.queue) == 0
    }

    /// Whether the ring is full.
    pub fn is_full(&self) -> (r: bool)
        ensures
            r == (self.items().len() == self.bound()),
    {
        proof {
            use_type_invariant(self);
        }
        queue_len(&self.queue) == queue_capacity(&self.queue)
    }

    /// Enqueue an item at the back. When the ring is full the item comes back in
    /// `Err`, intact, and the ring is unchanged.
    pub fn try_push(&mut self, item: CqItem) -> (r: Result<(), CqItem>)
        ensures
            final(self).bound() == old(self).bound(),
            old(self).items().len() < old(self).bound() ==> r is Ok && final(self).items() == old(
                self,
            ).items().push(item),
            old(self).items().len() == old(self).bound() ==> (r matches Err(back) && back == item)
                && final(self).items() == old(self).items(),
    {
        proof {
            use_type_invariant(&*self);
        }
        queue_push(&mut self.queue, item)
    }

    /// Pop the oldest item, or `None` when empty.
    pub fn pop(&mut self) -> (r: Option<CqItem>)
        ensures
            final(self).bound() == old(self).bound(),
            old(self).items().len() == 0 ==> r is None && final(self).items() == old(self).items(),
            old(self).items().len() > 0 ==> r == Some(old(self).items()[0]) && final(self).items()
                == old(self).items().drop_first(),
    {
        proof {
            use_type_invariant(&*self);
        }
        queue_pop(&mut self.queue)
    }

    /// Pop every queued item, oldest first, leaving the ring empty.
    pub fn drain(&mut self) -> (r: Vec<CqItem>)
        ensures
            r@ == old(self).items(),
            final(self).items() == Seq::<CqItem>::empty(),
            final(self).bound() == old(self).bound(),
    {
        let ghost start = self.items();
        let mut out: Vec<CqItem> = Vec::new();
        loop
            invariant
                out@ + self.items() == start,
                start == old(self).items(),
                self.bound() == old(self).bound(),
            decreases self.items().len(),
        {
            let ghost before = self.items();
            match self.pop() {
                Some(item) => {
                    out.push(item);
                    assert(out@ + self.items() =~= start) by {
                        assert(before =~= seq![item] + before.drop_first());
                    }
                },
                None => {
                    assert(out@ =~= start);
                    return out;
                },
            }
        }
    }
}

/// The submission queue: a FIFO of control ops.
#[derive(Debug)]
pub struct SubmissionQueue {
    inner: VecDeque<SqOp>,
}

impl View for SubmissionQueue {
    type V = Seq<SqOp>;

    closed spec fn view(&self) -> Seq<SqOp> {
        self.inner@
    }
}

impl SubmissionQueue {
    /// An empty submission queue.
    pub fn new() -> (r: SubmissionQueue)
        ensures
            r@ == Seq::<SqOp>::empty(),
    {
        SubmissionQueue { inner: VecDeque::new() }
    }

    /// Submit an op at the back.
    pub fn submit(&mut self, op: SqOp)
        ensures
            final(self)@ == old(self)@.push(op),
    {
        self.inner.push_back(op);
    }

    /// Take the oldest op, or `None` when empty.
    pub fn try_next(&mut self) -> (r: Option<SqOp>)
        ensures
            old(self)@.len() == 0 ==> r is None && final(self)@ == old(self)@,
            old(self)@.len() > 0 ==> r == Some(old(self)@[0]) && final(self)@ == old(self)@.drop_first(),
    {
        self.inner.pop_front()
    }

    /// Take every queued op, oldest first.
    pub fn drain(&mut self) -> (r: Vec<SqOp>)
        ensures
            r@ == old(self)@,
            final(self)@ == Seq::<SqOp>::empty(),
    {
        let ghost start = self@;
        let mut out: Vec<SqOp> = Vec::new();
        loop
            invariant
                out@ + self@ == start,
                start == old(self)@,
            decreases self@.len(),
        {
            let ghost before = self@;
            match self.inner.pop_front() {
                Some(op) => {
                    out.push(op);
                    assert(out@ + self@ =~= start) by {
                        assert(before =~= seq![op] + before.drop_first());
                    }
                },
                None => {
                    assert(out@ =~= start);
                    return out;
                },
            }
        }
    }

    /// Whether the queue is empty.
    pub fn is_empty(&self) -> (r: bool)
        ensures
            r == (self@.len() == 0),
    {
        self.inner.len() == 0
    }
}

impl Default for SubmissionQueue {
    fn default() -> (r: SubmissionQueue)
        ensures
            r@ == Seq::<SqOp>::empty(),
    {
        SubmissionQueue::new()
    }
}

} // verus!
