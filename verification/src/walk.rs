//! The walk's bookkeeping and per-entry decisions. A container (a directory being
//! scanned) stays alive while its own scan is running or any child container is
//! alive; when both are done it ends, and its parent is released in turn, so ends
//! cascade bottom-up and every entered container ends exactly once. The threads,
//! the directory reads and the ring pushes are the caller's; the decisions are here.
use crate::builder::paths::{within, within_key};
use crate::builder::{FollowLinks, Options, Query};
use crate::syntax::dialect::parts_view;
use crate::predicate::{all_hold, eval_all, EntryMeta, EntryType, MetaMask};
use crate::ring::{ContainerId, PatternMask, TerminalReason};
use crate::sys::{file_id_known, DirEntry, EnumPlan, FileId};
use crate::syntax::matcher::path_matches;
use crate::syntax::path_view;
use crate::syntax::set::{pattern_matches_at, pattern_viable_at, PatternSet};
use crate::syntax::CodePoint;
use vstd::prelude::*;

verus! {

/// The bookkeeping of one live container.
#[derive(Clone, Copy, Debug)]
pub struct Node {
    /// The parent container's id, or `None` for a root.
    pub parent: Option<u64>,
    /// Whether its own directory scan is still running.
    pub scanning: bool,
    /// How many of its child containers are alive.
    pub children: usize,
    /// Whether its `ContainerEnter` went out (so a `ContainerEnd` is owed).
    pub entered: bool,
    /// Its depth below its root (0 for a root).
    pub depth: u32,
}

/// How many live nodes among the first `n` slots have `id` as parent.
pub open spec fn child_count(s: Seq<Option<Node>>, id: u64, n: int) -> nat
    decreases n,
{
    if n <= 0 {
        0
    } else {
        child_count(s, id, n - 1) + if s[n - 1] is Some && s[n - 1]->Some_0.parent == Some(id) {
            1nat
        } else {
            0nat
        }
    }
}

/// How many live nodes have `id` as parent.
pub open spec fn children_of(s: Seq<Option<Node>>, id: u64) -> nat {
    child_count(s, id, s.len() as int)
}

/// The container with id `id` lives in slot `id - 1`.
pub open spec fn live(s: Seq<Option<Node>>, id: u64) -> bool {
    1 <= id <= s.len() && s[id - 1] is Some
}

/// The node of a live container.
pub open spec fn node(s: Seq<Option<Node>>, id: u64) -> Node {
    s[id - 1]->Some_0
}

/// The bookkeeping's invariant: a live container's parent is live and older; its
/// child count is the number of live children; and it is alive for a reason (its
/// scan runs or a child lives).
pub open spec fn tree_wf(s: Seq<Option<Node>>) -> bool {
    &&& s.len() < u64::MAX
    &&& forall|i: int|
        0 <= i < s.len() && (#[trigger] s[i]) is Some && s[i]->Some_0.parent is Some ==> {
            let p = s[i]->Some_0.parent->Some_0;
            1 <= p <= i && s[p - 1] is Some
        }
    &&& forall|i: int|
        0 <= i < s.len() && (#[trigger] s[i]) is Some ==> s[i]->Some_0.children == children_of(
            s,
            (i + 1) as u64,
        )
    &&& forall|i: int|
        0 <= i < s.len() && (#[trigger] s[i]) is Some ==> (s[i]->Some_0.scanning
            || s[i]->Some_0.children > 0)
}

/// Whether `a` is a strict ancestor of the live container `d`.
pub open spec fn ancestor_of(s: Seq<Option<Node>>, a: u64, d: u64) -> bool
    decreases d,
{
    if live(s, d) && node(s, d).parent is Some && node(s, d).parent->Some_0 < d {
        let p = node(s, d).parent->Some_0;
        p == a || ancestor_of(s, a, p)
    } else {
        false
    }
}

/// No container comes back to life: every container that is not alive (and whose
/// id was already handed out) stays so. Ids are handed out fresh and never reused.
pub open spec fn no_revival(before: Seq<Option<Node>>, after: Seq<Option<Node>>) -> bool {
    &&& before.len() <= after.len()
    &&& forall|c: u64| 1 <= c <= before.len() && !live(before, c) ==> !#[trigger] live(after, c)
}

/// A strict ancestor is older: it has a smaller id. Within one cascade of ends,
/// which come descendants first, the ids therefore strictly decrease, so no
/// container ends twice and every child ends before its parent.
pub proof fn lemma_ancestor_is_older(s: Seq<Option<Node>>, a: u64, d: u64)
    requires
        tree_wf(s),
        ancestor_of(s, a, d),
    ensures
        1 <= a < d,
    decreases d,
{
    let p = node(s, d).parent->Some_0;
    assert(s[d - 1] is Some);
    if p != a {
        lemma_ancestor_is_older(s, a, p);
    }
}

/// The stream law across operations: once a container's end has gone out it is no
/// longer alive, and since no operation revives a container, it never ends again.
pub proof fn lemma_no_revival_chains(
    a: Seq<Option<Node>>,
    b: Seq<Option<Node>>,
    c: Seq<Option<Node>>,
)
    requires
        no_revival(a, b),
        no_revival(b, c),
    ensures
        no_revival(a, c),
{
    assert forall|x: u64| 1 <= x <= a.len() && !live(a, x) implies !#[trigger] live(c, x) by {
        assert(!live(b, x));
    }
}

proof fn lemma_count_bound(s: Seq<Option<Node>>, id: u64, n: int)
    requires
        0 <= n <= s.len(),
    ensures
        child_count(s, id, n) <= n,
    decreases n,
{
    if n > 0 {
        lemma_count_bound(s, id, n - 1);
    }
}

proof fn lemma_count_update(s: Seq<Option<Node>>, j: int, v: Option<Node>, id: u64, n: int)
    requires
        0 <= j < s.len(),
        0 <= n <= s.len(),
    ensures
        child_count(s.update(j, v), id, n) + (if j < n && s[j] is Some && s[j]->Some_0.parent == Some(
            id,
        ) {
            1nat
        } else {
            0nat
        }) == child_count(s, id, n) + (if j < n && v is Some && v->Some_0.parent == Some(id) {
            1nat
        } else {
            0nat
        }),
    decreases n,
{
    if n > 0 {
        lemma_count_update(s, j, v, id, n - 1);
    }
}

proof fn lemma_count_push(s: Seq<Option<Node>>, v: Option<Node>, id: u64, n: int)
    requires
        0 <= n <= s.len(),
    ensures
        child_count(s.push(v), id, n) == child_count(s, id, n),
    decreases n,
{
    if n > 0 {
        lemma_count_push(s, v, id, n - 1);
    }
}

proof fn lemma_count_witness(s: Seq<Option<Node>>, id: u64, n: int)
    requires
        0 <= n <= s.len(),
        child_count(s, id, n) > 0,
    ensures
        exists|j: int| 0 <= j < n && #[trigger] s[j] is Some && s[j]->Some_0.parent == Some(id),
    decreases n,
{
    if n > 0 {
        if !(s[n - 1] is Some && s[n - 1]->Some_0.parent == Some(id)) {
            lemma_count_witness(s, id, n - 1);
        }
    }
}

proof fn lemma_none_from(s: Seq<Option<Node>>, k: int)
    requires
        tree_wf(s),
        0 <= k <= s.len(),
        forall|i: int| 0 <= i < s.len() && (#[trigger] s[i]) is Some ==> !s[i]->Some_0.scanning,
    ensures
        forall|j: int| k <= j < s.len() ==> (#[trigger] s[j]) is None,
    decreases s.len() - k,
{
    if k < s.len() {
        lemma_none_from(s, k + 1);
        if s[k] is Some {
            assert(s[k]->Some_0.children > 0);
            lemma_count_witness(s, (k + 1) as u64, s.len() as int);
            let j = choose|j: int|
                0 <= j < s.len() && #[trigger] s[j] is Some && s[j]->Some_0.parent == Some(
                    (k + 1) as u64,
                );
            assert(s[j] is Some && s[j]->Some_0.parent is Some);
            assert(s[j]->Some_0.parent->Some_0 <= j);
        }
    }
}

/// Once no container's scan is running, every container has ended: the walk never
/// strands a container whose `ContainerEnd` is owed.
pub proof fn lemma_quiescent_tree_is_empty(s: Seq<Option<Node>>)
    requires
        tree_wf(s),
        forall|i: int| 0 <= i < s.len() && (#[trigger] s[i]) is Some ==> !s[i]->Some_0.scanning,
    ensures
        forall|j: int| 0 <= j < s.len() ==> (#[trigger] s[j]) is None,
{
    lemma_none_from(s, 0);
}

/// The bookkeeping's storage: only live containers are held, keyed by id, so a
/// container's memory is released as soon as it ends; `len` counts the ids handed
/// out. Seen as the sequence of slots, container `k` at `k - 1`, `None` once ended.
#[derive(Debug)]
struct Slots {
    live: std::collections::HashMap<u64, Node>,
    len: usize,
}

impl View for Slots {
    type V = Seq<Option<Node>>;

    closed spec fn view(&self) -> Seq<Option<Node>> {
        Seq::new(
            self.len as nat,
            |i: int|
                if self.live@.contains_key((i + 1) as u64) {
                    Some(self.live@[(i + 1) as u64])
                } else {
                    None
                },
        )
    }
}

impl Slots {
    fn new() -> (r: Slots)
        ensures
            r@ == Seq::<Option<Node>>::empty(),
    {
        let r = Slots { live: std::collections::HashMap::new(), len: 0 };
        assert(r@ =~= Seq::<Option<Node>>::empty());
        r
    }

    fn len(&self) -> (r: usize)
        ensures
            r == self@.len(),
    {
        self.len
    }

    fn get(&self, i: usize) -> (r: Option<Node>)
        requires
            i < self@.len(),
        ensures
            r == self@[i as int],
    {
        broadcast use vstd::std_specs::hash::group_hash_axioms;

        let k = (i + 1) as u64;
        match self.live.get(&k) {
            Some(n) => Some(*n),
            None => None,
        }
    }

    fn set(&mut self, i: usize, v: Option<Node>)
        requires
            i < old(self)@.len(),
        ensures
            final(self)@ == old(self)@.update(i as int, v),
    {
        broadcast use vstd::std_specs::hash::group_hash_axioms;

        let k = (i + 1) as u64;
        match v {
            Some(n) => {
                self.live.insert(k, n);
            },
            None => {
                self.live.remove(&k);
            },
        }
        assert(self@ =~= old(self)@.update(i as int, v));
    }

    fn push(&mut self, v: Option<Node>)
        requires
            old(self)@.len() < usize::MAX,
        ensures
            final(self)@ == old(self)@.push(v),
    {
        broadcast use vstd::std_specs::hash::group_hash_axioms;

        self.len = self.len + 1;
        let k = self.len as u64;
        match v {
            Some(n) => {
                self.live.insert(k, n);
            },
            None => {
                self.live.remove(&k);
            },
        }
        assert(self@ =~= old(self)@.push(v));
    }
}

/// The live containers of one walk, in id order: container `k` is slot `k - 1`.
/// An ended container's slot is empty and its memory released.
#[derive(Debug)]
pub struct ContainerTree {
    slots: Slots,
}

impl View for ContainerTree {
    type V = Seq<Option<Node>>;

    closed spec fn view(&self) -> Seq<Option<Node>> {
        self.slots@
    }
}

impl ContainerTree {
    /// An empty tree.
    pub fn new() -> (r: ContainerTree)
        ensures
            r@ == Seq::<Option<Node>>::empty(),
            tree_wf(r@),
    {
        ContainerTree { slots: Slots::new() }
    }

    /// How many containers were ever created (the last id handed out).
    pub fn created(&self) -> (r: usize)
        ensures
            r == self@.len(),
    {
        self.slots.len()
    }

    /// Whether container `id` is alive.
    pub fn is_live(&self, id: ContainerId) -> (r: bool)
        ensures
            r == live(self@, id.0),
    {
        id.0 >= 1 && id.0 - 1 < self.slots.len() as u64 && self.slots.get((id.0 - 1) as usize).is_some()
    }

    /// Whether container `id` is alive with its own scan still running.
    pub fn is_scanning(&self, id: ContainerId) -> (r: bool)
        ensures
            r == (live(self@, id.0) && node(self@, id.0).scanning),
    {
        if id.0 >= 1 && id.0 - 1 < self.slots.len() as u64 {
            match self.slots.get((id.0 - 1) as usize) {
                Some(n) => n.scanning,
                None => false,
            }
        } else {
            false
        }
    }

    /// Register a new root container whose scan is about to run.
    pub fn add_root(&mut self) -> (r: ContainerId)
        requires
            tree_wf(old(self)@),
            old(self)@.len() + 1 < u64::MAX,
            old(self)@.len() + 1 < usize::MAX,
        ensures
            tree_wf(final(self)@),
            no_revival(old(self)@, final(self)@),
            r.0 == old(self)@.len() + 1,
            final(self)@ == old(self)@.push(
                Some(Node { parent: None, scanning: true, children: 0, entered: false, depth: 0 }),
            ),
    {
        let ghost s = self@;
        let n = Node { parent: None, scanning: true, children: 0, entered: false, depth: 0 };
        self.slots.push(Some(n));
        let id = self.slots.len() as u64;
        proof {
            let s2 = self@;
            assert forall|i: int| 0 <= i < s2.len() && (#[trigger] s2[i]) is Some implies s2[i]->Some_0.children
                == children_of(s2, (i + 1) as u64) by {
                lemma_count_push(s, Some(n), (i + 1) as u64, s.len() as int);
                if i == s.len() {
                    assert forall|j: int| 0 <= j < s.len() && (#[trigger] s[j]) is Some implies s[j]->Some_0.parent
                        != Some((i + 1) as u64) by {}
                    lemma_count_zero(s, (i + 1) as u64, s.len() as int);
                }
            }
        }
        ContainerId(id)
    }

    /// Register a child container under the live, scanning `parent`; the child's scan
    /// is about to run and the parent now waits for it.
    pub fn add_child(&mut self, parent: ContainerId) -> (r: ContainerId)
        requires
            tree_wf(old(self)@),
            live(old(self)@, parent.0),
            node(old(self)@, parent.0).scanning,
            old(self)@.len() + 1 < u64::MAX,
            old(self)@.len() + 1 < usize::MAX,
        ensures
            tree_wf(final(self)@),
            no_revival(old(self)@, final(self)@),
            r.0 == old(self)@.len() + 1,
            final(self)@ == old(self)@.update(
                parent.0 - 1,
                Some(
                    Node {
                        children: (node(old(self)@, parent.0).children + 1) as usize,
                        ..node(old(self)@, parent.0)
                    },
                ),
            ).push(
                Some(
                    Node {
                        parent: Some(parent.0),
                        scanning: true,
                        children: 0,
                        entered: false,
                        depth: if node(old(self)@, parent.0).depth < u32::MAX {
                            (node(old(self)@, parent.0).depth + 1) as u32
                        } else {
                            u32::MAX
                        },
                    },
                ),
            ),
    {
        let ghost s = self@;
        let len = self.slots.len();
        assert(parent.0 - 1 < len);
        let pi = (parent.0 - 1) as usize;
        let mut pn = match self.slots.get(pi) {
            Some(x) => x,
            None => {
                assert(false);
                return parent;
            },
        };
        proof {
            lemma_count_bound(s, parent.0, s.len() as int);
        }
        let depth = if pn.depth < u32::MAX {
            pn.depth + 1
        } else {
            u32::MAX
        };
        pn.children = pn.children + 1;
        self.slots.set(pi, Some(pn));
        let ghost s1 = self@;
        let c = Node { parent: Some(parent.0), scanning: true, children: 0, entered: false, depth };
        self.slots.push(Some(c));
        let id = self.slots.len() as u64;
        proof {
            let s2 = self@;
            assert forall|i: int| 0 <= i < s2.len() && (#[trigger] s2[i]) is Some implies s2[i]->Some_0.children
                == children_of(s2, (i + 1) as u64) by {
                lemma_count_update(s, pi as int, Some(pn), (i + 1) as u64, s.len() as int);
                lemma_count_push(s1, Some(c), (i + 1) as u64, s.len() as int);
                if i == s.len() {
                    lemma_count_zero(s1, (i + 1) as u64, s1.len() as int);
                }
            }
        }
        ContainerId(id)
    }

    /// Record that container `id`'s `ContainerEnter` went out at `depth`, so its
    /// `ContainerEnd` is owed.
    pub fn enter(&mut self, id: ContainerId)
        requires
            tree_wf(old(self)@),
            live(old(self)@, id.0),
        ensures
            tree_wf(final(self)@),
            no_revival(old(self)@, final(self)@),
            final(self)@ == old(self)@.update(
                id.0 - 1,
                Some(Node { entered: true, ..node(old(self)@, id.0) }),
            ),
    {
        let ghost s = self@;
        let len = self.slots.len();
        assert(id.0 - 1 < len);
        let i = (id.0 - 1) as usize;
        let mut n = match self.slots.get(i) {
            Some(x) => x,
            None => {
                assert(false);
                return ;
            },
        };
        n.entered = true;
        self.slots.set(i, Some(n));
        proof {
            let s2 = self@;
            assert forall|k: int| 0 <= k < s2.len() && (#[trigger] s2[k]) is Some implies s2[k]->Some_0.children
                == children_of(s2, (k + 1) as u64) by {
                lemma_count_update(s, i as int, Some(n), (k + 1) as u64, s.len() as int);
            }
        }
    }

    /// Container `id`'s own scan is done: release it, and cascade upward through
    /// every container that is thereby done. Returns the ids whose `ContainerEnd` is
    /// now owed (those that were entered), bottom-up.
    #[verifier::rlimit(40)]
    pub fn finish(&mut self, id: ContainerId) -> (ends: Vec<ContainerId>)
        requires
            tree_wf(old(self)@),
            live(old(self)@, id.0),
            node(old(self)@, id.0).scanning,
        ensures
            tree_wf(final(self)@),
            no_revival(old(self)@, final(self)@),
            final(self)@.len() == old(self)@.len(),
            forall|k: int, l: int|
                0 <= k < l < ends@.len() ==> (#[trigger] ends@[l]).0 < (#[trigger] ends@[k]).0,
            forall|k: int|
                0 <= k < ends@.len() ==> live(old(self)@, (#[trigger] ends@[k]).0) && node(
                    old(self)@,
                    ends@[k].0,
                ).entered && !live(final(self)@, ends@[k].0),
            forall|k: int, l: int|
                0 <= k < l < ends@.len() ==> ancestor_of(
                    old(self)@,
                    (#[trigger] ends@[l]).0,
                    (#[trigger] ends@[k]).0,
                ),
            forall|c: u64|
                #[trigger] live(old(self)@, c) && !live(final(self)@, c) ==> (c == id.0 || ancestor_of(
                    old(self)@,
                    c,
                    id.0,
                )) && (node(old(self)@, c).entered ==> ends@.contains(ContainerId(c))),
            forall|c: u64|
                #[trigger] live(final(self)@, c) ==> live(old(self)@, c) && node(final(self)@, c).parent
                    == node(old(self)@, c).parent && node(final(self)@, c).entered == node(
                    old(self)@,
                    c,
                ).entered && node(final(self)@, c).depth == node(old(self)@, c).depth && (
                node(final(self)@, c).scanning == (node(old(self)@, c).scanning && c != id.0)),
    {
        let ghost s0 = self@;
        let mut cur: u64 = id.0;
        let len = self.slots.len();
        assert(cur - 1 < len);
        let ci = (cur - 1) as usize;
        let mut n = match self.slots.get(ci) {
            Some(x) => x,
            None => {
                assert(false);
                return Vec::new();
            },
        };
        n.scanning = false;
        self.slots.set(ci, Some(n));
        proof {
            let s2 = self@;
            assert forall|k: int| 0 <= k < s2.len() && (#[trigger] s2[k]) is Some implies s2[k]->Some_0.children
                == children_of(s2, (k + 1) as u64) by {
                lemma_count_update(s0, ci as int, Some(n), (k + 1) as u64, s0.len() as int);
            }
        }
        let mut ends: Vec<ContainerId> = Vec::new();
        loop
            invariant_except_break
                self@.len() == s0.len(),
                s0.len() < u64::MAX,
                tree_wf(s0),
                live(s0, id.0),
                live(self@, cur),
                cur == id.0 || ancestor_of(s0, cur, id.0),
                forall|i: int|
                    0 <= i < self@.len() && (#[trigger] self@[i]) is Some && self@[i]->Some_0.parent
                        is Some ==> {
                        let p = self@[i]->Some_0.parent->Some_0;
                        1 <= p <= i && self@[p - 1] is Some
                    },
                forall|i: int|
                    0 <= i < self@.len() && (#[trigger] self@[i]) is Some ==> self@[i]->Some_0.children
                        == children_of(self@, (i + 1) as u64),
                forall|i: int|
                    0 <= i < self@.len() && (#[trigger] self@[i]) is Some && i != cur - 1 ==> (
                    self@[i]->Some_0.scanning || self@[i]->Some_0.children > 0),
                forall|k: int|
                    0 <= k < ends@.len() ==> live(s0, (#[trigger] ends@[k]).0) && node(
                        s0,
                        ends@[k].0,
                    ).entered && !live(self@, ends@[k].0),
                forall|k: int, l: int|
                    0 <= k < l < ends@.len() ==> ancestor_of(
                        s0,
                        (#[trigger] ends@[l]).0,
                        (#[trigger] ends@[k]).0,
                    ),
                forall|c: u64|
                    #[trigger] live(s0, c) && !live(self@, c) ==> (c == id.0 || ancestor_of(s0, c, id.0)) && (
                    node(s0, c).entered ==> ends@.contains(ContainerId(c))) && ancestor_of(
                        s0,
                        cur,
                        c,
                    ),
                forall|c: u64|
                    #[trigger] live(self@, c) ==> live(s0, c) && node(self@, c).parent == node(s0, c).parent
                        && node(self@, c).entered == node(s0, c).entered && node(self@, c).depth
                        == node(s0, c).depth && (node(self@, c).scanning == (node(s0, c).scanning
                        && c != id.0)),
            ensures
                tree_wf(self@),
                self@.len() == s0.len(),
                forall|k: int|
                    0 <= k < ends@.len() ==> live(s0, (#[trigger] ends@[k]).0) && node(
                        s0,
                        ends@[k].0,
                    ).entered && !live(self@, ends@[k].0),
                forall|k: int, l: int|
                    0 <= k < l < ends@.len() ==> ancestor_of(
                        s0,
                        (#[trigger] ends@[l]).0,
                        (#[trigger] ends@[k]).0,
                    ),
                forall|c: u64|
                    #[trigger] live(s0, c) && !live(self@, c) ==> (c == id.0 || ancestor_of(s0, c, id.0)) && (
                    node(s0, c).entered ==> ends@.contains(ContainerId(c))),
                forall|c: u64|
                    #[trigger] live(self@, c) ==> live(s0, c) && node(self@, c).parent == node(s0, c).parent
                        && node(self@, c).entered == node(s0, c).entered && node(self@, c).depth
                        == node(s0, c).depth && (node(self@, c).scanning == (node(s0, c).scanning
                        && c != id.0)),
            decreases cur,
        {
            let len = self.slots.len();
            assert(cur - 1 < len);
            let ci = (cur - 1) as usize;
            let n = match self.slots.get(ci) {
                Some(x) => x,
                None => {
                    assert(false);
                    break;
                },
            };
            if n.scanning || n.children > 0 {
                break;
            }
            let ghost s1 = self@;
            let ghost ends1 = ends@;
            proof {
                lemma_count_zero_none(s1, cur, s1.len() as int);
            }
            self.slots.set(ci, None);
            let ghost s2 = self@;
            if n.entered {
                ends.push(ContainerId(cur));
            }
            proof {
                assert forall|k: int| 0 <= k < ends@.len() implies live(s0, (#[trigger] ends@[k]).0)
                    && node(s0, ends@[k].0).entered && !live(self@, ends@[k].0) by {
                    if k < ends1.len() {
                        assert(ends@[k] == ends1[k]);
                    }
                }
                assert forall|k: int, l: int| 0 <= k < l < ends@.len() implies ancestor_of(
                    s0,
                    (#[trigger] ends@[l]).0,
                    (#[trigger] ends@[k]).0,
                ) by {
                    if l < ends1.len() {
                        assert(ends@[l] == ends1[l] && ends@[k] == ends1[k]);
                    } else {
                        assert(ends@[k] == ends1[k]);
                        assert(!live(s1, ends1[k].0));
                    }
                }
            }
            match n.parent {
                Some(p) => {
                    assert(1 <= p <= cur - 1);
                    let pi = (p - 1) as usize;
                    let mut pn = match self.slots.get(pi) {
                        Some(x) => x,
                        None => {
                            assert(false);
                            break;
                        },
                    };
                    proof {
                        lemma_count_update(s1, ci as int, None, p, s1.len() as int);
                        assert(node(s0, cur).parent == Some(p));
                        lemma_ancestor_step(s0, cur, p, id.0);
                    }
                    pn.children = pn.children - 1;
                    self.slots.set(pi, Some(pn));
                    proof {
                        let s3 = self@;
                        assert forall|k: int| 0 <= k < s3.len() && (#[trigger] s3[k]) is Some implies s3[k]->Some_0.children
                            == children_of(s3, (k + 1) as u64) by {
                            lemma_count_update(s1, ci as int, None, (k + 1) as u64, s1.len() as int);
                            lemma_count_update(s2, pi as int, Some(pn), (k + 1) as u64, s2.len() as int);
                        }
                        assert forall|c: u64| live(s3, c) implies live(s0, c) && node(s3, c).parent
                            == node(s0, c).parent && node(s3, c).entered == node(s0, c).entered
                            && node(s3, c).depth == node(s0, c).depth && (node(s3, c).scanning == (
                        node(s0, c).scanning && c != id.0)) by {
                            assert(live(s1, c));
                        }
                        assert forall|c: u64| live(s0, c) && !live(s3, c) implies (c == id.0
                            || ancestor_of(s0, c, id.0)) && (node(s0, c).entered ==> ends@.contains(
                            ContainerId(c),
                        )) && ancestor_of(s0, p, c) by {
                            if c == cur {
                                if node(s0, c).entered {
                                    assert(ends@[ends@.len() - 1] == ContainerId(c));
                                }
                            } else {
                                assert(!live(s1, c));
                                if node(s0, c).entered {
                                    let k = choose|k: int|
                                        0 <= k < ends1.len() && ends1[k] == ContainerId(c);
                                    assert(ends@[k] == ContainerId(c));
                                }
                                lemma_ancestor_step(s0, cur, p, c);
                            }
                        }
                    }
                    cur = p;
                },
                None => {
                    proof {
                        assert forall|c: u64| live(s2, c) implies live(s0, c) && node(s2, c).parent
                            == node(s0, c).parent && node(s2, c).entered == node(s0, c).entered
                            && node(s2, c).depth == node(s0, c).depth && (node(s2, c).scanning == (
                        node(s0, c).scanning && c != id.0)) by {
                            assert(live(s1, c));
                        }
                        assert forall|c: u64| live(s0, c) && !live(s2, c) implies (c == id.0
                            || ancestor_of(s0, c, id.0)) && (node(s0, c).entered ==> ends@.contains(
                            ContainerId(c),
                        )) by {
                            if c == cur {
                                if node(s0, c).entered {
                                    assert(ends@[ends@.len() - 1] == ContainerId(c));
                                }
                            } else {
                                if node(s0, c).entered {
                                    let k = choose|k: int|
                                        0 <= k < ends1.len() && ends1[k] == ContainerId(c);
                                    assert(ends@[k] == ContainerId(c));
                                }
                            }
                        }
                        assert forall|k: int| 0 <= k < s2.len() && (#[trigger] s2[k]) is Some implies s2[k]->Some_0.children
                            == children_of(s2, (k + 1) as u64) by {
                            lemma_count_update(s1, ci as int, None, (k + 1) as u64, s1.len() as int);
                        }
                    }
                    break;
                },
            }
        }
        proof {
            assert forall|k: int, l: int| 0 <= k < l < ends@.len() implies (#[trigger] ends@[l]).0
                < (#[trigger] ends@[k]).0 by {
                lemma_ancestor_is_older(s0, ends@[l].0, ends@[k].0);
            }
        }
        ends
    }

    /// Teardown: every container still entered (its subtree abandoned, e.g. by
    /// cancellation), deepest first so the owed ends still come bottom-up. They are
    /// marked as no longer owing an end, so none is ended twice.
    pub fn drain_entered(&mut self) -> (r: Vec<ContainerId>)
        requires
            tree_wf(old(self)@),
        ensures
            tree_wf(final(self)@),
            no_revival(old(self)@, final(self)@),
            final(self)@.len() == old(self)@.len(),
            forall|c: u64| #[trigger]
                live(final(self)@, c) <==> live(old(self)@, c),
            forall|c: u64|
                #[trigger] live(final(self)@, c) ==> node(final(self)@, c) == (Node {
                    entered: false,
                    ..node(old(self)@, c)
                }),
            forall|c: u64|
                r@.contains(ContainerId(c)) <==> (#[trigger] live(old(self)@, c) && node(
                    old(self)@,
                    c,
                ).entered),
            r@.no_duplicates(),
            forall|k: int, l: int|
                0 <= k < l < r@.len() ==> node(old(self)@, (#[trigger] r@[k]).0).depth >= node(
                    old(self)@,
                    (#[trigger] r@[l]).0,
                ).depth,
    {
        let ghost s0 = self@;
        let n = self.slots.len();
        let mut acc: Vec<(u64, u32)> = Vec::new();
        let mut i: usize = 0;
        while i < n
            invariant
                i <= n,
                n == s0.len(),
                s0.len() < u64::MAX,
                tree_wf(s0),
                self@.len() == n,
                forall|j: int| 0 <= j < n ==> ((#[trigger] self@[j]) is Some <==> s0[j] is Some),
                forall|j: int|
                    0 <= j < n && (#[trigger] self@[j]) is Some ==> self@[j]->Some_0 == (if j < i {
                        Node { entered: false, ..s0[j]->Some_0 }
                    } else {
                        s0[j]->Some_0
                    }),
                forall|k: int|
                    0 <= k < acc@.len() ==> 1 <= (#[trigger] acc@[k]).0 <= i && live(s0, acc@[k].0)
                        && node(s0, acc@[k].0).entered && acc@[k].1 == node(s0, acc@[k].0).depth,
                forall|c: u64|
                    1 <= c <= i && #[trigger] live(s0, c) && node(s0, c).entered ==> exists|k: int|
                        0 <= k < acc@.len() && #[trigger] acc@[k].0 == c,
                forall|k: int, l: int|
                    0 <= k < l < acc@.len() ==> (#[trigger] acc@[k]).0 != (#[trigger] acc@[l]).0
                        && acc@[k].1 >= acc@[l].1,
            decreases n - i,
        {
            match self.slots.get(i) {
                Some(nd) => {
                    if nd.entered {
                        let id = (i + 1) as u64;
                        let d = nd.depth;
                        let mut j: usize = 0;
                        while j < acc.len() && acc[j].1 >= d
                            invariant
                                j <= acc@.len(),
                                forall|k: int| 0 <= k < j ==> (#[trigger] acc@[k]).1 >= d,
                            decreases acc@.len() - j,
                        {
                            j += 1;
                        }
                        let ghost before = acc@;
                        acc.insert(j, (id, d));
                        proof {
                            assert(acc@ == before.insert(j as int, (id, d)));
                            assert forall|k: int, l: int|
                                0 <= k < l < acc@.len() implies (#[trigger] acc@[k]).0 != (
                                #[trigger] acc@[l]).0 && acc@[k].1 >= acc@[l].1 by {
                                if l < j {
                                } else if l == j {
                                    assert(acc@[k] == before[k]);
                                } else if k < j {
                                    assert(acc@[l] == before[l - 1]);
                                    assert(before[l - 1].1 <= before[j as int].1 || l - 1 == j);
                                } else if k == j {
                                    assert(acc@[l] == before[l - 1]);
                                } else {
                                    assert(acc@[k] == before[k - 1]);
                                    assert(acc@[l] == before[l - 1]);
                                }
                            }
                            assert forall|c: u64|
                                1 <= c <= i + 1 && #[trigger] live(s0, c) && node(s0, c).entered implies exists|k: int|
                                    0 <= k < acc@.len() && #[trigger] acc@[k].0 == c by {
                                if c == i + 1 {
                                    assert(acc@[j as int].0 == c);
                                } else {
                                    let k0 = choose|k: int| 0 <= k < before.len() && #[trigger] before[k].0 == c;
                                    if k0 < j {
                                        assert(acc@[k0] == before[k0]);
                                    } else {
                                        assert(acc@[k0 + 1] == before[k0]);
                                    }
                                }
                            }
                        }
                        self.slots.set(i, Some(Node { entered: false, ..nd }));
                    } else {
                        self.slots.set(i, Some(nd));
                    }
                },
                None => {},
            }
            i += 1;
        }
        let mut out: Vec<ContainerId> = Vec::new();
        let mut k: usize = 0;
        while k < acc.len()
            invariant
                k <= acc@.len(),
                out@.len() == k,
                forall|t: int| 0 <= t < k ==> (#[trigger] out@[t]).0 == acc@[t].0,
            decreases acc@.len() - k,
        {
            out.push(ContainerId(acc[k].0));
            k += 1;
        }
        proof {
            let s1 = self@;
            assert forall|j: int| 0 <= j < s1.len() && (#[trigger] s1[j]) is Some implies s1[j]->Some_0.children
                == children_of(s1, (j + 1) as u64) by {
                lemma_count_same(s0, s1, (j + 1) as u64, s1.len() as int);
            }
            assert forall|c: u64|
                out@.contains(ContainerId(c)) <==> (#[trigger] live(s0, c) && node(s0, c).entered) by {
                if live(s0, c) && node(s0, c).entered {
                    let k0 = choose|k: int| 0 <= k < acc@.len() && #[trigger] acc@[k].0 == c;
                    assert(out@[k0] == ContainerId(c));
                }
                if out@.contains(ContainerId(c)) {
                    let t = choose|t: int| 0 <= t < out@.len() && out@[t] == ContainerId(c);
                    assert(acc@[t].0 == c);
                }
            }
            assert forall|a: int, b: int| 0 <= a < out@.len() && 0 <= b < out@.len() && a != b implies out@[a] != out@[b] by {
                if a < b {
                    assert(acc@[a].0 != acc@[b].0);
                } else {
                    assert(acc@[b].0 != acc@[a].0);
                }
            }
        }
        out
    }
}

proof fn lemma_count_same(s: Seq<Option<Node>>, t: Seq<Option<Node>>, id: u64, n: int)
    requires
        0 <= n <= s.len(),
        s.len() == t.len(),
        forall|j: int| 0 <= j < s.len() ==> ((#[trigger] s[j]) is Some <==> t[j] is Some),
        forall|j: int|
            0 <= j < s.len() && (#[trigger] s[j]) is Some ==> s[j]->Some_0.parent == t[j]->Some_0.parent,
    ensures
        child_count(s, id, n) == child_count(t, id, n),
    decreases n,
{
    if n > 0 {
        lemma_count_same(s, t, id, n - 1);
    }
}

proof fn lemma_count_zero_none(s: Seq<Option<Node>>, id: u64, n: int)
    requires
        0 <= n <= s.len(),
        child_count(s, id, n) == 0,
    ensures
        forall|j: int| 0 <= j < n && (#[trigger] s[j]) is Some ==> s[j]->Some_0.parent != Some(id),
    decreases n,
{
    if n > 0 {
        lemma_count_zero_none(s, id, n - 1);
    }
}

proof fn lemma_ancestor_step(s: Seq<Option<Node>>, a: u64, p: u64, d: u64)
    requires
        tree_wf(s),
        live(s, a),
        node(s, a).parent == Some(p),
        live(s, d),
        a == d || ancestor_of(s, a, d),
    ensures
        ancestor_of(s, p, d),
    decreases d,
{
    let q = node(s, d).parent;
    assert(s[d - 1] is Some);
    if a == d {
        assert(q == Some(p));
    } else {
        let qq = q->Some_0;
        assert(1 <= qq <= d - 1);
        if qq != a {
            lemma_ancestor_step(s, a, p, qq);
        } else {
            assert(ancestor_of(s, p, a));
        }
    }
}

proof fn lemma_count_zero(s: Seq<Option<Node>>, id: u64, n: int)
    requires
        0 <= n <= s.len(),
        forall|j: int| 0 <= j < n && (#[trigger] s[j]) is Some ==> s[j]->Some_0.parent != Some(id),
    ensures
        child_count(s, id, n) == 0,
    decreases n,
{
    if n > 0 {
        lemma_count_zero(s, id, n - 1);
    }
}


/// Whether the `i`-th pattern of the query applies under root `root`.
pub open spec fn applies_to(q: Query, i: int, root: usize) -> bool {
    q.patterns@[i].roots@.contains(root)
}

/// Whether entry metadata `m` at `path` under root `root` is emitted for the `i`-th
/// pattern: the pattern matches the path, applies to the root, and its emit filter
/// holds.
pub open spec fn emits(
    ps: Seq<crate::syntax::set::CompiledPattern>,
    q: Query,
    root: usize,
    path: Seq<Seq<u32>>,
    m: EntryMeta,
    i: int,
) -> bool {
    pattern_matches_at(ps, i, path) && applies_to(q, i, root) && all_hold(q.patterns@[i].emit@, m)
}

/// Whether an entry is a directory candidate: a reparse point only when links are
/// followed, otherwise a real directory.
pub open spec fn dir_candidate(e: DirEntry, follow: FollowLinks) -> bool {
    if e.is_reparse {
        follow == FollowLinks::Always
    } else {
        e.entry_type == EntryType::Dir
    }
}

/// Whether `v` holds `x`.
pub fn contains_index(v: &Vec<usize>, x: usize) -> (r: bool)
    ensures
        r == v@.contains(x),
{
    let mut i: usize = 0;
    while i < v.len()
        invariant
            i <= v@.len(),
            forall|j: int| 0 <= j < i ==> v@[j] != x,
        decreases v@.len() - i,
    {
        if v[i] == x {
            assert(v@[i as int] == x);
            return true;
        }
        i += 1;
    }
    false
}

proof fn lemma_indices_where_contains(n: nat, p: spec_fn(int) -> bool, i: int)
    requires
        n <= usize::MAX + 1,
    ensures
        crate::syntax::set::indices_where(n, p).contains(i as usize) && 0 <= i <= usize::MAX <==> (0
            <= i < n && p(i)),
    decreases n,
{
    if n > 0 {
        lemma_indices_where_contains((n - 1) as nat, p, i);
        let prev = crate::syntax::set::indices_where((n - 1) as nat, p);
        if p(n - 1) {
            let cur = prev.push((n - 1) as usize);
            assert(cur == crate::syntax::set::indices_where(n, p));
            if cur.contains(i as usize) && 0 <= i <= usize::MAX {
                let k = choose|k: int| 0 <= k < cur.len() && cur[k] == i as usize;
                if k < prev.len() {
                    assert(prev[k] == i as usize);
                }
            }
            if 0 <= i < n && p(i) {
                if i == n - 1 {
                    assert(cur[prev.len() as int] == i as usize);
                } else {
                    let k = choose|k: int| 0 <= k < prev.len() && prev[k] == i as usize;
                    assert(cur[k] == i as usize);
                }
            }
        }
    }
}

/// The patterns an entry is emitted for, as a mask sized to the pattern count, or
/// `None` when there is none.
pub fn emit_mask(
    patterns: &PatternSet,
    query: &Query,
    root: usize,
    path: &[&[CodePoint]],
    meta: &EntryMeta,
) -> (r: Option<PatternMask>)
    requires
        patterns@.len() == query.patterns@.len(),
        query.patterns@.len() <= usize::MAX - 63,
    ensures
        r is Some <==> exists|i: int|
            0 <= i < query.patterns@.len() && #[trigger] emits(
                patterns@,
                *query,
                root,
                path_view(path@),
                *meta,
                i,
            ),
        r matches Some(m) ==> m@.len() == crate::ring::words_for(query.patterns@.len() as nat) * 64
            && forall|j: int|
            0 <= j < m@.len() ==> (#[trigger] m@[j] <==> (j < query.patterns@.len() && emits(
                patterns@,
                *query,
                root,
                path_view(path@),
                *meta,
                j,
            ))),
{
    let n = query.patterns.len();
    let ghost pv = path_view(path@);
    let ghost ps = patterns@;
    let ghost pm = |i: int| pattern_matches_at(ps, i, pv);
    let hits = patterns.matches(path);
    let mut mask = PatternMask::new(n);
    let mut any = false;
    let mut k: usize = 0;
    while k < hits.len()
        invariant
            k <= hits@.len(),
            n == query.patterns@.len(),
            n == ps.len(),
            n <= usize::MAX - 63,
            hits@ == crate::syntax::set::indices_where(ps.len(), pm),
            pm == (|i: int| pattern_matches_at(ps, i, pv)),
            mask@.len() == crate::ring::words_for(n as nat) * 64,
            forall|j: int|
                0 <= j < mask@.len() ==> (#[trigger] mask@[j] <==> (exists|t: int|
                    0 <= t < k && hits@[t] == j && applies_to(*query, j, root) && all_hold(
                        query.patterns@[j].emit@,
                        *meta,
                    ))),
            any <==> exists|j: int| 0 <= j < mask@.len() && mask@[j],
        decreases hits@.len() - k,
    {
        let i = hits[k];
        proof {
            lemma_indices_where_contains(n as nat, pm, i as int);
            assert(hits@.contains(i));
        }
        let ghost before = mask@;
        if contains_index(&query.patterns[i].roots, root) && eval_all(
            query.patterns[i].emit.as_slice(),
            meta,
        ) {
            assert(i < n);
            assert(n <= crate::ring::words_for(n as nat) * 64) by (nonlinear_arith)
                requires
                    n >= 0,
                    crate::ring::words_for(n as nat) == (if n == 0 {
                        1nat
                    } else {
                        ((n + 63) / 64) as nat
                    }),
            ;
            mask.set(i);
            any = true;
            proof {
                assert(mask@[i as int]);
                assert forall|j: int| 0 <= j < mask@.len() implies (#[trigger] mask@[j] <==> (exists|
                    t: int,
                |
                    0 <= t < k + 1 && hits@[t] == j && applies_to(*query, j, root) && all_hold(
                        query.patterns@[j].emit@,
                        *meta,
                    ))) by {
                    if j != i {
                        assert(mask@[j] == before[j]);
                    } else {
                        assert(hits@[k as int] == j);
                    }
                }
            }
        } else {
            proof {
                assert forall|j: int| 0 <= j < mask@.len() implies (#[trigger] mask@[j] <==> (exists|
                    t: int,
                |
                    0 <= t < k + 1 && hits@[t] == j && applies_to(*query, j, root) && all_hold(
                        query.patterns@[j].emit@,
                        *meta,
                    ))) by {
                    if mask@[j] {
                        let t = choose|t: int|
                            0 <= t < k && hits@[t] == j && applies_to(*query, j, root) && all_hold(
                                query.patterns@[j].emit@,
                                *meta,
                            );
                    }
                }
            }
        }
        k += 1;
    }
    proof {
        assert forall|j: int| 0 <= j < mask@.len() implies (#[trigger] mask@[j] <==> (j < n && emits(
            ps,
            *query,
            root,
            pv,
            *meta,
            j,
        ))) by {
            lemma_indices_where_contains(n as nat, pm, j);
            if mask@[j] {
                let t = choose|t: int|
                    0 <= t < hits@.len() && hits@[t] == j && applies_to(*query, j, root) && all_hold(
                        query.patterns@[j].emit@,
                        *meta,
                    );
                assert(hits@.contains(j as usize));
            }
            if j < n && emits(ps, *query, root, pv, *meta, j) {
                assert(hits@.contains(j as usize));
                let t = choose|t: int| 0 <= t < hits@.len() && hits@[t] == j as usize;
            }
        }
        if exists|i: int| 0 <= i < n && #[trigger] emits(ps, *query, root, pv, *meta, i) {
            let i = choose|i: int| 0 <= i < n && #[trigger] emits(ps, *query, root, pv, *meta, i);
            assert(n <= crate::ring::words_for(n as nat) * 64) by (nonlinear_arith)
                requires
                    n >= 0,
                    crate::ring::words_for(n as nat) == (if n == 0 {
                        1nat
                    } else {
                        ((n + 63) / 64) as nat
                    }),
            ;
            assert(mask@[i]);
        }
        if any {
            let j = choose|j: int| 0 <= j < mask@.len() && mask@[j];
            assert(j < n && emits(ps, *query, root, pv, *meta, j));
        }
    }
    if any {
        Some(mask)
    } else {
        None
    }
}

/// The `Match` item an entry of container `container` is reported with, or `None`
/// when no pattern emits it: its name, the mask of the patterns that emit it (as
/// [`emit_mask`] gives it) and its metadata snapshot with the `fetched` fields.
pub fn match_item(
    patterns: &PatternSet,
    query: &Query,
    root: usize,
    path: &[&[CodePoint]],
    meta: &EntryMeta,
    container: ContainerId,
    name: &[CodePoint],
    fetched: MetaMask,
) -> (r: Option<crate::ring::Match>)
    requires
        patterns@.len() == query.patterns@.len(),
        query.patterns@.len() <= usize::MAX - 63,
    ensures
        r is Some <==> exists|i: int|
            0 <= i < query.patterns@.len() && #[trigger] emits(
                patterns@,
                *query,
                root,
                path_view(path@),
                *meta,
                i,
            ),
        r matches Some(m) ==> {
            &&& m.container == container
            &&& m.name@ == name@
            &&& m.meta == crate::ring::owned_of(*meta, fetched)
            &&& m.matched@.len() == crate::ring::words_for(query.patterns@.len() as nat) * 64
            &&& forall|j: int|
                0 <= j < m.matched@.len() ==> (#[trigger] m.matched@[j] <==> (j
                    < query.patterns@.len() && emits(
                    patterns@,
                    *query,
                    root,
                    path_view(path@),
                    *meta,
                    j,
                )))
        },
{
    match emit_mask(patterns, query, root, path, meta) {
        None => None,
        Some(mask) => Some(
            crate::ring::Match {
                container,
                name: crate::ring::Name::from_code_points(name),
                matched: mask,
                meta: crate::ring::EntryMetaOwned::from_meta(meta, fetched),
            },
        ),
    }
}

/// Whether to descend into an entry: it is a directory candidate, some pattern that
/// applies to the root is still viable below it, and the descend filter holds.
pub fn wants_descend(
    patterns: &PatternSet,
    query: &Query,
    root: usize,
    path: &[&[CodePoint]],
    meta: &EntryMeta,
    entry: &DirEntry,
) -> (r: bool)
    requires
        patterns@.len() == query.patterns@.len(),
    ensures
        r == (dir_candidate(*entry, query.options.follow_links) && (exists|i: int|
            0 <= i < query.patterns@.len() && #[trigger] pattern_viable_at(
                patterns@,
                i,
                path_view(path@),
            ) && applies_to(*query, i, root)) && all_hold(query.descend@, *meta)),
{
    let candidate = if entry.is_reparse {
        query.options.follow_links == FollowLinks::Always
    } else {
        entry.entry_type == EntryType::Dir
    };
    if !candidate {
        return false;
    }
    let n = query.patterns.len();
    let applies = |i: usize| -> (b: bool)
        ensures
            b == (i < n && applies_to(*query, i as int, root)),
        { i < query.patterns.len() && contains_index(&query.patterns[i].roots, root) };
    let viable = patterns.should_descend_where(path, applies);
    if !viable {
        return false;
    }
    eval_all(query.descend.as_slice(), meta)
}

/// Whether `ps` is the pattern set of query `q`: one pattern per query entry, in
/// order, each with the entry's segments, case rule, anchor and dialect.
pub open spec fn set_of_query(ps: Seq<crate::syntax::set::CompiledPattern>, q: Query) -> bool {
    &&& ps.len() == q.patterns@.len()
    &&& forall|i: int|
        0 <= i < ps.len() ==> {
            &&& (#[trigger] ps[i]).segs() == q.patterns@[i].glob.segs()
            &&& ps[i].case == q.patterns@[i].glob.case
            &&& ps[i].anchor == q.patterns@[i].glob.anchor
            &&& ps[i].dialect == q.patterns@[i].glob.dialect
        }
}

/// Whether the `i`-th pattern of query `q` emits entry metadata `m` at `path` under
/// root `root`: its glob matches the path, it applies to the root, and its emit
/// filter holds.
pub open spec fn query_emits(q: Query, root: usize, path: Seq<Seq<u32>>, m: EntryMeta, i: int) -> bool {
    &&& path_matches(q.patterns@[i].glob.segs(), path, q.patterns@[i].glob.case)
    &&& applies_to(q, i, root)
    &&& all_hold(q.patterns@[i].emit@, m)
}

/// A copy of a compiled pattern.
fn clone_compiled(c: &crate::syntax::set::CompiledPattern) -> (r: crate::syntax::set::CompiledPattern)
    ensures
        r.segs() == c.segs(),
        r.case == c.case,
        r.anchor == c.anchor,
        r.dialect == c.dialect,
{
    let n = c.pattern.segments.len();
    let mut segs: Vec<crate::syntax::PatternSegment> = Vec::new();
    let mut i: usize = 0;
    while i < n
        invariant
            i <= n,
            n == c.pattern.segments@.len(),
            segs@.len() == i,
            forall|j: int| 0 <= j < i ==> (#[trigger] segs@[j])@ == c.pattern.segments@[j]@,
        decreases n - i,
    {
        let s = crate::syntax::parse::clone_pattern_segment(&c.pattern.segments[i]);
        segs.push(s);
        i += 1;
    }
    let r = crate::syntax::set::CompiledPattern {
        pattern: crate::syntax::Pattern { segments: segs },
        anchor: c.anchor,
        dialect: c.dialect,
        case: c.case,
    };
    assert(r.segs() =~= c.segs());
    r
}

/// The pattern set the walk matches with: the query's globs, in query order, so a
/// pattern's index in the set is its index in the query.
pub fn pattern_set_of(q: &Query) -> (r: PatternSet)
    ensures
        set_of_query(r@, *q),
{
    let n = q.patterns.len();
    let mut v: Vec<crate::syntax::set::CompiledPattern> = Vec::new();
    let mut i: usize = 0;
    while i < n
        invariant
            i <= n,
            n == q.patterns@.len(),
            v@.len() == i,
            forall|j: int|
                0 <= j < i ==> {
                    &&& (#[trigger] v@[j]).segs() == q.patterns@[j].glob.segs()
                    &&& v@[j].case == q.patterns@[j].glob.case
                    &&& v@[j].anchor == q.patterns@[j].glob.anchor
                    &&& v@[j].dialect == q.patterns@[j].glob.dialect
                },
        decreases n - i,
    {
        let c = clone_compiled(&q.patterns[i].glob);
        v.push(c);
        i += 1;
    }
    PatternSet::from_compiled(v)
}

/// With the query's own pattern set, what a pattern emits is what the query says it
/// emits: the set adds nothing and drops nothing.
pub proof fn lemma_set_of_query_emits(
    ps: Seq<crate::syntax::set::CompiledPattern>,
    q: Query,
    root: usize,
    path: Seq<Seq<u32>>,
    m: EntryMeta,
    i: int,
)
    requires
        set_of_query(ps, q),
        0 <= i < q.patterns@.len(),
    ensures
        emits(ps, q, root, path, m, i) == query_emits(q, root, path, m, i),
{
    assert(ps[i].segs() == q.patterns@[i].glob.segs());
}

/// Whether a resolved link target (its exact path components; `None` when it could
/// not be resolved) lies within one of the resolved roots.
pub open spec fn target_within_roots(
    target: Option<Seq<Seq<char>>>,
    roots: Seq<Seq<Seq<char>>>,
) -> bool {
    target matches Some(t) && exists|i: int| 0 <= i < roots.len() && within_key(#[trigger] roots[i], t)
}

/// The model of a resolved link target.
pub open spec fn target_key_view(t: Option<Vec<Vec<char>>>) -> Option<Seq<Seq<char>>> {
    match t {
        Some(k) => Some(parts_view(k@)),
        None => None,
    }
}

/// The models of a list of resolved root keys.
pub open spec fn root_keys_view(v: Seq<Vec<Vec<char>>>) -> Seq<Seq<Seq<char>>> {
    Seq::new(v.len(), |i: int| parts_view(v[i]@))
}

/// Whether a descent candidate may be entered under root confinement. A query that
/// is not confined, and an entry that is no followed link, always may. Otherwise the
/// link's resolved target must lie within some resolved root; a target that could
/// not be resolved is declined, so confinement never follows a link it cannot place.
/// A declined candidate is reported as `Blocked` with `RootEscape`.
pub fn confined_descent_allowed(
    query: &Query,
    entry: &DirEntry,
    target: &Option<Vec<Vec<char>>>,
    root_keys: &Vec<Vec<Vec<char>>>,
) -> (r: bool)
    ensures
        r == (!query.options.confine_to_roots || !entry.is_reparse || target_within_roots(
            target_key_view(*target),
            root_keys_view(root_keys@),
        )),
{
    if !query.options.confine_to_roots || !entry.is_reparse {
        return true;
    }
    match target {
        None => false,
        Some(t) => {
            let ghost ks = root_keys_view(root_keys@);
            let mut i: usize = 0;
            while i < root_keys.len()
                invariant
                    i <= root_keys@.len(),
                    ks == root_keys_view(root_keys@),
                    target_key_view(*target) == Some(parts_view(t@)),
                    forall|j: int| 0 <= j < i ==> !within_key(#[trigger] ks[j], parts_view(t@)),
                decreases root_keys@.len() - i,
            {
                if within(&root_keys[i], t) {
                    assert(within_key(ks[i as int], parts_view(t@)));
                    return true;
                }
                i += 1;
            }
            false
        },
    }
}

/// What the walk does with an entry once it is listed: leave it, enter it as a
/// child container, or decline it under root confinement (reported as `Blocked`
/// with `RootEscape`).
#[derive(Clone, Copy, Debug, PartialEq, Eq, Structural)]
pub enum DescendAction {
    /// Not descended: no directory candidate, no viable pattern, or the descend
    /// filter fails.
    Skip,
    /// Descended (subject to the cycle gate).
    Enter,
    /// Wanted, but a followed link leaves the roots of a confined query.
    Block,
}

/// Whether the walk wants to descend into an entry: it is a directory candidate,
/// some pattern that applies to the root is still viable below it, and the descend
/// filter holds.
pub open spec fn descend_wanted(
    ps: Seq<crate::syntax::set::CompiledPattern>,
    q: Query,
    root: usize,
    path: Seq<Seq<u32>>,
    m: EntryMeta,
    e: DirEntry,
) -> bool {
    &&& dir_candidate(e, q.options.follow_links)
    &&& exists|i: int|
        0 <= i < q.patterns@.len() && #[trigger] pattern_viable_at(ps, i, path) && applies_to(q, i, root)
    &&& all_hold(q.descend@, m)
}

/// The descend decision for one listed entry, confinement included: an entry the
/// walk does not want is skipped; a wanted one is entered unless the query is
/// confined to its roots and the entry is a followed link whose resolved target
/// (`None` when it could not be resolved) lies within no resolved root, in which case
/// it is blocked.
pub fn descend_action(
    patterns: &PatternSet,
    query: &Query,
    root: usize,
    path: &[&[CodePoint]],
    meta: &EntryMeta,
    entry: &DirEntry,
    target: &Option<Vec<Vec<char>>>,
    root_keys: &Vec<Vec<Vec<char>>>,
) -> (r: DescendAction)
    requires
        patterns@.len() == query.patterns@.len(),
    ensures
        !descend_wanted(patterns@, *query, root, path_view(path@), *meta, *entry) ==> r
            == DescendAction::Skip,
        descend_wanted(patterns@, *query, root, path_view(path@), *meta, *entry) ==> (r
            == DescendAction::Enter <==> (!query.options.confine_to_roots || !entry.is_reparse
            || target_within_roots(target_key_view(*target), root_keys_view(root_keys@)))),
        descend_wanted(patterns@, *query, root, path_view(path@), *meta, *entry) ==> r
            != DescendAction::Skip,
{
    if !wants_descend(patterns, query, root, path, meta, entry) {
        return DescendAction::Skip;
    }
    if confined_descent_allowed(query, entry, target, root_keys) {
        DescendAction::Enter
    } else {
        DescendAction::Block
    }
}

/// What becomes of a directory that could not be enumerated.
#[derive(Debug)]
pub enum ScanFailure {
    /// A root could not be opened: the query fails, with this error as the last item
    /// before its failed terminal.
    Fatal(crate::ring::CqError),
    /// A child directory could not be opened: the error is reported and the walk goes
    /// on.
    Reported(crate::ring::CqError),
}

/// The error a failed directory scan of root `root` is reported with, and whether it
/// is fatal: it is exactly when the directory is a root (it has no parent container).
pub fn scan_failure(
    parent: Option<ContainerId>,
    root: usize,
    error: crate::error::EntryError,
) -> (r: ScanFailure)
    requires
        root <= u32::MAX,
    ensures
        r is Fatal <==> parent is None,
        match r {
            ScanFailure::Fatal(e) | ScanFailure::Reported(e) => e.container == parent && e.root == Some(
                root as u32,
            ) && e.error == error,
        },
{
    let e = crate::ring::CqError::at_root(parent, root, error);
    match parent {
        None => ScanFailure::Fatal(e),
        Some(_) => ScanFailure::Reported(e),
    }
}

/// What each directory scan must fetch: the stat tier only when the fetch mask
/// touches it, and a file identity only for reparse points when links are followed
/// with cycle detection on.
pub fn enum_plan(query: &Query) -> (r: EnumPlan)
    ensures
        r.want_stat == (crate::builder::fetch_bits(*query) & 159u16 != 0),
        !r.want_file_id,
        r.want_reparse_file_id == (query.options.cycle_detection && query.options.follow_links
            == FollowLinks::Always),
{
    let fetch = query.fetch_mask();
    let stat = MetaMask::size().union(MetaMask::mtime()).union(MetaMask::atime()).union(
        MetaMask::ctime(),
    ).union(MetaMask::btime()).union(MetaMask::attrs());
    assert(1u16 | 2u16 | 4u16 | 8u16 | 16u16 | 128u16 == 159u16) by (bit_vector);
    EnumPlan {
        want_stat: fetch.intersects(stat),
        want_file_id: false,
        want_reparse_file_id: query.options.cycle_detection && query.options.follow_links
            == FollowLinks::Always,
    }
}

/// Which roots some pattern applies to; only those are walked, so an unrelated bad
/// root cannot fail an otherwise valid traversal.
pub fn referenced_roots(query: &Query) -> (r: Vec<bool>)
    requires
        forall|e: int, k: int|
            0 <= e < query.patterns@.len() && 0 <= k < query.patterns@[e].roots@.len() ==> #[trigger] query.patterns@[e].roots@[k]
                < query.roots@.len(),
    ensures
        r@.len() == query.roots@.len(),
        forall|i: int|
            0 <= i < r@.len() ==> (#[trigger] r@[i] <==> exists|e: int|
                0 <= e < query.patterns@.len() && #[trigger] applies_to(*query, e, i as usize)),
{
    let n = query.roots.len();
    let mut r: Vec<bool> = Vec::new();
    let mut i: usize = 0;
    while i < n
        invariant
            i <= n,
            n == query.roots@.len(),
            r@.len() == i,
            forall|j: int| 0 <= j < i ==> !(#[trigger] r@[j]),
        decreases n - i,
    {
        r.push(false);
        i += 1;
    }
    let mut e: usize = 0;
    while e < query.patterns.len()
        invariant
            e <= query.patterns@.len(),
            r@.len() == n,
            n == query.roots@.len(),
            forall|e2: int, k: int|
                0 <= e2 < query.patterns@.len() && 0 <= k < query.patterns@[e2].roots@.len() ==> #[trigger] query.patterns@[e2].roots@[k]
                    < query.roots@.len(),
            forall|j: int|
                0 <= j < r@.len() ==> (#[trigger] r@[j] <==> exists|e2: int|
                    0 <= e2 < e && #[trigger] applies_to(*query, e2, j as usize)),
        decreases query.patterns@.len() - e,
    {
        let roots = &query.patterns[e].roots;
        let mut k: usize = 0;
        while k < roots.len()
            invariant
                k <= roots@.len(),
                roots@ == query.patterns@[e as int].roots@,
                e < query.patterns@.len(),
                r@.len() == n,
                n == query.roots@.len(),
                forall|k2: int| 0 <= k2 < roots@.len() ==> #[trigger] roots@[k2] < n,
                forall|j: int|
                    0 <= j < r@.len() ==> (#[trigger] r@[j] <==> (exists|e2: int|
                        0 <= e2 < e && #[trigger] applies_to(*query, e2, j as usize)) || exists|
                        k2: int,
                    |
                        0 <= k2 < k && roots@[k2] == j),
            decreases roots@.len() - k,
        {
            let idx = roots[k];
            r.set(idx, true);
            k += 1;
        }
        proof {
            assert forall|j: int| 0 <= j < r@.len() implies (#[trigger] r@[j] <==> exists|e2: int|
                0 <= e2 < e + 1 && #[trigger] applies_to(*query, e2, j as usize)) by {
                if exists|k2: int| 0 <= k2 < roots@.len() && roots@[k2] == j {
                    let k2 = choose|k2: int| 0 <= k2 < roots@.len() && roots@[k2] == j;
                    assert(roots@.contains(j as usize));
                    assert(applies_to(*query, e as int, j as usize));
                }
                if applies_to(*query, e as int, j as usize) {
                    let k2 = choose|k2: int| 0 <= k2 < roots@.len() && roots@[k2] == j as usize;
                }
            }
        }
        e += 1;
    }
    r
}

/// How a walk ends: a fatal error wins over a cancellation, which wins over
/// completion.
pub fn terminal_reason(fatal: bool, cancelled: bool) -> (r: TerminalReason)
    ensures
        r == (if fatal {
            TerminalReason::Failed
        } else if cancelled {
            TerminalReason::Cancelled
        } else {
            TerminalReason::Completed
        }),
{
    if fatal {
        TerminalReason::Failed
    } else if cancelled {
        TerminalReason::Cancelled
    } else {
        TerminalReason::Completed
    }
}

/// How many scan workers run: the permit count, at least one.
pub fn worker_count(options: &Options) -> (r: usize)
    ensures
        r == (if options.permits == 0 {
            1
        } else {
            options.permits
        }),
{
    if options.permits == 0 {
        1
    } else {
        options.permits
    }
}

/// The file identities of reparse directories already descended, kept in a hash
/// map from a file's id to the volumes it was seen on.
#[derive(Debug)]
pub struct Visited {
    by_id: std::collections::HashMap<u128, Vec<u64>>,
}

impl View for Visited {
    type V = Set<FileId>;

    closed spec fn view(&self) -> Set<FileId> {
        Set::new(|f: FileId| self.by_id@.contains_key(f.id) && self.by_id@[f.id]@.contains(f.volume))
    }
}

impl Visited {
    /// Nothing visited yet.
    pub fn new() -> (r: Visited)
        ensures
            r@ == Set::<FileId>::empty(),
    {
        let r = Visited { by_id: std::collections::HashMap::new() };
        assert(r@ =~= Set::<FileId>::empty());
        r
    }

    /// The cycle-detection gate: a reparse-point directory with a known identity is
    /// admitted only the first time that identity is seen; every other entry passes.
    pub fn first_visit(&mut self, entry: &DirEntry, cycle_detection: bool) -> (r: bool)
        ensures
            !(entry.is_reparse && cycle_detection && (entry.file_id.volume != 0 || entry.file_id.id
                != 0)) ==> r && final(self)@ == old(self)@,
            (entry.is_reparse && cycle_detection && (entry.file_id.volume != 0 || entry.file_id.id
                != 0)) ==> r == !old(self)@.contains(entry.file_id) && final(self)@ == old(
                self,
            )@.insert(entry.file_id),
    {
        broadcast use vstd::std_specs::hash::group_hash_axioms;

        if !(entry.is_reparse && cycle_detection && file_id_known(entry.file_id)) {
            return true;
        }
        let id = entry.file_id;
        let ghost m0 = self.by_id@;
        let mut vols: Vec<u64> = Vec::new();
        match self.by_id.get(&id.id) {
            Some(seen) => {
                let mut i: usize = 0;
                while i < seen.len()
                    invariant
                        i <= seen@.len(),
                        vols@ == seen@.take(i as int),
                    decreases seen@.len() - i,
                {
                    vols.push(seen[i]);
                    i += 1;
                    assert(vols@ =~= seen@.take(i as int));
                }
                assert(seen@.take(seen@.len() as int) =~= seen@);
            },
            None => {},
        }
        assert(m0.contains_key(id.id) ==> vols@ == m0[id.id]@);
        assert(!m0.contains_key(id.id) ==> vols@.len() == 0);
        let mut k: usize = 0;
        while k < vols.len()
            invariant
                k <= vols@.len(),
                self.by_id@ == m0,
                m0 == old(self).by_id@,
                id == entry.file_id,
                entry.is_reparse && cycle_detection && (entry.file_id.volume != 0 || entry.file_id.id
                    != 0),
                m0.contains_key(id.id) ==> vols@ == m0[id.id]@,
                !m0.contains_key(id.id) ==> vols@.len() == 0,
                forall|j: int| 0 <= j < k ==> vols@[j] != id.volume,
            decreases vols@.len() - k,
        {
            if vols[k] == id.volume {
                proof {
                    assert(vols@[k as int] == id.volume);
                    assert(vols@.contains(id.volume));
                    assert(old(self)@.contains(id));
                    assert(old(self)@.insert(id) =~= old(self)@);
                }
                return false;
            }
            k += 1;
        }
        assert(!vols@.contains(id.volume));
        assert(!old(self)@.contains(id));
        let ghost before = vols@;
        vols.push(id.volume);
        self.by_id.insert(id.id, vols);
        proof {
            assert forall|f: FileId| #[trigger] self@.contains(f) <==> old(self)@.insert(id).contains(f) by {
                if f.id == id.id {
                    assert(self.by_id@[f.id]@ == before.push(id.volume));
                    if before.contains(f.volume) {
                        let t = choose|t: int| 0 <= t < before.len() && before[t] == f.volume;
                        assert(before.push(id.volume)[t] == f.volume);
                    }
                    if before.push(id.volume).contains(f.volume) && f.volume != id.volume {
                        let t = choose|t: int| 0 <= t < before.len() + 1 && before.push(id.volume)[t] == f.volume;
                        assert(before[t] == f.volume);
                    }
                    assert(before.push(id.volume)[before.len() as int] == id.volume);
                }
            }
            assert(self@ =~= old(self)@.insert(id));
        }
        true
    }
}

} // verus!
