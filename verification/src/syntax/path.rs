//! Path structure over code points: splitting into segments on a separator predicate,
//! collapsing consecutive separators, and `.` / `..` classification.
use crate::syntax::{path_view, CodePoint};
use vstd::prelude::*;

verus! {

/// The maximal runs of non-separator positions of `cps` from index `i`, where `m[j]`
/// says whether position `j` is a separator and `start` is where the current run
/// began, if one is open.
pub open spec fn runs_from(cps: Seq<u32>, m: Seq<bool>, i: int, start: Option<int>) -> Seq<Seq<u32>>
    decreases cps.len() - i,
{
    if i < 0 || i >= cps.len() {
        match start {
            Some(s) => seq![cps.subrange(s, cps.len() as int)],
            None => Seq::empty(),
        }
    } else if m[i] {
        match start {
            Some(s) => seq![cps.subrange(s, i)] + runs_from(cps, m, i + 1, None),
            None => runs_from(cps, m, i + 1, None),
        }
    } else {
        runs_from(cps, m, i + 1, if start is None { Some(i) } else { start })
    }
}

/// The segments joined end to end.
pub open spec fn concat_all(ss: Seq<Seq<u32>>) -> Seq<u32>
    decreases ss.len(),
{
    if ss.len() == 0 {
        Seq::empty()
    } else {
        ss[0] + concat_all(ss.drop_first())
    }
}

/// The code points of `cps` from index `i` that are not separators, in order.
pub open spec fn kept_from(cps: Seq<u32>, m: Seq<bool>, i: int) -> Seq<u32>
    decreases cps.len() - i,
{
    if i < 0 || i >= cps.len() {
        Seq::empty()
    } else if m[i] {
        kept_from(cps, m, i + 1)
    } else {
        seq![cps[i]] + kept_from(cps, m, i + 1)
    }
}

proof fn lemma_runs_from(cps: Seq<u32>, m: Seq<bool>, i: int, start: Option<int>)
    requires
        0 <= i <= cps.len(),
        m.len() == cps.len(),
        start matches Some(st) ==> 0 <= st < i,
    ensures
        forall|k: int| 0 <= k < runs_from(cps, m, i, start).len() ==> #[trigger] runs_from(cps, m, i, start)[k].len() > 0,
        concat_all(runs_from(cps, m, i, start)) == (match start {
            Some(st) => cps.subrange(st, i),
            None => Seq::empty(),
        }) + kept_from(cps, m, i),
    decreases cps.len() - i,
{
    let r = runs_from(cps, m, i, start);
    if i >= cps.len() {
        match start {
            Some(st) => {
                assert(concat_all(r.drop_first()) == Seq::<u32>::empty());
                assert(cps.subrange(st, i) + Seq::<u32>::empty() =~= cps.subrange(st, i));
                assert(r[0] + Seq::<u32>::empty() =~= r[0]);
            },
            None => {
                assert(Seq::<u32>::empty() + Seq::<u32>::empty() =~= Seq::<u32>::empty());
            },
        }
    } else if m[i] {
        lemma_runs_from(cps, m, i + 1, None);
        let rest = runs_from(cps, m, i + 1, None);
        match start {
            Some(st) => {
                assert(r == seq![cps.subrange(st, i)] + rest);
                assert(r.drop_first() =~= rest);
                assert(r[0] == cps.subrange(st, i));
                assert forall|k: int| 0 <= k < r.len() implies #[trigger] r[k].len() > 0 by {
                    if k > 0 {
                        assert(r[k] == rest[k - 1]);
                    }
                }
            },
            None => {
                assert(Seq::<u32>::empty() + kept_from(cps, m, i + 1) =~= kept_from(cps, m, i + 1));
            },
        }
    } else {
        let ns = if start is None { Some(i) } else { start };
        lemma_runs_from(cps, m, i + 1, ns);
        let st = ns->Some_0;
        assert(cps.subrange(st, i + 1) =~= cps.subrange(st, i) + seq![cps[i]]);
        match start {
            Some(s0) => {
                assert(cps.subrange(s0, i) + (seq![cps[i]] + kept_from(cps, m, i + 1)) =~= cps.subrange(
                    s0,
                    i + 1,
                ) + kept_from(cps, m, i + 1));
            },
            None => {
                assert(cps.subrange(i, i) =~= Seq::<u32>::empty());
                assert(Seq::<u32>::empty() + (seq![cps[i]] + kept_from(cps, m, i + 1)) =~= cps.subrange(
                    i,
                    i + 1,
                ) + kept_from(cps, m, i + 1));
            },
        }
    }
}

/// The segments a split yields are the maximal runs of non-separators: none is
/// empty, and joined end to end they give exactly the code points that are not
/// separators, in order.
pub proof fn lemma_split_runs(cps: Seq<u32>, m: Seq<bool>)
    requires
        m.len() == cps.len(),
    ensures
        forall|k: int| 0 <= k < runs_from(cps, m, 0, None).len() ==> #[trigger] runs_from(cps, m, 0, None)[k].len() > 0,
        concat_all(runs_from(cps, m, 0, None)) == kept_from(cps, m, 0),
{
    lemma_runs_from(cps, m, 0, None);
    assert(Seq::<u32>::empty() + kept_from(cps, m, 0) =~= kept_from(cps, m, 0));
}

/// Split `cps` into non-empty segments on every code point for which `is_sep`
/// returns true; consecutive separators collapse, and leading / trailing ones are
/// dropped. The result is the runs between the positions `is_sep` reported as
/// separators when called on each code point in turn.
pub fn split_segments<'a, F>(cps: &'a [CodePoint], is_sep: F) -> (out: Vec<&'a [CodePoint]>)
    where
        F: Fn(CodePoint) -> bool,
    requires
        forall|c: CodePoint| #[trigger] is_sep.requires((c,)),
    ensures
        exists|m: Seq<bool>|
            #![trigger m.len()]
            m.len() == cps@.len() && (forall|j: int| 0 <= j < cps@.len() ==> #[trigger] is_sep.ensures((cps@[j],), m[j]))
                && path_view(out@) == runs_from(cps@, m, 0, None),
{
    let n = cps.len();
    let mut out: Vec<&'a [CodePoint]> = Vec::new();
    let mut start: Option<usize> = None;
    let ghost mut m: Seq<bool> = Seq::empty();
    let mut i: usize = 0;
    while i < n
        invariant
            i <= n,
            n == cps@.len(),
            forall|c: CodePoint| #[trigger] is_sep.requires((c,)),
            m.len() == i,
            forall|j: int| 0 <= j < i ==> #[trigger] is_sep.ensures((cps@[j],), m[j]),
            start matches Some(s) ==> s < i,
            forall|mm: Seq<bool>|
                #![trigger mm.len()]
                mm.len() == n && mm.subrange(0, i as int) == m ==> runs_from(cps@, mm, 0, None)
                    == path_view(out@) + runs_from(
                    cps@,
                    mm,
                    i as int,
                    match start {
                        Some(s) => Some(s as int),
                        None => None,
                    },
                ),
        decreases n - i,
    {
        let cp = cps[i];
        let b = is_sep(cp);
        let ghost before = path_view(out@);
        let ghost old_start = start;
        let ghost old_m = m;
        let ghost os: Option<int> = match start {
            Some(s) => Some(s as int),
            None => None,
        };
        proof {
            m = m.push(b);
        }
        if b {
            if let Some(s) = start {
                out.push(&cps[s..i]);
                start = None;
            }
        } else if start.is_none() {
            start = Some(i);
        }
        proof {
            assert forall|mm: Seq<bool>|
                #![trigger mm.len()]
                mm.len() == n && mm.subrange(0, i + 1) == m implies runs_from(cps@, mm, 0, None)
                    == path_view(out@) + runs_from(
                    cps@,
                    mm,
                    i + 1,
                    match start {
                        Some(s) => Some(s as int),
                        None => None,
                    },
                ) by {
                assert(mm.subrange(0, i as int) =~= old_m);
                assert(mm[i as int] == m[i as int]);
                assert(runs_from(cps@, mm, 0, None) == before + runs_from(cps@, mm, i as int, os));
                if b {
                    if let Some(s) = old_start {
                        assert(path_view(out@) =~= before + seq![cps@.subrange(s as int, i as int)]);
                        assert(before + (seq![cps@.subrange(s as int, i as int)] + runs_from(cps@, mm, i + 1, None)) =~= path_view(out@) + runs_from(cps@, mm, i + 1, None));
                    } else {
                        assert(path_view(out@) =~= before);
                    }
                } else {
                    assert(path_view(out@) =~= before);
                }
            }
        }
        i += 1;
    }
    let ghost before = path_view(out@);
    if let Some(s) = start {
        out.push(&cps[s..n]);
        assert(path_view(out@) =~= before + seq![cps@.subrange(s as int, n as int)]);
    }
    assert(m.subrange(0, n as int) =~= m);
    assert(path_view(out@) =~= before + runs_from(cps@, m, n as int, match start {
        Some(s) => Some(s as int),
        None => None,
    }));
    out
}

/// True if a segment is `.`: a no-op component, stripped from patterns.
pub fn is_dot(seg: &[CodePoint]) -> (r: bool)
    ensures
        r == (seg@ == seq!['.' as u32]),
{
    let r = seg.len() == 1 && seg[0] == '.' as u32;
    assert(r ==> seg@ =~= seq!['.' as u32]);
    r
}

/// True if a segment is `..`: rejected in patterns.
pub fn is_dotdot(seg: &[CodePoint]) -> (r: bool)
    ensures
        r == (seg@ == seq!['.' as u32, '.' as u32]),
{
    let r = seg.len() == 2 && seg[0] == '.' as u32 && seg[1] == '.' as u32;
    assert(r ==> seg@ =~= seq!['.' as u32, '.' as u32]);
    r
}

} // verus!
