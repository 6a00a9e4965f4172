//! Lexical handling of root paths: components, the canonical key used to dedup and
//! nest-check roots, and interning a root into the query's root list. Paths are
//! read lexically, by the host's grammar: on a POSIX host `/` separates components
//! and a leading `/` makes a path absolute; on a Windows host `/` and `\` both
//! separate, an absolute path starts with a drive and a separator (`C:\`) or is a
//! UNC path (`\\server\share`), and the keys that dedup roots are ordinal-upcased.
//! Nothing touches the filesystem.
use crate::error::Error;
use crate::syntax::chars_of;
use crate::syntax::decode::{lossy_char, lossy_char_vec};
use crate::syntax::dialect::{parts_view, split_chars, split_on, sub_chars};
use crate::syntax::matcher::{fold, upcase};
use vstd::prelude::*;
use vstd::string::*;

verus! {

/// Whether `c` separates path components on the host.
pub open spec fn is_host_sep(c: char, host_win: bool) -> bool {
    c == '/' || (host_win && c == '\\')
}

/// Whether `c` is an ASCII letter.
pub open spec fn is_drive_letter(c: char) -> bool {
    ('a' <= c <= 'z') || ('A' <= c <= 'Z')
}

/// Whether `s` starts with a drive designator and a separator (`C:\`).
pub open spec fn is_drive_absolute(s: Seq<char>) -> bool {
    s.len() >= 3 && is_drive_letter(s[0]) && s[1] == ':' && is_host_sep(s[2], true)
}

/// Whether `s` is a UNC path: two separators, then a name.
pub open spec fn is_unc_path(s: Seq<char>) -> bool {
    s.len() >= 3 && is_host_sep(s[0], true) && is_host_sep(s[1], true) && !is_host_sep(s[2], true)
}

/// Whether `s` names an absolute path on the host: on POSIX it starts at the root
/// `/`; on Windows it is drive-absolute or UNC (a bare leading separator is relative
/// to the current drive there).
pub open spec fn is_absolute_path(s: Seq<char>, host_win: bool) -> bool {
    if host_win {
        is_drive_absolute(s) || is_unc_path(s)
    } else {
        s.len() > 0 && s[0] == '/'
    }
}

/// `s` with every host separator written as `/`.
pub open spec fn unify_seps(s: Seq<char>, host_win: bool) -> Seq<char> {
    Seq::new(s.len(), |i: int| if is_host_sep(s[i], host_win) { '/' } else { s[i] })
}

/// A character's ordinal uppercase.
pub open spec fn fold_char(c: char) -> char {
    lossy_char(upcase(c as u32))
}

/// A component's ordinal uppercase.
pub open spec fn fold_part(p: Seq<char>) -> Seq<char> {
    Seq::new(p.len(), |i: int| fold_char(p[i]))
}

/// The parts that carry a name: empty parts (from repeated or edge separators) and
/// `.` parts are dropped.
pub open spec fn lexical_parts(parts: Seq<Seq<char>>) -> Seq<Seq<char>>
    decreases parts.len(),
{
    if parts.len() == 0 {
        Seq::empty()
    } else {
        let rest = lexical_parts(parts.drop_last());
        let p = parts.last();
        if p.len() == 0 || p == seq!['.'] {
            rest
        } else {
            rest.push(p)
        }
    }
}

/// The exact lexical components of a path: its names between host separators, `.`
/// folded away.
pub open spec fn path_parts(s: Seq<char>, host_win: bool) -> Seq<Seq<char>> {
    lexical_parts(split_on(unify_seps(s, host_win), '/'))
}

/// The components a root is keyed by: its exact components on POSIX, their ordinal
/// uppercase on Windows, whose file names compare without case.
pub open spec fn path_components(s: Seq<char>, host_win: bool) -> Seq<Seq<char>> {
    if host_win {
        Seq::new(path_parts(s, true).len(), |i: int| fold_part(path_parts(s, true)[i]))
    } else {
        path_parts(s, false)
    }
}

/// The root of an absolute path on the host, from which a leading-separator pattern
/// is resolved: `/` on POSIX; on Windows the drive and a separator (`D:\`), or the
/// UNC server and share with a separator (`\\server\share\`).
pub open spec fn root_of(b: Seq<char>, host_win: bool) -> Seq<char> {
    if !host_win {
        seq!['/']
    } else if is_drive_absolute(b) {
        seq![b[0], ':', '\\']
    } else {
        let ps = path_parts(b, true);
        if ps.len() >= 2 {
            seq!['\\', '\\'] + ps[0] + seq!['\\'] + ps[1] + seq!['\\']
        } else if ps.len() == 1 {
            seq!['\\', '\\'] + ps[0] + seq!['\\']
        } else {
            seq!['\\', '\\']
        }
    }
}

/// The canonical key of a root path: its components, for an absolute path without a
/// `..` component; `None` otherwise (a relative root, or one that climbs).
pub open spec fn root_key(s: Seq<char>, host_win: bool) -> Option<Seq<Seq<char>>> {
    if is_absolute_path(s, host_win) && !path_parts(s, host_win).contains(seq!['.', '.']) {
        Some(path_components(s, host_win))
    } else {
        None
    }
}

/// Whether key `a` is a strict lexical ancestor of key `b`.
pub open spec fn proper_prefix(a: Seq<Seq<char>>, b: Seq<Seq<char>>) -> bool {
    a.len() < b.len() && b.take(a.len() as int) == a
}

/// Whether key `inner` lies within (or is) key `outer`.
pub open spec fn within_key(outer: Seq<Seq<char>>, inner: Seq<Seq<char>>) -> bool {
    outer.len() <= inner.len() && inner.take(outer.len() as int) == outer
}

/// The keys of a list of root paths.
pub open spec fn keys_of(roots: Seq<Seq<char>>, host_win: bool) -> Seq<Seq<Seq<char>>> {
    Seq::new(roots.len(), |i: int| path_components(roots[i], host_win))
}

/// The first index at or after `i` whose key is `k`.
pub open spec fn first_from(ks: Seq<Seq<Seq<char>>>, k: Seq<Seq<char>>, i: int) -> Option<nat>
    decreases ks.len() - i,
{
    if i < 0 || i >= ks.len() {
        None
    } else if ks[i] == k {
        Some(i as nat)
    } else {
        first_from(ks, k, i + 1)
    }
}

/// Interning `path` into `roots`: the index of the first root with the same key, or
/// a new last entry.
pub open spec fn intern_spec(roots: Seq<Seq<char>>, path: Seq<char>, host_win: bool) -> (
    Seq<Seq<char>>,
    nat,
) {
    match first_from(keys_of(roots, host_win), path_components(path, host_win), 0) {
        Some(i) => (roots, i),
        None => (roots.push(path), roots.len()),
    }
}

/// The views of a list of keys.
pub open spec fn keys_view(v: Seq<Vec<Vec<char>>>) -> Seq<Seq<Seq<char>>> {
    Seq::new(v.len(), |i: int| parts_view(v[i]@))
}

fn is_dot(p: &Vec<char>) -> (r: bool)
    ensures
        r == (p@ == seq!['.']),
{
    if p.len() == 1 && p[0] == '.' {
        assert(p@ =~= seq!['.']);
        true
    } else {
        false
    }
}

fn is_dotdot(p: &Vec<char>) -> (r: bool)
    ensures
        r == (p@ == seq!['.', '.']),
{
    if p.len() == 2 && p[0] == '.' && p[1] == '.' {
        assert(p@ =~= seq!['.', '.']);
        true
    } else {
        false
    }
}

fn is_host_sep_exec(c: char, host_win: bool) -> (r: bool)
    ensures
        r == is_host_sep(c, host_win),
{
    c == '/' || (host_win && c == '\\')
}

/// `chars` with every host separator written as `/`.
fn unify(chars: &Vec<char>, host_win: bool) -> (r: Vec<char>)
    ensures
        r@ == unify_seps(chars@, host_win),
{
    let mut out: Vec<char> = Vec::new();
    let mut i: usize = 0;
    while i < chars.len()
        invariant
            i <= chars@.len(),
            out@ =~= unify_seps(chars@, host_win).take(i as int),
        decreases chars@.len() - i,
    {
        let c = chars[i];
        if is_host_sep_exec(c, host_win) {
            out.push('/');
        } else {
            out.push(c);
        }
        i += 1;
        assert(out@ =~= unify_seps(chars@, host_win).take(i as int));
    }
    assert(unify_seps(chars@, host_win).take(chars@.len() as int) =~= unify_seps(chars@, host_win));
    out
}

/// Whether a path given as characters is absolute on the host.
pub(crate) fn is_absolute_exec(c: &Vec<char>, host_win: bool) -> (r: bool)
    ensures
        r == is_absolute_path(c@, host_win),
{
    let n = c.len();
    if host_win {
        let drive = n >= 3 && (('a' <= c[0] && c[0] <= 'z') || ('A' <= c[0] && c[0] <= 'Z'))
            && c[1] == ':' && is_host_sep_exec(c[2], true);
        let unc = n >= 3 && is_host_sep_exec(c[0], true) && is_host_sep_exec(c[1], true)
            && !is_host_sep_exec(c[2], true);
        drive || unc
    } else {
        n > 0 && c[0] == '/'
    }
}

/// A component's ordinal uppercase.
fn fold_chars(p: &Vec<char>) -> (r: Vec<char>)
    ensures
        r@ == fold_part(p@),
{
    let mut cps: Vec<u32> = Vec::new();
    let mut i: usize = 0;
    while i < p.len()
        invariant
            i <= p@.len(),
            cps@.len() == i,
            forall|j: int| 0 <= j < i ==> cps@[j] == upcase(#[trigger] p@[j] as u32),
        decreases p@.len() - i,
    {
        cps.push(fold(p[i] as u32));
        i += 1;
    }
    let r = lossy_char_vec(cps.as_slice());
    assert(r@ =~= fold_part(p@));
    r
}

/// The root key of components: their ordinal uppercase on Windows, as they are on
/// POSIX.
fn key_of_parts(parts: Vec<Vec<char>>, host_win: bool, Ghost(s): Ghost<Seq<char>>) -> (r: Vec<Vec<char>>)
    requires
        parts_view(parts@) == path_parts(s, host_win),
    ensures
        parts_view(r@) == path_components(s, host_win),
{
    if !host_win {
        return parts;
    }
    let mut out: Vec<Vec<char>> = Vec::new();
    let mut i: usize = 0;
    while i < parts.len()
        invariant
            i <= parts@.len(),
            host_win,
            parts_view(parts@) == path_parts(s, host_win),
            out@.len() == i,
            forall|j: int| 0 <= j < i ==> (#[trigger] out@[j])@ == fold_part(parts@[j]@),
        decreases parts@.len() - i,
    {
        let f = fold_chars(&parts[i]);
        out.push(f);
        i += 1;
    }
    assert(parts_view(out@) =~= path_components(s, host_win)) by {
        assert forall|j: int| 0 <= j < out@.len() implies parts_view(out@)[j] == path_components(s, host_win)[j] by {
            assert(parts_view(parts@)[j] == parts@[j]@);
        }
    }
    out
}

/// The exact lexical components of a path given as characters.
fn components(chars: &Vec<char>, host_win: bool) -> (r: Vec<Vec<char>>)
    ensures
        parts_view(r@) == path_parts(chars@, host_win),
{
    let unified = unify(chars, host_win);
    let parts = split_chars(&unified, '/');
    let ghost pv = parts_view(parts@);
    let mut out: Vec<Vec<char>> = Vec::new();
    let mut i: usize = 0;
    while i < parts.len()
        invariant
            i <= parts@.len(),
            pv == parts_view(parts@),
            pv == split_on(unify_seps(chars@, host_win), '/'),
            parts_view(out@) == lexical_parts(pv.take(i as int)),
        decreases parts@.len() - i,
    {
        assert(pv.take(i + 1).drop_last() =~= pv.take(i as int));
        let p = &parts[i];
        if p.len() != 0 && !is_dot(p) {
            let c = sub_chars(p, 0, p.len());
            assert(c@ =~= p@);
            let ghost before = parts_view(out@);
            out.push(c);
            assert(parts_view(out@) =~= before.push(pv[i as int]));
        }
        i += 1;
    }
    assert(pv.take(parts@.len() as int) =~= pv);
    out
}

fn has_dotdot(comps: &Vec<Vec<char>>) -> (r: bool)
    ensures
        r == parts_view(comps@).contains(seq!['.', '.']),
{
    let mut i: usize = 0;
    while i < comps.len()
        invariant
            i <= comps@.len(),
            forall|j: int| 0 <= j < i ==> parts_view(comps@)[j] != seq!['.', '.'],
        decreases comps@.len() - i,
    {
        if is_dotdot(&comps[i]) {
            assert(parts_view(comps@)[i as int] == seq!['.', '.']);
            return true;
        }
        i += 1;
    }
    false
}

fn append_chars(out: &mut Vec<char>, c: &Vec<char>)
    ensures
        final(out)@ == old(out)@ + c@,
{
    let mut i: usize = 0;
    let ghost start = out@;
    while i < c.len()
        invariant
            i <= c@.len(),
            out@ == start + c@.take(i as int),
        decreases c@.len() - i,
    {
        out.push(c[i]);
        i += 1;
        assert(out@ =~= start + c@.take(i as int));
    }
    assert(c@.take(c@.len() as int) =~= c@);
}

/// The root of an absolute path given as characters.
pub(crate) fn root_of_exec(b: &Vec<char>, host_win: bool) -> (r: Vec<char>)
    requires
        is_absolute_path(b@, host_win),
    ensures
        r@ == root_of(b@, host_win),
{
    let mut r: Vec<char> = Vec::new();
    if !host_win {
        r.push('/');
        assert(r@ =~= seq!['/']);
        return r;
    }
    let drive = b.len() >= 3 && (('a' <= b[0] && b[0] <= 'z') || ('A' <= b[0] && b[0] <= 'Z'))
        && b[1] == ':' && is_host_sep_exec(b[2], true);
    if drive {
        r.push(b[0]);
        r.push(':');
        r.push('\\');
        assert(r@ =~= root_of(b@, host_win));
        return r;
    }
    let ps = components(b, true);
    r.push('\\');
    r.push('\\');
    if ps.len() >= 1 {
        append_chars(&mut r, &ps[0]);
        r.push('\\');
        if ps.len() >= 2 {
            append_chars(&mut r, &ps[1]);
            r.push('\\');
        }
    }
    assert(parts_view(ps@)[0] == ps@[0]@ || ps@.len() == 0);
    assert(r@ =~= root_of(b@, host_win));
    r
}

/// The exact lexical components of `path` on the host (its names between
/// separators, `.` folded away, case kept), without judging them. Containment checks
/// compare these exactly: a resolved path already carries each name's stored casing.
pub fn canon_path_key(path: &str, host_win: bool) -> (r: Vec<Vec<char>>)
    ensures
        parts_view(r@) == path_parts(path@, host_win),
{
    let chars = chars_of(path);
    components(&chars, host_win)
}

/// The canonical key of a root path on the host: its components, ordinal-upcased on
/// Windows. A relative root, or one with a `..` component, is refused as an option
/// error.
pub fn canon_key(path: &str, host_win: bool) -> (r: Result<Vec<Vec<char>>, Error>)
    ensures
        match root_key(path@, host_win) {
            Some(k) => r matches Ok(v) && parts_view(v@) == k,
            None => r matches Err(Error::Options(_)),
        },
{
    let chars = chars_of(path);
    if !is_absolute_exec(&chars, host_win) {
        let mut m = String::from_str("root must be an absolute path, got `");
        m.append(path);
        m.append("`; resolve relative roots at your edge before passing them");
        return Err(Error::Options(m));
    }
    let comps = components(&chars, host_win);
    if has_dotdot(&comps) {
        return Err(Error::Options(String::from_str("`..` is not allowed in a root path")));
    }
    Ok(key_of_parts(comps, host_win, Ghost(path@)))
}

fn chars_eq(a: &Vec<char>, b: &Vec<char>) -> (r: bool)
    ensures
        r == (a@ == b@),
{
    if a.len() != b.len() {
        return false;
    }
    let mut i: usize = 0;
    while i < a.len()
        invariant
            i <= a@.len(),
            a@.len() == b@.len(),
            forall|j: int| 0 <= j < i ==> a@[j] == b@[j],
        decreases a@.len() - i,
    {
        if a[i] != b[i] {
            return false;
        }
        i += 1;
    }
    assert(a@ =~= b@);
    true
}

/// Whether the first `n` components of `b` are those of `a` (which has `n`).
fn prefix_matches(a: &Vec<Vec<char>>, b: &Vec<Vec<char>>) -> (r: bool)
    requires
        a@.len() <= b@.len(),
    ensures
        r == (parts_view(b@).take(a@.len() as int) == parts_view(a@)),
{
    let mut i: usize = 0;
    while i < a.len()
        invariant
            i <= a@.len(),
            a@.len() <= b@.len(),
            forall|j: int| 0 <= j < i ==> parts_view(a@)[j] == parts_view(b@)[j],
        decreases a@.len() - i,
    {
        if !chars_eq(&a[i], &b[i]) {
            assert(parts_view(b@).take(a@.len() as int)[i as int] != parts_view(a@)[i as int]);
            return false;
        }
        i += 1;
    }
    assert(parts_view(b@).take(a@.len() as int) =~= parts_view(a@));
    true
}

/// Whether two keys are equal.
fn keys_eq(a: &Vec<Vec<char>>, b: &Vec<Vec<char>>) -> (r: bool)
    ensures
        r == (parts_view(a@) == parts_view(b@)),
{
    if a.len() != b.len() {
        assert(parts_view(a@).len() != parts_view(b@).len());
        return false;
    }
    let r = prefix_matches(a, b);
    assert(parts_view(b@).take(a@.len() as int) =~= parts_view(b@));
    r
}

/// Whether key `a` is a strict lexical ancestor of key `b`.
pub fn is_ancestor(a: &Vec<Vec<char>>, b: &Vec<Vec<char>>) -> (r: bool)
    ensures
        r == proper_prefix(parts_view(a@), parts_view(b@)),
{
    a.len() < b.len() && prefix_matches(a, b)
}

/// Whether key `inner` lies within key `outer`: equal to it or below it,
/// component by component (never by string prefix).
pub fn within(outer: &Vec<Vec<char>>, inner: &Vec<Vec<char>>) -> (r: bool)
    ensures
        r == within_key(parts_view(outer@), parts_view(inner@)),
{
    outer.len() <= inner.len() && prefix_matches(outer, inner)
}

/// The first index of key `k` in `keys`.
pub fn find_key(keys: &Vec<Vec<Vec<char>>>, k: &Vec<Vec<char>>) -> (r: Option<usize>)
    ensures
        match r {
            Some(i) => first_from(keys_view(keys@), parts_view(k@), 0) == Some(i as nat),
            None => first_from(keys_view(keys@), parts_view(k@), 0) is None,
        },
{
    let ghost ks = keys_view(keys@);
    let mut i: usize = 0;
    while i < keys.len()
        invariant
            i <= keys@.len(),
            ks == keys_view(keys@),
            first_from(ks, parts_view(k@), 0) == first_from(ks, parts_view(k@), i as int),
        decreases keys@.len() - i,
    {
        if keys_eq(&keys[i], k) {
            return Some(i);
        }
        i += 1;
    }
    None
}

} // verus!
