//! The closed set of named glob dialects, each with a stable ASCII id, an alphabet
//! flag, a default case-sensitivity, and `@`-based version binding.
use crate::syntax::{chars_of, CaseSensitivity};
use vstd::prelude::*;

verus! {

/// The closed set of glob dialects.
#[derive(Clone, Copy, Debug, PartialEq, Eq, Structural)]
pub enum Dialect {
    /// `/`-only separators, `\` escape, UTF-8, case-sensitive default.
    Posix,
    /// `/` and `\` separators, brace-doubling escape, UTF-8, case-insensitive default;
    /// usable only on a Windows host.
    Win,
}

/// Whether a dialect's pattern text is restricted to ASCII.
#[derive(Clone, Copy, Debug, PartialEq, Eq, Structural)]
pub enum Alphabet {
    /// Pattern text must be 7-bit ASCII.
    Ascii,
    /// Pattern text is full UTF-8.
    Utf8,
}

/// The canonical id of a dialect.
pub open spec fn dialect_id(d: Dialect) -> Seq<char> {
    match d {
        Dialect::Posix => seq!['p', 'o', 's', 'i', 'x'],
        Dialect::Win => seq!['w', 'i', 'n'],
    }
}

/// The dialect's default case rule.
pub open spec fn default_case_spec(d: Dialect) -> CaseSensitivity {
    match d {
        Dialect::Posix => CaseSensitivity::Sensitive,
        Dialect::Win => CaseSensitivity::Insensitive,
    }
}

/// The concrete version every dialect currently has.
pub open spec fn dialect_version(d: Dialect) -> (u16, u16, u16) {
    (1, 0, 0)
}

/// `s` split on every occurrence of `sep`, as `str::split` does: `k` separators give
/// `k + 1` parts, some possibly empty. `cur` is the part being built from index `i`.
pub open spec fn split_from(s: Seq<char>, sep: char, i: int, cur: Seq<char>) -> Seq<Seq<char>>
    decreases s.len() - i,
{
    if i >= s.len() {
        seq![cur]
    } else if s[i] == sep {
        seq![cur] + split_from(s, sep, i + 1, Seq::empty())
    } else {
        split_from(s, sep, i + 1, cur.push(s[i]))
    }
}

/// `s` split on `sep`.
pub open spec fn split_on(s: Seq<char>, sep: char) -> Seq<Seq<char>> {
    split_from(s, sep, 0, Seq::empty())
}

/// Whether `c` is an ASCII decimal digit.
pub open spec fn is_digit(c: char) -> bool {
    '0' <= c <= '9'
}

/// Whether every char of `s` is a decimal digit.
pub open spec fn all_digits(s: Seq<char>) -> bool {
    forall|i: int| 0 <= i < s.len() ==> is_digit(#[trigger] s[i])
}

/// The digits of an unsigned number's text: everything after an optional leading `+`.
pub open spec fn unsigned_digits(s: Seq<char>) -> Seq<char> {
    if s.len() > 0 && s[0] == '+' {
        s.drop_first()
    } else {
        s
    }
}

/// The value of a run of decimal digits.
pub open spec fn digits_value(s: Seq<char>) -> nat
    decreases s.len(),
{
    if s.len() == 0 {
        0
    } else {
        digits_value(s.drop_last()) * 10 + ((s.last() as u32) - ('0' as u32)) as nat
    }
}

/// What `u16::from_str` gives: an optional `+`, then one or more decimal digits whose
/// value fits in 16 bits.
pub open spec fn parse_u16_spec(s: Seq<char>) -> Option<u16> {
    let d = unsigned_digits(s);
    if d.len() > 0 && all_digits(d) && digits_value(d) <= 0xFFFF {
        Some(digits_value(d) as u16)
    } else {
        None
    }
}

/// Whether a dot-separated version prefix of one to three components binds to
/// `concrete`.
pub open spec fn version_matches_spec(spec: Seq<char>, concrete: (u16, u16, u16)) -> bool {
    let parts = split_on(spec, '.');
    &&& forall|i: int| 0 <= i < parts.len() ==> (#[trigger] parse_u16_spec(parts[i])) is Some
    &&& 1 <= parts.len() <= 3
    &&& parse_u16_spec(parts[0])->0 == concrete.0
    &&& parts.len() >= 2 ==> parse_u16_spec(parts[1])->0 == concrete.1
    &&& parts.len() == 3 ==> parse_u16_spec(parts[2])->0 == concrete.2
}

/// Index of the first `c` in `s`, if any.
pub open spec fn first_index_of(s: Seq<char>, c: char) -> Option<int> {
    if exists|i: int| 0 <= i < s.len() && s[i] == c {
        Some(choose|i: int| 0 <= i < s.len() && s[i] == c && forall|j: int| 0 <= j < i ==> s[j] != c)
    } else {
        None
    }
}

/// The dialect a spec string names: an id, optionally followed by `@` and a version
/// prefix that must bind to the dialect's concrete version.
pub open spec fn resolve_spec(s: Seq<char>) -> Option<Dialect> {
    let (id, ver) = match first_index_of(s, '@') {
        Some(i) => (s.take(i), Some(s.skip(i + 1))),
        None => (s, None),
    };
    let d = if id == dialect_id(Dialect::Posix) {
        Some(Dialect::Posix)
    } else if id == dialect_id(Dialect::Win) {
        Some(Dialect::Win)
    } else {
        None
    };
    match (d, ver) {
        (Some(d), Some(v)) => if version_matches_spec(v, dialect_version(d)) {
            Some(d)
        } else {
            None
        },
        (d, _) => d,
    }
}

proof fn lemma_first_exists(s: Seq<char>, c: char, k: int)
    requires
        0 <= k < s.len(),
        s[k] == c,
    ensures
        exists|i: int| 0 <= i < s.len() && s[i] == c && forall|j: int| 0 <= j < i ==> s[j] != c,
    decreases k,
{
    if exists|j: int| 0 <= j < k && s[j] == c {
        let j = choose|j: int| 0 <= j < k && s[j] == c;
        lemma_first_exists(s, c, j);
    }
}

proof fn lemma_first_index_of(s: Seq<char>, c: char)
    ensures
        first_index_of(s, c) matches Some(i) ==> 0 <= i < s.len() && s[i] == c && forall|j: int|
            0 <= j < i ==> s[j] != c,
{
    if exists|k: int| 0 <= k < s.len() && s[k] == c {
        let k = choose|k: int| 0 <= k < s.len() && s[k] == c;
        lemma_first_exists(s, c, k);
    }
}

proof fn lemma_split_at_first(s: Seq<char>, id: Seq<char>, v: Seq<char>)
    requires
        s == id + seq!['@'] + v,
        forall|j: int| 0 <= j < id.len() ==> id[j] != '@',
    ensures
        first_index_of(s, '@') == Some(id.len() as int),
        s.take(id.len() as int) == id,
        s.skip(id.len() as int + 1) == v,
{
    assert(s[id.len() as int] == '@');
    let i = choose|i: int| 0 <= i < s.len() && s[i] == '@' && forall|j: int| 0 <= j < i ==> s[j] != '@';
    if i < id.len() {
        assert(s[i] == id[i]);
    }
    assert(s.take(id.len() as int) =~= id);
    assert(s.skip(id.len() as int + 1) =~= v);
}

proof fn lemma_ids_have_no_at(d: Dialect)
    ensures
        forall|j: int| 0 <= j < dialect_id(d).len() ==> dialect_id(d)[j] != '@',
        dialect_id(Dialect::Posix) != dialect_id(Dialect::Win),
{
    assert(dialect_id(Dialect::Posix).len() != dialect_id(Dialect::Win).len());
}

/// A spec string names dialect `d` exactly when it is `d`'s id, or that id, `@`,
/// and a version prefix of one to three numeric components that binds to `d`'s
/// concrete version.
pub proof fn lemma_resolve_names(s: Seq<char>, d: Dialect)
    ensures
        resolve_spec(s) == Some(d) <==> (s == dialect_id(d) || exists|v: Seq<char>|
            s == dialect_id(d) + seq!['@'] + v && version_matches_spec(v, dialect_version(d))),
{
    let id = dialect_id(d);
    lemma_ids_have_no_at(d);
    lemma_ids_have_no_at(Dialect::Posix);
    lemma_ids_have_no_at(Dialect::Win);
    if exists|v: Seq<char>| s == id + seq!['@'] + v && version_matches_spec(v, dialect_version(d)) {
        let v = choose|v: Seq<char>| s == id + seq!['@'] + v && version_matches_spec(v, dialect_version(d));
        lemma_split_at_first(s, id, v);
    } else if s == id {
        assert(first_index_of(s, '@') is None);
    } else if resolve_spec(s) == Some(d) {
        lemma_first_index_of(s, '@');
        match first_index_of(s, '@') {
            Some(i) => {
                assert(s.take(i) == id);
                assert(s =~= s.take(i) + seq!['@'] + s.skip(i + 1));
                assert(version_matches_spec(s.skip(i + 1), dialect_version(d)));
                assert(false);
            },
            None => {},
        }
    }
}

/// Whether dialect `d` is usable on a host whose native separator is `sep`.
pub open spec fn supported_with(d: Dialect, sep: char) -> bool {
    match d {
        Dialect::Posix => true,
        Dialect::Win => sep == '\\',
    }
}

/// The separator of the host's native paths.
#[verifier::external_body]
fn host_separator() -> (r: char)
    ensures
        r == '/' || r == '\\',
{
    std::path::MAIN_SEPARATOR
}

impl Dialect {
    /// The canonical stable ASCII id.
    pub fn id(self) -> (r: &'static str)
        ensures
            r@ == dialect_id(self),
    {
        match self {
            Dialect::Posix => {
                let r = "posix";
                proof {
                    reveal_strlit("posix");
                }
                r
            },
            Dialect::Win => {
                let r = "win";
                proof {
                    reveal_strlit("win");
                }
                r
            },
        }
    }

    /// The current concrete `(major, minor, patch)` version.
    pub fn version(self) -> (r: (u16, u16, u16))
        ensures
            r == dialect_version(self),
    {
        (1, 0, 0)
    }

    /// The pattern-text alphabet.
    pub fn alphabet(self) -> (r: Alphabet)
        ensures
            r == Alphabet::Utf8,
    {
        Alphabet::Utf8
    }

    /// The default case-sensitivity when the caller does not override it.
    pub fn default_case(self) -> (r: CaseSensitivity)
        ensures
            r == default_case_spec(self),
    {
        match self {
            Dialect::Posix => CaseSensitivity::Sensitive,
            Dialect::Win => CaseSensitivity::Insensitive,
        }
    }

    /// Whether this dialect is usable on a host whose native separator is `sep`:
    /// `posix` everywhere, `win` only where the separator is `\`.
    pub fn is_supported_on(self, sep: char) -> (r: bool)
        ensures
            r == supported_with(self, sep),
    {
        match self {
            Dialect::Posix => true,
            Dialect::Win => sep == '\\',
        }
    }

    /// Whether this dialect is usable on the current platform: `posix` everywhere,
    /// `win` only on a host whose native separator is `\`.
    pub fn is_supported(self) -> (r: bool)
        ensures
            self == Dialect::Posix ==> r,
            exists|sep: char| (sep == '/' || sep == '\\') && r == supported_with(self, sep),
    {
        let sep = host_separator();
        self.is_supported_on(sep)
    }

    /// Resolve a dialect id, optionally with an `@version` suffix. Partial-version
    /// binding: `posix`, `posix@1`, `posix@1.0` and `posix@1.0.0` all bind;
    /// `posix@2` and an overlong `posix@1.0.0.0` do not.
    pub fn resolve(spec: &str) -> (r: Option<Dialect>)
        ensures
            r == resolve_spec(spec@),
    {
        let s = chars_of(spec);
        let n = s.len();
        let mut at: usize = 0;
        while at < n && s[at] != '@'
            invariant
                at <= n,
                n == s@.len(),
                forall|j: int| 0 <= j < at ==> s@[j] != '@',
            decreases n - at,
        {
            at += 1;
        }
        let ghost fi = first_index_of(s@, '@');
        proof {
            if at < n {
                let w = choose|i: int| 0 <= i < s@.len() && s@[i] == '@' && forall|j: int| 0 <= j < i ==> s@[j] != '@';
                assert(s@[at as int] == '@');
                if w < at {
                    assert(s@[w] != '@');
                }
                if w > at {
                    assert(s@[at as int] != '@');
                }
                assert(fi == Some(at as int));
            } else {
                assert(fi is None);
            }
        }
        let d = if eq_chars(&s, 0, at, &['p', 'o', 's', 'i', 'x']) {
            Some(Dialect::Posix)
        } else if eq_chars(&s, 0, at, &['w', 'i', 'n']) {
            Some(Dialect::Win)
        } else {
            None
        };
        assert(s@.subrange(0, at as int) =~= if at < n { s@.take(at as int) } else { s@ });
        match d {
            Some(dd) => {
                if at < n {
                    let ver = sub_chars(&s, at + 1, n);
                    assert(ver@ =~= s@.skip(at + 1));
                    if version_matches(&ver, dd.version()) {
                        Some(dd)
                    } else {
                        None
                    }
                } else {
                    Some(dd)
                }
            },
            None => None,
        }
    }
}

/// Whether `s[from..to]` equals `lit`.
fn eq_chars(s: &Vec<char>, from: usize, to: usize, lit: &[char]) -> (r: bool)
    requires
        from <= to <= s@.len(),
    ensures
        r == (s@.subrange(from as int, to as int) == lit@),
{
    if to - from != lit.len() {
        return false;
    }
    let mut i: usize = 0;
    while i < lit.len()
        invariant
            i <= lit@.len(),
            to - from == lit@.len(),
            from <= to <= s@.len(),
            forall|j: int| 0 <= j < i ==> s@[from + j] == lit@[j],
        decreases lit@.len() - i,
    {
        if s[from + i] != lit[i] {
            assert(s@.subrange(from as int, to as int)[i as int] != lit@[i as int]);
            return false;
        }
        i += 1;
    }
    assert(s@.subrange(from as int, to as int) =~= lit@);
    true
}

/// A copy of `s[from..to]`.
pub fn sub_chars(s: &Vec<char>, from: usize, to: usize) -> (r: Vec<char>)
    requires
        from <= to <= s@.len(),
    ensures
        r@ == s@.subrange(from as int, to as int),
{
    let mut out: Vec<char> = Vec::new();
    let mut i = from;
    while i < to
        invariant
            from <= i <= to,
            to <= s@.len(),
            out@ == s@.subrange(from as int, i as int),
        decreases to - i,
    {
        out.push(s[i]);
        i += 1;
        assert(out@ =~= s@.subrange(from as int, i as int));
    }
    out
}

proof fn lemma_digits_value_push(s: Seq<char>, c: char)
    ensures
        digits_value(s.push(c)) == digits_value(s) * 10 + ((c as u32) - ('0' as u32)) as nat,
{
    assert(s.push(c).drop_last() =~= s);
}

/// What `u16::from_str` gives for `s`.
fn parse_u16(s: &Vec<char>) -> (r: Option<u16>)
    ensures
        r == parse_u16_spec(s@),
{
    let n = s.len();
    let start: usize = if n > 0 && s[0] == '+' {
        1
    } else {
        0
    };
    let ghost d = unsigned_digits(s@);
    assert(d =~= s@.subrange(start as int, n as int));
    if start == n {
        return None;
    }
    let mut v: u32 = 0;
    let mut i = start;
    while i < n
        invariant
            start <= i <= n,
            n == s@.len(),
            d == s@.subrange(start as int, n as int),
            d == unsigned_digits(s@),
            forall|j: int| start <= j < i ==> is_digit(s@[j]),
            v as nat == digits_value(s@.subrange(start as int, i as int)),
            v <= 0xFFFF,
        decreases n - i,
    {
        let c = s[i];
        if !('0' <= c && c <= '9') {
            assert(!is_digit(d[i - start]));
            assert(!all_digits(d));
            return None;
        }
        proof {
            lemma_digits_value_push(s@.subrange(start as int, i as int), c);
            assert(s@.subrange(start as int, i + 1) =~= s@.subrange(start as int, i as int).push(c));
        }
        let dv = (c as u32) - ('0' as u32);
        let nv = v * 10 + dv;
        if nv > 0xFFFF {
            proof {
                if all_digits(d) {
                    lemma_digits_monotone(d, (i + 1 - start) as int);
                    assert(d.take((i + 1 - start) as int) =~= s@.subrange(start as int, i + 1));
                }
            }
            return None;
        }
        v = nv;
        i += 1;
    }
    assert(s@.subrange(start as int, n as int) =~= d);
    Some(v as u16)
}

/// A prefix's digit value never exceeds the whole run's.
proof fn lemma_digits_monotone(d: Seq<char>, k: int)
    requires
        0 <= k <= d.len(),
        forall|i: int| 0 <= i < d.len() ==> is_digit(#[trigger] d[i]),
    ensures
        digits_value(d.take(k)) <= digits_value(d),
    decreases d.len() - k,
{
    if k < d.len() {
        lemma_digits_monotone(d, k + 1);
        assert(d.take(k + 1).drop_last() =~= d.take(k));
        assert(is_digit(d[k]));
    } else {
        assert(d.take(k) =~= d);
    }
}

/// The char-sequence views of a list of char vectors.
pub open spec fn parts_view(v: Seq<Vec<char>>) -> Seq<Seq<char>> {
    Seq::new(v.len(), |i: int| v[i]@)
}

/// `s` split on `sep`, as `str::split` does.
pub fn split_chars(s: &Vec<char>, sep: char) -> (r: Vec<Vec<char>>)
    ensures
        parts_view(r@) == split_on(s@, sep),
{
    let n = s.len();
    let mut parts: Vec<Vec<char>> = Vec::new();
    let mut cur: Vec<char> = Vec::new();
    let mut i: usize = 0;
    while i < n
        invariant
            i <= n,
            n == s@.len(),
            split_on(s@, sep) == parts_view(parts@) + split_from(s@, sep, i as int, cur@),
        decreases n - i,
    {
        let c = s[i];
        let ghost old_parts = parts_view(parts@);
        if c == sep {
            let done = cur;
            parts.push(done);
            cur = Vec::new();
            assert(parts_view(parts@) =~= old_parts.push(done@));
            assert(split_on(s@, sep) =~= parts_view(parts@) + split_from(s@, sep, i + 1, cur@));
        } else {
            cur.push(c);
        }
        i += 1;
    }
    let ghost old_parts = parts_view(parts@);
    let last = cur;
    parts.push(last);
    assert(parts_view(parts@) =~= old_parts.push(last@));
    assert(split_on(s@, sep) =~= parts_view(parts@));
    parts
}

/// True if `spec` (a dot-separated version prefix of up to three components) binds to
/// `concrete`. A prefix longer than a full triplet never binds.
fn version_matches(spec: &Vec<char>, concrete: (u16, u16, u16)) -> (r: bool)
    ensures
        r == version_matches_spec(spec@, concrete),
{
    let parts = split_chars(spec, '.');
    let ghost pv = parts_view(parts@);
    let mut vals: Vec<u16> = Vec::new();
    let mut i: usize = 0;
    while i < parts.len()
        invariant
            i <= parts@.len(),
            pv == parts_view(parts@),
            pv == split_on(spec@, '.'),
            vals@.len() == i,
            forall|j: int| 0 <= j < i ==> parse_u16_spec(#[trigger] pv[j]) == Some(vals@[j]),
        decreases parts@.len() - i,
    {
        match parse_u16(&parts[i]) {
            Some(v) => vals.push(v),
            None => {
                assert(parse_u16_spec(pv[i as int]) is None);
                return false;
            },
        }
        i += 1;
    }
    let (major, minor, patch) = concrete;
    let k = vals.len();
    if k == 1 {
        vals[0] == major
    } else if k == 2 {
        vals[0] == major && vals[1] == minor
    } else if k == 3 {
        vals[0] == major && vals[1] == minor && vals[2] == patch
    } else {
        false
    }
}

} // verus!
