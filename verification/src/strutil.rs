//! Character-level string helpers: prefix tests, equality, trimming,
//! and '/'-separated path manipulation (parent directory, join, extension).

use vstd::prelude::*;
use vstd::string::StrSliceExecFns;
use vstd::string::StringExecFns;

verus! {

/// `p` is a prefix of `s`.
pub open spec fn has_prefix(s: Seq<char>, p: Seq<char>) -> bool {
    p.len() <= s.len() && s.take(p.len() as int) == p
}

pub fn str_has_prefix(s: &str, p: &str) -> (r: bool)
    ensures
        r == has_prefix(s@, p@),
{
    let sl = s.unicode_len();
    let pl = p.unicode_len();
    if pl > sl {
        return false;
    }
    let mut i: usize = 0;
    while i < pl
        invariant
            i <= pl,
            pl <= sl,
            sl == s@.len(),
            pl == p@.len(),
            forall|j: int| 0 <= j < i ==> s@[j] == p@[j],
        decreases pl - i,
    {
        if s.get_char(i) != p.get_char(i) {
            assert(!has_prefix(s@, p@)) by {
                if s@.take(pl as int) == p@ {
                    assert(s@.take(pl as int)[i as int] == p@[i as int]);
                }
            }
            return false;
        }
        i += 1;
    }
    assert(s@.take(pl as int) =~= p@);
    true
}

pub fn str_eq(a: &str, b: &str) -> (r: bool)
    ensures
        r == (a@ == b@),
{
    let al = a.unicode_len();
    let bl = b.unicode_len();
    if al != bl {
        return false;
    }
    let mut i: usize = 0;
    while i < al
        invariant
            i <= al,
            al == a@.len(),
            al == b@.len(),
            forall|j: int| 0 <= j < i ==> a@[j] == b@[j],
        decreases al - i,
    {
        if a.get_char(i) != b.get_char(i) {
            return false;
        }
        i += 1;
    }
    assert(a@ =~= b@);
    true
}

/// The Unicode `White_Space` characters, as `str::trim` removes them.
pub open spec fn is_space(c: char) -> bool {
    let n = c as int;
    (9 <= n && n <= 13) || n == 32 || n == 0x85 || n == 0xA0 || n == 0x1680 || (0x2000 <= n
        && n <= 0x200A) || n == 0x2028 || n == 0x2029 || n == 0x202F || n == 0x205F || n == 0x3000
}

pub fn is_space_char(c: char) -> (r: bool)
    ensures
        r == is_space(c),
{
    let n = c as u32;
    (9 <= n && n <= 13) || n == 32 || n == 0x85 || n == 0xA0 || n == 0x1680 || (0x2000 <= n
        && n <= 0x200A) || n == 0x2028 || n == 0x2029 || n == 0x202F || n == 0x205F || n == 0x3000
}

pub open spec fn trim_start_spec(s: Seq<char>) -> Seq<char>
    decreases s.len(),
{
    if s.len() > 0 && is_space(s[0]) {
        trim_start_spec(s.drop_first())
    } else {
        s
    }
}

pub open spec fn trim_end_spec(s: Seq<char>) -> Seq<char>
    decreases s.len(),
{
    if s.len() > 0 && is_space(s.last()) {
        trim_end_spec(s.drop_last())
    } else {
        s
    }
}

/// What `str::trim` keeps: the input without leading and trailing whitespace.
pub open spec fn trim_spec(s: Seq<char>) -> Seq<char> {
    trim_end_spec(trim_start_spec(s))
}

pub fn str_trim(s: &str) -> (r: String)
    ensures
        r@ == trim_spec(s@),
{
    let n = s.unicode_len();
    let mut i: usize = 0;
    proof {
        assert(s@.skip(0) =~= s@);
    }
    while i < n
        invariant
            i <= n,
            n == s@.len(),
            trim_start_spec(s@) == trim_start_spec(s@.skip(i as int)),
        ensures
            i <= n,
            n == s@.len(),
            trim_start_spec(s@) == trim_start_spec(s@.skip(i as int)),
            i == n || !is_space(s@[i as int]),
        decreases n - i,
    {
        if !is_space_char(s.get_char(i)) {
            break ;
        }
        proof {
            assert(s@.skip(i as int).drop_first() =~= s@.skip(i + 1));
        }
        i += 1;
    }
    assert(trim_start_spec(s@) == s@.subrange(i as int, n as int)) by {
        assert(s@.skip(i as int) =~= s@.subrange(i as int, n as int));
        if i < n {
            assert(trim_start_spec(s@.skip(i as int)) == s@.skip(i as int));
        } else {
            assert(s@.skip(i as int) =~= Seq::<char>::empty());
        }
    }
    let mut j: usize = n;
    while j > i
        invariant
            i <= j <= n,
            n == s@.len(),
            trim_start_spec(s@) == s@.subrange(i as int, n as int),
            trim_end_spec(trim_start_spec(s@)) == trim_end_spec(s@.subrange(i as int, j as int)),
        ensures
            i <= j <= n,
            n == s@.len(),
            trim_end_spec(trim_start_spec(s@)) == trim_end_spec(s@.subrange(i as int, j as int)),
            j == i || !is_space(s@[j - 1]),
        decreases j - i,
    {
        if !is_space_char(s.get_char(j - 1)) {
            break ;
        }
        proof {
            assert(s@.subrange(i as int, j as int).drop_last() =~= s@.subrange(i as int, j - 1));
        }
        j -= 1;
    }
    assert(trim_spec(s@) == s@.subrange(i as int, j as int)) by {
        if j > i {
            assert(trim_end_spec(s@.subrange(i as int, j as int)) == s@.subrange(
                i as int,
                j as int,
            ));
        } else {
            assert(s@.subrange(i as int, j as int) =~= Seq::<char>::empty());
        }
    }
    let out = s.substring_char(i, j);
    out.to_owned()
}

/// Case-insensitive ASCII equality of two characters.
pub open spec fn eq_icase_char(a: char, b: char) -> bool {
    let x = a as int;
    let y = b as int;
    x == y || (65 <= x <= 90 && y == x + 32) || (65 <= y <= 90 && x == y + 32)
}

/// What `str::eq_ignore_ascii_case` decides.
pub open spec fn eq_icase(a: Seq<char>, b: Seq<char>) -> bool {
    a.len() == b.len() && forall|i: int| 0 <= i < a.len() ==> eq_icase_char(a[i], b[i])
}

pub fn str_eq_icase(a: &str, b: &str) -> (r: bool)
    ensures
        r == eq_icase(a@, b@),
{
    let al = a.unicode_len();
    let bl = b.unicode_len();
    if al != bl {
        return false;
    }
    let mut i: usize = 0;
    while i < al
        invariant
            i <= al,
            al == a@.len(),
            al == b@.len(),
            forall|j: int| 0 <= j < i ==> eq_icase_char(a@[j], b@[j]),
        decreases al - i,
    {
        let x = a.get_char(i) as u32;
        let y = b.get_char(i) as u32;
        let same = x == y || (65 <= x && x <= 90 && y == x + 32) || (65 <= y && y <= 90 && x == y
            + 32);
        if !same {
            return false;
        }
        i += 1;
    }
    true
}

/// Index of the last occurrence of `c` in `s`.
pub open spec fn rfind(s: Seq<char>, c: char) -> Option<int>
    decreases s.len(),
{
    if s.len() == 0 {
        None
    } else if s.last() == c {
        Some(s.len() - 1)
    } else {
        rfind(s.drop_last(), c)
    }
}

pub proof fn lemma_rfind_some(s: Seq<char>, c: char)
    ensures
        rfind(s, c) is Some ==> 0 <= rfind(s, c)->0 < s.len() && s[rfind(s, c)->0] == c,
    decreases s.len(),
{
    if s.len() > 0 && s.last() != c {
        lemma_rfind_some(s.drop_last(), c);
    }
}

fn str_rfind(s: &str, c: char) -> (r: Option<usize>)
    ensures
        match r {
            Some(k) => rfind(s@, c) == Some(k as int),
            None => rfind(s@, c) is None,
        },
{
    let n = s.unicode_len();
    let mut j: usize = n;
    proof {
        assert(s@.take(n as int) =~= s@);
    }
    while j > 0
        invariant
            j <= n,
            n == s@.len(),
            rfind(s@, c) == rfind(s@.take(j as int), c),
        decreases j,
    {
        proof {
            assert(s@.take(j as int).drop_last() =~= s@.take(j - 1));
        }
        if s.get_char(j - 1) == c {
            assert(s@.take(j as int).last() == s@[j - 1]);
            return Some(j - 1);
        }
        j -= 1;
    }
    assert(s@.take(0) =~= Seq::<char>::empty());
    None
}

/// Strip trailing '/' characters.
pub open spec fn strip_trailing_slashes(s: Seq<char>) -> Seq<char>
    decreases s.len(),
{
    if s.len() > 0 && s.last() == '/' {
        strip_trailing_slashes(s.drop_last())
    } else {
        s
    }
}

/// The parent directory of a '/'-separated path: the path without its final
/// component, `None` for an empty or root path.
pub open spec fn parent_spec(s: Seq<char>) -> Option<Seq<char>> {
    let t = strip_trailing_slashes(s);
    if t.len() == 0 {
        None
    } else {
        match rfind(t, '/') {
            None => Some(Seq::empty()),
            Some(k) => if k == 0 {
                Some(t.take(1))
            } else {
                Some(strip_trailing_slashes(t.take(k)))
            },
        }
    }
}

fn strip_trailing(s: &str) -> (r: String)
    ensures
        r@ == strip_trailing_slashes(s@),
{
    let n = s.unicode_len();
    let mut j: usize = n;
    proof {
        assert(s@.take(n as int) =~= s@);
    }
    while j > 0
        invariant
            j <= n,
            n == s@.len(),
            strip_trailing_slashes(s@) == strip_trailing_slashes(s@.take(j as int)),
        ensures
            j <= n,
            n == s@.len(),
            strip_trailing_slashes(s@) == strip_trailing_slashes(s@.take(j as int)),
            j == 0 || s@[j - 1] != '/',
        decreases j,
    {
        proof {
            assert(s@.take(j as int).drop_last() =~= s@.take(j - 1));
        }
        if s.get_char(j - 1) != '/' {
            break ;
        }
        j -= 1;
    }
    proof {
        if j == 0 {
            assert(s@.take(0) =~= Seq::<char>::empty());
        }
        assert(strip_trailing_slashes(s@.take(j as int)) == s@.take(j as int));
    }
    s.substring_char(0, j).to_owned()
}

/// Parent directory of `path`, `None` when the path has no parent component.
pub fn path_parent(path: &str) -> (r: Option<String>)
    ensures
        match r {
            Some(p) => parent_spec(path@) == Some(p@),
            None => parent_spec(path@) is None,
        },
{
    let t = strip_trailing(path);
    let tl = t.unicode_len();
    if tl == 0 {
        return None;
    }
    proof {
        lemma_rfind_some(t@, '/');
    }
    match str_rfind(t.as_str(), '/') {
        None => Some(String::new()),
        Some(k) => {
            if k == 0 {
                Some(t.as_str().substring_char(0, 1).to_owned())
            } else {
                Some(strip_trailing(t.as_str().substring_char(0, k)))
            }
        },
    }
}

/// Joining a relative reference onto a base directory: an absolute reference
/// replaces the base, otherwise the two are joined with a single '/'.
pub open spec fn join_spec(base: Seq<char>, rel: Seq<char>) -> Seq<char> {
    if rel.len() > 0 && rel[0] == '/' {
        rel
    } else if base.len() == 0 {
        rel
    } else if base.last() == '/' {
        base + rel
    } else {
        base + seq!['/'] + rel
    }
}

pub fn path_join(base: &str, rel: &str) -> (r: String)
    ensures
        r@ == join_spec(base@, rel@),
{
    let rl = rel.unicode_len();
    if rl > 0 && rel.get_char(0) == '/' {
        return rel.to_owned();
    }
    let bl = base.unicode_len();
    if bl == 0 {
        return rel.to_owned();
    }
    let mut out = base.to_owned();
    if base.get_char(bl - 1) != '/' {
        out.append("/");
        proof {
            reveal_strlit("/");
            assert(base@ + "/"@ =~= base@ + seq!['/']);
        }
    }
    out.append(rel);
    proof {
        if base@.last() != '/' {
            assert((base@ + seq!['/']) + rel@ =~= base@ + seq!['/'] + rel@);
        }
    }
    out
}

/// The extension of the final path component: the part after its last '.',
/// absent when there is no '.', when the '.' is the leading character, or for
/// the parent-directory component `..`.
pub open spec fn ext_spec(path: Seq<char>) -> Option<Seq<char>> {
    let name = match rfind(path, '/') {
        Some(k) => path.skip(k + 1),
        None => path,
    };
    if name =~= seq!['.', '.'] {
        None
    } else {
        match rfind(name, '.') {
            Some(k) => if k > 0 {
                Some(name.skip(k + 1))
            } else {
                None
            },
            None => None,
        }
    }
}

/// Does the final component of `path` carry the extension `ext`?
pub fn has_extension(path: &str, ext: &str) -> (r: bool)
    ensures
        r == (ext_spec(path@) == Some(ext@)),
{
    let n = path.unicode_len();
    proof {
        lemma_rfind_some(path@, '/');
    }
    let name: &str = match str_rfind(path, '/') {
        Some(k) => {
            let nm = path.substring_char(k + 1, n);
            proof {
                assert(path@.skip(k + 1) =~= path@.subrange(k + 1, n as int));
            }
            nm
        },
        None => path,
    };
    let nl = name.unicode_len();
    if nl == 2 && name.get_char(0) == '.' && name.get_char(1) == '.' {
        proof {
            assert(name@ =~= seq!['.', '.']);
        }
        return false;
    }
    assert(!(name@ =~= seq!['.', '.']));
    proof {
        lemma_rfind_some(name@, '.');
    }
    match str_rfind(name, '.') {
        Some(k) => {
            if k == 0 {
                false
            } else {
                let e = name.substring_char(k + 1, nl);
                proof {
                    assert(name@.skip(k + 1) =~= name@.subrange(k + 1, nl as int));
                }
                str_eq(e, ext)
            }
        },
        None => false,
    }
}

} // verus!
