//! Path pieces as `std::path::Path` sees them: the file name of a path and
//! the extension of a file name. `/` separates components everywhere; whether
//! `\` does too depends on the platform (it does on Windows, not on Unix), so
//! it is a parameter, `backslash_separates`.
use vstd::prelude::*;

verus! {

/// The characters that separate path components: `/`, and `\` where
/// `backslash_separates` (on Windows).
pub open spec fn is_path_sep(c: char, backslash_separates: bool) -> bool {
    c == '/' || (backslash_separates && c == '\\')
}

/// `std::path::is_separator('\\')`: whether this platform separates path
/// components at a backslash. The answer depends on the platform the program
/// was built for, so nothing is stated of it.
#[verifier::external_body]
pub(crate) fn backslash_separates() -> (r: bool) {
    std::path::is_separator('\\')
}

/// The pieces of `s` between separators (always at least one, possibly empty).
pub open spec fn split_path(s: Seq<char>, bs: bool) -> Seq<Seq<char>>
    decreases s.len(),
{
    if s.len() == 0 {
        seq![Seq::empty()]
    } else {
        let p = split_path(s.drop_last(), bs);
        if is_path_sep(s.last(), bs) {
            p.push(Seq::empty())
        } else {
            p.update(p.len() - 1, p.last().push(s.last()))
        }
    }
}

/// `split_path` always yields at least one piece.
pub proof fn lemma_split_path_len(s: Seq<char>, bs: bool)
    ensures
        split_path(s, bs).len() > 0,
    decreases s.len(),
{
    if s.len() > 0 {
        lemma_split_path_len(s.drop_last(), bs);
    }
}

/// Without backslashes, a path splits alike on every platform.
pub proof fn lemma_split_path_without_backslash(s: Seq<char>)
    requires
        !s.contains('\\'),
    ensures
        split_path(s, true) == split_path(s, false),
    decreases s.len(),
{
    if s.len() > 0 {
        assert(!s.drop_last().contains('\\')) by {
            if s.drop_last().contains('\\') {
                let k = choose|k: int| 0 <= k < s.drop_last().len() && s.drop_last()[k] == '\\';
                assert(s[k] == '\\');
            }
        }
        lemma_split_path_without_backslash(s.drop_last());
        assert(s.last() != '\\') by {
            assert(s[s.len() - 1] == s.last());
        }
    }
}

/// A path component that names something: not empty and not `.`.
pub open spec fn is_named_piece(p: Seq<char>) -> bool {
    p.len() > 0 && p != seq!['.']
}

/// The last named piece among `pieces`, if any.
pub open spec fn last_named(pieces: Seq<Seq<char>>) -> Option<Seq<char>>
    decreases pieces.len(),
{
    if pieces.len() == 0 {
        None
    } else if is_named_piece(pieces.last()) {
        Some(pieces.last())
    } else {
        last_named(pieces.drop_last())
    }
}

/// The file name of a path (`Path::file_name`): its last component, unless
/// that is `..` or there is none (empty pieces and `.` are not components).
pub open spec fn path_file_name(path: Seq<char>, bs: bool) -> Option<Seq<char>> {
    match last_named(split_path(path, bs)) {
        Some(n) => if n == seq!['.', '.'] {
            None
        } else {
            Some(n)
        },
        None => None,
    }
}

/// The index of the last `'.'` in `s`, or -1.
pub open spec fn last_dot(s: Seq<char>) -> int
    decreases s.len(),
{
    if s.len() == 0 {
        -1
    } else if s.last() == '.' {
        s.len() - 1
    } else {
        last_dot(s.drop_last())
    }
}

/// `last_dot` is -1 or the index of a dot.
pub proof fn lemma_last_dot(s: Seq<char>)
    ensures
        -1 <= last_dot(s) < s.len(),
        last_dot(s) >= 0 ==> s[last_dot(s)] == '.',
        forall|k: int| last_dot(s) < k < s.len() ==> s[k] != '.',
    decreases s.len(),
{
    if s.len() > 0 && s.last() != '.' {
        lemma_last_dot(s.drop_last());
        assert forall|k: int| last_dot(s) < k < s.len() implies s[k] != '.' by {
            if k < s.len() - 1 {
                assert(s.drop_last()[k] == s[k]);
            }
        }
    }
}

/// The extension of a file name (`Path::extension`): what follows its last
/// dot, unless there is no dot, the only dot starts the name, or the name is `..`.
pub open spec fn name_extension(name: Seq<char>) -> Option<Seq<char>> {
    let d = last_dot(name);
    if name == seq!['.', '.'] || d <= 0 {
        None
    } else {
        Some(name.skip(d + 1))
    }
}

/// The extension of a path's file name.
pub open spec fn path_extension(path: Seq<char>, bs: bool) -> Option<Seq<char>> {
    match path_file_name(path, bs) {
        Some(n) => name_extension(n),
        None => None,
    }
}

/// Copies `v[lo..hi]` into a string.
fn piece_string(v: &Vec<char>, lo: usize, hi: usize) -> (s: String)
    requires
        lo <= hi <= v.len(),
    ensures
        s@ == v@.subrange(lo as int, hi as int),
{
    crate::text::string_from_range(v, lo, hi)
}

/// Whether `v[lo..hi]` is a named piece.
fn named_range(v: &Vec<char>, lo: usize, hi: usize) -> (b: bool)
    requires
        lo <= hi <= v.len(),
    ensures
        b == is_named_piece(v@.subrange(lo as int, hi as int)),
{
    if hi == lo {
        return false;
    }
    if hi - lo == 1 && v[lo] == '.' {
        assert(v@.subrange(lo as int, hi as int) =~= seq!['.']);
        return false;
    }
    if hi - lo == 1 {
        assert(v@.subrange(lo as int, hi as int)[0] != '.');
    }
    true
}

/// The file name of a path (see `path_file_name`).
pub fn file_name_of(path: &str, backslash_separates: bool) -> (r: Option<String>)
    ensures
        r matches Some(s) ==> path_file_name(path@, backslash_separates) == Some(s@),
        r is None ==> path_file_name(path@, backslash_separates) is None,
{
    let v = crate::text::chars_of(path);
    let n = v.len();
    let mut start: usize = 0;
    let mut best: Option<(usize, usize)> = None;
    let mut i: usize = 0;
    assert(v@.take(0) =~= Seq::<char>::empty());
    while i < n
        invariant
            n == v.len(),
            start <= i <= n,
            ({
                let pieces = split_path(v@.take(i as int), backslash_separates);
                &&& pieces.len() > 0
                &&& pieces.last() == v@.subrange(start as int, i as int)
                &&& match best {
                    Some((a, b)) => a <= b <= start && last_named(pieces.drop_last()) == Some(
                        v@.subrange(a as int, b as int),
                    ),
                    None => last_named(pieces.drop_last()) is None,
                }
            }),
        decreases n - i,
    {
        let ghost pieces = split_path(v@.take(i as int), backslash_separates);
        proof {
            assert(v@.take(i + 1).drop_last() =~= v@.take(i as int));
            assert(v@.take(i + 1).last() == v@[i as int]);
        }
        if v[i] == '/' || (backslash_separates && v[i] == '\\') {
            if named_range(&v, start, i) {
                best = Some((start, i));
            }
            proof {
                assert(split_path(v@.take(i + 1), backslash_separates).drop_last() =~= pieces);
                assert(pieces.drop_last().push(pieces.last()) =~= pieces);
            }
            start = i + 1;
            assert(v@.subrange(start as int, (i + 1) as int) =~= Seq::<char>::empty());
        } else {
            proof {
                let q = split_path(v@.take(i + 1), backslash_separates);
                assert(q.drop_last() =~= pieces.drop_last());
                assert(v@.subrange(start as int, i + 1) =~= pieces.last().push(v@[i as int]));
            }
        }
        i = i + 1;
    }
    proof {
        assert(v@.take(n as int) =~= v@);
        lemma_split_path_len(v@, backslash_separates);
    }
    let last_piece_named = named_range(&v, start, n);
    let (a, b) = if last_piece_named {
        (start, n)
    } else {
        match best {
            Some(p) => p,
            None => {
                return None;
            },
        }
    };
    if b - a == 2 && v[a] == '.' && v[a + 1] == '.' {
        assert(v@.subrange(a as int, b as int) =~= seq!['.', '.']);
        return None;
    }
    proof {
        if b - a == 2 {
            assert(v@.subrange(a as int, b as int) != seq!['.', '.']) by {
                if v@[a as int] != '.' {
                    assert(v@.subrange(a as int, b as int)[0] != '.');
                } else {
                    assert(v@.subrange(a as int, b as int)[1] != '.');
                }
            }
        } else {
            assert(v@.subrange(a as int, b as int).len() != 2);
        }
    }
    Some(piece_string(&v, a, b))
}

/// The extension of a file name (see `name_extension`).
pub fn extension_of_name(name: &str) -> (r: Option<String>)
    ensures
        r matches Some(s) ==> name_extension(name@) == Some(s@),
        r is None ==> name_extension(name@) is None,
{
    let v = crate::text::chars_of(name);
    let n = v.len();
    let mut k = n;
    assert(v@.take(n as int) =~= v@);
    while k > 0 && v[k - 1] != '.'
        invariant
            k <= n == v.len(),
            last_dot(v@) == last_dot(v@.take(k as int)),
        decreases k,
    {
        assert(v@.take(k as int).drop_last() =~= v@.take(k - 1));
        k = k - 1;
    }
    proof {
        if k > 0 {
            assert(v@.take(k as int).last() == '.');
        }
        assert(v@.take(n as int) =~= v@);
    }
    if n == 2 && v[0] == '.' && v[1] == '.' {
        assert(v@ =~= seq!['.', '.']);
        return None;
    }
    proof {
        if n == 2 {
            assert(v@ != seq!['.', '.']) by {
                if v@[0] != '.' {
                    assert(v@[0] != seq!['.', '.'][0]);
                } else {
                    assert(v@[1] != seq!['.', '.'][1]);
                }
            }
        }
    }
    if k <= 1 {
        return None;
    }
    assert(v@.subrange(k as int, n as int) =~= v@.skip(k as int));
    Some(piece_string(&v, k, n))
}

/// The extension of a path's file name (see `path_extension`).
pub fn extension_of(path: &str, backslash_separates: bool) -> (r: Option<String>)
    ensures
        r matches Some(s) ==> path_extension(path@, backslash_separates) == Some(s@),
        r is None ==> path_extension(path@, backslash_separates) is None,
{
    match file_name_of(path, backslash_separates) {
        Some(n) => extension_of_name(n.as_str()),
        None => None,
    }
}

} // verus!
