//! How a path is read: leading slashes are dropped, then the path is cut at
//! its first slash into a segment and a remainder.

use vstd::prelude::*;
use vstd::std_specs::iter::IteratorSpec;

verus! {

/// The first position at or after `i` that holds no slash, or the length.
pub open spec fn skip_slashes(path: Seq<char>, i: int) -> int
    decreases path.len() - i,
{
    if 0 <= i < path.len() && path[i] == '/' {
        skip_slashes(path, i + 1)
    } else {
        i
    }
}

/// The first position at or after `i` that holds a slash, or the length.
pub open spec fn next_slash(path: Seq<char>, i: int) -> int
    decreases path.len() - i,
{
    if 0 <= i < path.len() && path[i] != '/' {
        next_slash(path, i + 1)
    } else {
        i
    }
}

/// Where the first segment of `path` begins.
pub open spec fn segment_start(path: Seq<char>) -> int {
    skip_slashes(path, 0)
}

/// Where the first segment of `path` ends.
pub open spec fn segment_end(path: Seq<char>) -> int {
    next_slash(path, segment_start(path))
}

/// The first segment of `path`: what stands between its leading slashes and
/// the next slash. It is empty where the path is empty or all slashes.
pub open spec fn first_segment(path: Seq<char>) -> Seq<char> {
    path.subrange(segment_start(path), segment_end(path))
}

/// What follows the slash that ends the first segment, if there is such a slash.
pub open spec fn remainder(path: Seq<char>) -> Option<Seq<char>> {
    if segment_end(path) < path.len() {
        Some(path.subrange(segment_end(path) + 1, path.len() as int))
    } else {
        None
    }
}

/// The name stands for the directory itself: it is empty or `.`.
pub open spec fn is_self_name(name: Seq<char>) -> bool {
    name.len() == 0 || name == seq!['.']
}

/// The name stands for the parent directory: it is `..`.
pub open spec fn is_parent_name(name: Seq<char>) -> bool {
    name == seq!['.', '.']
}

/// The name is one that a path can never create or unlink: empty, `.` or `..`.
pub open spec fn is_reserved_name(name: Seq<char>) -> bool {
    is_self_name(name) || is_parent_name(name)
}

/// The name is one that an entry made through a path can have: not empty,
/// without a slash, and neither `.` nor `..`.
pub open spec fn is_entry_name(name: Seq<char>) -> bool {
    name.len() > 0 && !name.contains('/') && !is_reserved_name(name)
}

/// The position of the last slash of `path` before `i`, or -1.
pub open spec fn last_slash(path: Seq<char>, i: int) -> int
    decreases i,
{
    if i <= 0 || i > path.len() {
        -1
    } else if path[i - 1] == '/' {
        i - 1
    } else {
        last_slash(path, i - 1)
    }
}

/// What stands before the last slash of `path`, if `path` has a slash.
pub open spec fn parent_part(path: Seq<char>) -> Option<Seq<char>> {
    let k = last_slash(path, path.len() as int);
    if k >= 0 {
        Some(path.subrange(0, k))
    } else {
        None
    }
}

/// What stands after the last slash of `path`, or all of it.
pub open spec fn final_name(path: Seq<char>) -> Seq<char> {
    path.subrange(last_slash(path, path.len() as int) + 1, path.len() as int)
}

/// Where the scans stop, and what lies before.
pub proof fn lemma_scan_bounds(path: Seq<char>, i: int)
    requires
        0 <= i <= path.len(),
    ensures
        i <= skip_slashes(path, i) <= path.len(),
        forall|k: int| i <= k < skip_slashes(path, i) ==> path[k] == '/',
        skip_slashes(path, i) < path.len() ==> path[skip_slashes(path, i)] != '/',
        i <= next_slash(path, i) <= path.len(),
        forall|k: int| i <= k < next_slash(path, i) ==> path[k] != '/',
        next_slash(path, i) < path.len() ==> path[next_slash(path, i)] == '/',
    decreases path.len() - i,
{
    if i < path.len() {
        lemma_scan_bounds(path, i + 1);
    }
}

/// The first segment holds no slash, and the remainder is shorter than the path.
pub proof fn lemma_split(path: Seq<char>)
    ensures
        0 <= segment_start(path) <= segment_end(path) <= path.len(),
        !first_segment(path).contains('/'),
        remainder(path) matches Some(rest) ==> rest.len() < path.len(),
        remainder(path) is None ==> first_segment(path) == path.skip(segment_start(path)),
{
    lemma_scan_bounds(path, 0);
    lemma_scan_bounds(path, segment_start(path));
    if remainder(path) is None {
        assert(first_segment(path) =~= path.skip(segment_start(path)));
    }
}

/// The scan for a character that is no slash stops at `j`, where everything
/// from `i` to `j` is a slash and `j` is none.
pub proof fn lemma_skip_slashes_to(path: Seq<char>, i: int, j: int)
    requires
        0 <= i <= j <= path.len(),
        forall|k: int| i <= k < j ==> path[k] == '/',
        j < path.len() ==> path[j] != '/',
    ensures
        skip_slashes(path, i) == j,
    decreases j - i,
{
    if i < j {
        lemma_skip_slashes_to(path, i + 1, j);
    }
}

/// The scan for a slash stops at `j`, where nothing from `i` to `j` is a
/// slash and `j` is one.
pub proof fn lemma_next_slash_to(path: Seq<char>, i: int, j: int)
    requires
        0 <= i <= j <= path.len(),
        forall|k: int| i <= k < j ==> path[k] != '/',
        j < path.len() ==> path[j] == '/',
    ensures
        next_slash(path, i) == j,
    decreases j - i,
{
    if i < j {
        lemma_next_slash_to(path, i + 1, j);
    }
}

/// A name, a slash and more: the name is the first segment and the rest is
/// the remainder.
pub proof fn lemma_split_joined(name: Seq<char>, rest: Seq<char>)
    requires
        name.len() > 0,
        !name.contains('/'),
    ensures
        first_segment(name + seq!['/'] + rest) == name,
        remainder(name + seq!['/'] + rest) == Some(rest),
{
    let path = name + seq!['/'] + rest;
    assert forall|k: int| 0 <= k < name.len() implies path[k] != '/' by {
        assert(name.contains(name[k]));
    }
    lemma_skip_slashes_to(path, 0, 0);
    lemma_next_slash_to(path, 0, name.len() as int);
    assert(first_segment(path) =~= name);
    assert(path.subrange(name.len() as int + 1, path.len() as int) =~= rest);
}

/// A slash in front of a path changes neither its first segment nor its
/// remainder.
pub proof fn lemma_leading_slash(path: Seq<char>)
    ensures
        first_segment(seq!['/'] + path) == first_segment(path),
        remainder(seq!['/'] + path) == remainder(path),
{
    let longer = seq!['/'] + path;
    let s = segment_start(path);
    let e = segment_end(path);
    lemma_scan_bounds(path, 0);
    lemma_scan_bounds(path, s);
    assert forall|k: int| 0 <= k < s + 1 implies longer[k] == '/' by {
        if k > 0 {
            assert(longer[k] == path[k - 1]);
        }
    }
    assert forall|k: int| s + 1 <= k < e + 1 implies longer[k] != '/' by {
        assert(longer[k] == path[k - 1]);
    }
    if s < path.len() {
        assert(longer[s + 1] == path[s]);
    }
    if e < path.len() {
        assert(longer[e + 1] == path[e]);
    }
    lemma_skip_slashes_to(longer, 0, s + 1);
    lemma_next_slash_to(longer, s + 1, e + 1);
    assert(first_segment(longer) =~= first_segment(path));
    if e < path.len() {
        assert(longer.subrange(e + 2, longer.len() as int) =~= path.subrange(
            e + 1,
            path.len() as int,
        ));
    }
}

/// A slash at the end of a path: the first segment stays; a remainder gets
/// the slash at its end, and a path of one segment gets the empty remainder.
pub proof fn lemma_trailing_slash(path: Seq<char>)
    ensures
        first_segment(path + seq!['/']) == first_segment(path),
        remainder(path + seq!['/']) == match remainder(path) {
            Some(rest) => Some(rest + seq!['/']),
            None => if segment_start(path) < path.len() {
                Some(Seq::<char>::empty())
            } else {
                None
            },
        },
{
    let longer = path + seq!['/'];
    let s = segment_start(path);
    let e = segment_end(path);
    lemma_scan_bounds(path, 0);
    lemma_scan_bounds(path, s);
    assert forall|k: int| 0 <= k < path.len() implies longer[k] == path[k] by {}
    assert(longer[path.len() as int] == '/');
    if s == path.len() {
        lemma_skip_slashes_to(longer, 0, longer.len() as int);
        lemma_next_slash_to(longer, longer.len() as int, longer.len() as int);
        assert(first_segment(longer) =~= first_segment(path));
    } else {
        lemma_skip_slashes_to(longer, 0, s);
        lemma_next_slash_to(longer, s, e);
        assert(first_segment(longer) =~= first_segment(path));
        if e < path.len() {
            assert(longer.subrange(e + 1, longer.len() as int) =~= path.subrange(
                e + 1,
                path.len() as int,
            ) + seq!['/']);
        } else {
            assert(longer.subrange(e + 1, longer.len() as int) =~= Seq::<char>::empty());
        }
    }
}

/// A path without a slash is its own first segment and has no remainder.
pub proof fn lemma_single_segment(name: Seq<char>)
    requires
        !name.contains('/'),
    ensures
        first_segment(name) == name,
        remainder(name) is None,
{
    lemma_scan_bounds(name, 0);
    lemma_scan_bounds(name, segment_start(name));
    if name.len() > 0 {
        assert(name.contains(name[0]));
        assert(segment_start(name) == 0);
    }
    if segment_end(name) < name.len() {
        assert(name.contains(name[segment_end(name)]));
    }
    assert(first_segment(name) =~= name);
}

/// Cuts `path` into its first segment and its remainder.
pub fn split_path(path: &str) -> (parts: (&str, Option<&str>))
    ensures
        parts.0@ == first_segment(path@),
        match parts.1 {
            Some(rest) => remainder(path@) == Some(rest@),
            None => remainder(path@) is None,
        },
{
    broadcast use vstd::string::group_string_axioms;

    let n: usize = path.unicode_len();
    let mut chars = path.chars();
    let mut start: usize = 0;
    let mut inside: bool = false;
    while start < n && !inside
        invariant
            n == path@.len(),
            start <= n,
            chars.obeys_prophetic_iter_laws(),
            chars.remaining() == path@.skip(start + if inside {
                1int
            } else {
                0int
            }),
            inside ==> start < n && path@[start as int] != '/',
            skip_slashes(path@, 0) == skip_slashes(path@, start as int),
        decreases n - start + if inside {
            0int
        } else {
            1int
        },
    {
        let ghost left = chars.remaining();
        let next = chars.next();
        assert(left[0] == path@[start as int]);
        assert(left.drop_first() =~= path@.skip(start + 1));
        if next == Some('/') {
            start += 1;
        } else {
            inside = true;
        }
    }
    let mut end: usize = if inside {
        start + 1
    } else {
        start
    };
    let mut found: bool = false;
    while end < n && !found
        invariant
            n == path@.len(),
            start <= end <= n,
            chars.obeys_prophetic_iter_laws(),
            chars.remaining() == path@.skip(end + if found {
                1int
            } else {
                0int
            }),
            found ==> end < n && path@[end as int] == '/',
            next_slash(path@, start as int) == next_slash(path@, end as int),
        decreases n - end + if found {
            0int
        } else {
            1int
        },
    {
        let ghost left = chars.remaining();
        let next = chars.next();
        assert(left[0] == path@[end as int]);
        assert(left.drop_first() =~= path@.skip(end + 1));
        if next == Some('/') {
            found = true;
        } else {
            end += 1;
        }
    }
    let name = path.substring_char(start, end);
    if end < n {
        (name, Some(path.substring_char(end + 1, n)))
    } else {
        (name, None)
    }
}

/// Cuts `path` at its last slash into what comes before and the final name.
pub fn split_last(path: &str) -> (parts: (Option<&str>, &str))
    ensures
        parts.1@ == final_name(path@),
        match parts.0 {
            Some(dir) => parent_part(path@) == Some(dir@),
            None => parent_part(path@) is None,
        },
{
    broadcast use vstd::string::group_string_axioms;

    let n: usize = path.unicode_len();
    let mut chars = path.chars();
    let mut last: Option<usize> = None;
    let mut i: usize = 0;
    while i < n
        invariant
            n == path@.len(),
            i <= n,
            chars.obeys_prophetic_iter_laws(),
            chars.remaining() == path@.skip(i as int),
            match last {
                Some(k) => k < i && last_slash(path@, i as int) == k,
                None => last_slash(path@, i as int) == -1,
            },
        decreases n - i,
    {
        let ghost left = chars.remaining();
        let next = chars.next();
        assert(left[0] == path@[i as int]);
        assert(left.drop_first() =~= path@.skip(i + 1));
        if next == Some('/') {
            last = Some(i);
        }
        i += 1;
    }
    match last {
        Some(k) => (Some(path.substring_char(0, k)), path.substring_char(k + 1, n)),
        None => (None, path.substring_char(0, n)),
    }
}

/// Whether the name stands for the directory itself.
pub fn names_self(name: &str) -> (b: bool)
    ensures
        b == is_self_name(name@),
{
    broadcast use vstd::string::group_string_axioms;

    let mut chars = name.chars();
    match chars.next() {
        None => true,
        Some(first) => {
            let more = chars.next();
            proof {
                assert(name@.skip(0).drop_first() =~= name@.skip(1));
                if first == '.' && more is None {
                    assert(name@ =~= seq!['.']);
                }
            }
            first == '.' && more.is_none()
        },
    }
}

/// Whether the name stands for the parent directory.
pub fn names_parent(name: &str) -> (b: bool)
    ensures
        b == is_parent_name(name@),
{
    broadcast use vstd::string::group_string_axioms;

    let mut chars = name.chars();
    let first = chars.next();
    let second = chars.next();
    let third = chars.next();
    proof {
        assert(name@.skip(0) =~= name@);
        if name@.len() >= 2 {
            assert(name@.drop_first().drop_first() =~= name@.skip(2));
        }
        if first == Some('.') && second == Some('.') && third is None {
            assert(name@ =~= seq!['.', '.']);
        }
    }
    first == Some('.') && second == Some('.') && third.is_none()
}

} // verus!
