//! Tags taken from thread names of the form `a::b::tag`.
use vstd::prelude::*;
use vstd::string::{StrSliceExecFns, StringExecFns};

verus! {

/// Scans `s` from `i` for non-overlapping `::` separators, left to right,
/// and gives the position after the last one found (`last` so far).
pub open spec fn last_separator_end(s: Seq<char>, i: int, last: Option<int>) -> Option<int>
    decreases s.len() - i,
{
    if i >= s.len() {
        last
    } else if i + 1 < s.len() && s[i] == ':' && s[i + 1] == ':' {
        last_separator_end(s, i + 2, Some(i + 2))
    } else {
        last_separator_end(s, i + 1, last)
    }
}

/// The tag of a thread name: what follows its last `::` separator, when it
/// has one (the last piece of the name split at `::`, after the first).
pub open spec fn thread_tag(s: Seq<char>) -> Option<Seq<char>> {
    match last_separator_end(s, 0, None) {
        Some(k) => Some(s.subrange(k, s.len() as int)),
        None => None,
    }
}

/// A `::` separator starts at position `j` of `s`.
pub open spec fn separator_at(s: Seq<char>, j: int) -> bool {
    0 <= j && j + 1 < s.len() && s[j] == ':' && s[j + 1] == ':'
}

/// The scan from `i` ends after a separator with none from there on, or
/// finds none when none was found before `i` either.
proof fn lemma_last_separator_end(s: Seq<char>, i: int, last: Option<int>)
    requires
        0 <= i <= s.len(),
        last matches Some(k) ==> 2 <= k <= i && s[k - 2] == ':' && s[k - 1] == ':' && forall|j: int|
            k <= j < i ==> !separator_at(s, j),
        last is None ==> forall|j: int| 0 <= j < i ==> !separator_at(s, j),
    ensures
        match last_separator_end(s, i, last) {
            Some(k) => 2 <= k <= s.len() && s[k - 2] == ':' && s[k - 1] == ':' && forall|j: int|
                k <= j ==> !separator_at(s, j),
            None => forall|j: int| !separator_at(s, j),
        },
    decreases s.len() - i,
{
    if i >= s.len() {
    } else if i + 1 < s.len() && s[i] == ':' && s[i + 1] == ':' {
        lemma_last_separator_end(s, i + 2, Some(i + 2));
    } else {
        assert(!separator_at(s, i));
        lemma_last_separator_end(s, i + 1, last);
    }
}

/// The tag holds no `::` separator: it is what follows the last separator
/// of the name, which ends with `::` and the tag. A name without a tag has
/// no separator at all.
pub proof fn lemma_thread_tag_after_last_separator(s: Seq<char>)
    ensures
        thread_tag(s) matches Some(t) ==> (forall|j: int| !separator_at(t, j)) && t.len() + 2
            <= s.len() && s.subrange(s.len() - t.len(), s.len() as int) == t && s[s.len() - t.len()
            - 2] == ':' && s[s.len() - t.len() - 1] == ':',
        thread_tag(s) is None ==> forall|j: int| !separator_at(s, j),
{
    lemma_last_separator_end(s, 0, None);
    if let Some(k) = last_separator_end(s, 0, None) {
        let t = s.subrange(k, s.len() as int);
        assert forall|j: int| !separator_at(t, j) by {
            if separator_at(t, j) {
                assert(separator_at(s, k + j));
            }
        }
    }
}

/// With no separator from `i` on, the scan keeps what it found before.
proof fn lemma_scan_no_more_separators(s: Seq<char>, i: int, last: Option<int>)
    requires
        0 <= i,
        forall|j: int| i <= j ==> !separator_at(s, j),
    ensures
        last_separator_end(s, i, last) == last,
    decreases s.len() - i,
{
    if i < s.len() {
        assert(!separator_at(s, i));
        lemma_scan_no_more_separators(s, i + 1, last);
    }
}

/// The scan passes through `m` when `s[m - 1]` is no colon: it never jumps
/// over `m`.
proof fn lemma_scan_reaches(s: Seq<char>, i: int, last: Option<int>, m: int) -> (l2: Option<int>)
    requires
        0 <= i <= m <= s.len(),
        m > 0 ==> s[m - 1] != ':',
    ensures
        last_separator_end(s, i, last) == last_separator_end(s, m, l2),
    decreases m - i,
{
    if i == m {
        last
    } else if i + 1 < s.len() && s[i] == ':' && s[i + 1] == ':' {
        lemma_scan_reaches(s, i + 2, Some(i + 2), m)
    } else {
        lemma_scan_reaches(s, i + 1, last, m)
    }
}

/// The tag of `h`, `::` and `t` is `t`, when `t` holds no separator and `h`
/// does not end with a colon (so that the `::` before `t` is a separator of
/// its own): the name `a::b::tag` has the tag `tag`.
pub proof fn lemma_thread_tag_of_joined(h: Seq<char>, t: Seq<char>)
    requires
        h.len() == 0 || h.last() != ':',
        forall|j: int| !separator_at(t, j),
    ensures
        thread_tag(h + seq![':', ':'] + t) == Some(t),
{
    let s = h + seq![':', ':'] + t;
    let m = h.len() as int;
    let l2 = lemma_scan_reaches(s, 0, None, m);
    assert(s[m] == ':' && s[m + 1] == ':');
    assert forall|j: int| m + 2 <= j implies !separator_at(s, j) by {
        if separator_at(s, j) {
            assert(separator_at(t, j - m - 2));
        }
    }
    lemma_scan_no_more_separators(s, m + 2, Some(m + 2));
    assert(s.subrange(m + 2, s.len() as int) =~= t);
}

/// The tag of a thread named `name` (see `thread_tag`); none for a thread
/// without a name.
pub fn get_tag_from_thread_name(name: Option<&str>) -> (r: Option<String>)
    ensures
        name is None ==> r is None,
        name matches Some(s) ==> match thread_tag(s@) {
            Some(t) => r matches Some(x) && x@ == t,
            None => r is None,
        },
        r matches Some(x) ==> forall|j: int| !separator_at(x@, j),
{
    proof {
        if let Some(s) = name {
            lemma_thread_tag_after_last_separator(s@);
        }
    }
    match name {
        None => None,
        Some(s) => {
            let n = s.unicode_len();
            let mut i: usize = 0;
            let mut last: Option<usize> = None;
            while i < n
                invariant
                    n == s@.len(),
                    i <= n + 1,
                    last matches Some(k) ==> k <= n,
                    last_separator_end(s@, 0, None) == last_separator_end(
                        s@,
                        i as int,
                        match last {
                            Some(k) => Some(k as int),
                            None => None,
                        },
                    ),
                decreases n - i,
            {
                if i + 1 < n && s.get_char(i) == ':' && s.get_char(i + 1) == ':' {
                    i = i + 2;
                    last = Some(i);
                } else {
                    i = i + 1;
                }
            }
            match last {
                Some(k) => Some(String::from_str(s.substring_char(k, n))),
                None => None,
            }
        },
    }
}

} // verus!
